use hexserver::board::AxialPoint;
use hexserver::board::CellState;
use hexserver::command::encode;
use hexserver::command::Command;
use hexserver::command::ValidationError;
use hexserver::registry::LISTENER_TOKEN;
use hexserver::server::Action;
use hexserver::server::Server;
use hexserver::session::CloseReason;
use hexserver::session::encode_frame;

fn frame(kind: u8, payload: &[u8]) -> Vec<u8> {
    encode_frame(kind, payload)
}

fn place_frame(q: i64, r: i64) -> Vec<u8> {
    frame(1, &encode(&Command::PlacePiece { position: AxialPoint { q, r } }))
}

fn upgraded_server() -> (Server, u64) {
    let mut server = Server::new();
    let token = server.on_accept();
    let acts = server.on_readable(token, b"GET / HTTP/1.1\r\n\r\n");
    assert_eq!(acts.len(), 1);
    match &acts[0] {
        Action::Send(v) => {
            assert_eq!(v, &b"HTTP/1.1 101 Switching Protocols\r\n\r\n".to_vec())
        }
        _ => panic!("expected the handshake response"),
    }
    (server, token)
}

#[test]
fn accepts_issue_distinct_non_sentinel_tokens() {
    let mut server = Server::new();
    let mut tokens = Vec::new();
    for _ in 0..10 {
        let t = server.on_accept();
        assert_ne!(t, LISTENER_TOKEN);
        assert!(!tokens.contains(&t), "token {} issued twice", t);
        assert!(server.registry.has_token(t));
        tokens.push(t);
    }
    // disconnect churn does not lead to reuse either
    server.on_disconnect(tokens[3]);
    let t = server.on_accept();
    assert!(!tokens.contains(&t));
}

#[test]
fn disconnect_is_idempotent() {
    let mut server = Server::new();
    let t = server.on_accept();
    server.on_disconnect(t);
    assert!(!server.registry.has_token(t));
    server.on_disconnect(t);
    assert!(!server.registry.has_token(t));
}

#[test]
fn place_piece_at_origin_succeeds() {
    let (mut server, token) = upgraded_server();
    let acts = server.on_readable(token, &place_frame(0, 0));
    assert!(acts.is_empty());
    let cell = server.game.get(&AxialPoint { q: 0, r: 0 }).unwrap();
    assert_ne!(cell, CellState::Empty);
}

#[test]
fn out_of_bounds_place_is_rejected_and_board_unchanged() {
    let (mut server, token) = upgraded_server();
    let acts = server.on_readable(token, &place_frame(4, 0));
    assert_eq!(acts.len(), 1);
    assert!(matches!(
        acts[0],
        Action::Reject(ValidationError::OutOfBounds)
    ));
    for q in -3..=3 {
        for r in -3..=3 {
            assert_eq!(
                server.game.get(&AxialPoint { q, r }),
                Ok(CellState::Empty)
            );
        }
    }
    // the connection stays open
    assert!(server.registry.has_token(token));
}

#[test]
fn occupied_cell_is_rejected_and_kept() {
    let (mut server, token) = upgraded_server();
    assert!(server.on_readable(token, &place_frame(1, -1)).is_empty());
    let before = server.game.get(&AxialPoint { q: 1, r: -1 }).unwrap();
    let acts = server.on_readable(token, &place_frame(1, -1));
    assert_eq!(acts.len(), 1);
    assert!(matches!(acts[0], Action::Reject(ValidationError::Occupied)));
    assert_eq!(server.game.get(&AxialPoint { q: 1, r: -1 }), Ok(before));
}

#[test]
fn binary_frame_closes_with_unsupported_payload() {
    let (mut server, token) = upgraded_server();
    let acts = server.on_readable(token, &frame(2, &[1, 2, 3]));
    assert_eq!(acts.len(), 1);
    assert!(matches!(
        acts[0],
        Action::Close(CloseReason::UnsupportedPayload)
    ));
    assert!(!server.registry.has_token(token));
}

#[test]
fn unparseable_text_frame_closes_with_protocol_error() {
    let (mut server, token) = upgraded_server();
    let acts = server.on_readable(token, &frame(1, b"not a document"));
    assert_eq!(acts.len(), 1);
    assert!(matches!(acts[0], Action::Close(CloseReason::ProtocolError)));
    assert!(!server.registry.has_token(token));
}

#[test]
fn unknown_command_is_rejected_and_connection_stays() {
    let (mut server, token) = upgraded_server();
    let acts = server.on_readable(
        token,
        &frame(1, b"{\"type\":\"swap_sides\",\"position\":{\"q\":0,\"r\":0}}"),
    );
    assert_eq!(acts.len(), 1);
    assert!(matches!(
        acts[0],
        Action::Reject(ValidationError::UnknownCommand)
    ));
    assert!(server.registry.has_token(token));
}

#[test]
fn split_handshake_upgrades_once_and_keeps_leftover() {
    let mut server = Server::new();
    let token = server.on_accept();
    // first read ends mid-handshake
    let acts = server.on_readable(token, b"GET / HTTP/1.1\r\nHost: x\r");
    assert!(acts.is_empty());
    // the rest arrives, followed immediately by a complete command frame
    let mut rest = b"\n\r\n".to_vec();
    rest.extend_from_slice(&place_frame(0, 0));
    let acts = server.on_readable(token, &rest);
    assert_eq!(acts.len(), 1);
    assert!(matches!(acts[0], Action::Send(_)));
    // the command retained past the handshake was parsed and applied
    assert_ne!(
        server.game.get(&AxialPoint { q: 0, r: 0 }).unwrap(),
        CellState::Empty
    );
}

#[test]
fn malformed_handshake_closes_with_protocol_error() {
    let mut server = Server::new();
    let token = server.on_accept();
    let acts = server.on_readable(token, b"PUT / HTTP/1.1\r\n\r\n");
    assert_eq!(acts.len(), 1);
    assert!(matches!(acts[0], Action::Close(CloseReason::ProtocolError)));
    assert!(!server.registry.has_token(token));
}

#[test]
fn bytes_for_unknown_token_are_ignored() {
    let mut server = Server::new();
    let acts = server.on_readable(77, b"anything");
    assert!(acts.is_empty());
}

#[test]
fn two_frames_in_one_read_are_both_applied() {
    let (mut server, token) = upgraded_server();
    let mut data = place_frame(0, 0);
    data.extend_from_slice(&place_frame(1, 0));
    let acts = server.on_readable(token, &data);
    assert!(acts.is_empty());
    assert_ne!(
        server.game.get(&AxialPoint { q: 0, r: 0 }).unwrap(),
        CellState::Empty
    );
    assert_ne!(
        server.game.get(&AxialPoint { q: 1, r: 0 }).unwrap(),
        CellState::Empty
    );
}
