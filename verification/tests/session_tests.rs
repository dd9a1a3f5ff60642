use hexserver::session::ConnectedPeer;
use hexserver::session::Frame;
use hexserver::session::FrameStep;
use hexserver::session::HandshakeOutcome;
use hexserver::session::PeerState;
use hexserver::session::handshake_response;
use hexserver::session::encode_frame;

fn frame(kind: u8, payload: &[u8]) -> Vec<u8> {
    encode_frame(kind, payload)
}

#[test]
fn split_handshake_upgrades_exactly_once() {
    let mut peer = ConnectedPeer::new();
    assert_eq!(peer.state, PeerState::AwaitingUpgrade);
    // first read ends mid-handshake: no transition
    peer.append_bytes(b"GET / HTTP/1.1\r\nHost: example\r\n");
    assert_eq!(peer.try_upgrade(), HandshakeOutcome::Incomplete);
    assert_eq!(peer.state, PeerState::AwaitingUpgrade);
    // the terminator arrives, with session bytes already behind it
    peer.append_bytes(b"\r\nLEFTOVER");
    assert_eq!(peer.try_upgrade(), HandshakeOutcome::Accepted);
    assert_eq!(peer.state, PeerState::Upgraded);
    assert_eq!(peer.buffer, b"LEFTOVER".to_vec());
}

#[test]
fn malformed_handshake_is_rejected() {
    let mut peer = ConnectedPeer::new();
    peer.append_bytes(b"PUT / HTTP/1.1\r\n\r\n");
    assert_eq!(peer.try_upgrade(), HandshakeOutcome::Rejected);
    assert_eq!(peer.state, PeerState::AwaitingUpgrade);
}

#[test]
fn handshake_response_is_switching_protocols() {
    assert_eq!(
        handshake_response(),
        b"HTTP/1.1 101 Switching Protocols\r\n\r\n".to_vec()
    );
}

fn upgraded_peer() -> ConnectedPeer {
    let mut peer = ConnectedPeer::new();
    peer.append_bytes(b"GET / HTTP/1.1\r\n\r\n");
    assert_eq!(peer.try_upgrade(), HandshakeOutcome::Accepted);
    peer
}

#[test]
fn encode_frame_writes_kind_length_and_payload() {
    assert_eq!(encode_frame(1, b"abc"), vec![1, 0, 0, 0, 3, 97, 98, 99]);
    assert_eq!(encode_frame(2, &[]), vec![2, 0, 0, 0, 0]);
    let big = vec![7u8; 300];
    let v = encode_frame(1, &big);
    assert_eq!(&v[..5], &[1, 0, 0, 1, 44]);
    assert_eq!(&v[5..], &big[..]);
}

#[test]
fn text_frame_is_extracted_with_rest_retained() {
    let mut peer = upgraded_peer();
    let mut bytes = frame(1, b"hello");
    bytes.extend_from_slice(&[9, 9]);
    peer.append_bytes(&bytes);
    match peer.next_frame() {
        FrameStep::Got(Frame::Text(p)) => assert_eq!(p, b"hello".to_vec()),
        _ => panic!("expected a text frame"),
    }
    assert_eq!(peer.buffer, vec![9, 9]);
}

#[test]
fn binary_frame_is_reported_as_binary() {
    let mut peer = upgraded_peer();
    peer.append_bytes(&frame(2, &[0, 1, 2]));
    match peer.next_frame() {
        FrameStep::Got(Frame::Binary(p)) => assert_eq!(p, vec![0, 1, 2]),
        _ => panic!("expected a binary frame"),
    }
}

#[test]
fn unknown_frame_kind_is_flagged() {
    let mut peer = upgraded_peer();
    peer.append_bytes(&frame(7, b"x"));
    assert!(matches!(peer.next_frame(), FrameStep::BadKind));
}

#[test]
fn partial_frame_waits_for_more_bytes() {
    let mut peer = upgraded_peer();
    let bytes = frame(1, b"abcdef");
    // only part of the frame has arrived
    peer.append_bytes(&bytes[..7]);
    assert!(matches!(peer.next_frame(), FrameStep::Incomplete));
    assert_eq!(peer.buffer, bytes[..7].to_vec());
    // the rest completes it
    peer.append_bytes(&bytes[7..]);
    match peer.next_frame() {
        FrameStep::Got(Frame::Text(p)) => assert_eq!(p, b"abcdef".to_vec()),
        _ => panic!("expected a text frame"),
    }
    assert!(peer.buffer.is_empty());
}
