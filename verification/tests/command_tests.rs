use hexserver::board::AxialPoint;
use hexserver::board::CellState;
use hexserver::board::GameState;
use hexserver::command::apply;
use hexserver::command::encode;
use hexserver::command::parse;
use hexserver::command::Command;
use hexserver::command::ParseError;
use hexserver::command::ValidationError;

fn place(q: i64, r: i64) -> Command {
    Command::PlacePiece { position: AxialPoint { q, r } }
}

#[test]
fn encode_produces_wire_document() {
    let bytes = encode(&place(0, 0));
    assert_eq!(
        bytes,
        b"{\"type\":\"place_piece\",\"position\":{\"q\":0,\"r\":0}}".to_vec()
    );
    let bytes = encode(&place(-12, 345));
    assert_eq!(
        bytes,
        b"{\"type\":\"place_piece\",\"position\":{\"q\":-12,\"r\":345}}".to_vec()
    );
}

#[test]
fn parse_reads_wire_document() {
    let res = parse(b"{\"type\":\"place_piece\",\"position\":{\"q\":2,\"r\":-3}}");
    assert_eq!(res, Ok(place(2, -3)));
}

#[test]
fn round_trip_preserves_command() {
    for (q, r) in [
        (0, 0),
        (3, -3),
        (-3, 3),
        (1, 2),
        (i64::MAX, i64::MIN),
        (-1, 10),
        (100, -100),
    ] {
        let c = place(q, r);
        assert_eq!(parse(encode(&c).as_slice()), Ok(c));
    }
}

#[test]
fn unknown_type_is_its_own_error() {
    let res = parse(b"{\"type\":\"swap_sides\",\"position\":{\"q\":0,\"r\":0}}");
    assert_eq!(res, Err(ParseError::UnknownType));
}

#[test]
fn malformed_documents_are_rejected() {
    // no document at all
    assert_eq!(parse(b""), Err(ParseError::Malformed));
    assert_eq!(parse(b"hello"), Err(ParseError::Malformed));
    // missing position field
    assert_eq!(parse(b"{\"type\":\"place_piece\"}"), Err(ParseError::Malformed));
    // wrong field type for q
    assert_eq!(
        parse(b"{\"type\":\"place_piece\",\"position\":{\"q\":\"x\",\"r\":0}}"),
        Err(ParseError::Malformed)
    );
    // non-canonical integer: leading zero
    assert_eq!(
        parse(b"{\"type\":\"place_piece\",\"position\":{\"q\":01,\"r\":0}}"),
        Err(ParseError::Malformed)
    );
    // integer too large for 64 bits
    assert_eq!(
        parse(b"{\"type\":\"place_piece\",\"position\":{\"q\":99999999999999999999,\"r\":0}}"),
        Err(ParseError::Malformed)
    );
    // trailing garbage
    assert_eq!(
        parse(b"{\"type\":\"place_piece\",\"position\":{\"q\":0,\"r\":0}}x"),
        Err(ParseError::Malformed)
    );
}

#[test]
fn apply_places_on_empty_cell() {
    let mut game = GameState::new();
    let res = apply(&mut game, &place(0, 0), CellState::Red);
    assert_eq!(res, Ok(()));
    assert_eq!(game.get(&AxialPoint { q: 0, r: 0 }), Ok(CellState::Red));
}

#[test]
fn apply_rejects_occupied_cell_and_keeps_it() {
    let mut game = GameState::new();
    assert_eq!(apply(&mut game, &place(1, 1), CellState::Red), Ok(()));
    let res = apply(&mut game, &place(1, 1), CellState::Blue);
    assert_eq!(res, Err(ValidationError::Occupied));
    assert_eq!(game.get(&AxialPoint { q: 1, r: 1 }), Ok(CellState::Red));
}

#[test]
fn apply_rejects_out_of_bounds_without_mutation() {
    let mut game = GameState::new();
    let res = apply(&mut game, &place(4, 0), CellState::Red);
    assert_eq!(res, Err(ValidationError::OutOfBounds));
    for q in -3..=3 {
        for r in -3..=3 {
            assert_eq!(game.get(&AxialPoint { q, r }), Ok(CellState::Empty));
        }
    }
}
