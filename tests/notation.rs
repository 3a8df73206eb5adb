use mcts_engine::notation::{parse_move, serialize_move};

#[test]
fn parses_board_moves() {
    assert_eq!(parse_move(&"a2b3".to_string()), (8, 17));
    assert_eq!(parse_move(&"h8h7".to_string()), (63, 55));
    assert_eq!(parse_move(&"a1a1\n".to_string()), (0, 0));
}

#[test]
fn parse_wraps_below_the_board() {
    assert_eq!(parse_move(&"a0a1".to_string()), ((-8i32) as u32, 0));
}

#[test]
fn serializes_board_moves() {
    assert_eq!(serialize_move(&(8, 17)), "a2b3");
    assert_eq!(serialize_move(&(63, 0)), "h8a1");
    assert_eq!(serialize_move(&(80, 9)), "a11b2");
}

#[test]
fn notation_round_trip() {
    for from in 0..64u32 {
        for to in [0u32, 7, 35, 63] {
            assert_eq!(parse_move(&serialize_move(&(from, to))), (from, to));
        }
    }
}
