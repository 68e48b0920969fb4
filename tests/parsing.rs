use scopa::{parse_move_internal, parse_table_drop_move, parse_taking_move, Match, MoveError};

fn parse(s: &str) -> Option<(usize, Option<Vec<usize>>)> {
    parse_move_internal(s.as_bytes()).map(|m| (m.from, m.to))
}

#[test]
fn table_drop_form() {
    assert_eq!(parse("t0"), Some((0, None)));
    assert_eq!(parse("t12"), Some((12, None)));
    assert!(parse_table_drop_move(b"t2").is_some());
    assert!(parse_taking_move(b"t2").is_none());
}

#[test]
fn capture_form() {
    assert_eq!(parse("0;0+1"), Some((0, Some(vec![0, 1]))));
    assert_eq!(parse("2;3"), Some((2, Some(vec![3]))));
    assert_eq!(parse("1;4+0+2"), Some((1, Some(vec![4, 0, 2]))));
    assert!(parse_table_drop_move(b"0;1").is_none());
    assert!(parse_taking_move(b"0;1").is_some());
}

#[test]
fn malformed_moves_are_rejected() {
    for bad in ["", "t", "x;1+2", "0", "0;", "0;1+", "0;+1", ";1", "0;1;2", "t1x", "0;1 ", " t1", "t-1", "0;1++2", "T1"] {
        assert_eq!(parse(bad), None, "{bad:?} should not parse");
    }
}

#[test]
fn leading_zeros_are_rejected() {
    assert_eq!(parse("01;1"), None);
    assert_eq!(parse("1;01"), None);
    assert_eq!(parse("t00"), None);
    assert_eq!(parse("0;0"), Some((0, Some(vec![0]))));
}

#[test]
fn indices_must_fit_in_32_bits() {
    assert_eq!(parse("4294967295;0"), Some((4294967295, Some(vec![0]))));
    assert_eq!(parse("4294967296;0"), None);
    assert_eq!(parse("t99999999999"), None);
}

#[test]
fn match_parse_move_gives_parse_error() {
    assert!(matches!(Match::parse_move("x;1+2"), Err(MoveError::ParseError)));
    let m = Match::parse_move("t1").unwrap();
    assert_eq!(m.from, 1);
    assert!(m.to.is_none());
}
