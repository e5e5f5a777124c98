use pente::input::parse_move;

#[test]
fn parses_single_digit_rows() {
    assert_eq!(parse_move("a0"), Some((0, 0)));
    assert_eq!(parse_move("j9"), Some((9, 9)));
    assert_eq!(parse_move("s0"), Some((18, 0)));
}

#[test]
fn parses_two_digit_rows() {
    assert_eq!(parse_move("a10"), Some((0, 10)));
    assert_eq!(parse_move("k15"), Some((10, 15)));
    assert_eq!(parse_move("s18"), Some((18, 18)));
    assert_eq!(parse_move("b00"), Some((1, 0)));
}

#[test]
fn rejects_malformed_input() {
    assert_eq!(parse_move(""), None);
    assert_eq!(parse_move("a"), None);
    assert_eq!(parse_move("5"), None);
    assert_eq!(parse_move("z5"), None);
    assert_eq!(parse_move("A5"), None);
    assert_eq!(parse_move("5a"), None);
    assert_eq!(parse_move("aa"), None);
    assert_eq!(parse_move("a1b"), None);
    assert_eq!(parse_move("a123"), None);
}

#[test]
fn rejects_rows_off_the_board() {
    assert_eq!(parse_move("a19"), None);
    assert_eq!(parse_move("a99"), None);
    assert_eq!(parse_move("s20"), None);
}
