use transit::reader::{Input, Line, ParseError};

#[test]
fn lines_are_read_in_order() {
    let mut input = Input::new(b"2 3\n0 1\n0 5\n".to_vec());
    assert_eq!(input.line().pair(), Ok((2, 3)));
    assert_eq!(input.line().collect(), Ok(vec![0, 1]));
    assert_eq!(input.line().collect(), Ok(vec![0, 5]));
    assert_eq!(input.line().collect(), Ok(vec![]));
}

#[test]
fn last_line_without_newline() {
    let mut input = Input::new(b"7\n 8  9 ".to_vec());
    assert_eq!(input.line().next(), Ok(7));
    let mut line = input.line();
    assert_eq!(line.next(), Ok(8));
    assert_eq!(line.next(), Ok(9));
    assert_eq!(line.next(), Err(ParseError::MissingToken));
}

#[test]
fn whitespace_of_all_kinds_separates() {
    let line = Line::from_bytes(b"\t1\r 22\x0b333\x0c".to_vec());
    assert_eq!(line.collect(), Ok(vec![1, 22, 333]));
}

#[test]
fn missing_number_is_reported() {
    let mut line = Line::from_bytes(b"   ".to_vec());
    assert_eq!(line.next(), Err(ParseError::MissingToken));
    let mut line = Line::from_bytes(b"5".to_vec());
    assert_eq!(line.pair(), Err(ParseError::MissingToken));
}

#[test]
fn non_numeric_token_is_rejected() {
    let mut line = Line::from_bytes(b"12x 4".to_vec());
    assert_eq!(line.next(), Err(ParseError::InvalidNumber));
    assert_eq!(line.next(), Ok(4));
    let line = Line::from_bytes(b"1 -2 3".to_vec());
    assert_eq!(line.collect(), Err(ParseError::InvalidNumber));
}

#[test]
fn numbers_up_to_u32_max() {
    let mut line = Line::from_bytes(b"4294967295 4294967296 0007".to_vec());
    assert_eq!(line.next(), Ok(u32::MAX));
    assert_eq!(line.next(), Err(ParseError::InvalidNumber));
    assert_eq!(line.next(), Ok(7));
}
