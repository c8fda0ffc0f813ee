//! Checks of the scanner's failure cases: every failure aborts the whole
//! scan and reports a position.

use lexer::lexer::{LexError, Lexer, Token};

fn scan(source: &[u8]) -> Result<Vec<Token>, LexError> {
    let mut scanner = Lexer::new();
    scanner.lex(source)
}

#[test]
fn unterminated_string_at_end_of_input() {
    // The error carries the position of the opening quote, not of the point
    // where the input ran out.
    assert_eq!(
        scan(b"\"abc"),
        Err(LexError::UnterminatedString { row: 1, col: 1 })
    );
}

#[test]
fn unterminated_string_at_line_break() {
    assert_eq!(
        scan(b"\"ab\ncd\""),
        Err(LexError::UnterminatedString { row: 1, col: 1 })
    );
}

#[test]
fn unterminated_string_after_other_tokens() {
    assert_eq!(
        scan(b"+ \"oops"),
        Err(LexError::UnterminatedString { row: 1, col: 3 })
    );
}

#[test]
fn unrecognised_byte_is_invalid_character() {
    assert_eq!(
        scan(b"a"),
        Err(LexError::InvalidCharacter { character: b'a', row: 1, col: 1 })
    );
}

#[test]
fn second_decimal_point_ends_the_number_then_fails() {
    // The number lexeme stops before the second decimal point; the lone `.`
    // that follows starts no lexeme, so the whole scan fails there and no
    // partial token list is returned.
    assert_eq!(
        scan(b"1.2.3"),
        Err(LexError::InvalidCharacter { character: b'.', row: 1, col: 4 })
    );
}

#[test]
fn adjacent_second_decimal_point_fails_one_column_on() {
    assert_eq!(
        scan(b"1..2"),
        Err(LexError::InvalidCharacter { character: b'.', row: 1, col: 3 })
    );
}

#[test]
fn lone_decimal_point_is_invalid() {
    assert_eq!(
        scan(b".5"),
        Err(LexError::InvalidCharacter { character: b'.', row: 1, col: 1 })
    );
}

#[test]
fn invalid_byte_right_after_line_break() {
    assert_eq!(
        scan(b"\na"),
        Err(LexError::InvalidCharacter { character: b'a', row: 2, col: 1 })
    );
}

#[test]
fn invalid_character_reports_its_row() {
    assert_eq!(
        scan(b"+\n x"),
        Err(LexError::InvalidCharacter { character: b'x', row: 2, col: 2 })
    );
}
