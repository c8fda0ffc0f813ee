//! End-to-end checks of the scanner on concrete sources: token kinds,
//! payloads, and the row/column each token reports.

use lexer::lexer::{LexError, Lexer, Literals, Operators, Token, TokenLocation};

fn loc(row: usize, col: usize) -> TokenLocation {
    TokenLocation { row, col }
}

fn op(row: usize, col: usize, operator: Operators) -> Token {
    Token::Operator(loc(row, col), operator)
}

fn string_lit(row: usize, col: usize, payload: &[u8]) -> Token {
    Token::Literal(loc(row, col), Literals::StringLiteral(payload.to_vec()))
}

fn number_lit(row: usize, col: usize, payload: &[u8]) -> Token {
    Token::Literal(loc(row, col), Literals::NumberLiteral(payload.to_vec()))
}

fn scan(source: &[u8]) -> Result<Vec<Token>, LexError> {
    let mut scanner = Lexer::new();
    scanner.lex(source)
}

#[test]
fn empty_source_yields_one_eof() {
    assert_eq!(scan(b""), Ok(vec![Token::EOF(loc(1, 1))]));
}

#[test]
fn spaces_only_yield_one_eof() {
    assert_eq!(scan(b"   "), Ok(vec![Token::EOF(loc(1, 4))]));
}

#[test]
fn line_breaks_only_yield_one_eof() {
    let tokens = scan(b" \n \n  ").unwrap();
    assert_eq!(tokens.len(), 1);
    assert!(matches!(tokens[0], Token::EOF(_)));
}

#[test]
fn single_plus() {
    assert_eq!(
        scan(b"+"),
        Ok(vec![op(1, 1, Operators::Plus), Token::EOF(loc(1, 2))])
    );
}

#[test]
fn double_plus_is_increment() {
    // The increment token reports the position of its second `+`.
    assert_eq!(
        scan(b"++"),
        Ok(vec![op(1, 2, Operators::Increment), Token::EOF(loc(1, 3))])
    );
}

#[test]
fn separated_pluses_stay_plus() {
    assert_eq!(
        scan(b"+ +"),
        Ok(vec![
            op(1, 1, Operators::Plus),
            op(1, 3, Operators::Plus),
            Token::EOF(loc(1, 4)),
        ])
    );
}

#[test]
fn double_minus_is_decrement() {
    assert_eq!(
        scan(b"--"),
        Ok(vec![op(1, 2, Operators::Decrement), Token::EOF(loc(1, 3))])
    );
}

#[test]
fn separated_minuses_stay_minus() {
    assert_eq!(
        scan(b"- -"),
        Ok(vec![
            op(1, 1, Operators::Minus),
            op(1, 3, Operators::Minus),
            Token::EOF(loc(1, 4)),
        ])
    );
}

#[test]
fn star_and_assignment() {
    assert_eq!(
        scan(b"*="),
        Ok(vec![
            op(1, 1, Operators::Star),
            op(1, 2, Operators::Assignment),
            Token::EOF(loc(1, 3)),
        ])
    );
}

#[test]
fn braces_and_parens_at_sequential_columns() {
    assert_eq!(
        scan(b"{}()"),
        Ok(vec![
            Token::OpenBrace(loc(1, 1)),
            Token::CloseBrace(loc(1, 2)),
            Token::OpenParen(loc(1, 3)),
            Token::CloseParen(loc(1, 4)),
            Token::EOF(loc(1, 5)),
        ])
    );
}

#[test]
fn string_literal_payload_excludes_quotes() {
    // The string token reports the scanner's position at the closing quote.
    assert_eq!(
        scan(b"\"abc\""),
        Ok(vec![string_lit(1, 5, b"abc"), Token::EOF(loc(1, 6))])
    );
}

#[test]
fn empty_string_literal() {
    assert_eq!(
        scan(b"\"\""),
        Ok(vec![string_lit(1, 2, b""), Token::EOF(loc(1, 3))])
    );
}

#[test]
fn number_with_decimal_point() {
    assert_eq!(
        scan(b"123.258"),
        Ok(vec![number_lit(1, 1, b"123.258"), Token::EOF(loc(1, 8))])
    );
}

#[test]
fn short_decimal_number() {
    assert_eq!(
        scan(b"0.2"),
        Ok(vec![number_lit(1, 1, b"0.2"), Token::EOF(loc(1, 4))])
    );
}

#[test]
fn single_digit_number() {
    assert_eq!(
        scan(b"5"),
        Ok(vec![number_lit(1, 1, b"5"), Token::EOF(loc(1, 2))])
    );
}

#[test]
fn number_may_end_in_decimal_point() {
    assert_eq!(
        scan(b"1."),
        Ok(vec![number_lit(1, 1, b"1."), Token::EOF(loc(1, 3))])
    );
}

#[test]
fn two_numbers_split_by_space() {
    assert_eq!(
        scan(b"1.2 3"),
        Ok(vec![
            number_lit(1, 1, b"1.2"),
            number_lit(1, 5, b"3"),
            Token::EOF(loc(1, 6)),
        ])
    );
}

#[test]
fn comment_produces_no_tokens() {
    // The comment does not consume the line break that ends it; the `+` on
    // the next line is scanned at row 2.
    assert_eq!(
        scan(b"# comment\n+"),
        Ok(vec![op(2, 1, Operators::Plus), Token::EOF(loc(2, 2))])
    );
}

#[test]
fn comment_alone_yields_one_eof() {
    assert_eq!(scan(b"# nothing here"), Ok(vec![Token::EOF(loc(1, 16))]));
}

#[test]
fn second_line_tokens_report_row_two() {
    // A token directly after a line break is scanned at column 1 of the next
    // row.
    assert_eq!(
        scan(b"*\n*"),
        Ok(vec![
            op(1, 1, Operators::Star),
            op(2, 1, Operators::Star),
            Token::EOF(loc(2, 2)),
        ])
    );
}

#[test]
fn token_after_indented_line_break() {
    assert_eq!(
        scan(b"*\n *"),
        Ok(vec![
            op(1, 1, Operators::Star),
            op(2, 2, Operators::Star),
            Token::EOF(loc(2, 3)),
        ])
    );
}

#[test]
fn carriage_return_pair_counts_as_two_line_breaks() {
    // `\r\n` double-increments the row: one advance per byte, each crossing
    // a line break.
    assert_eq!(scan(b"\r\n"), Ok(vec![Token::EOF(loc(3, 1))]));
}

#[test]
fn scanner_is_reusable_and_position_carries_over() {
    // A second scan restarts the cursor and the token list, but row/column
    // continue where the previous scan stopped.
    let mut scanner = Lexer::new();
    assert_eq!(
        scanner.lex(b"+"),
        Ok(vec![op(1, 1, Operators::Plus), Token::EOF(loc(1, 2))])
    );
    assert_eq!(
        scanner.lex(b"*"),
        Ok(vec![op(1, 2, Operators::Star), Token::EOF(loc(1, 3))])
    );
}

#[test]
fn mixed_line_scans_in_source_order() {
    let tokens = scan(b"{ \"hi\" 4.5 }").unwrap();
    assert_eq!(
        tokens,
        vec![
            Token::OpenBrace(loc(1, 1)),
            string_lit(1, 6, b"hi"),
            number_lit(1, 8, b"4.5"),
            Token::CloseBrace(loc(1, 12)),
            Token::EOF(loc(1, 13)),
        ]
    );
}

#[test]
fn literal_payloads_round_trip_to_source_slices() {
    // Reinserting the quotes around each string payload reproduces, in
    // order, the exact slices of the source that the literal lexemes cover.
    let source: &[u8] = b"\"ab\" 12";
    let tokens = scan(source).unwrap();
    let mut rebuilt: Vec<Vec<u8>> = Vec::new();
    for token in &tokens {
        match token {
            Token::Literal(_, Literals::StringLiteral(payload)) => {
                let mut with_quotes = vec![b'"'];
                with_quotes.extend_from_slice(payload);
                with_quotes.push(b'"');
                rebuilt.push(with_quotes);
            }
            Token::Literal(_, Literals::NumberLiteral(payload)) => {
                rebuilt.push(payload.clone());
            }
            _ => {}
        }
    }
    assert_eq!(rebuilt.len(), 2);
    assert_eq!(rebuilt[0], source[0..4].to_vec());
    assert_eq!(rebuilt[1], source[5..7].to_vec());
}

#[test]
fn string_body_may_hold_spaces_and_operator_bytes() {
    assert_eq!(
        scan(b"\"a + b\""),
        Ok(vec![string_lit(1, 7, b"a + b"), Token::EOF(loc(1, 8))])
    );
}

#[test]
fn digits_inside_a_comment_are_not_literals() {
    // Comment text holds no literal material; the digit on the next line is
    // the only literal token.
    assert_eq!(
        scan(b"# 12\n3"),
        Ok(vec![number_lit(2, 1, b"3"), Token::EOF(loc(2, 2))])
    );
}
