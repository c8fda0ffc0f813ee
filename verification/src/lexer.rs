//! The scanner itself: token and error types, a mathematical model of the
//! scan, and the executable `Lexer` proved to agree with that model.
//!
//! The model works on a `Seq<u8>` of source bytes and an unbounded scanning
//! position, so it is total; the executable scanner matches it exactly on
//! every input whose positions fit in `usize`.

use vstd::prelude::*;

verus! {

/// Byte value of a line feed, one of the two recognised line breaks.
pub const NEW_LINE: u8 = 10;

/// Byte value of a carriage return, the other recognised line break.
/// A `\r\n` pair counts as two separate line breaks.
pub const CARRIAGE_RETURN: u8 = 13;

/// Byte value of a space.
pub const SPACE: u8 = 32;

/// Byte value of `+`.
pub const PLUS_SIGN: u8 = 43;

/// Byte value of `-`.
pub const MINUS_SIGN: u8 = 45;

/// Byte value of `*`.
pub const STAR_SIGN: u8 = 42;

/// Byte value of `=`.
pub const EQUALS_SIGN: u8 = 61;

/// Byte value of `{`.
pub const OPEN_BRACE: u8 = 123;

/// Byte value of `}`.
pub const CLOSE_BRACE: u8 = 125;

/// Byte value of `(`.
pub const OPEN_PAREN: u8 = 40;

/// Byte value of `)`.
pub const CLOSE_PAREN: u8 = 41;

/// Byte value of `"`.
pub const QUOTE: u8 = 34;

/// Byte value of `#`, which opens a single-line comment.
pub const HASH: u8 = 35;

/// Byte value of `0`.
pub const DIGIT_ZERO: u8 = 48;

/// Byte value of `9`.
pub const DIGIT_NINE: u8 = 57;

/// Byte value of `.`, the decimal point.
pub const DECIMAL_POINT: u8 = 46;

// ---------------------------------------------------------------------------
// Token and error types
// ---------------------------------------------------------------------------

/// A 1-indexed row/column position in the source text, recorded at the moment
/// a token is emitted.
#[derive(Clone, Copy, PartialEq, Eq, Structural, Debug)]
pub struct TokenLocation {
    pub row: usize,
    pub col: usize,
}

/// The operators of the language.
#[derive(Clone, Copy, PartialEq, Eq, Structural, Debug)]
pub enum Operators {
    Plus,
    Minus,
    Star,
    Assignment,
    Increment,
    Decrement,
}

/// A literal's payload: the raw bytes of the lexeme. A string literal's
/// payload excludes the surrounding quotes; a number literal's payload
/// includes any decimal point.
#[derive(Clone, PartialEq, Eq, Debug)]
pub enum Literals {
    StringLiteral(Vec<u8>),
    NumberLiteral(Vec<u8>),
}

/// One classified lexeme. Every variant carries the position at which it was
/// recorded; literals and operators carry a payload besides.
#[derive(Clone, PartialEq, Eq, Debug)]
pub enum Token {
    Operator(TokenLocation, Operators),
    OpenBrace(TokenLocation),
    CloseBrace(TokenLocation),
    OpenParen(TokenLocation),
    CloseParen(TokenLocation),
    Literal(TokenLocation, Literals),
    EOF(TokenLocation),
}

/// Why a scan failed. Every failure aborts the scan at once: no partial token
/// list is returned.
#[derive(Clone, Copy, PartialEq, Eq, Structural, Debug)]
pub enum LexError {
    /// A byte that starts no recognised lexeme, with the position at which it
    /// was met.
    InvalidCharacter { character: u8, row: usize, col: usize },
    /// A string literal whose opening quote is never matched before a line
    /// break or the end of input; the position is the string's start.
    UnterminatedString { row: usize, col: usize },
}

// ---------------------------------------------------------------------------
// Mathematical views of the token and error types
// ---------------------------------------------------------------------------

/// Mathematical view of a `TokenLocation`, over unbounded integers.
pub struct LocationView {
    pub row: int,
    pub col: int,
}

/// Mathematical view of a literal: its payload as a byte sequence.
pub enum LiteralsView {
    StringLiteral(Seq<u8>),
    NumberLiteral(Seq<u8>),
}

/// Mathematical view of a token.
pub enum TokenView {
    Operator(LocationView, Operators),
    OpenBrace(LocationView),
    CloseBrace(LocationView),
    OpenParen(LocationView),
    CloseParen(LocationView),
    Literal(LocationView, LiteralsView),
    EOF(LocationView),
}

/// Mathematical view of a scanning error.
pub enum LexErrorView {
    InvalidCharacter { character: u8, row: int, col: int },
    UnterminatedString { row: int, col: int },
}

impl View for TokenLocation {
    type V = LocationView;

    open spec fn view(&self) -> LocationView {
        LocationView { row: self.row as int, col: self.col as int }
    }
}

impl View for Literals {
    type V = LiteralsView;

    open spec fn view(&self) -> LiteralsView {
        match self {
            Literals::StringLiteral(bytes) => LiteralsView::StringLiteral(bytes@),
            Literals::NumberLiteral(bytes) => LiteralsView::NumberLiteral(bytes@),
        }
    }
}

impl View for Token {
    type V = TokenView;

    open spec fn view(&self) -> TokenView {
        match self {
            Token::Operator(loc, op) => TokenView::Operator(loc@, *op),
            Token::OpenBrace(loc) => TokenView::OpenBrace(loc@),
            Token::CloseBrace(loc) => TokenView::CloseBrace(loc@),
            Token::OpenParen(loc) => TokenView::OpenParen(loc@),
            Token::CloseParen(loc) => TokenView::CloseParen(loc@),
            Token::Literal(loc, lit) => TokenView::Literal(loc@, lit@),
            Token::EOF(loc) => TokenView::EOF(loc@),
        }
    }
}

impl View for LexError {
    type V = LexErrorView;

    open spec fn view(&self) -> LexErrorView {
        match self {
            LexError::InvalidCharacter { character, row, col } => (
                LexErrorView::InvalidCharacter {
                    character: *character,
                    row: *row as int,
                    col: *col as int,
                }
            ),
            LexError::UnterminatedString { row, col } => (
                LexErrorView::UnterminatedString { row: *row as int, col: *col as int }
            ),
        }
    }
}

/// The views of a sequence of tokens, element by element.
pub open spec fn views_of(tokens: Seq<Token>) -> Seq<TokenView> {
    tokens.map_values(|t: Token| t@)
}

/// The view of a whole scan result.
pub open spec fn lex_result_view(r: Result<Vec<Token>, LexError>) -> Result<
    Seq<TokenView>,
    LexErrorView,
> {
    match r {
        Ok(tokens) => Ok(views_of(tokens@)),
        Err(e) => Err(e@),
    }
}

// ---------------------------------------------------------------------------
// The model of the scan
// ---------------------------------------------------------------------------

/// The scanner's position while the model runs: current row, column, and byte
/// offset into the source.
pub struct ScanState {
    pub row: int,
    pub col: int,
    pub cur: int,
}

/// Whether a byte is one of the two line breaks.
pub open spec fn is_line_break(c: u8) -> bool {
    c == NEW_LINE || c == CARRIAGE_RETURN
}

/// Whether a byte continues a number lexeme: an ASCII digit or a decimal
/// point.
pub open spec fn spec_is_digit(c: u8) -> bool {
    (DIGIT_ZERO <= c && c <= DIGIT_NINE) || c == DECIMAL_POINT
}

/// Whether the scanner stands on a line break.
pub open spec fn at_line_break(code: Seq<u8>, cur: int) -> bool {
    0 <= cur < code.len() && is_line_break(code[cur])
}

/// One advance of the scanner: crossing a line break moves to the start of
/// the next row, anything else moves one column right; the offset always
/// moves one byte forward.
pub open spec fn stepped(code: Seq<u8>, st: ScanState) -> ScanState {
    if at_line_break(code, st.cur) {
        ScanState { row: st.row + 1, col: 1, cur: st.cur + 1 }
    } else {
        ScanState { row: st.row, col: st.col + 1, cur: st.cur + 1 }
    }
}

/// The position a token emitted at `st` carries.
pub open spec fn loc_of(st: ScanState) -> LocationView {
    LocationView { row: st.row, col: st.col }
}

/// How many bytes a comment starting at `i` covers: everything up to, but not
/// including, the first line break or the end of input.
pub open spec fn comment_len(code: Seq<u8>, i: int) -> nat
    decreases code.len() - i,
{
    if i >= code.len() || is_line_break(code[i]) {
        0
    } else {
        1 + comment_len(code, i + 1)
    }
}

/// How many bytes a string literal's body starting at `i` covers: everything
/// up to, but not including, the first closing quote, line break, or end of
/// input.
pub open spec fn string_body_len(code: Seq<u8>, i: int) -> nat
    decreases code.len() - i,
{
    if i >= code.len() || code[i] == QUOTE || is_line_break(code[i]) {
        0
    } else {
        1 + string_body_len(code, i + 1)
    }
}

/// How many advances number scanning makes from a scanner standing at `i`:
/// it advances while the byte one ahead is a digit or a decimal point, except
/// that a second decimal point ends the lexeme without being consumed.
pub open spec fn number_len(code: Seq<u8>, i: int, dot_seen: bool) -> nat
    decreases code.len() - i,
{
    if i + 1 >= code.len() || !spec_is_digit(code[i + 1]) {
        0
    } else if code[i + 1] == DECIMAL_POINT && dot_seen {
        0
    } else {
        1 + number_len(code, i + 1, dot_seen || code[i + 1] == DECIMAL_POINT)
    }
}

/// A comment never runs past the end of the source.
pub proof fn lemma_comment_len_bound(code: Seq<u8>, i: int)
    requires
        i <= code.len(),
    ensures
        i + comment_len(code, i) <= code.len(),
    decreases code.len() - i,
{
    if i < code.len() && !is_line_break(code[i]) {
        lemma_comment_len_bound(code, i + 1);
    }
}

/// A string literal's body never runs past the end of the source.
pub proof fn lemma_string_body_len_bound(code: Seq<u8>, i: int)
    requires
        i <= code.len(),
    ensures
        i + string_body_len(code, i) <= code.len(),
    decreases code.len() - i,
{
    if i < code.len() && code[i] != QUOTE && !is_line_break(code[i]) {
        lemma_string_body_len_bound(code, i + 1);
    }
}

/// Number scanning leaves the scanner on a byte of the source, never past its
/// end.
pub proof fn lemma_number_len_bound(code: Seq<u8>, i: int, dot_seen: bool)
    requires
        i < code.len(),
    ensures
        i + number_len(code, i, dot_seen) + 1 <= code.len(),
    decreases code.len() - i,
{
    if i + 1 < code.len() && spec_is_digit(code[i + 1]) && !(code[i + 1] == DECIMAL_POINT && dot_seen) {
        lemma_number_len_bound(code, i + 1, dot_seen || code[i + 1] == DECIMAL_POINT);
    }
}

/// The model of the scan from state `st` on, with the tokens emitted so far.
///
/// Each dispatch mirrors one iteration of the scanning loop: handle the byte
/// under the cursor, then make the loop's one unconditional trailing advance.
/// A line break met as a dispatch character is crossed by that trailing
/// advance alone, which moves to the start of the next row; the byte after it
/// is inspected by the next iteration.
pub open spec fn spec_lex_from(
    code: Seq<u8>,
    st: ScanState,
    tokens: Seq<TokenView>,
) -> Result<Seq<TokenView>, LexErrorView>
    decreases code.len() + 1 - st.cur,
{
    if st.cur >= code.len() {
        Ok(tokens.push(TokenView::EOF(loc_of(st))))
    } else {
        let c: u8 = code[st.cur];
        if c == SPACE || is_line_break(c) {
            spec_lex_from(code, stepped(code, st), tokens)
        } else if c == PLUS_SIGN || c == MINUS_SIGN {
            let paired: Operators = if c == PLUS_SIGN {
                Operators::Increment
            } else {
                Operators::Decrement
            };
            let single: Operators = if c == PLUS_SIGN {
                Operators::Plus
            } else {
                Operators::Minus
            };
            if st.cur + 1 < code.len() && code[st.cur + 1] == c {
                let at_second: ScanState = stepped(code, st);
                spec_lex_from(
                    code,
                    stepped(code, at_second),
                    tokens.push(TokenView::Operator(loc_of(at_second), paired)),
                )
            } else {
                spec_lex_from(
                    code,
                    stepped(code, st),
                    tokens.push(TokenView::Operator(loc_of(st), single)),
                )
            }
        } else if c == STAR_SIGN {
            spec_lex_from(
                code,
                stepped(code, st),
                tokens.push(TokenView::Operator(loc_of(st), Operators::Star)),
            )
        } else if c == EQUALS_SIGN {
            spec_lex_from(
                code,
                stepped(code, st),
                tokens.push(TokenView::Operator(loc_of(st), Operators::Assignment)),
            )
        } else if c == OPEN_BRACE {
            spec_lex_from(code, stepped(code, st), tokens.push(TokenView::OpenBrace(loc_of(st))))
        } else if c == CLOSE_BRACE {
            spec_lex_from(code, stepped(code, st), tokens.push(TokenView::CloseBrace(loc_of(st))))
        } else if c == OPEN_PAREN {
            spec_lex_from(code, stepped(code, st), tokens.push(TokenView::OpenParen(loc_of(st))))
        } else if c == CLOSE_PAREN {
            spec_lex_from(code, stepped(code, st), tokens.push(TokenView::CloseParen(loc_of(st))))
        } else if c == QUOTE {
            let body_start: int = st.cur + 1;
            let body_len: int = string_body_len(code, body_start) as int;
            let close: int = body_start + body_len;
            if close >= code.len() || code[close] != QUOTE {
                Err(LexErrorView::UnterminatedString { row: st.row, col: st.col })
            } else {
                let at_close: ScanState = ScanState {
                    row: st.row,
                    col: st.col + 1 + body_len,
                    cur: close,
                };
                spec_lex_from(
                    code,
                    stepped(code, at_close),
                    tokens.push(
                        TokenView::Literal(
                            loc_of(at_close),
                            LiteralsView::StringLiteral(code.subrange(body_start, close)),
                        ),
                    ),
                )
            }
        } else if c == HASH {
            let skipped: int = comment_len(code, st.cur) as int;
            proof {
                lemma_comment_len_bound(code, st.cur);
            }
            let at_end: ScanState = ScanState {
                row: st.row,
                col: st.col + skipped,
                cur: st.cur + skipped,
            };
            spec_lex_from(code, stepped(code, at_end), tokens)
        } else if DIGIT_ZERO <= c && c <= DIGIT_NINE {
            let consumed: int = number_len(code, st.cur, false) as int;
            proof {
                lemma_number_len_bound(code, st.cur, false);
            }
            let at_last: ScanState = ScanState {
                row: st.row,
                col: st.col + consumed,
                cur: st.cur + consumed,
            };
            spec_lex_from(
                code,
                stepped(code, at_last),
                tokens.push(
                    TokenView::Literal(
                        loc_of(st),
                        LiteralsView::NumberLiteral(code.subrange(st.cur, st.cur + consumed + 1)),
                    ),
                ),
            )
        } else {
            Err(LexErrorView::InvalidCharacter { character: c, row: st.row, col: st.col })
        }
    }
}

/// The model of a whole scan of `code`, starting from row `row` and column
/// `col` with an empty token list.
pub open spec fn spec_lex(code: Seq<u8>, row: int, col: int) -> Result<
    Seq<TokenView>,
    LexErrorView,
> {
    spec_lex_from(code, ScanState { row, col, cur: 0 }, Seq::<TokenView>::empty())
}


// ---------------------------------------------------------------------------
// General facts about the scan
// ---------------------------------------------------------------------------

/// Helper for `lemma_whitespace_only_scans_to_eof_alone`: from any state, a
/// remainder of spaces and line breaks adds exactly one end-of-input token.
proof fn lemma_whitespace_only_from(code: Seq<u8>, st: ScanState, tokens: Seq<TokenView>)
    requires
        0 <= st.cur,
        forall|i: int| 0 <= i < code.len() ==> (code[i] == SPACE || is_line_break(code[i])),
    ensures
        spec_lex_from(code, st, tokens) matches Ok(ts) && ts.len() == tokens.len() + 1
            && ts[tokens.len() as int] is EOF
            && (forall|k: int| 0 <= k < tokens.len() ==> ts[k] == tokens[k]),
    decreases code.len() + 1 - st.cur,
{
    if st.cur < code.len() {
        lemma_whitespace_only_from(code, stepped(code, st), tokens);
    }
}

/// A source consisting solely of spaces and line breaks scans successfully to
/// exactly one token, the end-of-input token.
pub proof fn lemma_whitespace_only_scans_to_eof_alone(code: Seq<u8>, row: int, col: int)
    requires
        forall|i: int| 0 <= i < code.len() ==> (code[i] == SPACE || code[i] == NEW_LINE
            || code[i] == CARRIAGE_RETURN),
    ensures
        spec_lex(code, row, col) matches Ok(tokens) && tokens.len() == 1 && tokens[0] is EOF,
{
    lemma_whitespace_only_from(code, ScanState { row, col, cur: 0 }, Seq::<TokenView>::empty());
}

/// Helper for `lemma_scan_ends_with_single_eof`: scanning on from any state
/// appends tokens of which only the very last is an end-of-input token.
proof fn lemma_scan_eof_from(code: Seq<u8>, st: ScanState, tokens: Seq<TokenView>)
    requires
        forall|k: int| 0 <= k < tokens.len() ==> !(tokens[k] is EOF),
    ensures
        spec_lex_from(code, st, tokens) matches Ok(ts) ==> ts.len() > tokens.len()
            && ts.last() is EOF && (forall|k: int| 0 <= k < ts.len() - 1 ==> !(ts[k] is EOF)),
    decreases code.len() + 1 - st.cur,
{
    if st.cur >= code.len() {
        let ts: Seq<TokenView> = tokens.push(TokenView::EOF(loc_of(st)));
        assert forall|k: int| 0 <= k < ts.len() - 1 implies !(ts[k] is EOF) by {
            assert(ts[k] == tokens[k]);
        }
    } else {
        let c: u8 = code[st.cur];
        if c == SPACE || is_line_break(c) {
            lemma_scan_eof_from(code, stepped(code, st), tokens);
        } else if c == PLUS_SIGN || c == MINUS_SIGN {
            let paired: Operators = if c == PLUS_SIGN {
                Operators::Increment
            } else {
                Operators::Decrement
            };
            let single: Operators = if c == PLUS_SIGN {
                Operators::Plus
            } else {
                Operators::Minus
            };
            if st.cur + 1 < code.len() && code[st.cur + 1] == c {
                let at_second: ScanState = stepped(code, st);
                lemma_scan_eof_from(
                    code,
                    stepped(code, at_second),
                    tokens.push(TokenView::Operator(loc_of(at_second), paired)),
                );
            } else {
                lemma_scan_eof_from(
                    code,
                    stepped(code, st),
                    tokens.push(TokenView::Operator(loc_of(st), single)),
                );
            }
        } else if c == STAR_SIGN {
            lemma_scan_eof_from(
                code,
                stepped(code, st),
                tokens.push(TokenView::Operator(loc_of(st), Operators::Star)),
            );
        } else if c == EQUALS_SIGN {
            lemma_scan_eof_from(
                code,
                stepped(code, st),
                tokens.push(TokenView::Operator(loc_of(st), Operators::Assignment)),
            );
        } else if c == OPEN_BRACE {
            lemma_scan_eof_from(code, stepped(code, st), tokens.push(TokenView::OpenBrace(loc_of(st))));
        } else if c == CLOSE_BRACE {
            lemma_scan_eof_from(code, stepped(code, st), tokens.push(TokenView::CloseBrace(loc_of(st))));
        } else if c == OPEN_PAREN {
            lemma_scan_eof_from(code, stepped(code, st), tokens.push(TokenView::OpenParen(loc_of(st))));
        } else if c == CLOSE_PAREN {
            lemma_scan_eof_from(code, stepped(code, st), tokens.push(TokenView::CloseParen(loc_of(st))));
        } else if c == QUOTE {
            let body_start: int = st.cur + 1;
            let body_len: int = string_body_len(code, body_start) as int;
            let close: int = body_start + body_len;
            if !(close >= code.len() || code[close] != QUOTE) {
                let at_close: ScanState = ScanState {
                    row: st.row,
                    col: st.col + 1 + body_len,
                    cur: close,
                };
                lemma_scan_eof_from(
                    code,
                    stepped(code, at_close),
                    tokens.push(
                        TokenView::Literal(
                            loc_of(at_close),
                            LiteralsView::StringLiteral(code.subrange(body_start, close)),
                        ),
                    ),
                );
            }
        } else if c == HASH {
            let skipped: int = comment_len(code, st.cur) as int;
            let at_end: ScanState = ScanState {
                row: st.row,
                col: st.col + skipped,
                cur: st.cur + skipped,
            };
            lemma_comment_len_bound(code, st.cur);
            lemma_scan_eof_from(code, stepped(code, at_end), tokens);
        } else if DIGIT_ZERO <= c && c <= DIGIT_NINE {
            let consumed: int = number_len(code, st.cur, false) as int;
            let at_last: ScanState = ScanState {
                row: st.row,
                col: st.col + consumed,
                cur: st.cur + consumed,
            };
            lemma_number_len_bound(code, st.cur, false);
            lemma_scan_eof_from(
                code,
                stepped(code, at_last),
                tokens.push(
                    TokenView::Literal(
                        loc_of(st),
                        LiteralsView::NumberLiteral(code.subrange(st.cur, st.cur + consumed + 1)),
                    ),
                ),
            );
        }
    }
}

/// A successful scan yields at least one token; its last token is an
/// end-of-input token, and no other token is one.
pub proof fn lemma_scan_ends_with_single_eof(code: Seq<u8>, row: int, col: int)
    ensures
        spec_lex(code, row, col) matches Ok(tokens) ==> tokens.len() >= 1
            && tokens.last() is EOF
            && (forall|k: int| 0 <= k < tokens.len() - 1 ==> !(tokens[k] is EOF)),
{
    lemma_scan_eof_from(code, ScanState { row, col, cur: 0 }, Seq::<TokenView>::empty());
}

/// One step of the gap between literal lexemes. `skippable_run` holds when
/// every byte of `[from, to)` is one the scanner passes over without starting
/// a literal: outside a comment, a space, a line break, an operator or
/// punctuation byte, or a `#` that opens a comment; inside a comment, any
/// byte, with a line break closing the comment.
pub open spec fn skippable_run(code: Seq<u8>, from: int, to: int, in_comment: bool) -> bool
    decreases to - from,
{
    if from >= to {
        true
    } else if in_comment {
        skippable_run(code, from + 1, to, !is_line_break(code[from]))
    } else if code[from] == HASH {
        skippable_run(code, from + 1, to, true)
    } else if code[from] == SPACE || is_line_break(code[from]) || code[from] == PLUS_SIGN
        || code[from] == MINUS_SIGN || code[from] == STAR_SIGN || code[from] == EQUALS_SIGN
        || code[from] == OPEN_BRACE || code[from] == CLOSE_BRACE || code[from] == OPEN_PAREN
        || code[from] == CLOSE_PAREN {
        skippable_run(code, from + 1, to, false)
    } else {
        false
    }
}

/// Holds when the literal tokens of `tokens`, from index `k` on, carry
/// payloads that are exact slices of `code` lying at or after byte `from`, in
/// token order and without overlap; a string literal's slice sits strictly
/// between two quote bytes of the source, its original delimiters; and the
/// gaps before, between, and after the slices are skippable runs, holding no
/// literal material. The slices are therefore exactly the source's literal
/// lexemes, in order.
pub open spec fn literal_slices_from(code: Seq<u8>, from: int, tokens: Seq<TokenView>, k: int) -> bool
    decreases tokens.len() - k,
{
    if k < 0 || k >= tokens.len() {
        skippable_run(code, from, code.len() as int, false)
    } else {
        match tokens[k] {
            TokenView::Literal(loc, lit) => match lit {
                LiteralsView::StringLiteral(payload) => exists|lo: int, hi: int|
                    from <= lo - 1 && 0 <= lo - 1 && lo <= hi && hi < code.len()
                        && code[lo - 1] == QUOTE && code[hi] == QUOTE
                        && skippable_run(code, from, lo - 1, false)
                        && payload == code.subrange(lo, hi)
                        && literal_slices_from(code, hi + 1, tokens, k + 1),
                LiteralsView::NumberLiteral(payload) => exists|lo: int, hi: int|
                    from <= lo && 0 <= lo && lo < hi && hi <= code.len()
                        && skippable_run(code, from, lo, false)
                        && payload == code.subrange(lo, hi)
                        && literal_slices_from(code, hi, tokens, k + 1),
            },
            _ => literal_slices_from(code, from, tokens, k + 1),
        }
    }
}

/// Helper for `lemma_skippable_run_over_comment`: a comment's body, and the
/// line break that ends it if one does, are skipped from inside the comment.
proof fn lemma_skippable_body_run(code: Seq<u8>, j: int, to: int)
    requires
        0 <= j,
        to <= code.len(),
        skippable_run(code, j + comment_len(code, j) + 1, to, false),
    ensures
        skippable_run(code, j, to, true),
    decreases to - j,
{
    if j < to {
        if !is_line_break(code[j]) {
            lemma_skippable_body_run(code, j + 1, to);
        }
    }
}

/// A `#`, its comment text, and the line break that ends the comment form a
/// skippable run: a comment holds no literal material.
proof fn lemma_skippable_run_over_comment(code: Seq<u8>, i: int, to: int)
    requires
        0 <= i < code.len(),
        code[i] == HASH,
        to <= code.len(),
        skippable_run(code, i + comment_len(code, i) + 1, to, false),
    ensures
        skippable_run(code, i, to, false),
{
    if i < to {
        lemma_skippable_body_run(code, i + 1, to);
    }
}

/// A leading space, line break, operator, or punctuation byte may be drawn
/// into the gap before the next literal slice: it holds no literal material.
proof fn lemma_slices_prepend_byte(code: Seq<u8>, a: int, tokens: Seq<TokenView>, k: int)
    requires
        0 <= a < code.len(),
        code[a] == SPACE || is_line_break(code[a]) || code[a] == PLUS_SIGN
            || code[a] == MINUS_SIGN || code[a] == STAR_SIGN || code[a] == EQUALS_SIGN
            || code[a] == OPEN_BRACE || code[a] == CLOSE_BRACE || code[a] == OPEN_PAREN
            || code[a] == CLOSE_PAREN,
        literal_slices_from(code, a + 1, tokens, k),
    ensures
        literal_slices_from(code, a, tokens, k),
    decreases tokens.len() - k,
{
    if k < 0 || k >= tokens.len() {
        assert(skippable_run(code, a, code.len() as int, false));
    } else {
        match tokens[k] {
            TokenView::Literal(loc, lit) => match lit {
                LiteralsView::StringLiteral(payload) => {
                    let (lo, hi): (int, int) = choose|lo: int, hi: int|
                        a + 1 <= lo - 1 && 0 <= lo - 1 && lo <= hi && hi < code.len()
                            && code[lo - 1] == QUOTE && code[hi] == QUOTE
                            && skippable_run(code, a + 1, lo - 1, false)
                            && payload == code.subrange(lo, hi)
                            && literal_slices_from(code, hi + 1, tokens, k + 1);
                    assert(skippable_run(code, a, lo - 1, false));
                    assert(a <= lo - 1 && 0 <= lo - 1 && lo <= hi && hi < code.len()
                        && code[lo - 1] == QUOTE && code[hi] == QUOTE
                        && skippable_run(code, a, lo - 1, false)
                        && payload == code.subrange(lo, hi)
                        && literal_slices_from(code, hi + 1, tokens, k + 1));
                },
                LiteralsView::NumberLiteral(payload) => {
                    let (lo, hi): (int, int) = choose|lo: int, hi: int|
                        a + 1 <= lo && 0 <= lo && lo < hi && hi <= code.len()
                            && skippable_run(code, a + 1, lo, false)
                            && payload == code.subrange(lo, hi)
                            && literal_slices_from(code, hi, tokens, k + 1);
                    assert(skippable_run(code, a, lo, false));
                    assert(a <= lo && 0 <= lo && lo < hi && hi <= code.len()
                        && skippable_run(code, a, lo, false)
                        && payload == code.subrange(lo, hi)
                        && literal_slices_from(code, hi, tokens, k + 1));
                },
            },
            _ => {
                lemma_slices_prepend_byte(code, a, tokens, k + 1);
            },
        }
    }
}

/// A leading comment, line break included, may be drawn into the gap before
/// the next literal slice: it holds no literal material.
proof fn lemma_slices_prepend_comment(code: Seq<u8>, a: int, tokens: Seq<TokenView>, k: int)
    requires
        0 <= a < code.len(),
        code[a] == HASH,
        literal_slices_from(code, a + comment_len(code, a) + 1, tokens, k),
    ensures
        literal_slices_from(code, a, tokens, k),
    decreases tokens.len() - k,
{
    let after: int = a + comment_len(code, a) + 1;
    if k < 0 || k >= tokens.len() {
        lemma_skippable_run_over_comment(code, a, code.len() as int);
    } else {
        match tokens[k] {
            TokenView::Literal(loc, lit) => match lit {
                LiteralsView::StringLiteral(payload) => {
                    let (lo, hi): (int, int) = choose|lo: int, hi: int|
                        after <= lo - 1 && 0 <= lo - 1 && lo <= hi && hi < code.len()
                            && code[lo - 1] == QUOTE && code[hi] == QUOTE
                            && skippable_run(code, after, lo - 1, false)
                            && payload == code.subrange(lo, hi)
                            && literal_slices_from(code, hi + 1, tokens, k + 1);
                    lemma_skippable_run_over_comment(code, a, lo - 1);
                    assert(a <= lo - 1 && 0 <= lo - 1 && lo <= hi && hi < code.len()
                        && code[lo - 1] == QUOTE && code[hi] == QUOTE
                        && skippable_run(code, a, lo - 1, false)
                        && payload == code.subrange(lo, hi)
                        && literal_slices_from(code, hi + 1, tokens, k + 1));
                },
                LiteralsView::NumberLiteral(payload) => {
                    let (lo, hi): (int, int) = choose|lo: int, hi: int|
                        after <= lo && 0 <= lo && lo < hi && hi <= code.len()
                            && skippable_run(code, after, lo, false)
                            && payload == code.subrange(lo, hi)
                            && literal_slices_from(code, hi, tokens, k + 1);
                    lemma_skippable_run_over_comment(code, a, lo);
                    assert(a <= lo && 0 <= lo && lo < hi && hi <= code.len()
                        && skippable_run(code, a, lo, false)
                        && payload == code.subrange(lo, hi)
                        && literal_slices_from(code, hi, tokens, k + 1));
                },
            },
            _ => {
                lemma_slices_prepend_comment(code, a, tokens, k + 1);
            },
        }
    }
}

/// Helper for `lemma_literal_payloads_are_ordered_source_slices`: scanning on
/// from `st` only appends tokens; the appended literals carry ordered slices
/// of the source from `st.cur` on, and the gaps around those slices hold no
/// literal material.
proof fn lemma_literal_slices_scan_from(code: Seq<u8>, st: ScanState, tokens: Seq<TokenView>)
    requires
        0 <= st.cur,
    ensures
        spec_lex_from(code, st, tokens) matches Ok(ts) ==> ts.len() >= tokens.len()
            && (forall|k: int| 0 <= k < tokens.len() ==> ts[k] == tokens[k])
            && literal_slices_from(code, st.cur, ts, tokens.len() as int),
    decreases code.len() + 1 - st.cur,
{
    if st.cur >= code.len() {
        let ts: Seq<TokenView> = tokens.push(TokenView::EOF(loc_of(st)));
        assert(literal_slices_from(code, st.cur, ts, tokens.len() as int + 1));
        assert(literal_slices_from(code, st.cur, ts, tokens.len() as int));
    } else {
        let c: u8 = code[st.cur];
        if c == SPACE || is_line_break(c) {
            lemma_literal_slices_scan_from(code, stepped(code, st), tokens);
            match spec_lex_from(code, st, tokens) {
                Ok(ts) => {
                    lemma_slices_prepend_byte(code, st.cur, ts, tokens.len() as int);
                },
                Err(_) => {},
            }
        } else if c == PLUS_SIGN || c == MINUS_SIGN {
            let paired: Operators = if c == PLUS_SIGN {
                Operators::Increment
            } else {
                Operators::Decrement
            };
            let single: Operators = if c == PLUS_SIGN {
                Operators::Plus
            } else {
                Operators::Minus
            };
            if st.cur + 1 < code.len() && code[st.cur + 1] == c {
                let at_second: ScanState = stepped(code, st);
                lemma_literal_slices_scan_from(
                    code,
                    stepped(code, at_second),
                    tokens.push(TokenView::Operator(loc_of(at_second), paired)),
                );
                match spec_lex_from(code, st, tokens) {
                    Ok(ts) => {
                        lemma_slices_prepend_byte(code, st.cur + 1, ts, tokens.len() as int + 1);
                        lemma_slices_prepend_byte(code, st.cur, ts, tokens.len() as int + 1);
                    },
                    Err(_) => {},
                }
            } else {
                lemma_literal_slices_scan_from(
                    code,
                    stepped(code, st),
                    tokens.push(TokenView::Operator(loc_of(st), single)),
                );
                match spec_lex_from(code, st, tokens) {
                    Ok(ts) => {
                        lemma_slices_prepend_byte(code, st.cur, ts, tokens.len() as int + 1);
                    },
                    Err(_) => {},
                }
            }
        } else if c == STAR_SIGN || c == EQUALS_SIGN || c == OPEN_BRACE || c == CLOSE_BRACE
            || c == OPEN_PAREN || c == CLOSE_PAREN {
            let tok: TokenView = if c == STAR_SIGN {
                TokenView::Operator(loc_of(st), Operators::Star)
            } else if c == EQUALS_SIGN {
                TokenView::Operator(loc_of(st), Operators::Assignment)
            } else if c == OPEN_BRACE {
                TokenView::OpenBrace(loc_of(st))
            } else if c == CLOSE_BRACE {
                TokenView::CloseBrace(loc_of(st))
            } else if c == OPEN_PAREN {
                TokenView::OpenParen(loc_of(st))
            } else {
                TokenView::CloseParen(loc_of(st))
            };
            lemma_literal_slices_scan_from(code, stepped(code, st), tokens.push(tok));
            match spec_lex_from(code, st, tokens) {
                Ok(ts) => {
                    lemma_slices_prepend_byte(code, st.cur, ts, tokens.len() as int + 1);
                },
                Err(_) => {},
            }
        } else if c == QUOTE {
            let body_start: int = st.cur + 1;
            let body_len: int = string_body_len(code, body_start) as int;
            let close: int = body_start + body_len;
            if !(close >= code.len() || code[close] != QUOTE) {
                let at_close: ScanState = ScanState {
                    row: st.row,
                    col: st.col + 1 + body_len,
                    cur: close,
                };
                let tok: TokenView = TokenView::Literal(
                    loc_of(at_close),
                    LiteralsView::StringLiteral(code.subrange(body_start, close)),
                );
                lemma_literal_slices_scan_from(code, stepped(code, at_close), tokens.push(tok));
                match spec_lex_from(code, st, tokens) {
                    Ok(ts) => {
                        assert(ts[tokens.len() as int] == tok);
                        assert(st.cur <= body_start - 1 && 0 <= body_start - 1
                            && body_start <= close && close < code.len()
                            && code[body_start - 1] == QUOTE && code[close] == QUOTE
                            && skippable_run(code, st.cur, body_start - 1, false)
                            && code.subrange(body_start, close) == code.subrange(body_start, close)
                            && literal_slices_from(code, close + 1, ts, tokens.len() as int + 1));
                        assert(literal_slices_from(code, st.cur, ts, tokens.len() as int));
                    },
                    Err(_) => {},
                }
            }
        } else if c == HASH {
            let skipped: int = comment_len(code, st.cur) as int;
            let at_end: ScanState = ScanState {
                row: st.row,
                col: st.col + skipped,
                cur: st.cur + skipped,
            };
            lemma_comment_len_bound(code, st.cur);
            lemma_literal_slices_scan_from(code, stepped(code, at_end), tokens);
            match spec_lex_from(code, st, tokens) {
                Ok(ts) => {
                    lemma_slices_prepend_comment(code, st.cur, ts, tokens.len() as int);
                },
                Err(_) => {},
            }
        } else if DIGIT_ZERO <= c && c <= DIGIT_NINE {
            let consumed: int = number_len(code, st.cur, false) as int;
            let at_last: ScanState = ScanState {
                row: st.row,
                col: st.col + consumed,
                cur: st.cur + consumed,
            };
            lemma_number_len_bound(code, st.cur, false);
            let tok: TokenView = TokenView::Literal(
                loc_of(st),
                LiteralsView::NumberLiteral(code.subrange(st.cur, st.cur + consumed + 1)),
            );
            lemma_literal_slices_scan_from(code, stepped(code, at_last), tokens.push(tok));
            match spec_lex_from(code, st, tokens) {
                Ok(ts) => {
                    assert(ts[tokens.len() as int] == tok);
                    assert(st.cur <= st.cur && 0 <= st.cur && st.cur < st.cur + consumed + 1
                        && st.cur + consumed + 1 <= code.len()
                        && skippable_run(code, st.cur, st.cur, false)
                        && code.subrange(st.cur, st.cur + consumed + 1) == code.subrange(
                        st.cur,
                        st.cur + consumed + 1,
                    )
                        && literal_slices_from(code, st.cur + consumed + 1, ts, tokens.len() as int + 1));
                    assert(literal_slices_from(code, st.cur, ts, tokens.len() as int));
                },
                Err(_) => {},
            }
        }
    }
}

/// The round trip between a successful scan and its source. Every literal
/// token carries, as its payload, an exact slice of the source; a string
/// literal's slice sits between its original quotes; in token order these
/// slices appear left to right in the source, without overlap; and the
/// source outside the slices is whitespace, line breaks, operator and
/// punctuation bytes, and comment text, holding no literal material. So
/// reinserting the quotes around each string payload reproduces, in order,
/// exactly the source's literal lexemes: none is changed, moved, or left
/// out.
pub proof fn lemma_literal_payloads_are_ordered_source_slices(code: Seq<u8>, row: int, col: int)
    ensures
        spec_lex(code, row, col) matches Ok(tokens) ==> literal_slices_from(code, 0, tokens, 0),
{
    lemma_literal_slices_scan_from(code, ScanState { row, col, cur: 0 }, Seq::<TokenView>::empty());
}


// ---------------------------------------------------------------------------
// Token views grow one element at a time as the scanner emits tokens
// ---------------------------------------------------------------------------

/// Pushing a token and then taking views is the same as pushing the token's
/// view.
pub broadcast proof fn lemma_views_of_push(tokens: Seq<Token>, t: Token)
    ensures
        #[trigger] views_of(tokens.push(t)) == views_of(tokens).push(t@),
{
    assert(views_of(tokens.push(t)) =~= views_of(tokens).push(t@));
}

/// An owned copy of the bytes of `bytes` from `from` (inclusive) to `to`
/// (exclusive).
fn copy_range(bytes: &Vec<u8>, from: usize, to: usize) -> (out: Vec<u8>)
    requires
        from <= to <= bytes@.len(),
    ensures
        out@ == bytes@.subrange(from as int, to as int),
{
    vstd::slice::slice_to_vec(vstd::slice::slice_subrange(bytes.as_slice(), from, to))
}

// ---------------------------------------------------------------------------
// The executable scanner
// ---------------------------------------------------------------------------

/// The scanner. It owns its scanning position and, during a scan, a copy of
/// the source bytes. One instance is reusable: each call of `lex` rebinds the
/// source and restarts the cursor, while the row/column position carries over
/// from call to call.
pub struct Lexer {
    row: usize,
    col: usize,
    current: usize,
    code_bytes: Vec<u8>,
}

impl Lexer {
    /// The scanner's position as the model sees it.
    pub closed spec fn scan_state(&self) -> ScanState {
        ScanState { row: self.row as int, col: self.col as int, cur: self.current as int }
    }

    /// The source bytes the scanner currently holds.
    pub closed spec fn source(&self) -> Seq<u8> {
        self.code_bytes@
    }

    /// Well-formedness: positions are 1-indexed and the cursor stands at most
    /// one byte past the end of the source.
    pub closed spec fn wf(&self) -> bool {
        &&& 1 <= self.row
        &&& 1 <= self.col
        &&& self.current <= self.code_bytes@.len() + 1
    }

    /// A fresh scanner: row 1, column 1, cursor 0, empty source.
    pub fn new() -> (lexer: Lexer)
        ensures
            lexer.wf(),
            lexer.scan_state() == (ScanState { row: 1, col: 1, cur: 0 }),
            lexer.source() == Seq::<u8>::empty(),
    {
        Lexer { row: 1, col: 1, current: 0, code_bytes: Vec::new() }
    }

    /// The byte one past the cursor.
    fn peek(&self) -> (c: u8)
        requires
            self.current < usize::MAX,
            self.current + 1 < self.code_bytes@.len(),
        ensures
            c == self.code_bytes@[self.current + 1],
    {
        self.code_bytes[self.current + 1]
    }

    /// The byte under the cursor.
    fn get_current_char_byte(&self) -> (c: u8)
        requires
            self.current < self.code_bytes@.len(),
        ensures
            c == self.code_bytes@[self.current as int],
    {
        self.code_bytes[self.current]
    }

    /// Whether the cursor, moved by `offset`, would be at or past the end of
    /// the source.
    fn is_eof(&self, offset: usize) -> (r: bool)
        requires
            self.current + offset <= usize::MAX,
        ensures
            r == (self.current + offset >= self.code_bytes@.len()),
    {
        self.current + offset >= self.code_bytes.len()
    }

    /// Whether the cursor stands on a line break.
    fn is_eol(&self) -> (r: bool)
        ensures
            r == at_line_break(self.code_bytes@, self.current as int),
    {
        !self.is_eof(0) && (self.get_current_char_byte() == NEW_LINE
            || self.get_current_char_byte() == CARRIAGE_RETURN)
    }

    /// Move one byte forward, updating row and column as the model's
    /// `stepped` does.
    fn advance(&mut self)
        requires
            old(self).row < usize::MAX,
            old(self).col < usize::MAX,
            old(self).current < usize::MAX,
        ensures
            final(self).code_bytes@ == old(self).code_bytes@,
            final(self).scan_state() == stepped(old(self).code_bytes@, old(self).scan_state()),
    {
        if self.is_eol() {
            self.row = self.row + 1;
            self.col = 1;
        } else {
            self.col = self.col + 1;
        }
        self.current = self.current + 1;
    }

    /// If the byte one ahead equals `lookup_char`, consume it and report
    /// success; otherwise leave the scanner unchanged.
    fn lookup(&mut self, lookup_char: u8) -> (matched: bool)
        requires
            old(self).row < usize::MAX,
            old(self).col < usize::MAX,
            old(self).current < usize::MAX,
        ensures
            final(self).code_bytes@ == old(self).code_bytes@,
            matched == (old(self).current + 1 < old(self).code_bytes@.len()
                && old(self).code_bytes@[old(self).current + 1] == lookup_char),
            matched ==> final(self).scan_state() == stepped(
                old(self).code_bytes@,
                old(self).scan_state(),
            ),
            !matched ==> *final(self) == *old(self),
    {
        if !self.is_eof(1) {
            let lookup_matched = self.peek() == lookup_char;
            if lookup_matched {
                self.advance();
            }
            lookup_matched
        } else {
            false
        }
    }

    /// Whether a byte continues a number lexeme.
    fn is_digit(&self, character: u8) -> (r: bool)
        ensures
            r == spec_is_digit(character),
    {
        (character >= DIGIT_ZERO && character <= DIGIT_NINE) || character == DECIMAL_POINT
    }

    /// The scanner's current position, as recorded into tokens.
    fn get_current_token_location(&self) -> (loc: TokenLocation)
        ensures
            loc@ == loc_of(self.scan_state()),
    {
        TokenLocation { row: self.row, col: self.col }
    }

    /// Scan a string literal. The cursor stands on the opening quote; on
    /// success it is left on the closing quote, for the scanning loop's
    /// trailing advance to cross. The emitted token carries the position at
    /// termination; an unterminated string reports the string's start.
    fn eat_string(&mut self) -> (r: Result<Token, LexError>)
        requires
            old(self).current < old(self).code_bytes@.len(),
            old(self).code_bytes@[old(self).current as int] == QUOTE,
            old(self).row < usize::MAX,
            old(self).col + (old(self).code_bytes@.len() - old(self).current) <= usize::MAX,
            old(self).code_bytes@.len() + 2 <= usize::MAX,
        ensures
            final(self).code_bytes@ == old(self).code_bytes@,
            ({
                let code: Seq<u8> = old(self).code_bytes@;
                let st: ScanState = old(self).scan_state();
                let body_start: int = st.cur + 1;
                let body_len: int = string_body_len(code, body_start) as int;
                let close: int = body_start + body_len;
                &&& final(self).scan_state() == (ScanState {
                    row: st.row,
                    col: st.col + 1 + body_len,
                    cur: close,
                })
                &&& if close >= code.len() || code[close] != QUOTE {
                    r matches Err(e) && e@ == (LexErrorView::UnterminatedString {
                        row: st.row,
                        col: st.col,
                    })
                } else {
                    r matches Ok(tok) && tok@ == TokenView::Literal(
                        LocationView { row: st.row, col: st.col + 1 + body_len },
                        LiteralsView::StringLiteral(code.subrange(body_start, close)),
                    )
                }
            }),
    {
        let str_start_col: usize = self.col;
        let str_start_row: usize = self.row;
        self.advance();
        let str_start: usize = self.current;
        let ghost code: Seq<u8> = self.code_bytes@;
        let ghost close: int = str_start + string_body_len(code, str_start as int);
        proof {
            lemma_string_body_len_bound(code, str_start as int);
        }
        while !self.is_eof(0) && self.get_current_char_byte() != QUOTE && !self.is_eol()
            invariant
                self.code_bytes@ == code,
                code.len() + 2 <= usize::MAX,
                self.row == str_start_row,
                self.row < usize::MAX,
                str_start as int <= self.current as int <= close,
                close <= code.len(),
                self.col as int == str_start_col + 1 + (self.current - str_start),
                str_start_col + 1 + (close - str_start) <= usize::MAX,
                close == self.current + string_body_len(code, self.current as int),
            decreases close - self.current,
        {
            self.advance();
        }
        if self.current == self.code_bytes.len() || self.get_current_char_byte() != QUOTE {
            Err(LexError::UnterminatedString { row: str_start_row, col: str_start_col })
        } else {
            let str_bytes: Vec<u8> = copy_range(&self.code_bytes, str_start, self.current);
            Ok(
                Token::Literal(
                    self.get_current_token_location(),
                    Literals::StringLiteral(str_bytes),
                ),
            )
        }
    }

    /// Scan a number literal. The cursor stands on the first digit; it is
    /// left on the last byte of the lexeme, for the scanning loop's trailing
    /// advance to cross. The emitted token carries the lexeme's start
    /// position and the bytes from the start through the byte under the
    /// cursor.
    fn eat_number(&mut self) -> (tok: Token)
        requires
            old(self).current < old(self).code_bytes@.len(),
            DIGIT_ZERO <= old(self).code_bytes@[old(self).current as int] <= DIGIT_NINE,
            old(self).row < usize::MAX,
            old(self).col + (old(self).code_bytes@.len() - old(self).current) <= usize::MAX,
            old(self).code_bytes@.len() + 2 <= usize::MAX,
        ensures
            final(self).code_bytes@ == old(self).code_bytes@,
            ({
                let code: Seq<u8> = old(self).code_bytes@;
                let st: ScanState = old(self).scan_state();
                let consumed: int = number_len(code, st.cur, false) as int;
                &&& final(self).scan_state() == (ScanState {
                    row: st.row,
                    col: st.col + consumed,
                    cur: st.cur + consumed,
                })
                &&& tok@ == TokenView::Literal(
                    LocationView { row: st.row, col: st.col },
                    LiteralsView::NumberLiteral(code.subrange(st.cur, st.cur + consumed + 1)),
                )
            }),
    {
        let num_start_col: usize = self.col;
        let num_start_row: usize = self.row;
        let num_start: usize = self.current;
        let mut is_decimal_point_eaten = false;
        let ghost code: Seq<u8> = self.code_bytes@;
        let ghost consumed: int = number_len(code, num_start as int, false) as int;
        proof {
            lemma_number_len_bound(code, num_start as int, false);
        }
        while !self.is_eof(1) && self.is_digit(self.peek())
            && !(self.peek() == DECIMAL_POINT && is_decimal_point_eaten)
            invariant
                self.code_bytes@ == code,
                code.len() + 2 <= usize::MAX,
                self.row == num_start_row,
                self.row < usize::MAX,
                num_start as int <= self.current as int,
                self.current < code.len(),
                !is_line_break(code[self.current as int]),
                self.col as int == num_start_col + (self.current - num_start),
                num_start_col + consumed <= usize::MAX,
                consumed == (self.current - num_start) + number_len(
                    code,
                    self.current as int,
                    is_decimal_point_eaten,
                ),
            decreases code.len() - self.current,
        {
            if self.peek() == DECIMAL_POINT {
                is_decimal_point_eaten = true;
            }
            self.advance();
        }
        let num_bytes: Vec<u8> = copy_range(&self.code_bytes, num_start, self.current + 1);
        Token::Literal(
            TokenLocation { row: num_start_row, col: num_start_col },
            Literals::NumberLiteral(num_bytes),
        )
    }

    /// Skip a comment: everything up to, but not including, the next line
    /// break or the end of input. No token is emitted.
    fn eat_hash_single_line_comment(&mut self)
        requires
            old(self).current <= old(self).code_bytes@.len(),
            old(self).row < usize::MAX,
            old(self).col + (old(self).code_bytes@.len() - old(self).current) <= usize::MAX,
            old(self).code_bytes@.len() + 2 <= usize::MAX,
        ensures
            final(self).code_bytes@ == old(self).code_bytes@,
            ({
                let code: Seq<u8> = old(self).code_bytes@;
                let st: ScanState = old(self).scan_state();
                let skipped: int = comment_len(code, st.cur) as int;
                final(self).scan_state() == (ScanState {
                    row: st.row,
                    col: st.col + skipped,
                    cur: st.cur + skipped,
                })
            }),
    {
        let ghost code: Seq<u8> = self.code_bytes@;
        let ghost com_start: int = self.current as int;
        let ghost skipped: int = comment_len(code, com_start) as int;
        let ghost start_col: int = self.col as int;
        proof {
            lemma_comment_len_bound(code, com_start);
        }
        while !self.is_eof(0) && !self.is_eol()
            invariant
                self.code_bytes@ == code,
                code.len() + 2 <= usize::MAX,
                self.row == old(self).row,
                self.row < usize::MAX,
                com_start <= self.current as int <= com_start + skipped,
                com_start + skipped <= code.len(),
                self.col as int == start_col + (self.current - com_start),
                start_col + skipped <= usize::MAX,
                skipped == (self.current - com_start) + comment_len(code, self.current as int),
            decreases com_start + skipped - self.current,
        {
            self.advance();
        }
    }

    /// Scan `code` into its full token sequence, or the first error.
    ///
    /// The result is exactly what the model `spec_lex` says for this source
    /// and the scanner's starting row/column: one token per lexeme in source
    /// order, closed by a single end-of-input token, or the error the model
    /// assigns. Literal payloads are owned copies of their byte ranges of the
    /// source. The cursor restarts at the beginning of `code`; row and
    /// column carry over from any earlier scan.
    pub fn lex(&mut self, code: &[u8]) -> (r: Result<Vec<Token>, LexError>)
        requires
            old(self).wf(),
            old(self).scan_state().row + code@.len() + 1 <= usize::MAX,
            old(self).scan_state().col + code@.len() + 1 <= usize::MAX,
        ensures
            final(self).wf(),
            final(self).source() == code@,
            lex_result_view(r) == spec_lex(
                code@,
                old(self).scan_state().row,
                old(self).scan_state().col,
            ),
            final(self).scan_state().row <= old(self).scan_state().row + code@.len() + 1,
            final(self).scan_state().col <= old(self).scan_state().col + code@.len() + 1,
    {
        broadcast use lemma_views_of_push;

        self.code_bytes = vstd::slice::slice_to_vec(code);
        self.current = 0;
        let mut tokens: Vec<Token> = Vec::new();
        let ghost src: Seq<u8> = code@;
        let ghost st0: ScanState = self.scan_state();
        proof {
            assert(views_of(tokens@) =~= Seq::<TokenView>::empty());
        }
        while self.current < self.code_bytes.len()
            invariant
                self.code_bytes@ == src,
                src == code@,
                src.len() + 2 <= usize::MAX,
                st0 == (ScanState { row: old(self).row as int, col: old(self).col as int, cur: 0 }),
                1 <= st0.row,
                1 <= st0.col,
                1 <= self.row,
                1 <= self.col,
                self.row as int <= st0.row + self.current,
                self.col as int <= st0.col + self.current,
                self.current as int <= src.len() + 1,
                st0.row + src.len() + 1 <= usize::MAX,
                st0.col + src.len() + 1 <= usize::MAX,
                spec_lex_from(src, self.scan_state(), views_of(tokens@)) == spec_lex_from(
                    src,
                    st0,
                    Seq::<TokenView>::empty(),
                ),
            decreases src.len() + 1 - self.current,
        {
            let ghost st_pre: ScanState = self.scan_state();
            let ghost toks_pre: Seq<TokenView> = views_of(tokens@);
            let c: u8 = self.get_current_char_byte();
            if c == SPACE || c == NEW_LINE || c == CARRIAGE_RETURN {
                // no token; the loop's trailing advance crosses the byte,
                // moving to the next row when it is a line break
            } else if c == PLUS_SIGN {
                if self.lookup(PLUS_SIGN) {
                    tokens.push(
                        Token::Operator(self.get_current_token_location(), Operators::Increment),
                    );
                } else {
                    tokens.push(
                        Token::Operator(self.get_current_token_location(), Operators::Plus),
                    );
                }
            } else if c == MINUS_SIGN {
                if self.lookup(MINUS_SIGN) {
                    tokens.push(
                        Token::Operator(self.get_current_token_location(), Operators::Decrement),
                    );
                } else {
                    tokens.push(
                        Token::Operator(self.get_current_token_location(), Operators::Minus),
                    );
                }
            } else if c == STAR_SIGN {
                tokens.push(Token::Operator(self.get_current_token_location(), Operators::Star));
            } else if c == EQUALS_SIGN {
                tokens.push(
                    Token::Operator(self.get_current_token_location(), Operators::Assignment),
                );
            } else if c == OPEN_BRACE {
                tokens.push(Token::OpenBrace(self.get_current_token_location()));
            } else if c == CLOSE_BRACE {
                tokens.push(Token::CloseBrace(self.get_current_token_location()));
            } else if c == OPEN_PAREN {
                tokens.push(Token::OpenParen(self.get_current_token_location()));
            } else if c == CLOSE_PAREN {
                tokens.push(Token::CloseParen(self.get_current_token_location()));
            } else if c == QUOTE {
                let scanned = self.eat_string();
                proof {
                    lemma_string_body_len_bound(src, st_pre.cur + 1);
                }
                match scanned {
                    Ok(tok) => {
                        tokens.push(tok);
                    },
                    Err(e) => {
                        return Err(e);
                    },
                }
            } else if c == HASH {
                self.eat_hash_single_line_comment();
                proof {
                    lemma_comment_len_bound(src, st_pre.cur);
                }
            } else if DIGIT_ZERO <= c && c <= DIGIT_NINE {
                let tok = self.eat_number();
                proof {
                    lemma_number_len_bound(src, st_pre.cur, false);
                }
                tokens.push(tok);
            } else {
                return Err(LexError::InvalidCharacter { character: c, row: self.row, col: self.col });
            }
            self.advance();
            proof {
                broadcast use lemma_views_of_push;

                assert(spec_lex_from(src, self.scan_state(), views_of(tokens@))
                    == spec_lex_from(src, st_pre, toks_pre));
            }
        }
        let ghost st_end: ScanState = self.scan_state();
        let ghost toks_end: Seq<TokenView> = views_of(tokens@);
        tokens.push(Token::EOF(self.get_current_token_location()));
        proof {
            assert(spec_lex_from(src, st_end, toks_end) == Ok::<Seq<TokenView>, LexErrorView>(
                toks_end.push(TokenView::EOF(loc_of(st_end))),
            ));
        }
        Ok(tokens)
    }
}


} // verus!
