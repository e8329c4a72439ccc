//! Lexical analysis: turns the input text into a flat sequence of tokens.
//!
//! The scan is specified by `lex_from`, a spec function over the input's
//! character sequence that mirrors the scanner's fixed priority order:
//! whitespace, string, number, `true`/`false`, `null`, punctuation. The
//! executable `Lexer` is verified to produce exactly what `lex_from` says.

use vstd::prelude::*;
use vstd::string::StrSliceExecFns;

verus! {

// ---------------------------------------------------------------------------
// Character classes
// ---------------------------------------------------------------------------

/// Whitespace: space, tab, carriage return, newline.
pub open spec fn is_whitespace_char(c: char) -> bool {
    c == ' ' || c == '\t' || c == '\r' || c == '\n'
}

/// Punctuation recognised as single-character tokens.
pub open spec fn is_punct_char(c: char) -> bool {
    c == '(' || c == ')' || c == '[' || c == ']' || c == '{' || c == '}' || c == ':' || c == ','
}

/// ASCII decimal digit.
pub open spec fn is_digit_char(c: char) -> bool {
    c == '0' || c == '1' || c == '2' || c == '3' || c == '4' || c == '5' || c == '6' || c == '7'
        || c == '8' || c == '9'
}

/// Characters that may appear in a numeric literal besides digits.
pub open spec fn is_number_punct_char(c: char) -> bool {
    c == '-' || c == '+' || c == '.' || c == 'e' || c == 'E'
}

/// Any character that continues (or starts) a numeric literal run.
pub open spec fn is_number_char(c: char) -> bool {
    is_digit_char(c) || is_number_punct_char(c)
}

// ---------------------------------------------------------------------------
// Token and error models
// ---------------------------------------------------------------------------

/// Mathematical model of a token: what `Token` holds, over `Seq<char>`.
pub enum TokenModel {
    String(Seq<char>),
    Number(Seq<char>),
    Bool(bool),
    Null,
    Punct(char),
}

/// Mathematical model of a lexer diagnostic: the offending source line's
/// text and the (line, column) position of the unrecognised character.
pub struct ErrorModel {
    pub text: Seq<char>,
    pub line: int,
    pub col: int,
}

/// One lexical unit. `String` holds the literal's content (escape
/// sequences are copied verbatim, not interpreted); `Number` holds the
/// literal's text, already checked against the decimal grammar.
#[derive(Debug, Clone, PartialEq)]
pub enum Token {
    String(String),
    Number(String),
    Bool(bool),
    Null,
    Punct(char),
}

impl View for Token {
    type V = TokenModel;

    open spec fn view(&self) -> TokenModel {
        match self {
            Token::String(s) => TokenModel::String(s@),
            Token::Number(s) => TokenModel::Number(s@),
            Token::Bool(b) => TokenModel::Bool(*b),
            Token::Null => TokenModel::Null,
            Token::Punct(c) => TokenModel::Punct(*c),
        }
    }
}

/// The view of a token sequence, token by token.
pub open spec fn tokens_view(toks: Seq<Token>) -> Seq<TokenModel> {
    toks.map_values(|t: Token| t@)
}

/// A lexer diagnostic: the text of the offending source line, and the
/// line and column of the first unrecognised character.
#[derive(Debug, Clone, PartialEq)]
pub struct Error {
    pub text: String,
    pub line: usize,
    pub col: usize,
}

impl View for Error {
    type V = ErrorModel;

    open spec fn view(&self) -> ErrorModel {
        ErrorModel { text: self.text@, line: self.line as int, col: self.col as int }
    }
}

// ---------------------------------------------------------------------------
// Scan geometry: where each kind of literal ends
// ---------------------------------------------------------------------------

/// Number of characters in a string literal's body starting at `i` (just
/// past the opening quote): everything up to, and not including, the first
/// unescaped closing quote, or to the end of the input if none follows.
/// A backslash always escapes exactly the next character.
pub open spec fn string_body_len(s: Seq<char>, i: int, escape: bool) -> nat
    decreases s.len() - i,
{
    if i < 0 || i >= s.len() {
        0
    } else if escape {
        1 + string_body_len(s, i + 1, false)
    } else if s[i] == '\\' {
        1 + string_body_len(s, i + 1, true)
    } else if s[i] == '"' {
        0
    } else {
        1 + string_body_len(s, i + 1, false)
    }
}

/// Length of the maximal run of number characters starting at `i`.
pub open spec fn number_run_len(s: Seq<char>, i: int) -> nat
    decreases s.len() - i,
{
    if 0 <= i < s.len() && is_number_char(s[i]) {
        1 + number_run_len(s, i + 1)
    } else {
        0
    }
}

/// Length of the maximal run of digits starting at `i`.
pub open spec fn digit_run_len(s: Seq<char>, i: int) -> nat
    decreases s.len() - i,
{
    if 0 <= i < s.len() && is_digit_char(s[i]) {
        1 + digit_run_len(s, i + 1)
    } else {
        0
    }
}

/// Index of the first newline at or after `i`, or the input's length.
/// Delimits the source line reported in a diagnostic.
pub open spec fn line_end_from(s: Seq<char>, i: int) -> int
    decreases s.len() - i,
{
    if 0 <= i < s.len() && s[i] != '\n' {
        line_end_from(s, i + 1)
    } else {
        i
    }
}

// ---------------------------------------------------------------------------
// Numeric literal grammar
// ---------------------------------------------------------------------------

/// The decimal grammar accepted for numeric literals: an optional sign,
/// then digits with an optional fractional part (digits required on at
/// least one side of the dot), then an optional exponent (`e` or `E`, an
/// optional sign, and at least one digit). This is the syntactic grammar
/// of IEEE-754 double parsing, so every accepted run decodes (a literal
/// with a huge exponent decodes to an infinity); a run of number
/// characters that falls outside it is reported as a lexical error
/// rather than aborting.
pub open spec fn is_valid_number(s: Seq<char>) -> bool {
    let n = s.len() as int;
    let ms = if n > 0 && (s[0] == '+' || s[0] == '-') {
        1int
    } else {
        0int
    };
    let ie = ms + digit_run_len(s, ms);
    let fe = if ie < n && s[ie] == '.' {
        ie + 1 + digit_run_len(s, ie + 1)
    } else {
        ie
    };
    let mantissa_ok = ie > ms || fe > ie + 1;
    if fe == n {
        mantissa_ok
    } else if s[fe] == 'e' || s[fe] == 'E' {
        let es = if fe + 1 < n && (s[fe + 1] == '+' || s[fe + 1] == '-') {
            fe + 2
        } else {
            fe + 1
        };
        let ee = es + digit_run_len(s, es);
        mantissa_ok && ee > es && ee == n
    } else {
        false
    }
}

/// The scan state after consuming the maximal whitespace run at `i`:
/// index, line, column and line start, each newline starting the next
/// line at column 0, any other whitespace advancing the column by one.
pub open spec fn ws_scan(s: Seq<char>, i: int, line: int, col: int, ls: int) -> (int, int, int, int)
    decreases s.len() - i,
{
    if 0 <= i < s.len() && is_whitespace_char(s[i]) {
        if s[i] == '\n' {
            ws_scan(s, i + 1, line + 1, 0, i + 1)
        } else {
            ws_scan(s, i + 1, line, col + 1, ls)
        }
    } else {
        (i, line, col, ls)
    }
}

// ---------------------------------------------------------------------------
// Keyword literals
// ---------------------------------------------------------------------------

/// `true` appears at index `i`. No word-boundary check follows the
/// keyword: `truex` lexes as `true` and leaves `x` for the next step.
pub open spec fn matches_true(s: Seq<char>, i: int) -> bool {
    i + 4 <= s.len() && s[i] == 't' && s[i + 1] == 'r' && s[i + 2] == 'u' && s[i + 3] == 'e'
}

/// `false` appears at index `i` (same boundary caveat as `matches_true`).
pub open spec fn matches_false(s: Seq<char>, i: int) -> bool {
    i + 5 <= s.len() && s[i] == 'f' && s[i + 1] == 'a' && s[i + 2] == 'l' && s[i + 3] == 's'
        && s[i + 4] == 'e'
}

/// `null` appears at index `i` (same boundary caveat as `matches_true`).
pub open spec fn matches_null(s: Seq<char>, i: int) -> bool {
    i + 4 <= s.len() && s[i] == 'n' && s[i + 1] == 'u' && s[i + 2] == 'l' && s[i + 3] == 'l'
}

// ---------------------------------------------------------------------------
// The lexer's specification
// ---------------------------------------------------------------------------

/// Prepends a token to the token sequence of a successful scan; an error
/// passes through unchanged.
pub open spec fn prepend_token(t: TokenModel, r: Result<Seq<TokenModel>, ErrorModel>) -> Result<
    Seq<TokenModel>,
    ErrorModel,
> {
    match r {
        Ok(ts) => Ok(seq![t] + ts),
        Err(e) => Err(e),
    }
}

/// A string literal's body never runs past the end of the input.
pub proof fn lemma_string_body_len_le(s: Seq<char>, i: int, escape: bool)
    requires
        0 <= i <= s.len(),
    ensures
        i + string_body_len(s, i, escape) <= s.len(),
    decreases s.len() - i,
{
    if i < s.len() && s[i] != '"' || i < s.len() && escape {
        if escape {
            lemma_string_body_len_le(s, i + 1, false);
        } else if s[i] == '\\' {
            lemma_string_body_len_le(s, i + 1, true);
        } else {
            lemma_string_body_len_le(s, i + 1, false);
        }
    }
}

/// A numeric literal's run never runs past the end of the input.
pub proof fn lemma_number_run_len_le(s: Seq<char>, i: int)
    requires
        0 <= i <= s.len(),
    ensures
        i + number_run_len(s, i) <= s.len(),
    decreases s.len() - i,
{
    if i < s.len() && is_number_char(s[i]) {
        lemma_number_run_len_le(s, i + 1);
    }
}

/// Index just past the current line's reported text: up to the next
/// newline, a carriage return immediately before that newline stripped.
pub open spec fn line_text_end(s: Seq<char>, ls: int) -> int {
    let e = line_end_from(s, ls);
    if e < s.len() && e > ls && s[e - 1] == '\r' {
        e - 1
    } else {
        e
    }
}

/// The diagnostic raised at position (`line`, `col`) with the current
/// line's text; `ls` is the index where the current line starts.
pub open spec fn error_at(s: Seq<char>, line: int, col: int, ls: int) -> ErrorModel {
    ErrorModel { text: s.subrange(ls, line_text_end(s, ls)), line, col }
}

/// What lexing the input `s` from index `i` produces, with the scan
/// positioned at line `line`, column `col`, and the current line starting
/// at index `ls`. At each step the first matching rule applies:
/// whitespace (consumed, no token), string, number, `true`/`false`,
/// `null`, punctuation; any other character stops the scan with a
/// diagnostic. The whole input lexes as `lex_from(s, 0, 0, 0, 0)`.
pub open spec fn lex_from(s: Seq<char>, i: int, line: int, col: int, ls: int) -> Result<
    Seq<TokenModel>,
    ErrorModel,
>
    decreases s.len() - i,
        via lex_from_decreases
{
    if i < 0 || i >= s.len() {
        Ok(seq![])
    } else {
        let c = s[i];
        if is_whitespace_char(c) {
            if c == '\n' {
                lex_from(s, i + 1, line + 1, 0, i + 1)
            } else {
                lex_from(s, i + 1, line, col + 1, ls)
            }
        } else if c == '"' {
            let be = i + 1 + string_body_len(s, i + 1, false);
            let j = if be < s.len() {
                be + 1
            } else {
                be
            };
            prepend_token(
                TokenModel::String(s.subrange(i + 1, be)),
                lex_from(s, j, line, col + (j - i), ls),
            )
        } else if is_number_char(c) {
            let j = i + number_run_len(s, i);
            if is_valid_number(s.subrange(i, j)) {
                prepend_token(
                    TokenModel::Number(s.subrange(i, j)),
                    lex_from(s, j, line, col + (j - i), ls),
                )
            } else {
                Err(error_at(s, line, col, ls))
            }
        } else if matches_true(s, i) {
            prepend_token(TokenModel::Bool(true), lex_from(s, i + 4, line, col + 4, ls))
        } else if matches_false(s, i) {
            prepend_token(TokenModel::Bool(false), lex_from(s, i + 5, line, col + 5, ls))
        } else if matches_null(s, i) {
            prepend_token(TokenModel::Null, lex_from(s, i + 4, line, col + 4, ls))
        } else if is_punct_char(c) {
            prepend_token(TokenModel::Punct(c), lex_from(s, i + 1, line, col + 1, ls))
        } else {
            Err(error_at(s, line, col, ls))
        }
    }
}

#[via_fn]
proof fn lex_from_decreases(s: Seq<char>, i: int, line: int, col: int, ls: int) {
    if 0 <= i < s.len() {
        if s[i] == '"' {
            lemma_string_body_len_le(s, i + 1, false);
        }
        if is_number_char(s[i]) {
            lemma_number_run_len_le(s, i);
        }
    }
}

// ---------------------------------------------------------------------------
// The executable lexer
// ---------------------------------------------------------------------------

/// Prepends already-produced tokens to the token sequence of a successful
/// scan; an error passes through unchanged.
pub open spec fn prepend_tokens(
    pre: Seq<TokenModel>,
    r: Result<Seq<TokenModel>, ErrorModel>,
) -> Result<Seq<TokenModel>, ErrorModel> {
    match r {
        Ok(ts) => Ok(pre + ts),
        Err(e) => Err(e),
    }
}

proof fn lemma_prepend_shift(pre: Seq<TokenModel>, t: TokenModel, r: Result<Seq<TokenModel>, ErrorModel>)
    ensures
        prepend_tokens(pre, prepend_token(t, r)) == prepend_tokens(pre.push(t), r),
{
    match r {
        Ok(ts) => {
            assert(pre + (seq![t] + ts) =~= pre.push(t) + ts);
        },
        Err(_) => {},
    }
}

// ---------------------------------------------------------------------------
// Laws
// ---------------------------------------------------------------------------

/// A token is well-formed if, when it is a number token, its text fits
/// the decimal grammar.
pub open spec fn number_token_valid(t: TokenModel) -> bool {
    match t {
        TokenModel::Number(x) => is_valid_number(x),
        _ => true,
    }
}

/// All number tokens in the sequence fit the decimal grammar.
pub open spec fn number_tokens_valid(toks: Seq<TokenModel>) -> bool {
    forall|k: int| 0 <= k < toks.len() ==> number_token_valid(#[trigger] toks[k])
}

proof fn lemma_prepend_keeps_numbers_valid(t: TokenModel, r: Result<Seq<TokenModel>, ErrorModel>)
    requires
        number_token_valid(t),
        r matches Ok(ts) ==> number_tokens_valid(ts),
    ensures
        prepend_token(t, r) matches Ok(ts2) ==> number_tokens_valid(ts2),
{
    match r {
        Ok(ts) => {
            let ts2 = seq![t] + ts;
            assert forall|k: int| 0 <= k < ts2.len() implies number_token_valid(ts2[k]) by {
                if k > 0 {
                    assert(ts2[k] == ts[k - 1]);
                }
            }
        },
        Err(_) => {},
    }
}

/// Every number token a successful scan produces fits the decimal
/// grammar: its text always decodes as a double, so no decode can fail
/// downstream.
pub proof fn lemma_lexed_numbers_are_valid(s: Seq<char>, i: int, line: int, col: int, ls: int)
    ensures
        lex_from(s, i, line, col, ls) matches Ok(toks) ==> number_tokens_valid(toks),
    decreases s.len() - i,
{
    if 0 <= i < s.len() {
        let c = s[i];
        if is_whitespace_char(c) {
            if c == '\n' {
                lemma_lexed_numbers_are_valid(s, i + 1, line + 1, 0, i + 1);
            } else {
                lemma_lexed_numbers_are_valid(s, i + 1, line, col + 1, ls);
            }
        } else if c == '"' {
            let be = i + 1 + string_body_len(s, i + 1, false);
            let j: int = if be < s.len() {
                be + 1
            } else {
                be as int
            };
            lemma_string_body_len_le(s, i + 1, false);
            lemma_lexed_numbers_are_valid(s, j, line, col + (j - i), ls);
            lemma_prepend_keeps_numbers_valid(
                TokenModel::String(s.subrange(i + 1, be)),
                lex_from(s, j, line, col + (j - i), ls),
            );
        } else if is_number_char(c) {
            let j = i + number_run_len(s, i);
            lemma_number_run_len_le(s, i);
            if is_valid_number(s.subrange(i, j)) {
                lemma_lexed_numbers_are_valid(s, j, line, col + (j - i), ls);
                lemma_prepend_keeps_numbers_valid(
                    TokenModel::Number(s.subrange(i, j)),
                    lex_from(s, j, line, col + (j - i), ls),
                );
            }
        } else if matches_true(s, i) {
            lemma_lexed_numbers_are_valid(s, i + 4, line, col + 4, ls);
            lemma_prepend_keeps_numbers_valid(
                TokenModel::Bool(true),
                lex_from(s, i + 4, line, col + 4, ls),
            );
        } else if matches_false(s, i) {
            lemma_lexed_numbers_are_valid(s, i + 5, line, col + 5, ls);
            lemma_prepend_keeps_numbers_valid(
                TokenModel::Bool(false),
                lex_from(s, i + 5, line, col + 5, ls),
            );
        } else if matches_null(s, i) {
            lemma_lexed_numbers_are_valid(s, i + 4, line, col + 4, ls);
            lemma_prepend_keeps_numbers_valid(
                TokenModel::Null,
                lex_from(s, i + 4, line, col + 4, ls),
            );
        } else if is_punct_char(c) {
            lemma_lexed_numbers_are_valid(s, i + 1, line, col + 1, ls);
            lemma_prepend_keeps_numbers_valid(
                TokenModel::Punct(c),
                lex_from(s, i + 1, line, col + 1, ls),
            );
        }
    }
}

// ---------------------------------------------------------------------------
// Character tests shared by the scan loops
// ---------------------------------------------------------------------------

/// There is a whitespace character at index `i`.
fn ws_at(input: &str, i: usize, len: usize) -> (b: bool)
    requires
        len == input@.len(),
        i <= len,
    ensures
        b == (i < input@.len() && is_whitespace_char(input@[i as int])),
{
    if i < len {
        let c = input.get_char(i);
        c == ' ' || c == '\t' || c == '\r' || c == '\n'
    } else {
        false
    }
}

/// There is a number character at index `i`.
fn number_char_at(input: &str, i: usize, len: usize) -> (b: bool)
    requires
        len == input@.len(),
        i <= len,
    ensures
        b == (i < input@.len() && is_number_char(input@[i as int])),
{
    if i < len {
        let c = input.get_char(i);
        c == '0' || c == '1' || c == '2' || c == '3' || c == '4' || c == '5' || c == '6'
            || c == '7' || c == '8' || c == '9' || c == '-' || c == '+' || c == '.' || c == 'e'
            || c == 'E'
    } else {
        false
    }
}

/// There is a digit at index `i`.
fn digit_at(input: &str, i: usize, len: usize) -> (b: bool)
    requires
        len == input@.len(),
        i <= len,
    ensures
        b == (i < input@.len() && is_digit_char(input@[i as int])),
{
    if i < len {
        let c = input.get_char(i);
        c == '0' || c == '1' || c == '2' || c == '3' || c == '4' || c == '5' || c == '6'
            || c == '7' || c == '8' || c == '9'
    } else {
        false
    }
}

/// The current source line continues past index `i` (no newline yet).
fn line_continues_at(input: &str, i: usize, len: usize) -> (b: bool)
    requires
        len == input@.len(),
        i <= len,
    ensures
        b == (i < input@.len() && input@[i as int] != '\n'),
{
    if i < len {
        input.get_char(i) != '\n'
    } else {
        false
    }
}

// ---------------------------------------------------------------------------
// Scans over runs of characters
// ---------------------------------------------------------------------------

/// Index just past the maximal run of number characters starting at `i`.
fn number_run_end(input: &str, i: usize, len: usize) -> (j: usize)
    requires
        len == input@.len(),
        i <= len,
    ensures
        j == i + number_run_len(input@, i as int),
        i <= j <= len,
{
    let mut j = i;
    while number_char_at(input, j, len)
        invariant
            len == input@.len(),
            i <= j <= len,
            number_run_len(input@, i as int) == (j - i) + number_run_len(input@, j as int),
        decreases len - j,
    {
        j += 1;
    }
    j
}

/// Index just past the maximal run of digits starting at `i`.
fn digit_run_end(input: &str, i: usize, len: usize) -> (j: usize)
    requires
        len == input@.len(),
        i <= len,
    ensures
        j == i + digit_run_len(input@, i as int),
        i <= j <= len,
{
    let mut j = i;
    while digit_at(input, j, len)
        invariant
            len == input@.len(),
            i <= j <= len,
            digit_run_len(input@, i as int) == (j - i) + digit_run_len(input@, j as int),
        decreases len - j,
    {
        j += 1;
    }
    j
}

/// Decides the numeric literal grammar: whether `text` is a decimal
/// number with optional sign, fraction and exponent.
fn check_number(text: &str) -> (b: bool)
    ensures
        b == is_valid_number(text@),
{
    let n = text.unicode_len();
    let ms: usize = if n > 0 {
        let c = text.get_char(0);
        if c == '+' || c == '-' {
            1
        } else {
            0
        }
    } else {
        0
    };
    let ie = digit_run_end(text, ms, n);
    let fe: usize = if ie < n && text.get_char(ie) == '.' {
        digit_run_end(text, ie + 1, n)
    } else {
        ie
    };
    let mantissa_ok = ie > ms || fe - ie > 1;
    if fe == n {
        mantissa_ok
    } else {
        let c = text.get_char(fe);
        if c == 'e' || c == 'E' {
            let es: usize = if fe + 1 < n {
                let c2 = text.get_char(fe + 1);
                if c2 == '+' || c2 == '-' {
                    fe + 2
                } else {
                    fe + 1
                }
            } else {
                fe + 1
            };
            let ee = digit_run_end(text, es, n);
            mantissa_ok && ee > es && ee == n
        } else {
            false
        }
    }
}

// ---------------------------------------------------------------------------
// The lexer
// ---------------------------------------------------------------------------

/// Scan state: character index into the input, and the line, column and
/// line-start index used for diagnostics. A `Lexer` is single-use: one
/// fresh instance scans one input.
pub struct Lexer {
    line: usize,
    col: usize,
    index: usize,
    line_start: usize,
}

/// The state a freshly constructed lexer is in.
pub closed spec fn lexer_fresh(lx: Lexer) -> bool {
    lx.line == 0 && lx.col == 0 && lx.index == 0 && lx.line_start == 0
}

/// The scan state's internal invariant: the column, line and line-start
/// counters never run ahead of the index, which stays inside the input.
spec fn lexer_wf(lx: Lexer, s: Seq<char>) -> bool {
    lx.col <= lx.index && lx.line <= lx.index && lx.line_start <= lx.index && lx.index <= s.len()
}

impl Lexer {
    /// A fresh lexer, positioned at the start of the input.
    pub fn new() -> (r: Self)
        ensures
            lexer_fresh(r),
    {
        Lexer { line: 0, col: 0, index: 0, line_start: 0 }
    }

    /// Consumes the maximal run of whitespace at the cursor; a newline
    /// starts the next line (column 0), any other whitespace advances the
    /// column. Consuming whitespace does not change what remains to lex.
    fn eat_whitespace(&mut self, input: &str) -> (r: bool)
        requires
            lexer_wf(*old(self), input@),
        ensures
            lexer_wf(*final(self), input@),
            r == (old(self).index < input@.len() && is_whitespace_char(
                input@[old(self).index as int],
            )),
            !r ==> *final(self) == *old(self),
            r ==> final(self).index > old(self).index,
            final(self).index == input@.len() || !is_whitespace_char(
                input@[final(self).index as int],
            ),
            (final(self).index as int, final(self).line as int, final(self).col as int,
                final(self).line_start as int,
            ) == ws_scan(input@, old(self).index as int, old(self).line as int,
                old(self).col as int, old(self).line_start as int,
            ),
            lex_from(input@, final(self).index as int, final(self).line as int,
                final(self).col as int, final(self).line_start as int,
            ) == lex_from(input@, old(self).index as int, old(self).line as int,
                old(self).col as int, old(self).line_start as int,
            ),
    {
        let len = input.unicode_len();
        let mut consumed = false;
        while ws_at(input, self.index, len)
            invariant
                len == input@.len(),
                lexer_wf(*self, input@),
                !consumed ==> *self == *old(self),
                consumed ==> self.index > old(self).index && old(self).index < input@.len()
                    && is_whitespace_char(input@[old(self).index as int]),
                ws_scan(input@, self.index as int, self.line as int, self.col as int,
                    self.line_start as int,
                ) == ws_scan(input@, old(self).index as int, old(self).line as int,
                    old(self).col as int, old(self).line_start as int,
                ),
                lex_from(input@, self.index as int, self.line as int, self.col as int,
                    self.line_start as int,
                ) == lex_from(input@, old(self).index as int, old(self).line as int,
                    old(self).col as int, old(self).line_start as int,
                ),
            decreases len - self.index,
        {
            let c = input.get_char(self.index);
            if c == '\n' {
                self.line += 1;
                self.col = 0;
                self.index += 1;
                self.line_start = self.index;
            } else {
                self.col += 1;
                self.index += 1;
            }
            consumed = true;
        }
        consumed
    }

    /// Scans a string literal if the cursor is on `"`. The token's content
    /// is everything up to the first unescaped closing quote, escapes
    /// copied verbatim; an unterminated literal consumes to the end of the
    /// input. Returns `None`, leaving the state unchanged, if the cursor
    /// is not on `"`.
    fn lex_string(&mut self, input: &str) -> (r: Option<String>)
        requires
            lexer_wf(*old(self), input@),
        ensures
            lexer_wf(*final(self), input@),
            match r {
                None => *final(self) == *old(self) && !(old(self).index < input@.len()
                    && input@[old(self).index as int] == '"'),
                Some(tok) => {
                    let s = input@;
                    let i = old(self).index as int;
                    let be = i + 1 + string_body_len(s, i + 1, false);
                    let j = if be < s.len() {
                        be + 1
                    } else {
                        be
                    };
                    &&& i < s.len() && s[i] == '"'
                    &&& tok@ == s.subrange(i + 1, be)
                    &&& final(self).index == j
                    &&& final(self).col == old(self).col + (j - i)
                    &&& final(self).line == old(self).line
                    &&& final(self).line_start == old(self).line_start
                },
            },
    {
        let len = input.unicode_len();
        if self.index >= len || input.get_char(self.index) != '"' {
            return None;
        }
        let ghost i0 = self.index as int;
        self.index += 1;
        self.col += 1;
        let start = self.index;
        let mut escape = false;
        let mut closed = false;
        proof {
            lemma_string_body_len_le(input@, start as int, false);
        }
        while !closed && self.index < len
            invariant
                len == input@.len(),
                lexer_wf(*self, input@),
                i0 == start - 1,
                0 <= i0 < input@.len(),
                start <= self.index <= len,
                self.line == old(self).line,
                self.line_start == old(self).line_start,
                self.col == old(self).col + (self.index - i0),
                !closed ==> string_body_len(input@, start as int, false) == (self.index - start)
                    + string_body_len(input@, self.index as int, escape),
                closed ==> {
                    &&& start < self.index
                    &&& string_body_len(input@, start as int, false) == self.index - 1 - start
                    &&& self.index - 1 < len
                },
            decreases len - self.index,
        {
            let c = input.get_char(self.index);
            if escape {
                escape = false;
            } else if c == '\\' {
                escape = true;
            } else if c == '"' {
                closed = true;
            }
            self.index += 1;
            self.col += 1;
        }
        let body_end = if closed {
            self.index - 1
        } else {
            self.index
        };
        let body = input.substring_char(start, body_end);
        proof {
            if !closed {
                assert(string_body_len(input@, self.index as int, escape) == 0);
            }
        }
        Some(body.to_owned())
    }

    /// Scans a numeric literal if the cursor is on a number character:
    /// the maximal run of digits, signs, dots and exponent markers. A run
    /// that does not fit the decimal grammar is a lexical error, reported
    /// at the run's first character. Returns `Ok(None)`, leaving the state
    /// unchanged, if the cursor is not on a number character.
    fn lex_number(&mut self, input: &str) -> (r: Result<Option<String>, Error>)
        requires
            lexer_wf(*old(self), input@),
        ensures
            match r {
                Ok(None) => *final(self) == *old(self) && lexer_wf(*final(self), input@) && !(
                old(self).index < input@.len() && is_number_char(
                    input@[old(self).index as int],
                )),
                Ok(Some(tok)) => {
                    let s = input@;
                    let i = old(self).index as int;
                    let j = i + number_run_len(s, i);
                    &&& lexer_wf(*final(self), input@)
                    &&& i < s.len() && is_number_char(s[i])
                    &&& is_valid_number(s.subrange(i, j))
                    &&& tok@ == s.subrange(i, j)
                    &&& final(self).index == j
                    &&& final(self).col == old(self).col + (j - i)
                    &&& final(self).line == old(self).line
                    &&& final(self).line_start == old(self).line_start
                },
                Err(e) => {
                    let s = input@;
                    let i = old(self).index as int;
                    let j = i + number_run_len(s, i);
                    &&& *final(self) == *old(self)
                    &&& i < s.len() && is_number_char(s[i])
                    &&& !is_valid_number(s.subrange(i, j))
                    &&& e@ == error_at(s, old(self).line as int, old(self).col as int,
                        old(self).line_start as int,
                    )
                },
            },
    {
        let len = input.unicode_len();
        let end = number_run_end(input, self.index, len);
        if end == self.index {
            return Ok(None);
        }
        let text = input.substring_char(self.index, end);
        if check_number(text) {
            let tok = text.to_owned();
            self.col += end - self.index;
            self.index = end;
            Ok(Some(tok))
        } else {
            Err(self.make_error(input))
        }
    }

    /// Scans `true` or `false` if one appears at the cursor. No boundary
    /// check follows the keyword. Returns `None`, leaving the state
    /// unchanged, if neither appears.
    fn lex_boolean(&mut self, input: &str) -> (r: Option<bool>)
        requires
            lexer_wf(*old(self), input@),
        ensures
            lexer_wf(*final(self), input@),
            match r {
                None => *final(self) == *old(self) && !matches_true(
                    input@,
                    old(self).index as int,
                ) && !matches_false(input@, old(self).index as int),
                Some(b) => {
                    let i = old(self).index as int;
                    let w: int = if b {
                        4
                    } else {
                        5
                    };
                    &&& if b {
                        matches_true(input@, i)
                    } else {
                        matches_false(input@, i)
                    }
                    &&& final(self).index == i + w
                    &&& final(self).col == old(self).col + w
                    &&& final(self).line == old(self).line
                    &&& final(self).line_start == old(self).line_start
                },
            },
    {
        let len = input.unicode_len();
        if len - self.index >= 4 && input.get_char(self.index) == 't' && input.get_char(
            self.index + 1,
        ) == 'r' && input.get_char(self.index + 2) == 'u' && input.get_char(self.index + 3)
            == 'e' {
            self.index += 4;
            self.col += 4;
            return Some(true);
        }
        if len - self.index >= 5 && input.get_char(self.index) == 'f' && input.get_char(
            self.index + 1,
        ) == 'a' && input.get_char(self.index + 2) == 'l' && input.get_char(self.index + 3) == 's'
            && input.get_char(self.index + 4) == 'e' {
            self.index += 5;
            self.col += 5;
            return Some(false);
        }
        None
    }

    /// Scans `null` if it appears at the cursor (same boundary caveat as
    /// `lex_boolean`). Returns false, leaving the state unchanged, if not.
    fn lex_null(&mut self, input: &str) -> (r: bool)
        requires
            lexer_wf(*old(self), input@),
        ensures
            lexer_wf(*final(self), input@),
            !r ==> *final(self) == *old(self) && !matches_null(input@, old(self).index as int),
            r ==> {
                &&& matches_null(input@, old(self).index as int)
                &&& final(self).index == old(self).index + 4
                &&& final(self).col == old(self).col + 4
                &&& final(self).line == old(self).line
                &&& final(self).line_start == old(self).line_start
            },
    {
        let len = input.unicode_len();
        if len - self.index >= 4 && input.get_char(self.index) == 'n' && input.get_char(
            self.index + 1,
        ) == 'u' && input.get_char(self.index + 2) == 'l' && input.get_char(self.index + 3)
            == 'l' {
            self.index += 4;
            self.col += 4;
            return true;
        }
        false
    }

    /// The diagnostic for an unrecognised character at the cursor: the
    /// current line's text with the cursor's line and column.
    fn make_error(&self, input: &str) -> (e: Error)
        requires
            lexer_wf(*self, input@),
        ensures
            e@ == error_at(input@, self.line as int, self.col as int, self.line_start as int),
    {
        let len = input.unicode_len();
        let mut eol = self.line_start;
        while line_continues_at(input, eol, len)
            invariant
                len == input@.len(),
                self.line_start <= eol <= len,
                line_end_from(input@, self.line_start as int) == line_end_from(input@, eol as int),
            decreases len - eol,
        {
            eol += 1;
        }
        let text_end: usize = if eol < len && eol > self.line_start && input.get_char(eol - 1)
            == '\r' {
            eol - 1
        } else {
            eol
        };
        let text = input.substring_char(self.line_start, text_end).to_owned();
        Error { text, line: self.line, col: self.col }
    }

    /// Scans the whole input into its token sequence, or stops at the
    /// first unrecognised character (or malformed numeric literal) with a
    /// diagnostic. Produces exactly what `lex_from` says of the input.
    pub fn lex(&mut self, input: &str) -> (r: Result<Vec<Token>, Error>)
        requires
            lexer_fresh(*old(self)),
        ensures
            match r {
                Ok(toks) => lex_from(input@, 0, 0, 0, 0) == Ok::<Seq<TokenModel>, ErrorModel>(
                    tokens_view(toks@),
                ),
                Err(e) => lex_from(input@, 0, 0, 0, 0) == Err::<Seq<TokenModel>, ErrorModel>(e@),
            },
    {
        let len = input.unicode_len();
        let mut tokens: Vec<Token> = Vec::new();
        proof {
            match lex_from(input@, 0, 0, 0, 0) {
                Ok(ts) => {
                    assert(Seq::<TokenModel>::empty() + ts =~= ts);
                },
                Err(_) => {},
            }
            assert(tokens_view(tokens@) =~= Seq::<TokenModel>::empty());
        }
        while self.index < len
            invariant
                len == input@.len(),
                lexer_wf(*self, input@),
                lex_from(input@, 0, 0, 0, 0) == prepend_tokens(
                    tokens_view(tokens@),
                    lex_from(input@, self.index as int, self.line as int, self.col as int,
                        self.line_start as int,
                    ),
                ),
            decreases len - self.index,
        {
            let ghost pre = tokens_view(tokens@);
            let ghost st = *self;
            if self.eat_whitespace(input) {
                continue ;
            }
            if let Some(s) = self.lex_string(input) {
                let ghost t = TokenModel::String(s@);
                tokens.push(Token::String(s));
                proof {
                    lemma_prepend_shift(pre, t, lex_from(input@, self.index as int,
                        self.line as int, self.col as int, self.line_start as int));
                    assert(tokens_view(tokens@) =~= pre.push(t));
                }
                continue ;
            }
            match self.lex_number(input) {
                Ok(Some(text)) => {
                    let ghost t = TokenModel::Number(text@);
                    tokens.push(Token::Number(text));
                    proof {
                        lemma_prepend_shift(pre, t, lex_from(input@, self.index as int,
                            self.line as int, self.col as int, self.line_start as int));
                        assert(tokens_view(tokens@) =~= pre.push(t));
                    }
                    continue ;
                },
                Ok(None) => {},
                Err(e) => {
                    return Err(e);
                },
            }
            if let Some(b) = self.lex_boolean(input) {
                let ghost t = TokenModel::Bool(b);
                tokens.push(Token::Bool(b));
                proof {
                    lemma_prepend_shift(pre, t, lex_from(input@, self.index as int,
                        self.line as int, self.col as int, self.line_start as int));
                    assert(tokens_view(tokens@) =~= pre.push(t));
                }
                continue ;
            }
            if self.lex_null(input) {
                let ghost t = TokenModel::Null;
                tokens.push(Token::Null);
                proof {
                    lemma_prepend_shift(pre, t, lex_from(input@, self.index as int,
                        self.line as int, self.col as int, self.line_start as int));
                    assert(tokens_view(tokens@) =~= pre.push(t));
                }
                continue ;
            }
            let c = input.get_char(self.index);
            if c == '(' || c == ')' || c == '[' || c == ']' || c == '{' || c == '}' || c == ':'
                || c == ',' {
                let ghost t = TokenModel::Punct(c);
                tokens.push(Token::Punct(c));
                self.index += 1;
                self.col += 1;
                proof {
                    lemma_prepend_shift(pre, t, lex_from(input@, self.index as int,
                        self.line as int, self.col as int, self.line_start as int));
                    assert(tokens_view(tokens@) =~= pre.push(t));
                }
                continue ;
            }
            return Err(self.make_error(input));
        }
        proof {
            assert(lex_from(input@, self.index as int, self.line as int, self.col as int,
                self.line_start as int) == Ok::<Seq<TokenModel>, ErrorModel>(seq![]));
            assert(tokens_view(tokens@) + seq![] =~= tokens_view(tokens@));
        }
        Ok(tokens)
    }
}

} // verus!
