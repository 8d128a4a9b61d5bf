use vstd::prelude::*;
use crate::error::{JsonError, Position};
use crate::number::{JsonNumber, NumberModel, number_from_parts, saturated, dval, all_digits, EXPONENT_LIMIT};
use crate::text::{chars_of, string_of};

verus! {

/// An error in the characters of the input.
#[derive(Debug, Clone, Copy, PartialEq, Eq, Structural)]
pub enum LexerError {
    UnexpectedCharacter { ch: char, position: Position },
    UnterminatedString(Position),
    InvalidNumber(Position),
    UnexpectedLiteral(Position),
    UnterminatedNumber(Position),
    InvalidUnicodeEscape(Position),
    UnexpectedEndOfInput(Position),
    InvalidEscapeCharacter { ch: char, position: Position },
    LeadingZero(Position),
}

/// The content of a token.
pub enum TokenModel {
    LeftBrace,
    RightBrace,
    LeftBracket,
    RightBracket,
    Colon,
    Comma,
    Str(Seq<char>),
    Num(NumberModel),
    True,
    False,
    Null,
}

/// A token with the position of its first character.
pub struct SpannedModel {
    pub token: TokenModel,
    pub position: Position,
}

/// The outcome of reading one token from an index of the input.
pub enum LexStep {
    /// Only whitespace was left; the reader stands at the given index.
    End(int),
    /// A token, and the index just past it.
    Token(SpannedModel, int),
    Error(LexerError),
}

// ----- character classes -----

/// `char::is_whitespace`: the Unicode White_Space property.
pub open spec fn is_whitespace(c: char) -> bool {
    let v = c as u32;
    ||| 0x09 <= v <= 0x0D
    ||| v == 0x20
    ||| v == 0x85
    ||| v == 0xA0
    ||| v == 0x1680
    ||| 0x2000 <= v <= 0x200A
    ||| v == 0x2028
    ||| v == 0x2029
    ||| v == 0x202F
    ||| v == 0x205F
    ||| v == 0x3000
}

pub open spec fn is_digit(c: char) -> bool {
    '0' <= c <= '9'
}

pub open spec fn is_hex(c: char) -> bool {
    ||| '0' <= c <= '9'
    ||| 'a' <= c <= 'f'
    ||| 'A' <= c <= 'F'
}

pub open spec fn hex_value(c: char) -> int {
    if '0' <= c <= '9' {
        c as int - 48
    } else if 'a' <= c <= 'f' {
        c as int - 87
    } else {
        c as int - 55
    }
}

/// A character that may not directly follow a literal word.
pub open spec fn continues_word(c: char) -> bool {
    ||| '0' <= c <= '9'
    ||| 'a' <= c <= 'z'
    ||| 'A' <= c <= 'Z'
    ||| c == '_'
}

/// A Unicode scalar value (what `char::from_u32` accepts).
pub open spec fn is_scalar(v: int) -> bool {
    (0 <= v < 0xD800) || (0xE000 <= v <= 0x10FFFF)
}

pub open spec fn digit_value(c: char) -> u8 {
    (c as int - 48) as u8
}

pub open spec fn digit_values(cs: Seq<char>) -> Seq<u8> {
    cs.map_values(|c: char| digit_value(c))
}

// ----- positions -----

/// The line (from 1) of index `i` of `s`.
pub open spec fn line_at(s: Seq<char>, i: int) -> int
    decreases i,
{
    if i <= 0 {
        1
    } else if s[i - 1] == '\n' {
        line_at(s, i - 1) + 1
    } else {
        line_at(s, i - 1)
    }
}

/// The column (from 1) of index `i` of `s`.
pub open spec fn column_at(s: Seq<char>, i: int) -> int
    decreases i,
{
    if i <= 0 {
        1
    } else if s[i - 1] == '\n' {
        1
    } else {
        column_at(s, i - 1) + 1
    }
}

pub open spec fn pos_at(s: Seq<char>, i: int) -> Position {
    Position { line: line_at(s, i) as usize, column: column_at(s, i) as usize }
}

/// The number of line breaks in `s`.
pub open spec fn newline_count(s: Seq<char>) -> nat
    decreases s.len(),
{
    if s.len() == 0 {
        0
    } else {
        newline_count(s.drop_last()) + if s.last() == '\n' {
            1nat
        } else {
            0nat
        }
    }
}

/// The index of the last line break in `s`, or -1.
pub open spec fn last_newline(s: Seq<char>) -> int
    decreases s.len(),
{
    if s.len() == 0 {
        -1
    } else if s.last() == '\n' {
        s.len() - 1
    } else {
        last_newline(s.drop_last())
    }
}

/// The position of index `i` counts lines and columns from the text before
/// it: the line is one more than the line breaks among the first `i`
/// characters, and the column is the distance from the last of them (or
/// from the start) plus one.
pub proof fn law_position_counts(s: Seq<char>, i: int)
    requires
        0 <= i <= s.len(),
    ensures
        line_at(s, i) == 1 + newline_count(s.take(i)),
        column_at(s, i) == i - last_newline(s.take(i)),
    decreases i,
{
    if i > 0 {
        law_position_counts(s, i - 1);
        assert(s.take(i).drop_last() =~= s.take(i - 1));
        assert(s.take(i).last() == s[i - 1]);
    } else {
        assert(s.take(0) =~= Seq::<char>::empty());
    }
}

/// The JSON whitespace characters (space, tab, line feed and carriage
/// return) are skipped between tokens, wherever they stand.
pub proof fn law_json_whitespace_skipped(s: Seq<char>, i: int)
    requires
        0 <= i < s.len(),
        s[i] == ' ' || s[i] == '\t' || s[i] == '\n' || s[i] == '\r',
    ensures
        skip_ws(s, i) == skip_ws(s, i + 1),
        skip_ws(s, i) > i,
{
    assert(is_whitespace(s[i]));
    lemma_skip_ws_after(s, i + 1);
}

/// Skipping whitespace stops at the first character that can start or
/// continue a token: punctuation, a quote, a sign, a digit or a letter.
pub proof fn law_token_characters_not_skipped(s: Seq<char>, i: int)
    requires
        0 <= i < s.len(),
        s[i] == '{' || s[i] == '}' || s[i] == '[' || s[i] == ']' || s[i] == ',' || s[i] == ':'
            || s[i] == '"' || s[i] == '-' || ('0' <= s[i] <= '9') || ('a' <= s[i] <= 'z') || ('A'
            <= s[i] <= 'Z'),
    ensures
        skip_ws(s, i) == i,
{
    assert(!is_whitespace(s[i]));
}

proof fn lemma_skip_ws_after(s: Seq<char>, i: int)
    ensures
        skip_ws(s, i) >= i,
    decreases s.len() - i,
{
    if 0 <= i < s.len() && is_whitespace(s[i]) {
        lemma_skip_ws_after(s, i + 1);
    }
}

/// Hexadecimal digits are read case-insensitively: `0`-`9` are worth 0-9,
/// and `a`-`f` and `A`-`F` alike are worth 10-15.
pub proof fn law_hex_digits(c: char)
    ensures
        '0' <= c <= '9' ==> is_hex(c) && hex_value(c) == c as int - '0' as int,
        'a' <= c <= 'f' ==> is_hex(c) && hex_value(c) == 10 + (c as int - 'a' as int),
        'A' <= c <= 'F' ==> is_hex(c) && hex_value(c) == 10 + (c as int - 'A' as int),
        'a' <= c <= 'f' ==> hex_value(((c as int) - 32) as char) == hex_value(c),
{
    if 'a' <= c <= 'f' {
        let u = ((c as int) - 32) as char;
        assert(u as int == c as int - 32);
        assert('A' <= u <= 'F');
    }
}

// ----- scanning -----

/// The first index at or after `i` that is not whitespace.
pub open spec fn skip_ws(s: Seq<char>, i: int) -> int
    decreases s.len() - i,
{
    if 0 <= i < s.len() && is_whitespace(s[i]) {
        skip_ws(s, i + 1)
    } else {
        i
    }
}

/// The end of the run of ASCII digits starting at `i`.
pub open spec fn digit_run_end(s: Seq<char>, i: int) -> int
    decreases s.len() - i,
{
    if 0 <= i < s.len() && is_digit(s[i]) {
        digit_run_end(s, i + 1)
    } else {
        i
    }
}

/// Four hex digits at `k`; `m` of them read so far with value `acc`.
pub open spec fn scan_hex(s: Seq<char>, k: int, m: int, acc: int) -> Result<int, LexerError>
    decreases 4 - m,
{
    if m >= 4 {
        Ok(acc)
    } else if k + m >= s.len() {
        Err(LexerError::InvalidUnicodeEscape(pos_at(s, k + m)))
    } else if !is_hex(s[k + m]) {
        Err(LexerError::InvalidUnicodeEscape(pos_at(s, k + m + 1)))
    } else {
        scan_hex(s, k, m + 1, acc * 16 + hex_value(s[k + m]))
    }
}

/// A `\u` escape whose hex digits start at `k`: the character and the index past it.
pub open spec fn scan_unicode(s: Seq<char>, k: int) -> Result<(char, int), LexerError> {
    match scan_hex(s, k, 0, 0) {
        Err(e) => Err(e),
        Ok(v) => if is_scalar(v) {
            Ok((v as char, k + 4))
        } else {
            Err(LexerError::InvalidUnicodeEscape(pos_at(s, k + 4)))
        },
    }
}

/// The escape whose letter is at `k` (just past a backslash).
pub open spec fn scan_escape(s: Seq<char>, k: int) -> Result<(char, int), LexerError> {
    if k >= s.len() {
        Err(LexerError::UnexpectedEndOfInput(pos_at(s, k)))
    } else {
        let c = s[k];
        if c == 'n' {
            Ok(('\n', k + 1))
        } else if c == 't' {
            Ok(('\t', k + 1))
        } else if c == '\\' {
            Ok(('\\', k + 1))
        } else if c == '"' {
            Ok(('"', k + 1))
        } else if c == '/' {
            Ok(('/', k + 1))
        } else if c == 'b' {
            Ok(('\u{8}', k + 1))
        } else if c == 'f' {
            Ok(('\u{c}', k + 1))
        } else if c == 'r' {
            Ok(('\r', k + 1))
        } else if c == 'u' {
            scan_unicode(s, k + 1)
        } else {
            Err(LexerError::InvalidEscapeCharacter { ch: c, position: pos_at(s, k + 1) })
        }
    }
}

/// The rest of a string literal from `k`, with `acc` read so far; `start` is the
/// position of the opening quote.
pub open spec fn scan_string(s: Seq<char>, k: int, acc: Seq<char>, start: Position) -> Result<
    (Seq<char>, int),
    LexerError,
>
    decreases s.len() - k,
{
    if k < 0 || k >= s.len() {
        Err(LexerError::UnterminatedString(start))
    } else if s[k] == '"' {
        Ok((acc, k + 1))
    } else if s[k] == '\\' {
        match scan_escape(s, k + 1) {
            Err(e) => Err(e),
            Ok((c, k2)) => if k < k2 <= s.len() {
                scan_string(s, k2, acc.push(c), start)
            } else {
                Err(LexerError::UnterminatedString(start))
            },
        }
    } else {
        scan_string(s, k + 1, acc.push(s[k]), start)
    }
}

/// The literal `word` at `k`, `m` characters of it matched so far: the index past it.
pub open spec fn scan_literal(s: Seq<char>, k: int, word: Seq<char>, m: int) -> Result<
    int,
    LexerError,
>
    decreases word.len() - m,
{
    if m >= word.len() {
        if k + m < s.len() && continues_word(s[k + m]) {
            Err(LexerError::UnexpectedLiteral(pos_at(s, k + m)))
        } else {
            Ok(k + m)
        }
    } else if k + m >= s.len() {
        Err(LexerError::UnexpectedLiteral(pos_at(s, k + m)))
    } else if s[k + m] != word[m] {
        Err(LexerError::UnexpectedLiteral(pos_at(s, k + m + 1)))
    } else {
        scan_literal(s, k, word, m + 1)
    }
}

/// The integer part of a number at `k`: the index past it.
pub open spec fn scan_int_part(s: Seq<char>, k: int) -> Result<int, LexerError> {
    if k < s.len() && s[k] == '0' {
        if k + 1 < s.len() && is_digit(s[k + 1]) {
            Err(LexerError::LeadingZero(pos_at(s, k + 1)))
        } else {
            Ok(k + 1)
        }
    } else if digit_run_end(s, k) == k {
        Err(LexerError::InvalidNumber(pos_at(s, k)))
    } else {
        Ok(digit_run_end(s, k))
    }
}

/// The optional fraction at `k`: the range of its digits.
pub open spec fn scan_fraction(s: Seq<char>, k: int) -> Result<(int, int), LexerError> {
    if k < s.len() && s[k] == '.' {
        let f = digit_run_end(s, k + 1);
        if f == k + 1 {
            Err(LexerError::InvalidNumber(pos_at(s, f)))
        } else {
            Ok((k + 1, f))
        }
    } else {
        Ok((k, k))
    }
}

/// The optional exponent at `k`: its (saturated, signed) value and the index past it.
pub open spec fn scan_exponent(s: Seq<char>, k: int) -> Result<(int, int), LexerError> {
    if k < s.len() && (s[k] == 'e' || s[k] == 'E') {
        let signed = k + 1 < s.len() && (s[k + 1] == '+' || s[k + 1] == '-');
        let d = if signed { k + 2 } else { k + 1 };
        let x = digit_run_end(s, d);
        if x == d {
            Err(LexerError::InvalidNumber(pos_at(s, d)))
        } else {
            let v = saturated(digit_values(s.subrange(d, x)));
            if signed && s[k + 1] == '-' {
                Ok((-v, x))
            } else {
                Ok((v, x))
            }
        }
    } else {
        Ok((0, k))
    }
}

/// A number literal at `j`: its value and the index past it.
pub open spec fn scan_number(s: Seq<char>, j: int) -> Result<(NumberModel, int), LexerError> {
    let negative = j < s.len() && s[j] == '-';
    let k = if negative { j + 1 } else { j };
    match scan_int_part(s, k) {
        Err(e) => Err(e),
        Ok(int_end) => match scan_fraction(s, int_end) {
            Err(e) => Err(e),
            Ok((fs, fe)) => match scan_exponent(s, fe) {
                Err(e) => Err(e),
                Ok((exp, end)) => Ok(
                    (
                        number_from_parts(
                            negative,
                            digit_values(s.subrange(k, int_end) + s.subrange(fs, fe)),
                            fe - fs,
                            exp,
                        ),
                        end,
                    ),
                ),
            },
        },
    }
}

pub open spec fn word_true() -> Seq<char> {
    seq!['t', 'r', 'u', 'e']
}

pub open spec fn word_false() -> Seq<char> {
    seq!['f', 'a', 'l', 's', 'e']
}

pub open spec fn word_null() -> Seq<char> {
    seq!['n', 'u', 'l', 'l']
}

pub open spec fn literal_step(s: Seq<char>, j: int, word: Seq<char>, t: TokenModel) -> LexStep {
    match scan_literal(s, j, word, 0) {
        Err(e) => LexStep::Error(e),
        Ok(k) => LexStep::Token(SpannedModel { token: t, position: pos_at(s, j) }, k),
    }
}

pub open spec fn punct(c: char) -> Option<TokenModel> {
    if c == '{' {
        Some(TokenModel::LeftBrace)
    } else if c == '}' {
        Some(TokenModel::RightBrace)
    } else if c == '[' {
        Some(TokenModel::LeftBracket)
    } else if c == ']' {
        Some(TokenModel::RightBracket)
    } else if c == ':' {
        Some(TokenModel::Colon)
    } else if c == ',' {
        Some(TokenModel::Comma)
    } else {
        None
    }
}

/// Reading one token from index `i`.
pub open spec fn lex_token(s: Seq<char>, i: int) -> LexStep {
    let j = skip_ws(s, i);
    if j < 0 || j >= s.len() {
        LexStep::End(j)
    } else {
        let c = s[j];
        let p = pos_at(s, j);
        if punct(c) is Some {
            LexStep::Token(SpannedModel { token: punct(c)->0, position: p }, j + 1)
        } else if c == '"' {
            match scan_string(s, j + 1, Seq::empty(), p) {
                Err(e) => LexStep::Error(e),
                Ok((text, k)) => LexStep::Token(SpannedModel { token: TokenModel::Str(text), position: p }, k),
            }
        } else if c == 't' {
            literal_step(s, j, word_true(), TokenModel::True)
        } else if c == 'f' {
            literal_step(s, j, word_false(), TokenModel::False)
        } else if c == 'n' {
            literal_step(s, j, word_null(), TokenModel::Null)
        } else if is_digit(c) || c == '-' {
            match scan_number(s, j) {
                Err(e) => LexStep::Error(e),
                Ok((n, k)) => LexStep::Token(SpannedModel { token: TokenModel::Num(n), position: p }, k),
            }
        } else {
            LexStep::Error(LexerError::UnexpectedCharacter { ch: c, position: p })
        }
    }
}

/// All tokens from index `i` on, and the error that stopped the reading, if any.
pub open spec fn lex_all(s: Seq<char>, i: int) -> (Seq<SpannedModel>, Option<LexerError>)
    decreases s.len() - i,
{
    match lex_token(s, i) {
        LexStep::End(_) => (Seq::empty(), None),
        LexStep::Error(e) => (Seq::empty(), Some(e)),
        LexStep::Token(t, k) => if i < k <= s.len() {
            let rest = lex_all(s, k);
            (seq![t] + rest.0, rest.1)
        } else {
            (Seq::empty(), None)
        },
    }
}


// ----- how far the scanners read -----

pub proof fn lemma_skip_ws_bounds(s: Seq<char>, i: int)
    requires
        0 <= i <= s.len(),
    ensures
        i <= skip_ws(s, i) <= s.len(),
        skip_ws(s, i) < s.len() ==> !is_whitespace(s[skip_ws(s, i)]),
    decreases s.len() - i,
{
    if i < s.len() && is_whitespace(s[i]) {
        lemma_skip_ws_bounds(s, i + 1);
    }
}

pub proof fn lemma_digit_run_bounds(s: Seq<char>, i: int)
    requires
        0 <= i <= s.len(),
    ensures
        i <= digit_run_end(s, i) <= s.len(),
        forall|j: int| i <= j < digit_run_end(s, i) ==> is_digit(#[trigger] s[j]),
        digit_run_end(s, i) < s.len() ==> !is_digit(s[digit_run_end(s, i)]),
    decreases s.len() - i,
{
    if i < s.len() && is_digit(s[i]) {
        lemma_digit_run_bounds(s, i + 1);
    }
}

pub proof fn lemma_scan_hex_bounds(s: Seq<char>, k: int, m: int, acc: int)
    requires
        0 <= k,
        0 <= m <= 4,
        k + m <= s.len(),
    ensures
        scan_hex(s, k, m, acc) is Ok ==> k + 4 <= s.len(),
    decreases 4 - m,
{
    if m < 4 && k + m < s.len() && is_hex(s[k + m]) {
        lemma_scan_hex_bounds(s, k, m + 1, acc * 16 + hex_value(s[k + m]));
    }
}

pub proof fn lemma_scan_escape_bounds(s: Seq<char>, k: int)
    requires
        0 <= k <= s.len(),
    ensures
        scan_escape(s, k) matches Ok((_, k2)) ==> k < k2 <= s.len(),
{
    if k < s.len() && s[k] == 'u' {
        lemma_scan_hex_bounds(s, k + 1, 0, 0);
    }
}

pub proof fn lemma_scan_string_bounds(s: Seq<char>, k: int, acc: Seq<char>, start: Position)
    requires
        0 <= k,
    ensures
        scan_string(s, k, acc, start) matches Ok((_, k2)) ==> k < k2 <= s.len(),
    decreases s.len() - k,
{
    if 0 <= k < s.len() && s[k] != '"' {
        if s[k] == '\\' {
            lemma_scan_escape_bounds(s, k + 1);
            match scan_escape(s, k + 1) {
                Ok((c, k2)) => {
                    if k < k2 <= s.len() {
                        lemma_scan_string_bounds(s, k2, acc.push(c), start);
                    }
                },
                Err(_) => {},
            }
        } else {
            lemma_scan_string_bounds(s, k + 1, acc.push(s[k]), start);
        }
    }
}

pub proof fn lemma_scan_literal_bounds(s: Seq<char>, k: int, word: Seq<char>, m: int)
    requires
        0 <= k,
        0 <= m <= word.len(),
        k + m <= s.len(),
    ensures
        scan_literal(s, k, word, m) matches Ok(k2) ==> k2 == k + word.len() && k2 <= s.len(),
    decreases word.len() - m,
{
    if m < word.len() && k + m < s.len() && s[k + m] == word[m] {
        lemma_scan_literal_bounds(s, k, word, m + 1);
    }
}

pub proof fn lemma_scan_number_bounds(s: Seq<char>, j: int)
    requires
        0 <= j <= s.len(),
    ensures
        scan_number(s, j) matches Ok((_, end)) ==> j < end <= s.len(),
{
    let negative = j < s.len() && s[j] == '-';
    let k = if negative { j + 1 } else { j };
    lemma_digit_run_bounds(s, k);
    if let Ok(int_end) = scan_int_part(s, k) {
        if int_end < s.len() {
            lemma_digit_run_bounds(s, int_end + 1);
        }
        if let Ok((fs, fe)) = scan_fraction(s, int_end) {
            if fe + 2 <= s.len() {
                lemma_digit_run_bounds(s, fe + 2);
            }
            if fe + 1 <= s.len() {
                lemma_digit_run_bounds(s, fe + 1);
            }
        }
    }
}

/// Reading a token moves forward within the input.
pub proof fn lemma_lex_token_bounds(s: Seq<char>, i: int)
    requires
        0 <= i <= s.len(),
    ensures
        lex_token(s, i) matches LexStep::Token(_, k) ==> i < k <= s.len(),
        lex_token(s, i) matches LexStep::End(j) ==> j == s.len(),
{
    lemma_skip_ws_bounds(s, i);
    let j = skip_ws(s, i);
    if j < s.len() {
        lemma_scan_string_bounds(s, j + 1, Seq::empty(), pos_at(s, j));
        lemma_scan_literal_bounds(s, j, word_true(), 0);
        lemma_scan_literal_bounds(s, j, word_false(), 0);
        lemma_scan_literal_bounds(s, j, word_null(), 0);
        lemma_scan_number_bounds(s, j);
    }
}

/// Reading all tokens is reading one, then the rest.
pub proof fn lemma_lex_all_step(s: Seq<char>, i: int)
    requires
        0 <= i <= s.len(),
    ensures
        match lex_token(s, i) {
            LexStep::End(j) => j == s.len() && lex_all(s, i) == (Seq::<SpannedModel>::empty(), None::<LexerError>)
                && lex_all(s, j) == lex_all(s, i),
            LexStep::Token(t, k) => i < k <= s.len() && lex_all(s, i) == (seq![t] + lex_all(s, k).0, lex_all(s, k).1),
            LexStep::Error(e) => lex_all(s, i) == (Seq::<SpannedModel>::empty(), Some(e)),
        },
{
    lemma_lex_token_bounds(s, i);
    if let LexStep::End(j) = lex_token(s, i) {
        lemma_skip_ws_bounds(s, j);
        assert(lex_token(s, j) is End);
    }
}

// ----- executable lexer -----

/// A JSON token.
#[derive(Debug)]
pub enum Token {
    LeftBrace,
    RightBrace,
    LeftBracket,
    RightBracket,
    Colon,
    Comma,
    String(String),
    Number(JsonNumber),
    True,
    False,
    Null,
}

impl Token {
    pub open spec fn view(&self) -> TokenModel {
        match self {
            Token::LeftBrace => TokenModel::LeftBrace,
            Token::RightBrace => TokenModel::RightBrace,
            Token::LeftBracket => TokenModel::LeftBracket,
            Token::RightBracket => TokenModel::RightBracket,
            Token::Colon => TokenModel::Colon,
            Token::Comma => TokenModel::Comma,
            Token::String(s) => TokenModel::Str(s@),
            Token::Number(n) => TokenModel::Num(n@),
            Token::True => TokenModel::True,
            Token::False => TokenModel::False,
            Token::Null => TokenModel::Null,
        }
    }
}

/// A token with the position of its first character.
#[derive(Debug)]
pub struct SpannedToken {
    pub token: Token,
    pub position: Position,
}

impl SpannedToken {
    pub open spec fn view(&self) -> SpannedModel {
        SpannedModel { token: self.token@, position: self.position }
    }
}

/// `char::from_u32`: the character whose code point is `v`, when `v` is a
/// Unicode scalar value (not a surrogate, at most 0x10FFFF).
#[verifier::external_body]
fn char_from_u32(v: u32) -> (r: Option<char>)
    ensures
        r is Some <==> is_scalar(v as int),
        r matches Some(c) ==> c == (v as int) as char,
{
    char::from_u32(v)
}

fn is_whitespace_char(c: char) -> (r: bool)
    ensures
        r == is_whitespace(c),
{
    let v = c as u32;
    (0x09 <= v && v <= 0x0D) || v == 0x20 || v == 0x85 || v == 0xA0 || v == 0x1680 || (0x2000
        <= v && v <= 0x200A) || v == 0x2028 || v == 0x2029 || v == 0x202F || v == 0x205F || v
        == 0x3000
}

fn is_digit_char(c: char) -> (r: bool)
    ensures
        r == is_digit(c),
{
    '0' <= c && c <= '9'
}

fn is_hex_char(c: char) -> (r: bool)
    ensures
        r == is_hex(c),
{
    ('0' <= c && c <= '9') || ('a' <= c && c <= 'f') || ('A' <= c && c <= 'F')
}

fn continues_word_char(c: char) -> (r: bool)
    ensures
        r == continues_word(c),
{
    ('0' <= c && c <= '9') || ('a' <= c && c <= 'z') || ('A' <= c && c <= 'Z') || c == '_'
}

/// Line and column never exceed one more than the index.
pub proof fn lemma_line_column_bounds(s: Seq<char>, i: int)
    requires
        0 <= i <= s.len(),
    ensures
        1 <= line_at(s, i) <= i + 1,
        1 <= column_at(s, i) <= i + 1,
    decreases i,
{
    if i > 0 {
        lemma_line_column_bounds(s, i - 1);
    }
}

/// Saturated accumulation of one more exponent digit.
proof fn lemma_saturated_push(ds: Seq<u8>, d: u8)
    requires
        d < 10,
    ensures
        saturated(ds.push(d)) == if 10 * saturated(ds) + d > EXPONENT_LIMIT {
            EXPONENT_LIMIT as int
        } else {
            10 * saturated(ds) + d
        },
{
    assert(ds.push(d).drop_last() == ds);
    assert(dval(ds.push(d)) == 10 * dval(ds) + d);
}

pub open spec fn pow16(m: int) -> int {
    if m <= 0 {
        1
    } else if m == 1 {
        16
    } else if m == 2 {
        256
    } else if m == 3 {
        4096
    } else {
        65536
    }
}

/// Where a lexer stands: the index of the next character, and its line and
/// column.
#[derive(Clone, Copy)]
struct Cursor {
    pos: usize,
    line: usize,
    column: usize,
}

/// Reads JSON tokens from a text.
pub struct Lexer {
    chars: Vec<char>,
    at: Cursor,
}

impl Lexer {
    /// The characters being read.
    pub closed spec fn input(&self) -> Seq<char> {
        self.chars@
    }

    /// The index of the next character to read.
    pub closed spec fn offset(&self) -> int {
        self.at.pos as int
    }

    /// The position fields agree with the index.
    pub closed spec fn wf(&self) -> bool {
        &&& self.at.pos <= self.chars@.len() < usize::MAX
        &&& self.at.line == line_at(self.chars@, self.at.pos as int)
        &&& self.at.column == column_at(self.chars@, self.at.pos as int)
    }

    /// Every lexer keeps its position fields in step with its index.
    #[verifier::type_invariant]
    pub(crate) open spec fn always_wf(self) -> bool {
        self.wf()
    }

    /// A well-formed lexer stands within its input.
    pub proof fn lemma_bounds(&self)
        requires
            self.wf(),
        ensures
            0 <= self.offset() <= self.input().len() < usize::MAX,
    {
    }

    /// A lexer at the start of `input`.
    pub fn new(input: &str) -> (r: Lexer)
        requires
            input@.len() < usize::MAX,
        ensures
            r.wf(),
            r.input() == input@,
            r.offset() == 0,
    {
        let chars = chars_of(input);
        Lexer { chars, at: Cursor { pos: 0, line: 1, column: 1 } }
    }

    /// The line and column of the next character to read.
    pub fn current_position(&self) -> (p: Position)
        ensures
            p == pos_at(self.input(), self.offset()),
    {
        proof {
            use_type_invariant(self);
        }
        proof {
            lemma_line_column_bounds(self.chars@, self.at.pos as int);
        }
        Position { line: self.at.line, column: self.at.column }
    }

    /// The next character, without reading it.
    pub fn peek(&self) -> (r: Option<char>)
        ensures
            r == if self.offset() < self.input().len() {
                Some(self.input()[self.offset()])
            } else {
                None::<char>
            },
    {
        proof {
            use_type_invariant(self);
        }
        if self.at.pos < self.chars.len() {
            Some(self.chars[self.at.pos])
        } else {
            None
        }
    }

    /// Reads the next character, moving the line and column past it.
    pub fn next(&mut self) -> (r: Option<char>)
        ensures
            final(self).wf(),
            final(self).input() == old(self).input(),
            old(self).offset() < old(self).input().len() ==> r == Some(old(self).input()[old(self).offset()])
                && final(self).offset() == old(self).offset() + 1,
            old(self).offset() >= old(self).input().len() ==> r is None && final(self).offset()
                == old(self).offset(),
    {
        proof {
            use_type_invariant(&*self);
        }
        proof {
            lemma_line_column_bounds(self.chars@, self.at.pos as int);
        }
        if self.at.pos < self.chars.len() {
            let ch = self.chars[self.at.pos];
            let pos = self.at.pos + 1;
            if ch == '\n' {
                self.at = Cursor { pos, line: self.at.line + 1, column: 1 };
            } else {
                self.at = Cursor { pos, line: self.at.line, column: self.at.column + 1 };
            }
            Some(ch)
        } else {
            None
        }
    }

    /// Reads past whitespace.
    pub fn skip_whitespace(&mut self)
        ensures
            final(self).wf(),
            final(self).input() == old(self).input(),
            final(self).offset() == skip_ws(old(self).input(), old(self).offset()),
    {
        proof {
            use_type_invariant(&*self);
        }
        let ghost s = self.input();
        let ghost start = self.offset();
        loop
            invariant
                self.wf(),
                self.input() == s,
                0 <= self.offset() <= s.len(),
                skip_ws(s, start) == skip_ws(s, self.offset()),
            ensures
                self.wf(),
                self.input() == s,
                skip_ws(s, start) == self.offset(),
            decreases s.len() - self.offset(),
        {
            match self.peek() {
                Some(ch) => {
                    if is_whitespace_char(ch) {
                        self.next();
                    } else {
                        break;
                    }
                },
                None => {
                    break;
                },
            }
        }
    }

    fn make_token(&self, token: Token, position: Position) -> (r: SpannedToken)
        ensures
            r.token == token,
            r.position == position,
    {
        SpannedToken { token, position }
    }

    /// Reads a run of ASCII digits, appending their values to `out`.
    fn read_digits(&mut self, out: &mut Vec<u8>)
        requires
            old(self).wf(),
            all_digits(old(out)@),
        ensures
            final(self).wf(),
            all_digits(final(out)@),
            final(self).input() == old(self).input(),
            final(self).offset() == digit_run_end(old(self).input(), old(self).offset()),
            old(self).offset() <= final(self).offset() <= old(self).input().len(),
            final(out)@ == old(out)@ + digit_values(
                old(self).input().subrange(old(self).offset(), final(self).offset()),
            ),
            final(out)@.len() == old(out)@.len() + final(self).offset() - old(self).offset(),
    {
        let ghost s = self.input();
        let ghost start = self.offset();
        let ghost out0 = out@;
        assert(s.subrange(start, start) =~= Seq::<char>::empty());
        assert(out0 + digit_values(Seq::<char>::empty()) =~= out0);
        loop
            invariant
                self.wf(),
                self.input() == s,
                0 <= start <= self.offset() <= s.len(),
                digit_run_end(s, start) == digit_run_end(s, self.offset()),
                out@ == out0 + digit_values(s.subrange(start, self.offset())),
                all_digits(out@),
            ensures
                all_digits(out@),
                self.wf(),
                self.input() == s,
                0 <= start <= self.offset() <= s.len(),
                self.offset() == digit_run_end(s, start),
                out@ == out0 + digit_values(s.subrange(start, self.offset())),
            decreases s.len() - self.offset(),
        {
            match self.peek() {
                Some(c) => {
                    if is_digit_char(c) {
                        let ghost before = self.offset();
                        out.push((c as u32 - 48) as u8);
                        self.next();
                        assert(s.subrange(start, before + 1) =~= s.subrange(start, before).push(c));
                        assert(digit_values(s.subrange(start, before + 1)) =~= digit_values(
                            s.subrange(start, before),
                        ).push(digit_value(c)));
                    } else {
                        break;
                    }
                },
                None => {
                    break;
                },
            }
        }
    }

    /// Reads the digits of an exponent: how many there were and their
    /// value, saturated at `EXPONENT_LIMIT`.
    fn read_exponent_digits(&mut self) -> (r: (usize, i128))
        requires
            old(self).wf(),
        ensures
            final(self).wf(),
            final(self).input() == old(self).input(),
            final(self).offset() == digit_run_end(old(self).input(), old(self).offset()),
            old(self).offset() <= final(self).offset() <= old(self).input().len(),
            r.0 == final(self).offset() - old(self).offset(),
            r.1 == saturated(
                digit_values(old(self).input().subrange(old(self).offset(), final(self).offset())),
            ),
    {
        let ghost s = self.input();
        let ghost start = self.offset();
        let mut count: usize = 0;
        let mut value: i128 = 0;
        assert(digit_values(s.subrange(start, start)) =~= Seq::<u8>::empty());
        loop
            invariant
                self.wf(),
                self.input() == s,
                0 <= start <= self.offset() <= s.len(),
                count == self.offset() - start,
                digit_run_end(s, start) == digit_run_end(s, self.offset()),
                value == saturated(digit_values(s.subrange(start, self.offset()))),
                0 <= value <= EXPONENT_LIMIT,
            ensures
                self.wf(),
                self.input() == s,
                0 <= start <= self.offset() <= s.len(),
                self.offset() == digit_run_end(s, start),
                count == self.offset() - start,
                value == saturated(digit_values(s.subrange(start, self.offset()))),
            decreases s.len() - self.offset(),
        {
            match self.peek() {
                Some(c) => {
                    if is_digit_char(c) {
                        let ghost before = self.offset();
                        let d = (c as u32 - 48) as u8;
                        let grown = 10 * value + d as i128;
                        value = if grown > EXPONENT_LIMIT {
                            EXPONENT_LIMIT
                        } else {
                            grown
                        };
                        count = count + 1;
                        self.next();
                        assert(digit_values(s.subrange(start, before + 1)) =~= digit_values(
                            s.subrange(start, before),
                        ).push(d));
                        proof {
                            lemma_saturated_push(digit_values(s.subrange(start, before)), d);
                        }
                    } else {
                        break;
                    }
                },
                None => {
                    break;
                },
            }
        }
        (count, value)
    }

    /// Reads the integer part of a number, appending its digits to `all`.
    fn read_int_part(&mut self, all: &mut Vec<u8>) -> (r: Result<(), JsonError>)
        requires
            old(self).wf(),
            old(all)@.len() == 0,
        ensures
            final(self).wf(),
            final(self).input() == old(self).input(),
            all_digits(final(all)@),
            match scan_int_part(old(self).input(), old(self).offset()) {
                Ok(e) => old(self).offset() <= e && r is Ok && final(self).offset() == e && final(all)@ == digit_values(
                    old(self).input().subrange(old(self).offset(), e),
                ),
                Err(e) => r == Err::<(), JsonError>(JsonError::Lexer(e)),
            },
    {
        let ghost s = self.input();
        let ghost k = self.offset();
        let mut leading_zero = false;
        match self.peek() {
            Some(c) => {
                leading_zero = c == '0';
            },
            None => {},
        }
        if leading_zero {
            self.next();
            all.push(0);
            match self.peek() {
                Some(ch) => {
                    if is_digit_char(ch) {
                        return Err(JsonError::Lexer(LexerError::LeadingZero(self.current_position())));
                    }
                },
                None => {},
            }
            assert(all@ =~= digit_values(s.subrange(k, k + 1)));
        } else {
            self.read_digits(all);
            if all.len() == 0 {
                return Err(JsonError::Lexer(LexerError::InvalidNumber(self.current_position())));
            }
            assert(all@ =~= digit_values(s.subrange(k, self.offset())));
        }
        Ok(())
    }

    /// Reads the optional fraction of a number, appending its digits to `all`;
    /// gives the number of fraction digits.
    fn read_fraction(&mut self, all: &mut Vec<u8>) -> (r: Result<usize, JsonError>)
        requires
            old(self).wf(),
            all_digits(old(all)@),
        ensures
            final(self).wf(),
            final(self).input() == old(self).input(),
            all_digits(final(all)@),
            match scan_fraction(old(self).input(), old(self).offset()) {
                Ok((fs, fe)) => old(self).offset() <= fs <= fe && r == Ok::<usize, JsonError>((fe - fs) as usize) && final(self).offset()
                    == fe && final(all)@ == old(all)@ + digit_values(
                    old(self).input().subrange(fs, fe),
                ),
                Err(e) => r == Err::<usize, JsonError>(JsonError::Lexer(e)),
            },
    {
        let ghost s = self.input();
        let ghost k = self.offset();
        let mut has_fraction = false;
        match self.peek() {
            Some(c) => {
                has_fraction = c == '.';
            },
            None => {},
        }
        if has_fraction {
            self.next();
            let before = all.len();
            self.read_digits(all);
            let frac_len = all.len() - before;
            if frac_len == 0 {
                return Err(JsonError::Lexer(LexerError::InvalidNumber(self.current_position())));
            }
            Ok(frac_len)
        } else {
            assert(s.subrange(k, k) =~= Seq::<char>::empty());
            assert(all@ =~= all@ + digit_values(s.subrange(k, k)));
            Ok(0)
        }
    }

    /// Reads the optional exponent of a number: its signed, saturated value.
    fn read_exponent(&mut self) -> (r: Result<i128, JsonError>)
        requires
            old(self).wf(),
        ensures
            final(self).wf(),
            final(self).input() == old(self).input(),
            match scan_exponent(old(self).input(), old(self).offset()) {
                Ok((v, end)) => r == Ok::<i128, JsonError>(v as i128) && final(self).offset() == end
                    && -EXPONENT_LIMIT <= v <= EXPONENT_LIMIT,
                Err(e) => r == Err::<i128, JsonError>(JsonError::Lexer(e)),
            },
    {
        let mut has_exponent = false;
        match self.peek() {
            Some(c) => {
                has_exponent = c == 'e' || c == 'E';
            },
            None => {},
        }
        if !has_exponent {
            return Ok(0);
        }
        self.next();
        let mut exp_negative = false;
        match self.peek() {
            Some(c) => {
                if c == '+' || c == '-' {
                    exp_negative = c == '-';
                    self.next();
                }
            },
            None => {},
        }
        let (count, value) = self.read_exponent_digits();
        if count == 0 {
            return Err(JsonError::Lexer(LexerError::InvalidNumber(self.current_position())));
        }
        if exp_negative {
            Ok(-value)
        } else {
            Ok(value)
        }
    }

    /// Reads a number literal.
    fn read_number(&mut self) -> (r: Result<JsonNumber, JsonError>)
        requires
            old(self).wf(),
        ensures
            final(self).wf(),
            final(self).input() == old(self).input(),
            match scan_number(old(self).input(), old(self).offset()) {
                Ok((n, k)) => r matches Ok(v) && v@ == n && final(self).offset() == k,
                Err(e) => r == Err::<JsonNumber, JsonError>(JsonError::Lexer(e)),
            },
    {
        let ghost s = self.input();
        let ghost j = self.offset();
        let mut all: Vec<u8> = Vec::new();
        let mut negative = false;
        match self.peek() {
            Some(c) => {
                if c == '-' {
                    negative = true;
                    self.next();
                }
            },
            None => {},
        }
        let ghost k = self.offset();
        assert(k == if j < s.len() && s[j] == '-' { j + 1 } else { j });
        match self.read_int_part(&mut all) {
            Ok(()) => {},
            Err(e) => {
                return Err(e);
            },
        }
        let ghost int_end = self.offset();
        let frac_len = match self.read_fraction(&mut all) {
            Ok(n) => n,
            Err(e) => {
                return Err(e);
            },
        };
        let ghost fe = self.offset();
        let ghost fs = fe - frac_len;
        proof {
            self.lemma_bounds();
        }
        assert(scan_fraction(s, int_end) == Ok::<(int, int), LexerError>((fs, fe)));
        assert(digit_values(s.subrange(k, int_end) + s.subrange(fs, fe)) =~= digit_values(
            s.subrange(k, int_end),
        ) + digit_values(s.subrange(fs, fe)));
        let exponent = match self.read_exponent() {
            Ok(v) => v,
            Err(e) => {
                return Err(e);
            },
        };
        let scaled = exponent - frac_len as i128;
        Ok(JsonNumber::from_digits(negative, &all, scaled))
    }

    /// Reads the literal word `expected` (`true`, `false` or `null`).
    pub fn read_literal(&mut self, expected: &str) -> (r: Result<(), JsonError>)
        ensures
            final(self).wf(),
            final(self).input() == old(self).input(),
            match scan_literal(old(self).input(), old(self).offset(), expected@, 0) {
                Ok(k) => r is Ok && final(self).offset() == k,
                Err(e) => r == Err::<(), JsonError>(JsonError::Lexer(e)),
            },
    {
        proof {
            use_type_invariant(&*self);
        }
        let ghost s = self.input();
        let ghost j = self.offset();
        let word = chars_of(expected);
        let mut m: usize = 0;
        while m < word.len()
            invariant
                self.wf(),
                self.input() == s,
                word@ == expected@,
                s == old(self).input(),
                j == old(self).offset(),
                m <= word@.len(),
                self.offset() == j + m,
                scan_literal(s, j, word@, 0) == scan_literal(s, j, word@, m as int),
            decreases word@.len() - m,
        {
            match self.next() {
                Some(c) => {
                    if c != word[m] {
                        return Err(JsonError::Lexer(LexerError::UnexpectedLiteral(self.current_position())));
                    }
                },
                None => {
                    return Err(JsonError::Lexer(LexerError::UnexpectedLiteral(self.current_position())));
                },
            }
            m = m + 1;
        }
        match self.peek() {
            Some(ch) => {
                if continues_word_char(ch) {
                    return Err(JsonError::Lexer(LexerError::UnexpectedLiteral(self.current_position())));
                }
            },
            None => {},
        }
        Ok(())
    }

    /// Reads the four hex digits of a `\u` escape.
    pub fn read_unicode_escape(&mut self) -> (r: Result<char, JsonError>)
        ensures
            final(self).wf(),
            final(self).input() == old(self).input(),
            match scan_unicode(old(self).input(), old(self).offset()) {
                Ok((c, k)) => r == Ok::<char, JsonError>(c) && final(self).offset() == k,
                Err(e) => r == Err::<char, JsonError>(JsonError::Lexer(e)),
            },
    {
        proof {
            use_type_invariant(&*self);
        }
        let ghost s = self.input();
        let ghost k = self.offset();
        let mut code: u32 = 0;
        let mut m: usize = 0;
        while m < 4
            invariant
                self.wf(),
                self.input() == s,
                m <= 4,
                self.offset() == k + m,
                code < pow16(m as int),
                s == old(self).input(),
                k == old(self).offset(),
                scan_hex(s, k, 0, 0) == scan_hex(s, k, m as int, code as int),
            decreases 4 - m,
        {
            match self.next() {
                Some(c) => {
                    if is_hex_char(c) {
                        let v: u32 = if '0' <= c && c <= '9' {
                            c as u32 - 48
                        } else if 'a' <= c && c <= 'f' {
                            c as u32 - 87
                        } else {
                            c as u32 - 55
                        };
                        assert(v == hex_value(c));
                        code = code * 16 + v;
                    } else {
                        return Err(
                            JsonError::Lexer(LexerError::InvalidUnicodeEscape(self.current_position())),
                        );
                    }
                },
                None => {
                    return Err(
                        JsonError::Lexer(LexerError::InvalidUnicodeEscape(self.current_position())),
                    );
                },
            }
            m = m + 1;
        }
        match char_from_u32(code) {
            Some(c) => {
                Ok(c)
            },
            None => Err(JsonError::Lexer(LexerError::InvalidUnicodeEscape(self.current_position()))),
        }
    }

    /// Reads the escape letter after a backslash.
    pub fn read_escape(&mut self) -> (r: Result<char, JsonError>)
        ensures
            final(self).wf(),
            final(self).input() == old(self).input(),
            match scan_escape(old(self).input(), old(self).offset()) {
                Ok((c, k)) => r == Ok::<char, JsonError>(c) && final(self).offset() == k,
                Err(e) => r == Err::<char, JsonError>(JsonError::Lexer(e)),
            },
    {
        proof {
            use_type_invariant(&*self);
        }
        match self.next() {
            Some(c) => {
                if c == 'n' {
                    Ok('\n')
                } else if c == 't' {
                    Ok('\t')
                } else if c == '\\' {
                    Ok('\\')
                } else if c == '"' {
                    Ok('"')
                } else if c == '/' {
                    Ok('/')
                } else if c == 'b' {
                    Ok('\u{8}')
                } else if c == 'f' {
                    Ok('\u{c}')
                } else if c == 'r' {
                    Ok('\r')
                } else if c == 'u' {
                    self.read_unicode_escape()
                } else {
                    Err(
                        JsonError::Lexer(
                            LexerError::InvalidEscapeCharacter { ch: c, position: self.current_position() },
                        ),
                    )
                }
            },
            None => Err(JsonError::Lexer(LexerError::UnexpectedEndOfInput(self.current_position()))),
        }
    }

    /// Reads a string literal; the next character is its opening quote.
    pub fn read_string(&mut self) -> (r: Result<String, JsonError>)
        requires
            old(self).offset() < old(self).input().len(),
            old(self).input()[old(self).offset()] == '"',
        ensures
            final(self).wf(),
            final(self).input() == old(self).input(),
            match scan_string(
                old(self).input(),
                old(self).offset() + 1,
                Seq::empty(),
                pos_at(old(self).input(), old(self).offset()),
            ) {
                Ok((text, k)) => r matches Ok(t) && t@ == text && final(self).offset() == k,
                Err(e) => r == Err::<String, JsonError>(JsonError::Lexer(e)),
            },
    {
        proof {
            use_type_invariant(&*self);
        }
        let ghost s = self.input();
        let start = self.current_position();
        // consume the opening quote
        match self.next() {
            Some(_) => {},
            None => {
                return Err(JsonError::Lexer(LexerError::UnterminatedString(start)));
            },
        }
        let start_pos = self.at.pos;
        assert(s.subrange(start_pos as int, start_pos as int) =~= Seq::<char>::empty());
        loop
            invariant
                self.wf(),
                self.input() == s,
                start_pos <= self.offset() <= s.len(),
                s == old(self).input(),
                start_pos == old(self).offset() + 1,
                start == pos_at(s, start_pos - 1),
                start_pos >= 1,
                scan_string(s, start_pos as int, Seq::empty(), start) == scan_string(
                    s,
                    self.offset(),
                    s.subrange(start_pos as int, self.offset()),
                    start,
                ),
            decreases s.len() - self.offset(),
        {
            let ghost here = self.offset();
            let ch = match self.next() {
                Some(c) => c,
                None => {
                    return Err(JsonError::Lexer(LexerError::UnterminatedString(start)));
                },
            };
            if ch == '"' {
                let end_pos = self.at.pos - 1;
                return Ok(self.text_between(start_pos, end_pos));
            } else if ch == '\\' {
                let escape_start = self.at.pos - 1;
                let mut buf = self.text_between(start_pos, escape_start);
                let escaped = match self.read_escape() {
                    Ok(c) => c,
                    Err(e) => {
                        return Err(e);
                    },
                };
                buf.push(escaped);
                return self.read_string_slow(buf, start);
            }
            assert(s.subrange(start_pos as int, here + 1) =~= s.subrange(start_pos as int, here).push(ch));
        }
    }

    /// The characters of the input between two indices, as a string.
    fn text_between(&self, from: usize, to: usize) -> (r: String)
        requires
            self.wf(),
            from <= to <= self.input().len(),
        ensures
            r@ == self.input().subrange(from as int, to as int),
    {
        let mut r = String::new();
        let mut i = from;
        while i < to
            invariant
                from <= i <= to <= self.chars@.len(),
                r@ == self.chars@.subrange(from as int, i as int),
            decreases to - i,
        {
            r.push(self.chars[i]);
            i = i + 1;
            assert(r@ =~= self.chars@.subrange(from as int, i as int));
        }
        r
    }

    /// Reads the rest of a string literal after an escape, with `buf` read so far.
    pub fn read_string_slow(&mut self, buf: String, start: Position) -> (r: Result<String, JsonError>)
        ensures
            final(self).wf(),
            final(self).input() == old(self).input(),
            match scan_string(old(self).input(), old(self).offset(), buf@, start) {
                Ok((text, k)) => r matches Ok(t) && t@ == text && final(self).offset() == k,
                Err(e) => r == Err::<String, JsonError>(JsonError::Lexer(e)),
            },
    {
        proof {
            use_type_invariant(&*self);
        }
        let ghost s = self.input();
        let ghost k0 = self.offset();
        let mut acc = buf;
        let ghost buf0 = acc@;
        proof {
            self.lemma_bounds();
        }
        loop
            invariant
                self.wf(),
                self.input() == s,
                k0 <= self.offset() <= s.len(),
                s == old(self).input(),
                k0 == old(self).offset(),
                buf0 == buf@,
                scan_string(s, k0, buf0, start) == scan_string(s, self.offset(), acc@, start),
            decreases s.len() - self.offset(),
        {
            let ch = match self.next() {
                Some(c) => c,
                None => {
                    return Err(JsonError::Lexer(LexerError::UnterminatedString(start)));
                },
            };
            if ch == '"' {
                return Ok(acc);
            } else if ch == '\\' {
                let escaped = match self.read_escape() {
                    Ok(c) => c,
                    Err(e) => {
                        return Err(e);
                    },
                };
                acc.push(escaped);
            } else {
                acc.push(ch);
            }
        }
    }

    /// Reads the next token, skipping whitespace first; `None` at the end of the input.
    pub fn next_token(&mut self) -> (r: Result<Option<SpannedToken>, JsonError>)
        ensures
            final(self).wf(),
            final(self).input() == old(self).input(),
            match lex_token(old(self).input(), old(self).offset()) {
                LexStep::End(j) => r == Ok::<Option<SpannedToken>, JsonError>(None)
                    && final(self).offset() == j,
                LexStep::Token(t, k) => r matches Ok(Some(st)) && st@ == t && final(self).offset()
                    == k,
                LexStep::Error(e) => r == Err::<Option<SpannedToken>, JsonError>(JsonError::Lexer(e)),
            },
    {
        proof {
            use_type_invariant(&*self);
        }
        let ghost s = self.input();
        self.skip_whitespace();
        proof {
            self.lemma_bounds();
        }
        let ch = match self.peek() {
            Some(c) => c,
            None => {
                return Ok(None);
            },
        };
        let position = self.current_position();
        if ch == '{' {
            self.next();
            Ok(Some(self.make_token(Token::LeftBrace, position)))
        } else if ch == '}' {
            self.next();
            Ok(Some(self.make_token(Token::RightBrace, position)))
        } else if ch == '[' {
            self.next();
            Ok(Some(self.make_token(Token::LeftBracket, position)))
        } else if ch == ']' {
            self.next();
            Ok(Some(self.make_token(Token::RightBracket, position)))
        } else if ch == ':' {
            self.next();
            Ok(Some(self.make_token(Token::Colon, position)))
        } else if ch == ',' {
            self.next();
            Ok(Some(self.make_token(Token::Comma, position)))
        } else if ch == '"' {
            let string = match self.read_string() {
                Ok(text) => text,
                Err(e) => {
                    return Err(e);
                },
            };
            Ok(Some(self.make_token(Token::String(string), position)))
        } else if ch == 't' {
            proof {
                reveal_strlit("true");
                assert("true"@ =~= word_true());
            }
            match self.read_literal("true") {
                Ok(()) => {},
                Err(e) => {
                    return Err(e);
                },
            }
            Ok(Some(self.make_token(Token::True, position)))
        } else if ch == 'f' {
            proof {
                reveal_strlit("false");
                assert("false"@ =~= word_false());
            }
            match self.read_literal("false") {
                Ok(()) => {},
                Err(e) => {
                    return Err(e);
                },
            }
            Ok(Some(self.make_token(Token::False, position)))
        } else if ch == 'n' {
            proof {
                reveal_strlit("null");
                assert("null"@ =~= word_null());
            }
            match self.read_literal("null") {
                Ok(()) => {},
                Err(e) => {
                    return Err(e);
                },
            }
            Ok(Some(self.make_token(Token::Null, position)))
        } else if is_digit_char(ch) || ch == '-' {
            let number = match self.read_number() {
                Ok(n) => n,
                Err(e) => {
                    return Err(e);
                },
            };
            Ok(Some(self.make_token(Token::Number(number), position)))
        } else {
            Err(JsonError::Lexer(LexerError::UnexpectedCharacter { ch, position }))
        }
    }
}

} // verus!
