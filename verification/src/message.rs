use vstd::prelude::*;
use crate::error::{JsonError, Position};
use crate::lexer::LexerError;
use crate::number::{digit_text, nat_digits, push_nat};
use crate::parser::ParserError;
use crate::patch_text::{DecodeErrorModel, PatchDecodeError};

verus! {

/// The decimal text of a count.
pub open spec fn count_text(n: nat) -> Seq<char> {
    digit_text(nat_digits(n))
}

/// `line L, column C`.
pub open spec fn position_text(p: Position) -> Seq<char> {
    "line "@ + count_text(p.line as nat) + ", column "@ + count_text(p.column as nat)
}

/// The human-readable text of a lexer error.
pub open spec fn lexer_error_text(e: LexerError) -> Seq<char> {
    match e {
        LexerError::UnexpectedEndOfInput(p) => "Unexpected end of input at "@ + position_text(p),
        LexerError::UnexpectedCharacter { ch, position } => "Unexpected character '"@ + seq![ch]
            + "' at "@ + position_text(position),
        LexerError::InvalidNumber(p) => "Invalid number at "@ + position_text(p),
        LexerError::InvalidUnicodeEscape(p) => "Invalid unicode escape at "@ + position_text(p),
        LexerError::UnexpectedLiteral(p) => "Unexpected literal at "@ + position_text(p),
        LexerError::UnterminatedNumber(p) => "Unterminated number at "@ + position_text(p),
        LexerError::UnterminatedString(p) => "Unterminated string at "@ + position_text(p),
        LexerError::InvalidEscapeCharacter { ch, position } => "Invalid escape character '"@
            + seq![ch] + "' at "@ + position_text(position),
        LexerError::LeadingZero(p) => "Leading zero at "@ + position_text(p),
    }
}

/// The human-readable text of a parser error.
pub open spec fn parser_error_text(e: ParserError) -> Seq<char> {
    match e {
        ParserError::UnexpectedToken(p) => "Unexpected token at "@ + position_text(p),
        ParserError::UnexpectedEndOfInput(p) => "Unexpected EOF at "@ + position_text(p),
        ParserError::InvalidNumber(p) => "Invalid number at "@ + position_text(p),
        ParserError::UnterminatedString(p) => "Unterminated string at "@ + position_text(p),
        ParserError::TrailingComma(p) => "Trailing comma at "@ + position_text(p),
        ParserError::ExpectedComma(p) => "Expected comma at "@ + position_text(p),
        ParserError::ExpectedColon(p) => "Expected colon at "@ + position_text(p),
        ParserError::ExpectedCommaOrRightBracket(p) => "Expected comma or right bracket at "@
            + position_text(p),
        ParserError::ExpectedCommaOrRightBrace(p) => "Expected comma or right brace at "@
            + position_text(p),
        ParserError::ExpectedStringKey(p) => "Expected a string key at "@ + position_text(p),
    }
}

/// The human-readable text of a reading error.
pub open spec fn json_error_text(e: JsonError) -> Seq<char> {
    match e {
        JsonError::Lexer(l) => lexer_error_text(l),
        JsonError::Parser(p) => parser_error_text(p),
    }
}

/// Appends `text` then the position `p`.
fn push_at(out: &mut String, text: &str, p: Position)
    ensures
        final(out)@ == old(out)@ + text@ + position_text(p),
{
    let ghost start = out@;
    out.append(text);
    out.append("line ");
    push_nat(out, p.line as u128);
    out.append(", column ");
    push_nat(out, p.column as u128);
    assert(out@ =~= start + text@ + position_text(p));
}

/// Appends `before`, the character `ch`, `after` and then the position `p`.
fn push_char_at(out: &mut String, before: &str, ch: char, after: &str, p: Position)
    ensures
        final(out)@ == old(out)@ + before@ + seq![ch] + after@ + position_text(p),
{
    let ghost start = out@;
    out.append(before);
    out.push(ch);
    push_at(out, after, p);
    assert(out@ =~= start + before@ + seq![ch] + after@ + position_text(p));
}

impl Position {
    /// `line L, column C`.
    pub fn message(&self) -> (r: String)
        ensures
            r@ == position_text(*self),
    {
        let mut out = String::new();
        push_at(&mut out, "", *self);
        proof {
            reveal_strlit("");
        }
        assert(out@ =~= position_text(*self));
        out
    }
}

impl LexerError {
    /// What went wrong, and where.
    pub fn message(&self) -> (r: String)
        ensures
            r@ == lexer_error_text(*self),
    {
        let mut out = String::new();
        match *self {
            LexerError::UnexpectedEndOfInput(p) => push_at(&mut out, "Unexpected end of input at ", p),
            LexerError::UnexpectedCharacter { ch, position } => push_char_at(
                &mut out,
                "Unexpected character '",
                ch,
                "' at ",
                position,
            ),
            LexerError::InvalidNumber(p) => push_at(&mut out, "Invalid number at ", p),
            LexerError::InvalidUnicodeEscape(p) => push_at(&mut out, "Invalid unicode escape at ", p),
            LexerError::UnexpectedLiteral(p) => push_at(&mut out, "Unexpected literal at ", p),
            LexerError::UnterminatedNumber(p) => push_at(&mut out, "Unterminated number at ", p),
            LexerError::UnterminatedString(p) => push_at(&mut out, "Unterminated string at ", p),
            LexerError::InvalidEscapeCharacter { ch, position } => push_char_at(
                &mut out,
                "Invalid escape character '",
                ch,
                "' at ",
                position,
            ),
            LexerError::LeadingZero(p) => push_at(&mut out, "Leading zero at ", p),
        }
        assert(out@ =~= lexer_error_text(*self));
        out
    }
}

impl ParserError {
    /// What went wrong, and where.
    pub fn message(&self) -> (r: String)
        ensures
            r@ == parser_error_text(*self),
    {
        let mut out = String::new();
        match *self {
            ParserError::UnexpectedToken(p) => push_at(&mut out, "Unexpected token at ", p),
            ParserError::UnexpectedEndOfInput(p) => push_at(&mut out, "Unexpected EOF at ", p),
            ParserError::InvalidNumber(p) => push_at(&mut out, "Invalid number at ", p),
            ParserError::UnterminatedString(p) => push_at(&mut out, "Unterminated string at ", p),
            ParserError::TrailingComma(p) => push_at(&mut out, "Trailing comma at ", p),
            ParserError::ExpectedComma(p) => push_at(&mut out, "Expected comma at ", p),
            ParserError::ExpectedColon(p) => push_at(&mut out, "Expected colon at ", p),
            ParserError::ExpectedCommaOrRightBracket(p) => push_at(
                &mut out,
                "Expected comma or right bracket at ",
                p,
            ),
            ParserError::ExpectedCommaOrRightBrace(p) => push_at(
                &mut out,
                "Expected comma or right brace at ",
                p,
            ),
            ParserError::ExpectedStringKey(p) => push_at(&mut out, "Expected a string key at ", p),
        }
        assert(out@ =~= parser_error_text(*self));
        out
    }
}

impl JsonError {
    /// What went wrong, and where.
    pub fn message(&self) -> (r: String)
        ensures
            r@ == json_error_text(*self),
    {
        match *self {
            JsonError::Lexer(l) => l.message(),
            JsonError::Parser(p) => p.message(),
        }
    }
}

// ----- errors met reading a patch document -----

/// The text that Rust's `Debug` formatting gives for a string (the string in
/// double quotes, with escapes).
pub uninterp spec fn debug_quoted(s: Seq<char>) -> Seq<char>;

/// `format!("{:?}", s)` from std: the string as `Debug` writes it.
#[verifier::external_body]
fn debug_text(s: &str) -> (r: String)
    ensures
        r@ == debug_quoted(s@),
{
    format!("{s:?}")
}

/// The text of an error met reading a patch document, where `quoted` is the
/// quoted form of the field or operation name that the error carries.
pub open spec fn decode_error_text(e: DecodeErrorModel, quoted: Seq<char>) -> Seq<char> {
    match e {
        DecodeErrorModel::NotAnArray => "expected an array of JSON Patch operations"@,
        DecodeErrorModel::NotAnObject(i) => "operation "@ + count_text(i) + " must be an object"@,
        DecodeErrorModel::MissingField(i, _) => "operation "@ + count_text(i) + " is missing field "@
            + quoted,
        DecodeErrorModel::NotAString(i, _) => "operation "@ + count_text(i) + " field "@ + quoted
            + " must be a string"@,
        DecodeErrorModel::UnsupportedOp(i, _) => "operation "@ + count_text(i)
            + " has unsupported op "@ + quoted,
    }
}

/// The name that an error carries (a field or an operation), or nothing.
pub open spec fn decode_error_name(e: DecodeErrorModel) -> Seq<char> {
    match e {
        DecodeErrorModel::MissingField(_, k) => k,
        DecodeErrorModel::NotAString(_, k) => k,
        DecodeErrorModel::UnsupportedOp(_, o) => o,
        _ => Seq::empty(),
    }
}

/// The text of an error met reading a patch document, given the quoted form
/// of the name it carries.
pub fn decode_error_message(e: &PatchDecodeError, quoted: &str) -> (r: String)
    ensures
        r@ == decode_error_text(e@, quoted@),
{
    let mut out = String::new();
    match e {
        PatchDecodeError::NotAnArray => {
            out.append("expected an array of JSON Patch operations");
        },
        PatchDecodeError::NotAnObject(i) => {
            out.append("operation ");
            push_nat(&mut out, *i as u128);
            out.append(" must be an object");
        },
        PatchDecodeError::MissingField(i, _) => {
            out.append("operation ");
            push_nat(&mut out, *i as u128);
            out.append(" is missing field ");
            out.append(quoted);
        },
        PatchDecodeError::NotAString(i, _) => {
            out.append("operation ");
            push_nat(&mut out, *i as u128);
            out.append(" field ");
            out.append(quoted);
            out.append(" must be a string");
        },
        PatchDecodeError::UnsupportedOp(i, _) => {
            out.append("operation ");
            push_nat(&mut out, *i as u128);
            out.append(" has unsupported op ");
            out.append(quoted);
        },
    }
    proof {
        reveal_strlit("");
    }
    assert(out@ =~= decode_error_text(e@, quoted@));
    out
}

impl PatchDecodeError {
    /// What is wrong with the patch document; a field or operation name is
    /// written as `Debug` quotes it.
    pub fn message(&self) -> (r: String)
        ensures
            r@ == decode_error_text(self@, debug_quoted(decode_error_name(self@))),
    {
        let name = match self {
            PatchDecodeError::MissingField(_, k) => debug_text(k.as_str()),
            PatchDecodeError::NotAString(_, k) => debug_text(k.as_str()),
            PatchDecodeError::UnsupportedOp(_, o) => debug_text(o.as_str()),
            _ => String::new(),
        };
        decode_error_message(self, name.as_str())
    }
}

} // verus!
