use vstd::prelude::*;
use crate::error::{JsonError, Position};
use crate::lexer::{Lexer, LexerError, SpannedModel, SpannedToken, Token, TokenModel, lex_all, lex_token, LexStep, lemma_lex_all_step};
use crate::value::{JsonModel, JsonObject, JsonValue, with_member, view_values};

verus! {

/// A structural error in the token sequence.
#[derive(Debug, Clone, Copy, PartialEq, Eq, Structural)]
pub enum ParserError {
    UnexpectedToken(Position),
    UnexpectedEndOfInput(Position),
    InvalidNumber(Position),
    UnterminatedString(Position),
    TrailingComma(Position),
    ExpectedComma(Position),
    ExpectedColon(Position),
    ExpectedCommaOrRightBracket(Position),
    ExpectedCommaOrRightBrace(Position),
    ExpectedStringKey(Position),
}

/// The tokens of a text, and the lexer error (if any) that ends them.
pub struct Stream {
    pub toks: Seq<SpannedModel>,
    pub end: Option<LexerError>,
}

/// The tokens of the text `s`.
pub open spec fn stream_of(s: Seq<char>) -> Stream {
    Stream { toks: lex_all(s, 0).0, end: lex_all(s, 0).1 }
}

/// The stream after its first `k` tokens.
pub open spec fn skip(st: Stream, k: int) -> Stream {
    Stream { toks: st.toks.skip(k), end: st.end }
}

/// Asking for the token at index `k`: the token, `None` at the end, or the
/// lexer error that ends the stream.
pub open spec fn pull(st: Stream, k: int) -> Result<Option<SpannedModel>, JsonError> {
    if 0 <= k < st.toks.len() {
        Ok(Some(st.toks[k]))
    } else {
        match st.end {
            Some(e) => Err(JsonError::Lexer(e)),
            None => Ok(None),
        }
    }
}

/// Whether the token at `k` is the punctuation `p`.
pub open spec fn eats(st: Stream, k: int, p: TokenModel) -> Result<bool, JsonError> {
    match pull(st, k) {
        Err(e) => Err(e),
        Ok(Some(t)) => Ok(t.token == p),
        Ok(None) => Ok(false),
    }
}

/// The position reported for the token at `k` after it was looked at: its
/// own, or the origin at the end of the stream.
pub open spec fn seen_position(st: Stream, k: int) -> Position {
    if 0 <= k < st.toks.len() {
        st.toks[k].position
    } else {
        Position::origin()
    }
}

pub open spec fn parser_error<T>(e: ParserError) -> Result<T, JsonError> {
    Err(JsonError::Parser(e))
}

/// A value starting at token `k`: the value and the index past it.
pub open spec fn p_value(st: Stream, k: int) -> Result<(JsonModel, int), JsonError>
    decreases st.toks.len() - k, 0int,
{
    match pull(st, k) {
        Err(e) => Err(e),
        Ok(None) => parser_error(ParserError::UnexpectedEndOfInput(Position::origin())),
        Ok(Some(t)) => match t.token {
            TokenModel::Null => Ok((JsonModel::Null, k + 1)),
            TokenModel::True => Ok((JsonModel::Bool(true), k + 1)),
            TokenModel::False => Ok((JsonModel::Bool(false), k + 1)),
            TokenModel::Num(n) => Ok((JsonModel::Number(n), k + 1)),
            TokenModel::Str(text) => Ok((JsonModel::String(text), k + 1)),
            TokenModel::LeftBracket => p_array(st, k + 1),
            TokenModel::LeftBrace => p_object(st, k + 1),
            _ => parser_error(ParserError::UnexpectedToken(t.position)),
        },
    }
}

/// An array whose `[` is just before token `k`.
pub open spec fn p_array(st: Stream, k: int) -> Result<(JsonModel, int), JsonError>
    decreases st.toks.len() - k, 2int,
{
    match eats(st, k, TokenModel::RightBracket) {
        Err(e) => Err(e),
        Ok(true) => Ok((JsonModel::Array(Seq::empty()), k + 1)),
        Ok(false) => p_items(st, k, Seq::empty()),
    }
}

/// The array elements from token `k` on, with `acc` read so far.
pub open spec fn p_items(st: Stream, k: int, acc: Seq<JsonModel>) -> Result<(JsonModel, int), JsonError>
    decreases st.toks.len() - k, 1int,
{
    if k < 0 || k > st.toks.len() {
        parser_error(ParserError::UnexpectedEndOfInput(Position::origin()))
    } else {
        match p_value(st, k) {
            Err(e) => Err(e),
            Ok((v, k1)) => if k < k1 <= st.toks.len() {
                let acc2 = acc.push(v);
                match eats(st, k1, TokenModel::Comma) {
                    Err(e) => Err(e),
                    Ok(true) => match eats(st, k1 + 1, TokenModel::RightBracket) {
                        Err(e) => Err(e),
                        Ok(true) => parser_error(ParserError::TrailingComma(Position::origin())),
                        Ok(false) => if k1 < st.toks.len() {
                            p_items(st, k1 + 1, acc2)
                        } else {
                            parser_error(ParserError::UnexpectedEndOfInput(Position::origin()))
                        },
                    },
                    Ok(false) => match eats(st, k1, TokenModel::RightBracket) {
                        Err(e) => Err(e),
                        Ok(true) => Ok((JsonModel::Array(acc2), k1 + 1)),
                        Ok(false) => parser_error(
                            ParserError::ExpectedCommaOrRightBracket(seen_position(st, k1)),
                        ),
                    },
                }
            } else {
                parser_error(ParserError::UnexpectedEndOfInput(Position::origin()))
            },
        }
    }
}

/// An object whose `{` is just before token `k`.
pub open spec fn p_object(st: Stream, k: int) -> Result<(JsonModel, int), JsonError>
    decreases st.toks.len() - k, 2int,
{
    match eats(st, k, TokenModel::RightBrace) {
        Err(e) => Err(e),
        Ok(true) => Ok((JsonModel::Object(Seq::empty()), k + 1)),
        Ok(false) => p_members(st, k, Seq::empty()),
    }
}

/// An object member's key and the colon after it, starting at token `k`.
pub open spec fn p_key(st: Stream, k: int) -> Result<Seq<char>, JsonError> {
    match pull(st, k) {
        Err(e) => Err(e),
        Ok(None) => parser_error(ParserError::UnexpectedEndOfInput(Position::origin())),
        Ok(Some(t)) => match t.token {
            TokenModel::Str(key) => match eats(st, k + 1, TokenModel::Colon) {
                Err(e) => Err(e),
                Ok(false) => match pull(st, k + 1) {
                    Err(e) => Err(e),
                    Ok(Some(t2)) => parser_error(ParserError::UnexpectedToken(t2.position)),
                    Ok(None) => parser_error(ParserError::ExpectedColon(Position::origin())),
                },
                Ok(true) => Ok(key),
            },
            _ => parser_error(ParserError::ExpectedStringKey(t.position)),
        },
    }
}

/// The object members from token `k` on, with `acc` read so far.
pub open spec fn p_members(st: Stream, k: int, acc: Seq<(Seq<char>, JsonModel)>) -> Result<
    (JsonModel, int),
    JsonError,
>
    decreases st.toks.len() - k, 1int,
{
    match p_key(st, k) {
        Err(e) => Err(e),
        Ok(key) => if 0 <= k && k + 2 <= st.toks.len() {
            match p_value(st, k + 2) {
                Err(e) => Err(e),
                Ok((v, k3)) => if k + 2 < k3 <= st.toks.len() {
                    let acc2 = with_member(acc, key, v);
                    match eats(st, k3, TokenModel::Comma) {
                        Err(e) => Err(e),
                        Ok(true) => match eats(st, k3 + 1, TokenModel::RightBrace) {
                            Err(e) => Err(e),
                            Ok(true) => parser_error(ParserError::TrailingComma(Position::origin())),
                            Ok(false) => if k3 < st.toks.len() {
                                p_members(st, k3 + 1, acc2)
                            } else {
                                parser_error(ParserError::UnexpectedEndOfInput(Position::origin()))
                            },
                        },
                        Ok(false) => match eats(st, k3, TokenModel::RightBrace) {
                            Err(e) => Err(e),
                            Ok(true) => Ok((JsonModel::Object(acc2), k3 + 1)),
                            Ok(false) => parser_error(
                                ParserError::ExpectedCommaOrRightBrace(seen_position(st, k3)),
                            ),
                        },
                    }
                } else {
                    parser_error(ParserError::UnexpectedEndOfInput(Position::origin()))
                },
            }
        } else {
            parser_error(ParserError::UnexpectedEndOfInput(Position::origin()))
        },
    }
}

/// A whole document: one value and nothing after it.
pub open spec fn parse_stream(st: Stream) -> Result<JsonModel, JsonError> {
    match p_value(st, 0) {
        Err(e) => Err(e),
        Ok((v, k)) => match pull(st, k) {
            Err(e) => Err(e),
            Ok(Some(t)) => parser_error(ParserError::UnexpectedToken(t.position)),
            Ok(None) => Ok(v),
        },
    }
}

/// The document written by the text `s`, or the error met reading it.
pub open spec fn parse_text(s: Seq<char>) -> Result<JsonModel, JsonError> {
    parse_stream(stream_of(s))
}


/// Builds a document from the tokens of a lexer.
pub struct Parser {
    lexer: Lexer,
    peeked: Option<SpannedToken>,
}

/// Whether a token is one of the punctuation marks.
pub open spec fn is_punct(t: TokenModel) -> bool {
    ||| t == TokenModel::LeftBrace
    ||| t == TokenModel::RightBrace
    ||| t == TokenModel::LeftBracket
    ||| t == TokenModel::RightBracket
    ||| t == TokenModel::Colon
    ||| t == TokenModel::Comma
}

/// Whether `t` is the punctuation mark `p`.
fn same_punct(t: &Token, p: &Token) -> (r: bool)
    requires
        is_punct(p@),
    ensures
        r == (t@ == p@),
{
    match (t, p) {
        (Token::LeftBrace, Token::LeftBrace) => true,
        (Token::RightBrace, Token::RightBrace) => true,
        (Token::LeftBracket, Token::LeftBracket) => true,
        (Token::RightBracket, Token::RightBracket) => true,
        (Token::Colon, Token::Colon) => true,
        (Token::Comma, Token::Comma) => true,
        _ => false,
    }
}

/// Facts about the stream past its first `k` tokens.
pub proof fn lemma_skip(st: Stream, k: int)
    requires
        0 <= k <= st.toks.len(),
    ensures
        pull(skip(st, k), 0) == pull(st, k),
        forall|p: TokenModel| #[trigger] eats(skip(st, k), 0, p) == eats(st, k, p),
        seen_position(skip(st, k), 0) == seen_position(st, k),
        k < st.toks.len() ==> skip(skip(st, k), 1) == skip(st, k + 1),
{
    if k < st.toks.len() {
        assert(st.toks.skip(k).skip(1) =~= st.toks.skip(k + 1));
    }
}

/// Viewing a vector after a push.
pub proof fn lemma_view_values_push(acc: Seq<JsonModel>, items: Seq<JsonValue>)
    requires
        items.len() > 0,
        view_values(items.drop_last()) == acc,
    ensures
        view_values(items) == acc.push(items.last()@),
{
    assert(items.subrange(0, items.len() - 1) =~= items.drop_last());
}

impl Parser {
    /// The tokens still to be read, including one already looked at.
    pub closed spec fn stream(&self) -> Stream {
        let rest = lex_all(self.lexer.input(), self.lexer.offset());
        match self.peeked {
            Some(t) => Stream { toks: seq![t@] + rest.0, end: rest.1 },
            None => Stream { toks: rest.0, end: rest.1 },
        }
    }

    pub closed spec fn wf(&self) -> bool {
        self.lexer.wf()
    }

    /// The position of the token looked at but not yet read, or the origin.
    pub closed spec fn seen(&self) -> Position {
        match self.peeked {
            Some(t) => t.position,
            None => Position::origin(),
        }
    }

    /// A parser reading the tokens of `lexer`.
    pub fn new(lexer: Lexer) -> (r: Result<Self, JsonError>)
        ensures
            r matches Ok(p) && p.wf() && p.stream() == (Stream {
                toks: lex_all(lexer.input(), lexer.offset()).0,
                end: lex_all(lexer.input(), lexer.offset()).1,
            }),
    {
        proof {
            use_type_invariant(&lexer);
        }
        Ok(Parser { lexer, peeked: None })
    }

    fn has_extra_tokens(&mut self) -> (r: Result<bool, JsonError>)
        requires
            old(self).wf(),
        ensures
            final(self).wf(),
            match pull(old(self).stream(), 0) {
                Err(e) => r == Err::<bool, JsonError>(e),
                Ok(None) => r == Ok::<bool, JsonError>(false),
                Ok(Some(t)) => r == Ok::<bool, JsonError>(true) && final(self).seen() == t.position,
            },
    {
        self.peek()
    }

    fn last_position(&self) -> (r: Position)
        ensures
            r == self.seen(),
    {
        match &self.peeked {
            Some(t) => t.position,
            None => Position::default(),
        }
    }

    /// Makes sure the next token, if any, has been looked at; whether there is one.
    fn peek(&mut self) -> (r: Result<bool, JsonError>)
        requires
            old(self).wf(),
        ensures
            final(self).wf(),
            match pull(old(self).stream(), 0) {
                Err(e) => r == Err::<bool, JsonError>(e),
                Ok(None) => r == Ok::<bool, JsonError>(false) && final(self).peeked is None
                    && final(self).stream() == old(self).stream(),
                Ok(Some(t)) => {
                    &&& r == Ok::<bool, JsonError>(true)
                    &&& final(self).peeked matches Some(x) && x@ == t
                    &&& final(self).stream() == old(self).stream()
                },
            },
    {
        if self.peeked.is_none() {
            proof {
                self.lexer.lemma_bounds();
                lemma_lex_all_step(self.lexer.input(), self.lexer.offset());
            }
            match self.lexer.next_token() {
                Ok(t) => {
                    self.peeked = t;
                },
                Err(e) => {
                    return Err(e);
                },
            }
        }
        Ok(self.peeked.is_some())
    }

    /// Reads the next token if it is the punctuation mark `expected`.
    fn eat(&mut self, expected: Token) -> (r: Result<bool, JsonError>)
        requires
            old(self).wf(),
            is_punct(expected@),
        ensures
            final(self).wf(),
            match eats(old(self).stream(), 0, expected@) {
                Err(e) => r == Err::<bool, JsonError>(e),
                Ok(true) => r == Ok::<bool, JsonError>(true) && final(self).stream() == skip(
                    old(self).stream(),
                    1,
                ) && final(self).seen() == Position::origin(),
                Ok(false) => r == Ok::<bool, JsonError>(false) && final(self).stream() == old(
                    self,
                ).stream() && final(self).seen() == seen_position(old(self).stream(), 0),
            },
    {
        let available = match self.peek() {
            Ok(b) => b,
            Err(e) => {
                return Err(e);
            },
        };
        if available {
            let matched = match &self.peeked {
                Some(t) => same_punct(&t.token, &expected),
                None => false,
            };
            if matched {
                let ghost before = self.stream();
                self.peeked = None;
                assert(self.stream().toks =~= before.toks.skip(1));
                return Ok(true);
            }
        }
        Ok(false)
    }

    /// Reads the next token.
    fn next(&mut self) -> (r: Result<Option<SpannedToken>, JsonError>)
        requires
            old(self).wf(),
        ensures
            final(self).wf(),
            final(self).peeked is None,
            match pull(old(self).stream(), 0) {
                Err(e) => r == Err::<Option<SpannedToken>, JsonError>(e),
                Ok(None) => r matches Ok(None) && final(self).stream() == old(self).stream(),
                Ok(Some(t)) => r matches Ok(Some(x)) && x@ == t && final(self).stream() == skip(
                    old(self).stream(),
                    1,
                ),
            },
    {
        let ghost before = self.stream();
        match self.peeked.take() {
            Some(token) => {
                assert(self.stream().toks =~= before.toks.skip(1));
                Ok(Some(token))
            },
            None => {
                proof {
                    self.lexer.lemma_bounds();
                    lemma_lex_all_step(self.lexer.input(), self.lexer.offset());
                }
                let r = self.lexer.next_token();
                proof {
                    if let Ok(Some(_)) = r {
                        assert(self.stream().toks =~= before.toks.skip(1));
                    }
                }
                r
            },
        }
    }

    /// Reads one value.
    fn parse_value(&mut self, Ghost(st): Ghost<Stream>, Ghost(k): Ghost<int>) -> (r: Result<
        JsonValue,
        JsonError,
    >)
        requires
            old(self).wf(),
            0 <= k <= st.toks.len(),
            old(self).stream() == skip(st, k),
        ensures
            final(self).wf(),
            match p_value(st, k) {
                Ok((v, k2)) => r matches Ok(x) && x@ == v && k < k2 <= st.toks.len()
                    && final(self).stream() == skip(st, k2) && final(self).seen()
                    == Position::origin(),
                Err(e) => r == Err::<JsonValue, JsonError>(e),
            },
        decreases st.toks.len() - k, 0int,
    {
        proof {
            lemma_skip(st, k);
        }
        let token = match self.next() {
            Ok(Some(t)) => t,
            Ok(None) => {
                return Err(JsonError::Parser(ParserError::UnexpectedEndOfInput(self.last_position())));
            },
            Err(e) => {
                return Err(e);
            },
        };
        proof {
            lemma_skip(st, k + 1);
        }
        match token.token {
            Token::Null => Ok(JsonValue::Null),
            Token::True => Ok(JsonValue::Bool(true)),
            Token::False => Ok(JsonValue::Bool(false)),
            Token::Number(n) => Ok(JsonValue::Number(n)),
            Token::String(text) => Ok(JsonValue::String(text)),
            Token::LeftBracket => self.parse_array(Ghost(st), Ghost(k + 1)),
            Token::LeftBrace => self.parse_object(Ghost(st), Ghost(k + 1)),
            _ => Err(JsonError::Parser(ParserError::UnexpectedToken(token.position))),
        }
    }

    /// Reads the rest of an array after its `[`.
    fn parse_array(&mut self, Ghost(st): Ghost<Stream>, Ghost(k): Ghost<int>) -> (r: Result<
        JsonValue,
        JsonError,
    >)
        requires
            old(self).wf(),
            0 <= k <= st.toks.len(),
            old(self).stream() == skip(st, k),
        ensures
            final(self).wf(),
            match p_array(st, k) {
                Ok((v, k2)) => r matches Ok(x) && x@ == v && k < k2 <= st.toks.len()
                    && final(self).stream() == skip(st, k2) && final(self).seen()
                    == Position::origin(),
                Err(e) => r == Err::<JsonValue, JsonError>(e),
            },
        decreases st.toks.len() - k, 2int,
    {
        proof {
            lemma_skip(st, k);
        }
        let mut array: Vec<JsonValue> = Vec::new();
        match self.eat(Token::RightBracket) {
            Ok(true) => {
                return Ok(JsonValue::Array(array));
            },
            Ok(false) => {},
            Err(e) => {
                return Err(e);
            },
        }
        let ghost mut kk = k;
        loop
            invariant
                self.wf(),
                0 <= k <= kk <= st.toks.len(),
                self.stream() == skip(st, kk),
                p_array(st, k) == p_items(st, kk, view_values(array@)),
            decreases st.toks.len() - kk,
        {
            let value = match self.parse_value(Ghost(st), Ghost(kk)) {
                Ok(v) => v,
                Err(e) => {
                    return Err(e);
                },
            };
            let ghost k1 = choose|k1: int| p_value(st, kk) == Ok::<(JsonModel, int), JsonError>((value@, k1));
            let ghost acc = view_values(array@);
            let ghost before = array@;
            array.push(value);
            assert(array@.drop_last() =~= before);
            proof {
                lemma_view_values_push(acc, array@);
                lemma_skip(st, k1);
            }
            match self.eat(Token::Comma) {
                Ok(true) => {
                    proof {
                        lemma_skip(st, k1 + 1);
                    }
                    match self.eat(Token::RightBracket) {
                        Ok(true) => {
                            return Err(JsonError::Parser(ParserError::TrailingComma(self.last_position())));
                        },
                        Ok(false) => {},
                        Err(e) => {
                            return Err(e);
                        },
                    }
                    proof {
                        kk = k1 + 1;
                    }
                    continue;
                },
                Ok(false) => {},
                Err(e) => {
                    return Err(e);
                },
            }
            match self.eat(Token::RightBracket) {
                Ok(true) => {
                    return Ok(JsonValue::Array(array));
                },
                Ok(false) => {},
                Err(e) => {
                    return Err(e);
                },
            }
            return Err(JsonError::Parser(ParserError::ExpectedCommaOrRightBracket(self.last_position())));
        }
    }

    /// Reads a member's key and the colon after it.
    fn read_key(&mut self, Ghost(st): Ghost<Stream>, Ghost(k): Ghost<int>) -> (r: Result<
        String,
        JsonError,
    >)
        requires
            old(self).wf(),
            0 <= k <= st.toks.len(),
            old(self).stream() == skip(st, k),
        ensures
            final(self).wf(),
            match p_key(st, k) {
                Ok(key) => r matches Ok(x) && x@ == key && k + 2 <= st.toks.len()
                    && final(self).stream() == skip(st, k + 2),
                Err(e) => r == Err::<String, JsonError>(e),
            },
    {
        proof {
            lemma_skip(st, k);
        }
        let key_token = match self.next() {
            Ok(Some(t)) => t,
            Ok(None) => {
                return Err(JsonError::Parser(ParserError::UnexpectedEndOfInput(self.last_position())));
            },
            Err(e) => {
                return Err(e);
            },
        };
        let key = match key_token.token {
            Token::String(text) => text,
            _ => {
                return Err(JsonError::Parser(ParserError::ExpectedStringKey(key_token.position)));
            },
        };
        proof {
            lemma_skip(st, k + 1);
        }
        // expect ':'
        match self.eat(Token::Colon) {
            Ok(true) => {},
            Ok(false) => {
                // a different token where the colon belongs is unexpected
                return match self.peek() {
                    Ok(true) => {
                        let position = match &self.peeked {
                            Some(t) => t.position,
                            None => Position::default(),
                        };
                        Err(JsonError::Parser(ParserError::UnexpectedToken(position)))
                    },
                    Ok(false) => Err(JsonError::Parser(ParserError::ExpectedColon(self.last_position()))),
                    Err(e) => Err(e),
                };
            },
            Err(e) => {
                return Err(e);
            },
        }
        proof {
            lemma_skip(st, k + 2);
        }
        Ok(key)
    }

    /// Reads the rest of an object after its `{`.
    fn parse_object(&mut self, Ghost(st): Ghost<Stream>, Ghost(k): Ghost<int>) -> (r: Result<
        JsonValue,
        JsonError,
    >)
        requires
            old(self).wf(),
            0 <= k <= st.toks.len(),
            old(self).stream() == skip(st, k),
        ensures
            final(self).wf(),
            match p_object(st, k) {
                Ok((v, k2)) => r matches Ok(x) && x@ == v && k < k2 <= st.toks.len()
                    && final(self).stream() == skip(st, k2) && final(self).seen()
                    == Position::origin(),
                Err(e) => r == Err::<JsonValue, JsonError>(e),
            },
        decreases st.toks.len() - k, 2int,
    {
        proof {
            lemma_skip(st, k);
        }
        let mut object = JsonObject::new();
        match self.eat(Token::RightBrace) {
            Ok(true) => {
                return Ok(JsonValue::Object(object));
            },
            Ok(false) => {},
            Err(e) => {
                return Err(e);
            },
        }
        let ghost mut kk = k;
        loop
            invariant
                self.wf(),
                0 <= k <= kk <= st.toks.len(),
                self.stream() == skip(st, kk),
                p_object(st, k) == p_members(st, kk, object@),
            decreases st.toks.len() - kk,
        {
            let key = match self.read_key(Ghost(st), Ghost(kk)) {
                Ok(key) => key,
                Err(e) => {
                    return Err(e);
                },
            };
            proof {
                lemma_skip(st, kk + 2);
            }
            let value = match self.parse_value(Ghost(st), Ghost(kk + 2)) {
                Ok(v) => v,
                Err(e) => {
                    return Err(e);
                },
            };
            let ghost k3 = choose|k3: int|
                p_value(st, kk + 2) == Ok::<(JsonModel, int), JsonError>((value@, k3));
            object.insert(key, value);
            proof {
                lemma_skip(st, k3);
            }
            match self.eat(Token::Comma) {
                Ok(true) => {
                    proof {
                        lemma_skip(st, k3 + 1);
                    }
                    match self.eat(Token::RightBrace) {
                        Ok(true) => {
                            return Err(JsonError::Parser(ParserError::TrailingComma(self.last_position())));
                        },
                        Ok(false) => {},
                        Err(e) => {
                            return Err(e);
                        },
                    }
                    proof {
                        kk = k3 + 1;
                    }
                    continue;
                },
                Ok(false) => {},
                Err(e) => {
                    return Err(e);
                },
            }
            match self.eat(Token::RightBrace) {
                Ok(true) => {
                    return Ok(JsonValue::Object(object));
                },
                Ok(false) => {},
                Err(e) => {
                    return Err(e);
                },
            }
            return Err(JsonError::Parser(ParserError::ExpectedCommaOrRightBrace(self.last_position())));
        }
    }

    /// Reads one document: a value and nothing after it.
    pub(crate) fn parse(&mut self) -> (r: Result<JsonValue, JsonError>)
        requires
            old(self).wf(),
        ensures
            match parse_stream(old(self).stream()) {
                Ok(v) => r matches Ok(x) && x@ == v,
                Err(e) => r == Err::<JsonValue, JsonError>(e),
            },
    {
        let ghost st = self.stream();
        assert(skip(st, 0).toks =~= st.toks);
        let value = match self.parse_value(Ghost(st), Ghost(0)) {
            Ok(v) => v,
            Err(e) => {
                return Err(e);
            },
        };
        let ghost k = choose|k: int| p_value(st, 0) == Ok::<(JsonModel, int), JsonError>((value@, k));
        proof {
            lemma_skip(st, k);
        }
        match self.has_extra_tokens() {
            Ok(true) => {
                let pos = self.last_position();
                return Err(JsonError::Parser(ParserError::UnexpectedToken(pos)));
            },
            Ok(false) => {},
            Err(e) => {
                return Err(e);
            },
        }
        Ok(value)
    }
}

} // verus!
