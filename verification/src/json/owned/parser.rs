use vstd::prelude::*;
use super::super::spec::{
    Json, Tok, Found as FoundSpec, JsonError, parse_value, parse_elements, parse_members,
    insert_member, tok_at,
};
use super::lexer::{Token, token_views};
use super::value::{
    JsonValue, json_of, json_list, json_members, lemma_json_list, lemma_json_members,
};
use super::super::parsing::{lemma_parse_value_bounds, lemma_insert_member, lemma_parse_unique_keys};
use super::super::roundtrip::unique_keys;

use super::super::messages::{debug_quote, token_debug, found_debug};
use crate::text::{decimal, decimal_text};

verus! {

/// What the parser found where it expected something else.
pub enum Found {
    /// The offending token.
    Token(Token),
    /// After an object key without a colon: the token after the one that
    /// should have been the colon, if any.
    Next(Option<Token>),
}

impl View for Found {
    type V = FoundSpec;

    open spec fn view(&self) -> FoundSpec {
        match self {
            Found::Token(t) => FoundSpec::Token(t@),
            Found::Next(None) => FoundSpec::Next(None),
            Found::Next(Some(t)) => FoundSpec::Next(Some(t@)),
        }
    }
}

/// Why parsing failed.
pub enum ParseError {
    /// An unexpected token, with the parser's position after reading it.
    UnexpectedToken(Found, usize),
    /// The tokens ran out.
    UnexpectedEOF,
    /// Not produced by this parser; kept for callers that match on it.
    InvalidNumber(String),
    /// Not produced by this parser; kept for callers that match on it.
    InvalidString(String),
}

/// A parse result agrees with the model's result.
pub open spec fn outcome_is(r: Result<JsonValue, ParseError>, s: Result<Json, JsonError>) -> bool {
    match (r, s) {
        (Ok(v), Ok(j)) => v@ == j,
        (Err(ParseError::UnexpectedToken(f, pos)), Err(JsonError::Unexpected(g, q))) => f@ == g
            && pos == q,
        (Err(ParseError::UnexpectedEOF), Err(JsonError::Eof)) => true,
        _ => false,
    }
}

/// The debug form of a token (see `token_debug`).
pub fn token_text(t: &Token) -> (text: String)
    ensures
        text@ == token_debug(t@),
{
    match t {
        Token::LeftBrace => "LeftBrace".to_string(),
        Token::RightBrace => "RightBrace".to_string(),
        Token::LeftBracket => "LeftBracket".to_string(),
        Token::RightBracket => "RightBracket".to_string(),
        Token::Colon => "Colon".to_string(),
        Token::Comma => "Comma".to_string(),
        Token::String(s) => {
            let mut text = "String(".to_string();
            text.append(debug_quote(s.as_str()).as_str());
            text.append(")");
            text
        },
        Token::Number(n) => {
            let mut text = "Number(".to_string();
            text.append(n.as_str());
            text.append(")");
            text
        },
        Token::Boolean(b) => {
            let mut text = "Boolean(".to_string();
            if *b {
                text.append("true");
            } else {
                text.append("false");
            }
            text.append(")");
            text
        },
        Token::Null => "Null".to_string(),
    }
}

/// The text an error is shown with.
pub open spec fn error_message(e: &ParseError) -> Seq<char> {
    match e {
        ParseError::UnexpectedToken(found, pos) => "Unexpected token at pos "@ + decimal(
            *pos as nat,
        ) + ": "@ + found_debug(found@),
        ParseError::UnexpectedEOF => "Unexpected end of file"@,
        ParseError::InvalidNumber(n) => "Invalid number: "@ + n@,
        ParseError::InvalidString(s) => "Invalid string: "@ + s@,
    }
}

impl ParseError {
    /// The text this error is shown with: the position and the debug form
    /// of the unexpected token, or what ran out or was invalid.
    pub fn message(&self) -> (text: String)
        ensures
            text@ == error_message(self),
    {
        match self {
            ParseError::UnexpectedToken(found, pos) => {
                let mut text = "Unexpected token at pos ".to_string();
                text.append(decimal_text(*pos).as_str());
                text.append(": ");
                match found {
                    Found::Token(t) => text.append(token_text(t).as_str()),
                    Found::Next(Some(t)) => {
                        text.append("Some(");
                        text.append(token_text(t).as_str());
                        text.append(")");
                    },
                    Found::Next(None) => text.append("None"),
                }
                text
            },
            ParseError::UnexpectedEOF => "Unexpected end of file".to_string(),
            ParseError::InvalidNumber(n) => {
                let mut text = "Invalid number: ".to_string();
                text.append(n.as_str());
                text
            },
            ParseError::InvalidString(s) => {
                let mut text = "Invalid string: ".to_string();
                text.append(s.as_str());
                text
            },
        }
    }
}

/// A recursive-descent parser over a token vector.
pub struct Parser {
    tokens: Vec<Token>,
    cursor: usize,
}

impl Parser {
    /// The tokens being parsed.
    pub closed spec fn tokens(&self) -> Seq<Tok> {
        token_views(self.tokens@)
    }

    /// Index of the next token to read.
    pub closed spec fn position(&self) -> int {
        self.cursor as int
    }

    /// A parser at the first of `tokens`.
    pub fn new(tokens: Vec<Token>) -> (parser: Self)
        ensures
            parser.tokens() == token_views(tokens@),
            parser.position() == 0,
    {
        Self { tokens, cursor: 0 }
    }

    /// Parse one value from the current position. A key repeated within an
    /// object replaces the earlier value in place, so every object returned
    /// has distinct keys.
    pub fn parse(&mut self) -> (result: Result<JsonValue, ParseError>)
        requires
            old(self).position() < usize::MAX,
            old(self).tokens().len() + 3 < usize::MAX,
        ensures
            final(self).tokens() == old(self).tokens(),
            outcome_is(result, parse_value(old(self).tokens(), old(self).position()).0),
            final(self).position() == parse_value(old(self).tokens(), old(self).position()).1,
            result matches Ok(v) ==> unique_keys(v@),
        decreases old(self).tokens().len() - old(self).position(), 0int,
    {
        let ghost t = self.tokens();
        proof {
            lemma_parse_value_bounds(t, self.cursor as int);
            lemma_parse_unique_keys(t, self.cursor as int);
        }
        let token = match self.advance() {
            Some(token) => token,
            None => return Err(ParseError::UnexpectedEOF),
        };
        let pos = self.cursor;
        match token {
            Token::Null => Ok(JsonValue::Null),
            Token::Boolean(b) => Ok(JsonValue::Boolean(b)),
            Token::Number(n) => Ok(JsonValue::Number(n)),
            Token::String(s) => Ok(JsonValue::String(s)),
            Token::LeftBracket => self.parse_array(),
            Token::LeftBrace => self.parse_object(),
            _ => Err(ParseError::UnexpectedToken(Found::Token(token), pos)),
        }
    }

    /// Parse the rest of an array (its `[` is already read).
    fn parse_array(&mut self) -> (result: Result<JsonValue, ParseError>)
        requires
            1 <= old(self).position() <= old(self).tokens().len(),
            old(self).tokens().len() + 3 < usize::MAX,
        ensures
            final(self).tokens() == old(self).tokens(),
            ({
                let t = old(self).tokens();
                let c = old(self).position();
                let expected = if c < t.len() && t[c] == Tok::RBracket {
                    (Ok(Json::Array(Seq::empty())), c + 1)
                } else {
                    parse_elements(t, c, Seq::empty())
                };
                outcome_is(result, expected.0) && final(self).position() == expected.1
            }),
        decreases old(self).tokens().len() - old(self).position(), 1int,
    {
        let ghost t = self.tokens();
        let ghost c0 = self.cursor as int;
        let mut array: Vec<JsonValue> = Vec::new();
        if let Some(Token::RightBracket) = self.peek() {
            self.advance();
            proof {
                assert(json_list(array@) =~= Seq::<Json>::empty());
            }
            return Ok(JsonValue::Array(array));
        }
        proof {
            assert(json_list(array@) =~= Seq::<Json>::empty());
        }
        loop
            invariant_except_break
                self.tokens() == t,
                t == old(self).tokens(),
                c0 == old(self).position(),
                t.len() + 3 < usize::MAX,
                c0 <= self.cursor <= t.len(),
                !(c0 < t.len() && t[c0] == Tok::RBracket),
                parse_elements(t, self.cursor as int, json_list(array@)) == parse_elements(
                    t,
                    c0,
                    Seq::empty(),
                ),
            ensures
                self.tokens() == t,
                parse_elements(t, c0, Seq::empty()) == (Ok::<Json, JsonError>(Json::Array(json_list(array@))), self.cursor as int),
            decreases t.len() - self.cursor,
        {
            let ghost c = self.cursor as int;
            let ghost items = json_list(array@);
            proof {
                lemma_parse_value_bounds(t, c);
                lemma_json_list(array@);
            }
            let value = match self.parse() {
                Ok(v) => v,
                Err(e) => {
                    assert(parse_elements(t, c, items).1 == self.cursor as int);
                    assert(outcome_is(Err(e), parse_elements(t, c, items).0));
                    return Err(e);
                },
            };
            let ghost c2 = self.cursor as int;
            array.push(value);
            proof {
                lemma_json_list(array@);
                assert(json_list(array@) =~= items.push(value@));
            }
            match self.advance() {
                Some(Token::Comma) => {},
                Some(Token::RightBracket) => break ,
                Some(tok) => {
                    assert(tok@ != Tok::Comma && tok@ != Tok::RBracket);
                    assert(parse_elements(t, c, items).1 == self.cursor as int);
                    return Err(ParseError::UnexpectedToken(Found::Token(tok), self.cursor));
                },
                None => return Err(ParseError::UnexpectedEOF),
            }
        }
        Ok(JsonValue::Array(array))
    }

    /// Parse the rest of an object (its `{` is already read).
    fn parse_object(&mut self) -> (result: Result<JsonValue, ParseError>)
        requires
            1 <= old(self).position() <= old(self).tokens().len(),
            old(self).tokens().len() + 3 < usize::MAX,
        ensures
            final(self).tokens() == old(self).tokens(),
            ({
                let t = old(self).tokens();
                let c = old(self).position();
                let expected = if c < t.len() && t[c] == Tok::RBrace {
                    (Ok(Json::Object(Seq::empty())), c + 1)
                } else {
                    parse_members(t, c, Seq::empty())
                };
                outcome_is(result, expected.0) && final(self).position() == expected.1
            }),
        decreases old(self).tokens().len() - old(self).position(), 1int,
    {
        let ghost t = self.tokens();
        let ghost c0 = self.cursor as int;
        let mut object: Vec<(String, JsonValue)> = Vec::new();
        if let Some(Token::RightBrace) = self.peek() {
            self.advance();
            proof {
                assert(json_members(object@) =~= Seq::<(Seq<char>, Json)>::empty());
            }
            return Ok(JsonValue::Object(object));
        }
        proof {
            assert(json_members(object@) =~= Seq::<(Seq<char>, Json)>::empty());
        }
        loop
            invariant_except_break
                self.tokens() == t,
                t == old(self).tokens(),
                c0 == old(self).position(),
                t.len() + 3 < usize::MAX,
                c0 <= self.cursor <= t.len(),
                !(c0 < t.len() && t[c0] == Tok::RBrace),
                parse_members(t, self.cursor as int, json_members(object@)) == parse_members(
                    t,
                    c0,
                    Seq::empty(),
                ),
            ensures
                self.tokens() == t,
                parse_members(t, c0, Seq::empty()) == (Ok::<Json, JsonError>(Json::Object(json_members(object@))), self.cursor as int),
            decreases t.len() - self.cursor,
        {
            let ghost c = self.cursor as int;
            let ghost m = json_members(object@);
            let key = match self.advance() {
                Some(Token::String(s)) => s,
                Some(tok) => return Err(ParseError::UnexpectedToken(Found::Token(tok), self.cursor)),
                None => return Err(ParseError::UnexpectedEOF),
            };
            match self.advance() {
                Some(Token::Colon) => {},
                _ => {
                    let next = self.advance();
                    proof {
                        assert(tok_at(t, c + 2) == (match next { Some(x) => Some(x@), None => None::<Tok> }));
                    }
                    return Err(ParseError::UnexpectedToken(Found::Next(next), self.cursor));
                },
            }
            proof {
                lemma_parse_value_bounds(t, c + 2);
            }
            let value = self.parse()?;
            proof {
                lemma_json_members(object@);
            }
            let ghost v = value@;
            insert_member_into(&mut object, key, value);
            match self.advance() {
                Some(Token::Comma) => {},
                Some(Token::RightBrace) => break ,
                Some(tok) => return Err(ParseError::UnexpectedToken(Found::Token(tok), self.cursor)),
                None => return Err(ParseError::UnexpectedEOF),
            }
        }
        Ok(JsonValue::Object(object))
    }

    /// The token at the current position, if any.
    fn peek(&self) -> (token: Option<&Token>)
        ensures
            match token {
                Some(tok) => self.position() < self.tokens().len() && tok@ == self.tokens()[self.position()],
                None => self.position() >= self.tokens().len(),
            },
    {
        if self.cursor < self.tokens.len() {
            Some(&self.tokens[self.cursor])
        } else {
            None
        }
    }

    /// Read the token at the current position, if any, and move on by one
    /// either way.
    fn advance(&mut self) -> (token: Option<Token>)
        requires
            old(self).cursor < usize::MAX,
        ensures
            final(self).tokens == old(self).tokens,
            final(self).cursor == old(self).cursor + 1,
            match token {
                Some(tok) => old(self).position() < old(self).tokens().len() && tok@ == old(self).tokens()[old(self).position()],
                None => old(self).position() >= old(self).tokens().len(),
            },
    {
        let token = if self.cursor < self.tokens.len() {
            Some(self.tokens[self.cursor].duplicate())
        } else {
            None
        };
        self.cursor += 1;
        token
    }
}

/// Bind `key` to `value` in an object kept as a member list: replace the
/// value of the member with that key, or append a new member.
fn insert_member_into(object: &mut Vec<(String, JsonValue)>, key: String, value: JsonValue)
    ensures
        json_members(final(object)@) == insert_member(json_members(old(object)@), key@, value@),
{
    let ghost m = json_members(object@);
    proof {
        lemma_json_members(object@);
    }
    let mut i: usize = 0;
    while i < object.len()
        invariant
            object@ == old(object)@,
            m == json_members(object@),
            m.len() == object@.len(),
            forall|k: int| 0 <= k < object@.len() ==> #[trigger] m[k] == (object@[k].0@, json_of(object@[k].1)),
            i <= object@.len(),
            forall|k: int| 0 <= k < i ==> m[k].0 != key@,
        decreases object@.len() - i,
    {
        if object[i].0 == key {
            proof {
                lemma_insert_member(m, key@, value@, i as int);
            }
            object.set(i, (key, value));
            proof {
                lemma_json_members(object@);
                assert(json_members(object@) =~= m.update(i as int, (key@, value@)));
            }
            return;
        }
        i = i + 1;
    }
    proof {
        lemma_insert_member(m, key@, value@, i as int);
    }
    object.push((key, value));
    proof {
        lemma_json_members(object@);
        assert(json_members(object@) =~= m.push((key@, value@)));
    }
}

} // verus!
