use vstd::prelude::*;
use super::super::spec::{
    Tok, skip_ws, lex_keyword, lex_number, lex_escaped_string, lex_token, lex_all, is_number_char,
    char_source,
};
use super::super::lexing::{
    bounded, lemma_skip_ws, lemma_lex_number, lemma_lex_escaped_string, lemma_lex_token,
};
use super::super::numbers::is_valid_float;
use crate::text::{is_whitespace, push_char, chars_of};

verus! {

/// A token of JSON text; a string token holds its unescaped content, a
/// number its source text.
pub enum Token {
    LeftBrace,
    RightBrace,
    LeftBracket,
    RightBracket,
    Colon,
    Comma,
    String(String),
    Number(String),
    Boolean(bool),
    Null,
}

impl View for Token {
    type V = Tok;

    open spec fn view(&self) -> Tok {
        match self {
            Token::LeftBrace => Tok::LBrace,
            Token::RightBrace => Tok::RBrace,
            Token::LeftBracket => Tok::LBracket,
            Token::RightBracket => Tok::RBracket,
            Token::Colon => Tok::Colon,
            Token::Comma => Tok::Comma,
            Token::String(s) => Tok::Str(s@),
            Token::Number(n) => Tok::Num(n@),
            Token::Boolean(b) => Tok::Bool(*b),
            Token::Null => Tok::Null,
        }
    }
}

impl Token {
    /// A copy of this token.
    pub fn duplicate(&self) -> (t: Token)
        ensures
            t@ == self@,
    {
        match self {
            Token::LeftBrace => Token::LeftBrace,
            Token::RightBrace => Token::RightBrace,
            Token::LeftBracket => Token::LeftBracket,
            Token::RightBracket => Token::RightBracket,
            Token::Colon => Token::Colon,
            Token::Comma => Token::Comma,
            Token::String(s) => Token::String(s.clone()),
            Token::Number(n) => Token::Number(n.clone()),
            Token::Boolean(b) => Token::Boolean(*b),
            Token::Null => Token::Null,
        }
    }
}

/// The token sequence of a vector of tokens.
pub open spec fn token_views(tokens: Seq<Token>) -> Seq<Tok> {
    tokens.map_values(|t: Token| t@)
}

/// `p`, but no further than `len`.
pub open spec fn clamp(p: int, len: int) -> int {
    if p <= len { p } else { len }
}

/// A tokenizer over the characters of a text.
pub struct Lexer {
    chars: Vec<char>,
    pos: usize,
}

impl Lexer {
    /// The characters being tokenized.
    pub closed spec fn text(&self) -> Seq<char> {
        self.chars@
    }

    /// Index of the next character to read.
    pub closed spec fn position(&self) -> int {
        self.pos as int
    }

    /// What the lexer reads at each position.
    pub open spec fn reader(&self) -> spec_fn(int) -> Option<char> {
        char_source(self.text())
    }

    /// Number of characters.
    pub open spec fn limit(&self) -> int {
        self.text().len() as int
    }

    /// A lexer at the start of `input`.
    pub fn new(input: &str) -> (lexer: Self)
        ensures
            lexer.text() == input@,
            lexer.position() == 0,
    {
        Self { chars: chars_of(input), pos: 0 }
    }

    proof fn lemma_reader_bounded(&self)
        ensures
            bounded(self.reader(), self.limit()),
    {
    }

    /// All tokens from the current position up to the first place where no
    /// token forms (the end of the input, an unexpected character, a
    /// malformed keyword or number, an unterminated string).
    pub fn tokenize(&mut self) -> (tokens: Vec<Token>)
        requires
            old(self).position() <= old(self).limit(),
        ensures
            final(self).text() == old(self).text(),
            token_views(tokens@) == lex_all(
                old(self).reader(),
                old(self).limit(),
                true,
                old(self).position(),
            ).0,
            final(self).position() == clamp(
                lex_all(old(self).reader(), old(self).limit(), true, old(self).position()).1,
                old(self).limit(),
            ),
    {
        let ghost at = self.reader();
        let ghost limit = self.limit();
        let ghost all = lex_all(at, limit, true, self.pos as int);
        proof {
            self.lemma_reader_bounded();
        }
        let mut tokens: Vec<Token> = Vec::new();
        loop
            invariant_except_break
                token_views(tokens@) + lex_all(at, limit, true, self.pos as int).0 == all.0,
                lex_all(at, limit, true, self.pos as int).1 == all.1,
            invariant
                self.chars@ == old(self).chars@,
                at == self.reader(),
                limit == self.limit(),
                bounded(at, limit),
                self.pos <= limit,
            ensures
                token_views(tokens@) == all.0,
                self.pos == clamp(all.1, limit),
            decreases limit + 1 - self.pos,
        {
            let ghost c = self.pos as int;
            proof {
                lemma_lex_token(at, limit, true, c);
            }
            match self.new_token() {
                Some(token) => {
                    let ghost before = tokens@;
                    tokens.push(token);
                    assert(token_views(tokens@) =~= token_views(before).push(token@));
                    assert(token_views(tokens@) + lex_all(at, limit, true, self.pos as int).0
                        =~= token_views(before) + lex_all(at, limit, true, c).0);
                },
                None => {
                    assert(token_views(tokens@) + Seq::<Tok>::empty() =~= token_views(tokens@));
                    break ;
                },
            }
        }
        tokens
    }

    /// The character at the current position, if any.
    fn peek(&self) -> (c: Option<char>)
        ensures
            c == self.reader()(self.position()),
    {
        if self.pos < self.chars.len() {
            Some(self.chars[self.pos])
        } else {
            None
        }
    }

    /// Read the character at the current position, if any.
    fn next_char(&mut self) -> (c: Option<char>)
        requires
            old(self).pos <= old(self).limit(),
        ensures
            final(self).text() == old(self).text(),
            final(self).position() == clamp(old(self).position() + 1, old(self).limit()),
            c == old(self).reader()(old(self).position()),
    {
        if self.pos < self.chars.len() {
            let c = self.chars[self.pos];
            self.pos += 1;
            Some(c)
        } else {
            None
        }
    }

    /// The next token, skipping white space first.
    fn new_token(&mut self) -> (token: Option<Token>)
        requires
            old(self).pos <= old(self).limit(),
        ensures
            final(self).text() == old(self).text(),
            token.is_some() == lex_token(old(self).reader(), old(self).limit(), true, old(self).position()).0.is_some(),
            token matches Some(t) ==> Some(t@) == lex_token(
                old(self).reader(),
                old(self).limit(),
                true,
                old(self).position(),
            ).0,
            final(self).position() == clamp(
                lex_token(old(self).reader(), old(self).limit(), true, old(self).position()).1,
                old(self).limit(),
            ),
    {
        proof {
            lemma_skip_ws(self.reader(), self.limit(), self.pos as int);
        }
        self.consume_whitespace();
        let ghost p = self.pos as int;
        let c = self.next_char()?;
        proof {
            lemma_lex_number(self.reader(), self.limit(), p + 1, seq![c]);
            lemma_lex_escaped_string(self.reader(), self.limit(), p + 1, Seq::empty(), false);
            reveal_strlit("true");
            reveal_strlit("false");
            reveal_strlit("null");
        }
        match c {
            '{' => Some(Token::LeftBrace),
            '}' => Some(Token::RightBrace),
            '[' => Some(Token::LeftBracket),
            ']' => Some(Token::RightBracket),
            ':' => Some(Token::Colon),
            ',' => Some(Token::Comma),
            't' => self.lex_keyword("true", Token::Boolean(true)),
            'f' => self.lex_keyword("false", Token::Boolean(false)),
            'n' => self.lex_keyword("null", Token::Null),
            '0'..='9' | '-' => self.lex_number(c),
            '"' => self.lex_string(),
            _ => None,
        }
    }

    /// Skip white space.
    fn consume_whitespace(&mut self)
        requires
            old(self).pos <= old(self).limit(),
        ensures
            final(self).text() == old(self).text(),
            final(self).position() == skip_ws(old(self).reader(), old(self).limit(), old(self).position()),
    {
        let ghost at = self.reader();
        let ghost limit = self.limit();
        loop
            invariant
                self.chars@ == old(self).chars@,
                at == self.reader(),
                limit == self.limit(),
                self.pos <= limit,
                skip_ws(at, limit, self.pos as int) == skip_ws(at, limit, old(self).pos as int),
            ensures
                skip_ws(at, limit, self.pos as int) == self.pos as int,
            decreases limit - self.pos,
        {
            match self.peek() {
                Some(c) => {
                    if is_whitespace(c) {
                        self.next_char();
                    } else {
                        break ;
                    }
                },
                None => break ,
            }
        }
    }

    /// Read the rest of `keyword` (its first character is already read).
    fn lex_keyword(&mut self, keyword: &str, token: Token) -> (result: Option<Token>)
        requires
            old(self).pos <= old(self).limit(),
        ensures
            final(self).text() == old(self).text(),
            result.is_some() == lex_keyword(old(self).reader(), keyword@, 1, old(self).position(), token@).0.is_some(),
            result matches Some(t) ==> Some(t@) == lex_keyword(
                old(self).reader(),
                keyword@,
                1,
                old(self).position(),
                token@,
            ).0,
            final(self).position() == clamp(
                lex_keyword(old(self).reader(), keyword@, 1, old(self).position(), token@).1,
                old(self).limit(),
            ),
    {
        let ghost at = self.reader();
        let ghost limit = self.limit();
        let kw = chars_of(keyword);
        let mut k: usize = 1;
        while k < kw.len()
            invariant
                self.chars@ == old(self).chars@,
                at == self.reader(),
                limit == self.limit(),
                kw@ == keyword@,
                1 <= k,
                self.pos <= limit,
                lex_keyword(at, kw@, k as int, self.pos as int, token@) == lex_keyword(
                    at,
                    kw@,
                    1,
                    old(self).pos as int,
                    token@,
                ),
            decreases kw@.len() - k,
        {
            let expected = kw[k];
            match self.next_char() {
                Some(c) => {
                    if c != expected {
                        return None;
                    }
                },
                None => return None,
            }
            k = k + 1;
        }
        Some(token)
    }

    /// Read the rest of a number whose first character is `first_char`.
    fn lex_number(&mut self, first_char: char) -> (result: Option<Token>)
        requires
            old(self).pos <= old(self).limit(),
        ensures
            final(self).text() == old(self).text(),
            result.is_some() == lex_number(old(self).reader(), old(self).limit(), old(self).position(), seq![first_char]).0.is_some(),
            result matches Some(t) ==> Some(t@) == lex_number(
                old(self).reader(),
                old(self).limit(),
                old(self).position(),
                seq![first_char],
            ).0,
            final(self).position() == lex_number(
                old(self).reader(),
                old(self).limit(),
                old(self).position(),
                seq![first_char],
            ).1,
    {
        let ghost at = self.reader();
        let ghost limit = self.limit();
        let mut number_str = String::new();
        push_char(&mut number_str, first_char);
        assert(number_str@ =~= seq![first_char]);
        loop
            invariant
                self.chars@ == old(self).chars@,
                at == self.reader(),
                limit == self.limit(),
                self.pos <= limit,
                lex_number(at, limit, self.pos as int, number_str@) == lex_number(
                    at,
                    limit,
                    old(self).pos as int,
                    seq![first_char],
                ),
            ensures
                !(self.pos < limit && at(self.pos as int) is Some && is_number_char(
                    at(self.pos as int)->0,
                )),
            decreases limit - self.pos,
        {
            match self.peek() {
                Some(c) => {
                    if ('0' <= c && c <= '9') || c == '.' || c == 'e' || c == 'E' || c == '+' || c
                        == '-' {
                        let d = self.next_char();
                        push_char(&mut number_str, c);
                    } else {
                        break ;
                    }
                },
                None => break ,
            }
        }
        if is_valid_float(number_str.as_str()) {
            Some(Token::Number(number_str))
        } else {
            None
        }
    }

    /// Read the rest of a string up to the closing quote, resolving
    /// backslash escapes.
    fn lex_string(&mut self) -> (result: Option<Token>)
        requires
            old(self).pos <= old(self).limit(),
        ensures
            final(self).text() == old(self).text(),
            result.is_some() == lex_escaped_string(old(self).reader(), old(self).limit(), old(self).position(), Seq::empty(), false).0.is_some(),
            result matches Some(t) ==> Some(t@) == lex_escaped_string(
                old(self).reader(),
                old(self).limit(),
                old(self).position(),
                Seq::empty(),
                false,
            ).0,
            final(self).position() == lex_escaped_string(
                old(self).reader(),
                old(self).limit(),
                old(self).position(),
                Seq::empty(),
                false,
            ).1,
    {
        let ghost at = self.reader();
        let ghost limit = self.limit();
        let mut string = String::new();
        let mut escaped = false;
        loop
            invariant
                self.chars@ == old(self).chars@,
                at == self.reader(),
                limit == self.limit(),
                self.pos <= limit,
                lex_escaped_string(at, limit, self.pos as int, string@, escaped) == lex_escaped_string(
                    at,
                    limit,
                    old(self).pos as int,
                    Seq::empty(),
                    false,
                ),
            ensures
                self.pos == limit,
            decreases limit - self.pos,
        {
            match self.next_char() {
                Some(c) => {
                    if escaped {
                        match c {
                            '"' => push_char(&mut string, '"'),
                            '\\' => push_char(&mut string, '\\'),
                            '/' => push_char(&mut string, '/'),
                            'b' => push_char(&mut string, '\x08'),
                            'f' => push_char(&mut string, '\x0c'),
                            'n' => push_char(&mut string, '\n'),
                            'r' => push_char(&mut string, '\r'),
                            't' => push_char(&mut string, '\t'),
                            _ => push_char(&mut string, c),
                        }
                        escaped = false;
                    } else {
                        match c {
                            '\\' => escaped = true,
                            '"' => return Some(Token::String(string)),
                            _ => push_char(&mut string, c),
                        }
                    }
                },
                None => break ,
            }
        }
        None
    }
}

} // verus!
