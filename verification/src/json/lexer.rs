use vstd::prelude::*;
use vstd::string::StringSliceAdditionalSpecFns;
use vstd::utf8::{
    valid_utf8, decode_utf8, is_char_boundary, valid_utf8_split,
    is_char_boundary_iff_not_is_continuation_byte, is_char_boundary_start_end_of_seq,
    encode_utf8_valid_utf8, encode_utf8_decode_utf8,
};
use super::spec::{
    Tok, skip_ws, lex_keyword, lex_number, lex_raw_string, lex_token, lex_all, is_number_char,
};
use super::lexing::{bounded, byte_source, lemma_skip_ws, lemma_lex_token, lemma_ascii_run};
use super::numbers::is_valid_float;
use crate::text::{is_whitespace, push_char, chars_of, first_char};

verus! {

/// A token of JSON text; strings borrow from the input, a number keeps its
/// source text.
pub enum Token<'a> {
    LeftBrace,
    RightBrace,
    LeftBracket,
    RightBracket,
    Colon,
    Comma,
    String(&'a str),
    Number(String),
    Boolean(bool),
    Null,
}

impl<'a> View for Token<'a> {
    type V = Tok;

    open spec fn view(&self) -> Tok {
        match self {
            Token::LeftBrace => Tok::LBrace,
            Token::RightBrace => Tok::RBrace,
            Token::LeftBracket => Tok::LBracket,
            Token::RightBracket => Tok::RBracket,
            Token::Colon => Tok::Colon,
            Token::Comma => Tok::Comma,
            Token::String(s) => Tok::Str(s@),
            Token::Number(n) => Tok::Num(n@),
            Token::Boolean(b) => Tok::Bool(*b),
            Token::Null => Tok::Null,
        }
    }
}

impl<'a> Token<'a> {
    /// A copy of this token.
    pub fn duplicate(&self) -> (t: Token<'a>)
        ensures
            t@ == self@,
    {
        match self {
            Token::LeftBrace => Token::LeftBrace,
            Token::RightBrace => Token::RightBrace,
            Token::LeftBracket => Token::LeftBracket,
            Token::RightBracket => Token::RightBracket,
            Token::Colon => Token::Colon,
            Token::Comma => Token::Comma,
            Token::String(s) => Token::String(s),
            Token::Number(n) => Token::Number(n.clone()),
            Token::Boolean(b) => Token::Boolean(*b),
            Token::Null => Token::Null,
        }
    }
}

/// The token sequence of a vector of tokens.
pub open spec fn token_views<'a>(tokens: Seq<Token<'a>>) -> Seq<Tok> {
    tokens.map_values(|t: Token<'a>| t@)
}

/// A tokenizer that walks the input one byte position at a time. At a
/// character boundary it reads the character starting there; reading moves
/// on by one byte, so after a character of more than one byte it reads
/// nothing and tokenizing ends.
pub struct Lexer<'a> {
    input: &'a str,
    cursor: usize,
}

impl<'a> Lexer<'a> {
    /// The text being tokenized.
    pub closed spec fn source(&self) -> &'a str {
        self.input
    }

    /// The byte position of the next read.
    pub closed spec fn position(&self) -> int {
        self.cursor as int
    }

    /// The UTF-8 bytes of the input.
    pub open spec fn bytes(&self) -> Seq<u8> {
        self.source().spec_bytes()
    }

    /// What the lexer reads at each byte position.
    pub open spec fn reader(&self) -> spec_fn(int) -> Option<char> {
        byte_source(self.bytes())
    }

    /// Number of input bytes.
    pub open spec fn limit(&self) -> int {
        self.bytes().len() as int
    }

    /// A lexer at the start of `input`.
    pub fn new(input: &'a str) -> (lexer: Self)
        ensures
            lexer.source() == input,
            lexer.position() == 0,
    {
        Self { input, cursor: 0 }
    }

    /// The reader sees nothing outside the input.
    proof fn lemma_reader_bounded(&self)
        ensures
            bounded(self.reader(), self.limit()),
            valid_utf8(self.bytes()),
    {
        encode_utf8_valid_utf8(self.source()@);
    }

    /// All tokens from the current position up to the first place where no
    /// token forms (the end of the input, an unexpected character, a
    /// malformed keyword or number, an unterminated string).
    pub fn tokenize(&mut self) -> (tokens: Vec<Token<'a>>)
        requires
            old(self).position() < usize::MAX,
            old(self).limit() < usize::MAX,
        ensures
            final(self).source() == old(self).source(),
            token_views(tokens@) == lex_all(
                old(self).reader(),
                old(self).limit(),
                false,
                old(self).position(),
            ).0,
            final(self).position() == lex_all(
                old(self).reader(),
                old(self).limit(),
                false,
                old(self).position(),
            ).1,
    {
        let ghost at = self.reader();
        let ghost limit = self.limit();
        let ghost all = lex_all(at, limit, false, self.cursor as int);
        proof {
            self.lemma_reader_bounded();
        }
        let mut tokens: Vec<Token<'a>> = Vec::new();
        loop
            invariant_except_break
                self.cursor < usize::MAX,
                token_views(tokens@) + lex_all(at, limit, false, self.cursor as int).0 == all.0,
                lex_all(at, limit, false, self.cursor as int).1 == all.1,
            invariant
                self.input == old(self).input,
                at == self.reader(),
                limit == self.limit(),
                limit < usize::MAX,
                bounded(at, limit),
            ensures
                token_views(tokens@) == all.0,
                self.cursor == all.1,
            decreases limit + 1 - self.cursor,
        {
            let ghost c = self.cursor as int;
            proof {
                lemma_lex_token(at, limit, false, c);
            }
            match self.new_token() {
                Some(token) => {
                    let ghost before = tokens@;
                    tokens.push(token);
                    assert(token_views(tokens@) =~= token_views(before).push(token@));
                    assert(token_views(tokens@) + lex_all(at, limit, false, self.cursor as int).0
                        =~= token_views(before) + lex_all(at, limit, false, c).0);
                },
                None => {
                    assert(token_views(tokens@) + Seq::<Tok>::empty() =~= token_views(tokens@));
                    assert(token_views(tokens@) == all.0);
                    break ;
                },
            }
        }
        tokens
    }

    /// The character at the current position, if a character starts there.
    fn peek(&mut self) -> (c: Option<char>)
        requires
            old(self).limit() < usize::MAX,
        ensures
            *final(self) == *old(self),
            c == old(self).reader()(old(self).position()),
    {
        proof {
            self.lemma_reader_bounded();
        }
        let len = self.input.len();
        if self.cursor > len || !self.input.is_char_boundary(self.cursor) {
            return None;
        }
        let (_, rest) = self.input.split_at(self.cursor);
        proof {
            encode_utf8_decode_utf8(rest@);
            assert(rest@ == decode_utf8(self.bytes().subrange(self.cursor as int, self.limit())));
            if self.cursor as int == self.limit() {
                assert(rest.spec_bytes().len() == 0);
                if rest@.len() > 0 {
                    assert(rest.spec_bytes() =~= vstd::utf8::encode_scalar(rest@[0] as u32)
                        + vstd::utf8::encode_utf8(rest@.drop_first()));
                }
            } else {
                if rest@.len() == 0 {
                    assert(rest.spec_bytes() =~= Seq::<u8>::empty());
                }
            }
        }
        first_char(rest)
    }

    /// Read the character at the current position, if any, and move on by
    /// one byte either way.
    fn next_char(&mut self) -> (c: Option<char>)
        requires
            old(self).cursor < usize::MAX,
            old(self).limit() < usize::MAX,
        ensures
            final(self).input == old(self).input,
            final(self).cursor == old(self).cursor + 1,
            c == old(self).reader()(old(self).position()),
    {
        let c = self.peek();
        self.cursor += 1;
        c
    }

    /// The next token, skipping white space first.
    fn new_token(&mut self) -> (token: Option<Token<'a>>)
        requires
            old(self).cursor < usize::MAX,
            old(self).limit() < usize::MAX,
        ensures
            final(self).input == old(self).input,
            token.is_some() == lex_token(old(self).reader(), old(self).limit(), false, old(self).position()).0.is_some(),
            token matches Some(t) ==> Some(t@) == lex_token(
                old(self).reader(),
                old(self).limit(),
                false,
                old(self).position(),
            ).0,
            final(self).position() == lex_token(
                old(self).reader(),
                old(self).limit(),
                false,
                old(self).position(),
            ).1,
    {
        proof {
            self.lemma_reader_bounded();
            lemma_skip_ws(self.reader(), self.limit(), self.cursor as int);
        }
        self.consume_whitespace();
        let c = self.next_char()?;
        proof {
            reveal_strlit("true");
            reveal_strlit("false");
            reveal_strlit("null");
        }
        match c {
            '{' => Some(Token::LeftBrace),
            '}' => Some(Token::RightBrace),
            '[' => Some(Token::LeftBracket),
            ']' => Some(Token::RightBracket),
            ':' => Some(Token::Colon),
            ',' => Some(Token::Comma),
            't' => self.lex_keyword("true", Token::Boolean(true)),
            'f' => self.lex_keyword("false", Token::Boolean(false)),
            'n' => self.lex_keyword("null", Token::Null),
            '0'..='9' | '-' => self.lex_number(c),
            '"' => self.lex_string(),
            _ => None,
        }
    }

    /// Skip white space.
    fn consume_whitespace(&mut self)
        requires
            old(self).limit() < usize::MAX,
        ensures
            final(self).input == old(self).input,
            final(self).position() == skip_ws(old(self).reader(), old(self).limit(), old(self).position()),
    {
        let ghost at = self.reader();
        let ghost limit = self.limit();
        proof {
            self.lemma_reader_bounded();
        }
        loop
            invariant
                self.input == old(self).input,
                at == self.reader(),
                limit == self.limit(),
                limit < usize::MAX,
                bounded(at, limit),
                skip_ws(at, limit, self.cursor as int) == skip_ws(at, limit, old(self).cursor as int),
            ensures
                skip_ws(at, limit, self.cursor as int) == self.cursor as int,
            decreases limit - self.cursor,
        {
            match self.peek() {
                Some(c) => {
                    if is_whitespace(c) {
                        assert(self.cursor < limit);
                        self.next_char();
                    } else {
                        break ;
                    }
                },
                None => break ,
            }
        }
    }

    /// Read the rest of `keyword` (its first character is already read).
    fn lex_keyword(&mut self, keyword: &str, token: Token<'a>) -> (result: Option<Token<'a>>)
        requires
            old(self).cursor <= old(self).limit(),
            old(self).limit() < usize::MAX,
        ensures
            final(self).input == old(self).input,
            result.is_some() == lex_keyword(old(self).reader(), keyword@, 1, old(self).position(), token@).0.is_some(),
            result matches Some(t) ==> Some(t@) == lex_keyword(
                old(self).reader(),
                keyword@,
                1,
                old(self).position(),
                token@,
            ).0,
            final(self).position() == lex_keyword(
                old(self).reader(),
                keyword@,
                1,
                old(self).position(),
                token@,
            ).1,
    {
        let ghost at = self.reader();
        let ghost limit = self.limit();
        proof {
            self.lemma_reader_bounded();
        }
        let kw = chars_of(keyword);
        let mut k: usize = 1;
        while k < kw.len()
            invariant
                self.input == old(self).input,
                at == self.reader(),
                limit == self.limit(),
                limit < usize::MAX,
                bounded(at, limit),
                kw@ == keyword@,
                1 <= k,
                self.cursor <= limit,
                lex_keyword(at, kw@, k as int, self.cursor as int, token@) == lex_keyword(
                    at,
                    kw@,
                    1,
                    old(self).cursor as int,
                    token@,
                ),
            decreases kw@.len() - k,
        {
            let expected = kw[k];
            match self.next_char() {
                Some(c) => {
                    if c != expected {
                        return None;
                    }
                },
                None => return None,
            }
            k = k + 1;
        }
        Some(token)
    }

    /// Read the rest of a number whose first character is `first_char`.
    fn lex_number(&mut self, first_char: char) -> (result: Option<Token<'a>>)
        requires
            old(self).cursor <= old(self).limit(),
            old(self).limit() < usize::MAX,
        ensures
            final(self).input == old(self).input,
            result.is_some() == lex_number(old(self).reader(), old(self).limit(), old(self).position(), seq![first_char]).0.is_some(),
            result matches Some(t) ==> Some(t@) == lex_number(
                old(self).reader(),
                old(self).limit(),
                old(self).position(),
                seq![first_char],
            ).0,
            final(self).position() == lex_number(
                old(self).reader(),
                old(self).limit(),
                old(self).position(),
                seq![first_char],
            ).1,
    {
        let ghost at = self.reader();
        let ghost limit = self.limit();
        proof {
            self.lemma_reader_bounded();
        }
        let mut number_str = String::new();
        push_char(&mut number_str, first_char);
        assert(number_str@ =~= seq![first_char]);
        loop
            invariant
                self.input == old(self).input,
                at == self.reader(),
                limit == self.limit(),
                limit < usize::MAX,
                bounded(at, limit),
                self.cursor <= limit,
                lex_number(at, limit, self.cursor as int, number_str@) == lex_number(
                    at,
                    limit,
                    old(self).cursor as int,
                    seq![first_char],
                ),
            ensures
                !(self.cursor < limit && at(self.cursor as int) is Some && is_number_char(
                    at(self.cursor as int)->0,
                )),
            decreases limit - self.cursor,
        {
            match self.peek() {
                Some(c) => {
                    if ('0' <= c && c <= '9') || c == '.' || c == 'e' || c == 'E' || c == '+' || c
                        == '-' {
                        let d = self.next_char();
                        push_char(&mut number_str, c);
                    } else {
                        break ;
                    }
                },
                None => break ,
            }
        }
        if is_valid_float(number_str.as_str()) {
            Some(Token::Number(number_str))
        } else {
            None
        }
    }

    /// Read the rest of a string up to the closing quote; the token borrows
    /// the characters in between.
    fn lex_string(&mut self) -> (result: Option<Token<'a>>)
        requires
            old(self).cursor <= old(self).limit(),
            old(self).limit() < usize::MAX,
        ensures
            final(self).input == old(self).input,
            result.is_some() == lex_raw_string(old(self).reader(), old(self).limit(), old(self).position(), old(self).position()).0.is_some(),
            result matches Some(t) ==> Some(t@) == lex_raw_string(
                old(self).reader(),
                old(self).limit(),
                old(self).position(),
                old(self).position(),
            ).0,
            final(self).position() == lex_raw_string(
                old(self).reader(),
                old(self).limit(),
                old(self).position(),
                old(self).position(),
            ).1,
    {
        let ghost at = self.reader();
        let ghost limit = self.limit();
        let ghost b = self.bytes();
        proof {
            self.lemma_reader_bounded();
        }
        let start = self.cursor;
        loop
            invariant
                self.input == old(self).input,
                at == self.reader(),
                b == self.bytes(),
                valid_utf8(b),
                limit == self.limit(),
                limit == b.len(),
                limit < usize::MAX,
                bounded(at, limit),
                start == old(self).cursor,
                start <= self.cursor <= limit,
                forall|k: int| start <= k < self.cursor ==> #[trigger] at(k) is Some,
                lex_raw_string(at, limit, start as int, self.cursor as int) == lex_raw_string(
                    at,
                    limit,
                    start as int,
                    start as int,
                ),
            ensures
                at(self.cursor as int) is None,
            decreases limit - self.cursor,
        {
            match self.peek() {
                Some(c) => {
                    if c == '"' {
                        let end = self.cursor;
                        let d = self.next_char();
                        proof {
                            assert forall|k: int| start <= k <= end implies is_char_boundary(
                                b,
                                k,
                            ) by {
                                assert(at(k) is Some);
                            }
                            lemma_ascii_run(b, start as int, end as int);
                            valid_utf8_split(b, end as int);
                            let head = b.subrange(0, end as int);
                            if start < end {
                                assert(head[start as int] == b[start as int]);
                                is_char_boundary_iff_not_is_continuation_byte(head, start as int);
                            } else {
                                is_char_boundary_start_end_of_seq(head);
                            }
                        }
                        let (before_end, _) = self.input.split_at(end);
                        let (_, content) = before_end.split_at(start);
                        proof {
                            encode_utf8_decode_utf8(content@);
                            assert(content.spec_bytes() =~= b.subrange(start as int, end as int));
                        }
                        return Some(Token::String(content));
                    }
                    self.next_char();
                },
                None => break ,
            }
        }
        None
    }
}

} // verus!
