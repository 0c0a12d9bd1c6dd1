use vstd::prelude::*;
use vstd::utf8::{
    valid_utf8, decode_utf8, is_char_boundary, valid_utf8_split,
    is_char_boundary_iff_not_is_continuation_byte,
};
use super::spec::{
    Tok, skip_ws, lex_keyword, lex_number, lex_raw_string, lex_escaped_string, lex_token, lex_all,
    source_text,
};

verus! {

/// Every position outside `0..limit` reads as `None`.
pub open spec fn bounded(at: spec_fn(int) -> Option<char>, limit: int) -> bool {
    forall|p: int| #![trigger at(p)] (p < 0 || p >= limit) ==> at(p) is None
}

/// The source that reads the UTF-8 text `b` byte position by byte position:
/// at a character boundary it sees the character that starts there, at any
/// other position nothing.
pub open spec fn byte_source(b: Seq<u8>) -> spec_fn(int) -> Option<char> {
    |c: int|
        if 0 <= c < b.len() && is_char_boundary(b, c) {
            Some(decode_utf8(b.subrange(c, b.len() as int))[0])
        } else {
            None
        }
}

/// The larger of two integers.
pub open spec fn max_int(a: int, b: int) -> int {
    if a >= b { a } else { b }
}

/// Skipping white space never moves backwards, nor past the end.
pub proof fn lemma_skip_ws(at: spec_fn(int) -> Option<char>, limit: int, p: int)
    ensures
        p <= skip_ws(at, limit, p),
        skip_ws(at, limit, p) == p || skip_ws(at, limit, p) <= limit,
    decreases limit - p,
{
    if p < limit && at(p) is Some && crate::text::is_white_space(at(p)->0) {
        lemma_skip_ws(at, limit, p + 1);
    }
}

/// Reading a keyword stays within one position past the end of the source.
pub proof fn lemma_lex_keyword(
    at: spec_fn(int) -> Option<char>,
    limit: int,
    kw: Seq<char>,
    k: int,
    p: int,
    tok: Tok,
)
    requires
        bounded(at, limit),
        0 <= p <= limit,
    ensures
        lex_keyword(at, kw, k, p, tok).1 >= p,
        lex_keyword(at, kw, k, p, tok).1 <= limit + 1,
        lex_keyword(at, kw, k, p, tok).0 is Some ==> lex_keyword(at, kw, k, p, tok).1 <= limit,
    decreases kw.len() - k,
{
    if k < kw.len() && at(p) is Some && at(p)->0 == kw[k] {
        assert(p < limit);
        lemma_lex_keyword(at, limit, kw, k + 1, p + 1, tok);
    }
}

/// Reading a number stays within the source.
pub proof fn lemma_lex_number(at: spec_fn(int) -> Option<char>, limit: int, p: int, text: Seq<char>)
    requires
        p <= limit,
    ensures
        p <= lex_number(at, limit, p, text).1 <= limit,
    decreases limit - p,
{
    if p < limit && at(p) is Some && super::spec::is_number_char(at(p)->0) {
        lemma_lex_number(at, limit, p + 1, text.push(at(p)->0));
    }
}

/// Reading a literal string stays within one position past the end.
pub proof fn lemma_lex_raw_string(at: spec_fn(int) -> Option<char>, limit: int, start: int, p: int)
    requires
        p <= limit,
    ensures
        p <= lex_raw_string(at, limit, start, p).1 <= limit,
    decreases limit - p,
{
    if p < limit && at(p) is Some && at(p)->0 != '"' {
        lemma_lex_raw_string(at, limit, start, p + 1);
    }
}

/// Reading a string with escapes stays within one position past the end.
pub proof fn lemma_lex_escaped_string(
    at: spec_fn(int) -> Option<char>,
    limit: int,
    p: int,
    text: Seq<char>,
    escaped: bool,
)
    requires
        p <= limit,
    ensures
        p <= lex_escaped_string(at, limit, p, text, escaped).1 <= limit,
    decreases limit - p,
{
    if p < limit && at(p) is Some {
        let c = at(p)->0;
        if escaped {
            lemma_lex_escaped_string(at, limit, p + 1, text.push(super::spec::unescape(c)), false);
        } else if c == '\\' {
            lemma_lex_escaped_string(at, limit, p + 1, text, true);
        } else if c != '"' {
            lemma_lex_escaped_string(at, limit, p + 1, text.push(c), false);
        }
    }
}

/// A token consumes at least one position and ends within the source;
/// tokenizing stops at most one position past the start or the end.
pub proof fn lemma_lex_token(at: spec_fn(int) -> Option<char>, limit: int, escapes: bool, pos: int)
    requires
        bounded(at, limit),
        0 <= pos,
    ensures
        lex_token(at, limit, escapes, pos).1 > pos,
        lex_token(at, limit, escapes, pos).1 <= max_int(pos, limit) + 1,
        lex_token(at, limit, escapes, pos).0 is Some ==> lex_token(at, limit, escapes, pos).1 <= limit,
{
    let p = skip_ws(at, limit, pos);
    lemma_skip_ws(at, limit, pos);
    if at(p) is Some {
        assert(p < limit);
        let c = at(p)->0;
        let q = p + 1;
        if c == 't' {
            lemma_lex_keyword(at, limit, "true"@, 1, q, Tok::Bool(true));
        } else if c == 'f' {
            lemma_lex_keyword(at, limit, "false"@, 1, q, Tok::Bool(false));
        } else if c == 'n' {
            lemma_lex_keyword(at, limit, "null"@, 1, q, Tok::Null);
        } else if super::spec::starts_number(c) {
            lemma_lex_number(at, limit, q, seq![c]);
        } else if c == '"' {
            lemma_lex_escaped_string(at, limit, q, Seq::empty(), false);
            lemma_lex_raw_string(at, limit, q, q);
        }
    }
}

/// Tokenizing stops at most one position past the start or the end.
pub proof fn lemma_lex_all(at: spec_fn(int) -> Option<char>, limit: int, escapes: bool, pos: int)
    requires
        bounded(at, limit),
        0 <= pos,
    ensures
        lex_all(at, limit, escapes, pos).1 <= max_int(pos, limit) + 1,
        lex_all(at, limit, escapes, pos).1 > pos,
    decreases limit + 1 - pos,
{
    lemma_lex_token(at, limit, escapes, pos);
    let (t, q) = lex_token(at, limit, escapes, pos);
    if t is Some && pos < q <= limit + 1 {
        lemma_lex_all(at, limit, escapes, q);
    }
}

/// A text of bytes below `0x80` is valid UTF-8 and decodes byte by byte.
pub proof fn lemma_decode_ascii(bytes: Seq<u8>)
    requires
        forall|k: int| 0 <= k < bytes.len() ==> bytes[k] < 0x80,
    ensures
        valid_utf8(bytes),
        decode_utf8(bytes) == Seq::new(bytes.len(), |k: int| bytes[k] as char),
    decreases bytes.len(),
{
    if bytes.len() > 0 {
        let rest = bytes.drop_first();
        assert(vstd::utf8::pop_first_scalar(bytes) =~= rest);
        lemma_decode_ascii(rest);
        let b0 = bytes[0];
        assert(b0 < 0x80 ==> (b0 & 0x7F) == b0) by (bit_vector);
        assert(decode_utf8(bytes) =~= Seq::new(bytes.len(), |k: int| bytes[k] as char));
    }
}

/// A character followed directly by a boundary is one byte long, so it is
/// below `0x80` and it is what the byte source reads there.
pub proof fn lemma_one_byte_char(b: Seq<u8>, k: int)
    requires
        valid_utf8(b),
        0 <= k < b.len(),
        is_char_boundary(b, k),
        k + 1 == b.len() || is_char_boundary(b, k + 1),
    ensures
        b[k] < 0x80,
        byte_source(b)(k) == Some(b[k] as char),
{
    valid_utf8_split(b, k);
    let s = b.subrange(k, b.len() as int);
    assert(s.len() > 0);
    assert(s[0] == b[k]);
    if k + 1 < b.len() {
        assert(s[1] == b[k + 1]);
        is_char_boundary_iff_not_is_continuation_byte(b, k + 1);
    }
    assert(vstd::utf8::is_leading_byte_width_1(s[0]));
    let b0 = s[0];
    assert(b0 < 0x80 ==> (b0 & 0x7F) == b0) by (bit_vector);
}

/// A run of one-byte characters between boundaries decodes to what the byte
/// source reads over it.
pub proof fn lemma_ascii_run(b: Seq<u8>, start: int, end: int)
    requires
        valid_utf8(b),
        0 <= start <= end < b.len(),
        forall|k: int| start <= k <= end ==> is_char_boundary(b, k),
    ensures
        forall|k: int| start <= k < end ==> b[k] < 0x80,
        forall|k: int| start <= k < end ==> byte_source(b)(k) == Some(b[k] as char),
        decode_utf8(b.subrange(start, end)) == source_text(byte_source(b), start, end),
{
    assert forall|k: int| start <= k < end implies b[k] < 0x80 && byte_source(b)(k) == Some(
        b[k] as char,
    ) by {
        lemma_one_byte_char(b, k);
    }
    let sub = b.subrange(start, end);
    lemma_decode_ascii(sub);
    assert(decode_utf8(sub) =~= source_text(byte_source(b), start, end));
}

} // verus!
