//! The lexer that reads escapes undoes JSON string escaping: every string,
//! written with its quote, backslash and control characters escaped as JSON
//! escapes them, reads back as itself.

use vstd::prelude::*;
use super::spec::{Tok, quoted, unescape, skip_ws, lex_escaped_string, lex_all, char_source};
use super::roundtrip::{holds_at, lemma_holds_split, lemma_holds_index, lemma_lex_all_unfold};

verus! {

/// How JSON writes one character inside a string: `"` and `\` after a
/// backslash, line feed, carriage return, tab, backspace and form feed as
/// `\n`, `\r`, `\t`, `\b`, `\f`; any other character as itself.
pub open spec fn escape_char(c: char) -> Seq<char> {
    if c == '"' {
        seq!['\\', '"']
    } else if c == '\\' {
        seq!['\\', '\\']
    } else if c == '\n' {
        seq!['\\', 'n']
    } else if c == '\r' {
        seq!['\\', 'r']
    } else if c == '\t' {
        seq!['\\', 't']
    } else if c == '\x08' {
        seq!['\\', 'b']
    } else if c == '\x0c' {
        seq!['\\', 'f']
    } else {
        seq![c]
    }
}

/// `s` written with JSON escapes.
pub open spec fn json_escape(s: Seq<char>) -> Seq<char>
    decreases s.len(),
{
    if s.len() == 0 {
        Seq::empty()
    } else {
        escape_char(s[0]) + json_escape(s.drop_first())
    }
}

/// Reading escaped text up to its closing quote gives the text back.
proof fn lemma_read_escaped(t: Seq<char>, p: int, s: Seq<char>, acc: Seq<char>)
    requires
        holds_at(t, p, json_escape(s) + seq!['"']),
    ensures
        lex_escaped_string(char_source(t), t.len() as int, p, acc, false) == (
            Some(Tok::Str(acc + s)),
            p + json_escape(s).len() + 1,
        ),
    decreases s.len(),
{
    let at = char_source(t);
    let limit = t.len() as int;
    if s.len() == 0 {
        lemma_holds_index(t, p, json_escape(s) + seq!['"'], 0);
        assert(acc + s =~= acc);
    } else {
        let c = s[0];
        let e = escape_char(c);
        let rest = json_escape(s.drop_first()) + seq!['"'];
        assert(json_escape(s) + seq!['"'] =~= e + rest);
        lemma_holds_split(t, p, e, rest);
        lemma_holds_index(t, p, e, 0);
        if e.len() == 1 {
            assert(at(p) == Some(c));
            lemma_read_escaped(t, p + 1, s.drop_first(), acc.push(c));
            assert(acc.push(c) + s.drop_first() =~= acc + s);
        } else {
            lemma_holds_index(t, p, e, 1);
            assert(unescape(e[1]) == c);
            assert(at(p + 1) == Some(e[1]));
            assert(lex_escaped_string(at, limit, p + 1, acc, true) == lex_escaped_string(
                at,
                limit,
                p + 2,
                acc.push(c),
                false,
            ));
            assert(at(p) == Some('\\'));
            lemma_read_escaped(t, p + 2, s.drop_first(), acc.push(c));
            assert(acc.push(c) + s.drop_first() =~= acc + s);
        }
    }
}

/// Any string, written in quotes with JSON escapes, is read by the lexer
/// that reads escapes as one string token holding exactly that string, and
/// nothing else.
pub proof fn lemma_escaped_string_reads_back(s: Seq<char>)
    ensures
        lex_all(
            char_source(quoted(json_escape(s))),
            quoted(json_escape(s)).len() as int,
            true,
            0,
        ) == (seq![Tok::Str(s)], quoted(json_escape(s)).len() + 1int),
{
    let t = quoted(json_escape(s));
    let at = char_source(t);
    let limit = t.len() as int;
    assert(t =~= seq!['"'] + (json_escape(s) + seq!['"']));
    assert(t.subrange(0, t.len() as int) =~= t);
    lemma_holds_split(t, 0, seq!['"'], json_escape(s) + seq!['"']);
    lemma_holds_index(t, 0, seq!['"'], 0);
    lemma_read_escaped(t, 1, s, Seq::empty());
    assert(Seq::<char>::empty() + s =~= s);
    assert(skip_ws(at, limit, 0) == 0);
    lemma_lex_all_unfold(t, true, 0, Tok::Str(s), limit);
    assert(skip_ws(at, limit, limit) == limit);
    assert(lex_all(at, limit, true, limit).0 =~= Seq::<Tok>::empty());
    assert(seq![Tok::Str(s)] + Seq::<Tok>::empty() =~= seq![Tok::Str(s)]);
}

} // verus!
