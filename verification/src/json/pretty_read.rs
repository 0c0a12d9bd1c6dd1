//! The indented text of a document reads back as the same tokens as its
//! compact text: the printer's line breaks and indentation are white space
//! that the lexer skips.

use vstd::prelude::*;
use super::spec::{Json, Tok, JsonError, compact, pretty, pretty_elements, pretty_members, indent,
    quoted, skip_ws, lex_token, lex_all, char_source, parse_value,
};
use super::lexing::{bounded, lemma_lex_token};
use super::roundtrip::{
    tokens_of, tokens_elements, tokens_members, printable, printable_elements, printable_members,
    unique_keys, number_ends, holds_at, lemma_holds_split, lemma_holds_index, lemma_lex_punct,
    lemma_lex_scalar, lemma_lex_all_unfold, lemma_lex_value, lemma_parse_tokens,
};
use crate::text::is_white_space;

verus! {

/// Reading `s` from `p` gives `toks` and then whatever reading from `q`
/// gives.
pub open spec fn reads_as(s: Seq<char>, escapes: bool, p: int, toks: Seq<Tok>, q: int) -> bool {
    &&& lex_all(char_source(s), s.len() as int, escapes, p).0 == toks + lex_all(
        char_source(s),
        s.len() as int,
        escapes,
        q,
    ).0
    &&& lex_all(char_source(s), s.len() as int, escapes, p).1 == lex_all(
        char_source(s),
        s.len() as int,
        escapes,
        q,
    ).1
}

proof fn lemma_reads_chain(
    s: Seq<char>,
    escapes: bool,
    p: int,
    a: Seq<Tok>,
    q: int,
    b: Seq<Tok>,
    r: int,
)
    requires
        reads_as(s, escapes, p, a, q),
        reads_as(s, escapes, q, b, r),
    ensures
        reads_as(s, escapes, p, a + b, r),
{
    let rest = lex_all(char_source(s), s.len() as int, escapes, r).0;
    assert(a + (b + rest) =~= (a + b) + rest);
}

/// `indent(depth)` is `2 * depth` spaces.
proof fn lemma_indent(depth: nat)
    ensures
        indent(depth).len() == 2 * depth,
        forall|k: int| 0 <= k < indent(depth).len() ==> #[trigger] indent(depth)[k] == ' ',
    decreases depth,
{
    reveal_strlit("  ");
    if depth > 0 {
        lemma_indent((depth - 1) as nat);
    }
}

proof fn lemma_skip_ws_run(s: Seq<char>, p: int, w: int)
    requires
        0 <= p,
        0 <= w,
        p + w <= s.len(),
        forall|k: int| p <= k < p + w ==> is_white_space(#[trigger] s[k]),
    ensures
        skip_ws(char_source(s), s.len() as int, p) == skip_ws(char_source(s), s.len() as int, p + w),
    decreases w,
{
    if w > 0 {
        lemma_skip_ws_run(s, p + 1, w - 1);
    }
}

/// White space is skipped: reading from `p` is reading from past the run.
proof fn lemma_reads_white(s: Seq<char>, escapes: bool, p: int, w: int)
    requires
        0 <= p,
        0 <= w,
        p + w <= s.len(),
        forall|k: int| p <= k < p + w ==> is_white_space(#[trigger] s[k]),
    ensures
        reads_as(s, escapes, p, Seq::empty(), p + w),
{
    let at = char_source(s);
    let limit = s.len() as int;
    lemma_skip_ws_run(s, p, w);
    assert(bounded(at, limit));
    lemma_lex_token(at, limit, escapes, p + w);
    assert(lex_token(at, limit, escapes, p) == lex_token(at, limit, escapes, p + w));
    let rest = lex_all(at, limit, escapes, p + w).0;
    assert(Seq::<Tok>::empty() + rest =~= rest);
}

/// A single-character token, as a reading step.
proof fn lemma_reads_punct(s: Seq<char>, escapes: bool, p: int, c: char, tok: Tok)
    requires
        0 <= p < s.len(),
        s[p] == c,
        (c == '[' && tok == Tok::LBracket) || (c == ']' && tok == Tok::RBracket) || (c == '{' && tok
            == Tok::LBrace) || (c == '}' && tok == Tok::RBrace) || (c == ':' && tok == Tok::Colon)
            || (c == ',' && tok == Tok::Comma),
    ensures
        reads_as(s, escapes, p, seq![tok], p + 1),
{
    lemma_lex_punct(s, escapes, p, c, tok);
}

/// The indented text of a printable document at `p` reads as the
/// document's tokens.
pub proof fn lemma_lex_pretty(s: Seq<char>, escapes: bool, j: Json, depth: nat, p: int)
    requires
        holds_at(s, p, pretty(j, depth)),
        printable(j, escapes),
        number_ends(s, p + pretty(j, depth).len()),
    ensures
        reads_as(s, escapes, p, tokens_of(j), p + pretty(j, depth).len()),
    decreases j, 3int,
{
    match j {
        Json::Array(_) => lemma_lex_pretty_array(s, escapes, j, depth, p),
        Json::Object(_) => lemma_lex_pretty_object(s, escapes, j, depth, p),
        _ => {
            assert(pretty(j, depth) == compact(j));
            lemma_lex_value(s, escapes, j, p);
        },
    }
}

proof fn lemma_lex_pretty_array(s: Seq<char>, escapes: bool, j: Json, depth: nat, p: int)
    requires
        j is Array,
        holds_at(s, p, pretty(j, depth)),
        printable(j, escapes),
        number_ends(s, p + pretty(j, depth).len()),
    ensures
        reads_as(s, escapes, p, tokens_of(j), p + pretty(j, depth).len()),
    decreases j, 2int,
{
    reveal_strlit("[]");
    reveal_strlit("[\n");
    reveal_strlit("\n");
    let items = j->Array_0;
    let text = pretty(j, depth);
    if items.len() == 0 {
        lemma_holds_index(s, p, text, 0);
        lemma_holds_index(s, p, text, 1);
        lemma_reads_punct(s, escapes, p, '[', Tok::LBracket);
        lemma_reads_punct(s, escapes, p + 1, ']', Tok::RBracket);
        lemma_reads_chain(s, escapes, p, seq![Tok::LBracket], p + 1, seq![Tok::RBracket], p + 2);
        assert(seq![Tok::LBracket] + seq![Tok::RBracket] =~= tokens_of(j));
    } else {
        let inner = pretty_elements(items, depth + 1);
        let close = seq!['\n'] + (indent(depth) + seq![']']);
        assert(text =~= seq!['['] + (seq!['\n'] + (inner + close)));
        lemma_holds_split(s, p, seq!['['], seq!['\n'] + (inner + close));
        lemma_holds_split(s, p + 1, seq!['\n'], inner + close);
        lemma_holds_split(s, p + 2, inner, close);
        lemma_holds_index(s, p, seq!['['], 0);
        lemma_holds_index(s, p + 1, seq!['\n'], 0);
        let e = p + 2 + inner.len();
        lemma_indent(depth);
        lemma_holds_index(s, e, close, 0);
        lemma_holds_index(s, e, close, close.len() - 1);
        assert forall|k: int| e <= k < e + 1 + 2 * depth implies is_white_space(#[trigger] s[k]) by {
            lemma_holds_index(s, e, close, k - e);
            if k > e {
                assert(close[k - e] == indent(depth)[k - e - 1]);
            }
        }
        lemma_reads_punct(s, escapes, p, '[', Tok::LBracket);
        lemma_reads_white(s, escapes, p + 1, 1);
        lemma_lex_pretty_elements(s, escapes, items, depth + 1, p + 2);
        lemma_reads_white(s, escapes, e, 1int + 2 * depth);
        lemma_reads_punct(s, escapes, e + 1 + 2 * depth, ']', Tok::RBracket);
        let te = tokens_elements(items);
        lemma_reads_chain(s, escapes, p, seq![Tok::LBracket], p + 1, Seq::empty(), p + 2);
        lemma_reads_chain(s, escapes, p, seq![Tok::LBracket] + Seq::empty(), p + 2, te, e);
        lemma_reads_chain(
            s,
            escapes,
            p,
            seq![Tok::LBracket] + Seq::empty() + te,
            e,
            Seq::empty(),
            e + 1 + 2 * depth,
        );
        lemma_reads_chain(
            s,
            escapes,
            p,
            seq![Tok::LBracket] + Seq::empty() + te + Seq::empty(),
            e + 1 + 2 * depth,
            seq![Tok::RBracket],
            e + 2 + 2 * depth,
        );
        assert(seq![Tok::LBracket] + Seq::empty() + te + Seq::empty() + seq![Tok::RBracket]
            =~= tokens_of(j));
    }
}

proof fn lemma_lex_pretty_object(s: Seq<char>, escapes: bool, j: Json, depth: nat, p: int)
    requires
        j is Object,
        holds_at(s, p, pretty(j, depth)),
        printable(j, escapes),
        number_ends(s, p + pretty(j, depth).len()),
    ensures
        reads_as(s, escapes, p, tokens_of(j), p + pretty(j, depth).len()),
    decreases j, 2int,
{
    reveal_strlit("{}");
    reveal_strlit("{\n");
    reveal_strlit("\n");
    let m = j->Object_0;
    let text = pretty(j, depth);
    if m.len() == 0 {
        lemma_holds_index(s, p, text, 0);
        lemma_holds_index(s, p, text, 1);
        lemma_reads_punct(s, escapes, p, '{', Tok::LBrace);
        lemma_reads_punct(s, escapes, p + 1, '}', Tok::RBrace);
        lemma_reads_chain(s, escapes, p, seq![Tok::LBrace], p + 1, seq![Tok::RBrace], p + 2);
        assert(seq![Tok::LBrace] + seq![Tok::RBrace] =~= tokens_of(j));
    } else {
        let inner = pretty_members(m, depth + 1);
        let close = seq!['\n'] + (indent(depth) + seq!['}']);
        assert(text =~= seq!['{'] + (seq!['\n'] + (inner + close)));
        lemma_holds_split(s, p, seq!['{'], seq!['\n'] + (inner + close));
        lemma_holds_split(s, p + 1, seq!['\n'], inner + close);
        lemma_holds_split(s, p + 2, inner, close);
        lemma_holds_index(s, p, seq!['{'], 0);
        lemma_holds_index(s, p + 1, seq!['\n'], 0);
        let e = p + 2 + inner.len();
        lemma_indent(depth);
        lemma_holds_index(s, e, close, 0);
        lemma_holds_index(s, e, close, close.len() - 1);
        assert forall|k: int| e <= k < e + 1 + 2 * depth implies is_white_space(#[trigger] s[k]) by {
            lemma_holds_index(s, e, close, k - e);
            if k > e {
                assert(close[k - e] == indent(depth)[k - e - 1]);
            }
        }
        lemma_reads_punct(s, escapes, p, '{', Tok::LBrace);
        lemma_reads_white(s, escapes, p + 1, 1);
        lemma_lex_pretty_members(s, escapes, m, depth + 1, p + 2);
        lemma_reads_white(s, escapes, e, 1int + 2 * depth);
        lemma_reads_punct(s, escapes, e + 1 + 2 * depth, '}', Tok::RBrace);
        let tm = tokens_members(m);
        lemma_reads_chain(s, escapes, p, seq![Tok::LBrace], p + 1, Seq::empty(), p + 2);
        lemma_reads_chain(s, escapes, p, seq![Tok::LBrace] + Seq::empty(), p + 2, tm, e);
        lemma_reads_chain(
            s,
            escapes,
            p,
            seq![Tok::LBrace] + Seq::empty() + tm,
            e,
            Seq::empty(),
            e + 1 + 2 * depth,
        );
        lemma_reads_chain(
            s,
            escapes,
            p,
            seq![Tok::LBrace] + Seq::empty() + tm + Seq::empty(),
            e + 1 + 2 * depth,
            seq![Tok::RBrace],
            e + 2 + 2 * depth,
        );
        assert(seq![Tok::LBrace] + Seq::empty() + tm + Seq::empty() + seq![Tok::RBrace]
            =~= tokens_of(j));
    }
}

/// Non-empty indented elements read as their tokens.
proof fn lemma_lex_pretty_elements(
    s: Seq<char>,
    escapes: bool,
    items: Seq<Json>,
    depth: nat,
    p: int,
)
    requires
        items.len() > 0,
        holds_at(s, p, pretty_elements(items, depth)),
        printable_elements(items, escapes),
        number_ends(s, p + pretty_elements(items, depth).len()),
    ensures
        reads_as(s, escapes, p, tokens_elements(items), p + pretty_elements(items, depth).len()),
    decreases items, 1int,
{
    reveal_strlit(",\n");
    let ind = indent(depth);
    let first = pretty(items[0], depth);
    lemma_indent(depth);
    let w = ind.len() as int;
    let tail = pretty_elements(items, depth).subrange(w, pretty_elements(items, depth).len() as int);
    assert(pretty_elements(items, depth) =~= ind + tail);
    lemma_holds_split(s, p, ind, tail);
    assert forall|k: int| p <= k < p + w implies is_white_space(#[trigger] s[k]) by {
        lemma_holds_index(s, p, ind, k - p);
    }
    lemma_reads_white(s, escapes, p, w);
    let a = p + w;
    let b = a + first.len();
    if items.len() == 1 {
        assert(tail =~= first);
        lemma_lex_pretty(s, escapes, items[0], depth, a);
        lemma_reads_chain(s, escapes, p, Seq::empty(), a, tokens_of(items[0]), b);
        assert(Seq::<Tok>::empty() + tokens_of(items[0]) =~= tokens_elements(items));
    } else {
        let rest = pretty_elements(items.drop_first(), depth);
        assert(tail =~= first + (seq![','] + (seq!['\n'] + rest)));
        lemma_holds_split(s, a, first, seq![','] + (seq!['\n'] + rest));
        lemma_holds_split(s, b, seq![','], seq!['\n'] + rest);
        lemma_holds_split(s, b + 1, seq!['\n'], rest);
        lemma_holds_index(s, b, seq![','], 0);
        lemma_holds_index(s, b + 1, seq!['\n'], 0);
        lemma_lex_pretty(s, escapes, items[0], depth, a);
        lemma_reads_punct(s, escapes, b, ',', Tok::Comma);
        lemma_reads_white(s, escapes, b + 1, 1);
        lemma_lex_pretty_elements(s, escapes, items.drop_first(), depth, b + 2);
        let t0 = tokens_of(items[0]);
        let tr = tokens_elements(items.drop_first());
        let end = b + 2 + rest.len();
        lemma_reads_chain(s, escapes, p, Seq::empty(), a, t0, b);
        lemma_reads_chain(s, escapes, p, Seq::empty() + t0, b, seq![Tok::Comma], b + 1);
        lemma_reads_chain(s, escapes, p, Seq::empty() + t0 + seq![Tok::Comma], b + 1, Seq::empty(), b + 2);
        lemma_reads_chain(
            s,
            escapes,
            p,
            Seq::empty() + t0 + seq![Tok::Comma] + Seq::empty(),
            b + 2,
            tr,
            end,
        );
        assert(Seq::empty() + t0 + seq![Tok::Comma] + Seq::empty() + tr =~= tokens_elements(items));
    }
}

/// The first indented member `key: value`, read up to the end of its value.
proof fn lemma_lex_pretty_member(
    s: Seq<char>,
    escapes: bool,
    m: Seq<(Seq<char>, Json)>,
    depth: nat,
    p: int,
)
    requires
        m.len() > 0,
        holds_at(
            s,
            p,
            indent(depth) + quoted(m[0].0) + ": "@ + pretty(m[0].1, depth),
        ),
        printable_members(m, escapes),
        number_ends(
            s,
            p + (indent(depth) + quoted(m[0].0) + ": "@ + pretty(m[0].1, depth)).len(),
        ),
    ensures
        reads_as(
            s,
            escapes,
            p,
            seq![Tok::Str(m[0].0), Tok::Colon] + tokens_of(m[0].1),
            p + (indent(depth) + quoted(m[0].0) + ": "@ + pretty(m[0].1, depth)).len(),
        ),
    decreases m, 0int,
{
    reveal_strlit(": ");
    let ind = indent(depth);
    let key = quoted(m[0].0);
    let val = pretty(m[0].1, depth);
    lemma_indent(depth);
    let w = ind.len() as int;
    assert(ind + key + ": "@ + val =~= ind + (key + (seq![':'] + (seq![' '] + val))));
    lemma_holds_split(s, p, ind, key + (seq![':'] + (seq![' '] + val)));
    lemma_holds_split(s, p + w, key, seq![':'] + (seq![' '] + val));
    let kq = p + w + key.len();
    lemma_holds_split(s, kq, seq![':'], seq![' '] + val);
    lemma_holds_split(s, kq + 1, seq![' '], val);
    lemma_holds_index(s, kq, seq![':'], 0);
    lemma_holds_index(s, kq + 1, seq![' '], 0);
    assert forall|k: int| p <= k < p + w implies is_white_space(#[trigger] s[k]) by {
        lemma_holds_index(s, p, ind, k - p);
    }
    lemma_reads_white(s, escapes, p, w);
    assert(compact(Json::Str(m[0].0)) == key);
    lemma_lex_scalar(s, escapes, Json::Str(m[0].0), p + w);
    lemma_lex_all_unfold(s, escapes, p + w, Tok::Str(m[0].0), kq);
    lemma_reads_punct(s, escapes, kq, ':', Tok::Colon);
    lemma_reads_white(s, escapes, kq + 1, 1);
    lemma_lex_pretty(s, escapes, m[0].1, depth, kq + 2);
    let tv = tokens_of(m[0].1);
    let end = kq + 2 + val.len();
    lemma_reads_chain(s, escapes, p, Seq::empty(), p + w, seq![Tok::Str(m[0].0)], kq);
    lemma_reads_chain(s, escapes, p, Seq::empty() + seq![Tok::Str(m[0].0)], kq, seq![Tok::Colon], kq + 1);
    lemma_reads_chain(
        s,
        escapes,
        p,
        Seq::empty() + seq![Tok::Str(m[0].0)] + seq![Tok::Colon],
        kq + 1,
        Seq::empty(),
        kq + 2,
    );
    lemma_reads_chain(
        s,
        escapes,
        p,
        Seq::empty() + seq![Tok::Str(m[0].0)] + seq![Tok::Colon] + Seq::empty(),
        kq + 2,
        tv,
        end,
    );
    assert(Seq::empty() + seq![Tok::Str(m[0].0)] + seq![Tok::Colon] + Seq::empty() + tv
        =~= seq![Tok::Str(m[0].0), Tok::Colon] + tv);
}

/// Non-empty indented members read as their tokens.
proof fn lemma_lex_pretty_members(
    s: Seq<char>,
    escapes: bool,
    m: Seq<(Seq<char>, Json)>,
    depth: nat,
    p: int,
)
    requires
        m.len() > 0,
        holds_at(s, p, pretty_members(m, depth)),
        printable_members(m, escapes),
        number_ends(s, p + pretty_members(m, depth).len()),
    ensures
        reads_as(s, escapes, p, tokens_members(m), p + pretty_members(m, depth).len()),
    decreases m, 1int,
{
    reveal_strlit(",\n");
    let head = indent(depth) + quoted(m[0].0) + ": "@ + pretty(m[0].1, depth);
    let b = p + head.len();
    if m.len() == 1 {
        lemma_lex_pretty_member(s, escapes, m, depth, p);
        assert(seq![Tok::Str(m[0].0), Tok::Colon] + tokens_of(m[0].1) =~= tokens_members(m));
    } else {
        let rest = pretty_members(m.drop_first(), depth);
        assert(pretty_members(m, depth) =~= head + (seq![','] + (seq!['\n'] + rest)));
        lemma_holds_split(s, p, head, seq![','] + (seq!['\n'] + rest));
        lemma_holds_split(s, b, seq![','], seq!['\n'] + rest);
        lemma_holds_split(s, b + 1, seq!['\n'], rest);
        lemma_holds_index(s, b, seq![','], 0);
        lemma_holds_index(s, b + 1, seq!['\n'], 0);
        lemma_lex_pretty_member(s, escapes, m, depth, p);
        lemma_reads_punct(s, escapes, b, ',', Tok::Comma);
        lemma_reads_white(s, escapes, b + 1, 1);
        lemma_lex_pretty_members(s, escapes, m.drop_first(), depth, b + 2);
        let t0 = seq![Tok::Str(m[0].0), Tok::Colon] + tokens_of(m[0].1);
        let tr = tokens_members(m.drop_first());
        let end = b + 2 + rest.len();
        lemma_reads_chain(s, escapes, p, t0, b, seq![Tok::Comma], b + 1);
        lemma_reads_chain(s, escapes, p, t0 + seq![Tok::Comma], b + 1, Seq::empty(), b + 2);
        lemma_reads_chain(s, escapes, p, t0 + seq![Tok::Comma] + Seq::empty(), b + 2, tr, end);
        assert(t0 + seq![Tok::Comma] + Seq::empty() + tr =~= tokens_members(m));
    }
}

/// Reading back the indented text of a document gives the document, under
/// the same conditions as for the compact text: the indentation and line
/// breaks are skipped as white space.
pub proof fn lemma_pretty_round_trip(j: Json, escapes: bool)
    requires
        printable(j, escapes),
        unique_keys(j),
    ensures
        lex_all(char_source(pretty(j, 0)), pretty(j, 0).len() as int, escapes, 0) == (
            tokens_of(j),
            pretty(j, 0).len() + 1int,
        ),
        parse_value(tokens_of(j), 0) == (Ok::<Json, JsonError>(j), tokens_of(j).len() as int),
{
    let s = pretty(j, 0);
    assert(s.subrange(0, s.len() as int) =~= s);
    lemma_lex_pretty(s, escapes, j, 0, 0);
    let end = lex_all(char_source(s), s.len() as int, escapes, s.len() as int);
    assert(skip_ws(char_source(s), s.len() as int, s.len() as int) == s.len());
    assert(end.0 =~= Seq::<Tok>::empty());
    assert(tokens_of(j) + end.0 =~= tokens_of(j));
    let t = tokens_of(j);
    assert(t.subrange(0, t.len() as int) =~= t);
    lemma_parse_tokens(t, 0, j);
}

} // verus!
