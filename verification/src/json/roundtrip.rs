//! Printing a document and reading the text back gives the document again.

use vstd::prelude::*;
use super::spec::{
    Json, Tok, JsonError, parse_value, parse_elements, parse_members, compact, compact_elements,
    compact_members, quoted, is_number_char, starts_number, valid_float, skip_ws, lex_keyword,
    lex_number, lex_raw_string, lex_escaped_string, lex_token, lex_all, char_source, source_text,
};
use super::lexing::{byte_source, lemma_one_byte_char};
use vstd::utf8::{
    encode_utf8, is_ascii_chars, is_ascii_chars_encode_utf8, encode_utf8_valid_utf8,
    is_char_boundary_iff_not_is_continuation_byte, is_char_boundary_start_end_of_seq,
};
use super::parsing::lemma_insert_member;

verus! {

/// The tokens a document is written with.
pub open spec fn tokens_of(j: Json) -> Seq<Tok>
    decreases j, 0int,
{
    match j {
        Json::Null => seq![Tok::Null],
        Json::Bool(b) => seq![Tok::Bool(b)],
        Json::Number(n) => seq![Tok::Num(n)],
        Json::Str(s) => seq![Tok::Str(s)],
        Json::Array(items) => seq![Tok::LBracket] + tokens_elements(items) + seq![Tok::RBracket],
        Json::Object(m) => seq![Tok::LBrace] + tokens_members(m) + seq![Tok::RBrace],
    }
}

/// The tokens of array elements, separated by commas.
pub open spec fn tokens_elements(items: Seq<Json>) -> Seq<Tok>
    decreases items, 1int,
{
    if items.len() == 0 {
        Seq::empty()
    } else if items.len() == 1 {
        tokens_of(items[0])
    } else {
        tokens_of(items[0]) + seq![Tok::Comma] + tokens_elements(items.drop_first())
    }
}

/// The tokens of object members `key : value`, separated by commas.
pub open spec fn tokens_members(m: Seq<(Seq<char>, Json)>) -> Seq<Tok>
    decreases m, 1int,
{
    if m.len() == 0 {
        Seq::empty()
    } else if m.len() == 1 {
        seq![Tok::Str(m[0].0), Tok::Colon] + tokens_of(m[0].1)
    } else {
        seq![Tok::Str(m[0].0), Tok::Colon] + tokens_of(m[0].1) + seq![Tok::Comma] + tokens_members(
            m.drop_first(),
        )
    }
}

/// No two members of `m` share a key.
pub open spec fn keys_distinct(m: Seq<(Seq<char>, Json)>) -> bool {
    forall|a: int, b: int| 0 <= a < b < m.len() ==> #[trigger] m[a].0 != #[trigger] m[b].0
}

/// Every object in `j` has distinct keys (a repeated key would be merged
/// when the text is read back).
pub open spec fn unique_keys(j: Json) -> bool
    decreases j, 0int,
{
    match j {
        Json::Array(items) => unique_keys_elements(items),
        Json::Object(m) => keys_distinct(m) && unique_keys_members(m),
        _ => true,
    }
}

/// Every element has distinct keys in its objects.
pub open spec fn unique_keys_elements(items: Seq<Json>) -> bool
    decreases items, 1int,
{
    items.len() == 0 || (unique_keys(items[0]) && unique_keys_elements(items.drop_first()))
}

/// Every member value has distinct keys in its objects.
pub open spec fn unique_keys_members(m: Seq<(Seq<char>, Json)>) -> bool
    decreases m, 1int,
{
    m.len() == 0 || (unique_keys(m[0].1) && unique_keys_members(m.drop_first()))
}

/// `t` holds `part` from position `c` on.
pub open spec fn holds_at<T>(t: Seq<T>, c: int, part: Seq<T>) -> bool {
    0 <= c && c + part.len() <= t.len() && t.subrange(c, c + part.len()) == part
}

/// A sequence holding `a + b` at `c` holds `a` there and `b` right after.
pub proof fn lemma_holds_split<T>(t: Seq<T>, c: int, a: Seq<T>, b: Seq<T>)
    requires
        holds_at(t, c, a + b),
    ensures
        holds_at(t, c, a),
        holds_at(t, c + a.len(), b),
{
    let whole = t.subrange(c, c + a.len() + b.len());
    assert(whole == a + b);
    assert(t.subrange(c, c + a.len()) =~= whole.subrange(0, a.len() as int));
    assert((a + b).subrange(0, a.len() as int) =~= a);
    assert(t.subrange(c + a.len(), c + a.len() + b.len()) =~= whole.subrange(
        a.len() as int,
        (a.len() + b.len()) as int,
    ));
    assert((a + b).subrange(a.len() as int, (a.len() + b.len()) as int) =~= b);
}

/// Where `part` is held, its elements are the sequence's elements.
pub proof fn lemma_holds_index<T>(t: Seq<T>, c: int, part: Seq<T>, k: int)
    requires
        holds_at(t, c, part),
        0 <= k < part.len(),
    ensures
        t[c + k] == part[k],
{
    assert(t.subrange(c, c + part.len())[k] == part[k]);
}

/// A document is written with at least one token, and it does not start
/// with a closing bracket or brace.
pub proof fn lemma_tokens_nonempty(j: Json)
    ensures
        tokens_of(j).len() > 0,
        tokens_of(j)[0] != Tok::RBracket,
        tokens_of(j)[0] != Tok::RBrace,
{
}

/// Reading the tokens of a document with distinct keys gives the document.
pub proof fn lemma_parse_tokens(t: Seq<Tok>, c: int, j: Json)
    requires
        holds_at(t, c, tokens_of(j)),
        unique_keys(j),
    ensures
        parse_value(t, c) == (Ok::<Json, JsonError>(j), c + tokens_of(j).len()),
    decreases j, 0int,
{
    lemma_holds_index(t, c, tokens_of(j), 0);
    match j {
        Json::Array(items) => {
            let inner = tokens_elements(items);
            assert(tokens_of(j) =~= seq![Tok::LBracket] + (inner + seq![Tok::RBracket]));
            lemma_holds_split(t, c, seq![Tok::LBracket], inner + seq![Tok::RBracket]);
            lemma_holds_split(t, c + 1, inner, seq![Tok::RBracket]);
            lemma_holds_index(t, c + 1 + inner.len(), seq![Tok::RBracket], 0);
            if items.len() == 0 {
                assert(inner.len() == 0);
                assert(Seq::<Json>::empty() =~= items);
            } else {
                lemma_tokens_nonempty(items[0]);
                assert(inner[0] == tokens_of(items[0])[0]);
                lemma_holds_index(t, c + 1, inner + seq![Tok::RBracket], 0);
                lemma_parse_elements_tokens(t, c + 1, items, Seq::empty());
                assert(Seq::<Json>::empty() + items =~= items);
            }
        },
        Json::Object(m) => {
            let inner = tokens_members(m);
            assert(tokens_of(j) =~= seq![Tok::LBrace] + (inner + seq![Tok::RBrace]));
            lemma_holds_split(t, c, seq![Tok::LBrace], inner + seq![Tok::RBrace]);
            lemma_holds_split(t, c + 1, inner, seq![Tok::RBrace]);
            lemma_holds_index(t, c + 1 + inner.len(), seq![Tok::RBrace], 0);
            if m.len() == 0 {
                assert(inner.len() == 0);
                assert(Seq::<(Seq<char>, Json)>::empty() =~= m);
            } else {
                lemma_parse_members_tokens(t, c + 1, m, Seq::empty());
                assert(Seq::<(Seq<char>, Json)>::empty() + m =~= m);
            }
        },
        _ => {},
    }
}

/// Reading the tokens of non-empty array elements, closed by `]`.
pub proof fn lemma_parse_elements_tokens(t: Seq<Tok>, c: int, items: Seq<Json>, acc: Seq<Json>)
    requires
        items.len() > 0,
        holds_at(t, c, tokens_elements(items) + seq![Tok::RBracket]),
        unique_keys_elements(items),
    ensures
        parse_elements(t, c, acc) == (Ok::<Json, JsonError>(Json::Array(acc + items)), c
            + tokens_elements(items).len() + 1),
    decreases items, 1int,
{
    let first = tokens_of(items[0]);
    lemma_tokens_nonempty(items[0]);
    if items.len() == 1 {
        lemma_holds_split(t, c, first, seq![Tok::RBracket]);
        lemma_parse_tokens(t, c, items[0]);
        lemma_holds_index(t, c + first.len(), seq![Tok::RBracket], 0);
        assert(acc.push(items[0]) =~= acc + items);
    } else {
        let rest = tokens_elements(items.drop_first());
        assert(tokens_elements(items) + seq![Tok::RBracket] =~= first + (seq![Tok::Comma] + (rest
            + seq![Tok::RBracket])));
        lemma_holds_split(t, c, first, seq![Tok::Comma] + (rest + seq![Tok::RBracket]));
        lemma_holds_split(t, c + first.len(), seq![Tok::Comma], rest + seq![Tok::RBracket]);
        lemma_parse_tokens(t, c, items[0]);
        lemma_holds_index(t, c + first.len(), seq![Tok::Comma], 0);
        lemma_parse_elements_tokens(t, c + first.len() + 1, items.drop_first(), acc.push(items[0]));
        assert(acc.push(items[0]) + items.drop_first() =~= acc + items);
    }
}

/// Reading the tokens of non-empty object members, closed by `}`, after
/// members `acc` whose keys differ from all of these.
pub proof fn lemma_parse_members_tokens(
    t: Seq<Tok>,
    c: int,
    m: Seq<(Seq<char>, Json)>,
    acc: Seq<(Seq<char>, Json)>,
)
    requires
        m.len() > 0,
        holds_at(t, c, tokens_members(m) + seq![Tok::RBrace]),
        unique_keys_members(m),
        keys_distinct(m),
        forall|a: int, b: int| 0 <= a < acc.len() && 0 <= b < m.len() ==> acc[a].0 != m[b].0,
    ensures
        parse_members(t, c, acc) == (Ok::<Json, JsonError>(Json::Object(acc + m)), c
            + tokens_members(m).len() + 1),
    decreases m, 1int,
{
    let key = m[0].0;
    let head = seq![Tok::Str(key), Tok::Colon];
    let first = tokens_of(m[0].1);
    lemma_tokens_nonempty(m[0].1);
    assert forall|k: int| 0 <= k < acc.len() implies acc[k].0 != key by {
        assert(acc[k].0 != m[0].0);
    }
    lemma_insert_member(acc, key, m[0].1, acc.len() as int);
    assert(m[0] == (key, m[0].1));
    if m.len() == 1 {
        assert(tokens_members(m) + seq![Tok::RBrace] =~= head + (first + seq![Tok::RBrace]));
        lemma_holds_split(t, c, head, first + seq![Tok::RBrace]);
        lemma_holds_split(t, c + 2, first, seq![Tok::RBrace]);
        lemma_holds_index(t, c, head, 0);
        lemma_holds_index(t, c, head, 1);
        lemma_parse_tokens(t, c + 2, m[0].1);
        lemma_holds_index(t, c + 2 + first.len(), seq![Tok::RBrace], 0);
        assert(acc.push(m[0]) =~= acc + m);
    } else {
        let rest = tokens_members(m.drop_first());
        assert(tokens_members(m) + seq![Tok::RBrace] =~= head + (first + (seq![Tok::Comma] + (rest
            + seq![Tok::RBrace]))));
        lemma_holds_split(t, c, head, first + (seq![Tok::Comma] + (rest + seq![Tok::RBrace])));
        lemma_holds_split(t, c + 2, first, seq![Tok::Comma] + (rest + seq![Tok::RBrace]));
        lemma_holds_split(t, c + 2 + first.len(), seq![Tok::Comma], rest + seq![Tok::RBrace]);
        lemma_holds_index(t, c, head, 0);
        lemma_holds_index(t, c, head, 1);
        lemma_parse_tokens(t, c + 2, m[0].1);
        lemma_holds_index(t, c + 2 + first.len(), seq![Tok::Comma], 0);
        let acc2 = acc.push(m[0]);
        let m2 = m.drop_first();
        assert forall|a: int, b: int| 0 <= a < acc2.len() && 0 <= b < m2.len() implies acc2[a].0
            != m2[b].0 by {
            if a < acc.len() {
                assert(acc[a].0 != m[b + 1].0);
            } else {
                assert(m[0].0 != m[b + 1].0);
            }
        }
        lemma_parse_members_tokens(t, c + 2 + first.len() + 1, m2, acc2);
        assert(acc2 + m2 =~= acc + m);
    }
}

/// Text that can stand between the quotes of a printed string: no quote,
/// and, for a lexer that reads escapes, no backslash (strings are printed
/// without escaping).
pub open spec fn plain_text(s: Seq<char>, escapes: bool) -> bool {
    forall|k: int| 0 <= k < s.len() ==> #[trigger] s[k] != '"' && (escapes ==> s[k] != '\\')
}

/// Text that reads back as one number token.
pub open spec fn number_text(n: Seq<char>) -> bool {
    &&& n.len() > 0
    &&& starts_number(n[0])
    &&& forall|k: int| 0 <= k < n.len() ==> is_number_char(#[trigger] n[k])
    &&& valid_float(n)
}

/// A document whose compact text reads back as its own tokens.
pub open spec fn printable(j: Json, escapes: bool) -> bool
    decreases j, 0int,
{
    match j {
        Json::Number(n) => number_text(n),
        Json::Str(s) => plain_text(s, escapes),
        Json::Array(items) => printable_elements(items, escapes),
        Json::Object(m) => printable_members(m, escapes),
        _ => true,
    }
}

/// Every element is printable.
pub open spec fn printable_elements(items: Seq<Json>, escapes: bool) -> bool
    decreases items, 1int,
{
    items.len() == 0 || (printable(items[0], escapes) && printable_elements(
        items.drop_first(),
        escapes,
    ))
}

/// Every member has a plain key and a printable value.
pub open spec fn printable_members(m: Seq<(Seq<char>, Json)>, escapes: bool) -> bool
    decreases m, 1int,
{
    m.len() == 0 || (plain_text(m[0].0, escapes) && printable(m[0].1, escapes)
        && printable_members(m.drop_first(), escapes))
}

/// Position `q` of `s` cannot continue a number: it is the end, or holds a
/// character no number has.
pub open spec fn number_ends(s: Seq<char>, q: int) -> bool {
    q == s.len() || (0 <= q < s.len() && !is_number_char(s[q]))
}

/// Reading one token at `p` and then the rest.
pub proof fn lemma_lex_all_unfold(s: Seq<char>, escapes: bool, p: int, tok: Tok, q: int)
    requires
        lex_token(char_source(s), s.len() as int, escapes, p) == (Some(tok), q),
        p < q <= s.len(),
    ensures
        lex_all(char_source(s), s.len() as int, escapes, p).0 == seq![tok] + lex_all(
            char_source(s),
            s.len() as int,
            escapes,
            q,
        ).0,
        lex_all(char_source(s), s.len() as int, escapes, p).1 == lex_all(
            char_source(s),
            s.len() as int,
            escapes,
            q,
        ).1,
{
}

/// A single-character token at `p`.
pub proof fn lemma_lex_punct(s: Seq<char>, escapes: bool, p: int, c: char, tok: Tok)
    requires
        0 <= p < s.len(),
        s[p] == c,
        (c == '[' && tok == Tok::LBracket) || (c == ']' && tok == Tok::RBracket) || (c == '{' && tok
            == Tok::LBrace) || (c == '}' && tok == Tok::RBrace) || (c == ':' && tok == Tok::Colon)
            || (c == ',' && tok == Tok::Comma),
    ensures
        lex_all(char_source(s), s.len() as int, escapes, p).0 == seq![tok] + lex_all(
            char_source(s),
            s.len() as int,
            escapes,
            p + 1,
        ).0,
        lex_all(char_source(s), s.len() as int, escapes, p).1 == lex_all(
            char_source(s),
            s.len() as int,
            escapes,
            p + 1,
        ).1,
{
    let at = char_source(s);
    assert(skip_ws(at, s.len() as int, p) == p);
    lemma_lex_all_unfold(s, escapes, p, tok, p + 1);
}

/// The rest of a keyword.
proof fn lemma_lex_keyword_text(s: Seq<char>, p: int, kw: Seq<char>, k: int, tok: Tok)
    requires
        holds_at(s, p, kw),
        1 <= k <= kw.len(),
    ensures
        lex_keyword(char_source(s), kw, k, p + k, tok) == (Some(tok), p + kw.len()),
    decreases kw.len() - k,
{
    if k < kw.len() {
        lemma_holds_index(s, p, kw, k);
        lemma_lex_keyword_text(s, p, kw, k + 1, tok);
    }
}

/// The rest of a number.
proof fn lemma_lex_number_text(s: Seq<char>, p: int, n: Seq<char>, k: int)
    requires
        holds_at(s, p, n),
        number_text(n),
        number_ends(s, p + n.len()),
        1 <= k <= n.len(),
    ensures
        lex_number(char_source(s), s.len() as int, p + k, n.take(k)) == (Some(Tok::Num(n)), p
            + n.len()),
    decreases n.len() - k,
{
    if k < n.len() {
        lemma_holds_index(s, p, n, k);
        assert(n.take(k).push(n[k]) =~= n.take(k + 1));
        lemma_lex_number_text(s, p, n, k + 1);
    } else {
        assert(n.take(k) =~= n);
    }
}

/// The rest of a string, read with escapes.
proof fn lemma_lex_escaped_text(s: Seq<char>, p: int, body: Seq<char>, k: int)
    requires
        holds_at(s, p, quoted(body)),
        plain_text(body, true),
        0 <= k <= body.len(),
    ensures
        lex_escaped_string(char_source(s), s.len() as int, p + 1 + k, body.take(k), false) == (
            Some(Tok::Str(body)),
            p + body.len() + 2,
        ),
    decreases body.len() - k,
{
    lemma_holds_index(s, p, quoted(body), 1 + k);
    if k < body.len() {
        assert(quoted(body)[1 + k] == body[k]);
        assert(body.take(k).push(body[k]) =~= body.take(k + 1));
        lemma_lex_escaped_text(s, p, body, k + 1);
    } else {
        assert(body.take(k) =~= body);
    }
}

/// The rest of a string, read literally.
proof fn lemma_lex_raw_text(s: Seq<char>, p: int, body: Seq<char>, k: int)
    requires
        holds_at(s, p, quoted(body)),
        plain_text(body, false),
        0 <= k <= body.len(),
    ensures
        lex_raw_string(char_source(s), s.len() as int, p + 1, p + 1 + k) == (
            Some(Tok::Str(body)),
            p + body.len() + 2,
        ),
    decreases body.len() - k,
{
    lemma_holds_index(s, p, quoted(body), 1 + k);
    if k < body.len() {
        assert(quoted(body)[1 + k] == body[k]);
        lemma_lex_raw_text(s, p, body, k + 1);
    } else {
        let at = char_source(s);
        assert forall|i: int| 0 <= i < body.len() implies source_text(at, p + 1, p + 1 + k)[i]
            == body[i] by {
            lemma_holds_index(s, p, quoted(body), 1 + i);
        }
        assert(source_text(at, p + 1, p + 1 + k) =~= body);
    }
}

/// A scalar's text reads as its one token.
pub proof fn lemma_lex_scalar(s: Seq<char>, escapes: bool, j: Json, p: int)
    requires
        !(j is Array),
        !(j is Object),
        holds_at(s, p, compact(j)),
        printable(j, escapes),
        number_ends(s, p + compact(j).len()),
    ensures
        lex_token(char_source(s), s.len() as int, escapes, p) == (Some(tokens_of(j)[0]), p
            + compact(j).len()),
        compact(j).len() > 0,
{
    let at = char_source(s);
    let limit = s.len() as int;
    reveal_strlit("null");
    reveal_strlit("true");
    reveal_strlit("false");
    lemma_holds_index(s, p, compact(j), 0);
    assert(skip_ws(at, limit, p) == p);
    match j {
        Json::Null => {
            lemma_lex_keyword_text(s, p, "null"@, 1, Tok::Null);
        },
        Json::Bool(b) => {
            if b {
                lemma_lex_keyword_text(s, p, "true"@, 1, Tok::Bool(true));
            } else {
                lemma_lex_keyword_text(s, p, "false"@, 1, Tok::Bool(false));
            }
        },
        Json::Number(n) => {
            assert(n.take(1) =~= seq![n[0]]);
            lemma_lex_number_text(s, p, n, 1);
        },
        Json::Str(body) => {
            if escapes {
                assert(body.take(0) =~= Seq::<char>::empty());
                lemma_lex_escaped_text(s, p, body, 0);
            } else {
                lemma_lex_raw_text(s, p, body, 0);
            }
        },
        _ => {},
    }
}

/// The compact text of a printable document at `p` reads as the document's
/// tokens, followed by whatever the rest of the text reads as.
/// The compact text of a printable document at `p` reads as the document's
/// tokens, followed by whatever the rest of the text reads as.
pub proof fn lemma_lex_value(s: Seq<char>, escapes: bool, j: Json, p: int)
    requires
        holds_at(s, p, compact(j)),
        printable(j, escapes),
        number_ends(s, p + compact(j).len()),
    ensures
        lex_all(char_source(s), s.len() as int, escapes, p).0 == tokens_of(j) + lex_all(
            char_source(s),
            s.len() as int,
            escapes,
            p + compact(j).len(),
        ).0,
        lex_all(char_source(s), s.len() as int, escapes, p).1 == lex_all(
            char_source(s),
            s.len() as int,
            escapes,
            p + compact(j).len(),
        ).1,
    decreases j, 3int,
{
    match j {
        Json::Array(_) => lemma_lex_array(s, escapes, j, p),
        Json::Object(_) => lemma_lex_object(s, escapes, j, p),
        _ => {
            lemma_lex_scalar(s, escapes, j, p);
            lemma_lex_all_unfold(s, escapes, p, tokens_of(j)[0], p + compact(j).len());
            assert(seq![tokens_of(j)[0]] =~= tokens_of(j));
        },
    }
}

proof fn lemma_lex_array(s: Seq<char>, escapes: bool, j: Json, p: int)
    requires
        j is Array,
        holds_at(s, p, compact(j)),
        printable(j, escapes),
        number_ends(s, p + compact(j).len()),
    ensures
        lex_all(char_source(s), s.len() as int, escapes, p).0 == tokens_of(j) + lex_all(
            char_source(s),
            s.len() as int,
            escapes,
            p + compact(j).len(),
        ).0,
        lex_all(char_source(s), s.len() as int, escapes, p).1 == lex_all(
            char_source(s),
            s.len() as int,
            escapes,
            p + compact(j).len(),
        ).1,
    decreases j, 2int,
{
    let at = char_source(s);
    let limit = s.len() as int;
    let q = p + compact(j).len();
    let items = j->Array_0;
    let inner = compact_elements(items);
    assert(compact(j) =~= seq!['['] + (inner + seq![']']));
    lemma_holds_split(s, p, seq!['['], inner + seq![']']);
    lemma_holds_split(s, p + 1, inner, seq![']']);
    lemma_holds_index(s, p, seq!['['], 0);
    lemma_holds_index(s, p + 1 + inner.len(), seq![']'], 0);
    lemma_lex_punct(s, escapes, p, '[', Tok::LBracket);
    lemma_lex_punct(s, escapes, p + 1 + inner.len(), ']', Tok::RBracket);
    if items.len() == 0 {
        assert(inner.len() == 0);
        assert(tokens_of(j) =~= seq![Tok::LBracket, Tok::RBracket]);
        assert(seq![Tok::LBracket] + (seq![Tok::RBracket] + lex_all(at, limit, escapes, q).0)
            =~= tokens_of(j) + lex_all(at, limit, escapes, q).0);
    } else {
        lemma_lex_elements(s, escapes, items, p + 1);
        let te = tokens_elements(items);
        assert(seq![Tok::LBracket] + (te + (seq![Tok::RBracket] + lex_all(at, limit, escapes, q).0))
            =~= tokens_of(j) + lex_all(at, limit, escapes, q).0);
    }
}

proof fn lemma_lex_object(s: Seq<char>, escapes: bool, j: Json, p: int)
    requires
        j is Object,
        holds_at(s, p, compact(j)),
        printable(j, escapes),
        number_ends(s, p + compact(j).len()),
    ensures
        lex_all(char_source(s), s.len() as int, escapes, p).0 == tokens_of(j) + lex_all(
            char_source(s),
            s.len() as int,
            escapes,
            p + compact(j).len(),
        ).0,
        lex_all(char_source(s), s.len() as int, escapes, p).1 == lex_all(
            char_source(s),
            s.len() as int,
            escapes,
            p + compact(j).len(),
        ).1,
    decreases j, 2int,
{
    let at = char_source(s);
    let limit = s.len() as int;
    let q = p + compact(j).len();
    let m = j->Object_0;
    let inner = compact_members(m);
    assert(compact(j) =~= seq!['{'] + (inner + seq!['}']));
    lemma_holds_split(s, p, seq!['{'], inner + seq!['}']);
    lemma_holds_split(s, p + 1, inner, seq!['}']);
    lemma_holds_index(s, p, seq!['{'], 0);
    lemma_holds_index(s, p + 1 + inner.len(), seq!['}'], 0);
    lemma_lex_punct(s, escapes, p, '{', Tok::LBrace);
    lemma_lex_punct(s, escapes, p + 1 + inner.len(), '}', Tok::RBrace);
    if m.len() == 0 {
        assert(inner.len() == 0);
        assert(tokens_of(j) =~= seq![Tok::LBrace, Tok::RBrace]);
        assert(seq![Tok::LBrace] + (seq![Tok::RBrace] + lex_all(at, limit, escapes, q).0)
            =~= tokens_of(j) + lex_all(at, limit, escapes, q).0);
    } else {
        lemma_lex_members(s, escapes, m, p + 1);
        let tm = tokens_members(m);
        assert(seq![Tok::LBrace] + (tm + (seq![Tok::RBrace] + lex_all(at, limit, escapes, q).0))
            =~= tokens_of(j) + lex_all(at, limit, escapes, q).0);
    }
}

/// Non-empty array elements, as printed, read as their tokens.
pub proof fn lemma_lex_elements(s: Seq<char>, escapes: bool, items: Seq<Json>, p: int)
    requires
        items.len() > 0,
        holds_at(s, p, compact_elements(items)),
        printable_elements(items, escapes),
        number_ends(s, p + compact_elements(items).len()),
    ensures
        lex_all(char_source(s), s.len() as int, escapes, p).0 == tokens_elements(items) + lex_all(
            char_source(s),
            s.len() as int,
            escapes,
            p + compact_elements(items).len(),
        ).0,
        lex_all(char_source(s), s.len() as int, escapes, p).1 == lex_all(
            char_source(s),
            s.len() as int,
            escapes,
            p + compact_elements(items).len(),
        ).1,
    decreases items, 1int,
{
    let at = char_source(s);
    let limit = s.len() as int;
    if items.len() == 1 {
        lemma_lex_value(s, escapes, items[0], p);
    } else {
        let first = compact(items[0]);
        let rest = compact_elements(items.drop_first());
        let q = p + compact_elements(items).len();
        assert(compact_elements(items) =~= first + (seq![','] + rest));
        lemma_holds_split(s, p, first, seq![','] + rest);
        lemma_holds_split(s, p + first.len(), seq![','], rest);
        lemma_holds_index(s, p + first.len(), seq![','], 0);
        lemma_lex_value(s, escapes, items[0], p);
        lemma_lex_punct(s, escapes, p + first.len(), ',', Tok::Comma);
        lemma_lex_elements(s, escapes, items.drop_first(), p + first.len() + 1);
        assert(tokens_of(items[0]) + (seq![Tok::Comma] + (tokens_elements(items.drop_first())
            + lex_all(at, limit, escapes, q).0)) =~= tokens_elements(items) + lex_all(
            at,
            limit,
            escapes,
            q,
        ).0);
    }
}

/// Non-empty object members, as printed, read as their tokens.
pub proof fn lemma_lex_members(s: Seq<char>, escapes: bool, m: Seq<(Seq<char>, Json)>, p: int)
    requires
        m.len() > 0,
        holds_at(s, p, compact_members(m)),
        printable_members(m, escapes),
        number_ends(s, p + compact_members(m).len()),
    ensures
        lex_all(char_source(s), s.len() as int, escapes, p).0 == tokens_members(m) + lex_all(
            char_source(s),
            s.len() as int,
            escapes,
            p + compact_members(m).len(),
        ).0,
        lex_all(char_source(s), s.len() as int, escapes, p).1 == lex_all(
            char_source(s),
            s.len() as int,
            escapes,
            p + compact_members(m).len(),
        ).1,
    decreases m, 1int,
{
    let at = char_source(s);
    let limit = s.len() as int;
    let key = quoted(m[0].0);
    let val = compact(m[0].1);
    let q = p + compact_members(m).len();
    let kq = p + key.len();
    assert(compact(Json::Str(m[0].0)) == key);
    let after_key = if m.len() == 1 {
        seq![':'] + val
    } else {
        seq![':'] + (val + (seq![','] + compact_members(m.drop_first())))
    };
    assert(compact_members(m) =~= key + after_key);
    lemma_holds_split(s, p, key, after_key);
    lemma_holds_index(s, kq, after_key, 0);
    lemma_lex_scalar(s, escapes, Json::Str(m[0].0), p);
    lemma_lex_all_unfold(s, escapes, p, Tok::Str(m[0].0), kq);
    if m.len() == 1 {
        lemma_members_last(s, escapes, m, p, kq, q);
    } else {
        lemma_members_more(s, escapes, m, p, kq, q);
    }
}

proof fn lemma_members_last(
    s: Seq<char>,
    escapes: bool,
    m: Seq<(Seq<char>, Json)>,
    p: int,
    kq: int,
    q: int,
)
    requires
        m.len() == 1,
        printable_members(m, escapes),
        kq == p + quoted(m[0].0).len(),
        q == p + compact_members(m).len(),
        compact_members(m) == quoted(m[0].0) + seq![':'] + compact(m[0].1),
        holds_at(s, kq, seq![':'] + compact(m[0].1)),
        number_ends(s, q),
        lex_all(char_source(s), s.len() as int, escapes, p).0 == seq![Tok::Str(m[0].0)] + lex_all(
            char_source(s),
            s.len() as int,
            escapes,
            kq,
        ).0,
        lex_all(char_source(s), s.len() as int, escapes, p).1 == lex_all(
            char_source(s),
            s.len() as int,
            escapes,
            kq,
        ).1,
    ensures
        lex_all(char_source(s), s.len() as int, escapes, p).0 == tokens_members(m) + lex_all(
            char_source(s),
            s.len() as int,
            escapes,
            q,
        ).0,
        lex_all(char_source(s), s.len() as int, escapes, p).1 == lex_all(
            char_source(s),
            s.len() as int,
            escapes,
            q,
        ).1,
    decreases m, 0int,
{
    let at = char_source(s);
    let limit = s.len() as int;
    let val = compact(m[0].1);
    lemma_holds_split(s, kq, seq![':'], val);
    lemma_holds_index(s, kq, seq![':'], 0);
    lemma_lex_punct(s, escapes, kq, ':', Tok::Colon);
    lemma_lex_value(s, escapes, m[0].1, kq + 1);
    assert(seq![Tok::Str(m[0].0)] + (seq![Tok::Colon] + (tokens_of(m[0].1) + lex_all(
        at,
        limit,
        escapes,
        q,
    ).0)) =~= tokens_members(m) + lex_all(at, limit, escapes, q).0);
}

#[verifier::spinoff_prover]
#[verifier::rlimit(60)]
proof fn lemma_members_more(
    s: Seq<char>,
    escapes: bool,
    m: Seq<(Seq<char>, Json)>,
    p: int,
    kq: int,
    q: int,
)
    requires
        m.len() > 1,
        printable_members(m, escapes),
        kq == p + quoted(m[0].0).len(),
        q == p + compact_members(m).len(),
        compact_members(m) == quoted(m[0].0) + seq![':'] + compact(m[0].1) + seq![','] + compact_members(
            m.drop_first(),
        ),
        holds_at(s, kq, seq![':'] + (compact(m[0].1) + (seq![','] + compact_members(m.drop_first())))),
        number_ends(s, q),
        lex_all(char_source(s), s.len() as int, escapes, p).0 == seq![Tok::Str(m[0].0)] + lex_all(
            char_source(s),
            s.len() as int,
            escapes,
            kq,
        ).0,
        lex_all(char_source(s), s.len() as int, escapes, p).1 == lex_all(
            char_source(s),
            s.len() as int,
            escapes,
            kq,
        ).1,
    ensures
        lex_all(char_source(s), s.len() as int, escapes, p).0 == tokens_members(m) + lex_all(
            char_source(s),
            s.len() as int,
            escapes,
            q,
        ).0,
        lex_all(char_source(s), s.len() as int, escapes, p).1 == lex_all(
            char_source(s),
            s.len() as int,
            escapes,
            q,
        ).1,
    decreases m, 0int,
{
    let at = char_source(s);
    let limit = s.len() as int;
    let val = compact(m[0].1);
    let rest = compact_members(m.drop_first());
    lemma_holds_split(s, kq, seq![':'], val + (seq![','] + rest));
    lemma_holds_split(s, kq + 1, val, seq![','] + rest);
    lemma_holds_split(s, kq + 1 + val.len(), seq![','], rest);
    lemma_holds_index(s, kq, seq![':'], 0);
    lemma_holds_index(s, kq + 1 + val.len(), seq![','], 0);
    lemma_lex_punct(s, escapes, kq, ':', Tok::Colon);
    lemma_lex_value(s, escapes, m[0].1, kq + 1);
    lemma_lex_punct(s, escapes, kq + 1 + val.len(), ',', Tok::Comma);
    lemma_lex_members(s, escapes, m.drop_first(), kq + 1 + val.len() + 1);
    let rq = lex_all(at, limit, escapes, q).0;
    let tm = tokens_members(m);
    assert(tm =~= seq![Tok::Str(m[0].0)] + (seq![Tok::Colon] + (tokens_of(m[0].1) + (seq![
        Tok::Comma,
    ] + tokens_members(m.drop_first())))));
    assert(seq![Tok::Str(m[0].0)] + (seq![Tok::Colon] + (tokens_of(m[0].1) + (seq![Tok::Comma]
        + (tokens_members(m.drop_first()) + rq)))) =~= tm + rq);
}

/// Reading back the compact text of a document gives the document: the
/// text tokenizes to the document's tokens, with nothing left over, and
/// those tokens parse to the document. This holds for every document whose
/// numbers are number literals, whose strings hold no quote (nor, for the
/// lexer that reads escapes, a backslash), and whose objects have distinct
/// keys.
pub proof fn lemma_round_trip(j: Json, escapes: bool)
    requires
        printable(j, escapes),
        unique_keys(j),
    ensures
        lex_all(char_source(compact(j)), compact(j).len() as int, escapes, 0) == (
            tokens_of(j),
            compact(j).len() + 1int,
        ),
        parse_value(tokens_of(j), 0) == (Ok::<Json, JsonError>(j), tokens_of(j).len() as int),
{
    let s = compact(j);
    assert(s.subrange(0, s.len() as int) =~= s);
    lemma_lex_value(s, escapes, j, 0);
    let end = lex_all(char_source(s), s.len() as int, escapes, s.len() as int);
    assert(skip_ws(char_source(s), s.len() as int, s.len() as int) == s.len());
    assert(end.0 =~= Seq::<Tok>::empty());
    assert(tokens_of(j) + end.0 =~= tokens_of(j));
    let t = tokens_of(j);
    assert(t.subrange(0, t.len() as int) =~= t);
    lemma_parse_tokens(t, 0, j);
}

/// An ASCII text read byte by byte, through its UTF-8 encoding, is read as
/// its characters.
pub proof fn lemma_ascii_byte_source(s: Seq<char>)
    requires
        is_ascii_chars(s),
    ensures
        byte_source(encode_utf8(s)) == char_source(s),
        encode_utf8(s).len() == s.len(),
{
    let b = encode_utf8(s);
    is_ascii_chars_encode_utf8(s);
    encode_utf8_valid_utf8(s);
    is_char_boundary_start_end_of_seq(b);
    assert forall|k: int| #[trigger] byte_source(b)(k) == char_source(s)(k) by {
        if 0 <= k < b.len() {
            assert(b[k] == s[k] as u8);
            is_char_boundary_iff_not_is_continuation_byte(b, k);
            if k + 1 < b.len() {
                assert(b[k + 1] == s[k + 1] as u8);
                is_char_boundary_iff_not_is_continuation_byte(b, k + 1);
            }
            lemma_one_byte_char(b, k);
        }
    }
    assert(byte_source(b) =~= char_source(s));
}

/// The round trip through a lexer that reads the UTF-8 bytes of the text:
/// for a document whose compact text is ASCII, reading those bytes back
/// gives the document's tokens.
pub proof fn lemma_round_trip_bytes(j: Json)
    requires
        printable(j, false),
        unique_keys(j),
        is_ascii_chars(compact(j)),
    ensures
        lex_all(byte_source(encode_utf8(compact(j))), encode_utf8(compact(j)).len() as int, false, 0)
            == (tokens_of(j), compact(j).len() + 1int),
        parse_value(tokens_of(j), 0) == (Ok::<Json, JsonError>(j), tokens_of(j).len() as int),
{
    lemma_ascii_byte_source(compact(j));
    lemma_round_trip(j, false);
}

} // verus!
