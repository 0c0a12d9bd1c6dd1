//! How the indented text relates to the compact text and to itself at other
//! depths: it is the compact text with spaces and line breaks added, and
//! one level deeper every line after the first moves two spaces right.

use vstd::prelude::*;
use super::spec::{
    Json, compact, compact_elements, compact_members, quoted, bool_text, indent, pretty,
    pretty_elements, pretty_members,
};

verus! {

/// `s` with two spaces after every line feed.
pub open spec fn indent_lines(s: Seq<char>) -> Seq<char>
    decreases s.len(),
{
    if s.len() == 0 {
        Seq::empty()
    } else {
        (if s[0] == '\n' {
            seq!['\n', ' ', ' ']
        } else {
            seq![s[0]]
        }) + indent_lines(s.drop_first())
    }
}

/// `s` with every space and line feed removed.
pub open spec fn strip_layout(s: Seq<char>) -> Seq<char>
    decreases s.len(),
{
    if s.len() == 0 {
        Seq::empty()
    } else {
        (if s[0] == ' ' || s[0] == '\n' {
            Seq::empty()
        } else {
            seq![s[0]]
        }) + strip_layout(s.drop_first())
    }
}

/// No character of `s` is one that `bad` rejects.
pub open spec fn text_avoids(s: Seq<char>, bad: spec_fn(char) -> bool) -> bool {
    forall|k: int| 0 <= k < s.len() ==> !bad(#[trigger] s[k])
}

/// No number text, string or key in `j` holds a character `bad` rejects.
pub open spec fn texts_avoid(j: Json, bad: spec_fn(char) -> bool) -> bool
    decreases j, 0int,
{
    match j {
        Json::Number(n) => text_avoids(n, bad),
        Json::Str(s) => text_avoids(s, bad),
        Json::Array(items) => texts_avoid_elements(items, bad),
        Json::Object(m) => texts_avoid_members(m, bad),
        _ => true,
    }
}

/// No element holds a text with a character `bad` rejects.
pub open spec fn texts_avoid_elements(items: Seq<Json>, bad: spec_fn(char) -> bool) -> bool
    decreases items, 1int,
{
    items.len() == 0 || (texts_avoid(items[0], bad) && texts_avoid_elements(
        items.drop_first(),
        bad,
    ))
}

/// No member key or value holds a text with a character `bad` rejects.
pub open spec fn texts_avoid_members(m: Seq<(Seq<char>, Json)>, bad: spec_fn(char) -> bool) -> bool
    decreases m, 1int,
{
    m.len() == 0 || (text_avoids(m[0].0, bad) && texts_avoid(m[0].1, bad) && texts_avoid_members(
        m.drop_first(),
        bad,
    ))
}

/// The line feed.
pub open spec fn is_line_feed(c: char) -> bool {
    c == '\n'
}

/// The characters the indented printer adds: space and line feed.
pub open spec fn is_layout(c: char) -> bool {
    c == ' ' || c == '\n'
}

proof fn lemma_indent_lines_char(c: char)
    ensures
        indent_lines(seq![c]) == (if c == '\n' {
            seq!['\n', ' ', ' ']
        } else {
            seq![c]
        }),
{
    assert(seq![c].drop_first() =~= Seq::<char>::empty());
    assert(indent_lines(Seq::<char>::empty()) == Seq::<char>::empty());
    assert(seq![c][0] == c);
    let h = if c == '\n' {
        seq!['\n', ' ', ' ']
    } else {
        seq![c]
    };
    assert(h + Seq::<char>::empty() =~= h);
}

proof fn lemma_strip_char(c: char)
    ensures
        strip_layout(seq![c]) == (if c == ' ' || c == '\n' {
            Seq::<char>::empty()
        } else {
            seq![c]
        }),
{
    assert(seq![c].drop_first() =~= Seq::<char>::empty());
    assert(strip_layout(Seq::<char>::empty()) == Seq::<char>::empty());
    assert(seq![c][0] == c);
    let h = if c == ' ' || c == '\n' {
        Seq::<char>::empty()
    } else {
        seq![c]
    };
    assert(h + Seq::<char>::empty() =~= h);
}

proof fn lemma_indent_lines_concat(a: Seq<char>, b: Seq<char>)
    ensures
        indent_lines(a + b) == indent_lines(a) + indent_lines(b),
    decreases a.len(),
{
    if a.len() == 0 {
        assert(a + b =~= b);
        assert(Seq::<char>::empty() + indent_lines(b) =~= indent_lines(b));
    } else {
        lemma_indent_lines_concat(a.drop_first(), b);
        assert((a + b).drop_first() =~= a.drop_first() + b);
        assert((a + b)[0] == a[0]);
        let h = if a[0] == '\n' {
            seq!['\n', ' ', ' ']
        } else {
            seq![a[0]]
        };
        assert(h + (indent_lines(a.drop_first()) + indent_lines(b)) =~= (h + indent_lines(
            a.drop_first(),
        )) + indent_lines(b));
    }
}

proof fn lemma_strip_concat(a: Seq<char>, b: Seq<char>)
    ensures
        strip_layout(a + b) == strip_layout(a) + strip_layout(b),
    decreases a.len(),
{
    if a.len() == 0 {
        assert(a + b =~= b);
        assert(Seq::<char>::empty() + strip_layout(b) =~= strip_layout(b));
    } else {
        lemma_strip_concat(a.drop_first(), b);
        assert((a + b).drop_first() =~= a.drop_first() + b);
        assert((a + b)[0] == a[0]);
        let h = if a[0] == ' ' || a[0] == '\n' {
            Seq::<char>::empty()
        } else {
            seq![a[0]]
        };
        assert(h + (strip_layout(a.drop_first()) + strip_layout(b)) =~= (h + strip_layout(
            a.drop_first(),
        )) + strip_layout(b));
    }
}

proof fn lemma_indent_lines_plain(s: Seq<char>)
    requires
        text_avoids(s, |c: char| is_line_feed(c)),
    ensures
        indent_lines(s) == s,
    decreases s.len(),
{
    if s.len() > 0 {
        assert(!is_line_feed(s[0]));
        assert forall|k: int| 0 <= k < s.drop_first().len() implies !(|c: char| is_line_feed(c))(
            #[trigger] s.drop_first()[k],
        ) by {
            assert(s.drop_first()[k] == s[k + 1]);
        }
        lemma_indent_lines_plain(s.drop_first());
        assert(seq![s[0]] + s.drop_first() =~= s);
    }
}

proof fn lemma_strip_plain(s: Seq<char>)
    requires
        text_avoids(s, |c: char| is_layout(c)),
    ensures
        strip_layout(s) == s,
    decreases s.len(),
{
    if s.len() > 0 {
        assert(!is_layout(s[0]));
        assert forall|k: int| 0 <= k < s.drop_first().len() implies !(|c: char| is_layout(c))(
            #[trigger] s.drop_first()[k],
        ) by {
            assert(s.drop_first()[k] == s[k + 1]);
        }
        lemma_strip_plain(s.drop_first());
        assert(seq![s[0]] + s.drop_first() =~= s);
    }
}

/// `indent(n)` is `2n` spaces.
proof fn lemma_indent_spaces(n: nat)
    ensures
        indent(n) == Seq::new(2 * n, |k: int| ' '),
    decreases n,
{
    reveal_strlit("  ");
    if n > 0 {
        lemma_indent_spaces((n - 1) as nat);
        assert(indent(n) =~= Seq::new(2 * n, |k: int| ' '));
    } else {
        assert(indent(n) =~= Seq::new(2 * n, |k: int| ' '));
    }
}

/// Indentation is spaces only: untouched by `indent_lines`, removed by
/// `strip_layout`, and one level more is two spaces in front.
proof fn lemma_indent_facts(n: nat)
    ensures
        indent_lines(indent(n)) == indent(n),
        strip_layout(indent(n)) == Seq::<char>::empty(),
        "  "@ + indent(n) == indent(n + 1),
    decreases n,
{
    reveal_strlit("  ");
    lemma_indent_spaces(n);
    lemma_indent_spaces(n + 1);
    assert("  "@ + indent(n) =~= indent(n + 1));
    assert(text_avoids(indent(n), |c: char| is_line_feed(c)));
    lemma_indent_lines_plain(indent(n));
    if n > 0 {
        lemma_indent_facts((n - 1) as nat);
        lemma_strip_concat(indent((n - 1) as nat), "  "@);
        assert("  "@ =~= seq![' '] + seq![' ']);
        lemma_strip_concat(seq![' '], seq![' ']);
        lemma_strip_char(' ');
        assert(strip_layout("  "@) =~= Seq::<char>::empty());
    } else {
        assert(indent(n) =~= Seq::<char>::empty());
    }
}

/// The text of a scalar avoids a line feed if its number or string does.
proof fn lemma_scalar_plain(j: Json, bad: spec_fn(char) -> bool)
    requires
        !(j is Array),
        !(j is Object),
        texts_avoid(j, bad),
        !bad('n') && !bad('u') && !bad('l') && !bad('t') && !bad('r') && !bad('e') && !bad('f')
            && !bad('a') && !bad('s') && !bad('"'),
    ensures
        text_avoids(compact(j), bad),
{
    reveal_strlit("null");
    reveal_strlit("true");
    reveal_strlit("false");
    match j {
        Json::Str(s) => {
            assert forall|k: int| 0 <= k < quoted(s).len() implies !bad(#[trigger] quoted(s)[k]) by {
                if 0 < k < quoted(s).len() - 1 {
                    assert(quoted(s)[k] == s[k - 1]);
                }
            }
        },
        Json::Bool(b) => {
            assert(bool_text(b) == (if b { "true"@ } else { "false"@ }));
        },
        _ => {},
    }
}

/// One level deeper, the indented text of a document is the same text with
/// two more spaces after every line feed (when no string, key or number
/// holds a line feed).
pub proof fn lemma_pretty_deeper(j: Json, depth: nat)
    requires
        texts_avoid(j, |c: char| is_line_feed(c)),
    ensures
        pretty(j, depth + 1) == indent_lines(pretty(j, depth)),
    decreases j, 3int,
{
    match j {
        Json::Array(_) => lemma_pretty_deeper_array(j, depth),
        Json::Object(_) => lemma_pretty_deeper_object(j, depth),
        _ => {
            lemma_scalar_plain(j, |c: char| is_line_feed(c));
            lemma_indent_lines_plain(compact(j));
        },
    }
}

proof fn lemma_pretty_deeper_array(j: Json, depth: nat)
    requires
        j is Array,
        texts_avoid(j, |c: char| is_line_feed(c)),
    ensures
        pretty(j, depth + 1) == indent_lines(pretty(j, depth)),
    decreases j, 2int,
{
    reveal_strlit("[]");
    reveal_strlit("[\n");
    reveal_strlit("\n");
    let items = j->Array_0;
    if items.len() == 0 {
        assert(text_avoids("[]"@, |c: char| is_line_feed(c)));
        lemma_indent_lines_plain("[]"@);
    } else {
        let inner = pretty_elements(items, depth + 1);
        let tail = indent(depth) + seq![']'];
        assert(pretty(j, depth) =~= seq!['[', '\n'] + (inner + (seq!['\n'] + tail)));
        lemma_indent_lines_concat(seq!['[', '\n'], inner + (seq!['\n'] + tail));
        lemma_indent_lines_concat(inner, seq!['\n'] + tail);
        lemma_indent_lines_concat(seq!['\n'], tail);
        lemma_indent_lines_concat(indent(depth), seq![']']);
        lemma_indent_facts(depth);
        lemma_indent_facts(depth + 1);
        assert(seq!['[', '\n'] =~= seq!['['] + seq!['\n']);
        lemma_indent_lines_concat(seq!['['], seq!['\n']);
        lemma_indent_lines_char('[');
        lemma_indent_lines_char('\n');
        lemma_indent_lines_char(']');
        assert(indent_lines(seq!['[', '\n']) =~= seq!['[', '\n', ' ', ' ']);
        lemma_pretty_deeper_elements(items, depth + 1);
        assert(pretty(j, depth + 1) =~= seq!['[', '\n'] + (pretty_elements(items, depth + 2) + (seq!['\n'] + (indent(
            depth + 1,
        ) + seq![']']))));
        assert(indent_lines(tail) == indent(depth) + seq![']']);
        assert(indent_lines(pretty(j, depth)) == seq!['[', '\n', ' ', ' '] + (indent_lines(inner)
            + (seq!['\n', ' ', ' '] + (indent(depth) + seq![']']))));
        reveal_strlit("  ");
        assert("  "@ =~= seq![' ', ' ']);
        assert(pretty_elements(items, depth + 2) == seq![' ', ' '] + indent_lines(inner));
        assert(indent(depth + 1) == seq![' ', ' '] + indent(depth));
        assert(pretty(j, depth + 1) =~= indent_lines(pretty(j, depth)));
    }
}

proof fn lemma_pretty_deeper_object(j: Json, depth: nat)
    requires
        j is Object,
        texts_avoid(j, |c: char| is_line_feed(c)),
    ensures
        pretty(j, depth + 1) == indent_lines(pretty(j, depth)),
    decreases j, 2int,
{
    reveal_strlit("{}");
    reveal_strlit("{\n");
    reveal_strlit("\n");
    let m = j->Object_0;
    if m.len() == 0 {
        assert(text_avoids("{}"@, |c: char| is_line_feed(c)));
        lemma_indent_lines_plain("{}"@);
    } else {
        let inner = pretty_members(m, depth + 1);
        let tail = indent(depth) + seq!['}'];
        assert(pretty(j, depth) =~= seq!['{', '\n'] + (inner + (seq!['\n'] + tail)));
        lemma_indent_lines_concat(seq!['{', '\n'], inner + (seq!['\n'] + tail));
        lemma_indent_lines_concat(inner, seq!['\n'] + tail);
        lemma_indent_lines_concat(seq!['\n'], tail);
        lemma_indent_lines_concat(indent(depth), seq!['}']);
        lemma_indent_facts(depth);
        lemma_indent_facts(depth + 1);
        assert(seq!['{', '\n'] =~= seq!['{'] + seq!['\n']);
        lemma_indent_lines_concat(seq!['{'], seq!['\n']);
        lemma_indent_lines_char('{');
        lemma_indent_lines_char('\n');
        lemma_indent_lines_char('}');
        assert(indent_lines(seq!['{', '\n']) =~= seq!['{', '\n', ' ', ' ']);
        lemma_pretty_deeper_members(m, depth + 1);
        assert(pretty(j, depth + 1) =~= seq!['{', '\n'] + (pretty_members(m, depth + 2) + (seq!['\n'] + (indent(
            depth + 1,
        ) + seq!['}']))));
        assert(indent_lines(tail) == indent(depth) + seq!['}']);
        assert(indent_lines(pretty(j, depth)) == seq!['{', '\n', ' ', ' '] + (indent_lines(inner)
            + (seq!['\n', ' ', ' '] + (indent(depth) + seq!['}']))));
        reveal_strlit("  ");
        assert("  "@ =~= seq![' ', ' ']);
        assert(pretty_members(m, depth + 2) == seq![' ', ' '] + indent_lines(inner));
        assert(indent(depth + 1) == seq![' ', ' '] + indent(depth));
        assert(pretty(j, depth + 1) =~= indent_lines(pretty(j, depth)));
    }
}

proof fn lemma_pretty_deeper_elements(items: Seq<Json>, depth: nat)
    requires
        items.len() > 0,
        texts_avoid_elements(items, |c: char| is_line_feed(c)),
    ensures
        pretty_elements(items, depth + 1) == "  "@ + indent_lines(pretty_elements(items, depth)),
    decreases items, 1int,
{
    reveal_strlit(",\n");
    let first = pretty(items[0], depth);
    lemma_indent_facts(depth);
    lemma_pretty_deeper(items[0], depth);
    lemma_indent_lines_concat(indent(depth), first);
    if items.len() == 1 {
        assert(pretty_elements(items, depth) == indent(depth) + first);
        assert(pretty_elements(items, depth + 1) =~= "  "@ + indent_lines(pretty_elements(items, depth)));
    } else {
        let rest = pretty_elements(items.drop_first(), depth);
        assert(pretty_elements(items, depth) =~= (indent(depth) + first) + (seq![','] + (seq!['\n']
            + rest)));
        lemma_indent_lines_concat(indent(depth) + first, seq![','] + (seq!['\n'] + rest));
        lemma_indent_lines_concat(seq![','], seq!['\n'] + rest);
        lemma_indent_lines_concat(seq!['\n'], rest);
        lemma_indent_lines_char(',');
        lemma_indent_lines_char('\n');
        lemma_pretty_deeper_elements(items.drop_first(), depth);
        reveal_strlit("  ");
        assert(pretty_elements(items, depth + 1) =~= "  "@ + indent_lines(pretty_elements(items, depth)));
    }
}

proof fn lemma_pretty_deeper_members(m: Seq<(Seq<char>, Json)>, depth: nat)
    requires
        m.len() > 0,
        texts_avoid_members(m, |c: char| is_line_feed(c)),
    ensures
        pretty_members(m, depth + 1) == "  "@ + indent_lines(pretty_members(m, depth)),
    decreases m, 1int,
{
    reveal_strlit(",\n");
    reveal_strlit(": ");
    let key = quoted(m[0].0);
    let val = pretty(m[0].1, depth);
    lemma_indent_facts(depth);
    lemma_pretty_deeper(m[0].1, depth);
    lemma_scalar_plain(Json::Str(m[0].0), |c: char| is_line_feed(c));
    lemma_indent_lines_plain(key);
    assert(text_avoids(": "@, |c: char| is_line_feed(c)));
    lemma_indent_lines_plain(": "@);
    let head = indent(depth) + key + ": "@ + val;
    lemma_indent_lines_concat(indent(depth) + key + ": "@, val);
    lemma_indent_lines_concat(indent(depth) + key, ": "@);
    lemma_indent_lines_concat(indent(depth), key);
    if m.len() == 1 {
        assert(pretty_members(m, depth) == head);
        assert(pretty_members(m, depth + 1) =~= "  "@ + indent_lines(pretty_members(m, depth)));
    } else {
        let rest = pretty_members(m.drop_first(), depth);
        assert(pretty_members(m, depth) =~= head + (seq![','] + (seq!['\n'] + rest)));
        lemma_indent_lines_concat(head, seq![','] + (seq!['\n'] + rest));
        lemma_indent_lines_concat(seq![','], seq!['\n'] + rest);
        lemma_indent_lines_concat(seq!['\n'], rest);
        lemma_indent_lines_char(',');
        lemma_indent_lines_char('\n');
        lemma_pretty_deeper_members(m.drop_first(), depth);
        reveal_strlit("  ");
        assert(pretty_members(m, depth + 1) =~= "  "@ + indent_lines(pretty_members(m, depth)));
    }
}

/// The indented text with its spaces and line feeds removed is the compact
/// text (when no string, key or number holds a space or a line feed).
pub proof fn lemma_pretty_strips_to_compact(j: Json, depth: nat)
    requires
        texts_avoid(j, |c: char| is_layout(c)),
    ensures
        strip_layout(pretty(j, depth)) == compact(j),
    decreases j, 3int,
{
    match j {
        Json::Array(_) => lemma_strip_array(j, depth),
        Json::Object(_) => lemma_strip_object(j, depth),
        _ => {
            lemma_scalar_plain(j, |c: char| is_layout(c));
            lemma_strip_plain(compact(j));
        },
    }
}

/// Stripping the brackets and line feeds around some inner text.
proof fn lemma_strip_frame(open_: char, close: char, inner: Seq<char>, depth: nat)
    requires
        open_ != ' ' && open_ != '\n' && close != ' ' && close != '\n',
    ensures
        strip_layout(seq![open_, '\n'] + (inner + (seq!['\n'] + (indent(depth) + seq![close]))))
            == seq![open_] + strip_layout(inner) + seq![close],
{
    let tail = indent(depth) + seq![close];
    lemma_strip_concat(seq![open_, '\n'], inner + (seq!['\n'] + tail));
    lemma_strip_concat(inner, seq!['\n'] + tail);
    lemma_strip_concat(seq!['\n'], tail);
    lemma_strip_concat(indent(depth), seq![close]);
    assert(seq![open_, '\n'] =~= seq![open_] + seq!['\n']);
    lemma_strip_concat(seq![open_], seq!['\n']);
    lemma_strip_char(open_);
    lemma_strip_char('\n');
    lemma_strip_char(close);
    lemma_indent_facts(depth);
    assert(strip_layout(seq![open_, '\n'] + (inner + (seq!['\n'] + tail))) =~= seq![open_]
        + strip_layout(inner) + seq![close]);
}

proof fn lemma_strip_array(j: Json, depth: nat)
    requires
        j is Array,
        texts_avoid(j, |c: char| is_layout(c)),
    ensures
        strip_layout(pretty(j, depth)) == compact(j),
    decreases j, 2int,
{
    reveal_strlit("[]");
    reveal_strlit("[\n");
    reveal_strlit("\n");
    let items = j->Array_0;
    if items.len() == 0 {
        assert("[]"@ =~= seq!['['] + seq![']']);
        lemma_strip_concat(seq!['['], seq![']']);
        lemma_strip_char('[');
        lemma_strip_char(']');
        assert(compact(j) =~= strip_layout(pretty(j, depth)));
    } else {
        let inner = pretty_elements(items, depth + 1);
        assert(pretty(j, depth) =~= seq!['[', '\n'] + (inner + (seq!['\n'] + (indent(depth) + seq![
            ']',
        ]))));
        lemma_strip_frame('[', ']', inner, depth);
        lemma_strip_elements(items, depth + 1);
    }
}

proof fn lemma_strip_object(j: Json, depth: nat)
    requires
        j is Object,
        texts_avoid(j, |c: char| is_layout(c)),
    ensures
        strip_layout(pretty(j, depth)) == compact(j),
    decreases j, 2int,
{
    reveal_strlit("{}");
    reveal_strlit("{\n");
    reveal_strlit("\n");
    let m = j->Object_0;
    if m.len() == 0 {
        assert("{}"@ =~= seq!['{'] + seq!['}']);
        lemma_strip_concat(seq!['{'], seq!['}']);
        lemma_strip_char('{');
        lemma_strip_char('}');
        assert(compact(j) =~= strip_layout(pretty(j, depth)));
    } else {
        let inner = pretty_members(m, depth + 1);
        assert(pretty(j, depth) =~= seq!['{', '\n'] + (inner + (seq!['\n'] + (indent(depth) + seq![
            '}',
        ]))));
        lemma_strip_frame('{', '}', inner, depth);
        lemma_strip_members(m, depth + 1);
    }
}

proof fn lemma_strip_elements(items: Seq<Json>, depth: nat)
    requires
        items.len() > 0,
        texts_avoid_elements(items, |c: char| is_layout(c)),
    ensures
        strip_layout(pretty_elements(items, depth)) == compact_elements(items),
    decreases items, 1int,
{
    reveal_strlit(",\n");
    let first = pretty(items[0], depth);
    lemma_indent_facts(depth);
    lemma_pretty_strips_to_compact(items[0], depth);
    lemma_strip_concat(indent(depth), first);
    assert(Seq::<char>::empty() + compact(items[0]) =~= compact(items[0]));
    if items.len() > 1 {
        let rest = pretty_elements(items.drop_first(), depth);
        assert(pretty_elements(items, depth) =~= (indent(depth) + first) + (seq![','] + (seq!['\n']
            + rest)));
        lemma_strip_concat(indent(depth) + first, seq![','] + (seq!['\n'] + rest));
        lemma_strip_concat(seq![','], seq!['\n'] + rest);
        lemma_strip_concat(seq!['\n'], rest);
        lemma_strip_char(',');
        lemma_strip_char('\n');
        lemma_strip_elements(items.drop_first(), depth);
        assert(Seq::<char>::empty() + compact_elements(items.drop_first()) =~= compact_elements(
            items.drop_first(),
        ));
        assert(strip_layout(pretty_elements(items, depth)) =~= compact_elements(items));
    }
}

proof fn lemma_strip_members(m: Seq<(Seq<char>, Json)>, depth: nat)
    requires
        m.len() > 0,
        texts_avoid_members(m, |c: char| is_layout(c)),
    ensures
        strip_layout(pretty_members(m, depth)) == compact_members(m),
    decreases m, 1int,
{
    reveal_strlit(",\n");
    reveal_strlit(": ");
    let key = quoted(m[0].0);
    let val = pretty(m[0].1, depth);
    lemma_indent_facts(depth);
    lemma_pretty_strips_to_compact(m[0].1, depth);
    lemma_scalar_plain(Json::Str(m[0].0), |c: char| is_layout(c));
    lemma_strip_plain(key);
    assert(": "@ =~= seq![':'] + seq![' ']);
    lemma_strip_concat(seq![':'], seq![' ']);
    lemma_strip_char(':');
    lemma_strip_char(' ');
    let head = indent(depth) + key + ": "@ + val;
    lemma_strip_concat(indent(depth) + key + ": "@, val);
    lemma_strip_concat(indent(depth) + key, ": "@);
    lemma_strip_concat(indent(depth), key);
    assert(strip_layout(head) =~= key + seq![':'] + compact(m[0].1));
    if m.len() > 1 {
        let rest = pretty_members(m.drop_first(), depth);
        assert(pretty_members(m, depth) =~= head + (seq![','] + (seq!['\n'] + rest)));
        lemma_strip_concat(head, seq![','] + (seq!['\n'] + rest));
        lemma_strip_concat(seq![','], seq!['\n'] + rest);
        lemma_strip_concat(seq!['\n'], rest);
        lemma_strip_char(',');
        lemma_strip_char('\n');
        lemma_strip_members(m.drop_first(), depth);
        assert(strip_layout(pretty_members(m, depth)) =~= compact_members(m));
    }
}

} // verus!
