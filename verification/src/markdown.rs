//! A small Markdown-to-HTML converter: `#`, `##` and `###` headings, and
//! paragraphs in which `**` turns into `<b>`.

use vstd::prelude::*;
use crate::text::{
    lemma_trim_idempotent, trim, starts_with, lines, lines_from, line_end, lemma_line_end,
    find_line_end, trim_bounds, has_prefix, chars_of, push_char,
};

verus! {

/// `s` with every occurrence of `pat` replaced by `rep`, matches taken left
/// to right without overlap, as `str::replace` does (for a non-empty `pat`).
pub open spec fn replace_all(s: Seq<char>, pat: Seq<char>, rep: Seq<char>) -> Seq<char>
    decreases s.len(),
{
    if pat.len() == 0 || s.len() < pat.len() {
        s
    } else if s.take(pat.len() as int) == pat {
        rep + replace_all(s.skip(pat.len() as int), pat, rep)
    } else {
        seq![s[0]] + replace_all(s.drop_first(), pat, rep)
    }
}

/// The paragraph text of a line: `**` becomes `<b>`; the later replacement
/// of `**` by `</b>` is applied as well (and finds nothing left to replace).
pub open spec fn paragraph_text(t: Seq<char>) -> Seq<char> {
    replace_all(replace_all(t, "**"@, "<b>"@), "**"@, "</b>"@)
}

/// The HTML for one input line, given its trimmed text `t`.
pub open spec fn line_html(line: Seq<char>) -> Seq<char> {
    let t = trim(line);
    if starts_with(t, "# "@) {
        "<h1>"@ + t.skip(2) + "</h1>\n"@
    } else if starts_with(t, "## "@) {
        "<h2>"@ + t.skip(2) + "</h2>\n"@
    } else if starts_with(t, "### "@) {
        "<h3>"@ + t.skip(2) + "</h3>\n"@
    } else if t.len() == 0 {
        Seq::empty()
    } else {
        "<p>"@ + paragraph_text(t) + "</p>\n"@
    }
}

/// The HTML of a sequence of lines, one after the other.
pub open spec fn lines_html(ls: Seq<Seq<char>>) -> Seq<char>
    decreases ls.len(),
{
    if ls.len() == 0 {
        Seq::empty()
    } else {
        line_html(ls[0]) + lines_html(ls.drop_first())
    }
}

/// The text before the converted lines.
pub open spec fn page_head() -> Seq<char> {
    "<!DOCTYPE html>\n<html>\n<head>\n    <title>Document</title>\n</head>\n<body>\n"@
}

/// The text after the converted lines.
pub open spec fn page_tail() -> Seq<char> {
    "\n</body>\n</html>"@
}

/// The complete page for a Markdown text.
pub open spec fn page(markdown: Seq<char>) -> Seq<char> {
    page_head() + lines_html(lines(markdown)) + page_tail()
}

/// Replace every `**` in `s` by `rep`.
fn replace_stars(s: &Vec<char>, rep: &str) -> (r: Vec<char>)
    ensures
        r@ == replace_all(s@, "**"@, rep@),
{
    proof {
        reveal_strlit("**");
    }
    let rep_chars = chars_of(rep);
    let mut out: Vec<char> = Vec::new();
    let mut i: usize = 0;
    assert(s@.skip(0) =~= s@);
    assert(out@ + replace_all(s@, "**"@, rep@) =~= replace_all(s@, "**"@, rep@));
    while i < s.len()
        invariant
            i <= s@.len(),
            rep_chars@ == rep@,
            "**"@ == seq!['*', '*'],
            out@ + replace_all(s@.skip(i as int), "**"@, rep@) == replace_all(s@, "**"@, rep@),
        decreases s@.len() - i,
    {
        let ghost rest = s@.skip(i as int);
        if i + 1 < s.len() && s[i] == '*' && s[i + 1] == '*' {
            assert(rest.take(2) =~= seq!['*', '*']);
            assert(rest.skip(2) =~= s@.skip(i + 2));
            let mut k: usize = 0;
            let ghost before = out@;
            while k < rep_chars.len()
                invariant
                    k <= rep_chars@.len(),
                    out@ == before + rep_chars@.take(k as int),
                decreases rep_chars@.len() - k,
            {
                out.push(rep_chars[k]);
                assert(rep_chars@.take(k + 1) =~= rep_chars@.take(k as int).push(rep_chars@[k as int]));
                k = k + 1;
            }
            assert(rep_chars@.take(rep_chars@.len() as int) =~= rep_chars@);
            assert(out@ + replace_all(s@.skip(i + 2), "**"@, rep@) =~= before + (rep@ + replace_all(
                rest.skip(2),
                "**"@,
                rep@,
            )));
            i = i + 2;
        } else {
            if i + 1 < s.len() {
                assert(rest.take(2) != seq!['*', '*']) by {
                    if rest.take(2) == seq!['*', '*'] {
                        assert(rest.take(2)[0] == s@[i as int]);
                        assert(rest.take(2)[1] == s@[i + 1]);
                    }
                }
            }
            assert(rest.drop_first() =~= s@.skip(i + 1));
            let ghost before = out@;
            out.push(s[i]);
            assert(out@ + replace_all(s@.skip(i + 1), "**"@, rep@) =~= before + (seq![rest[0]]
                + replace_all(rest.drop_first(), "**"@, rep@)));
            i = i + 1;
        }
    }
    assert(s@.skip(s@.len() as int) =~= Seq::<char>::empty());
    assert(out@ + Seq::<char>::empty() =~= out@);
    out
}

/// Append the characters of `chars[from..to]` to `out`.
fn append_range(out: &mut String, chars: &Vec<char>, from: usize, to: usize)
    requires
        from <= to <= chars@.len(),
    ensures
        final(out)@ == old(out)@ + chars@.subrange(from as int, to as int),
{
    let mut k = from;
    while k < to
        invariant
            from <= k <= to <= chars@.len(),
            out@ == old(out)@ + chars@.subrange(from as int, k as int),
        decreases to - k,
    {
        push_char(out, chars[k]);
        assert(chars@.subrange(from as int, k + 1) =~= chars@.subrange(from as int, k as int).push(
            chars@[k as int],
        ));
        k = k + 1;
    }
}

/// Append the HTML of the line `chars[start..end]` to `html`.
fn append_line_html(html: &mut String, chars: &Vec<char>, start: usize, end: usize)
    requires
        start <= end <= chars@.len(),
    ensures
        final(html)@ == old(html)@ + line_html(chars@.subrange(start as int, end as int)),
{
    let ghost t = trim(chars@.subrange(start as int, end as int));
    let (a, b) = trim_bounds(chars, start, end);
    proof {
        reveal_strlit("# ");
        reveal_strlit("## ");
        reveal_strlit("### ");
        reveal_strlit("<h1>");
        reveal_strlit("</h1>\n");
    }
    if has_prefix(chars, a, b, "# ") {
        html.append("<h1>");
        append_range(html, chars, a + 2, b);
        html.append("</h1>\n");
        assert(t.skip(2) =~= chars@.subrange(a + 2, b as int));
    } else if has_prefix(chars, a, b, "## ") {
        html.append("<h2>");
        append_range(html, chars, a + 2, b);
        html.append("</h2>\n");
        assert(t.skip(2) =~= chars@.subrange(a + 2, b as int));
    } else if has_prefix(chars, a, b, "### ") {
        html.append("<h3>");
        append_range(html, chars, a + 2, b);
        html.append("</h3>\n");
        assert(t.skip(2) =~= chars@.subrange(a + 2, b as int));
    } else if a == b {
        assert(html@ =~= old(html)@ + Seq::<char>::empty());
    } else {
        let mut trimmed: Vec<char> = Vec::new();
        let mut k = a;
        while k < b
            invariant
                a <= k <= b <= chars@.len(),
                trimmed@ == chars@.subrange(a as int, k as int),
            decreases b - k,
        {
            trimmed.push(chars[k]);
            assert(chars@.subrange(a as int, k + 1) =~= chars@.subrange(a as int, k as int).push(
                chars@[k as int],
            ));
            k = k + 1;
        }
        let bold = replace_stars(&trimmed, "<b>");
        let content = replace_stars(&bold, "</b>");
        html.append("<p>");
        let len = content.len();
        append_range(html, &content, 0, len);
        assert(content@.subrange(0, len as int) =~= content@);
        html.append("</p>\n");
    }
}

/// Convert Markdown text to a complete HTML page: each line (see
/// `text::lines`) is trimmed; `# `, `## ` and `### ` lines become headings,
/// blank lines vanish, and other lines become paragraphs.
pub fn markdown_to_html(markdown: &str) -> (html: String)
    ensures
        html@ == page(markdown@),
{
    let chars = chars_of(markdown);
    let mut body = String::new();
    let mut start: usize = 0;
    while start < chars.len()
        invariant
            chars@ == markdown@,
            start <= chars@.len(),
            body@ + lines_html(lines_from(chars@, start as int)) == lines_html(lines(chars@)),
        decreases chars@.len() - start,
    {
        let ghost before = body@;
        let (end, next) = find_line_end(&chars, start);
        append_line_html(&mut body, &chars, start, end);
        proof {
            lemma_line_end(chars@, start as int);
            let ls = lines_from(chars@, start as int);
            assert(ls[0] == chars@.subrange(start as int, end as int)) by {
                let e = line_end(chars@, start as int);
                let raw = chars@.subrange(start as int, e);
                if e < chars@.len() && raw.len() > 0 && raw.last() == '\r' {
                    assert(raw.drop_last() =~= chars@.subrange(start as int, end as int));
                }
            }
            assert(ls.drop_first() =~= lines_from(chars@, next as int));
            assert(body@ + lines_html(lines_from(chars@, next as int)) =~= before + lines_html(ls));
        }
        start = next;
    }
    let mut html = String::new();
    html.append("<!DOCTYPE html>\n<html>\n<head>\n    <title>Document</title>\n</head>\n<body>\n");
    html.append(body.as_str());
    html.append("\n</body>\n</html>");
    assert(lines_html(lines_from(chars@, start as int)) =~= Seq::<char>::empty());
    assert(body@ + Seq::<char>::empty() =~= body@);
    html
}

/// No two stars stand next to each other in `s`.
pub open spec fn no_double_star(s: Seq<char>) -> bool {
    forall|k: int| 0 <= k < s.len() - 1 ==> !(#[trigger] s[k] == '*' && s[k + 1] == '*')
}

/// After `**` has been replaced by `<b>`, no `**` is left, and the result
/// starts with a star only where `s` starts with a lone star.
proof fn lemma_replace_leaves_no_double_star(s: Seq<char>)
    ensures
        no_double_star(replace_all(s, "**"@, "<b>"@)),
        ({
            let r = replace_all(s, "**"@, "<b>"@);
            r.len() > 0 && r[0] == '*' ==> s.len() > 0 && s[0] == '*' && !(s.len() >= 2 && s[1]
                == '*')
        }),
    decreases s.len(),
{
    reveal_strlit("**");
    reveal_strlit("<b>");
    let r = replace_all(s, "**"@, "<b>"@);
    if s.len() < 2 {
    } else if s.take(2) == "**"@ {
        let rest = replace_all(s.skip(2), "**"@, "<b>"@);
        lemma_replace_leaves_no_double_star(s.skip(2));
        assert(r == "<b>"@ + rest);
        assert forall|k: int| 0 <= k < r.len() - 1 implies !(#[trigger] r[k] == '*' && r[k + 1]
            == '*') by {
            if k >= 3 {
                assert(r[k] == rest[k - 3]);
                assert(r[k + 1] == rest[k - 2]);
            }
        }
    } else {
        let rest = replace_all(s.drop_first(), "**"@, "<b>"@);
        lemma_replace_leaves_no_double_star(s.drop_first());
        assert(r == seq![s[0]] + rest);
        if s[0] == '*' && s[1] == '*' {
            assert(s.take(2) =~= "**"@);
        }
        assert forall|k: int| 0 <= k < r.len() - 1 implies !(#[trigger] r[k] == '*' && r[k + 1]
            == '*') by {
            if k >= 1 {
                assert(r[k] == rest[k - 1]);
                assert(r[k + 1] == rest[k]);
            }
        }
    }
}

/// A text without `**` is left as it is by replacing `**`.
proof fn lemma_replace_without_match(s: Seq<char>, rep: Seq<char>)
    requires
        no_double_star(s),
    ensures
        replace_all(s, "**"@, rep) == s,
    decreases s.len(),
{
    reveal_strlit("**");
    if s.len() >= 2 {
        assert(s.take(2) != "**"@) by {
            assert(!(s[0] == '*' && s[1] == '*'));
            if s.take(2) == "**"@ {
                assert(s.take(2)[0] == "**"@[0]);
                assert(s.take(2)[1] == "**"@[1]);
            }
        }
        assert forall|k: int| 0 <= k < s.drop_first().len() - 1 implies !(
        #[trigger] s.drop_first()[k] == '*' && s.drop_first()[k + 1] == '*') by {
            assert(s.drop_first()[k] == s[k + 1]);
            assert(s.drop_first()[k + 1] == s[k + 2]);
        }
        lemma_replace_without_match(s.drop_first(), rep);
        assert(seq![s[0]] + s.drop_first() =~= s);
    }
}

/// A paragraph's `**` markers all open bold text: the second replacement,
/// meant to close it with `</b>`, never finds anything to replace.
pub proof fn lemma_paragraph_bold_never_closes(t: Seq<char>)
    ensures
        paragraph_text(t) == replace_all(t, "**"@, "<b>"@),
{
    lemma_replace_leaves_no_double_star(t);
    lemma_replace_without_match(replace_all(t, "**"@, "<b>"@), "</b>"@);
}

/// A line is converted from its text without surrounding white space: a
/// line and the same line trimmed give the same HTML.
pub proof fn lemma_line_html_ignores_padding(line: Seq<char>)
    ensures
        line_html(line) == line_html(trim(line)),
{
    lemma_trim_idempotent(line);
}

/// What a line becomes, by the start of its trimmed text `t`: nothing for
/// a blank line; `<h1>`, `<h2>` or `<h3>` around the text after the first
/// two characters for `# `, `## ` and `### `; otherwise a paragraph.
pub proof fn lemma_line_kinds(line: Seq<char>)
    ensures
        trim(line).len() == 0 ==> line_html(line).len() == 0,
        starts_with(trim(line), "# "@) ==> line_html(line) == "<h1>"@ + trim(line).skip(2)
            + "</h1>\n"@,
        starts_with(trim(line), "## "@) ==> line_html(line) == "<h2>"@ + trim(line).skip(2)
            + "</h2>\n"@,
        starts_with(trim(line), "### "@) ==> line_html(line) == "<h3>"@ + trim(line).skip(2)
            + "</h3>\n"@,
        trim(line).len() > 0 && trim(line)[0] != '#' ==> line_html(line) == "<p>"@
            + paragraph_text(trim(line)) + "</p>\n"@,
{
    reveal_strlit("# ");
    reveal_strlit("## ");
    reveal_strlit("### ");
    let t = trim(line);
    if starts_with(t, "## "@) {
        assert(t.take(2)[1] == '#');
        assert(!starts_with(t, "# "@));
    }
    if starts_with(t, "### "@) {
        assert(t.take(3)[1] == '#');
        assert(t.take(2)[1] == '#');
        assert(!starts_with(t, "# "@));
        assert(t.take(3)[2] == '#');
        assert(!starts_with(t, "## "@));
    }
    if t.len() > 0 && t[0] != '#' {
        if starts_with(t, "# "@) {
            assert(t.take(2)[0] == '#');
        }
        if starts_with(t, "## "@) {
            assert(t.take(3)[0] == '#');
        }
        if starts_with(t, "### "@) {
            assert(t.take(4)[0] == '#');
        }
    }
}

} // verus!
