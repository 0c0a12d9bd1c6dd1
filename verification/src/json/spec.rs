use vstd::prelude::*;
use crate::text::is_white_space;

verus! {

// ---------------------------------------------------------------------------
// Documents and tokens
// ---------------------------------------------------------------------------

/// A JSON document. A number is kept as its source text; an object is the
/// list of its members in insertion order.
pub enum Json {
    Null,
    Bool(bool),
    Number(Seq<char>),
    Str(Seq<char>),
    Array(Seq<Json>),
    Object(Seq<(Seq<char>, Json)>),
}

/// A lexical token. A number token carries its source text.
pub enum Tok {
    LBrace,
    RBrace,
    LBracket,
    RBracket,
    Colon,
    Comma,
    Str(Seq<char>),
    Num(Seq<char>),
    Bool(bool),
    Null,
}

/// What the parser found where it expected something else: a token, or (when
/// a key is not followed by a colon) the token after the one that should
/// have been the colon, if there is one.
pub enum Found {
    Token(Tok),
    Next(Option<Tok>),
}

/// Why a token sequence is not a document.
pub enum JsonError {
    /// An unexpected token, with the parser's token position after reading it.
    Unexpected(Found, int),
    /// The tokens ran out.
    Eof,
}

// ---------------------------------------------------------------------------
// Numbers
// ---------------------------------------------------------------------------

/// Characters a number token may span.
pub open spec fn is_number_char(c: char) -> bool {
    ('0' <= c <= '9') || c == '.' || c == 'e' || c == 'E' || c == '+' || c == '-'
}

/// Characters that start a number token.
pub open spec fn starts_number(c: char) -> bool {
    ('0' <= c <= '9') || c == '-'
}

/// An ASCII decimal digit.
pub open spec fn is_digit(c: char) -> bool {
    '0' <= c <= '9'
}

/// Number of leading decimal digits of `s`.
pub open spec fn digit_run(s: Seq<char>) -> nat
    decreases s.len(),
{
    if s.len() > 0 && is_digit(s[0]) {
        1 + digit_run(s.drop_first())
    } else {
        0
    }
}

/// `Digit+` (the exponent's digits).
pub open spec fn all_digits(s: Seq<char>) -> bool {
    s.len() > 0 && digit_run(s) == s.len()
}

/// `Exp ::= [eE] Sign? Digit+`
pub open spec fn valid_exponent(s: Seq<char>) -> bool {
    s.len() > 0 && (s[0] == 'e' || s[0] == 'E') && {
        let t = s.drop_first();
        if t.len() > 0 && (t[0] == '+' || t[0] == '-') {
            all_digits(t.drop_first())
        } else {
            all_digits(t)
        }
    }
}

/// `Number ::= ( Digit+ | Digit+ '.' Digit* | Digit* '.' Digit+ ) Exp?`
pub open spec fn valid_decimal(s: Seq<char>) -> bool {
    let a = digit_run(s);
    let rest = s.skip(a as int);
    if rest.len() > 0 && rest[0] == '.' {
        let frac = rest.drop_first();
        let b = digit_run(frac);
        (a > 0 || b > 0) && (b == frac.len() || valid_exponent(frac.skip(b as int)))
    } else {
        a > 0 && (rest.len() == 0 || valid_exponent(rest))
    }
}

/// The decimal-literal grammar that `str::parse::<f64>` accepts, restricted to
/// the characters a number token can hold (so `inf` and `nan` cannot occur):
/// `Sign? Number`.
pub open spec fn valid_float(s: Seq<char>) -> bool {
    if s.len() > 0 && (s[0] == '+' || s[0] == '-') {
        valid_decimal(s.drop_first())
    } else {
        valid_decimal(s)
    }
}

// ---------------------------------------------------------------------------
// Lexing
// ---------------------------------------------------------------------------
//
// A lexer reads a *source*: `at(p)` is the character it sees at position
// `p`, or `None`; positions at or past `limit` see `None`. Reading a
// character always advances the position by one.

/// First position at or after `p` that does not hold white space.
pub open spec fn skip_ws(at: spec_fn(int) -> Option<char>, limit: int, p: int) -> int
    decreases limit - p,
{
    if p < limit && at(p) is Some && is_white_space(at(p)->0) {
        skip_ws(at, limit, p + 1)
    } else {
        p
    }
}

/// Reading the rest of keyword `kw` from its `k`-th character at `p`.
pub open spec fn lex_keyword(
    at: spec_fn(int) -> Option<char>,
    kw: Seq<char>,
    k: int,
    p: int,
    tok: Tok,
) -> (Option<Tok>, int)
    decreases kw.len() - k,
{
    if k >= kw.len() {
        (Some(tok), p)
    } else if at(p) is Some && at(p)->0 == kw[k] {
        lex_keyword(at, kw, k + 1, p + 1, tok)
    } else {
        (None, p + 1)
    }
}

/// Reading the rest of a number whose characters so far are `text`.
pub open spec fn lex_number(at: spec_fn(int) -> Option<char>, limit: int, p: int, text: Seq<char>) -> (
    Option<Tok>,
    int,
)
    decreases limit - p,
{
    if p < limit && at(p) is Some && is_number_char(at(p)->0) {
        lex_number(at, limit, p + 1, text.push(at(p)->0))
    } else if valid_float(text) {
        (Some(Tok::Num(text)), p)
    } else {
        (None, p)
    }
}

/// The characters at positions `start..end`.
pub open spec fn source_text(at: spec_fn(int) -> Option<char>, start: int, end: int) -> Seq<char> {
    Seq::new((end - start) as nat, |k: int| at(start + k)->0)
}

/// Reading the rest of a string taken literally (no escapes) from `p`;
/// the content starts at `start`.
pub open spec fn lex_raw_string(at: spec_fn(int) -> Option<char>, limit: int, start: int, p: int) -> (
    Option<Tok>,
    int,
)
    decreases limit - p,
{
    if p < limit && at(p) is Some {
        if at(p)->0 == '"' {
            (Some(Tok::Str(source_text(at, start, p))), p + 1)
        } else {
            lex_raw_string(at, limit, start, p + 1)
        }
    } else {
        (None, p)
    }
}

/// The character an escape `\c` stands for.
pub open spec fn unescape(c: char) -> char {
    if c == 'b' {
        '\x08'
    } else if c == 'f' {
        '\x0c'
    } else if c == 'n' {
        '\n'
    } else if c == 'r' {
        '\r'
    } else if c == 't' {
        '\t'
    } else {
        c
    }
}

/// Reading the rest of a string with backslash escapes from `p`; `text` is
/// the content so far and `escaped` says whether a backslash is pending.
pub open spec fn lex_escaped_string(
    at: spec_fn(int) -> Option<char>,
    limit: int,
    p: int,
    text: Seq<char>,
    escaped: bool,
) -> (Option<Tok>, int)
    decreases limit - p,
{
    if p < limit && at(p) is Some {
        let c = at(p)->0;
        if escaped {
            lex_escaped_string(at, limit, p + 1, text.push(unescape(c)), false)
        } else if c == '\\' {
            lex_escaped_string(at, limit, p + 1, text, true)
        } else if c == '"' {
            (Some(Tok::Str(text)), p + 1)
        } else {
            lex_escaped_string(at, limit, p + 1, text.push(c), false)
        }
    } else {
        (None, p)
    }
}

/// The next token at or after `pos`, and the position after it. `None`
/// ends tokenizing: the input is exhausted or does not form a token there.
pub open spec fn lex_token(at: spec_fn(int) -> Option<char>, limit: int, escapes: bool, pos: int) -> (
    Option<Tok>,
    int,
) {
    let p = skip_ws(at, limit, pos);
    if at(p) is Some {
        let c = at(p)->0;
        let q = p + 1;
        if c == '{' {
            (Some(Tok::LBrace), q)
        } else if c == '}' {
            (Some(Tok::RBrace), q)
        } else if c == '[' {
            (Some(Tok::LBracket), q)
        } else if c == ']' {
            (Some(Tok::RBracket), q)
        } else if c == ':' {
            (Some(Tok::Colon), q)
        } else if c == ',' {
            (Some(Tok::Comma), q)
        } else if c == 't' {
            lex_keyword(at, "true"@, 1, q, Tok::Bool(true))
        } else if c == 'f' {
            lex_keyword(at, "false"@, 1, q, Tok::Bool(false))
        } else if c == 'n' {
            lex_keyword(at, "null"@, 1, q, Tok::Null)
        } else if starts_number(c) {
            lex_number(at, limit, q, seq![c])
        } else if c == '"' {
            if escapes {
                lex_escaped_string(at, limit, q, Seq::empty(), false)
            } else {
                lex_raw_string(at, limit, q, q)
            }
        } else {
            (None, q)
        }
    } else {
        (None, p + 1)
    }
}

/// All tokens from `pos` on, up to the first position where no token forms,
/// and the position where tokenizing stopped.
pub open spec fn lex_all(at: spec_fn(int) -> Option<char>, limit: int, escapes: bool, pos: int) -> (
    Seq<Tok>,
    int,
)
    decreases limit + 1 - pos,
{
    let (t, q) = lex_token(at, limit, escapes, pos);
    match t {
        Some(tok) => if pos < q <= limit + 1 {
            let (rest, end) = lex_all(at, limit, escapes, q);
            (seq![tok] + rest, end)
        } else {
            (seq![tok], q)
        },
        None => (Seq::empty(), q),
    }
}

/// The source that reads character `p` of `s`.
pub open spec fn char_source(s: Seq<char>) -> spec_fn(int) -> Option<char> {
    |p: int| if 0 <= p < s.len() { Some(s[p]) } else { None }
}

// ---------------------------------------------------------------------------
// Parsing
// ---------------------------------------------------------------------------

/// The object `m` with `key` bound to `val`: an existing member with that key
/// gets the new value in place, otherwise the member is appended.
pub open spec fn insert_member(m: Seq<(Seq<char>, Json)>, key: Seq<char>, val: Json) -> Seq<
    (Seq<char>, Json),
>
    decreases m.len(),
{
    if m.len() == 0 {
        seq![(key, val)]
    } else if m[0].0 == key {
        m.update(0, (key, val))
    } else {
        seq![m[0]] + insert_member(m.drop_first(), key, val)
    }
}

/// The token at `c`, if any.
pub open spec fn tok_at(t: Seq<Tok>, c: int) -> Option<Tok> {
    if 0 <= c < t.len() { Some(t[c]) } else { None }
}

/// Parse one value starting at token `c`: the result, and the cursor after.
pub open spec fn parse_value(t: Seq<Tok>, c: int) -> (Result<Json, JsonError>, int)
    decreases t.len() - c, 0int,
{
    if c < 0 || c >= t.len() {
        (Err(JsonError::Eof), c + 1)
    } else {
        let c1 = c + 1;
        match t[c] {
            Tok::Null => (Ok(Json::Null), c1),
            Tok::Bool(b) => (Ok(Json::Bool(b)), c1),
            Tok::Num(n) => (Ok(Json::Number(n)), c1),
            Tok::Str(s) => (Ok(Json::Str(s)), c1),
            Tok::LBracket => if c1 < t.len() && t[c1] == Tok::RBracket {
                (Ok(Json::Array(Seq::empty())), c1 + 1)
            } else {
                parse_elements(t, c1, Seq::empty())
            },
            Tok::LBrace => if c1 < t.len() && t[c1] == Tok::RBrace {
                (Ok(Json::Object(Seq::empty())), c1 + 1)
            } else {
                parse_members(t, c1, Seq::empty())
            },
            tok => (Err(JsonError::Unexpected(Found::Token(tok), c1)), c1),
        }
    }
}

/// Parse array elements from `c` on; `items` are those read so far.
pub open spec fn parse_elements(t: Seq<Tok>, c: int, items: Seq<Json>) -> (Result<Json, JsonError>, int)
    decreases t.len() - c, 1int,
{
    if c < 0 || c >= t.len() {
        (Err(JsonError::Eof), c + 1)
    } else {
        let (r, c2) = parse_value(t, c);
        match r {
            Err(e) => (Err(e), c2),
            Ok(v) => {
                let items2 = items.push(v);
                if c2 <= c || c2 >= t.len() {
                    (Err(JsonError::Eof), c2 + 1)
                } else if t[c2] == Tok::Comma {
                    parse_elements(t, c2 + 1, items2)
                } else if t[c2] == Tok::RBracket {
                    (Ok(Json::Array(items2)), c2 + 1)
                } else {
                    (Err(JsonError::Unexpected(Found::Token(t[c2]), c2 + 1)), c2 + 1)
                }
            },
        }
    }
}

/// Parse object members from `c` on; `m` holds those read so far.
pub open spec fn parse_members(t: Seq<Tok>, c: int, m: Seq<(Seq<char>, Json)>) -> (
    Result<Json, JsonError>,
    int,
)
    decreases t.len() - c, 1int,
{
    if c < 0 || c >= t.len() {
        (Err(JsonError::Eof), c + 1)
    } else if !(t[c] is Str) {
        (Err(JsonError::Unexpected(Found::Token(t[c]), c + 1)), c + 1)
    } else {
        let key = t[c]->Str_0;
        let c1 = c + 1;
        if !(c1 < t.len() && t[c1] == Tok::Colon) {
            (Err(JsonError::Unexpected(Found::Next(tok_at(t, c1 + 1)), c1 + 2)), c1 + 2)
        } else {
            let (r, c3) = parse_value(t, c1 + 1);
            match r {
                Err(e) => (Err(e), c3),
                Ok(v) => {
                    let m2 = insert_member(m, key, v);
                    if c3 <= c || c3 >= t.len() {
                        (Err(JsonError::Eof), c3 + 1)
                    } else if t[c3] == Tok::Comma {
                        parse_members(t, c3 + 1, m2)
                    } else if t[c3] == Tok::RBrace {
                        (Ok(Json::Object(m2)), c3 + 1)
                    } else {
                        (Err(JsonError::Unexpected(Found::Token(t[c3]), c3 + 1)), c3 + 1)
                    }
                },
            }
        }
    }
}

// ---------------------------------------------------------------------------
// Printing
// ---------------------------------------------------------------------------

/// The text of a boolean.
pub open spec fn bool_text(b: bool) -> Seq<char> {
    if b { "true"@ } else { "false"@ }
}

/// A string in double quotes, as printed (no escaping).
pub open spec fn quoted(s: Seq<char>) -> Seq<char> {
    seq!['"'] + s + seq!['"']
}

/// Compact text: no white space between tokens.
pub open spec fn compact(j: Json) -> Seq<char>
    decreases j, 0int,
{
    match j {
        Json::Null => "null"@,
        Json::Bool(b) => bool_text(b),
        Json::Number(n) => n,
        Json::Str(s) => quoted(s),
        Json::Array(items) => seq!['['] + compact_elements(items) + seq![']'],
        Json::Object(m) => seq!['{'] + compact_members(m) + seq!['}'],
    }
}

/// Array elements, separated by commas.
pub open spec fn compact_elements(items: Seq<Json>) -> Seq<char>
    decreases items, 1int,
{
    if items.len() == 0 {
        Seq::empty()
    } else if items.len() == 1 {
        compact(items[0])
    } else {
        compact(items[0]) + seq![','] + compact_elements(items.drop_first())
    }
}

/// Object members `"key":value`, separated by commas.
pub open spec fn compact_members(m: Seq<(Seq<char>, Json)>) -> Seq<char>
    decreases m, 1int,
{
    if m.len() == 0 {
        Seq::empty()
    } else if m.len() == 1 {
        quoted(m[0].0) + seq![':'] + compact(m[0].1)
    } else {
        quoted(m[0].0) + seq![':'] + compact(m[0].1) + seq![','] + compact_members(m.drop_first())
    }
}

/// Two spaces per nesting level.
pub open spec fn indent(depth: nat) -> Seq<char>
    decreases depth,
{
    if depth == 0 {
        Seq::empty()
    } else {
        indent((depth - 1) as nat) + "  "@
    }
}

/// Indented text at nesting level `depth`: each element or member on its
/// own line, indented one level deeper than its brackets; empty arrays and
/// objects stay `[]` and `{}`.
pub open spec fn pretty(j: Json, depth: nat) -> Seq<char>
    decreases j, 0int,
{
    match j {
        Json::Null => "null"@,
        Json::Bool(b) => bool_text(b),
        Json::Number(n) => n,
        Json::Str(s) => quoted(s),
        Json::Array(items) => if items.len() == 0 {
            "[]"@
        } else {
            "[\n"@ + pretty_elements(items, depth + 1) + "\n"@ + indent(depth) + seq![']']
        },
        Json::Object(m) => if m.len() == 0 {
            "{}"@
        } else {
            "{\n"@ + pretty_members(m, depth + 1) + "\n"@ + indent(depth) + seq!['}']
        },
    }
}

/// Elements at level `depth`, one per line, separated by `,\n`.
pub open spec fn pretty_elements(items: Seq<Json>, depth: nat) -> Seq<char>
    decreases items, 1int,
{
    if items.len() == 0 {
        Seq::empty()
    } else if items.len() == 1 {
        indent(depth) + pretty(items[0], depth)
    } else {
        indent(depth) + pretty(items[0], depth) + ",\n"@ + pretty_elements(items.drop_first(), depth)
    }
}

/// Members `"key": value` at level `depth`, one per line.
pub open spec fn pretty_members(m: Seq<(Seq<char>, Json)>, depth: nat) -> Seq<char>
    decreases m, 1int,
{
    if m.len() == 0 {
        Seq::empty()
    } else if m.len() == 1 {
        indent(depth) + quoted(m[0].0) + ": "@ + pretty(m[0].1, depth)
    } else {
        indent(depth) + quoted(m[0].0) + ": "@ + pretty(m[0].1, depth) + ",\n"@ + pretty_members(
            m.drop_first(),
            depth,
        )
    }
}


/// How deeply arrays and objects nest in `j` (0 for a scalar).
pub open spec fn nesting(j: Json) -> nat
    decreases j, 0int,
{
    match j {
        Json::Array(items) => 1 + nesting_elements(items),
        Json::Object(m) => 1 + nesting_members(m),
        _ => 0,
    }
}

/// The deepest nesting among array elements.
pub open spec fn nesting_elements(items: Seq<Json>) -> nat
    decreases items, 1int,
{
    if items.len() == 0 {
        0
    } else {
        let a = nesting(items[0]);
        let b = nesting_elements(items.drop_first());
        if a >= b { a } else { b }
    }
}

/// The deepest nesting among object member values.
pub open spec fn nesting_members(m: Seq<(Seq<char>, Json)>) -> nat
    decreases m, 1int,
{
    if m.len() == 0 {
        0
    } else {
        let a = nesting(m[0].1);
        let b = nesting_members(m.drop_first());
        if a >= b { a } else { b }
    }
}

/// Texts separated by commas.
pub open spec fn join_commas(parts: Seq<Seq<char>>) -> Seq<char>
    decreases parts.len(),
{
    if parts.len() == 0 {
        Seq::empty()
    } else if parts.len() == 1 {
        parts[0]
    } else {
        parts[0] + seq![','] + join_commas(parts.drop_first())
    }
}

/// The text of one object member, `"key":value`.
pub open spec fn compact_member(key: Seq<char>, val: Json) -> Seq<char> {
    quoted(key) + seq![':'] + compact(val)
}

} // verus!
