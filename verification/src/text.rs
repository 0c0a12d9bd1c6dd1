use vstd::prelude::*;
use vstd::string::StringSliceAdditionalSpecFns;

verus! {

/// The characters with the Unicode `White_Space` property, which is what
/// `char::is_whitespace` tests.
pub open spec fn is_white_space(c: char) -> bool {
    ||| '\t' <= c <= '\r'
    ||| c == ' '
    ||| c == '\u{85}'
    ||| c == '\u{A0}'
    ||| c == '\u{1680}'
    ||| '\u{2000}' <= c <= '\u{200A}'
    ||| c == '\u{2028}'
    ||| c == '\u{2029}'
    ||| c == '\u{202F}'
    ||| c == '\u{205F}'
    ||| c == '\u{3000}'
}

/// Whether `c` is white space in the sense of `char::is_whitespace`.
pub fn is_whitespace(c: char) -> (b: bool)
    ensures
        b == is_white_space(c),
{
    ('\t' <= c && c <= '\r') || c == ' ' || c == '\u{85}' || c == '\u{A0}' || c == '\u{1680}' || (
    '\u{2000}' <= c && c <= '\u{200A}') || c == '\u{2028}' || c == '\u{2029}' || c == '\u{202F}'
        || c == '\u{205F}' || c == '\u{3000}'
}

/// `String::push`: append one character.
#[verifier::external_body]
pub(crate) fn push_char(s: &mut String, c: char)
    ensures
        final(s)@ == old(s)@.push(c),
{
    s.push(c);
}

/// The characters of `s`, in order.
pub fn chars_of(s: &str) -> (v: Vec<char>)
    ensures
        v@ == s@,
{
    let mut v: Vec<char> = Vec::new();
    for c in it: s.chars()
        invariant
            v@ == it.seq().take(it.index() as int),
    {
        v.push(c);
    }
    v
}

/// The first character of `s`, if any.
pub fn first_char(s: &str) -> (c: Option<char>)
    ensures
        c == (if s@.len() > 0 { Some(s@[0]) } else { None }),
{
    let mut it = s.chars();
    it.next()
}


/// Whether two strings hold the same characters, compared byte by byte.
pub fn same_text(a: &str, b: &str) -> (same: bool)
    ensures
        same == (a@ == b@),
{
    let x = a.as_bytes();
    let y = b.as_bytes();
    proof {
        vstd::utf8::encode_utf8_decode_utf8(a@);
        vstd::utf8::encode_utf8_decode_utf8(b@);
    }
    if x.len() != y.len() {
        return false;
    }
    let mut i: usize = 0;
    while i < x.len()
        invariant
            x@.len() == y@.len(),
            x@ == a.spec_bytes(),
            y@ == b.spec_bytes(),
            i <= x@.len(),
            forall|k: int| 0 <= k < i ==> x@[k] == y@[k],
        decreases x@.len() - i,
    {
        if x[i] != y[i] {
            return false;
        }
        i = i + 1;
    }
    assert(x@ =~= y@);
    true
}


/// `s` without leading white space.
pub open spec fn trim_start(s: Seq<char>) -> Seq<char>
    decreases s.len(),
{
    if s.len() > 0 && is_white_space(s[0]) {
        trim_start(s.drop_first())
    } else {
        s
    }
}

/// `s` without trailing white space.
pub open spec fn trim_end(s: Seq<char>) -> Seq<char>
    decreases s.len(),
{
    if s.len() > 0 && is_white_space(s.last()) {
        trim_end(s.drop_last())
    } else {
        s
    }
}

/// `s` without leading and trailing white space, as `str::trim` gives it.
pub open spec fn trim(s: Seq<char>) -> Seq<char> {
    trim_end(trim_start(s))
}

/// `s` begins with `prefix`.
pub open spec fn starts_with(s: Seq<char>, prefix: Seq<char>) -> bool {
    prefix.len() <= s.len() && s.take(prefix.len() as int) == prefix
}

/// Index of the first line feed at or after `from`, or the length of `s`.
pub open spec fn line_end(s: Seq<char>, from: int) -> int
    decreases s.len() - from,
{
    if from >= s.len() || s[from] == '\n' {
        from
    } else {
        line_end(s, from + 1)
    }
}

/// The lines of `s` from index `from` on, as `str::lines` yields them:
/// split at `\n`, a `\r` directly before the `\n` dropped, and no empty
/// line after a final `\n`.
pub open spec fn lines_from(s: Seq<char>, from: int) -> Seq<Seq<char>>
    decreases s.len() - from,
{
    if from < 0 || from >= s.len() {
        Seq::empty()
    } else {
        let e = line_end(s, from);
        let raw = s.subrange(from, e);
        let line = if e < s.len() && raw.len() > 0 && raw.last() == '\r' {
            raw.drop_last()
        } else {
            raw
        };
        if e < s.len() {
            proof {
                lemma_line_end(s, from);
            }
            seq![line] + lines_from(s, e + 1)
        } else {
            seq![line]
        }
    }
}

/// The lines of `s` (see `lines_from`).
pub open spec fn lines(s: Seq<char>) -> Seq<Seq<char>> {
    lines_from(s, 0)
}

/// The end of a line lies at or after its start, on a line feed or at the
/// end of the text, with no line feed before it.
pub proof fn lemma_line_end(s: Seq<char>, from: int)
    requires
        0 <= from,
    ensures
        from <= line_end(s, from),
        line_end(s, from) <= s.len() || line_end(s, from) == from,
        line_end(s, from) < s.len() ==> s[line_end(s, from)] == '\n',
        forall|k: int| from <= k < line_end(s, from) ==> s[k] != '\n',
    decreases s.len() - from,
{
    if from < s.len() && s[from] != '\n' {
        lemma_line_end(s, from + 1);
    }
}

/// The end (exclusive) of the line starting at `from`, and the start of the
/// next line (past the line feed), found by scanning `chars`.
pub fn find_line_end(chars: &Vec<char>, from: usize) -> (r: (usize, usize))
    requires
        from < chars@.len(),
    ensures
        r.1 == (if line_end(chars@, from as int) < chars@.len() {
            line_end(chars@, from as int) + 1
        } else {
            chars@.len() as int
        }),
        r.0 as int == ({
            let e = line_end(chars@, from as int);
            let raw = chars@.subrange(from as int, e);
            if e < chars@.len() && raw.len() > 0 && raw.last() == '\r' {
                e - 1
            } else {
                e
            }
        }),
        from <= r.0 <= r.1 <= chars@.len(),
        r.1 > from,
{
    proof {
        lemma_line_end(chars@, from as int);
    }
    let mut e = from;
    while e < chars.len() && chars[e] != '\n'
        invariant
            from <= e <= chars@.len(),
            line_end(chars@, e as int) == line_end(chars@, from as int),
        decreases chars@.len() - e,
    {
        e = e + 1;
    }
    if e < chars.len() {
        if e > from && chars[e - 1] == '\r' {
            (e - 1, e + 1)
        } else {
            (e, e + 1)
        }
    } else {
        (e, e)
    }
}

/// The bounds of `chars[start..end]` with leading and trailing white space
/// removed.
pub fn trim_bounds(chars: &Vec<char>, start: usize, end: usize) -> (r: (usize, usize))
    requires
        start <= end <= chars@.len(),
    ensures
        start <= r.0 <= r.1 <= end,
        chars@.subrange(r.0 as int, r.1 as int) == trim(chars@.subrange(start as int, end as int)),
{
    let mut a = start;
    while a < end && is_whitespace(chars[a])
        invariant
            start <= a <= end <= chars@.len(),
            trim_start(chars@.subrange(start as int, end as int)) == trim_start(
                chars@.subrange(a as int, end as int),
            ),
        decreases end - a,
    {
        assert(chars@.subrange(a as int, end as int).drop_first() =~= chars@.subrange(
            a + 1,
            end as int,
        ));
        a = a + 1;
    }
    let mut b = end;
    while b > a && is_whitespace(chars[b - 1])
        invariant
            start <= a <= b <= end <= chars@.len(),
            trim_end(chars@.subrange(a as int, end as int)) == trim_end(
                chars@.subrange(a as int, b as int),
            ),
        decreases b - a,
    {
        assert(chars@.subrange(a as int, b as int).drop_last() =~= chars@.subrange(
            a as int,
            b - 1,
        ));
        b = b - 1;
    }
    (a, b)
}

/// Whether `chars[from..to]` begins with `prefix`.
pub fn has_prefix(chars: &Vec<char>, from: usize, to: usize, prefix: &str) -> (b: bool)
    requires
        from <= to <= chars@.len(),
    ensures
        b == starts_with(chars@.subrange(from as int, to as int), prefix@),
{
    let p = chars_of(prefix);
    if p.len() > to - from {
        return false;
    }
    let mut k: usize = 0;
    while k < p.len()
        invariant
            p@ == prefix@,
            p@.len() <= to - from,
            from <= to <= chars@.len(),
            k <= p@.len(),
            forall|j: int| 0 <= j < k ==> chars@[from + j] == p@[j],
        decreases p@.len() - k,
    {
        if chars[from + k] != p[k] {
            assert(chars@.subrange(from as int, to as int).take(p@.len() as int)[k as int]
                != p@[k as int]);
            return false;
        }
        k = k + 1;
    }
    assert(chars@.subrange(from as int, to as int).take(p@.len() as int) =~= p@);
    true
}


/// The decimal digits of `n`, most significant first.
pub open spec fn decimal(n: nat) -> Seq<char>
    decreases n,
{
    if n < 10 {
        seq![(48 + n) as char]
    } else {
        decimal(n / 10).push((48 + n % 10) as char)
    }
}

/// The decimal text of `n`, as `n.to_string()` gives it.
pub fn decimal_text(n: usize) -> (text: String)
    ensures
        text@ == decimal(n as nat),
    decreases n,
{
    if n < 10 {
        let mut text = String::new();
        push_char(&mut text, (48u8 + n as u8) as char);
        assert(text@ =~= decimal(n as nat));
        text
    } else {
        let mut text = decimal_text(n / 10);
        push_char(&mut text, (48u8 + (n % 10) as u8) as char);
        text
    }
}

/// `c` is one of the ASCII digits `0`..`9`.
pub open spec fn is_ascii_digit(c: char) -> bool {
    '0' <= c <= '9'
}

/// Every character of `s` is an ASCII digit.
pub open spec fn digits_only(s: Seq<char>) -> bool {
    forall|i: int| 0 <= i < s.len() ==> is_ascii_digit(#[trigger] s[i])
}

/// The number the decimal digits `s` spell, most significant first.
pub open spec fn digits_value(s: Seq<char>) -> nat
    decreases s.len(),
{
    if s.len() == 0 {
        0
    } else {
        10 * digits_value(s.drop_last()) + ((s.last() as nat) - 48) as nat
    }
}

/// What `str::parse::<u32>` gives for `s`: an optional `+`, then one or
/// more ASCII digits whose value fits in a `u32`; anything else is an error.
pub open spec fn parse_u32_spec(s: Seq<char>) -> Option<u32> {
    let d = if s.len() > 0 && s[0] == '+' {
        s.drop_first()
    } else {
        s
    };
    if d.len() > 0 && digits_only(d) && digits_value(d) <= u32::MAX {
        Some(digits_value(d) as u32)
    } else {
        None
    }
}

/// A longer run of digits is worth at least as much as its prefix.
pub proof fn lemma_digits_value_prefix(s: Seq<char>, k: int)
    requires
        0 <= k <= s.len(),
        digits_only(s),
    ensures
        digits_value(s.take(k)) <= digits_value(s),
    decreases s.len() - k,
{
    if k < s.len() {
        lemma_digits_value_prefix(s, k + 1);
        assert(s.take(k + 1).drop_last() =~= s.take(k));
    } else {
        assert(s.take(k) =~= s);
    }
}

/// `decimal(n)` is made of digits and spells `n`.
pub proof fn lemma_decimal_digits(n: nat)
    ensures
        decimal(n).len() > 0,
        digits_only(decimal(n)),
        digits_value(decimal(n)) == n,
        decimal(n)[0] != '+',
    decreases n,
{
    if n >= 10 {
        lemma_decimal_digits(n / 10);
        let d = decimal(n);
        assert(d.drop_last() =~= decimal(n / 10));
        assert(d[0] == decimal(n / 10)[0]);
        assert(((48 + n % 10) as char) as nat == 48 + n % 10);
        assert(d.last() == (48 + n % 10) as char);
        assert(n == 10 * (n / 10) + n % 10);
        assert(digits_value(d) == 10 * digits_value(d.drop_last()) + ((d.last() as nat) - 48) as nat);
    } else {
        assert(((48 + n) as char) as nat == 48 + n);
        let d = decimal(n);
        assert(d.drop_last() =~= Seq::<char>::empty());
        assert(digits_value(d.drop_last()) == 0);
        assert(d.last() == (48 + n) as char);
        assert(digits_value(d) == 10 * digits_value(d.drop_last()) + ((d.last() as nat) - 48) as nat);
    }
}

/// Parse `chars[start..end]` as `str::parse::<u32>` would.
pub fn parse_u32_range(chars: &Vec<char>, start: usize, end: usize) -> (r: Option<u32>)
    requires
        start <= end <= chars@.len(),
    ensures
        r == parse_u32_spec(chars@.subrange(start as int, end as int)),
{
    let ghost s = chars@.subrange(start as int, end as int);
    let mut i = start;
    if i < end && chars[i] == '+' {
        i = i + 1;
    }
    let ghost d = chars@.subrange(i as int, end as int);
    proof {
        if s.len() > 0 && s[0] == '+' {
            assert(s.drop_first() =~= d);
        } else {
            assert(s =~= d);
        }
    }
    if i == end {
        return None;
    }
    let first = i;
    let mut value: u64 = 0;
    while i < end
        invariant
            first <= i <= end <= chars@.len(),
            d == chars@.subrange(first as int, end as int),
            s == chars@.subrange(start as int, end as int),
            d.len() > 0,
            parse_u32_spec(s) == (if d.len() > 0 && digits_only(d) && digits_value(d) <= u32::MAX {
                Some(digits_value(d) as u32)
            } else {
                None::<u32>
            }),
            digits_only(chars@.subrange(first as int, i as int)),
            value == digits_value(chars@.subrange(first as int, i as int)),
            value <= u32::MAX,
        decreases end - i,
    {
        let c = chars[i];
        if c < '0' || c > '9' {
            assert(!digits_only(d)) by {
                assert(d[i - first] == c);
            }
            return None;
        }
        let digit = (c as u32 - 48) as u64;
        let ghost before = chars@.subrange(first as int, i as int);
        let ghost after = chars@.subrange(first as int, i + 1);
        assert(after.drop_last() =~= before);
        assert(after.last() == c);
        value = value * 10 + digit;
        assert(value == digits_value(after));
        assert(digits_only(after)) by {
            assert forall|j: int| 0 <= j < after.len() implies is_ascii_digit(#[trigger] after[j]) by {
                if j < before.len() {
                    assert(after[j] == before[j]);
                }
            }
        }
        if value > 4294967295u64 {
            assert(!(digits_only(d) && digits_value(d) <= u32::MAX)) by {
                if digits_only(d) {
                    lemma_digits_value_prefix(d, (i + 1 - first) as int);
                    assert(d.take((i + 1 - first) as int) =~= after);
                }
            }
            return None;
        }
        i = i + 1;
    }
    assert(chars@.subrange(first as int, i as int) =~= d);
    Some(value as u32)
}

/// What `trim_start` leaves does not begin with white space.
pub proof fn lemma_trim_start_result(s: Seq<char>)
    ensures
        trim_start(s).len() == 0 || !is_white_space(trim_start(s)[0]),
    decreases s.len(),
{
    if s.len() > 0 && is_white_space(s[0]) {
        lemma_trim_start_result(s.drop_first());
    }
}

/// What `trim_end` leaves is a prefix of its input that does not end with
/// white space.
pub proof fn lemma_trim_end_result(s: Seq<char>)
    ensures
        trim_end(s).len() <= s.len(),
        trim_end(s) == s.take(trim_end(s).len() as int),
        trim_end(s).len() == 0 || !is_white_space(trim_end(s).last()),
    decreases s.len(),
{
    if s.len() > 0 && is_white_space(s.last()) {
        lemma_trim_end_result(s.drop_last());
        assert(s.drop_last().take(trim_end(s).len() as int) =~= s.take(trim_end(s).len() as int));
    } else {
        assert(s.take(s.len() as int) =~= s);
    }
}

/// Trimming twice is trimming once.
pub proof fn lemma_trim_idempotent(s: Seq<char>)
    ensures
        trim(trim(s)) == trim(s),
{
    let a = trim_start(s);
    let b = trim_end(a);
    lemma_trim_start_result(s);
    lemma_trim_end_result(a);
    if b.len() > 0 {
        assert(b[0] == a[0]);
    }
    assert(trim_start(b) == b);
    lemma_trim_end_result(b);
    assert(trim_end(b) == b);
}

/// White space before a text is dropped by `trim_start` whatever follows.
proof fn lemma_trim_start_skips(a: Seq<char>, x: Seq<char>)
    requires
        forall|k: int| 0 <= k < a.len() ==> is_white_space(#[trigger] a[k]),
    ensures
        trim_start(a + x) == trim_start(x),
    decreases a.len(),
{
    if a.len() > 0 {
        assert((a + x).drop_first() =~= a.drop_first() + x);
        lemma_trim_start_skips(a.drop_first(), x);
    } else {
        assert(a + x =~= x);
    }
}

/// White space after a text is dropped by `trim_end` whatever precedes.
proof fn lemma_trim_end_skips(x: Seq<char>, b: Seq<char>)
    requires
        forall|k: int| 0 <= k < b.len() ==> is_white_space(#[trigger] b[k]),
    ensures
        trim_end(x + b) == trim_end(x),
    decreases b.len(),
{
    if b.len() > 0 {
        assert((x + b).drop_last() =~= x + b.drop_last());
        lemma_trim_end_skips(x, b.drop_last());
    } else {
        assert(x + b =~= x);
    }
}

/// A number written in decimal, with any white space around it, parses
/// back (after trimming) to that number.
pub proof fn lemma_padded_decimal_parses(n: u32, a: Seq<char>, b: Seq<char>)
    requires
        forall|k: int| 0 <= k < a.len() ==> is_white_space(#[trigger] a[k]),
        forall|k: int| 0 <= k < b.len() ==> is_white_space(#[trigger] b[k]),
    ensures
        parse_u32_spec(trim(a + decimal(n as nat) + b)) == Some(n),
{
    let d = decimal(n as nat);
    lemma_decimal_digits(n as nat);
    assert(a + d + b =~= a + (d + b));
    lemma_trim_start_skips(a, d + b);
    assert((d + b)[0] == d[0]);
    assert(!is_white_space(d[0]));
    assert(trim_start(d + b) == d + b);
    lemma_trim_end_skips(d, b);
    assert(d.last() == d[d.len() - 1]);
    assert(!is_white_space(d.last()));
    assert(trim_end(d) == d);
}

} // verus!
