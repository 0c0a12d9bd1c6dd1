use vstd::prelude::*;
use super::spec::{valid_float, valid_exponent, digit_run};

verus! {

/// Number of leading decimal digits of `s` from index `from`.
fn count_digits(s: &Vec<char>, from: usize) -> (n: usize)
    requires
        from <= s@.len(),
    ensures
        n == digit_run(s@.skip(from as int)),
        from + n <= s@.len(),
{
    let mut i = from;
    while i < s.len() && '0' <= s[i] && s[i] <= '9'
        invariant
            from <= i <= s@.len(),
            digit_run(s@.skip(from as int)) == (i - from) + digit_run(s@.skip(i as int)),
        decreases s@.len() - i,
    {
        assert(s@.skip(i as int).drop_first() =~= s@.skip(i + 1));
        i = i + 1;
    }
    i - from
}

/// Whether the characters of `s` from `from` on are an exponent part.
fn exponent_ok(s: &Vec<char>, from: usize) -> (ok: bool)
    requires
        from <= s@.len(),
    ensures
        ok == valid_exponent(s@.skip(from as int)),
{
    let ghost t = s@.skip(from as int);
    if from >= s.len() || !(s[from] == 'e' || s[from] == 'E') {
        return false;
    }
    let mut i = from + 1;
    assert(t.drop_first() =~= s@.skip(i as int));
    if i < s.len() && (s[i] == '+' || s[i] == '-') {
        assert(s@.skip(i as int).drop_first() =~= s@.skip(i + 1));
        i = i + 1;
    }
    let n = count_digits(s, i);
    n > 0 && i + n == s.len()
}

/// Whether `s` is a decimal literal that `str::parse::<f64>` accepts (see
/// `valid_float`).
pub fn is_valid_float(s: &str) -> (ok: bool)
    ensures
        ok == valid_float(s@),
{
    let chars = crate::text::chars_of(s);
    let mut from: usize = 0;
    if chars.len() > 0 && (chars[0] == '+' || chars[0] == '-') {
        from = 1;
    }
    assert(from == 0 ==> chars@.skip(0) =~= chars@);
    assert(from == 1 ==> chars@.skip(1) =~= chars@.drop_first());
    let ghost d = chars@.skip(from as int);
    let a = count_digits(&chars, from);
    let after = from + a;
    assert(d.skip(a as int) =~= chars@.skip(after as int));
    if after < chars.len() && chars[after] == '.' {
        let frac_start = after + 1;
        assert(chars@.skip(after as int).drop_first() =~= chars@.skip(frac_start as int));
        let b = count_digits(&chars, frac_start);
        assert(chars@.skip(frac_start as int).skip(b as int) =~= chars@.skip(frac_start + b));
        (a > 0 || b > 0) && (frac_start + b == chars.len() || exponent_ok(&chars, frac_start + b))
    } else {
        a > 0 && (after == chars.len() || exponent_ok(&chars, after))
    }
}

} // verus!
