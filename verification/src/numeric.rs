//! The texts that denote a 64-bit float.
//!
//! `spec_is_number` states, and `is_number_literal` decides, the grammar
//! std documents for parsing a float from a string: an optional sign,
//! then one of the words `inf`, `infinity`, `nan` (compared
//! case-insensitively), or a decimal mantissa with an optional exponent.
//! Acceptance depends on the characters alone: a text of this grammar
//! always parses, with overflow and underflow rounding to an infinity or
//! a zero at the boundary that decodes the value.

use vstd::prelude::*;
use vstd::string::StrSliceExecFns;

verus! {

pub open spec fn is_digit_char(c: char) -> bool {
    '0' <= c && c <= '9'
}

pub open spec fn all_digit_chars(s: Seq<char>) -> bool {
    forall|i: int| 0 <= i < s.len() ==> is_digit_char(#[trigger] s[i])
}

pub open spec fn is_sign_char(c: char) -> bool {
    c == '+' || c == '-'
}

/// `s` with one leading sign removed, if present.
pub open spec fn spec_after_sign(s: Seq<char>) -> Seq<char> {
    if s.len() > 0 && is_sign_char(s[0]) {
        s.drop_first()
    } else {
        s
    }
}

/// `c` equals the lowercase ASCII letter `lower`, up to ASCII case.
pub open spec fn char_ci_eq(c: char, lower: char) -> bool {
    c == lower || (c as u32) + 32 == (lower as u32)
}

/// `s` equals `word` — a lowercase ASCII word — up to ASCII case.
pub open spec fn matches_ci(s: Seq<char>, word: Seq<char>) -> bool {
    s.len() == word.len() && forall|i: int|
        0 <= i < s.len() ==> char_ci_eq(#[trigger] s[i], word[i])
}

/// Index of the first occurrence of `a` or `b` in `t`, or `t.len()`.
pub open spec fn spec_find2(t: Seq<char>, a: char, b: char) -> int
    decreases t,
{
    if t.len() == 0 {
        0
    } else if t[0] == a || t[0] == b {
        0
    } else {
        1 + spec_find2(t.drop_first(), a, b)
    }
}

pub proof fn lemma_find2_bounds(t: Seq<char>, a: char, b: char)
    ensures
        0 <= spec_find2(t, a, b) <= t.len(),
    decreases t,
{
    if t.len() > 0 && !(t[0] == a || t[0] == b) {
        lemma_find2_bounds(t.drop_first(), a, b);
    }
}

/// A mantissa: digits, or digits around one dot with a digit on at
/// least one side.
pub open spec fn spec_is_mantissa(m: Seq<char>) -> bool {
    let d = spec_find2(m, '.', '.');
    if d == m.len() {
        m.len() > 0 && all_digit_chars(m)
    } else {
        m.len() > 1 && all_digit_chars(m.take(d)) && all_digit_chars(m.skip(d + 1))
    }
}

/// An exponent tail: an optional sign, then at least one digit.
pub open spec fn spec_is_exp_tail(x: Seq<char>) -> bool {
    let y = spec_after_sign(x);
    y.len() > 0 && all_digit_chars(y)
}

/// A decimal literal: a mantissa, optionally followed by `e` or `E` and
/// an exponent tail.
pub open spec fn spec_is_decimal(t: Seq<char>) -> bool {
    let p = spec_find2(t, 'e', 'E');
    if p == t.len() {
        spec_is_mantissa(t)
    } else {
        spec_is_mantissa(t.take(p)) && spec_is_exp_tail(t.skip(p + 1))
    }
}

/// The number grammar: an optional sign, then an infinity or nan word,
/// or a decimal literal.
pub open spec fn spec_is_number(s: Seq<char>) -> bool {
    let t = spec_after_sign(s);
    ||| matches_ci(t, "inf"@)
    ||| matches_ci(t, "infinity"@)
    ||| matches_ci(t, "nan"@)
    ||| spec_is_decimal(t)
}

fn find2_range(s: &str, lo: usize, hi: usize, a: char, b: char) -> (r: usize)
    requires
        lo <= hi <= s@.len(),
    ensures
        lo <= r <= hi,
        r - lo == spec_find2(s@.subrange(lo as int, hi as int), a, b),
{
    let mut i = lo;
    while i < hi
        invariant
            lo <= i <= hi <= s@.len(),
            spec_find2(s@.subrange(lo as int, hi as int), a, b) == (i - lo) + spec_find2(
                s@.subrange(i as int, hi as int),
                a,
                b,
            ),
        decreases hi - i,
    {
        let c = s.get_char(i);
        let ghost rest = s@.subrange(i as int, hi as int);
        proof {
            assert(rest[0] == s@[i as int]);
        }
        if c == a || c == b {
            proof {
                assert(spec_find2(rest, a, b) == 0);
            }
            return i;
        }
        proof {
            assert(rest.drop_first() =~= s@.subrange(i + 1, hi as int));
            assert(spec_find2(rest, a, b) == 1 + spec_find2(
                s@.subrange(i + 1, hi as int),
                a,
                b,
            ));
        }
        i = i + 1;
    }
    proof {
        assert(s@.subrange(hi as int, hi as int) =~= Seq::<char>::empty());
    }
    i
}

fn digits_range(s: &str, lo: usize, hi: usize) -> (r: bool)
    requires
        lo <= hi <= s@.len(),
    ensures
        r == all_digit_chars(s@.subrange(lo as int, hi as int)),
{
    let ghost sub = s@.subrange(lo as int, hi as int);
    let mut i = lo;
    while i < hi
        invariant
            lo <= i <= hi <= s@.len(),
            sub == s@.subrange(lo as int, hi as int),
            forall|j: int| 0 <= j < i - lo ==> is_digit_char(#[trigger] sub[j]),
        decreases hi - i,
    {
        let c = s.get_char(i);
        proof {
            assert(sub[i - lo] == s@[i as int]);
        }
        if !(c >= '0' && c <= '9') {
            return false;
        }
        i = i + 1;
    }
    true
}

fn matches_ci_range(s: &str, lo: usize, hi: usize, word: &str) -> (r: bool)
    requires
        lo <= hi <= s@.len(),
    ensures
        r == matches_ci(s@.subrange(lo as int, hi as int), word@),
{
    let ghost sub = s@.subrange(lo as int, hi as int);
    let wl = word.unicode_len();
    if hi - lo != wl {
        return false;
    }
    let mut j: usize = 0;
    while j < wl
        invariant
            0 <= j <= wl,
            lo <= hi <= s@.len(),
            hi - lo == wl == word@.len(),
            sub == s@.subrange(lo as int, hi as int),
            forall|k: int| 0 <= k < j ==> char_ci_eq(#[trigger] sub[k], word@[k]),
        decreases wl - j,
    {
        let c = s.get_char(lo + j);
        let w = word.get_char(j);
        proof {
            assert(sub[j as int] == s@[lo + j]);
        }
        let ok = c == w || ((c as u32) as u64) + 32 == ((w as u32) as u64);
        if !ok {
            return false;
        }
        j = j + 1;
    }
    true
}

fn exp_tail_range(s: &str, lo: usize, hi: usize) -> (r: bool)
    requires
        lo <= hi <= s@.len(),
    ensures
        r == spec_is_exp_tail(s@.subrange(lo as int, hi as int)),
{
    let ghost sub = s@.subrange(lo as int, hi as int);
    let mut l2 = lo;
    if lo < hi {
        let c = s.get_char(lo);
        if c == '+' || c == '-' {
            l2 = lo + 1;
        }
    }
    proof {
        if sub.len() > 0 {
            assert(sub[0] == s@[lo as int]);
        }
        assert(spec_after_sign(sub) =~= s@.subrange(l2 as int, hi as int));
    }
    if l2 == hi {
        false
    } else {
        digits_range(s, l2, hi)
    }
}

fn mantissa_range(s: &str, lo: usize, hi: usize) -> (r: bool)
    requires
        lo <= hi <= s@.len(),
    ensures
        r == spec_is_mantissa(s@.subrange(lo as int, hi as int)),
{
    let ghost sub = s@.subrange(lo as int, hi as int);
    let d = find2_range(s, lo, hi, '.', '.');
    proof {
        lemma_find2_bounds(sub, '.', '.');
        assert(sub.take(d - lo) =~= s@.subrange(lo as int, d as int));
        assert(d < hi ==> sub.skip(d - lo + 1) =~= s@.subrange(d + 1, hi as int));
    }
    if d == hi {
        if hi == lo {
            false
        } else {
            digits_range(s, lo, hi)
        }
    } else {
        if hi - lo <= 1 {
            false
        } else {
            let first = digits_range(s, lo, d);
            if !first {
                false
            } else {
                digits_range(s, d + 1, hi)
            }
        }
    }
}

fn decimal_range(s: &str, lo: usize, hi: usize) -> (r: bool)
    requires
        lo <= hi <= s@.len(),
    ensures
        r == spec_is_decimal(s@.subrange(lo as int, hi as int)),
{
    let ghost sub = s@.subrange(lo as int, hi as int);
    let p = find2_range(s, lo, hi, 'e', 'E');
    proof {
        lemma_find2_bounds(sub, 'e', 'E');
        assert(sub.take(p - lo) =~= s@.subrange(lo as int, p as int));
        assert(p < hi ==> sub.skip(p - lo + 1) =~= s@.subrange(p + 1, hi as int));
    }
    if p == hi {
        mantissa_range(s, lo, hi)
    } else {
        let first = mantissa_range(s, lo, p);
        if !first {
            false
        } else {
            exp_tail_range(s, p + 1, hi)
        }
    }
}

/// Decides the number grammar for a whole token text.
pub fn is_number_literal(text: &str) -> (r: bool)
    ensures
        r == spec_is_number(text@),
{
    let n = text.unicode_len();
    let mut start: usize = 0;
    if n > 0 {
        let c = text.get_char(0);
        if c == '+' || c == '-' {
            start = 1;
        }
    }
    proof {
        assert(spec_after_sign(text@) =~= text@.subrange(start as int, n as int));
    }
    if matches_ci_range(text, start, n, "inf") {
        return true;
    }
    if matches_ci_range(text, start, n, "infinity") {
        return true;
    }
    if matches_ci_range(text, start, n, "nan") {
        return true;
    }
    decimal_range(text, start, n)
}

} // verus!
