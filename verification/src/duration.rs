//! The duration normalizer: free text in, a non-negative number of
//! micro-minutes out (one micro-minute is a millionth of a minute, so one
//! hour is 60_000_000). The grammar never fails: an unparseable fragment
//! contributes zero.
//!
//! Rules, by first match:
//! 1. the text contains "h": the part before the first "h" is read as a
//!    decimal number of hours, the remainder (with the tokens "minutes",
//!    "minute", "min" removed) as a decimal number of minutes;
//! 2. else the text contains "min": the tokens are removed and the rest is
//!    read as minutes;
//! 3. else the whole text is read as a bare decimal number: below 10 it
//!    counts as hours, otherwise as minutes.
//!
//! A decimal number is digits with at most one point and at least one digit;
//! fractional digits beyond the sixth are dropped. Totals saturate at
//! `u64::MAX` micro-minutes.

use vstd::prelude::*;
use crate::text::{
    chars_of, contains_seq, find_from, find_pattern, lemma_find_from_found, lower_seq,
    remove_all, remove_pattern, spec_trim, subvec, to_lower, trim,
};

verus! {

pub open spec fn is_digit_char(c: char) -> bool {
    '0' <= c && c <= '9'
}

pub open spec fn digit_val(c: char) -> int {
    (c as u32) - 48
}

pub open spec fn all_digits(s: Seq<char>) -> bool {
    forall|i: int| 0 <= i < s.len() ==> is_digit_char(s[i])
}

/// Value of a digit string, most significant first.
pub open spec fn digits_val(s: Seq<char>) -> int
    decreases s.len(),
{
    if s.len() == 0 {
        0
    } else {
        digits_val(s.drop_last()) * 10 + digit_val(s.last())
    }
}

pub open spec fn pow10(k: nat) -> int
    decreases k,
{
    if k == 0 {
        1
    } else {
        10 * pow10((k - 1) as nat)
    }
}

pub proof fn lemma_digits_val_bound(s: Seq<char>)
    requires
        all_digits(s),
    ensures
        0 <= digits_val(s) < pow10(s.len()),
    decreases s.len(),
{
    if s.len() > 0 {
        assert(all_digits(s.drop_last())) by {
            assert(forall|i: int| 0 <= i < s.len() - 1 ==> s.drop_last()[i] == s[i]);
        }
        lemma_digits_val_bound(s.drop_last());
        assert(is_digit_char(s.last()));
        assert(0 <= digit_val(s.last()) <= 9);
    }
}

pub proof fn lemma_pow10_monotone(a: nat, b: nat)
    requires
        a <= b,
    ensures
        pow10(a) <= pow10(b),
        pow10(a) >= 1,
    decreases b,
{
    if a < b {
        lemma_pow10_monotone(a, (b - 1) as nat);
    } else if b > 0 {
        lemma_pow10_monotone((a - 1) as nat, (b - 1) as nat);
    }
}

/// Position of the decimal point, or -1.
pub open spec fn dot_idx(s: Seq<char>) -> int {
    find_from(s, "."@, 0)
}

/// Digits with at most one point and at least one digit.
pub open spec fn valid_decimal(s: Seq<char>) -> bool {
    let d = dot_idx(s);
    if d < 0 {
        s.len() >= 1 && all_digits(s)
    } else {
        s.len() >= 2 && all_digits(s.subrange(0, d)) && all_digits(
            s.subrange(d + 1, s.len() as int),
        )
    }
}

pub open spec fn int_part(s: Seq<char>) -> Seq<char> {
    if dot_idx(s) < 0 {
        s
    } else {
        s.subrange(0, dot_idx(s))
    }
}

pub open spec fn frac_part(s: Seq<char>) -> Seq<char> {
    if dot_idx(s) < 0 {
        Seq::empty()
    } else {
        s.subrange(dot_idx(s) + 1, s.len() as int)
    }
}

/// The fractional digits, truncated or padded with '0' to exactly six.
pub open spec fn pad6(f: Seq<char>) -> Seq<char> {
    if f.len() >= 6 {
        f.subrange(0, 6)
    } else {
        f + Seq::new((6 - f.len()) as nat, |i: int| '0')
    }
}

/// Exact value of a valid decimal string, in millionths of a unit.
pub open spec fn micro_units(s: Seq<char>) -> int {
    digits_val(int_part(s)) * 1_000_000 + digits_val(pad6(frac_part(s)))
}

/// Value in millionths, or 0 when the text is not a decimal number.
pub open spec fn micro_units_or_zero(s: Seq<char>) -> int {
    if valid_decimal(s) {
        micro_units(s)
    } else {
        0
    }
}

/// Saturation at `u64::MAX`.
pub open spec fn cap64(x: int) -> u64 {
    if x > u64::MAX {
        u64::MAX
    } else if x < 0 {
        0
    } else {
        x as u64
    }
}

pub proof fn lemma_micro_units_nonneg(s: Seq<char>)
    requires
        valid_decimal(s),
    ensures
        micro_units(s) >= 0,
{
    if dot_idx(s) >= 0 {
        lemma_find_from_found(s, "."@, 0);
    }
    lemma_digits_val_bound(int_part(s));
    assert(all_digits(pad6(frac_part(s)))) by {
        assert(forall|i: int|
            0 <= i < pad6(frac_part(s)).len() ==> is_digit_char(#[trigger] pad6(frac_part(s))[i]));
    }
    lemma_digits_val_bound(pad6(frac_part(s)));
    assert(digits_val(int_part(s)) * 1_000_000 >= 0) by (nonlinear_arith)
        requires
            digits_val(int_part(s)) >= 0,
    ;
}

pub proof fn lemma_duration_nonneg(s: Seq<char>)
    ensures
        spec_duration_micro_min(s) >= 0,
{
    let t = lower_seq(spec_trim(s));
    if contains_seq(t, "h"@) {
        let i = find_from(t, "h"@, 0);
        let hp = t.subrange(0, i);
        let rest = strip_min_tokens(t.subrange(i + 1, t.len() as int));
        if valid_decimal(hp) {
            lemma_micro_units_nonneg(hp);
        }
        if valid_decimal(rest) {
            lemma_micro_units_nonneg(rest);
        }
        assert(micro_units_or_zero(hp) * 60 >= 0) by (nonlinear_arith)
            requires
                micro_units_or_zero(hp) >= 0,
        ;
    } else if contains_seq(t, "min"@) {
        if valid_decimal(strip_min_tokens(t)) {
            lemma_micro_units_nonneg(strip_min_tokens(t));
        }
    } else if valid_decimal(t) && digits_val(int_part(t)) < 10 {
        lemma_micro_units_nonneg(t);
        assert(micro_units(t) * 60 >= 0) by (nonlinear_arith)
            requires
                micro_units(t) >= 0,
        ;
    } else {
        if valid_decimal(t) {
            lemma_micro_units_nonneg(t);
        }
    }
}

pub proof fn lemma_cap64_mul(e: int, k: int)
    requires
        e >= 0,
        1 <= k <= u64::MAX,
    ensures
        cap64(e) * k <= u64::MAX ==> cap64(e * k) == cap64(e) * k,
        cap64(e) * k > u64::MAX ==> cap64(e * k) == u64::MAX,
{
    if e <= u64::MAX {
        assert(cap64(e) == e);
        assert(e * k >= 0) by (nonlinear_arith)
            requires
                e >= 0 && k >= 1,
        ;
    } else {
        assert(cap64(e) == u64::MAX);
        assert(e * k >= e) by (nonlinear_arith)
            requires
                e >= 0 && k >= 1,
        ;
        assert(cap64(e * k) == u64::MAX);
        assert(cap64(e) * k >= cap64(e)) by (nonlinear_arith)
            requires
                k >= 1,
        ;
    }
}

pub proof fn lemma_cap64_add(a: int, b: int)
    requires
        a >= 0,
        b >= 0,
    ensures
        cap64(a) + cap64(b) <= u64::MAX ==> cap64(a + b) == cap64(a) + cap64(b),
        cap64(a) + cap64(b) > u64::MAX ==> cap64(a + b) == u64::MAX,
{
}

/// Reads `v[a..b]` as digits. Returns whether every character is a digit
/// and, if so, the (saturated) value.
fn scan_digits(v: &Vec<char>, a: usize, b: usize) -> (r: (bool, u64))
    requires
        a <= b <= v.len(),
    ensures
        r.0 == all_digits(v@.subrange(a as int, b as int)),
        r.0 ==> r.1 == cap64(digits_val(v@.subrange(a as int, b as int))),
{
    let mut i: usize = a;
    let mut acc: u64 = 0;
    proof {
        assert(v@.subrange(a as int, a as int) =~= Seq::<char>::empty());
    }
    while i < b
        invariant
            a <= i <= b <= v.len(),
            all_digits(v@.subrange(a as int, i as int)),
            acc == cap64(digits_val(v@.subrange(a as int, i as int))),
        decreases b - i,
    {
        let c = v[i];
        if !('0' <= c && c <= '9') {
            proof {
                assert(v@.subrange(a as int, b as int)[i - a] == c);
            }
            return (false, 0);
        }
        let ghost pre = v@.subrange(a as int, i as int);
        let ghost e = digits_val(pre);
        let d: u64 = ((c as u32) - 48) as u64;
        proof {
            lemma_digits_val_bound(pre);
            lemma_pow10_monotone(0, pre.len());
        }
        let acc2: u64 = match acc.checked_mul(10) {
            Some(x) => x.saturating_add(d),
            None => u64::MAX,
        };
        proof {
            lemma_cap64_mul(e, 10);
            lemma_cap64_add(e * 10, d as int);
            let post = v@.subrange(a as int, i + 1 as int);
            assert(post.drop_last() =~= pre);
            assert(digits_val(post) == e * 10 + d);
            assert(acc2 == cap64(digits_val(post)));
            assert(all_digits(post)) by {
                assert(forall|j: int| 0 <= j < pre.len() ==> post[j] == pre[j]);
            }
        }
        acc = acc2;
        i = i + 1;
    }
    (true, acc)
}

/// Value of the fractional digits `v[a..b]`, padded or truncated to six
/// digits; also checks that every character in the range is a digit.
fn scan_frac(v: &Vec<char>, a: usize, b: usize) -> (r: (bool, u64))
    requires
        a <= b <= v.len(),
    ensures
        r.0 == all_digits(v@.subrange(a as int, b as int)),
        r.0 ==> r.1 == digits_val(pad6(v@.subrange(a as int, b as int))) && r.1 < 1_000_000,
{
    let ghost f = v@.subrange(a as int, b as int);
    let mut i: usize = a;
    while i < b
        invariant
            a <= i <= b <= v.len(),
            f == v@.subrange(a as int, b as int),
            forall|j: int| a <= j < i ==> is_digit_char(v@[j]),
        decreases b - i,
    {
        let c = v[i];
        if !('0' <= c && c <= '9') {
            proof {
                assert(0 <= i - a < f.len());
                assert(f[i - a] == v@[a + (i - a)]);
                assert(!is_digit_char(f[i - a]));
            }
            return (false, 0);
        }
        i = i + 1;
    }
    proof {
        assert(all_digits(f));
    }
    let ghost p = pad6(f);
    proof {
        assert(all_digits(p)) by {
            assert(forall|j: int| 0 <= j < p.len() ==> is_digit_char(#[trigger] p[j]));
        }
        assert(p.len() == 6);
    }
    let mut val: u64 = 0;
    let mut j: usize = 0;
    proof {
        assert(p.subrange(0, 0) =~= Seq::<char>::empty());
    }
    while j < 6
        invariant
            0 <= j <= 6,
            a <= b <= v.len(),
            f == v@.subrange(a as int, b as int),
            p == pad6(f),
            all_digits(f),
            all_digits(p),
            p.len() == 6,
            val == digits_val(p.subrange(0, j as int)),
            val < pow10(j as nat),
        decreases 6 - j,
    {
        let in_frac: bool = j < b - a;
        let d: u64 = if in_frac {
            let c = v[a + j];
            proof {
                assert(f[j as int] == v@[a + j]);
                assert(is_digit_char(c));
            }
            ((c as u32) - 48) as u64
        } else {
            0
        };
        proof {
            if in_frac {
                assert(p[j as int] == f[j as int]);
                assert(f[j as int] == v@[a + j]);
                assert(d == digit_val(p[j as int]));
            } else {
                assert(p[j as int] == '0');
                assert(('0' as u32) == 48);
                assert(d == digit_val(p[j as int]));
            }
            let pre = p.subrange(0, j as int);
            let post = p.subrange(0, j + 1 as int);
            assert(post.drop_last() =~= pre);
            assert(digits_val(post) == digits_val(pre) * 10 + digit_val(p[j as int]));
            lemma_pow10_monotone(j as nat, 5);
            reveal_with_fuel(pow10, 8);
            assert(pow10(5) == 100_000);
            assert(val * 10 + d < pow10((j + 1) as nat)) by (nonlinear_arith)
                requires
                    val < pow10(j as nat),
                    0 <= d <= 9,
                    pow10((j + 1) as nat) == 10 * pow10(j as nat),
                    pow10(j as nat) >= 1,
            {
                lemma_pow10_monotone(0, j as nat);
            }
        }
        val = val * 10 + d;
        j = j + 1;
    }
    proof {
        assert(p.subrange(0, 6) =~= p);
        reveal_with_fuel(pow10, 8);
    }
    (true, val)
}

/// Reads `v` as a decimal number. Returns (valid, capped integer part,
/// capped value in millionths of a unit).
fn parse_decimal(v: &Vec<char>) -> (r: (bool, u64, u64))
    ensures
        r.0 == valid_decimal(v@),
        r.0 ==> r.1 == cap64(digits_val(int_part(v@))),
        r.0 ==> r.2 == cap64(micro_units(v@)),
{
    let dot = chars_of(".");
    proof {
        reveal_strlit(".");
        assert(dot@.len() == 1);
    }
    match find_pattern(v, &dot, 0) {
        None => {
            if v.len() == 0 {
                return (false, 0, 0);
            }
            let (ok, iv) = scan_digits(v, 0, v.len());
            proof {
                assert(v@.subrange(0, v@.len() as int) =~= v@);
            }
            if !ok {
                return (false, 0, 0);
            }
            proof {
                assert(int_part(v@) == v@);
                assert(frac_part(v@) =~= Seq::<char>::empty());
                assert(pad6(frac_part(v@)) =~= Seq::new(6, |i: int| '0'));
                lemma_zero_seq_val(6);
                lemma_digits_val_bound(v@);
                lemma_cap64_mul(digits_val(v@), 1_000_000);
            }
            let mv: u64 = match iv.checked_mul(1_000_000) {
                Some(x) => x,
                None => u64::MAX,
            };
            (true, iv, mv)
        },
        Some(d) => {
            proof {
                lemma_find_from_found(v@, "."@, 0);
            }
            if v.len() < 2 {
                return (false, 0, 0);
            }
            let (ok_i, iv) = scan_digits(v, 0, d);
            if !ok_i {
                return (false, 0, 0);
            }
            let (ok_f, fv) = scan_frac(v, d + 1, v.len());
            if !ok_f {
                return (false, 0, 0);
            }
            proof {
                assert(int_part(v@) == v@.subrange(0, d as int));
                assert(frac_part(v@) == v@.subrange(d + 1, v@.len() as int));
                lemma_digits_val_bound(int_part(v@));
                lemma_cap64_mul(digits_val(int_part(v@)), 1_000_000);
                lemma_cap64_add(digits_val(int_part(v@)) * 1_000_000, fv as int);
            }
            let mv: u64 = match iv.checked_mul(1_000_000) {
                Some(x) => x.saturating_add(fv),
                None => u64::MAX,
            };
            (true, iv, mv)
        },
    }
}

proof fn lemma_zero_seq_val(n: nat)
    ensures
        digits_val(Seq::new(n, |i: int| '0')) == 0,
    decreases n,
{
    if n > 0 {
        lemma_zero_seq_val((n - 1) as nat);
        assert(Seq::new(n, |i: int| '0').drop_last() =~= Seq::new((n - 1) as nat, |i: int| '0'));
        assert(Seq::new(n, |i: int| '0').last() == '0');
        assert(('0' as u32) == 48);
    }
}

/// The text with the tokens "minutes", "minute" and "min" removed (in that
/// order) and the rest trimmed.
pub open spec fn strip_min_tokens(s: Seq<char>) -> Seq<char> {
    spec_trim(remove_all(remove_all(remove_all(s, "minutes"@), "minute"@), "min"@))
}

fn strip_min_tokens_exec(v: &Vec<char>) -> (r: Vec<char>)
    ensures
        r@ == strip_min_tokens(v@),
{
    let p1 = chars_of("minutes");
    let p2 = chars_of("minute");
    let p3 = chars_of("min");
    proof {
        reveal_strlit("minutes");
        reveal_strlit("minute");
        reveal_strlit("min");
    }
    let s1 = remove_pattern(v, &p1);
    let s2 = remove_pattern(&s1, &p2);
    let s3 = remove_pattern(&s2, &p3);
    trim(&s3)
}

/// Exact number of micro-minutes the text denotes, before saturation.
pub open spec fn spec_duration_micro_min(s: Seq<char>) -> int {
    let t = lower_seq(spec_trim(s));
    if contains_seq(t, "h"@) {
        let i = find_from(t, "h"@, 0);
        micro_units_or_zero(t.subrange(0, i)) * 60 + micro_units_or_zero(
            strip_min_tokens(t.subrange(i + 1, t.len() as int)),
        )
    } else if contains_seq(t, "min"@) {
        micro_units_or_zero(strip_min_tokens(t))
    } else if valid_decimal(t) && digits_val(int_part(t)) < 10 {
        micro_units(t) * 60
    } else {
        micro_units_or_zero(t)
    }
}

/// Normalizes free duration text to micro-minutes (saturating at
/// `u64::MAX`). Never fails: unparseable fragments count as zero.
pub fn normalize_duration(s: &str) -> (r: u64)
    ensures
        r == cap64(spec_duration_micro_min(s@)),
{
    let cs = chars_of(s);
    let trimmed = trim(&cs);
    let t = to_lower(&trimmed);
    let ghost tv = t@;
    let h_pat = chars_of("h");
    let min_pat = chars_of("min");
    proof {
        reveal_strlit("h");
        reveal_strlit("min");
    }
    match find_pattern(&t, &h_pat, 0) {
        Some(i) => {
            proof {
                lemma_find_from_found(tv, "h"@, 0);
                assert(i + 1 <= tv.len());
            }
            let hpart = subvec(&t, 0, i);
            let rest = subvec(&t, i + 1, t.len());
            let (hok, _, hv) = parse_decimal(&hpart);
            let ghost he = micro_units_or_zero(hpart@);
            proof {
                if hok {
                    lemma_micro_units_nonneg(hpart@);
                }
                assert(hv == cap64(he) || !hok);
            }
            let hcap: u64 = if hok {
                hv
            } else {
                0
            };
            proof {
                assert(hcap == cap64(he));
                lemma_cap64_mul(he, 60);
            }
            let hmins: u64 = match hcap.checked_mul(60) {
                Some(x) => x,
                None => u64::MAX,
            };
            let stripped = strip_min_tokens_exec(&rest);
            let (mok, _, mv) = parse_decimal(&stripped);
            let ghost me = micro_units_or_zero(stripped@);
            proof {
                if mok {
                    lemma_micro_units_nonneg(stripped@);
                }
            }
            let mcap: u64 = if mok {
                mv
            } else {
                0
            };
            proof {
                assert(mcap == cap64(me));
                lemma_cap64_add(he * 60, me);
            }
            hmins.saturating_add(mcap)
        },
        None => {
            match find_pattern(&t, &min_pat, 0) {
                Some(_) => {
                    let stripped = strip_min_tokens_exec(&t);
                    let (mok, _, mv) = parse_decimal(&stripped);
                    proof {
                        if mok {
                            lemma_micro_units_nonneg(stripped@);
                        }
                    }
                    if mok {
                        mv
                    } else {
                        0
                    }
                },
                None => {
                    let (ok, ip, mv) = parse_decimal(&t);
                    proof {
                        if ok {
                            lemma_micro_units_nonneg(tv);
                            lemma_digits_val_bound(int_part(tv));
                        }
                    }
                    if ok && ip < 10 {
                        proof {
                            assert(digits_val(int_part(tv)) < 10);
                            lemma_cap64_mul(micro_units(tv), 60);
                        }
                        match mv.checked_mul(60) {
                            Some(x) => x,
                            None => u64::MAX,
                        }
                    } else {
                        proof {
                            if ok {
                                assert(digits_val(int_part(tv)) >= 10);
                            }
                        }
                        if ok {
                            mv
                        } else {
                            0
                        }
                    }
                },
            }
        },
    }
}

} // verus!
