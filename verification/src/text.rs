//! Character-sequence primitives the journal format is defined over:
//! whitespace, pattern search, splitting, trimming, and the bridge between
//! `&str` / `String` and `Vec<char>`.

use vstd::prelude::*;
use vstd::string::*;

verus! {

/// The white-space characters the format recognizes: the Unicode
/// White_Space set, the one `char::is_whitespace` decides.
pub open spec fn is_space_char(c: char) -> bool {
    ('\u{0009}' <= c && c <= '\u{000D}') || c == ' ' || c == '\u{0085}' || c == '\u{00A0}'
        || c == '\u{1680}' || ('\u{2000}' <= c && c <= '\u{200A}') || c == '\u{2028}'
        || c == '\u{2029}' || c == '\u{202F}' || c == '\u{205F}' || c == '\u{3000}'
}

pub fn is_space(c: char) -> (r: bool)
    ensures
        r == is_space_char(c),
{
    ('\u{0009}' <= c && c <= '\u{000D}') || c == ' ' || c == '\u{0085}' || c == '\u{00A0}'
        || c == '\u{1680}' || ('\u{2000}' <= c && c <= '\u{200A}') || c == '\u{2028}'
        || c == '\u{2029}' || c == '\u{202F}' || c == '\u{205F}' || c == '\u{3000}'
}

/// `p` occurs in `s` at position `i`.
pub open spec fn match_at(s: Seq<char>, p: Seq<char>, i: int) -> bool {
    0 <= i && i + p.len() <= s.len() && s.subrange(i, i + p.len() as int) == p
}

/// Position of the first occurrence of `p` in `s` at or after `i`,
/// or -1 when there is none.
pub open spec fn find_from(s: Seq<char>, p: Seq<char>, i: int) -> int
    decreases s.len() - i,
{
    if p.len() == 0 || i < 0 || i + p.len() > s.len() {
        -1
    } else if match_at(s, p, i) {
        i
    } else {
        find_from(s, p, i + 1)
    }
}

pub open spec fn contains_seq(s: Seq<char>, p: Seq<char>) -> bool {
    find_from(s, p, 0) >= 0
}

pub proof fn lemma_find_from_found(s: Seq<char>, p: Seq<char>, i: int)
    requires
        find_from(s, p, i) >= 0,
    ensures
        match_at(s, p, find_from(s, p, i)),
        find_from(s, p, i) >= i,
        forall|j: int| i <= j < find_from(s, p, i) ==> !match_at(s, p, j),
    decreases s.len() - i,
{
    if p.len() == 0 || i < 0 || i + p.len() > s.len() {
    } else if match_at(s, p, i) {
    } else {
        lemma_find_from_found(s, p, i + 1);
    }
}

pub proof fn lemma_find_from_none(s: Seq<char>, p: Seq<char>, i: int, j: int)
    requires
        find_from(s, p, i) == -1,
        0 <= i,
        p.len() >= 1,
        j >= i,
    ensures
        !match_at(s, p, j),
    decreases s.len() - i,
{
    if i + p.len() > s.len() {
    } else if j > i {
        lemma_find_from_none(s, p, i + 1, j);
    }
}

pub proof fn lemma_find_from_range(s: Seq<char>, p: Seq<char>, i: int)
    ensures
        find_from(s, p, i) == -1 || find_from(s, p, i) >= i,
    decreases s.len() - i,
{
    if p.len() == 0 || i < 0 || i + p.len() > s.len() {
    } else if !match_at(s, p, i) {
        lemma_find_from_range(s, p, i + 1);
    }
}

/// Skipping over positions that hold no match does not change the result.
pub proof fn lemma_find_from_skip(s: Seq<char>, p: Seq<char>, from: int, i: int)
    requires
        0 <= from <= i,
        forall|j: int| from <= j < i ==> !match_at(s, p, j),
    ensures
        find_from(s, p, from) == find_from(s, p, i),
    decreases i - from,
{
    if from < i {
        if from + p.len() > s.len() {
            assert(i + p.len() > s.len());
            assert(find_from(s, p, i) == -1);
        } else {
            lemma_find_from_skip(s, p, from + 1, i);
        }
    }
}

/// Copy of `s[a..b]`.
pub fn subvec(s: &Vec<char>, a: usize, b: usize) -> (r: Vec<char>)
    requires
        a <= b <= s.len(),
    ensures
        r@ == s@.subrange(a as int, b as int),
{
    let mut r: Vec<char> = Vec::new();
    let mut i: usize = a;
    while i < b
        invariant
            a <= i <= b <= s.len(),
            r@ == s@.subrange(a as int, i as int),
        decreases b - i,
    {
        r.push(s[i]);
        i = i + 1;
        assert(r@ =~= s@.subrange(a as int, i as int));
    }
    r
}

/// Whether `p` occurs in `s` at position `i` (exec counterpart of `match_at`).
pub fn matches_at(s: &Vec<char>, p: &Vec<char>, i: usize) -> (r: bool)
    requires
        i + p.len() <= s.len(),
    ensures
        r == match_at(s@, p@, i as int),
{
    let mut k: usize = 0;
    while k < p.len()
        invariant
            k <= p.len(),
            i + p.len() <= s.len(),
            forall|m: int| 0 <= m < k ==> s@[i + m] == p@[m],
        decreases p.len() - k,
    {
        if s[i + k] != p[k] {
            assert(s@.subrange(i as int, i + p@.len() as int)[k as int] != p@[k as int]);
            return false;
        }
        k = k + 1;
    }
    assert(s@.subrange(i as int, i + p@.len() as int) =~= p@);
    true
}

/// First occurrence of `p` in `s` at or after `from`.
pub fn find_pattern(s: &Vec<char>, p: &Vec<char>, from: usize) -> (r: Option<usize>)
    requires
        p.len() >= 1,
    ensures
        r is Some ==> find_from(s@, p@, from as int) == r->Some_0 as int,
        r is None ==> find_from(s@, p@, from as int) == -1,
{
    let mut i: usize = from;
    if p.len() > s.len() {
        return None;
    }
    let limit: usize = s.len() - p.len();
    while i <= limit
        invariant
            from <= i,
            1 <= p.len() <= s.len(),
            limit == s.len() - p.len(),
            forall|j: int| from <= j < i ==> !match_at(s@, p@, j),
        decreases limit + 1 - i,
    {
        if matches_at(s, p, i) {
            proof {
                lemma_find_from_skip(s@, p@, from as int, i as int);
            }
            return Some(i);
        }
        i = i + 1;
    }
    proof {
        lemma_find_from_skip(s@, p@, from as int, i as int);
        assert(find_from(s@, p@, i as int) == -1);
    }
    None
}

/// `s` begins with `p`.
pub open spec fn starts_with(s: Seq<char>, p: Seq<char>) -> bool {
    p.len() <= s.len() && s.subrange(0, p.len() as int) == p
}

pub fn begins_with(s: &Vec<char>, p: &Vec<char>) -> (r: bool)
    ensures
        r == starts_with(s@, p@),
{
    if p.len() > s.len() {
        return false;
    }
    matches_at(s, p, 0)
}

/// The characters of `s`, in order.
pub fn chars_of(s: &str) -> (r: Vec<char>)
    ensures
        r@ == s@,
{
    let n = s.unicode_len();
    let mut r: Vec<char> = Vec::new();
    let mut i: usize = 0;
    while i < n
        invariant
            i <= n,
            n == s@.len(),
            r@ == s@.subrange(0, i as int),
        decreases n - i,
    {
        r.push(s.get_char(i));
        i = i + 1;
        assert(r@ =~= s@.subrange(0, i as int));
    }
    assert(r@ =~= s@);
    r
}

/// Relies on `str`'s `FromIterator<char>` implementation: collecting the
/// characters of `v` yields the `String` holding exactly those characters.
#[verifier::external_body]
pub(crate) fn string_of(v: &Vec<char>) -> (r: String)
    ensures
        r@ == v@,
{
    v.iter().collect()
}

/// The pieces of `s` between the non-overlapping, leftmost-first occurrences
/// of `p`; one piece (all of `s`) when `p` does not occur.
pub open spec fn split_by(s: Seq<char>, p: Seq<char>) -> Seq<Seq<char>>
    decreases s.len(),
    via split_by_dec
{
    let i = find_from(s, p, 0);
    if i < 0 {
        seq![s]
    } else {
        seq![s.subrange(0, i)] + split_by(s.subrange(i + p.len() as int, s.len() as int), p)
    }
}

#[via_fn]
proof fn split_by_dec(s: Seq<char>, p: Seq<char>) {
    if find_from(s, p, 0) >= 0 {
        lemma_find_from_found(s, p, 0);
    }
}

pub fn split_pattern(s: &Vec<char>, p: &Vec<char>) -> (r: Vec<Vec<char>>)
    requires
        p.len() >= 1,
    ensures
        r.deep_view() == split_by(s@, p@),
{
    let mut pieces: Vec<Vec<char>> = Vec::new();
    let mut rest: Vec<char> = subvec(s, 0, s.len());
    proof {
        assert(rest@ =~= s@);
        assert(pieces.deep_view() + split_by(rest@, p@) =~~= split_by(s@, p@));
    }
    loop
        invariant
            p.len() >= 1,
            split_by(s@, p@) == pieces.deep_view() + split_by(rest@, p@),
        decreases rest.len(),
    {
        let ghost pieces_pre = pieces.deep_view();
        match find_pattern(&rest, p, 0) {
            Some(i) => {
                proof {
                    lemma_find_from_found(rest@, p@, 0);
                }
                let piece = subvec(&rest, 0, i);
                pieces.push(piece);
                let next = subvec(&rest, i + p.len(), rest.len());
                proof {
                    assert(pieces.deep_view() =~~= pieces_pre.push(rest@.subrange(0, i as int)));
                    assert(split_by(rest@, p@) == seq![rest@.subrange(0, i as int)] + split_by(
                        next@,
                        p@,
                    ));
                    assert(pieces.deep_view() + split_by(next@, p@) =~~= pieces_pre + split_by(
                        rest@,
                        p@,
                    ));
                }
                rest = next;
            },
            None => {
                pieces.push(rest);
                proof {
                    assert(pieces.deep_view() =~~= pieces_pre.push(pieces@[pieces@.len() - 1]@));
                    assert(pieces.deep_view() =~~= split_by(s@, p@));
                }
                return pieces;
            },
        }
    }
}

/// `s` with every (leftmost-first, non-overlapping) occurrence of `p` removed.
pub open spec fn remove_all(s: Seq<char>, p: Seq<char>) -> Seq<char>
    decreases s.len(),
    via remove_all_dec
{
    let i = find_from(s, p, 0);
    if i < 0 {
        s
    } else {
        s.subrange(0, i) + remove_all(s.subrange(i + p.len() as int, s.len() as int), p)
    }
}

#[via_fn]
proof fn remove_all_dec(s: Seq<char>, p: Seq<char>) {
    if find_from(s, p, 0) >= 0 {
        lemma_find_from_found(s, p, 0);
    }
}

pub fn remove_pattern(s: &Vec<char>, p: &Vec<char>) -> (r: Vec<char>)
    requires
        p.len() >= 1,
    ensures
        r@ == remove_all(s@, p@),
{
    let mut out: Vec<char> = Vec::new();
    let mut rest: Vec<char> = subvec(s, 0, s.len());
    proof {
        assert(rest@ =~= s@);
        assert(out@ + remove_all(rest@, p@) =~= remove_all(s@, p@));
    }
    loop
        invariant
            p.len() >= 1,
            remove_all(s@, p@) == out@ + remove_all(rest@, p@),
        decreases rest.len(),
    {
        let ghost out_pre = out@;
        match find_pattern(&rest, p, 0) {
            Some(i) => {
                proof {
                    lemma_find_from_found(rest@, p@, 0);
                }
                let mut k: usize = 0;
                while k < i
                    invariant
                        k <= i,
                        i + p.len() <= rest.len(),
                        out@ == out_pre + rest@.subrange(0, k as int),
                    decreases i - k,
                {
                    out.push(rest[k]);
                    k = k + 1;
                    assert(out@ =~= out_pre + rest@.subrange(0, k as int));
                }
                let next = subvec(&rest, i + p.len(), rest.len());
                proof {
                    assert(remove_all(rest@, p@) == rest@.subrange(0, i as int) + remove_all(
                        next@,
                        p@,
                    ));
                    assert(out@ + remove_all(next@, p@) =~= out_pre + remove_all(rest@, p@));
                }
                rest = next;
            },
            None => {
                let mut k: usize = 0;
                while k < rest.len()
                    invariant
                        k <= rest.len(),
                        out@ == out_pre + rest@.subrange(0, k as int),
                    decreases rest.len() - k,
                {
                    out.push(rest[k]);
                    k = k + 1;
                    assert(out@ =~= out_pre + rest@.subrange(0, k as int));
                }
                proof {
                    assert(rest@.subrange(0, rest@.len() as int) =~= rest@);
                    assert(out@ =~= remove_all(s@, p@));
                }
                return out;
            },
        }
    }
}

/// Index of the first whitespace character at or after `i`, or `s.len()`.
pub open spec fn first_space(s: Seq<char>, i: int) -> int
    decreases s.len() - i,
{
    if i < 0 || i >= s.len() {
        s.len() as int
    } else if is_space_char(s[i]) {
        i
    } else {
        first_space(s, i + 1)
    }
}

pub proof fn lemma_first_space(s: Seq<char>, i: int)
    requires
        0 <= i <= s.len(),
    ensures
        i <= first_space(s, i) <= s.len(),
        first_space(s, i) < s.len() ==> is_space_char(s[first_space(s, i)]),
        forall|j: int| i <= j < first_space(s, i) ==> !is_space_char(s[j]),
    decreases s.len() - i,
{
    if i < s.len() && !is_space_char(s[i]) {
        lemma_first_space(s, i + 1);
    }
}

/// Index of the first non-whitespace character at or after `i`, or `s.len()`.
pub open spec fn first_non_space(s: Seq<char>, i: int) -> int
    decreases s.len() - i,
{
    if i < 0 || i >= s.len() {
        s.len() as int
    } else if !is_space_char(s[i]) {
        i
    } else {
        first_non_space(s, i + 1)
    }
}

pub proof fn lemma_first_non_space(s: Seq<char>, i: int)
    requires
        0 <= i <= s.len(),
    ensures
        i <= first_non_space(s, i) <= s.len(),
        first_non_space(s, i) < s.len() ==> !is_space_char(s[first_non_space(s, i)]),
        forall|j: int| i <= j < first_non_space(s, i) ==> is_space_char(s[j]),
    decreases s.len() - i,
{
    if i < s.len() && is_space_char(s[i]) {
        lemma_first_non_space(s, i + 1);
    }
}

/// Index one past the last non-whitespace character of `s`, or 0 when `s`
/// is all whitespace.
pub open spec fn last_non_space_end(s: Seq<char>) -> int
    decreases s.len(),
{
    if s.len() == 0 {
        0
    } else if is_space_char(s.last()) {
        last_non_space_end(s.drop_last())
    } else {
        s.len() as int
    }
}

pub proof fn lemma_last_non_space_end(s: Seq<char>)
    ensures
        0 <= last_non_space_end(s) <= s.len(),
        last_non_space_end(s) > 0 ==> !is_space_char(s[last_non_space_end(s) - 1]),
        forall|j: int| last_non_space_end(s) <= j < s.len() ==> is_space_char(s[j]),
    decreases s.len(),
{
    if s.len() > 0 && is_space_char(s.last()) {
        lemma_last_non_space_end(s.drop_last());
        assert forall|j: int| last_non_space_end(s) <= j < s.len() implies is_space_char(
            s[j],
        ) by {
            if j < s.len() - 1 {
                assert(s.drop_last()[j] == s[j]);
            }
        }
    }
}

/// `s` with leading and trailing whitespace removed.
pub open spec fn spec_trim(s: Seq<char>) -> Seq<char> {
    let a = first_non_space(s, 0);
    let b = last_non_space_end(s);
    if a < b {
        s.subrange(a, b)
    } else {
        Seq::empty()
    }
}

pub fn trim(s: &Vec<char>) -> (r: Vec<char>)
    ensures
        r@ == spec_trim(s@),
{
    proof {
        lemma_first_non_space(s@, 0);
        lemma_last_non_space_end(s@);
    }
    let mut a: usize = 0;
    while a < s.len() && is_space(s[a])
        invariant
            0 <= a <= s.len(),
            forall|j: int| 0 <= j < a ==> is_space_char(s@[j]),
        decreases s.len() - a,
    {
        a = a + 1;
    }
    proof {
        assert(first_non_space(s@, 0) == a as int) by {
            lemma_first_non_space_skip(s@, 0, a as int);
        }
    }
    let mut b: usize = s.len();
    while b > a && is_space(s[b - 1])
        invariant
            a <= b <= s.len(),
            forall|j: int| b <= j < s.len() ==> is_space_char(s@[j]),
        decreases b,
    {
        b = b - 1;
    }
    if a == b {
        proof {
            if last_non_space_end(s@) > a as int {
                assert(!is_space_char(s@[last_non_space_end(s@) - 1]));
            }
        }
        Vec::new()
    } else {
        proof {
            assert(!is_space_char(s@[b - 1]));
            assert(last_non_space_end(s@) == b as int) by {
                lemma_last_non_space_ge(s@, b as int);
            }
        }
        subvec(s, a, b)
    }
}

pub proof fn lemma_first_non_space_skip(s: Seq<char>, i: int, a: int)
    requires
        0 <= i <= a <= s.len(),
        forall|j: int| i <= j < a ==> is_space_char(s[j]),
        a < s.len() ==> !is_space_char(s[a]),
    ensures
        first_non_space(s, i) == a,
    decreases a - i,
{
    if i < a {
        lemma_first_non_space_skip(s, i + 1, a);
    }
}

pub proof fn lemma_last_non_space_ge(s: Seq<char>, b: int)
    requires
        0 < b <= s.len(),
        !is_space_char(s[b - 1]),
        forall|j: int| b <= j < s.len() ==> is_space_char(s[j]),
    ensures
        last_non_space_end(s) == b,
    decreases s.len(),
{
    if s.len() > 0 && is_space_char(s.last()) {
        lemma_last_non_space_ge(s.drop_last(), b);
    }
}

/// The whitespace-separated tokens of `s`, in order; no token is empty.
pub open spec fn split_ws(s: Seq<char>) -> Seq<Seq<char>>
    decreases s.len(),
    via split_ws_dec
{
    if s.len() == 0 {
        Seq::empty()
    } else if is_space_char(s[0]) {
        split_ws(s.subrange(1, s.len() as int))
    } else {
        let e = first_space(s, 0);
        seq![s.subrange(0, e)] + split_ws(s.subrange(e, s.len() as int))
    }
}

#[via_fn]
proof fn split_ws_dec(s: Seq<char>) {
    if s.len() > 0 && !is_space_char(s[0]) {
        lemma_first_space(s, 0);
        lemma_first_space(s, 1);
    }
}

pub fn split_whitespace(s: &Vec<char>) -> (r: Vec<Vec<char>>)
    ensures
        r.deep_view() == split_ws(s@),
{
    let mut tokens: Vec<Vec<char>> = Vec::new();
    let mut rest: Vec<char> = subvec(s, 0, s.len());
    proof {
        assert(rest@ =~= s@);
        assert(tokens.deep_view() + split_ws(rest@) =~~= split_ws(s@));
    }
    loop
        invariant
            split_ws(s@) == tokens.deep_view() + split_ws(rest@),
        decreases rest.len(),
    {
        let ghost tokens_pre = tokens.deep_view();
        if rest.len() == 0 {
            proof {
                assert(tokens.deep_view() =~~= split_ws(s@));
            }
            return tokens;
        }
        if is_space(rest[0]) {
            let next = subvec(&rest, 1, rest.len());
            proof {
                assert(tokens_pre + split_ws(next@) =~~= tokens_pre + split_ws(rest@));
            }
            rest = next;
        } else {
            proof {
                lemma_first_space(rest@, 0);
            }
            let mut e: usize = 0;
            while e < rest.len() && !is_space(rest[e])
                invariant
                    0 <= e <= rest.len(),
                    forall|j: int| 0 <= j < e ==> !is_space_char(rest@[j]),
                decreases rest.len() - e,
            {
                e = e + 1;
            }
            proof {
                lemma_first_space_skip(rest@, 0, e as int);
            }
            let token = subvec(&rest, 0, e);
            tokens.push(token);
            let next = subvec(&rest, e, rest.len());
            proof {
                assert(tokens.deep_view() =~~= tokens_pre.push(rest@.subrange(0, e as int)));
                assert(tokens.deep_view() + split_ws(next@) =~~= tokens_pre + split_ws(rest@));
            }
            rest = next;
        }
    }
}

pub proof fn lemma_first_space_skip(s: Seq<char>, i: int, e: int)
    requires
        0 <= i <= e <= s.len(),
        forall|j: int| i <= j < e ==> !is_space_char(s[j]),
        e < s.len() ==> is_space_char(s[e]),
    ensures
        first_space(s, i) == e,
    decreases e - i,
{
    if i < e {
        lemma_first_space_skip(s, i + 1, e);
    }
}

/// ASCII lower-casing, character by character; characters outside 'A'..='Z'
/// are kept as they are.
pub open spec fn lower_char(c: char) -> char {
    if 'A' <= c && c <= 'Z' {
        (((c as u8) + 32) as char)
    } else {
        c
    }
}

pub open spec fn lower_seq(s: Seq<char>) -> Seq<char> {
    s.map(|i: int, c: char| lower_char(c))
}

pub fn to_lower(s: &Vec<char>) -> (r: Vec<char>)
    ensures
        r@ == lower_seq(s@),
{
    let mut r: Vec<char> = Vec::new();
    let mut i: usize = 0;
    while i < s.len()
        invariant
            i <= s.len(),
            r@ == lower_seq(s@).subrange(0, i as int),
        decreases s.len() - i,
    {
        let c = s[i];
        if 'A' <= c && c <= 'Z' {
            r.push(((c as u8) + 32) as char);
        } else {
            r.push(c);
        }
        i = i + 1;
        assert(r@ =~= lower_seq(s@).subrange(0, i as int));
    }
    assert(r@ =~= lower_seq(s@));
    r
}

/// Strict lexicographic order on character sequences, by code point.
pub open spec fn seq_lt(a: Seq<char>, b: Seq<char>) -> bool
    decreases a.len(),
{
    if b.len() == 0 {
        false
    } else if a.len() == 0 {
        true
    } else if a[0] != b[0] {
        a[0] < b[0]
    } else {
        seq_lt(a.drop_first(), b.drop_first())
    }
}

pub open spec fn seq_le(a: Seq<char>, b: Seq<char>) -> bool {
    seq_lt(a, b) || a == b
}

pub proof fn lemma_seq_lt_total(a: Seq<char>, b: Seq<char>)
    ensures
        seq_lt(a, b) || seq_lt(b, a) || a == b,
    decreases a.len(),
{
    if b.len() == 0 {
        if a.len() == 0 {
            assert(a =~= b);
        }
    } else if a.len() == 0 {
    } else if a[0] == b[0] {
        lemma_seq_lt_total(a.drop_first(), b.drop_first());
        if a.drop_first() == b.drop_first() {
            assert(a.drop_first().len() == a.len() - 1);
            assert(b.drop_first().len() == b.len() - 1);
            assert(a.len() == b.len());
            assert forall|i: int| 0 <= i < a.len() implies a[i] == b[i] by {
                if i > 0 {
                    assert(a.drop_first()[i - 1] == a[i]);
                    assert(b.drop_first()[i - 1] == b[i]);
                } else {
                    assert(a[0] == b[0]);
                }
            }
            assert(a =~= b);
        }
    }
}

pub proof fn lemma_seq_lt_trans(a: Seq<char>, b: Seq<char>, c: Seq<char>)
    requires
        seq_lt(a, b),
        seq_lt(b, c),
    ensures
        seq_lt(a, c),
    decreases a.len(),
{
    if a.len() > 0 && b.len() > 0 && c.len() > 0 {
        if a[0] == b[0] && b[0] == c[0] {
            lemma_seq_lt_trans(a.drop_first(), b.drop_first(), c.drop_first());
        }
    }
}

pub proof fn lemma_seq_lt_irrefl(a: Seq<char>)
    ensures
        !seq_lt(a, a),
    decreases a.len(),
{
    if a.len() > 0 {
        lemma_seq_lt_irrefl(a.drop_first());
    }
}

proof fn lemma_seq_lt_skip(a: Seq<char>, b: Seq<char>, i: int)
    requires
        0 <= i <= a.len(),
        i <= b.len(),
        forall|j: int| 0 <= j < i ==> a[j] == b[j],
    ensures
        seq_lt(a, b) == seq_lt(a.skip(i), b.skip(i)),
    decreases i,
{
    if i > 0 {
        assert(a.len() > 0 && b.len() > 0 && a[0] == b[0]);
        lemma_seq_lt_skip(a.drop_first(), b.drop_first(), i - 1);
        assert(a.drop_first().skip(i - 1) =~= a.skip(i));
        assert(b.drop_first().skip(i - 1) =~= b.skip(i));
    } else {
        assert(a.skip(0) =~= a);
        assert(b.skip(0) =~= b);
    }
}

/// Exec comparison deciding `seq_lt`.
pub fn vec_lt(a: &Vec<char>, b: &Vec<char>) -> (r: bool)
    ensures
        r == seq_lt(a@, b@),
{
    let n: usize = if a.len() < b.len() {
        a.len()
    } else {
        b.len()
    };
    let mut i: usize = 0;
    while i < n
        invariant
            i <= n,
            n == if a@.len() < b@.len() {
                a@.len()
            } else {
                b@.len()
            },
            forall|j: int| 0 <= j < i ==> a@[j] == b@[j],
        decreases n - i,
    {
        if a[i] != b[i] {
            proof {
                lemma_seq_lt_skip(a@, b@, i as int);
                assert(a@.skip(i as int)[0] == a@[i as int]);
                assert(b@.skip(i as int)[0] == b@[i as int]);
            }
            return a[i] < b[i];
        }
        i = i + 1;
    }
    proof {
        lemma_seq_lt_skip(a@, b@, n as int);
        if a@.len() < b@.len() {
            assert(a@.skip(n as int).len() == 0);
            assert(b@.skip(n as int).len() > 0);
        } else if a@.len() == b@.len() {
            assert(a@.skip(n as int).len() == 0);
            assert(b@.skip(n as int).len() == 0);
        } else {
            assert(b@.skip(n as int).len() == 0);
            assert(a@.skip(n as int).len() > 0);
        }
    }
    a.len() < b.len()
}

/// Appends all of `src` to `dst`.
pub fn push_all(dst: &mut Vec<char>, src: &Vec<char>)
    ensures
        final(dst)@ == old(dst)@ + src@,
{
    let mut i: usize = 0;
    proof {
        assert(dst@ =~= old(dst)@ + src@.subrange(0, 0));
    }
    while i < src.len()
        invariant
            i <= src.len(),
            dst@ == old(dst)@ + src@.subrange(0, i as int),
        decreases src.len() - i,
    {
        dst.push(src[i]);
        i = i + 1;
        assert(dst@ =~= old(dst)@ + src@.subrange(0, i as int));
    }
    proof {
        assert(src@.subrange(0, src@.len() as int) =~= src@);
    }
}

/// Exec equality of character vectors.
pub fn vec_eq(a: &Vec<char>, b: &Vec<char>) -> (r: bool)
    ensures
        r == (a@ == b@),
{
    if a.len() != b.len() {
        return false;
    }
    let mut i: usize = 0;
    while i < a.len()
        invariant
            i <= a.len(),
            a.len() == b.len(),
            forall|j: int| 0 <= j < i ==> a@[j] == b@[j],
        decreases a.len() - i,
    {
        if a[i] != b[i] {
            return false;
        }
        i = i + 1;
    }
    proof {
        assert(a@ =~= b@);
    }
    true
}

} // verus!
