//! Character-level text utilities: conversion, trimming, decimal parsing,
//! case-insensitive comparison, tokenization and ordering.
//!
//! All text the engine stores or inspects is modelled as a sequence of
//! Unicode scalar values (`char`). Tokenization and case-insensitive
//! matching fold case with the Unicode lowercase mapping and classify word
//! characters as the standard library does; both results are named, not
//! restated, and everything downstream of them is verified. Only the
//! comparison of configuration keywords against their ASCII aliases folds
//! ASCII-only.

use vstd::prelude::*;

verus! {

use vstd::string::StrSliceExecFns;
use vstd::string::StringExecFns;

/// ASCII whitespace, the characters `trim` strips from field edges.
pub open spec fn is_ws(c: char) -> bool {
    c == ' ' || c == '\t' || c == '\r' || c == '\n'
}

/// ASCII decimal digit.
pub open spec fn is_digit(c: char) -> bool {
    48 <= c as u32 && c as u32 <= 57
}

pub open spec fn digit_val(c: char) -> int {
    c as u32 - 48
}

/// Value of a digit string, most significant digit first.
pub open spec fn digits_val(s: Seq<char>) -> int
    decreases s.len(),
{
    if s.len() == 0 {
        0
    } else {
        digits_val(s.drop_last()) * 10 + digit_val(s.last())
    }
}

pub open spec fn all_digits(s: Seq<char>) -> bool {
    forall|i: int| 0 <= i < s.len() ==> is_digit(#[trigger] s[i])
}

/// What `str::parse::<i64>` accepts: an optional sign followed by at least
/// one digit, rejecting any other character and any out-of-range value.
pub open spec fn spec_parse_i64(s: Seq<char>) -> Option<i64> {
    let neg = s.len() > 0 && s[0] == '-';
    let signed = s.len() > 0 && (s[0] == '-' || s[0] == '+');
    let ds = if signed {
        s.subrange(1, s.len() as int)
    } else {
        s
    };
    if ds.len() == 0 || !all_digits(ds) {
        None
    } else {
        let v = if neg {
            -digits_val(ds)
        } else {
            digits_val(ds)
        };
        if i64::MIN <= v <= i64::MAX {
            Some(v as i64)
        } else {
            None
        }
    }
}

/// Collects the characters of a string slice into a vector.
pub fn to_chars(s: &str) -> (r: Vec<char>)
    ensures
        r@ == s@,
{
    let n = s.unicode_len();
    let mut r: Vec<char> = Vec::new();
    let mut i: usize = 0;
    while i < n
        invariant
            n == s@.len(),
            i <= n,
            r@ =~= s@.subrange(0, i as int),
        decreases n - i,
    {
        r.push(s.get_char(i));
        i += 1;
    }
    proof {
        assert(r@ =~= s@);
    }
    r
}

pub open spec fn trim_front(s: Seq<char>) -> Seq<char>
    decreases s.len(),
{
    if s.len() > 0 && is_ws(s[0]) {
        trim_front(s.skip(1))
    } else {
        s
    }
}

pub open spec fn trim_back(s: Seq<char>) -> Seq<char>
    decreases s.len(),
{
    if s.len() > 0 && is_ws(s.last()) {
        trim_back(s.drop_last())
    } else {
        s
    }
}

/// The string with ASCII whitespace removed from both ends.
pub open spec fn spec_trim(s: Seq<char>) -> Seq<char> {
    trim_back(trim_front(s))
}

/// Removes ASCII whitespace from both ends.
pub fn trim(s: &Vec<char>) -> (r: Vec<char>)
    ensures
        r@ == spec_trim(s@),
{
    let n = s.len();
    proof {
        assert(s@.skip(0) =~= s@);
    }
    let mut a: usize = 0;
    while a < n && is_ws_exec(s[a])
        invariant
            n == s@.len(),
            a <= n,
            trim_front(s@) == trim_front(s@.skip(a as int)),
        decreases n - a,
    {
        proof {
            assert(s@.skip(a as int)[0] == s@[a as int]);
            assert(s@.skip(a as int).skip(1) =~= s@.skip(a as int + 1));
        }
        a += 1;
    }
    proof {
        assert(trim_front(s@) =~= s@.skip(a as int)) by {
            if a < n {
                assert(s@.skip(a as int)[0] == s@[a as int]);
            } else {
                assert(s@.skip(a as int) =~= Seq::<char>::empty());
            }
        }
    }
    let ghost t = s@.skip(a as int);
    proof {
        assert(t.take(n as int - a as int) =~= t);
    }
    let mut b: usize = n;
    while b > a && is_ws_exec(s[b - 1])
        invariant
            n == s@.len(),
            a <= b <= n,
            t == s@.skip(a as int),
            trim_back(t) == trim_back(t.take(b - a)),
        decreases b,
    {
        proof {
            let m = b - a;
            assert(t.take(m)[m - 1] == s@[b - 1]);
            assert(t.take(m).last() == s@[b - 1]);
            assert(t.take(m).drop_last() =~= t.take(m - 1));
        }
        b -= 1;
    }
    proof {
        assert(trim_back(t) =~= t.take(b - a)) by {
            if b > a {
                assert(t.take(b - a).last() == s@[b as int - 1]);
            } else {
                assert(t.take(b - a) =~= Seq::<char>::empty());
            }
        }
        assert(t.take(b - a) =~= s@.subrange(a as int, b as int));
    }
    let mut r: Vec<char> = Vec::new();
    let mut i: usize = a;
    while i < b
        invariant
            a <= i <= b <= n,
            n == s@.len(),
            r@ =~= s@.subrange(a as int, i as int),
        decreases b - i,
    {
        r.push(s[i]);
        i += 1;
    }
    proof {
        assert(r@ =~= s@.subrange(a as int, b as int));
    }
    r
}

/// The character bounds of the trimmed middle of a string slice.
pub fn trim_bounds(s: &str) -> (r: (usize, usize))
    ensures
        0 <= r.0 <= r.1 <= s@.len(),
        s@.subrange(r.0 as int, r.1 as int) == spec_trim(s@),
{
    let n = s.unicode_len();
    proof {
        assert(s@.skip(0) =~= s@);
    }
    let mut a: usize = 0;
    while a < n && is_ws_exec(s.get_char(a))
        invariant
            n == s@.len(),
            a <= n,
            trim_front(s@) == trim_front(s@.skip(a as int)),
        decreases n - a,
    {
        proof {
            assert(s@.skip(a as int)[0] == s@[a as int]);
            assert(s@.skip(a as int).skip(1) =~= s@.skip(a as int + 1));
        }
        a += 1;
    }
    proof {
        assert(trim_front(s@) =~= s@.skip(a as int)) by {
            if a < n {
                assert(s@.skip(a as int)[0] == s@[a as int]);
            } else {
                assert(s@.skip(a as int) =~= Seq::<char>::empty());
            }
        }
    }
    let ghost t = s@.skip(a as int);
    proof {
        assert(t.take(n as int - a as int) =~= t);
    }
    let mut b: usize = n;
    while b > a && is_ws_exec(s.get_char(b - 1))
        invariant
            n == s@.len(),
            a <= b <= n,
            t == s@.skip(a as int),
            trim_back(t) == trim_back(t.take(b - a)),
        decreases b,
    {
        proof {
            let m = b - a;
            assert(t.take(m)[m - 1] == s@[b - 1]);
            assert(t.take(m).last() == s@[b - 1]);
            assert(t.take(m).drop_last() =~= t.take(m - 1));
        }
        b -= 1;
    }
    proof {
        assert(trim_back(t) =~= t.take(b - a)) by {
            if b > a {
                assert(t.take(b - a).last() == s@[b as int - 1]);
            } else {
                assert(t.take(b - a) =~= Seq::<char>::empty());
            }
        }
        assert(t.take(b - a) =~= s@.subrange(a as int, b as int));
    }
    (a, b)
}

/// Executable form of `is_ws`.
pub fn is_ws_exec(c: char) -> (r: bool)
    ensures
        r == is_ws(c),
{
    c == ' ' || c == '\t' || c == '\r' || c == '\n'
}

proof fn lemma_digits_val_nonneg(s: Seq<char>)
    requires
        all_digits(s),
    ensures
        digits_val(s) >= 0,
    decreases s.len(),
{
    if s.len() > 0 {
        assert(all_digits(s.drop_last())) by {
            assert(forall|i: int| 0 <= i < s.len() - 1 ==> s.drop_last()[i] == #[trigger] s[i]);
        }
        lemma_digits_val_nonneg(s.drop_last());
    }
}

proof fn lemma_digits_val_grows(s: Seq<char>, i: int)
    requires
        all_digits(s),
        0 <= i <= s.len(),
    ensures
        digits_val(s) >= digits_val(s.take(i)),
    decreases s.len() - i,
{
    if i < s.len() {
        lemma_digits_val_grows(s, i + 1);
        assert(s.take(i + 1).drop_last() =~= s.take(i));
        assert(s.take(i + 1).last() == s[i]);
        assert(all_digits(s.take(i))) by {
            assert(forall|k: int| 0 <= k < i ==> s.take(i)[k] == #[trigger] s[k]);
        }
        lemma_digits_val_nonneg(s.take(i));
        assert(digits_val(s.take(i + 1)) == digits_val(s.take(i)) * 10 + digit_val(s[i]));
        assert(digits_val(s.take(i)) * 10 >= digits_val(s.take(i))) by (nonlinear_arith)
            requires digits_val(s.take(i)) >= 0;
    } else {
        assert(s.take(i) =~= s);
    }
}

/// Executable form of `is_digit`.
pub fn is_digit_exec(c: char) -> (r: bool)
    ensures
        r == is_digit(c),
{
    let cp = c as u32;
    48 <= cp && cp <= 57
}

/// Parses a signed 64-bit decimal integer exactly as `str::parse::<i64>` does:
/// optional sign, then digits only; `None` on any other shape or overflow.
pub fn parse_i64_chars(s: &Vec<char>) -> (r: Option<i64>)
    ensures
        r == spec_parse_i64(s@),
{
    let n = s.len();
    let ghost whole = s@;
    let mut i: usize = 0;
    let mut neg = false;
    if n > 0 && (s[0] == '-' || s[0] == '+') {
        neg = s[0] == '-';
        i = 1;
    }
    let ghost st = i as int;
    let ghost ds = s@.subrange(st, n as int);
    proof {
        if st == 0 {
            assert(ds =~= s@);
        }
        assert(ds.take(0) =~= Seq::<char>::empty());
    }
    if i >= n {
        return None;
    }
    // largest magnitude representable with the given sign
    let limit: u64 = if neg {
        9223372036854775808
    } else {
        9223372036854775807
    };
    let mut acc: u64 = 0;
    while i < n
        invariant
            st <= i <= n,
            n == s@.len(),
            ds == s@.subrange(st, n as int),
            0 <= st <= 1,
            neg == (s@.len() > 0 && s@[0] == '-'),
            st == (if s@.len() > 0 && (s@[0] == '-' || s@[0] == '+') {
                1int
            } else {
                0int
            }),
            limit == if neg { 9223372036854775808u64 } else { 9223372036854775807u64 },
            acc <= limit,
            all_digits(ds.take(i - st)),
            acc == digits_val(ds.take(i - st)),
        decreases n - i,
    {
        let c = s[i];
        if !is_digit_exec(c) {
            proof {
                assert(ds[i - st] == s@[i as int]);
                assert(!all_digits(ds));
                if st == 0 {
                    assert(ds =~= s@);
                }
            }
            return None;
        }
        let d: u64 = (c as u32) as u64 - 48;
        proof {
            assert(ds.take(i - st + 1).drop_last() =~= ds.take(i - st));
            assert(ds.take(i - st + 1).last() == s@[i as int]);
        }
        if acc > (limit - d) / 10 {
            // the value can only grow from here: overflow either way
            proof {
                if st == 0 {
                    assert(ds =~= s@);
                }
                let k = i - st + 1;
                assert(acc * 10 + d > limit) by (nonlinear_arith)
                    requires
                        acc > (limit - d) / 10,
                        d <= limit,
                        (limit - d) / 10 == (((limit - d) as int) / 10),
                ;
                if all_digits(ds) {
                    lemma_digits_val_grows(ds, k);
                    assert(digits_val(ds.take(k)) == acc * 10 + d);
                    assert(digits_val(ds) > limit);
                    if neg {
                        assert(-digits_val(ds) < i64::MIN);
                    } else {
                        assert(digits_val(ds) > i64::MAX);
                    }
                }
            }
            return None;
        }
        proof {
            assert(acc * 10 + d <= limit) by (nonlinear_arith)
                requires
                    acc <= (limit - d) / 10,
                    d <= limit,
                    (limit - d) / 10 == (((limit - d) as int) / 10),
            ;
        }
        acc = acc * 10 + d;
        i += 1;
        proof {
            assert(all_digits(ds.take(i - st))) by {
                assert(forall|k: int| 0 <= k < i - st ==> ds.take(i - st)[k] == #[trigger] ds[k]);
                assert(forall|k: int| 0 <= k < i - st - 1 ==> #[trigger] ds.take(i - st - 1)[k] == ds[k]);
            }
        }
    }
    proof {
        assert(ds.take(n - st) =~= ds);
        if st == 0 {
            assert(ds =~= s@);
        }
    }
    if neg {
        if acc == 9223372036854775808 {
            Some(i64::MIN)
        } else {
            Some(-(acc as i64))
        }
    } else {
        Some(acc as i64)
    }
}

/// ASCII case folding on code points, for comparing configuration keywords
/// against their ASCII aliases: `A`..`Z` map to `a`..`z`.
pub open spec fn lower_cp(c: char) -> u32 {
    if 65 <= c as u32 && c as u32 <= 90 {
        (c as u32 + 32) as u32
    } else {
        c as u32
    }
}

/// Executable form of `lower_cp`.
pub fn lower_cp_exec(c: char) -> (r: u32)
    ensures
        r == lower_cp(c),
{
    let cp = c as u32;
    if 65 <= cp && cp <= 90 {
        cp + 32
    } else {
        cp
    }
}

/// Compares two string slices character by character.
pub fn str_eq(s: &str, t: &str) -> (r: bool)
    ensures
        r == (s@ == t@),
{
    let n = s.unicode_len();
    let m = t.unicode_len();
    if n != m {
        return false;
    }
    let mut i: usize = 0;
    while i < n
        invariant
            n == s@.len(),
            n == t@.len(),
            i <= n,
            forall|k: int| 0 <= k < i ==> #[trigger] s@[k] == t@[k],
        decreases n - i,
    {
        if s.get_char(i) != t.get_char(i) {
            return false;
        }
        i += 1;
    }
    proof {
        assert(s@ =~= t@);
    }
    true
}

/// Equality up to ASCII case.
pub open spec fn eq_ci(a: Seq<char>, b: Seq<char>) -> bool {
    a.len() == b.len() && forall|i: int| 0 <= i < a.len() ==> lower_cp(#[trigger] a[i]) == lower_cp(b[i])
}

/// Compares two string slices for equality up to ASCII case.
pub fn str_eq_ci(s: &str, t: &str) -> (r: bool)
    ensures
        r == eq_ci(s@, t@),
{
    let n = s.unicode_len();
    let m = t.unicode_len();
    if n != m {
        return false;
    }
    let mut i: usize = 0;
    while i < n
        invariant
            n == s@.len(),
            n == t@.len(),
            i <= n,
            forall|k: int| 0 <= k < i ==> lower_cp(#[trigger] s@[k]) == lower_cp(t@[k]),
        decreases n - i,
    {
        if lower_cp_exec(s.get_char(i)) != lower_cp_exec(t.get_char(i)) {
            return false;
        }
        i += 1;
    }
    true
}

/// `p` is a (case-sensitive) prefix of `s`.
pub open spec fn starts_with(s: Seq<char>, p: Seq<char>) -> bool {
    p.len() <= s.len() && forall|k: int| 0 <= k < p.len() ==> #[trigger] s[k] == p[k]
}

/// Checks whether `p` is a prefix of `s`.
pub fn starts_with_chars(s: &Vec<char>, p: &Vec<char>) -> (r: bool)
    ensures
        r == starts_with(s@, p@),
{
    let m = p.len();
    if m > s.len() {
        return false;
    }
    let mut k: usize = 0;
    while k < m
        invariant
            m == p@.len(),
            m <= s@.len(),
            k <= m,
            forall|j: int| 0 <= j < k ==> #[trigger] s@[j] == p@[j],
        decreases m - k,
    {
        if s[k] != p[k] {
            return false;
        }
        k += 1;
    }
    true
}

/// The query stands in `s` at offset `i`. Case-insensitive matching applies
/// this to the lowercase mappings of both sides.
pub open spec fn contains_at(s: Seq<char>, q: Seq<char>, i: int) -> bool {
    0 <= i && i + q.len() <= s.len() && forall|k: int|
        0 <= k < q.len() ==> #[trigger] s[i + k] == q[k]
}

/// `s` contains `q` as a contiguous run.
pub open spec fn spec_contains(s: Seq<char>, q: Seq<char>) -> bool {
    exists|i: int| contains_at(s, q, i)
}

/// Substring search.
pub fn contains_chars(s: &Vec<char>, q: &Vec<char>) -> (r: bool)
    ensures
        r == spec_contains(s@, q@),
{
    let n = s.len();
    let m = q.len();
    if m > n {
        proof {
            assert(forall|i: int| !contains_at(s@, q@, i));
        }
        return false;
    }
    let mut i: usize = 0;
    while i <= n - m
        invariant
            n == s@.len(),
            m == q@.len(),
            m <= n,
            i <= n - m + 1,
            forall|i0: int| 0 <= i0 < i ==> !contains_at(s@, q@, i0),
        decreases n - i,
    {
        let mut k: usize = 0;
        let mut all = true;
        while k < m
            invariant
                n == s@.len(),
                m == q@.len(),
                i + m <= n,
                k <= m,
                all == (forall|j: int| 0 <= j < k ==> #[trigger] s@[i + j] == q@[j]),
            decreases m - k,
        {
            if s[i + k] != q[k] {
                all = false;
                proof {
                    assert(!(forall|j: int| 0 <= j < k + 1 ==> #[trigger] s@[i + j] == q@[j])) by {
                        assert(s@[i + k] != q@[k as int]);
                    }
                }
            }
            k += 1;
        }
        if all {
            proof {
                assert(contains_at(s@, q@, i as int));
            }
            return true;
        }
        proof {
            assert(!contains_at(s@, q@, i as int));
        }
        i += 1;
    }
    proof {
        assert(forall|i0: int| contains_at(s@, q@, i0) ==> 0 <= i0 < i);
    }
    false
}

/// One pass of the TSV unescaper: every occurrence of the two-character
/// pattern `p0 p1`, scanned left to right, becomes the character `r`.
pub open spec fn spec_replace2(s: Seq<char>, p0: char, p1: char, r: char) -> Seq<char>
    decreases s.len(),
{
    if s.len() >= 2 && s[0] == p0 && s[1] == p1 {
        seq![r] + spec_replace2(s.skip(2), p0, p1, r)
    } else if s.len() == 0 {
        Seq::empty()
    } else {
        seq![s[0]] + spec_replace2(s.skip(1), p0, p1, r)
    }
}

/// Replaces every left-to-right occurrence of `p0 p1` with `rep`.
pub fn replace2(v: &Vec<char>, p0: char, p1: char, rep: char) -> (r: Vec<char>)
    ensures
        r@ == spec_replace2(v@, p0, p1, rep),
{
    let n = v.len();
    let mut out: Vec<char> = Vec::new();
    let mut i: usize = 0;
    proof {
        assert(v@.skip(0) =~= v@);
    }
    while i < n
        invariant
            n == v@.len(),
            i <= n,
            spec_replace2(v@, p0, p1, rep) == out@ + spec_replace2(v@.skip(i as int), p0, p1, rep),
        decreases n - i,
    {
        let ghost rest = v@.skip(i as int);
        if i + 1 < n && v[i] == p0 && v[i + 1] == p1 {
            out.push(rep);
            proof {
                assert(rest[0] == v@[i as int]);
                assert(rest[1] == v@[i as int + 1]);
                assert(rest.skip(2) =~= v@.skip(i as int + 2));
                assert(out@ + spec_replace2(v@.skip(i as int + 2), p0, p1, rep) =~= (
                out@.drop_last() + (seq![rep] + spec_replace2(rest.skip(2), p0, p1, rep))));
            }
            i += 2;
        } else {
            out.push(v[i]);
            proof {
                assert(rest[0] == v@[i as int]);
                assert(rest.skip(1) =~= v@.skip(i as int + 1));
                assert(!(rest.len() >= 2 && rest[0] == p0 && rest[1] == p1));
                assert(out@ + spec_replace2(v@.skip(i as int + 1), p0, p1, rep) =~= (
                out@.drop_last() + (seq![v@[i as int]] + spec_replace2(rest.skip(1), p0, p1, rep))));
            }
            i += 1;
        }
    }
    proof {
        assert(v@.skip(n as int) =~= Seq::<char>::empty());
        assert(out@ + Seq::<char>::empty() =~= out@);
    }
    out
}

/// Index of the first occurrence of `sep`, or `-1` where there is none.
pub open spec fn spec_find(s: Seq<char>, sep: char) -> int
    decreases s.len(),
{
    if s.len() == 0 {
        -1
    } else if s[0] == sep {
        0
    } else {
        let r = spec_find(s.skip(1), sep);
        if r == -1 {
            -1
        } else {
            r + 1
        }
    }
}

proof fn lemma_find_at(s: Seq<char>, sep: char, j: int)
    requires
        0 <= j <= s.len(),
        forall|k: int| 0 <= k < j ==> #[trigger] s[k] != sep,
        j < s.len() ==> s[j] == sep,
    ensures
        j < s.len() ==> spec_find(s, sep) == j,
        j == s.len() ==> spec_find(s, sep) == -1,
    decreases j,
{
    if j == 0 {
        if s.len() > 0 {
        } else {
        }
    } else {
        assert(s[0] != sep);
        assert(forall|k: int| 0 <= k < j - 1 ==> #[trigger] s.skip(1)[k] == s[k + 1]);
        lemma_find_at(s.skip(1), sep, j - 1);
    }
}

/// Splitting on a separator, as `str::split` does: `n` separators yield
/// `n + 1` pieces, empty pieces included.
pub open spec fn spec_split(s: Seq<char>, sep: char) -> Seq<Seq<char>>
    decreases s.len(),
    via spec_split_decreases
{
    let f = spec_find(s, sep);
    if f == -1 {
        seq![s]
    } else {
        seq![s.take(f)] + spec_split(s.skip(f + 1), sep)
    }
}

#[via_fn]
proof fn spec_split_decreases(s: Seq<char>, sep: char) {
    lemma_find_bounds(s, sep);
}

proof fn lemma_find_bounds(s: Seq<char>, sep: char)
    ensures
        spec_find(s, sep) == -1 || (0 <= spec_find(s, sep) < s.len()),
    decreases s.len(),
{
    if s.len() > 0 && s[0] != sep {
        lemma_find_bounds(s.skip(1), sep);
    }
}

/// The views of the pieces a split produced.
pub open spec fn views_of(r: Seq<String>) -> Seq<Seq<char>> {
    Seq::new(r.len(), |k: int| r[k]@)
}

/// Splits a string on a separator character; `str::split` semantics.
pub fn split_str(s: &str, sep: char) -> (r: Vec<String>)
    ensures
        views_of(r@) == spec_split(s@, sep),
        r@.len() >= 1,
{
    let n = s.unicode_len();
    let mut r: Vec<String> = Vec::new();
    let mut start: usize = 0;
    let mut i: usize = 0;
    proof {
        assert(s@.skip(0) =~= s@);
    }
    while i < n
        invariant
            n == s@.len(),
            start <= i <= n,
            forall|k: int| start <= k < i ==> #[trigger] s@[k] != sep,
            spec_split(s@, sep) =~= views_of(r@) + spec_split(s@.skip(start as int), sep),
        decreases n - i,
    {
        if s.get_char(i) == sep {
            let piece = s.substring_char(start, i).to_owned();
            proof {
                let rest = s@.skip(start as int);
                assert(forall|k: int|
                    0 <= k < i - start ==> #[trigger] rest[k] == s@[k + start as int]);
                lemma_find_at(rest, sep, i - start as int);
                assert(spec_find(rest, sep) == i - start);
                assert(rest.take(i - start as int) =~= s@.subrange(start as int, i as int));
                assert(rest.skip(i - start as int + 1) =~= s@.skip(i as int + 1));
                assert(piece@ == s@.subrange(start as int, i as int));
            }
            r.push(piece);
            proof {
                assert(views_of(r@) =~= views_of(r@.drop_last()) + seq![s@.subrange(
                    start as int,
                    i as int,
                )]);
                assert(views_of(r@) + spec_split(s@.skip(i as int + 1), sep) =~= views_of(
                    r@.drop_last(),
                ) + (seq![s@.subrange(start as int, i as int)] + spec_split(
                    s@.skip(i as int + 1),
                    sep,
                )));
            }
            start = i + 1;
        }
        i += 1;
    }
    let piece = s.substring_char(start, n).to_owned();
    proof {
        let rest = s@.skip(start as int);
        assert(forall|k: int| 0 <= k < n - start ==> #[trigger] rest[k] == s@[k + start as int]);
        lemma_find_at(rest, sep, n - start as int);
        assert(spec_find(rest, sep) == -1);
        assert(rest =~= s@.subrange(start as int, n as int));
        assert(piece@ == s@.subrange(start as int, n as int));
    }
    r.push(piece);
    proof {
        assert(views_of(r@) =~= views_of(r@.drop_last()) + seq![s@.subrange(
            start as int,
            n as int,
        )]);
        assert(spec_split(s@, sep) =~= views_of(r@));
    }
    r
}

pub open spec fn digit_char(d: int) -> char {
    if d == 0 {
        '0'
    } else if d == 1 {
        '1'
    } else if d == 2 {
        '2'
    } else if d == 3 {
        '3'
    } else if d == 4 {
        '4'
    } else if d == 5 {
        '5'
    } else if d == 6 {
        '6'
    } else if d == 7 {
        '7'
    } else if d == 8 {
        '8'
    } else {
        '9'
    }
}

/// The decimal digits of a non-negative number, most significant first.
pub open spec fn spec_digits(n: int) -> Seq<char>
    decreases n,
{
    if n < 10 {
        seq![digit_char(n)]
    } else {
        spec_digits(n / 10).push(digit_char(n % 10))
    }
}

fn digit_str(d: u64) -> (r: &'static str)
    requires
        d < 10,
    ensures
        r@ =~= seq![digit_char(d as int)],
{
    proof {
        reveal_strlit("0");
        reveal_strlit("1");
        reveal_strlit("2");
        reveal_strlit("3");
        reveal_strlit("4");
        reveal_strlit("5");
        reveal_strlit("6");
        reveal_strlit("7");
        reveal_strlit("8");
        reveal_strlit("9");
    }
    if d == 0 {
        "0"
    } else if d == 1 {
        "1"
    } else if d == 2 {
        "2"
    } else if d == 3 {
        "3"
    } else if d == 4 {
        "4"
    } else if d == 5 {
        "5"
    } else if d == 6 {
        "6"
    } else if d == 7 {
        "7"
    } else if d == 8 {
        "8"
    } else {
        "9"
    }
}

/// The two strings have the same code points.
pub open spec fn cp_eq(a: Seq<char>, b: Seq<char>) -> bool {
    a.len() == b.len() && forall|i: int| 0 <= i < a.len() ==> #[trigger] a[i] as u32 == b[i] as u32
}

/// Strict lexicographic order by code point.
pub open spec fn chars_lt(a: Seq<char>, b: Seq<char>) -> bool
    decreases a.len(),
{
    if b.len() == 0 {
        false
    } else if a.len() == 0 {
        true
    } else if a[0] as u32 == b[0] as u32 {
        chars_lt(a.skip(1), b.skip(1))
    } else {
        (a[0] as u32) < (b[0] as u32)
    }
}

/// Non-strict lexicographic order by code point.
pub open spec fn chars_le(a: Seq<char>, b: Seq<char>) -> bool {
    chars_lt(a, b) || cp_eq(a, b)
}

proof fn lemma_chars_lt_skip(a: Seq<char>, b: Seq<char>, i: int)
    requires
        0 <= i <= a.len(),
        i <= b.len(),
        forall|k: int| 0 <= k < i ==> #[trigger] a[k] as u32 == b[k] as u32,
    ensures
        chars_lt(a, b) == chars_lt(a.skip(i), b.skip(i)),
    decreases i,
{
    if i > 0 {
        assert(a[0] as u32 == b[0] as u32);
        assert(forall|k: int|
            0 <= k < i - 1 ==> #[trigger] a.skip(1)[k] as u32 == b.skip(1)[k] as u32) by {
            assert(forall|k: int| 0 <= k < i - 1 ==> #[trigger] a.skip(1)[k] == a[k + 1]);
            assert(forall|k: int| 0 <= k < i - 1 ==> #[trigger] b.skip(1)[k] == b[k + 1]);
        }
        lemma_chars_lt_skip(a.skip(1), b.skip(1), i - 1);
        assert(a.skip(1).skip(i - 1) =~= a.skip(i));
        assert(b.skip(1).skip(i - 1) =~= b.skip(i));
    } else {
        assert(a.skip(0) =~= a);
        assert(b.skip(0) =~= b);
    }
}

/// The order is total: two strings are related one way or the other.
pub proof fn lemma_chars_connex(a: Seq<char>, b: Seq<char>)
    ensures
        chars_lt(a, b) || chars_lt(b, a) || cp_eq(a, b),
    decreases a.len(),
{
    if b.len() == 0 {
        if a.len() == 0 {
            assert(cp_eq(a, b));
        }
    } else if a.len() == 0 {
    } else if a[0] as u32 == b[0] as u32 {
        lemma_chars_connex(a.skip(1), b.skip(1));
        if cp_eq(a.skip(1), b.skip(1)) {
            assert(cp_eq(a, b)) by {
                assert(forall|i: int| 1 <= i < a.len() ==> #[trigger] a[i] == a.skip(1)[i - 1]);
                assert(forall|i: int| 1 <= i < b.len() ==> #[trigger] b[i] == b.skip(1)[i - 1]);
            }
        }
    }
}

/// The order is transitive, and congruent with code-point equality.
pub proof fn lemma_chars_le_trans(a: Seq<char>, b: Seq<char>, c: Seq<char>)
    requires
        chars_le(a, b),
        chars_le(b, c),
    ensures
        chars_le(a, c),
    decreases a.len() + b.len() + c.len(),
{
    if cp_eq(a, b) && cp_eq(b, c) {
        assert(cp_eq(a, c));
    } else if a.len() == 0 {
        if c.len() == 0 {
            // b must then be empty as well, so all are cp_eq
            if chars_lt(a, b) {
                assert(b.len() > 0);
                assert(!chars_lt(b, c));
                assert(cp_eq(b, c));
                assert(false);
            }
        }
    } else if b.len() == 0 {
        if chars_lt(a, b) {
            assert(false);
        }
        assert(cp_eq(a, b));
        assert(a.len() == 0);
    } else if c.len() == 0 {
        if chars_lt(b, c) {
            assert(false);
        }
        assert(cp_eq(b, c));
        assert(c.len() == b.len());
        assert(false);
    } else {
        let ha = a[0] as u32;
        let hb = b[0] as u32;
        let hc = c[0] as u32;
        // head comparison facts from chars_le on each pair
        if ha == hb && hb == hc {
            assert(chars_le(a.skip(1), b.skip(1))) by {
                if cp_eq(a, b) {
                    assert(cp_eq(a.skip(1), b.skip(1))) by {
                        assert(forall|i: int|
                            0 <= i < a.len() - 1 ==> #[trigger] a.skip(1)[i] == a[i + 1]);
                        assert(forall|i: int|
                            0 <= i < b.len() - 1 ==> #[trigger] b.skip(1)[i] == b[i + 1]);
                    }
                }
            }
            assert(chars_le(b.skip(1), c.skip(1))) by {
                if cp_eq(b, c) {
                    assert(cp_eq(b.skip(1), c.skip(1))) by {
                        assert(forall|i: int|
                            0 <= i < b.len() - 1 ==> #[trigger] b.skip(1)[i] == b[i + 1]);
                        assert(forall|i: int|
                            0 <= i < c.len() - 1 ==> #[trigger] c.skip(1)[i] == c[i + 1]);
                    }
                }
            }
            lemma_chars_le_trans(a.skip(1), b.skip(1), c.skip(1));
            if cp_eq(a.skip(1), c.skip(1)) {
                if a.len() == c.len() {
                    assert(cp_eq(a, c)) by {
                        assert(forall|i: int|
                            1 <= i < a.len() ==> #[trigger] a[i] == a.skip(1)[i - 1]);
                        assert(forall|i: int|
                            1 <= i < c.len() ==> #[trigger] c[i] == c.skip(1)[i - 1]);
                    }
                } else {
                    assert(false);
                }
            } else {
                assert(chars_lt(a.skip(1), c.skip(1)));
                assert(chars_lt(a, c));
            }
        } else {
            // at least one head strictly increases
            if ha == hb {
                assert(chars_lt(b, c) && hb < hc || hb > hc && false) by {
                    if cp_eq(b, c) {
                        assert(b[0] as u32 == c[0] as u32);
                    }
                }
                assert(hb < hc || hb == hc);
                assert(ha < hc || (ha == hc && false));
                assert(chars_lt(a, c));
            } else if hb == hc {
                if cp_eq(a, b) {
                    assert(a[0] as u32 == b[0] as u32);
                    assert(false);
                }
                assert(chars_lt(a, b));
                assert(ha < hb);
                assert(chars_lt(a, c));
            } else {
                if cp_eq(a, b) {
                    assert(a[0] as u32 == b[0] as u32);
                    assert(false);
                }
                if cp_eq(b, c) {
                    assert(b[0] as u32 == c[0] as u32);
                    assert(false);
                }
                assert(ha < hb && hb < hc);
                assert(chars_lt(a, c));
            }
        }
    }
}

/// The order is strict: related strings are not equal, nor related both ways.
pub proof fn lemma_chars_lt_asym(a: Seq<char>, b: Seq<char>)
    requires
        chars_lt(a, b),
    ensures
        !chars_lt(b, a),
        !cp_eq(a, b),
        !cp_eq(b, a),
    decreases a.len(),
{
    if b.len() == 0 {
        assert(false);
    } else if a.len() == 0 {
    } else if a[0] as u32 == b[0] as u32 {
        lemma_chars_lt_asym(a.skip(1), b.skip(1));
        if cp_eq(a, b) {
            assert(cp_eq(a.skip(1), b.skip(1))) by {
                assert(forall|i: int| 0 <= i < a.len() - 1 ==> #[trigger] a.skip(1)[i] == a[i + 1]);
                assert(forall|i: int| 0 <= i < b.len() - 1 ==> #[trigger] b.skip(1)[i] == b[i + 1]);
            }
            assert(false);
        }
        if cp_eq(b, a) {
            assert(cp_eq(b.skip(1), a.skip(1))) by {
                assert(forall|i: int| 0 <= i < a.len() - 1 ==> #[trigger] a.skip(1)[i] == a[i + 1]);
                assert(forall|i: int| 0 <= i < b.len() - 1 ==> #[trigger] b.skip(1)[i] == b[i + 1]);
            }
            assert(false);
        }
    } else {
        if cp_eq(a, b) {
            assert(a[0] as u32 == b[0] as u32);
        }
        if cp_eq(b, a) {
            assert(b[0] as u32 == a[0] as u32);
        }
    }
}

/// The order depends on code points alone.
pub proof fn lemma_chars_lt_congr(a: Seq<char>, b: Seq<char>, c: Seq<char>)
    requires
        cp_eq(a, b),
    ensures
        chars_lt(a, c) == chars_lt(b, c),
        chars_lt(c, a) == chars_lt(c, b),
    decreases a.len() + c.len(),
{
    if a.len() == 0 || c.len() == 0 {
    } else {
        assert(a[0] as u32 == b[0] as u32);
        assert(cp_eq(a.skip(1), b.skip(1))) by {
            assert(forall|i: int| 0 <= i < a.len() - 1 ==> #[trigger] a.skip(1)[i] == a[i + 1]);
            assert(forall|i: int| 0 <= i < b.len() - 1 ==> #[trigger] b.skip(1)[i] == b[i + 1]);
        }
        lemma_chars_lt_congr(a.skip(1), b.skip(1), c.skip(1));
    }
}

/// Decides `chars_lt` by scanning to the first differing code point.
pub fn chars_lt_exec(a: &Vec<char>, b: &Vec<char>) -> (r: bool)
    ensures
        r == chars_lt(a@, b@),
{
    let n = a.len();
    let m = b.len();
    let min = if n < m {
        n
    } else {
        m
    };
    let mut i: usize = 0;
    while i < min
        invariant
            n == a@.len(),
            m == b@.len(),
            min == if n < m { n as int } else { m as int },
            i <= min,
            forall|k: int| 0 <= k < i ==> #[trigger] a@[k] as u32 == b@[k] as u32,
        decreases min - i,
    {
        let ca = a[i] as u32;
        let cb = b[i] as u32;
        if ca != cb {
            proof {
                lemma_chars_lt_skip(a@, b@, i as int);
                assert(a@.skip(i as int)[0] == a@[i as int]);
                assert(b@.skip(i as int)[0] == b@[i as int]);
            }
            return ca < cb;
        }
        i += 1;
    }
    proof {
        lemma_chars_lt_skip(a@, b@, min as int);
        if n < m {
            assert(a@.skip(min as int).len() == 0);
            assert(b@.skip(min as int).len() > 0);
        } else {
            assert(b@.skip(min as int).len() == 0);
        }
    }
    n < m
}

/// Decides code-point equality.
pub fn cp_eq_exec(a: &Vec<char>, b: &Vec<char>) -> (r: bool)
    ensures
        r == cp_eq(a@, b@),
{
    let n = a.len();
    if n != b.len() {
        return false;
    }
    let mut i: usize = 0;
    while i < n
        invariant
            n == a@.len(),
            n == b@.len(),
            i <= n,
            forall|k: int| 0 <= k < i ==> #[trigger] a@[k] as u32 == b@[k] as u32,
        decreases n - i,
    {
        if a[i] as u32 != b[i] as u32 {
            return false;
        }
        i += 1;
    }
    true
}

/// Names what `str::to_lowercase` returns: the Unicode lowercase mapping of
/// a whole text, a function of its characters alone.
pub uninterp spec fn lower_of(s: Seq<char>) -> Seq<char>;

/// Relies on `str::to_lowercase`: the Unicode lowercase mapping of the text,
/// which tokenization and case-insensitive matching fold with.
#[verifier::external_body]
pub(crate) fn lower_chars(v: &Vec<char>) -> (r: Vec<char>)
    ensures
        r@ == lower_of(v@),
{
    v.iter().collect::<String>().to_lowercase().chars().collect()
}

/// Names what `char::is_alphanumeric` returns: whether the character is
/// alphanumeric, a function of the character alone.
pub uninterp spec fn unicode_alnum(c: char) -> bool;

/// Relies on `char::is_alphanumeric`: the word characters of tokenization.
#[verifier::external_body]
pub(crate) fn is_alnum_char(c: char) -> (r: bool)
    ensures
        r == unicode_alnum(c),
{
    c.is_alphanumeric()
}

/// `[i, j)` is a maximal run of alphanumeric characters: a token occurrence.
/// Tokenization applies this to the lowercase mapping of a text.
pub open spec fn token_at(s: Seq<char>, i: int, j: int) -> bool {
    0 <= i < j <= s.len() && (forall|k: int| i <= k < j ==> unicode_alnum(#[trigger] s[k])) && (i
        == 0 || !unicode_alnum(s[i - 1])) && (j == s.len() || !unicode_alnum(s[j]))
}

/// The (lowercased) text `s` has `t` as a token.
pub open spec fn has_token(s: Seq<char>, t: Seq<char>) -> bool {
    exists|i: int, j: int| #[trigger] token_at(s, i, j) && s.subrange(i, j) == t
}

/// Two token occurrences that overlap are the same occurrence.
proof fn lemma_token_unique(s: Seq<char>, i: int, j: int, i0: int, j0: int)
    requires
        token_at(s, i, j),
        token_at(s, i0, j0),
        i0 < j,
        i < j0,
    ensures
        i0 == i && j0 == j,
{
    if i0 < i {
        assert(unicode_alnum(s[i - 1]));
    }
    if i0 > i {
        assert(unicode_alnum(s[i0 - 1]));
    }
    if j0 < j {
        assert(unicode_alnum(s[j0]));
    }
    if j0 > j {
        assert(unicode_alnum(s[j]));
    }
}

/// Extracts the tokens of a lowercased text: every entry is a token of
/// `s`, and every token of `s` is an entry.
pub fn tokens_of(s: &Vec<char>) -> (r: Vec<Vec<char>>)
    ensures
        forall|k: int| 0 <= k < r@.len() ==> has_token(s@, #[trigger] r@[k]@),
        forall|i: int, j: int|
            #[trigger] token_at(s@, i, j) ==> exists|k: int|
                0 <= k < r@.len() && #[trigger] r@[k]@ == s@.subrange(i, j),
{
    let n = s.len();
    let mut r: Vec<Vec<char>> = Vec::new();
    let mut i: usize = 0;
    while i < n
        invariant
            n == s@.len(),
            i <= n,
            forall|k: int| 0 <= k < r@.len() ==> has_token(s@, #[trigger] r@[k]@),
            forall|i0: int, j0: int|
                #[trigger] token_at(s@, i0, j0) && j0 <= i ==> exists|k: int|
                    0 <= k < r@.len() && #[trigger] r@[k]@ == s@.subrange(i0, j0),
            i == 0 || !unicode_alnum(s@[i - 1]) || i == n || !unicode_alnum(s@[i as int]),
        decreases n - i,
    {
        if is_alnum_char(s[i]) && (i == 0 || !is_alnum_char(s[i - 1])) {
            let start = i;
            let mut j = i + 1;
            let mut tok: Vec<char> = Vec::new();
            tok.push(s[i]);
            while j < n && is_alnum_char(s[j])
                invariant
                    n == s@.len(),
                    start < j <= n,
                    start == i,
                    forall|k: int| start <= k < j ==> unicode_alnum(#[trigger] s@[k]),
                    tok@ =~= s@.subrange(start as int, j as int),
                decreases n - j,
            {
                tok.push(s[j]);
                proof {
                    assert(tok@ =~= s@.subrange(start as int, j as int + 1));
                }
                j += 1;
            }
            proof {
                assert(token_at(s@, start as int, j as int));
            }
            let ghost r0 = r@;
            r.push(tok);
            proof {
                let ghost rr = r@;
                assert(rr =~= r0.push(tok));
                assert(rr.drop_last() =~= r0);
                assert(rr[rr.len() - 1]@ == s@.subrange(start as int, j as int));
                assert(forall|i0: int, j0: int|
                    #[trigger] token_at(s@, i0, j0) && j0 <= j ==> exists|k: int|
                        0 <= k < rr.len() && #[trigger] rr[k]@ == s@.subrange(i0, j0)) by {
                    assert forall|i0: int, j0: int|
                        #[trigger] token_at(s@, i0, j0) && j0 <= j implies exists|k: int|
                        0 <= k < rr.len() && #[trigger] rr[k]@ == s@.subrange(i0, j0) by {
                        if j0 <= i {
                            let k = choose|k: int|
                                0 <= k < r0.len() && #[trigger] r0[k]@ == s@.subrange(i0, j0);
                            assert(rr[k]@ == s@.subrange(i0, j0));
                        } else {
                            lemma_token_unique(s@, start as int, j as int, i0, j0);
                            assert(rr[rr.len() - 1]@ == s@.subrange(i0, j0));
                        }
                    }
                }
            }
            i = j;
        } else {
            proof {
                // the scan never stands strictly inside a run, so the current
                // character is not a token character, and no token ends at i + 1
                assert(!unicode_alnum(s@[i as int]));
                assert(forall|i0: int, j0: int|
                    #[trigger] token_at(s@, i0, j0) && j0 <= i + 1 ==> j0 <= i) by {
                    assert forall|i0: int, j0: int|
                        #[trigger] token_at(s@, i0, j0) && j0 == i + 1 implies false by {
                        assert(unicode_alnum(s@[j0 - 1]));
                    }
                }
            }
            i += 1;
        }
    }
    r
}

/// The token `t` occurs in the list `ts`.
pub open spec fn token_found(ts: Seq<Vec<char>>, t: Seq<char>) -> bool {
    exists|m: int| 0 <= m < ts.len() && #[trigger] ts[m]@ == t
}

/// Decides whether the token `t` occurs in the list.
pub fn token_in_list(tokens: &Vec<Vec<char>>, t: &Vec<char>) -> (r: bool)
    ensures
        r == token_found(tokens@, t@),
{
    let n = tokens.len();
    let mut i: usize = 0;
    while i < n
        invariant
            n == tokens@.len(),
            i <= n,
            forall|k: int| 0 <= k < i ==> #[trigger] tokens@[k]@ != t@,
        decreases n - i,
    {
        let cand = &tokens[i];
        let m = cand.len();
        if m == t.len() {
            let mut k: usize = 0;
            let mut same = true;
            while k < m
                invariant
                    m == cand@.len(),
                    m == t@.len(),
                    k <= m,
                    same == (forall|p: int| 0 <= p < k ==> #[trigger] cand@[p] == t@[p]),
                decreases m - k,
            {
                if cand[k] != t[k] {
                    same = false;
                    proof {
                        assert(!(forall|p: int| 0 <= p < k + 1 ==> #[trigger] cand@[p] == t@[p]))
                            by {
                            assert(cand@[k as int] != t@[k as int]);
                        }
                    }
                }
                k += 1;
            }
            if same {
                proof {
                    assert(cand@ =~= t@);
                }
                return true;
            }
        }
        proof {
            assert(tokens@[i as int]@ != t@);
        }
        i += 1;
    }
    false
}

/// Every token in `qt` occurs in `rt`.
pub open spec fn spec_tokens_subset(qt: Seq<Vec<char>>, rt: Seq<Vec<char>>) -> bool {
    forall|k: int| 0 <= k < qt.len() ==> token_found(rt, (#[trigger] qt[k])@)
}

/// Decides whether every token in `qt` occurs in `rt`.
pub fn tokens_subset(qt: &Vec<Vec<char>>, rt: &Vec<Vec<char>>) -> (r: bool)
    ensures
        r == spec_tokens_subset(qt@, rt@),
{
    let n = qt.len();
    let mut k: usize = 0;
    while k < n
        invariant
            n == qt@.len(),
            k <= n,
            forall|k2: int| 0 <= k2 < k ==> token_found(rt@, (#[trigger] qt@[k2])@),
        decreases n - k,
    {
        if !token_in_list(rt, &qt[k]) {
            return false;
        }
        k += 1;
    }
    true
}

/// Renders a number in decimal.
pub fn u64_to_string(x: u64) -> (r: String)
    ensures
        r@ == spec_digits(x as int),
    decreases x,
{
    if x < 10 {
        String::from_str(digit_str(x))
    } else {
        let high = u64_to_string(x / 10);
        let r = high.concat(digit_str(x % 10));
        proof {
            assert(r@ =~= spec_digits(x as int / 10).push(digit_char(x as int % 10)));
        }
        r
    }
}

} // verus!
