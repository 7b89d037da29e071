//! Byte-string primitives: searching, splitting, trimming and decimal numbers.

use vstd::prelude::*;

verus! {

/// `pat` occurs in `s` at index `i`.
pub open spec fn matches_at(s: Seq<u8>, pat: Seq<u8>, i: int) -> bool {
    0 <= i && i + pat.len() <= s.len() && s.subrange(i, i + pat.len()) == pat
}

/// The first index at or after `from` where `pat` occurs in `s`; `s.len()` if
/// there is none.
pub open spec fn find_from(s: Seq<u8>, pat: Seq<u8>, from: int) -> int
    decreases s.len() - from,
{
    if from < 0 || from >= s.len() || from + pat.len() > s.len() {
        s.len() as int
    } else if matches_at(s, pat, from) {
        from
    } else {
        find_from(s, pat, from + 1)
    }
}

/// The pieces of `s` from `start` on, cut at each occurrence of `pat` found
/// scanning from `i`; occurrences do not overlap.
pub open spec fn pieces(s: Seq<u8>, pat: Seq<u8>, start: int, i: int) -> Seq<Seq<u8>>
    decreases s.len() - i,
{
    if pat.len() == 0 || i < start || start < 0 || i + pat.len() > s.len() {
        seq![s.subrange(start, s.len() as int)]
    } else if matches_at(s, pat, i) {
        seq![s.subrange(start, i)] + pieces(s, pat, i + pat.len(), i + pat.len())
    } else {
        pieces(s, pat, start, i + 1)
    }
}

/// `s` split at every occurrence of the separator `pat`; an empty separator
/// occurs nowhere.
pub open spec fn split_spec(s: Seq<u8>, pat: Seq<u8>) -> Seq<Seq<u8>> {
    pieces(s, pat, 0, 0)
}

/// The views of a vector of byte strings.
pub open spec fn views(v: Seq<Vec<u8>>) -> Seq<Seq<u8>> {
    Seq::new(v.len(), |i: int| v[i]@)
}

/// `s` ends with `suffix`.
pub open spec fn has_suffix(s: Seq<u8>, suffix: Seq<u8>) -> bool {
    suffix.len() <= s.len() && s.subrange(s.len() - suffix.len(), s.len() as int) == suffix
}

/// `s` starts with `prefix`.
pub open spec fn has_prefix(s: Seq<u8>, prefix: Seq<u8>) -> bool {
    prefix.len() <= s.len() && s.subrange(0, prefix.len() as int) == prefix
}

pub open spec fn is_space(b: u8) -> bool {
    b == 32 || (9 <= b && b <= 13)
}

pub open spec fn trim_start_at(s: Seq<u8>, i: int) -> int
    decreases s.len() - i,
{
    if i < 0 || i >= s.len() || !is_space(s[i]) {
        i
    } else {
        trim_start_at(s, i + 1)
    }
}

pub open spec fn trim_end_at(s: Seq<u8>, lo: int, j: int) -> int
    decreases j,
{
    if j <= lo || j > s.len() || j <= 0 || !is_space(s[j - 1]) {
        j
    } else {
        trim_end_at(s, lo, j - 1)
    }
}

/// `s` without its leading and trailing ASCII white space.
pub open spec fn trim_spec(s: Seq<u8>) -> Seq<u8> {
    let a = trim_start_at(s, 0);
    s.subrange(a, trim_end_at(s, a, s.len() as int))
}

/// A line that ended in a line feed loses one carriage return before it.
pub open spec fn strip_cr(s: Seq<u8>) -> Seq<u8> {
    if s.len() > 0 && s.last() == 13 {
        s.drop_last()
    } else {
        s
    }
}

/// The lines of `s`: cut at each line feed, a carriage return before a line
/// feed removed, and no empty line after the last line feed.
pub open spec fn lines_spec(s: Seq<u8>) -> Seq<Seq<u8>> {
    let p = split_spec(s, seq![10u8]);
    let n = p.len() as int;
    let m = if n > 0 && p[n - 1].len() == 0 { n - 1 } else { n };
    Seq::new(m as nat, |i: int| if i < n - 1 { strip_cr(p[i]) } else { p[i] })
}

pub open spec fn is_digit(b: u8) -> bool {
    48 <= b && b <= 57
}

pub open spec fn all_digits(s: Seq<u8>) -> bool {
    forall|i: int| 0 <= i < s.len() ==> is_digit(#[trigger] s[i])
}

/// The number that a string of decimal digits denotes.
pub open spec fn digits_value(s: Seq<u8>) -> int
    decreases s.len(),
{
    if s.len() == 0 {
        0
    } else {
        digits_value(s.drop_last()) * 10 + (s.last() - 48)
    }
}

/// The digits of a decimal number: the text after one optional plus sign.
pub open spec fn unsigned_part(s: Seq<u8>) -> Seq<u8> {
    if s.len() > 0 && s[0] == 43 {
        s.subrange(1, s.len() as int)
    } else {
        s
    }
}

/// The number written in `s`, if `s` is an optional plus sign followed by at
/// least one decimal digit and the number is at most `max`.
pub open spec fn decimal_spec(s: Seq<u8>, max: int) -> Option<int> {
    let d = unsigned_part(s);
    if d.len() > 0 && all_digits(d) && digits_value(d) <= max {
        Some(digits_value(d))
    } else {
        None
    }
}

/// A prefix of a string of digits denotes no more than the whole string.
pub proof fn lemma_digits_prefix(d: Seq<u8>, k: int)
    requires
        all_digits(d),
        0 <= k <= d.len(),
    ensures
        0 <= digits_value(d.subrange(0, k)) <= digits_value(d),
    decreases d.len(),
{
    if k == d.len() {
        assert(d.subrange(0, k) =~= d);
        if d.len() > 0 {
            lemma_digits_prefix(d.drop_last(), k - 1);
        }
    } else {
        assert(d.drop_last().subrange(0, k) =~= d.subrange(0, k));
        lemma_digits_prefix(d.drop_last(), k);
        if k > 0 {
        } else {
            assert(d.subrange(0, 0).len() == 0);
        }
        lemma_digits_prefix(d.drop_last(), d.len() - 1);
        assert(d.drop_last().subrange(0, d.len() - 1) =~= d.drop_last());
    }
}

/// Copies `s[a..b]`.
pub fn copy_range(s: &[u8], a: usize, b: usize) -> (r: Vec<u8>)
    requires
        a <= b <= s.len(),
    ensures
        r@ == s@.subrange(a as int, b as int),
{
    let mut r: Vec<u8> = Vec::new();
    let mut i: usize = a;
    while i < b
        invariant
            a <= i <= b <= s.len(),
            r@ == s@.subrange(a as int, i as int),
        decreases b - i,
    {
        r.push(s[i]);
        i += 1;
        proof {
            assert(r@ =~= s@.subrange(a as int, i as int));
        }
    }
    r
}

/// Whether `pat` occurs in `s` at index `i`.
pub fn matches(s: &[u8], pat: &[u8], i: usize) -> (r: bool)
    ensures
        r == matches_at(s@, pat@, i as int),
{
    if pat.len() > s.len() || i > s.len() - pat.len() {
        return false;
    }
    let mut k: usize = 0;
    while k < pat.len()
        invariant
            k <= pat.len(),
            i + pat.len() <= s.len(),
            forall|j: int| 0 <= j < k ==> s@[i + j] == pat@[j],
        decreases pat.len() - k,
    {
        if s[i + k] != pat[k] {
            proof {
                assert(s@.subrange(i as int, i + pat@.len())[k as int] == s@[i + k]);
            }
            return false;
        }
        k += 1;
    }
    proof {
        assert(s@.subrange(i as int, i + pat@.len()) =~= pat@);
    }
    true
}

/// The first index at or after `from` where `pat` occurs in `s`, or `s.len()`.
pub fn find(s: &[u8], pat: &[u8], from: usize) -> (r: usize)
    ensures
        r == find_from(s@, pat@, from as int),
        from <= s.len() ==> from <= r <= s.len(),
        r < s.len() ==> r + pat.len() <= s.len(),
{
    let mut i: usize = from;
    while i < s.len() && pat.len() <= s.len() - i
        invariant
            from <= i,
            find_from(s@, pat@, from as int) == find_from(s@, pat@, i as int),
        decreases s.len() - i,
    {
        if matches(s, pat, i) {
            return i;
        }
        i += 1;
    }
    s.len()
}

/// Splits `s` at every occurrence of `pat`; an empty `pat` occurs nowhere.
pub fn split(s: &[u8], pat: &[u8]) -> (r: Vec<Vec<u8>>)
    ensures
        views(r@) == split_spec(s@, pat@),
        r.len() >= 1,
{
    let mut r: Vec<Vec<u8>> = Vec::new();
    if pat.len() == 0 {
        let whole = copy_range(s, 0, s.len());
        proof {
            assert(views(r@.push(whole)) =~= seq![s@.subrange(0, s@.len() as int)]);
        }
        r.push(whole);
        return r;
    }
    let mut start: usize = 0;
    let mut i: usize = 0;
    while pat.len() <= s.len() - i
        invariant
            start <= i <= s.len(),
            pat.len() > 0,
            split_spec(s@, pat@) == views(r@) + pieces(s@, pat@, start as int, i as int),
        decreases s.len() - i,
    {
        if matches(s, pat, i) {
            let piece = copy_range(s, start, i);
            proof {
                assert(views(r@.push(piece)) =~= views(r@) + seq![s@.subrange(start as int, i as int)]);
            }
            r.push(piece);
            i += pat.len();
            start = i;
        } else {
            i += 1;
        }
    }
    let piece = copy_range(s, start, s.len());
    proof {
        assert(views(r@.push(piece)) =~= views(r@) + seq![s@.subrange(start as int, s@.len() as int)]);
    }
    r.push(piece);
    r
}

/// Removes leading and trailing ASCII white space.
pub fn trim(s: &[u8]) -> (r: Vec<u8>)
    ensures
        r@ == trim_spec(s@),
{
    let mut a: usize = 0;
    while a < s.len() && (s[a] == 32 || (9 <= s[a] && s[a] <= 13))
        invariant
            a <= s.len(),
            trim_start_at(s@, 0) == trim_start_at(s@, a as int),
        decreases s.len() - a,
    {
        a += 1;
    }
    let mut b: usize = s.len();
    while b > a && (s[b - 1] == 32 || (9 <= s[b - 1] && s[b - 1] <= 13))
        invariant
            a <= b <= s.len(),
            trim_end_at(s@, a as int, s@.len() as int) == trim_end_at(s@, a as int, b as int),
        decreases b,
    {
        b -= 1;
    }
    copy_range(s, a, b)
}

/// The lines of `s`.
pub fn lines(s: &[u8]) -> (r: Vec<Vec<u8>>)
    ensures
        views(r@) == lines_spec(s@),
{
    let nl: [u8; 1] = [10u8];
    assert(nl@ =~= seq![10u8]);
    let p = split(s, nl.as_slice());
    let n: usize = p.len();
    let m: usize = if p[n - 1].len() == 0 { n - 1 } else { n };
    let ghost pv = views(p@);
    let mut r: Vec<Vec<u8>> = Vec::new();
    let mut i: usize = 0;
    while i < m
        invariant
            i <= m <= n,
            n == p.len(),
            pv == views(p@),
            r.len() == i,
            forall|j: int| 0 <= j < i ==> r@[j]@ == (if j < n - 1 { strip_cr(pv[j]) } else { pv[j] }),
        decreases m - i,
    {
        let line = &p[i];
        let len: usize = line.len();
        let end: usize = if i + 1 < n && len > 0 && line[len - 1] == 13 { len - 1 } else { len };
        let out = copy_range(line.as_slice(), 0, end);
        proof {
            assert(pv[i as int] == line@);
            assert(line@.subrange(0, len as int) =~= line@);
            assert(line@.subrange(0, len - 1) =~= line@.drop_last());
        }
        r.push(out);
        i += 1;
    }
    proof {
        assert(views(r@) =~= lines_spec(s@));
    }
    r
}

/// Reads a decimal number of at most `max`.
pub fn parse_decimal(s: &[u8], max: u64) -> (r: Option<u64>)
    ensures
        r.is_some() == decimal_spec(s@, max as int).is_some(),
        r.is_some() ==> r.unwrap() as int == decimal_spec(s@, max as int).unwrap(),
{
    let first: usize = if s.len() > 0 && s[0] == 43 { 1 } else { 0 };
    let ghost d = unsigned_part(s@);
    if first == s.len() {
        return None;
    }
    let mut acc: u64 = 0;
    let mut i: usize = first;
    while i < s.len()
        invariant
            first <= i <= s.len(),
            d == unsigned_part(s@),
            d == s@.subrange(first as int, s@.len() as int),
            all_digits(d.subrange(0, i - first)),
            acc as int == digits_value(d.subrange(0, i - first)),
            acc <= max,
        decreases s.len() - i,
    {
        let b: u8 = s[i];
        if b < 48 || b > 57 {
            proof {
                assert(d[i - first] == b);
                assert(!is_digit(d[i - first]));
            }
            return None;
        }
        let v: u64 = (b - 48) as u64;
        proof {
            let p = d.subrange(0, i - first + 1);
            assert(p.drop_last() =~= d.subrange(0, i - first));
            assert(p.last() == b);
            assert(all_digits(p)) by {
                assert forall|j: int| 0 <= j < p.len() implies is_digit(#[trigger] p[j]) by {
                    if j < p.len() - 1 {
                        assert(p[j] == d.subrange(0, i - first)[j]);
                    }
                }
            }
            assert(digits_value(p) == acc * 10 + v);
            if all_digits(d) {
                lemma_digits_prefix(d, i - first + 1);
            }
        }
        if v > max || acc > (max - v) / 10 {
            return None;
        }
        acc = acc * 10 + v;
        i += 1;
    }
    proof {
        assert(d.subrange(0, i - first) =~= d);
    }
    Some(acc)
}

/// Whether two byte strings are equal.
pub fn eq_bytes(a: &[u8], b: &[u8]) -> (r: bool)
    ensures
        r == (a@ == b@),
{
    if a.len() != b.len() {
        return false;
    }
    let r = matches(a, b, 0);
    proof {
        assert(a@.subrange(0, a@.len() as int) =~= a@);
    }
    r
}

/// Whether `s` ends with `suffix`.
pub fn ends_with(s: &[u8], suffix: &[u8]) -> (r: bool)
    ensures
        r == has_suffix(s@, suffix@),
{
    if suffix.len() > s.len() {
        return false;
    }
    matches(s, suffix, s.len() - suffix.len())
}

/// Whether `s` starts with `prefix`.
pub fn starts_with(s: &[u8], prefix: &[u8]) -> (r: bool)
    ensures
        r == has_prefix(s@, prefix@),
{
    matches(s, prefix, 0)
}

/// A copy of `s`.
pub fn to_vec(s: &[u8]) -> (r: Vec<u8>)
    ensures
        r@ == s@,
{
    let r = copy_range(s, 0, s.len());
    proof {
        assert(s@.subrange(0, s@.len() as int) =~= s@);
    }
    r
}

} // verus!
