//! Byte-level scanning helpers for the text-corpus parsers.

use vstd::prelude::*;

verus! {

/// An ASCII decimal digit.
pub open spec fn is_digit(b: u8) -> bool {
    48 <= b <= 57
}

/// How many digits follow one another in `l` from index `i` on.
pub open spec fn digit_run(l: Seq<u8>, i: int) -> nat
    decreases l.len() - i,
{
    if 0 <= i < l.len() && is_digit(l[i]) {
        1 + digit_run(l, i + 1)
    } else {
        0
    }
}

/// The first index at or after `i` where `l` holds `b`, or `l.len()`.
pub open spec fn find_byte(l: Seq<u8>, b: u8, i: int) -> int
    decreases l.len() - i,
{
    if i < 0 {
        find_byte(l, b, 0)
    } else if i >= l.len() {
        l.len() as int
    } else if l[i] == b {
        i
    } else {
        find_byte(l, b, i + 1)
    }
}

/// The value of a run of decimal digits.
pub open spec fn digits_value(s: Seq<u8>) -> nat
    decreases s.len(),
{
    if s.len() == 0 {
        0
    } else {
        digits_value(s.drop_last()) * 10 + (s.last() - 48) as nat
    }
}

/// Every byte inside a run of digits is a digit.
pub(crate) proof fn lemma_digit_run_digits(l: Seq<u8>, i: int, k: int)
    requires
        0 <= i <= k < i + digit_run(l, i),
    ensures
        is_digit(l[k]),
    decreases k - i,
{
    if k > i {
        lemma_digit_run_digits(l, i + 1, k);
    }
}

pub(crate) fn is_digit_byte(b: u8) -> (r: bool)
    ensures
        r == is_digit(b),
{
    48 <= b && b <= 57
}

/// The index just past the run of digits that starts at `i`.
pub(crate) fn skip_digits(l: &[u8], i: usize) -> (r: usize)
    requires
        i <= l@.len(),
    ensures
        r == i + digit_run(l@, i as int),
        r <= l@.len(),
{
    let mut j = i;
    while j < l.len() && is_digit_byte(l[j])
        invariant
            i <= j <= l@.len(),
            digit_run(l@, i as int) == (j - i) + digit_run(l@, j as int),
        decreases l@.len() - j,
    {
        j = j + 1;
    }
    j
}

/// The first index at or after `i` where `l` holds `b`, or `l.len()`.
pub(crate) fn find(l: &[u8], b: u8, i: usize) -> (r: usize)
    requires
        i <= l@.len(),
    ensures
        r == find_byte(l@, b, i as int),
        i <= r <= l@.len(),
{
    let mut j = i;
    while j < l.len() && l[j] != b
        invariant
            i <= j <= l@.len(),
            find_byte(l@, b, i as int) == find_byte(l@, b, j as int),
        decreases l@.len() - j,
    {
        j = j + 1;
    }
    j
}

/// The bytes of `l` from `a` up to `b`.
pub(crate) fn copy_range(l: &[u8], a: usize, b: usize) -> (r: Vec<u8>)
    requires
        a <= b <= l@.len(),
    ensures
        r@ == l@.subrange(a as int, b as int),
{
    let mut r: Vec<u8> = Vec::new();
    let mut j = a;
    while j < b
        invariant
            a <= j <= b <= l@.len(),
            r@ == l@.subrange(a as int, j as int),
        decreases b - j,
    {
        r.push(l[j]);
        j = j + 1;
    }
    r
}

/// The value of the digits `l[a..b]`, or `None` when it does not fit in a `usize`.
pub(crate) fn read_number(l: &[u8], a: usize, b: usize) -> (r: Option<usize>)
    requires
        a <= b <= l@.len(),
        forall|k: int| a <= k < b ==> is_digit(#[trigger] l@[k]),
    ensures
        r matches Some(v) ==> v == digits_value(l@.subrange(a as int, b as int)),
        r is None <==> digits_value(l@.subrange(a as int, b as int)) > usize::MAX,
{
    let mut v: usize = 0;
    let mut j = a;
    while j < b
        invariant
            a <= j <= b <= l@.len(),
            forall|k: int| a <= k < b ==> is_digit(#[trigger] l@[k]),
            v == digits_value(l@.subrange(a as int, j as int)),
        decreases b - j,
    {
        let d = (l[j] - 48) as usize;
        proof {
            assert(l@.subrange(a as int, j + 1).drop_last() =~= l@.subrange(a as int, j as int));
        }
        if v > (usize::MAX - d) / 10 {
            proof {
                lemma_digits_grow(l@.subrange(a as int, b as int), (j - a) as int + 1);
                assert(l@.subrange(a as int, b as int).take((j - a) as int + 1) =~= l@.subrange(
                    a as int,
                    j + 1,
                ));
            }
            return None;
        }
        v = v * 10 + d;
        j = j + 1;
    }
    Some(v)
}

/// A longer run of digits is worth at least as much as its prefix.
proof fn lemma_digits_grow(s: Seq<u8>, n: int)
    requires
        0 <= n <= s.len(),
    ensures
        digits_value(s.take(n)) <= digits_value(s),
    decreases s.len() - n,
{
    if n < s.len() {
        lemma_digits_grow(s, n + 1);
        assert(s.take(n + 1).drop_last() =~= s.take(n));
    } else {
        assert(s.take(n) =~= s);
    }
}

} // verus!
