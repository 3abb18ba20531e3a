//! Ratings of the IMDB review corpus, read from file names such as `123_8.txt`.

use vstd::prelude::*;

use crate::text::{
    copy_range, digit_run, digits_value, find, find_byte, is_digit, lemma_digit_run_digits,
    read_number, skip_digits,
};

verus! {

/// The length of the longest prefix of `s` that ends in `b`, or 0 when `s`
/// holds no `b`: the index just after the last `b`.
pub open spec fn after_last(s: Seq<u8>, b: u8) -> nat
    decreases s.len(),
{
    if s.len() == 0 {
        0
    } else if s.last() == b {
        s.len()
    } else {
        after_last(s.drop_last(), b)
    }
}

/// The rating field of a file name: within the part before the first `.`,
/// what follows the last `_`.
pub open spec fn rating_field(name: Seq<u8>) -> Seq<u8> {
    let stem = name.take(find_byte(name, 46u8, 0));
    stem.skip(after_last(stem, 95u8) as int)
}

/// The rating a file name gives: its rating field read as a decimal number
/// of at most 255, with an optional leading `+`.
pub open spec fn rating_of(name: Seq<u8>) -> Option<u8> {
    let f = rating_field(name);
    let digits = if f.len() > 0 && f[0] == 43u8 {
        f.skip(1)
    } else {
        f
    };
    if digits.len() == 0 || digit_run(digits, 0) != digits.len() || digits_value(digits) > 255 {
        None
    } else {
        Some(digits_value(digits) as u8)
    }
}

/// The index just after the last `b` in `l[..end]`, or 0.
fn find_after_last(l: &[u8], b: u8, end: usize) -> (r: usize)
    requires
        end <= l@.len(),
    ensures
        r == after_last(l@.take(end as int), b),
        r <= end,
{
    let mut j = end;
    while j > 0 && l[j - 1] != b
        invariant
            j <= end <= l@.len(),
            after_last(l@.take(end as int), b) == after_last(l@.take(j as int), b),
        decreases j,
    {
        proof {
            assert(l@.take(j as int).drop_last() =~= l@.take(j - 1));
        }
        j = j - 1;
    }
    j
}

/// Reads the rating from a review's file name; see `rating_of`.
pub fn parse_rating(name: &[u8]) -> (r: Option<u8>)
    ensures
        r == rating_of(name@),
{
    let end = find(name, 46u8, 0);
    let start = find_after_last(name, 95u8, end);
    let field = copy_range(name, start, end);
    proof {
        assert(field@ =~= rating_field(name@));
    }
    let f = field.as_slice();
    let mut a: usize = 0;
    if f.len() > 0 && f[0] == 43u8 {
        a = 1;
    }
    let ghost digits = f@.skip(a as int);
    let e = skip_digits(f, a);
    proof {
        assert(digit_run(digits, 0) == digit_run(f@, a as int)) by {
            lemma_run_shift(f@, a as int, 0);
        }
        if a == 0 {
            assert(digits =~= f@);
        }
    }
    if a == f.len() || e != f.len() {
        return None;
    }
    proof {
        assert forall|k: int| a <= k < e implies is_digit(#[trigger] f@[k]) by {
            lemma_digit_run_digits(f@, a as int, k);
        }
        assert(f@.subrange(a as int, e as int) =~= digits);
    }
    match read_number(f, a, e) {
        Some(v) => {
            if v <= 255 {
                Some(v as u8)
            } else {
                None
            }
        },
        None => None,
    }
}

/// A run of digits in `s` from `a + i` is the run in `s.skip(a)` from `i`.
proof fn lemma_run_shift(s: Seq<u8>, a: int, i: int)
    requires
        0 <= a <= s.len(),
        0 <= i,
    ensures
        digit_run(s.skip(a), i) == digit_run(s, a + i),
    decreases s.len() - a - i,
{
    if a + i < s.len() {
        lemma_run_shift(s, a, i + 1);
    }
}

} // verus!
