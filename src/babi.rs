//! The bAbI question-answering text format.
//!
//! A story is three lines: two numbered statements, then a numbered question
//! line holding the question, its answer and the number of the supporting
//! statement. Lines are matched with regular expressions, anywhere in the line.

use vstd::prelude::*;
use vstd::string::StrSliceExecFns;

use crate::pattern::{capture, capture_of};

verus! {

/// The pattern of a statement line; group 1 is the statement.
pub open spec fn statement_pattern() -> Seq<char> {
    STATEMENT@
}

/// The pattern of a question line; groups 1, 2 and 3 are the question, the
/// answer and the supporting statement's number.
pub open spec fn question_pattern() -> Seq<char> {
    QUESTION@
}

pub const STATEMENT: &'static str = r"\d+\s+(.+)";

pub const QUESTION: &'static str = r"\d+\s(.+?)\?\s+(.+?)\s+(\d+)";

/// An ASCII decimal digit.
pub open spec fn is_digit_char(c: char) -> bool {
    '0' <= c <= '9'
}

/// The value of a run of ASCII decimal digits.
pub open spec fn char_digits_value(s: Seq<char>) -> nat
    decreases s.len(),
{
    if s.len() == 0 {
        0
    } else {
        char_digits_value(s.drop_last()) * 10 + ((s.last() as u32) - 48) as nat
    }
}

/// The digits of a number written with an optional leading `+`.
pub open spec fn unsigned_digits(s: Seq<char>) -> Seq<char> {
    if s.len() > 0 && s[0] == '+' {
        s.skip(1)
    } else {
        s
    }
}

/// The `usize` that `s` writes in decimal, with an optional leading `+`, as
/// `str::parse::<usize>` reads it.
pub open spec fn usize_of(s: Seq<char>) -> Option<nat> {
    let d = unsigned_digits(s);
    if d.len() == 0 || exists|i: int| 0 <= i < d.len() && !is_digit_char(#[trigger] d[i]) {
        None
    } else if char_digits_value(d) > usize::MAX {
        None
    } else {
        Some(char_digits_value(d))
    }
}

/// A longer run of digits is worth at least as much as its prefix.
proof fn lemma_char_digits_grow(s: Seq<char>, n: int)
    requires
        0 <= n <= s.len(),
    ensures
        char_digits_value(s.take(n)) <= char_digits_value(s),
    decreases s.len() - n,
{
    if n < s.len() {
        lemma_char_digits_grow(s, n + 1);
        assert(s.take(n + 1).drop_last() =~= s.take(n));
    } else {
        assert(s.take(n) =~= s);
    }
}

/// Reads a `usize` written in decimal; see `usize_of`.
pub fn parse_usize(s: &str) -> (r: Option<usize>)
    ensures
        r matches Some(v) ==> usize_of(s@) == Some(v as nat),
        r is None <==> usize_of(s@) is None,
{
    let n = s.unicode_len();
    let mut a: usize = 0;
    if n > 0 && s.get_char(0) == '+' {
        a = 1;
    }
    let ghost d = unsigned_digits(s@);
    proof {
        assert(d =~= s@.skip(a as int));
    }
    if a == n {
        return None;
    }
    let mut v: usize = 0;
    let mut i = a;
    while i < n
        invariant
            a <= i <= n,
            n == s@.len(),
            d == s@.skip(a as int),
            d == unsigned_digits(s@),
            forall|j: int| 0 <= j < i - a ==> is_digit_char(#[trigger] d[j]),
            v == char_digits_value(d.take(i - a)),
        decreases n - i,
    {
        let c = s.get_char(i);
        assert(c == d[i - a]);
        if c < '0' || c > '9' {
            assert(d.len() == n - a);
            assert(0 <= i - a < d.len() && !is_digit_char(d[i - a]));
            return None;
        }
        let digit = ((c as u32) - 48) as usize;
        proof {
            assert(d.take(i - a + 1).drop_last() =~= d.take(i - a));
        }
        if v > (usize::MAX - digit) / 10 {
            proof {
                lemma_char_digits_grow(d, i - a + 1);
                let vi = v as int;
                let di = digit as int;
                assert(vi * 10 + di > usize::MAX) by (nonlinear_arith)
                    requires
                        vi > (usize::MAX - di) / 10,
                        0 <= di <= 9,
                ;
                assert(char_digits_value(d.take(i - a + 1)) == vi * 10 + di);
            }
            return None;
        }
        v = v * 10 + digit;
        i = i + 1;
    }
    proof {
        assert(d.take(n - a) =~= d);
    }
    Some(v)
}

/// The statement on a statement line.
pub open spec fn statement_text(l: Seq<char>) -> Option<Seq<char>> {
    capture_of(statement_pattern(), l, 1)
}

/// A question line as question, answer and supporting statement number;
/// `None` when the line does not match or the number is not a `usize`.
pub open spec fn question_of(l: Seq<char>) -> Option<(Seq<char>, Seq<char>, nat)> {
    let qp = question_pattern();
    match (capture_of(qp, l, 1), capture_of(qp, l, 2), capture_of(qp, l, 3)) {
        (Some(q), Some(a), Some(n)) => match usize_of(n) {
            Some(v) => Some((q, a, v)),
            None => None,
        },
        _ => None,
    }
}

/// Parses a statement line; see `statement_text`.
pub fn parse_statement(l: &str) -> (r: Option<String>)
    ensures
        r matches Some(t) ==> statement_text(l@) == Some(t@),
        r is None <==> statement_text(l@) is None,
{
    capture(STATEMENT, l, 1)
}

/// Parses a question line; see `question_of`.
pub fn parse_question(l: &str) -> (r: Option<(String, String, usize)>)
    ensures
        r matches Some(q) ==> question_of(l@) == Some((q.0@, q.1@, q.2 as nat)),
        r is None <==> question_of(l@) is None,
{
    let q = capture(QUESTION, l, 1);
    let a = capture(QUESTION, l, 2);
    let n = capture(QUESTION, l, 3);
    match (q, a, n) {
        (Some(q), Some(a), Some(n)) => match parse_usize(n.as_str()) {
            Some(v) => Some((q, a, v)),
            None => None,
        },
        _ => None,
    }
}

/// One story: two statements, a question, its answer, and the number of the
/// statement that supports the answer.
pub struct Story {
    pub first: String,
    pub second: String,
    pub question: String,
    pub answer: String,
    pub support: usize,
}

/// Why a story file did not parse.
#[derive(Debug, PartialEq, Eq, Structural)]
pub enum StoryError {
    /// The line with this index (from zero) does not have the form its place asks for.
    BadLine(usize),
}

/// The lines of a file as character sequences.
pub open spec fn line_views(lines: Seq<String>) -> Seq<Seq<char>> {
    lines.map_values(|l: String| l@)
}

/// Whether line `i` has the form its place in a story asks for: every third
/// line, from the third on, is a question line; the others are statements.
pub open spec fn line_ok(lines: Seq<Seq<char>>, i: int) -> bool {
    if i % 3 == 2 {
        question_of(lines[i]) is Some
    } else {
        statement_text(lines[i]) is Some
    }
}

/// Whether `s` is the story that lines `3k`, `3k + 1` and `3k + 2` hold.
pub open spec fn story_of(s: Story, lines: Seq<Seq<char>>, k: int) -> bool {
    &&& statement_text(lines[3 * k]) == Some(s.first@)
    &&& statement_text(lines[3 * k + 1]) == Some(s.second@)
    &&& question_of(lines[3 * k + 2]) == Some((s.question@, s.answer@, s.support as nat))
}

/// Parses a story file given as its lines: one story per three lines; a last
/// group of fewer than three lines makes no story, but its lines must still
/// match. Fails at the first line that does not.
pub fn parse_stories(lines: &Vec<String>) -> (r: Result<Vec<Story>, StoryError>)
    ensures
        r is Ok <==> forall|i: int|
            0 <= i < lines@.len() ==> line_ok(line_views(lines@), i),
        r matches Err(StoryError::BadLine(i)) ==> {
            &&& i < lines@.len()
            &&& !line_ok(line_views(lines@), i as int)
            &&& forall|j: int| 0 <= j < i ==> line_ok(line_views(lines@), j)
        },
        r matches Ok(v) ==> {
            &&& v@.len() == lines@.len() / 3
            &&& forall|k: int| 0 <= k < v@.len() ==> story_of(#[trigger] v@[k], line_views(lines@), k)
        },
{
    let ghost ls = line_views(lines@);
    let mut out: Vec<Story> = Vec::new();
    let mut first = String::new();
    let mut second = String::new();
    let mut i: usize = 0;
    while i < lines.len()
        invariant
            ls == line_views(lines@),
            i <= lines@.len(),
            forall|j: int| 0 <= j < i ==> line_ok(ls, j),
            out@.len() == i / 3,
            forall|k: int| 0 <= k < out@.len() ==> story_of(#[trigger] out@[k], ls, k),
            i % 3 >= 1 ==> statement_text(ls[i - i % 3]) == Some(first@),
            i % 3 == 2 ==> statement_text(ls[i - 1]) == Some(second@),
        decreases lines@.len() - i,
    {
        let l = lines[i].as_str();
        assert(l@ == ls[i as int]);
        if i % 3 == 2 {
            match parse_question(l) {
                None => {
                    assert(!line_ok(ls, i as int));
                    return Err(StoryError::BadLine(i));
                },
                Some((question, answer, support)) => {
                    let s0 = first;
                    first = String::new();
                    let s1 = second;
                    second = String::new();
                    let story = Story { first: s0, second: s1, question, answer, support };
                    let ghost before = out@;
                    out.push(story);
                    assert(story_of(out@[before.len() as int], ls, before.len() as int));
                },
            }
        } else {
            match parse_statement(l) {
                None => {
                    assert(!line_ok(ls, i as int));
                    return Err(StoryError::BadLine(i));
                },
                Some(t) => {
                    if i % 3 == 0 {
                        first = t;
                    } else {
                        second = t;
                    }
                },
            }
        }
        i = i + 1;
    }
    Ok(out)
}

} // verus!
