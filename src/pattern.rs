//! Regular-expression captures, through the `regex` crate.

use vstd::prelude::*;

use regex::Regex;

verus! {

/// Group `group` of the leftmost-first match of the regular expression
/// `pattern` in `text`; `None` when the pattern does not compile, does not
/// match, or the group takes no part in the match.
pub uninterp spec fn capture_of(pattern: Seq<char>, text: Seq<char>, group: nat) -> Option<
    Seq<char>,
>;

/// Relies on `regex::Regex::new` and `Regex::captures`: compiles `pattern`,
/// takes its leftmost-first match in `text`, and returns the text of group
/// `group`. Neither call panics; a failure to compile gives `None`.
#[verifier::external_body]
pub(crate) fn capture(pattern: &str, text: &str, group: usize) -> (r: Option<String>)
    ensures
        r is None <==> capture_of(pattern@, text@, group as nat) is None,
        r matches Some(s) ==> capture_of(pattern@, text@, group as nat) == Some(s@),
{
    let re = Regex::new(pattern).ok()?;
    let caps = re.captures(text)?;
    caps.get(group).map(|m| m.as_str().to_string())
}

} // verus!
