//! Regular expressions, as the `regex` crate reads them.

use vstd::prelude::*;

verus! {

/// Whether `regex` accepts the pattern.
pub uninterp spec fn regex_valid(pattern: Seq<char>) -> bool;

/// The length in bytes of the leftmost-first match of the pattern in the
/// text, as `regex` finds it; nothing when there is none or the pattern
/// does not compile.
pub uninterp spec fn regex_find_len(pattern: Seq<char>, text: Seq<char>) -> Option<nat>;

/// `regex::Regex::new`: whether the pattern compiles. What `regex` accepts
/// is its own syntax, named here rather than stated.
#[verifier::external_body]
pub(crate) fn regex_compiles(pattern: &str) -> (r: bool)
    ensures
        r == regex_valid(pattern@),
{
    regex::Regex::new(pattern).is_ok()
}

/// `regex::Regex::find` on the compiled pattern: the byte length of the
/// first match in `text`. The match itself is named, not stated.
#[verifier::external_body]
pub(crate) fn regex_match_len(pattern: &str, text: &str) -> (r: Option<usize>)
    ensures
        match r {
            Some(n) => regex_find_len(pattern@, text@) == Some(n as nat),
            None => regex_find_len(pattern@, text@) is None,
        },
{
    match regex::Regex::new(pattern) {
        Ok(re) => match re.find(text) {
            Some(m) => Some(m.as_str().len()),
            None => None,
        },
        Err(_) => None,
    }
}

} // verus!
