//! Regular expressions.

use crate::text::join_three;
use vstd::prelude::*;

verus! {

/// What `regex::Regex::new` says of a pattern: the text of its error, if it has one.
pub uninterp spec fn regex_error(pattern: Seq<char>) -> Option<Seq<char>>;

/// Whether `regex::Regex::is_match` finds the pattern in a text; false for a pattern that is no
/// regular expression.
pub uninterp spec fn regex_matches(pattern: Seq<char>, text: Seq<char>) -> bool;

/// Compiles a pattern with `regex::Regex::new` and gives the text of the error, if there is one.
/// The contract claims that this text, or that there is none, depends on the pattern alone.
#[verifier::external_body]
pub(crate) fn pattern_error(pattern: &str) -> (r: Option<String>)
    ensures
        r.deep_view() == regex_error(pattern@),
{
    regex::Regex::new(pattern).err().map(|error| error.to_string())
}

/// Looks for a pattern in a text with `regex::Regex::is_match`. The contract claims that the answer
/// depends on the pattern and the text alone, and that a pattern without a match anywhere, such as
/// one that does not compile, gives false.
#[verifier::external_body]
pub(crate) fn pattern_matches(pattern: &str, text: &str) -> (r: bool)
    ensures
        r == regex_matches(pattern@, text@),
        r ==> regex_error(pattern@) is None,
{
    regex::Regex::new(pattern).is_ok_and(|regex| regex.is_match(text))
}

/// The pattern that matches a text as a whole.
pub open spec fn anchored(pattern: Seq<char>) -> Seq<char> {
    "^(?:"@ + pattern + ")$"@
}

/// Makes a pattern match texts as a whole.
pub fn anchor(pattern: &str) -> (r: String)
    ensures
        r@ == anchored(pattern@),
{
    join_three("^(?:", pattern, ")$")
}

/// Whether the pattern matches the text as a whole.
pub open spec fn matches_whole(pattern: Seq<char>, text: Seq<char>) -> bool {
    regex_matches(anchored(pattern), text)
}

/// Whether the pattern matches the text as a whole.
pub fn pattern_matches_whole(pattern: &str, text: &str) -> (r: bool)
    ensures
        r == matches_whole(pattern@, text@),
{
    pattern_matches(anchor(pattern).as_str(), text)
}

} // verus!
