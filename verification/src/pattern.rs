//! Regular expressions, as far as filters need them.

use vstd::prelude::*;

verus! {

/// What matching `text` against the regular expression `pattern` gives:
/// nothing when the pattern does not compile, else whether the expression
/// matches somewhere in the text.
pub uninterp spec fn regex_match(pattern: Seq<char>, text: Seq<char>) -> Option<bool>;

/// `regex::Regex::new` on the pattern and, where it compiles, `Regex::is_match`
/// on the text. Both depend on their arguments alone, and neither panics.
#[verifier::external_body]
pub(crate) fn match_pattern(pattern: &str, text: &str) -> (r: Option<bool>)
    ensures
        r == regex_match(pattern@, text@),
{
    match regex::Regex::new(pattern) {
        Ok(re) => Some(re.is_match(text)),
        Err(_) => None,
    }
}

} // verus!
