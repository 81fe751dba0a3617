//! Which failures to verify a bridge's certificate are let pass.

use crate::text::{contains, contains_text, law_what_stands_in_a_text_is_found, lowercase};
use vstd::prelude::*;

verus! {

/// Whether a verification error, in lower case, names what the certificates of
/// Hue bridges are known for: their validity period, or the name that they are
/// made out to.
pub open spec fn is_known_shortcoming(words: Seq<char>) -> bool {
    ||| contains_text(words, "expired"@)
    ||| contains_text(words, "not valid yet"@)
    ||| contains_text(words, "not valid for name"@)
    ||| contains_text(words, "not valid for any names"@)
    ||| contains_text(words, "subjectaltname"@)
}

/// Whether a verification error, in lower case, names a known shortcoming.
pub fn names_shortcoming(words: &str) -> (known: bool)
    ensures
        known == is_known_shortcoming(words@),
{
    contains(words, "expired") || contains(words, "not valid yet") || contains(
        words,
        "not valid for name",
    ) || contains(words, "not valid for any names") || contains(words, "subjectaltname")
}

/// Whether a verification error, in words and in any case of letters, is let
/// pass.
pub fn tolerates(error: &str) -> (tolerated: bool)
    ensures
        tolerated == is_known_shortcoming(lowercase(error@)),
{
    names_shortcoming(error.to_lowercase().as_str())
}

/// An error is let pass exactly where it holds, whatever stands around them, the
/// words of a certificate that is no longer or not yet valid, or not valid for the
/// bridge's name.
pub proof fn law_shortcomings_are_told_by_their_words(
    before: Seq<char>,
    words: Seq<char>,
    after: Seq<char>,
)
    ensures
        words == "expired"@ || words == "not valid yet"@ || words == "not valid for name"@ || words
            == "not valid for any names"@ || words == "subjectaltname"@ ==> is_known_shortcoming(
            before + words + after,
        ),
        !contains_text(before, "expired"@) && !contains_text(before, "not valid yet"@)
            && !contains_text(before, "not valid for name"@) && !contains_text(
            before,
            "not valid for any names"@,
        ) && !contains_text(before, "subjectaltname"@) ==> !is_known_shortcoming(before),
{
    law_what_stands_in_a_text_is_found(before, words, after);
}

} // verus!
