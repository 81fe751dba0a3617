//! Whether a newer release is out.

use crate::text::{contains_text, law_what_stands_in_a_text_is_found, trim_leading, without_leading};
use vstd::prelude::*;

verus! {

/// The error type of `semver`.
#[verifier::external_type_specification]
#[verifier::external_body]
pub struct ExSemverError(semver::Error);

/// A version as `semver` reads it.
#[verifier::external_type_specification]
#[verifier::external_body]
pub struct ExVersion(semver::Version);

/// The version that a text names, or why it names none.
pub uninterp spec fn version_named(text: Seq<char>) -> Result<semver::Version, semver::Error>;

/// Whether a version is later than another.
pub uninterp spec fn is_later(candidate: semver::Version, current: semver::Version) -> bool;

/// `semver::Version::parse` reads a version, by the text alone.
#[verifier::external_body]
fn parse_version(text: &str) -> (result: Result<semver::Version, semver::Error>)
    ensures
        result == version_named(text@),
{
    semver::Version::parse(text)
}

/// `>` on two values of `semver::Version` tells, by the two alone, whether the
/// first is the later one. No version is later than itself.
#[verifier::external_body]
fn compare_versions(candidate: &semver::Version, current: &semver::Version) -> (later: bool)
    ensures
        later == is_later(*candidate, *current),
        later ==> *candidate != *current,
{
    candidate > current
}

/// Why two releases cannot be told apart.
#[derive(Debug)]
pub enum UpdateError {
    /// One of the two is not named by a version.
    NoVersion(semver::Error),
}

/// What is said of a release with the given tag.
pub open spec fn notice_text(tag: Seq<char>) -> Seq<char> {
    "A new version of PulsePlex is available (v"@ + tag
        + "). Run 'brew upgrade pulseplex' to update."@
}

/// What is said of a release with the given tag, where it is a later one.
pub fn notice_for(tag: &str, later: bool) -> (notice: Option<String>)
    ensures
        match notice {
            Some(notice) => later && notice@ == notice_text(tag@),
            None => !later,
        },
{
    if later {
        let mut notice: String = "A new version of PulsePlex is available (v".to_owned();
        notice.append(tag);
        notice.append("). Run 'brew upgrade pulseplex' to update.");
        Some(notice)
    } else {
        None
    }
}

/// What is said to a user of the current version when the latest release has
/// the given tag. A tag is a version, perhaps with a `v` before it. Where
/// neither text names a version, the error is that of the current one.
pub fn update_notice(tag: &str, current: &str) -> (result: Result<Option<String>, UpdateError>)
    ensures
        match (version_named(current@), version_named(without_leading(tag@, 'v'))) {
            (Ok(current_v), Ok(latest_v)) => match result {
                Ok(Some(notice)) => is_later(latest_v, current_v) && latest_v != current_v
                    && notice@ == notice_text(tag@),
                Ok(None) => !is_later(latest_v, current_v),
                Err(_) => false,
            },
            (Err(error), _) => result matches Err(UpdateError::NoVersion(e)) && e == error,
            (Ok(_), Err(error)) => result matches Err(UpdateError::NoVersion(e)) && e == error,
        },
{
    let current_v: semver::Version = match parse_version(current) {
        Ok(version) => version,
        Err(error) => {
            return Err(UpdateError::NoVersion(error));
        },
    };
    let latest: String = trim_leading(tag, 'v');
    let latest_v: semver::Version = match parse_version(latest.as_str()) {
        Ok(version) => version,
        Err(error) => {
            return Err(UpdateError::NoVersion(error));
        },
    };
    Ok(notice_for(tag, compare_versions(&latest_v, &current_v)))
}

/// What is said of a release names its tag and how to update.
pub proof fn law_notices_name_the_release(tag: Seq<char>)
    ensures
        contains_text(notice_text(tag), "(v"@ + tag + ")"@),
        contains_text(notice_text(tag), "brew upgrade pulseplex"@),
{
    reveal_strlit("A new version of PulsePlex is available (v");
    reveal_strlit("A new version of PulsePlex is available ");
    reveal_strlit("(v");
    reveal_strlit("). Run 'brew upgrade pulseplex' to update.");
    reveal_strlit(")");
    reveal_strlit(". Run 'brew upgrade pulseplex' to update.");
    reveal_strlit("). Run '");
    reveal_strlit("brew upgrade pulseplex");
    reveal_strlit("' to update.");
    let (head, tail) = (
        "A new version of PulsePlex is available (v"@,
        "). Run 'brew upgrade pulseplex' to update."@,
    );
    let (words, rest) = (
        "A new version of PulsePlex is available "@,
        ". Run 'brew upgrade pulseplex' to update."@,
    );
    assert(head =~= words + "(v"@);
    assert(tail =~= ")"@ + rest);
    assert(tail =~= "). Run '"@ + "brew upgrade pulseplex"@ + "' to update."@);
    let told = "(v"@ + tag + ")"@;
    assert(notice_text(tag) =~= words + told + rest);
    law_what_stands_in_a_text_is_found(words, told, rest);
    let before = head + tag + "). Run '"@;
    assert(notice_text(tag) =~= before + "brew upgrade pulseplex"@ + "' to update."@);
    law_what_stands_in_a_text_is_found(before, "brew upgrade pulseplex"@, "' to update."@);
}

} // verus!
