//! The outcome of asking whether somebody trusted stands behind a digest.

use vstd::prelude::*;

verus! {

/// What those who are trusted state of a digest.
#[derive(Clone, Copy, Debug, PartialEq, Eq, Structural)]
pub enum VerificationStatus {
    /// Somebody trusted rated it, and nobody trusted rated it below neutral.
    Verified,
    /// Somebody trusted rated it below neutral.
    Flagged,
    /// Nobody trusted rated it.
    Unknown,
}

impl VerificationStatus {
    /// The word under which the status is reported.
    pub fn as_str(&self) -> (word: &'static str)
        ensures
            word@ == match self {
                VerificationStatus::Verified => "verified"@,
                VerificationStatus::Flagged => "flagged"@,
                VerificationStatus::Unknown => "unknown"@,
            },
    {
        match self {
            VerificationStatus::Verified => "verified",
            VerificationStatus::Flagged => "flagged",
            VerificationStatus::Unknown => "unknown",
        }
    }
}

} // verus!
