//! Drafting a package review, once the package that was looked at is known
//! to be the package as it is published.

use crate::bytes::copy_bytes;
use crate::deps::PROJECT_SOURCE_CRATES_IO;
use crate::id::{Digest, PubId};
use crate::record::{
    Level, Package, PackageInfo, PackageInfoModel, PackageModel, Rating, Review, TrustLevel,
};
use crate::timestamp::Timestamp;
use crate::vecmap::Key;
use vstd::prelude::*;

verus! {

/// Whether a review or a statement of trust is made in favour or against.
#[derive(Clone, Copy, Debug, PartialEq, Eq, Structural)]
pub enum TrustOrDistrust {
    Trust,
    Distrust,
}

impl TrustOrDistrust {
    /// The review that a draft starts from.
    pub open spec fn spec_to_review(self) -> Review {
        Review {
            thoroughness: Level::Low,
            understanding: Level::Medium,
            rating: match self {
                TrustOrDistrust::Trust => Rating::Positive,
                TrustOrDistrust::Distrust => Rating::Negative,
            },
        }
    }

    /// The review that a draft starts from.
    pub fn to_review(self) -> (review: Review)
        ensures
            review == self.spec_to_review(),
    {
        match self {
            TrustOrDistrust::Trust => Review {
                thoroughness: Level::Low,
                understanding: Level::Medium,
                rating: Rating::Positive,
            },
            TrustOrDistrust::Distrust => Review {
                thoroughness: Level::Low,
                understanding: Level::Medium,
                rating: Rating::Negative,
            },
        }
    }

    /// The level that a statement of trust starts from.
    pub fn to_trust_level(self) -> (level: TrustLevel)
        ensures
            level == (match self {
                TrustOrDistrust::Trust => TrustLevel::Medium,
                TrustOrDistrust::Distrust => TrustLevel::Distrust,
            }),
    {
        match self {
            TrustOrDistrust::Trust => TrustLevel::Medium,
            TrustOrDistrust::Distrust => TrustLevel::Distrust,
        }
    }
}

/// Why no review was drafted.
#[derive(Clone, Copy, Debug, PartialEq, Eq, Structural)]
pub enum ReviewError {
    /// The directory that was looked at differs from the package as published.
    DigestMismatch,
}

/// What a draft review of the package `name` in its version `version` holds.
pub open spec fn draft(
    from: crate::id::PubIdModel,
    date: Timestamp,
    name: Seq<char>,
    version: Seq<char>,
    digest: Seq<u8>,
    kind: TrustOrDistrust,
) -> PackageModel {
    PackageModel {
        from,
        date,
        package: PackageInfoModel {
            source: PROJECT_SOURCE_CRATES_IO@,
            name,
            version,
            digest,
            digest_type: "blake2b"@,
            revision: ""@,
            revision_type: "git"@,
        },
        review: kind.spec_to_review(),
    }
}

/// A draft of the review that `from` makes of a package: drafted only where
/// the directory that was looked at has the digest of a fresh copy of the
/// package, and then a review of that digest.
pub fn draft_package_review(
    from: &PubId,
    date: Timestamp,
    name: &str,
    version: &str,
    digest_clean: &Digest,
    digest_reviewed: &Digest,
    kind: TrustOrDistrust,
) -> (drafted: Result<Package, ReviewError>)
    ensures
        match drafted {
            Ok(review) => digest_clean@ == digest_reviewed@ && review@ == draft(
                from@,
                date,
                name@,
                version@,
                digest_clean@,
                kind,
            ),
            Err(error) => digest_clean@ != digest_reviewed@ && error == ReviewError::DigestMismatch,
        },
{
    if !digest_clean.bytes.key_eq(&digest_reviewed.bytes) {
        return Err(ReviewError::DigestMismatch);
    }
    Ok(
        Package {
            from: from.clone(),
            date,
            package: PackageInfo {
                source: PROJECT_SOURCE_CRATES_IO.to_owned(),
                name: name.to_owned(),
                version: version.to_owned(),
                digest: copy_bytes(digest_clean.as_slice()),
                digest_type: "blake2b".to_owned(),
                revision: "".to_owned(),
                revision_type: "git".to_owned(),
            },
            review: kind.to_review(),
        },
    )
}

} // verus!
