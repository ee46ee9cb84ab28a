//! Signed statements: trust in other identities, reviews of packages, and
//! reviews of source files.

use crate::bytes::copy_bytes;
use crate::id::{PubId, PubIdModel};
use crate::timestamp::{Timestamp, Timestamped};
use vstd::prelude::*;

verus! {

/// How far an identity is trusted. `Distrust` and `NoTrust` pass no trust on.
#[derive(Clone, Copy, Debug, PartialEq, Eq, PartialOrd, Ord, Hash, Structural)]
pub enum TrustLevel {
    Distrust,
    NoTrust,
    Low,
    Medium,
    High,
}

impl View for TrustLevel {
    type V = TrustLevel;

    open spec fn view(&self) -> TrustLevel {
        *self
    }
}

impl TrustLevel {
    /// Position in the order `Distrust < NoTrust < Low < Medium < High`.
    pub open spec fn spec_rank(self) -> int {
        match self {
            TrustLevel::Distrust => 0,
            TrustLevel::NoTrust => 1,
            TrustLevel::Low => 2,
            TrustLevel::Medium => 3,
            TrustLevel::High => 4,
        }
    }

    /// The position of the level in the order of the levels.
    pub fn rank(self) -> (r: u8)
        ensures
            r == self.spec_rank(),
    {
        match self {
            TrustLevel::Distrust => 0,
            TrustLevel::NoTrust => 1,
            TrustLevel::Low => 2,
            TrustLevel::Medium => 3,
            TrustLevel::High => 4,
        }
    }
}

/// How thoroughly something was reviewed, or how well it was understood.
#[derive(Clone, Copy, Debug, PartialEq, Eq, PartialOrd, Ord, Hash, Structural)]
pub enum Level {
    Unrated,
    Low,
    Medium,
    High,
}

/// The verdict of a review, from strongly negative to strongly positive.
#[derive(Clone, Copy, Debug, PartialEq, Eq, PartialOrd, Ord, Hash, Structural)]
pub enum Rating {
    Dangerous,
    Negative,
    Neutral,
    Positive,
    Strong,
}

impl Rating {
    /// Position in the order `Dangerous < Negative < Neutral < Positive < Strong`.
    pub open spec fn spec_rank(self) -> int {
        match self {
            Rating::Dangerous => 0,
            Rating::Negative => 1,
            Rating::Neutral => 2,
            Rating::Positive => 3,
            Rating::Strong => 4,
        }
    }

    /// The position of the rating in the order of the ratings.
    pub fn rank(self) -> (r: u8)
        ensures
            r == self.spec_rank(),
    {
        match self {
            Rating::Dangerous => 0,
            Rating::Negative => 1,
            Rating::Neutral => 2,
            Rating::Positive => 3,
            Rating::Strong => 4,
        }
    }

    /// The rating lies below `Neutral`.
    pub open spec fn negative(self) -> bool {
        self.spec_rank() < Rating::Neutral.spec_rank()
    }

    #[verifier::when_used_as_spec(negative)]
    /// Whether the rating lies below `Neutral`.
    pub fn is_negative(self) -> (below: bool)
        ensures
            below == self.negative(),
    {
        self.rank() < Rating::Neutral.rank()
    }
}

/// What a review states: how closely its author looked, how well the
/// author understood, and the verdict.
#[derive(Clone, Copy, Debug, PartialEq, Eq, Structural)]
pub struct Review {
    pub thoroughness: Level,
    pub understanding: Level,
    pub rating: Rating,
}

impl View for Review {
    type V = Review;

    open spec fn view(&self) -> Review {
        *self
    }
}

impl Review {
    /// A review of the given thoroughness, understanding and rating.
    pub fn new(thoroughness: Level, understanding: Level, rating: Rating) -> (review: Self)
        ensures
            review == (Review { thoroughness, understanding, rating }),
    {
        Review { thoroughness, understanding, rating }
    }
}

/// The package that a review is about.
#[derive(Debug, PartialEq, Eq)]
pub struct PackageInfo {
    pub source: String,
    pub name: String,
    pub version: String,
    pub digest: Vec<u8>,
    pub digest_type: String,
    pub revision: String,
    pub revision_type: String,
}

/// What a `PackageInfo` holds.
pub struct PackageInfoModel {
    pub source: Seq<char>,
    pub name: Seq<char>,
    pub version: Seq<char>,
    pub digest: Seq<u8>,
    pub digest_type: Seq<char>,
    pub revision: Seq<char>,
    pub revision_type: Seq<char>,
}

impl View for PackageInfo {
    type V = PackageInfoModel;

    open spec fn view(&self) -> PackageInfoModel {
        PackageInfoModel {
            source: self.source@,
            name: self.name@,
            version: self.version@,
            digest: self.digest@,
            digest_type: self.digest_type@,
            revision: self.revision@,
            revision_type: self.revision_type@,
        }
    }
}

impl Clone for PackageInfo {
    fn clone(&self) -> (copy: Self)
        ensures
            copy@ == self@,
    {
        PackageInfo {
            source: self.source.clone(),
            name: self.name.clone(),
            version: self.version.clone(),
            digest: copy_bytes(self.digest.as_slice()),
            digest_type: self.digest_type.clone(),
            revision: self.revision.clone(),
            revision_type: self.revision_type.clone(),
        }
    }
}

/// A statement of trust in a number of identities.
#[derive(Debug, PartialEq, Eq)]
pub struct Trust {
    pub from: PubId,
    pub date: Timestamp,
    pub ids: Vec<PubId>,
    pub trust: TrustLevel,
}

/// What a `Trust` holds.
pub struct TrustModel {
    pub from: PubIdModel,
    pub date: Timestamp,
    pub ids: Seq<PubIdModel>,
    pub trust: TrustLevel,
}

impl View for Trust {
    type V = TrustModel;

    open spec fn view(&self) -> TrustModel {
        TrustModel {
            from: self.from@,
            date: self.date,
            ids: self.ids@.map_values(|id: PubId| id@),
            trust: self.trust,
        }
    }
}

/// A review of one version of a package.
#[derive(Debug, PartialEq, Eq)]
pub struct Package {
    pub from: PubId,
    pub date: Timestamp,
    pub package: PackageInfo,
    pub review: Review,
}

/// What a `Package` holds.
pub struct PackageModel {
    pub from: PubIdModel,
    pub date: Timestamp,
    pub package: PackageInfoModel,
    pub review: Review,
}

impl View for Package {
    type V = PackageModel;

    open spec fn view(&self) -> PackageModel {
        PackageModel {
            from: self.from@,
            date: self.date,
            package: self.package@,
            review: self.review,
        }
    }
}

impl Clone for Package {
    fn clone(&self) -> (copy: Self)
        ensures
            copy@ == self@,
    {
        Package {
            from: self.from.clone(),
            date: self.date,
            package: self.package.clone(),
            review: self.review,
        }
    }
}

/// One reviewed file.
#[derive(Debug, PartialEq, Eq)]
pub struct File {
    pub path: String,
    pub digest: Vec<u8>,
}

/// What a `File` holds.
pub struct FileModel {
    pub path: Seq<char>,
    pub digest: Seq<u8>,
}

impl View for File {
    type V = FileModel;

    open spec fn view(&self) -> FileModel {
        FileModel { path: self.path@, digest: self.digest@ }
    }
}

/// A review of a number of source files.
#[derive(Debug, PartialEq, Eq)]
pub struct Code {
    pub from: PubId,
    pub date: Timestamp,
    pub files: Vec<File>,
    pub review: Review,
}

/// What a `Code` holds.
pub struct CodeModel {
    pub from: PubIdModel,
    pub date: Timestamp,
    pub files: Seq<FileModel>,
    pub review: Review,
}

impl View for Code {
    type V = CodeModel;

    open spec fn view(&self) -> CodeModel {
        CodeModel {
            from: self.from@,
            date: self.date,
            files: self.files@.map_values(|f: File| f@),
            review: self.review,
        }
    }
}

/// The statement that a proof carries.
#[derive(Debug, PartialEq, Eq)]
pub enum Content {
    Code(Code),
    Package(Package),
    Trust(Trust),
}

/// What a `Content` holds.
pub enum ContentModel {
    Code(CodeModel),
    Package(PackageModel),
    Trust(TrustModel),
}

impl View for Content {
    type V = ContentModel;

    open spec fn view(&self) -> ContentModel {
        match self {
            Content::Code(review) => ContentModel::Code(review@),
            Content::Package(review) => ContentModel::Package(review@),
            Content::Trust(trust) => ContentModel::Trust(trust@),
        }
    }
}

impl ContentModel {
    /// Who made the statement.
    pub open spec fn author(self) -> PubIdModel {
        match self {
            ContentModel::Code(review) => review.from,
            ContentModel::Package(review) => review.from,
            ContentModel::Trust(trust) => trust.from,
        }
    }

    /// When the statement was made.
    pub open spec fn date(self) -> Timestamp {
        match self {
            ContentModel::Code(review) => review.date,
            ContentModel::Package(review) => review.date,
            ContentModel::Trust(trust) => trust.date,
        }
    }
}

/// Why a proof is not accepted.
#[derive(Clone, Copy, Debug, PartialEq, Eq, Structural)]
pub enum ProofError {
    /// The signature does not belong to the content and its author.
    InvalidSignature,
}

/// A statement with its signature, and with the outcome of checking that
/// signature against the author's key and the signed bytes.
#[derive(Debug, PartialEq, Eq)]
pub struct Proof {
    pub content: Content,
    pub signature: String,
    pub signature_valid: bool,
}

/// What a `Proof` holds.
pub struct ProofModel {
    pub content: ContentModel,
    pub signature: Seq<char>,
    pub signature_valid: bool,
}

impl View for Proof {
    type V = ProofModel;

    open spec fn view(&self) -> ProofModel {
        ProofModel {
            content: self.content@,
            signature: self.signature@,
            signature_valid: self.signature_valid,
        }
    }
}

impl Proof {
    /// A statement with its signature and the outcome of checking it.
    pub fn new(content: Content, signature: String, signature_valid: bool) -> (record: Self)
        ensures
            record@ == (ProofModel { content: content@, signature: signature@, signature_valid }),
    {
        Proof { content, signature, signature_valid }
    }

    /// Succeeds exactly for a proof whose signature was found valid.
    pub fn verify(&self) -> (outcome: Result<(), ProofError>)
        ensures
            outcome is Ok <==> self@.signature_valid,
            outcome is Err ==> outcome == Err::<(), ProofError>(ProofError::InvalidSignature),
    {
        if self.signature_valid {
            Ok(())
        } else {
            Err(ProofError::InvalidSignature)
        }
    }
}

/// The level that a trust proof states, with the proof's date.
impl From<&Trust> for Timestamped<TrustLevel> {
    fn from(trust: &Trust) -> (stamped: Self) {
        Timestamped { date: trust.date, value: trust.trust }
    }
}

impl vstd::std_specs::convert::FromSpecImpl<&Trust> for Timestamped<TrustLevel> {
    open spec fn obeys_from_spec() -> bool {
        true
    }

    open spec fn from_spec(trust: &Trust) -> Self {
        Timestamped { date: trust.date, value: trust.trust }
    }
}

/// The review that a package review states, with its date.
impl From<&Package> for Timestamped<Review> {
    fn from(review: &Package) -> (stamped: Self) {
        Timestamped { date: review.date, value: review.review }
    }
}

impl vstd::std_specs::convert::FromSpecImpl<&Package> for Timestamped<Review> {
    open spec fn obeys_from_spec() -> bool {
        true
    }

    open spec fn from_spec(review: &Package) -> Self {
        Timestamped { date: review.date, value: review.review }
    }
}

/// The review that a code review states, with its date.
impl From<&Code> for Timestamped<Review> {
    fn from(review: &Code) -> (stamped: Self) {
        Timestamped { date: review.date, value: review.review }
    }
}

impl vstd::std_specs::convert::FromSpecImpl<&Code> for Timestamped<Review> {
    open spec fn obeys_from_spec() -> bool {
        true
    }

    open spec fn from_spec(review: &Code) -> Self {
        Timestamped { date: review.date, value: review.review }
    }
}

} // verus!
