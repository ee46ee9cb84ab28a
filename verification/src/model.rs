//! What a trust database holds, as maps and sets, and what every operation
//! on it means.

use crate::id::{PubIdModel, UrlModel};
use crate::listing::Listed;
use crate::record::{
    CodeModel, ContentModel, PackageModel, ProofModel, Review, TrustLevel, TrustModel,
};
use crate::ordset::enumeration;
use crate::reach::trust_set;
use crate::timestamp::{upsert, Timestamp, Timestamped};
use crate::trustdb::TrustDistanceParams;
use crate::verification::VerificationStatus;
use vstd::prelude::*;

verus! {

/// `m` after `incoming` was stated under the outer key `a` and the inner key `b`.
pub open spec fn upsert_in<A, B, V>(
    m: Map<A, Map<B, Timestamped<V>>>,
    a: A,
    b: B,
    incoming: Timestamped<V>,
) -> Map<A, Map<B, Timestamped<V>>> {
    m.insert(
        a,
        upsert(
            if m.contains_key(a) {
                m[a]
            } else {
                Map::empty()
            },
            b,
            incoming,
        ),
    )
}

/// The signatures filed under `key`.
pub open spec fn filed<K>(index: Map<K, Set<Seq<char>>>, key: K) -> Set<Seq<char>> {
    if index.contains_key(key) {
        index[key]
    } else {
        Set::empty()
    }
}

/// `index` after `signature` was filed under `key`.
pub open spec fn file_under<K>(index: Map<K, Set<Seq<char>>>, key: K, signature: Seq<char>) -> Map<
    K,
    Set<Seq<char>>,
> {
    index.insert(key, filed(index, key).insert(signature))
}

/// `trust` after the author of `stated` stated its level of trust in the
/// first `n` identities that it names.
pub open spec fn trust_edges(
    trust: Map<Seq<u8>, Map<Seq<u8>, Timestamped<TrustLevel>>>,
    stated: TrustModel,
    n: nat,
) -> Map<Seq<u8>, Map<Seq<u8>, Timestamped<TrustLevel>>>
    decreases n,
{
    if n == 0 {
        trust
    } else {
        upsert_in(
            trust_edges(trust, stated, (n - 1) as nat),
            stated.from.id,
            stated.ids[n - 1].id,
            Timestamped { date: stated.date, value: stated.trust },
        )
    }
}

/// `urls` after a trust proof gave a URL for each of the first `n`
/// identities that it names.
pub open spec fn trust_urls(
    urls: Map<Seq<u8>, Timestamped<UrlModel>>,
    stated: TrustModel,
    n: nat,
) -> Map<Seq<u8>, Timestamped<UrlModel>>
    decreases n,
{
    if n == 0 {
        urls
    } else {
        upsert(
            trust_urls(urls, stated, (n - 1) as nat),
            stated.ids[n - 1].id,
            Timestamped { date: stated.date, value: stated.ids[n - 1].url },
        )
    }
}

/// `reviews` after a code review stated its review of the first `n` of its files.
pub open spec fn file_reviews(
    reviews: Map<Seq<u8>, Map<Seq<u8>, Timestamped<Review>>>,
    stated: CodeModel,
    n: nat,
) -> Map<Seq<u8>, Map<Seq<u8>, Timestamped<Review>>>
    decreases n,
{
    if n == 0 {
        reviews
    } else {
        upsert_in(
            file_reviews(reviews, stated, (n - 1) as nat),
            stated.files[n - 1].digest,
            stated.from.id,
            Timestamped { date: stated.date, value: stated.review },
        )
    }
}

/// The contents of a trust database.
#[verifier::ext_equal]
pub struct TrustDbModel {
    /// Who trusts whom, and how far, as last stated.
    pub trust: Map<Seq<u8>, Map<Seq<u8>, Timestamped<TrustLevel>>>,
    /// For each digest, who reviewed it, and how, as last stated.
    pub reviews: Map<Seq<u8>, Map<Seq<u8>, Timestamped<Review>>>,
    /// The URL each author gave for itself.
    pub urls: Map<Seq<u8>, Timestamped<UrlModel>>,
    /// The URL that others gave for an identity when they stated trust in it.
    pub urls_secondary: Map<Seq<u8>, Timestamped<UrlModel>>,
    /// The package review first seen under each signature.
    pub package_reviews: Map<Seq<char>, PackageModel>,
    /// Signatures of package reviews by source.
    pub by_source: Map<Seq<char>, Set<Seq<char>>>,
    /// Signatures of package reviews by source and name.
    pub by_name: Map<(Seq<char>, Seq<char>), Set<Seq<char>>>,
    /// Signatures of package reviews by source, name and version.
    pub by_version: Map<(Seq<char>, Seq<char>, Seq<char>), Set<Seq<char>>>,
}

impl TrustDbModel {
    /// The database that holds nothing.
    pub open spec fn empty() -> TrustDbModel {
        TrustDbModel {
            trust: Map::empty(),
            reviews: Map::empty(),
            urls: Map::empty(),
            urls_secondary: Map::empty(),
            package_reviews: Map::empty(),
            by_source: Map::empty(),
            by_name: Map::empty(),
            by_version: Map::empty(),
        }
    }

    /// Every signature that an index files has its review, and every index
    /// entry is a finite set.
    pub open spec fn indexed(self) -> bool {
        &&& forall|k: Seq<char>, s: Seq<char>|
            #![trigger self.by_source[k].contains(s)]
            self.by_source.contains_key(k) && self.by_source[k].contains(s)
                ==> self.package_reviews.contains_key(s)
        &&& forall|k: (Seq<char>, Seq<char>), s: Seq<char>|
            #![trigger self.by_name[k].contains(s)]
            self.by_name.contains_key(k) && self.by_name[k].contains(s)
                ==> self.package_reviews.contains_key(s)
        &&& forall|k: (Seq<char>, Seq<char>, Seq<char>), s: Seq<char>|
            #![trigger self.by_version[k].contains(s)]
            self.by_version.contains_key(k) && self.by_version[k].contains(s)
                ==> self.package_reviews.contains_key(s)
        &&& forall|k: Seq<char>| #[trigger]
            self.by_source.contains_key(k) ==> self.by_source[k].finite()
        &&& forall|k: (Seq<char>, Seq<char>)| #[trigger]
            self.by_name.contains_key(k) ==> self.by_name[k].finite()
        &&& forall|k: (Seq<char>, Seq<char>, Seq<char>)| #[trigger]
            self.by_version.contains_key(k) ==> self.by_version[k].finite()
    }

    /// The author of a proof gave `from.url` as its own URL at `date`.
    pub open spec fn record_url_from_from_field(
        self,
        date: Timestamp,
        from: PubIdModel,
    ) -> TrustDbModel {
        TrustDbModel {
            urls: upsert(self.urls, from.id, Timestamped { date, value: from.url }),
            ..self
        }
    }

    /// Somebody who stated trust in `to.id` at `date` gave `to.url` as its URL.
    pub open spec fn record_url_from_to_field(
        self,
        date: Timestamp,
        to: PubIdModel,
    ) -> TrustDbModel {
        TrustDbModel {
            urls_secondary: upsert(self.urls_secondary, to.id, Timestamped { date, value: to.url }),
            ..self
        }
    }

    /// `from` stated at `date` that it trusts `to` at level `trust`.
    pub open spec fn add_trust_raw(
        self,
        from: Seq<u8>,
        to: Seq<u8>,
        date: Timestamp,
        trust: TrustLevel,
    ) -> TrustDbModel {
        TrustDbModel {
            trust: upsert_in(self.trust, from, to, Timestamped { date, value: trust }),
            ..self
        }
    }

    /// A trust proof: the author's URL, an edge to each identity named, and
    /// the URL given for each of them.
    pub open spec fn add_trust(self, trust: TrustModel) -> TrustDbModel {
        TrustDbModel {
            urls: upsert(
                self.urls,
                trust.from.id,
                Timestamped { date: trust.date, value: trust.from.url },
            ),
            trust: trust_edges(self.trust, trust, trust.ids.len()),
            urls_secondary: trust_urls(self.urls_secondary, trust, trust.ids.len()),
            ..self
        }
    }

    /// `from` stated at `date` the review `review` of `digest`.
    pub open spec fn add_review(
        self,
        digest: Seq<u8>,
        from: Seq<u8>,
        date: Timestamp,
        review: Review,
    ) -> TrustDbModel {
        TrustDbModel {
            reviews: upsert_in(self.reviews, digest, from, Timestamped { date, value: review }),
            ..self
        }
    }

    /// A code review: the author's URL, and its review of each file's digest.
    pub open spec fn add_code_review(self, review: CodeModel) -> TrustDbModel {
        TrustDbModel {
            urls: upsert(
                self.urls,
                review.from.id,
                Timestamped { date: review.date, value: review.from.url },
            ),
            reviews: file_reviews(self.reviews, review, review.files.len()),
            ..self
        }
    }

    /// A package review with its signature: the author's URL, its review of
    /// the package's digest, the review itself unless the signature was seen
    /// before, and the signature in each of the three indices.
    pub open spec fn add_package_review(
        self,
        review: PackageModel,
        signature: Seq<char>,
    ) -> TrustDbModel {
        TrustDbModel {
            urls: upsert(
                self.urls,
                review.from.id,
                Timestamped { date: review.date, value: review.from.url },
            ),
            reviews: upsert_in(
                self.reviews,
                review.package.digest,
                review.from.id,
                Timestamped { date: review.date, value: review.review },
            ),
            package_reviews: if self.package_reviews.contains_key(signature) {
                self.package_reviews
            } else {
                self.package_reviews.insert(signature, review)
            },
            by_source: file_under(self.by_source, review.package.source, signature),
            by_name: file_under(
                self.by_name,
                (review.package.source, review.package.name),
                signature,
            ),
            by_version: file_under(
                self.by_version,
                (review.package.source, review.package.name, review.package.version),
                signature,
            ),
            ..self
        }
    }

    /// One proof, by its kind.
    pub open spec fn add_proof(self, record: ProofModel) -> TrustDbModel {
        match record.content {
            ContentModel::Code(review) => self.add_code_review(review),
            ContentModel::Package(review) => self.add_package_review(review, record.signature),
            ContentModel::Trust(trust) => self.add_trust(trust),
        }
    }

    /// A sequence of proofs, one after the other.
    pub open spec fn import(self, records: Seq<ProofModel>) -> TrustDbModel
        decreases records.len(),
    {
        if records.len() == 0 {
            self
        } else {
            self.import(records.drop_last()).add_proof(records.last())
        }
    }

    /// The signatures of the package reviews of a source, of one of its
    /// packages, or of one version of a package.
    pub open spec fn signatures(
        self,
        source: Seq<char>,
        name: Option<Seq<char>>,
        version: Option<Seq<char>>,
    ) -> Set<Seq<char>> {
        match (name, version) {
            (Some(name), Some(version)) => filed(self.by_version, (source, name, version)),
            (Some(name), None) => filed(self.by_name, (source, name)),
            (None, _) => filed(self.by_source, source),
        }
    }

    /// The date and signature of each of the package reviews signed `signatures`.
    pub open spec fn listed(self, signatures: Set<Seq<char>>) -> Set<(Timestamp, Seq<char>)> {
        Set::new(
            |e: (Timestamp, Seq<char>)|
                signatures.contains(e.1) && e.0 == self.package_reviews[e.1].date,
        )
    }

    /// The package reviews of a source, of one of its packages, or of one
    /// version of a package: the earliest first, and those of one date in the
    /// order of their signatures.
    pub open spec fn package_reviews_for(
        self,
        source: Seq<char>,
        name: Option<Seq<char>>,
        version: Option<Seq<char>>,
    ) -> Seq<PackageModel> {
        enumeration::<Listed>(self.listed(self.signatures(source, name, version))).map_values(
            |e: (Timestamp, Seq<char>)| self.package_reviews[e.1],
        )
    }

    /// Somebody among `trusted` rated `digest` below neutral.
    pub open spec fn flagged(self, digest: Seq<u8>, trusted: Set<Seq<u8>>) -> bool {
        self.reviews.contains_key(digest) && exists|id: Seq<u8>|
            trusted.contains(id) && #[trigger] self.reviews[digest].contains_key(id)
                && self.reviews[digest][id].value.rating.negative()
    }

    /// Somebody among `trusted` rated `digest` neutral or better.
    pub open spec fn endorsed(self, digest: Seq<u8>, trusted: Set<Seq<u8>>) -> bool {
        self.reviews.contains_key(digest) && exists|id: Seq<u8>|
            trusted.contains(id) && #[trigger] self.reviews[digest].contains_key(id)
                && !self.reviews[digest][id].value.rating.negative()
    }

    /// What those among `trusted` state of `digest`: flagged where one
    /// of them rated it below neutral, else verified where one of them
    /// reviewed it at all, else unknown.
    pub open spec fn verify_digest(
        self,
        digest: Seq<u8>,
        trusted: Set<Seq<u8>>,
    ) -> VerificationStatus {
        if self.flagged(digest, trusted) {
            VerificationStatus::Flagged
        } else if self.endorsed(digest, trusted) {
            VerificationStatus::Verified
        } else {
            VerificationStatus::Unknown
        }
    }

    /// Everybody that `root` trusts under `params`.
    pub open spec fn trust_set(self, root: Seq<u8>, params: TrustDistanceParams) -> Set<Seq<u8>> {
        trust_set(self.trust, params, root)
    }

    /// Every identity that a URL is known for.
    pub open spec fn all_known_ids(self) -> Set<Seq<u8>> {
        self.urls.dom().union(self.urls_secondary.dom())
    }

    /// The URL of `id`: the one it gave itself, else the one others gave for it.
    pub open spec fn lookup_url(self, id: Seq<u8>) -> Option<UrlModel> {
        if self.urls.contains_key(id) {
            Some(self.urls[id].value)
        } else if self.urls_secondary.contains_key(id) {
            Some(self.urls_secondary[id].value)
        } else {
            None
        }
    }
}

} // verus!
