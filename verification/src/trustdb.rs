//! The trust database: an index of the proofs taken in, and the questions it answers.

use crate::bytes::copy_bytes;
use crate::id::{Digest, Id, PubId, Url};
use crate::listing::Listed;
use crate::model::{file_reviews, file_under, trust_edges, trust_urls, upsert_in, TrustDbModel};
use crate::ordset::OrdSet;
use crate::record::{
    Code, Content, Package, PackageModel, Proof, ProofError, Review, Trust, TrustLevel,
};
use crate::timestamp::{upsert, Timestamp, Timestamped};
use crate::trust_set::walk;
use crate::verification::VerificationStatus;
use crate::vecmap::VecMap;
use vstd::prelude::*;

verus! {

/// The distance budget of a walk through the trust graph, and the length of
/// an edge of each trust level.
#[derive(Clone, Copy, Debug, PartialEq, Eq, Structural)]
pub struct TrustDistanceParams {
    pub max_distance: u64,
    pub high_trust_distance: u64,
    pub medium_trust_distance: u64,
    pub low_trust_distance: u64,
}

impl TrustDistanceParams {
    /// The length of an edge of the given level; `Distrust` and `NoTrust` make no edge.
    pub open spec fn spec_distance_by_level(self, level: TrustLevel) -> Option<u64> {
        match level {
            TrustLevel::Distrust => None,
            TrustLevel::NoTrust => None,
            TrustLevel::Low => Some(self.low_trust_distance),
            TrustLevel::Medium => Some(self.medium_trust_distance),
            TrustLevel::High => Some(self.high_trust_distance),
        }
    }

    /// The length of an edge of the given level, if the level makes an edge.
    pub fn distance_by_level(&self, level: TrustLevel) -> (distance: Option<u64>)
        ensures
            distance == self.spec_distance_by_level(level),
    {
        match level {
            TrustLevel::Distrust => None,
            TrustLevel::NoTrust => None,
            TrustLevel::Low => Some(self.low_trust_distance),
            TrustLevel::Medium => Some(self.medium_trust_distance),
            TrustLevel::High => Some(self.high_trust_distance),
        }
    }
}

impl Default for TrustDistanceParams {
    fn default() -> (params: Self)
        ensures
            params == (TrustDistanceParams {
                max_distance: 10,
                high_trust_distance: 0,
                medium_trust_distance: 1,
                low_trust_distance: 5,
            }),
    {
        TrustDistanceParams {
            max_distance: 10,
            high_trust_distance: 0,
            medium_trust_distance: 1,
            low_trust_distance: 5,
        }
    }
}

/// In-memory database of what the proofs taken in so far state.
pub struct TrustDB {
    trust_id_to_id: VecMap<Id, VecMap<Id, Timestamped<TrustLevel>>>,
    digest_to_reviews: VecMap<Vec<u8>, VecMap<Id, Timestamped<Review>>>,
    url_by_id: VecMap<Id, Timestamped<Url>>,
    url_by_id_secondary: VecMap<Id, Timestamped<Url>>,
    package_review_by_signature: VecMap<String, Package>,
    package_reviews_by_source: VecMap<String, OrdSet<String>>,
    package_reviews_by_name: VecMap<(String, String), OrdSet<String>>,
    package_reviews_by_version: VecMap<(String, String, String), OrdSet<String>>,
}

impl View for TrustDB {
    type V = TrustDbModel;

    closed spec fn view(&self) -> TrustDbModel {
        TrustDbModel {
            trust: self.trust_id_to_id@,
            reviews: self.digest_to_reviews@,
            urls: self.url_by_id@,
            urls_secondary: self.url_by_id_secondary@,
            package_reviews: self.package_review_by_signature@,
            by_source: self.package_reviews_by_source@,
            by_name: self.package_reviews_by_name@,
            by_version: self.package_reviews_by_version@,
        }
    }
}

impl TrustDB {
    /// Every index is well formed, and every signature filed has its review.
    pub closed spec fn wf(&self) -> bool {
        &&& self.trust_id_to_id.wf()
        &&& forall|k: Seq<u8>| #[trigger]
            self.trust_id_to_id.map().contains_key(k) ==> self.trust_id_to_id.map()[k].wf()
        &&& self.digest_to_reviews.wf()
        &&& forall|k: Seq<u8>| #[trigger]
            self.digest_to_reviews.map().contains_key(k) ==> self.digest_to_reviews.map()[k].wf()
        &&& self.url_by_id.wf()
        &&& self.url_by_id_secondary.wf()
        &&& self.package_review_by_signature.wf()
        &&& self.package_reviews_by_source.wf()
        &&& forall|k: Seq<char>| #[trigger]
            self.package_reviews_by_source.map().contains_key(k)
                ==> self.package_reviews_by_source.map()[k].wf()
        &&& self.package_reviews_by_name.wf()
        &&& forall|k: (Seq<char>, Seq<char>)| #[trigger]
            self.package_reviews_by_name.map().contains_key(k)
                ==> self.package_reviews_by_name.map()[k].wf()
        &&& self.package_reviews_by_version.wf()
        &&& forall|k: (Seq<char>, Seq<char>, Seq<char>)| #[trigger]
            self.package_reviews_by_version.map().contains_key(k)
                ==> self.package_reviews_by_version.map()[k].wf()
        &&& self@.indexed()
    }

    /// In a well-formed database every signature filed has its review.
    pub proof fn lemma_indexed(&self)
        requires
            self.wf(),
        ensures
            self@.indexed(),
    {
    }

    /// A database that holds nothing.
    pub fn new() -> (db: Self)
        ensures
            db.wf(),
            db@ == TrustDbModel::empty(),
    {
        let db = TrustDB {
            trust_id_to_id: VecMap::new(),
            digest_to_reviews: VecMap::new(),
            url_by_id: VecMap::new(),
            url_by_id_secondary: VecMap::new(),
            package_review_by_signature: VecMap::new(),
            package_reviews_by_source: VecMap::new(),
            package_reviews_by_name: VecMap::new(),
            package_reviews_by_version: VecMap::new(),
        };
        proof {
            assert(db@ =~= TrustDbModel::empty());
        }
        db
    }

    /// Takes in the URL that the author of a proof gave for itself.
    fn record_url_from_from_field(&mut self, date: &Timestamp, from: &PubId)
        requires
            old(self).wf(),
        ensures
            final(self).wf(),
            final(self)@ == old(self)@.record_url_from_from_field(*date, from@),
    {
        let stamped = Timestamped { value: from.url.clone(), date: *date };
        stamped.insert_into_or_update_to_more_recent(&mut self.url_by_id, from.id.clone());
        proof {
            assert(self@ =~= old(self)@.record_url_from_from_field(*date, from@));
        }
    }

    /// Takes in the URL that a trust proof gave for an identity it names.
    fn record_url_from_to_field(&mut self, date: &Timestamp, to: &PubId)
        requires
            old(self).wf(),
        ensures
            final(self).wf(),
            final(self)@ == old(self)@.record_url_from_to_field(*date, to@),
    {
        let stamped = Timestamped { value: to.url.clone(), date: *date };
        stamped.insert_into_or_update_to_more_recent(&mut self.url_by_id_secondary, to.id.clone());
        proof {
            assert(self@ =~= old(self)@.record_url_from_to_field(*date, to@));
        }
    }

    /// Takes in the level of trust that `from` stated in `to` at `date`.
    fn add_trust_raw(&mut self, from: &Id, to: &Id, date: Timestamp, trust: TrustLevel)
        requires
            old(self).wf(),
        ensures
            final(self).wf(),
            final(self)@ == old(self)@.add_trust_raw(from@, to@, date, trust),
    {
        let ghost outer0 = self.trust_id_to_id.map();
        let trusted = self.trust_id_to_id.slot(from.clone(), VecMap::new());
        let ghost inner0 = *trusted;
        let stamped = Timestamped { value: trust, date };
        stamped.insert_into_or_update_to_more_recent(trusted, to.clone());
        let ghost inner1 = *trusted;
        proof {
            assert(inner1.map() == upsert(inner0.map(), to@, stamped));
            assert(inner1@ =~= upsert(inner0@, to@, stamped));
            assert(self.trust_id_to_id.map() == outer0.insert(from@, inner1));
            if !outer0.contains_key(from@) {
                assert(inner0@ =~= Map::empty());
            }
            assert(self.trust_id_to_id@ =~= upsert_in(old(self)@.trust, from@, to@, stamped));
            assert(self@ =~= old(self)@.add_trust_raw(from@, to@, date, trust));
        }
    }

    /// Takes in a trust proof.
    fn add_trust(&mut self, trust: &Trust)
        requires
            old(self).wf(),
        ensures
            final(self).wf(),
            final(self)@ == old(self)@.add_trust(trust@),
    {
        let from = &trust.from;
        self.record_url_from_from_field(&trust.date, from);
        let ghost recorded = self@;
        let mut i: usize = 0;
        while i < trust.ids.len()
            invariant
                self.wf(),
                i <= trust.ids.len(),
                trust@.ids.len() == trust.ids.len(),
                self@ == (TrustDbModel {
                    trust: trust_edges(recorded.trust, trust@, i as nat),
                    ..recorded
                }),
            decreases trust.ids.len() - i,
        {
            let to = &trust.ids[i];
            let stated = Timestamped::<TrustLevel>::from(trust);
            self.add_trust_raw(&trust.from.id, &to.id, stated.date, stated.value);
            i += 1;
        }
        let ghost linked = self@;
        let mut j: usize = 0;
        while j < trust.ids.len()
            invariant
                self.wf(),
                j <= trust.ids.len(),
                trust@.ids.len() == trust.ids.len(),
                self@ == (TrustDbModel {
                    urls_secondary: trust_urls(linked.urls_secondary, trust@, j as nat),
                    ..linked
                }),
            decreases trust.ids.len() - j,
        {
            let to = &trust.ids[j];
            self.record_url_from_to_field(&trust.date, to);
            j += 1;
        }
    }

    /// Takes in the review that `from` stated of `digest`.
    fn add_review(&mut self, digest: &Vec<u8>, from: &Id, stamped: Timestamped<Review>)
        requires
            old(self).wf(),
        ensures
            final(self).wf(),
            final(self)@ == old(self)@.add_review(digest@, from@, stamped.date, stamped.value),
    {
        let ghost outer0 = self.digest_to_reviews.map();
        let reviewers = self.digest_to_reviews.slot(copy_bytes(digest.as_slice()), VecMap::new());
        let ghost inner0 = *reviewers;
        stamped.insert_into_or_update_to_more_recent(reviewers, from.clone());
        let ghost inner1 = *reviewers;
        proof {
            assert(inner1.map() == upsert(inner0.map(), from@, stamped));
            assert(inner1@ =~= upsert(inner0@, from@, stamped));
            assert(self.digest_to_reviews.map() == outer0.insert(digest@, inner1));
            if !outer0.contains_key(digest@) {
                assert(inner0@ =~= Map::empty());
            }
            assert(self.digest_to_reviews@ =~= upsert_in(
                old(self)@.reviews,
                digest@,
                from@,
                stamped,
            ));
            assert(self@ =~= old(self)@.add_review(digest@, from@, stamped.date, stamped.value));
        }
    }

    /// Takes in a review of source files.
    fn add_code_review(&mut self, review: &Code)
        requires
            old(self).wf(),
        ensures
            final(self).wf(),
            final(self)@ == old(self)@.add_code_review(review@),
    {
        let from = &review.from;
        self.record_url_from_from_field(&review.date, from);
        let ghost recorded = self@;
        let mut i: usize = 0;
        while i < review.files.len()
            invariant
                self.wf(),
                i <= review.files.len(),
                review@.files.len() == review.files.len(),
                self@ == (TrustDbModel {
                    reviews: file_reviews(recorded.reviews, review@, i as nat),
                    ..recorded
                }),
            decreases review.files.len() - i,
        {
            let file = &review.files[i];
            self.add_review(&file.digest, &review.from.id, Timestamped::<Review>::from(review));
            i += 1;
        }
    }

    /// Takes in a review of a package, signed `signature`.
    fn add_package_review(&mut self, review: &Package, signature: &str)
        requires
            old(self).wf(),
        ensures
            final(self).wf(),
            final(self)@ == old(self)@.add_package_review(review@, signature@),
    {
        let from = &review.from;
        self.record_url_from_from_field(&review.date, from);
        self.add_review(
            &review.package.digest,
            &review.from.id,
            Timestamped::<Review>::from(review),
        );
        let ghost recorded = self@;

        let key = signature.to_owned();
        if !self.package_review_by_signature.contains_key(&key) {
            self.package_review_by_signature.push_new(key, review.clone());
        }
        proof {
            assert(self.package_review_by_signature@ =~= (if recorded.package_reviews.contains_key(
                signature@,
            ) {
                recorded.package_reviews
            } else {
                recorded.package_reviews.insert(signature@, review@)
            }));
        }

        let ghost sources0 = self.package_reviews_by_source.map();
        let by_source = self.package_reviews_by_source.slot(
            review.package.source.clone(),
            OrdSet::new(),
        );
        by_source.insert(signature.to_owned());
        proof {
            let filed1 = *by_source;
            assert(self.package_reviews_by_source.map() == sources0.insert(
                review@.package.source,
                filed1,
            ));
            filed1.lemma_enumeration();
            assert(self.package_reviews_by_source@ =~= file_under(
                recorded.by_source,
                review@.package.source,
                signature@,
            ));
        }

        let ghost names0 = self.package_reviews_by_name.map();
        let by_name = self.package_reviews_by_name.slot(
            (review.package.source.clone(), review.package.name.clone()),
            OrdSet::new(),
        );
        by_name.insert(signature.to_owned());
        proof {
            let filed1 = *by_name;
            assert(self.package_reviews_by_name.map() == names0.insert(
                (review@.package.source, review@.package.name),
                filed1,
            ));
            filed1.lemma_enumeration();
            assert(self.package_reviews_by_name@ =~= file_under(
                recorded.by_name,
                (review@.package.source, review@.package.name),
                signature@,
            ));
        }

        let ghost versions0 = self.package_reviews_by_version.map();
        let by_version = self.package_reviews_by_version.slot(
            (
                review.package.source.clone(),
                review.package.name.clone(),
                review.package.version.clone(),
            ),
            OrdSet::new(),
        );
        by_version.insert(signature.to_owned());
        proof {
            let filed1 = *by_version;
            assert(self.package_reviews_by_version.map() == versions0.insert(
                (review@.package.source, review@.package.name, review@.package.version),
                filed1,
            ));
            filed1.lemma_enumeration();
            assert(self.package_reviews_by_version@ =~= file_under(
                recorded.by_version,
                (review@.package.source, review@.package.name, review@.package.version),
                signature@,
            ));
            assert(self@ =~= old(self)@.add_package_review(review@, signature@));
        }
    }

    /// Takes in one proof whose signature was found valid.
    pub fn add_proof(&mut self, record: &Proof)
        requires
            old(self).wf(),
            record@.signature_valid,
        ensures
            final(self).wf(),
            final(self)@ == old(self)@.add_proof(record@),
    {
        match &record.content {
            Content::Code(review) => self.add_code_review(review),
            Content::Package(review) => self.add_package_review(review, record.signature.as_str()),
            Content::Trust(trust) => self.add_trust(trust),
        }
    }

    /// Takes in one proof if its signature was found valid, and nothing otherwise.
    pub fn try_add_proof(&mut self, record: &Proof) -> (outcome: Result<(), ProofError>)
        requires
            old(self).wf(),
        ensures
            final(self).wf(),
            outcome is Ok <==> record@.signature_valid,
            outcome is Ok ==> final(self)@ == old(self)@.add_proof(record@),
            outcome is Err ==> final(self)@ == old(self)@ && outcome == Err::<(), ProofError>(
                ProofError::InvalidSignature,
            ),
    {
        match record.verify() {
            Ok(()) => {
                self.add_proof(record);
                Ok(())
            },
            Err(error) => Err(error),
        }
    }

    /// Takes in a batch of proofs in order, up to the first whose signature
    /// was not found valid: the batch fails there, and what came before it
    /// stays taken in.
    pub fn try_import(&mut self, records: &Vec<Proof>) -> (outcome: Result<(), ProofError>)
        requires
            old(self).wf(),
        ensures
            final(self).wf(),
            final(self)@ == old(self)@.import(
                records@.map_values(|r: Proof| r@).take(
                    valid_prefix(records@, records@.len()) as int,
                ),
            ),
            outcome is Ok <==> valid_prefix(records@, records@.len()) == records@.len(),
            outcome is Err ==> outcome == Err::<(), ProofError>(ProofError::InvalidSignature),
    {
        let ghost start = self@;
        let ghost models = records@.map_values(|r: Proof| r@);
        let mut i: usize = 0;
        while i < records.len()
            invariant
                self.wf(),
                i <= records.len(),
                models == records@.map_values(|r: Proof| r@),
                valid_prefix(records@, i as nat) == i,
                start == old(self)@,
                self@ == start.import(models.take(i as int)),
            decreases records.len() - i,
        {
            match self.try_add_proof(&records[i]) {
                Ok(()) => {},
                Err(error) => {
                    proof {
                        lemma_valid_prefix_ends(records@, i as nat, records@.len());
                    }
                    return Err(error);
                },
            }
            proof {
                assert(models.take(i + 1).drop_last() =~= models.take(i as int));
                assert(models.take(i + 1).last() == records[i as int]@);
            }
            i += 1;
        }
        Ok(())
    }

    /// Takes in a batch of proofs whose signatures were found valid, in order.
    pub fn import_from_iter(&mut self, records: Vec<Proof>)
        requires
            old(self).wf(),
            forall|i: int| 0 <= i < records.len() ==> (#[trigger] records[i])@.signature_valid,
        ensures
            final(self).wf(),
            final(self)@ == old(self)@.import(records@.map_values(|r: Proof| r@)),
    {
        let ghost start = self@;
        let ghost models = records@.map_values(|r: Proof| r@);
        let mut i: usize = 0;
        while i < records.len()
            invariant
                self.wf(),
                i <= records.len(),
                models == records@.map_values(|r: Proof| r@),
                forall|k: int| 0 <= k < records.len() ==> (#[trigger] records[k])@.signature_valid,
                self@ == start.import(models.take(i as int)),
            decreases records.len() - i,
        {
            self.add_proof(&records[i]);
            proof {
                assert(models.take(i + 1).drop_last() =~= models.take(i as int));
                assert(models.take(i + 1).last() == records[i as int]@);
            }
            i += 1;
        }
        proof {
            assert(models.take(i as int) =~= models);
        }
    }

    /// The number of package reviews known for a source, for one of its
    /// packages, or for one version of a package.
    pub fn get_package_review_count(
        &self,
        source: &str,
        name: Option<&str>,
        version: Option<&str>,
    ) -> (count: usize)
        requires
            self.wf(),
            name is None ==> version is None,
        ensures
            count == self@.signatures(source@, text_of(name), text_of(version)).len(),
    {
        match (name, version) {
            (Some(name), Some(version)) => {
                let key = (source.to_owned(), name.to_owned(), version.to_owned());
                match self.package_reviews_by_version.get(&key) {
                    Some(set) => set.len(),
                    None => 0,
                }
            },
            (Some(name), None) => {
                let key = (source.to_owned(), name.to_owned());
                match self.package_reviews_by_name.get(&key) {
                    Some(set) => set.len(),
                    None => 0,
                }
            },
            (None, _) => {
                let key = source.to_owned();
                match self.package_reviews_by_source.get(&key) {
                    Some(set) => set.len(),
                    None => 0,
                }
            },
        }
    }

    /// The URL known for `id`: its own where it gave one, else the one that
    /// others gave for it.
    pub fn lookup_url(&self, id: &Id) -> (url: Option<&Url>)
        requires
            self.wf(),
        ensures
            match url {
                Some(url) => self@.lookup_url(id@) == Some(url@),
                None => self@.lookup_url(id@) is None,
            },
    {
        match self.url_by_id.get(id) {
            Some(stamped) => Some(&stamped.value),
            None => match self.url_by_id_secondary.get(id) {
                Some(stamped) => Some(&stamped.value),
                None => None,
            },
        }
    }

    /// The package reviews known for a source, for one of its packages, or
    /// for one version of a package: the earliest first, and those of one
    /// date in the order of their signatures.
    pub fn get_package_reviews_for_package(
        &self,
        source: &str,
        name: Option<&str>,
        version: Option<&str>,
    ) -> (reviews: Vec<Package>)
        requires
            self.wf(),
            name is None ==> version is None,
        ensures
            reviews@.map_values(|r: Package| r@) == self@.package_reviews_for(
                source@,
                text_of(name),
                text_of(version),
            ),
            reviews@.len() == self@.signatures(source@, text_of(name), text_of(version)).len(),
    {
        proof {
            crate::laws::lemma_count_is_length_of_listing(
                self@,
                source@,
                text_of(name),
                text_of(version),
            );
        }
        let ghost signatures = self@.signatures(source@, text_of(name), text_of(version));
        let found: Option<&OrdSet<String>> = match (name, version) {
            (Some(name), Some(version)) => {
                let key = (source.to_owned(), name.to_owned(), version.to_owned());
                self.package_reviews_by_version.get(&key)
            },
            (Some(name), None) => {
                let key = (source.to_owned(), name.to_owned());
                self.package_reviews_by_name.get(&key)
            },
            (None, _) => {
                let key = source.to_owned();
                self.package_reviews_by_source.get(&key)
            },
        };
        let mut listing: OrdSet<Listed> = OrdSet::new();
        match found {
            Some(set) => {
                proof {
                    set.lemma_enumeration();
                    assert(set@ == signatures);
                }
                let mut i: usize = 0;
                while i < set.len()
                    invariant
                        self.wf(),
                        set.wf(),
                        listing.wf(),
                        i <= set.seq().len(),
                        set.seq().to_set() == signatures,
                        forall|s: Seq<char>| #[trigger]
                            signatures.contains(s) ==> self@.package_reviews.contains_key(s),
                        listing@ == self@.listed(set.seq().take(i as int).to_set()),
                    decreases set.seq().len() - i,
                {
                    let signature = set.get(i);
                    proof {
                        assert(set.seq().contains(signature@));
                        assert(signatures.contains(signature@));
                    }
                    match self.package_review_by_signature.get(signature) {
                        Some(review) => {
                            listing.insert(
                                Listed { date: review.date, signature: signature.clone() },
                            );
                        },
                        None => {
                            assert(false);
                        },
                    }
                    proof {
                        let before = set.seq().take(i as int);
                        let after = set.seq().take(i + 1);
                        let x = set.seq()[i as int];
                        assert(after =~= before.push(x));
                        assert forall|e: (Timestamp, Seq<char>)|
                            listing@.contains(e) <==> self@.listed(after.to_set()).contains(e) by {
                            if before.contains(e.1) {
                                let j = choose|j: int| 0 <= j < before.len() && before[j] == e.1;
                                assert(after[j] == e.1);
                            }
                            if after.contains(e.1) {
                                let j = choose|j: int| 0 <= j < after.len() && after[j] == e.1;
                                if j < before.len() {
                                    assert(before[j] == e.1);
                                }
                            }
                            if e.1 == x {
                                assert(after[i as int] == x);
                            }
                        }
                        assert(listing@ =~= self@.listed(after.to_set()));
                    }
                    i += 1;
                }
                proof {
                    assert(set.seq().take(i as int) =~= set.seq());
                }
            },
            None => {
                proof {
                    assert(signatures =~= Set::<Seq<char>>::empty());
                    assert(listing@ =~= self@.listed(signatures));
                }
            },
        }
        proof {
            listing.lemma_enumeration();
            listing.lemma_seq_is_enumeration();
        }
        let ghost order = listing.seq();
        let ghost model = self@;
        let mut reviews: Vec<Package> = Vec::new();
        let mut j: usize = 0;
        while j < listing.len()
            invariant
                self.wf(),
                model == self@,
                listing.wf(),
                order == listing.seq(),
                order.to_set() == listing@,
                listing@ == model.listed(signatures),
                forall|s: Seq<char>| #[trigger]
                    signatures.contains(s) ==> model.package_reviews.contains_key(s),
                j <= order.len(),
                reviews@.len() == j,
                reviews@.map_values(|r: Package| r@) == order.take(j as int).map_values(
                    |e: (Timestamp, Seq<char>)| model.package_reviews[e.1],
                ),
            decreases order.len() - j,
        {
            let entry = listing.get(j);
            proof {
                assert(order.contains(entry@));
                assert(listing@.contains(entry@));
                assert(signatures.contains(entry@.1));
            }
            let ghost before = reviews@;
            match self.package_review_by_signature.get(&entry.signature) {
                Some(review) => {
                    reviews.push(review.clone());
                },
                None => {
                    assert(false);
                },
            }
            proof {
                let shown = order.take(j + 1).map_values(
                    |e: (Timestamp, Seq<char>)| model.package_reviews[e.1],
                );
                assert(reviews@ == before.push(reviews@[j as int]));
                assert(reviews@[j as int]@ == model.package_reviews[entry@.1]);
                assert(order.take(j + 1) =~= order.take(j as int).push(order[j as int]));
                assert(reviews@.map_values(|r: Package| r@) =~= before.map_values(
                    |r: Package| r@,
                ).push(reviews@[j as int]@));
                assert(reviews@.map_values(|r: Package| r@) =~= shown);
            }
            j += 1;
        }
        proof {
            assert(order.take(j as int) =~= order);
        }
        reviews
    }

    /// Every identity that a URL is known for, in ascending order.
    pub fn all_known_ids(&self) -> (ids: OrdSet<Id>)
        requires
            self.wf(),
        ensures
            ids.wf(),
            ids@ == self@.all_known_ids(),
    {
        let mut ids: OrdSet<Id> = OrdSet::new();
        proof {
            self.url_by_id.lemma_entries();
            self.url_by_id_secondary.lemma_entries();
        }
        let mut i: usize = 0;
        while i < self.url_by_id.len()
            invariant
                self.wf(),
                ids.wf(),
                i <= self.url_by_id.keys().len(),
                ids@ == self.url_by_id.keys().take(i as int).to_set(),
            decreases self.url_by_id.keys().len() - i,
        {
            ids.insert(self.url_by_id.key_at(i).clone());
            proof {
                lemma_take_next_to_set(self.url_by_id.keys(), i as int);
            }
            i += 1;
        }
        proof {
            assert(self.url_by_id.keys().take(i as int) =~= self.url_by_id.keys());
        }
        let mut j: usize = 0;
        while j < self.url_by_id_secondary.len()
            invariant
                self.wf(),
                ids.wf(),
                j <= self.url_by_id_secondary.keys().len(),
                ids@ == self.url_by_id.keys().to_set().union(
                    self.url_by_id_secondary.keys().take(j as int).to_set(),
                ),
            decreases self.url_by_id_secondary.keys().len() - j,
        {
            ids.insert(self.url_by_id_secondary.key_at(j).clone());
            proof {
                lemma_take_next_to_set(self.url_by_id_secondary.keys(), j as int);
            }
            j += 1;
        }
        proof {
            assert(self.url_by_id_secondary.keys().take(j as int)
                =~= self.url_by_id_secondary.keys());
            assert(ids@ =~= self@.all_known_ids());
        }
        ids
    }

    /// What those among `trust_set` who rated `digest` state of it.
    pub fn verify_digest(&self, digest: &Digest, trust_set: &OrdSet<Id>) -> (status:
        VerificationStatus)
        requires
            self.wf(),
            trust_set.wf(),
        ensures
            status == self@.verify_digest(digest@, trust_set@),
    {
        match self.get_reviews_of(digest) {
            Some(reviews) => {
                let mut trust_count: usize = 0;
                let mut distrust_count: usize = 0;
                let mut i: usize = 0;
                proof {
                    reviews.lemma_entries();
                }
                while i < reviews.len()
                    invariant
                        reviews.wf(),
                        trust_set.wf(),
                        i <= reviews.keys().len(),
                        reviews.keys().len() == reviews.vals().len(),
                        trust_count <= i,
                        distrust_count <= i,
                        distrust_count > 0 <==> exists|k: int|
                            0 <= k < i && trust_set@.contains(#[trigger] reviews.keys()[k])
                                && reviews.vals()[k].value.rating.negative(),
                        trust_count > 0 <==> exists|k: int|
                            0 <= k < i && trust_set@.contains(#[trigger] reviews.keys()[k])
                                && !reviews.vals()[k].value.rating.negative(),
                    decreases reviews.keys().len() - i,
                {
                    let reviewer = reviews.key_at(i);
                    if trust_set.contains(reviewer) {
                        let rating = reviews.value_at(i).value.rating;
                        if !rating.is_negative() {
                            trust_count += 1;
                        }
                        if rating.is_negative() {
                            distrust_count += 1;
                        }
                    }
                    i += 1;
                }
                proof {
                    let model = self@;
                    let by = model.reviews[digest@];
                    assert forall|k: int| 0 <= k < reviews.keys().len() implies by.contains_key(
                        #[trigger] reviews.keys()[k],
                    ) && by[reviews.keys()[k]].value == reviews.vals()[k].value by {
                        assert(reviews.map().contains_key(reviews.keys()[k]));
                    }
                    if model.flagged(digest@, trust_set@) {
                        let id = choose|id: Seq<u8>|
                            trust_set@.contains(id) && #[trigger] by.contains_key(id)
                                && by[id].value.rating.negative();
                        assert(reviews.map().contains_key(id));
                        let k = choose|k: int|
                            0 <= k < reviews.keys().len() && reviews.keys()[k] == id;
                        assert(trust_set@.contains(reviews.keys()[k]));
                    }
                    if model.endorsed(digest@, trust_set@) {
                        let id = choose|id: Seq<u8>|
                            trust_set@.contains(id) && #[trigger] by.contains_key(id)
                                && !by[id].value.rating.negative();
                        assert(reviews.map().contains_key(id));
                        let k = choose|k: int|
                            0 <= k < reviews.keys().len() && reviews.keys()[k] == id;
                        assert(trust_set@.contains(reviews.keys()[k]));
                    }
                }
                if distrust_count > 0 {
                    VerificationStatus::Flagged
                } else if trust_count > 0 {
                    VerificationStatus::Verified
                } else {
                    VerificationStatus::Unknown
                }
            },
            None => VerificationStatus::Unknown,
        }
    }

    /// Everybody that `for_id` trusts: those whom a path of trust leads to
    /// that is no longer than `params.max_distance`, `for_id` itself among them.
    pub fn calculate_trust_set(&self, for_id: &Id, params: &TrustDistanceParams) -> (trusted:
        OrdSet<Id>)
        requires
            self.wf(),
        ensures
            trusted.wf(),
            trusted@ == self@.trust_set(for_id@, *params),
            trusted@.contains(for_id@),
    {
        proof {
            crate::reach::lemma_root_within(
                self@.trust,
                *params,
                for_id@,
                params.max_distance as int,
            );
        }
        walk(&self.trust_id_to_id, for_id, params)
    }

    /// The reviews of `digest`, by their authors.
    fn get_reviews_of(&self, digest: &Digest) -> (reviews: Option<&VecMap<Id, Timestamped<Review>>>)
        requires
            self.wf(),
        ensures
            match reviews {
                Some(reviews) => reviews.wf() && self@.reviews.contains_key(digest@)
                    && reviews@ == self@.reviews[digest@],
                None => !self@.reviews.contains_key(digest@),
            },
    {
        self.digest_to_reviews.get(&digest.bytes)
    }

    /// Whom `id` has stated a level of trust in, with the level last stated.
    pub fn get_ids_trusted_by(&self, id: &Id) -> (trusted: Vec<(TrustLevel, Id)>)
        requires
            self.wf(),
        ensures
            trusted@.map_values(|e: (TrustLevel, Id)| e.1@).no_duplicates(),
            forall|k: int|
                0 <= k < trusted@.len() ==> self@.trust.contains_key(id@)
                    && self@.trust[id@].contains_key((#[trigger] trusted@[k]).1@)
                    && self@.trust[id@][trusted@[k].1@].value == trusted@[k].0,
            forall|b: Seq<u8>|
                self@.trust.contains_key(id@) && #[trigger] self@.trust[id@].contains_key(b)
                    ==> trusted@.map_values(|e: (TrustLevel, Id)| e.1@).contains(b),
    {
        let mut trusted: Vec<(TrustLevel, Id)> = Vec::new();
        match self.trust_id_to_id.get(id) {
            Some(row) => {
                proof {
                    row.lemma_entries();
                }
                let mut i: usize = 0;
                while i < row.len()
                    invariant
                        row.wf(),
                        i <= row.keys().len(),
                        trusted@.len() == i,
                        trusted@.map_values(|e: (TrustLevel, Id)| e.1@) == row.keys().take(
                            i as int,
                        ),
                        forall|k: int|
                            0 <= k < i ==> (#[trigger] trusted@[k]).0 == row.vals()[k].value,
                    decreases row.keys().len() - i,
                {
                    trusted.push((row.value_at(i).value, row.key_at(i).clone()));
                    proof {
                        assert(trusted@.map_values(|e: (TrustLevel, Id)| e.1@) =~= row.keys().take(
                            i + 1,
                        ));
                    }
                    i += 1;
                }
                proof {
                    assert(row.keys().take(i as int) =~= row.keys());
                    assert forall|k: int|
                        0 <= k < trusted@.len() implies self@.trust[id@].contains_key(
                        (#[trigger] trusted@[k]).1@,
                    ) && self@.trust[id@][trusted@[k].1@].value == trusted@[k].0 by {
                        assert(trusted@.map_values(|e: (TrustLevel, Id)| e.1@)[k] == row.keys()[k]);
                        assert(row.map().contains_key(row.keys()[k]));
                    }
                }
            },
            None => {},
        }
        trusted
    }
}

/// Taking one more element of a sequence adds that element to the set of those taken.
proof fn lemma_take_next_to_set<A>(s: Seq<A>, i: int)
    requires
        0 <= i < s.len(),
    ensures
        s.take(i + 1).to_set() == s.take(i).to_set().insert(s[i]),
{
    let before = s.take(i);
    let after = s.take(i + 1);
    assert(after =~= before.push(s[i]));
    assert forall|x: A| after.to_set().contains(x) <==> before.to_set().insert(s[i]).contains(
        x,
    ) by {
        if after.contains(x) {
            let j = choose|j: int| 0 <= j < after.len() && after[j] == x;
            if j < before.len() {
                assert(before[j] == x);
            }
        }
        if before.contains(x) {
            let j = choose|j: int| 0 <= j < before.len() && before[j] == x;
            assert(after[j] == x);
        }
        if x == s[i] {
            assert(after[i] == x);
        }
    }
    assert(after.to_set() =~= before.to_set().insert(s[i]));
}

/// The number of records at the head of the first `n` records whose
/// signatures were found valid.
pub open spec fn valid_prefix(records: Seq<Proof>, n: nat) -> nat
    decreases n,
{
    if n == 0 {
        0
    } else {
        let earlier = valid_prefix(records, (n - 1) as nat);
        if earlier == n - 1 && records[n - 1]@.signature_valid {
            n
        } else {
            earlier
        }
    }
}

/// Once a record is reached whose signature was not found valid, the valid
/// head of the batch ends before it.
proof fn lemma_valid_prefix_ends(records: Seq<Proof>, i: nat, n: nat)
    requires
        i < n <= records.len(),
        valid_prefix(records, i) == i,
        !records[i as int]@.signature_valid,
    ensures
        valid_prefix(records, n) == i,
    decreases n,
{
    if n > i + 1 {
        lemma_valid_prefix_ends(records, i, (n - 1) as nat);
    }
}

/// The narrow interface by which package reviews are counted and listed,
/// whatever index answers.
pub trait ReviewQuery {
    /// The index can be asked.
    spec fn ready(&self) -> bool;

    /// The package reviews known for a source, for one of its packages, or
    /// for one version of a package, in the order in which they are listed.
    spec fn known_reviews(
        &self,
        source: Seq<char>,
        name: Option<Seq<char>>,
        version: Option<Seq<char>>,
    ) -> Seq<PackageModel>;

    /// How many package reviews are known.
    fn count_reviews(&self, source: &str, name: Option<&str>, version: Option<&str>) -> (count:
        usize)
        requires
            self.ready(),
            name is None ==> version is None,
        ensures
            count == self.known_reviews(source@, text_of(name), text_of(version)).len(),
    ;

    /// The package reviews that are known.
    fn list_reviews(&self, source: &str, name: Option<&str>, version: Option<&str>) -> (reviews:
        Vec<Package>)
        requires
            self.ready(),
            name is None ==> version is None,
        ensures
            reviews@.map_values(|r: Package| r@) == self.known_reviews(
                source@,
                text_of(name),
                text_of(version),
            ),
    ;
}

impl ReviewQuery for TrustDB {
    open spec fn ready(&self) -> bool {
        self.wf()
    }

    open spec fn known_reviews(
        &self,
        source: Seq<char>,
        name: Option<Seq<char>>,
        version: Option<Seq<char>>,
    ) -> Seq<PackageModel> {
        self@.package_reviews_for(source, name, version)
    }

    fn count_reviews(&self, source: &str, name: Option<&str>, version: Option<&str>) -> (count:
        usize) {
        proof {
            self.lemma_indexed();
            crate::laws::lemma_count_is_length_of_listing(
                self@,
                source@,
                text_of(name),
                text_of(version),
            );
        }
        self.get_package_review_count(source, name, version)
    }

    fn list_reviews(&self, source: &str, name: Option<&str>, version: Option<&str>) -> (reviews:
        Vec<Package>) {
        self.get_package_reviews_for_package(source, name, version)
    }
}

/// What an optional string holds.
pub open spec fn text_of(text: Option<&str>) -> Option<Seq<char>> {
    match text {
        Some(text) => Some(text@),
        None => None,
    }
}

impl Default for TrustDB {
    fn default() -> (db: Self)
        ensures
            db.wf(),
            db@ == TrustDbModel::empty(),
    {
        TrustDB::new()
    }
}

} // verus!
