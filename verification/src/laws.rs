//! What holds of the trust database whatever is taken into it.

use crate::folds::{
    entry, lemma_add_proof_is_folds, lemma_fold_again, lemma_fold_covers, lemma_fold_in_again,
    lemma_fold_in_covers, lemma_fold_in_entry, lemma_folds_commute, lemma_folds_in_commute,
    lemma_upsert_commutes, merged, reviews_stated, trust_stated, urls_stated,
};
use crate::listing::Listed;
use crate::model::{file_under, filed, TrustDbModel};
use crate::ordset::lemma_enumeration_of_finite;
use crate::reach::{
    edge_distance, is_trust_path, leads_to, lemma_root_within, path_distance, step_distance,
    trust_set, within,
};
use crate::record::{ContentModel, ProofModel, Review, TrustLevel};
use crate::timestamp::{upsert, Timestamped};
use crate::trustdb::TrustDistanceParams;
use crate::verification::VerificationStatus;
use vstd::prelude::*;

verus! {

/// `record` is a trust proof in which `a` names `b`.
pub open spec fn states_trust(record: ProofModel, a: Seq<u8>, b: Seq<u8>) -> bool {
    match record.content {
        ContentModel::Trust(stated) => stated.from.id == a && exists|i: int|
            0 <= i < stated.ids.len() && (#[trigger] stated.ids[i]).id == b,
        _ => false,
    }
}

/// The level that a trust proof states, with its date.
pub open spec fn stated_trust(record: ProofModel) -> Timestamped<TrustLevel> {
    Timestamped {
        date: record.content.date(),
        value: match record.content {
            ContentModel::Trust(stated) => stated.trust,
            _ => TrustLevel::NoTrust,
        },
    }
}

/// Among the records that state something, as `states` tells, the `k`-th is
/// the latest, and the first of those of its date.
pub open spec fn first_of_latest(
    records: Seq<ProofModel>,
    states: spec_fn(ProofModel) -> bool,
    k: int,
) -> bool {
    &&& 0 <= k < records.len()
    &&& states(records[k])
    &&& forall|j: int|
        0 <= j < records.len() && states(#[trigger] records[j])
            ==> !records[k].content.date().before(records[j].content.date())
    &&& forall|j: int|
        0 <= j < k && states(#[trigger] records[j]) ==> records[j].content.date().before(
            records[k].content.date(),
        )
}

/// What is held of something once a sequence of records was taken into an
/// empty database, where a record that states it is merged into what is
/// held and no other record changes it: it is held exactly if one of the
/// records states it, and then as the latest of those states it, the first
/// one among those of that date.
pub proof fn lemma_latest_wins<V>(
    records: Seq<ProofModel>,
    states: spec_fn(ProofModel) -> bool,
    value: spec_fn(ProofModel) -> V,
    held: spec_fn(TrustDbModel) -> Option<Timestamped<V>>,
)
    requires
        held(TrustDbModel::empty()) is None,
        forall|db: TrustDbModel, record: ProofModel|
            #![trigger db.add_proof(record)]
            held(db.add_proof(record)) == (if states(record) {
                Some(
                    merged(
                        held(db),
                        Timestamped { date: record.content.date(), value: value(record) },
                    ),
                )
            } else {
                held(db)
            }),
    ensures
        held(TrustDbModel::empty().import(records)) is Some <==> exists|k: int|
            0 <= k < records.len() && states(#[trigger] records[k]),
        held(TrustDbModel::empty().import(records)) is Some ==> exists|k: int|
            #[trigger] first_of_latest(records, states, k) && held(
                TrustDbModel::empty().import(records),
            ) == Some(
                Timestamped { date: records[k].content.date(), value: value(records[k]) },
            ),
    decreases records.len(),
{
    if records.len() > 0 {
        let init = records.drop_last();
        let last = records.last();
        let n = init.len() as int;
        let earlier = TrustDbModel::empty().import(init);
        lemma_latest_wins(init, states, value, held);
        assert(TrustDbModel::empty().import(records) == earlier.add_proof(last));
        assert forall|j: int| 0 <= j < n implies records[j] == init[j] by {}
        let before = held(earlier);
        if before is Some {
            let k = choose|k: int|
                #[trigger] first_of_latest(init, states, k) && before == Some(
                    Timestamped { date: init[k].content.date(), value: value(init[k]) },
                );
            assert(states(records[k]));
            if states(last) && init[k].content.date().before(last.content.date()) {
                assert forall|j: int|
                    0 <= j < records.len() && states(
                        #[trigger] records[j],
                    ) implies !records[n].content.date().before(records[j].content.date()) by {
                    if j < n {
                        assert(states(init[j]));
                    }
                }
                assert forall|j: int| 0 <= j < n && states(#[trigger] records[j]) implies records[j].content.date().before(
                    records[n].content.date(),
                ) by {
                    assert(states(init[j]));
                }
                assert(first_of_latest(records, states, n));
            } else {
                assert forall|j: int|
                    0 <= j < records.len() && states(
                        #[trigger] records[j],
                    ) implies !records[k].content.date().before(records[j].content.date()) by {
                    if j < n {
                        assert(states(init[j]));
                    }
                }
                assert forall|j: int| 0 <= j < k && states(#[trigger] records[j]) implies records[j].content.date().before(
                    records[k].content.date(),
                ) by {
                    assert(states(init[j]));
                }
                assert(first_of_latest(records, states, k));
            }
        } else {
            if states(last) {
                assert(states(records[n]));
                assert forall|j: int|
                    0 <= j < records.len() && states(
                        #[trigger] records[j],
                    ) implies !records[n].content.date().before(records[j].content.date()) by {
                    if j < n {
                        assert(states(init[j]));
                    }
                }
                assert forall|j: int| 0 <= j < n && states(#[trigger] records[j]) implies records[j].content.date().before(
                    records[n].content.date(),
                ) by {
                    assert(states(init[j]));
                }
                assert(first_of_latest(records, states, n));
            } else {
                assert forall|k: int| 0 <= k < records.len() implies !states(
                    #[trigger] records[k],
                ) by {
                    if k < n {
                        assert(!states(init[k]));
                    }
                }
            }
        }
    }
}

/// The edge from `a` to `b` after one more record was taken in.
proof fn lemma_add_proof_trust_entry(db: TrustDbModel, record: ProofModel, a: Seq<u8>, b: Seq<u8>)
    ensures
        entry(db.add_proof(record).trust, a, b) == (if states_trust(record, a, b) {
            Some(merged(entry(db.trust, a, b), stated_trust(record)))
        } else {
            entry(db.trust, a, b)
        }),
{
    let events = trust_stated(record);
    lemma_add_proof_is_folds(db, record);
    lemma_fold_in_entry(db.trust, events, events.len(), stated_trust(record), a, b);
    match record.content {
        ContentModel::Trust(stated) => {
            if states_trust(record, a, b) {
                let i = choose|i: int|
                    0 <= i < stated.ids.len() && (#[trigger] stated.ids[i]).id == b;
                assert(events[i].0 == a && events[i].1 == b);
            }
        },
        _ => {},
    }
}

/// Among the trust proofs in which `a` names `b`, the `k`-th record is the
/// latest, and the first of those of its date.
pub open spec fn latest_trust(records: Seq<ProofModel>, a: Seq<u8>, b: Seq<u8>, k: int) -> bool {
    first_of_latest(records, |r: ProofModel| states_trust(r, a, b), k)
}

/// Latest wins: after any sequence of records was taken into an empty
/// database, `a` trusts `b` exactly if one of the records is a trust proof in
/// which `a` names `b`, and then at the level and date of the latest of
/// those, the first one among those of that date.
pub proof fn lemma_latest_trust_wins(records: Seq<ProofModel>, a: Seq<u8>, b: Seq<u8>)
    ensures
        entry(TrustDbModel::empty().import(records).trust, a, b) is Some <==> exists|k: int|
            0 <= k < records.len() && states_trust(#[trigger] records[k], a, b),
        entry(TrustDbModel::empty().import(records).trust, a, b) is Some ==> exists|k: int|
            #[trigger] latest_trust(records, a, b, k) && entry(
                TrustDbModel::empty().import(records).trust,
                a,
                b,
            ) == Some(stated_trust(records[k])),
{
    let states = |r: ProofModel| states_trust(r, a, b);
    let value = |r: ProofModel| stated_trust(r).value;
    let held = |db: TrustDbModel| entry(db.trust, a, b);
    assert forall|db: TrustDbModel, record: ProofModel|
        #![trigger db.add_proof(record)]
        held(db.add_proof(record)) == (if states(record) {
            Some(
                merged(
                    held(db),
                    Timestamped { date: record.content.date(), value: value(record) },
                ),
            )
        } else {
            held(db)
        }) by {
        lemma_add_proof_trust_entry(db, record, a, b);
    }
    lemma_latest_wins(records, states, value, held);
    if entry(TrustDbModel::empty().import(records).trust, a, b) is Some {
        let k = choose|k: int|
            #[trigger] first_of_latest(records, states, k) && held(
                TrustDbModel::empty().import(records),
            ) == Some(
                Timestamped { date: records[k].content.date(), value: value(records[k]) },
            );
        assert(latest_trust(records, a, b, k));
    }
}

/// `record` states a review of `digest` by `author`.
pub open spec fn states_review(record: ProofModel, digest: Seq<u8>, author: Seq<u8>) -> bool {
    match record.content {
        ContentModel::Code(stated) => stated.from.id == author && exists|i: int|
            0 <= i < stated.files.len() && (#[trigger] stated.files[i]).digest == digest,
        ContentModel::Package(stated) => stated.from.id == author && stated.package.digest
            == digest,
        ContentModel::Trust(_) => false,
    }
}

/// The review that a record states.
pub open spec fn stated_review(record: ProofModel) -> Review {
    match record.content {
        ContentModel::Code(stated) => stated.review,
        ContentModel::Package(stated) => stated.review,
        ContentModel::Trust(_) => arbitrary(),
    }
}

/// The review of `digest` by `author` after one more record was taken in.
proof fn lemma_add_proof_review_entry(
    db: TrustDbModel,
    record: ProofModel,
    digest: Seq<u8>,
    author: Seq<u8>,
)
    ensures
        entry(db.add_proof(record).reviews, digest, author) == (if states_review(
            record,
            digest,
            author,
        ) {
            Some(
                merged(
                    entry(db.reviews, digest, author),
                    Timestamped { date: record.content.date(), value: stated_review(record) },
                ),
            )
        } else {
            entry(db.reviews, digest, author)
        }),
{
    let events = reviews_stated(record);
    let stamp = Timestamped { date: record.content.date(), value: stated_review(record) };
    lemma_add_proof_is_folds(db, record);
    lemma_fold_in_entry(db.reviews, events, events.len(), stamp, digest, author);
    match record.content {
        ContentModel::Code(stated) => {
            if states_review(record, digest, author) {
                let i = choose|i: int|
                    0 <= i < stated.files.len() && (#[trigger] stated.files[i]).digest == digest;
                assert(events[i].0 == digest && events[i].1 == author);
            }
        },
        ContentModel::Package(stated) => {
            if states_review(record, digest, author) {
                assert(events[0].0 == digest && events[0].1 == author);
            }
        },
        ContentModel::Trust(_) => {},
    }
}

/// Among the records that state a review of `digest` by `author`, the `k`-th
/// is the latest, and the first of those of its date.
pub open spec fn latest_review(
    records: Seq<ProofModel>,
    digest: Seq<u8>,
    author: Seq<u8>,
    k: int,
) -> bool {
    first_of_latest(records, |r: ProofModel| states_review(r, digest, author), k)
}

/// The latest review wins: after any sequence of records was taken into an
/// empty database, a review of `digest` by `author` is held exactly if one
/// of the records states one, and then the review and the date of the
/// latest of those, the first one among those of that date.
pub proof fn lemma_latest_review_wins(
    records: Seq<ProofModel>,
    digest: Seq<u8>,
    author: Seq<u8>,
)
    ensures
        entry(TrustDbModel::empty().import(records).reviews, digest, author) is Some
            <==> exists|k: int|
            0 <= k < records.len() && states_review(#[trigger] records[k], digest, author),
        entry(TrustDbModel::empty().import(records).reviews, digest, author) is Some
            ==> exists|k: int|
            #[trigger] latest_review(records, digest, author, k) && entry(
                TrustDbModel::empty().import(records).reviews,
                digest,
                author,
            ) == Some(
                Timestamped {
                    date: records[k].content.date(),
                    value: stated_review(records[k]),
                },
            ),
{
    let states = |r: ProofModel| states_review(r, digest, author);
    let value = |r: ProofModel| stated_review(r);
    let held = |db: TrustDbModel| entry(db.reviews, digest, author);
    assert forall|db: TrustDbModel, record: ProofModel|
        #![trigger db.add_proof(record)]
        held(db.add_proof(record)) == (if states(record) {
            Some(
                merged(
                    held(db),
                    Timestamped { date: record.content.date(), value: value(record) },
                ),
            )
        } else {
            held(db)
        }) by {
        lemma_add_proof_review_entry(db, record, digest, author);
    }
    lemma_latest_wins(records, states, value, held);
    if entry(TrustDbModel::empty().import(records).reviews, digest, author) is Some {
        let k = choose|k: int|
            #[trigger] first_of_latest(records, states, k) && held(
                TrustDbModel::empty().import(records),
            ) == Some(
                Timestamped { date: records[k].content.date(), value: value(records[k]) },
            );
        assert(latest_review(records, digest, author, k));
    }
}

/// Filing a signature where it is filed already changes nothing.
proof fn lemma_file_under_again<K>(index: Map<K, Set<Seq<char>>>, key: K, signature: Seq<char>)
    ensures
        file_under(file_under(index, key, signature), key, signature) == file_under(
            index,
            key,
            signature,
        ),
{
    let once = file_under(index, key, signature);
    assert(filed(once, key).insert(signature) =~= filed(once, key));
    assert(file_under(once, key, signature) =~= once);
}

/// Idempotence: a record that was taken in changes nothing when it is taken
/// in again; in particular every count of package reviews stays as it was.
pub proof fn lemma_add_proof_again(db: TrustDbModel, record: ProofModel)
    ensures
        db.add_proof(record).add_proof(record) == db.add_proof(record),
        forall|source: Seq<char>, name: Option<Seq<char>>, version: Option<Seq<char>>|
            #![trigger db.add_proof(record).signatures(source, name, version)]
            db.add_proof(record).add_proof(record).signatures(source, name, version).len()
                == db.add_proof(record).signatures(source, name, version).len(),
{
    let once = db.add_proof(record);
    let twice = once.add_proof(record);
    let author = record.content.author();
    let stamped_url = Timestamped { date: record.content.date(), value: author.url };
    lemma_add_proof_is_folds(db, record);
    lemma_add_proof_is_folds(once, record);
    assert(upsert(upsert(db.urls, author.id, stamped_url), author.id, stamped_url) =~= upsert(
        db.urls,
        author.id,
        stamped_url,
    ));
    let edges = trust_stated(record);
    lemma_fold_in_covers(db.trust, edges, edges.len());
    lemma_fold_in_again(once.trust, edges, edges.len());
    let urls = urls_stated(record);
    lemma_fold_covers(db.urls_secondary, urls, urls.len());
    lemma_fold_again(once.urls_secondary, urls, urls.len());
    let reviews = reviews_stated(record);
    lemma_fold_in_covers(db.reviews, reviews, reviews.len());
    lemma_fold_in_again(once.reviews, reviews, reviews.len());
    match record.content {
        ContentModel::Package(stated) => {
            lemma_file_under_again(db.by_source, stated.package.source, record.signature);
            lemma_file_under_again(
                db.by_name,
                (stated.package.source, stated.package.name),
                record.signature,
            );
            lemma_file_under_again(
                db.by_version,
                (stated.package.source, stated.package.name, stated.package.version),
                record.signature,
            );
        },
        _ => {},
    }
    assert(twice.package_reviews =~= once.package_reviews);
    assert(twice == once);
}

/// `record` was made by `id`.
pub open spec fn authored_by(record: ProofModel, id: Seq<u8>) -> bool {
    record.content.author().id == id
}

/// What is known of the URL that an author gave for itself after one more
/// record was taken in.
proof fn lemma_add_proof_urls(db: TrustDbModel, record: ProofModel)
    ensures
        db.add_proof(record).urls == upsert(
            db.urls,
            record.content.author().id,
            Timestamped { date: record.content.date(), value: record.content.author().url },
        ),
{
}

/// Among the records that `id` made, the `k`-th is the latest, and the first
/// of those of its date.
pub open spec fn latest_by(records: Seq<ProofModel>, id: Seq<u8>, k: int) -> bool {
    first_of_latest(records, |r: ProofModel| authored_by(r, id), k)
}

/// URL precedence: after any sequence of records was taken into an empty
/// database, in whatever order, an identity has a URL of its own exactly if
/// it made one of the records, and it is then looked up under the URL that
/// it gave for itself in the latest of its records, the first one among
/// those of that date, whatever URLs others gave for it.
pub proof fn lemma_own_url_wins(records: Seq<ProofModel>, id: Seq<u8>)
    ensures
        TrustDbModel::empty().import(records).urls.contains_key(id) <==> exists|k: int|
            0 <= k < records.len() && authored_by(#[trigger] records[k], id),
        TrustDbModel::empty().import(records).urls.contains_key(id) ==> exists|k: int|
            #[trigger] latest_by(records, id, k) && TrustDbModel::empty().import(
                records,
            ).lookup_url(id) == Some(
                records[k].content.author().url,
            ),
{
    let states = |r: ProofModel| authored_by(r, id);
    let value = |r: ProofModel| r.content.author().url;
    let held = |db: TrustDbModel|
        if db.urls.contains_key(id) {
            Some(db.urls[id])
        } else {
            None
        };
    assert forall|db: TrustDbModel, record: ProofModel|
        #![trigger db.add_proof(record)]
        held(db.add_proof(record)) == (if states(record) {
            Some(
                merged(
                    held(db),
                    Timestamped { date: record.content.date(), value: value(record) },
                ),
            )
        } else {
            held(db)
        }) by {
        lemma_add_proof_urls(db, record);
    }
    lemma_latest_wins(records, states, value, held);
    if TrustDbModel::empty().import(records).urls.contains_key(id) {
        let k = choose|k: int|
            #[trigger] first_of_latest(records, states, k) && held(
                TrustDbModel::empty().import(records),
            ) == Some(
                Timestamped { date: records[k].content.date(), value: value(records[k]) },
            );
        assert(latest_by(records, id, k));
    }
}

/// Two sets of parameters that give every level the same distance.
pub open spec fn same_distances(p: TrustDistanceParams, q: TrustDistanceParams) -> bool {
    &&& p.high_trust_distance == q.high_trust_distance
    &&& p.medium_trust_distance == q.medium_trust_distance
    &&& p.low_trust_distance == q.low_trust_distance
}

/// With the same distances for the levels, a path is a path of the same length.
proof fn lemma_same_paths(
    edges: Map<Seq<u8>, Map<Seq<u8>, Timestamped<TrustLevel>>>,
    p: TrustDistanceParams,
    q: TrustDistanceParams,
    path: Seq<Seq<u8>>,
)
    requires
        same_distances(p, q),
        is_trust_path(edges, p, path),
    ensures
        is_trust_path(edges, q, path),
        path_distance(edges, q, path) == path_distance(edges, p, path),
    decreases path.len(),
{
    assert forall|i: int| 0 <= i < path.len() - 1 implies (#[trigger] step_distance(
        edges,
        q,
        path,
        i,
    )) is Some by {
        assert(step_distance(edges, p, path, i) is Some);
    }
    if path.len() > 1 {
        crate::reach::lemma_path_prefix(edges, p, path);
        lemma_same_paths(edges, p, q, path.drop_last());
        assert(step_distance(edges, q, path, path.len() - 2) == step_distance(
            edges,
            p,
            path,
            path.len() - 2,
        ));
    }
}

/// The trust set grows with the budget: whoever is trusted within a budget
/// is trusted within any larger one, the distances of the levels being the same.
pub proof fn lemma_trust_set_grows_with_budget(
    db: TrustDbModel,
    root: Seq<u8>,
    p: TrustDistanceParams,
    q: TrustDistanceParams,
)
    requires
        same_distances(p, q),
        p.max_distance <= q.max_distance,
    ensures
        db.trust_set(root, p).subset_of(db.trust_set(root, q)),
{
    assert forall|id: Seq<u8>| db.trust_set(root, p).contains(id) implies db.trust_set(
        root,
        q,
    ).contains(id) by {
        let path = choose|path: Seq<Seq<u8>>|
            leads_to(db.trust, p, root, id, p.max_distance as int, path);
        lemma_same_paths(db.trust, p, q, path);
        assert(leads_to(db.trust, q, root, id, q.max_distance as int, path));
    }
}

/// The root is trusted, whatever the database holds and whatever the parameters are.
pub proof fn lemma_trust_set_holds_root(
    db: TrustDbModel,
    root: Seq<u8>,
    params: TrustDistanceParams,
)
    ensures
        db.trust_set(root, params).contains(root),
{
    lemma_root_within(db.trust, params, root, params.max_distance as int);
}

/// `edges` without what `a` stated of `b`.
pub open spec fn without_edge(
    edges: Map<Seq<u8>, Map<Seq<u8>, Timestamped<TrustLevel>>>,
    a: Seq<u8>,
    b: Seq<u8>,
) -> Map<Seq<u8>, Map<Seq<u8>, Timestamped<TrustLevel>>> {
    if edges.contains_key(a) {
        edges.insert(a, edges[a].remove(b))
    } else {
        edges
    }
}

/// In two graphs with the same edges of the same lengths, a path of the one
/// is a path of the other, of the same length.
proof fn lemma_same_edges_same_paths(
    edges: Map<Seq<u8>, Map<Seq<u8>, Timestamped<TrustLevel>>>,
    other: Map<Seq<u8>, Map<Seq<u8>, Timestamped<TrustLevel>>>,
    params: TrustDistanceParams,
    path: Seq<Seq<u8>>,
)
    requires
        forall|x: Seq<u8>, y: Seq<u8>| #[trigger]
            edge_distance(edges, params, x, y) == edge_distance(other, params, x, y),
        is_trust_path(edges, params, path),
    ensures
        is_trust_path(other, params, path),
        path_distance(other, params, path) == path_distance(edges, params, path),
    decreases path.len(),
{
    assert forall|i: int| 0 <= i < path.len() - 1 implies (#[trigger] step_distance(
        other,
        params,
        path,
        i,
    )) is Some by {
        assert(step_distance(edges, params, path, i) is Some);
        assert(edge_distance(edges, params, path[i], path[i + 1]) == edge_distance(
            other,
            params,
            path[i],
            path[i + 1],
        ));
    }
    if path.len() > 1 {
        crate::reach::lemma_path_prefix(edges, params, path);
        lemma_same_edges_same_paths(edges, other, params, path.drop_last());
        let i = path.len() - 2;
        assert(edge_distance(edges, params, path[i], path[i + 1]) == edge_distance(
            other,
            params,
            path[i],
            path[i + 1],
        ));
    }
}

/// Distrust is not passed on: where `a` has stated `Distrust` of `b`, or has
/// stated that it does not trust `b`, everybody's trust set is what it would
/// be had `a` stated nothing of `b`.
pub proof fn lemma_distrust_is_no_edge(
    db: TrustDbModel,
    a: Seq<u8>,
    b: Seq<u8>,
    root: Seq<u8>,
    params: TrustDistanceParams,
)
    requires
        entry(db.trust, a, b) is Some,
        entry(db.trust, a, b).unwrap().value == TrustLevel::Distrust || entry(
            db.trust,
            a,
            b,
        ).unwrap().value == TrustLevel::NoTrust,
    ensures
        edge_distance(db.trust, params, a, b) is None,
        db.trust_set(root, params) == trust_set(without_edge(db.trust, a, b), params, root),
{
    let edges = db.trust;
    let other = without_edge(edges, a, b);
    assert forall|x: Seq<u8>, y: Seq<u8>| #[trigger]
        edge_distance(edges, params, x, y) == edge_distance(other, params, x, y) by {}
    assert forall|id: Seq<u8>| db.trust_set(root, params).contains(id) <==> trust_set(
        other,
        params,
        root,
    ).contains(id) by {
        if within(edges, params, root, id, params.max_distance as int) {
            let path = choose|path: Seq<Seq<u8>>|
                leads_to(edges, params, root, id, params.max_distance as int, path);
            lemma_same_edges_same_paths(edges, other, params, path);
            assert(leads_to(other, params, root, id, params.max_distance as int, path));
        }
        if within(other, params, root, id, params.max_distance as int) {
            let path = choose|path: Seq<Seq<u8>>|
                leads_to(other, params, root, id, params.max_distance as int, path);
            lemma_same_edges_same_paths(other, edges, params, path);
            assert(leads_to(edges, params, root, id, params.max_distance as int, path));
        }
    }
    assert(db.trust_set(root, params) =~= trust_set(other, params, root));
}

/// A flag prevails: where somebody trusted rated a digest below neutral,
/// the digest is flagged, whatever the others who rated it state.
pub proof fn lemma_flag_prevails(
    db: TrustDbModel,
    digest: Seq<u8>,
    trusted: Set<Seq<u8>>,
    reviewer: Seq<u8>,
)
    requires
        trusted.contains(reviewer),
        entry(db.reviews, digest, reviewer) is Some,
        entry(db.reviews, digest, reviewer).unwrap().value.rating.negative(),
    ensures
        db.verify_digest(digest, trusted) == VerificationStatus::Flagged,
{
    assert(db.reviews[digest].contains_key(reviewer));
}

/// Nothing is known of any digest, and of nobody, in an empty database.
pub proof fn lemma_empty_knows_nothing(digest: Seq<u8>, trusted: Set<Seq<u8>>)
    ensures
        TrustDbModel::empty().verify_digest(digest, trusted) == VerificationStatus::Unknown,
        TrustDbModel::empty().all_known_ids() == Set::<Seq<u8>>::empty(),
{
    assert(TrustDbModel::empty().all_known_ids() =~= Set::<Seq<u8>>::empty());
}

/// As many reviews are listed as signatures are filed: each signature filed
/// stands for one entry of the listing.
pub proof fn lemma_listed_len(db: TrustDbModel, signatures: Set<Seq<char>>)
    requires
        signatures.finite(),
    ensures
        db.listed(signatures).finite(),
        db.listed(signatures).len() == signatures.len(),
    decreases signatures.len(),
{
    if signatures.len() == 0 {
        signatures.lemma_len0_is_empty();
        assert(db.listed(signatures) =~= Set::empty());
    } else {
        let x = signatures.choose();
        let rest = signatures.remove(x);
        lemma_listed_len(db, rest);
        assert(db.listed(signatures) =~= db.listed(rest).insert((db.package_reviews[x].date, x)));
    }
}

/// The count of the package reviews of a source, of a package or of a
/// version is the number of reviews that are listed for it.
pub proof fn lemma_count_is_length_of_listing(
    db: TrustDbModel,
    source: Seq<char>,
    name: Option<Seq<char>>,
    version: Option<Seq<char>>,
)
    requires
        db.indexed(),
    ensures
        db.package_reviews_for(source, name, version).len() == db.signatures(
            source,
            name,
            version,
        ).len(),
{
    let signatures = db.signatures(source, name, version);
    assert(signatures.finite()) by {
        match (name, version) {
            (Some(name), Some(version)) => {
                if db.by_version.contains_key((source, name, version)) {
                    assert(db.by_version[(source, name, version)].finite());
                }
            },
            (Some(name), None) => {
                if db.by_name.contains_key((source, name)) {
                    assert(db.by_name[(source, name)].finite());
                }
            },
            (None, _) => {
                if db.by_source.contains_key(source) {
                    assert(db.by_source[source].finite());
                }
            },
        }
    }
    lemma_listed_len(db, signatures);
    lemma_enumeration_of_finite::<Listed>(db.listed(signatures));
}

/// The review kept under a signature is written once: whatever is taken in
/// later, under that signature or another, it stays as it is.
pub proof fn lemma_signature_is_written_once(
    db: TrustDbModel,
    record: ProofModel,
    signature: Seq<char>,
)
    requires
        db.package_reviews.contains_key(signature),
    ensures
        db.add_proof(record).package_reviews.contains_key(signature),
        db.add_proof(record).package_reviews[signature] == db.package_reviews[signature],
{
}

/// Taking a record in keeps the indices in order: every signature filed
/// still has its review, and every entry of an index is still finite.
pub proof fn lemma_add_proof_keeps_indexed(db: TrustDbModel, record: ProofModel)
    requires
        db.indexed(),
    ensures
        db.add_proof(record).indexed(),
{
    let after = db.add_proof(record);
    match record.content {
        ContentModel::Package(stated) => {
            let source = stated.package.source;
            let name = (stated.package.source, stated.package.name);
            let version = (stated.package.source, stated.package.name, stated.package.version);
            assert forall|k: Seq<char>, s: Seq<char>|
                after.by_source.contains_key(k) && #[trigger] after.by_source[k].contains(
                    s,
                ) implies after.package_reviews.contains_key(s) by {
                if k != source || s != record.signature {
                    assert(db.by_source.contains_key(k) && db.by_source[k].contains(s));
                }
            }
            assert forall|k: (Seq<char>, Seq<char>), s: Seq<char>|
                after.by_name.contains_key(k) && #[trigger] after.by_name[k].contains(
                    s,
                ) implies after.package_reviews.contains_key(s) by {
                if k != name || s != record.signature {
                    assert(db.by_name.contains_key(k) && db.by_name[k].contains(s));
                }
            }
            assert forall|k: (Seq<char>, Seq<char>, Seq<char>), s: Seq<char>|
                after.by_version.contains_key(k) && #[trigger] after.by_version[k].contains(
                    s,
                ) implies after.package_reviews.contains_key(s) by {
                if k != version || s != record.signature {
                    assert(db.by_version.contains_key(k) && db.by_version[k].contains(s));
                }
            }
            assert forall|k: Seq<char>| #[trigger]
                after.by_source.contains_key(k) implies after.by_source[k].finite() by {
                if k != source {
                    assert(db.by_source.contains_key(k));
                } else if db.by_source.contains_key(k) {
                    assert(db.by_source[k].finite());
                }
            }
            assert forall|k: (Seq<char>, Seq<char>)| #[trigger]
                after.by_name.contains_key(k) implies after.by_name[k].finite() by {
                if k != name {
                    assert(db.by_name.contains_key(k));
                } else if db.by_name.contains_key(k) {
                    assert(db.by_name[k].finite());
                }
            }
            assert forall|k: (Seq<char>, Seq<char>, Seq<char>)| #[trigger]
                after.by_version.contains_key(k) implies after.by_version[k].finite() by {
                if k != version {
                    assert(db.by_version.contains_key(k));
                } else if db.by_version.contains_key(k) {
                    assert(db.by_version[k].finite());
                }
            }
        },
        _ => {},
    }
}

/// The order in which the two records are taken in shows nowhere: they are
/// of different dates, and they are not two package reviews under one signature.
pub open spec fn independent(one: ProofModel, other: ProofModel) -> bool {
    &&& one.content.date() != other.content.date()
    &&& !(one.content is Package && other.content is Package && one.signature == other.signature)
}

/// Filing two signatures can be done in either order.
proof fn lemma_file_under_commutes<K>(
    index: Map<K, Set<Seq<char>>>,
    k1: K,
    s1: Seq<char>,
    k2: K,
    s2: Seq<char>,
)
    ensures
        file_under(file_under(index, k1, s1), k2, s2) == file_under(
            file_under(index, k2, s2),
            k1,
            s1,
        ),
{
    let one = file_under(file_under(index, k1, s1), k2, s2);
    let other = file_under(file_under(index, k2, s2), k1, s1);
    if k1 == k2 {
        assert(one[k1] =~= other[k1]);
    }
    assert(one =~= other);
}

/// The order of ingestion does not show: two records of different dates,
/// not both package reviews under one signature, leave the same database
/// behind in whichever order they are taken in.
pub proof fn lemma_add_proof_commutes(db: TrustDbModel, one: ProofModel, other: ProofModel)
    requires
        independent(one, other),
    ensures
        db.add_proof(one).add_proof(other) == db.add_proof(other).add_proof(one),
{
    let ab = db.add_proof(one).add_proof(other);
    let ba = db.add_proof(other).add_proof(one);
    lemma_add_proof_is_folds(db, one);
    lemma_add_proof_is_folds(db, other);
    lemma_add_proof_is_folds(db.add_proof(one), other);
    lemma_add_proof_is_folds(db.add_proof(other), one);
    lemma_folds_in_commute(
        db.trust,
        trust_stated(one),
        trust_stated(one).len(),
        trust_stated(other),
        trust_stated(other).len(),
    );
    lemma_folds_commute(
        db.urls_secondary,
        urls_stated(one),
        urls_stated(one).len(),
        urls_stated(other),
        urls_stated(other).len(),
    );
    lemma_folds_in_commute(
        db.reviews,
        reviews_stated(one),
        reviews_stated(one).len(),
        reviews_stated(other),
        reviews_stated(other).len(),
    );
    lemma_upsert_commutes(
        db.urls,
        one.content.author().id,
        Timestamped { date: one.content.date(), value: one.content.author().url },
        other.content.author().id,
        Timestamped { date: other.content.date(), value: other.content.author().url },
    );
    assert(ab.package_reviews =~= ba.package_reviews);
    match (one.content, other.content) {
        (ContentModel::Package(a), ContentModel::Package(b)) => {
            lemma_file_under_commutes(
                db.by_source,
                a.package.source,
                one.signature,
                b.package.source,
                other.signature,
            );
            lemma_file_under_commutes(
                db.by_name,
                (a.package.source, a.package.name),
                one.signature,
                (b.package.source, b.package.name),
                other.signature,
            );
            lemma_file_under_commutes(
                db.by_version,
                (a.package.source, a.package.name, a.package.version),
                one.signature,
                (b.package.source, b.package.name, b.package.version),
                other.signature,
            );
        },
        _ => {},
    }
    assert(ab == ba);
}

} // verus!
