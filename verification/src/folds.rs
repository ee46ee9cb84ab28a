//! Runs of statements: what a record states of trust, of reviews and of
//! URLs, taken in one statement after the other.

use crate::id::UrlModel;
use crate::model::{file_reviews, trust_edges, trust_urls, upsert_in, TrustDbModel};
use crate::record::{CodeModel, ContentModel, ProofModel, Review, TrustLevel, TrustModel};
use crate::timestamp::{more_recent, upsert, Timestamped};
use vstd::prelude::*;

verus! {

/// What `m` holds under the outer key `a` and the inner key `b`.
pub open spec fn entry<A, B, V>(m: Map<A, Map<B, V>>, a: A, b: B) -> Option<V> {
    if m.contains_key(a) && m[a].contains_key(b) {
        Some(m[a][b])
    } else {
        None
    }
}

/// What is held once `incoming` was stated where `held` was held before.
pub open spec fn merged<V>(held: Option<Timestamped<V>>, incoming: Timestamped<V>) -> Timestamped<
    V,
> {
    match held {
        Some(held) => more_recent(held, incoming),
        None => incoming,
    }
}

/// A statement changes the entry it is about, and no other.
pub proof fn lemma_upsert_in_entry<A, B, V>(
    m: Map<A, Map<B, Timestamped<V>>>,
    a: A,
    b: B,
    incoming: Timestamped<V>,
    x: A,
    y: B,
)
    ensures
        entry(upsert_in(m, a, b, incoming), x, y) == (if x == a && y == b {
            Some(merged(entry(m, a, b), incoming))
        } else {
            entry(m, x, y)
        }),
{
}

/// A statement that was taken in already changes nothing when it is taken in again.
pub proof fn lemma_upsert_in_again<A, B, V>(
    m: Map<A, Map<B, Timestamped<V>>>,
    a: A,
    b: B,
    incoming: Timestamped<V>,
)
    requires
        entry(m, a, b) is Some,
        !entry(m, a, b).unwrap().date.before(incoming.date),
    ensures
        upsert_in(m, a, b, incoming) == m,
{
    assert(upsert(m[a], b, incoming) =~= m[a]);
    assert(upsert_in(m, a, b, incoming) =~= m);
}

/// Two statements under different keys, or of different dates, can be taken
/// in in either order.
pub proof fn lemma_upsert_commutes<K, V>(
    m: Map<K, Timestamped<V>>,
    k1: K,
    s1: Timestamped<V>,
    k2: K,
    s2: Timestamped<V>,
)
    requires
        k1 != k2 || s1.date != s2.date,
    ensures
        upsert(upsert(m, k1, s1), k2, s2) == upsert(upsert(m, k2, s2), k1, s1),
{
    assert(upsert(upsert(m, k1, s1), k2, s2) =~= upsert(upsert(m, k2, s2), k1, s1));
}

/// Two statements under different pairs of keys, or of different dates, can
/// be taken in in either order.
pub proof fn lemma_upsert_in_commutes<A, B, V>(
    m: Map<A, Map<B, Timestamped<V>>>,
    a1: A,
    b1: B,
    s1: Timestamped<V>,
    a2: A,
    b2: B,
    s2: Timestamped<V>,
)
    requires
        a1 != a2 || b1 != b2 || s1.date != s2.date,
    ensures
        upsert_in(upsert_in(m, a1, b1, s1), a2, b2, s2) == upsert_in(
            upsert_in(m, a2, b2, s2),
            a1,
            b1,
            s1,
        ),
{
    let one = upsert_in(upsert_in(m, a1, b1, s1), a2, b2, s2);
    let other = upsert_in(upsert_in(m, a2, b2, s2), a1, b1, s1);
    if a1 == a2 {
        let inner = if m.contains_key(a1) {
            m[a1]
        } else {
            Map::empty()
        };
        lemma_upsert_commutes(inner, b1, s1, b2, s2);
        assert(one[a1] == other[a1]);
    }
    assert(one =~= other);
}

/// `m` after the first `n` of the statements `events` were taken in.
pub open spec fn fold<K, V>(
    m: Map<K, Timestamped<V>>,
    events: Seq<(K, Timestamped<V>)>,
    n: nat,
) -> Map<K, Timestamped<V>>
    decreases n,
{
    if n == 0 {
        m
    } else {
        upsert(fold(m, events, (n - 1) as nat), events[n - 1].0, events[n - 1].1)
    }
}

/// `m` after the first `n` of the statements `events` were taken in, each
/// under its pair of keys.
pub open spec fn fold_in<A, B, V>(
    m: Map<A, Map<B, Timestamped<V>>>,
    events: Seq<(A, B, Timestamped<V>)>,
    n: nat,
) -> Map<A, Map<B, Timestamped<V>>>
    decreases n,
{
    if n == 0 {
        m
    } else {
        upsert_in(
            fold_in(m, events, (n - 1) as nat),
            events[n - 1].0,
            events[n - 1].1,
            events[n - 1].2,
        )
    }
}

/// What is held under a pair of keys after a run of statements that all
/// carry the same date and value: what the run states merged into what was
/// held before, where the run states something under that pair.
pub proof fn lemma_fold_in_entry<A, B, V>(
    m: Map<A, Map<B, Timestamped<V>>>,
    events: Seq<(A, B, Timestamped<V>)>,
    n: nat,
    stamp: Timestamped<V>,
    a: A,
    b: B,
)
    requires
        n <= events.len(),
        forall|i: int| 0 <= i < n ==> (#[trigger] events[i]).2 == stamp,
    ensures
        entry(fold_in(m, events, n), a, b) == (if exists|i: int|
            0 <= i < n && (#[trigger] events[i]).0 == a && events[i].1 == b {
            Some(merged(entry(m, a, b), stamp))
        } else {
            entry(m, a, b)
        }),
    decreases n,
{
    if n > 0 {
        let earlier = fold_in(m, events, (n - 1) as nat);
        let last = events[n - 1];
        lemma_fold_in_entry(m, events, (n - 1) as nat, stamp, a, b);
        lemma_upsert_in_entry(earlier, last.0, last.1, last.2, a, b);
        if exists|i: int| 0 <= i < n - 1 && (#[trigger] events[i]).0 == a && events[i].1 == b {
            let i = choose|i: int|
                0 <= i < n - 1 && (#[trigger] events[i]).0 == a && events[i].1 == b;
            assert(0 <= i < n && events[i].0 == a && events[i].1 == b);
        }
        if last.0 == a && last.1 == b {
            assert(events[n - 1].0 == a && events[n - 1].1 == b);
        } else if exists|i: int| 0 <= i < n && (#[trigger] events[i]).0 == a && events[i].1 == b {
            let i = choose|i: int| 0 <= i < n && (#[trigger] events[i]).0 == a && events[i].1 == b;
            assert(0 <= i < n - 1 && events[i].0 == a && events[i].1 == b);
        }
    }
}

/// Under each pair of keys of the first `n` statements something is held
/// that is no older than the statement.
pub open spec fn covered_in<A, B, V>(
    m: Map<A, Map<B, Timestamped<V>>>,
    events: Seq<(A, B, Timestamped<V>)>,
    n: nat,
) -> bool {
    forall|i: int|
        0 <= i < n ==> (#[trigger] entry(m, events[i].0, events[i].1)) is Some && !entry(
            m,
            events[i].0,
            events[i].1,
        ).unwrap().date.before(events[i].2.date)
}

/// Once a run of statements of one date was taken in, something no older
/// is held under each of their pairs of keys.
pub proof fn lemma_fold_in_covers<A, B, V>(
    m: Map<A, Map<B, Timestamped<V>>>,
    events: Seq<(A, B, Timestamped<V>)>,
    n: nat,
)
    requires
        n <= events.len(),
        forall|i: int, j: int|
            0 <= i < n && 0 <= j < n ==> (#[trigger] events[i]).2.date == (
            #[trigger] events[j]).2.date,
    ensures
        covered_in(fold_in(m, events, n), events, n),
    decreases n,
{
    if n > 0 {
        let earlier = fold_in(m, events, (n - 1) as nat);
        let last = events[n - 1];
        lemma_fold_in_covers(m, events, (n - 1) as nat);
        assert forall|i: int| 0 <= i < n implies (#[trigger] entry(
            fold_in(m, events, n),
            events[i].0,
            events[i].1,
        )) is Some && !entry(fold_in(m, events, n), events[i].0, events[i].1).unwrap().date.before(
            events[i].2.date,
        ) by {
            lemma_upsert_in_entry(earlier, last.0, last.1, last.2, events[i].0, events[i].1);
            assert(events[i].2.date == last.2.date);
            if i < n - 1 {
                assert(entry(earlier, events[i].0, events[i].1) is Some);
            }
        }
    }
}

/// Where something no older is held under each of their pairs of keys,
/// taking a run of statements in changes nothing.
pub proof fn lemma_fold_in_again<A, B, V>(
    m: Map<A, Map<B, Timestamped<V>>>,
    events: Seq<(A, B, Timestamped<V>)>,
    n: nat,
)
    requires
        covered_in(m, events, n),
    ensures
        fold_in(m, events, n) == m,
    decreases n,
{
    if n > 0 {
        lemma_fold_in_again(m, events, (n - 1) as nat);
        let last = events[n - 1];
        assert(entry(m, last.0, last.1) is Some);
        lemma_upsert_in_again(m, last.0, last.1, last.2);
    }
}

/// Under each key of the first `n` statements something is held that is no
/// older than the statement.
pub open spec fn covered<K, V>(
    m: Map<K, Timestamped<V>>,
    events: Seq<(K, Timestamped<V>)>,
    n: nat,
) -> bool {
    forall|i: int|
        0 <= i < n ==> m.contains_key((#[trigger] events[i]).0) && !m[events[i].0].date.before(
            events[i].1.date,
        )
}

/// Once a run of statements of one date was taken in, something no older
/// is held under each of their keys.
pub proof fn lemma_fold_covers<K, V>(
    m: Map<K, Timestamped<V>>,
    events: Seq<(K, Timestamped<V>)>,
    n: nat,
)
    requires
        n <= events.len(),
        forall|i: int, j: int|
            0 <= i < n && 0 <= j < n ==> (#[trigger] events[i]).1.date == (
            #[trigger] events[j]).1.date,
    ensures
        covered(fold(m, events, n), events, n),
    decreases n,
{
    if n > 0 {
        let earlier = fold(m, events, (n - 1) as nat);
        let last = events[n - 1];
        lemma_fold_covers(m, events, (n - 1) as nat);
        assert forall|i: int| 0 <= i < n implies fold(m, events, n).contains_key(
            (#[trigger] events[i]).0,
        ) && !fold(m, events, n)[events[i].0].date.before(events[i].1.date) by {
            assert(events[i].1.date == last.1.date);
            if i < n - 1 {
                assert(earlier.contains_key(events[i].0));
            }
        }
    }
}

/// Where something no older is held under each of their keys, taking a run
/// of statements in changes nothing.
pub proof fn lemma_fold_again<K, V>(
    m: Map<K, Timestamped<V>>,
    events: Seq<(K, Timestamped<V>)>,
    n: nat,
)
    requires
        covered(m, events, n),
    ensures
        fold(m, events, n) == m,
    decreases n,
{
    if n > 0 {
        lemma_fold_again(m, events, (n - 1) as nat);
        let last = events[n - 1];
        assert(m.contains_key(last.0));
        assert(upsert(m, last.0, last.1) =~= m);
    }
}

/// A statement of another date can be taken in before a run of statements or after it.
pub proof fn lemma_fold_past_one<K, V>(
    m: Map<K, Timestamped<V>>,
    events: Seq<(K, Timestamped<V>)>,
    n: nat,
    k: K,
    s: Timestamped<V>,
)
    requires
        forall|i: int| 0 <= i < n ==> (#[trigger] events[i]).1.date != s.date,
    ensures
        upsert(fold(m, events, n), k, s) == fold(upsert(m, k, s), events, n),
    decreases n,
{
    if n > 0 {
        let earlier = fold(m, events, (n - 1) as nat);
        let last = events[n - 1];
        lemma_upsert_commutes(earlier, last.0, last.1, k, s);
        lemma_fold_past_one(m, events, (n - 1) as nat, k, s);
    }
}

/// Two runs of statements, those of the one of another date than those of
/// the other, can be taken in in either order.
pub proof fn lemma_folds_commute<K, V>(
    m: Map<K, Timestamped<V>>,
    one: Seq<(K, Timestamped<V>)>,
    n: nat,
    other: Seq<(K, Timestamped<V>)>,
    k: nat,
)
    requires
        forall|i: int, j: int|
            0 <= i < n && 0 <= j < k ==> (#[trigger] one[i]).1.date != (#[trigger] other[j]).1.date,
    ensures
        fold(fold(m, one, n), other, k) == fold(fold(m, other, k), one, n),
    decreases n,
{
    if n > 0 {
        let last = one[n - 1];
        lemma_folds_commute(m, one, (n - 1) as nat, other, k);
        lemma_fold_past_one(fold(m, one, (n - 1) as nat), other, k, last.0, last.1);
    }
}

/// A statement of another date can be taken in before a run of statements or after it.
pub proof fn lemma_fold_in_past_one<A, B, V>(
    m: Map<A, Map<B, Timestamped<V>>>,
    events: Seq<(A, B, Timestamped<V>)>,
    n: nat,
    a: A,
    b: B,
    s: Timestamped<V>,
)
    requires
        forall|i: int| 0 <= i < n ==> (#[trigger] events[i]).2.date != s.date,
    ensures
        upsert_in(fold_in(m, events, n), a, b, s) == fold_in(upsert_in(m, a, b, s), events, n),
    decreases n,
{
    if n > 0 {
        let earlier = fold_in(m, events, (n - 1) as nat);
        let last = events[n - 1];
        lemma_upsert_in_commutes(earlier, last.0, last.1, last.2, a, b, s);
        lemma_fold_in_past_one(m, events, (n - 1) as nat, a, b, s);
    }
}

/// Two runs of statements, those of the one of another date than those of
/// the other, can be taken in in either order.
pub proof fn lemma_folds_in_commute<A, B, V>(
    m: Map<A, Map<B, Timestamped<V>>>,
    one: Seq<(A, B, Timestamped<V>)>,
    n: nat,
    other: Seq<(A, B, Timestamped<V>)>,
    k: nat,
)
    requires
        forall|i: int, j: int|
            0 <= i < n && 0 <= j < k ==> (#[trigger] one[i]).2.date != (#[trigger] other[j]).2.date,
    ensures
        fold_in(fold_in(m, one, n), other, k) == fold_in(fold_in(m, other, k), one, n),
    decreases n,
{
    if n > 0 {
        let last = one[n - 1];
        lemma_folds_in_commute(m, one, (n - 1) as nat, other, k);
        lemma_fold_in_past_one(fold_in(m, one, (n - 1) as nat), other, k, last.0, last.1, last.2);
    }
}

/// What a record states of trust: for each identity it names, the level.
pub open spec fn trust_stated(record: ProofModel) -> Seq<(Seq<u8>, Seq<u8>, Timestamped<TrustLevel>)> {
    match record.content {
        ContentModel::Trust(stated) => Seq::new(
            stated.ids.len(),
            |i: int|
                (
                    stated.from.id,
                    stated.ids[i].id,
                    Timestamped { date: stated.date, value: stated.trust },
                ),
        ),
        _ => Seq::empty(),
    }
}

/// What a record states of the URLs of others: for each identity it names, the URL.
pub open spec fn urls_stated(record: ProofModel) -> Seq<(Seq<u8>, Timestamped<UrlModel>)> {
    match record.content {
        ContentModel::Trust(stated) => Seq::new(
            stated.ids.len(),
            |i: int|
                (stated.ids[i].id, Timestamped { date: stated.date, value: stated.ids[i].url }),
        ),
        _ => Seq::empty(),
    }
}

/// What a record states of digests: the review of each digest it is about.
pub open spec fn reviews_stated(record: ProofModel) -> Seq<(Seq<u8>, Seq<u8>, Timestamped<Review>)> {
    match record.content {
        ContentModel::Code(stated) => Seq::new(
            stated.files.len(),
            |i: int|
                (
                    stated.files[i].digest,
                    stated.from.id,
                    Timestamped { date: stated.date, value: stated.review },
                ),
        ),
        ContentModel::Package(stated) => seq![
            (
                stated.package.digest,
                stated.from.id,
                Timestamped { date: stated.date, value: stated.review },
            ),
        ],
        ContentModel::Trust(_) => Seq::empty(),
    }
}

proof fn lemma_trust_edges_is_fold(
    trust: Map<Seq<u8>, Map<Seq<u8>, Timestamped<TrustLevel>>>,
    record: ProofModel,
    stated: TrustModel,
    n: nat,
)
    requires
        record.content == ContentModel::Trust(stated),
        n <= stated.ids.len(),
    ensures
        trust_edges(trust, stated, n) == fold_in(trust, trust_stated(record), n),
    decreases n,
{
    if n > 0 {
        lemma_trust_edges_is_fold(trust, record, stated, (n - 1) as nat);
    }
}

proof fn lemma_trust_urls_is_fold(
    urls: Map<Seq<u8>, Timestamped<UrlModel>>,
    record: ProofModel,
    stated: TrustModel,
    n: nat,
)
    requires
        record.content == ContentModel::Trust(stated),
        n <= stated.ids.len(),
    ensures
        trust_urls(urls, stated, n) == fold(urls, urls_stated(record), n),
    decreases n,
{
    if n > 0 {
        lemma_trust_urls_is_fold(urls, record, stated, (n - 1) as nat);
    }
}

proof fn lemma_file_reviews_is_fold(
    reviews: Map<Seq<u8>, Map<Seq<u8>, Timestamped<Review>>>,
    record: ProofModel,
    stated: CodeModel,
    n: nat,
)
    requires
        record.content == ContentModel::Code(stated),
        n <= stated.files.len(),
    ensures
        file_reviews(reviews, stated, n) == fold_in(reviews, reviews_stated(record), n),
    decreases n,
{
    if n > 0 {
        lemma_file_reviews_is_fold(reviews, record, stated, (n - 1) as nat);
    }
}

/// Taking a record in takes in what it states, field by field.
pub proof fn lemma_add_proof_is_folds(db: TrustDbModel, record: ProofModel)
    ensures
        db.add_proof(record).trust == fold_in(
            db.trust,
            trust_stated(record),
            trust_stated(record).len(),
        ),
        db.add_proof(record).urls_secondary == fold(
            db.urls_secondary,
            urls_stated(record),
            urls_stated(record).len(),
        ),
        db.add_proof(record).reviews == fold_in(
            db.reviews,
            reviews_stated(record),
            reviews_stated(record).len(),
        ),
        db.add_proof(record).urls == upsert(
            db.urls,
            record.content.author().id,
            Timestamped { date: record.content.date(), value: record.content.author().url },
        ),
        forall|i: int|
            0 <= i < trust_stated(record).len() ==> (#[trigger] trust_stated(record)[i]).2.date
                == record.content.date(),
        forall|i: int|
            0 <= i < urls_stated(record).len() ==> (#[trigger] urls_stated(record)[i]).1.date
                == record.content.date(),
        forall|i: int|
            0 <= i < reviews_stated(record).len() ==> (#[trigger] reviews_stated(
                record,
            )[i]).2.date == record.content.date(),
{
    match record.content {
        ContentModel::Trust(stated) => {
            lemma_trust_edges_is_fold(db.trust, record, stated, stated.ids.len());
            lemma_trust_urls_is_fold(db.urls_secondary, record, stated, stated.ids.len());
        },
        ContentModel::Code(stated) => {
            lemma_file_reviews_is_fold(db.reviews, record, stated, stated.files.len());
        },
        ContentModel::Package(stated) => {
            let events = reviews_stated(record);
            assert(fold_in(db.reviews, events, 1) == upsert_in(
                fold_in(db.reviews, events, 0),
                events[0].0,
                events[0].1,
                events[0].2,
            ));
        },
    }
}

} // verus!
