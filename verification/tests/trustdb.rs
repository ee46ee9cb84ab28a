use crev_lib::id::{Digest, Id, PubId, Url};
use crev_lib::record::{
    Code, Content, File, Level, Package, PackageInfo, Proof, ProofError, Rating, Review, Trust,
    TrustLevel,
};
use crev_lib::timestamp::Timestamp;
use crev_lib::trustdb::{ReviewQuery, TrustDB, TrustDistanceParams};
use crev_lib::VerificationStatus;

const A: u8 = 1;
const B: u8 = 2;
const C: u8 = 3;
const D: u8 = 4;

fn id(n: u8) -> Id {
    Id::new(vec![n, n])
}

fn url(text: &str) -> Url {
    Url::new(text.to_string())
}

fn own_url(n: u8) -> Url {
    url(&format!("https://example.com/{}/own", n))
}

fn given_url(n: u8) -> Url {
    url(&format!("https://example.com/{}/given", n))
}

fn at(secs: i64) -> Timestamp {
    Timestamp::new(secs, 0)
}

fn trust(from: u8, to: &[u8], level: TrustLevel, secs: i64) -> Proof {
    let ids = to.iter().map(|n| PubId::new(id(*n), given_url(*n))).collect();
    let content = Content::Trust(Trust {
        from: PubId::new(id(from), own_url(from)),
        date: at(secs),
        ids,
        trust: level,
    });
    Proof::new(content, format!("trust-{}-{:?}-{:?}-{}", from, to, level, secs), true)
}

fn review_of(rating: Rating) -> Review {
    Review::new(Level::Low, Level::Medium, rating)
}

fn package(
    from: u8,
    name: &str,
    version: &str,
    digest: &[u8],
    rating: Rating,
    secs: i64,
) -> Package {
    Package {
        from: PubId::new(id(from), own_url(from)),
        date: at(secs),
        package: PackageInfo {
            source: "https://crates.io".to_string(),
            name: name.to_string(),
            version: version.to_string(),
            digest: digest.to_vec(),
            digest_type: "blake2b".to_string(),
            revision: String::new(),
            revision_type: "git".to_string(),
        },
        review: review_of(rating),
    }
}

fn package_review(
    from: u8,
    name: &str,
    version: &str,
    digest: &[u8],
    rating: Rating,
    secs: i64,
    signature: &str,
) -> Proof {
    Proof::new(
        Content::Package(package(from, name, version, digest, rating, secs)),
        signature.to_string(),
        true,
    )
}

fn code_review(from: u8, digests: &[&[u8]], rating: Rating, secs: i64) -> Proof {
    let files = digests
        .iter()
        .enumerate()
        .map(|(i, digest)| File { path: format!("src/file{}.rs", i), digest: digest.to_vec() })
        .collect();
    let content = Content::Code(Code {
        from: PubId::new(id(from), own_url(from)),
        date: at(secs),
        files,
        review: review_of(rating),
    });
    Proof::new(content, format!("code-{}-{}", from, secs), true)
}

fn db_of(records: Vec<Proof>) -> TrustDB {
    let mut db = TrustDB::new();
    db.import_from_iter(records);
    db
}

fn params(max: u64) -> TrustDistanceParams {
    TrustDistanceParams { max_distance: max, ..TrustDistanceParams::default() }
}

fn trusted_by(db: &TrustDB, root: u8, params: &TrustDistanceParams) -> Vec<Id> {
    let set = db.calculate_trust_set(&id(root), params);
    let mut ids = Vec::new();
    for i in 0..set.len() {
        ids.push(set.get(i).clone());
    }
    ids
}

fn ids(ns: &[u8]) -> Vec<Id> {
    ns.iter().map(|n| id(*n)).collect()
}

fn digest(bytes: &[u8]) -> Digest {
    Digest::from_vec(bytes.to_vec())
}

fn status(db: &TrustDB, bytes: &[u8], root: u8) -> VerificationStatus {
    let trusted = db.calculate_trust_set(&id(root), &TrustDistanceParams::default());
    db.verify_digest(&digest(bytes), &trusted)
}

#[test]
fn default_params_are_ten_zero_one_five() {
    let params = TrustDistanceParams::default();
    assert_eq!(params.max_distance, 10);
    assert_eq!(params.high_trust_distance, 0);
    assert_eq!(params.medium_trust_distance, 1);
    assert_eq!(params.low_trust_distance, 5);
}

#[test]
fn distance_by_level_gives_each_level_its_distance() {
    let params = TrustDistanceParams {
        max_distance: 100,
        high_trust_distance: 2,
        medium_trust_distance: 3,
        low_trust_distance: 7,
    };
    assert_eq!(params.distance_by_level(TrustLevel::High), Some(2));
    assert_eq!(params.distance_by_level(TrustLevel::Medium), Some(3));
    assert_eq!(params.distance_by_level(TrustLevel::Low), Some(7));
    assert_eq!(params.distance_by_level(TrustLevel::NoTrust), None);
    assert_eq!(params.distance_by_level(TrustLevel::Distrust), None);
}

#[test]
fn levels_and_ratings_are_ordered() {
    assert!(TrustLevel::Distrust < TrustLevel::NoTrust);
    assert!(TrustLevel::NoTrust < TrustLevel::Low);
    assert!(TrustLevel::Low < TrustLevel::Medium);
    assert!(TrustLevel::Medium < TrustLevel::High);
    assert_eq!(TrustLevel::Distrust.rank(), 0);
    assert_eq!(TrustLevel::High.rank(), 4);
    assert!(Rating::Dangerous < Rating::Negative);
    assert!(Rating::Negative < Rating::Neutral);
    assert!(Rating::Neutral < Rating::Positive);
    assert!(Rating::Positive < Rating::Strong);
    assert_eq!(Rating::Neutral.rank(), 2);
    assert!(Rating::Dangerous.is_negative());
    assert!(Rating::Negative.is_negative());
    assert!(!Rating::Neutral.is_negative());
    assert!(!Rating::Positive.is_negative());
    assert!(!Rating::Strong.is_negative());
}

#[test]
fn verify_succeeds_for_a_valid_signature_only() {
    let valid = trust(A, &[B], TrustLevel::High, 1);
    assert_eq!(valid.verify(), Ok(()));
    let invalid = Proof::new(
        Content::Trust(Trust {
            from: PubId::new(id(A), own_url(A)),
            date: at(1),
            ids: Vec::new(),
            trust: TrustLevel::High,
        }),
        "forged".to_string(),
        false,
    );
    assert_eq!(invalid.verify(), Err(ProofError::InvalidSignature));
}

#[test]
fn empty_db_knows_nothing() {
    let db = TrustDB::new();
    assert_eq!(status(&db, b"any digest", A), VerificationStatus::Unknown);
    let everybody = db_of(vec![trust(A, &[B, C], TrustLevel::High, 1)])
        .calculate_trust_set(&id(A), &TrustDistanceParams::default());
    assert_eq!(db.verify_digest(&digest(b""), &everybody), VerificationStatus::Unknown);
    assert_eq!(db.all_known_ids().len(), 0);
    assert!(db.all_known_ids().is_empty());
    assert_eq!(db.lookup_url(&id(A)), None);
    assert_eq!(db.get_package_review_count("https://crates.io", None, None), 0);
    assert_eq!(db.get_package_review_count("https://crates.io", Some("log"), None), 0);
    assert_eq!(db.get_package_review_count("https://crates.io", Some("log"), Some("1.0.0")), 0);
    assert!(db.get_package_reviews_for_package("https://crates.io", None, None).is_empty());
    assert!(db.get_ids_trusted_by(&id(A)).is_empty());
    assert_eq!(trusted_by(&db, A, &TrustDistanceParams::default()), ids(&[A]));
    let by_default = TrustDB::default();
    assert!(by_default.all_known_ids().is_empty());
}

#[test]
fn single_self_review_is_verified() {
    let db = db_of(vec![package_review(A, "log", "1.0.0", b"D", Rating::Positive, 1, "sig-1")]);
    assert_eq!(trusted_by(&db, A, &TrustDistanceParams::default()), ids(&[A]));
    assert_eq!(status(&db, b"D", A), VerificationStatus::Verified);
    assert_eq!(status(&db, b"E", A), VerificationStatus::Unknown);
    assert_eq!(status(&db, b"D", B), VerificationStatus::Unknown);
}

#[test]
fn transitive_trust_within_the_budget() {
    let db = db_of(vec![
        trust(A, &[B], TrustLevel::High, 1),
        trust(B, &[C], TrustLevel::Medium, 1),
    ]);
    assert_eq!(trusted_by(&db, A, &params(10)), ids(&[A, B, C]));
    assert_eq!(trusted_by(&db, A, &params(0)), ids(&[A, B]));
    assert_eq!(trusted_by(&db, A, &params(1)), ids(&[A, B, C]));
    assert_eq!(trusted_by(&db, B, &params(10)), ids(&[B, C]));
    assert_eq!(trusted_by(&db, C, &params(10)), ids(&[C]));
}

#[test]
fn blocked_by_distrust() {
    let db = db_of(vec![
        trust(A, &[B], TrustLevel::Distrust, 1),
        trust(B, &[C], TrustLevel::High, 1),
    ]);
    assert_eq!(trusted_by(&db, A, &params(10)), ids(&[A]));
    let none = db_of(vec![
        trust(A, &[B], TrustLevel::NoTrust, 1),
        trust(B, &[C], TrustLevel::High, 1),
    ]);
    assert_eq!(trusted_by(&none, A, &params(10)), ids(&[A]));
    assert_eq!(trusted_by(&none, A, &params(u64::MAX)), ids(&[A]));
}

#[test]
fn distrust_stated_later_takes_the_edge_away() {
    let db = db_of(vec![
        trust(A, &[B], TrustLevel::High, 1),
        trust(B, &[C], TrustLevel::High, 1),
        trust(A, &[B], TrustLevel::Distrust, 2),
    ]);
    assert_eq!(trusted_by(&db, A, &params(10)), ids(&[A]));
    assert_eq!(db.get_ids_trusted_by(&id(A)), vec![(TrustLevel::Distrust, id(B))]);
}

#[test]
fn conflicting_reviews_are_flagged() {
    let db = db_of(vec![
        trust(A, &[B, C], TrustLevel::High, 1),
        package_review(B, "log", "1.0.0", b"D", Rating::Positive, 2, "sig-b"),
        package_review(C, "log", "1.0.0", b"D", Rating::Negative, 2, "sig-c"),
    ]);
    assert_eq!(status(&db, b"D", A), VerificationStatus::Flagged);
}

#[test]
fn one_flag_prevails_over_many_positive_reviews() {
    let db = db_of(vec![
        trust(A, &[B, C, D], TrustLevel::High, 1),
        package_review(A, "log", "1.0.0", b"D", Rating::Strong, 2, "sig-a"),
        package_review(B, "log", "1.0.0", b"D", Rating::Strong, 2, "sig-b"),
        package_review(C, "log", "1.0.0", b"D", Rating::Positive, 2, "sig-c"),
        package_review(D, "log", "1.0.0", b"D", Rating::Dangerous, 2, "sig-d"),
    ]);
    assert_eq!(status(&db, b"D", A), VerificationStatus::Flagged);
    assert_eq!(status(&db, b"D", B), VerificationStatus::Verified);
    assert_eq!(status(&db, b"D", D), VerificationStatus::Flagged);
}

#[test]
fn reviews_by_those_not_trusted_do_not_count() {
    let db = db_of(vec![
        trust(A, &[B], TrustLevel::High, 1),
        package_review(B, "log", "1.0.0", b"D", Rating::Neutral, 2, "sig-b"),
        package_review(C, "log", "1.0.0", b"D", Rating::Negative, 2, "sig-c"),
        package_review(C, "log", "1.0.0", b"E", Rating::Positive, 2, "sig-c2"),
    ]);
    assert_eq!(status(&db, b"D", A), VerificationStatus::Verified);
    assert_eq!(status(&db, b"E", A), VerificationStatus::Unknown);
    assert_eq!(status(&db, b"D", C), VerificationStatus::Flagged);
}

#[test]
fn latest_review_of_a_digest_by_one_author_counts() {
    let db = db_of(vec![
        package_review(A, "log", "1.0.0", b"D", Rating::Negative, 1, "sig-1"),
        package_review(A, "log", "1.0.0", b"D", Rating::Positive, 2, "sig-2"),
    ]);
    assert_eq!(status(&db, b"D", A), VerificationStatus::Verified);
    let reversed = db_of(vec![
        package_review(A, "log", "1.0.0", b"D", Rating::Positive, 2, "sig-2"),
        package_review(A, "log", "1.0.0", b"D", Rating::Negative, 1, "sig-1"),
    ]);
    assert_eq!(status(&reversed, b"D", A), VerificationStatus::Verified);
}

#[test]
fn latest_wins() {
    let tight = TrustDistanceParams {
        max_distance: 2,
        high_trust_distance: 0,
        medium_trust_distance: 1,
        low_trust_distance: 5,
    };
    let db = db_of(vec![trust(A, &[B], TrustLevel::Low, 1), trust(A, &[B], TrustLevel::High, 2)]);
    assert_eq!(db.get_ids_trusted_by(&id(A)), vec![(TrustLevel::High, id(B))]);
    assert_eq!(trusted_by(&db, A, &tight), ids(&[A, B]));
    let reversed =
        db_of(vec![trust(A, &[B], TrustLevel::High, 2), trust(A, &[B], TrustLevel::Low, 1)]);
    assert_eq!(reversed.get_ids_trusted_by(&id(A)), vec![(TrustLevel::High, id(B))]);
    assert_eq!(trusted_by(&reversed, A, &tight), ids(&[A, B]));
}

#[test]
fn latest_wins_among_three_in_any_order() {
    let stated = [
        (TrustLevel::Low, 1),
        (TrustLevel::High, 3),
        (TrustLevel::Medium, 2),
    ];
    let orders: [[usize; 3]; 6] =
        [[0, 1, 2], [0, 2, 1], [1, 0, 2], [1, 2, 0], [2, 0, 1], [2, 1, 0]];
    for order in orders.iter() {
        let records = order.iter().map(|i| trust(A, &[B], stated[*i].0, stated[*i].1)).collect();
        let db = db_of(records);
        assert_eq!(db.get_ids_trusted_by(&id(A)), vec![(TrustLevel::High, id(B))]);
    }
}

#[test]
fn the_first_of_two_statements_of_one_date_stays() {
    let db = db_of(vec![trust(A, &[B], TrustLevel::Low, 1), trust(A, &[B], TrustLevel::High, 1)]);
    assert_eq!(db.get_ids_trusted_by(&id(A)), vec![(TrustLevel::Low, id(B))]);
    let by_nanos = db_of(vec![
        Proof::new(
            Content::Trust(Trust {
                from: PubId::new(id(A), own_url(A)),
                date: Timestamp::new(1, 5),
                ids: vec![PubId::new(id(B), given_url(B))],
                trust: TrustLevel::Low,
            }),
            "first".to_string(),
            true,
        ),
        Proof::new(
            Content::Trust(Trust {
                from: PubId::new(id(A), own_url(A)),
                date: Timestamp::new(1, 6),
                ids: vec![PubId::new(id(B), given_url(B))],
                trust: TrustLevel::Medium,
            }),
            "second".to_string(),
            true,
        ),
    ]);
    assert_eq!(by_nanos.get_ids_trusted_by(&id(A)), vec![(TrustLevel::Medium, id(B))]);
}

#[test]
fn taking_a_package_review_in_twice_changes_no_count() {
    let record = || package_review(A, "log", "1.0.0", b"D", Rating::Positive, 1, "sig-1");
    let once = db_of(vec![record()]);
    let twice = db_of(vec![record(), record()]);
    for db in [&once, &twice] {
        assert_eq!(db.get_package_review_count("https://crates.io", None, None), 1);
        assert_eq!(db.get_package_review_count("https://crates.io", Some("log"), None), 1);
        assert_eq!(db.get_package_review_count("https://crates.io", Some("log"), Some("1.0.0")), 1);
        assert_eq!(db.get_package_reviews_for_package("https://crates.io", None, None).len(), 1);
        assert_eq!(db.all_known_ids().len(), 1);
        assert_eq!(db.lookup_url(&id(A)), Some(&own_url(A)));
        assert_eq!(status(db, b"D", A), VerificationStatus::Verified);
    }
}

#[test]
fn taking_a_trust_proof_in_twice_changes_nothing() {
    let record = || trust(A, &[B, C, B], TrustLevel::Medium, 4);
    let once = db_of(vec![record()]);
    let twice = db_of(vec![record(), record()]);
    for db in [&once, &twice] {
        assert_eq!(
            db.get_ids_trusted_by(&id(A)),
            vec![(TrustLevel::Medium, id(B)), (TrustLevel::Medium, id(C))]
        );
        assert_eq!(db.all_known_ids().len(), 3);
        assert_eq!(trusted_by(db, A, &params(1)), ids(&[A, B, C]));
    }
}

#[test]
fn the_first_review_under_a_signature_stays() {
    let db = db_of(vec![
        package_review(A, "log", "1.0.0", b"D", Rating::Positive, 1, "sig-1"),
        package_review(B, "env", "2.0.0", b"E", Rating::Negative, 2, "sig-1"),
    ]);
    let listed = db.get_package_reviews_for_package("https://crates.io", Some("env"), None);
    assert_eq!(listed, vec![package(A, "log", "1.0.0", b"D", Rating::Positive, 1)]);
    assert_eq!(db.get_package_review_count("https://crates.io", None, None), 1);
    assert_eq!(db.get_package_review_count("https://crates.io", Some("log"), None), 1);
    assert_eq!(db.get_package_review_count("https://crates.io", Some("env"), None), 1);
}

#[test]
fn own_url_takes_precedence() {
    let named = || trust(A, &[B], TrustLevel::High, 5);
    let own = || package_review(B, "log", "1.0.0", b"D", Rating::Positive, 1, "sig-b");
    let db = db_of(vec![named(), own()]);
    assert_eq!(db.lookup_url(&id(B)), Some(&own_url(B)));
    let reversed = db_of(vec![own(), named()]);
    assert_eq!(reversed.lookup_url(&id(B)), Some(&own_url(B)));
    let only_named = db_of(vec![named()]);
    assert_eq!(only_named.lookup_url(&id(B)), Some(&given_url(B)));
    assert_eq!(only_named.lookup_url(&id(A)), Some(&own_url(A)));
    assert_eq!(only_named.lookup_url(&id(C)), None);
}

#[test]
fn the_latest_own_url_is_looked_up() {
    let moved = |secs: i64, text: &str| {
        Proof::new(
            Content::Trust(Trust {
                from: PubId::new(id(A), url(text)),
                date: at(secs),
                ids: Vec::new(),
                trust: TrustLevel::High,
            }),
            format!("moved-{}", secs),
            true,
        )
    };
    let db = db_of(vec![moved(1, "https://old"), moved(3, "https://new"), moved(2, "https://mid")]);
    assert_eq!(db.lookup_url(&id(A)), Some(&url("https://new")));
    assert!(db.get_ids_trusted_by(&id(A)).is_empty());
    assert_eq!(db.all_known_ids().len(), 1);
}

#[test]
fn all_known_ids_is_the_ordered_union() {
    let db = db_of(vec![
        trust(C, &[D, A], TrustLevel::Low, 1),
        package_review(B, "log", "1.0.0", b"D", Rating::Positive, 1, "sig-b"),
        code_review(A, &[b"F1"], Rating::Positive, 1),
    ]);
    let known = db.all_known_ids();
    assert_eq!(known.len(), 4);
    assert_eq!(known.get(0), &id(A));
    assert_eq!(known.get(1), &id(B));
    assert_eq!(known.get(2), &id(C));
    assert_eq!(known.get(3), &id(D));
    assert!(known.contains(&id(D)));
    assert!(!known.contains(&Id::new(vec![9])));
}

#[test]
fn ids_are_ordered_bytewise() {
    let db = db_of(vec![
        Proof::new(
            Content::Trust(Trust {
                from: PubId::new(Id::new(vec![2]), url("a")),
                date: at(1),
                ids: vec![
                    PubId::new(Id::new(vec![1, 255]), url("b")),
                    PubId::new(Id::new(vec![]), url("c")),
                    PubId::new(Id::new(vec![1]), url("d")),
                    PubId::new(Id::new(vec![10]), url("e")),
                ],
                trust: TrustLevel::High,
            }),
            "sig".to_string(),
            true,
        ),
    ]);
    let known = db.all_known_ids();
    let listed: Vec<Vec<u8>> = (0..known.len()).map(|i| known.get(i).bytes.clone()).collect();
    assert_eq!(listed, vec![vec![], vec![1], vec![1, 255], vec![2], vec![10]]);
}

#[test]
fn trust_set_grows_with_the_budget() {
    let db = db_of(vec![
        trust(A, &[B], TrustLevel::Medium, 1),
        trust(B, &[C], TrustLevel::Low, 1),
        trust(C, &[D], TrustLevel::Low, 1),
    ]);
    let expected: [(u64, &[u8]); 8] = [
        (0, &[A]),
        (1, &[A, B]),
        (5, &[A, B]),
        (6, &[A, B, C]),
        (10, &[A, B, C]),
        (11, &[A, B, C, D]),
        (12, &[A, B, C, D]),
        (u64::MAX, &[A, B, C, D]),
    ];
    for (max, trusted) in expected.iter() {
        assert_eq!(trusted_by(&db, A, &params(*max)), ids(trusted));
    }
    for max in 0..12u64 {
        let small = db.calculate_trust_set(&id(A), &params(max));
        let large = db.calculate_trust_set(&id(A), &params(max + 1));
        for i in 0..small.len() {
            assert!(large.contains(small.get(i)));
        }
    }
}

#[test]
fn trust_set_holds_the_root() {
    let db = db_of(vec![trust(B, &[C], TrustLevel::High, 1)]);
    assert_eq!(trusted_by(&db, A, &params(0)), ids(&[A]));
    assert_eq!(trusted_by(&db, A, &params(10)), ids(&[A]));
    assert_eq!(trusted_by(&db, C, &params(10)), ids(&[C]));
    assert!(db.calculate_trust_set(&id(D), &params(0)).contains(&id(D)));
}

#[test]
fn a_shorter_path_found_later_is_followed() {
    let db = db_of(vec![
        trust(A, &[B], TrustLevel::Low, 1),
        trust(A, &[C], TrustLevel::High, 1),
        trust(C, &[B], TrustLevel::High, 1),
        trust(B, &[D], TrustLevel::Low, 1),
    ]);
    assert_eq!(trusted_by(&db, A, &params(5)), ids(&[A, B, C, D]));
    assert_eq!(trusted_by(&db, A, &params(4)), ids(&[A, B, C]));
}

#[test]
fn cycles_of_trust_end() {
    let db = db_of(vec![
        trust(A, &[B, A], TrustLevel::High, 1),
        trust(B, &[A, C], TrustLevel::High, 1),
        trust(C, &[A, B, C], TrustLevel::Medium, 1),
    ]);
    assert_eq!(trusted_by(&db, A, &params(0)), ids(&[A, B, C]));
    assert_eq!(trusted_by(&db, C, &params(0)), ids(&[C]));
    assert_eq!(trusted_by(&db, C, &params(1)), ids(&[A, B, C]));
}

#[test]
fn a_distance_beyond_all_numbers_is_beyond_the_budget() {
    let far = TrustDistanceParams {
        max_distance: u64::MAX,
        high_trust_distance: u64::MAX,
        medium_trust_distance: 1,
        low_trust_distance: 5,
    };
    let db = db_of(vec![
        trust(A, &[B], TrustLevel::High, 1),
        trust(B, &[C], TrustLevel::Medium, 1),
        trust(A, &[D], TrustLevel::Low, 1),
    ]);
    assert_eq!(trusted_by(&db, A, &far), ids(&[A, B, D]));
}

#[test]
fn package_review_counts_at_each_granularity() {
    let db = db_of(vec![
        package_review(A, "log", "1.0.0", b"D1", Rating::Positive, 1, "sig-1"),
        package_review(B, "log", "1.0.0", b"D1", Rating::Positive, 2, "sig-2"),
        package_review(A, "log", "1.1.0", b"D2", Rating::Positive, 3, "sig-3"),
        package_review(A, "env", "1.0.0", b"D3", Rating::Positive, 4, "sig-4"),
        Proof::new(
            Content::Package(Package {
                package: PackageInfo {
                    source: "https://elsewhere".to_string(),
                    ..package(A, "log", "1.0.0", b"D4", Rating::Positive, 5).package
                },
                ..package(A, "log", "1.0.0", b"D4", Rating::Positive, 5)
            }),
            "sig-5".to_string(),
            true,
        ),
    ]);
    assert_eq!(db.get_package_review_count("https://crates.io", None, None), 4);
    assert_eq!(db.get_package_review_count("https://crates.io", Some("log"), None), 3);
    assert_eq!(db.get_package_review_count("https://crates.io", Some("log"), Some("1.0.0")), 2);
    assert_eq!(db.get_package_review_count("https://crates.io", Some("log"), Some("1.1.0")), 1);
    assert_eq!(db.get_package_review_count("https://crates.io", Some("log"), Some("2.0.0")), 0);
    assert_eq!(db.get_package_review_count("https://crates.io", Some("env"), None), 1);
    assert_eq!(db.get_package_review_count("https://crates.io", Some("cfg"), None), 0);
    assert_eq!(db.get_package_review_count("https://elsewhere", None, None), 1);
    assert_eq!(db.get_package_review_count("https://nowhere", None, None), 0);
}

#[test]
fn package_reviews_are_listed_by_date_then_signature() {
    let db = db_of(vec![
        package_review(A, "log", "1.0.0", b"D1", Rating::Positive, 3, "sig-a"),
        package_review(B, "log", "1.0.0", b"D1", Rating::Neutral, 1, "sig-d"),
        package_review(C, "log", "1.1.0", b"D2", Rating::Strong, 2, "sig-c"),
        package_review(D, "log", "1.1.0", b"D2", Rating::Negative, 2, "sig-b"),
        package_review(A, "env", "1.0.0", b"D3", Rating::Positive, 0, "sig-e"),
    ]);
    let listed = db.get_package_reviews_for_package("https://crates.io", Some("log"), None);
    assert_eq!(
        listed,
        vec![
            package(B, "log", "1.0.0", b"D1", Rating::Neutral, 1),
            package(D, "log", "1.1.0", b"D2", Rating::Negative, 2),
            package(C, "log", "1.1.0", b"D2", Rating::Strong, 2),
            package(A, "log", "1.0.0", b"D1", Rating::Positive, 3),
        ]
    );
    let of_version =
        db.get_package_reviews_for_package("https://crates.io", Some("log"), Some("1.1.0"));
    assert_eq!(
        of_version,
        vec![
            package(D, "log", "1.1.0", b"D2", Rating::Negative, 2),
            package(C, "log", "1.1.0", b"D2", Rating::Strong, 2),
        ]
    );
    let all = db.get_package_reviews_for_package("https://crates.io", None, None);
    assert_eq!(all.len(), 5);
    assert_eq!(all[0], package(A, "env", "1.0.0", b"D3", Rating::Positive, 0));
    assert!(db.get_package_reviews_for_package("https://crates.io", Some("cfg"), None).is_empty());
}

#[test]
fn code_review_covers_each_of_its_files() {
    let db = db_of(vec![
        trust(A, &[B], TrustLevel::High, 1),
        code_review(B, &[b"F1", b"F2"], Rating::Positive, 2),
        code_review(B, &[b"F2"], Rating::Negative, 3),
    ]);
    assert_eq!(status(&db, b"F1", A), VerificationStatus::Verified);
    assert_eq!(status(&db, b"F2", A), VerificationStatus::Flagged);
    assert_eq!(status(&db, b"F3", A), VerificationStatus::Unknown);
    assert_eq!(db.get_package_review_count("https://crates.io", None, None), 0);
    assert_eq!(db.lookup_url(&id(B)), Some(&own_url(B)));
}

#[test]
fn import_is_one_add_after_the_other() {
    let records = || {
        vec![
            trust(A, &[B], TrustLevel::Low, 1),
            package_review(B, "log", "1.0.0", b"D", Rating::Positive, 2, "sig-b"),
            trust(A, &[B], TrustLevel::High, 3),
            code_review(B, &[b"F1"], Rating::Negative, 4),
        ]
    };
    let imported = db_of(records());
    let mut added = TrustDB::new();
    for record in records().iter() {
        assert_eq!(record.verify(), Ok(()));
        added.add_proof(record);
    }
    for db in [&imported, &added] {
        assert_eq!(db.get_ids_trusted_by(&id(A)), vec![(TrustLevel::High, id(B))]);
        assert_eq!(status(db, b"D", A), VerificationStatus::Verified);
        assert_eq!(status(db, b"F1", A), VerificationStatus::Flagged);
        assert_eq!(db.all_known_ids().len(), 2);
        assert_eq!(db.get_package_review_count("https://crates.io", Some("log"), None), 1);
    }
}

fn forged(from: u8, to: &[u8], level: TrustLevel, secs: i64) -> Proof {
    Proof { signature_valid: false, ..trust(from, to, level, secs) }
}

#[test]
fn a_proof_with_an_invalid_signature_is_not_taken_in() {
    let mut db = db_of(vec![trust(A, &[B], TrustLevel::Low, 1)]);
    assert_eq!(
        db.try_add_proof(&forged(A, &[B, C], TrustLevel::High, 2)),
        Err(ProofError::InvalidSignature)
    );
    assert_eq!(db.get_ids_trusted_by(&id(A)), vec![(TrustLevel::Low, id(B))]);
    assert_eq!(db.all_known_ids().len(), 2);
    assert_eq!(db.try_add_proof(&trust(A, &[B, C], TrustLevel::High, 2)), Ok(()));
    assert_eq!(
        db.get_ids_trusted_by(&id(A)),
        vec![(TrustLevel::High, id(B)), (TrustLevel::High, id(C))]
    );
}

#[test]
fn a_batch_fails_at_the_first_invalid_signature() {
    let mut db = TrustDB::new();
    let batch = vec![
        trust(A, &[B], TrustLevel::High, 1),
        forged(B, &[C], TrustLevel::High, 1),
        trust(C, &[D], TrustLevel::High, 1),
    ];
    assert_eq!(db.try_import(&batch), Err(ProofError::InvalidSignature));
    assert_eq!(trusted_by(&db, A, &params(10)), ids(&[A, B]));
    assert!(db.get_ids_trusted_by(&id(C)).is_empty());
    let mut other = TrustDB::new();
    let valid = vec![trust(A, &[B], TrustLevel::High, 1), trust(B, &[C], TrustLevel::High, 1)];
    assert_eq!(other.try_import(&valid), Ok(()));
    assert_eq!(trusted_by(&other, A, &params(10)), ids(&[A, B, C]));
    assert_eq!(other.try_import(&Vec::new()), Ok(()));
}

#[test]
fn as_many_reviews_are_listed_as_are_counted() {
    let db = db_of(vec![
        package_review(A, "log", "1.0.0", b"D1", Rating::Positive, 1, "sig-1"),
        package_review(B, "log", "1.0.0", b"D1", Rating::Positive, 1, "sig-2"),
        package_review(A, "log", "1.1.0", b"D2", Rating::Positive, 1, "sig-3"),
        package_review(A, "log", "1.1.0", b"D2", Rating::Positive, 1, "sig-3"),
    ]);
    let selections: [(Option<&str>, Option<&str>, usize); 4] = [
        (None, None, 3),
        (Some("log"), None, 3),
        (Some("log"), Some("1.0.0"), 2),
        (Some("env"), None, 0),
    ];
    for (name, version, expected) in selections.iter() {
        assert_eq!(db.count_reviews("https://crates.io", *name, *version), *expected);
        assert_eq!(db.list_reviews("https://crates.io", *name, *version).len(), *expected);
        assert_eq!(
            db.list_reviews("https://crates.io", *name, *version),
            db.get_package_reviews_for_package("https://crates.io", *name, *version)
        );
    }
}

#[test]
fn the_order_of_ingestion_does_not_show() {
    let records = || {
        vec![
            trust(A, &[B, C], TrustLevel::Low, 1),
            package_review(B, "log", "1.0.0", b"D", Rating::Negative, 2, "sig-2"),
            trust(A, &[B], TrustLevel::High, 3),
            code_review(B, &[b"D", b"F"], Rating::Positive, 4),
            package_review(C, "log", "1.0.0", b"D", Rating::Strong, 5, "sig-5"),
            trust(B, &[A], TrustLevel::Medium, 6),
        ]
    };
    let orders: [[usize; 6]; 4] =
        [[0, 1, 2, 3, 4, 5], [5, 4, 3, 2, 1, 0], [2, 0, 4, 1, 5, 3], [3, 5, 1, 4, 0, 2]];
    for order in orders.iter() {
        let mut all: Vec<Option<Proof>> = records().into_iter().map(Some).collect();
        let mut shuffled = Vec::new();
        for i in order.iter() {
            shuffled.push(all[*i].take().expect("each record is taken once"));
        }
        let db = db_of(shuffled);
        assert_eq!(
            db.get_ids_trusted_by(&id(A)).iter().filter(|e| e.1 == id(B)).count(),
            1
        );
        assert!(db.get_ids_trusted_by(&id(A)).contains(&(TrustLevel::High, id(B))));
        assert!(db.get_ids_trusted_by(&id(A)).contains(&(TrustLevel::Low, id(C))));
        assert_eq!(db.get_ids_trusted_by(&id(B)), vec![(TrustLevel::Medium, id(A))]);
        assert_eq!(trusted_by(&db, A, &params(0)), ids(&[A, B]));
        assert_eq!(trusted_by(&db, A, &params(10)), ids(&[A, B, C]));
        assert_eq!(status(&db, b"D", A), VerificationStatus::Verified);
        assert_eq!(status(&db, b"F", A), VerificationStatus::Verified);
        assert_eq!(db.lookup_url(&id(C)), Some(&own_url(C)));
        assert_eq!(db.get_package_review_count("https://crates.io", Some("log"), None), 2);
        assert_eq!(
            db.get_package_reviews_for_package("https://crates.io", Some("log"), Some("1.0.0")),
            vec![
                package(B, "log", "1.0.0", b"D", Rating::Negative, 2),
                package(C, "log", "1.0.0", b"D", Rating::Strong, 5),
            ]
        );
        assert_eq!(db.all_known_ids().len(), 3);
    }
}
