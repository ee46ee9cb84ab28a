use crev_lib::deps::{
    any_flagged, find_dependency_dir, home_relative, tilda_home_path, verify_dependency,
    Dependency, DependencyReport, FindError, PROJECT_SOURCE_CRATES_IO,
};
use crev_lib::id::{Digest, Id, PubId, Url};
use crev_lib::record::{
    Content, Level, Package, PackageInfo, Proof, Rating, Review, Trust, TrustLevel,
};
use crev_lib::review::{draft_package_review, ReviewError, TrustOrDistrust};
use crev_lib::timestamp::Timestamp;
use crev_lib::trustdb::{TrustDB, TrustDistanceParams};
use crev_lib::VerificationStatus;

fn dependency(name: &str, version: &str, path: &str) -> Dependency {
    Dependency { name: name.to_string(), version: version.to_string(), path: path.to_string() }
}

fn dependencies() -> Vec<Dependency> {
    vec![
        dependency("log", "0.4.0", "/registry/log-0.4.0"),
        dependency("env", "1.0.0", "/registry/env-1.0.0"),
        dependency("log", "0.3.9", "/registry/log-0.3.9"),
        dependency("log", "0.4.0", "/elsewhere/log-0.4.0"),
    ]
}

fn pub_id(n: u8) -> PubId {
    PubId::new(Id::new(vec![n]), Url::new(format!("https://example.com/{}", n)))
}

fn rated(
    from: u8,
    name: &str,
    version: &str,
    digest: &[u8],
    rating: Rating,
    signature: &str,
) -> Proof {
    let review = Package {
        from: pub_id(from),
        date: Timestamp::new(7, 0),
        package: PackageInfo {
            source: PROJECT_SOURCE_CRATES_IO.to_string(),
            name: name.to_string(),
            version: version.to_string(),
            digest: digest.to_vec(),
            digest_type: "blake2b".to_string(),
            revision: String::new(),
            revision_type: "git".to_string(),
        },
        review: Review::new(Level::Low, Level::Low, rating),
    };
    Proof::new(Content::Package(review), signature.to_string(), true)
}

#[test]
fn the_registry_source_is_crates_io() {
    assert_eq!(PROJECT_SOURCE_CRATES_IO, "https://crates.io");
}

#[test]
fn find_dependency_dir_finds_the_only_match() {
    assert_eq!(
        find_dependency_dir(&dependencies(), "env", None),
        Ok(("/registry/env-1.0.0".to_string(), "1.0.0".to_string()))
    );
    assert_eq!(
        find_dependency_dir(&dependencies(), "log", Some("0.3.9")),
        Ok(("/registry/log-0.3.9".to_string(), "0.3.9".to_string()))
    );
}

#[test]
fn find_dependency_dir_finds_nothing() {
    assert_eq!(find_dependency_dir(&dependencies(), "cfg", None), Err(FindError::NotFound));
    assert_eq!(
        find_dependency_dir(&dependencies(), "env", Some("2.0.0")),
        Err(FindError::NotFound)
    );
    assert_eq!(find_dependency_dir(&Vec::new(), "env", None), Err(FindError::NotFound));
    assert_eq!(find_dependency_dir(&dependencies(), "", None), Err(FindError::NotFound));
}

#[test]
fn find_dependency_dir_counts_the_matches() {
    assert_eq!(
        find_dependency_dir(&dependencies(), "log", None),
        Err(FindError::Ambiguous { matches: 3 })
    );
    assert_eq!(
        find_dependency_dir(&dependencies(), "log", Some("0.4.0")),
        Err(FindError::Ambiguous { matches: 2 })
    );
}

#[test]
fn tilda_home_path_shortens_what_lies_in_the_home_directory() {
    let home = Some("/home/user".to_string());
    assert_eq!(tilda_home_path(&home, "/home/user/.cargo/registry/log"), "~/.cargo/registry/log");
    assert_eq!(tilda_home_path(&home, "/home/user"), "~/");
    assert_eq!(tilda_home_path(&home, "/home/user/"), "~/");
}

#[test]
fn tilda_home_path_leaves_other_paths_as_they_are() {
    let home = Some("/home/user".to_string());
    assert_eq!(tilda_home_path(&home, "/home/username/x"), "/home/username/x");
    assert_eq!(tilda_home_path(&home, "/usr/lib"), "/usr/lib");
    assert_eq!(tilda_home_path(&home, "home/user/x"), "home/user/x");
    assert_eq!(tilda_home_path(&None, "/home/user/x"), "/home/user/x");
}

#[test]
fn home_relative_puts_the_tilde_in_front() {
    assert_eq!(home_relative(Some("a/b".to_string()), "/home/user/a/b"), "~/a/b");
    assert_eq!(home_relative(Some(String::new()), "/home/user"), "~/");
    assert_eq!(home_relative(None, "/usr/lib"), "/usr/lib");
}

#[test]
fn verify_dependency_reports_status_and_counts() {
    let mut db = TrustDB::new();
    db.import_from_iter(vec![
        Proof::new(
            Content::Trust(Trust {
                from: pub_id(1),
                date: Timestamp::new(1, 0),
                ids: vec![pub_id(2)],
                trust: TrustLevel::High,
            }),
            "sig-t".to_string(),
            true,
        ),
        rated(2, "log", "0.4.0", b"D1", Rating::Positive, "sig-1"),
        rated(1, "log", "0.4.0", b"D1", Rating::Strong, "sig-2"),
        rated(2, "log", "0.3.9", b"D0", Rating::Negative, "sig-3"),
        rated(3, "env", "1.0.0", b"D2", Rating::Positive, "sig-4"),
    ]);
    let trusted = db.calculate_trust_set(&Id::new(vec![1]), &TrustDistanceParams::default());
    let log = verify_dependency(&db, &trusted, &Digest::from_vec(b"D1".to_vec()), "log", "0.4.0");
    assert_eq!(
        log,
        DependencyReport {
            status: VerificationStatus::Verified,
            version_review_count: 2,
            review_count: 3,
        }
    );
    let old = verify_dependency(&db, &trusted, &Digest::from_vec(b"D0".to_vec()), "log", "0.3.9");
    assert_eq!(
        old,
        DependencyReport {
            status: VerificationStatus::Flagged,
            version_review_count: 1,
            review_count: 3,
        }
    );
    let env = verify_dependency(&db, &trusted, &Digest::from_vec(b"D2".to_vec()), "env", "1.0.0");
    assert_eq!(
        env,
        DependencyReport {
            status: VerificationStatus::Unknown,
            version_review_count: 1,
            review_count: 1,
        }
    );
    assert!(any_flagged(&vec![log, old, env]));
    assert!(!any_flagged(&vec![log, env]));
    assert!(!any_flagged(&Vec::new()));
}

#[test]
fn status_words() {
    assert_eq!(VerificationStatus::Verified.as_str(), "verified");
    assert_eq!(VerificationStatus::Flagged.as_str(), "flagged");
    assert_eq!(VerificationStatus::Unknown.as_str(), "unknown");
}

#[test]
fn drafts_start_from_a_positive_or_a_negative_rating() {
    assert_eq!(
        TrustOrDistrust::Trust.to_review(),
        Review::new(Level::Low, Level::Medium, Rating::Positive)
    );
    assert_eq!(
        TrustOrDistrust::Distrust.to_review(),
        Review::new(Level::Low, Level::Medium, Rating::Negative)
    );
    assert_eq!(TrustOrDistrust::Trust.to_trust_level(), TrustLevel::Medium);
    assert_eq!(TrustOrDistrust::Distrust.to_trust_level(), TrustLevel::Distrust);
}

#[test]
fn a_review_is_drafted_of_a_fresh_copy_only() {
    let clean = Digest::from_vec(vec![1, 2, 3]);
    let same = Digest::from_vec(vec![1, 2, 3]);
    let tampered = Digest::from_vec(vec![1, 2, 4]);
    let drafted = draft_package_review(
        &pub_id(1),
        Timestamp::new(9, 1),
        "log",
        "0.4.0",
        &clean,
        &same,
        TrustOrDistrust::Trust,
    );
    assert_eq!(
        drafted,
        Ok(Package {
            from: pub_id(1),
            date: Timestamp::new(9, 1),
            package: PackageInfo {
                source: "https://crates.io".to_string(),
                name: "log".to_string(),
                version: "0.4.0".to_string(),
                digest: vec![1, 2, 3],
                digest_type: "blake2b".to_string(),
                revision: String::new(),
                revision_type: "git".to_string(),
            },
            review: Review::new(Level::Low, Level::Medium, Rating::Positive),
        })
    );
    let refused = draft_package_review(
        &pub_id(1),
        Timestamp::new(9, 1),
        "log",
        "0.4.0",
        &clean,
        &tampered,
        TrustOrDistrust::Distrust,
    );
    assert_eq!(refused, Err(ReviewError::DigestMismatch));
    let shorter = Digest::from_vec(vec![1, 2]);
    assert_eq!(
        draft_package_review(
            &pub_id(1),
            Timestamp::new(9, 1),
            "log",
            "0.4.0",
            &clean,
            &shorter,
            TrustOrDistrust::Trust
        ),
        Err(ReviewError::DigestMismatch)
    );
}
