//! The dependencies of a workspace: finding one of them, and reporting what
//! the trust database knows of each.

use crate::bytes::same_text;
use crate::id::{Digest, Id};
use crate::ordset::OrdSet;
use crate::trustdb::{text_of, TrustDB};
use crate::verification::VerificationStatus;
use vstd::prelude::*;
use vstd::string::StringExecFns;

verus! {

/// The source under which the packages of the public registry are reviewed.
pub const PROJECT_SOURCE_CRATES_IO: &'static str = "https://crates.io";

/// A package that the workspace depends on, and the directory it is unpacked in.
#[derive(Debug, PartialEq, Eq)]
pub struct Dependency {
    pub name: String,
    pub version: String,
    pub path: String,
}

/// What a `Dependency` holds.
pub struct DependencyModel {
    pub name: Seq<char>,
    pub version: Seq<char>,
    pub path: Seq<char>,
}

impl View for Dependency {
    type V = DependencyModel;

    open spec fn view(&self) -> DependencyModel {
        DependencyModel { name: self.name@, version: self.version@, path: self.path@ }
    }
}

/// Why no single dependency was found.
#[derive(Clone, Copy, Debug, PartialEq, Eq, Structural)]
pub enum FindError {
    /// No dependency has the name and version asked for.
    NotFound,
    /// More than one dependency has them.
    Ambiguous { matches: usize },
}

/// `dependency` has the name asked for, and the version where one is asked for.
pub open spec fn selects(
    name: Seq<char>,
    version: Option<Seq<char>>,
    dependency: DependencyModel,
) -> bool {
    dependency.name == name && (version is None || version == Some(dependency.version))
}

/// Those of the first `n` dependencies that have the name and version asked
/// for, in the order in which they are given.
pub open spec fn selected(
    dependencies: Seq<DependencyModel>,
    name: Seq<char>,
    version: Option<Seq<char>>,
    n: nat,
) -> Seq<DependencyModel>
    decreases n,
{
    if n == 0 {
        Seq::empty()
    } else {
        let earlier = selected(dependencies, name, version, (n - 1) as nat);
        if selects(name, version, dependencies[n - 1]) {
            earlier.push(dependencies[n - 1])
        } else {
            earlier
        }
    }
}

/// The directory and the version of the one dependency that has the given
/// name and, where one is given, the given version.
pub fn find_dependency_dir(
    dependencies: &Vec<Dependency>,
    name: &str,
    version: Option<&str>,
) -> (found: Result<(String, String), FindError>)
    ensures
        match found {
            Ok((path, version_found)) => {
                let all = selected(
                    dependencies@.map_values(|d: Dependency| d@),
                    name@,
                    text_of(version),
                    dependencies@.len(),
                );
                all.len() == 1 && path@ == all[0].path && version_found@ == all[0].version
            },
            Err(FindError::NotFound) => selected(
                dependencies@.map_values(|d: Dependency| d@),
                name@,
                text_of(version),
                dependencies@.len(),
            ).len() == 0,
            Err(FindError::Ambiguous { matches }) => matches > 1 && matches == selected(
                dependencies@.map_values(|d: Dependency| d@),
                name@,
                text_of(version),
                dependencies@.len(),
            ).len(),
        },
{
    let ghost given = dependencies@.map_values(|d: Dependency| d@);
    let mut matches: Vec<(String, String)> = Vec::new();
    let mut i: usize = 0;
    while i < dependencies.len()
        invariant
            i <= dependencies.len(),
            given == dependencies@.map_values(|d: Dependency| d@),
            matches@.len() == selected(given, name@, text_of(version), i as nat).len(),
            matches@.len() <= i,
            forall|k: int|
                0 <= k < matches@.len() ==> (#[trigger] matches@[k]).0@ == selected(
                    given,
                    name@,
                    text_of(version),
                    i as nat,
                )[k].path && matches@[k].1@ == selected(
                    given,
                    name@,
                    text_of(version),
                    i as nat,
                )[k].version,
        decreases dependencies.len() - i,
    {
        let dependency = &dependencies[i];
        let wanted = same_text(name, dependency.name.as_str()) && match version {
            Some(version) => same_text(version, dependency.version.as_str()),
            None => true,
        };
        if wanted {
            matches.push((dependency.path.clone(), dependency.version.clone()));
        }
        i += 1;
    }
    if matches.len() == 0 {
        Err(FindError::NotFound)
    } else if matches.len() == 1 {
        match matches.pop() {
            Some(only) => Ok(only),
            None => Err(FindError::NotFound),
        }
    } else {
        Err(FindError::Ambiguous { matches: matches.len() })
    }
}

/// What the trust database knows of one dependency.
#[derive(Clone, Copy, Debug, PartialEq, Eq, Structural)]
pub struct DependencyReport {
    /// What those who are trusted state of the digest of its directory.
    pub status: VerificationStatus,
    /// The number of reviews of its version.
    pub version_review_count: usize,
    /// The number of reviews of any of its versions.
    pub review_count: usize,
}

/// What `db` knows of the package `name` in its version `version`, unpacked
/// to a directory of the digest `digest`, as seen by those in `trust_set`.
pub fn verify_dependency(
    db: &TrustDB,
    trust_set: &OrdSet<Id>,
    digest: &Digest,
    name: &str,
    version: &str,
) -> (report: DependencyReport)
    requires
        db.wf(),
        trust_set.wf(),
    ensures
        report.status == db@.verify_digest(digest@, trust_set@),
        report.review_count == db@.signatures(
            PROJECT_SOURCE_CRATES_IO@,
            Some(name@),
            None,
        ).len(),
        report.version_review_count == db@.signatures(
            PROJECT_SOURCE_CRATES_IO@,
            Some(name@),
            Some(version@),
        ).len(),
{
    let status = db.verify_digest(digest, trust_set);
    let review_count = db.get_package_review_count(PROJECT_SOURCE_CRATES_IO, Some(name), None);
    let version_review_count = db.get_package_review_count(
        PROJECT_SOURCE_CRATES_IO,
        Some(name),
        Some(version),
    );
    DependencyReport { status, version_review_count, review_count }
}

/// Whether one of the dependencies reported on is flagged.
pub fn any_flagged(reports: &Vec<DependencyReport>) -> (flagged: bool)
    ensures
        flagged == exists|i: int|
            0 <= i < reports@.len() && (#[trigger] reports@[i]).status
                == VerificationStatus::Flagged,
{
    let mut i: usize = 0;
    while i < reports.len()
        invariant
            i <= reports.len(),
            forall|k: int|
                0 <= k < i ==> (#[trigger] reports@[k]).status != VerificationStatus::Flagged,
        decreases reports.len() - i,
    {
        match reports[i].status {
            VerificationStatus::Flagged => {
                return true;
            },
            _ => {},
        }
        i += 1;
    }
    false
}

/// What is left of `path` once the leading components that make up `base`
/// are taken off, where `path` begins with them.
pub uninterp spec fn path_after_prefix(path: Seq<char>, base: Seq<char>) -> Option<Seq<char>>;

/// `std::path::Path::strip_prefix`, on paths given as text. The contract
/// names what is returned; which paths begin with which, and what is left
/// of them, is decided by the path syntax of the platform and not stated.
#[verifier::external_body]
fn strip_path_prefix(path: &str, base: &str) -> (rest: Option<String>)
    ensures
        (match rest {
            Some(rest) => Some(rest@),
            None => None,
        }) == path_after_prefix(path@, base@),
{
    match std::path::Path::new(path).strip_prefix(std::path::Path::new(base)) {
        Ok(rest) => Some(rest.display().to_string()),
        Err(_) => None,
    }
}

/// The path as it is shown when `rest` is what is left of it below the home
/// directory: `~/` and what is left, or the path as it is where nothing is.
pub fn home_relative(rest: Option<String>, path: &str) -> (shown: String)
    ensures
        shown@ == (match rest {
            Some(rest) => "~/"@ + rest@,
            None => path@,
        }),
{
    match rest {
        Some(rest) => {
            let mut shown = "~/".to_owned();
            shown.append(rest.as_str());
            shown
        },
        None => path.to_owned(),
    }
}

/// The path as it is shown to the user: with `~` for the home directory
/// where the path lies in it.
pub fn tilda_home_path(home: &Option<String>, path: &str) -> (shown: String)
    ensures
        shown@ == (match home {
            Some(home) => match path_after_prefix(path@, home@) {
                Some(rest) => "~/"@ + rest,
                None => path@,
            },
            None => path@,
        }),
{
    match home {
        Some(home) => home_relative(strip_path_prefix(path, home.as_str()), path),
        None => path.to_owned(),
    }
}

} // verus!
