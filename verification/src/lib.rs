//! The core of a web of trust for code review: a database of signed
//! statements of trust and of reviews, the set of identities that an
//! identity trusts, and whether those trusted stand behind a digest.

pub mod bytes;
pub mod deps;
pub mod digest;
pub mod folds;
pub mod hex;
pub mod id;
pub mod laws;
pub mod listing;
pub mod model;
pub mod ordset;
pub mod reach;
pub mod record;
pub mod review;
pub mod timestamp;
pub mod trust_set;
pub mod trustdb;
pub mod vecmap;
pub mod verification;

pub use crate::verification::VerificationStatus;
