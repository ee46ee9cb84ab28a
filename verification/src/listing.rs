//! The order in which package reviews are listed.

use crate::bytes::Rank;
use crate::ordset::Ordered;
use crate::timestamp::Timestamp;
use vstd::prelude::*;

verus! {

/// The date and the signature of a package review. Earlier reviews are
/// listed first, and reviews of one date in the order of their signatures.
#[derive(Debug, PartialEq, Eq)]
pub struct Listed {
    pub date: Timestamp,
    pub signature: String,
}

impl View for Listed {
    type V = (Timestamp, Seq<char>);

    open spec fn view(&self) -> (Timestamp, Seq<char>) {
        (self.date, self.signature@)
    }
}

impl Ordered for Listed {
    open spec fn precedes(a: (Timestamp, Seq<char>), b: (Timestamp, Seq<char>)) -> bool {
        a.0.before(b.0) || (a.0 == b.0 && String::precedes(a.1, b.1))
    }

    proof fn lemma_strict_total_order(
        a: (Timestamp, Seq<char>),
        b: (Timestamp, Seq<char>),
        c: (Timestamp, Seq<char>),
    ) {
        String::lemma_strict_total_order(a.1, b.1, c.1);
    }

    fn rank(&self, other: &Self) -> (r: Rank) {
        if self.date.is_before(&other.date) {
            Rank::Before
        } else if other.date.is_before(&self.date) {
            Rank::After
        } else {
            self.signature.rank(&other.signature)
        }
    }
}

} // verus!
