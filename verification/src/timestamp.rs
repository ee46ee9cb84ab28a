//! Instants in time, and values that carry the instant at which they were stated.

use crate::vecmap::{Key, VecMap};
use vstd::prelude::*;

verus! {

/// An instant in UTC: whole seconds since the Unix epoch and the nanoseconds
/// into that second. Instants are ordered by seconds first.
#[derive(Clone, Copy, Debug, PartialEq, Eq, PartialOrd, Ord, Hash, Structural)]
pub struct Timestamp {
    pub secs: i64,
    pub nanos: u32,
}

impl View for Timestamp {
    type V = Timestamp;

    open spec fn view(&self) -> Timestamp {
        *self
    }
}

impl Timestamp {
    /// `self` is strictly earlier than `other`.
    pub open spec fn before(self, other: Timestamp) -> bool {
        self.secs < other.secs || (self.secs == other.secs && self.nanos < other.nanos)
    }

    /// The instant `nanos` nanoseconds into the second `secs`.
    pub fn new(secs: i64, nanos: u32) -> (t: Self)
        ensures
            t == (Timestamp { secs, nanos }),
    {
        Timestamp { secs, nanos }
    }

    /// Whether `self` is strictly earlier than `other`.
    pub fn is_before(&self, other: &Timestamp) -> (earlier: bool)
        ensures
            earlier == self.before(*other),
    {
        self.secs < other.secs || (self.secs == other.secs && self.nanos < other.nanos)
    }
}

/// A value with the instant at which it was stated.
#[derive(Debug, PartialEq, Eq)]
pub struct Timestamped<T> {
    pub date: Timestamp,
    pub value: T,
}

impl<T: View> View for Timestamped<T> {
    type V = Timestamped<T::V>;

    open spec fn view(&self) -> Timestamped<T::V> {
        Timestamped { date: self.date, value: self.value@ }
    }
}

/// The more recent of two statements; the one already held stays unless the
/// incoming one is strictly later.
pub open spec fn more_recent<V>(existing: Timestamped<V>, incoming: Timestamped<V>) -> Timestamped<
    V,
> {
    if existing.date.before(incoming.date) {
        incoming
    } else {
        existing
    }
}

/// `m` after `incoming` was stated for `k`: a first statement is stored, a
/// later one replaces an earlier one, and nothing else changes.
pub open spec fn upsert<K, V>(m: Map<K, Timestamped<V>>, k: K, incoming: Timestamped<V>) -> Map<
    K,
    Timestamped<V>,
> {
    if m.contains_key(k) {
        m.insert(k, more_recent(m[k], incoming))
    } else {
        m.insert(k, incoming)
    }
}

impl<T> Timestamped<T> {
    /// `value` as stated at `date`.
    pub fn new(date: Timestamp, value: T) -> (stamped: Self)
        ensures
            stamped == (Timestamped { date, value }),
    {
        Timestamped { date, value }
    }

    /// Replaces date and value by the given ones where these are strictly later.
    pub fn update_to_more_recent(&mut self, date: &Timestamp, value: T)
        ensures
            *final(self) == more_recent(*old(self), Timestamped { date: *date, value }),
    {
        if self.date.is_before(date) {
            self.date = *date;
            self.value = value;
        }
    }

    /// Stores `self` under `key`, or updates what is stored there where `self`
    /// is strictly later.
    pub fn insert_into_or_update_to_more_recent<K: Key>(
        self,
        map: &mut VecMap<K, Timestamped<T>>,
        key: K,
    )
        requires
            old(map).wf(),
        ensures
            final(map).wf(),
            final(map).map() == upsert(old(map).map(), key@, self),
    {
        match map.position(&key) {
            Some(i) => {
                proof {
                    map.lemma_entries();
                }
                let existing = map.value_at_mut(i);
                existing.update_to_more_recent(&self.date, self.value);
            },
            None => {
                map.push_new(key, self);
            },
        }
    }
}

} // verus!
