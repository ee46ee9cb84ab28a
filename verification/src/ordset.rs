//! An ordered set kept as a strictly ascending vector.

use crate::bytes::Rank;
use vstd::prelude::*;

verus! {

/// A type whose views carry a strict total order that can be decided at run time.
pub trait Ordered: View + Sized {
    /// The strict order on views.
    spec fn precedes(a: Self::V, b: Self::V) -> bool;

    /// `precedes` is irreflexive, transitive and connected.
    proof fn lemma_strict_total_order(a: Self::V, b: Self::V, c: Self::V)
        ensures
            !Self::precedes(a, a),
            Self::precedes(a, b) && Self::precedes(b, c) ==> Self::precedes(a, c),
            Self::precedes(a, b) || Self::precedes(b, a) || a == b,
    ;

    /// Three-way comparison agreeing with `precedes`.
    fn rank(&self, other: &Self) -> (r: Rank)
        ensures
            match r {
                Rank::Before => Self::precedes(self@, other@),
                Rank::Same => self@ == other@,
                Rank::After => Self::precedes(other@, self@),
            },
    ;
}

/// Every earlier element of `s` precedes every later one.
pub open spec fn ascending<T: Ordered>(s: Seq<T::V>) -> bool {
    forall|i: int, j: int| 0 <= i < j < s.len() ==> T::precedes(#[trigger] s[i], #[trigger] s[j])
}

/// An ascending sequence holds no element twice.
pub proof fn lemma_ascending_no_duplicates<T: Ordered>(s: Seq<T::V>)
    requires
        ascending::<T>(s),
    ensures
        s.no_duplicates(),
        s.to_set().finite(),
        s.to_set().len() == s.len(),
{
    assert forall|i: int, j: int| 0 <= i < s.len() && 0 <= j < s.len() && i != j implies s[i]
        != s[j] by {
        T::lemma_strict_total_order(s[i], s[j], s[i]);
        if i < j {
            assert(T::precedes(s[i], s[j]));
        } else {
            assert(T::precedes(s[j], s[i]));
        }
    }
    s.unique_seq_to_set();
    vstd::seq_lib::seq_to_set_is_finite(s);
}

/// Two ascending sequences with the same elements are the same sequence.
pub proof fn lemma_ascending_unique<T: Ordered>(s: Seq<T::V>, t: Seq<T::V>)
    requires
        ascending::<T>(s),
        ascending::<T>(t),
        s.to_set() == t.to_set(),
    ensures
        s == t,
    decreases s.len(),
{
    lemma_ascending_no_duplicates::<T>(s);
    lemma_ascending_no_duplicates::<T>(t);
    if s.len() == 0 {
        assert(s =~= t);
    } else {
        let n = s.len() - 1;
        // the last element of each is the greatest element of the common set
        assert(s.to_set().contains(s[n]));
        assert(t.to_set().contains(t[n]));
        assert(t.contains(s[n]));
        assert(s.contains(t[n]));
        let i = choose|i: int| 0 <= i < t.len() && t[i] == s[n];
        let j = choose|j: int| 0 <= j < s.len() && s[j] == t[n];
        T::lemma_strict_total_order(s[n], t[n], s[n]);
        if i < n {
            assert(T::precedes(t[i], t[n]));
        }
        if j < n {
            assert(T::precedes(s[j], s[n]));
        }
        assert(s[n] == t[n]);
        let s1 = s.drop_last();
        let t1 = t.drop_last();
        assert(ascending::<T>(s1));
        assert(ascending::<T>(t1));
        assert forall|x: T::V| s1.to_set().contains(x) <==> t1.to_set().contains(x) by {
            if s1.contains(x) {
                let k = choose|k: int| 0 <= k < s1.len() && s1[k] == x;
                assert(s[k] == x);
                assert(s.to_set().contains(x));
                assert(t.contains(x));
                let m = choose|m: int| 0 <= m < t.len() && t[m] == x;
                assert(m != n);
                assert(t1[m] == x);
            }
            if t1.contains(x) {
                let k = choose|k: int| 0 <= k < t1.len() && t1[k] == x;
                assert(t[k] == x);
                assert(t.to_set().contains(x));
                assert(s.contains(x));
                let m = choose|m: int| 0 <= m < s.len() && s[m] == x;
                assert(m != n);
                assert(s1[m] == x);
            }
        }
        assert(s1.to_set() =~= t1.to_set());
        lemma_ascending_unique::<T>(s1, t1);
        assert(s =~= s1.push(s[n]));
        assert(t =~= t1.push(t[n]));
    }
}

/// The elements of a finite set in ascending order.
pub open spec fn enumeration<T: Ordered>(s: Set<T::V>) -> Seq<T::V> {
    choose|q: Seq<T::V>| ascending::<T>(q) && q.to_set() == s
}

/// Putting `x` between the elements that precede it and those that it
/// precedes keeps a sequence ascending, and adds `x` to its elements.
pub proof fn lemma_insert_ascending<T: Ordered>(before: Seq<T::V>, at: int, x: T::V)
    requires
        ascending::<T>(before),
        0 <= at <= before.len(),
        forall|k: int| 0 <= k < at ==> T::precedes(#[trigger] before[k], x),
        forall|k: int| at <= k < before.len() ==> T::precedes(x, #[trigger] before[k]),
    ensures
        ascending::<T>(before.insert(at, x)),
        before.insert(at, x).to_set() == before.to_set().insert(x),
{
    let after = before.insert(at, x);
    assert forall|i: int, j: int| 0 <= i < j < after.len() implies T::precedes(
        #[trigger] after[i],
        #[trigger] after[j],
    ) by {
        if j < at {
            assert(after[i] == before[i] && after[j] == before[j]);
        } else if j == at {
            assert(after[i] == before[i]);
        } else if i < at {
            assert(after[i] == before[i] && after[j] == before[j - 1]);
        } else if i == at {
            assert(after[j] == before[j - 1]);
        } else {
            assert(after[i] == before[i - 1] && after[j] == before[j - 1]);
        }
    }
    assert forall|v: T::V| after.to_set().contains(v) <==> before.to_set().insert(x).contains(
        v,
    ) by {
        if after.contains(v) {
            let k = choose|k: int| 0 <= k < after.len() && after[k] == v;
            if k < at {
                assert(before[k] == v);
            } else if k > at {
                assert(before[k - 1] == v);
            }
        }
        if before.contains(v) {
            let k = choose|k: int| 0 <= k < before.len() && before[k] == v;
            if k < at {
                assert(after[k] == v);
            } else {
                assert(after[k + 1] == v);
            }
        }
        if v == x {
            assert(after[at] == v);
        }
    }
    assert(after.to_set() =~= before.to_set().insert(x));
}

/// The number of leading elements of an ascending sequence that precede `x`.
spec fn preceding<T: Ordered>(q: Seq<T::V>, x: T::V) -> int
    decreases q.len(),
{
    if q.len() == 0 {
        0
    } else if T::precedes(q.last(), x) {
        q.len() as int
    } else {
        preceding::<T>(q.drop_last(), x)
    }
}

/// What `preceding` counts: everything before that position precedes `x`, and
/// `x` precedes everything from there on.
proof fn lemma_preceding<T: Ordered>(q: Seq<T::V>, x: T::V)
    requires
        ascending::<T>(q),
        !q.contains(x),
    ensures
        0 <= preceding::<T>(q, x) <= q.len(),
        forall|k: int| 0 <= k < preceding::<T>(q, x) ==> T::precedes(#[trigger] q[k], x),
        forall|k: int| preceding::<T>(q, x) <= k < q.len() ==> T::precedes(x, #[trigger] q[k]),
    decreases q.len(),
{
    if q.len() > 0 {
        let n = q.len() - 1;
        if T::precedes(q.last(), x) {
            assert forall|k: int| 0 <= k < q.len() implies T::precedes(#[trigger] q[k], x) by {
                if k < n {
                    assert(T::precedes(q[k], q[n]));
                    T::lemma_strict_total_order(q[k], q[n], x);
                }
            }
        } else {
            let shorter = q.drop_last();
            assert(ascending::<T>(shorter));
            assert(!shorter.contains(x)) by {
                if shorter.contains(x) {
                    let k = choose|k: int| 0 <= k < shorter.len() && shorter[k] == x;
                    assert(q[k] == x);
                }
            }
            lemma_preceding::<T>(shorter, x);
            assert(q[n] != x) by {
                if q[n] == x {
                    assert(q.contains(x));
                }
            }
            T::lemma_strict_total_order(q[n], x, q[n]);
            assert forall|k: int| preceding::<T>(q, x) <= k < q.len() implies T::precedes(
                x,
                #[trigger] q[k],
            ) by {
                if k < n {
                    assert(shorter[k] == q[k]);
                }
            }
            assert forall|k: int| 0 <= k < preceding::<T>(q, x) implies T::precedes(
                #[trigger] q[k],
                x,
            ) by {
                assert(shorter[k] == q[k]);
            }
        }
    }
}

/// Every finite set has an ascending enumeration, which `enumeration` gives.
pub proof fn lemma_enumeration_of_finite<T: Ordered>(s: Set<T::V>)
    requires
        s.finite(),
    ensures
        ascending::<T>(enumeration::<T>(s)),
        enumeration::<T>(s).to_set() == s,
        enumeration::<T>(s).len() == s.len(),
    decreases s.len(),
{
    if s.len() == 0 {
        s.lemma_len0_is_empty();
        let q = Seq::<T::V>::empty();
        assert(q.to_set() =~= s);
        assert(ascending::<T>(q) && q.to_set() == s);
    } else {
        let x = s.choose();
        let rest = s.remove(x);
        lemma_enumeration_of_finite::<T>(rest);
        let q = enumeration::<T>(rest);
        assert(!q.contains(x)) by {
            if q.contains(x) {
                assert(q.to_set().contains(x));
            }
        }
        lemma_preceding::<T>(q, x);
        let at = preceding::<T>(q, x);
        lemma_insert_ascending::<T>(q, at, x);
        let r = q.insert(at, x);
        assert(rest.insert(x) =~= s);
        assert(ascending::<T>(r) && r.to_set() == s);
    }
    lemma_ascending_no_duplicates::<T>(enumeration::<T>(s));
}

/// A finite set of `T`, enumerated in ascending order.
pub struct OrdSet<T> {
    items: Vec<T>,
}

impl<T: Ordered> View for OrdSet<T> {
    type V = Set<T::V>;

    closed spec fn view(&self) -> Set<T::V> {
        self.seq().to_set()
    }
}

impl<T: Ordered> OrdSet<T> {
    /// The elements in the order of enumeration.
    pub closed spec fn seq(&self) -> Seq<T::V> {
        self.items@.map_values(|t: T| t@)
    }

    /// The elements are held in strictly ascending order.
    pub closed spec fn wf(&self) -> bool {
        ascending::<T>(self.seq())
    }

    /// What `wf` means for the enumeration and the view.
    pub proof fn lemma_enumeration(&self)
        requires
            self.wf(),
        ensures
            ascending::<T>(self.seq()),
            self.seq().no_duplicates(),
            self.seq().to_set() == self@,
            self@.finite(),
            self@.len() == self.seq().len(),
    {
        lemma_ascending_no_duplicates::<T>(self.seq());
    }

    /// The enumeration of a well-formed set is the ascending enumeration of its view.
    pub proof fn lemma_seq_is_enumeration(&self)
        requires
            self.wf(),
        ensures
            self.seq() == enumeration::<T>(self@),
    {
        let q = enumeration::<T>(self@);
        assert(ascending::<T>(self.seq()) && self.seq().to_set() == self@);
        lemma_ascending_unique::<T>(self.seq(), q);
    }

    /// The empty set.
    pub fn new() -> (set: Self)
        ensures
            set.wf(),
            set@ == Set::<T::V>::empty(),
            set.seq() == Seq::<T::V>::empty(),
    {
        let set = OrdSet { items: Vec::new() };
        proof {
            assert(set.seq() =~= Seq::<T::V>::empty());
            assert(set@ =~= Set::<T::V>::empty());
        }
        set
    }

    /// The number of elements.
    pub fn len(&self) -> (n: usize)
        requires
            self.wf(),
        ensures
            n == self@.len(),
            n == self.seq().len(),
    {
        proof {
            self.lemma_enumeration();
        }
        self.items.len()
    }

    /// Whether the set holds nothing.
    pub fn is_empty(&self) -> (empty: bool)
        requires
            self.wf(),
        ensures
            empty == (self@ == Set::<T::V>::empty()),
    {
        proof {
            self.lemma_enumeration();
            if self.seq().len() > 0 {
                assert(self@.contains(self.seq()[0]));
            } else {
                assert(self@ =~= Set::<T::V>::empty());
            }
        }
        self.items.len() == 0
    }

    /// The `i`-th element in ascending order.
    pub fn get(&self, i: usize) -> (item: &T)
        requires
            i < self.seq().len(),
        ensures
            item@ == self.seq()[i as int],
    {
        &self.items[i]
    }

    /// Index of the first element that does not precede `item`, and whether
    /// that element is `item` itself.
    fn locate(&self, item: &T) -> (at: (usize, bool))
        requires
            self.wf(),
        ensures
            at.0 <= self.seq().len(),
            forall|k: int| 0 <= k < at.0 ==> T::precedes(#[trigger] self.seq()[k], item@),
            at.1 ==> at.0 < self.seq().len() && self.seq()[at.0 as int] == item@,
            !at.1 ==> forall|k: int|
                at.0 <= k < self.seq().len() ==> T::precedes(item@, #[trigger] self.seq()[k]),
            at.1 == self@.contains(item@),
    {
        let mut i: usize = 0;
        while i < self.items.len()
            invariant
                self.wf(),
                i <= self.items.len(),
                self.items.len() == self.seq().len(),
                forall|k: int| 0 <= k < i ==> T::precedes(#[trigger] self.seq()[k], item@),
            decreases self.items.len() - i,
        {
            match self.items[i].rank(item) {
                Rank::Before => {
                    i += 1;
                },
                Rank::Same => {
                    proof {
                        assert(self.seq()[i as int] == item@);
                        assert(self.seq().contains(item@));
                    }
                    return (i, true);
                },
                Rank::After => {
                    proof {
                        let s = self.seq();
                        assert(T::precedes(item@, s[i as int]));
                        assert forall|k: int| i <= k < s.len() implies T::precedes(
                            item@,
                            #[trigger] s[k],
                        ) by {
                            if k > i {
                                assert(T::precedes(s[i as int], s[k]));
                                T::lemma_strict_total_order(item@, s[i as int], s[k]);
                            }
                        }
                        self.lemma_absent(i as int, *item);
                    }
                    return (i, false);
                },
            }
        }
        proof {
            self.lemma_absent(i as int, *item);
        }
        (i, false)
    }

    /// An element that lies strictly between the part before `at` and the part
    /// from `at` on is not in the set.
    proof fn lemma_absent(&self, at: int, item: T)
        requires
            0 <= at <= self.seq().len(),
            forall|k: int| 0 <= k < at ==> T::precedes(#[trigger] self.seq()[k], item@),
            forall|k: int|
                at <= k < self.seq().len() ==> T::precedes(item@, #[trigger] self.seq()[k]),
        ensures
            !self@.contains(item@),
    {
        let s = self.seq();
        if s.contains(item@) {
            let k = choose|k: int| 0 <= k < s.len() && s[k] == item@;
            T::lemma_strict_total_order(item@, item@, item@);
            if k < at {
                assert(T::precedes(s[k], item@));
            } else {
                assert(T::precedes(item@, s[k]));
            }
        }
    }

    /// Whether `item` is an element.
    pub fn contains(&self, item: &T) -> (found: bool)
        requires
            self.wf(),
        ensures
            found == self@.contains(item@),
    {
        self.locate(item).1
    }

    /// Adds `item`; returns whether it was absent before.
    pub fn insert(&mut self, item: T) -> (added: bool)
        requires
            old(self).wf(),
        ensures
            final(self).wf(),
            final(self)@ == old(self)@.insert(item@),
            added == !old(self)@.contains(item@),
    {
        let (at, found) = self.locate(&item);
        if found {
            proof {
                assert(self@ =~= self@.insert(item@));
            }
            return false;
        }
        let ghost before = self.seq();
        let ghost x = item@;
        self.items.insert(at, item);
        proof {
            assert(self.seq() =~= before.insert(at as int, x));
            lemma_insert_ascending::<T>(before, at as int, x);
        }
        true
    }

    /// Removes and returns the least element, if there is one.
    pub fn pop_first(&mut self) -> (least: Option<T>)
        requires
            old(self).wf(),
        ensures
            final(self).wf(),
            match least {
                Some(item) => {
                    &&& old(self)@.contains(item@)
                    &&& final(self)@ == old(self)@.remove(item@)
                    &&& forall|v: T::V| #[trigger]
                        final(self)@.contains(v) ==> T::precedes(item@, v)
                },
                None => old(self)@ == Set::<T::V>::empty() && final(self)@ == old(self)@,
            },
    {
        if self.items.len() == 0 {
            proof {
                assert(self@ =~= Set::<T::V>::empty());
            }
            return None;
        }
        let ghost before = self.seq();
        let item = self.items.remove(0);
        proof {
            let after = self.seq();
            assert(before[0] == item@);
            assert(after =~= before.remove(0));
            assert forall|i: int, j: int| 0 <= i < j < after.len() implies T::precedes(
                #[trigger] after[i],
                #[trigger] after[j],
            ) by {
                assert(after[i] == before[i + 1] && after[j] == before[j + 1]);
            }
            lemma_ascending_no_duplicates::<T>(before);
            assert forall|v: T::V| after.to_set().contains(v) <==> before.to_set().remove(
                item@,
            ).contains(v) by {
                if after.contains(v) {
                    let k = choose|k: int| 0 <= k < after.len() && after[k] == v;
                    assert(before[k + 1] == v);
                }
                if before.contains(v) && v != item@ {
                    let k = choose|k: int| 0 <= k < before.len() && before[k] == v;
                    assert(after[k - 1] == v);
                }
            }
            assert(after.to_set() =~= before.to_set().remove(item@));
            assert forall|v: T::V| #[trigger] after.to_set().contains(v) implies T::precedes(
                item@,
                v,
            ) by {
                let k = choose|k: int| 0 <= k < after.len() && after[k] == v;
                assert(before[k + 1] == v);
                assert(T::precedes(before[0], before[k + 1]));
            }
        }
        Some(item)
    }
}

/// Strings are ordered by the bytes of their UTF-8 encoding.
impl Ordered for String {
    open spec fn precedes(a: Seq<char>, b: Seq<char>) -> bool {
        crate::bytes::bytes_lt(vstd::utf8::encode_utf8(a), vstd::utf8::encode_utf8(b))
    }

    proof fn lemma_strict_total_order(a: Seq<char>, b: Seq<char>, c: Seq<char>) {
        let ea = vstd::utf8::encode_utf8(a);
        let eb = vstd::utf8::encode_utf8(b);
        let ec = vstd::utf8::encode_utf8(c);
        crate::bytes::lemma_bytes_lt_irreflexive(ea);
        if crate::bytes::bytes_lt(ea, eb) && crate::bytes::bytes_lt(eb, ec) {
            crate::bytes::lemma_bytes_lt_transitive(ea, eb, ec);
        }
        crate::bytes::lemma_bytes_lt_connected(ea, eb);
        if ea == eb {
            vstd::utf8::encode_utf8_decode_utf8(a);
            vstd::utf8::encode_utf8_decode_utf8(b);
        }
    }

    fn rank(&self, other: &Self) -> (r: Rank) {
        let r = crate::bytes::rank_bytes(self.as_str().as_bytes(), other.as_str().as_bytes());
        proof {
            if r == Rank::Same {
                vstd::utf8::encode_utf8_decode_utf8(self@);
                vstd::utf8::encode_utf8_decode_utf8(other@);
            }
        }
        r
    }
}

} // verus!
