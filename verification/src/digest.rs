//! The digest of a directory tree: a hash over the files that are not
//! ignored, taken in the order of their paths, so that it does not depend on
//! the order in which the tree was walked.

use crate::bytes::{bytes_lt, copy_bytes, rank_bytes, Rank};
use crate::id::Digest;
use crate::ordset::{enumeration, OrdSet, Ordered};
use vstd::prelude::*;
use vstd::utf8::encode_utf8;

verus! {

/// The BLAKE2b hash of 32 bytes of `data`.
pub uninterp spec fn blake2b_256(data: Seq<u8>) -> Seq<u8>;

/// BLAKE2b with an output of 32 bytes, by `blake2::Blake2b::<U32>::digest`.
/// The contract names the hash and states its width; which bytes it is made
/// of is not stated.
#[verifier::external_body]
fn blake2b256sum(data: &[u8]) -> (sum: Vec<u8>)
    ensures
        sum@ == blake2b_256(data@),
        sum@.len() == 32,
{
    let sum = <blake2::Blake2b<blake2::digest::consts::U32> as blake2::Digest>::digest(data);
    sum.to_vec()
}

/// A file of a directory tree: its path relative to the root of the tree,
/// with `/` between the components, and its content.
#[derive(Debug, PartialEq, Eq)]
pub struct DirEntry {
    pub path: String,
    pub content: Vec<u8>,
}

impl View for DirEntry {
    type V = (Seq<char>, Seq<u8>);

    open spec fn view(&self) -> (Seq<char>, Seq<u8>) {
        (self.path@, self.content@)
    }
}

impl Clone for DirEntry {
    fn clone(&self) -> (copy: Self)
        ensures
            copy@ == self@,
    {
        DirEntry { path: self.path.clone(), content: copy_bytes(self.content.as_slice()) }
    }
}

/// Files are ordered by the bytes of their paths, and files of one path by
/// their content.
impl Ordered for DirEntry {
    open spec fn precedes(a: (Seq<char>, Seq<u8>), b: (Seq<char>, Seq<u8>)) -> bool {
        String::precedes(a.0, b.0) || (a.0 == b.0 && bytes_lt(a.1, b.1))
    }

    proof fn lemma_strict_total_order(
        a: (Seq<char>, Seq<u8>),
        b: (Seq<char>, Seq<u8>),
        c: (Seq<char>, Seq<u8>),
    ) {
        String::lemma_strict_total_order(a.0, b.0, c.0);
        crate::bytes::lemma_bytes_lt_irreflexive(a.1);
        if bytes_lt(a.1, b.1) && bytes_lt(b.1, c.1) {
            crate::bytes::lemma_bytes_lt_transitive(a.1, b.1, c.1);
        }
        crate::bytes::lemma_bytes_lt_connected(a.1, b.1);
    }

    fn rank(&self, other: &Self) -> (r: Rank) {
        match self.path.rank(&other.path) {
            Rank::Before => Rank::Before,
            Rank::After => Rank::After,
            Rank::Same => rank_bytes(self.content.as_slice(), other.content.as_slice()),
        }
    }
}

/// The byte that separates the components of a path.
pub const SEPARATOR: u8 = 0x2f;

/// `entry` stands for `path` itself or for a directory that `path` lies under.
pub open spec fn covers(entry: Seq<char>, path: Seq<char>) -> bool {
    let e = encode_utf8(entry);
    let p = encode_utf8(path);
    e.len() <= p.len() && p.take(e.len() as int) == e && (p.len() == e.len() || p[e.len() as int]
        == SEPARATOR)
}

/// An entry of `ignore` covers `path`.
pub open spec fn ignored(ignore: Set<Seq<char>>, path: Seq<char>) -> bool {
    exists|entry: Seq<char>| ignore.contains(entry) && #[trigger] covers(entry, path)
}

/// The files among `files` that `ignore` does not cover.
pub open spec fn kept(files: Set<(Seq<char>, Seq<u8>)>, ignore: Set<Seq<char>>) -> Set<
    (Seq<char>, Seq<u8>),
> {
    files.filter(|file: (Seq<char>, Seq<u8>)| !ignored(ignore, file.0))
}

/// What one file adds to the bytes that are hashed: the length of its path
/// in eight bytes, the least significant first, then the path, then the
/// hash of its content.
pub open spec fn file_bytes(file: (Seq<char>, Seq<u8>)) -> Seq<u8> {
    vstd::bytes::spec_u64_to_le_bytes(encode_utf8(file.0).len() as u64) + encode_utf8(file.0)
        + blake2b_256(file.1)
}

/// What a sequence of files adds to the bytes that are hashed.
pub open spec fn listing_bytes(files: Seq<(Seq<char>, Seq<u8>)>) -> Seq<u8>
    decreases files.len(),
{
    if files.len() == 0 {
        Seq::empty()
    } else {
        listing_bytes(files.drop_last()) + file_bytes(files.last())
    }
}

/// The digest of a tree that holds `files`, where what `ignore` covers is
/// left out: the hash of what the files kept add, in ascending order.
pub open spec fn tree_digest(files: Set<(Seq<char>, Seq<u8>)>, ignore: Set<Seq<char>>) -> Seq<u8> {
    blake2b_256(listing_bytes(enumeration::<DirEntry>(kept(files, ignore))))
}

/// Puts `more` at the end of `buffer`.
fn append_bytes(buffer: &mut Vec<u8>, more: &[u8])
    ensures
        final(buffer)@ == old(buffer)@ + more@,
{
    let mut i: usize = 0;
    while i < more.len()
        invariant
            i <= more.len(),
            buffer@ == old(buffer)@ + more@.take(i as int),
        decreases more.len() - i,
    {
        buffer.push(more[i]);
        proof {
            assert(more@.take(i + 1) =~= more@.take(i as int).push(more@[i as int]));
        }
        i += 1;
    }
    proof {
        assert(more@.take(i as int) =~= more@);
    }
}

/// Whether `entry` stands for `path` itself or for a directory that `path` lies under.
pub fn entry_covers(entry: &str, path: &str) -> (yes: bool)
    ensures
        yes == covers(entry@, path@),
{
    let e = entry.as_bytes();
    let p = path.as_bytes();
    if e.len() > p.len() {
        return false;
    }
    let mut i: usize = 0;
    while i < e.len()
        invariant
            i <= e.len(),
            e.len() <= p.len(),
            e@ == encode_utf8(entry@),
            p@ == encode_utf8(path@),
            p@.take(i as int) == e@.take(i as int),
        decreases e.len() - i,
    {
        if e[i] != p[i] {
            proof {
                assert(p@.take(e.len() as int)[i as int] == p@[i as int]);
            }
            return false;
        }
        proof {
            assert(p@.take(i + 1) =~= p@.take(i as int).push(p@[i as int]));
            assert(e@.take(i + 1) =~= e@.take(i as int).push(e@[i as int]));
        }
        i += 1;
    }
    proof {
        assert(e@.take(i as int) =~= e@);
    }
    p.len() == e.len() || p[e.len()] == SEPARATOR
}

/// Whether an entry of `ignore` covers `path`.
pub fn is_ignored(ignore: &OrdSet<String>, path: &str) -> (yes: bool)
    requires
        ignore.wf(),
    ensures
        yes == ignored(ignore@, path@),
{
    proof {
        ignore.lemma_enumeration();
    }
    let mut i: usize = 0;
    while i < ignore.len()
        invariant
            ignore.wf(),
            i <= ignore.seq().len(),
            ignore.seq().to_set() == ignore@,
            forall|k: int| 0 <= k < i ==> !covers(#[trigger] ignore.seq()[k], path@),
        decreases ignore.seq().len() - i,
    {
        if entry_covers(ignore.get(i).as_str(), path) {
            proof {
                assert(ignore.seq().contains(ignore.seq()[i as int]));
            }
            return true;
        }
        i += 1;
    }
    proof {
        if ignored(ignore@, path@) {
            let entry = choose|entry: Seq<char>|
                ignore@.contains(entry) && #[trigger] covers(entry, path@);
            assert(ignore.seq().contains(entry));
        }
    }
    false
}

/// The digest of a directory tree, from its files in whatever order they
/// were found: what `ignore` covers is left out, and a file that is given
/// twice counts once.
pub fn directory_digest(files: &Vec<DirEntry>, ignore: &OrdSet<String>) -> (digest: Digest)
    requires
        ignore.wf(),
    ensures
        digest@ == tree_digest(files@.map_values(|f: DirEntry| f@).to_set(), ignore@),
        digest@.len() == 32,
{
    let ghost given = files@.map_values(|f: DirEntry| f@);
    let mut sorted: OrdSet<DirEntry> = OrdSet::new();
    let mut i: usize = 0;
    while i < files.len()
        invariant
            ignore.wf(),
            sorted.wf(),
            i <= files.len(),
            given == files@.map_values(|f: DirEntry| f@),
            sorted@ == kept(given.take(i as int).to_set(), ignore@),
        decreases files.len() - i,
    {
        let file = &files[i];
        let skip = is_ignored(ignore, file.path.as_str());
        if !skip {
            sorted.insert(file.clone());
        }
        proof {
            let before = given.take(i as int);
            let after = given.take(i + 1);
            assert(after =~= before.push(given[i as int]));
            assert forall|f: (Seq<char>, Seq<u8>)|
                sorted@.contains(f) <==> kept(after.to_set(), ignore@).contains(f) by {
                if before.contains(f) {
                    let j = choose|j: int| 0 <= j < before.len() && before[j] == f;
                    assert(after[j] == f);
                }
                if after.contains(f) {
                    let j = choose|j: int| 0 <= j < after.len() && after[j] == f;
                    if j < before.len() {
                        assert(before[j] == f);
                    }
                }
                if f == given[i as int] {
                    assert(after[i as int] == f);
                }
            }
            assert(sorted@ =~= kept(after.to_set(), ignore@));
        }
        i += 1;
    }
    proof {
        assert(given.take(i as int) =~= given);
        sorted.lemma_enumeration();
        sorted.lemma_seq_is_enumeration();
    }
    let ghost order = sorted.seq();
    let mut buffer: Vec<u8> = Vec::new();
    let mut j: usize = 0;
    while j < sorted.len()
        invariant
            sorted.wf(),
            order == sorted.seq(),
            j <= order.len(),
            buffer@ == listing_bytes(order.take(j as int)),
        decreases order.len() - j,
    {
        let file = sorted.get(j);
        let path = file.path.as_str().as_bytes();
        let length = vstd::bytes::u64_to_le_bytes(path.len() as u64);
        let sum = blake2b256sum(file.content.as_slice());
        append_bytes(&mut buffer, length.as_slice());
        append_bytes(&mut buffer, path);
        append_bytes(&mut buffer, sum.as_slice());
        proof {
            assert(order.take(j + 1).drop_last() =~= order.take(j as int));
            assert(order.take(j + 1).last() == order[j as int]);
        }
        j += 1;
    }
    proof {
        assert(order.take(j as int) =~= order);
    }
    Digest::from_vec(blake2b256sum(buffer.as_slice()))
}

/// What is left out of the digest of a package as it is unpacked: the
/// marker file of the unpacking, the lock file, and the build directory.
pub fn cargo_ignore_list() -> (ignore: OrdSet<String>)
    ensures
        ignore.wf(),
        ignore@ == set![".cargo-ok"@, "Cargo.lock"@, "target"@],
{
    let mut ignore: OrdSet<String> = OrdSet::new();
    ignore.insert(".cargo-ok".to_owned());
    ignore.insert("Cargo.lock".to_owned());
    ignore.insert("target".to_owned());
    proof {
        assert(ignore@ =~= set![".cargo-ok"@, "Cargo.lock"@, "target"@]);
    }
    ignore
}

/// The digest does not depend on the order of the walk nor on what is
/// ignored: two lists of files that hold the same files, those left aside
/// that `ignore` covers, have the same digest.
pub proof fn lemma_digest_stable(
    one: Seq<(Seq<char>, Seq<u8>)>,
    other: Seq<(Seq<char>, Seq<u8>)>,
    ignore: Set<Seq<char>>,
)
    requires
        forall|file: (Seq<char>, Seq<u8>)|
            !ignored(ignore, file.0) ==> (one.contains(file) <==> other.contains(file)),
    ensures
        tree_digest(one.to_set(), ignore) == tree_digest(other.to_set(), ignore),
{
    assert(kept(one.to_set(), ignore) =~= kept(other.to_set(), ignore));
}

} // verus!
