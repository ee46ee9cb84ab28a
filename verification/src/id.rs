//! Identities, their URLs, and content digests.

use crate::bytes::{bytes_lt, copy_bytes, rank_bytes, Rank};
use crate::hex::{bytes_of, from_hex, hex_of, to_hex};
use crate::ordset::Ordered;
use crate::vecmap::Key;
use vstd::prelude::*;

verus! {

/// A public-key fingerprint. Two identities are the same when their bytes
/// are, and identities are ordered bytewise.
#[derive(Debug, PartialEq, Eq, PartialOrd, Ord, Hash)]
pub struct Id {
    pub bytes: Vec<u8>,
}

impl View for Id {
    type V = Seq<u8>;

    open spec fn view(&self) -> Seq<u8> {
        self.bytes@
    }
}

impl Clone for Id {
    fn clone(&self) -> (copy: Self)
        ensures
            copy@ == self@,
    {
        Id { bytes: copy_bytes(self.bytes.as_slice()) }
    }
}

impl Id {
    /// The identity of the key with the given fingerprint.
    pub fn new(bytes: Vec<u8>) -> (id: Self)
        ensures
            id@ == bytes@,
    {
        Id { bytes }
    }

    /// The bytes of the fingerprint.
    pub fn as_slice(&self) -> (bytes: &[u8])
        ensures
            bytes@ == self@,
    {
        self.bytes.as_slice()
    }

    /// The identity as text, in hexadecimal digits.
    pub fn to_hex(&self) -> (text: String)
        ensures
            text@ == hex_of(self@),
    {
        to_hex(self.bytes.as_slice())
    }

    /// The identity that a text of hexadecimal digits stands for.
    pub fn from_hex(text: &str) -> (id: Option<Id>)
        ensures
            match id {
                Some(id) => bytes_of(text@) == Some(id@),
                None => bytes_of(text@) is None,
            },
    {
        match from_hex(text) {
            Some(bytes) => Some(Id { bytes }),
            None => None,
        }
    }
}

impl Key for Id {
    fn key_eq(&self, other: &Self) -> (same: bool) {
        self.bytes.key_eq(&other.bytes)
    }
}

impl Ordered for Id {
    open spec fn precedes(a: Seq<u8>, b: Seq<u8>) -> bool {
        bytes_lt(a, b)
    }

    proof fn lemma_strict_total_order(a: Seq<u8>, b: Seq<u8>, c: Seq<u8>) {
        crate::bytes::lemma_bytes_lt_irreflexive(a);
        if bytes_lt(a, b) && bytes_lt(b, c) {
            crate::bytes::lemma_bytes_lt_transitive(a, b, c);
        }
        crate::bytes::lemma_bytes_lt_connected(a, b);
    }

    fn rank(&self, other: &Self) -> (r: Rank) {
        rank_bytes(self.bytes.as_slice(), other.bytes.as_slice())
    }
}

/// Where the proofs of an identity are published.
#[derive(Debug, PartialEq, Eq)]
pub struct Url {
    pub url: String,
    pub url_type: String,
}

/// What a `Url` holds.
pub struct UrlModel {
    pub url: Seq<char>,
    pub url_type: Seq<char>,
}

impl View for Url {
    type V = UrlModel;

    open spec fn view(&self) -> UrlModel {
        UrlModel { url: self.url@, url_type: self.url_type@ }
    }
}

impl Clone for Url {
    fn clone(&self) -> (copy: Self)
        ensures
            copy@ == self@,
    {
        Url { url: self.url.clone(), url_type: self.url_type.clone() }
    }
}

impl Url {
    /// A URL of the default kind, a git repository.
    pub fn new(url: String) -> (made: Self)
        ensures
            made@.url == url@,
            made@.url_type == "git"@,
    {
        Url { url, url_type: "git".to_owned() }
    }
}

/// An identity together with the URL it is published under.
#[derive(Debug, PartialEq, Eq)]
pub struct PubId {
    pub id: Id,
    pub url: Url,
}

/// What a `PubId` holds.
pub struct PubIdModel {
    pub id: Seq<u8>,
    pub url: UrlModel,
}

impl View for PubId {
    type V = PubIdModel;

    open spec fn view(&self) -> PubIdModel {
        PubIdModel { id: self.id@, url: self.url@ }
    }
}

impl Clone for PubId {
    fn clone(&self) -> (copy: Self)
        ensures
            copy@ == self@,
    {
        PubId { id: self.id.clone(), url: self.url.clone() }
    }
}

impl PubId {
    /// An identity with the URL it is published under.
    pub fn new(id: Id, url: Url) -> (made: Self)
        ensures
            made@ == (PubIdModel { id: id@, url: url@ }),
    {
        PubId { id, url }
    }
}

/// A content hash of a file or of a directory tree.
#[derive(Debug, PartialEq, Eq)]
pub struct Digest {
    pub bytes: Vec<u8>,
}

impl View for Digest {
    type V = Seq<u8>;

    open spec fn view(&self) -> Seq<u8> {
        self.bytes@
    }
}

impl Clone for Digest {
    fn clone(&self) -> (copy: Self)
        ensures
            copy@ == self@,
    {
        Digest { bytes: copy_bytes(self.bytes.as_slice()) }
    }
}

impl Digest {
    /// The digest made of the given bytes.
    pub fn from_vec(bytes: Vec<u8>) -> (digest: Self)
        ensures
            digest@ == bytes@,
    {
        Digest { bytes }
    }

    pub fn as_slice(&self) -> (bytes: &[u8])
        ensures
            bytes@ == self@,
    {
        self.bytes.as_slice()
    }

    /// The digest as text, in hexadecimal digits.
    pub fn to_hex(&self) -> (text: String)
        ensures
            text@ == hex_of(self@),
    {
        to_hex(self.bytes.as_slice())
    }

    /// The bytes of the digest, given away.
    pub fn into_vec(self) -> (bytes: Vec<u8>)
        ensures
            bytes@ == self@,
    {
        self.bytes
    }
}

} // verus!
