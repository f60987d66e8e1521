//! Content digests: the hash and size by which a blob is known to the remote store.
use sha2::Digest as _;
use sha2::Sha256;
use vstd::prelude::*;

use crate::digits::{hex_encode, hex_text};
use crate::sorted::OrderedKey;
use crate::text::{
    is_before, lemma_text_order, lemma_text_order_transitive, same_text, text_before,
};

verus! {

/// The name under which a blob is stored.
#[derive(Debug, PartialEq, Eq)]
pub struct Digest {
    pub hash: String,
    pub size_bytes: i64,
}

/// The content of a [`Digest`] or a [`DigestKey`].
#[verifier::ext_equal]
pub struct DigestView {
    pub hash: Seq<char>,
    pub size_bytes: i64,
}

impl View for Digest {
    type V = DigestView;

    open spec fn view(&self) -> DigestView {
        DigestView { hash: self.hash@, size_bytes: self.size_bytes }
    }
}

impl Clone for Digest {
    fn clone(&self) -> (r: Self)
        ensures
            r == *self,
    {
        Digest { hash: self.hash.clone(), size_bytes: self.size_bytes }
    }
}

/// A digest as the key of the upload set, ordered by hash and then by size.
#[derive(Debug, PartialEq, Eq)]
pub struct DigestKey {
    pub hash: String,
    pub size_bytes: i64,
}

impl View for DigestKey {
    type V = DigestView;

    open spec fn view(&self) -> DigestView {
        DigestView { hash: self.hash@, size_bytes: self.size_bytes }
    }
}

impl Clone for DigestKey {
    fn clone(&self) -> (r: Self)
        ensures
            r == *self,
    {
        DigestKey { hash: self.hash.clone(), size_bytes: self.size_bytes }
    }
}

impl DigestKey {
    /// The key of a digest holds the digest's own hash and size.
    pub fn from_digest(digest: &Digest) -> (key: DigestKey)
        ensures
            key@ == digest@,
    {
        DigestKey { hash: digest.hash.clone(), size_bytes: digest.size_bytes }
    }
}

/// `a` stands before `b`: by hash, and by size where the hashes are equal.
pub open spec fn digest_before(a: DigestView, b: DigestView) -> bool {
    text_before(a.hash, b.hash) || (a.hash == b.hash && a.size_bytes < b.size_bytes)
}

impl OrderedKey for DigestKey {
    open spec fn before(a: DigestView, b: DigestView) -> bool {
        digest_before(a, b)
    }

    proof fn order_is_total(a: DigestView, b: DigestView) {
        lemma_text_order(a.hash, b.hash);
        lemma_text_order(b.hash, a.hash);
    }

    proof fn order_is_transitive(a: DigestView, b: DigestView, c: DigestView) {
        if text_before(a.hash, b.hash) && text_before(b.hash, c.hash) {
            lemma_text_order_transitive(a.hash, b.hash, c.hash);
        }
    }

    fn comes_before(&self, other: &Self) -> (r: bool) {
        is_before(self.hash.as_str(), other.hash.as_str()) || (same_text(
            self.hash.as_str(),
            other.hash.as_str(),
        ) && self.size_bytes < other.size_bytes)
    }

    fn same_key(&self, other: &Self) -> (r: bool) {
        same_text(self.hash.as_str(), other.hash.as_str()) && self.size_bytes == other.size_bytes
    }
}

/// The SHA-256 hash of `bytes`, as the `sha2` crate computes it.
pub uninterp spec fn sha256(bytes: Seq<u8>) -> Seq<u8>;

/// `Sha256::digest` hashes a whole slice; the hash is 32 bytes long and depends on nothing else.
#[verifier::external_body]
fn sha256_of(bytes: &[u8]) -> (hash: Vec<u8>)
    ensures
        hash@ == sha256(bytes@),
        hash@.len() == 32,
{
    Sha256::digest(bytes).to_vec()
}

/// The hasher of the `sha2` crate.
#[verifier::external_type_specification]
#[verifier::external_body]
pub struct ExSha256(Sha256);

/// The bytes that a hasher has taken in so far.
pub uninterp spec fn absorbed(hasher: Sha256) -> Seq<u8>;

/// `Sha256::new` gives a hasher that has taken in nothing.
#[verifier::external_body]
fn sha256_new() -> (hasher: Sha256)
    ensures
        absorbed(hasher) == Seq::<u8>::empty(),
{
    Sha256::new()
}

/// `Sha256::update` takes in the bytes of `chunk` after those taken in before.
#[verifier::external_body]
fn sha256_update(hasher: &mut Sha256, chunk: &[u8])
    ensures
        absorbed(*final(hasher)) == absorbed(*old(hasher)) + chunk@,
{
    hasher.update(chunk)
}

/// `Sha256::finalize` gives the hash of all bytes taken in, the one that `Sha256::digest` gives
/// for them in one piece.
#[verifier::external_body]
fn sha256_finalize(hasher: Sha256) -> (hash: Vec<u8>)
    ensures
        hash@ == sha256(absorbed(hasher)),
        hash@.len() == 32,
{
    hasher.finalize().to_vec()
}

/// The digest of `bytes`: the hash in lower case hexadecimal and the length.
pub open spec fn digest_of(bytes: Seq<u8>) -> DigestView {
    DigestView { hash: hex_text(sha256(bytes)), size_bytes: bytes.len() as i64 }
}

/// The digest of a blob held in memory.
pub fn digest_bytes(bytes: &[u8]) -> (digest: Digest)
    ensures
        digest@ == digest_of(bytes@),
{
    let hash = sha256_of(bytes);
    Digest { hash: hex_encode(hash.as_slice()), size_bytes: bytes.len() as i64 }
}

/// The digest of a blob that is read piece by piece.
pub struct StreamHasher {
    hasher: Sha256,
}

impl View for StreamHasher {
    type V = Seq<u8>;

    /// The bytes read so far.
    closed spec fn view(&self) -> Seq<u8> {
        absorbed(self.hasher)
    }
}

impl StreamHasher {
    /// Nothing is read yet.
    pub fn new() -> (r: StreamHasher)
        ensures
            r@ == Seq::<u8>::empty(),
    {
        StreamHasher { hasher: sha256_new() }
    }

    /// Takes in the next piece.
    pub fn update(&mut self, chunk: &[u8])
        ensures
            final(self)@ == old(self)@ + chunk@,
    {
        sha256_update(&mut self.hasher, chunk);
    }

    /// The digest of a file of `len` bytes whose content has been taken in.
    pub fn finish(self, len: u64) -> (digest: Digest)
        ensures
            digest.hash@ == hex_text(sha256(self@)),
            digest.size_bytes == len as i64,
            len == self@.len() ==> digest@ == digest_of(self@),
    {
        let hash = sha256_finalize(self.hasher);
        Digest { hash: hex_encode(hash.as_slice()), size_bytes: len as i64 }
    }
}

/// The first sixteen digits of the hash of a path's bytes.
pub open spec fn short_digest(raw: Seq<u8>) -> Seq<char> {
    hex_text(sha256(raw)).take(16)
}

/// The first sixteen hexadecimal digits of the hash of a path's bytes.
pub fn short_digest_of_path(raw: &[u8]) -> (s: String)
    ensures
        s@ == short_digest(raw@),
        s@.len() == 16,
{
    let hash = sha256_of(raw);
    let text = hex_encode(hash.as_slice());
    let short = text.as_str().substring_char(0, 16).to_owned();
    assert(short@ =~= text@.take(16));
    short
}

} // verus!
