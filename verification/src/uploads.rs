//! The blobs that a remote execution needs in the remote store.
use vstd::prelude::*;

use crate::digest::{digest_of, Digest, DigestKey, DigestView};
use crate::local_path::LocalPath;
use crate::sorted::{
    contains_key, entries, has, lemma_found_at, lemma_has, lemma_mapped, lemma_with, lookup,
    mapped, put, rank, sorted, with,
};

verus! {

/// Where the bytes of a blob are.
#[derive(Debug)]
pub enum UploadData {
    /// In memory.
    Bytes(Vec<u8>),
    /// In a local file.
    File(LocalPath),
}

/// The content of an [`UploadData`].
pub enum DataView {
    Bytes(Seq<u8>),
    File(Seq<u8>),
}

impl View for UploadData {
    type V = DataView;

    open spec fn view(&self) -> DataView {
        match self {
            UploadData::Bytes(bytes) => DataView::Bytes(bytes@),
            UploadData::File(path) => DataView::File(path@),
        }
    }
}

/// A blob to upload.
#[derive(Debug)]
pub struct UploadBlob {
    pub digest: Digest,
    pub data: UploadData,
}

/// The content of an [`UploadBlob`].
#[verifier::ext_equal]
pub struct BlobView {
    pub digest: DigestView,
    pub data: DataView,
}

impl View for UploadBlob {
    type V = BlobView;

    open spec fn view(&self) -> BlobView {
        BlobView { digest: self.digest@, data: self.data@ }
    }
}

/// The blobs by digest, in the order of their digests.
pub type UploadMap = Vec<(DigestKey, UploadBlob)>;

/// The content of an [`UploadMap`].
pub open spec fn blobs(m: Seq<(DigestKey, UploadBlob)>) -> Seq<(DigestView, BlobView)> {
    mapped::<DigestKey, UploadBlob, BlobView>(entries(m), |b: UploadBlob| b@)
}

/// The digests stand in strictly increasing order.
pub open spec fn ordered(m: Seq<(DigestView, BlobView)>) -> bool {
    sorted::<DigestKey, BlobView>(m)
}

/// A blob with this digest is in the set.
pub open spec fn holds(m: Seq<(DigestView, BlobView)>, digest: DigestView) -> bool {
    has::<DigestKey, BlobView>(m, digest)
}

/// Each blob stands under its own digest, and bytes in memory have that digest.
pub open spec fn honest(m: Seq<(DigestView, BlobView)>) -> bool {
    forall|i: int|
        0 <= i < m.len() ==> {
            &&& (#[trigger] m[i]).0 == m[i].1.digest
            &&& m[i].1.data matches DataView::Bytes(bytes) ==> m[i].0 == digest_of(bytes)
        }
}

/// The set with one more blob; a blob that stands there already under the digest stays.
pub open spec fn with_blob(
    m: Seq<(DigestView, BlobView)>,
    digest: DigestView,
    data: DataView,
) -> Seq<(DigestView, BlobView)> {
    if holds(m, digest) {
        m
    } else {
        with::<DigestKey, BlobView>(m, digest, BlobView { digest, data })
    }
}

/// Every blob of `a` is in `b` as it is in `a`.
pub open spec fn included(a: Seq<(DigestView, BlobView)>, b: Seq<(DigestView, BlobView)>) -> bool {
    forall|d: DigestView|
        lookup::<DigestKey, BlobView>(a, d) is Some ==> #[trigger] lookup::<DigestKey, BlobView>(
            b,
            d,
        ) == lookup::<DigestKey, BlobView>(a, d)
}

/// What is in a set that is in another is in that one.
pub proof fn lemma_included_twice(
    a: Seq<(DigestView, BlobView)>,
    b: Seq<(DigestView, BlobView)>,
    c: Seq<(DigestView, BlobView)>,
)
    requires
        included(a, b),
        included(b, c),
    ensures
        included(a, c),
{
    assert forall|d: DigestView|
        lookup::<DigestKey, BlobView>(a, d) is Some implies #[trigger] lookup::<
        DigestKey,
        BlobView,
    >(c, d) == lookup::<DigestKey, BlobView>(a, d) by {
        assert(lookup::<DigestKey, BlobView>(b, d) == lookup::<DigestKey, BlobView>(a, d));
    }
}

/// Adding a blob keeps the order and every blob that was there, adds the blob's digest, and, where
/// the digest is that of the data, keeps the set honest.
pub proof fn lemma_with_blob(m: Seq<(DigestView, BlobView)>, digest: DigestView, data: DataView)
    requires
        ordered(m),
    ensures
        ordered(with_blob(m, digest, data)),
        holds(with_blob(m, digest, data), digest),
        included(m, with_blob(m, digest, data)),
        forall|d: DigestView|
            holds(m, d) ==> #[trigger] holds(with_blob(m, digest, data), d),
        forall|d: DigestView|
            #[trigger] holds(with_blob(m, digest, data), d) ==> holds(m, d) || d == digest,
        honest(m) && (data matches DataView::Bytes(bytes) ==> digest == digest_of(bytes))
            ==> honest(with_blob(m, digest, data)),
{
    let b = BlobView { digest, data };
    let n = with_blob(m, digest, data);
    lemma_with::<DigestKey, BlobView>(m, digest, b);
    lemma_has::<DigestKey, BlobView>(m, digest);
    lemma_has::<DigestKey, BlobView>(n, digest);
    assert forall|d: DigestView| true implies holds(m, d) <==> #[trigger] lookup::<
        DigestKey,
        BlobView,
    >(m, d) is Some by {
        lemma_has::<DigestKey, BlobView>(m, d);
    }
    assert forall|d: DigestView| true implies holds(n, d) <==> #[trigger] lookup::<
        DigestKey,
        BlobView,
    >(n, d) is Some by {
        lemma_has::<DigestKey, BlobView>(n, d);
    }
    assert forall|d: DigestView| holds(m, d) implies #[trigger] holds(n, d) by {
        if d != digest {
            assert(lookup::<DigestKey, BlobView>(n, d) == lookup::<DigestKey, BlobView>(m, d));
        }
    }
    assert forall|d: DigestView| #[trigger] holds(n, d) implies holds(m, d) || d == digest by {
        if d != digest {
            assert(lookup::<DigestKey, BlobView>(n, d) == lookup::<DigestKey, BlobView>(m, d));
        }
    }
    if honest(m) && (data matches DataView::Bytes(bytes) ==> digest == digest_of(bytes)) {
        assert forall|i: int| 0 <= i < n.len() implies {
            &&& (#[trigger] n[i]).0 == n[i].1.digest
            &&& n[i].1.data matches DataView::Bytes(bytes) ==> n[i].0 == digest_of(bytes)
        } by {
            lemma_found_at::<DigestKey, BlobView>(n, i);
            let d = n[i].0;
            if !holds(m, digest) && d == digest {
                assert(n[i].1 == b);
            } else {
                assert(lookup::<DigestKey, BlobView>(n, d) == lookup::<DigestKey, BlobView>(m, d));
                let j = rank::<DigestKey, BlobView>(m, d);
                assert(m[j] == n[i]);
            }
        }
    }
}

/// Adds a blob, unless one with its digest is there.
pub fn add_blob(uploads: &mut UploadMap, digest: Digest, data: UploadData)
    requires
        ordered(blobs(old(uploads)@)),
    ensures
        blobs(final(uploads)@) == with_blob(blobs(old(uploads)@), digest@, data@),
        ordered(blobs(final(uploads)@)),
{
    let ghost e = entries(uploads@);
    let ghost f = |b: UploadBlob| b@;
    let key = DigestKey::from_digest(&digest);
    let ghost blob = UploadBlob { digest, data };
    proof {
        lemma_mapped::<DigestKey, UploadBlob, BlobView>(e, f, key@, blob);
        lemma_has::<DigestKey, UploadBlob>(e, key@);
        lemma_has::<DigestKey, BlobView>(blobs(uploads@), key@);
        lemma_with_blob(blobs(uploads@), digest@, data@);
    }
    if !contains_key(uploads, &key) {
        put(uploads, key, UploadBlob { digest, data });
        assert(blobs(uploads@) == mapped::<DigestKey, UploadBlob, BlobView>(
            with::<DigestKey, UploadBlob>(e, key@, blob),
            f,
        ));
    }
}

} // verus!
