//! The names by which blobs are streamed from and to the remote store.
use rand::RngExt as _;
use vstd::prelude::*;

use crate::digest::{Digest, DigestView};
use crate::digits::{digit, hex_encode, hex_text, signed_decimal, signed_decimal_text};
use crate::local_path::slice_bytes;
use crate::text::{after_prefix, plus};

verus! {

/// The place of a blob in the remote store.
pub open spec fn blob_place(digest: DigestView) -> Seq<char> {
    "blobs/sha256/"@ + digest.hash + "/"@ + signed_decimal(digest.size_bytes as int)
}

/// A name below that of an instance, where the instance has a name.
pub open spec fn in_instance(instance_name: Seq<char>, name: Seq<char>) -> Seq<char> {
    if instance_name.len() == 0 {
        name
    } else {
        instance_name + "/"@ + name
    }
}

/// The name to read a blob by.
pub open spec fn download_name(instance_name: Seq<char>, digest: DigestView) -> Seq<char> {
    in_instance(instance_name, blob_place(digest))
}

/// The name to write a blob by.
pub open spec fn upload_name(
    instance_name: Seq<char>,
    upload_id: Seq<char>,
    digest: DigestView,
) -> Seq<char> {
    in_instance(instance_name, "uploads/"@ + upload_id + "/"@ + blob_place(digest))
}

/// Sixteen bytes marked as a random identifier: the version and the variant replace six bits.
pub open spec fn marked(bytes: Seq<u8>) -> Seq<u8> {
    bytes.update(6, (bytes[6] & 0x0f) | 0x40).update(8, (bytes[8] & 0x3f) | 0x80)
}

/// Sixteen bytes as an identifier: digits in groups of eight, four, four, four and twelve.
pub open spec fn uuid_text(bytes: Seq<u8>) -> Seq<char> {
    hex_text(bytes.subrange(0, 4)) + "-"@ + hex_text(bytes.subrange(4, 6)) + "-"@ + hex_text(
        bytes.subrange(6, 8),
    ) + "-"@ + hex_text(bytes.subrange(8, 10)) + "-"@ + hex_text(bytes.subrange(10, 16))
}

/// A random identifier is made of these bytes.
pub open spec fn is_random_uuid(id: Seq<char>, bytes: Seq<u8>) -> bool {
    bytes.len() == 16 && id == uuid_text(marked(bytes))
}

/// The place of a blob in the remote store.
fn blob_path(digest: &Digest) -> (r: String)
    ensures
        r@ == blob_place(digest@),
{
    let size = signed_decimal_text(digest.size_bytes);
    plus("blobs/sha256/", digest.hash.as_str()).concat("/").concat(size.as_str())
}

/// A name below that of an instance, where the instance has a name.
fn below_instance(instance_name: &str, name: String) -> (r: String)
    ensures
        r@ == in_instance(instance_name@, name@),
{
    if instance_name.is_empty() {
        name
    } else {
        plus(instance_name, "/").concat(name.as_str())
    }
}

/// The name to read a blob by.
pub fn download_resource_name(instance_name: &str, digest: &Digest) -> (r: String)
    ensures
        r@ == download_name(instance_name@, digest@),
{
    below_instance(instance_name, blob_path(digest))
}

/// The name to write a blob by, with a given identifier.
pub fn upload_resource_name_with(instance_name: &str, upload_id: &str, digest: &Digest) -> (r:
    String)
    ensures
        r@ == upload_name(instance_name@, upload_id@, digest@),
{
    let place = blob_path(digest);
    let name = plus("uploads/", upload_id).concat("/").concat(place.as_str());
    below_instance(instance_name, name)
}

/// `rand::rng` gives the generator of the thread, and `RngExt::fill` overwrites the bytes with
/// random ones. Nothing is claimed of the bytes but their number.
#[verifier::external_body]
fn random_bytes() -> (r: Vec<u8>)
    ensures
        r@.len() == 16,
{
    let mut bytes = [0u8; 16];
    rand::rng().fill(&mut bytes);
    bytes.to_vec()
}

/// The identifier made of sixteen bytes.
pub fn uuid_of(bytes: &Vec<u8>) -> (r: String)
    requires
        bytes@.len() == 16,
    ensures
        is_random_uuid(r@, bytes@),
{
    let mut b = slice_bytes(bytes, 0, 16);
    assert(b@ =~= bytes@);
    let version: u8 = (b[6] & 0x0f) | 0x40;
    b.set(6, version);
    let variant: u8 = (b[8] & 0x3f) | 0x80;
    b.set(8, variant);
    assert(b@ =~= marked(bytes@));
    let time_low = hex_encode(slice_bytes(&b, 0, 4).as_slice());
    let time_mid = hex_encode(slice_bytes(&b, 4, 6).as_slice());
    let time_high = hex_encode(slice_bytes(&b, 6, 8).as_slice());
    let clock = hex_encode(slice_bytes(&b, 8, 10).as_slice());
    let node = hex_encode(slice_bytes(&b, 10, 16).as_slice());
    plus(time_low.as_str(), "-").concat(time_mid.as_str()).concat("-").concat(
        time_high.as_str(),
    ).concat("-").concat(clock.as_str()).concat("-").concat(node.as_str())
}

/// A random identifier.
pub fn random_uuid_v4() -> (r: String)
    ensures
        exists|bytes: Seq<u8>| is_random_uuid(r@, bytes),
{
    let bytes = random_bytes();
    uuid_of(&bytes)
}

/// The name to write a blob by, with a random identifier.
pub fn upload_resource_name(instance_name: &str, digest: &Digest) -> (r: String)
    ensures
        exists|id: Seq<char>, bytes: Seq<u8>|
            is_random_uuid(id, bytes) && r@ == upload_name(instance_name@, id, digest@),
{
    let upload_id = random_uuid_v4();
    upload_resource_name_with(instance_name, upload_id.as_str(), digest)
}

/// The text of an identifier: 36 characters, the version in place 14 and the variant in place 19.
pub proof fn uuid_shows_version_and_variant(id: Seq<char>, bytes: Seq<u8>)
    requires
        is_random_uuid(id, bytes),
    ensures
        id.len() == 36,
        id[8] == '-' && id[13] == '-' && id[18] == '-' && id[23] == '-',
        id[14] == '4',
        id[19] == '8' || id[19] == '9' || id[19] == 'a' || id[19] == 'b',
{
    reveal_strlit("-");
    let b = marked(bytes);
    let b6 = bytes[6];
    let b8 = bytes[8];
    assert(((b6 & 0x0f) | 0x40) / 16 == 4) by (bit_vector);
    assert(8 <= ((b8 & 0x3f) | 0x80) / 16 && ((b8 & 0x3f) | 0x80) / 16 <= 11) by (bit_vector);
    let h = hex_text(b.subrange(6, 8));
    assert(h[0] == digit(b[6] as int / 16));
    let k = hex_text(b.subrange(8, 10));
    assert(k[0] == digit(b[8] as int / 16));
    assert(id[14] == h[0]);
    assert(id[19] == k[0]);
}

/// A name to write by starts with the instance and ends with the place of the blob, which is what
/// a name to read by ends with too.
pub proof fn names_carry_instance_and_place(
    instance_name: Seq<char>,
    upload_id: Seq<char>,
    digest: DigestView,
)
    requires
        instance_name.len() > 0,
    ensures
        after_prefix(
            upload_name(instance_name, upload_id, digest),
            instance_name + "/uploads/"@ + upload_id + "/"@,
        ) == Some(blob_place(digest)),
        after_prefix(download_name(instance_name, digest), instance_name + "/"@) == Some(
            blob_place(digest),
        ),
{
    reveal_strlit("/uploads/");
    reveal_strlit("uploads/");
    reveal_strlit("/");
    let up = upload_name(instance_name, upload_id, digest);
    let p = instance_name + "/uploads/"@ + upload_id + "/"@;
    assert("/uploads/"@ =~= "/"@ + "uploads/"@);
    assert(up =~= p + blob_place(digest));
    assert(up.take(p.len() as int) =~= p);
    assert(up.skip(p.len() as int) =~= blob_place(digest));
    let down = download_name(instance_name, digest);
    let q = instance_name + "/"@;
    assert(down.take(q.len() as int) =~= q);
    assert(down.skip(q.len() as int) =~= blob_place(digest));
}

} // verus!
