//! Moving single blobs between this machine and the remote store.
use vstd::prelude::*;

use crate::digest::{Digest, DigestView};
use crate::digits::{signed_decimal, signed_decimal_text};
use crate::error::{fail, failure, Error, ErrorView};
use crate::local_path::{copy_bytes, slice_bytes};
use crate::names::{
    download_name, download_resource_name, is_random_uuid, upload_name, upload_resource_name,
};
use crate::text::plus;

verus! {

/// The most blobs that one request carries.
pub const MAX_BATCH_BLOBS: usize = 128;

/// The most bytes that one request carries.
pub const MAX_BATCH_BYTES: u64 = 16 * 1024 * 1024;

/// The bytes of one piece of a stream.
pub const BYTESTREAM_CHUNK_SIZE: usize = 1_000_000;

/// The outcome that the remote service reports of a request; zero is success.
#[derive(Debug)]
pub struct Status {
    pub code: i32,
    pub message: String,
}

/// The content of a [`Status`].
#[verifier::ext_equal]
pub struct StatusView {
    pub code: i32,
    pub message: Seq<char>,
}

impl View for Status {
    type V = StatusView;

    open spec fn view(&self) -> StatusView {
        StatusView { code: self.code, message: self.message@ }
    }
}

impl Clone for Status {
    fn clone(&self) -> (r: Status)
        ensures
            r@ == self@,
    {
        Status { code: self.code, message: self.message.clone() }
    }
}

/// The content of a status that need not be there.
pub open spec fn status_view(s: Option<Status>) -> Option<StatusView> {
    match s {
        Some(status) => Some(status@),
        None => None,
    }
}

/// The status, where it is there and reports a failure.
pub open spec fn refusal(s: Option<StatusView>) -> Option<StatusView> {
    match s {
        Some(status) => if status.code != 0 {
            Some(status)
        } else {
            None
        },
        None => None,
    }
}

/// A text, a status code and the message of the status.
pub open spec fn status_text(intro: Seq<char>, status: StatusView) -> Seq<char> {
    intro + signed_decimal(status.code as int) + ": "@ + status.message
}

/// A text, a status code and the message of the status.
pub fn status_message(intro: &str, status: &Status) -> (r: String)
    ensures
        r@ == status_text(intro@, status@),
{
    let code = signed_decimal_text(status.code as i64);
    plus(intro, code.as_str()).concat(": ").concat(status.message.as_str())
}

/// One piece of a blob that is streamed to the remote store.
#[derive(Debug)]
pub struct WriteRequest {
    pub resource_name: String,
    pub write_offset: i64,
    pub data: Vec<u8>,
    pub finish_write: bool,
}

/// The content of a [`WriteRequest`].
#[verifier::ext_equal]
pub struct WriteView {
    pub resource_name: Seq<char>,
    pub write_offset: i64,
    pub data: Seq<u8>,
    pub finish_write: bool,
}

impl View for WriteRequest {
    type V = WriteView;

    open spec fn view(&self) -> WriteView {
        WriteView {
            resource_name: self.resource_name@,
            write_offset: self.write_offset,
            data: self.data@,
            finish_write: self.finish_write,
        }
    }
}

/// The contents of several requests.
pub open spec fn write_views(s: Seq<WriteRequest>) -> Seq<WriteView> {
    s.map_values(|w: WriteRequest| w@)
}

/// How many pieces of a given size there are in a number of bytes.
pub open spec fn piece_count(len: int) -> int {
    (len + BYTESTREAM_CHUNK_SIZE - 1) / BYTESTREAM_CHUNK_SIZE as int
}

/// Where a piece ends.
pub open spec fn piece_end(len: int, i: int) -> int {
    if (i + 1) * BYTESTREAM_CHUNK_SIZE < len {
        (i + 1) * BYTESTREAM_CHUNK_SIZE
    } else {
        len
    }
}

/// A piece of a blob. The first one carries the name, and the last one ends the stream.
pub open spec fn piece(name: Seq<char>, data: Seq<u8>, i: int) -> WriteView {
    WriteView {
        resource_name: if i == 0 {
            name
        } else {
            ""@
        },
        write_offset: (i * BYTESTREAM_CHUNK_SIZE) as i64,
        data: data.subrange(i * BYTESTREAM_CHUNK_SIZE, piece_end(data.len() as int, i)),
        finish_write: (i + 1) * BYTESTREAM_CHUNK_SIZE >= data.len(),
    }
}

/// A blob in pieces.
pub open spec fn pieces_of(name: Seq<char>, data: Seq<u8>) -> Seq<WriteView> {
    Seq::new(piece_count(data.len() as int) as nat, |i: int| piece(name, data, i))
}

/// The bytes of several pieces together.
pub open spec fn all_data(s: Seq<WriteView>) -> Seq<u8>
    decreases s.len(),
{
    if s.len() == 0 {
        seq![]
    } else {
        all_data(s.drop_last()) + s.last().data
    }
}

proof fn lemma_all_data(name: Seq<char>, data: Seq<u8>, n: int)
    requires
        0 <= n <= piece_count(data.len() as int),
    ensures
        all_data(pieces_of(name, data).take(n)) == data.take(
            if n * BYTESTREAM_CHUNK_SIZE < data.len() {
                n * BYTESTREAM_CHUNK_SIZE
            } else {
                data.len() as int
            },
        ),
    decreases n,
{
    let all = pieces_of(name, data);
    if n == 0 {
        assert(all.take(0) =~= seq![]);
        assert(data.take(0) =~= seq![]);
    } else {
        lemma_all_data(name, data, n - 1);
        assert(all.take(n).drop_last() =~= all.take(n - 1));
        assert(all.take(n).last() == piece(name, data, n - 1));
        assert((n - 1) * BYTESTREAM_CHUNK_SIZE < data.len());
        assert(data.take((n - 1) * BYTESTREAM_CHUNK_SIZE) + piece(name, data, n - 1).data
            =~= data.take(piece_end(data.len() as int, n - 1)));
    }
}

/// The pieces of a blob, put together, are the blob; each says where it starts, none is empty or
/// too large, and only the last one ends the stream.
pub proof fn pieces_make_up_the_blob(name: Seq<char>, data: Seq<u8>)
    requires
        data.len() <= i64::MAX,
    ensures
        all_data(pieces_of(name, data)) == data,
        forall|i: int|
            0 <= i < pieces_of(name, data).len() ==> {
                let p = #[trigger] pieces_of(name, data)[i];
                &&& 0 < p.data.len() <= BYTESTREAM_CHUNK_SIZE
                &&& p.write_offset == all_data(pieces_of(name, data).take(i)).len()
                &&& p.finish_write <==> i == pieces_of(name, data).len() - 1
                &&& p.resource_name == (if i == 0 {
                    name
                } else {
                    ""@
                })
            },
{
    let all = pieces_of(name, data);
    lemma_all_data(name, data, all.len() as int);
    assert(all.take(all.len() as int) =~= all);
    assert(data.take(data.len() as int) =~= data);
    assert forall|i: int| 0 <= i < all.len() implies {
        let p = #[trigger] all[i];
        &&& 0 < p.data.len() <= BYTESTREAM_CHUNK_SIZE
        &&& p.write_offset == all_data(all.take(i)).len()
        &&& p.finish_write <==> i == all.len() - 1
        &&& p.resource_name == (if i == 0 {
            name
        } else {
            ""@
        })
    } by {
        lemma_all_data(name, data, i);
    }
}

/// A blob in pieces, with a given name.
pub fn write_requests_as(name: &str, data: &Vec<u8>) -> (r: Vec<WriteRequest>)
    ensures
        write_views(r@) == pieces_of(name@, data@),
{
    let mut r: Vec<WriteRequest> = Vec::new();
    let mut start: usize = 0;
    let len = data.len();
    while start < len
        invariant
            len == data@.len(),
            start <= len,
            start < len ==> start == r@.len() * BYTESTREAM_CHUNK_SIZE,
            start == len ==> r@.len() == piece_count(len as int),
            forall|i: int| 0 <= i < r@.len() ==> (#[trigger] r@[i])@ == piece(name@, data@, i),
        decreases len - start,
    {
        let finish_write = len - start <= BYTESTREAM_CHUNK_SIZE;
        let end: usize = if finish_write {
            len
        } else {
            start + BYTESTREAM_CHUNK_SIZE
        };
        let resource_name = if start == 0 {
            name.to_owned()
        } else {
            "".to_owned()
        };
        let request = WriteRequest {
            resource_name,
            write_offset: start as i64,
            data: slice_bytes(data, start, end),
            finish_write,
        };
        assert(request@ =~= piece(name@, data@, r@.len() as int));
        r.push(request);
        start = end;
    }
    assert(write_views(r@) =~= pieces_of(name@, data@));
    r
}

/// A blob in pieces, with a fresh name.
pub fn write_requests(instance_name: &str, digest: &Digest, data: &Vec<u8>) -> (r: Vec<
    WriteRequest,
>)
    ensures
        exists|id: Seq<char>, bytes: Seq<u8>|
            is_random_uuid(id, bytes) && write_views(r@) == pieces_of(
                upload_name(instance_name@, id, digest@),
                data@,
            ),
{
    let name = upload_resource_name(instance_name, digest);
    write_requests_as(name.as_str(), data)
}

/// What is said where the remote store kept another number of bytes than were sent.
pub open spec fn committed_text(committed: i64, digest: DigestView) -> Seq<char> {
    "ByteStream committed "@ + signed_decimal(committed as int) + " bytes for blob "@ + digest.hash
        + ", expected "@ + signed_decimal(digest.size_bytes as int)
}

/// Whether the remote store kept as many bytes as the blob has.
pub fn check_committed(committed: i64, digest: &Digest) -> (r: Result<(), Error>)
    ensures
        match r {
            Ok(_) => committed == digest.size_bytes,
            Err(e) => committed != digest.size_bytes && e@ == failure(
                committed_text(committed, digest@),
            ),
        },
{
    if committed == digest.size_bytes {
        Ok(())
    } else {
        let got = signed_decimal_text(committed);
        let expected = signed_decimal_text(digest.size_bytes);
        let message = plus("ByteStream committed ", got.as_str()).concat(" bytes for blob ").concat(
            digest.hash.as_str(),
        ).concat(", expected ").concat(expected.as_str());
        Err(fail(message.as_str()))
    }
}

/// The contents of statuses that need not be there.
pub open spec fn status_views(s: Seq<Option<Status>>) -> Seq<Option<StatusView>> {
    s.map_values(|x: Option<Status>| status_view(x))
}

/// The first refusal.
pub open spec fn first_refusal(s: Seq<Option<StatusView>>) -> Option<StatusView>
    decreases s.len(),
{
    if s.len() == 0 {
        None
    } else {
        match refusal(s[0]) {
            Some(status) => Some(status),
            None => first_refusal(s.skip(1)),
        }
    }
}

/// Whether the remote store took all blobs of a batch.
pub fn check_batch(responses: &Vec<Option<Status>>) -> (r: Result<(), Error>)
    ensures
        match (r, first_refusal(status_views(responses@))) {
            (Ok(_), None) => true,
            (Err(e), Some(status)) => e@ == failure(
                status_text("remote CAS rejected blob upload with status "@, status),
            ),
            _ => false,
        },
{
    let ghost all = status_views(responses@);
    let mut i: usize = 0;
    assert(all.skip(0) =~= all);
    while i < responses.len()
        invariant
            i <= responses@.len(),
            all == status_views(responses@),
            first_refusal(all) == first_refusal(all.skip(i as int)),
        decreases responses@.len() - i,
    {
        assert(all.skip(i as int)[0] == all[i as int]);
        assert(all.skip(i as int).skip(1) =~= all.skip(i + 1));
        if let Some(status) = &responses[i] {
            if status.code != 0 {
                let message = status_message(
                    "remote CAS rejected blob upload with status ",
                    status,
                );
                return Err(fail(message.as_str()));
            }
        }
        i += 1;
    }
    Ok(())
}

/// How the bytes of a blob are come by.
#[derive(Debug)]
pub enum Fetch {
    /// They are here.
    Have(Vec<u8>),
    /// They come in one reply.
    Batch(Digest),
    /// They come as a stream.
    Stream(Digest),
}

/// The content of a [`Fetch`].
pub enum FetchView {
    Have(Seq<u8>),
    Batch(DigestView),
    Stream(DigestView),
}

impl View for Fetch {
    type V = FetchView;

    open spec fn view(&self) -> FetchView {
        match self {
            Fetch::Have(bytes) => FetchView::Have(bytes@),
            Fetch::Batch(digest) => FetchView::Batch(digest@),
            Fetch::Stream(digest) => FetchView::Stream(digest@),
        }
    }
}

/// The content of a digest that need not be there.
pub open spec fn digest_view(d: Option<Digest>) -> Option<DigestView> {
    match d {
        Some(digest) => Some(digest@),
        None => None,
    }
}

/// How the bytes of a blob are come by: what was sent along is here, a blob without a digest or
/// without bytes is empty, and a blob that is too large for one reply, or whose size makes no
/// sense, is streamed.
pub open spec fn fetch_of(inline: Seq<u8>, digest: Option<DigestView>) -> FetchView {
    if inline.len() > 0 {
        FetchView::Have(inline)
    } else {
        match digest {
            None => FetchView::Have(seq![]),
            Some(d) => if d.size_bytes == 0 {
                FetchView::Have(seq![])
            } else if d.size_bytes < 0 || d.size_bytes > MAX_BATCH_BYTES {
                FetchView::Stream(d)
            } else {
                FetchView::Batch(d)
            },
        }
    }
}

/// How the bytes of a blob are come by.
pub fn plan_fetch(inline: &Vec<u8>, digest: &Option<Digest>) -> (r: Fetch)
    ensures
        r@ == fetch_of(inline@, digest_view(*digest)),
{
    if inline.len() > 0 {
        return Fetch::Have(copy_bytes(inline.as_slice()));
    }
    let none: Vec<u8> = Vec::new();
    assert(none@ =~= seq![]);
    match digest {
        None => Fetch::Have(none),
        Some(d) => if d.size_bytes == 0 {
            Fetch::Have(none)
        } else if d.size_bytes < 0 || d.size_bytes as u64 > MAX_BATCH_BYTES {
            Fetch::Stream(d.clone())
        } else {
            Fetch::Batch(d.clone())
        },
    }
}

/// What the remote store replies of one blob.
#[derive(Debug)]
pub struct BlobReply {
    pub status: Option<Status>,
    pub data: Vec<u8>,
}

/// The content of a [`BlobReply`].
pub struct BlobReplyView {
    pub status: Option<StatusView>,
    pub data: Seq<u8>,
}

impl View for BlobReply {
    type V = BlobReplyView;

    open spec fn view(&self) -> BlobReplyView {
        BlobReplyView { status: status_view(self.status), data: self.data@ }
    }
}

/// The contents of several replies.
pub open spec fn reply_views(s: Seq<BlobReply>) -> Seq<BlobReplyView> {
    s.map_values(|r: BlobReply| r@)
}

/// The bytes in the reply for one blob: those of the first answer, unless there is none or it is
/// a refusal.
pub open spec fn read_outcome(
    replies: Seq<BlobReplyView>,
    digest: DigestView,
) -> Result<Seq<u8>, ErrorView> {
    if replies.len() == 0 {
        Err(failure("remote CAS returned no data for blob "@ + digest.hash))
    } else {
        match refusal(replies[0].status) {
            Some(status) => Err(
                failure(
                    "remote CAS returned status "@ + signed_decimal(status.code as int)
                        + " while downloading blob "@ + digest.hash + ": "@ + status.message,
                ),
            ),
            None => Ok(replies[0].data),
        }
    }
}

/// The bytes in the reply for one blob.
pub fn read_blob(replies: &Vec<BlobReply>, digest: &Digest) -> (r: Result<Vec<u8>, Error>)
    ensures
        match r {
            Ok(data) => read_outcome(reply_views(replies@), digest@) == Ok::<Seq<u8>, ErrorView>(
                data@,
            ),
            Err(e) => read_outcome(reply_views(replies@), digest@) == Err::<Seq<u8>, ErrorView>(e@),
        },
{
    if replies.len() == 0 {
        let message = plus("remote CAS returned no data for blob ", digest.hash.as_str());
        return Err(fail(message.as_str()));
    }
    assert(reply_views(replies@)[0] == replies@[0]@);
    if let Some(status) = &replies[0].status {
        if status.code != 0 {
            let code = signed_decimal_text(status.code as i64);
            let message = plus("remote CAS returned status ", code.as_str()).concat(
                " while downloading blob ",
            ).concat(digest.hash.as_str()).concat(": ").concat(status.message.as_str());
            return Err(fail(message.as_str()));
        }
    }
    Ok(copy_bytes(replies[0].data.as_slice()))
}

/// A request to stream a whole blob here.
#[derive(Debug)]
pub struct ReadRequest {
    pub resource_name: String,
    pub read_offset: i64,
    pub read_limit: i64,
}

/// The request to stream a blob here: from its start, without a limit.
pub fn read_request(instance_name: &str, digest: &Digest) -> (r: ReadRequest)
    ensures
        r.resource_name@ == download_name(instance_name@, digest@),
        r.read_offset == 0,
        r.read_limit == 0,
{
    ReadRequest {
        resource_name: download_resource_name(instance_name, digest),
        read_offset: 0,
        read_limit: 0,
    }
}

/// The bytes of pieces.
pub open spec fn byte_views(s: Seq<Vec<u8>>) -> Seq<Seq<u8>> {
    s.map_values(|v: Vec<u8>| v@)
}

/// The bytes of all pieces, one after the other.
pub fn assemble(chunks: &Vec<Vec<u8>>) -> (r: Vec<u8>)
    ensures
        r@ == byte_views(chunks@).flatten(),
{
    let ghost all = byte_views(chunks@);
    let mut r: Vec<u8> = Vec::new();
    let mut i: usize = 0;
    assert(all.skip(0) =~= all);
    assert(r@ + all.flatten() =~= all.flatten());
    while i < chunks.len()
        invariant
            i <= chunks@.len(),
            all == byte_views(chunks@),
            r@ + all.skip(i as int).flatten() == all.flatten(),
        decreases chunks@.len() - i,
    {
        let ghost before = r@;
        let ghost left = all.skip(i as int);
        assert(left.first() == chunks@[i as int]@);
        assert(left.drop_first() =~= all.skip(i + 1));
        let mut piece = copy_bytes(chunks[i].as_slice());
        r.append(&mut piece);
        assert(r@ + all.skip(i + 1).flatten() =~= before + (left.first()
            + left.drop_first().flatten()));
        i += 1;
    }
    assert(all.skip(i as int).flatten() =~= seq![]);
    assert(r@ + seq![] =~= r@);
    r
}

} // verus!
