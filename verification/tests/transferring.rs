use rbe::digest::{digest_bytes, Digest, DigestKey};
use rbe::error::Error;
use rbe::local_path::LocalPath;
use rbe::sorted::contains_key;
use rbe::transfer::{
    assemble, check_batch, check_committed, plan_fetch, read_blob, read_request, write_requests,
    write_requests_as, BlobReply, Fetch, Status, BYTESTREAM_CHUNK_SIZE, MAX_BATCH_BYTES,
};
use rbe::upload::{
    missing_query, note_missing, DigestSet, UploadAction, UploadBatch, UploadStep, Uploader,
};
use rbe::uploads::{add_blob, UploadData, UploadMap};

fn digest(hash: &str, size_bytes: i64) -> Digest {
    Digest { hash: hash.to_owned(), size_bytes }
}

fn failure(message: &str) -> Error {
    Error { message: message.to_owned(), causes: Vec::new() }
}

fn status(code: i32, message: &str) -> Status {
    Status { code, message: message.to_owned() }
}

#[test]
fn pieces_make_up_the_blob() {
    let size = 2 * BYTESTREAM_CHUNK_SIZE + 5;
    let data: Vec<u8> = (0..size).map(|i| (i % 251) as u8).collect();
    let requests = write_requests_as("name", &data);
    assert_eq!(requests.len(), 3);
    assert_eq!(requests[0].resource_name, "name");
    assert_eq!(requests[1].resource_name, "");
    assert_eq!(requests[2].resource_name, "");
    assert_eq!(requests[0].write_offset, 0);
    assert_eq!(requests[1].write_offset, 1_000_000);
    assert_eq!(requests[2].write_offset, 2_000_000);
    assert!(!requests[0].finish_write);
    assert!(!requests[1].finish_write);
    assert!(requests[2].finish_write);
    let joined: Vec<u8> = requests.iter().flat_map(|r| r.data.clone()).collect();
    assert_eq!(joined, data);
}

#[test]
fn exact_multiples_end_with_a_full_piece() {
    let requests = write_requests_as("n", &vec![7; 2 * BYTESTREAM_CHUNK_SIZE]);
    assert_eq!(requests.len(), 2);
    assert!(!requests[0].finish_write);
    assert!(requests[1].finish_write);
    assert!(write_requests_as("n", &Vec::new()).is_empty());
}

#[test]
fn streams_are_named_afresh() {
    let blob = digest("abc", 1);
    let one = write_requests("main", &blob, &vec![1]);
    let two = write_requests("main", &blob, &vec![1]);
    assert!(one[0].resource_name.starts_with("main/uploads/"));
    assert!(one[0].resource_name.ends_with("/blobs/sha256/abc/1"));
    assert_ne!(one[0].resource_name, two[0].resource_name);
}

#[test]
fn committed_sizes_are_compared() {
    assert_eq!(check_committed(3, &digest("h", 3)), Ok(()));
    assert_eq!(
        check_committed(-2, &digest("h", 3)),
        Err(failure("ByteStream committed -2 bytes for blob h, expected 3"))
    );
}

#[test]
fn first_refusal_of_a_batch_is_reported() {
    assert_eq!(check_batch(&vec![None, Some(status(0, "fine"))]), Ok(()));
    assert_eq!(check_batch(&Vec::new()), Ok(()));
    assert_eq!(
        check_batch(&vec![None, Some(status(8, "full")), Some(status(9, "worse"))]),
        Err(failure("remote CAS rejected blob upload with status 8: full"))
    );
}

#[test]
fn blobs_are_fetched_by_size() {
    let limit = MAX_BATCH_BYTES as i64;
    let fetch = |inline: &[u8], digest: Option<Digest>| plan_fetch(&inline.to_vec(), &digest);
    assert!(matches!(fetch(b"x", None), Fetch::Have(data) if data == b"x".to_vec()));
    assert!(matches!(fetch(b"x", Some(digest("h", 9))), Fetch::Have(data) if data == b"x".to_vec()));
    assert!(matches!(fetch(b"", None), Fetch::Have(data) if data.is_empty()));
    assert!(matches!(fetch(b"", Some(digest("h", 0))), Fetch::Have(data) if data.is_empty()));
    assert!(matches!(fetch(b"", Some(digest("h", 1))), Fetch::Batch(d) if d == digest("h", 1)));
    assert!(matches!(fetch(b"", Some(digest("h", limit))), Fetch::Batch(_)));
    assert!(matches!(fetch(b"", Some(digest("h", limit + 1))), Fetch::Stream(_)));
    assert!(matches!(fetch(b"", Some(digest("h", -1))), Fetch::Stream(_)));
}

#[test]
fn replies_for_a_blob() {
    let blob = digest("h", 3);
    let reply = |status: Option<Status>| vec![BlobReply { status, data: b"abc".to_vec() }];
    assert_eq!(read_blob(&reply(None), &blob), Ok(b"abc".to_vec()));
    assert_eq!(read_blob(&reply(Some(status(0, ""))), &blob), Ok(b"abc".to_vec()));
    assert_eq!(
        read_blob(&reply(Some(status(5, "gone"))), &blob),
        Err(failure("remote CAS returned status 5 while downloading blob h: gone"))
    );
    assert_eq!(
        read_blob(&Vec::new(), &blob),
        Err(failure("remote CAS returned no data for blob h"))
    );
}

#[test]
fn streams_are_read_whole() {
    let request = read_request("main", &digest("h", 3));
    assert_eq!(request.resource_name, "main/blobs/sha256/h/3");
    assert_eq!(request.read_offset, 0);
    assert_eq!(request.read_limit, 0);
    assert_eq!(assemble(&vec![b"ab".to_vec(), Vec::new(), b"c".to_vec()]), b"abc".to_vec());
    assert!(assemble(&Vec::new()).is_empty());
}

fn uploads(blobs: &[&[u8]]) -> UploadMap {
    let mut map: UploadMap = Vec::new();
    for bytes in blobs {
        add_blob(&mut map, digest_bytes(bytes), UploadData::Bytes(bytes.to_vec()));
    }
    map
}

#[test]
fn blobs_are_kept_once_by_digest() {
    let mut map = uploads(&[b"a", b"b", b"a"]);
    assert_eq!(map.len(), 2);
    assert!(map[0].0.hash < map[1].0.hash);
    add_blob(&mut map, digest_bytes(b"a"), UploadData::File(LocalPath::from_text("/f")));
    assert_eq!(map.len(), 2);
    assert!(map.iter().all(|(_, blob)| matches!(blob.data, UploadData::Bytes(_))));
}

#[test]
fn queries_cover_the_whole_set() {
    let mut map: UploadMap = Vec::new();
    for i in 0u32..300 {
        let bytes = i.to_be_bytes().to_vec();
        add_blob(&mut map, digest_bytes(&bytes), UploadData::Bytes(bytes));
    }
    let mut from = 0;
    let mut sizes = Vec::new();
    let mut asked = Vec::new();
    while from < map.len() {
        let (digests, next) = missing_query(&map, from);
        sizes.push(digests.len());
        asked.extend(digests);
        from = next;
    }
    assert_eq!(sizes, vec![128, 128, 44]);
    let all: Vec<Digest> = map.iter().map(|(_, blob)| blob.digest.clone()).collect();
    assert_eq!(asked, all);
}

#[test]
fn missing_digests_are_a_set() {
    let mut set: DigestSet = Vec::new();
    note_missing(&mut set, &vec![digest("b", 1), digest("a", 2)]);
    note_missing(&mut set, &vec![digest("a", 2), digest("a", 1)]);
    let keys: Vec<(&str, i64)> =
        set.iter().map(|(key, _)| (key.hash.as_str(), key.size_bytes)).collect();
    assert_eq!(keys, vec![("a", 1), ("a", 2), ("b", 1)]);
    assert!(contains_key(&set, &DigestKey { hash: "b".to_owned(), size_bytes: 1 }));
}

#[test]
fn batches_respect_both_limits() {
    let mut batch = UploadBatch::new();
    for _ in 0..128 {
        assert!(batch.offer(digest("h", 1), vec![0]).is_empty());
    }
    let steps = batch.offer(digest("h", 1), vec![0]);
    assert_eq!(steps.len(), 1);
    assert!(matches!(&steps[0], UploadStep::Batch(blobs) if blobs.len() == 128));
    assert_eq!(batch.blobs.len(), 1);
    assert!(matches!(batch.finish(), Some(UploadStep::Batch(blobs)) if blobs.len() == 1));
    assert!(batch.finish().is_none());

    let half = (MAX_BATCH_BYTES / 2) as usize;
    assert!(batch.offer(digest("h", 1), vec![0; half]).is_empty());
    assert!(batch.offer(digest("h", 1), vec![0; half]).is_empty());
    let steps = batch.offer(digest("h", 1), vec![0]);
    assert!(matches!(&steps[0], UploadStep::Batch(blobs) if blobs.len() == 2));
}

#[test]
fn oversized_blobs_are_streamed_after_what_was_pending() {
    let big = vec![0; MAX_BATCH_BYTES as usize + 1];
    let mut batch = UploadBatch::new();
    let alone = batch.offer(digest("big", 1), big.clone());
    assert_eq!(alone.len(), 1);
    assert!(matches!(&alone[0], UploadStep::Stream(d, _) if d.hash == "big"));
    assert!(batch.offer(digest("small", 1), vec![1]).is_empty());
    let steps = batch.offer(digest("big", 1), big);
    assert_eq!(steps.len(), 2);
    assert!(matches!(&steps[0], UploadStep::Batch(blobs) if blobs[0].0.hash == "small"));
    assert!(matches!(&steps[1], UploadStep::Stream(..)));
    assert!(batch.finish().is_none());
}

#[test]
fn only_missing_blobs_with_bytes_are_sent() {
    let mut map = uploads(&[b"", b"one", b"two"]);
    let on_disk = digest("ffff", 4);
    add_blob(&mut map, on_disk.clone(), UploadData::File(LocalPath::from_text("/f")));
    let mut missing: DigestSet = Vec::new();
    note_missing(
        &mut missing,
        &vec![digest_bytes(b""), digest_bytes(b"two"), on_disk.clone(), digest("stranger", 1)],
    );
    let mut uploader = Uploader::new(map, &missing);
    match uploader.next() {
        UploadAction::Load(path) => assert_eq!(path.raw, b"/f".to_vec()),
        _ => panic!("the file is read when it comes up"),
    }
    uploader.take_up(b"data".to_vec());
    match uploader.next() {
        UploadAction::Send(UploadStep::Batch(blobs)) => {
            assert_eq!(blobs.len(), 2);
            assert_eq!(blobs[0], (digest_bytes(b"two"), b"two".to_vec()));
            assert_eq!(blobs[1], (on_disk, b"data".to_vec()));
        }
        _ => panic!("the rest is sent at the end"),
    }
    assert!(matches!(uploader.next(), UploadAction::Done));
}
