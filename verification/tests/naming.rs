use rbe::digest::{digest_bytes, short_digest_of_path, Digest, StreamHasher};
use rbe::names::{
    download_resource_name, random_uuid_v4, upload_resource_name, upload_resource_name_with,
    uuid_of,
};

fn digest(hash: &str, size_bytes: i64) -> Digest {
    Digest { hash: hash.to_owned(), size_bytes }
}

#[test]
fn resource_names_include_instance_name() {
    let digest = digest("abc123", 42);

    let upload = upload_resource_name("buildbuddy", &digest);
    assert!(upload.starts_with("buildbuddy/uploads/"));
    assert!(upload.ends_with("/blobs/sha256/abc123/42"));

    let download = download_resource_name("buildbuddy", &digest);
    assert_eq!(download, "buildbuddy/blobs/sha256/abc123/42");
}

#[test]
fn names_without_an_instance() {
    let digest = digest("abc123", 42);
    assert_eq!(download_resource_name("", &digest), "blobs/sha256/abc123/42");
    assert_eq!(
        upload_resource_name_with("", "some-id", &digest),
        "uploads/some-id/blobs/sha256/abc123/42"
    );
    assert_eq!(
        upload_resource_name_with("main", "some-id", &digest),
        "main/uploads/some-id/blobs/sha256/abc123/42"
    );
    assert!(upload_resource_name("", &digest).starts_with("uploads/"));
}

#[test]
fn names_of_negative_and_extreme_sizes() {
    assert_eq!(download_resource_name("", &digest("h", -7)), "blobs/sha256/h/-7");
    assert_eq!(
        download_resource_name("", &digest("h", i64::MIN)),
        "blobs/sha256/h/-9223372036854775808"
    );
    assert_eq!(
        download_resource_name("", &digest("h", i64::MAX)),
        "blobs/sha256/h/9223372036854775807"
    );
    assert_eq!(download_resource_name("", &digest("h", 0)), "blobs/sha256/h/0");
}

#[test]
fn uuid_marks_version_and_variant() {
    let zeros: Vec<u8> = vec![0; 16];
    assert_eq!(uuid_of(&zeros), "00000000-0000-4000-8000-000000000000");
    let ones: Vec<u8> = vec![255; 16];
    assert_eq!(uuid_of(&ones), "ffffffff-ffff-4fff-bfff-ffffffffffff");
    let counted: Vec<u8> = (0u8..16).collect();
    assert_eq!(uuid_of(&counted), "00010203-0405-4607-8809-0a0b0c0d0e0f");
}

#[test]
fn random_uuids_have_the_shape_and_differ() {
    let one = random_uuid_v4();
    let two = random_uuid_v4();
    assert_ne!(one, two);
    for id in [one, two] {
        let bytes = id.as_bytes();
        assert_eq!(bytes.len(), 36);
        assert_eq!(bytes[8], b'-');
        assert_eq!(bytes[13], b'-');
        assert_eq!(bytes[14], b'4');
        assert_eq!(bytes[18], b'-');
        assert!(b"89ab".contains(&bytes[19]));
        assert_eq!(bytes[23], b'-');
    }
}

#[test]
fn digests_are_sha256() {
    let empty = digest_bytes(&[]);
    assert_eq!(empty.hash, "e3b0c44298fc1c149afbf4c8996fb92427ae41e4649b934ca495991b7852b855");
    assert_eq!(empty.size_bytes, 0);
    let abc = digest_bytes(b"abc");
    assert_eq!(abc.hash, "ba7816bf8f01cfea414140de5dae2223b00361a396177a9cb410ff61f20015ad");
    assert_eq!(abc.size_bytes, 3);
}

#[test]
fn streamed_digest_is_that_of_the_whole() {
    let mut hasher = StreamHasher::new();
    hasher.update(b"a");
    hasher.update(b"");
    hasher.update(b"bc");
    assert_eq!(hasher.finish(3), digest_bytes(b"abc"));
}

#[test]
fn path_digest_is_cut_to_sixteen_digits() {
    assert_eq!(short_digest_of_path(b"abc"), "ba7816bf8f01cfea");
    assert_eq!(short_digest_of_path(b""), "e3b0c44298fc1c14");
}
