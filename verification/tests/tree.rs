use rbe::digest::{digest_bytes, Digest};
use rbe::dir_builder::{path_components, DirBuilder, FileEntry};
use rbe::error::Error;
use rbe::messages::{Action, Command, Directory, DirectoryNode, FileNode, SymlinkNode};
use rbe::sorted::{contains_key, get};
use rbe::uploads::{UploadData, UploadMap};

fn digest(hash: &str, size_bytes: i64) -> Digest {
    Digest { hash: hash.to_owned(), size_bytes }
}

fn file(hash: &str, size_bytes: i64, is_executable: bool) -> FileEntry {
    FileEntry { digest: digest(hash, size_bytes), is_executable }
}

#[test]
fn dir_builder_inserts_nested_files_by_leaf_name() {
    let mut builder = DirBuilder::default();
    builder
        .insert_file(
            "workspace/crate/target.rmeta",
            FileEntry {
                digest: digest("deadbeef", 9),
                is_executable: false,
            },
        )
        .unwrap();

    assert!(
        get(&builder.dirs, &"workspace".to_owned())
            .and_then(|dir| get(&dir.dirs, &"crate".to_owned()))
            .is_some_and(|dir| contains_key(&dir.files, &"target.rmeta".to_owned()))
    );
}

#[test]
fn empty_paths_are_refused() {
    let mut builder = DirBuilder::new();
    assert_eq!(
        builder.insert_file("", file("h", 1, false)),
        Err(Error {
            message: "remote file path must contain a file name".to_owned(),
            causes: Vec::new(),
        })
    );
    assert_eq!(
        builder.insert_symlink("//", "x".to_owned()),
        Err(Error {
            message: "remote symlink path must contain a file name".to_owned(),
            causes: Vec::new(),
        })
    );
}

#[test]
fn components_leave_out_empty_pieces() {
    assert_eq!(path_components("/a//b/"), vec!["a".to_owned(), "b".to_owned()]);
    assert!(path_components("").is_empty());
    assert!(path_components("///").is_empty());
}

#[test]
fn later_file_replaces_earlier_one() {
    let mut builder = DirBuilder::new();
    builder.insert_file("d/f", file("one", 1, false)).unwrap();
    builder.insert_file("d/f", file("two", 2, true)).unwrap();
    let dir = get(&builder.dirs, &"d".to_owned()).unwrap();
    assert_eq!(dir.files.len(), 1);
    assert_eq!(dir.files[0].1.digest, digest("two", 2));
    assert!(dir.files[0].1.is_executable);
}

#[test]
fn insertion_order_does_not_matter() {
    let mut one = DirBuilder::new();
    one.insert_file("a/x", file("x", 1, false)).unwrap();
    one.insert_file("b", file("b", 2, true)).unwrap();
    one.insert_symlink("a/l", "../b".to_owned()).unwrap();
    one.ensure_dir(&vec!["c".to_owned()]);
    let mut two = DirBuilder::new();
    two.ensure_dir(&vec!["c".to_owned()]);
    two.insert_symlink("a/l", "../b".to_owned()).unwrap();
    two.insert_file("b", file("b", 2, true)).unwrap();
    two.insert_file("a/x", file("x", 1, false)).unwrap();
    let mut u1: UploadMap = Vec::new();
    let mut u2: UploadMap = Vec::new();
    assert_eq!(one.finalize(&mut u1), two.finalize(&mut u2));
    assert_eq!(u1.len(), 3);
    assert_eq!(u2.len(), 3);
}

#[test]
fn files_can_come_in_any_order() {
    let files = [("a/x", "1"), ("a/y", "2"), ("b", "3"), ("a/z/x", "4")];
    let mut digests = Vec::new();
    for order in [[0, 1, 2, 3], [3, 2, 1, 0], [2, 0, 3, 1]] {
        let mut builder = DirBuilder::new();
        for i in order {
            builder.insert_file(files[i].0, file(files[i].1, 1, false)).unwrap();
        }
        let mut uploads: UploadMap = Vec::new();
        digests.push(builder.finalize(&mut uploads));
    }
    assert_eq!(digests[0], digests[1]);
    assert_eq!(digests[0], digests[2]);
}

#[test]
fn finalizing_again_changes_nothing() {
    let mut builder = DirBuilder::new();
    builder.insert_file("a/b/c", file("h", 1, false)).unwrap();
    let mut uploads: UploadMap = Vec::new();
    let first = builder.finalize(&mut uploads);
    let before = format!("{uploads:?}");
    assert_eq!(builder.finalize(&mut uploads), first);
    assert_eq!(format!("{uploads:?}"), before);
    assert_eq!(uploads.len(), 3);
}

#[test]
fn digest_messages_are_encoded_in_order() {
    let directory = Directory {
        files: vec![FileNode { name: "f".to_owned(), digest: digest("ab", 3), is_executable: true }],
        directories: vec![DirectoryNode { name: "d".to_owned(), digest: digest("", 0) }],
        symlinks: vec![SymlinkNode { name: "l".to_owned(), target: "t".to_owned() }],
    };
    assert_eq!(
        directory.encode_to_vec(),
        vec![
            0x0a, 0x0d, 0x0a, 0x01, b'f', 0x12, 0x06, 0x0a, 0x02, b'a', b'b', 0x10, 0x03, 0x20,
            0x01, 0x12, 0x05, 0x0a, 0x01, b'd', 0x12, 0x00, 0x1a, 0x06, 0x0a, 0x01, b'l', 0x12,
            0x01, b't'
        ]
    );
}

#[test]
fn finalizing_uploads_the_whole_tree() {
    let mut builder = DirBuilder::new();
    builder.insert_file("a/b/f", file("h", 5, false)).unwrap();
    let mut uploads: UploadMap = Vec::new();
    let root = builder.finalize(&mut uploads);

    let inner = Directory {
        files: vec![FileNode { name: "f".to_owned(), digest: digest("h", 5), is_executable: false }],
        directories: Vec::new(),
        symlinks: Vec::new(),
    };
    let inner_digest = digest_bytes(&inner.encode_to_vec());
    let middle = Directory {
        files: Vec::new(),
        directories: vec![DirectoryNode { name: "b".to_owned(), digest: inner_digest.clone() }],
        symlinks: Vec::new(),
    };
    let middle_digest = digest_bytes(&middle.encode_to_vec());
    let outer = Directory {
        files: Vec::new(),
        directories: vec![DirectoryNode { name: "a".to_owned(), digest: middle_digest.clone() }],
        symlinks: Vec::new(),
    };
    assert_eq!(root, digest_bytes(&outer.encode_to_vec()));
    assert_eq!(uploads.len(), 3);
    for expected in [&inner_digest, &middle_digest, &root] {
        assert!(uploads.iter().any(|(_, blob)| blob.digest == *expected));
    }
    for (key, blob) in &uploads {
        assert_eq!(key.hash, blob.digest.hash);
        assert_eq!(key.size_bytes, blob.digest.size_bytes);
        match &blob.data {
            UploadData::Bytes(bytes) => assert_eq!(digest_bytes(bytes), blob.digest),
            UploadData::File(_) => panic!("a directory is in memory"),
        }
    }
    for i in 1..uploads.len() {
        assert!(uploads[i - 1].0.hash < uploads[i].0.hash);
    }
}

#[test]
fn empty_tree_has_the_empty_message() {
    let builder = DirBuilder::new();
    let mut uploads: UploadMap = Vec::new();
    assert_eq!(builder.finalize(&mut uploads), digest_bytes(&[]));
    assert_eq!(uploads.len(), 1);
}

#[test]
fn names_are_ordered_by_code_points() {
    let mut builder = DirBuilder::new();
    for name in ["b", "a", "\u{10000}", "\u{ffff}", "aa", "A"] {
        builder.insert_file(name, file("h", 1, false)).unwrap();
    }
    let names: Vec<&str> = builder.files.iter().map(|(name, _)| name.as_str()).collect();
    assert_eq!(names, vec!["A", "a", "aa", "b", "\u{ffff}", "\u{10000}"]);
}

fn command(arguments: &[&str]) -> Command {
    Command {
        arguments: arguments.iter().map(|word| word.to_string()).collect(),
        environment_variables: vec![("A".to_owned(), "".to_owned())],
        platform: Vec::new(),
        working_directory: "w".to_owned(),
        output_paths: vec!["o".to_owned()],
        output_directory_format: 2,
    }
}

#[test]
fn commands_and_actions_are_encoded_field_by_field() {
    assert_eq!(
        command(&["a", ""]).encode_to_vec(),
        vec![
            0x0a, 0x01, b'a', 0x0a, 0x00, 0x12, 0x03, 0x0a, 0x01, b'A', 0x2a, 0x00, 0x32, 0x01,
            b'w', 0x3a, 0x01, b'o', 0x48, 0x02
        ]
    );
    let action = Action {
        command_digest: digest("c", 1),
        input_root_digest: digest("r", -1),
        do_not_cache: true,
        platform: vec![("k".to_owned(), "v".to_owned())],
    };
    assert_eq!(
        action.encode_to_vec(),
        vec![
            0x0a, 0x05, 0x0a, 0x01, b'c', 0x10, 0x01, 0x12, 0x0e, 0x0a, 0x01, b'r', 0x10, 0xff,
            0xff, 0xff, 0xff, 0xff, 0xff, 0xff, 0xff, 0xff, 0x01, 0x38, 0x01, 0x52, 0x08, 0x0a,
            0x06, 0x0a, 0x01, b'k', 0x12, 0x01, b'v'
        ]
    );
}

#[test]
fn different_messages_have_different_encodings() {
    let one = command(&["a", "b"]).encode_to_vec();
    let two = command(&["ab"]).encode_to_vec();
    let three = command(&["b", "a"]).encode_to_vec();
    assert_ne!(one, two);
    assert_ne!(one, three);
    assert_ne!(two, three);
    let with_file = Directory {
        files: vec![FileNode { name: "x".to_owned(), digest: digest("", 0), is_executable: false }],
        directories: Vec::new(),
        symlinks: Vec::new(),
    };
    let with_directory = Directory {
        files: Vec::new(),
        directories: vec![DirectoryNode { name: "x".to_owned(), digest: digest("", 0) }],
        symlinks: Vec::new(),
    };
    assert_ne!(with_file.encode_to_vec(), with_directory.encode_to_vec());
}
