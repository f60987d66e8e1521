use rbe::digest::{digest_bytes, short_digest_of_path};
use rbe::disk::{Disk, Fact, FileContent, FsNode};
use rbe::error::Error;
use rbe::dir_builder::path_components;
use rbe::local_path::{join_remote, to_reapi_path, LocalPath};
use rbe::mapper::{join_execroot_path, to_command_path, PathMapper, AUX_ROOT, WORKDIR_NAME};
use rbe::sorted::{contains_key, get};

fn path(text: &str) -> LocalPath {
    LocalPath::from_text(text)
}

fn dir_fact(at: &str) -> Fact {
    Fact {
        path: path(at),
        exists: true,
        is_dir: true,
        is_file: false,
        node: FsNode::Directory(Vec::new(), None),
    }
}

fn file_fact(at: &str, bytes: &[u8], mode: u32) -> Fact {
    Fact {
        path: path(at),
        exists: true,
        is_dir: false,
        is_file: true,
        node: FsNode::File(FileContent::Inline(bytes.to_vec()), mode),
    }
}

fn empty_disk() -> Disk {
    Disk { facts: Vec::new() }
}

fn mapper(outputs: Vec<LocalPath>) -> PathMapper {
    PathMapper::new(path("/w/cwd"), path("/w/target"), path("/w/build"), path("/sys"), outputs)
}

#[test]
fn external_paths_share_the_same_execroot_slot() {
    let root = "/scratch/shared";
    let cwd = format!("{root}/cwd");
    let target_dir = format!("{root}/target");
    let build_dir = format!("{root}/build");
    let sysroot = format!("{root}/sysroot");
    let external_root = format!("{root}/external/dep");

    let disk = Disk {
        facts: [&cwd, &target_dir, &build_dir, &sysroot, &external_root]
            .iter()
            .map(|at| dir_fact(at))
            .collect(),
    };

    let mut mapper =
        PathMapper::new(path(&cwd), path(&target_dir), path(&build_dir), path(&sysroot), Vec::new());
    let first = mapper.execroot_path(&path(&external_root).join(&path("one.rs")), &disk);
    let second = mapper.execroot_path(&path(&external_root).join(&path("two.rs")), &disk);

    assert!(first.starts_with(&format!("{WORKDIR_NAME}/{AUX_ROOT}/external/")));
    assert_eq!(
        first.rsplit_once('/').map(|(prefix, _)| prefix),
        second.rsplit_once('/').map(|(prefix, _)| prefix)
    );
    let slot = short_digest_of_path(external_root.as_bytes());
    assert_eq!(first, format!("workspace/.cargo-rbe/external/{slot}/one.rs"));
}

#[test]
fn known_directories_have_their_places() {
    let mut mapper = mapper(Vec::new());
    let disk = empty_disk();
    assert_eq!(mapper.execroot_path(&path("/w/cwd"), &disk), "workspace");
    assert_eq!(mapper.execroot_path(&path("/w/cwd/src/lib.rs"), &disk), "workspace/src/lib.rs");
    assert_eq!(
        mapper.execroot_path(&path("/w/target/debug"), &disk),
        "workspace/.cargo-rbe/target-dir/debug"
    );
    assert_eq!(mapper.execroot_path(&path("/w/build"), &disk), "workspace/.cargo-rbe/build-dir");
    assert_eq!(
        mapper.execroot_path(&path("/sys/lib/x"), &disk),
        "workspace/.cargo-rbe/toolchain/lib/x"
    );
    assert!(mapper.external_roots.is_empty());
}

#[test]
fn prefixes_are_whole_components() {
    let mut mapper = mapper(Vec::new());
    let remote = mapper.execroot_path(&path("/w/cwd2/f"), &empty_disk());
    let slot = short_digest_of_path(b"/w/cwd2");
    assert_eq!(remote, format!("workspace/.cargo-rbe/external/{slot}/f"));
}

#[test]
fn external_directory_is_its_own_root() {
    let mut mapper = mapper(Vec::new());
    let disk = Disk { facts: vec![dir_fact("/else/dir")] };
    let slot = short_digest_of_path(b"/else/dir");
    assert_eq!(
        mapper.execroot_path(&path("/else/dir"), &disk),
        format!("workspace/.cargo-rbe/external/{slot}")
    );
    assert_eq!(
        mapper.execroot_path(&path("/else/dir/a/b"), &disk),
        format!("workspace/.cargo-rbe/external/{slot}/a/b")
    );
    assert_eq!(mapper.external_roots.len(), 1);
}

#[test]
fn remote_path_stays_when_the_local_one_changes() {
    let mut mapper = mapper(Vec::new());
    let before = mapper.execroot_path(&path("/else/thing"), &empty_disk());
    let disk = Disk { facts: vec![dir_fact("/else/thing")] };
    let after = mapper.execroot_path(&path("/else/thing"), &disk);
    assert_eq!(before, after);
    assert_eq!(mapper.external_roots.len(), 1);
}

#[test]
fn root_of_the_file_system_is_its_own_root() {
    let mut mapper = mapper(Vec::new());
    let slot = short_digest_of_path(b"/");
    assert_eq!(
        mapper.execroot_path(&path("/"), &empty_disk()),
        format!("workspace/.cargo-rbe/external/{slot}")
    );
}

#[test]
fn command_paths_are_relative_to_the_workspace() {
    assert_eq!(to_command_path("workspace"), ".");
    assert_eq!(to_command_path("workspace/a/b"), "a/b");
    assert_eq!(to_command_path("elsewhere/a"), "elsewhere/a");
    assert_eq!(to_command_path("workspace2"), "workspace2");
}

#[test]
fn relative_values_are_resolved_against_the_working_directory() {
    let mapper = mapper(Vec::new());
    assert_eq!(mapper.resolve("a/b").raw, b"/w/cwd/a/b".to_vec());
    assert_eq!(mapper.resolve("/x").raw, b"/x".to_vec());
    assert_eq!(mapper.resolve("").raw, b"/w/cwd/".to_vec());
}

#[test]
fn remote_spelling_drops_the_root() {
    assert_eq!(to_reapi_path(&path("/a/./b//../c")), "a/b/../c");
    assert_eq!(to_reapi_path(&path("./a")), "./a");
    assert_eq!(to_reapi_path(&path("")), "");
    assert_eq!(to_reapi_path(&LocalPath { raw: vec![b'a', 0xff] }), "a\u{fffd}");
    assert_eq!(join_execroot_path("", &b"x".to_vec()), "x");
    assert_eq!(join_execroot_path("base", &b"x".to_vec()), "base/x");
}

#[test]
fn remote_spelling_is_normal() {
    let spelled = |raw: &[u8]| to_reapi_path(&LocalPath { raw: raw.to_vec() });
    assert_eq!(spelled(b"//a///b/"), "a/b");
    assert_eq!(spelled(b"a\xff/\xfe./b"), "a\u{fffd}/\u{fffd}./b");
    assert_eq!(spelled(b"/"), "");
    let raws: [&[u8]; 8] =
        [b"//a///b/", b"./a/./b", b"a\xff/\xfe./b", b"..", b"/./..", b".", b"", b"h\xc3\xa9/x"];
    for raw in raws {
        let text = spelled(raw);
        assert!(!text.starts_with('/') && !text.ends_with('/') && !text.contains("//"));
        assert_eq!(path_components(&text).join("/"), text);
        assert_eq!(to_reapi_path(&path(&text)), text);
    }
}

#[test]
fn placing_is_by_components() {
    let rel = |text: &str| path(text).components();
    let one = join_remote("workspace", &rel("a/b"));
    assert_eq!(one, "workspace/a/b");
    assert_eq!(join_remote(&one, &rel("c")), join_remote("workspace", &rel("a/b/c")));
    assert_eq!(join_remote("workspace", &rel("")), "workspace");
    assert_eq!(path_components(&one), vec!["workspace", "a", "b"]);
    assert_eq!(to_command_path(&one), "a/b");
    assert_eq!(to_command_path(&join_remote("workspace", &rel(""))), ".");
}

#[test]
fn failed_input_leaves_what_came_before() {
    let mut mapper = mapper(Vec::new());
    let earlier = FsNode::File(FileContent::Inline(b"earlier".to_vec()), 0o644);
    mapper.add_local_path(&earlier, &path("/w/cwd/e"), "workspace/e", false).unwrap();
    let node = FsNode::Directory(
        vec![
            (b"a".to_vec(), FsNode::File(FileContent::Inline(b"abc".to_vec()), 0o644)),
            (b"b".to_vec(), FsNode::Unreadable("no entry".to_owned())),
            (b"c".to_vec(), FsNode::File(FileContent::Inline(b"never".to_vec()), 0o644)),
        ],
        None,
    );
    assert!(mapper.add_local_path(&node, &path("/w/cwd/d"), "workspace/d", false).is_err());
    let workspace = get(&mapper.tree.dirs, &"workspace".to_owned()).unwrap();
    assert!(contains_key(&workspace.files, &"e".to_owned()));
    let d = get(&workspace.dirs, &"d".to_owned()).unwrap();
    assert_eq!(d.files.len(), 1);
    assert_eq!(d.files[0].0, "a");
    let mut digests: Vec<_> = mapper.uploads.iter().map(|(_, blob)| blob.digest.clone()).collect();
    digests.sort_by(|x, y| x.hash.cmp(&y.hash));
    let mut expected = vec![digest_bytes(b"earlier"), digest_bytes(b"abc")];
    expected.sort_by(|x, y| x.hash.cmp(&y.hash));
    assert_eq!(digests, expected);
}

#[test]
fn file_without_a_name_leaves_its_blob() {
    let mut mapper = mapper(Vec::new());
    let node = FsNode::File(FileContent::Inline(b"abc".to_vec()), 0o644);
    assert_eq!(
        mapper.add_local_path(&node, &path("/w/cwd/f"), "", false),
        Err(Error {
            message: "remote file path must contain a file name".to_owned(),
            causes: Vec::new(),
        })
    );
    assert_eq!(mapper.uploads.len(), 1);
    assert_eq!(mapper.uploads[0].1.digest, digest_bytes(b"abc"));
    assert!(mapper.tree.files.is_empty());
}

fn package() -> FsNode {
    FsNode::Directory(
        vec![
            (b".git".to_vec(), FsNode::Directory(Vec::new(), None)),
            (b"target".to_vec(), FsNode::File(FileContent::Inline(b"skip".to_vec()), 0o644)),
            (
                b"src".to_vec(),
                FsNode::Directory(
                    vec![
                        (
                            b"lib.rs".to_vec(),
                            FsNode::File(FileContent::Inline(b"abc".to_vec()), 0o755),
                        ),
                        (b"out.o".to_vec(), FsNode::File(FileContent::Inline(vec![1]), 0o644)),
                        (b"link".to_vec(), FsNode::Symlink(path("../x"))),
                    ],
                    None,
                ),
            ),
        ],
        None,
    )
}

#[test]
fn package_tree_leaves_out_build_roots_outputs_and_git() {
    let mut mapper = PathMapper::new(
        path("/w"),
        path("/w/target"),
        path("/w/build"),
        path("/sys"),
        vec![path("/w/src/out.o")],
    );
    mapper.add_package_tree(&path("/w"), &package(), &empty_disk()).unwrap();
    let workspace = get(&mapper.tree.dirs, &"workspace".to_owned()).unwrap();
    assert!(workspace.files.is_empty());
    assert_eq!(workspace.dirs.len(), 1);
    let src = get(&workspace.dirs, &"src".to_owned()).unwrap();
    assert_eq!(src.files.len(), 1);
    assert_eq!(src.files[0].0, "lib.rs");
    assert_eq!(src.files[0].1.digest, digest_bytes(b"abc"));
    assert!(src.files[0].1.is_executable);
    assert_eq!(src.symlinks, vec![("link".to_owned(), "../x".to_owned())]);
    assert_eq!(mapper.uploads.len(), 1);
    assert_eq!(mapper.uploads[0].1.digest, digest_bytes(b"abc"));
}

#[test]
fn inputs_take_in_build_roots() {
    let mut mapper = PathMapper::new(
        path("/w"),
        path("/w/target"),
        path("/w/build"),
        path("/sys"),
        Vec::new(),
    );
    let disk = Disk {
        facts: vec![Fact {
            path: path("/w"),
            exists: true,
            is_dir: true,
            is_file: false,
            node: package(),
        }],
    };
    assert_eq!(mapper.map_input_command_path(&path("/w"), &disk).unwrap(), ".");
    let workspace = get(&mapper.tree.dirs, &"workspace".to_owned()).unwrap();
    assert!(contains_key(&workspace.files, &"target".to_owned()));
    assert!(!contains_key(&workspace.dirs, &".git".to_owned()));
}

#[test]
fn unreadable_inputs_are_reported() {
    let mut mapper = mapper(Vec::new());
    let disk = Disk {
        facts: vec![
            Fact {
                path: path("/w/cwd/gone"),
                exists: true,
                is_dir: false,
                is_file: false,
                node: FsNode::Unreadable("no entry".to_owned()),
            },
            Fact {
                path: path("/w/cwd/link"),
                exists: true,
                is_dir: false,
                is_file: false,
                node: FsNode::UnreadableLink("bad link".to_owned()),
            },
            Fact {
                path: path("/w/cwd/locked"),
                exists: true,
                is_dir: false,
                is_file: true,
                node: FsNode::File(FileContent::Unreadable("locked".to_owned()), 0),
            },
            Fact {
                path: path("/w/cwd/half"),
                exists: true,
                is_dir: true,
                is_file: false,
                node: FsNode::Directory(Vec::new(), Some("half read".to_owned())),
            },
        ],
    };
    assert_eq!(
        mapper.add_input_path(&path("/w/cwd/gone"), &disk),
        Err(Error {
            message: "failed to read metadata for `/w/cwd/gone`".to_owned(),
            causes: vec!["no entry".to_owned()],
        })
    );
    assert_eq!(
        mapper.add_input_path(&path("/w/cwd/link"), &disk),
        Err(Error {
            message: "failed to read symlink `/w/cwd/link`".to_owned(),
            causes: vec!["bad link".to_owned()],
        })
    );
    assert_eq!(
        mapper.add_input_path(&path("/w/cwd/locked"), &disk),
        Err(Error { message: "locked".to_owned(), causes: Vec::new() })
    );
    assert_eq!(
        mapper.add_input_path(&path("/w/cwd/half"), &disk),
        Err(Error { message: "half read".to_owned(), causes: Vec::new() })
    );
}

#[test]
fn input_is_spelled_by_its_place_and_uploaded() {
    let mut mapper = mapper(Vec::new());
    let disk = Disk { facts: vec![file_fact("/else/dep.rlib", b"abc", 0o644)] };
    let slot = short_digest_of_path(b"/else");
    let text = mapper.map_input_command_path(&path("/else/dep.rlib"), &disk).unwrap();
    assert_eq!(text, format!(".cargo-rbe/external/{slot}/dep.rlib"));
    assert_eq!(mapper.uploads.len(), 1);
    let root = mapper.root_digest();
    assert!(mapper.uploads.iter().any(|(_, blob)| blob.digest == root));
    assert_eq!(mapper.uploads.len(), 6);
}

#[test]
fn parents_and_names_follow_the_components() {
    assert_eq!(path("/a/b/").parent().unwrap().raw, b"/a".to_vec());
    assert_eq!(path("a").parent().unwrap().raw, b"".to_vec());
    assert!(path("/").parent().is_none());
    assert!(path("").parent().is_none());
    assert_eq!(path("/a/b/.").file_name().unwrap(), b"b".to_vec());
    assert!(path("/a/..").file_name().is_none());
    assert!(path("/a/b").same_path(&path("/a//b/")));
    assert!(path("/a/b").starts_with(&path("/a")));
    assert!(!path("/ab").starts_with(&path("/a")));
}
