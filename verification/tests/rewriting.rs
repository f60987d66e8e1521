use rbe::disk::{Disk, Fact, FileContent, FsNode};
use rbe::environment::{build_expected_outputs, rewrite_envs};
use rbe::error::Error;
use rbe::local_path::LocalPath;
use rbe::mapper::PathMapper;
use rbe::os_text::{os_to_utf8, OsText};
use rbe::rewrite::{
    rewrite_args, rewrite_codegen_arg, rewrite_env_value, rewrite_named_path_value,
    rewrite_remap_path_prefix, rewrite_search_path_value,
};

fn path(text: &str) -> LocalPath {
    LocalPath::from_text(text)
}

fn text(s: &str) -> OsText {
    OsText { raw: s.as_bytes().to_vec(), shown: format!("{s:?}") }
}

fn fact(at: &str, is_dir: bool) -> Fact {
    Fact {
        path: path(at),
        exists: true,
        is_dir,
        is_file: !is_dir,
        node: if is_dir {
            FsNode::Directory(Vec::new(), None)
        } else {
            FsNode::File(FileContent::Inline(at.as_bytes().to_vec()), 0o644)
        },
    }
}

fn disk() -> Disk {
    Disk {
        facts: vec![
            fact("/w", true),
            fact("/w/src/lib.rs", false),
            fact("/w/deps", true),
            fact("/w/target/deps", true),
            fact("/w/target/deps/libdep.rlib", false),
            fact("/sys", true),
            fact("/w/ld", false),
        ],
    }
}

fn mapper() -> PathMapper {
    PathMapper::new(path("/w"), path("/w/target"), path("/w/build"), path("/sys"), Vec::new())
}

fn failure(message: &str) -> Error {
    Error { message: message.to_owned(), causes: Vec::new() }
}

fn args(words: &[&str]) -> Vec<OsText> {
    words.iter().map(|word| text(word)).collect()
}

fn rewritten(words: &[&str]) -> Result<Vec<String>, Error> {
    rewrite_args(&mut mapper(), &disk(), &args(words))
}

#[test]
fn arguments_are_rewritten() {
    let result = rewritten(&[
        "--crate-name",
        "demo",
        "src/lib.rs",
        "--out-dir",
        "/w/target/out",
        "-o",
        "/w/x.o",
        "--extern",
        "dep=/w/target/deps/libdep.rlib",
        "-L",
        "dependency=/w/target/deps",
        "-C",
        "incremental=/w/target/incremental",
        "-C",
        "linker=/w/ld",
        "-C",
        "opt-level=3",
        "--sysroot",
        "/sys",
        "--sysroot=/sys",
        "--remap-path-prefix=/w=/src",
        "--edition=2021",
    ]);
    let expected: Vec<String> = [
        "--crate-name",
        "demo",
        "src/lib.rs",
        "--out-dir",
        "target/out",
        "-o",
        "x.o",
        "--extern",
        "dep=target/deps/libdep.rlib",
        "-L",
        "dependency=target/deps",
        "-C",
        "linker=ld",
        "-C",
        "opt-level=3",
        "--sysroot",
        ".cargo-rbe/toolchain",
        "--sysroot=.cargo-rbe/toolchain",
        "--remap-path-prefix=.=/src",
        "--edition=2021",
    ]
    .iter()
    .map(|word| word.to_string())
    .collect();
    assert_eq!(result, Ok(expected));
}

#[test]
fn flags_need_their_values() {
    assert_eq!(
        rewritten(&["--out-dir"]),
        Err(failure("expected a value after a path-bearing rustc flag"))
    );
    assert_eq!(
        rewritten(&["-o"]),
        Err(failure("expected a value after a path-bearing rustc flag"))
    );
    assert_eq!(rewritten(&["--extern"]), Err(failure("expected a value after `--extern`")));
    assert_eq!(rewritten(&["-L"]), Err(failure("expected a value after `-L`")));
    assert_eq!(rewritten(&["-C"]), Err(failure("expected a value after `-C`")));
    assert_eq!(rewritten(&["--sysroot"]), Err(failure("expected a value after `--sysroot`")));
}

#[test]
fn arguments_must_be_utf8() {
    let bad = OsText { raw: vec![b'a', 0xff], shown: "\"a\\xFF\"".to_owned() };
    assert_eq!(
        os_to_utf8(&bad),
        Err(failure("remote execution requires UTF-8, found `\"a\\xFF\"`"))
    );
    let words = vec![text("fine"), bad];
    assert_eq!(
        rewrite_args(&mut mapper(), &disk(), &words),
        Err(failure("remote execution requires UTF-8, found `\"a\\xFF\"`"))
    );
    assert_eq!(os_to_utf8(&text("h\u{e9}llo")), Ok("h\u{e9}llo".to_owned()));
}

#[test]
fn plain_arguments_are_unchanged() {
    let words = ["--emit=dep-info,link", "-A", "warnings", "nowhere/else"];
    let expected: Vec<String> = words.iter().map(|word| word.to_string()).collect();
    let mut mapper = mapper();
    assert_eq!(rewrite_args(&mut mapper, &disk(), &args(&words)), Ok(expected));
    assert!(mapper.uploads.is_empty());
}

#[test]
fn only_incremental_flags_go() {
    let words = ["-C", "incremental=x", "a", "-C", "incremental=y", "-C", "debuginfo=2"];
    assert_eq!(
        rewritten(&words),
        Ok(vec!["a".to_owned(), "-C".to_owned(), "debuginfo=2".to_owned()])
    );
}

#[test]
fn incremental_flag_leaves_the_mapping_as_it_would_be() {
    let words = ["src/lib.rs", "-L", "dependency=/w/target/deps"];
    let missing = ["src/lib.rs", "-L"];
    for rest in [&words[..], &missing[..]] {
        let mut led = vec!["-C", "incremental=/w/target/incremental"];
        led.extend_from_slice(rest);
        let mut one = mapper();
        let mut two = mapper();
        assert_eq!(
            rewrite_args(&mut one, &disk(), &args(&led)),
            rewrite_args(&mut two, &disk(), &args(rest))
        );
        assert_eq!(format!("{one:?}"), format!("{two:?}"));
        assert_eq!(one.uploads.len(), 1);
    }
}

#[test]
fn named_paths_split_at_the_last_equals_sign() {
    let mut mapper = mapper();
    let disk = disk();
    assert_eq!(
        rewrite_named_path_value(&mut mapper, &disk, "priv:dep=/w/target/deps/libdep.rlib"),
        Ok("priv:dep=target/deps/libdep.rlib".to_owned())
    );
    assert_eq!(rewrite_named_path_value(&mut mapper, &disk, "std"), Ok("std".to_owned()));
    assert_eq!(
        rewrite_named_path_value(&mut mapper, &disk, "dep=/nowhere"),
        Ok("dep=/nowhere".to_owned())
    );
}

#[test]
fn search_paths_can_lack_a_kind() {
    let mut mapper = mapper();
    let disk = disk();
    assert_eq!(
        rewrite_search_path_value(&mut mapper, &disk, "/w/target/deps"),
        Ok("target/deps".to_owned())
    );
    assert_eq!(
        rewrite_search_path_value(&mut mapper, &disk, "native=/nowhere"),
        Ok("native=/nowhere".to_owned())
    );
}

#[test]
fn codegen_paths_are_linkers_and_link_arguments() {
    let mut mapper = mapper();
    let disk = disk();
    assert_eq!(
        rewrite_codegen_arg(&mut mapper, &disk, "link-arg=/w/ld"),
        Ok("link-arg=ld".to_owned())
    );
    assert_eq!(
        rewrite_codegen_arg(&mut mapper, &disk, "linker=cc"),
        Ok("linker=cc".to_owned())
    );
    assert_eq!(
        rewrite_codegen_arg(&mut mapper, &disk, "panic=abort"),
        Ok("panic=abort".to_owned())
    );
}

#[test]
fn remapping_needs_both_sides() {
    let mut mapper = mapper();
    let disk = disk();
    assert_eq!(
        rewrite_remap_path_prefix(&mut mapper, &disk, "/w"),
        Err(failure("invalid `--remap-path-prefix` argument"))
    );
    assert_eq!(
        rewrite_remap_path_prefix(&mut mapper, &disk, "/nowhere=/a=b"),
        Ok("--remap-path-prefix=/nowhere=/a=b".to_owned())
    );
    assert!(mapper.uploads.is_empty());
}

#[test]
fn environment_values_are_paths_or_search_paths() {
    let mut mapper = mapper();
    let disk = disk();
    assert_eq!(rewrite_env_value(&mut mapper, &disk, "/w/deps"), Ok("deps".to_owned()));
    assert_eq!(
        rewrite_env_value(&mut mapper, &disk, "/w/deps:/w/target/deps"),
        Ok("deps:target/deps".to_owned())
    );
    assert_eq!(
        rewrite_env_value(&mut mapper, &disk, "/w/deps:/nowhere"),
        Ok("/w/deps:/nowhere".to_owned())
    );
    assert_eq!(rewrite_env_value(&mut mapper, &disk, "1.2.3"), Ok("1.2.3".to_owned()));
    assert_eq!(rewrite_env_value(&mut mapper, &disk, ""), Ok("".to_owned()));
}

#[test]
fn empty_value_is_the_working_directory_where_that_is_there() {
    let mut mapper = mapper();
    let mut disk = disk();
    disk.facts.push(fact("/w/", true));
    assert_eq!(rewrite_env_value(&mut mapper, &disk, ""), Ok(".".to_owned()));
}

#[test]
fn environment_is_sorted_and_unset_names_go() {
    let envs = vec![
        ("Z".to_owned(), Some(text("last"))),
        ("B".to_owned(), None),
        ("A".to_owned(), Some(text("/w/deps"))),
    ];
    assert_eq!(
        rewrite_envs(&mut mapper(), &disk(), &envs),
        Ok(vec![
            ("A".to_owned(), "deps".to_owned()),
            ("Z".to_owned(), "last".to_owned())
        ])
    );
    let bad = vec![(
        "A".to_owned(),
        Some(OsText { raw: vec![0xff], shown: "\"\\xFF\"".to_owned() }),
    )];
    assert_eq!(
        rewrite_envs(&mut mapper(), &disk(), &bad),
        Err(failure("remote execution requires UTF-8, found `\"\\xFF\"`"))
    );
}

#[test]
fn outputs_are_expected_by_their_spelling() {
    let outputs = vec![path("/w/target/b.rlib"), path("/w/target/a.d")];
    let table = build_expected_outputs(&mut mapper(), &disk(), &outputs).unwrap();
    let names: Vec<&str> = table.iter().map(|(name, _)| name.as_str()).collect();
    assert_eq!(names, vec!["target/a.d", "target/b.rlib"]);
    assert_eq!(table[0].1.raw, b"/w/target/a.d".to_vec());
    match build_expected_outputs(&mut mapper(), &disk(), &vec![path("/w")]) {
        Err(e) => {
            assert_eq!(e, failure("unexpected output path at the remote working directory root"))
        }
        Ok(_) => panic!("the working directory is no output"),
    }
}
