use rbe::config::{Host, Invocation, RemoteBuildConfig, RemoteExecutorContext};
use rbe::digest::{digest_bytes, short_digest_of_path, Digest};
use rbe::disk::{
    digest_file, is_executable, reads_inline, set_executable, Disk, Fact, FileContent, FsNode,
};
use rbe::error::Error;
use rbe::executor::{AfterRemote, RemoteExecutor};
use rbe::local_path::LocalPath;
use rbe::messages::{Action, Command};
use rbe::os_text::OsText;
use rbe::platform::{default_arch, default_os_family, platform_from_config};
use rbe::prepare::PreparedCommand;
use rbe::probes::probe_paths;
use rbe::program::resolve_program_path;
use rbe::uploads::UploadData;

fn path(text: &str) -> LocalPath {
    LocalPath::from_text(text)
}

fn text(s: &str) -> OsText {
    OsText { raw: s.as_bytes().to_vec(), shown: format!("{s:?}") }
}

fn config() -> RemoteBuildConfig {
    RemoteBuildConfig {
        endpoint: "http://localhost:1".to_owned(),
        instance_name: "main".to_owned(),
        remote_cache: true,
        api_key: None,
        headers: Vec::new(),
        exec_properties: vec![("Pool".to_owned(), "big".to_owned())],
        fallback_local: false,
    }
}

fn host() -> Host {
    Host {
        os: "linux".to_owned(),
        arch: "x86_64".to_owned(),
        path: Some(b"/none:/tools/bin".to_vec()),
        exe_extension: Vec::new(),
    }
}

fn context() -> RemoteExecutorContext {
    RemoteExecutorContext {
        rustc_path: path("rustc"),
        target_dir: path("/w/target"),
        build_dir: path("/w/build"),
        sysroot: path("/tools"),
        package_root: path("/w"),
        outputs: vec![path("/w/target/libdemo.rlib")],
    }
}

fn invocation() -> Invocation {
    Invocation {
        program: path("rustc"),
        args: vec![text("src/lib.rs"), text("--out-dir"), text("/w/target")],
        envs: vec![("NAME".to_owned(), Some(text("demo")))],
        cwd: Some(path("/w")),
    }
}

fn file(at: &str, bytes: &[u8], mode: u32) -> Fact {
    Fact {
        path: path(at),
        exists: true,
        is_dir: false,
        is_file: true,
        node: FsNode::File(FileContent::Inline(bytes.to_vec()), mode),
    }
}

fn disk() -> Disk {
    Disk {
        facts: vec![
            file("/tools/bin/rustc", b"compiler", 0o755),
            file("/w/src/lib.rs", b"abc", 0o644),
            Fact {
                path: path("/w"),
                exists: true,
                is_dir: true,
                is_file: false,
                node: FsNode::Directory(Vec::new(), None),
            },
        ],
    }
}

fn package() -> FsNode {
    FsNode::Directory(
        vec![(
            b"src".to_vec(),
            FsNode::Directory(
                vec![(
                    b"lib.rs".to_vec(),
                    FsNode::File(FileContent::Inline(b"abc".to_vec()), 0o644),
                )],
                None,
            ),
        )],
        None,
    )
}

fn platform() -> Vec<(String, String)> {
    vec![
        ("Arch".to_owned(), "amd64".to_owned()),
        ("OSFamily".to_owned(), "linux".to_owned()),
        ("Pool".to_owned(), "big".to_owned()),
    ]
}

fn holds(prepared: &PreparedCommand, digest: &Digest) -> bool {
    prepared.uploads.iter().any(|(_, blob)| blob.digest == *digest)
}

fn failure(message: &str) -> Error {
    Error { message: message.to_owned(), causes: Vec::new() }
}

#[test]
fn prepared_command_is_complete() {
    let executor = RemoteExecutor::new(config());
    let prepared =
        executor.prepare(&context(), &invocation(), &host(), &disk(), &package()).unwrap();
    let command = Command {
        arguments: vec![
            ".cargo-rbe/toolchain/bin/rustc".to_owned(),
            "src/lib.rs".to_owned(),
            "--out-dir".to_owned(),
            "target".to_owned(),
        ],
        environment_variables: vec![("NAME".to_owned(), "demo".to_owned())],
        platform: platform(),
        working_directory: "workspace".to_owned(),
        output_paths: vec!["target/libdemo.rlib".to_owned()],
        output_directory_format: 2,
    };
    let command_digest = digest_bytes(&command.encode_to_vec());
    assert!(holds(&prepared, &command_digest));
    assert!(holds(&prepared, &prepared.action_digest));
    assert!(holds(&prepared, &digest_bytes(b"abc")));
    assert!(holds(&prepared, &digest_bytes(b"compiler")));
    let roots: Vec<Digest> = prepared
        .uploads
        .iter()
        .map(|(_, blob)| blob.digest.clone())
        .filter(|root| {
            let action = Action {
                command_digest: command_digest.clone(),
                input_root_digest: root.clone(),
                do_not_cache: false,
                platform: platform(),
            };
            digest_bytes(&action.encode_to_vec()) == prepared.action_digest
        })
        .collect();
    assert_eq!(roots.len(), 1);
    assert_eq!(prepared.expected_outputs.len(), 1);
    assert_eq!(prepared.expected_outputs[0].0, "target/libdemo.rlib");
    assert_eq!(prepared.expected_outputs[0].1.raw, b"/w/target/libdemo.rlib".to_vec());
    for (_, blob) in &prepared.uploads {
        match &blob.data {
            UploadData::Bytes(bytes) => assert_eq!(digest_bytes(bytes), blob.digest),
            UploadData::File(_) => panic!("everything here is in memory"),
        }
    }
}

#[test]
fn uncached_execution_is_said_so() {
    let mut uncached = config();
    uncached.remote_cache = false;
    let one = PreparedCommand::new(
        &context(),
        &invocation(),
        &config(),
        &host(),
        &disk(),
        &package(),
    )
    .unwrap();
    let two = PreparedCommand::new(
        &context(),
        &invocation(),
        &uncached,
        &host(),
        &disk(),
        &package(),
    )
    .unwrap();
    assert_ne!(one.action_digest, two.action_digest);
}

#[test]
fn large_files_stay_where_they_are() {
    let mut disk = disk();
    let streamed = Digest { hash: "feed".to_owned(), size_bytes: 9_000_000 };
    disk.facts[1].node = FsNode::File(FileContent::Streamed(streamed.clone()), 0o644);
    let prepared = PreparedCommand::new(
        &context(),
        &invocation(),
        &config(),
        &host(),
        &disk,
        &FsNode::Directory(Vec::new(), None),
    )
    .unwrap();
    let blob = prepared.uploads.iter().find(|(_, blob)| blob.digest == streamed).unwrap();
    match &blob.1.data {
        UploadData::File(at) => assert_eq!(at.raw, b"/w/src/lib.rs".to_vec()),
        UploadData::Bytes(_) => panic!("a large file is not held in memory"),
    }
}

#[test]
fn preparation_can_fail() {
    let prepare = |context: &RemoteExecutorContext, cmd: &Invocation, host: &Host, disk: &Disk| {
        PreparedCommand::new(context, cmd, &config(), host, disk, &package()).map(|_| ())
    };
    let mut no_cwd = invocation();
    no_cwd.cwd = None;
    assert_eq!(
        prepare(&context(), &no_cwd, &host(), &disk()),
        Err(failure("remote execution requires a process cwd"))
    );
    let mut other = invocation();
    other.program = path("/bin/sh");
    assert_eq!(
        prepare(&context(), &other, &host(), &disk()),
        Err(failure("remote execution only supports direct rustc invocations"))
    );
    let mut no_path = host();
    no_path.path = None;
    assert_eq!(
        prepare(&context(), &invocation(), &no_path, &disk()),
        Err(failure("remote execution requires a PATH to resolve tool executables"))
    );
    let nothing = Disk { facts: Vec::new() };
    assert_eq!(
        prepare(&context(), &invocation(), &host(), &nothing),
        Err(failure("no executable for `rustc` found in PATH"))
    );
}

#[test]
fn programs_are_found_in_the_search_path() {
    let disk = disk();
    let found = resolve_program_path(&invocation(), &host(), &disk, &path("rustc")).unwrap();
    assert_eq!(found.raw, b"/tools/bin/rustc".to_vec());
    let given = resolve_program_path(&invocation(), &host(), &disk, &path("x/y")).unwrap();
    assert_eq!(given.raw, b"x/y".to_vec());
    let mut explicit = invocation();
    explicit.envs.push(("PATH".to_owned(), Some(text("/nowhere"))));
    assert_eq!(
        resolve_program_path(&explicit, &host(), &disk, &path("rustc")).map(|_| ()),
        Err(failure("no executable for `rustc` found in PATH"))
    );
    let mut unset = invocation();
    unset.envs.push(("PATH".to_owned(), None));
    assert!(resolve_program_path(&unset, &host(), &disk, &path("rustc")).is_ok());
}

#[test]
fn programs_can_have_an_extension() {
    let mut windows = host();
    windows.exe_extension = b"exe".to_vec();
    let disk = Disk {
        facts: vec![
            file("/tools/bin/rustc.exe", b"compiler", 0o755),
            file("/tools/bin/cc.exe", b"other", 0o755),
            file("/tools/bin/cc", b"plain", 0o755),
        ],
    };
    let found = |host: &Host, program: &str| {
        resolve_program_path(&invocation(), host, &disk, &path(program)).map(|found| found.raw)
    };
    assert_eq!(found(&windows, "rustc"), Ok(b"/tools/bin/rustc.exe".to_vec()));
    assert_eq!(found(&windows, "rustc.old"), Ok(b"/tools/bin/rustc.exe".to_vec()));
    assert_eq!(found(&windows, "cc"), Ok(b"/tools/bin/cc".to_vec()));
    assert!(found(&host(), "rustc").is_err());
    let with = |text: &str| path(text).with_extension(&b"exe".to_vec()).raw;
    assert_eq!(with("/a/b.tar.gz/"), b"/a/b.tar.exe".to_vec());
    assert_eq!(with("/a/.hidden"), b"/a/.hidden.exe".to_vec());
    assert_eq!(with("/a/b."), b"/a/b.exe".to_vec());
    assert_eq!(with("/a/.."), b"/a/..".to_vec());
    assert_eq!(with("/"), b"/".to_vec());
    let mut probed = Vec::new();
    for probe in probe_paths(&context(), &invocation(), &windows, &disk) {
        probed.push(probe.path.raw);
    }
    assert!(probed.contains(&b"/none/rustc".to_vec()));
    assert!(probed.contains(&b"/none/rustc.exe".to_vec()));
    assert!(probed.contains(&b"/tools/bin/rustc.exe".to_vec()));
}

#[test]
fn platform_names_are_those_of_the_service() {
    assert_eq!(default_os_family("macos"), "darwin");
    assert_eq!(default_os_family("linux"), "linux");
    assert_eq!(default_os_family("windows"), "windows");
    assert_eq!(default_os_family("plan9"), "plan9");
    assert_eq!(default_arch("x86_64"), "amd64");
    assert_eq!(default_arch("aarch64"), "arm64");
    assert_eq!(default_arch("riscv64"), "riscv64");
}

#[test]
fn settings_override_the_platform() {
    let mut config = config();
    config.exec_properties = vec![
        ("OSFamily".to_owned(), "one".to_owned()),
        ("Aaa".to_owned(), "x".to_owned()),
        ("OSFamily".to_owned(), "two".to_owned()),
    ];
    assert_eq!(
        platform_from_config(&config, &host()),
        vec![
            ("Aaa".to_owned(), "x".to_owned()),
            ("Arch".to_owned(), "amd64".to_owned()),
            ("OSFamily".to_owned(), "two".to_owned())
        ]
    );
}

#[test]
fn probes_list_what_preparation_asks_about() {
    let list = |disk: &Disk| -> Vec<(String, bool)> {
        probe_paths(&context(), &invocation(), &host(), disk)
            .iter()
            .map(|probe| (String::from_utf8(probe.path.raw.clone()).unwrap(), probe.contents))
            .collect()
    };
    let listed = list(&disk());
    let expected: Vec<(String, bool)> = [
        ("/none/rustc", true),
        ("/tools/bin/rustc", true),
        ("/none/rustc", false),
        ("/tools/bin/rustc", false),
        ("/w", false),
        ("/w/src/lib.rs", true),
        ("/w/target", false),
        ("/w/demo", true),
        ("demo", false),
        ("/w/target/libdemo.rlib", false),
    ]
    .iter()
    .map(|(at, contents)| (at.to_string(), *contents))
    .collect();
    assert_eq!(listed, expected);
    let mut more = disk();
    more.facts.push(file("demo", b"x", 0o644));
    let with_search_path = list(&more);
    assert_eq!(with_search_path[8], ("demo".to_owned(), true));
    let paths = |probes: &Vec<(String, bool)>| -> Vec<String> {
        probes.iter().map(|(at, _)| at.clone()).collect()
    };
    assert_eq!(paths(&with_search_path), paths(&expected));
}

#[test]
fn knowledge_beyond_the_probes_changes_nothing() {
    let mut more = disk();
    more.facts.push(file("/unrelated", b"x", 0o644));
    let one = PreparedCommand::new(
        &context(),
        &invocation(),
        &config(),
        &host(),
        &disk(),
        &package(),
    )
    .unwrap();
    let two = PreparedCommand::new(
        &context(),
        &invocation(),
        &config(),
        &host(),
        &more,
        &package(),
    )
    .unwrap();
    assert_eq!(one.action_digest, two.action_digest);
    assert_eq!(one.uploads.len(), two.uploads.len());
}

#[test]
fn file_modes_and_sizes() {
    assert!(is_executable(0o100));
    assert!(is_executable(0o755));
    assert!(!is_executable(0o644));
    assert_eq!(set_executable(0o600, true), Some(0o755));
    assert_eq!(set_executable(0o4022, true), Some(0o4777));
    assert_eq!(set_executable(0o600, false), None);
    assert!(reads_inline(8 * 1024 * 1024));
    assert!(!reads_inline(8 * 1024 * 1024 + 1));
    let (digest, _) = digest_file(&FileContent::Inline(b"abc".to_vec()), &path("/f")).unwrap();
    assert_eq!(digest, digest_bytes(b"abc"));
}

#[test]
fn executor_decides_what_comes_after() {
    let strict = RemoteExecutor::new(config());
    assert_eq!(strict.after_remote(true), AfterRemote::Done);
    assert_eq!(strict.after_remote(false), AfterRemote::Fail);
    let mut lenient = config();
    lenient.fallback_local = true;
    let lenient = RemoteExecutor::new(lenient);
    assert_eq!(lenient.after_remote(true), AfterRemote::Done);
    assert_eq!(lenient.after_remote(false), AfterRemote::RunLocally);
    assert!(lenient.config().fallback_local);
    let context = context();
    assert!(strict.require_context(Some(&context)).is_ok());
    match strict.require_context(None) {
        Err(e) => assert_eq!(e, failure("remote execution requires an executor context")),
        Ok(_) => panic!("there is no context"),
    }
}

#[test]
fn program_outside_the_toolchain_gets_a_slot() {
    let mut context = context();
    context.sysroot = path("/other");
    let prepared = PreparedCommand::new(
        &context,
        &invocation(),
        &config(),
        &host(),
        &disk(),
        &package(),
    )
    .unwrap();
    let slot = short_digest_of_path(b"/tools/bin");
    let word = format!(".cargo-rbe/external/{slot}/rustc");
    let found = prepared.uploads.iter().any(|(_, blob)| match &blob.data {
        UploadData::Bytes(bytes) => {
            bytes.windows(word.len()).any(|window| window == word.as_bytes())
        }
        UploadData::File(_) => false,
    });
    assert!(found);
}
