use rbe::config::RemoteBuildConfig;
use rbe::digest::{digest_bytes, Digest};
use rbe::endpoint::{check_endpoint, connect_failure, endpoint_verdict};
use rbe::error::Error;
use rbe::execution::{Event, Execution, OperationResult, RemoteResult, Request};
use rbe::executor::{conclude, AfterRemote, Conclusion, RemoteExecutor};
use rbe::local_path::LocalPath;
use rbe::messages::encode_digest;
use rbe::outputs::{
    materialize_outputs, remove_existing_output, OutputStep, Removal,
};
use rbe::prepare::PreparedCommand;
use rbe::response::{ActionResult, OutputFile, OutputSymlink};
use rbe::transfer::{BlobReply, Fetch, Status, MAX_BATCH_BYTES};
use rbe::uploads::{add_blob, UploadData, UploadMap};

fn path(text: &str) -> LocalPath {
    LocalPath::from_text(text)
}

fn digest(hash: &str, size_bytes: i64) -> Digest {
    Digest { hash: hash.to_owned(), size_bytes }
}

fn failure(message: &str) -> Error {
    Error { message: message.to_owned(), causes: Vec::new() }
}

fn failure_by(message: &str, cause: &str) -> Error {
    Error { message: message.to_owned(), causes: vec![cause.to_owned()] }
}

fn status(code: i32, message: &str) -> Status {
    Status { code, message: message.to_owned() }
}

fn config() -> RemoteBuildConfig {
    RemoteBuildConfig {
        endpoint: "http://localhost:1".to_owned(),
        instance_name: "main".to_owned(),
        remote_cache: true,
        api_key: None,
        headers: Vec::new(),
        exec_properties: Vec::new(),
        fallback_local: false,
    }
}

fn prepared() -> PreparedCommand {
    let mut uploads: UploadMap = Vec::new();
    add_blob(&mut uploads, digest_bytes(b"action"), UploadData::Bytes(b"action".to_vec()));
    PreparedCommand {
        action_digest: digest_bytes(b"action"),
        uploads,
        expected_outputs: vec![
            ("out/a".to_owned(), path("/w/out/a")),
            ("out/b".to_owned(), path("/w/out/b")),
        ],
    }
}

fn field(tag: u8, bytes: &[u8]) -> Vec<u8> {
    let mut out = vec![tag * 8 + 2, bytes.len() as u8];
    out.extend_from_slice(bytes);
    out
}

fn start() -> (Execution, Request) {
    RemoteExecutor::new(config()).execute(prepared())
}

fn step(execution: Execution, event: Event) -> (Execution, Request) {
    execution.next(event).unwrap()
}

fn fails(execution: Execution, event: Event, expected: Error) {
    match execution.next(event) {
        Err(e) => assert_eq!(e, expected),
        Ok(_) => panic!("{expected:?} was expected"),
    }
}

fn uploading() -> Execution {
    let (execution, _) = start();
    step(execution, Event::Missing(vec![digest_bytes(b"action")])).0
}

fn starting() -> Execution {
    let (execution, _) = start();
    step(execution, Event::Missing(Vec::new())).0
}

fn polling() -> Execution {
    step(starting(), Event::Started).0
}

fn answer(result: &[u8]) -> Event {
    Event::Operation(true, Some(OperationResult::Response(field(1, result))))
}

#[test]
fn execution_runs_to_its_outcome() {
    let (execution, request) = start();
    assert!(matches!(request, Request::FindMissing(d) if d == vec![digest_bytes(b"action")]));
    let (execution, request) = step(execution, Event::Missing(vec![digest_bytes(b"action")]));
    assert!(matches!(
        request,
        Request::BatchUpdate(blobs) if blobs == vec![(digest_bytes(b"action"), b"action".to_vec())]
    ));
    let (execution, request) = step(execution, Event::Updated(vec![Some(status(0, ""))]));
    match request {
        Request::Execute(request) => {
            assert_eq!(request.instance_name, "main");
            assert!(!request.skip_cache_lookup);
            assert_eq!(request.action_digest, digest_bytes(b"action"));
            assert!(request.inline_stdout);
            assert!(request.inline_stderr);
        }
        other => panic!("{other:?} is not the request for the execution"),
    }
    let (execution, request) = step(execution, Event::Started);
    assert!(matches!(request, Request::Poll));
    let (execution, request) = step(execution, Event::Operation(false, None));
    assert!(matches!(request, Request::Poll));

    let file = [field(1, b"out/a"), field(2, &encode_digest(&digest("fa", 3))), vec![0x20, 1]].concat();
    let link = [field(1, b"out/b"), field(2, b"a")].concat();
    let result = [
        field(2, &file),
        vec![0x20, 4],
        field(5, b"printed"),
        field(8, &encode_digest(&digest("err", 5))),
        field(12, &link),
    ]
    .concat();
    let payload = [field(1, &result), field(3, &field(2, b"note"))].concat();
    let (execution, request) = step(
        execution,
        Event::Operation(true, Some(OperationResult::Response(payload))),
    );
    assert!(matches!(request, Request::BatchRead(d) if d == digest("err", 5)));
    let (execution, request) = step(
        execution,
        Event::Blobs(vec![BlobReply { status: None, data: b"error".to_vec() }]),
    );
    assert!(matches!(request, Request::Remove(at) if at.raw == b"/w/out/a".to_vec()));
    let (execution, request) = step(execution, Event::Done);
    assert!(matches!(request, Request::Remove(at) if at.raw == b"/w/out/b".to_vec()));
    let (execution, request) = step(execution, Event::Done);
    assert!(matches!(request, Request::CreateDir(at) if at.raw == b"/w/out".to_vec()));
    let (execution, request) = step(execution, Event::Done);
    assert!(matches!(request, Request::BatchRead(d) if d == digest("fa", 3)));
    let (execution, request) = step(
        execution,
        Event::Blobs(vec![BlobReply { status: None, data: b"abc".to_vec() }]),
    );
    assert!(matches!(
        request,
        Request::WriteFile(at, data, true) if at.raw == b"/w/out/a".to_vec() && data == b"abc".to_vec()
    ));
    let (execution, request) = step(execution, Event::Done);
    assert!(matches!(request, Request::CreateDir(_)));
    let (execution, request) = step(execution, Event::Done);
    assert!(matches!(
        request,
        Request::WriteSymlink(at, target) if at.raw == b"/w/out/b".to_vec() && target == "a"
    ));
    let (execution, request) = step(execution, Event::Done);
    match request {
        Request::Finish(result) => {
            assert_eq!(result.exit_code, 4);
            assert_eq!(result.stdout, b"printed".to_vec());
            assert_eq!(result.stderr, b"error".to_vec());
            assert_eq!(result.status.unwrap().message, "note");
        }
        other => panic!("{other:?} is not the outcome"),
    }
    fails(execution, Event::Done, failure("remote execution received an unexpected reply"));
}

#[test]
fn uncached_executions_skip_the_lookup() {
    let mut config = config();
    config.remote_cache = false;
    let (execution, _) = Execution::start(&config, prepared());
    let (_, request) = step(execution, Event::Missing(Vec::new()));
    assert!(matches!(request, Request::Execute(request) if request.skip_cache_lookup));
}

#[test]
fn nothing_to_send_goes_straight_to_the_execution() {
    let mut nothing = prepared();
    nothing.uploads = Vec::new();
    let (_, request) = Execution::start(&config(), nothing);
    assert!(matches!(request, Request::Execute(_)));
}

#[test]
fn files_and_streams_are_uploaded() {
    let mut prepared = prepared();
    let big = digest("big", MAX_BATCH_BYTES as i64 + 1);
    prepared.uploads = Vec::new();
    add_blob(&mut prepared.uploads, big.clone(), UploadData::File(path("/w/big")));
    let (execution, _) = Execution::start(&config(), prepared);
    let (execution, request) = step(execution, Event::Missing(vec![big.clone()]));
    assert!(matches!(request, Request::Load(at) if at.raw == b"/w/big".to_vec()));
    let data = vec![1; MAX_BATCH_BYTES as usize + 1];
    let (execution, request) = step(execution, Event::Loaded(data));
    assert!(matches!(
        request,
        Request::Write(d, data) if d == big && data.len() == MAX_BATCH_BYTES as usize + 1
    ));
    let (_, request) = step(execution, Event::Committed(big.size_bytes));
    assert!(matches!(request, Request::Execute(_)));
}

#[test]
fn failures_on_the_way_are_reported() {
    let (execution, _) = start();
    fails(
        execution,
        Event::Failed("down".to_owned()),
        failure_by("failed to query the remote CAS for missing blobs", "down"),
    );
    fails(
        uploading(),
        Event::Failed("down".to_owned()),
        failure_by("failed to upload blobs to the remote CAS", "down"),
    );
    fails(
        uploading(),
        Event::Updated(vec![Some(status(7, "no"))]),
        failure("remote CAS rejected blob upload with status 7: no"),
    );
    fails(
        starting(),
        Event::Failed("down".to_owned()),
        failure_by("failed to start remote execution", "down"),
    );
    fails(
        polling(),
        Event::Failed("down".to_owned()),
        failure_by("failed while polling remote execution", "down"),
    );
    fails(
        polling(),
        Event::Ended,
        failure("remote execution stream ended before completion"),
    );
    fails(
        polling(),
        Event::Operation(true, None),
        failure("remote execution completed without a response"),
    );
    fails(
        polling(),
        Event::Operation(true, Some(OperationResult::Error(status(4, "late")))),
        failure("remote execution operation failed with status 4: late"),
    );
    fails(
        polling(),
        Event::Operation(true, Some(OperationResult::Response(Vec::new()))),
        failure("remote execution response did not include an action result"),
    );
    fails(
        polling(),
        Event::Operation(true, Some(OperationResult::Response(vec![0x0a]))),
        failure_by(
            "failed to decode ExecuteResponse from operation payload",
            "failed to decode Protobuf message: ExecuteResponse.result: invalid varint",
        ),
    );
    fails(polling(), Event::Started, failure("remote execution received an unexpected reply"));
}

#[test]
fn failed_uploads_of_files_and_streams_are_reported() {
    let on_disk = || {
        let mut prepared = prepared();
        prepared.uploads = Vec::new();
        add_blob(&mut prepared.uploads, digest("big", 5), UploadData::File(path("/w/big")));
        let (execution, _) = Execution::start(&config(), prepared);
        step(execution, Event::Missing(vec![digest("big", 5)])).0
    };
    fails(on_disk(), Event::Failed("no entry".to_owned()), failure("no entry"));
    let data = vec![1; MAX_BATCH_BYTES as usize + 1];
    let (execution, _) = step(on_disk(), Event::Loaded(data.clone()));
    fails(
        execution,
        Event::Committed(4),
        failure("ByteStream committed 4 bytes for blob big, expected 5"),
    );
    let (execution, _) = step(on_disk(), Event::Loaded(data));
    fails(
        execution,
        Event::Failed("down".to_owned()),
        failure_by("failed to upload blob via ByteStream", "down"),
    );
}

#[test]
fn failed_downloads_are_reported() {
    let small = || step(polling(), answer(&field(6, &encode_digest(&digest("o", 5))))).0;
    fails(
        small(),
        Event::Failed("down".to_owned()),
        failure_by("failed to download blob from the remote CAS", "down"),
    );
    fails(
        small(),
        Event::Blobs(Vec::new()),
        failure("remote CAS returned no data for blob o"),
    );
    let large = || step(polling(), answer(&field(6, &encode_digest(&digest("o", -1)))));
    assert!(matches!(
        large().1,
        Request::Read(request) if request.resource_name == "main/blobs/sha256/o/-1"
    ));
    fails(
        large().0,
        Event::Failed("down".to_owned()),
        failure_by("failed to start ByteStream download", "down"),
    );
    fails(
        large().0,
        Event::Interrupted("cut".to_owned()),
        failure_by("failed while downloading from ByteStream", "cut"),
    );
    let (execution, request) =
        step(large().0, Event::Chunks(vec![b"a".to_vec(), b"b".to_vec()]));
    assert!(matches!(request, Request::Remove(_)));
    fails(execution, Event::Failed("busy".to_owned()), failure("busy"));
}

fn result() -> ActionResult {
    ActionResult {
        output_files: vec![
            OutputFile {
                path: "x".to_owned(),
                digest: None,
                is_executable: false,
                contents: b"old".to_vec(),
            },
            OutputFile {
                path: "x".to_owned(),
                digest: None,
                is_executable: true,
                contents: b"new".to_vec(),
            },
            OutputFile {
                path: "y".to_owned(),
                digest: None,
                is_executable: false,
                contents: Vec::new(),
            },
            OutputFile {
                path: "stray".to_owned(),
                digest: None,
                is_executable: false,
                contents: Vec::new(),
            },
        ],
        output_symlinks: vec![OutputSymlink { path: "y".to_owned(), target: "x".to_owned() }],
        exit_code: 0,
        stdout_raw: Vec::new(),
        stdout_digest: None,
        stderr_raw: Vec::new(),
        stderr_digest: None,
    }
}

#[test]
fn outputs_are_cleared_and_then_written() {
    let expected = vec![
        ("gone".to_owned(), path("/gone")),
        ("x".to_owned(), path("/d/x")),
        ("y".to_owned(), path("/")),
    ];
    let steps = materialize_outputs(&result(), &expected);
    assert_eq!(steps.len(), 6);
    assert!(matches!(&steps[0], OutputStep::Remove(at) if at.raw == b"/gone".to_vec()));
    assert!(matches!(&steps[1], OutputStep::Remove(at) if at.raw == b"/d/x".to_vec()));
    assert!(matches!(&steps[2], OutputStep::Remove(at) if at.raw == b"/".to_vec()));
    assert!(matches!(&steps[3], OutputStep::CreateDir(at) if at.raw == b"/d".to_vec()));
    assert!(matches!(
        &steps[4],
        OutputStep::File(at, Fetch::Have(data), true)
            if at.raw == b"/d/x".to_vec() && *data == b"new".to_vec()
    ));
    assert!(matches!(
        &steps[5],
        OutputStep::Symlink(at, target) if at.raw == b"/".to_vec() && target == "x"
    ));
}

#[test]
fn places_are_cleared_by_kind() {
    assert_eq!(remove_existing_output(false, true, false), Removal::Nothing);
    assert_eq!(remove_existing_output(true, true, false), Removal::Directory);
    assert_eq!(remove_existing_output(true, true, true), Removal::File);
    assert_eq!(remove_existing_output(true, false, false), Removal::File);
}

#[test]
fn conclusions_put_the_service_first() {
    let outcome = |exit_code: i32, status: Option<Status>| {
        conclude(&RemoteResult { exit_code, stdout: Vec::new(), stderr: Vec::new(), status })
    };
    assert!(matches!(outcome(0, None), Conclusion::Success));
    assert!(matches!(outcome(0, Some(status(0, "x"))), Conclusion::Success));
    assert!(matches!(outcome(101, None), Conclusion::ExitCode(101, text) if text == "exit code 101"));
    assert!(matches!(outcome(-1, None), Conclusion::ExitCode(-1, text) if text == "exit code -1"));
    assert!(matches!(
        outcome(1, Some(status(13, "internal"))),
        Conclusion::Refused(e) if e == failure("remote execution failed with status 13: internal")
    ));
}

#[test]
fn invalid_remote_endpoint_fails_without_fallback() {
    let mut config = config();
    config.endpoint = "not a url".to_owned();
    assert_eq!(
        check_endpoint(&config),
        Err(Error {
            message: "invalid `build.rbe.endpoint`".to_owned(),
            causes: vec!["invalid URI".to_owned(), "invalid uri character".to_owned()],
        })
    );
    let executor = RemoteExecutor::new(config);
    assert!(executor.check_endpoint().is_err());
    assert_eq!(executor.after_remote(false), AfterRemote::Fail);
}

#[test]
fn invalid_remote_endpoint_can_fall_back_to_local() {
    let mut config = config();
    config.endpoint = "not a url".to_owned();
    config.fallback_local = true;
    let executor = RemoteExecutor::new(config);
    let succeeded = executor.check_endpoint().is_ok();
    assert_eq!(executor.after_remote(succeeded), AfterRemote::RunLocally);
}

#[test]
fn endpoints_are_told_from_other_texts() {
    let fault = |endpoint: &str| {
        let mut config = config();
        config.endpoint = endpoint.to_owned();
        check_endpoint(&config).err().map(|e| e.causes[1].clone())
    };
    assert_eq!(fault("http://127.0.0.1:8980"), None);
    assert_eq!(fault("https://example.com"), None);
    assert_eq!(fault("unix:/run/service"), None);
    assert_eq!(fault(""), Some("empty string".to_owned()));
    assert_eq!(fault("http:///path"), Some("invalid format".to_owned()));
    assert_eq!(fault("http://a b"), Some("invalid uri character".to_owned()));
    assert_eq!(endpoint_verdict(Ok(())), Ok(()));
    let failed = connect_failure(&config(), vec!["a".to_owned(), "b".to_owned()]);
    assert_eq!(failed.message, "failed to connect to http://localhost:1");
    assert_eq!(failed.causes, vec!["a", "b"]);
}
