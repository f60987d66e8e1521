//! The course of a remote execution: what is to be done next, from what has happened.
use vstd::prelude::*;

use crate::config::{ConfigView, RemoteBuildConfig};
use crate::digest::{Digest, DigestKey, DigestView};
use crate::error::{fail, fail_by, failure, failure_by, Error, ErrorView};
use crate::local_path::LocalPath;
use crate::names::download_name;
use crate::outputs::{
    materialize_outputs, output_plan, output_views, OutputStep, OutputStepView,
};
use crate::prepare::{PreparedCommand, PreparedView};
use crate::response::{response_of, unpack_execute_response, ActionResult, ActionResultView};
use crate::sorted::{entries, sorted};
use crate::tables::pair_paths;
use crate::transfer::{
    assemble, byte_views, check_batch, check_committed, committed_text, fetch_of, first_refusal,
    plan_fetch, read_blob, read_outcome, read_request, reply_views, status_message, status_text,
    status_view, status_views, BlobReply, BlobReplyView, Fetch, FetchView, ReadRequest, Status,
    StatusView,
};
use crate::upload::{
    digests_of, items, missing_query, note_missing, query, query_end, taken_up, upload_next,
    upload_start, with_digests, DigestSet, Item, StepView, UploadAction, UploadActionView,
    UploadStep, Uploader, UploaderView,
};
use crate::uploads::{blobs, BlobView, UploadMap};

verus! {

/// The outcome of a remote execution.
#[derive(Debug)]
pub struct RemoteResult {
    pub exit_code: i32,
    pub stdout: Vec<u8>,
    pub stderr: Vec<u8>,
    pub status: Option<Status>,
}

/// The content of a [`RemoteResult`].
#[verifier::ext_equal]
pub struct RemoteResultView {
    pub exit_code: i32,
    pub stdout: Seq<u8>,
    pub stderr: Seq<u8>,
    pub status: Option<StatusView>,
}

impl View for RemoteResult {
    type V = RemoteResultView;

    open spec fn view(&self) -> RemoteResultView {
        RemoteResultView {
            exit_code: self.exit_code,
            stdout: self.stdout@,
            stderr: self.stderr@,
            status: status_view(self.status),
        }
    }
}

/// The request to carry out an action.
#[derive(Debug)]
pub struct ExecuteRequest {
    pub instance_name: String,
    pub skip_cache_lookup: bool,
    pub action_digest: Digest,
    pub inline_stdout: bool,
    pub inline_stderr: bool,
}

/// The content of an [`ExecuteRequest`].
#[verifier::ext_equal]
pub struct ExecuteRequestView {
    pub instance_name: Seq<char>,
    pub skip_cache_lookup: bool,
    pub action_digest: DigestView,
    pub inline_stdout: bool,
    pub inline_stderr: bool,
}

impl View for ExecuteRequest {
    type V = ExecuteRequestView;

    open spec fn view(&self) -> ExecuteRequestView {
        ExecuteRequestView {
            instance_name: self.instance_name@,
            skip_cache_lookup: self.skip_cache_lookup,
            action_digest: self.action_digest@,
            inline_stdout: self.inline_stdout,
            inline_stderr: self.inline_stderr,
        }
    }
}

/// What is to be done next.
#[derive(Debug)]
pub enum Request {
    /// Ask which of these blobs the remote store lacks.
    FindMissing(Vec<Digest>),
    /// Read a local file.
    Load(LocalPath),
    /// Send these blobs in one request.
    BatchUpdate(Vec<(Digest, Vec<u8>)>),
    /// Stream this blob to the remote store.
    Write(Digest, Vec<u8>),
    /// Ask for the execution.
    Execute(ExecuteRequest),
    /// Wait for the next report of the execution.
    Poll,
    /// Ask for this blob.
    BatchRead(Digest),
    /// Stream a blob here.
    Read(ReadRequest),
    /// Remove what is at this path.
    Remove(LocalPath),
    /// Make this directory.
    CreateDir(LocalPath),
    /// Write this file, and make it executable where that is asked for.
    WriteFile(LocalPath, Vec<u8>, bool),
    /// Make a symbolic link with this target.
    WriteSymlink(LocalPath, String),
    /// Nothing: this is the outcome.
    Finish(RemoteResult),
}

/// The content of a [`Request`].
pub enum RequestView {
    FindMissing(Seq<DigestView>),
    Load(Seq<u8>),
    BatchUpdate(Seq<Item>),
    Write(DigestView, Seq<u8>),
    Execute(ExecuteRequestView),
    Poll,
    BatchRead(DigestView),
    Read(Seq<char>, i64, i64),
    Remove(Seq<u8>),
    CreateDir(Seq<u8>),
    WriteFile(Seq<u8>, Seq<u8>, bool),
    WriteSymlink(Seq<u8>, Seq<char>),
    Finish(RemoteResultView),
}

impl View for Request {
    type V = RequestView;

    open spec fn view(&self) -> RequestView {
        match self {
            Request::FindMissing(digests) => RequestView::FindMissing(digests_of(digests@)),
            Request::Load(path) => RequestView::Load(path@),
            Request::BatchUpdate(blobs) => RequestView::BatchUpdate(items(blobs@)),
            Request::Write(digest, data) => RequestView::Write(digest@, data@),
            Request::Execute(request) => RequestView::Execute(request@),
            Request::Poll => RequestView::Poll,
            Request::BatchRead(digest) => RequestView::BatchRead(digest@),
            Request::Read(request) => RequestView::Read(
                request.resource_name@,
                request.read_offset,
                request.read_limit,
            ),
            Request::Remove(path) => RequestView::Remove(path@),
            Request::CreateDir(path) => RequestView::CreateDir(path@),
            Request::WriteFile(path, data, executable) => RequestView::WriteFile(
                path@,
                data@,
                *executable,
            ),
            Request::WriteSymlink(path, target) => RequestView::WriteSymlink(path@, target@),
            Request::Finish(result) => RequestView::Finish(result@),
        }
    }
}

/// How an operation ended.
#[derive(Debug)]
pub enum OperationResult {
    /// With an answer, in its encoded form.
    Response(Vec<u8>),
    /// With a failure.
    Error(Status),
}

/// The content of an [`OperationResult`].
pub enum OperationResultView {
    Response(Seq<u8>),
    Error(StatusView),
}

impl View for OperationResult {
    type V = OperationResultView;

    open spec fn view(&self) -> OperationResultView {
        match self {
            OperationResult::Response(payload) => OperationResultView::Response(payload@),
            OperationResult::Error(status) => OperationResultView::Error(status@),
        }
    }
}

/// What has happened.
#[derive(Debug)]
pub enum Event {
    /// What was asked for could not be done, and why.
    Failed(String),
    /// A stream broke off, and why.
    Interrupted(String),
    /// The remote store lacks these blobs.
    Missing(Vec<Digest>),
    /// The file that was asked for was read.
    Loaded(Vec<u8>),
    /// The blobs were taken, with these statuses.
    Updated(Vec<Option<Status>>),
    /// The remote store kept so many bytes of a stream.
    Committed(i64),
    /// The execution was accepted.
    Started,
    /// The execution reported: whether it is done, and how it ended.
    Operation(bool, Option<OperationResult>),
    /// The reports ended.
    Ended,
    /// The blobs that were asked for.
    Blobs(Vec<BlobReply>),
    /// The pieces of a stream.
    Chunks(Vec<Vec<u8>>),
    /// What was asked for on the local file system was done.
    Done,
}

/// The content of an [`Event`].
pub enum EventView {
    Failed(Seq<char>),
    Interrupted(Seq<char>),
    Missing(Seq<DigestView>),
    Loaded(Seq<u8>),
    Updated(Seq<Option<StatusView>>),
    Committed(i64),
    Started,
    Operation(bool, Option<OperationResultView>),
    Ended,
    Blobs(Seq<BlobReplyView>),
    Chunks(Seq<Seq<u8>>),
    Done,
}

impl View for Event {
    type V = EventView;

    open spec fn view(&self) -> EventView {
        match self {
            Event::Failed(cause) => EventView::Failed(cause@),
            Event::Interrupted(cause) => EventView::Interrupted(cause@),
            Event::Missing(digests) => EventView::Missing(digests_of(digests@)),
            Event::Loaded(data) => EventView::Loaded(data@),
            Event::Updated(statuses) => EventView::Updated(status_views(statuses@)),
            Event::Committed(size) => EventView::Committed(*size),
            Event::Started => EventView::Started,
            Event::Operation(done, result) => EventView::Operation(
                *done,
                match result {
                    Some(r) => Some(r@),
                    None => None,
                },
            ),
            Event::Ended => EventView::Ended,
            Event::Blobs(replies) => EventView::Blobs(reply_views(replies@)),
            Event::Chunks(chunks) => EventView::Chunks(byte_views(chunks@)),
            Event::Done => EventView::Done,
        }
    }
}

/// What was sent last about the blobs.
#[derive(Debug)]
pub enum Sent {
    /// A file is being read.
    Load,
    /// Several blobs in one request.
    Batch,
    /// This blob as a stream.
    Stream(Digest),
}

/// The content of a [`Sent`].
pub enum SentView {
    Load,
    Batch,
    Stream(DigestView),
}

impl View for Sent {
    type V = SentView;

    open spec fn view(&self) -> SentView {
        match self {
            Sent::Load => SentView::Load,
            Sent::Batch => SentView::Batch,
            Sent::Stream(digest) => SentView::Stream(digest@),
        }
    }
}

/// A blob that was asked for.
#[derive(Debug)]
pub struct Awaited {
    pub digest: Digest,
    /// Whether it comes as a stream.
    pub streamed: bool,
}

/// The content of an [`Awaited`].
#[verifier::ext_equal]
pub struct AwaitedView {
    pub digest: DigestView,
    pub streamed: bool,
}

impl View for Awaited {
    type V = AwaitedView;

    open spec fn view(&self) -> AwaitedView {
        AwaitedView { digest: self.digest@, streamed: self.streamed }
    }
}

/// How far an execution has come.
#[derive(Debug)]
pub enum Stage {
    /// It is being found out what the remote store lacks, from this blob on.
    Finding(UploadMap, usize, DigestSet),
    /// Blobs are being sent.
    Uploading(Uploader, Sent),
    /// The execution was asked for.
    Starting,
    /// The execution is being waited for.
    Polling,
    /// What was printed is being fetched.
    Stdout(ActionResult, Option<Status>, Awaited),
    /// What was printed about errors is being fetched.
    Stderr(ActionResult, Option<Status>, Vec<u8>, Awaited),
    /// A file of the outputs is being fetched, and these steps come after it.
    Fetching(RemoteResult, LocalPath, bool, Awaited, Vec<OutputStep>),
    /// A step for the outputs is being done, and these come after it.
    Writing(RemoteResult, Vec<OutputStep>),
    /// All is done.
    Finished,
}

/// The content of a [`Stage`].
pub enum StageView {
    Finding(Seq<(DigestView, BlobView)>, int, Seq<(DigestView, ())>),
    Uploading(UploaderView, SentView),
    Starting,
    Polling,
    Stdout(ActionResultView, Option<StatusView>, AwaitedView),
    Stderr(ActionResultView, Option<StatusView>, Seq<u8>, AwaitedView),
    Fetching(RemoteResultView, Seq<u8>, bool, AwaitedView, Seq<OutputStepView>),
    Writing(RemoteResultView, Seq<OutputStepView>),
    Finished,
}

impl View for Stage {
    type V = StageView;

    open spec fn view(&self) -> StageView {
        match self {
            Stage::Finding(uploads, from, missing) => StageView::Finding(
                blobs(uploads@),
                *from as int,
                entries(missing@),
            ),
            Stage::Uploading(uploader, sent) => StageView::Uploading(uploader@, sent@),
            Stage::Starting => StageView::Starting,
            Stage::Polling => StageView::Polling,
            Stage::Stdout(result, status, awaited) => StageView::Stdout(
                result@,
                status_view(*status),
                awaited@,
            ),
            Stage::Stderr(result, status, stdout, awaited) => StageView::Stderr(
                result@,
                status_view(*status),
                stdout@,
                awaited@,
            ),
            Stage::Fetching(result, path, executable, awaited, steps) => StageView::Fetching(
                result@,
                path@,
                *executable,
                awaited@,
                output_views(steps@),
            ),
            Stage::Writing(result, steps) => StageView::Writing(result@, output_views(steps@)),
            Stage::Finished => StageView::Finished,
        }
    }
}

/// What does not change in the course of an execution.
#[derive(Debug)]
pub struct Plan {
    pub instance_name: String,
    pub remote_cache: bool,
    pub action_digest: Digest,
    pub expected_outputs: Vec<(String, LocalPath)>,
}

/// The content of a [`Plan`].
#[verifier::ext_equal]
pub struct PlanView {
    pub instance_name: Seq<char>,
    pub remote_cache: bool,
    pub action_digest: DigestView,
    pub expected_outputs: Seq<(Seq<char>, Seq<u8>)>,
}

impl View for Plan {
    type V = PlanView;

    open spec fn view(&self) -> PlanView {
        PlanView {
            instance_name: self.instance_name@,
            remote_cache: self.remote_cache,
            action_digest: self.action_digest@,
            expected_outputs: pair_paths(self.expected_outputs@),
        }
    }
}

/// A remote execution.
#[derive(Debug)]
pub struct Execution {
    plan: Plan,
    stage: Stage,
}

/// The content of an [`Execution`].
pub struct ExecutionView {
    pub plan: PlanView,
    pub stage: StageView,
}

impl View for Execution {
    type V = ExecutionView;

    closed spec fn view(&self) -> ExecutionView {
        ExecutionView { plan: self.plan@, stage: self.stage@ }
    }
}

/// What an execution has come to, and what is to be done next.
pub type Move = (StageView, RequestView);

/// The request for the execution.
pub open spec fn execute_request(p: PlanView) -> ExecuteRequestView {
    ExecuteRequestView {
        instance_name: p.instance_name,
        skip_cache_lookup: !p.remote_cache,
        action_digest: p.action_digest,
        inline_stdout: true,
        inline_stderr: true,
    }
}

/// The next thing to send, or the request for the execution where all has been sent.
pub open spec fn to_uploading(p: PlanView, u: UploaderView) -> Move {
    let (v, action) = upload_next(u);
    match action {
        UploadActionView::Send(StepView::Batch(blobs)) => (
            StageView::Uploading(v, SentView::Batch),
            RequestView::BatchUpdate(blobs),
        ),
        UploadActionView::Send(StepView::Stream(digest, data)) => (
            StageView::Uploading(v, SentView::Stream(digest)),
            RequestView::Write(digest, data),
        ),
        UploadActionView::Load(path) => (
            StageView::Uploading(v, SentView::Load),
            RequestView::Load(path),
        ),
        UploadActionView::Done => (StageView::Starting, RequestView::Execute(execute_request(p))),
    }
}

/// The next question about what the remote store lacks, or the sending of what it lacks where all
/// has been asked.
pub open spec fn to_finding(
    p: PlanView,
    u: Seq<(DigestView, BlobView)>,
    from: int,
    missing: Seq<(DigestView, ())>,
) -> Move {
    if from < u.len() {
        (StageView::Finding(u, from, missing), RequestView::FindMissing(query(u, from)))
    } else {
        to_uploading(p, upload_start(u, missing))
    }
}

/// The next step for the outputs, or the outcome where all are done.
pub open spec fn to_writing(
    p: PlanView,
    result: RemoteResultView,
    steps: Seq<OutputStepView>,
) -> Move {
    if steps.len() == 0 {
        (StageView::Finished, RequestView::Finish(result))
    } else {
        let rest = steps.skip(1);
        match steps[0] {
            OutputStepView::Remove(path) => (
                StageView::Writing(result, rest),
                RequestView::Remove(path),
            ),
            OutputStepView::CreateDir(path) => (
                StageView::Writing(result, rest),
                RequestView::CreateDir(path),
            ),
            OutputStepView::Symlink(path, target) => (
                StageView::Writing(result, rest),
                RequestView::WriteSymlink(path, target),
            ),
            OutputStepView::File(path, FetchView::Have(data), executable) => (
                StageView::Writing(result, rest),
                RequestView::WriteFile(path, data, executable),
            ),
            OutputStepView::File(path, FetchView::Batch(digest), executable) => (
                StageView::Fetching(
                    result,
                    path,
                    executable,
                    AwaitedView { digest, streamed: false },
                    rest,
                ),
                RequestView::BatchRead(digest),
            ),
            OutputStepView::File(path, FetchView::Stream(digest), executable) => (
                StageView::Fetching(
                    result,
                    path,
                    executable,
                    AwaitedView { digest, streamed: true },
                    rest,
                ),
                RequestView::Read(download_name(p.instance_name, digest), 0, 0),
            ),
        }
    }
}

/// The outcome, and the first step for the outputs.
pub open spec fn to_outputs(
    p: PlanView,
    result: ActionResultView,
    status: Option<StatusView>,
    stdout: Seq<u8>,
    stderr: Seq<u8>,
) -> Move {
    to_writing(
        p,
        RemoteResultView { exit_code: result.exit_code, stdout, stderr, status },
        output_plan(result, p.expected_outputs),
    )
}

/// The fetching of what was printed about errors, where it is not here.
pub open spec fn to_stderr(
    p: PlanView,
    result: ActionResultView,
    status: Option<StatusView>,
    stdout: Seq<u8>,
) -> Move {
    match fetch_of(result.stderr_raw, result.stderr_digest) {
        FetchView::Have(stderr) => to_outputs(p, result, status, stdout, stderr),
        FetchView::Batch(digest) => (
            StageView::Stderr(result, status, stdout, AwaitedView { digest, streamed: false }),
            RequestView::BatchRead(digest),
        ),
        FetchView::Stream(digest) => (
            StageView::Stderr(result, status, stdout, AwaitedView { digest, streamed: true }),
            RequestView::Read(download_name(p.instance_name, digest), 0, 0),
        ),
    }
}

/// The fetching of what was printed, where it is not here.
pub open spec fn to_stdout(
    p: PlanView,
    result: ActionResultView,
    status: Option<StatusView>,
) -> Move {
    match fetch_of(result.stdout_raw, result.stdout_digest) {
        FetchView::Have(stdout) => to_stderr(p, result, status, stdout),
        FetchView::Batch(digest) => (
            StageView::Stdout(result, status, AwaitedView { digest, streamed: false }),
            RequestView::BatchRead(digest),
        ),
        FetchView::Stream(digest) => (
            StageView::Stdout(result, status, AwaitedView { digest, streamed: true }),
            RequestView::Read(download_name(p.instance_name, digest), 0, 0),
        ),
    }
}

/// The bytes of a blob that was asked for, from what has happened.
pub open spec fn fetched(a: AwaitedView, e: EventView) -> Result<Seq<u8>, ErrorView> {
    if a.streamed {
        match e {
            EventView::Chunks(chunks) => Ok(chunks.flatten()),
            EventView::Failed(cause) => Err(
                failure_by("failed to start ByteStream download"@, cause),
            ),
            EventView::Interrupted(cause) => Err(
                failure_by("failed while downloading from ByteStream"@, cause),
            ),
            _ => Err(unexpected()),
        }
    } else {
        match e {
            EventView::Blobs(replies) => read_outcome(replies, a.digest),
            EventView::Failed(cause) => Err(
                failure_by("failed to download blob from the remote CAS"@, cause),
            ),
            _ => Err(unexpected()),
        }
    }
}

/// Something happened that does not follow from what was asked for.
pub open spec fn unexpected() -> ErrorView {
    failure("remote execution received an unexpected reply"@)
}

/// What follows from the answer to the request for the execution.
pub open spec fn answered(p: PlanView, payload: Seq<u8>) -> Result<Move, ErrorView> {
    match response_of(payload) {
        Ok(response) => match response.result {
            Some(result) => Ok(to_stdout(p, result, response.status)),
            None => Err(
                failure("remote execution response did not include an action result"@),
            ),
        },
        Err(e) => Err(e),
    }
}

/// What follows from a report of the execution: it is waited for until it is done.
pub open spec fn reported(
    p: PlanView,
    done: bool,
    result: Option<OperationResultView>,
) -> Result<Move, ErrorView> {
    if !done {
        Ok((StageView::Polling, RequestView::Poll))
    } else {
        match result {
            Some(OperationResultView::Response(payload)) => answered(p, payload),
            Some(OperationResultView::Error(status)) => Err(
                failure(
                    status_text("remote execution operation failed with status "@, status),
                ),
            ),
            None => Err(failure("remote execution completed without a response"@)),
        }
    }
}

/// What follows from what has happened about the blobs.
pub open spec fn uploaded(
    p: PlanView,
    u: UploaderView,
    sent: SentView,
    e: EventView,
) -> Result<Move, ErrorView> {
    match sent {
        SentView::Load => match e {
            EventView::Loaded(data) => Ok(to_uploading(p, taken_up(u, data))),
            EventView::Failed(cause) => Err(failure(cause)),
            _ => Err(unexpected()),
        },
        SentView::Batch => match e {
            EventView::Updated(statuses) => match first_refusal(statuses) {
                Some(status) => Err(
                    failure(status_text("remote CAS rejected blob upload with status "@, status)),
                ),
                None => Ok(to_uploading(p, u)),
            },
            EventView::Failed(cause) => Err(
                failure_by("failed to upload blobs to the remote CAS"@, cause),
            ),
            _ => Err(unexpected()),
        },
        SentView::Stream(digest) => match e {
            EventView::Committed(size) => if size == digest.size_bytes {
                Ok(to_uploading(p, u))
            } else {
                Err(failure(committed_text(size, digest)))
            },
            EventView::Failed(cause) => Err(
                failure_by("failed to upload blob via ByteStream"@, cause),
            ),
            _ => Err(unexpected()),
        },
    }
}

/// What follows from what has happened.
pub open spec fn moved(p: PlanView, s: StageView, e: EventView) -> Result<Move, ErrorView> {
    match s {
        StageView::Finding(u, from, missing) => match e {
            EventView::Missing(digests) => Ok(
                to_finding(
                    p,
                    u,
                    query_end(u.len() as int, from),
                    with_digests(missing, digests),
                ),
            ),
            EventView::Failed(cause) => Err(
                failure_by("failed to query the remote CAS for missing blobs"@, cause),
            ),
            _ => Err(unexpected()),
        },
        StageView::Uploading(u, sent) => uploaded(p, u, sent, e),
        StageView::Starting => match e {
            EventView::Started => Ok((StageView::Polling, RequestView::Poll)),
            EventView::Failed(cause) => Err(
                failure_by("failed to start remote execution"@, cause),
            ),
            _ => Err(unexpected()),
        },
        StageView::Polling => match e {
            EventView::Operation(done, result) => reported(p, done, result),
            EventView::Ended => Err(
                failure("remote execution stream ended before completion"@),
            ),
            EventView::Failed(cause) => Err(
                failure_by("failed while polling remote execution"@, cause),
            ),
            _ => Err(unexpected()),
        },
        StageView::Stdout(result, status, awaited) => match fetched(awaited, e) {
            Ok(stdout) => Ok(to_stderr(p, result, status, stdout)),
            Err(f) => Err(f),
        },
        StageView::Stderr(result, status, stdout, awaited) => match fetched(awaited, e) {
            Ok(stderr) => Ok(to_outputs(p, result, status, stdout, stderr)),
            Err(f) => Err(f),
        },
        StageView::Fetching(result, path, executable, awaited, steps) => match fetched(
            awaited,
            e,
        ) {
            Ok(data) => Ok(
                (
                    StageView::Writing(result, steps),
                    RequestView::WriteFile(path, data, executable),
                ),
            ),
            Err(f) => Err(f),
        },
        StageView::Writing(result, steps) => match e {
            EventView::Done => Ok(to_writing(p, result, steps)),
            EventView::Failed(cause) => Err(failure(cause)),
            _ => Err(unexpected()),
        },
        StageView::Finished => Err(unexpected()),
    }
}

/// What an execution needs to go on: blobs are asked about in range, the set of missing ones is in
/// order, the blobs to send are within the limits, and a file is read for a blob that is there.
pub open spec fn in_order(s: Stage) -> bool {
    match s {
        Stage::Finding(uploads, from, missing) => from <= uploads@.len() && sorted::<DigestKey, ()>(
            entries(missing@),
        ),
        Stage::Uploading(uploader, sent) => uploader.well_formed() && (sent is Load
            ==> uploader@.left.len() > 0),
        _ => true,
    }
}

/// The plan of a prepared command under these settings.
pub open spec fn plan_of(config: ConfigView, prepared: PreparedView) -> PlanView {
    PlanView {
        instance_name: config.instance_name,
        remote_cache: config.remote_cache,
        action_digest: prepared.action_digest,
        expected_outputs: prepared.expected_outputs,
    }
}

/// The start of an execution: the first question about what the remote store lacks.
pub open spec fn started(config: ConfigView, prepared: PreparedView) -> Move {
    to_finding(plan_of(config, prepared), prepared.uploads, 0, seq![])
}

/// The outcome of a move.
pub open spec fn makes(r: Result<(Stage, Request), Error>, expected: Result<Move, ErrorView>) -> bool {
    match (r, expected) {
        (Ok((stage, request)), Ok(m)) => (stage@, request@) == m && in_order(stage),
        (Err(e), Err(f)) => e@ == f,
        _ => false,
    }
}

/// Something happened that does not follow from what was asked for.
fn unexpected_reply() -> (e: Error)
    ensures
        e@ == unexpected(),
{
    fail("remote execution received an unexpected reply")
}

/// The bytes of a blob that was asked for, from what has happened.
fn receive(awaited: &Awaited, event: Event) -> (r: Result<Vec<u8>, Error>)
    ensures
        match r {
            Ok(data) => fetched(awaited@, event@) == Ok::<Seq<u8>, ErrorView>(data@),
            Err(e) => fetched(awaited@, event@) == Err::<Seq<u8>, ErrorView>(e@),
        },
{
    if awaited.streamed {
        match event {
            Event::Chunks(chunks) => Ok(assemble(&chunks)),
            Event::Failed(cause) => Err(
                fail_by("failed to start ByteStream download", cause.as_str()),
            ),
            Event::Interrupted(cause) => Err(
                fail_by("failed while downloading from ByteStream", cause.as_str()),
            ),
            _ => Err(unexpected_reply()),
        }
    } else {
        match event {
            Event::Blobs(replies) => read_blob(&replies, &awaited.digest),
            Event::Failed(cause) => Err(
                fail_by("failed to download blob from the remote CAS", cause.as_str()),
            ),
            _ => Err(unexpected_reply()),
        }
    }
}

impl Plan {
    /// The request for the execution.
    fn execute_request(&self) -> (r: ExecuteRequest)
        ensures
            r@ == execute_request(self@),
    {
        ExecuteRequest {
            instance_name: self.instance_name.clone(),
            skip_cache_lookup: !self.remote_cache,
            action_digest: self.action_digest.clone(),
            inline_stdout: true,
            inline_stderr: true,
        }
    }

    /// The next thing to send, or the request for the execution.
    fn go_on_uploading(&self, uploader: Uploader) -> (r: (Stage, Request))
        requires
            uploader.well_formed(),
        ensures
            (r.0@, r.1@) == to_uploading(self@, uploader@),
            in_order(r.0),
    {
        let mut uploader = uploader;
        match uploader.next() {
            UploadAction::Send(UploadStep::Batch(blobs)) => (
                Stage::Uploading(uploader, Sent::Batch),
                Request::BatchUpdate(blobs),
            ),
            UploadAction::Send(UploadStep::Stream(digest, data)) => (
                Stage::Uploading(uploader, Sent::Stream(digest.clone())),
                Request::Write(digest, data),
            ),
            UploadAction::Load(path) => (
                Stage::Uploading(uploader, Sent::Load),
                Request::Load(path),
            ),
            UploadAction::Done => (Stage::Starting, Request::Execute(self.execute_request())),
        }
    }

    /// The next question about what the remote store lacks, or the sending of what it lacks.
    fn go_on_finding(&self, uploads: UploadMap, from: usize, missing: DigestSet) -> (r: (
        Stage,
        Request,
    ))
        requires
            from <= uploads@.len(),
            sorted::<DigestKey, ()>(entries(missing@)),
        ensures
            (r.0@, r.1@) == to_finding(self@, blobs(uploads@), from as int, entries(missing@)),
            in_order(r.0),
    {
        if from < uploads.len() {
            let (digests, _) = missing_query(&uploads, from);
            (Stage::Finding(uploads, from, missing), Request::FindMissing(digests))
        } else {
            self.go_on_uploading(Uploader::new(uploads, &missing))
        }
    }

    /// The request for a blob that is not here.
    fn ask_for(&self, digest: Digest, streamed: bool) -> (r: (Awaited, Request))
        ensures
            r.0@ == (AwaitedView { digest: digest@, streamed }),
            r.1@ == (if streamed {
                RequestView::Read(download_name(self@.instance_name, digest@), 0, 0)
            } else {
                RequestView::BatchRead(digest@)
            }),
    {
        let request = if streamed {
            Request::Read(read_request(self.instance_name.as_str(), &digest))
        } else {
            Request::BatchRead(digest.clone())
        };
        (Awaited { digest, streamed }, request)
    }

    /// The next step for the outputs, or the outcome.
    fn go_on_writing(&self, result: RemoteResult, steps: Vec<OutputStep>) -> (r: (Stage, Request))
        ensures
            (r.0@, r.1@) == to_writing(self@, result@, output_views(steps@)),
            in_order(r.0),
    {
        let ghost all = output_views(steps@);
        let mut steps = steps;
        if steps.len() == 0 {
            return (Stage::Finished, Request::Finish(result));
        }
        let step = steps.remove(0);
        proof {
            assert(all[0] == step@);
            assert(output_views(steps@) =~= all.skip(1));
        }
        match step {
            OutputStep::Remove(path) => (Stage::Writing(result, steps), Request::Remove(path)),
            OutputStep::CreateDir(path) => (
                Stage::Writing(result, steps),
                Request::CreateDir(path),
            ),
            OutputStep::Symlink(path, target) => (
                Stage::Writing(result, steps),
                Request::WriteSymlink(path, target),
            ),
            OutputStep::File(path, Fetch::Have(data), executable) => (
                Stage::Writing(result, steps),
                Request::WriteFile(path, data, executable),
            ),
            OutputStep::File(path, Fetch::Batch(digest), executable) => {
                let (awaited, request) = self.ask_for(digest, false);
                (Stage::Fetching(result, path, executable, awaited, steps), request)
            },
            OutputStep::File(path, Fetch::Stream(digest), executable) => {
                let (awaited, request) = self.ask_for(digest, true);
                (Stage::Fetching(result, path, executable, awaited, steps), request)
            },
        }
    }

    /// The outcome, and the first step for the outputs.
    fn go_on_to_outputs(
        &self,
        result: ActionResult,
        status: Option<Status>,
        stdout: Vec<u8>,
        stderr: Vec<u8>,
    ) -> (r: (Stage, Request))
        ensures
            (r.0@, r.1@) == to_outputs(self@, result@, status_view(status), stdout@, stderr@),
            in_order(r.0),
    {
        let steps = materialize_outputs(&result, &self.expected_outputs);
        let outcome = RemoteResult { exit_code: result.exit_code, stdout, stderr, status };
        self.go_on_writing(outcome, steps)
    }

    /// The fetching of what was printed about errors, where it is not here.
    fn go_on_to_stderr(&self, result: ActionResult, status: Option<Status>, stdout: Vec<u8>) -> (r: (
        Stage,
        Request,
    ))
        ensures
            (r.0@, r.1@) == to_stderr(self@, result@, status_view(status), stdout@),
            in_order(r.0),
    {
        match plan_fetch(&result.stderr_raw, &result.stderr_digest) {
            Fetch::Have(stderr) => self.go_on_to_outputs(result, status, stdout, stderr),
            Fetch::Batch(digest) => {
                let (awaited, request) = self.ask_for(digest, false);
                (Stage::Stderr(result, status, stdout, awaited), request)
            },
            Fetch::Stream(digest) => {
                let (awaited, request) = self.ask_for(digest, true);
                (Stage::Stderr(result, status, stdout, awaited), request)
            },
        }
    }

    /// The fetching of what was printed, where it is not here.
    fn go_on_to_stdout(&self, result: ActionResult, status: Option<Status>) -> (r: (Stage, Request))
        ensures
            (r.0@, r.1@) == to_stdout(self@, result@, status_view(status)),
            in_order(r.0),
    {
        match plan_fetch(&result.stdout_raw, &result.stdout_digest) {
            Fetch::Have(stdout) => self.go_on_to_stderr(result, status, stdout),
            Fetch::Batch(digest) => {
                let (awaited, request) = self.ask_for(digest, false);
                (Stage::Stdout(result, status, awaited), request)
            },
            Fetch::Stream(digest) => {
                let (awaited, request) = self.ask_for(digest, true);
                (Stage::Stdout(result, status, awaited), request)
            },
        }
    }

    /// What follows from a report of the execution.
    fn on_report(&self, done: bool, result: Option<OperationResult>) -> (r: Result<
        (Stage, Request),
        Error,
    >)
        ensures
            makes(
                r,
                reported(
                    self@,
                    done,
                    match result {
                        Some(x) => Some(x@),
                        None => None,
                    },
                ),
            ),
    {
        if !done {
            return Ok((Stage::Polling, Request::Poll));
        }
        match result {
            Some(OperationResult::Response(payload)) => {
                let response = match unpack_execute_response(&payload) {
                    Ok(response) => response,
                    Err(e) => {
                        return Err(e);
                    },
                };
                match response.result {
                    Some(result) => Ok(self.go_on_to_stdout(result, response.status)),
                    None => Err(
                        fail("remote execution response did not include an action result"),
                    ),
                }
            },
            Some(OperationResult::Error(status)) => {
                let message = status_message(
                    "remote execution operation failed with status ",
                    &status,
                );
                Err(fail(message.as_str()))
            },
            None => Err(fail("remote execution completed without a response")),
        }
    }

    /// What follows from what has happened about the blobs.
    fn on_upload(&self, uploader: Uploader, sent: Sent, event: Event) -> (r: Result<
        (Stage, Request),
        Error,
    >)
        requires
            uploader.well_formed(),
            sent is Load ==> uploader@.left.len() > 0,
        ensures
            makes(r, uploaded(self@, uploader@, sent@, event@)),
    {
        let mut uploader = uploader;
        match sent {
            Sent::Load => match event {
                Event::Loaded(data) => {
                    uploader.take_up(data);
                    Ok(self.go_on_uploading(uploader))
                },
                Event::Failed(cause) => Err(fail(cause.as_str())),
                _ => Err(unexpected_reply()),
            },
            Sent::Batch => match event {
                Event::Updated(statuses) => match check_batch(&statuses) {
                    Ok(_) => Ok(self.go_on_uploading(uploader)),
                    Err(e) => Err(e),
                },
                Event::Failed(cause) => Err(
                    fail_by("failed to upload blobs to the remote CAS", cause.as_str()),
                ),
                _ => Err(unexpected_reply()),
            },
            Sent::Stream(digest) => match event {
                Event::Committed(size) => match check_committed(size, &digest) {
                    Ok(_) => Ok(self.go_on_uploading(uploader)),
                    Err(e) => Err(e),
                },
                Event::Failed(cause) => Err(
                    fail_by("failed to upload blob via ByteStream", cause.as_str()),
                ),
                _ => Err(unexpected_reply()),
            },
        }
    }

    /// What follows from what has happened.
    fn on_event(&self, stage: Stage, event: Event) -> (r: Result<(Stage, Request), Error>)
        requires
            in_order(stage),
        ensures
            makes(r, moved(self@, stage@, event@)),
    {
        match stage {
            Stage::Finding(uploads, from, missing) => match event {
                Event::Missing(digests) => {
                    let mut missing = missing;
                    note_missing(&mut missing, &digests);
                    let (_, next) = missing_query(&uploads, from);
                    Ok(self.go_on_finding(uploads, next, missing))
                },
                Event::Failed(cause) => Err(
                    fail_by("failed to query the remote CAS for missing blobs", cause.as_str()),
                ),
                _ => Err(unexpected_reply()),
            },
            Stage::Uploading(uploader, sent) => self.on_upload(uploader, sent, event),
            Stage::Starting => match event {
                Event::Started => Ok((Stage::Polling, Request::Poll)),
                Event::Failed(cause) => Err(
                    fail_by("failed to start remote execution", cause.as_str()),
                ),
                _ => Err(unexpected_reply()),
            },
            Stage::Polling => match event {
                Event::Operation(done, result) => self.on_report(done, result),
                Event::Ended => Err(fail("remote execution stream ended before completion")),
                Event::Failed(cause) => Err(
                    fail_by("failed while polling remote execution", cause.as_str()),
                ),
                _ => Err(unexpected_reply()),
            },
            Stage::Stdout(result, status, awaited) => match receive(&awaited, event) {
                Ok(stdout) => Ok(self.go_on_to_stderr(result, status, stdout)),
                Err(e) => Err(e),
            },
            Stage::Stderr(result, status, stdout, awaited) => match receive(&awaited, event) {
                Ok(stderr) => Ok(self.go_on_to_outputs(result, status, stdout, stderr)),
                Err(e) => Err(e),
            },
            Stage::Fetching(result, path, executable, awaited, steps) => match receive(
                &awaited,
                event,
            ) {
                Ok(data) => Ok(
                    (Stage::Writing(result, steps), Request::WriteFile(path, data, executable)),
                ),
                Err(e) => Err(e),
            },
            Stage::Writing(result, steps) => match event {
                Event::Done => Ok(self.go_on_writing(result, steps)),
                Event::Failed(cause) => Err(fail(cause.as_str())),
                _ => Err(unexpected_reply()),
            },
            Stage::Finished => Err(unexpected_reply()),
        }
    }
}

impl Execution {
    #[verifier::type_invariant]
    spec fn goes_on(self) -> bool {
        in_order(self.stage)
    }

    /// Starts the execution of a prepared command, and says what is to be done first.
    pub fn start(config: &RemoteBuildConfig, prepared: PreparedCommand) -> (r: (Execution, Request))
        ensures
            r.0@.plan == plan_of(config@, prepared@),
            (r.0@.stage, r.1@) == started(config@, prepared@),
    {
        let plan = Plan {
            instance_name: config.instance_name.clone(),
            remote_cache: config.remote_cache,
            action_digest: prepared.action_digest,
            expected_outputs: prepared.expected_outputs,
        };
        let missing: DigestSet = Vec::new();
        assert(entries(missing@) =~= seq![]);
        let (stage, request) = plan.go_on_finding(prepared.uploads, 0, missing);
        (Execution { plan, stage }, request)
    }

    /// Takes in what has happened, and says what is to be done next.
    pub fn next(self, event: Event) -> (r: Result<(Execution, Request), Error>)
        ensures
            match (r, moved(self@.plan, self@.stage, event@)) {
                (Ok((x, request)), Ok(m)) => x@.plan == self@.plan && (x@.stage, request@) == m,
                (Err(e), Err(f)) => e@ == f,
                _ => false,
            },
    {
        proof {
            use_type_invariant(&self);
        }
        match self.plan.on_event(self.stage, event) {
            Ok((stage, request)) => Ok((Execution { plan: self.plan, stage }, request)),
            Err(e) => Err(e),
        }
    }
}

} // verus!
