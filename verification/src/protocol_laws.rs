//! What is asked for is what is waited for, and what comes is what is used.
use vstd::prelude::*;

use crate::config::ConfigView;
use crate::digest::{DigestKey, DigestView};
use crate::digits::signed_decimal;
use crate::error::{failure, failure_by, ErrorView};
use crate::execution::{
    fetched, moved, started, to_finding, to_outputs, to_stderr, to_stdout, to_uploading, to_writing,
    unexpected, AwaitedView, EventView, ExecuteRequestView, Move, OperationResultView, PlanView,
    RemoteResultView, RequestView, SentView, StageView,
};
use crate::execution_laws::writing;
use crate::local_path::parent;
use crate::outputs::{
    all_output_steps, last_file, last_symlink, output_plan, output_steps, placing, removals,
    OutputStepView,
};
use crate::prepare::PreparedView;
use crate::response::{ActionResultView, ExecuteResponseView, OutputFileView, OutputSymlinkView};
use crate::sorted::{has, lemma_has, lemma_with, sorted, with};
use crate::transfer::{fetch_of, first_refusal, BlobReplyView, FetchView, StatusView};
use crate::response_laws::{decoding_undoes_encoding, response_wire};
use crate::upload::{
    offered, offered_blob_is_kept, query, query_end, selected_blobs_are_those_wanted, total_bytes,
    upload_in_limits, upload_next, upload_start, uploading_loses_nothing, wanted, with_digests,
    within_limits, Item, StepView, UploadActionView, UploaderView,
};
use crate::uploads::{holds, honest, BlobView, DataView};

verus! {

/// The name by which a blob of an instance is streamed here.
pub open spec fn stream_name(instance_name: Seq<char>, d: DigestView) -> Seq<char> {
    (if instance_name.len() == 0 {
        seq![]
    } else {
        instance_name + "/"@
    }) + ("blobs/sha256/"@ + d.hash + "/"@ + signed_decimal(d.size_bytes as int))
}

/// A request is the one for the blob that is waited for: streamed, it is named and read from its
/// start without a limit; otherwise it is asked for by its digest.
pub open spec fn asks_for_blob(p: PlanView, a: AwaitedView, r: RequestView) -> bool {
    r == if a.streamed {
        RequestView::Read(stream_name(p.instance_name, a.digest), 0, 0)
    } else {
        RequestView::BatchRead(a.digest)
    }
}

/// The request asks for what the stage waits for.
pub open spec fn asks_for(p: PlanView, m: Move) -> bool {
    match m.0 {
        StageView::Finding(_, _, _) => m.1 is FindMissing,
        StageView::Uploading(_, SentView::Load) => m.1 is Load,
        StageView::Uploading(_, SentView::Batch) => m.1 is BatchUpdate,
        StageView::Uploading(_, SentView::Stream(digest)) => m.1 is Write && m.1->Write_0 == digest,
        StageView::Starting => m.1 == RequestView::Execute(
            ExecuteRequestView {
                instance_name: p.instance_name,
                skip_cache_lookup: !p.remote_cache,
                action_digest: p.action_digest,
                inline_stdout: true,
                inline_stderr: true,
            },
        ),
        StageView::Polling => m.1 is Poll,
        StageView::Stdout(_, _, a) => asks_for_blob(p, a, m.1),
        StageView::Stderr(_, _, _, a) => asks_for_blob(p, a, m.1),
        StageView::Fetching(_, _, _, a, _) => asks_for_blob(p, a, m.1),
        StageView::Writing(_, _) => m.1 is Remove || m.1 is CreateDir || m.1 is WriteFile
            || m.1 is WriteSymlink,
        StageView::Finished => m.1 is Finish,
    }
}

proof fn lemma_stream_name(p: PlanView, d: DigestView)
    ensures
        stream_name(p.instance_name, d) == crate::names::download_name(p.instance_name, d),
{
    let place = "blobs/sha256/"@ + d.hash + "/"@ + signed_decimal(d.size_bytes as int);
    assert(seq![] + place =~= place);
    assert(p.instance_name + "/"@ + place =~= (p.instance_name + "/"@) + place);
}

proof fn lemma_uploading_asks(p: PlanView, u: UploaderView)
    ensures
        asks_for(p, to_uploading(p, u)),
{
}

proof fn lemma_writing_asks(p: PlanView, result: RemoteResultView, steps: Seq<OutputStepView>)
    ensures
        asks_for(p, to_writing(p, result, steps)),
{
    if steps.len() > 0 {
        if let OutputStepView::File(_, FetchView::Stream(digest), _) = steps[0] {
            lemma_stream_name(p, digest);
        }
    }
}

proof fn lemma_stderr_asks(
    p: PlanView,
    result: ActionResultView,
    status: Option<StatusView>,
    stdout: Seq<u8>,
    stderr: Seq<u8>,
)
    ensures
        asks_for(p, to_outputs(p, result, status, stdout, stderr)),
        asks_for(p, to_stderr(p, result, status, stdout)),
{
    let steps = output_plan(result, p.expected_outputs);
    let one = RemoteResultView { exit_code: result.exit_code, stdout, stderr, status };
    lemma_writing_asks(p, one, steps);
    match fetch_of(result.stderr_raw, result.stderr_digest) {
        FetchView::Have(data) => {
            let two = RemoteResultView {
                exit_code: result.exit_code,
                stdout,
                stderr: data,
                status,
            };
            lemma_writing_asks(p, two, steps);
        },
        FetchView::Stream(digest) => {
            lemma_stream_name(p, digest);
        },
        _ => {},
    }
}

proof fn lemma_stdout_asks(p: PlanView, result: ActionResultView, status: Option<StatusView>)
    ensures
        asks_for(p, to_stdout(p, result, status)),
{
    match fetch_of(result.stdout_raw, result.stdout_digest) {
        FetchView::Have(data) => {
            lemma_stderr_asks(p, result, status, data, data);
        },
        FetchView::Stream(digest) => {
            lemma_stream_name(p, digest);
        },
        _ => {},
    }
}

/// Whatever has happened, what is asked for next is what is waited for next.
pub proof fn request_is_for_what_is_waited_for(p: PlanView, s: StageView, e: EventView)
    ensures
        moved(p, s, e) matches Ok(m) ==> asks_for(p, m),
{
    if let Ok(m) = moved(p, s, e) {
        match s {
            StageView::Uploading(u, SentView::Load) => {
                if let EventView::Loaded(data) = e {
                    lemma_uploading_asks(p, crate::upload::taken_up(u, data));
                }
            },
            StageView::Uploading(u, _) => {
                lemma_uploading_asks(p, u);
            },
            StageView::Polling => {
                if let EventView::Operation(true, Some(OperationResultView::Response(payload))) = e {
                    let response = crate::response::response_of(payload)->Ok_0;
                    lemma_stdout_asks(p, response.result->0, response.status);
                }
            },
            StageView::Stdout(result, status, a) => {
                lemma_stderr_asks(p, result, status, fetched(a, e)->Ok_0, seq![]);
            },
            StageView::Stderr(result, status, stdout, a) => {
                lemma_stderr_asks(p, result, status, stdout, fetched(a, e)->Ok_0);
            },
            StageView::Writing(result, steps) => {
                lemma_writing_asks(p, result, steps);
            },
            _ => {},
        }
    }
}

/// And so it is at the start.
pub proof fn first_request_is_for_what_is_waited_for(config: ConfigView, prepared: PreparedView)
    ensures
        asks_for(
            PlanView {
                instance_name: config.instance_name,
                remote_cache: config.remote_cache,
                action_digest: prepared.action_digest,
                expected_outputs: prepared.expected_outputs,
            },
            started(config, prepared),
        ),
        prepared.uploads.len() > 0 ==> started(config, prepared).0 is Finding,
        prepared.uploads.len() == 0 ==> started(config, prepared).0 is Starting,
{
    if prepared.uploads.len() == 0 {
        assert(crate::upload::selected(prepared.uploads, seq![]) =~= seq![]);
    }
}

/// The event is an answer to the request.
pub open spec fn answers(r: RequestView, e: EventView) -> bool {
    match r {
        RequestView::FindMissing(_) => e is Missing || e is Failed,
        RequestView::Load(_) => e is Loaded || e is Failed,
        RequestView::BatchUpdate(_) => e is Updated || e is Failed,
        RequestView::Write(_, _) => e is Committed || e is Failed,
        RequestView::Execute(_) => e is Started || e is Failed,
        RequestView::Poll => e is Operation || e is Ended || e is Failed,
        RequestView::BatchRead(_) => e is Blobs || e is Failed,
        RequestView::Read(_, _, _) => e is Chunks || e is Interrupted || e is Failed,
        RequestView::Remove(_) => e is Done || e is Failed,
        RequestView::CreateDir(_) => e is Done || e is Failed,
        RequestView::WriteFile(_, _, _) => e is Done || e is Failed,
        RequestView::WriteSymlink(_, _) => e is Done || e is Failed,
        RequestView::Finish(_) => false,
    }
}

/// The answer says that all went well.
pub open spec fn is_success(r: RequestView, e: EventView) -> bool {
    match e {
        EventView::Updated(statuses) => forall|i: int|
            0 <= i < statuses.len() ==> (#[trigger] statuses[i] matches Some(status) ==> status.code
                == 0),
        EventView::Committed(size) => r is Write && size == r->Write_0.size_bytes,
        EventView::Operation(done, _) => !done,
        EventView::Blobs(replies) => replies.len() > 0 && (replies[0].status matches Some(status)
            ==> status.code == 0),
        EventView::Failed(_) => false,
        EventView::Interrupted(_) => false,
        EventView::Ended => false,
        _ => true,
    }
}

proof fn lemma_no_refusal(statuses: Seq<Option<StatusView>>)
    ensures
        first_refusal(statuses) is None <==> forall|i: int|
            0 <= i < statuses.len() ==> (#[trigger] statuses[i] matches Some(status) ==> status.code
                == 0),
    decreases statuses.len(),
{
    if statuses.len() > 0 {
        let rest = statuses.skip(1);
        lemma_no_refusal(rest);
        if first_refusal(statuses) is None {
            assert forall|i: int| 0 <= i < statuses.len() implies (
            #[trigger] statuses[i] matches Some(status) ==> status.code == 0) by {
                if i > 0 {
                    assert(rest[i - 1] == statuses[i]);
                }
            }
        }
        if forall|i: int|
            0 <= i < statuses.len() ==> (#[trigger] statuses[i] matches Some(status) ==> status.code
                == 0) {
            assert(statuses[0] matches Some(status) ==> status.code == 0);
            assert forall|i: int| 0 <= i < rest.len() implies (
            #[trigger] rest[i] matches Some(status) ==> status.code == 0) by {
                assert(rest[i] == statuses[i + 1]);
            }
        }
    }
}

/// An answer that says that all went well leads on, one that says that it did not ends the
/// execution, and what answers nothing ends it too.
pub proof fn answers_lead_on(p: PlanView, m: Move, e: EventView)
    requires
        asks_for(p, m),
    ensures
        answers(m.1, e) && is_success(m.1, e) ==> moved(p, m.0, e) is Ok,
        answers(m.1, e) && !is_success(m.1, e) && !(e is Operation) ==> moved(p, m.0, e) is Err,
        !answers(m.1, e) ==> moved(p, m.0, e) == Err::<Move, ErrorView>(
            failure("remote execution received an unexpected reply"@),
        ),
{
    if let EventView::Updated(statuses) = e {
        lemma_no_refusal(statuses);
    }
}

/// An execution that is not done is waited for.
pub proof fn unfinished_execution_is_waited_for(
    p: PlanView,
    s: StageView,
    result: Option<OperationResultView>,
)
    requires
        s is Polling,
    ensures
        moved(p, s, EventView::Operation(false, result)) == Ok::<Move, ErrorView>(
            (StageView::Polling, RequestView::Poll),
        ),
        moved(p, StageView::Starting, EventView::Started) == Ok::<Move, ErrorView>(
            (StageView::Polling, RequestView::Poll),
        ),
{
}

/// What the remote store answers is what it holds: a blob that is asked for by its digest or by its
/// name has these bytes.
pub open spec fn store_answers(
    p: PlanView,
    r: RequestView,
    e: EventView,
    store: spec_fn(DigestView) -> Seq<u8>,
) -> bool {
    match (r, e) {
        (RequestView::BatchRead(digest), EventView::Blobs(replies)) => replies.len() > 0
            ==> replies[0].data == store(digest),
        (RequestView::Read(name, offset, limit), EventView::Chunks(chunks)) => offset == 0 && limit
            == 0 ==> forall|digest: DigestView|
            name == #[trigger] stream_name(p.instance_name, digest) ==> chunks.flatten() == store(
                digest,
            ),
        _ => true,
    }
}

/// The remote store answers with what it holds, all the way.
pub open spec fn store_answers_all(
    p: PlanView,
    m: Move,
    events: Seq<EventView>,
    store: spec_fn(DigestView) -> Seq<u8>,
) -> bool
    decreases events.len(),
{
    events.len() > 0 ==> {
        &&& store_answers(p, m.1, events[0], store)
        &&& moved(p, m.0, events[0]) matches Ok(n) ==> store_answers_all(
            p,
            n,
            events.skip(1),
            store,
        )
    }
}

/// The bytes of a blob: those that came along; otherwise none where it has no digest or no bytes;
/// otherwise those in the remote store.
pub open spec fn content(
    along: Seq<u8>,
    digest: Option<DigestView>,
    store: spec_fn(DigestView) -> Seq<u8>,
) -> Seq<u8> {
    if along.len() > 0 {
        along
    } else {
        match digest {
            Some(d) => if d.size_bytes == 0 {
                seq![]
            } else {
                store(d)
            },
            None => seq![],
        }
    }
}

/// The bytes of a blob that is waited for are those that the remote store holds for it.
pub proof fn blob_comes_from_the_store(
    p: PlanView,
    a: AwaitedView,
    r: RequestView,
    e: EventView,
    store: spec_fn(DigestView) -> Seq<u8>,
)
    requires
        asks_for_blob(p, a, r),
        store_answers(p, r, e, store),
    ensures
        fetched(a, e) matches Ok(data) ==> data == store(a.digest),
{
}

/// A blob is streamed where one reply cannot hold it, and where its size makes no sense.
pub proof fn large_blobs_are_streamed(along: Seq<u8>, digest: Option<DigestView>)
    ensures
        match fetch_of(along, digest) {
            FetchView::Have(data) => data == along && (along.len() > 0 || digest is None
                || digest->0.size_bytes == 0),
            FetchView::Batch(d) => along.len() == 0 && digest == Some(d) && 0 < d.size_bytes
                <= 16 * 1024 * 1024,
            FetchView::Stream(d) => along.len() == 0 && digest == Some(d) && (d.size_bytes < 0
                || d.size_bytes > 16 * 1024 * 1024),
        },
{
    if along.len() == 0 {
        assert(along =~= seq![]);
    }
}

/// The bytes that a fetching leads to.
pub open spec fn fetch_content(f: FetchView, store: spec_fn(DigestView) -> Seq<u8>) -> Seq<u8> {
    match f {
        FetchView::Have(data) => data,
        FetchView::Batch(digest) => store(digest),
        FetchView::Stream(digest) => store(digest),
    }
}

/// What carries out a step.
pub open spec fn step_done(
    step: OutputStepView,
    store: spec_fn(DigestView) -> Seq<u8>,
) -> RequestView {
    match step {
        OutputStepView::Remove(path) => RequestView::Remove(path),
        OutputStepView::CreateDir(path) => RequestView::CreateDir(path),
        OutputStepView::Symlink(path, target) => RequestView::WriteSymlink(path, target),
        OutputStepView::File(path, fetch, executable) => RequestView::WriteFile(
            path,
            fetch_content(fetch, store),
            executable,
        ),
    }
}

/// What carries out the steps.
pub open spec fn steps_done(
    steps: Seq<OutputStepView>,
    store: spec_fn(DigestView) -> Seq<u8>,
) -> Seq<RequestView> {
    steps.map_values(|step: OutputStepView| step_done(step, store))
}

proof fn lemma_steps_are_done(
    p: PlanView,
    result: RemoteResultView,
    steps: Seq<OutputStepView>,
    events: Seq<EventView>,
    store: spec_fn(DigestView) -> Seq<u8>,
)
    requires
        store_answers_all(p, to_writing(p, result, steps), events, store),
    ensures
        writing(p, to_writing(p, result, steps), events) matches Some((done, outcome)) ==> outcome
            == result && done == steps_done(steps, store),
    decreases events.len(),
{
    let m = to_writing(p, result, steps);
    if steps.len() == 0 {
        assert(steps_done(steps, store) =~= seq![]);
    } else if events.len() > 0 {
        let rest = steps.skip(1);
        assert(steps_done(steps, store) =~= seq![step_done(steps[0], store)] + steps_done(
            rest,
            store,
        ));
        if m.0 is Writing {
            if moved(p, m.0, events[0]) is Ok {
                lemma_steps_are_done(p, result, rest, events.skip(1), store);
            }
        } else if let Ok(n) = moved(p, m.0, events[0]) {
            lemma_writing_asks(p, result, steps);
            let a = m.0->Fetching_3;
            blob_comes_from_the_store(p, a, m.1, events[0], store);
            let later = events.skip(1);
            assert(n.0 == StageView::Writing(result, rest));
            assert(n.1 == step_done(steps[0], store));
            assert(store_answers_all(p, n, later, store));
            if later.len() > 0 {
                if moved(p, n.0, later[0]) is Ok {
                    lemma_steps_are_done(p, result, rest, later.skip(1), store);
                }
                if let Some((done, outcome)) = writing(p, m, events) {
                    assert(writing(p, n, later) == Some((done, outcome)));
                }
            }
        }
    }
}

proof fn lemma_done_after_stdout(
    p: PlanView,
    result: ActionResultView,
    status: Option<StatusView>,
    stdout: Seq<u8>,
    events: Seq<EventView>,
    store: spec_fn(DigestView) -> Seq<u8>,
)
    requires
        store_answers_all(p, to_stderr(p, result, status, stdout), events, store),
    ensures
        writing(p, to_stderr(p, result, status, stdout), events) matches Some((done, outcome)) ==> {
            &&& outcome == RemoteResultView {
                exit_code: result.exit_code,
                stdout,
                stderr: content(result.stderr_raw, result.stderr_digest, store),
                status,
            }
            &&& done == steps_done(output_plan(result, p.expected_outputs), store)
        },
{
    let m = to_stderr(p, result, status, stdout);
    let steps = output_plan(result, p.expected_outputs);
    large_blobs_are_streamed(result.stderr_raw, result.stderr_digest);
    if m.0 is Stderr {
        if events.len() > 0 {
            if let Ok(n) = moved(p, m.0, events[0]) {
                lemma_stderr_asks(p, result, status, stdout, seq![]);
                let a = m.0->Stderr_3;
                blob_comes_from_the_store(p, a, m.1, events[0], store);
                let stderr = fetched(a, events[0])->Ok_0;
                let outcome = RemoteResultView {
                    exit_code: result.exit_code,
                    stdout,
                    stderr,
                    status,
                };
                lemma_steps_are_done(p, outcome, steps, events.skip(1), store);
            }
        }
    } else if let FetchView::Have(stderr) = fetch_of(result.stderr_raw, result.stderr_digest) {
        let outcome = RemoteResultView { exit_code: result.exit_code, stdout, stderr, status };
        lemma_steps_are_done(p, outcome, steps, events, store);
    }
}

/// Where the remote store answers with what it holds, the outcome of an execution has the exit code
/// and the status of the answer and the bytes that were printed, and the files that were written
/// have their bytes, whatever came along with the answer and whatever had to be fetched.
pub proof fn outcome_has_the_bytes_of_the_store(
    p: PlanView,
    result: ActionResultView,
    status: Option<StatusView>,
    events: Seq<EventView>,
    store: spec_fn(DigestView) -> Seq<u8>,
)
    requires
        store_answers_all(p, to_stdout(p, result, status), events, store),
    ensures
        writing(p, to_stdout(p, result, status), events) matches Some((done, outcome)) ==> {
            &&& outcome.exit_code == result.exit_code
            &&& outcome.status == status
            &&& outcome.stdout == content(result.stdout_raw, result.stdout_digest, store)
            &&& outcome.stderr == content(result.stderr_raw, result.stderr_digest, store)
            &&& done == steps_done(output_plan(result, p.expected_outputs), store)
        },
{
    let m = to_stdout(p, result, status);
    large_blobs_are_streamed(result.stdout_raw, result.stdout_digest);
    if m.0 is Stdout {
        if events.len() > 0 {
            if let Ok(n) = moved(p, m.0, events[0]) {
                lemma_stdout_asks(p, result, status);
                let a = m.0->Stdout_2;
                blob_comes_from_the_store(p, a, m.1, events[0], store);
                lemma_done_after_stdout(
                    p,
                    result,
                    status,
                    fetched(a, events[0])->Ok_0,
                    events.skip(1),
                    store,
                );
            }
        }
    } else if let FetchView::Have(stdout) = fetch_of(result.stdout_raw, result.stdout_digest) {
        lemma_done_after_stdout(p, result, status, stdout, events, store);
    }
}

/// A step carries out the writing of an output, and the directory of the output is made just
/// before.
pub open spec fn comes_to_its_place(
    steps: Seq<OutputStepView>,
    i: int,
    local: Seq<u8>,
    step: OutputStepView,
) -> bool {
    &&& 0 <= i < steps.len()
    &&& steps[i] == step
    &&& parent(local) matches Some(dir) ==> i > 0 && steps[i - 1] == OutputStepView::CreateDir(dir)
}

proof fn lemma_placed(
    result: ActionResultView,
    expected: Seq<(Seq<char>, Seq<u8>)>,
    k: int,
) -> (i: int)
    requires
        0 <= k < expected.len(),
        placing(result, expected[k].0, expected[k].1) is Some,
    ensures
        comes_to_its_place(
            all_output_steps(result, expected),
            i,
            expected[k].1,
            placing(result, expected[k].0, expected[k].1)->0,
        ),
    decreases expected.len(),
{
    let front = expected.drop_last();
    let before = all_output_steps(result, front);
    let last = output_steps(result, expected.last());
    let all = all_output_steps(result, expected);
    if k == expected.len() - 1 {
        let i = all.len() - 1;
        if let Some(dir) = parent(expected[k].1) {
            assert(last[0] == OutputStepView::CreateDir(dir));
            assert(all[i - 1] == last[0]);
            assert(all[i] == last[1]);
        } else {
            assert(all[i] == last[0]);
        }
        i
    } else {
        assert(front[k] == expected[k]);
        let i = lemma_placed(result, front, k);
        assert(all[i] == before[i]);
        if i > 0 {
            assert(all[i - 1] == before[i - 1]);
        }
        i
    }
}

proof fn lemma_last_file(files: Seq<OutputFileView>, path: Seq<char>, i: int)
    requires
        0 <= i < files.len(),
        files[i].path == path,
        forall|j: int| i < j < files.len() ==> (#[trigger] files[j]).path != path,
    ensures
        last_file(files, path) == Some(files[i]),
    decreases files.len(),
{
    if i < files.len() - 1 {
        let front = files.drop_last();
        assert forall|j: int| i < j < front.len() implies (#[trigger] front[j]).path != path by {
            assert(front[j] == files[j]);
        }
        lemma_last_file(front, path, i);
    }
}

proof fn lemma_no_link(links: Seq<OutputSymlinkView>, path: Seq<char>)
    requires
        forall|j: int| 0 <= j < links.len() ==> (#[trigger] links[j]).path != path,
    ensures
        last_symlink(links, path) is None,
    decreases links.len(),
{
    if links.len() > 0 {
        let front = links.drop_last();
        assert forall|j: int| 0 <= j < front.len() implies (#[trigger] front[j]).path != path by {
            assert(front[j] == links[j]);
        }
        lemma_no_link(front, path);
    }
}

proof fn lemma_last_link(links: Seq<OutputSymlinkView>, path: Seq<char>, i: int)
    requires
        0 <= i < links.len(),
        links[i].path == path,
        forall|j: int| i < j < links.len() ==> (#[trigger] links[j]).path != path,
    ensures
        last_symlink(links, path) == Some(links[i]),
    decreases links.len(),
{
    if i < links.len() - 1 {
        let front = links.drop_last();
        assert forall|j: int| i < j < front.len() implies (#[trigger] front[j]).path != path by {
            assert(front[j] == links[j]);
        }
        lemma_last_link(front, path, i);
    }
}

/// The last file that was reported for an expected output, where no link was, is written to the
/// place of the output, with its bytes and its execute bit, after its directory was made.
pub proof fn reported_file_is_written(
    result: ActionResultView,
    expected: Seq<(Seq<char>, Seq<u8>)>,
    store: spec_fn(DigestView) -> Seq<u8>,
    k: int,
    f: int,
) -> (i: int)
    requires
        0 <= k < expected.len(),
        0 <= f < result.output_files.len(),
        result.output_files[f].path == expected[k].0,
        forall|j: int|
            f < j < result.output_files.len() ==> (#[trigger] result.output_files[j]).path
                != expected[k].0,
        forall|j: int|
            0 <= j < result.output_symlinks.len() ==> (#[trigger] result.output_symlinks[j]).path
                != expected[k].0,
    ensures
        expected.len() <= i < output_plan(result, expected).len(),
        steps_done(output_plan(result, expected), store)[i] == RequestView::WriteFile(
            expected[k].1,
            content(result.output_files[f].contents, result.output_files[f].digest, store),
            result.output_files[f].is_executable,
        ),
        parent(expected[k].1) matches Some(dir) ==> i > 0 && steps_done(
            output_plan(result, expected),
            store,
        )[i - 1] == RequestView::CreateDir(dir),
{
    let file = result.output_files[f];
    lemma_last_file(result.output_files, expected[k].0, f);
    lemma_no_link(result.output_symlinks, expected[k].0);
    large_blobs_are_streamed(file.contents, file.digest);
    let i = lemma_placed(result, expected, k);
    let steps = all_output_steps(result, expected);
    let plan = output_plan(result, expected);
    assert(plan[expected.len() + i] == steps[i]);
    if i > 0 {
        assert(plan[expected.len() + i - 1] == steps[i - 1]);
    }
    expected.len() + i
}

/// The last link that was reported for an expected output is made at the place of the output, with
/// its target, whether a file was reported for it or not.
pub proof fn reported_link_is_made(
    result: ActionResultView,
    expected: Seq<(Seq<char>, Seq<u8>)>,
    store: spec_fn(DigestView) -> Seq<u8>,
    k: int,
    l: int,
) -> (i: int)
    requires
        0 <= k < expected.len(),
        0 <= l < result.output_symlinks.len(),
        result.output_symlinks[l].path == expected[k].0,
        forall|j: int|
            l < j < result.output_symlinks.len() ==> (#[trigger] result.output_symlinks[j]).path
                != expected[k].0,
    ensures
        expected.len() <= i < output_plan(result, expected).len(),
        steps_done(output_plan(result, expected), store)[i] == RequestView::WriteSymlink(
            expected[k].1,
            result.output_symlinks[l].target,
        ),
        parent(expected[k].1) matches Some(dir) ==> i > 0 && steps_done(
            output_plan(result, expected),
            store,
        )[i - 1] == RequestView::CreateDir(dir),
{
    lemma_last_link(result.output_symlinks, expected[k].0, l);
    let i = lemma_placed(result, expected, k);
    let steps = all_output_steps(result, expected);
    let plan = output_plan(result, expected);
    assert(plan[expected.len() + i] == steps[i]);
    if i > 0 {
        assert(plan[expected.len() + i - 1] == steps[i - 1]);
    }
    expected.len() + i
}

/// What was at the place of an expected output is removed, before anything is written.
pub proof fn old_output_is_removed_first(
    result: ActionResultView,
    expected: Seq<(Seq<char>, Seq<u8>)>,
    store: spec_fn(DigestView) -> Seq<u8>,
    k: int,
)
    requires
        0 <= k < expected.len(),
    ensures
        k < output_plan(result, expected).len(),
        steps_done(output_plan(result, expected), store)[k] == RequestView::Remove(expected[k].1),
{
    assert(output_plan(result, expected)[k] == removals(expected)[k]);
}

proof fn lemma_unreported_steps(
    result: ActionResultView,
    expected: Seq<(Seq<char>, Seq<u8>)>,
    i: int,
)
    requires
        0 <= i < all_output_steps(result, expected).len(),
    ensures
        all_output_steps(result, expected)[i] matches OutputStepView::File(path, _, _) ==> exists|
            k: int,
            f: int,
        |
            #![trigger expected[k], result.output_files[f]]
            0 <= k < expected.len() && expected[k].1 == path && 0 <= f < result.output_files.len()
                && result.output_files[f].path == expected[k].0,
        all_output_steps(result, expected)[i] matches OutputStepView::Symlink(path, _) ==> exists|
            k: int,
            l: int,
        |
            #![trigger expected[k], result.output_symlinks[l]]
            0 <= k < expected.len() && expected[k].1 == path && 0 <= l
                < result.output_symlinks.len() && result.output_symlinks[l].path == expected[k].0,
    decreases expected.len(),
{
    let front = expected.drop_last();
    let before = all_output_steps(result, front);
    let last = output_steps(result, expected.last());
    let all = all_output_steps(result, expected);
    let n = expected.len() - 1;
    if i < before.len() {
        assert(all[i] == before[i]);
        lemma_unreported_steps(result, front, i);
        if let OutputStepView::File(path, _, _) = all[i] {
            let (k, f) = choose|k: int, f: int|
                #![trigger front[k], result.output_files[f]]
                0 <= k < front.len() && front[k].1 == path && 0 <= f < result.output_files.len()
                    && result.output_files[f].path == front[k].0;
            assert(expected[k] == front[k]);
            assert(result.output_files[f].path == expected[k].0);
        }
        if let OutputStepView::Symlink(path, _) = all[i] {
            let (k, l) = choose|k: int, l: int|
                #![trigger front[k], result.output_symlinks[l]]
                0 <= k < front.len() && front[k].1 == path && 0 <= l
                    < result.output_symlinks.len() && result.output_symlinks[l].path == front[k].0;
            assert(expected[k] == front[k]);
            assert(result.output_symlinks[l].path == expected[k].0);
        }
    } else {
        assert(all[i] == last[i - before.len()]);
        lemma_found_file(result.output_files, expected[n].0);
        lemma_found_link(result.output_symlinks, expected[n].0);
        if all[i] is File {
            let f = choose|f: int|
                0 <= f < result.output_files.len() && (#[trigger] result.output_files[f]).path
                    == expected[n].0;
            assert(result.output_files[f].path == expected[n].0);
        }
        if all[i] is Symlink {
            let l = choose|l: int|
                0 <= l < result.output_symlinks.len() && (#[trigger] result.output_symlinks[l]).path
                    == expected[n].0;
            assert(result.output_symlinks[l].path == expected[n].0);
        }
    }
}

proof fn lemma_found_file(files: Seq<OutputFileView>, path: Seq<char>)
    ensures
        last_file(files, path) is Some ==> exists|f: int|
            0 <= f < files.len() && (#[trigger] files[f]).path == path,
    decreases files.len(),
{
    if files.len() > 0 {
        let front = files.drop_last();
        lemma_found_file(front, path);
        if files.last().path == path {
            assert(files[files.len() - 1].path == path);
        } else if last_file(front, path) is Some {
            let f = choose|f: int| 0 <= f < front.len() && (#[trigger] front[f]).path == path;
            assert(files[f].path == path);
        }
    }
}

proof fn lemma_found_link(links: Seq<OutputSymlinkView>, path: Seq<char>)
    ensures
        last_symlink(links, path) is Some ==> exists|l: int|
            0 <= l < links.len() && (#[trigger] links[l]).path == path,
    decreases links.len(),
{
    if links.len() > 0 {
        let front = links.drop_last();
        lemma_found_link(front, path);
        if links.last().path == path {
            assert(links[links.len() - 1].path == path);
        } else if last_symlink(front, path) is Some {
            let l = choose|l: int| 0 <= l < front.len() && (#[trigger] front[l]).path == path;
            assert(links[l].path == path);
        }
    }
}

/// Nothing is written that was not both expected and reported.
pub proof fn only_expected_outputs_are_written(
    result: ActionResultView,
    expected: Seq<(Seq<char>, Seq<u8>)>,
    i: int,
)
    requires
        0 <= i < output_plan(result, expected).len(),
    ensures
        output_plan(result, expected)[i] matches OutputStepView::File(path, _, _) ==> exists|
            k: int,
            f: int,
        |
            #![trigger expected[k], result.output_files[f]]
            0 <= k < expected.len() && expected[k].1 == path && 0 <= f < result.output_files.len()
                && result.output_files[f].path == expected[k].0,
        output_plan(result, expected)[i] matches OutputStepView::Symlink(path, _) ==> exists|
            k: int,
            l: int,
        |
            #![trigger expected[k], result.output_symlinks[l]]
            0 <= k < expected.len() && expected[k].1 == path && 0 <= l
                < result.output_symlinks.len() && result.output_symlinks[l].path == expected[k].0,
{
    if i >= expected.len() {
        assert(output_plan(result, expected)[i] == all_output_steps(result, expected)[i
            - expected.len()]);
        lemma_unreported_steps(result, expected, i - expected.len());
    }
}

/// The blobs that the remote store lacks are those that it was found to lack before and those that
/// it names now.
pub proof fn named_blobs_are_lacking(
    set: Seq<(DigestView, ())>,
    named: Seq<DigestView>,
    d: DigestView,
)
    requires
        sorted::<DigestKey, ()>(set),
    ensures
        sorted::<DigestKey, ()>(with_digests(set, named)),
        has::<DigestKey, ()>(with_digests(set, named), d) <==> has::<DigestKey, ()>(set, d)
            || named.contains(d),
    decreases named.len(),
{
    if named.len() > 0 {
        let front = named.drop_last();
        named_blobs_are_lacking(set, front, d);
        let before = with_digests(set, front);
        lemma_with::<DigestKey, ()>(before, named.last(), ());
        lemma_has::<DigestKey, ()>(before, d);
        lemma_has::<DigestKey, ()>(with::<DigestKey, ()>(before, named.last(), ()), d);
        if named.contains(d) {
            let i = choose|i: int| 0 <= i < named.len() && named[i] == d;
            if i < front.len() {
                assert(front[i] == d);
            }
        }
        if front.contains(d) {
            let i = choose|i: int| 0 <= i < front.len() && front[i] == d;
            assert(named[i] == d);
        }
        assert(named[named.len() - 1] == named.last());
    }
}

/// What is said where a request failed.
pub open spec fn failure_of(r: RequestView, cause: Seq<char>) -> ErrorView {
    match r {
        RequestView::FindMissing(_) => failure_by(
            "failed to query the remote CAS for missing blobs"@,
            cause,
        ),
        RequestView::BatchUpdate(_) => failure_by(
            "failed to upload blobs to the remote CAS"@,
            cause,
        ),
        RequestView::Write(_, _) => failure_by("failed to upload blob via ByteStream"@, cause),
        RequestView::Execute(_) => failure_by("failed to start remote execution"@, cause),
        RequestView::Poll => failure_by("failed while polling remote execution"@, cause),
        RequestView::BatchRead(_) => failure_by(
            "failed to download blob from the remote CAS"@,
            cause,
        ),
        RequestView::Read(_, _, _) => failure_by("failed to start ByteStream download"@, cause),
        RequestView::Finish(_) => failure("remote execution received an unexpected reply"@),
        _ => failure(cause),
    }
}

/// Where a request fails, it is said which one, and why.
pub proof fn failed_request_says_so(p: PlanView, m: Move, cause: Seq<char>)
    requires
        asks_for(p, m),
    ensures
        moved(p, m.0, EventView::Failed(cause)) == Err::<Move, ErrorView>(failure_of(m.1, cause)),
        m.1 is Read ==> moved(p, m.0, EventView::Interrupted(cause)) == Err::<Move, ErrorView>(
            failure_by("failed while downloading from ByteStream"@, cause),
        ),
        m.1 is Poll ==> moved(p, m.0, EventView::Ended) == Err::<Move, ErrorView>(
            failure("remote execution stream ended before completion"@),
        ),
{
}

/// What the remote store refuses ends the execution, and it is said what it refused and why.
pub proof fn refused_blob_says_so(p: PlanView, m: Move, status: StatusView, i: int)
    requires
        asks_for(p, m),
        status.code != 0,
    ensures
        m.1 is BatchUpdate ==> forall|statuses: Seq<Option<StatusView>>|
            0 <= i < statuses.len() && statuses[i] == Some(status) && (forall|j: int|
                0 <= j < i ==> ((#[trigger] statuses[j]) matches Some(s) ==> s.code == 0))
                ==> #[trigger] moved(p, m.0, EventView::Updated(statuses)) == Err::<
                Move,
                ErrorView,
            >(
                failure(
                    "remote CAS rejected blob upload with status "@ + signed_decimal(
                        status.code as int,
                    ) + ": "@ + status.message,
                ),
            ),
        m.1 matches RequestView::Write(digest, _) ==> forall|size: i64|
            size != digest.size_bytes ==> #[trigger] moved(p, m.0, EventView::Committed(size))
                == Err::<Move, ErrorView>(
                failure(
                    "ByteStream committed "@ + signed_decimal(size as int) + " bytes for blob "@
                        + digest.hash + ", expected "@ + signed_decimal(digest.size_bytes as int),
                ),
            ),
        m.1 matches RequestView::BatchRead(digest) ==> {
            &&& moved(p, m.0, EventView::Blobs(seq![])) == Err::<Move, ErrorView>(
                failure("remote CAS returned no data for blob "@ + digest.hash),
            )
            &&& forall|replies: Seq<BlobReplyView>|
                replies.len() > 0 && replies[0].status == Some(status) ==> #[trigger] moved(
                    p,
                    m.0,
                    EventView::Blobs(replies),
                ) == Err::<Move, ErrorView>(
                    failure(
                        "remote CAS returned status "@ + signed_decimal(status.code as int)
                            + " while downloading blob "@ + digest.hash + ": "@ + status.message,
                    ),
                )
        },
{
    if m.1 is BatchUpdate {
        assert forall|statuses: Seq<Option<StatusView>>|
            0 <= i < statuses.len() && statuses[i] == Some(status) && (forall|j: int|
                0 <= j < i ==> ((#[trigger] statuses[j]) matches Some(s) ==> s.code
                    == 0)) implies #[trigger] moved(p, m.0, EventView::Updated(statuses)) == Err::<
            Move,
            ErrorView,
        >(
            failure(
                "remote CAS rejected blob upload with status "@ + signed_decimal(status.code as int)
                    + ": "@ + status.message,
            ),
        ) by {
            lemma_first_refusal(statuses, status, i);
        }
    }
}

proof fn lemma_first_refusal(statuses: Seq<Option<StatusView>>, status: StatusView, i: int)
    requires
        status.code != 0,
        0 <= i < statuses.len(),
        statuses[i] == Some(status),
        forall|j: int| 0 <= j < i ==> ((#[trigger] statuses[j]) matches Some(s) ==> s.code == 0),
    ensures
        first_refusal(statuses) == Some(status),
    decreases statuses.len(),
{
    if i > 0 {
        let rest = statuses.skip(1);
        assert(statuses[0] matches Some(s) ==> s.code == 0);
        assert forall|j: int| 0 <= j < i - 1 implies (#[trigger] rest[j] matches Some(s) ==> s.code
            == 0) by {
            assert(rest[j] == statuses[j + 1]);
        }
        lemma_first_refusal(rest, status, i - 1);
    }
}

/// The answer to the execution is acted on as it was written: its printed bytes are come by first.
/// An execution that failed, or that ended without an answer or without a result, says so.
pub proof fn answer_is_acted_on(
    p: PlanView,
    response: ExecuteResponseView,
    status: StatusView,
)
    requires
        response_wire(response).len() <= u64::MAX,
    ensures
        moved(
            p,
            StageView::Polling,
            EventView::Operation(
                true,
                Some(OperationResultView::Response(response_wire(response))),
            ),
        ) == (match response.result {
            Some(result) => Ok(to_stdout(p, result, response.status)),
            None => Err(
                failure("remote execution response did not include an action result"@),
            ),
        }),
        moved(
            p,
            StageView::Polling,
            EventView::Operation(true, Some(OperationResultView::Error(status))),
        ) == Err::<Move, ErrorView>(
            failure(
                "remote execution operation failed with status "@ + signed_decimal(
                    status.code as int,
                ) + ": "@ + status.message,
            ),
        ),
        moved(p, StageView::Polling, EventView::Operation(true, None)) == Err::<Move, ErrorView>(
            failure("remote execution completed without a response"@),
        ),
{
    decoding_undoes_encoding(response);
}

/// The stage has what it needs for its requests to stay within their limits.
pub open spec fn stays_in_limits(s: StageView) -> bool {
    match s {
        StageView::Finding(u, from, _) => 0 <= from <= u.len(),
        StageView::Uploading(u, _) => upload_in_limits(u),
        _ => true,
    }
}

/// A request about blobs is about no more than there may be in one, and a batch has no more bytes
/// than one may have; a blob is streamed only where no batch can hold it.
pub open spec fn in_limits(r: RequestView) -> bool {
    match r {
        RequestView::FindMissing(digests) => 0 < digests.len() <= 128,
        RequestView::BatchUpdate(blobs) => 0 < blobs.len() <= 128 && total_bytes(blobs) <= 16
            * 1024 * 1024,
        RequestView::Write(_, data) => data.len() > 16 * 1024 * 1024,
        _ => true,
    }
}

proof fn lemma_uploading_in_limits(p: PlanView, u: UploaderView)
    requires
        upload_in_limits(u),
    ensures
        stays_in_limits(to_uploading(p, u).0),
        in_limits(to_uploading(p, u).1),
{
    let files = |path: Seq<u8>| Seq::<u8>::empty();
    uploading_loses_nothing(u, files);
}

proof fn lemma_finding_in_limits(
    p: PlanView,
    u: Seq<(DigestView, BlobView)>,
    from: int,
    missing: Seq<(DigestView, ())>,
)
    requires
        0 <= from <= u.len(),
    ensures
        stays_in_limits(to_finding(p, u, from, missing).0),
        in_limits(to_finding(p, u, from, missing).1),
{
    if from == u.len() {
        let start = upload_start(u, missing);
        assert(total_bytes(seq![]) == 0);
        lemma_uploading_in_limits(p, start);
    }
}

/// Whatever happens, every request stays within the limits.
pub proof fn requests_stay_within_limits(p: PlanView, s: StageView, e: EventView)
    requires
        stays_in_limits(s),
        s matches StageView::Uploading(u, SentView::Load) ==> u.left.len() > 0,
    ensures
        moved(p, s, e) matches Ok(m) ==> stays_in_limits(m.0) && in_limits(m.1),
{
    if let Ok(m) = moved(p, s, e) {
        request_is_for_what_is_waited_for(p, s, e);
        match s {
            StageView::Finding(u, from, missing) => {
                if let EventView::Missing(digests) = e {
                    lemma_finding_in_limits(
                        p,
                        u,
                        query_end(u.len() as int, from),
                        with_digests(missing, digests),
                    );
                }
            },
            StageView::Uploading(u, SentView::Load) => {
                if let EventView::Loaded(data) = e {
                    let files = |path: Seq<u8>| data;
                    let item = (u.left[0].digest, data);
                    offered_blob_is_kept(u.pending, item);
                    let v = crate::upload::taken_up(u, data);
                    assert forall|i: int| 0 <= i < v.steps.len() implies within_limits(
                        #[trigger] v.steps[i],
                    ) by {
                        if i < u.steps.len() {
                            assert(v.steps[i] == u.steps[i]);
                        } else {
                            assert(v.steps[i] == offered(u.pending, item).0[i - u.steps.len()]);
                        }
                    }
                    lemma_uploading_in_limits(p, v);
                }
            },
            StageView::Uploading(u, _) => {
                lemma_uploading_in_limits(p, u);
            },
            _ => {},
        }
    }
}

/// The first requests too.
pub proof fn first_request_stays_within_limits(config: ConfigView, prepared: PreparedView)
    ensures
        stays_in_limits(started(config, prepared).0),
        in_limits(started(config, prepared).1),
{
    lemma_finding_in_limits(
        crate::execution::plan_of(config, prepared),
        prepared.uploads,
        0,
        seq![],
    );
}

/// A question about what is lacking is about as many blobs as it may be, or about all that are
/// left.
pub proof fn questions_are_full(u: Seq<(DigestView, BlobView)>, from: int, i: int)
    requires
        0 <= from <= i < u.len(),
        i < from + 128,
    ensures
        query(u, from).len() == (if u.len() - from > 128 {
            128
        } else {
            u.len() - from
        }),
        query(u, from)[i - from] == u[i].1.digest,
{
}

/// A batch is sent only where the next blob has no room in it: where it has as many blobs as it may
/// have, or would have too many bytes. The blob that has no room begins the next batch, and one
/// that no batch can hold is streamed.
pub proof fn batches_are_full(pending: Seq<Item>, item: Item)
    ensures
        item.1.len() <= 16 * 1024 * 1024 && pending.len() < 128 && total_bytes(pending)
            + item.1.len() <= 16 * 1024 * 1024 ==> {
            &&& offered(pending, item).0.len() == 0
            &&& offered(pending, item).1 == pending.push(item)
        },
        item.1.len() <= 16 * 1024 * 1024 && (pending.len() >= 128 || total_bytes(pending)
            + item.1.len() > 16 * 1024 * 1024) ==> {
            &&& offered(pending, item).0 == seq![StepView::Batch(pending)]
            &&& offered(pending, item).1 == seq![item]
        },
        item.1.len() > 16 * 1024 * 1024 ==> {
            &&& offered(pending, item).0.last() == StepView::Stream(item.0, item.1)
            &&& offered(pending, item).1.len() == 0
        },
{
}

/// A file is read only for a blob whose bytes are not here, and only when it is its turn.
pub proof fn files_are_read_when_they_are_sent(u: UploaderView)
    requires
        u.steps.len() == 0,
        u.left.len() > 0,
    ensures
        u.left[0].data matches DataView::File(path) ==> upload_next(u) == (
            u,
            UploadActionView::Load(path),
        ),
        u.left[0].data matches DataView::Bytes(bytes) ==> upload_next(u) == upload_next(
            crate::upload::taken_up(u, bytes),
        ),
{
}

/// No blob is sent that the remote store did not name, and none without bytes.
pub proof fn only_lacking_blobs_are_sent(
    u: Seq<(DigestView, BlobView)>,
    missing: Seq<(DigestView, ())>,
    b: BlobView,
)
    requires
        honest(u),
        upload_start(u, missing).left.contains(b),
    ensures
        b.digest.size_bytes != 0,
        has::<DigestKey, ()>(missing, b.digest),
        holds(u, b.digest),
        upload_start(u, missing).pending.len() == 0,
        upload_start(u, missing).steps.len() == 0,
{
    selected_blobs_are_those_wanted(u, missing, b);
    let i = choose|i: int| 0 <= i < u.len() && (#[trigger] u[i]).1 == b && wanted(u[i], missing);
    assert(u[i].0 == b.digest);
}

} // verus!
