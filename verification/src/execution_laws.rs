//! What holds of the course of a remote execution, whatever happens on the way.
use vstd::prelude::*;

use crate::digest::{DigestKey, DigestView};
use crate::execution::{
    fetched, moved, to_finding, to_stderr, to_stdout, to_uploading, to_writing, AwaitedView,
    EventView, Move, PlanView, RemoteResultView, RequestView, StageView,
};
use crate::outputs::{output_plan, OutputStepView};
use crate::response::ActionResultView;
use crate::sorted::has;
use crate::transfer::{fetch_of, FetchView, StatusView};
use crate::upload::{
    blob_bytes, owed, queries, queries_ask_about_every_blob, query_end, selected,
    selected_blobs_are_those_wanted, step_items, steps_items, taken_up, taking_up_owes_the_same,
    total_bytes, upload_digests, upload_in_limits, upload_next, upload_start,
    uploading_loses_nothing, wanted, with_digests, Item, UploadActionView, UploaderView,
};
use crate::uploads::BlobView;

verus! {

/// What has come to pass by the time the execution is asked for: what the remote store was asked
/// about, what it was found to lack, and what was sent to it.
#[verifier::ext_equal]
pub struct Sending {
    pub asked: Seq<Seq<DigestView>>,
    pub missing: Seq<(DigestView, ())>,
    pub sent: Seq<Item>,
}

/// The blobs that a request sends.
pub open spec fn request_items(r: RequestView) -> Seq<Item> {
    match r {
        RequestView::BatchUpdate(blobs) => blobs,
        RequestView::Write(digest, data) => seq![(digest, data)],
        _ => seq![],
    }
}

/// The blobs that a request asks about.
pub open spec fn request_query(r: RequestView) -> Seq<Seq<DigestView>> {
    match r {
        RequestView::FindMissing(digests) => seq![digests],
        _ => seq![],
    }
}

/// What the remote store is known to lack after an event.
pub open spec fn known_missing(s: StageView, e: EventView, missing: Seq<(DigestView, ())>) -> Seq<
    (DigestView, ()),
> {
    match (s, e) {
        (StageView::Finding(_, _, _), EventView::Missing(digests)) => with_digests(
            missing,
            digests,
        ),
        _ => missing,
    }
}

/// What has come to pass by the time the execution is asked for, where the events lead that far.
pub open spec fn sending(
    p: PlanView,
    m: Move,
    missing: Seq<(DigestView, ())>,
    events: Seq<EventView>,
) -> Option<Sending>
    decreases events.len(),
{
    if m.0 is Starting {
        Some(Sending { asked: seq![], missing, sent: seq![] })
    } else if events.len() == 0 || !(m.0 is Finding || m.0 is Uploading) {
        None
    } else {
        match moved(p, m.0, events[0]) {
            Ok(n) => match sending(
                p,
                n,
                known_missing(m.0, events[0], missing),
                events.skip(1),
            ) {
                Some(s) => Some(
                    Sending {
                        asked: request_query(m.1) + s.asked,
                        sent: request_items(m.1) + s.sent,
                        ..s
                    },
                ),
                None => None,
            },
            Err(_) => None,
        }
    }
}

/// Whenever a file was read, it held what `files` says.
pub open spec fn truthful(
    p: PlanView,
    m: Move,
    events: Seq<EventView>,
    files: spec_fn(Seq<u8>) -> Seq<u8>,
) -> bool
    decreases events.len(),
{
    events.len() > 0 ==> {
        &&& match (m.1, events[0]) {
            (RequestView::Load(path), EventView::Loaded(data)) => data == files(path),
            _ => true,
        }
        &&& moved(p, m.0, events[0]) matches Ok(n) ==> truthful(p, n, events.skip(1), files)
    }
}

proof fn lemma_what_is_owed_is_sent(
    p: PlanView,
    u: UploaderView,
    missing: Seq<(DigestView, ())>,
    events: Seq<EventView>,
    files: spec_fn(Seq<u8>) -> Seq<u8>,
)
    requires
        upload_in_limits(u),
        truthful(p, to_uploading(p, u), events, files),
    ensures
        sending(p, to_uploading(p, u), missing, events) matches Some(s) ==> s.missing == missing
            && s.sent == owed(u, files) && s.asked.len() == 0,
    decreases events.len(),
{
    let m = to_uploading(p, u);
    let (v, action) = upload_next(u);
    uploading_loses_nothing(u, files);
    if !(action is Done) && events.len() > 0 {
        let rest = events.skip(1);
        match action {
            UploadActionView::Load(path) => {
                if let EventView::Loaded(data) = events[0] {
                    assert(data == blob_bytes(v.left[0], files));
                    taking_up_owes_the_same(v, files);
                    lemma_what_is_owed_is_sent(p, taken_up(v, data), missing, rest, files);
                    if let Some(s) = sending(p, m, missing, events) {
                        assert(s.sent =~= owed(u, files));
                    }
                }
            },
            UploadActionView::Send(step) => {
                if moved(p, m.0, events[0]) is Ok {
                    lemma_what_is_owed_is_sent(p, v, missing, rest, files);
                    assert(request_items(m.1) == step_items(step));
                }
            },
            UploadActionView::Done => {},
        }
    }
}

/// The blobs that the remote store lacks, with their bytes.
pub open spec fn lacking(
    u: Seq<(DigestView, BlobView)>,
    missing: Seq<(DigestView, ())>,
    files: spec_fn(Seq<u8>) -> Seq<u8>,
) -> Seq<Item> {
    selected(u, missing).map_values(|b: BlobView| (b.digest, blob_bytes(b, files)))
}

/// By the time the execution is asked for, the remote store was asked about every blob, and every
/// blob that it was found to lack has been sent to it, once and in order, and no other blob has.
pub proof fn nothing_is_executed_before_its_blobs_are_sent(
    p: PlanView,
    u: Seq<(DigestView, BlobView)>,
    from: int,
    missing: Seq<(DigestView, ())>,
    events: Seq<EventView>,
    files: spec_fn(Seq<u8>) -> Seq<u8>,
)
    requires
        0 <= from <= u.len(),
        truthful(p, to_finding(p, u, from, missing), events, files),
    ensures
        sending(p, to_finding(p, u, from, missing), missing, events) matches Some(s) ==> {
            &&& s.sent == lacking(u, s.missing, files)
            &&& s.asked == queries(u, from)
            &&& s.asked.flatten() == upload_digests(u).skip(from)
        },
    decreases events.len(),
{
    let m = to_finding(p, u, from, missing);
    queries_ask_about_every_blob(u, from);
    if from < u.len() {
        if events.len() > 0 {
            if let EventView::Missing(digests) = events[0] {
                let next = query_end(u.len() as int, from);
                let known = with_digests(missing, digests);
                nothing_is_executed_before_its_blobs_are_sent(
                    p,
                    u,
                    next,
                    known,
                    events.skip(1),
                    files,
                );
                if let Some(s) = sending(p, m, missing, events) {
                    assert(s.sent =~= lacking(u, s.missing, files));
                    assert(s.asked =~= queries(u, from));
                }
            }
        }
    } else {
        let start = upload_start(u, missing);
        assert(total_bytes(seq![]) == 0);
        lemma_what_is_owed_is_sent(p, start, missing, events, files);
        assert(steps_items(seq![]) =~= seq![]);
        assert(owed(start, files) =~= lacking(u, missing, files));
        if let Some(s) = sending(p, m, missing, events) {
            assert(s.asked =~= queries(u, from));
        }
    }
}

/// By the time the execution is asked for, a blob with bytes has been sent, unless the remote store
/// did not name it among those that it lacks.
pub proof fn every_blob_is_there_or_sent(
    p: PlanView,
    u: Seq<(DigestView, BlobView)>,
    events: Seq<EventView>,
    files: spec_fn(Seq<u8>) -> Seq<u8>,
    i: int,
)
    requires
        0 <= i < u.len(),
        u[i].1.digest.size_bytes != 0,
        truthful(p, to_finding(p, u, 0, seq![]), events, files),
    ensures
        sending(p, to_finding(p, u, 0, seq![]), seq![], events) matches Some(s) ==> (has::<
            DigestKey,
            (),
        >(s.missing, u[i].0) ==> s.sent.contains((u[i].1.digest, blob_bytes(u[i].1, files)))),
{
    nothing_is_executed_before_its_blobs_are_sent(p, u, 0, seq![], events, files);
    if let Some(s) = sending(p, to_finding(p, u, 0, seq![]), seq![], events) {
        if has::<DigestKey, ()>(s.missing, u[i].0) {
            let blobs = selected(u, s.missing);
            selected_blobs_are_those_wanted(u, s.missing, u[i].1);
            assert(wanted(u[i], s.missing));
            assert(blobs.contains(u[i].1));
            let j = choose|j: int| 0 <= j < blobs.len() && blobs[j] == u[i].1;
            assert(s.sent[j] == (u[i].1.digest, blob_bytes(u[i].1, files)));
        }
    }
}

/// The bytes that are here or that the next event brings, and the events after that.
pub open spec fn received(f: FetchView, events: Seq<EventView>) -> Option<
    (Seq<u8>, Seq<EventView>),
> {
    match f {
        FetchView::Have(data) => Some((data, events)),
        FetchView::Batch(digest) => brought(AwaitedView { digest, streamed: false }, events),
        FetchView::Stream(digest) => brought(AwaitedView { digest, streamed: true }, events),
    }
}

/// The bytes of a blob that the next event brings, and the events after it.
pub open spec fn brought(a: AwaitedView, events: Seq<EventView>) -> Option<
    (Seq<u8>, Seq<EventView>),
> {
    if events.len() == 0 {
        None
    } else {
        match fetched(a, events[0]) {
            Ok(data) => Some((data, events.skip(1))),
            Err(_) => None,
        }
    }
}

/// Where the bytes for a step come from; only a file has any.
pub open spec fn step_fetch(step: OutputStepView) -> FetchView {
    match step {
        OutputStepView::File(_, fetch, _) => fetch,
        _ => FetchView::Have(seq![]),
    }
}

/// The request that carries out a step; a file gets the bytes `data`.
pub open spec fn step_request(step: OutputStepView, data: Seq<u8>) -> RequestView {
    match step {
        OutputStepView::Remove(path) => RequestView::Remove(path),
        OutputStepView::CreateDir(path) => RequestView::CreateDir(path),
        OutputStepView::Symlink(path, target) => RequestView::WriteSymlink(path, target),
        OutputStepView::File(path, _, executable) => RequestView::WriteFile(path, data, executable),
    }
}

/// The requests that carry out the steps, once each and in order, where each file gets the bytes
/// that are here for it or that were brought for it; one event follows each request.
pub open spec fn carried_out(steps: Seq<OutputStepView>, events: Seq<EventView>) -> Option<
    Seq<RequestView>,
>
    decreases steps.len(),
{
    if steps.len() == 0 {
        Some(seq![])
    } else {
        match received(step_fetch(steps[0]), events) {
            Some((data, later)) => match carried_out(steps.skip(1), later.skip(1)) {
                Some(rest) => Some(seq![step_request(steps[0], data)] + rest),
                None => None,
            },
            None => None,
        }
    }
}

/// What was done on the local file system by the time the outcome is there, where the events lead
/// that far, and the outcome.
pub open spec fn writing(p: PlanView, m: Move, events: Seq<EventView>) -> Option<
    (Seq<RequestView>, RemoteResultView),
>
    decreases events.len(),
{
    match m.1 {
        RequestView::Finish(result) => Some((seq![], result)),
        _ => if events.len() == 0 {
            None
        } else {
            match moved(p, m.0, events[0]) {
                Ok(n) => match writing(p, n, events.skip(1)) {
                    Some((rest, result)) => Some(
                        (
                            if m.0 is Writing {
                                seq![m.1] + rest
                            } else {
                                rest
                            },
                            result,
                        ),
                    ),
                    None => None,
                },
                Err(_) => None,
            }
        },
    }
}

/// By the time the outcome is there, every step for the outputs has been carried out, once and in
/// order, with the bytes that were fetched for it, and nothing else has been done; the outcome is
/// the one that there was before.
pub proof fn outputs_are_in_place_before_the_outcome(
    p: PlanView,
    result: RemoteResultView,
    steps: Seq<OutputStepView>,
    events: Seq<EventView>,
)
    ensures
        writing(p, to_writing(p, result, steps), events) matches Some((done, outcome)) ==> {
            &&& outcome == result
            &&& carried_out(steps, events) == Some(done)
            &&& done.len() == steps.len()
        },
    decreases events.len(),
{
    let m = to_writing(p, result, steps);
    if steps.len() > 0 && events.len() > 0 {
        let rest = steps.skip(1);
        if m.0 is Writing {
            outputs_are_in_place_before_the_outcome(p, result, rest, events.skip(1));
        } else if let Ok(n) = moved(p, m.0, events[0]) {
            let later = events.skip(1);
            assert(n.0 == StageView::Writing(result, rest));
            if later.len() > 0 {
                outputs_are_in_place_before_the_outcome(p, result, rest, later.skip(1));
                if let Some((done, outcome)) = writing(p, m, events) {
                    assert(writing(p, n, later) == Some((done, outcome)));
                }
            }
        }
    }
}

/// The outcome of an answer, and what is done for its outputs: the exit code and the status of the
/// answer, the printed bytes that came with it or that were fetched for it, and the files with the
/// bytes that were fetched for them.
pub open spec fn fulfilled(
    p: PlanView,
    result: ActionResultView,
    status: Option<StatusView>,
    events: Seq<EventView>,
    done: Seq<RequestView>,
    outcome: RemoteResultView,
) -> bool {
    match received(fetch_of(result.stdout_raw, result.stdout_digest), events) {
        Some((stdout, after)) => fulfilled_from(p, result, status, stdout, after, done, outcome),
        None => false,
    }
}

/// The same, once it is known what was printed.
pub open spec fn fulfilled_from(
    p: PlanView,
    result: ActionResultView,
    status: Option<StatusView>,
    stdout: Seq<u8>,
    events: Seq<EventView>,
    done: Seq<RequestView>,
    outcome: RemoteResultView,
) -> bool {
    match received(fetch_of(result.stderr_raw, result.stderr_digest), events) {
        Some((stderr, after)) => {
            &&& outcome == RemoteResultView { exit_code: result.exit_code, stdout, stderr, status }
            &&& carried_out(output_plan(result, p.expected_outputs), after) == Some(done)
            &&& done.len() == output_plan(result, p.expected_outputs).len()
        },
        None => false,
    }
}

/// The outcome has the exit code and the status of the answer and the bytes that were printed, and
/// by the time it is there the outputs are in their places, with the bytes fetched for them.
pub proof fn outcome_is_that_of_the_answer(
    p: PlanView,
    result: ActionResultView,
    status: Option<StatusView>,
    events: Seq<EventView>,
)
    ensures
        writing(p, to_stdout(p, result, status), events) matches Some((done, outcome))
            ==> fulfilled(p, result, status, events, done, outcome),
{
    let m = to_stdout(p, result, status);
    if m.0 is Stdout {
        if events.len() > 0 {
            if let Ok(n) = moved(p, m.0, events[0]) {
                let stdout = fetched(m.0->Stdout_2, events[0])->Ok_0;
                lemma_outcome_after_stdout(p, result, status, stdout, events.skip(1));
            }
        }
    } else if let FetchView::Have(stdout) = fetch_of(result.stdout_raw, result.stdout_digest) {
        lemma_outcome_after_stdout(p, result, status, stdout, events);
    }
}

proof fn lemma_outcome_after_stdout(
    p: PlanView,
    result: ActionResultView,
    status: Option<StatusView>,
    stdout: Seq<u8>,
    events: Seq<EventView>,
)
    ensures
        writing(p, to_stderr(p, result, status, stdout), events) matches Some((done, outcome))
            ==> fulfilled_from(p, result, status, stdout, events, done, outcome),
{
    let m = to_stderr(p, result, status, stdout);
    let steps = output_plan(result, p.expected_outputs);
    if m.0 is Stderr {
        if events.len() > 0 {
            if let Ok(n) = moved(p, m.0, events[0]) {
                let stderr = fetched(m.0->Stderr_3, events[0])->Ok_0;
                let outcome = RemoteResultView {
                    exit_code: result.exit_code,
                    stdout,
                    stderr,
                    status,
                };
                outputs_are_in_place_before_the_outcome(p, outcome, steps, events.skip(1));
            }
        }
    } else if let FetchView::Have(stderr) = fetch_of(result.stderr_raw, result.stderr_digest) {
        let outcome = RemoteResultView { exit_code: result.exit_code, stdout, stderr, status };
        outputs_are_in_place_before_the_outcome(p, outcome, steps, events);
    }
}

} // verus!
