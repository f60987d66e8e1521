//! Bringing the blobs that the remote store lacks into it.
use vstd::prelude::*;

use crate::digest::{Digest, DigestKey, DigestView};
use crate::local_path::{copy_bytes, LocalPath};
use crate::sorted::{contains_key, entries, has, put, sorted, with};
use crate::transfer::{MAX_BATCH_BLOBS, MAX_BATCH_BYTES};
use crate::uploads::{blobs, BlobView, DataView, UploadBlob, UploadData, UploadMap};

verus! {

/// A blob with its bytes.
pub type Item = (DigestView, Seq<u8>);

/// The contents of blobs with their bytes.
pub open spec fn items(s: Seq<(Digest, Vec<u8>)>) -> Seq<Item> {
    s.map_values(|b: (Digest, Vec<u8>)| (b.0@, b.1@))
}

/// The number of bytes in blobs.
pub open spec fn total_bytes(s: Seq<Item>) -> nat
    decreases s.len(),
{
    if s.len() == 0 {
        0
    } else {
        total_bytes(s.drop_last()) + s.last().1.len()
    }
}

/// Something to send: several blobs in one request, or one blob as a stream.
#[derive(Debug)]
pub enum UploadStep {
    Batch(Vec<(Digest, Vec<u8>)>),
    Stream(Digest, Vec<u8>),
}

/// The content of an [`UploadStep`].
pub enum StepView {
    Batch(Seq<Item>),
    Stream(DigestView, Seq<u8>),
}

impl View for UploadStep {
    type V = StepView;

    open spec fn view(&self) -> StepView {
        match self {
            UploadStep::Batch(blobs) => StepView::Batch(items(blobs@)),
            UploadStep::Stream(digest, data) => StepView::Stream(digest@, data@),
        }
    }
}

/// The blobs that a step sends.
pub open spec fn step_items(s: StepView) -> Seq<Item> {
    match s {
        StepView::Batch(blobs) => blobs,
        StepView::Stream(digest, data) => seq![(digest, data)],
    }
}

/// The blobs that several steps send.
pub open spec fn steps_items(s: Seq<StepView>) -> Seq<Item>
    decreases s.len(),
{
    if s.len() == 0 {
        seq![]
    } else {
        step_items(s[0]) + steps_items(s.skip(1))
    }
}

/// A batch is within the limits of one request, and a stream is for a blob that no batch can hold.
pub open spec fn within_limits(s: StepView) -> bool {
    match s {
        StepView::Batch(blobs) => 0 < blobs.len() <= MAX_BATCH_BLOBS && total_bytes(blobs)
            <= MAX_BATCH_BYTES,
        StepView::Stream(_, data) => data.len() > MAX_BATCH_BYTES,
    }
}

/// The steps that are due once a blob has come up, and the batch that is being filled after it.
pub open spec fn offered(pending: Seq<Item>, item: Item) -> (Seq<StepView>, Seq<Item>) {
    if item.1.len() > MAX_BATCH_BYTES {
        (
            (if pending.len() > 0 {
                seq![StepView::Batch(pending)]
            } else {
                seq![]
            }).push(StepView::Stream(item.0, item.1)),
            seq![],
        )
    } else if pending.len() >= MAX_BATCH_BLOBS || total_bytes(pending) + item.1.len()
        > MAX_BATCH_BYTES {
        (seq![StepView::Batch(pending)], seq![item])
    } else {
        (seq![], pending.push(item))
    }
}

/// A batch that is being filled is within the limits.
pub open spec fn fits(pending: Seq<Item>) -> bool {
    pending.len() <= MAX_BATCH_BLOBS && total_bytes(pending) <= MAX_BATCH_BYTES
}

/// Where a blob comes up, nothing is lost, sent twice or put out of order, every step is within
/// the limits, and so is the batch that is being filled.
pub proof fn offered_blob_is_kept(pending: Seq<Item>, item: Item)
    requires
        fits(pending),
    ensures
        steps_items(offered(pending, item).0) + offered(pending, item).1 == pending.push(item),
        fits(offered(pending, item).1),
        forall|i: int|
            0 <= i < offered(pending, item).0.len() ==> within_limits(
                #[trigger] offered(pending, item).0[i],
            ),
{
    let (steps, rest) = offered(pending, item);
    assert(seq![item].drop_last() =~= seq![]);
    assert(total_bytes(seq![]) == 0);
    assert(total_bytes(seq![item]) == item.1.len());
    assert(pending.push(item).drop_last() =~= pending);
    if steps.len() > 0 {
        lemma_steps_items_one(steps[0]);
        if steps.len() == 2 {
            lemma_steps_items_one(steps[1]);
            assert(steps.skip(1) =~= seq![steps[1]]);
        } else {
            assert(steps =~= seq![steps[0]]);
        }
    }
    assert(steps_items(steps) + rest =~= pending.push(item));
}

proof fn lemma_steps_items_one(s: StepView)
    ensures
        steps_items(seq![s]) == step_items(s),
{
    assert(seq![s].skip(1) =~= seq![]);
    assert(steps_items(seq![]) =~= seq![]);
    assert(step_items(s) + seq![] =~= step_items(s));
}

/// The blobs that are being gathered for one request.
#[derive(Debug)]
pub struct UploadBatch {
    pub blobs: Vec<(Digest, Vec<u8>)>,
    pub bytes: u64,
}

impl View for UploadBatch {
    type V = Seq<Item>;

    open spec fn view(&self) -> Seq<Item> {
        items(self.blobs@)
    }
}

impl UploadBatch {
    /// The number of bytes is right, and the batch is within the limits.
    pub open spec fn well_formed(&self) -> bool {
        self.bytes == total_bytes(self@) && fits(self@)
    }

    /// An empty batch.
    pub fn new() -> (r: UploadBatch)
        ensures
            r@ == Seq::<Item>::empty(),
            r.well_formed(),
    {
        let r = UploadBatch { blobs: Vec::new(), bytes: 0 };
        assert(r@ =~= seq![]);
        r
    }

    /// Takes all blobs out.
    fn take(&mut self) -> (r: Vec<(Digest, Vec<u8>)>)
        ensures
            items(r@) == old(self)@,
            final(self)@ == Seq::<Item>::empty(),
            final(self).well_formed(),
    {
        let mut r: Vec<(Digest, Vec<u8>)> = Vec::new();
        r.append(&mut self.blobs);
        self.bytes = 0;
        assert(items(r@) =~= old(self)@);
        assert(self@ =~= seq![]);
        r
    }

    /// Takes up a blob, and gives the steps that are due.
    pub fn offer(&mut self, digest: Digest, data: Vec<u8>) -> (r: Vec<UploadStep>)
        requires
            old(self).well_formed(),
        ensures
            step_views(r@) == offered(old(self)@, (digest@, data@)).0,
            final(self)@ == offered(old(self)@, (digest@, data@)).1,
            final(self).well_formed(),
    {
        let mut steps: Vec<UploadStep> = Vec::new();
        let len = data.len() as u64;
        let ghost item = (digest@, data@);
        let ghost start = self@;
        proof {
            offered_blob_is_kept(start, item);
        }
        if len > MAX_BATCH_BYTES {
            if self.blobs.len() > 0 {
                steps.push(UploadStep::Batch(self.take()));
            } else {
                assert(self@ =~= seq![]);
            }
            steps.push(UploadStep::Stream(digest, data));
            assert(step_views(steps@) =~= offered(start, item).0);
            return steps;
        }
        if self.blobs.len() >= MAX_BATCH_BLOBS || self.bytes + len > MAX_BATCH_BYTES {
            steps.push(UploadStep::Batch(self.take()));
        }
        let ghost before = self@;
        proof {
            assert(before.push(item).drop_last() =~= before);
            if start.len() > 0 && before.len() == 0 {
                assert(before.push(item) =~= seq![item]);
            }
        }
        self.bytes = self.bytes + len;
        self.blobs.push((digest, data));
        assert(self@ =~= before.push(item));
        assert(step_views(steps@) =~= offered(start, item).0);
        steps
    }

    /// The step that is due when no more blobs come up.
    pub fn finish(&mut self) -> (r: Option<UploadStep>)
        requires
            old(self).well_formed(),
        ensures
            match r {
                Some(step) => old(self)@.len() > 0 && step@ == StepView::Batch(old(self)@)
                    && within_limits(step@),
                None => old(self)@.len() == 0,
            },
            final(self)@ == Seq::<Item>::empty(),
            final(self).well_formed(),
    {
        if self.blobs.len() > 0 {
            Some(UploadStep::Batch(self.take()))
        } else {
            assert(self@ =~= seq![]);
            None
        }
    }
}

/// The contents of several steps.
pub open spec fn step_views(s: Seq<UploadStep>) -> Seq<StepView> {
    s.map_values(|x: UploadStep| x@)
}

/// The digests of the blobs in an upload set, in their order.
pub open spec fn upload_digests(u: Seq<(DigestView, BlobView)>) -> Seq<DigestView> {
    u.map_values(|e: (DigestView, BlobView)| e.1.digest)
}

/// Where the digests that one request asks about end.
pub open spec fn query_end(len: int, from: int) -> int {
    if len - from > MAX_BATCH_BLOBS {
        from + MAX_BATCH_BLOBS
    } else {
        len
    }
}

/// The digests that one request asks about.
pub open spec fn query(u: Seq<(DigestView, BlobView)>, from: int) -> Seq<DigestView> {
    upload_digests(u).subrange(from, query_end(u.len() as int, from))
}

/// All requests from a place on.
pub open spec fn queries(u: Seq<(DigestView, BlobView)>, from: int) -> Seq<Seq<DigestView>>
    decreases u.len() - from,
{
    if 0 <= from < u.len() {
        seq![query(u, from)] + queries(u, query_end(u.len() as int, from))
    } else {
        seq![]
    }
}

/// The requests ask about every blob once, in their order, and each about no more than the limit.
pub proof fn queries_ask_about_every_blob(u: Seq<(DigestView, BlobView)>, from: int)
    requires
        0 <= from <= u.len(),
    ensures
        queries(u, from).flatten() == upload_digests(u).skip(from),
        forall|i: int|
            0 <= i < queries(u, from).len() ==> 0 < (#[trigger] queries(u, from)[i]).len()
                <= MAX_BATCH_BLOBS,
    decreases u.len() - from,
{
    let all = queries(u, from);
    if from < u.len() {
        let end = query_end(u.len() as int, from);
        queries_ask_about_every_blob(u, end);
        assert(all.first() == query(u, from));
        assert(all.drop_first() =~= queries(u, end));
        assert(upload_digests(u).skip(from) =~= query(u, from) + upload_digests(u).skip(end));
        assert forall|i: int| 0 <= i < all.len() implies 0 < (#[trigger] all[i]).len()
            <= MAX_BATCH_BLOBS by {
            if i > 0 {
                assert(all[i] == queries(u, end)[i - 1]);
            }
        }
    } else {
        assert(all.flatten() =~= seq![]);
        assert(upload_digests(u).skip(from) =~= seq![]);
    }
}

/// The digests that one request asks about.
pub fn missing_query(uploads: &UploadMap, from: usize) -> (r: (Vec<Digest>, usize))
    requires
        from <= uploads@.len(),
    ensures
        digests_of(r.0@) == query(blobs(uploads@), from as int),
        r.1 == query_end(uploads@.len() as int, from as int),
        from <= r.1 <= uploads@.len(),
        from < uploads@.len() ==> from < r.1,
{
    let end: usize = if uploads.len() - from > MAX_BATCH_BLOBS {
        from + MAX_BATCH_BLOBS
    } else {
        uploads.len()
    };
    let mut r: Vec<Digest> = Vec::new();
    let mut i: usize = from;
    while i < end
        invariant
            from <= i <= end <= uploads@.len(),
            r@.len() == i - from,
            forall|j: int| 0 <= j < r@.len() ==> (#[trigger] r@[j])@ == uploads@[from + j].1.digest@,
        decreases end - i,
    {
        r.push(uploads[i].1.digest.clone());
        i += 1;
    }
    assert(digests_of(r@) =~= query(blobs(uploads@), from as int));
    (r, end)
}

/// The contents of digests.
pub open spec fn digests_of(s: Seq<Digest>) -> Seq<DigestView> {
    s.map_values(|d: Digest| d@)
}

/// Digests, in their order and each once.
pub type DigestSet = Vec<(DigestKey, ())>;

/// The set with more digests.
pub open spec fn with_digests(set: Seq<(DigestView, ())>, added: Seq<DigestView>) -> Seq<
    (DigestView, ()),
>
    decreases added.len(),
{
    if added.len() == 0 {
        set
    } else {
        with::<DigestKey, ()>(with_digests(set, added.drop_last()), added.last(), ())
    }
}

/// Adds digests to a set.
pub fn note_missing(set: &mut DigestSet, added: &Vec<Digest>)
    requires
        sorted::<DigestKey, ()>(entries(old(set)@)),
    ensures
        entries(final(set)@) == with_digests(entries(old(set)@), digests_of(added@)),
        sorted::<DigestKey, ()>(entries(final(set)@)),
{
    let ghost start = entries(set@);
    let ghost all = digests_of(added@);
    let mut i: usize = 0;
    assert(all.take(0) =~= seq![]);
    while i < added.len()
        invariant
            i <= added@.len(),
            all == digests_of(added@),
            sorted::<DigestKey, ()>(entries(set@)),
            entries(set@) == with_digests(start, all.take(i as int)),
        decreases added@.len() - i,
    {
        put(set, DigestKey::from_digest(&added[i]), ());
        proof {
            assert(all.take(i + 1).drop_last() =~= all.take(i as int));
            assert(all.take(i + 1).last() == added@[i as int]@);
        }
        i += 1;
    }
    assert(all.take(all.len() as int) =~= all);
}

/// A blob is to be sent: the remote store lacks it, and it is not empty.
pub open spec fn wanted(e: (DigestView, BlobView), missing: Seq<(DigestView, ())>) -> bool {
    has::<DigestKey, ()>(missing, e.0) && e.1.digest.size_bytes != 0
}

/// The blobs to send, in the order of their digests.
pub open spec fn selected(
    u: Seq<(DigestView, BlobView)>,
    missing: Seq<(DigestView, ())>,
) -> Seq<BlobView>
    decreases u.len(),
{
    if u.len() == 0 {
        seq![]
    } else {
        let front = selected(u.drop_last(), missing);
        if wanted(u.last(), missing) {
            front.push(u.last().1)
        } else {
            front
        }
    }
}

/// Exactly the blobs that the remote store lacks and that are not empty are sent.
pub proof fn selected_blobs_are_those_wanted(
    u: Seq<(DigestView, BlobView)>,
    missing: Seq<(DigestView, ())>,
    b: BlobView,
)
    ensures
        selected(u, missing).contains(b) <==> exists|i: int|
            0 <= i < u.len() && (#[trigger] u[i]).1 == b && wanted(u[i], missing),
    decreases u.len(),
{
    if u.len() > 0 {
        let front = selected(u.drop_last(), missing);
        selected_blobs_are_those_wanted(u.drop_last(), missing, b);
        if selected(u, missing).contains(b) {
            if front.contains(b) {
                let i = choose|i: int|
                    0 <= i < u.drop_last().len() && (#[trigger] u.drop_last()[i]).1 == b && wanted(
                        u.drop_last()[i],
                        missing,
                    );
                assert(u[i].1 == b && wanted(u[i], missing));
            } else {
                assert(u[u.len() - 1].1 == b && wanted(u[u.len() - 1], missing));
            }
        }
        if exists|i: int|
            0 <= i < u.len() && (#[trigger] u[i]).1 == b && wanted(u[i], missing) {
            let i = choose|i: int|
                0 <= i < u.len() && (#[trigger] u[i]).1 == b && wanted(u[i], missing);
            if i < u.len() - 1 {
                assert(u.drop_last()[i] == u[i]);
                assert(front.contains(b));
                let j = choose|j: int| 0 <= j < front.len() && front[j] == b;
                assert(selected(u, missing)[j] == b);
            } else {
                let all = selected(u, missing);
                assert(all[all.len() - 1] == b);
            }
        }
    }
}

/// Blobs in the opposite order.
pub open spec fn reversed_blobs(s: Seq<UploadBlob>) -> Seq<BlobView> {
    Seq::new(s.len(), |i: int| s[s.len() - 1 - i]@)
}

/// The blobs to send, the first one last.
fn select(uploads: UploadMap, missing: &DigestSet) -> (r: Vec<UploadBlob>)
    requires
        sorted::<DigestKey, ()>(entries(missing@)),
    ensures
        reversed_blobs(r@) == selected(blobs(uploads@), entries(missing@)),
{
    let ghost all = blobs(uploads@);
    let ghost set = entries(missing@);
    let mut left = uploads;
    let mut r: Vec<UploadBlob> = Vec::new();
    assert(selected(all, set) + reversed_blobs(r@) =~= selected(all, set));
    while left.len() > 0
        invariant
            set == entries(missing@),
            sorted::<DigestKey, ()>(set),
            selected(all, set) == selected(blobs(left@), set) + reversed_blobs(r@),
        ensures
            left@.len() == 0,
        decreases left@.len(),
    {
        let ghost now = blobs(left@);
        let ghost before = reversed_blobs(r@);
        match left.pop() {
            Some((key, blob)) => {
                proof {
                    assert(blobs(left@) =~= now.drop_last());
                    assert(now.last() == (key@, blob@));
                }
                if contains_key(missing, &key) && blob.digest.size_bytes != 0 {
                    r.push(blob);
                    proof {
                        assert(reversed_blobs(r@) =~= seq![blob@] + before);
                        assert(selected(now, set) + before =~= selected(blobs(left@), set) + (seq![
                            blob@,
                        ] + before));
                    }
                }
            },
            None => {
                break;
            },
        }
    }
    assert(reversed_blobs(r@) =~= selected(all, set));
    r
}

/// What is left to send.
#[derive(Debug)]
pub struct Uploader {
    /// The blobs that have not come up, the next one last.
    pub left: Vec<UploadBlob>,
    /// The batch that is being filled.
    pub batch: UploadBatch,
    /// The steps that are due.
    pub steps: Vec<UploadStep>,
}

/// The content of an [`Uploader`], the next blob first.
#[verifier::ext_equal]
pub struct UploaderView {
    pub left: Seq<BlobView>,
    pub pending: Seq<Item>,
    pub steps: Seq<StepView>,
}

impl View for Uploader {
    type V = UploaderView;

    open spec fn view(&self) -> UploaderView {
        UploaderView {
            left: reversed_blobs(self.left@),
            pending: self.batch@,
            steps: step_views(self.steps@),
        }
    }
}

/// What is to be done next about the blobs.
#[derive(Debug)]
pub enum UploadAction {
    /// Send them.
    Send(UploadStep),
    /// Read the file that holds the next one.
    Load(LocalPath),
    /// Nothing: all have been sent.
    Done,
}

/// The content of an [`UploadAction`].
pub enum UploadActionView {
    Send(StepView),
    Load(Seq<u8>),
    Done,
}

impl View for UploadAction {
    type V = UploadActionView;

    open spec fn view(&self) -> UploadActionView {
        match self {
            UploadAction::Send(step) => UploadActionView::Send(step@),
            UploadAction::Load(path) => UploadActionView::Load(path@),
            UploadAction::Done => UploadActionView::Done,
        }
    }
}

/// What is left once the next blob has come up with its bytes.
pub open spec fn taken_up(u: UploaderView, data: Seq<u8>) -> UploaderView {
    let (steps, pending) = offered(u.pending, (u.left[0].digest, data));
    UploaderView { left: u.left.skip(1), pending, steps: u.steps + steps }
}

/// What is to be done next, and what is left after it: first the steps that are due, then the
/// blobs that have not come up, and at last the batch that is being filled.
pub open spec fn upload_next(u: UploaderView) -> (UploaderView, UploadActionView)
    decreases u.left.len(),
{
    if u.steps.len() > 0 {
        (
            UploaderView { steps: u.steps.skip(1), ..u },
            UploadActionView::Send(u.steps[0]),
        )
    } else if u.left.len() > 0 {
        match u.left[0].data {
            DataView::Bytes(bytes) => upload_next(taken_up(u, bytes)),
            DataView::File(path) => (u, UploadActionView::Load(path)),
        }
    } else if u.pending.len() > 0 {
        (
            UploaderView { pending: seq![], ..u },
            UploadActionView::Send(StepView::Batch(u.pending)),
        )
    } else {
        (u, UploadActionView::Done)
    }
}

/// What is left to send before any blob has come up.
pub open spec fn upload_start(
    u: Seq<(DigestView, BlobView)>,
    missing: Seq<(DigestView, ())>,
) -> UploaderView {
    UploaderView { left: selected(u, missing), pending: seq![], steps: seq![] }
}

/// The steps that are due and the batch that is being filled are within the limits.
pub open spec fn upload_in_limits(u: UploaderView) -> bool {
    &&& fits(u.pending)
    &&& forall|i: int| 0 <= i < u.steps.len() ==> within_limits(#[trigger] u.steps[i])
}

impl Uploader {
    /// The batch that is being filled is well formed.
    pub open spec fn well_formed(&self) -> bool {
        self.batch.well_formed() && upload_in_limits(self@)
    }

    /// What there is to send of an upload set, where the remote store lacks these blobs.
    pub fn new(uploads: UploadMap, missing: &DigestSet) -> (r: Uploader)
        requires
            sorted::<DigestKey, ()>(entries(missing@)),
        ensures
            r@ == upload_start(blobs(uploads@), entries(missing@)),
            r.well_formed(),
    {
        let r = Uploader {
            left: select(uploads, missing),
            batch: UploadBatch::new(),
            steps: Vec::new(),
        };
        assert(r@ =~= upload_start(blobs(uploads@), entries(missing@)));
        r
    }

    /// Takes up the next blob with its bytes.
    pub fn take_up(&mut self, data: Vec<u8>)
        requires
            old(self).well_formed(),
        ensures
            final(self)@ == (if old(self)@.left.len() > 0 {
                taken_up(old(self)@, data@)
            } else {
                old(self)@
            }),
            final(self).well_formed(),
    {
        let ghost start = self@;
        if let Some(blob) = self.left.pop() {
            proof {
                assert(reversed_blobs(self.left@) =~= start.left.skip(1));
                assert(start.left[0] == blob@);
                offered_blob_is_kept(start.pending, (blob.digest@, data@));
            }
            let ghost before = self.steps@;
            let mut steps = self.batch.offer(blob.digest, data);
            let ghost due = steps@;
            self.steps.append(&mut steps);
            proof {
                assert(step_views(self.steps@) =~= step_views(before) + step_views(due));
                assert(self@ =~= taken_up(start, data@));
                assert forall|i: int| 0 <= i < self@.steps.len() implies within_limits(
                    #[trigger] self@.steps[i],
                ) by {
                    if i < before.len() {
                        assert(self@.steps[i] == start.steps[i]);
                    } else {
                        assert(self@.steps[i] == step_views(due)[i - before.len()]);
                    }
                }
            }
        } else {
            assert(self@ =~= start);
        }
    }

    /// What is to be done next.
    pub fn next(&mut self) -> (r: UploadAction)
        requires
            old(self).well_formed(),
        ensures
            (final(self)@, r@) == upload_next(old(self)@),
            final(self).well_formed(),
            r matches UploadAction::Send(step) ==> within_limits(step@),
            r is Load ==> final(self)@.left.len() > 0,
    {
        loop
            invariant
                self.well_formed(),
                upload_next(self@) == upload_next(old(self)@),
            decreases self.left@.len(),
        {
            let ghost now = self@;
            if self.steps.len() > 0 {
                let step = self.steps.remove(0);
                proof {
                    assert(step_views(self.steps@) =~= now.steps.skip(1));
                    assert(self@ =~= (UploaderView { steps: now.steps.skip(1), ..now }));
                    assert(step@ == now.steps[0]);
                    assert forall|i: int| 0 <= i < self@.steps.len() implies within_limits(
                        #[trigger] self@.steps[i],
                    ) by {
                        assert(self@.steps[i] == now.steps[i + 1]);
                    }
                }
                return UploadAction::Send(step);
            }
            if self.left.len() == 0 {
                return match self.batch.finish() {
                    Some(step) => {
                        assert(self@ =~= (UploaderView { pending: seq![], ..now }));
                        UploadAction::Send(step)
                    },
                    None => {
                        assert(self@ =~= now);
                        UploadAction::Done
                    },
                };
            }
            let last = self.left.len() - 1;
            assert(now.left[0] == self.left@[last as int]@);
            let data = match &self.left[last].data {
                UploadData::File(path) => {
                    return UploadAction::Load(path.clone());
                },
                UploadData::Bytes(bytes) => copy_bytes(bytes.as_slice()),
            };
            self.take_up(data);
            assert(self.left@.len() == self@.left.len());
        }
    }
}

/// The bytes of a blob, where files hold what `files` says.
pub open spec fn blob_bytes(b: BlobView, files: spec_fn(Seq<u8>) -> Seq<u8>) -> Seq<u8> {
    match b.data {
        DataView::Bytes(bytes) => bytes,
        DataView::File(path) => files(path),
    }
}

/// The blobs that have not been sent, in the order of sending.
pub open spec fn owed(u: UploaderView, files: spec_fn(Seq<u8>) -> Seq<u8>) -> Seq<Item> {
    steps_items(u.steps) + u.pending + u.left.map_values(
        |b: BlobView| (b.digest, blob_bytes(b, files)),
    )
}

proof fn lemma_steps_items_concat(a: Seq<StepView>, b: Seq<StepView>)
    ensures
        steps_items(a + b) == steps_items(a) + steps_items(b),
    decreases a.len(),
{
    if a.len() == 0 {
        assert(a + b =~= b);
        assert(steps_items(a) + steps_items(b) =~= steps_items(b));
    } else {
        assert((a + b).skip(1) =~= a.skip(1) + b);
        lemma_steps_items_concat(a.skip(1), b);
        assert(steps_items(a + b) =~= steps_items(a) + steps_items(b));
    }
}

/// A blob that comes up with the bytes that it has is owed as it was before.
pub proof fn taking_up_owes_the_same(u: UploaderView, files: spec_fn(Seq<u8>) -> Seq<u8>)
    requires
        u.left.len() > 0,
        upload_in_limits(u),
    ensures
        owed(taken_up(u, blob_bytes(u.left[0], files)), files) == owed(u, files),
        upload_in_limits(taken_up(u, blob_bytes(u.left[0], files))),
{
    let data = blob_bytes(u.left[0], files);
    let item = (u.left[0].digest, data);
    let v = taken_up(u, data);
    let (steps, pending) = offered(u.pending, item);
    offered_blob_is_kept(u.pending, item);
    lemma_steps_items_concat(u.steps, steps);
    let f = |b: BlobView| (b.digest, blob_bytes(b, files));
    assert(u.left.map_values(f) =~= seq![item] + u.left.skip(1).map_values(f));
    let rest = u.left.skip(1).map_values(f);
    assert(steps_items(u.steps) + u.pending + (seq![item] + rest) =~= steps_items(u.steps)
        + u.pending.push(item) + rest);
    assert(steps_items(u.steps) + (steps_items(steps) + pending) + rest =~= steps_items(u.steps)
        + steps_items(steps) + pending + rest);
    assert forall|i: int| 0 <= i < v.steps.len() implies within_limits(#[trigger] v.steps[i]) by {
        if i < u.steps.len() {
            assert(v.steps[i] == u.steps[i]);
        } else {
            assert(v.steps[i] == steps[i - u.steps.len()]);
        }
    }
}

/// Nothing is lost on the way, sent twice or sent out of order: what is sent next is what was owed
/// first, a file is read only for the blob that is next, and when there is nothing more to do
/// nothing is owed. What is sent is within the limits.
pub proof fn uploading_loses_nothing(u: UploaderView, files: spec_fn(Seq<u8>) -> Seq<u8>)
    requires
        upload_in_limits(u),
    ensures
        upload_in_limits(upload_next(u).0),
        match upload_next(u).1 {
            UploadActionView::Send(step) => owed(u, files) == step_items(step) + owed(
                upload_next(u).0,
                files,
            ) && within_limits(step),
            UploadActionView::Load(path) => owed(upload_next(u).0, files) == owed(u, files)
                && upload_next(u).0.left.len() > 0 && upload_next(u).0.left[0].data
                == DataView::File(path),
            UploadActionView::Done => owed(u, files) == Seq::<Item>::empty(),
        },
    decreases u.left.len(),
{
    let f = |b: BlobView| (b.digest, blob_bytes(b, files));
    if u.steps.len() > 0 {
        let v = UploaderView { steps: u.steps.skip(1), ..u };
        assert(owed(u, files) =~= step_items(u.steps[0]) + owed(v, files));
        assert forall|i: int| 0 <= i < v.steps.len() implies within_limits(
            #[trigger] v.steps[i],
        ) by {
            assert(v.steps[i] == u.steps[i + 1]);
        }
        assert(within_limits(u.steps[0]));
    } else if u.left.len() > 0 {
        match u.left[0].data {
            DataView::Bytes(bytes) => {
                taking_up_owes_the_same(u, files);
                uploading_loses_nothing(taken_up(u, bytes), files);
            },
            DataView::File(path) => {},
        }
    } else {
        assert(u.left.map_values(f) =~= seq![]);
        assert(steps_items(u.steps) =~= seq![]);
        assert(total_bytes(seq![]) == 0);
        if u.pending.len() > 0 {
            let v = UploaderView { pending: seq![], ..u };
            assert(owed(u, files) =~= u.pending + owed(v, files));
        } else {
            assert(owed(u, files) =~= seq![]);
        }
    }
}

} // verus!
