//! Putting the outputs of an execution in their places.
use vstd::prelude::*;

use crate::local_path::{parent, LocalPath};
use crate::response::{
    file_views, symlink_views, ActionResult, ActionResultView, OutputFile, OutputFileView,
    OutputSymlink, OutputSymlinkView,
};
use crate::tables::pair_paths;
use crate::text::same_text;
use crate::transfer::{fetch_of, plan_fetch, Fetch, FetchView};

verus! {

/// One thing to do about the outputs.
#[derive(Debug)]
pub enum OutputStep {
    /// Remove what is there.
    Remove(LocalPath),
    /// Make a directory, with those that it is in.
    CreateDir(LocalPath),
    /// Write a file.
    File(LocalPath, Fetch, bool),
    /// Make a symbolic link with this target.
    Symlink(LocalPath, String),
}

/// The content of an [`OutputStep`].
pub enum OutputStepView {
    Remove(Seq<u8>),
    CreateDir(Seq<u8>),
    File(Seq<u8>, FetchView, bool),
    Symlink(Seq<u8>, Seq<char>),
}

impl View for OutputStep {
    type V = OutputStepView;

    open spec fn view(&self) -> OutputStepView {
        match self {
            OutputStep::Remove(path) => OutputStepView::Remove(path@),
            OutputStep::CreateDir(path) => OutputStepView::CreateDir(path@),
            OutputStep::File(path, fetch, executable) => OutputStepView::File(
                path@,
                fetch@,
                *executable,
            ),
            OutputStep::Symlink(path, target) => OutputStepView::Symlink(path@, target@),
        }
    }
}

/// The contents of several steps.
pub open spec fn output_views(s: Seq<OutputStep>) -> Seq<OutputStepView> {
    s.map_values(|x: OutputStep| x@)
}

/// The last of the files with this path.
pub open spec fn last_file(files: Seq<OutputFileView>, path: Seq<char>) -> Option<OutputFileView>
    decreases files.len(),
{
    if files.len() == 0 {
        None
    } else if files.last().path == path {
        Some(files.last())
    } else {
        last_file(files.drop_last(), path)
    }
}

/// The last of the links with this path.
pub open spec fn last_symlink(
    links: Seq<OutputSymlinkView>,
    path: Seq<char>,
) -> Option<OutputSymlinkView>
    decreases links.len(),
{
    if links.len() == 0 {
        None
    } else if links.last().path == path {
        Some(links.last())
    } else {
        last_symlink(links.drop_last(), path)
    }
}

/// How an output comes to its place: a link goes before a file, and the last report before those
/// before it.
pub open spec fn placing(
    result: ActionResultView,
    remote: Seq<char>,
    local: Seq<u8>,
) -> Option<OutputStepView> {
    match last_symlink(result.output_symlinks, remote) {
        Some(link) => Some(OutputStepView::Symlink(local, link.target)),
        None => match last_file(result.output_files, remote) {
            Some(file) => Some(
                OutputStepView::File(
                    local,
                    fetch_of(file.contents, file.digest),
                    file.is_executable,
                ),
            ),
            None => None,
        },
    }
}

/// The steps for one output: the directory that holds it, and then the output.
pub open spec fn output_steps(
    result: ActionResultView,
    expected: (Seq<char>, Seq<u8>),
) -> Seq<OutputStepView> {
    match placing(result, expected.0, expected.1) {
        Some(step) => (match parent(expected.1) {
            Some(dir) => seq![OutputStepView::CreateDir(dir)],
            None => seq![],
        }).push(step),
        None => seq![],
    }
}

/// The steps for several outputs.
pub open spec fn all_output_steps(
    result: ActionResultView,
    expected: Seq<(Seq<char>, Seq<u8>)>,
) -> Seq<OutputStepView>
    decreases expected.len(),
{
    if expected.len() == 0 {
        seq![]
    } else {
        all_output_steps(result, expected.drop_last()) + output_steps(result, expected.last())
    }
}

/// The removal of all that was expected.
pub open spec fn removals(expected: Seq<(Seq<char>, Seq<u8>)>) -> Seq<OutputStepView> {
    expected.map_values(|e: (Seq<char>, Seq<u8>)| OutputStepView::Remove(e.1))
}

/// All that there is to do about the outputs: what was there goes first.
pub open spec fn output_plan(
    result: ActionResultView,
    expected: Seq<(Seq<char>, Seq<u8>)>,
) -> Seq<OutputStepView> {
    removals(expected) + all_output_steps(result, expected)
}

/// The last of the files with this path.
fn find_file<'a>(files: &'a Vec<OutputFile>, path: &str) -> (r: Option<&'a OutputFile>)
    ensures
        match (r, last_file(file_views(files@), path@)) {
            (Some(f), Some(v)) => f@ == v,
            (None, None) => true,
            _ => false,
        },
{
    let ghost all = file_views(files@);
    let mut i: usize = files.len();
    assert(all.take(all.len() as int) =~= all);
    while i > 0
        invariant
            i <= files@.len(),
            all == file_views(files@),
            last_file(all, path@) == last_file(all.take(i as int), path@),
        decreases i,
    {
        let ghost now = all.take(i as int);
        i -= 1;
        assert(now.last() == files@[i as int]@);
        assert(now.drop_last() =~= all.take(i as int));
        if same_text(files[i].path.as_str(), path) {
            return Some(&files[i]);
        }
    }
    None
}

/// The last of the links with this path.
fn find_symlink<'a>(links: &'a Vec<OutputSymlink>, path: &str) -> (r: Option<&'a OutputSymlink>)
    ensures
        match (r, last_symlink(symlink_views(links@), path@)) {
            (Some(l), Some(v)) => l@ == v,
            (None, None) => true,
            _ => false,
        },
{
    let ghost all = symlink_views(links@);
    let mut i: usize = links.len();
    assert(all.take(all.len() as int) =~= all);
    while i > 0
        invariant
            i <= links@.len(),
            all == symlink_views(links@),
            last_symlink(all, path@) == last_symlink(all.take(i as int), path@),
        decreases i,
    {
        let ghost now = all.take(i as int);
        i -= 1;
        assert(now.last() == links@[i as int]@);
        assert(now.drop_last() =~= all.take(i as int));
        if same_text(links[i].path.as_str(), path) {
            return Some(&links[i]);
        }
    }
    None
}

/// How an output comes to its place.
fn place(result: &ActionResult, remote: &str, local: &LocalPath) -> (r: Option<OutputStep>)
    ensures
        match (r, placing(result@, remote@, local@)) {
            (Some(step), Some(v)) => step@ == v,
            (None, None) => true,
            _ => false,
        },
{
    if let Some(link) = find_symlink(&result.output_symlinks, remote) {
        return Some(OutputStep::Symlink(local.clone(), link.target.clone()));
    }
    match find_file(&result.output_files, remote) {
        Some(file) => Some(
            OutputStep::File(
                local.clone(),
                plan_fetch(&file.contents, &file.digest),
                file.is_executable,
            ),
        ),
        None => None,
    }
}

/// All that there is to do about the outputs.
pub fn materialize_outputs(result: &ActionResult, expected: &Vec<(String, LocalPath)>) -> (r: Vec<
    OutputStep,
>)
    ensures
        output_views(r@) == output_plan(result@, pair_paths(expected@)),
{
    let ghost all = pair_paths(expected@);
    let mut r: Vec<OutputStep> = Vec::new();
    let mut i: usize = 0;
    while i < expected.len()
        invariant
            i <= expected@.len(),
            r@.len() == i,
            forall|j: int|
                0 <= j < i ==> (#[trigger] r@[j])@ == OutputStepView::Remove(expected@[j].1@),
        decreases expected@.len() - i,
    {
        r.push(OutputStep::Remove(expected[i].1.clone()));
        i += 1;
    }
    i = 0;
    proof {
        assert(output_views(r@) =~= removals(all));
        assert(all.take(0) =~= seq![]);
        assert(removals(all) + all_output_steps(result@, all.take(0)) =~= removals(all));
    }
    while i < expected.len()
        invariant
            i <= expected@.len(),
            all == pair_paths(expected@),
            output_views(r@) == removals(all) + all_output_steps(result@, all.take(i as int)),
        decreases expected@.len() - i,
    {
        let ghost before = r@;
        let (remote, local) = &expected[i];
        if let Some(step) = place(result, remote.as_str(), local) {
            if let Some(dir) = local.parent() {
                r.push(OutputStep::CreateDir(dir));
            }
            r.push(step);
        }
        proof {
            let next = all.take(i + 1);
            assert(next.drop_last() =~= all.take(i as int));
            assert(next.last() == (remote@, local@));
            let added = output_steps(result@, (remote@, local@));
            assert(output_views(r@) =~= output_views(before) + added);
            assert(output_views(r@) =~= removals(all) + all_output_steps(result@, next));
        }
        i += 1;
    }
    assert(all.take(all.len() as int) =~= all);
    r
}

/// An expected output was produced and has this place.
pub open spec fn has_output(
    result: ActionResultView,
    expected: Seq<(Seq<char>, Seq<u8>)>,
    step: OutputStepView,
) -> bool {
    exists|i: int|
        0 <= i < expected.len() && placing(
            result,
            (#[trigger] expected[i]).0,
            expected[i].1,
        ) == Some(step)
}

proof fn lemma_written(
    result: ActionResultView,
    expected: Seq<(Seq<char>, Seq<u8>)>,
    step: OutputStepView,
)
    requires
        step is File || step is Symlink,
    ensures
        all_output_steps(result, expected).contains(step) <==> has_output(result, expected, step),
    decreases expected.len(),
{
    let all = all_output_steps(result, expected);
    if expected.len() > 0 {
        let front = expected.drop_last();
        let before = all_output_steps(result, front);
        let now = output_steps(result, expected.last());
        lemma_written(result, front, step);
        if all.contains(step) {
            let i = choose|i: int| 0 <= i < all.len() && all[i] == step;
            if i < before.len() {
                assert(before[i] == step);
                let j = choose|j: int|
                    0 <= j < front.len() && placing(
                        result,
                        (#[trigger] front[j]).0,
                        front[j].1,
                    ) == Some(step);
                assert(placing(result, expected[j].0, expected[j].1) == Some(step));
            } else {
                assert(now[i - before.len()] == step);
                let k = expected.len() - 1;
                assert(placing(result, expected[k].0, expected[k].1) == Some(step));
            }
        }
        if has_output(result, expected, step) {
            let j = choose|j: int|
                0 <= j < expected.len() && placing(
                    result,
                    (#[trigger] expected[j]).0,
                    expected[j].1,
                ) == Some(step);
            if j < front.len() {
                assert(front[j] == expected[j]);
                assert(before.contains(step));
                let i = choose|i: int| 0 <= i < before.len() && before[i] == step;
                assert(all[i] == step);
            } else {
                assert(now[now.len() - 1] == step);
                assert(all[before.len() + now.len() - 1] == step);
            }
        }
    }
}

/// What is written is what was produced of the expected outputs, each to its own place, and
/// nothing else; and the places of all expected outputs are cleared before anything is written.
pub proof fn outputs_replace_what_was_there(
    result: ActionResultView,
    expected: Seq<(Seq<char>, Seq<u8>)>,
    step: OutputStepView,
)
    requires
        step is File || step is Symlink,
    ensures
        output_plan(result, expected).contains(step) <==> has_output(result, expected, step),
        output_plan(result, expected).take(expected.len() as int) == removals(expected),
        forall|i: int|
            expected.len() <= i < output_plan(result, expected).len() ==> !((
            #[trigger] output_plan(result, expected)[i]) is Remove),
{
    let plan = output_plan(result, expected);
    let writes = all_output_steps(result, expected);
    lemma_written(result, expected, step);
    lemma_no_removal(result, expected);
    assert(plan.take(expected.len() as int) =~= removals(expected));
    if plan.contains(step) {
        let i = choose|i: int| 0 <= i < plan.len() && plan[i] == step;
        assert(i >= expected.len());
        assert(writes[i - expected.len()] == step);
    }
    if writes.contains(step) {
        let i = choose|i: int| 0 <= i < writes.len() && writes[i] == step;
        assert(plan[expected.len() + i] == step);
    }
    assert forall|i: int| expected.len() <= i < plan.len() implies !((
    #[trigger] plan[i]) is Remove) by {
        assert(plan[i] == writes[i - expected.len()]);
    }
}

proof fn lemma_no_removal(result: ActionResultView, expected: Seq<(Seq<char>, Seq<u8>)>)
    ensures
        forall|i: int|
            0 <= i < all_output_steps(result, expected).len() ==> !((#[trigger] all_output_steps(
                result,
                expected,
            )[i]) is Remove),
    decreases expected.len(),
{
    if expected.len() > 0 {
        lemma_no_removal(result, expected.drop_last());
        let before = all_output_steps(result, expected.drop_last());
        let now = output_steps(result, expected.last());
        let all = all_output_steps(result, expected);
        assert forall|i: int| 0 <= i < all.len() implies !((#[trigger] all[i]) is Remove) by {
            if i < before.len() {
                assert(all[i] == before[i]);
            } else {
                assert(all[i] == now[i - before.len()]);
            }
        }
    }
}

/// What is done to clear the place of an output.
#[derive(Debug, Clone, Copy, PartialEq, Eq)]
pub enum Removal {
    /// Nothing is there.
    Nothing,
    /// A directory goes with all that is in it.
    Directory,
    /// Anything else goes by itself.
    File,
}

/// What is done to clear the place of an output, from whether something is there, links followed,
/// and whether it is a directory or a link, links not followed.
pub fn remove_existing_output(exists: bool, is_dir: bool, is_symlink: bool) -> (r: Removal)
    ensures
        r == (if !exists {
            Removal::Nothing
        } else if is_dir && !is_symlink {
            Removal::Directory
        } else {
            Removal::File
        }),
{
    if !exists {
        Removal::Nothing
    } else if is_dir && !is_symlink {
        Removal::Directory
    } else {
        Removal::File
    }
}

} // verus!
