//! What holds of the mapping of local paths to remote ones.
use vstd::prelude::*;

use crate::dir_builder::{components, file_at};
use crate::disk::{dir_at, executable, file_digest, ContentView, FactView, NodeView};
use crate::local_path::{below, lemma_parent, parent, parts, remote_text};
use crate::mapper::{
    asked, aux, bases, command_path, execroot, external_root, external_slot, left,
    lemma_all_taken_is_sound, lemma_all_taken_one, lemma_walk_is_honest, placed, skipped, sound,
    spelled_input, walk, with_input, with_path, with_tree_at, Fault, Item, MapperView, WORKDIR_NAME,
};
use crate::messages::FileView;
use crate::text::after_prefix;
use crate::tree_laws::{inserted_file_is_found, no_less};
use crate::uploads::{holds, included, lemma_included_twice};

verus! {

/// `n` is what `m` became: the same directories, no fewer places for others, and
/// every blob as it was.
pub open spec fn grown(m: MapperView, n: MapperView) -> bool {
    &&& n == (MapperView {
        external_roots: n.external_roots,
        tree: n.tree,
        uploads: n.uploads,
        ..m
    })
    &&& m.external_roots.len() <= n.external_roots.len()
    &&& n.external_roots.take(m.external_roots.len() as int) == m.external_roots
    &&& no_less(m.uploads, n.uploads)
    &&& included(m.uploads, n.uploads)
}

/// The place of each directory outside the known ones is named after it.
pub open spec fn slots_are_own(m: MapperView) -> bool {
    forall|i: int|
        0 <= i < m.external_roots.len() ==> (#[trigger] m.external_roots[i]).1 == external_slot(
            m.external_roots[i].0,
        )
}

/// The remote path is the remote working directory or lies in it.
pub open spec fn in_workspace(remote: Seq<char>) -> bool {
    remote == WORKDIR_NAME@ || after_prefix(remote, WORKDIR_NAME@ + "/"@) is Some
}

/// What grew twice has grown.
pub proof fn growth_is_transitive(a: MapperView, b: MapperView, c: MapperView)
    requires
        grown(a, b),
        grown(b, c),
    ensures
        grown(a, c),
{
    let k = a.external_roots.len() as int;
    lemma_included_twice(a.uploads, b.uploads, c.uploads);
    assert(c.external_roots.take(k) =~= c.external_roots.take(b.external_roots.len() as int).take(
        k,
    ));
}

/// A path that lies in one of the first directories is placed by these alone.
proof fn lemma_placed_prefix(
    a: Seq<(Seq<u8>, Seq<char>)>,
    b: Seq<(Seq<u8>, Seq<char>)>,
    path: Seq<u8>,
)
    ensures
        placed(a + b, path) == (match placed(a, path) {
            Some(t) => Some(t),
            None => placed(b, path),
        }),
    decreases a.len(),
{
    if a.len() == 0 {
        assert(a + b =~= b);
    } else {
        assert((a + b).skip(1) =~= a.skip(1) + b);
        lemma_placed_prefix(a.skip(1), b, path);
    }
}

/// A path lies in the directory that gets a place of its own for it.
pub proof fn path_lies_in_its_external_root(path: Seq<u8>, is_dir: bool)
    ensures
        below(path, external_root(path, is_dir)) is Some,
{
    lemma_parent(path);
    let p = parts(path);
    assert(p.take(p.len() as int) =~= p);
    if p.len() > 0 {
        assert(p.take(p.len() - 1) =~= p.drop_last());
    }
}

/// Once the remote path of a local path was asked for, the local path has a place.
proof fn lemma_asked_is_placed(m: MapperView, path: Seq<u8>, is_dir: bool)
    ensures
        placed(bases(asked(m, path, is_dir)), path) == Some(execroot(m, path, is_dir)),
{
    if placed(bases(m), path) is None {
        let root = external_root(path, is_dir);
        let added = seq![(root, external_slot(root))];
        path_lies_in_its_external_root(path, is_dir);
        assert(bases(asked(m, path, is_dir)) =~= bases(m) + added);
        lemma_placed_prefix(bases(m), added, path);
        assert(added.skip(1) =~= seq![]);
        assert(placed(added, path) == Some(
            remote_text(external_slot(root), below(path, root)->0),
        ));
    }
}

/// Asking for the remote path of a local path changes nothing but the places.
pub proof fn asking_grows(m: MapperView, path: Seq<u8>, is_dir: bool)
    ensures
        grown(m, asked(m, path, is_dir)),
        sound(m) ==> sound(asked(m, path, is_dir)),
        slots_are_own(m) ==> slots_are_own(asked(m, path, is_dir)),
{
    let n = asked(m, path, is_dir);
    assert(n.external_roots.take(m.external_roots.len() as int) =~= m.external_roots);
}

/// The remote path of a local path stays what it was when it was first asked for, whatever is
/// asked for and taken in later, and whatever becomes of the local path.
pub proof fn remote_path_is_stable(
    m: MapperView,
    path: Seq<u8>,
    is_dir: bool,
    n: MapperView,
    later_is_dir: bool,
)
    requires
        grown(asked(m, path, is_dir), n),
    ensures
        execroot(n, path, later_is_dir) == execroot(m, path, is_dir),
        asked(n, path, later_is_dir) == n,
{
    let a = asked(m, path, is_dir);
    lemma_asked_is_placed(m, path, is_dir);
    let rest = n.external_roots.skip(a.external_roots.len() as int);
    assert(n.external_roots =~= n.external_roots.take(a.external_roots.len() as int) + rest);
    assert(bases(n) =~= bases(a) + rest);
    lemma_placed_prefix(bases(a), rest, path);
}

/// Two files of one directory outside the known ones stand in one remote directory, which is
/// named after the local one.
pub proof fn external_files_share_a_slot(
    m: MapperView,
    one: Seq<u8>,
    two: Seq<u8>,
    two_is_dir: bool,
    dir: Seq<u8>,
)
    requires
        parent(one) == Some(dir),
        parent(two) == Some(dir),
        placed(bases(m), one) is None,
        placed(bases(m), two) is None,
    ensures
        below(one, dir) is Some,
        below(two, dir) is Some,
        execroot(m, one, false) == remote_text(external_slot(dir), below(one, dir)->0),
        execroot(asked(m, one, false), two, two_is_dir) == remote_text(
            external_slot(dir),
            below(two, dir)->0,
        ),
        below(one, dir)->0.len() == 1,
        below(two, dir)->0.len() == 1,
{
    path_lies_in_its_external_root(one, false);
    path_lies_in_its_external_root(two, false);
    lemma_parent(one);
    lemma_parent(two);
    let n = asked(m, one, false);
    let added = seq![(dir, external_slot(dir))];
    assert(bases(n) =~= bases(m) + added);
    lemma_placed_prefix(bases(m), added, two);
    assert(added.skip(1) =~= seq![]);
}

/// What lies below a place in the workspace is in the workspace.
proof fn lemma_text_in_workspace(base: Seq<char>, rel: Seq<crate::local_path::PartView>)
    requires
        in_workspace(base),
    ensures
        in_workspace(remote_text(base, rel)),
{
    let p = WORKDIR_NAME@ + "/"@;
    let r = remote_text(base, rel);
    if rel.len() > 0 {
        if base == WORKDIR_NAME@ {
            assert(r.take(p.len() as int) =~= p);
        } else {
            assert(r.take(p.len() as int) =~= base.take(p.len() as int));
        }
    }
}

proof fn lemma_aux_in_workspace(name: Seq<char>)
    ensures
        in_workspace(aux(name)),
{
    let p = WORKDIR_NAME@ + "/"@;
    assert(aux(name).take(p.len() as int) =~= p);
}

proof fn lemma_placed_in_workspace(b: Seq<(Seq<u8>, Seq<char>)>, path: Seq<u8>)
    requires
        forall|i: int| 0 <= i < b.len() ==> in_workspace((#[trigger] b[i]).1),
    ensures
        placed(b, path) matches Some(t) ==> in_workspace(t),
    decreases b.len(),
{
    if b.len() > 0 {
        if let Some(rel) = below(path, b[0].0) {
            lemma_text_in_workspace(b[0].1, rel);
        } else {
            assert forall|i: int| 0 <= i < b.skip(1).len() implies in_workspace(
                (#[trigger] b.skip(1)[i]).1,
            ) by {
                assert(b.skip(1)[i] == b[i + 1]);
            }
            lemma_placed_in_workspace(b.skip(1), path);
        }
    }
}

/// Every remote path is in the remote working directory, and a command in that directory reaches
/// it by the spelling it is given.
pub proof fn remote_paths_are_in_the_workspace(m: MapperView, path: Seq<u8>, is_dir: bool)
    requires
        slots_are_own(m),
    ensures
        in_workspace(execroot(m, path, is_dir)),
        execroot(m, path, is_dir) == WORKDIR_NAME@ || execroot(m, path, is_dir) == WORKDIR_NAME@
            + "/"@ + command_path(execroot(m, path, is_dir)),
{
    lemma_aux_in_workspace("target-dir"@);
    lemma_aux_in_workspace("build-dir"@);
    lemma_aux_in_workspace("toolchain"@);
    let b = bases(m);
    assert forall|i: int| 0 <= i < b.len() implies in_workspace((#[trigger] b[i]).1) by {
        if i >= 4 {
            assert(b[i] == m.external_roots[i - 4]);
            lemma_aux_in_workspace("external/"@ + crate::digest::short_digest(b[i].0));
        }
    }
    lemma_placed_in_workspace(b, path);
    let root = external_root(path, is_dir);
    lemma_aux_in_workspace("external/"@ + crate::digest::short_digest(root));
    if let Some(rel) = below(path, root) {
        lemma_text_in_workspace(external_slot(root), rel);
    }
    let e = execroot(m, path, is_dir);
    let p = WORKDIR_NAME@ + "/"@;
    if e != WORKDIR_NAME@ {
        assert(e =~= p + e.skip(p.len() as int));
    }
}

/// An input that is left out changes nothing.
pub proof fn skipped_input_adds_nothing(
    m: MapperView,
    node: NodeView,
    local: Seq<u8>,
    remote: Seq<char>,
    exclude: bool,
)
    requires
        skipped(m, local, exclude),
    ensures
        with_input(m, node, local, remote, exclude) == Ok::<MapperView, Fault>(m),
{
}

/// Taking in an input, or failing to, keeps the mapping sound, and what was there stays.
pub proof fn input_grows(
    m: MapperView,
    d: Seq<FactView>,
    path: Seq<u8>,
    node: NodeView,
    exclude: bool,
)
    requires
        sound(m),
    ensures
        sound(left(with_tree_at(m, d, path, node, exclude))),
        grown(m, left(with_tree_at(m, d, path, node, exclude))),
        grown(asked(m, path, dir_at(d, path)), left(with_tree_at(m, d, path, node, exclude))),
        slots_are_own(m) ==> slots_are_own(left(with_tree_at(m, d, path, node, exclude))),
{
    let is_dir = dir_at(d, path);
    asking_grows(m, path, is_dir);
    let a = asked(m, path, is_dir);
    let remote = execroot(m, path, is_dir);
    lemma_walk_is_honest(a, node, path, remote, exclude);
    lemma_all_taken_is_sound(a, walk(a, node, path, remote, exclude));
    let n = left(with_tree_at(m, d, path, node, exclude));
    assert(n.external_roots.take(a.external_roots.len() as int) =~= a.external_roots);
    growth_is_transitive(m, a, n);
}

/// The spelling that a command is given for an input is that of the place where the input was
/// taken in. An input that fails leaves the mapping sound, and what was there stays.
pub proof fn input_is_spelled_by_its_place(m: MapperView, d: Seq<FactView>, path: Seq<u8>)
    requires
        sound(m),
    ensures
        spelled_input(m, d, path) matches Ok((n, text)) ==> {
            &&& text == command_path(execroot(m, path, dir_at(d, path)))
            &&& with_path(m, d, path) == Ok::<MapperView, Fault>(n)
            &&& sound(n)
            &&& grown(m, n)
        },
        spelled_input(m, d, path) matches Err(f) ==> {
            &&& with_path(m, d, path) == Err::<MapperView, Fault>(f)
            &&& sound(f.at)
            &&& grown(m, f.at)
        },
{
    let is_dir = dir_at(d, path);
    input_grows(m, d, path, crate::disk::node_at(d, path), false);
    if let Ok(n) = with_path(m, d, path) {
        remote_path_is_stable(m, path, is_dir, n, is_dir);
    }
}

/// A file that is taken in stands in the tree at its remote path, with its digest, and its blob is
/// in the upload set.
pub proof fn file_input_is_in_the_tree(
    m: MapperView,
    content: ContentView,
    mode: u32,
    local: Seq<u8>,
    remote: Seq<char>,
    exclude: bool,
)
    requires
        sound(m),
        !skipped(m, local, exclude),
        file_digest(content, local) is Ok,
        components(remote).len() > 0,
    ensures
        with_input(m, NodeView::File(content, mode), local, remote, exclude) matches Ok(n) && {
            &&& file_at(n.tree, components(remote)) == Some(
                FileView {
                    digest: file_digest(content, local)->Ok_0.0,
                    is_executable: executable(mode),
                },
            )
            &&& holds(n.uploads, file_digest(content, local)->Ok_0.0)
        },
{
    let (digest, data) = file_digest(content, local)->Ok_0;
    let file = FileView { digest, is_executable: executable(mode) };
    let item = Item::File(remote, file, data);
    let items = walk(m, NodeView::File(content, mode), local, remote, exclude);
    assert(items =~= seq![item]);
    lemma_all_taken_one(m, item);
    inserted_file_is_found(m.tree, components(remote), file, components(remote));
    crate::uploads::lemma_with_blob(m.uploads, digest, data);
}

} // verus!
