//! What taking in an input does to the input tree and the upload set.
use vstd::prelude::*;
use vstd::utf8::{decode_utf8, decode_utf8_encode_utf8, valid_utf8};

use crate::digest::{digest_of, DigestKey, DigestView};
use crate::component_laws::{components_of_short_paths, names_an_entry};
use crate::dir_builder::{
    components, ensured, file_at, lemma_subdir, lemma_with_dir, subdir, symlink_at, well_formed,
    with_dir, with_file, with_symlink, DirModel,
};
use crate::disk::{dir_at, node_at, ContentView, FactView, NodeView};
use crate::error::{failure, failure_by};
use crate::local_path::{
    below, file_name, joined_path, lossy_text, part_of, parts, reapi_pieces, reapi_text, PartView,
    DOT, SEP,
};
use crate::mapper::{
    all_taken, asked, child_remote, command_path, execroot, left, lemma_all_taken_concat,
    lemma_all_taken_is_sound, lemma_all_taken_one, lemma_walk_is_honest, skipped, sound,
    spelled_input, taken, walk, walk_entries, with_input, with_tree_at, Fault, Item, MapperView,
    WORKDIR_NAME,
};
use crate::mapper_laws::{
    asking_grows, input_is_spelled_by_its_place, remote_paths_are_in_the_workspace, slots_are_own,
};
use crate::messages::FileView;
use crate::path_laws::{
    components_of_a_path_below, lemma_plain_name, plain, splitting_undoes_joining,
};
use crate::place_laws::each_component_is_spelled;
use crate::sorted::{lemma_with, lookup};
use crate::text::{joined, pieces};
use crate::tree_laws::{
    ensured_directory_changes_no_entry, inserted_file_is_found, inserted_symlink_is_found, no_less,
};
use crate::uploads::{holds, lemma_with_blob, BlobView, DataView};

verus! {

/// A name that a directory can have an entry under: it is UTF-8, not empty, without a separator,
/// and leads to no other directory.
pub open spec fn is_name(name: Seq<u8>) -> bool {
    &&& valid_utf8(name)
    &&& name.len() > 0
    &&& !name.contains(47u8)
    &&& name != seq![46u8]
    &&& name != seq![46u8, 46u8]
}

/// In each directory, the entries have names, and no two the same.
pub open spec fn tidy(node: NodeView) -> bool
    decreases node, 1nat,
{
    match node {
        NodeView::Directory(entries, _) => tidy_entries(entries),
        _ => true,
    }
}

/// The entries have names, no two the same, and so have those of the directories among them.
pub open spec fn tidy_entries(entries: Seq<(Seq<u8>, NodeView)>) -> bool
    decreases entries, 0nat,
{
    &&& forall|i: int| 0 <= i < entries.len() ==> is_name((#[trigger] entries[i]).0)
    &&& forall|i: int| 0 <= i < entries.len() ==> tidy(#[trigger] entries[i].1)
    &&& forall|i: int, j: int|
        #![trigger entries[i], entries[j]]
        0 <= i < j < entries.len() ==> entries[i].0 != entries[j].0
}

/// The entry of that name.
pub open spec fn entry_named(entries: Seq<(Seq<u8>, NodeView)>, name: Seq<u8>) -> Option<NodeView>
    decreases entries.len(),
{
    if entries.len() == 0 {
        None
    } else if entries.last().0 == name {
        Some(entries.last().1)
    } else {
        entry_named(entries.drop_last(), name)
    }
}

/// What stands below `node` under these names, one directory after the other.
pub open spec fn entry_at(node: NodeView, names: Seq<Seq<u8>>) -> Option<NodeView>
    decreases names.len(),
{
    if names.len() == 0 {
        Some(node)
    } else {
        match node {
            NodeView::Directory(entries, _) => match entry_named(entries, names[0]) {
                Some(child) => entry_at(child, names.skip(1)),
                None => None,
            },
            _ => None,
        }
    }
}

/// The local path of what stands below `local` under these names.
pub open spec fn path_to(local: Seq<u8>, names: Seq<Seq<u8>>) -> Seq<u8>
    decreases names.len(),
{
    if names.len() == 0 {
        local
    } else {
        path_to(joined_path(local, names[0]), names.skip(1))
    }
}

/// The texts of names.
pub open spec fn name_texts(names: Seq<Seq<u8>>) -> Seq<Seq<char>> {
    names.map_values(|name: Seq<u8>| decode_utf8(name))
}

/// The path is one of the outputs.
pub open spec fn is_output_path(m: MapperView, path: Seq<u8>) -> bool {
    exists|i: int|
        0 <= i < m.output_paths.len() && parts(#[trigger] m.output_paths[i]) == parts(path)
}

/// The path is called `.git`.
pub open spec fn is_git(path: Seq<u8>) -> bool {
    file_name(path) == Some(seq![46u8, 103u8, 105u8, 116u8])
}

/// Neither `local` nor anything on the way down the names is an output or called `.git`.
pub open spec fn way_is_open(m: MapperView, local: Seq<u8>, names: Seq<Seq<u8>>) -> bool
    decreases names.len(),
{
    &&& !is_output_path(m, local)
    &&& !is_git(local)
    &&& names.len() > 0 ==> way_is_open(m, joined_path(local, names[0]), names.skip(1))
}

/// Neither `local` nor anything on the way down the names is in a build directory.
pub open spec fn way_is_clear(m: MapperView, local: Seq<u8>, names: Seq<Seq<u8>>) -> bool
    decreases names.len(),
{
    &&& below(local, m.target_dir) is None
    &&& below(local, m.build_dir) is None
    &&& names.len() > 0 ==> way_is_clear(m, joined_path(local, names[0]), names.skip(1))
}

/// A directory is at the path in the tree.
pub open spec fn dir_in(t: DirModel, path: Seq<Seq<char>>) -> bool
    decreases path.len(),
{
    path.len() > 0 ==> lookup::<String, DirModel>(t.dirs, path[0]) is Some && dir_in(
        subdir(t, path[0]),
        path.skip(1),
    )
}

/// What stands at a local path stands at a path of the tree: a file with the digest of its content
/// and its execute bit, and with its blob in the upload set; a symbolic link with its target; a
/// directory as a directory.
pub open spec fn stands_at(n: MapperView, node: NodeView, path: Seq<Seq<char>>) -> bool {
    match node {
        NodeView::File(ContentView::Inline(bytes), mode) => {
            &&& file_at(n.tree, path) == Some(
                FileView { digest: digest_of(bytes), is_executable: mode & 0o111 != 0 },
            )
            &&& holds(n.uploads, digest_of(bytes))
        },
        NodeView::File(ContentView::Streamed(digest), mode) => {
            &&& file_at(n.tree, path) == Some(
                FileView { digest, is_executable: mode & 0o111 != 0 },
            )
            &&& holds(n.uploads, digest)
        },
        NodeView::Symlink(target) => symlink_at(n.tree, path) == Some(reapi_text(parts(target))),
        NodeView::Directory(_, _) => dir_in(n.tree, path),
        _ => false,
    }
}

/// `q` is `p` or lies below it.
pub open spec fn leads_to(p: Seq<Seq<char>>, q: Seq<Seq<char>>) -> bool {
    p.len() <= q.len() && q.take(p.len() as int) == p
}

/// A directory that is put in a tree is there, with those above it, and so are all that were.
pub proof fn lemma_ensured_dir(t: DirModel, path: Seq<Seq<char>>, other: Seq<Seq<char>>)
    requires
        well_formed(t),
    ensures
        dir_in(ensured(t, path), path),
        dir_in(t, other) ==> dir_in(ensured(t, path), other),
    decreases path.len(),
{
    if path.len() > 0 {
        let name = path[0];
        lemma_subdir(t, name);
        lemma_ensured_dir(subdir(t, name), path.skip(1), other.skip(1));
        ensured_directory_changes_no_entry(subdir(t, name), path.skip(1), seq![]);
        lemma_with_dir(t, name, ensured(subdir(t, name), path.skip(1)));
        lemma_with::<String, DirModel>(t.dirs, name, ensured(subdir(t, name), path.skip(1)));
        lemma_dir_kept(t, name, ensured(subdir(t, name), path.skip(1)), other);
    }
}

/// Replacing a subdirectory by one that has all its directories keeps every directory.
proof fn lemma_dir_kept(t: DirModel, name: Seq<char>, d: DirModel, other: Seq<Seq<char>>)
    requires
        well_formed(t),
        dir_in(subdir(t, name), other.skip(1)) ==> dir_in(d, other.skip(1)),
    ensures
        dir_in(t, other) ==> dir_in(with_dir(t, name, d), other),
{
    lemma_with::<String, DirModel>(t.dirs, name, d);
    if other.len() > 0 && other[0] != name {
        assert(subdir(with_dir(t, name, d), other[0]) == subdir(t, other[0]));
    }
}

/// A file that is put in a tree removes no directory.
proof fn lemma_file_keeps_dirs(
    t: DirModel,
    path: Seq<Seq<char>>,
    f: FileView,
    other: Seq<Seq<char>>,
)
    requires
        well_formed(t),
        path.len() > 0,
    ensures
        dir_in(t, other) ==> dir_in(with_file(t, path, f), other),
    decreases path.len(),
{
    if path.len() == 1 {
        if other.len() > 0 {
            assert(subdir(with_file(t, path, f), other[0]) == subdir(t, other[0]));
        }
    } else {
        let name = path[0];
        lemma_subdir(t, name);
        lemma_file_keeps_dirs(subdir(t, name), path.skip(1), f, other.skip(1));
        lemma_dir_kept(t, name, with_file(subdir(t, name), path.skip(1), f), other);
    }
}

/// A symbolic link that is put in a tree removes no directory.
proof fn lemma_symlink_keeps_dirs(
    t: DirModel,
    path: Seq<Seq<char>>,
    target: Seq<char>,
    other: Seq<Seq<char>>,
)
    requires
        well_formed(t),
        path.len() > 0,
    ensures
        dir_in(t, other) ==> dir_in(with_symlink(t, path, target), other),
    decreases path.len(),
{
    if path.len() == 1 {
        if other.len() > 0 {
            assert(subdir(with_symlink(t, path, target), other[0]) == subdir(t, other[0]));
        }
    } else {
        let name = path[0];
        lemma_subdir(t, name);
        lemma_symlink_keeps_dirs(subdir(t, name), path.skip(1), target, other.skip(1));
        lemma_dir_kept(t, name, with_symlink(subdir(t, name), path.skip(1), target), other);
    }
}

/// An item is put at `base` or below it.
pub open spec fn item_within(item: Item, base: Seq<Seq<char>>) -> bool {
    match item {
        Item::Dir(remote) => leads_to(base, components(remote)),
        Item::Symlink(remote, _) => leads_to(base, components(remote)),
        Item::File(remote, _, _) => leads_to(base, components(remote)),
        Item::Failure(_) => true,
    }
}

/// All of the items are put at `base` or below it.
pub open spec fn items_within(items: Seq<Item>, base: Seq<Seq<char>>) -> bool {
    forall|i: int| 0 <= i < items.len() ==> item_within(#[trigger] items[i], base)
}

proof fn lemma_within_concat(a: Seq<Item>, b: Seq<Item>, base: Seq<Seq<char>>)
    requires
        items_within(a, base),
        items_within(b, base),
    ensures
        items_within(a + b, base),
{
    assert forall|i: int| 0 <= i < (a + b).len() implies item_within(#[trigger] (a + b)[i], base) by {
        if i < a.len() {
            assert((a + b)[i] == a[i]);
        } else {
            assert((a + b)[i] == b[i - a.len()]);
        }
    }
}

proof fn lemma_within_further(items: Seq<Item>, base: Seq<Seq<char>>, further: Seq<Seq<char>>)
    requires
        items_within(items, further),
        leads_to(base, further),
    ensures
        items_within(items, base),
{
    assert forall|i: int| 0 <= i < items.len() implies item_within(#[trigger] items[i], base) by {
        assert(item_within(items[i], further));
        let q = match items[i] {
            Item::Dir(remote) => components(remote),
            Item::Symlink(remote, _) => components(remote),
            Item::File(remote, _, _) => components(remote),
            Item::Failure(_) => further,
        };
        assert(further.take(further.len() as int) =~= further);
        assert(leads_to(further, q));
        assert(q.take(base.len() as int) =~= q.take(further.len() as int).take(base.len() as int));
    }
}

/// The components of the remote path of an entry begin with those of its directory.
proof fn lemma_child_components(remote: Seq<char>, name: Seq<u8>)
    ensures
        components(child_remote(remote, name)) == components(remote) + components(
            reapi_text(parts(name)),
        ),
        leads_to(components(remote), components(child_remote(remote, name))),
{
    let tail = reapi_text(parts(name));
    if remote.len() == 0 {
        splitting_undoes_joining(seq![]);
        assert(joined::<char>(seq![], "/"@) =~= remote);
        assert(components(remote) + components(tail) =~= components(tail));
    } else {
        components_of_a_path_below(remote, tail);
    }
    let p = components(remote);
    assert((p + components(tail)).take(p.len() as int) =~= p);
}

proof fn lemma_walk_within(
    m: MapperView,
    node: NodeView,
    local: Seq<u8>,
    remote: Seq<char>,
    exclude: bool,
)
    ensures
        items_within(walk(m, node, local, remote, exclude), components(remote)),
    decreases node, 1nat,
{
    let base = components(remote);
    assert(base.take(base.len() as int) =~= base);
    match node {
        NodeView::Directory(entries, ended) => {
            lemma_walk_entries_within(m, entries, local, remote, exclude);
            let first = seq![Item::Dir(remote)];
            let middle = walk_entries(m, entries, local, remote, exclude);
            let end: Seq<Item> = match ended {
                Some(cause) => seq![Item::Failure(failure(cause))],
                None => seq![],
            };
            assert(items_within(first, base));
            assert(items_within(end, base));
            lemma_within_concat(first, middle, base);
            lemma_within_concat(first + middle, end, base);
        },
        _ => {},
    }
}

proof fn lemma_walk_entries_within(
    m: MapperView,
    entries: Seq<(Seq<u8>, NodeView)>,
    local: Seq<u8>,
    remote: Seq<char>,
    exclude: bool,
)
    ensures
        items_within(walk_entries(m, entries, local, remote, exclude), components(remote)),
    decreases entries, 0nat,
{
    if entries.len() > 0 {
        let last = entries.last();
        let at = joined_path(local, last.0);
        let to = child_remote(remote, last.0);
        lemma_walk_entries_within(m, entries.drop_last(), local, remote, exclude);
        lemma_walk_within(m, last.1, at, to, exclude);
        lemma_child_components(remote, last.0);
        lemma_within_further(
            walk(m, last.1, at, to, exclude),
            components(remote),
            components(to),
        );
        lemma_within_concat(
            walk_entries(m, entries.drop_last(), local, remote, exclude),
            walk(m, last.1, at, to, exclude),
            components(remote),
        );
    }
}

/// What is the same of two mappings at a path of the tree and below it.
pub open spec fn same_below(a: MapperView, b: MapperView, p: Seq<Seq<char>>) -> bool {
    forall|q: Seq<Seq<char>>| #[trigger]
        leads_to(p, q) ==> file_at(a.tree, q) == file_at(b.tree, q) && symlink_at(a.tree, q)
            == symlink_at(b.tree, q)
}

/// Whatever directory is in the first mapping is in the second, and so is every blob.
pub open spec fn keeps(a: MapperView, b: MapperView) -> bool {
    &&& forall|q: Seq<Seq<char>>| #[trigger] dir_in(a.tree, q) ==> dir_in(b.tree, q)
    &&& no_less(a.uploads, b.uploads)
}

/// Neither of two paths leads to the other.
pub open spec fn apart(p: Seq<Seq<char>>, q: Seq<Seq<char>>) -> bool {
    exists|i: int| 0 <= i < p.len() && i < q.len() && #[trigger] p[i] != q[i]
}

proof fn lemma_taken_elsewhere(n: MapperView, item: Item, base: Seq<Seq<char>>, p: Seq<Seq<char>>)
    requires
        sound(n),
        item_within(item, base),
        apart(base, p),
    ensures
        same_below(n, left(taken(n, item)), p),
{
    let k = left(taken(n, item));
    let i = choose|i: int| 0 <= i < base.len() && i < p.len() && #[trigger] base[i] != p[i];
    assert forall|q: Seq<Seq<char>>| #[trigger] leads_to(p, q) implies file_at(n.tree, q)
        == file_at(k.tree, q) && symlink_at(n.tree, q) == symlink_at(k.tree, q) by {
        assert(q[i] == q.take(p.len() as int)[i]);
        match item {
            Item::Dir(remote) => {
                ensured_directory_changes_no_entry(n.tree, components(remote), q);
            },
            Item::Symlink(remote, target) => {
                let c = components(remote);
                assert(c[i] == c.take(base.len() as int)[i]);
                if c.len() > 0 {
                    inserted_symlink_is_found(n.tree, c, target, q);
                }
            },
            Item::File(remote, file, data) => {
                let c = components(remote);
                assert(c[i] == c.take(base.len() as int)[i]);
                if c.len() > 0 {
                    inserted_file_is_found(n.tree, c, file, q);
                }
            },
            Item::Failure(_) => {},
        }
    }
}

proof fn lemma_taken_keeps(n: MapperView, item: Item)
    requires
        sound(n),
    ensures
        keeps(n, left(taken(n, item))),
{
    let k = left(taken(n, item));
    assert forall|q: Seq<Seq<char>>| #[trigger] dir_in(n.tree, q) implies dir_in(k.tree, q) by {
        match item {
            Item::Dir(remote) => {
                lemma_ensured_dir(n.tree, components(remote), q);
            },
            Item::Symlink(remote, target) => {
                if components(remote).len() > 0 {
                    lemma_symlink_keeps_dirs(n.tree, components(remote), target, q);
                }
            },
            Item::File(remote, file, data) => {
                if components(remote).len() > 0 {
                    lemma_file_keeps_dirs(n.tree, components(remote), file, q);
                }
            },
            Item::Failure(_) => {},
        }
    }
    if let Item::File(_, file, data) = item {
        lemma_with_blob(n.uploads, file.digest, data);
    }
}

/// Taking in items changes nothing at a path that they do not lead to.
proof fn lemma_all_taken_elsewhere(
    n: MapperView,
    items: Seq<Item>,
    base: Seq<Seq<char>>,
    p: Seq<Seq<char>>,
)
    requires
        sound(n),
        crate::mapper::all_honest(items),
        items_within(items, base),
        apart(base, p),
    ensures
        same_below(n, left(all_taken(n, items)), p),
    decreases items.len(),
{
    if items.len() > 0 {
        let front = items.drop_last();
        assert forall|i: int| 0 <= i < front.len() implies item_within(#[trigger] front[i], base)
            && crate::mapper::honest_item(front[i]) by {
            assert(front[i] == items[i]);
        }
        lemma_all_taken_elsewhere(n, front, base, p);
        lemma_all_taken_is_sound(n, front);
        if let Ok(k) = all_taken(n, front) {
            assert(item_within(items[items.len() - 1], base));
            lemma_taken_elsewhere(k, items.last(), base, p);
            assert forall|q: Seq<Seq<char>>| #[trigger] leads_to(p, q) implies file_at(n.tree, q)
                == file_at(left(all_taken(n, items)).tree, q) && symlink_at(n.tree, q)
                == symlink_at(left(all_taken(n, items)).tree, q) by {
                assert(file_at(n.tree, q) == file_at(k.tree, q));
            }
        }
    }
}

/// Taking in items removes no directory and no blob.
proof fn lemma_all_taken_keeps(n: MapperView, items: Seq<Item>)
    requires
        sound(n),
        crate::mapper::all_honest(items),
    ensures
        keeps(n, left(all_taken(n, items))),
    decreases items.len(),
{
    if items.len() > 0 {
        let front = items.drop_last();
        assert forall|i: int| 0 <= i < front.len() implies crate::mapper::honest_item(
            #[trigger] front[i],
        ) by {
            assert(front[i] == items[i]);
        }
        lemma_all_taken_keeps(n, front);
        lemma_all_taken_is_sound(n, front);
        if let Ok(k) = all_taken(n, front) {
            lemma_taken_keeps(k, items.last());
            lemma_keeps_twice(n, k, left(all_taken(n, items)));
        }
    }
}

proof fn lemma_keeps_twice(a: MapperView, b: MapperView, c: MapperView)
    requires
        keeps(a, b),
        keeps(b, c),
    ensures
        keeps(a, c),
{
    assert forall|q: Seq<Seq<char>>| #[trigger] dir_in(a.tree, q) implies dir_in(c.tree, q) by {
        assert(dir_in(b.tree, q));
    }
}

proof fn lemma_same_twice(a: MapperView, b: MapperView, c: MapperView, p: Seq<Seq<char>>)
    requires
        same_below(a, b, p),
        same_below(b, c, p),
    ensures
        same_below(a, c, p),
{
    assert forall|q: Seq<Seq<char>>| #[trigger] leads_to(p, q) implies file_at(a.tree, q)
        == file_at(c.tree, q) && symlink_at(a.tree, q) == symlink_at(c.tree, q) by {
        assert(file_at(a.tree, q) == file_at(b.tree, q));
    }
}

/// A name is a component of its own, and its remote spelling is its text.
proof fn lemma_name_component(name: Seq<u8>)
    requires
        is_name(name),
    ensures
        components(reapi_text(parts(name))) == seq![decode_utf8(name)],
{
    let text = decode_utf8(name);
    let none = Seq::<PartView>::empty();
    assert(name[0] != SEP) by {
        assert(name.contains(name[0]));
    }
    if name[0] == DOT {
        if name.len() == 1 {
            assert(name =~= seq![DOT]);
        } else {
            assert(name.contains(name[1]));
        }
    }
    assert(name.skip(0) =~= name);
    crate::text::lemma_first_index(name, SEP);
    if crate::text::first_index(name, SEP) < name.len() {
        assert(name.contains(name[crate::text::first_index(name, SEP)]));
    }
    assert(pieces(name, SEP) =~= seq![name]);
    let last = seq![name].drop_last();
    assert(last =~= Seq::<Seq<u8>>::empty());
    assert(crate::local_path::kept(last) =~= none);
    assert(part_of(name) == Some(PartView::Normal(name)));
    assert(crate::local_path::kept(seq![name]) =~= seq![PartView::Normal(name)]);
    assert(parts(name) =~= seq![PartView::Normal(name)]);
    assert(parts(name).drop_last() =~= none);
    assert(reapi_pieces(none) =~= seq![]);
    assert(reapi_pieces(parts(name)) =~= seq![text]);
    lemma_plain_name(name, text);
    assert forall|i: int| 0 <= i < seq![text].len() implies plain(#[trigger] seq![text][i], '/') by {}
    splitting_undoes_joining(seq![text]);
}

/// The remote path of what stands below `remote` under these names.
pub open spec fn remote_to(remote: Seq<char>, names: Seq<Seq<u8>>) -> Seq<char>
    decreases names.len(),
{
    if names.len() == 0 {
        remote
    } else {
        remote_to(child_remote(remote, names[0]), names.skip(1))
    }
}

/// Nothing above what the names lead to is skipped.
pub open spec fn reached(
    m: MapperView,
    local: Seq<u8>,
    names: Seq<Seq<u8>>,
    exclude: bool,
) -> bool
    decreases names.len(),
{
    names.len() > 0 ==> !skipped(m, local, exclude) && reached(
        m,
        joined_path(local, names[0]),
        names.skip(1),
        exclude,
    )
}

/// Of the walk from `n` to `k`, the part from `a` to `b` is that of what the names lead to; at its
/// remote path nothing else changes anything.
pub open spec fn stretch(
    n: MapperView,
    a: MapperView,
    b: MapperView,
    k: MapperView,
    p: Seq<Seq<char>>,
) -> bool {
    &&& sound(a)
    &&& same_below(n, a, p)
    &&& same_below(b, k, p)
    &&& keeps(b, k)
}

proof fn lemma_entry_is_tidy(entries: Seq<(Seq<u8>, NodeView)>, name: Seq<u8>)
    requires
        tidy_entries(entries),
    ensures
        entry_named(entries, name) matches Some(child) ==> is_name(name) && tidy(child),
    decreases entries.len(),
{
    if entries.len() > 0 {
        let n = entries.len() - 1;
        assert(is_name(entries[n].0));
        assert(tidy(entries[n].1));
        if entries.last().0 != name {
            lemma_front_is_tidy(entries);
            lemma_entry_is_tidy(entries.drop_last(), name);
        }
    }
}

proof fn lemma_front_is_tidy(entries: Seq<(Seq<u8>, NodeView)>)
    requires
        tidy_entries(entries),
        entries.len() > 0,
    ensures
        tidy_entries(entries.drop_last()),
        entry_named(entries.drop_last(), entries.last().0) is None,
{
    let front = entries.drop_last();
    assert forall|i: int| 0 <= i < front.len() implies is_name((#[trigger] front[i]).0) by {
        assert(front[i] == entries[i]);
    }
    assert forall|i: int| 0 <= i < front.len() implies tidy(#[trigger] front[i].1) by {
        assert(front[i] == entries[i]);
        assert(tidy(entries[i].1));
    }
    assert forall|i: int, j: int|
        #![trigger front[i], front[j]]
        0 <= i < j < front.len() implies front[i].0 != front[j].0 by {
        assert(front[i] == entries[i] && front[j] == entries[j]);
    }
    assert forall|i: int| 0 <= i < front.len() implies (#[trigger] front[i]).0
        != entries.last().0 by {
        assert(front[i] == entries[i]);
        assert(entries[i].0 != entries[entries.len() - 1].0);
    }
    lemma_not_named(front, entries.last().0);
}

proof fn lemma_not_named(entries: Seq<(Seq<u8>, NodeView)>, name: Seq<u8>)
    requires
        forall|i: int| 0 <= i < entries.len() ==> (#[trigger] entries[i]).0 != name,
    ensures
        entry_named(entries, name) is None,
    decreases entries.len(),
{
    if entries.len() > 0 {
        assert(entries[entries.len() - 1].0 != name);
        let front = entries.drop_last();
        assert forall|i: int| 0 <= i < front.len() implies (#[trigger] front[i]).0 != name by {
            assert(front[i] == entries[i]);
        }
        lemma_not_named(front, name);
    }
}

/// The remote path of what the names lead to, in components.
proof fn lemma_remote_to(remote: Seq<char>, names: Seq<Seq<u8>>)
    requires
        forall|i: int| 0 <= i < names.len() ==> is_name(#[trigger] names[i]),
    ensures
        components(remote_to(remote, names)) == components(remote) + name_texts(names),
    decreases names.len(),
{
    if names.len() == 0 {
        assert(components(remote) + name_texts(names) =~= components(remote));
    } else {
        let rest = names.skip(1);
        assert forall|i: int| 0 <= i < rest.len() implies is_name(#[trigger] rest[i]) by {
            assert(rest[i] == names[i + 1]);
        }
        lemma_child_components(remote, names[0]);
        lemma_name_component(names[0]);
        lemma_remote_to(child_remote(remote, names[0]), rest);
        assert(name_texts(names) =~= seq![decode_utf8(names[0])] + name_texts(rest));
        assert(components(remote) + seq![decode_utf8(names[0])] + name_texts(rest)
            =~= components(remote) + name_texts(names));
    }
}

/// The walk through what the names lead to is a part of the whole walk, and nothing else in that
/// changes anything at its remote path.
proof fn lemma_stretch(
    n: MapperView,
    m: MapperView,
    node: NodeView,
    local: Seq<u8>,
    remote: Seq<char>,
    exclude: bool,
    names: Seq<Seq<u8>>,
) -> (ends: (MapperView, MapperView))
    requires
        sound(n),
        tidy(node),
        entry_at(node, names) is Some,
        reached(m, local, names, exclude),
    ensures
        all_taken(n, walk(m, node, local, remote, exclude)) matches Ok(k) ==> {
            &&& stretch(n, ends.0, ends.1, k, components(remote) + name_texts(names))
            &&& all_taken(
                ends.0,
                walk(
                    m,
                    entry_at(node, names)->0,
                    path_to(local, names),
                    remote_to(remote, names),
                    exclude,
                ),
            ) == Ok::<MapperView, Fault>(ends.1)
        },
        forall|i: int| 0 <= i < names.len() ==> is_name(#[trigger] names[i]),
    decreases node, 1nat,
{
    if names.len() == 0 {
        (n, left(all_taken(n, walk(m, node, local, remote, exclude))))
    } else {
        match node {
            NodeView::Directory(entries, ended) => {
                let first = seq![Item::Dir(remote)];
                let middle = walk_entries(m, entries, local, remote, exclude);
                let end: Seq<Item> = match ended {
                    Some(cause) => seq![Item::Failure(failure(cause))],
                    None => seq![],
                };
                lemma_all_taken_concat(n, first + middle, end);
                lemma_all_taken_concat(n, first, middle);
                lemma_all_taken_one(n, first[0]);
                crate::mapper::lemma_taken_is_sound(n, first[0]);
                let start = left(all_taken(n, first));
                let p = components(remote) + name_texts(names);
                let ends = lemma_stretch_entries(start, m, entries, local, remote, exclude, names);
                assert forall|q: Seq<Seq<char>>| #[trigger] leads_to(p, q) implies file_at(
                    n.tree,
                    q,
                ) == file_at(start.tree, q) && symlink_at(n.tree, q) == symlink_at(
                    start.tree,
                    q,
                ) by {
                    ensured_directory_changes_no_entry(n.tree, components(remote), q);
                }
                if let Ok(k) = all_taken(n, walk(m, node, local, remote, exclude)) {
                    lemma_same_twice(n, start, ends.0, p);
                    match ended {
                        Some(cause) => {
                            lemma_all_taken_one(
                                left(all_taken(n, first + middle)),
                                Item::Failure(failure(cause)),
                            );
                        },
                        None => {},
                    }
                }
                ends
            },
            _ => (n, n),
        }
    }
}

proof fn lemma_stretch_entries(
    n: MapperView,
    m: MapperView,
    entries: Seq<(Seq<u8>, NodeView)>,
    local: Seq<u8>,
    remote: Seq<char>,
    exclude: bool,
    names: Seq<Seq<u8>>,
) -> (ends: (MapperView, MapperView))
    requires
        sound(n),
        tidy_entries(entries),
        names.len() > 0,
        entry_named(entries, names[0]) matches Some(child) && entry_at(child, names.skip(1)) is Some,
        reached(m, joined_path(local, names[0]), names.skip(1), exclude),
    ensures
        all_taken(n, walk_entries(m, entries, local, remote, exclude)) matches Ok(k) ==> {
            &&& stretch(n, ends.0, ends.1, k, components(remote) + name_texts(names))
            &&& all_taken(
                ends.0,
                walk(
                    m,
                    entry_at(entry_named(entries, names[0])->0, names.skip(1))->0,
                    path_to(local, names),
                    remote_to(remote, names),
                    exclude,
                ),
            ) == Ok::<MapperView, Fault>(ends.1)
        },
        forall|i: int| 0 <= i < names.len() ==> is_name(#[trigger] names[i]),
    decreases entries, 0nat,
{
    let front = entries.drop_last();
    let last = entries.last();
    let rest = names.skip(1);
    let to = child_remote(remote, last.0);
    let at = joined_path(local, last.0);
    let before = walk_entries(m, front, local, remote, exclude);
    let found = walk(m, last.1, at, to, exclude);
    let p = components(remote) + name_texts(names);
    lemma_front_is_tidy(entries);
    lemma_entry_is_tidy(entries, names[0]);
    lemma_all_taken_concat(n, before, found);
    crate::mapper::lemma_walk_entries_is_honest(m, front, local, remote, exclude);
    lemma_all_taken_is_sound(n, before);
    let between = left(all_taken(n, before));
    lemma_child_components(remote, last.0);
    assert(is_name(entries[entries.len() - 1].0));
    lemma_name_component(last.0);
    assert(name_texts(names) =~= seq![decode_utf8(names[0])] + name_texts(rest));
    if last.0 == names[0] {
        assert(tidy(entries[entries.len() - 1].1));
        let ends = lemma_stretch(between, m, last.1, at, to, exclude, rest);
        assert(components(to) + name_texts(rest) =~= p);
        assert forall|i: int| 0 <= i < names.len() implies is_name(#[trigger] names[i]) by {
            if i > 0 {
                assert(rest[i - 1] == names[i]);
            }
        }
        if let Ok(k) = all_taken(n, walk_entries(m, entries, local, remote, exclude)) {
            let here = components(to);
            assert(p.take(here.len() as int) =~= here);
            lemma_walk_entries_elsewhere(n, m, front, local, remote, exclude, last.0, p);
            lemma_same_twice(n, between, ends.0, p);
        }
        ends
    } else {
        let ends = lemma_stretch_entries(n, m, front, local, remote, exclude, names);
        if let Ok(k) = all_taken(n, walk_entries(m, entries, local, remote, exclude)) {
            lemma_walk_is_honest(m, last.1, at, to, exclude);
            lemma_walk_within(m, last.1, at, to, exclude);
            lemma_names_apart(components(remote), last.0, names);
            lemma_all_taken_elsewhere(between, found, components(to), p);
            lemma_all_taken_keeps(between, found);
            lemma_same_twice(ends.1, between, k, p);
            lemma_keeps_twice(ends.1, between, k);
        }
        ends
    }
}

/// Places below one directory under different names are apart.
proof fn lemma_names_apart(base: Seq<Seq<char>>, other: Seq<u8>, names: Seq<Seq<u8>>)
    requires
        is_name(other),
        names.len() > 0,
        is_name(names[0]),
        other != names[0],
    ensures
        apart(base + seq![decode_utf8(other)], base + name_texts(names)),
{
    decode_utf8_encode_utf8(other);
    decode_utf8_encode_utf8(names[0]);
    let p = base + seq![decode_utf8(other)];
    let q = base + name_texts(names);
    let i = base.len() as int;
    assert(p[i] == decode_utf8(other));
    assert(q[i] == decode_utf8(names[0]));
    assert(p[i] != q[i]);
}

/// Entries under other names change nothing at a place under this one.
proof fn lemma_walk_entries_elsewhere(
    n: MapperView,
    m: MapperView,
    entries: Seq<(Seq<u8>, NodeView)>,
    local: Seq<u8>,
    remote: Seq<char>,
    exclude: bool,
    name: Seq<u8>,
    p: Seq<Seq<char>>,
)
    requires
        sound(n),
        tidy_entries(entries),
        entry_named(entries, name) is None,
        is_name(name),
        leads_to(components(remote) + seq![decode_utf8(name)], p),
    ensures
        same_below(n, left(all_taken(n, walk_entries(m, entries, local, remote, exclude))), p),
    decreases entries.len(),
{
    if entries.len() > 0 {
        let front = entries.drop_last();
        let last = entries.last();
        let to = child_remote(remote, last.0);
        let at = joined_path(local, last.0);
        let before = walk_entries(m, front, local, remote, exclude);
        let found = walk(m, last.1, at, to, exclude);
        lemma_front_is_tidy(entries);
        lemma_all_taken_concat(n, before, found);
        crate::mapper::lemma_walk_entries_is_honest(m, front, local, remote, exclude);
        lemma_all_taken_is_sound(n, before);
        lemma_walk_entries_elsewhere(n, m, front, local, remote, exclude, name, p);
        if let Ok(between) = all_taken(n, before) {
            assert(is_name(entries[entries.len() - 1].0));
            lemma_walk_is_honest(m, last.1, at, to, exclude);
            lemma_walk_within(m, last.1, at, to, exclude);
            lemma_child_components(remote, last.0);
            lemma_name_component(last.0);
            let one = seq![name];
            lemma_names_apart(components(remote), last.0, one);
            assert(name_texts(one) =~= seq![decode_utf8(name)]);
            let here = components(remote) + seq![decode_utf8(name)];
            let i = components(remote).len() as int;
            decode_utf8_encode_utf8(last.0);
            decode_utf8_encode_utf8(name);
            assert(p[i] == p.take(here.len() as int)[i]);
            assert(components(to)[i] == decode_utf8(last.0));
            assert(components(to)[i] != p[i]);
            lemma_all_taken_elsewhere(between, found, components(to), p);
            lemma_same_twice(n, between, left(all_taken(between, found)), p);
        }
    } else {
    }
}

/// Nothing on the way to what the names lead to is skipped, and neither is that.
pub open spec fn unskipped(
    m: MapperView,
    local: Seq<u8>,
    names: Seq<Seq<u8>>,
    exclude: bool,
) -> bool
    decreases names.len(),
{
    &&& !skipped(m, local, exclude)
    &&& names.len() > 0 ==> unskipped(m, joined_path(local, names[0]), names.skip(1), exclude)
}

proof fn lemma_unskipped_is_reached(
    m: MapperView,
    local: Seq<u8>,
    names: Seq<Seq<u8>>,
    exclude: bool,
)
    requires
        unskipped(m, local, names, exclude),
    ensures
        reached(m, local, names, exclude),
        !skipped(m, path_to(local, names), exclude),
    decreases names.len(),
{
    if names.len() > 0 {
        lemma_unskipped_is_reached(m, joined_path(local, names[0]), names.skip(1), exclude);
    }
}

/// What is taken in by itself stands at its remote path.
proof fn lemma_leaf_stands(
    n: MapperView,
    m: MapperView,
    node: NodeView,
    local: Seq<u8>,
    remote: Seq<char>,
    exclude: bool,
)
    requires
        sound(n),
        !skipped(m, local, exclude),
    ensures
        all_taken(n, walk(m, node, local, remote, exclude)) matches Ok(k) ==> stands_at(
            k,
            node,
            components(remote),
        ),
{
    let items = walk(m, node, local, remote, exclude);
    let p = components(remote);
    match node {
        NodeView::Directory(entries, ended) => {
            let first = seq![Item::Dir(remote)];
            let middle = walk_entries(m, entries, local, remote, exclude);
            let end: Seq<Item> = match ended {
                Some(cause) => seq![Item::Failure(failure(cause))],
                None => seq![],
            };
            lemma_all_taken_concat(n, first + middle, end);
            lemma_all_taken_concat(n, first, middle);
            lemma_all_taken_one(n, first[0]);
            crate::mapper::lemma_taken_is_sound(n, first[0]);
            let start = left(all_taken(n, first));
            lemma_ensured_dir(n.tree, p, p);
            crate::mapper::lemma_walk_entries_is_honest(m, entries, local, remote, exclude);
            lemma_all_taken_keeps(start, middle);
            if let Some(cause) = ended {
                lemma_all_taken_one(
                    left(all_taken(n, first + middle)),
                    Item::Failure(failure(cause)),
                );
            }
        },
        NodeView::File(content, mode) => {
            assert(items =~= seq![items[0]]);
            lemma_all_taken_one(n, items[0]);
            if let Item::File(_, file, data) = items[0] {
                lemma_with_blob(n.uploads, file.digest, data);
                if p.len() > 0 {
                    inserted_file_is_found(n.tree, p, file, p);
                }
            }
        },
        NodeView::Symlink(target) => {
            assert(items =~= seq![items[0]]);
            lemma_all_taken_one(n, items[0]);
            if p.len() > 0 {
                inserted_symlink_is_found(n.tree, p, reapi_text(parts(target)), p);
            }
        },
        _ => {
            assert(items =~= seq![items[0]]);
            lemma_all_taken_one(n, items[0]);
        },
    }
}

proof fn lemma_unskipped_stands(
    n: MapperView,
    m: MapperView,
    node: NodeView,
    local: Seq<u8>,
    remote: Seq<char>,
    exclude: bool,
    names: Seq<Seq<u8>>,
)
    requires
        sound(n),
        tidy(node),
        entry_at(node, names) is Some,
        unskipped(m, local, names, exclude),
    ensures
        all_taken(n, walk(m, node, local, remote, exclude)) matches Ok(k) ==> stands_at(
            k,
            entry_at(node, names)->0,
            components(remote) + name_texts(names),
        ),
{
    lemma_unskipped_is_reached(m, local, names, exclude);
    let ends = lemma_stretch(n, m, node, local, remote, exclude, names);
    lemma_remote_to(remote, names);
    if let Ok(k) = all_taken(n, walk(m, node, local, remote, exclude)) {
        let p = components(remote) + name_texts(names);
        let leaf = entry_at(node, names)->0;
        lemma_leaf_stands(
            ends.0,
            m,
            leaf,
            path_to(local, names),
            remote_to(remote, names),
            exclude,
        );
        assert(p.take(p.len() as int) =~= p);
        assert(leads_to(p, p));
    }
}

proof fn lemma_skipped_stays_out(
    n: MapperView,
    m: MapperView,
    node: NodeView,
    local: Seq<u8>,
    remote: Seq<char>,
    exclude: bool,
    names: Seq<Seq<u8>>,
)
    requires
        sound(n),
        tidy(node),
        entry_at(node, names) is Some,
        !unskipped(m, local, names, exclude),
    ensures
        all_taken(n, walk(m, node, local, remote, exclude)) matches Ok(k) ==> same_below(
            n,
            k,
            components(remote) + name_texts(names),
        ),
    decreases names.len(),
{
    if !skipped(m, local, exclude) {
        let p = components(remote) + name_texts(names);
        let one = names.take(1);
        let rest = names.skip(1);
        let at = joined_path(local, names[0]);
        let to = child_remote(remote, names[0]);
        let none = Seq::<Seq<u8>>::empty();
        assert(one.skip(1) =~= none);
        assert(one[0] == names[0]);
        assert(path_to(at, none) == at);
        assert(path_to(local, one) == at);
        assert(remote_to(to, none) == to);
        assert(remote_to(remote, one) == to);
        assert(reached(m, at, none, exclude));
        match node {
            NodeView::Directory(entries, ended) => {
                let child = entry_named(entries, names[0])->0;
                assert(entry_at(child, none) == Some(child));
                assert(entry_at(node, one) == Some(child));
                let ends = lemma_stretch(n, m, node, local, remote, exclude, one);
                lemma_entry_is_tidy(entries, names[0]);
                lemma_remote_to(remote, one);
                if let Ok(k) = all_taken(n, walk(m, node, local, remote, exclude)) {
                    lemma_skipped_stays_out(ends.0, m, child, at, to, exclude, rest);
                    assert(name_texts(names) =~= name_texts(one) + name_texts(rest));
                    let p1 = components(remote) + name_texts(one);
                    assert(p1 + name_texts(rest) =~= p);
                    assert(p.take(p1.len() as int) =~= p1);
                    lemma_same_further(n, ends.0, p1, p);
                    lemma_same_further(ends.1, k, p1, p);
                    lemma_same_twice(n, ends.0, ends.1, p);
                    lemma_same_twice(n, ends.1, k, p);
                }
            },
            _ => {},
        }
    }
}

proof fn lemma_same_further(
    a: MapperView,
    b: MapperView,
    p: Seq<Seq<char>>,
    further: Seq<Seq<char>>,
)
    requires
        same_below(a, b, p),
        leads_to(p, further),
    ensures
        same_below(a, b, further),
{
    assert forall|q: Seq<Seq<char>>| #[trigger] leads_to(further, q) implies file_at(a.tree, q)
        == file_at(b.tree, q) && symlink_at(a.tree, q) == symlink_at(b.tree, q) by {
        assert(q.take(p.len() as int) =~= q.take(further.len() as int).take(p.len() as int));
        assert(leads_to(p, q));
    }
}

/// What is asked for by name is skipped only where it is an output or called `.git`.
proof fn lemma_open_way(m: MapperView, local: Seq<u8>, names: Seq<Seq<u8>>)
    ensures
        way_is_open(m, local, names) <==> unskipped(m, local, names, false),
        way_is_open(m, local, names) && way_is_clear(m, local, names) <==> unskipped(
            m,
            local,
            names,
            true,
        ),
    decreases names.len(),
{
    if names.len() > 0 {
        lemma_open_way(m, joined_path(local, names[0]), names.skip(1));
    }
}

/// An input that is asked for by name is taken in whole, wherever it lies: each file, symbolic link
/// and directory in it stands at its place below the remote path, files with their content in the
/// upload set. What is an output or called `.git`, and what lies below that, is left out.
pub proof fn named_input_is_taken_in_whole(
    m: MapperView,
    node: NodeView,
    local: Seq<u8>,
    remote: Seq<char>,
    names: Seq<Seq<u8>>,
)
    requires
        sound(m),
        tidy(node),
        entry_at(node, names) is Some,
    ensures
        with_input(m, node, local, remote, false) matches Ok(n) ==> {
            &&& way_is_open(m, local, names) ==> stands_at(
                n,
                entry_at(node, names)->0,
                components(remote) + name_texts(names),
            )
            &&& !way_is_open(m, local, names) ==> same_below(
                m,
                n,
                components(remote) + name_texts(names),
            )
        },
{
    lemma_open_way(m, local, names);
    if way_is_open(m, local, names) {
        lemma_unskipped_stands(m, m, node, local, remote, false, names);
    } else {
        lemma_skipped_stays_out(m, m, node, local, remote, false, names);
    }
}

/// A package is taken in whole but for the build directories: what lies in one of them is left out,
/// as is what is an output or called `.git`.
pub proof fn package_is_taken_in_but_for_build_directories(
    m: MapperView,
    node: NodeView,
    local: Seq<u8>,
    remote: Seq<char>,
    names: Seq<Seq<u8>>,
)
    requires
        sound(m),
        tidy(node),
        entry_at(node, names) is Some,
    ensures
        with_input(m, node, local, remote, true) matches Ok(n) ==> {
            &&& way_is_open(m, local, names) && way_is_clear(m, local, names) ==> stands_at(
                n,
                entry_at(node, names)->0,
                components(remote) + name_texts(names),
            )
            &&& !(way_is_open(m, local, names) && way_is_clear(m, local, names)) ==> same_below(
                m,
                n,
                components(remote) + name_texts(names),
            )
        },
{
    lemma_open_way(m, local, names);
    if way_is_open(m, local, names) && way_is_clear(m, local, names) {
        lemma_unskipped_stands(m, m, node, local, remote, true, names);
    } else {
        lemma_skipped_stays_out(m, m, node, local, remote, true, names);
    }
}

/// Taking in an input changes nothing at a place in the tree that is apart from its own.
pub proof fn input_changes_nothing_elsewhere(
    m: MapperView,
    node: NodeView,
    local: Seq<u8>,
    remote: Seq<char>,
    exclude: bool,
    place: Seq<Seq<char>>,
)
    requires
        sound(m),
        apart(components(remote), place),
    ensures
        same_below(m, left(with_input(m, node, local, remote, exclude)), place),
{
    lemma_walk_is_honest(m, node, local, remote, exclude);
    lemma_walk_within(m, node, local, remote, exclude);
    lemma_all_taken_elsewhere(
        m,
        walk(m, node, local, remote, exclude),
        components(remote),
        place,
    );
}

/// Everything in the node can be read.
pub open spec fn readable(node: NodeView) -> bool
    decreases node, 1nat,
{
    match node {
        NodeView::Unreadable(_) => false,
        NodeView::UnreadableLink(_) => false,
        NodeView::File(content, _) => !(content is Unreadable),
        NodeView::Symlink(_) => true,
        NodeView::Directory(entries, ended) => ended is None && readable_entries(entries),
    }
}

/// Everything in the entries can be read.
pub open spec fn readable_entries(entries: Seq<(Seq<u8>, NodeView)>) -> bool
    decreases entries, 0nat,
{
    forall|i: int| 0 <= i < entries.len() ==> readable(#[trigger] entries[i].1)
}

/// What can be read and has a remote path is taken in without a failure.
pub proof fn readable_input_is_taken_in(
    n: MapperView,
    m: MapperView,
    node: NodeView,
    local: Seq<u8>,
    remote: Seq<char>,
    exclude: bool,
)
    requires
        readable(node),
        components(remote).len() > 0,
    ensures
        all_taken(n, walk(m, node, local, remote, exclude)) is Ok,
    decreases node, 1nat,
{
    let items = walk(m, node, local, remote, exclude);
    if !skipped(m, local, exclude) {
        match node {
            NodeView::Directory(entries, ended) => {
                let first = seq![Item::Dir(remote)];
                let middle = walk_entries(m, entries, local, remote, exclude);
                lemma_all_taken_concat(n, first + middle, seq![]);
                lemma_all_taken_concat(n, first, middle);
                lemma_all_taken_one(n, first[0]);
                let start = left(all_taken(n, first));
                lemma_readable_entries(start, m, entries, local, remote, exclude);
                assert(items =~= first + middle + seq![]);
            },
            _ => {
                assert(items =~= seq![items[0]]);
                lemma_all_taken_one(n, items[0]);
            },
        }
    }
}

proof fn lemma_readable_entries(
    n: MapperView,
    m: MapperView,
    entries: Seq<(Seq<u8>, NodeView)>,
    local: Seq<u8>,
    remote: Seq<char>,
    exclude: bool,
)
    requires
        readable_entries(entries),
        components(remote).len() > 0,
    ensures
        all_taken(n, walk_entries(m, entries, local, remote, exclude)) is Ok,
    decreases entries, 0nat,
{
    if entries.len() > 0 {
        let front = entries.drop_last();
        let last = entries.last();
        let to = child_remote(remote, last.0);
        let at = joined_path(local, last.0);
        let before = walk_entries(m, front, local, remote, exclude);
        assert forall|i: int| 0 <= i < front.len() implies readable(#[trigger] front[i].1) by {
            assert(front[i] == entries[i]);
            assert(readable(entries[i].1));
        }
        lemma_readable_entries(n, m, front, local, remote, exclude);
        lemma_all_taken_concat(n, before, walk(m, last.1, at, to, exclude));
        assert(readable(entries[entries.len() - 1].1));
        lemma_child_components(remote, last.0);
        readable_input_is_taken_in(
            left(all_taken(n, before)),
            m,
            last.1,
            at,
            to,
            exclude,
        );
    }
}

/// Everything at a local path stands in the tree below the remote path of that path, but for what
/// is an output or called `.git`, which is left out. Elsewhere nothing changes.
pub open spec fn input_stands(
    m: MapperView,
    d: Seq<FactView>,
    path: Seq<u8>,
    n: MapperView,
) -> bool {
    let base = components(execroot(m, path, dir_at(d, path)));
    &&& keeps(m, n)
    &&& forall|place: Seq<Seq<char>>| #[trigger] apart(base, place) ==> same_below(m, n, place)
    &&& forall|names: Seq<Seq<u8>>|
        (#[trigger] entry_at(node_at(d, path), names)) is Some ==> if way_is_open(m, path, names) {
            stands_at(n, entry_at(node_at(d, path), names)->0, base + name_texts(names))
        } else {
            same_below(m, n, base + name_texts(names))
        }
}

/// Everything below a package root stands in the tree below the remote path of that root, but for
/// what is in a build directory, an output or called `.git`, which is left out. Elsewhere nothing
/// changes.
pub open spec fn package_stands(
    m: MapperView,
    d: Seq<FactView>,
    root: Seq<u8>,
    node: NodeView,
    n: MapperView,
) -> bool {
    let base = components(execroot(m, root, dir_at(d, root)));
    &&& keeps(m, n)
    &&& forall|place: Seq<Seq<char>>| #[trigger] apart(base, place) ==> same_below(m, n, place)
    &&& forall|names: Seq<Seq<u8>>|
        (#[trigger] entry_at(node, names)) is Some ==> if way_is_open(m, root, names)
            && way_is_clear(m, root, names) {
            stands_at(n, entry_at(node, names)->0, base + name_texts(names))
        } else {
            same_below(m, n, base + name_texts(names))
        }
}

/// Asking for a remote path changes nothing about what is left out.
proof fn lemma_ways_stay(m: MapperView, n: MapperView, local: Seq<u8>, names: Seq<Seq<u8>>)
    requires
        m.output_paths == n.output_paths,
        m.target_dir == n.target_dir,
        m.build_dir == n.build_dir,
    ensures
        way_is_open(m, local, names) == way_is_open(n, local, names),
        way_is_clear(m, local, names) == way_is_clear(n, local, names),
    decreases names.len(),
{
    if names.len() > 0 {
        lemma_ways_stay(m, n, joined_path(local, names[0]), names.skip(1));
    }
}

/// The remote path of a local path has at least one component.
pub proof fn remote_path_has_a_name(m: MapperView, path: Seq<u8>, is_dir: bool)
    requires
        slots_are_own(m),
    ensures
        components(execroot(m, path, is_dir)).len() > 0,
{
    remote_paths_are_in_the_workspace(m, path, is_dir);
    let e = execroot(m, path, is_dir);
    reveal_strlit("workspace");
    let name = WORKDIR_NAME@;
    assert(plain(name, '/'));
    assert(joined(seq![name], "/"@) == name);
    assert forall|i: int| 0 <= i < seq![name].len() implies plain(#[trigger] seq![name][i], '/') by {}
    splitting_undoes_joining(seq![name]);
    if e != name {
        components_of_a_path_below(name, command_path(e));
    }
}

/// An input that a command is told of is taken in whole, at the place by which the command spells
/// it; where it can be read, nothing fails.
pub proof fn input_stands_where_it_is_spelled(m: MapperView, d: Seq<FactView>, path: Seq<u8>)
    requires
        sound(m),
        tidy(node_at(d, path)),
    ensures
        spelled_input(m, d, path) matches Ok((n, text)) ==> {
            &&& input_stands(m, d, path, n)
            &&& text == command_path(execroot(m, path, dir_at(d, path)))
        },
        readable(node_at(d, path)) && slots_are_own(m) ==> spelled_input(m, d, path) is Ok,
{
    let is_dir = dir_at(d, path);
    let a = asked(m, path, is_dir);
    let remote = execroot(m, path, is_dir);
    let node = node_at(d, path);
    asking_grows(m, path, is_dir);
    input_is_spelled_by_its_place(m, d, path);
    if let Ok((n, text)) = spelled_input(m, d, path) {
        lemma_walk_is_honest(a, node, path, remote, false);
        lemma_all_taken_keeps(a, walk(a, node, path, remote, false));
        assert forall|place: Seq<Seq<char>>| #[trigger]
            apart(components(remote), place) implies same_below(m, n, place) by {
            input_changes_nothing_elsewhere(a, node, path, remote, false, place);
        }
        assert forall|names: Seq<Seq<u8>>|
            (#[trigger] entry_at(node, names)) is Some implies if way_is_open(m, path, names) {
            stands_at(n, entry_at(node, names)->0, components(remote) + name_texts(names))
        } else {
            same_below(m, n, components(remote) + name_texts(names))
        } by {
            lemma_ways_stay(m, a, path, names);
            named_input_is_taken_in_whole(a, node, path, remote, names);
        }
    }
    if readable(node) && slots_are_own(m) {
        remote_path_has_a_name(m, path, is_dir);
        readable_input_is_taken_in(a, a, node, path, remote, false);
    }
}

/// A package is taken in whole but for the build directories, at the remote path of its root.
pub proof fn package_stands_at_its_root(
    m: MapperView,
    d: Seq<FactView>,
    root: Seq<u8>,
    node: NodeView,
)
    requires
        sound(m),
        tidy(node),
    ensures
        with_tree_at(m, d, root, node, true) matches Ok(n) ==> package_stands(m, d, root, node, n),
        readable(node) && slots_are_own(m) ==> with_tree_at(m, d, root, node, true) is Ok,
{
    let is_dir = dir_at(d, root);
    let a = asked(m, root, is_dir);
    let remote = execroot(m, root, is_dir);
    asking_grows(m, root, is_dir);
    if let Ok(n) = with_tree_at(m, d, root, node, true) {
        lemma_walk_is_honest(a, node, root, remote, true);
        lemma_all_taken_keeps(a, walk(a, node, root, remote, true));
        assert forall|place: Seq<Seq<char>>| #[trigger]
            apart(components(remote), place) implies same_below(m, n, place) by {
            input_changes_nothing_elsewhere(a, node, root, remote, true, place);
        }
        assert forall|names: Seq<Seq<u8>>|
            (#[trigger] entry_at(node, names)) is Some implies if way_is_open(m, root, names)
            && way_is_clear(m, root, names) {
            stands_at(n, entry_at(node, names)->0, components(remote) + name_texts(names))
        } else {
            same_below(m, n, components(remote) + name_texts(names))
        } by {
            lemma_ways_stay(m, a, root, names);
            package_is_taken_in_but_for_build_directories(a, node, root, remote, names);
        }
    }
    if readable(node) && slots_are_own(m) {
        remote_path_has_a_name(m, root, is_dir);
        readable_input_is_taken_in(a, a, node, root, remote, true);
    }
}

/// The blob of a file that is taken in is sent as it was read: from memory where its bytes were
/// read into memory, and from its place where they were not. A blob that is in the set already
/// stays.
pub proof fn file_is_sent_as_it_was_read(
    m: MapperView,
    content: ContentView,
    mode: u32,
    local: Seq<u8>,
    remote: Seq<char>,
    exclude: bool,
    digest: DigestView,
)
    requires
        sound(m),
        !skipped(m, local, exclude),
        components(remote).len() > 0,
        !holds(m.uploads, digest),
    ensures
        with_input(m, NodeView::File(content, mode), local, remote, exclude) matches Ok(n) ==> {
            &&& content matches ContentView::Inline(bytes) ==> digest_of(bytes) == digest ==> lookup::<
                DigestKey,
                BlobView,
            >(n.uploads, digest) == Some(BlobView { digest, data: DataView::Bytes(bytes) })
            &&& content == ContentView::Streamed(digest) ==> lookup::<DigestKey, BlobView>(
                n.uploads,
                digest,
            ) == Some(BlobView { digest, data: DataView::File(local) })
        },
        content matches ContentView::Unreadable(cause) ==> with_input(
            m,
            NodeView::File(content, mode),
            local,
            remote,
            exclude,
        ) == Err::<MapperView, Fault>(Fault { at: m, error: failure(cause) }),
{
    let items = walk(m, NodeView::File(content, mode), local, remote, exclude);
    lemma_all_taken_one(m, items[0]);
    assert(items =~= seq![items[0]]);
    match content {
        ContentView::Inline(bytes) => {
            lemma_with::<DigestKey, BlobView>(
                m.uploads,
                digest_of(bytes),
                BlobView { digest: digest_of(bytes), data: DataView::Bytes(bytes) },
            );
        },
        ContentView::Streamed(d) => {
            lemma_with::<DigestKey, BlobView>(
                m.uploads,
                d,
                BlobView { digest: d, data: DataView::File(local) },
            );
        },
        _ => {},
    }
}

/// What cannot be read fails, and says so; what was taken in before stays.
pub proof fn unreadable_input_fails(
    m: MapperView,
    cause: Seq<char>,
    local: Seq<u8>,
    remote: Seq<char>,
    exclude: bool,
)
    requires
        !skipped(m, local, exclude),
    ensures
        with_input(m, NodeView::Unreadable(cause), local, remote, exclude) == Err::<
            MapperView,
            Fault,
        >(
            Fault {
                at: m,
                error: failure_by(
                    "failed to read metadata for "@ + "`"@ + lossy_text(local) + "`"@,
                    cause,
                ),
            },
        ),
        with_input(m, NodeView::UnreadableLink(cause), local, remote, exclude) == Err::<
            MapperView,
            Fault,
        >(
            Fault {
                at: m,
                error: failure_by(
                    "failed to read symlink "@ + "`"@ + lossy_text(local) + "`"@,
                    cause,
                ),
            },
        ),
{
    let a = walk(m, NodeView::Unreadable(cause), local, remote, exclude);
    let b = walk(m, NodeView::UnreadableLink(cause), local, remote, exclude);
    assert(a =~= seq![a[0]]);
    assert(b =~= seq![b[0]]);
    lemma_all_taken_one(m, a[0]);
    lemma_all_taken_one(m, b[0]);
}

/// A directory whose entries cannot all be listed fails once those that can be were taken in.
pub proof fn broken_directory_fails(
    m: MapperView,
    entries: Seq<(Seq<u8>, NodeView)>,
    cause: Seq<char>,
    local: Seq<u8>,
    remote: Seq<char>,
    exclude: bool,
)
    requires
        !skipped(m, local, exclude),
    ensures
        match with_input(m, NodeView::Directory(entries, None), local, remote, exclude) {
            Ok(n) => with_input(
                m,
                NodeView::Directory(entries, Some(cause)),
                local,
                remote,
                exclude,
            ) == Err::<MapperView, Fault>(Fault { at: n, error: failure(cause) }),
            Err(f) => with_input(
                m,
                NodeView::Directory(entries, Some(cause)),
                local,
                remote,
                exclude,
            ) == Err::<MapperView, Fault>(f),
        },
{
    let whole = walk(m, NodeView::Directory(entries, None), local, remote, exclude);
    let broken = walk(m, NodeView::Directory(entries, Some(cause)), local, remote, exclude);
    let end = seq![Item::Failure(failure(cause))];
    assert(broken =~= whole + end);
    lemma_all_taken_concat(m, whole, end);
    if let Ok(n) = all_taken(m, whole) {
        lemma_all_taken_one(n, end[0]);
    }
}

/// Neither a file nor a symbolic link can stand in place of the whole tree; a file that should
/// leaves its blob behind.
pub proof fn root_is_a_directory(
    m: MapperView,
    bytes: Seq<u8>,
    mode: u32,
    target: Seq<u8>,
    local: Seq<u8>,
    remote: Seq<char>,
    exclude: bool,
)
    requires
        sound(m),
        !skipped(m, local, exclude),
        components(remote).len() == 0,
    ensures
        with_input(m, NodeView::File(ContentView::Inline(bytes), mode), local, remote, exclude)
            matches Err(f) && {
            &&& f.error == failure("remote file path must contain a file name"@)
            &&& f.at.tree == m.tree
            &&& holds(f.at.uploads, digest_of(bytes))
        },
        with_input(m, NodeView::Symlink(target), local, remote, exclude) == Err::<
            MapperView,
            Fault,
        >(Fault { at: m, error: failure("remote symlink path must contain a file name"@) }),
{
    let file = NodeView::File(ContentView::Inline(bytes), mode);
    let a = walk(m, file, local, remote, exclude);
    let b = walk(m, NodeView::Symlink(target), local, remote, exclude);
    assert(a =~= seq![a[0]]);
    assert(b =~= seq![b[0]]);
    lemma_all_taken_one(m, a[0]);
    lemma_all_taken_one(m, b[0]);
    lemma_with_blob(m.uploads, digest_of(bytes), DataView::Bytes(bytes));
}

/// What is left out depends on the directories and outputs of a mapping alone, and so does what is
/// found on a walk.
proof fn lemma_walk_depends_on_directories(
    m: MapperView,
    n: MapperView,
    node: NodeView,
    local: Seq<u8>,
    remote: Seq<char>,
    exclude: bool,
)
    requires
        m.output_paths == n.output_paths,
        m.target_dir == n.target_dir,
        m.build_dir == n.build_dir,
    ensures
        walk(m, node, local, remote, exclude) == walk(n, node, local, remote, exclude),
    decreases node, 1nat,
{
    if let NodeView::Directory(entries, _) = node {
        lemma_entries_depend_on_directories(m, n, entries, local, remote, exclude);
    }
}

proof fn lemma_entries_depend_on_directories(
    m: MapperView,
    n: MapperView,
    entries: Seq<(Seq<u8>, NodeView)>,
    local: Seq<u8>,
    remote: Seq<char>,
    exclude: bool,
)
    requires
        m.output_paths == n.output_paths,
        m.target_dir == n.target_dir,
        m.build_dir == n.build_dir,
    ensures
        walk_entries(m, entries, local, remote, exclude) == walk_entries(
            n,
            entries,
            local,
            remote,
            exclude,
        ),
    decreases entries, 0nat,
{
    if entries.len() > 0 {
        let last = entries.last();
        lemma_entries_depend_on_directories(m, n, entries.drop_last(), local, remote, exclude);
        lemma_walk_depends_on_directories(
            m,
            n,
            last.1,
            joined_path(local, last.0),
            child_remote(remote, last.0),
            exclude,
        );
    }
}

/// A directory is taken in entry by entry: with one more entry, it is taken in as without it, and
/// then that entry is taken in as an input of its own, at its own path, below the remote path of
/// the directory under its own name. This holds whatever the names and whatever is found.
pub proof fn directory_is_taken_in_entry_by_entry(
    m: MapperView,
    entries: Seq<(Seq<u8>, NodeView)>,
    entry: (Seq<u8>, NodeView),
    local: Seq<u8>,
    remote: Seq<char>,
    exclude: bool,
)
    requires
        sound(m),
        !skipped(m, local, exclude),
        remote.len() > 0,
        names_an_entry(entry.0),
    ensures
        with_input(
            m,
            NodeView::Directory(entries.push(entry), None),
            local,
            remote,
            exclude,
        ) == (match with_input(m, NodeView::Directory(entries, None), local, remote, exclude) {
            Ok(n) => with_input(
                n,
                entry.1,
                joined_path(local, entry.0),
                remote + "/"@ + lossy_text(entry.0),
                exclude,
            ),
            Err(f) => Err(f),
        }),
{
    let all = entries.push(entry);
    let at = joined_path(local, entry.0);
    let to = child_remote(remote, entry.0);
    assert(all.drop_last() =~= entries);
    assert(all.last() == entry);
    let before = walk(m, NodeView::Directory(entries, None), local, remote, exclude);
    let after = walk(m, NodeView::Directory(all, None), local, remote, exclude);
    let last = walk(m, entry.1, at, to, exclude);
    assert(after =~= before + last);
    lemma_all_taken_concat(m, before, last);
    components_of_short_paths(entry.0);
    each_component_is_spelled(seq![], entry.0);
    lemma_walk_is_honest(m, NodeView::Directory(entries, None), local, remote, exclude);
    lemma_all_taken_is_sound(m, before);
    if let Ok(n) = all_taken(m, before) {
        lemma_walk_depends_on_directories(m, n, entry.1, at, to, exclude);
    }
}

/// A directory without entries is a directory in the tree, and nothing else.
pub proof fn empty_directory_is_a_directory(
    m: MapperView,
    local: Seq<u8>,
    remote: Seq<char>,
    exclude: bool,
    place: Seq<Seq<char>>,
)
    requires
        sound(m),
        !skipped(m, local, exclude),
    ensures
        with_input(m, NodeView::Directory(seq![], None), local, remote, exclude) matches Ok(n) && {
            &&& dir_in(n.tree, components(remote))
            &&& file_at(n.tree, place) == file_at(m.tree, place)
            &&& symlink_at(n.tree, place) == symlink_at(m.tree, place)
            &&& n.uploads == m.uploads
        },
{
    let items = walk(m, NodeView::Directory(seq![], None), local, remote, exclude);
    assert(walk_entries(m, seq![], local, remote, exclude) =~= seq![]);
    assert(items =~= seq![Item::Dir(remote)]);
    lemma_all_taken_one(m, items[0]);
    lemma_ensured_dir(m.tree, components(remote), seq![]);
    ensured_directory_changes_no_entry(m.tree, components(remote), place);
}

} // verus!
