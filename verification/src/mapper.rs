//! Where local paths stand on the remote side, and the inputs gathered so far.
use vstd::prelude::*;
use vstd::utf8::encode_utf8;

use crate::digest::{short_digest, short_digest_of_path, Digest, DigestView};
use crate::dir_builder::{
    components, empty_dir, ensured, path_components, tree_digest, well_formed, with_file,
    with_symlink, with_tree, DirBuilder, DirModel, FileEntry,
};
use crate::disk::{
    digest_file, dir_at, executable, file_digest, is_executable, node_at, Disk, FactView, FsNode,
    NodeView,
};
use crate::error::{fail, fail_by, failure, failure_by, Error, ErrorView};
use crate::local_path::{
    below, file_name, from_utf8_lossy, join_remote, joined_path, lossy_text, parent, parts,
    reapi_text, remote_text, to_reapi_path, LocalPath,
};
use crate::mapper_laws::{asking_grows, grown, input_grows, input_is_spelled_by_its_place};
use crate::messages::FileView;
use crate::text::{after_prefix, plus, same_text, strip_prefix, texts};
use crate::tree_laws::{
    adding_a_tree_keeps_the_set, closed, ensured_directory_changes_no_entry, files_uploaded,
    inserted_file_is_found, inserted_file_stays_uploaded, inserted_symlink_is_found,
    inserted_symlink_stays_uploaded, lemma_files_uploaded_grows, tree_is_uploaded_whole,
};
use crate::uploads::{
    add_blob, blobs, honest, included, lemma_included_twice, lemma_with_blob, ordered, with_blob,
    BlobView, DataView, UploadData, UploadMap,
};

verus! {

/// The remote directory that stands for the working directory.
pub const WORKDIR_NAME: &'static str = "workspace";

/// The directory below it for what lies outside the working directory.
pub const AUX_ROOT: &'static str = ".cargo-rbe";

/// The mapping of local paths to remote ones, with the input tree and the upload set.
#[derive(Debug)]
pub struct PathMapper {
    pub cwd: LocalPath,
    pub target_dir: LocalPath,
    pub build_dir: LocalPath,
    pub sysroot: LocalPath,
    pub output_paths: Vec<LocalPath>,
    pub external_roots: Vec<(LocalPath, String)>,
    pub tree: DirBuilder,
    pub uploads: UploadMap,
}

/// The content of a [`PathMapper`].
#[verifier::ext_equal]
pub struct MapperView {
    pub cwd: Seq<u8>,
    pub target_dir: Seq<u8>,
    pub build_dir: Seq<u8>,
    pub sysroot: Seq<u8>,
    pub output_paths: Seq<Seq<u8>>,
    pub external_roots: Seq<(Seq<u8>, Seq<char>)>,
    pub tree: DirModel,
    pub uploads: Seq<(DigestView, BlobView)>,
}

/// The bytes of a sequence of paths.
pub open spec fn raw_paths(s: Seq<LocalPath>) -> Seq<Seq<u8>> {
    s.map_values(|p: LocalPath| p@)
}

impl View for PathMapper {
    type V = MapperView;

    open spec fn view(&self) -> MapperView {
        MapperView {
            cwd: self.cwd@,
            target_dir: self.target_dir@,
            build_dir: self.build_dir@,
            sysroot: self.sysroot@,
            output_paths: raw_paths(self.output_paths@),
            external_roots: self.external_roots@.map_values(
                |r: (LocalPath, String)| (r.0@, r.1@),
            ),
            tree: self.tree.model(),
            uploads: blobs(self.uploads@),
        }
    }
}

/// The tree is well formed, the upload set is in order, each blob in it stands under its own
/// digest, and the blobs of all files in the tree are in it.
pub open spec fn sound(m: MapperView) -> bool {
    &&& well_formed(m.tree)
    &&& ordered(m.uploads)
    &&& honest(m.uploads)
    &&& files_uploaded(m.tree, m.uploads)
}

/// A place below the auxiliary directory.
pub open spec fn aux(name: Seq<char>) -> Seq<char> {
    WORKDIR_NAME@ + "/"@ + AUX_ROOT@ + "/"@ + name
}

/// The local directories with a remote place of their own, the first that applies first.
pub open spec fn bases(m: MapperView) -> Seq<(Seq<u8>, Seq<char>)> {
    seq![
        (m.cwd, WORKDIR_NAME@),
        (m.target_dir, aux("target-dir"@)),
        (m.build_dir, aux("build-dir"@)),
        (m.sysroot, aux("toolchain"@)),
    ] + m.external_roots
}

/// The remote place of `path` below the first of the directories that it lies in.
pub open spec fn placed(b: Seq<(Seq<u8>, Seq<char>)>, path: Seq<u8>) -> Option<Seq<char>>
    decreases b.len(),
{
    if b.len() == 0 {
        None
    } else {
        match below(path, b[0].0) {
            Some(rel) => Some(remote_text(b[0].1, rel)),
            None => placed(b.skip(1), path),
        }
    }
}

/// The directory that gets a remote place of its own for a path outside all others: the path
/// itself where it is a directory, and the directory that holds it otherwise.
pub open spec fn external_root(path: Seq<u8>, is_dir: bool) -> Seq<u8> {
    if is_dir {
        path
    } else {
        match parent(path) {
            Some(up) => up,
            None => path,
        }
    }
}

/// The remote place of such a directory, named after the directory's path.
pub open spec fn external_slot(root: Seq<u8>) -> Seq<char> {
    aux("external/"@ + short_digest(root))
}

/// The remote path of `path`.
pub open spec fn execroot(m: MapperView, path: Seq<u8>, is_dir: bool) -> Seq<char> {
    match placed(bases(m), path) {
        Some(t) => t,
        None => {
            let root = external_root(path, is_dir);
            match below(path, root) {
                Some(rel) => remote_text(external_slot(root), rel),
                None => external_slot(root),
            }
        },
    }
}

/// The mapping once the remote path of `path` has been asked for.
pub open spec fn asked(m: MapperView, path: Seq<u8>, is_dir: bool) -> MapperView {
    match placed(bases(m), path) {
        Some(_) => m,
        None => {
            let root = external_root(path, is_dir);
            MapperView { external_roots: m.external_roots.push((root, external_slot(root))), ..m }
        },
    }
}

/// A remote path as a command in the working directory spells it.
pub open spec fn command_path(execroot_path: Seq<char>) -> Seq<char> {
    if execroot_path == WORKDIR_NAME@ {
        "."@
    } else {
        match after_prefix(execroot_path, WORKDIR_NAME@ + "/"@) {
            Some(rest) => rest,
            None => execroot_path,
        }
    }
}

/// The local path that a command in the working directory means by `value`.
pub open spec fn resolved(m: MapperView, value: Seq<char>) -> Seq<u8> {
    joined_path(m.cwd, encode_utf8(value))
}

/// The bytes of `.git`.
pub open spec fn git_name() -> Seq<u8> {
    seq![46u8, 103u8, 105u8, 116u8]
}

/// A local path that is not taken as an input: an output, a path in the build directories where
/// those are left out, or the directory of the version control system.
pub open spec fn skipped(m: MapperView, local: Seq<u8>, exclude_build_roots: bool) -> bool {
    ||| exists|i: int|
        0 <= i < m.output_paths.len() && parts(#[trigger] m.output_paths[i]) == parts(local)
    ||| exclude_build_roots && (below(local, m.target_dir) is Some || below(
        local,
        m.build_dir,
    ) is Some)
    ||| file_name(local) == Some(git_name())
}

/// The remote path of an entry of a directory.
pub open spec fn child_remote(base: Seq<char>, child: Seq<u8>) -> Seq<char> {
    if base.len() == 0 {
        reapi_text(parts(child))
    } else {
        base + "/"@ + reapi_text(parts(child))
    }
}

/// One thing found while an input is walked through.
pub enum Item {
    Dir(Seq<char>),
    Symlink(Seq<char>, Seq<char>),
    File(Seq<char>, FileView, DataView),
    Failure(ErrorView),
}

/// `text` between back quotes, after `intro`.
pub open spec fn quoting(intro: Seq<char>, text: Seq<char>) -> Seq<char> {
    intro + "`"@ + text + "`"@
}

/// What is found at a local path, in the order of the walk.
pub open spec fn walk(
    m: MapperView,
    node: NodeView,
    local: Seq<u8>,
    remote: Seq<char>,
    exclude: bool,
) -> Seq<Item>
    decreases node, 1nat,
{
    if skipped(m, local, exclude) {
        seq![]
    } else {
        match node {
            NodeView::Unreadable(cause) => seq![
                Item::Failure(
                    failure_by(quoting("failed to read metadata for "@, lossy_text(local)), cause),
                ),
            ],
            NodeView::UnreadableLink(cause) => seq![
                Item::Failure(
                    failure_by(quoting("failed to read symlink "@, lossy_text(local)), cause),
                ),
            ],
            NodeView::Symlink(target) => seq![Item::Symlink(remote, reapi_text(parts(target)))],
            NodeView::Directory(entries, ended) => seq![Item::Dir(remote)] + walk_entries(
                m,
                entries,
                local,
                remote,
                exclude,
            ) + (match ended {
                Some(cause) => seq![Item::Failure(failure(cause))],
                None => seq![],
            }),
            NodeView::File(content, mode) => match file_digest(content, local) {
                Ok((digest, data)) => seq![
                    Item::File(remote, FileView { digest, is_executable: executable(mode) }, data),
                ],
                Err(cause) => seq![Item::Failure(failure(cause))],
            },
        }
    }
}

/// What is found in the entries of a directory.
pub open spec fn walk_entries(
    m: MapperView,
    entries: Seq<(Seq<u8>, NodeView)>,
    local: Seq<u8>,
    remote: Seq<char>,
    exclude: bool,
) -> Seq<Item>
    decreases entries, 0nat,
{
    if entries.len() == 0 {
        seq![]
    } else {
        walk_entries(m, entries.drop_last(), local, remote, exclude) + walk(
            m,
            entries.last().1,
            joined_path(local, entries.last().0),
            child_remote(remote, entries.last().0),
            exclude,
        )
    }
}

/// A step that failed: the mapping as the step left it, and the failure.
pub struct Fault {
    pub at: MapperView,
    pub error: ErrorView,
}

/// The mapping with one more thing taken in. A file whose remote path has no file name leaves its
/// blob behind.
pub open spec fn taken(m: MapperView, item: Item) -> Result<MapperView, Fault> {
    match item {
        Item::Dir(remote) => Ok(
            MapperView { tree: ensured(m.tree, components(remote)), ..m },
        ),
        Item::Symlink(remote, target) => if components(remote).len() == 0 {
            Err(Fault { at: m, error: failure("remote symlink path must contain a file name"@) })
        } else {
            Ok(MapperView { tree: with_symlink(m.tree, components(remote), target), ..m })
        },
        Item::File(remote, file, data) => if components(remote).len() == 0 {
            Err(
                Fault {
                    at: MapperView { uploads: with_blob(m.uploads, file.digest, data), ..m },
                    error: failure("remote file path must contain a file name"@),
                },
            )
        } else {
            Ok(
                MapperView {
                    tree: with_file(m.tree, components(remote), file),
                    uploads: with_blob(m.uploads, file.digest, data),
                    ..m
                },
            )
        },
        Item::Failure(error) => Err(Fault { at: m, error }),
    }
}

/// The mapping with all of `items` taken in, or the first failure among them, with what stands
/// before it taken in.
pub open spec fn all_taken(m: MapperView, items: Seq<Item>) -> Result<MapperView, Fault>
    decreases items.len(),
{
    if items.len() == 0 {
        Ok(m)
    } else {
        match all_taken(m, items.drop_last()) {
            Ok(n) => taken(n, items.last()),
            Err(e) => Err(e),
        }
    }
}

/// The mapping with the input at a local path taken in at a remote path.
pub open spec fn with_input(
    m: MapperView,
    node: NodeView,
    local: Seq<u8>,
    remote: Seq<char>,
    exclude: bool,
) -> Result<MapperView, Fault> {
    all_taken(m, walk(m, node, local, remote, exclude))
}

/// The mapping with what stands at a local path taken in at the remote path of that path.
pub open spec fn with_tree_at(
    m: MapperView,
    d: Seq<FactView>,
    path: Seq<u8>,
    node: NodeView,
    exclude: bool,
) -> Result<MapperView, Fault> {
    let is_dir = dir_at(d, path);
    with_input(asked(m, path, is_dir), node, path, execroot(m, path, is_dir), exclude)
}

/// The mapping with the input at a local path taken in.
pub open spec fn with_path(m: MapperView, d: Seq<FactView>, path: Seq<u8>) -> Result<
    MapperView,
    Fault,
> {
    with_tree_at(m, d, path, node_at(d, path), false)
}

/// The mapping once a command was told of a local path, and how the command spells the path.
pub open spec fn spelled(m: MapperView, d: Seq<FactView>, path: Seq<u8>) -> (
    MapperView,
    Seq<char>,
) {
    let is_dir = dir_at(d, path);
    (asked(m, path, is_dir), command_path(execroot(m, path, is_dir)))
}

/// The mapping with the input at a local path taken in, and how a command spells the path.
pub open spec fn spelled_input(m: MapperView, d: Seq<FactView>, path: Seq<u8>) -> Result<
    (MapperView, Seq<char>),
    Fault,
> {
    match with_path(m, d, path) {
        Ok(n) => Ok(spelled(n, d, path)),
        Err(e) => Err(e),
    }
}

/// The mapping after a step, whether the step failed or not.
pub open spec fn left(outcome: Result<MapperView, Fault>) -> MapperView {
    match outcome {
        Ok(m) => m,
        Err(f) => f.at,
    }
}

/// The outcome of a step that yields a new mapping.
pub open spec fn reaches(
    r: Result<(), Error>,
    after: MapperView,
    expected: Result<MapperView, Fault>,
) -> bool {
    match (r, expected) {
        (Ok(_), Ok(m)) => after == m,
        (Err(e), Err(f)) => after == f.at && e@ == f.error,
        _ => false,
    }
}

/// The outcome of a step that yields a new mapping and a text.
pub open spec fn yields(
    r: Result<String, Error>,
    after: MapperView,
    expected: Result<(MapperView, Seq<char>), Fault>,
) -> bool {
    match (r, expected) {
        (Ok(s), Ok((m, t))) => after == m && s@ == t,
        (Err(e), Err(f)) => after == f.at && e@ == f.error,
        _ => false,
    }
}

/// Taking in items in two runs is taking in all of them.
pub proof fn lemma_all_taken_concat(m: MapperView, a: Seq<Item>, b: Seq<Item>)
    ensures
        all_taken(m, a + b) == (match all_taken(m, a) {
            Ok(n) => all_taken(n, b),
            Err(e) => Err(e),
        }),
    decreases b.len(),
{
    if b.len() == 0 {
        assert(a + b =~= a);
    } else {
        lemma_all_taken_concat(m, a, b.drop_last());
        assert((a + b).drop_last() =~= a + b.drop_last());
        assert((a + b).last() == b.last());
    }
}

/// Taking in a single item.
pub proof fn lemma_all_taken_one(m: MapperView, item: Item)
    ensures
        all_taken(m, seq![item]) == taken(m, item),
{
    assert(seq![item].drop_last() =~= seq![]);
    assert(all_taken(m, seq![]) == Ok::<MapperView, Fault>(m));
}

/// An item that is no failure of its own, or whose data is honest.
pub open spec fn honest_item(item: Item) -> bool {
    item matches Item::File(_, file, data) ==> (data matches DataView::Bytes(bytes)
        ==> file.digest == crate::digest::digest_of(bytes))
}

/// All of the items are honest.
pub open spec fn all_honest(items: Seq<Item>) -> bool {
    forall|i: int| 0 <= i < items.len() ==> honest_item(#[trigger] items[i])
}

proof fn lemma_all_honest_concat(a: Seq<Item>, b: Seq<Item>)
    requires
        all_honest(a),
        all_honest(b),
    ensures
        all_honest(a + b),
{
    assert forall|i: int| 0 <= i < (a + b).len() implies honest_item(#[trigger] (a + b)[i]) by {
        if i < a.len() {
            assert((a + b)[i] == a[i]);
        } else {
            assert((a + b)[i] == b[i - a.len()]);
        }
    }
}

/// What a walk finds is honest.
pub proof fn lemma_walk_is_honest(
    m: MapperView,
    node: NodeView,
    local: Seq<u8>,
    remote: Seq<char>,
    exclude: bool,
)
    ensures
        all_honest(walk(m, node, local, remote, exclude)),
    decreases node, 1nat,
{
    match node {
        NodeView::Directory(entries, ended) => {
            lemma_walk_entries_is_honest(m, entries, local, remote, exclude);
            let first = seq![Item::Dir(remote)];
            let middle = walk_entries(m, entries, local, remote, exclude);
            let end: Seq<Item> = match ended {
                Some(cause) => seq![Item::Failure(failure(cause))],
                None => seq![],
            };
            lemma_all_honest_concat(first, middle);
            lemma_all_honest_concat(first + middle, end);
        },
        _ => {},
    }
}

/// What a walk through entries finds is honest.
pub proof fn lemma_walk_entries_is_honest(
    m: MapperView,
    entries: Seq<(Seq<u8>, NodeView)>,
    local: Seq<u8>,
    remote: Seq<char>,
    exclude: bool,
)
    ensures
        all_honest(walk_entries(m, entries, local, remote, exclude)),
    decreases entries, 0nat,
{
    if entries.len() > 0 {
        lemma_walk_entries_is_honest(m, entries.drop_last(), local, remote, exclude);
        let last = entries.last();
        let at = joined_path(local, last.0);
        lemma_walk_is_honest(m, last.1, at, child_remote(remote, last.0), exclude);
        lemma_all_honest_concat(
            walk_entries(m, entries.drop_last(), local, remote, exclude),
            walk(m, last.1, at, child_remote(remote, last.0), exclude),
        );
    }
}

/// Taking in an honest item, or failing to, keeps the mapping sound and every blob that was there,
/// and changes only the tree and the uploads.
pub proof fn lemma_taken_is_sound(m: MapperView, item: Item)
    requires
        sound(m),
        honest_item(item),
    ensures
        sound(left(taken(m, item))),
        left(taken(m, item)) == (MapperView {
            tree: left(taken(m, item)).tree,
            uploads: left(taken(m, item)).uploads,
            ..m
        }),
        crate::tree_laws::no_less(m.uploads, left(taken(m, item)).uploads),
        included(m.uploads, left(taken(m, item)).uploads),
{
    match item {
        Item::Dir(remote) => {
            ensured_directory_changes_no_entry(m.tree, components(remote), seq![]);
            inserted_symlink_stays_uploaded(m.tree, components(remote), seq![], m.uploads);
        },
        Item::Symlink(remote, target) => {
            if components(remote).len() > 0 {
                inserted_symlink_is_found(m.tree, components(remote), target, seq![]);
                inserted_symlink_stays_uploaded(m.tree, components(remote), target, m.uploads);
            }
        },
        Item::File(remote, file, data) => {
            let u = with_blob(m.uploads, file.digest, data);
            lemma_with_blob(m.uploads, file.digest, data);
            lemma_files_uploaded_grows(m.tree, m.uploads, u);
            if components(remote).len() > 0 {
                inserted_file_is_found(m.tree, components(remote), file, seq![]);
                inserted_file_stays_uploaded(m.tree, components(remote), file, u);
            }
        },
        Item::Failure(e) => {},
    }
}

/// Taking in honest items, or failing to, keeps the mapping sound and every blob that was there,
/// and changes only the tree and the uploads.
pub proof fn lemma_all_taken_is_sound(m: MapperView, items: Seq<Item>)
    requires
        sound(m),
        all_honest(items),
    ensures
        sound(left(all_taken(m, items))),
        left(all_taken(m, items)) == (MapperView {
            tree: left(all_taken(m, items)).tree,
            uploads: left(all_taken(m, items)).uploads,
            ..m
        }),
        crate::tree_laws::no_less(m.uploads, left(all_taken(m, items)).uploads),
        included(m.uploads, left(all_taken(m, items)).uploads),
    decreases items.len(),
{
    if items.len() > 0 {
        lemma_all_taken_is_sound(m, items.drop_last());
        if let Ok(n) = all_taken(m, items.drop_last()) {
            assert(honest_item(items[items.len() - 1]));
            lemma_taken_is_sound(n, items.last());
            lemma_included_twice(m.uploads, n.uploads, left(taken(n, items.last())).uploads);
        }
    }
}

/// A walk depends only on what is skipped.
proof fn lemma_walk_frame(
    m: MapperView,
    n: MapperView,
    node: NodeView,
    local: Seq<u8>,
    remote: Seq<char>,
    exclude: bool,
)
    requires
        m.output_paths == n.output_paths,
        m.target_dir == n.target_dir,
        m.build_dir == n.build_dir,
    ensures
        walk(m, node, local, remote, exclude) == walk(n, node, local, remote, exclude),
    decreases node, 1nat,
{
    match node {
        NodeView::Directory(entries, ended) => {
            lemma_walk_entries_frame(m, n, entries, local, remote, exclude);
        },
        _ => {},
    }
}

proof fn lemma_walk_entries_frame(
    m: MapperView,
    n: MapperView,
    entries: Seq<(Seq<u8>, NodeView)>,
    local: Seq<u8>,
    remote: Seq<char>,
    exclude: bool,
)
    requires
        m.output_paths == n.output_paths,
        m.target_dir == n.target_dir,
        m.build_dir == n.build_dir,
    ensures
        walk_entries(m, entries, local, remote, exclude) == walk_entries(
            n,
            entries,
            local,
            remote,
            exclude,
        ),
    decreases entries, 0nat,
{
    if entries.len() > 0 {
        lemma_walk_entries_frame(m, n, entries.drop_last(), local, remote, exclude);
        lemma_walk_frame(
            m,
            n,
            entries.last().1,
            joined_path(local, entries.last().0),
            child_remote(remote, entries.last().0),
            exclude,
        );
    }
}

/// A failure among the first entries of a directory is a failure of the whole walk.
proof fn lemma_walk_entries_prefix(
    m: MapperView,
    entries: Seq<(Seq<u8>, NodeView)>,
    n: int,
    local: Seq<u8>,
    remote: Seq<char>,
    exclude: bool,
    first: Seq<Item>,
    node: NodeView,
)
    requires
        0 <= n <= entries.len(),
        first == seq![Item::Dir(remote)],
        node matches NodeView::Directory(v, _) && v == entries,
        !skipped(m, local, exclude),
        all_taken(m, first + walk_entries(m, entries.take(n), local, remote, exclude)) is Err,
    ensures
        all_taken(m, walk(m, node, local, remote, exclude)) == all_taken(
            m,
            first + walk_entries(m, entries.take(n), local, remote, exclude),
        ),
    decreases entries.len() - n,
{
    let seen = first + walk_entries(m, entries.take(n), local, remote, exclude);
    if n == entries.len() {
        assert(entries.take(n) =~= entries);
        let ended = match node {
            NodeView::Directory(_, e) => e,
            _ => arbitrary(),
        };
        let end: Seq<Item> = match ended {
            Some(cause) => seq![Item::Failure(failure(cause))],
            None => seq![],
        };
        lemma_all_taken_concat(m, seen, end);
    } else {
        let next = entries.take(n + 1);
        let last = entries[n];
        assert(next.drop_last() =~= entries.take(n));
        assert(next.last() == last);
        let found = walk(
            m,
            last.1,
            joined_path(local, last.0),
            child_remote(remote, last.0),
            exclude,
        );
        assert(first + walk_entries(m, next, local, remote, exclude) =~= seen + found);
        lemma_all_taken_concat(m, seen, found);
        lemma_walk_entries_prefix(m, entries, n + 1, local, remote, exclude, first, node);
    }
}

/// The file name of the directory of the version control system.
fn is_git_name(name: &Vec<u8>) -> (r: bool)
    ensures
        r == (name@ == git_name()),
{
    if name.len() == 4 && name[0] == 46 && name[1] == 103 && name[2] == 105 && name[3] == 116 {
        assert(name@ =~= git_name());
        true
    } else {
        false
    }
}

/// `text` between back quotes, after `intro`.
pub fn quote(intro: &str, text: &str) -> (r: String)
    ensures
        r@ == quoting(intro@, text@),
{
    plus(intro, "`").concat(text).concat("`")
}

/// A place below the auxiliary directory.
fn aux_place(name: &str) -> (r: String)
    ensures
        r@ == aux(name@),
{
    plus(WORKDIR_NAME, "/").concat(AUX_ROOT).concat("/").concat(name)
}

/// A remote path as a command in the working directory spells it.
pub fn to_command_path(execroot_path: &str) -> (r: String)
    ensures
        r@ == command_path(execroot_path@),
{
    if same_text(execroot_path, WORKDIR_NAME) {
        ".".to_owned()
    } else {
        let prefix = plus(WORKDIR_NAME, "/");
        match strip_prefix(execroot_path, prefix.as_str()) {
            Some(rest) => rest,
            None => execroot_path.to_owned(),
        }
    }
}

/// The remote path of an entry of a directory.
pub fn join_execroot_path(base: &str, child: &Vec<u8>) -> (r: String)
    ensures
        r@ == child_remote(base@, child@),
{
    let path = LocalPath { raw: crate::local_path::copy_bytes(child.as_slice()) };
    let tail = to_reapi_path(&path);
    if base.is_empty() {
        tail
    } else {
        plus(base, "/").concat(tail.as_str())
    }
}

/// The mapping of a fresh mapper.
pub open spec fn fresh(
    cwd: Seq<u8>,
    target_dir: Seq<u8>,
    build_dir: Seq<u8>,
    sysroot: Seq<u8>,
    output_paths: Seq<Seq<u8>>,
) -> MapperView {
    MapperView {
        cwd,
        target_dir,
        build_dir,
        sysroot,
        output_paths,
        external_roots: seq![],
        tree: ensured(empty_dir(), seq![WORKDIR_NAME@]),
        uploads: seq![],
    }
}

/// A fresh mapping is sound.
pub proof fn lemma_fresh_is_sound(
    cwd: Seq<u8>,
    target_dir: Seq<u8>,
    build_dir: Seq<u8>,
    sysroot: Seq<u8>,
    output_paths: Seq<Seq<u8>>,
)
    ensures
        sound(fresh(cwd, target_dir, build_dir, sysroot, output_paths)),
        crate::mapper_laws::slots_are_own(fresh(cwd, target_dir, build_dir, sysroot, output_paths)),
{
    ensured_directory_changes_no_entry(empty_dir(), seq![WORKDIR_NAME@], seq![]);
    inserted_symlink_stays_uploaded(empty_dir(), seq![WORKDIR_NAME@], seq![], seq![]);
}

impl PathMapper {
    /// A mapper with nothing but the working directory in its tree.
    pub fn new(
        cwd: LocalPath,
        target_dir: LocalPath,
        build_dir: LocalPath,
        sysroot: LocalPath,
        output_paths: Vec<LocalPath>,
    ) -> (r: PathMapper)
        ensures
            r@ == fresh(cwd@, target_dir@, build_dir@, sysroot@, raw_paths(output_paths@)),
            sound(r@),
    {
        let mut tree = DirBuilder::new();
        let mut path: Vec<String> = Vec::new();
        path.push(WORKDIR_NAME.to_owned());
        assert(texts(path@) =~= seq![WORKDIR_NAME@]);
        tree.ensure_dir(&path);
        let uploads: UploadMap = Vec::new();
        let external_roots: Vec<(LocalPath, String)> = Vec::new();
        let r = PathMapper {
            cwd,
            target_dir,
            build_dir,
            sysroot,
            output_paths,
            external_roots,
            tree,
            uploads,
        };
        proof {
            assert(blobs(uploads@) =~= seq![]);
            assert(r@ =~= fresh(cwd@, target_dir@, build_dir@, sysroot@, raw_paths(output_paths@)));
            lemma_fresh_is_sound(
                cwd@,
                target_dir@,
                build_dir@,
                sysroot@,
                raw_paths(output_paths@),
            );
        }
        r
    }

    /// The local path that a command in the working directory means by `value`.
    pub fn resolve(&self, value: &str) -> (r: LocalPath)
        ensures
            r@ == resolved(self@, value@),
    {
        let path = LocalPath::from_text(value);
        if path.is_absolute() {
            path
        } else {
            self.cwd.join(&path)
        }
    }

    /// Whether a local path is not taken as an input.
    pub fn skips(&self, local: &LocalPath, exclude_build_roots: bool) -> (r: bool)
        ensures
            r == skipped(self@, local@, exclude_build_roots),
    {
        let mut i: usize = 0;
        while i < self.output_paths.len()
            invariant
                i <= self.output_paths@.len(),
                forall|j: int|
                    0 <= j < i ==> parts(#[trigger] self@.output_paths[j]) != parts(local@),
            decreases self.output_paths@.len() - i,
        {
            assert(self@.output_paths[i as int] == self.output_paths@[i as int]@);
            if self.output_paths[i].same_path(local) {
                return true;
            }
            i += 1;
        }
        if exclude_build_roots && (local.starts_with(&self.target_dir) || local.starts_with(
            &self.build_dir,
        )) {
            return true;
        }
        match local.file_name() {
            Some(name) => is_git_name(&name),
            None => false,
        }
    }

    /// The remote path of a local path; a path outside all known directories adds one.
    pub fn execroot_path(&mut self, path: &LocalPath, disk: &Disk) -> (r: String)
        ensures
            r@ == execroot(old(self)@, path@, dir_at(disk@, path@)),
            final(self)@ == asked(old(self)@, path@, dir_at(disk@, path@)),
    {
        let ghost m = self@;
        let ghost b = bases(m);
        proof {
            assert(b.skip(1).skip(1) =~= b.skip(2));
            assert(b.skip(2).skip(1) =~= b.skip(3));
            assert(b.skip(3).skip(1) =~= b.skip(4));
            assert(b.skip(4) =~= m.external_roots);
            assert(b[0] == (m.cwd, WORKDIR_NAME@));
            assert(b.skip(1)[0] == (m.target_dir, aux("target-dir"@)));
            assert(b.skip(2)[0] == (m.build_dir, aux("build-dir"@)));
            assert(b.skip(3)[0] == (m.sysroot, aux("toolchain"@)));
        }
        if let Some(rel) = path.strip_prefix(&self.cwd) {
            return join_remote(WORKDIR_NAME, &rel);
        }
        assert(placed(b, path@) == placed(b.skip(1), path@));
        if let Some(rel) = path.strip_prefix(&self.target_dir) {
            let slot = aux_place("target-dir");
            return join_remote(slot.as_str(), &rel);
        }
        assert(placed(b, path@) == placed(b.skip(2), path@));
        if let Some(rel) = path.strip_prefix(&self.build_dir) {
            let slot = aux_place("build-dir");
            return join_remote(slot.as_str(), &rel);
        }
        assert(placed(b, path@) == placed(b.skip(3), path@));
        if let Some(rel) = path.strip_prefix(&self.sysroot) {
            let slot = aux_place("toolchain");
            return join_remote(slot.as_str(), &rel);
        }
        assert(placed(b, path@) == placed(m.external_roots, path@));
        let mut i: usize = 0;
        assert(m.external_roots.skip(0) =~= m.external_roots);
        while i < self.external_roots.len()
            invariant
                i <= self.external_roots@.len(),
                m == self@,
                b == bases(m),
                placed(b, path@) == placed(m.external_roots.skip(i as int), path@),
            decreases self.external_roots@.len() - i,
        {
            proof {
                let at = self.external_roots@[i as int];
                assert(m.external_roots.skip(i as int)[0] == (at.0@, at.1@));
                assert(m.external_roots.skip(i as int).skip(1) =~= m.external_roots.skip(i + 1));
            }
            if let Some(rel) = path.strip_prefix(&self.external_roots[i].0) {
                return join_remote(self.external_roots[i].1.as_str(), &rel);
            }
            i += 1;
        }
        let root = if disk.is_dir(path) {
            path.clone()
        } else {
            match path.parent() {
                Some(up) => up,
                None => path.clone(),
            }
        };
        let name = plus("external/", short_digest_of_path(root.raw.as_slice()).as_str());
        let slot = aux_place(name.as_str());
        self.external_roots.push((root.clone(), slot.clone()));
        proof {
            assert(self@.external_roots =~= m.external_roots.push((root@, slot@)));
            assert(self@ =~= asked(m, path@, dir_at(disk@, path@)));
        }
        if let Some(rel) = path.strip_prefix(&root) {
            return join_remote(slot.as_str(), &rel);
        }
        slot
    }

    /// Adds a blob to the upload set, unless one with its digest is there.
    pub fn add_blob(&mut self, digest: Digest, data: UploadData)
        requires
            ordered(old(self)@.uploads),
        ensures
            final(self)@ == (MapperView {
                uploads: with_blob(old(self)@.uploads, digest@, data@),
                ..old(self)@
            }),
    {
        add_blob(&mut self.uploads, digest, data);
        assert(self@ =~= (MapperView {
            uploads: with_blob(old(self)@.uploads, digest@, data@),
            ..old(self)@
        }));
    }

    /// Takes in the input at a local path, at a remote path: a directory with all that is in it,
    /// a symbolic link as such, a file with its blob.
    pub fn add_local_path(
        &mut self,
        node: &FsNode,
        local: &LocalPath,
        remote_execroot: &str,
        exclude_build_roots: bool,
    ) -> (r: Result<(), Error>)
        requires
            sound(old(self)@),
        ensures
            reaches(
                r,
                final(self)@,
                with_input(
                    old(self)@,
                    node.model(),
                    local@,
                    remote_execroot@,
                    exclude_build_roots,
                ),
            ),
            sound(final(self)@),
            included(old(self)@.uploads, final(self)@.uploads),
            grown(old(self)@, final(self)@),
            final(self)@ == (MapperView {
                tree: final(self)@.tree,
                uploads: final(self)@.uploads,
                ..old(self)@
            }),
        decreases node,
    {
        let ghost m = self@;
        let ghost items = walk(m, node.model(), local@, remote_execroot@, exclude_build_roots);
        proof {
            lemma_walk_is_honest(m, node.model(), local@, remote_execroot@, exclude_build_roots);
            lemma_all_taken_is_sound(m, items);
            assert(m.external_roots.take(m.external_roots.len() as int) =~= m.external_roots);
        }
        if self.skips(local, exclude_build_roots) {
            return Ok(());
        }
        match node {
            FsNode::Unreadable(cause) => {
                let text = from_utf8_lossy(local.raw.as_slice());
                let message = quote("failed to read metadata for ", text.as_str());
                proof {
                    lemma_all_taken_one(m, items[0]);
                    assert(items =~= seq![items[0]]);
                }
                Err(fail_by(message.as_str(), cause.as_str()))
            },
            FsNode::UnreadableLink(cause) => {
                let text = from_utf8_lossy(local.raw.as_slice());
                let message = quote("failed to read symlink ", text.as_str());
                proof {
                    lemma_all_taken_one(m, items[0]);
                    assert(items =~= seq![items[0]]);
                }
                Err(fail_by(message.as_str(), cause.as_str()))
            },
            FsNode::Symlink(target) => {
                let text = to_reapi_path(target);
                proof {
                    lemma_all_taken_one(m, items[0]);
                    assert(items =~= seq![items[0]]);
                    lemma_taken_is_sound(m, items[0]);
                }
                let done = self.tree.insert_symlink(remote_execroot, text);
                assert(self@ =~= (MapperView { tree: self@.tree, ..m }));
                done
            },
            FsNode::Directory(entries, ended) => {
                let path = path_components(remote_execroot);
                let ghost first = seq![Item::Dir(remote_execroot@)];
                let ghost views = match node.model() {
                    NodeView::Directory(v, _) => v,
                    _ => arbitrary(),
                };
                self.tree.ensure_dir(&path);
                proof {
                    lemma_all_taken_one(m, first[0]);
                    lemma_taken_is_sound(m, first[0]);
                    assert(self@ =~= (MapperView {
                        tree: ensured(m.tree, components(remote_execroot@)),
                        ..m
                    }));
                    assert(views.take(0) =~= seq![]);
                    assert(first + walk_entries(
                        m,
                        views.take(0),
                        local@,
                        remote_execroot@,
                        exclude_build_roots,
                    ) =~= first);
                }
                let mut i: usize = 0;
                while i < entries.len()
                    invariant
                        i <= entries@.len(),
                        m == old(self)@,
                        node == FsNode::Directory(*entries, *ended),
                        views == (match node.model() {
                            NodeView::Directory(v, _) => v,
                            _ => arbitrary(),
                        }),
                        !skipped(m, local@, exclude_build_roots),
                        sound(m),
                        sound(self@),
                        self@ == (MapperView { tree: self@.tree, uploads: self@.uploads, ..m }),
                        first == seq![Item::Dir(remote_execroot@)],
                        items == walk(
                            m,
                            node.model(),
                            local@,
                            remote_execroot@,
                            exclude_build_roots,
                        ),
                        all_taken(
                            m,
                            first + walk_entries(
                                m,
                                views.take(i as int),
                                local@,
                                remote_execroot@,
                                exclude_build_roots,
                            ),
                        ) == Ok::<MapperView, Fault>(self@),
                    decreases entries@.len() - i,
                {
                    let name = LocalPath {
                        raw: crate::local_path::copy_bytes(entries[i].0.as_slice()),
                    };
                    let child = local.join(&name);
                    let child_remote_path = join_execroot_path(remote_execroot, &entries[i].0);
                    let ghost before = self@;
                    let ghost seen = first + walk_entries(
                        m,
                        views.take(i as int),
                        local@,
                        remote_execroot@,
                        exclude_build_roots,
                    );
                    let ghost found = walk(
                        m,
                        entries@[i as int].1.model(),
                        child@,
                        child_remote_path@,
                        exclude_build_roots,
                    );
                    proof {
                        lemma_walk_frame(
                            m,
                            before,
                            entries@[i as int].1.model(),
                            child@,
                            child_remote_path@,
                            exclude_build_roots,
                        );
                        let next = views.take(i + 1);
                        assert(next.drop_last() =~= views.take(i as int));
                        assert(next.last() == views[i as int]);
                        assert(first + walk_entries(
                            m,
                            next,
                            local@,
                            remote_execroot@,
                            exclude_build_roots,
                        ) =~= seen + found);
                        lemma_all_taken_concat(m, seen, found);
                    }
                    let done = self.add_local_path(
                        &entries[i].1,
                        &child,
                        child_remote_path.as_str(),
                        exclude_build_roots,
                    );
                    if let Err(e) = done {
                        proof {
                            lemma_walk_entries_prefix(
                                m,
                                views,
                                i + 1,
                                local@,
                                remote_execroot@,
                                exclude_build_roots,
                                first,
                                node.model(),
                            );
                            lemma_walk_is_honest(
                                m,
                                node.model(),
                                local@,
                                remote_execroot@,
                                exclude_build_roots,
                            );
                            lemma_all_taken_is_sound(m, items);
                            let known = m.external_roots;
                            assert(known.take(known.len() as int) =~= known);
                        }
                        return Err(e);
                    }
                    i += 1;
                }
                proof {
                    assert(views.take(views.len() as int) =~= views);
                    lemma_all_taken_concat(
                        m,
                        first + walk_entries(
                            m,
                            views,
                            local@,
                            remote_execroot@,
                            exclude_build_roots,
                        ),
                        match ended {
                            Some(cause) => seq![Item::Failure(failure(cause@))],
                            None => seq![],
                        },
                    );
                }
                match ended {
                    Some(cause) => {
                        proof {
                            lemma_all_taken_one(self@, Item::Failure(failure(cause@)));
                        }
                        Err(fail(cause.as_str()))
                    },
                    None => Ok(()),
                }
            },
            FsNode::File(content, mode) => {
                proof {
                    lemma_all_taken_one(m, items[0]);
                    assert(items =~= seq![items[0]]);
                }
                match digest_file(content, local) {
                    Ok((digest, data)) => {
                        let entry = FileEntry {
                            digest: digest.clone(),
                            is_executable: is_executable(*mode),
                        };
                        proof {
                            lemma_taken_is_sound(m, items[0]);
                            lemma_with_blob(m.uploads, digest@, data@);
                            lemma_files_uploaded_grows(
                                m.tree,
                                m.uploads,
                                with_blob(m.uploads, digest@, data@),
                            );
                        }
                        self.add_blob(digest, data);
                        let ghost between = self@;
                        let done = self.tree.insert_file(remote_execroot, entry);
                        assert(self@ =~= (MapperView { tree: self@.tree, ..between }));
                        done
                    },
                    Err(cause) => Err(fail(cause.as_str())),
                }
            },
        }
    }

    /// Takes in the package below `root`, with the build directories left out. The package is
    /// handed over by itself: what the file system holds at `root` need not leave them out.
    pub fn add_package_tree(&mut self, root: &LocalPath, node: &FsNode, disk: &Disk) -> (r: Result<
        (),
        Error,
    >)
        requires
            sound(old(self)@),
        ensures
            reaches(
                r,
                final(self)@,
                with_tree_at(old(self)@, disk@, root@, node.model(), true),
            ),
            sound(final(self)@),
            grown(old(self)@, final(self)@),
    {
        proof {
            input_grows(self@, disk@, root@, node.model(), true);
        }
        let remote = self.execroot_path(root, disk);
        self.add_local_path(node, root, remote.as_str(), true)
    }

    /// Takes in the input at a local path.
    pub fn add_input_path(&mut self, path: &LocalPath, disk: &Disk) -> (r: Result<(), Error>)
        requires
            sound(old(self)@),
        ensures
            reaches(r, final(self)@, with_path(old(self)@, disk@, path@)),
            sound(final(self)@),
            grown(old(self)@, final(self)@),
    {
        proof {
            input_grows(self@, disk@, path@, node_at(disk@, path@), false);
        }
        let remote = self.execroot_path(path, disk);
        match disk.find(path) {
            Some(fact) => self.add_local_path(&fact.node, path, remote.as_str(), false),
            None => {
                let node = FsNode::Unreadable("".to_owned());
                proof {
                    reveal_strlit("");
                    assert(""@ =~= seq![]);
                }
                self.add_local_path(&node, path, remote.as_str(), false)
            },
        }
    }

    /// Takes in the input at a local path, and says how a command spells the path.
    pub fn map_input_command_path(&mut self, path: &LocalPath, disk: &Disk) -> (r: Result<
        String,
        Error,
    >)
        requires
            sound(old(self)@),
        ensures
            yields(r, final(self)@, spelled_input(old(self)@, disk@, path@)),
            sound(final(self)@),
            grown(old(self)@, final(self)@),
    {
        proof {
            input_is_spelled_by_its_place(self@, disk@, path@);
        }
        if let Err(e) = self.add_input_path(path, disk) {
            return Err(e);
        }
        Ok(self.map_existing_command_path(path, disk))
    }

    /// How a command spells the path of an output.
    pub fn map_output_command_path(&mut self, path: &LocalPath, disk: &Disk) -> (r: String)
        ensures
            (final(self)@, r@) == spelled(old(self)@, disk@, path@),
            sound(old(self)@) ==> sound(final(self)@),
            grown(old(self)@, final(self)@),
    {
        proof {
            asking_grows(self@, path@, dir_at(disk@, path@));
        }
        let execroot = self.execroot_path(path, disk);
        to_command_path(execroot.as_str())
    }

    /// How a command spells the path of something that is no input of its own.
    pub fn map_existing_command_path(&mut self, path: &LocalPath, disk: &Disk) -> (r: String)
        ensures
            (final(self)@, r@) == spelled(old(self)@, disk@, path@),
            sound(old(self)@) ==> sound(final(self)@),
            grown(old(self)@, final(self)@),
    {
        proof {
            asking_grows(self@, path@, dir_at(disk@, path@));
        }
        let execroot = self.execroot_path(path, disk);
        to_command_path(execroot.as_str())
    }

    /// The digest of the input tree; the message of every directory in it joins the upload set.
    pub fn root_digest(&mut self) -> (r: Digest)
        requires
            sound(old(self)@),
        ensures
            r@ == tree_digest(old(self)@.tree),
            final(self)@ == (MapperView {
                uploads: with_tree(old(self)@.tree, old(self)@.uploads),
                ..old(self)@
            }),
            sound(final(self)@),
            closed(final(self)@.tree, final(self)@.uploads),
    {
        let ghost m = self@;
        let digest = self.tree.finalize(&mut self.uploads);
        proof {
            assert(self@ =~= (MapperView { uploads: with_tree(m.tree, m.uploads), ..m }));
            adding_a_tree_keeps_the_set(m.tree, m.uploads);
            tree_is_uploaded_whole(m.tree, m.uploads);
            lemma_files_uploaded_grows(m.tree, m.uploads, self@.uploads);
        }
        digest
    }
}

} // verus!
