//! The directory tree of the inputs of a remote execution.
use vstd::prelude::*;

use crate::digest::{digest_bytes, digest_of, Digest, DigestView};
use crate::error::{fail, failure, Error};
use crate::messages::{
    directory_wire, Directory, DirectoryNode, DirectoryView, FileNode, FileView, SymlinkNode,
};
use crate::sorted::{
    entries, find, lemma_found_at, lemma_mapped, lemma_rank, lemma_with, lemma_with_twice, lookup,
    mapped, put, rank, sorted, with,
};
use crate::text::{non_empty, pieces, split_on, texts};
use crate::uploads::{
    add_blob, blobs, ordered, with_blob, BlobView, DataView, UploadData, UploadMap,
};

verus! {

/// A file in the tree.
#[derive(Debug)]
pub struct FileEntry {
    pub digest: Digest,
    pub is_executable: bool,
}

impl View for FileEntry {
    type V = FileView;

    open spec fn view(&self) -> FileView {
        FileView { digest: self.digest@, is_executable: self.is_executable }
    }
}

/// A directory that is being filled: its files, subdirectories and symbolic links by name.
#[derive(Debug)]
pub struct DirBuilder {
    pub files: Vec<(String, FileEntry)>,
    pub dirs: Vec<(String, DirBuilder)>,
    pub symlinks: Vec<(String, String)>,
}

/// The content of a [`DirBuilder`].
#[verifier::ext_equal]
pub struct DirModel {
    pub files: Seq<(Seq<char>, FileView)>,
    pub dirs: Seq<(Seq<char>, DirModel)>,
    pub symlinks: Seq<(Seq<char>, Seq<char>)>,
}

/// The components of a remote path: what stands between slashes and is not empty.
pub open spec fn components(path: Seq<char>) -> Seq<Seq<char>> {
    non_empty(pieces(path, '/'))
}

/// A directory with nothing in it.
pub open spec fn empty_dir() -> DirModel {
    DirModel { files: seq![], dirs: seq![], symlinks: seq![] }
}

/// The names in a directory, and in all directories below it, are in order and occur once.
pub open spec fn well_formed(t: DirModel) -> bool
    decreases t,
{
    &&& sorted::<String, FileView>(t.files)
    &&& sorted::<String, DirModel>(t.dirs)
    &&& sorted::<String, Seq<char>>(t.symlinks)
    &&& forall|i: int| 0 <= i < t.dirs.len() ==> well_formed(#[trigger] t.dirs[i].1)
}

/// The subdirectory of that name, empty where there is none.
pub open spec fn subdir(t: DirModel, name: Seq<char>) -> DirModel {
    match lookup::<String, DirModel>(t.dirs, name) {
        Some(d) => d,
        None => empty_dir(),
    }
}

/// The tree with `d` as the subdirectory of that name.
pub open spec fn with_dir(t: DirModel, name: Seq<char>, d: DirModel) -> DirModel {
    DirModel { dirs: with::<String, DirModel>(t.dirs, name, d), ..t }
}

/// The tree with the directory at `path`, and those above it.
pub open spec fn ensured(t: DirModel, path: Seq<Seq<char>>) -> DirModel
    decreases path.len(),
{
    if path.len() == 0 {
        t
    } else {
        with_dir(t, path[0], ensured(subdir(t, path[0]), path.skip(1)))
    }
}

/// The tree with the file `f` at `path`.
pub open spec fn with_file(t: DirModel, path: Seq<Seq<char>>, f: FileView) -> DirModel
    decreases path.len(),
{
    if path.len() <= 1 {
        DirModel { files: with::<String, FileView>(t.files, path[0], f), ..t }
    } else {
        with_dir(t, path[0], with_file(subdir(t, path[0]), path.skip(1), f))
    }
}

/// The tree with a symbolic link to `target` at `path`.
pub open spec fn with_symlink(t: DirModel, path: Seq<Seq<char>>, target: Seq<char>) -> DirModel
    decreases path.len(),
{
    if path.len() <= 1 {
        DirModel { symlinks: with::<String, Seq<char>>(t.symlinks, path[0], target), ..t }
    } else {
        with_dir(t, path[0], with_symlink(subdir(t, path[0]), path.skip(1), target))
    }
}

/// The file at `path`.
pub open spec fn file_at(t: DirModel, path: Seq<Seq<char>>) -> Option<FileView>
    decreases path.len(),
{
    if path.len() == 0 {
        None
    } else if path.len() == 1 {
        lookup::<String, FileView>(t.files, path[0])
    } else {
        file_at(subdir(t, path[0]), path.skip(1))
    }
}

/// The target of the symbolic link at `path`.
pub open spec fn symlink_at(t: DirModel, path: Seq<Seq<char>>) -> Option<Seq<char>>
    decreases path.len(),
{
    if path.len() == 0 {
        None
    } else if path.len() == 1 {
        lookup::<String, Seq<char>>(t.symlinks, path[0])
    } else {
        symlink_at(subdir(t, path[0]), path.skip(1))
    }
}

/// The message that describes a directory.
pub open spec fn tree_view(t: DirModel) -> DirectoryView
    decreases t, 0nat,
{
    DirectoryView { files: t.files, directories: subdir_digests(t.dirs), symlinks: t.symlinks }
}

/// The bytes of the message that describes a directory.
pub open spec fn tree_wire(t: DirModel) -> Seq<u8>
    decreases t, 1nat,
{
    directory_wire(tree_view(t))
}

/// The digest of a directory.
pub open spec fn tree_digest(t: DirModel) -> DigestView
    decreases t, 2nat,
{
    digest_of(tree_wire(t))
}

/// The digests of subdirectories.
pub open spec fn subdir_digests(dirs: Seq<(Seq<char>, DirModel)>) -> Seq<(Seq<char>, DigestView)>
    decreases dirs, 0nat,
{
    if dirs.len() == 0 {
        seq![]
    } else {
        subdir_digests(dirs.drop_last()).push((dirs.last().0, tree_digest(dirs.last().1)))
    }
}

/// The upload set with the messages of a directory and of all directories below it.
pub open spec fn with_tree(
    t: DirModel,
    u: Seq<(DigestView, BlobView)>,
) -> Seq<(DigestView, BlobView)>
    decreases t, 1nat,
{
    with_blob(with_subdirs(t.dirs, u), tree_digest(t), DataView::Bytes(tree_wire(t)))
}

/// The upload set with the messages of directories and of all directories below them.
pub open spec fn with_subdirs(
    dirs: Seq<(Seq<char>, DirModel)>,
    u: Seq<(DigestView, BlobView)>,
) -> Seq<(DigestView, BlobView)>
    decreases dirs, 0nat,
{
    if dirs.len() == 0 {
        u
    } else {
        with_tree(dirs.last().1, with_subdirs(dirs.drop_last(), u))
    }
}

/// An empty directory is well formed.
pub proof fn lemma_empty_dir()
    ensures
        well_formed(empty_dir()),
{
}

/// The subdirectory of a name is well formed in a well formed tree.
pub proof fn lemma_subdir(t: DirModel, name: Seq<char>)
    requires
        well_formed(t),
    ensures
        well_formed(subdir(t, name)),
{
    lemma_empty_dir();
    match lookup::<String, DirModel>(t.dirs, name) {
        Some(d) => {
            let i = rank::<String, DirModel>(t.dirs, name);
            assert(well_formed(t.dirs[i].1));
        },
        None => {},
    }
}

/// A well formed subdirectory keeps the tree well formed.
pub proof fn lemma_with_dir(t: DirModel, name: Seq<char>, d: DirModel)
    requires
        well_formed(t),
        well_formed(d),
    ensures
        well_formed(with_dir(t, name, d)),
        subdir(with_dir(t, name, d), name) == d,
        forall|other: Seq<char>|
            other != name ==> #[trigger] subdir(with_dir(t, name, d), other) == subdir(t, other),
{
    lemma_with::<String, DirModel>(t.dirs, name, d);
    lemma_rank::<String, DirModel>(t.dirs, name);
    let n = with_dir(t, name, d);
    let r = rank::<String, DirModel>(t.dirs, name);
    assert forall|i: int| 0 <= i < n.dirs.len() implies well_formed(#[trigger] n.dirs[i].1) by {
        if r < t.dirs.len() && t.dirs[r].0 == name {
            if i != r {
                assert(n.dirs[i] == t.dirs[i]);
            }
        } else if i < r {
            assert(n.dirs[i] == t.dirs[i]);
        } else if i > r {
            assert(n.dirs[i] == t.dirs[i - 1]);
        }
    }
    assert forall|other: Seq<char>| other != name implies #[trigger] subdir(n, other) == subdir(
        t,
        other,
    ) by {
        assert(lookup::<String, DirModel>(n.dirs, other) == lookup::<String, DirModel>(
            t.dirs,
            other,
        ));
    }
}

impl Default for DirBuilder {
    /// An empty directory.
    fn default() -> (r: DirBuilder)
        ensures
            r.model() == empty_dir(),
            well_formed(r.model()),
    {
        DirBuilder::new()
    }
}

impl DirBuilder {
    /// The content of the directory.
    pub open spec fn model(&self) -> DirModel
        decreases self,
    {
        DirModel {
            files: mapped::<String, FileEntry, FileView>(
                entries(self.files@),
                |f: FileEntry| f@,
            ),
            dirs: Seq::new(
                self.dirs@.len(),
                |i: int|
                    if 0 <= i < self.dirs@.len() {
                        (self.dirs@[i].0@, self.dirs@[i].1.model())
                    } else {
                        arbitrary()
                    },
            ),
            symlinks: mapped::<String, String, Seq<char>>(
                entries(self.symlinks@),
                |s: String| s@,
            ),
        }
    }

    /// The subdirectories of the model are those of the directory, by their models.
    proof fn lemma_model_dirs(&self)
        ensures
            self.model().dirs == mapped::<String, DirBuilder, DirModel>(
                entries(self.dirs@),
                |d: DirBuilder| d.model(),
            ),
    {
        assert(self.model().dirs =~= mapped::<String, DirBuilder, DirModel>(
            entries(self.dirs@),
            |d: DirBuilder| d.model(),
        ));
    }

    /// An empty directory.
    pub fn new() -> (r: DirBuilder)
        ensures
            r.model() == empty_dir(),
            well_formed(r.model()),
    {
        let r = DirBuilder { files: Vec::new(), dirs: Vec::new(), symlinks: Vec::new() };
        proof {
            assert(entries(r.files@) =~= seq![]);
            assert(entries(r.symlinks@) =~= seq![]);
            assert(r.model().files =~= seq![]);
            assert(r.model().dirs =~= seq![]);
            assert(r.model().symlinks =~= seq![]);
            lemma_empty_dir();
        }
        r
    }

    /// Where the subdirectory of that name stands; it is added empty where there is none.
    fn child_index(&mut self, name: &String) -> (i: usize)
        requires
            well_formed(old(self).model()),
        ensures
            well_formed(final(self).model()),
            i < final(self).dirs@.len(),
            i == rank::<String, DirModel>(final(self).model().dirs, name@),
            final(self).dirs@[i as int].0@ == name@,
            final(self).dirs@[i as int].1.model() == subdir(old(self).model(), name@),
            final(self).model() == with_dir(
                old(self).model(),
                name@,
                subdir(old(self).model(), name@),
            ),
    {
        let ghost m = self.model();
        let ghost f = |d: DirBuilder| d.model();
        let ghost e = entries(self.dirs@);
        proof {
            self.lemma_model_dirs();
            lemma_mapped::<String, DirBuilder, DirModel>(e, f, name@, arbitrary());
            lemma_subdir(m, name@);
            lemma_with_dir(m, name@, subdir(m, name@));
            lemma_rank::<String, DirModel>(m.dirs, name@);
        }
        let (i, found) = find(&self.dirs, name);
        if found {
            proof {
                assert(m.dirs[i as int].0 == name@);
                assert(m.dirs.update(i as int, (name@, m.dirs[i as int].1)) =~= m.dirs);
                assert(with_dir(m, name@, subdir(m, name@)) =~= m);
            }
            i
        } else {
            let child = DirBuilder::new();
            self.dirs.insert(i, (name.clone(), child));
            proof {
                self.lemma_model_dirs();
                assert(entries(self.dirs@) =~= e.insert(i as int, (name@, child)));
                assert(self.model().dirs =~= m.dirs.insert(i as int, (name@, empty_dir())));
                assert(self.model() =~= with_dir(m, name@, subdir(m, name@)));
                assert(self.model().dirs[i as int].0 == name@);
                lemma_found_at::<String, DirModel>(self.model().dirs, i as int);
            }
            i
        }
    }

    /// What the model becomes when the subdirectory at `i` changes.
    proof fn lemma_changed_child(before: &DirBuilder, after: &DirBuilder, i: int, d: DirBuilder)
        requires
            well_formed(before.model()),
            0 <= i < before.dirs@.len(),
            after.files == before.files,
            after.symlinks == before.symlinks,
            after.dirs@ == before.dirs@.update(i, (before.dirs@[i].0, d)),
            well_formed(d.model()),
        ensures
            after.model() == with_dir(before.model(), before.dirs@[i].0@, d.model()),
            well_formed(after.model()),
    {
        let m = before.model();
        let name = before.dirs@[i].0@;
        assert(m.dirs[i].0 == name);
        lemma_found_at::<String, DirModel>(m.dirs, i);
        assert(after.model().dirs =~= m.dirs.update(i, (name, d.model())));
        assert(after.model() =~= with_dir(m, name, d.model()));
        lemma_with_dir(m, name, d.model());
    }

    /// Adds the directories on the path from position `from` on.
    fn ensure_dir_from(&mut self, components: &Vec<String>, from: usize)
        requires
            from <= components@.len(),
            well_formed(old(self).model()),
        ensures
            final(self).model() == ensured(
                old(self).model(),
                texts(components@).skip(from as int),
            ),
            well_formed(final(self).model()),
        decreases components@.len() - from,
    {
        let ghost path = texts(components@).skip(from as int);
        if from == components.len() {
            return;
        }
        let ghost m = self.model();
        let ghost name = components@[from as int]@;
        let i = self.child_index(&components[from]);
        let ghost mid = *self;
        let child = &mut self.dirs[i];
        proof {
            assert(path[0] == name);
            assert(path.skip(1) =~= texts(components@).skip(from + 1));
            lemma_subdir(m, name);
        }
        child.1.ensure_dir_from(components, from + 1);
        proof {
            let d = self.dirs@[i as int].1;
            Self::lemma_changed_child(&mid, self, i as int, d);
            lemma_with_twice::<String, DirModel>(m.dirs, name, subdir(m, name), d.model());
        }
    }

    /// Adds the directory at the path, and those above it.
    pub fn ensure_dir(&mut self, components: &Vec<String>)
        requires
            well_formed(old(self).model()),
        ensures
            final(self).model() == ensured(old(self).model(), texts(components@)),
            well_formed(final(self).model()),
    {
        assert(texts(components@).skip(0) =~= texts(components@));
        self.ensure_dir_from(components, 0);
    }

    /// Puts the file at the path from position `from` on.
    fn insert_file_from(&mut self, components: &Vec<String>, from: usize, entry: FileEntry)
        requires
            from < components@.len(),
            well_formed(old(self).model()),
        ensures
            final(self).model() == with_file(
                old(self).model(),
                texts(components@).skip(from as int),
                entry@,
            ),
            well_formed(final(self).model()),
        decreases components@.len() - from,
    {
        let ghost path = texts(components@).skip(from as int);
        let ghost m = self.model();
        let ghost name = components@[from as int]@;
        assert(path[0] == name);
        if components.len() - from == 1 {
            let ghost e = entries(self.files@);
            let ghost f = |x: FileEntry| x@;
            proof {
                lemma_mapped::<String, FileEntry, FileView>(e, f, name, entry);
                lemma_with::<String, FileView>(m.files, name, entry@);
            }
            put(&mut self.files, components[from].clone(), entry);
            assert(self.model().dirs =~= m.dirs);
            assert(self.model() =~= with_file(m, path, entry@));
            return;
        }
        let i = self.child_index(&components[from]);
        let ghost mid = *self;
        let child = &mut self.dirs[i];
        proof {
            assert(path.skip(1) =~= texts(components@).skip(from + 1));
            lemma_subdir(m, name);
        }
        child.1.insert_file_from(components, from + 1, entry);
        proof {
            let d = self.dirs@[i as int].1;
            Self::lemma_changed_child(&mid, self, i as int, d);
            lemma_with_twice::<String, DirModel>(m.dirs, name, subdir(m, name), d.model());
        }
    }

    /// Puts the symbolic link at the path from position `from` on.
    fn insert_symlink_from(&mut self, components: &Vec<String>, from: usize, target: String)
        requires
            from < components@.len(),
            well_formed(old(self).model()),
        ensures
            final(self).model() == with_symlink(
                old(self).model(),
                texts(components@).skip(from as int),
                target@,
            ),
            well_formed(final(self).model()),
        decreases components@.len() - from,
    {
        let ghost path = texts(components@).skip(from as int);
        let ghost m = self.model();
        let ghost name = components@[from as int]@;
        assert(path[0] == name);
        if components.len() - from == 1 {
            let ghost e = entries(self.symlinks@);
            let ghost f = |x: String| x@;
            proof {
                lemma_mapped::<String, String, Seq<char>>(e, f, name, target);
                lemma_with::<String, Seq<char>>(m.symlinks, name, target@);
            }
            put(&mut self.symlinks, components[from].clone(), target);
            assert(self.model().dirs =~= m.dirs);
            assert(self.model() =~= with_symlink(m, path, target@));
            return;
        }
        let i = self.child_index(&components[from]);
        let ghost mid = *self;
        let child = &mut self.dirs[i];
        proof {
            assert(path.skip(1) =~= texts(components@).skip(from + 1));
            lemma_subdir(m, name);
        }
        child.1.insert_symlink_from(components, from + 1, target);
        proof {
            let d = self.dirs@[i as int].1;
            Self::lemma_changed_child(&mid, self, i as int, d);
            lemma_with_twice::<String, DirModel>(m.dirs, name, subdir(m, name), d.model());
        }
    }

    /// Puts a file at a remote path. It fails, and changes nothing, where the path has no
    /// component.
    pub fn insert_file(&mut self, remote_execroot: &str, entry: FileEntry) -> (r: Result<
        (),
        Error,
    >)
        requires
            well_formed(old(self).model()),
        ensures
            well_formed(final(self).model()),
            match r {
                Ok(_) => components(remote_execroot@).len() > 0 && final(self).model()
                    == with_file(old(self).model(), components(remote_execroot@), entry@),
                Err(e) => components(remote_execroot@).len() == 0 && final(self).model() == old(
                    self,
                ).model() && e@ == failure("remote file path must contain a file name"@),
            },
    {
        let path = path_components(remote_execroot);
        if path.len() == 0 {
            assert(texts(path@).len() == 0);
            return Err(fail("remote file path must contain a file name"));
        }
        assert(texts(path@).skip(0) =~= texts(path@));
        self.insert_file_from(&path, 0, entry);
        Ok(())
    }

    /// Puts a symbolic link at a remote path. It fails, and changes nothing, where the path has
    /// no component.
    pub fn insert_symlink(&mut self, remote_execroot: &str, target: String) -> (r: Result<
        (),
        Error,
    >)
        requires
            well_formed(old(self).model()),
        ensures
            well_formed(final(self).model()),
            match r {
                Ok(_) => components(remote_execroot@).len() > 0 && final(self).model()
                    == with_symlink(old(self).model(), components(remote_execroot@), target@),
                Err(e) => components(remote_execroot@).len() == 0 && final(self).model() == old(
                    self,
                ).model() && e@ == failure("remote symlink path must contain a file name"@),
            },
    {
        let path = path_components(remote_execroot);
        if path.len() == 0 {
            assert(texts(path@).len() == 0);
            return Err(fail("remote symlink path must contain a file name"));
        }
        assert(texts(path@).skip(0) =~= texts(path@));
        self.insert_symlink_from(&path, 0, target);
        Ok(())
    }

    /// The file entries of the message.
    fn file_nodes(&self) -> (r: Vec<FileNode>)
        ensures
            r@.map_values(
                |f: FileNode|
                    (f.name@, FileView { digest: f.digest@, is_executable: f.is_executable }),
            ) == self.model().files,
    {
        let mut r: Vec<FileNode> = Vec::new();
        let ghost g = |f: FileNode|
            (f.name@, FileView { digest: f.digest@, is_executable: f.is_executable });
        let mut i: usize = 0;
        while i < self.files.len()
            invariant
                i <= self.files@.len(),
                r@.map_values(g) == self.model().files.take(i as int),
                g == (|f: FileNode|
                    (f.name@, FileView { digest: f.digest@, is_executable: f.is_executable })),
            decreases self.files@.len() - i,
        {
            let node = FileNode {
                name: self.files[i].0.clone(),
                digest: self.files[i].1.digest.clone(),
                is_executable: self.files[i].1.is_executable,
            };
            let ghost before = r@;
            r.push(node);
            proof {
                assert(r@.map_values(g) =~= before.map_values(g).push(g(node)));
                assert(self.model().files.take(i + 1) =~= self.model().files.take(i as int).push(
                    self.model().files[i as int],
                ));
            }
            i += 1;
        }
        assert(self.model().files.take(self.files@.len() as int) =~= self.model().files);
        r
    }

    /// The symbolic link entries of the message.
    fn symlink_nodes(&self) -> (r: Vec<SymlinkNode>)
        ensures
            r@.map_values(|s: SymlinkNode| (s.name@, s.target@)) == self.model().symlinks,
    {
        let mut r: Vec<SymlinkNode> = Vec::new();
        let ghost g = |s: SymlinkNode| (s.name@, s.target@);
        let mut i: usize = 0;
        while i < self.symlinks.len()
            invariant
                i <= self.symlinks@.len(),
                r@.map_values(g) == self.model().symlinks.take(i as int),
                g == (|s: SymlinkNode| (s.name@, s.target@)),
            decreases self.symlinks@.len() - i,
        {
            let node = SymlinkNode {
                name: self.symlinks[i].0.clone(),
                target: self.symlinks[i].1.clone(),
            };
            let ghost before = r@;
            r.push(node);
            proof {
                assert(r@.map_values(g) =~= before.map_values(g).push(g(node)));
                assert(self.model().symlinks.take(i + 1) =~= self.model().symlinks.take(
                    i as int,
                ).push(self.model().symlinks[i as int]));
            }
            i += 1;
        }
        assert(self.model().symlinks.take(self.symlinks@.len() as int) =~= self.model().symlinks);
        r
    }

    /// Adds the messages of this directory and of all directories below it to the upload set, and
    /// gives the digest of this directory.
    pub fn finalize(&self, uploads: &mut UploadMap) -> (digest: Digest)
        requires
            ordered(blobs(old(uploads)@)),
        ensures
            digest@ == tree_digest(self.model()),
            blobs(final(uploads)@) == with_tree(self.model(), blobs(old(uploads)@)),
            ordered(blobs(final(uploads)@)),
        decreases self,
    {
        let ghost start = blobs(uploads@);
        let ghost m = self.model();
        let ghost g = |d: DirectoryNode| (d.name@, d.digest@);
        let mut directories: Vec<DirectoryNode> = Vec::new();
        let mut i: usize = 0;
        assert(m.dirs.take(0) =~= seq![]);
        while i < self.dirs.len()
            invariant
                i <= self.dirs@.len(),
                m == self.model(),
                g == (|d: DirectoryNode| (d.name@, d.digest@)),
                directories@.map_values(g) == subdir_digests(m.dirs.take(i as int)),
                blobs(uploads@) == with_subdirs(m.dirs.take(i as int), start),
                ordered(blobs(uploads@)),
            decreases self.dirs@.len() - i,
        {
            let digest = self.dirs[i].1.finalize(uploads);
            let node = DirectoryNode { name: self.dirs[i].0.clone(), digest };
            let ghost before = directories@;
            directories.push(node);
            proof {
                let next = m.dirs.take(i + 1);
                assert(next.drop_last() =~= m.dirs.take(i as int));
                assert(next.last() == m.dirs[i as int]);
                assert(directories@.map_values(g) =~= before.map_values(g).push(g(node)));
            }
            i += 1;
        }
        assert(m.dirs.take(m.dirs.len() as int) =~= m.dirs);
        let directory = Directory {
            files: self.file_nodes(),
            directories,
            symlinks: self.symlink_nodes(),
        };
        assert(directory@ =~= tree_view(m));
        let bytes = directory.encode_to_vec();
        let digest = digest_bytes(bytes.as_slice());
        add_blob(uploads, digest.clone(), UploadData::Bytes(bytes));
        digest
    }
}

/// The components of a remote path.
pub fn path_components(path: &str) -> (r: Vec<String>)
    ensures
        texts(r@) == components(path@),
{
    let all = split_on(path, '/');
    let mut r: Vec<String> = Vec::new();
    let mut i: usize = 0;
    while i < all.len()
        invariant
            i <= all@.len(),
            texts(r@) == non_empty(texts(all@).take(i as int)),
        decreases all@.len() - i,
    {
        let ghost before = r@;
        proof {
            let next = texts(all@).take(i + 1);
            assert(next.drop_last() =~= texts(all@).take(i as int));
            assert(next.last() == all@[i as int]@);
        }
        if !all[i].as_str().is_empty() {
            let piece = all[i].clone();
            r.push(piece);
            assert(texts(r@) =~= texts(before).push(piece@));
        }
        i += 1;
    }
    assert(texts(all@).take(all@.len() as int) =~= texts(all@));
    r
}

} // verus!
