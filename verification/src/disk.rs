//! What is known of the local file system.
use vstd::prelude::*;

use crate::digest::{digest_bytes, digest_of, Digest, DigestView};
use crate::local_path::{copy_bytes, same_bytes, LocalPath};
use crate::uploads::{DataView, UploadData};

verus! {

/// Files up to this size are held in memory.
pub const INLINE_BLOB_LIMIT: u64 = 8 * 1024 * 1024;

/// The content of a file.
#[derive(Debug)]
pub enum FileContent {
    /// The bytes themselves.
    Inline(Vec<u8>),
    /// The digest of a file that was read piece by piece.
    Streamed(Digest),
    /// The file could not be read, and why.
    Unreadable(String),
}

/// The content of a [`FileContent`].
pub enum ContentView {
    Inline(Seq<u8>),
    Streamed(DigestView),
    Unreadable(Seq<char>),
}

impl View for FileContent {
    type V = ContentView;

    open spec fn view(&self) -> ContentView {
        match self {
            FileContent::Inline(bytes) => ContentView::Inline(bytes@),
            FileContent::Streamed(digest) => ContentView::Streamed(digest@),
            FileContent::Unreadable(cause) => ContentView::Unreadable(cause@),
        }
    }
}

/// What stands at a path, links not followed.
#[derive(Debug)]
pub enum FsNode {
    /// Its metadata could not be read, and why.
    Unreadable(String),
    /// A symbolic link, with its target.
    Symlink(LocalPath),
    /// A symbolic link that could not be read, and why.
    UnreadableLink(String),
    /// A directory: its entries in the order of reading, and why the reading ended early.
    Directory(Vec<(Vec<u8>, FsNode)>, Option<String>),
    /// A file: its content and its permission bits.
    File(FileContent, u32),
}

/// The content of an [`FsNode`].
pub enum NodeView {
    Unreadable(Seq<char>),
    Symlink(Seq<u8>),
    UnreadableLink(Seq<char>),
    Directory(Seq<(Seq<u8>, NodeView)>, Option<Seq<char>>),
    File(ContentView, u32),
}

impl FsNode {
    /// The content of the node.
    pub open spec fn model(&self) -> NodeView
        decreases self,
    {
        match self {
            FsNode::Unreadable(cause) => NodeView::Unreadable(cause@),
            FsNode::Symlink(target) => NodeView::Symlink(target@),
            FsNode::UnreadableLink(cause) => NodeView::UnreadableLink(cause@),
            FsNode::Directory(entries, ended) => NodeView::Directory(
                Seq::new(
                    entries@.len(),
                    |i: int|
                        if 0 <= i < entries@.len() {
                            (entries@[i].0@, entries@[i].1.model())
                        } else {
                            arbitrary()
                        },
                ),
                match ended {
                    Some(cause) => Some(cause@),
                    None => None,
                },
            ),
            FsNode::File(content, mode) => NodeView::File(content@, *mode),
        }
    }
}

/// What is known of one path.
#[derive(Debug)]
pub struct Fact {
    pub path: LocalPath,
    /// Something is there, links followed.
    pub exists: bool,
    /// A directory is there, links followed.
    pub is_dir: bool,
    /// A file is there, links followed.
    pub is_file: bool,
    /// What stands there, links not followed.
    pub node: FsNode,
}

/// The content of a [`Fact`].
pub struct FactView {
    pub path: Seq<u8>,
    pub exists: bool,
    pub is_dir: bool,
    pub is_file: bool,
    pub node: NodeView,
}

impl View for Fact {
    type V = FactView;

    open spec fn view(&self) -> FactView {
        FactView {
            path: self.path@,
            exists: self.exists,
            is_dir: self.is_dir,
            is_file: self.is_file,
            node: self.node.model(),
        }
    }
}

/// What is known of the local file system: nothing is at a path of which nothing is known.
#[derive(Debug)]
pub struct Disk {
    pub facts: Vec<Fact>,
}

impl View for Disk {
    type V = Seq<FactView>;

    open spec fn view(&self) -> Seq<FactView> {
        self.facts@.map_values(|f: Fact| f@)
    }
}

/// What is known of `path`: the first fact about it.
pub open spec fn fact_at(d: Seq<FactView>, path: Seq<u8>) -> Option<FactView>
    decreases d.len(),
{
    if d.len() == 0 {
        None
    } else if d[0].path == path {
        Some(d[0])
    } else {
        fact_at(d.skip(1), path)
    }
}

/// Something is at `path`.
pub open spec fn exists_at(d: Seq<FactView>, path: Seq<u8>) -> bool {
    fact_at(d, path) matches Some(f) && f.exists
}

/// A directory is at `path`.
pub open spec fn dir_at(d: Seq<FactView>, path: Seq<u8>) -> bool {
    fact_at(d, path) matches Some(f) && f.is_dir
}

/// A file is at `path`.
pub open spec fn regular_at(d: Seq<FactView>, path: Seq<u8>) -> bool {
    fact_at(d, path) matches Some(f) && f.is_file
}

/// What stands at `path`.
pub open spec fn node_at(d: Seq<FactView>, path: Seq<u8>) -> NodeView {
    match fact_at(d, path) {
        Some(f) => f.node,
        None => NodeView::Unreadable(seq![]),
    }
}

impl Disk {
    /// What is known of `path`.
    pub fn find(&self, path: &LocalPath) -> (r: Option<&Fact>)
        ensures
            match r {
                Some(f) => fact_at(self@, path@) == Some(f@),
                None => fact_at(self@, path@) is None,
            },
    {
        let mut i: usize = 0;
        assert(self@.skip(0) =~= self@);
        while i < self.facts.len()
            invariant
                i <= self.facts@.len(),
                fact_at(self@, path@) == fact_at(self@.skip(i as int), path@),
            decreases self.facts@.len() - i,
        {
            assert(self@.skip(i as int)[0] == self.facts@[i as int]@);
            if same_bytes(self.facts[i].path.raw.as_slice(), path.raw.as_slice()) {
                return Some(&self.facts[i]);
            }
            assert(self@.skip(i as int).skip(1) =~= self@.skip(i + 1));
            i += 1;
        }
        None
    }

    /// Whether something is at `path`.
    pub fn is_present(&self, path: &LocalPath) -> (r: bool)
        ensures
            r == exists_at(self@, path@),
    {
        match self.find(path) {
            Some(f) => f.exists,
            None => false,
        }
    }

    /// Whether a directory is at `path`.
    pub fn is_dir(&self, path: &LocalPath) -> (r: bool)
        ensures
            r == dir_at(self@, path@),
    {
        match self.find(path) {
            Some(f) => f.is_dir,
            None => false,
        }
    }

    /// Whether a file is at `path`.
    pub fn is_file(&self, path: &LocalPath) -> (r: bool)
        ensures
            r == regular_at(self@, path@),
    {
        match self.find(path) {
            Some(f) => f.is_file,
            None => false,
        }
    }
}

/// Whether a file of this size is held in memory.
pub fn reads_inline(len: u64) -> (r: bool)
    ensures
        r == (len <= 8388608),
{
    len <= INLINE_BLOB_LIMIT
}

/// Some execute bit is set.
pub open spec fn executable(mode: u32) -> bool {
    mode & 0o111 != 0
}

/// Whether permission bits let anybody execute the file.
pub fn is_executable(mode: u32) -> (r: bool)
    ensures
        r == executable(mode),
{
    mode & 0o111 != 0
}

/// The permission bits to give to a file, where they are to change: what is executable can be
/// read and executed by all and written by its owner.
pub fn set_executable(mode: u32, executable: bool) -> (r: Option<u32>)
    ensures
        r == (if executable {
            Some(mode | 0o755)
        } else {
            None
        }),
{
    if executable {
        Some(mode | 0o755)
    } else {
        None
    }
}

/// The digest of a file and where its bytes are: what was read into memory is there, and what was
/// read piece by piece stays in the file at `path`.
pub open spec fn file_digest(
    content: ContentView,
    path: Seq<u8>,
) -> Result<(DigestView, DataView), Seq<char>> {
    match content {
        ContentView::Inline(bytes) => Ok((digest_of(bytes), DataView::Bytes(bytes))),
        ContentView::Streamed(digest) => Ok((digest, DataView::File(path))),
        ContentView::Unreadable(cause) => Err(cause),
    }
}

/// The digest of a file and where its bytes are, or why it could not be read.
pub fn digest_file(content: &FileContent, path: &LocalPath) -> (r: Result<
    (Digest, UploadData),
    String,
>)
    ensures
        match r {
            Ok((digest, data)) => file_digest(content@, path@) == Ok::<
                (DigestView, DataView),
                Seq<char>,
            >((digest@, data@)),
            Err(cause) => file_digest(content@, path@) == Err::<(DigestView, DataView), Seq<char>>(
                cause@,
            ),
        },
{
    match content {
        FileContent::Inline(bytes) => Ok(
            (
                digest_bytes(bytes.as_slice()),
                UploadData::Bytes(copy_bytes(bytes.as_slice())),
            ),
        ),
        FileContent::Streamed(digest) => Ok((digest.clone(), UploadData::File(path.clone()))),
        FileContent::Unreadable(cause) => Err(cause.clone()),
    }
}

} // verus!
