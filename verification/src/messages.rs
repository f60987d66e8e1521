//! The messages of the remote execution API that are hashed, and their encoding.
use vstd::prelude::*;
use vstd::utf8::encode_utf8;

use crate::digest::{Digest, DigestView};
use crate::text::texts;
use crate::wire::{
    bool_field, delimited, int_field, put_bool, put_int, put_message, put_repeated_text, put_text,
    repeated, text_field,
};

verus! {

/// A file in a directory.
#[derive(Debug)]
pub struct FileNode {
    pub name: String,
    pub digest: Digest,
    pub is_executable: bool,
}

/// A directory in a directory, by the digest of its own message.
#[derive(Debug)]
pub struct DirectoryNode {
    pub name: String,
    pub digest: Digest,
}

/// A symbolic link in a directory.
#[derive(Debug)]
pub struct SymlinkNode {
    pub name: String,
    pub target: String,
}

/// The content of a directory.
#[derive(Debug)]
pub struct Directory {
    pub files: Vec<FileNode>,
    pub directories: Vec<DirectoryNode>,
    pub symlinks: Vec<SymlinkNode>,
}

/// What a file entry says, apart from its name.
#[verifier::ext_equal]
pub struct FileView {
    pub digest: DigestView,
    pub is_executable: bool,
}

/// The content of a [`Directory`]: the entries by name.
#[verifier::ext_equal]
pub struct DirectoryView {
    pub files: Seq<(Seq<char>, FileView)>,
    pub directories: Seq<(Seq<char>, DigestView)>,
    pub symlinks: Seq<(Seq<char>, Seq<char>)>,
}

impl View for Directory {
    type V = DirectoryView;

    open spec fn view(&self) -> DirectoryView {
        DirectoryView {
            files: self.files@.map_values(
                |f: FileNode|
                    (f.name@, FileView { digest: f.digest@, is_executable: f.is_executable }),
            ),
            directories: self.directories@.map_values(|d: DirectoryNode| (d.name@, d.digest@)),
            symlinks: self.symlinks@.map_values(|s: SymlinkNode| (s.name@, s.target@)),
        }
    }
}

/// A command to run.
#[derive(Debug)]
pub struct Command {
    pub arguments: Vec<String>,
    pub environment_variables: Vec<(String, String)>,
    pub platform: Vec<(String, String)>,
    pub working_directory: String,
    pub output_paths: Vec<String>,
    pub output_directory_format: i32,
}

/// The content of a [`Command`].
#[verifier::ext_equal]
pub struct CommandView {
    pub arguments: Seq<Seq<char>>,
    pub environment_variables: Seq<(Seq<char>, Seq<char>)>,
    pub platform: Seq<(Seq<char>, Seq<char>)>,
    pub working_directory: Seq<char>,
    pub output_paths: Seq<Seq<char>>,
    pub output_directory_format: i32,
}

/// The names and values of a list of pairs.
pub open spec fn pair_texts(s: Seq<(String, String)>) -> Seq<(Seq<char>, Seq<char>)> {
    s.map_values(|p: (String, String)| (p.0@, p.1@))
}

impl View for Command {
    type V = CommandView;

    open spec fn view(&self) -> CommandView {
        CommandView {
            arguments: texts(self.arguments@),
            environment_variables: pair_texts(self.environment_variables@),
            platform: pair_texts(self.platform@),
            working_directory: self.working_directory@,
            output_paths: texts(self.output_paths@),
            output_directory_format: self.output_directory_format,
        }
    }
}

/// A command together with its inputs.
#[derive(Debug)]
pub struct Action {
    pub command_digest: Digest,
    pub input_root_digest: Digest,
    pub do_not_cache: bool,
    pub platform: Vec<(String, String)>,
}

/// The content of an [`Action`].
#[verifier::ext_equal]
pub struct ActionView {
    pub command_digest: DigestView,
    pub input_root_digest: DigestView,
    pub do_not_cache: bool,
    pub platform: Seq<(Seq<char>, Seq<char>)>,
}

impl View for Action {
    type V = ActionView;

    open spec fn view(&self) -> ActionView {
        ActionView {
            command_digest: self.command_digest@,
            input_root_digest: self.input_root_digest@,
            do_not_cache: self.do_not_cache,
            platform: pair_texts(self.platform@),
        }
    }
}

/// The encoding of a digest.
pub open spec fn digest_wire(d: DigestView) -> Seq<u8> {
    text_field(1, d.hash) + int_field(2, d.size_bytes)
}

/// The encoding of a name with a value: an environment variable, a platform property or a
/// symbolic link.
pub open spec fn pair_wire(p: (Seq<char>, Seq<char>)) -> Seq<u8> {
    text_field(1, p.0) + text_field(2, p.1)
}

/// The encoding of a file entry.
pub open spec fn file_wire(f: (Seq<char>, FileView)) -> Seq<u8> {
    text_field(1, f.0) + delimited(2, digest_wire(f.1.digest)) + bool_field(4, f.1.is_executable)
}

/// The encoding of a directory entry.
pub open spec fn subdir_wire(d: (Seq<char>, DigestView)) -> Seq<u8> {
    text_field(1, d.0) + delimited(2, digest_wire(d.1))
}

/// The encoding of a directory.
pub open spec fn directory_wire(d: DirectoryView) -> Seq<u8> {
    repeated(1, d.files.map_values(|f: (Seq<char>, FileView)| file_wire(f))) + repeated(
        2,
        d.directories.map_values(|s: (Seq<char>, DigestView)| subdir_wire(s)),
    ) + repeated(3, d.symlinks.map_values(|s: (Seq<char>, Seq<char>)| pair_wire(s)))
}

/// The encoding of a platform.
pub open spec fn platform_wire(p: Seq<(Seq<char>, Seq<char>)>) -> Seq<u8> {
    repeated(1, p.map_values(|q: (Seq<char>, Seq<char>)| pair_wire(q)))
}

/// The encodings of texts.
pub open spec fn text_wires(s: Seq<Seq<char>>) -> Seq<Seq<u8>> {
    s.map_values(|t: Seq<char>| encode_utf8(t))
}

/// The encoding of a command.
pub open spec fn command_wire(c: CommandView) -> Seq<u8> {
    repeated(1, text_wires(c.arguments)) + repeated(
        2,
        c.environment_variables.map_values(|p: (Seq<char>, Seq<char>)| pair_wire(p)),
    ) + delimited(5, platform_wire(c.platform)) + text_field(6, c.working_directory) + repeated(
        7,
        text_wires(c.output_paths),
    ) + int_field(9, c.output_directory_format as i64)
}

/// The encoding of an action.
pub open spec fn action_wire(a: ActionView) -> Seq<u8> {
    delimited(1, digest_wire(a.command_digest)) + delimited(2, digest_wire(a.input_root_digest))
        + bool_field(7, a.do_not_cache) + delimited(10, platform_wire(a.platform))
}

/// Encodes a digest.
pub fn encode_digest(d: &Digest) -> (r: Vec<u8>)
    ensures
        r@ == digest_wire(d@),
{
    let mut r: Vec<u8> = Vec::new();
    put_text(1, &d.hash, &mut r);
    put_int(2, d.size_bytes, &mut r);
    assert(r@ =~= digest_wire(d@));
    r
}

/// Encodes a name with a value.
fn encode_pair(name: &String, value: &String) -> (r: Vec<u8>)
    ensures
        r@ == pair_wire((name@, value@)),
{
    let mut r: Vec<u8> = Vec::new();
    put_text(1, name, &mut r);
    put_text(2, value, &mut r);
    assert(r@ =~= pair_wire((name@, value@)));
    r
}

/// Writes one field for each pair.
fn put_pairs(tag: u32, pairs: &Vec<(String, String)>, buf: &mut Vec<u8>)
    requires
        1 <= tag <= 16,
    ensures
        final(buf)@ == old(buf)@ + repeated(
            tag as nat,
            pair_texts(pairs@).map_values(|p: (Seq<char>, Seq<char>)| pair_wire(p)),
        ),
{
    let ghost start = buf@;
    let ghost items = pair_texts(pairs@).map_values(|p: (Seq<char>, Seq<char>)| pair_wire(p));
    let mut i: usize = 0;
    assert(items.take(0) =~= seq![]);
    assert(buf@ =~= start + repeated(tag as nat, items.take(0)));
    while i < pairs.len()
        invariant
            i <= pairs@.len(),
            1 <= tag <= 16,
            items == pair_texts(pairs@).map_values(|p: (Seq<char>, Seq<char>)| pair_wire(p)),
            buf@ == start + repeated(tag as nat, items.take(i as int)),
        decreases pairs@.len() - i,
    {
        let item = encode_pair(&pairs[i].0, &pairs[i].1);
        put_message(tag, &item, buf);
        proof {
            let next = items.take(i + 1);
            assert(next.drop_last() =~= items.take(i as int));
            assert(next.last() == item@);
            assert(buf@ =~= start + repeated(tag as nat, next));
        }
        i += 1;
    }
    assert(items.take(items.len() as int) =~= items);
}

/// Writes one field for each text.
fn put_texts(tag: u32, values: &Vec<String>, buf: &mut Vec<u8>)
    requires
        1 <= tag <= 16,
    ensures
        final(buf)@ == old(buf)@ + repeated(tag as nat, text_wires(texts(values@))),
{
    let ghost start = buf@;
    let ghost items = text_wires(texts(values@));
    let mut i: usize = 0;
    assert(items.take(0) =~= seq![]);
    assert(buf@ =~= start + repeated(tag as nat, items.take(0)));
    while i < values.len()
        invariant
            i <= values@.len(),
            1 <= tag <= 16,
            items == text_wires(texts(values@)),
            buf@ == start + repeated(tag as nat, items.take(i as int)),
        decreases values@.len() - i,
    {
        put_repeated_text(tag, &values[i], buf);
        proof {
            let next = items.take(i + 1);
            assert(next.drop_last() =~= items.take(i as int));
            assert(next.last() == encode_utf8(values@[i as int]@));
            assert(buf@ =~= start + repeated(tag as nat, next));
        }
        i += 1;
    }
    assert(items.take(items.len() as int) =~= items);
}

/// Encodes a platform.
fn encode_platform(platform: &Vec<(String, String)>) -> (r: Vec<u8>)
    ensures
        r@ == platform_wire(pair_texts(platform@)),
{
    let mut r: Vec<u8> = Vec::new();
    put_pairs(1, platform, &mut r);
    assert(r@ =~= platform_wire(pair_texts(platform@)));
    r
}

impl Command {
    /// The bytes of the message.
    pub fn encode_to_vec(&self) -> (r: Vec<u8>)
        ensures
            r@ == command_wire(self@),
    {
        let mut r: Vec<u8> = Vec::new();
        put_texts(1, &self.arguments, &mut r);
        put_pairs(2, &self.environment_variables, &mut r);
        let platform = encode_platform(&self.platform);
        put_message(5, &platform, &mut r);
        put_text(6, &self.working_directory, &mut r);
        put_texts(7, &self.output_paths, &mut r);
        put_int(9, self.output_directory_format as i64, &mut r);
        assert(r@ =~= command_wire(self@));
        r
    }
}

impl Action {
    /// The bytes of the message.
    pub fn encode_to_vec(&self) -> (r: Vec<u8>)
        ensures
            r@ == action_wire(self@),
    {
        let mut r: Vec<u8> = Vec::new();
        let command = encode_digest(&self.command_digest);
        put_message(1, &command, &mut r);
        let root = encode_digest(&self.input_root_digest);
        put_message(2, &root, &mut r);
        put_bool(7, self.do_not_cache, &mut r);
        let platform = encode_platform(&self.platform);
        put_message(10, &platform, &mut r);
        assert(r@ =~= action_wire(self@));
        r
    }
}

impl FileNode {
    /// The bytes of the message.
    fn encode(&self) -> (r: Vec<u8>)
        ensures
            r@ == file_wire(
                (
                    self.name@,
                    FileView { digest: self.digest@, is_executable: self.is_executable },
                ),
            ),
    {
        let mut r: Vec<u8> = Vec::new();
        put_text(1, &self.name, &mut r);
        let digest = encode_digest(&self.digest);
        put_message(2, &digest, &mut r);
        put_bool(4, self.is_executable, &mut r);
        r
    }
}

impl DirectoryNode {
    /// The bytes of the message.
    fn encode(&self) -> (r: Vec<u8>)
        ensures
            r@ == subdir_wire((self.name@, self.digest@)),
    {
        let mut r: Vec<u8> = Vec::new();
        put_text(1, &self.name, &mut r);
        let digest = encode_digest(&self.digest);
        put_message(2, &digest, &mut r);
        r
    }
}

impl Directory {
    /// Writes the file entries.
    fn put_files(&self, buf: &mut Vec<u8>)
        ensures
            final(buf)@ == old(buf)@ + repeated(
                1,
                self@.files.map_values(|f: (Seq<char>, FileView)| file_wire(f)),
            ),
    {
        let ghost start = buf@;
        let ghost items = self@.files.map_values(|f: (Seq<char>, FileView)| file_wire(f));
        let mut i: usize = 0;
        assert(items.take(0) =~= seq![]);
        assert(buf@ =~= start + repeated(1, items.take(0)));
        while i < self.files.len()
            invariant
                i <= self.files@.len(),
                items == self@.files.map_values(|f: (Seq<char>, FileView)| file_wire(f)),
                buf@ == start + repeated(1, items.take(i as int)),
            decreases self.files@.len() - i,
        {
            let item = self.files[i].encode();
            put_message(1, &item, buf);
            proof {
                let next = items.take(i + 1);
                assert(next.drop_last() =~= items.take(i as int));
                assert(next.last() == item@);
                assert(buf@ =~= start + repeated(1, next));
            }
            i += 1;
        }
        assert(items.take(items.len() as int) =~= items);
    }

    /// Writes the directory entries.
    fn put_directories(&self, buf: &mut Vec<u8>)
        ensures
            final(buf)@ == old(buf)@ + repeated(
                2,
                self@.directories.map_values(|s: (Seq<char>, DigestView)| subdir_wire(s)),
            ),
    {
        let ghost start = buf@;
        let ghost items = self@.directories.map_values(
            |s: (Seq<char>, DigestView)| subdir_wire(s),
        );
        let mut i: usize = 0;
        assert(items.take(0) =~= seq![]);
        assert(buf@ =~= start + repeated(2, items.take(0)));
        while i < self.directories.len()
            invariant
                i <= self.directories@.len(),
                items == self@.directories.map_values(
                    |s: (Seq<char>, DigestView)| subdir_wire(s),
                ),
                buf@ == start + repeated(2, items.take(i as int)),
            decreases self.directories@.len() - i,
        {
            let item = self.directories[i].encode();
            put_message(2, &item, buf);
            proof {
                let next = items.take(i + 1);
                assert(next.drop_last() =~= items.take(i as int));
                assert(next.last() == item@);
                assert(buf@ =~= start + repeated(2, next));
            }
            i += 1;
        }
        assert(items.take(items.len() as int) =~= items);
    }

    /// Writes the symbolic link entries.
    fn put_symlinks(&self, buf: &mut Vec<u8>)
        ensures
            final(buf)@ == old(buf)@ + repeated(
                3,
                self@.symlinks.map_values(|s: (Seq<char>, Seq<char>)| pair_wire(s)),
            ),
    {
        let ghost start = buf@;
        let ghost items = self@.symlinks.map_values(|s: (Seq<char>, Seq<char>)| pair_wire(s));
        let mut i: usize = 0;
        assert(items.take(0) =~= seq![]);
        assert(buf@ =~= start + repeated(3, items.take(0)));
        while i < self.symlinks.len()
            invariant
                i <= self.symlinks@.len(),
                items == self@.symlinks.map_values(|s: (Seq<char>, Seq<char>)| pair_wire(s)),
                buf@ == start + repeated(3, items.take(i as int)),
            decreases self.symlinks@.len() - i,
        {
            let item = encode_pair(&self.symlinks[i].name, &self.symlinks[i].target);
            put_message(3, &item, buf);
            proof {
                let next = items.take(i + 1);
                assert(next.drop_last() =~= items.take(i as int));
                assert(next.last() == item@);
                assert(buf@ =~= start + repeated(3, next));
            }
            i += 1;
        }
        assert(items.take(items.len() as int) =~= items);
    }

    /// The bytes of the message.
    pub fn encode_to_vec(&self) -> (r: Vec<u8>)
        ensures
            r@ == directory_wire(self@),
    {
        let mut r: Vec<u8> = Vec::new();
        self.put_files(&mut r);
        self.put_directories(&mut r);
        self.put_symlinks(&mut r);
        assert(r@ =~= directory_wire(self@));
        r
    }
}

} // verus!
