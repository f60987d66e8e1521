//! Finding the program that a command means.
use vstd::prelude::*;

use crate::config::{Host, HostView, Invocation, InvocationView};
use crate::disk::{regular_at, Disk, FactView};
use crate::error::{fail, failure, Error, ErrorView};
use crate::local_path::{
    copy_bytes, extended, from_utf8_lossy, joined_path, lossy_text, parts, slice_bytes, LocalPath,
};
use crate::mapper::{quote, quoting, raw_paths};
use crate::os_text::OsView;
use crate::text::{lemma_first_index_is, pieces, same_text};

verus! {

/// The byte between the paths of a search path.
pub const PATH_SEP: u8 = 58;

/// The value that a command sets for a variable.
pub open spec fn env_named(envs: Seq<(Seq<char>, Option<OsView>)>, name: Seq<char>) -> Option<
    OsView,
>
    decreases envs.len(),
{
    if envs.len() == 0 {
        None
    } else if envs[0].0 == name {
        envs[0].1
    } else {
        env_named(envs.skip(1), name)
    }
}

/// The search path for programs: that of the command, or the one this program was started with.
pub open spec fn search_path(cmd: InvocationView, host: HostView) -> Option<Seq<u8>> {
    match env_named(cmd.envs, "PATH"@) {
        Some(value) => Some(value.raw),
        None => host.path,
    }
}

/// Where a program can be in a directory: under its name, and under its name with the extension of
/// programs where they have one.
pub open spec fn candidates_in(dir: Seq<u8>, program: Seq<u8>, extension: Seq<u8>) -> Seq<Seq<u8>> {
    if extension.len() == 0 {
        seq![joined_path(dir, program)]
    } else {
        seq![joined_path(dir, program), extended(joined_path(dir, program), extension)]
    }
}

/// Where a program can be in the directories, in the order of these.
pub open spec fn candidates(
    dirs: Seq<Seq<u8>>,
    program: Seq<u8>,
    extension: Seq<u8>,
) -> Seq<Seq<u8>>
    decreases dirs.len(),
{
    if dirs.len() == 0 {
        seq![]
    } else {
        candidates_in(dirs[0], program, extension) + candidates(dirs.skip(1), program, extension)
    }
}

/// Where a program can be, where there is a search path.
pub open spec fn program_candidates(
    cmd: InvocationView,
    host: HostView,
    program: Seq<u8>,
) -> Option<Seq<Seq<u8>>> {
    match search_path(cmd, host) {
        Some(raw) => Some(candidates(pieces(raw, PATH_SEP), program, host.exe_extension)),
        None => None,
    }
}

/// The first of the paths at which there is a file.
pub open spec fn first_file(d: Seq<FactView>, paths: Seq<Seq<u8>>) -> Option<Seq<u8>>
    decreases paths.len(),
{
    if paths.len() == 0 {
        None
    } else if regular_at(d, paths[0]) {
        Some(paths[0])
    } else {
        first_file(d, paths.skip(1))
    }
}

/// The path of a program: a program with more than one component is a path already, and a single
/// name is looked up in the search path.
pub open spec fn program_path(
    cmd: InvocationView,
    host: HostView,
    d: Seq<FactView>,
    program: Seq<u8>,
) -> Result<Seq<u8>, ErrorView> {
    if parts(program).len() > 1 {
        Ok(program)
    } else {
        match program_candidates(cmd, host, program) {
            Some(paths) => match first_file(d, paths) {
                Some(path) => Ok(path),
                None => Err(
                    failure(
                        quoting("no executable for "@, lossy_text(program)) + " found in PATH"@,
                    ),
                ),
            },
            None => Err(
                failure("remote execution requires a PATH to resolve tool executables"@),
            ),
        }
    }
}

/// The paths in a search path.
fn split_search_path(raw: &Vec<u8>) -> (r: Vec<LocalPath>)
    ensures
        raw_paths(r@) == pieces(raw@, PATH_SEP),
{
    let mut r: Vec<LocalPath> = Vec::new();
    let mut start: usize = 0;
    let mut i: usize = 0;
    assert(raw_paths(r@) + pieces(raw@, PATH_SEP) =~= pieces(raw@, PATH_SEP));
    assert(raw@.skip(0) =~= raw@);
    while i < raw.len()
        invariant
            start <= i <= raw@.len(),
            forall|j: int| start <= j < i ==> raw@[j] != PATH_SEP,
            raw_paths(r@) + pieces(raw@.skip(start as int), PATH_SEP) == pieces(raw@, PATH_SEP),
        decreases raw@.len() - i,
    {
        if raw[i] == PATH_SEP {
            let piece = LocalPath { raw: slice_bytes(raw, start, i) };
            proof {
                let tail = raw@.skip(start as int);
                lemma_first_index_is(tail, PATH_SEP, i - start);
                assert(piece@ =~= tail.take(i - start));
                assert(tail.skip(i - start + 1) =~= raw@.skip(i + 1));
                assert(raw_paths(r@.push(piece)) =~= raw_paths(r@).push(piece@));
                assert(raw_paths(r@.push(piece)) + pieces(raw@.skip(i + 1), PATH_SEP) =~= raw_paths(
                    r@,
                ) + (seq![piece@] + pieces(raw@.skip(i + 1), PATH_SEP)));
            }
            r.push(piece);
            start = i + 1;
        }
        i += 1;
    }
    let piece = LocalPath { raw: slice_bytes(raw, start, raw.len()) };
    proof {
        let tail = raw@.skip(start as int);
        lemma_first_index_is(tail, PATH_SEP, tail.len() as int);
        assert(piece@ =~= tail);
        assert(raw_paths(r@.push(piece)) =~= raw_paths(r@) + seq![piece@]);
    }
    r.push(piece);
    r
}

/// The bytes that a command sets for a variable.
fn env_bytes(cmd: &Invocation, name: &str) -> (r: Option<Vec<u8>>)
    ensures
        match (r, env_named(cmd@.envs, name@)) {
            (Some(raw), Some(value)) => raw@ == value.raw,
            (None, None) => true,
            _ => false,
        },
{
    let mut i: usize = 0;
    assert(cmd@.envs.skip(0) =~= cmd@.envs);
    while i < cmd.envs.len()
        invariant
            i <= cmd.envs@.len(),
            env_named(cmd@.envs, name@) == env_named(cmd@.envs.skip(i as int), name@),
        decreases cmd.envs@.len() - i,
    {
        assert(cmd@.envs.skip(i as int)[0] == cmd@.envs[i as int]);
        assert(cmd@.envs.skip(i as int).skip(1) =~= cmd@.envs.skip(i + 1));
        if same_text(cmd.envs[i].0.as_str(), name) {
            return match &cmd.envs[i].1 {
                Some(value) => Some(copy_bytes(value.raw.as_slice())),
                None => None,
            };
        }
        i += 1;
    }
    None
}

/// The directories that programs are looked up in.
fn search_dirs(cmd: &Invocation, host: &Host) -> (r: Option<Vec<LocalPath>>)
    ensures
        match (r, search_path(cmd@, host@)) {
            (Some(dirs), Some(raw)) => raw_paths(dirs@) == pieces(raw, PATH_SEP),
            (None, None) => true,
            _ => false,
        },
{
    let explicit = env_bytes(cmd, "PATH");
    match (&explicit, &host.path) {
        (Some(raw), _) => Some(split_search_path(raw)),
        (None, Some(raw)) => Some(split_search_path(raw)),
        (None, None) => None,
    }
}

/// Where a program can be, where there is a search path.
pub fn candidate_paths(cmd: &Invocation, host: &Host, program: &LocalPath) -> (r: Option<
    Vec<LocalPath>,
>)
    ensures
        match (r, program_candidates(cmd@, host@, program@)) {
            (Some(paths), Some(p)) => raw_paths(paths@) == p,
            (None, None) => true,
            _ => false,
        },
{
    let dirs = match search_dirs(cmd, host) {
        Some(dirs) => dirs,
        None => {
            return None;
        },
    };
    let ghost all = raw_paths(dirs@);
    let ghost ext = host@.exe_extension;
    let mut r: Vec<LocalPath> = Vec::new();
    let mut i: usize = 0;
    assert(all.skip(0) =~= all);
    assert(raw_paths(r@) + candidates(all, program@, ext) =~= candidates(all, program@, ext));
    while i < dirs.len()
        invariant
            i <= dirs@.len(),
            all == raw_paths(dirs@),
            ext == host@.exe_extension,
            candidates(all, program@, ext) == raw_paths(r@) + candidates(
                all.skip(i as int),
                program@,
                ext,
            ),
        decreases dirs@.len() - i,
    {
        let ghost before = raw_paths(r@);
        let candidate = dirs[i].join(program);
        if host.exe_extension.len() == 0 {
            r.push(candidate);
        } else {
            let with_exe = candidate.with_extension(&host.exe_extension);
            r.push(candidate);
            r.push(with_exe);
        }
        proof {
            let now = candidates_in(dirs@[i as int]@, program@, ext);
            let later = candidates(all.skip(i + 1), program@, ext);
            assert(all.skip(i as int)[0] == dirs@[i as int]@);
            assert(all.skip(i as int).skip(1) =~= all.skip(i + 1));
            assert(raw_paths(r@) =~= before + now);
            assert(before + (now + later) =~= before + now + later);
        }
        i += 1;
    }
    assert(raw_paths(r@) + seq![] =~= raw_paths(r@));
    Some(r)
}

/// The path of a program.
pub fn resolve_program_path(
    cmd: &Invocation,
    host: &Host,
    disk: &Disk,
    program: &LocalPath,
) -> (r: Result<LocalPath, Error>)
    ensures
        match r {
            Ok(path) => program_path(cmd@, host@, disk@, program@) == Ok::<Seq<u8>, ErrorView>(
                path@,
            ),
            Err(e) => program_path(cmd@, host@, disk@, program@) == Err::<Seq<u8>, ErrorView>(e@),
        },
{
    if program.components().len() > 1 {
        return Ok(program.clone());
    }
    let paths = match candidate_paths(cmd, host, program) {
        Some(paths) => paths,
        None => {
            return Err(fail("remote execution requires a PATH to resolve tool executables"));
        },
    };
    let ghost all = raw_paths(paths@);
    let mut i: usize = 0;
    assert(all.skip(0) =~= all);
    while i < paths.len()
        invariant
            i <= paths@.len(),
            all == raw_paths(paths@),
            first_file(disk@, all) == first_file(disk@, all.skip(i as int)),
            parts(program@).len() <= 1,
            program_candidates(cmd@, host@, program@) == Some(all),
        decreases paths@.len() - i,
    {
        assert(all.skip(i as int)[0] == paths@[i as int]@);
        assert(all.skip(i as int).skip(1) =~= all.skip(i + 1));
        if disk.is_file(&paths[i]) {
            return Ok(paths[i].clone());
        }
        i += 1;
    }
    let text = from_utf8_lossy(program.raw.as_slice());
    let message = quote("no executable for ", text.as_str()).concat(" found in PATH");
    Err(fail(message.as_str()))
}

} // verus!
