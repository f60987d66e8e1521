//! Turning a command into an action that the remote side can carry out.
use vstd::prelude::*;

use crate::config::{
    ConfigView, ContextView, Host, HostView, Invocation, InvocationView, RemoteBuildConfig,
    RemoteExecutorContext,
};
use crate::digest::{digest_bytes, digest_of, Digest, DigestView};
use crate::dir_builder::{tree_digest, with_tree, DirModel};
use crate::disk::{Disk, FactView, FsNode, NodeView};
use crate::environment::{
    build_expected_outputs, envs_spelled, outputs_spelled, rewrite_envs,
};
use crate::error::{fail, failure, Error, ErrorView};
use crate::local_path::{parts, LocalPath};
use crate::mapper::{
    fresh, raw_paths, sound, spelled_input, with_path, with_tree_at, MapperView, PathMapper,
    WORKDIR_NAME,
};
use crate::messages::{
    action_wire, command_wire, pair_texts, Action, ActionView, Command, CommandView,
};
use crate::platform::{platform_from_config, platform_of};
use crate::program::{program_path, resolve_program_path};
use crate::rewrite::{command_args, rewrite_args};
use crate::tables::{is_table, pair_paths};
use crate::text::texts;
use crate::tree_laws::{adding_a_tree_keeps_the_set, closed, tree_is_uploaded_whole};
use crate::uploads::{
    blobs, holds, honest, lemma_with_blob, ordered, with_blob, BlobView, DataView, UploadData,
    UploadMap,
};

verus! {

/// Output directories are reported as trees and as directories.
pub const TREE_AND_DIRECTORY: i32 = 2;

/// A command that is ready to be carried out remotely.
#[derive(Debug)]
pub struct PreparedCommand {
    /// The digest of the action.
    pub action_digest: Digest,
    /// The blobs that the remote store has to hold.
    pub uploads: UploadMap,
    /// The outputs by their remote spelling.
    pub expected_outputs: Vec<(String, LocalPath)>,
}

/// The content of a [`PreparedCommand`].
#[verifier::ext_equal]
pub struct PreparedView {
    pub action_digest: DigestView,
    pub uploads: Seq<(DigestView, BlobView)>,
    pub expected_outputs: Seq<(Seq<char>, Seq<u8>)>,
}

impl View for PreparedCommand {
    type V = PreparedView;

    open spec fn view(&self) -> PreparedView {
        PreparedView {
            action_digest: self.action_digest@,
            uploads: blobs(self.uploads@),
            expected_outputs: pair_paths(self.expected_outputs@),
        }
    }
}

/// What the command, the outputs and the inputs of an action are.
#[verifier::ext_equal]
pub struct AssemblyView {
    pub mapping: MapperView,
    pub command: CommandView,
    pub outputs: Seq<(Seq<char>, Seq<u8>)>,
}

/// The names in a table.
pub open spec fn table_names(table: Seq<(Seq<char>, Seq<u8>)>) -> Seq<Seq<char>> {
    table.map_values(|e: (Seq<char>, Seq<u8>)| e.0)
}

/// The path of the compiler, where the command calls the compiler itself.
pub open spec fn compiler_path(
    context: ContextView,
    cmd: InvocationView,
    host: HostView,
    d: Seq<FactView>,
) -> Result<Seq<u8>, ErrorView> {
    match program_path(cmd, host, d, cmd.program) {
        Ok(path) => {
            let expected = match program_path(cmd, host, d, context.rustc_path) {
                Ok(p) => p,
                Err(_) => context.rustc_path,
            };
            if parts(path) == parts(expected) {
                Ok(path)
            } else {
                Err(failure("remote execution only supports direct rustc invocations"@))
            }
        },
        Err(e) => Err(e),
    }
}

/// The command with its arguments, environment and outputs, once the program and the package have
/// been taken in.
pub open spec fn command_assembled(
    m: MapperView,
    cmd: InvocationView,
    outputs: Seq<Seq<u8>>,
    platform: Seq<(Seq<char>, Seq<char>)>,
    d: Seq<FactView>,
    program: Seq<u8>,
) -> Result<AssemblyView, ErrorView> {
    match spelled_input(m, d, program) {
        Err(f) => Err(f.error),
        Ok((m1, word)) => match command_args(m1, d, cmd.args) {
            Err(f) => Err(f.error),
            Ok((m2, args)) => match envs_spelled(m2, d, cmd.envs, seq![]) {
                Err(f) => Err(f.error),
                Ok((m3, envs)) => match outputs_spelled(m3, d, outputs, seq![]) {
                    Err(f) => Err(f.error),
                    Ok((m4, expected)) => Ok(
                        AssemblyView {
                            mapping: m4,
                            command: CommandView {
                                arguments: seq![word] + args,
                                environment_variables: envs,
                                platform,
                                working_directory: WORKDIR_NAME@,
                                output_paths: table_names(expected),
                                output_directory_format: TREE_AND_DIRECTORY,
                            },
                            outputs: expected,
                        },
                    ),
                },
            },
        },
    }
}

/// The package and the program taken in, and the command.
pub open spec fn assembled(
    context: ContextView,
    cmd: InvocationView,
    config: ConfigView,
    host: HostView,
    d: Seq<FactView>,
    package: NodeView,
) -> Result<AssemblyView, ErrorView> {
    match cmd.cwd {
        None => Err(failure("remote execution requires a process cwd"@)),
        Some(cwd) => match compiler_path(context, cmd, host, d) {
            Err(e) => Err(e),
            Ok(program) => {
                let m = fresh(
                    cwd,
                    context.target_dir,
                    context.build_dir,
                    context.sysroot,
                    context.outputs,
                );
                match with_tree_at(m, d, context.package_root, package, true) {
                    Err(f) => Err(f.error),
                    Ok(m1) => match with_path(m1, d, program) {
                        Err(f) => Err(f.error),
                        Ok(m2) => command_assembled(
                            m2,
                            cmd,
                            context.outputs,
                            platform_of(config, host),
                            d,
                            program,
                        ),
                    },
                }
            },
        },
    }
}

/// The action of an assembled command.
pub open spec fn action_of(a: AssemblyView, remote_cache: bool) -> ActionView {
    ActionView {
        command_digest: digest_of(command_wire(a.command)),
        input_root_digest: tree_digest(a.mapping.tree),
        do_not_cache: !remote_cache,
        platform: a.command.platform,
    }
}

/// An assembled command with all that it needs in the upload set: the command, the input tree and
/// the action.
pub open spec fn sealed(a: AssemblyView, remote_cache: bool) -> PreparedView {
    let command = command_wire(a.command);
    let action = action_wire(action_of(a, remote_cache));
    PreparedView {
        action_digest: digest_of(action),
        uploads: with_blob(
            with_tree(
                a.mapping.tree,
                with_blob(a.mapping.uploads, digest_of(command), DataView::Bytes(command)),
            ),
            digest_of(action),
            DataView::Bytes(action),
        ),
        expected_outputs: a.outputs,
    }
}

/// Everything that the action leads to is in the upload set, under its own digest: the action, the
/// command, the directories of the input tree and the files in it.
pub open spec fn complete(
    p: PreparedView,
    action: ActionView,
    command: CommandView,
    t: DirModel,
) -> bool {
    &&& ordered(p.uploads)
    &&& honest(p.uploads)
    &&& p.action_digest == digest_of(action_wire(action))
    &&& action.command_digest == digest_of(command_wire(command))
    &&& action.input_root_digest == tree_digest(t)
    &&& holds(p.uploads, p.action_digest)
    &&& holds(p.uploads, action.command_digest)
    &&& closed(t, p.uploads)
    &&& command.output_paths == table_names(p.expected_outputs)
}

/// A sealed command is complete.
pub proof fn sealed_command_is_complete(a: AssemblyView, remote_cache: bool)
    requires
        sound(a.mapping),
        a.command.output_paths == table_names(a.outputs),
    ensures
        complete(
            sealed(a, remote_cache),
            action_of(a, remote_cache),
            a.command,
            a.mapping.tree,
        ),
{
    let command = command_wire(a.command);
    let action = action_wire(action_of(a, remote_cache));
    let t = a.mapping.tree;
    let u0 = a.mapping.uploads;
    let u1 = with_blob(u0, digest_of(command), DataView::Bytes(command));
    let u2 = with_tree(t, u1);
    let u3 = with_blob(u2, digest_of(action), DataView::Bytes(action));
    lemma_with_blob(u0, digest_of(command), DataView::Bytes(command));
    crate::tree_laws::lemma_files_uploaded_grows(t, u0, u1);
    adding_a_tree_keeps_the_set(t, u1);
    tree_is_uploaded_whole(t, u1);
    lemma_with_blob(u2, digest_of(action), DataView::Bytes(action));
    crate::tree_laws::lemma_closed_grows(t, u2, u3);
}

/// The first components of the pairs.
fn names_of(table: &Vec<(String, LocalPath)>) -> (r: Vec<String>)
    ensures
        texts(r@) == table_names(pair_paths(table@)),
{
    let mut r: Vec<String> = Vec::new();
    let mut i: usize = 0;
    while i < table.len()
        invariant
            i <= table@.len(),
            r@.len() == i,
            forall|j: int| 0 <= j < i ==> (#[trigger] r@[j])@ == table@[j].0@,
        decreases table@.len() - i,
    {
        r.push(table[i].0.clone());
        i += 1;
    }
    assert(texts(r@) =~= table_names(pair_paths(table@)));
    r
}

/// The path of the compiler, where the command calls the compiler itself.
fn resolve_compiler(
    context: &RemoteExecutorContext,
    cmd: &Invocation,
    host: &Host,
    disk: &Disk,
) -> (r: Result<LocalPath, Error>)
    ensures
        match r {
            Ok(path) => compiler_path(context@, cmd@, host@, disk@) == Ok::<Seq<u8>, ErrorView>(
                path@,
            ),
            Err(e) => compiler_path(context@, cmd@, host@, disk@) == Err::<Seq<u8>, ErrorView>(e@),
        },
{
    let path = match resolve_program_path(cmd, host, disk, &cmd.program) {
        Ok(path) => path,
        Err(e) => {
            return Err(e);
        },
    };
    let expected = match resolve_program_path(cmd, host, disk, &context.rustc_path) {
        Ok(p) => p,
        Err(_) => context.rustc_path.clone(),
    };
    if path.same_path(&expected) {
        Ok(path)
    } else {
        Err(fail("remote execution only supports direct rustc invocations"))
    }
}

/// The command with its arguments, environment and outputs.
fn assemble_command(
    mapper: &mut PathMapper,
    cmd: &Invocation,
    outputs: &Vec<LocalPath>,
    platform: Vec<(String, String)>,
    disk: &Disk,
    program: &LocalPath,
) -> (r: Result<(Command, Vec<(String, LocalPath)>), Error>)
    requires
        sound(old(mapper)@),
    ensures
        match (
            r,
            command_assembled(
                old(mapper)@,
                cmd@,
                raw_paths(outputs@),
                pair_texts(platform@),
                disk@,
                program@,
            ),
        ) {
            (Ok((command, table)), Ok(a)) => a == (AssemblyView {
                mapping: final(mapper)@,
                command: command@,
                outputs: pair_paths(table@),
            }) && is_table(a.outputs) && is_table(a.command.environment_variables),
            (Err(e), Err(f)) => e@ == f,
            _ => false,
        },
        sound(final(mapper)@),
{
    let word = match mapper.map_input_command_path(program, disk) {
        Ok(word) => word,
        Err(e) => {
            return Err(e);
        },
    };
    let args = match rewrite_args(mapper, disk, &cmd.args) {
        Ok(args) => args,
        Err(e) => {
            return Err(e);
        },
    };
    let environment_variables = match rewrite_envs(mapper, disk, &cmd.envs) {
        Ok(envs) => envs,
        Err(e) => {
            return Err(e);
        },
    };
    let table = match build_expected_outputs(mapper, disk, outputs) {
        Ok(table) => table,
        Err(e) => {
            return Err(e);
        },
    };
    let ghost words = args@;
    let mut args = args;
    let mut arguments: Vec<String> = Vec::new();
    arguments.push(word);
    arguments.append(&mut args);
    assert(texts(arguments@) =~= seq![word@] + texts(words));
    let command = Command {
        arguments,
        environment_variables,
        platform,
        working_directory: WORKDIR_NAME.to_owned(),
        output_paths: names_of(&table),
        output_directory_format: TREE_AND_DIRECTORY,
    };
    Ok((command, table))
}

impl PreparedCommand {
    /// Makes a command ready to be carried out remotely. `disk` is what is known of the local file
    /// system, and `package` what stands below the root of the package.
    pub fn new(
        context: &RemoteExecutorContext,
        cmd: &Invocation,
        config: &RemoteBuildConfig,
        host: &Host,
        disk: &Disk,
        package: &FsNode,
    ) -> (r: Result<PreparedCommand, Error>)
        ensures
            match (r, assembled(context@, cmd@, config@, host@, disk@, package.model())) {
                (Ok(p), Ok(a)) => {
                    &&& p@ == sealed(a, config.remote_cache)
                    &&& is_table(p@.expected_outputs)
                    &&& is_table(a.command.environment_variables)
                    &&& complete(
                        p@,
                        action_of(a, config.remote_cache),
                        a.command,
                        a.mapping.tree,
                    )
                },
                (Err(e), Err(f)) => e@ == f,
                _ => false,
            },
    {
        let cwd = match &cmd.cwd {
            Some(cwd) => cwd.clone(),
            None => {
                return Err(fail("remote execution requires a process cwd"));
            },
        };
        let program = match resolve_compiler(context, cmd, host, disk) {
            Ok(program) => program,
            Err(e) => {
                return Err(e);
            },
        };
        let mut mapper = PathMapper::new(
            cwd,
            context.target_dir.clone(),
            context.build_dir.clone(),
            context.sysroot.clone(),
            copy_paths(&context.outputs),
        );
        if let Err(e) = mapper.add_package_tree(&context.package_root, package, disk) {
            return Err(e);
        }
        if let Err(e) = mapper.add_input_path(&program, disk) {
            return Err(e);
        }
        let platform = platform_from_config(config, host);
        let (command, expected_outputs) = match assemble_command(
            &mut mapper,
            cmd,
            &context.outputs,
            platform,
            disk,
            &program,
        ) {
            Ok(made) => made,
            Err(e) => {
                return Err(e);
            },
        };
        let ghost a = AssemblyView {
            mapping: mapper@,
            command: command@,
            outputs: pair_paths(expected_outputs@),
        };
        proof {
            sealed_command_is_complete(a, config.remote_cache);
            lemma_with_blob(
                a.mapping.uploads,
                digest_of(command_wire(a.command)),
                DataView::Bytes(command_wire(a.command)),
            );
            crate::tree_laws::lemma_files_uploaded_grows(
                a.mapping.tree,
                a.mapping.uploads,
                with_blob(
                    a.mapping.uploads,
                    digest_of(command_wire(a.command)),
                    DataView::Bytes(command_wire(a.command)),
                ),
            );
        }
        let command_bytes = command.encode_to_vec();
        let command_digest = digest_bytes(command_bytes.as_slice());
        mapper.add_blob(command_digest.clone(), UploadData::Bytes(command_bytes));
        let input_root_digest = mapper.root_digest();
        let action = Action {
            command_digest,
            input_root_digest,
            do_not_cache: !config.remote_cache,
            platform: platform_from_config(config, host),
        };
        assert(action@ =~= action_of(a, config.remote_cache));
        let action_bytes = action.encode_to_vec();
        let action_digest = digest_bytes(action_bytes.as_slice());
        mapper.add_blob(action_digest.clone(), UploadData::Bytes(action_bytes));
        Ok(PreparedCommand { action_digest, uploads: mapper.uploads, expected_outputs })
    }
}

/// A copy of paths.
fn copy_paths(paths: &Vec<LocalPath>) -> (r: Vec<LocalPath>)
    ensures
        raw_paths(r@) == raw_paths(paths@),
{
    let mut r: Vec<LocalPath> = Vec::new();
    let mut i: usize = 0;
    while i < paths.len()
        invariant
            i <= paths@.len(),
            r@.len() == i,
            forall|j: int| 0 <= j < i ==> (#[trigger] r@[j])@ == paths@[j]@,
        decreases paths@.len() - i,
    {
        r.push(paths[i].clone());
        i += 1;
    }
    assert(raw_paths(r@) =~= raw_paths(paths@));
    r
}

} // verus!
