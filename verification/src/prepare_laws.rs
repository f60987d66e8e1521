//! What a command is prepared from, and how it ends.
use vstd::prelude::*;

use crate::argument_laws::spelling;
use crate::config::{ConfigView, ContextView, HostView, InvocationView};
use crate::digest::digest_of;
use crate::digits::signed_decimal;
use crate::dir_builder::tree_view;
use crate::disk::{node_at, regular_at, FactView, NodeView};
use crate::environment::{envs_spelled, outputs_spelled};
use crate::error::{failure, failure_by, ErrorView};
use crate::execution::RemoteResultView;
use crate::executor::{conclusion_of, ConclusionView};
use crate::input_laws::{
    input_stands, input_stands_where_it_is_spelled, package_stands, package_stands_at_its_root,
    tidy,
};
use crate::local_path::{extended, joined_path, lossy_text, parts};
use crate::mapper::{
    fresh, lemma_fresh_is_sound, sound, spelled_input, with_path, with_tree_at, Fault, MapperView,
};
use crate::mapper_laws::input_grows;
use crate::messages::{action_wire, command_wire, directory_wire, ActionView};
use crate::metadata::{
    entry_name, headers_are_carried, is_name_char, is_value, last_header, metadata_of, with_headers,
};
use crate::os_text::OsView;
use crate::path_laws::lemma_pieces_of_joined;
use crate::platform::{last_value, platform_of, settings_override_the_host};
use crate::prepare::{assembled, compiler_path, sealed, AssemblyView};
use crate::program::{candidates, env_named, first_file, program_path, search_path};
use crate::rewrite::command_args;
use crate::rewrite_laws::lemma_input_advances;
use crate::sorted::lookup;
use crate::text::joined;

verus! {

/// The first entry for a variable decides its value.
pub proof fn first_setting_decides(envs: Seq<(Seq<char>, Option<OsView>)>, name: Seq<char>, i: int)
    requires
        0 <= i <= envs.len(),
        forall|j: int| 0 <= j < i ==> (#[trigger] envs[j]).0 != name,
        i < envs.len() ==> envs[i].0 == name,
    ensures
        i < envs.len() ==> env_named(envs, name) == envs[i].1,
        i == envs.len() ==> env_named(envs, name) is None,
    decreases envs.len(),
{
    if i > 0 {
        let rest = envs.skip(1);
        assert(envs[0].0 != name);
        assert forall|j: int| 0 <= j < i - 1 implies (#[trigger] rest[j]).0 != name by {
            assert(rest[j] == envs[j + 1]);
        }
        first_setting_decides(rest, name, i - 1);
    }
}

/// The programs are searched for where the command says, and where the command does not say, where
/// this program was told to.
pub proof fn command_decides_where_to_search(cmd: InvocationView, host: HostView, i: int)
    requires
        0 <= i <= cmd.envs.len(),
        forall|j: int| 0 <= j < i ==> (#[trigger] cmd.envs[j]).0 != "PATH"@,
        i < cmd.envs.len() ==> cmd.envs[i].0 == "PATH"@,
    ensures
        i < cmd.envs.len() ==> (cmd.envs[i].1 matches Some(value) ==> search_path(cmd, host)
            == Some(value.raw)),
        i == cmd.envs.len() || cmd.envs[i].1 is None ==> search_path(cmd, host) == host.path,
{
    first_setting_decides(cmd.envs, "PATH"@, i);
}

proof fn lemma_first_file(d: Seq<FactView>, paths: Seq<Seq<u8>>, k: int)
    requires
        0 <= k <= paths.len(),
        forall|j: int| 0 <= j < k ==> !regular_at(d, #[trigger] paths[j]),
        k < paths.len() ==> regular_at(d, paths[k]),
    ensures
        first_file(d, paths) == (if k < paths.len() {
            Some(paths[k])
        } else {
            None
        }),
    decreases paths.len(),
{
    if k > 0 {
        let rest = paths.skip(1);
        assert(!regular_at(d, paths[0]));
        assert forall|j: int| 0 <= j < k - 1 implies !regular_at(d, #[trigger] rest[j]) by {
            assert(rest[j] == paths[j + 1]);
        }
        lemma_first_file(d, rest, k - 1);
    }
}

proof fn lemma_single_candidates(dirs: Seq<Seq<u8>>, program: Seq<u8>)
    ensures
        candidates(dirs, program, seq![]).len() == dirs.len(),
        forall|i: int|
            0 <= i < dirs.len() ==> #[trigger] candidates(dirs, program, seq![])[i] == joined_path(
                dirs[i],
                program,
            ),
    decreases dirs.len(),
{
    if dirs.len() > 0 {
        let rest = dirs.skip(1);
        lemma_single_candidates(rest, program);
        let all = candidates(dirs, program, seq![]);
        assert forall|i: int| 0 <= i < dirs.len() implies #[trigger] all[i] == joined_path(
            dirs[i],
            program,
        ) by {
            if i > 0 {
                assert(all[i] == candidates(rest, program, seq![])[i - 1]);
                assert(rest[i - 1] == dirs[i]);
            }
        }
    }
}

proof fn lemma_double_candidates(dirs: Seq<Seq<u8>>, program: Seq<u8>, extension: Seq<u8>)
    requires
        extension.len() > 0,
    ensures
        candidates(dirs, program, extension).len() == 2 * dirs.len(),
        forall|i: int|
            #![trigger dirs[i]]
            0 <= i < dirs.len() ==> candidates(dirs, program, extension)[2 * i] == joined_path(
                dirs[i],
                program,
            ) && candidates(dirs, program, extension)[2 * i + 1] == extended(
                joined_path(dirs[i], program),
                extension,
            ),
    decreases dirs.len(),
{
    if dirs.len() > 0 {
        let rest = dirs.skip(1);
        lemma_double_candidates(rest, program, extension);
        let all = candidates(dirs, program, extension);
        let tail = candidates(rest, program, extension);
        assert forall|i: int|
            #![trigger dirs[i]]
            0 <= i < dirs.len() implies all[2 * i] == joined_path(dirs[i], program) && all[2 * i
            + 1] == extended(joined_path(dirs[i], program), extension) by {
            if i > 0 {
                assert(rest[i - 1] == dirs[i]);
                assert(all[2 * i] == tail[2 * (i - 1)]);
                assert(all[2 * i + 1] == tail[2 * (i - 1) + 1]);
            }
        }
    }
}

/// A program with more than one component is a path already.
pub proof fn program_with_components_is_a_path(
    cmd: InvocationView,
    host: HostView,
    d: Seq<FactView>,
    program: Seq<u8>,
)
    requires
        parts(program).len() > 1,
    ensures
        program_path(cmd, host, d, program) == Ok::<Seq<u8>, ErrorView>(program),
{
}

/// A program is the file of that name in the first directory of the search path that has one, and
/// there is none where no directory has one.
pub proof fn program_is_the_first_on_the_search_path(
    cmd: InvocationView,
    host: HostView,
    d: Seq<FactView>,
    program: Seq<u8>,
    dirs: Seq<Seq<u8>>,
    k: int,
)
    requires
        parts(program).len() <= 1,
        host.exe_extension.len() == 0,
        dirs.len() > 0,
        forall|i: int| 0 <= i < dirs.len() ==> !(#[trigger] dirs[i]).contains(58u8),
        search_path(cmd, host) == Some(joined(dirs, seq![58u8])),
        0 <= k <= dirs.len(),
        forall|i: int| 0 <= i < k ==> !regular_at(d, joined_path(#[trigger] dirs[i], program)),
        k < dirs.len() ==> regular_at(d, joined_path(dirs[k], program)),
    ensures
        program_path(cmd, host, d, program) == (if k < dirs.len() {
            Ok(joined_path(dirs[k], program))
        } else {
            Err(failure("no executable for "@ + "`"@ + lossy_text(program) + "`"@ + " found in PATH"@))
        }),
{
    lemma_pieces_of_joined(dirs, 58u8);
    lemma_single_candidates(dirs, program);
    assert(host.exe_extension =~= seq![]);
    let paths = candidates(dirs, program, host.exe_extension);
    assert forall|j: int| 0 <= j < k implies !regular_at(d, #[trigger] paths[j]) by {
        assert(paths[j] == joined_path(dirs[j], program));
    }
    lemma_first_file(d, paths, k);
}

/// Where programs have an extension, a file with it is taken where its directory has none without.
pub proof fn program_can_have_its_extension(
    cmd: InvocationView,
    host: HostView,
    d: Seq<FactView>,
    program: Seq<u8>,
    dirs: Seq<Seq<u8>>,
    k: int,
)
    requires
        parts(program).len() <= 1,
        host.exe_extension.len() > 0,
        forall|i: int| 0 <= i < dirs.len() ==> !(#[trigger] dirs[i]).contains(58u8),
        search_path(cmd, host) == Some(joined(dirs, seq![58u8])),
        0 <= k < dirs.len(),
        forall|i: int|
            0 <= i < k ==> !regular_at(d, joined_path(#[trigger] dirs[i], program)) && !regular_at(
                d,
                extended(joined_path(dirs[i], program), host.exe_extension),
            ),
    ensures
        regular_at(d, joined_path(dirs[k], program)) ==> program_path(cmd, host, d, program) == Ok::<
            Seq<u8>,
            ErrorView,
        >(joined_path(dirs[k], program)),
        !regular_at(d, joined_path(dirs[k], program)) && regular_at(
            d,
            extended(joined_path(dirs[k], program), host.exe_extension),
        ) ==> program_path(cmd, host, d, program) == Ok::<Seq<u8>, ErrorView>(
            extended(joined_path(dirs[k], program), host.exe_extension),
        ),
{
    let extension = host.exe_extension;
    lemma_pieces_of_joined(dirs, 58u8);
    lemma_double_candidates(dirs, program, extension);
    let paths = candidates(dirs, program, extension);
    assert(paths[2 * k] == joined_path(dirs[k], program));
    assert forall|j: int| 0 <= j < 2 * k implies !regular_at(d, #[trigger] paths[j]) by {
        let i = j / 2;
        assert(0 <= i < k);
        assert(!regular_at(d, joined_path(dirs[i], program)));
        assert(j == 2 * i || j == 2 * i + 1);
    }
    if regular_at(d, joined_path(dirs[k], program)) {
        lemma_first_file(d, paths, 2 * k);
    } else if regular_at(d, extended(joined_path(dirs[k], program), extension)) {
        assert forall|j: int| 0 <= j < 2 * k + 1 implies !regular_at(d, #[trigger] paths[j]) by {
            if j == 2 * k {
                assert(paths[j] == joined_path(dirs[k], program));
            }
        }
        lemma_first_file(d, paths, 2 * k + 1);
    }
}

/// Without a search path a single name is not found.
pub proof fn search_needs_a_path(
    cmd: InvocationView,
    host: HostView,
    d: Seq<FactView>,
    program: Seq<u8>,
)
    requires
        parts(program).len() <= 1,
        search_path(cmd, host) is None,
    ensures
        program_path(cmd, host, d, program) == Err::<Seq<u8>, ErrorView>(
            failure("remote execution requires a PATH to resolve tool executables"@),
        ),
{
}

/// Only the compiler itself is called: a command that calls it by the name that the build has for
/// it is accepted, and one whose program is another is not. A command without a working directory
/// is not accepted either.
pub proof fn only_the_compiler_is_called(
    context: ContextView,
    cmd: InvocationView,
    config: ConfigView,
    host: HostView,
    d: Seq<FactView>,
    package: NodeView,
)
    ensures
        cmd.program == context.rustc_path ==> compiler_path(context, cmd, host, d) == program_path(
            cmd,
            host,
            d,
            cmd.program,
        ),
        parts(cmd.program).len() > 1 && parts(context.rustc_path).len() > 1 ==> (compiler_path(
            context,
            cmd,
            host,
            d,
        ) is Ok <==> parts(cmd.program) == parts(context.rustc_path)),
        parts(cmd.program).len() > 1 && parts(context.rustc_path).len() > 1 && parts(cmd.program)
            != parts(context.rustc_path) && cmd.cwd is Some ==> assembled(
            context,
            cmd,
            config,
            host,
            d,
            package,
        ) == Err::<AssemblyView, ErrorView>(
            failure("remote execution only supports direct rustc invocations"@),
        ),
        cmd.cwd is None ==> assembled(context, cmd, config, host, d, package) == Err::<
            AssemblyView,
            ErrorView,
        >(failure("remote execution requires a process cwd"@)),
        compiler_path(context, cmd, host, d) matches Ok(path) ==> program_path(
            cmd,
            host,
            d,
            cmd.program,
        ) == Ok::<Seq<u8>, ErrorView>(path),
{
}

/// The stages of the preparation of a command: the mapping before anything is taken in, with the
/// package, with the program, with the program once more for its spelling, with the arguments and
/// with the environment.
pub struct Stages {
    pub start: MapperView,
    pub package: MapperView,
    pub program: MapperView,
    pub spelled: MapperView,
    pub args: MapperView,
    pub envs: MapperView,
}

/// The command was prepared through these stages, for the program at this path.
pub open spec fn prepared_through(
    context: ContextView,
    cmd: InvocationView,
    d: Seq<FactView>,
    package: NodeView,
    a: AssemblyView,
    program: Seq<u8>,
    s: Stages,
) -> bool {
    &&& cmd.cwd matches Some(cwd) && s.start == fresh(
        cwd,
        context.target_dir,
        context.build_dir,
        context.sysroot,
        context.outputs,
    )
    &&& package_stands(s.start, d, context.package_root, package, s.package)
    &&& input_stands(s.package, d, program, s.program)
    &&& input_stands(s.program, d, program, s.spelled)
    &&& command_args(s.spelled, d, cmd.args) matches Ok((args, words)) && args == s.args
        && a.command.arguments == seq![spelling(s.program, d, program)] + words
    &&& envs_spelled(s.args, d, cmd.envs, seq![]) == Ok::<
        (MapperView, Seq<(Seq<char>, Seq<char>)>),
        Fault,
    >((s.envs, a.command.environment_variables))
    &&& outputs_spelled(s.envs, d, context.outputs, seq![]) == Ok::<
        (MapperView, Seq<(Seq<char>, Seq<u8>)>),
        Fault,
    >((a.mapping, a.outputs))
}

/// A prepared command has its package and its program taken in, calls the program by its spelling,
/// with its arguments, environment and outputs, in the remote working directory, on a machine with
/// the properties that the settings and this machine give.
pub proof fn command_has_what_it_needs(
    context: ContextView,
    cmd: InvocationView,
    config: ConfigView,
    host: HostView,
    d: Seq<FactView>,
    package: NodeView,
    program: Seq<u8>,
    name: Seq<char>,
) -> (s: Stages)
    requires
        tidy(package),
        tidy(node_at(d, program)),
        program_path(cmd, host, d, cmd.program) == Ok::<Seq<u8>, ErrorView>(program),
    ensures
        assembled(context, cmd, config, host, d, package) matches Ok(a) ==> {
            &&& prepared_through(context, cmd, d, package, a, program, s)
            &&& a.command.working_directory == "workspace"@
            &&& a.command.output_paths.len() == a.outputs.len()
            &&& forall|i: int|
                0 <= i < a.outputs.len() ==> #[trigger] a.command.output_paths[i] == a.outputs[i].0
            &&& a.command.output_directory_format == 2
            &&& last_value(config.exec_properties, name) matches Some(value) ==> lookup::<
                String,
                Seq<char>,
            >(a.command.platform, name) == Some(value)
        },
{
    let cwd = match cmd.cwd {
        Some(cwd) => cwd,
        None => seq![],
    };
    let start = fresh(
        cwd,
        context.target_dir,
        context.build_dir,
        context.sysroot,
        context.outputs,
    );
    lemma_fresh_is_sound(
        cwd,
        context.target_dir,
        context.build_dir,
        context.sysroot,
        context.outputs,
    );
    settings_override_the_host(config, host, name);
    if let Ok(a) = assembled(context, cmd, config, host, d, package) {
        package_stands_at_its_root(start, d, context.package_root, package);
        input_grows(start, d, context.package_root, package, true);
        let m1 = with_tree_at(start, d, context.package_root, package, true)->Ok_0;
        input_stands_where_it_is_spelled(m1, d, program);
        input_grows(m1, d, program, node_at(d, program), false);
        lemma_input_advances(m1, d, program);
        let m2 = with_path(m1, d, program)->Ok_0;
        lemma_spelled_is_asked(m1, d, program);
        input_stands_where_it_is_spelled(m2, d, program);
        let m3 = (spelled_input(m2, d, program)->Ok_0).0;
        let m4 = (command_args(m3, d, cmd.args)->Ok_0).0;
        let m5 = (envs_spelled(m4, d, cmd.envs, seq![])->Ok_0).0;
        Stages { start, package: m1, program: m2, spelled: m3, args: m4, envs: m5 }
    } else {
        Stages { start, package: start, program: start, spelled: start, args: start, envs: start }
    }
}

/// The spelling of an input changes nothing that the taking in has not.
proof fn lemma_spelled_is_asked(m: MapperView, d: Seq<FactView>, path: Seq<u8>)
    requires
        sound(m),
        tidy(node_at(d, path)),
    ensures
        with_path(m, d, path) matches Ok(n) ==> input_stands(m, d, path, n),
{
    input_stands_where_it_is_spelled(m, d, path);
    crate::mapper_laws::input_is_spelled_by_its_place(m, d, path);
}

/// An action leads to its command and its input tree, and says whether its result may be kept.
pub proof fn action_is_about_its_command(a: AssemblyView, remote_cache: bool)
    ensures
        sealed(a, remote_cache).action_digest == digest_of(
            action_wire(
                ActionView {
                    command_digest: digest_of(command_wire(a.command)),
                    input_root_digest: digest_of(directory_wire(tree_view(a.mapping.tree))),
                    do_not_cache: !remote_cache,
                    platform: a.command.platform,
                },
            ),
        ),
        sealed(a, remote_cache).expected_outputs == a.outputs,
{
}

/// The properties of this machine have the names that the remote service has for them.
pub proof fn machine_has_its_remote_name(config: ConfigView, host: HostView)
    ensures
        last_value(config.exec_properties, "OSFamily"@) is None ==> lookup::<String, Seq<char>>(
            platform_of(config, host),
            "OSFamily"@,
        ) == Some(
            if host.os == "macos"@ {
                "darwin"@
            } else {
                host.os
            },
        ),
        last_value(config.exec_properties, "Arch"@) is None ==> lookup::<String, Seq<char>>(
            platform_of(config, host),
            "Arch"@,
        ) == Some(
            if host.arch == "x86_64"@ {
                "amd64"@
            } else if host.arch == "aarch64"@ {
                "arm64"@
            } else {
                host.arch
            },
        ),
{
    settings_override_the_host(config, host, "OSFamily"@);
    settings_override_the_host(config, host, "Arch"@);
    reveal_strlit("OSFamily");
    reveal_strlit("Arch");
}

/// A command succeeded where the service reports no failure and its exit code is zero; a failure of
/// the service goes before the exit code.
pub proof fn success_needs_both(r: RemoteResultView)
    ensures
        conclusion_of(r) is Success <==> r.exit_code == 0 && (r.status matches Some(status)
            ==> status.code == 0),
        r.status matches Some(status) ==> (status.code != 0 ==> conclusion_of(r)
            == ConclusionView::Refused(
            failure(
                "remote execution failed with status "@ + signed_decimal(status.code as int) + ": "@
                    + status.message,
            ),
        )),
        (r.status matches Some(status) ==> status.code == 0) && r.exit_code != 0 ==> (conclusion_of(
            r,
        ) matches ConclusionView::ExitCode(code, text) && code == r.exit_code && text
            == "exit code "@ + signed_decimal(r.exit_code as int)),
{
}

/// The name of an entry stands for itself in any case of its letters.
pub proof fn entry_names_have_no_case(name: Seq<char>, i: int)
    requires
        0 <= i < name.len(),
    ensures
        entry_name(name) matches Some(text) ==> {
            &&& text.len() == name.len()
            &&& !('A' <= text[i] <= 'Z')
            &&& 'A' <= name[i] <= 'Z' ==> text[i] as int == name[i] as int - 'A' as int + 'a' as int
            &&& !('A' <= name[i] <= 'Z') ==> text[i] == name[i]
        },
{
}

/// A request can be made where the key and all entries of the settings are valid, and only there.
pub proof fn valid_settings_can_be_carried(config: ConfigView)
    ensures
        metadata_of(config) is Ok <==> {
            &&& config.api_key matches Some(key) ==> is_value(key)
            &&& forall|i: int|
                #![trigger config.headers[i]]
                0 <= i < config.headers.len() ==> entry_name(config.headers[i].0) is Some
                    && is_value(config.headers[i].1)
        },
{
    match config.api_key {
        Some(key) => {
            lemma_headers_are_valid(
                crate::tables::with_entry(seq![], crate::metadata::API_KEY_NAME@, key),
                config.headers,
            );
        },
        None => {
            lemma_headers_are_valid(seq![], config.headers);
        },
    }
}

proof fn lemma_headers_are_valid(
    done: Seq<(Seq<char>, Seq<char>)>,
    headers: Seq<(Seq<char>, Seq<char>)>,
)
    ensures
        with_headers(done, headers) is Ok <==> forall|i: int|
            #![trigger headers[i]]
            0 <= i < headers.len() ==> entry_name(headers[i].0) is Some && is_value(headers[i].1),
    decreases headers.len(),
{
    if headers.len() > 0 {
        let rest = headers.skip(1);
        if entry_name(headers[0].0) is Some && is_value(headers[0].1) {
            let next = crate::tables::with_entry(done, entry_name(headers[0].0)->0, headers[0].1);
            lemma_headers_are_valid(next, rest);
            if with_headers(next, rest) is Ok {
                assert forall|i: int|
                    #![trigger headers[i]]
                    0 <= i < headers.len() implies entry_name(headers[i].0) is Some && is_value(
                    headers[i].1,
                ) by {
                    if i > 0 {
                        assert(rest[i - 1] == headers[i]);
                    }
                }
            } else if forall|i: int|
                #![trigger headers[i]]
                0 <= i < headers.len() ==> entry_name(headers[i].0) is Some && is_value(
                    headers[i].1,
                ) {
                assert forall|i: int|
                    #![trigger rest[i]]
                    0 <= i < rest.len() implies entry_name(rest[i].0) is Some && is_value(
                    rest[i].1,
                ) by {
                    assert(rest[i] == headers[i + 1]);
                }
            }
        }
    }
}

/// A character that separates names from one another, or that cannot be seen.
pub open spec fn ends_a_name(c: char) -> bool {
    ||| c as int <= 32
    ||| c as int >= 127
    ||| c == '"'
    ||| c == '('
    ||| c == ')'
    ||| c == ','
    ||| c == '/'
    ||| c == ':'
    ||| c == ';'
    ||| c == '<'
    ||| c == '='
    ||| c == '>'
    ||| c == '?'
    ||| c == '@'
    ||| c == '['
    ||| c == '\\'
    ||| c == ']'
    ||| c == '{'
    ||| c == '}'
}

/// The name of an entry can have every character but those that end a name.
pub proof fn names_have_all_but_separators(c: char)
    ensures
        is_name_char(c) <==> !ends_a_name(c),
{
    let others = seq!['!', '#', '$', '%', '&', '\'', '*', '+', '-', '.', '^', '_', '`', '|', '~'];
    assert(others[0] == '!' && others[1] == '#' && others[2] == '$' && others[3] == '%' && others[4]
        == '&' && others[5] == '\'' && others[6] == '*' && others[7] == '+' && others[8] == '-'
        && others[9] == '.' && others[10] == '^' && others[11] == '_' && others[12] == '`'
        && others[13] == '|' && others[14] == '~');
    if is_name_char(c) {
        if others.contains(c) {
            let i = choose|i: int| 0 <= i < others.len() && others[i] == c;
        }
    } else if !ends_a_name(c) {
        let n = c as int;
        if n == 33 {
            assert(c == others[0]);
        } else if n == 35 {
            assert(c == others[1]);
        } else if n == 36 {
            assert(c == others[2]);
        } else if n == 37 {
            assert(c == others[3]);
        } else if n == 38 {
            assert(c == others[4]);
        } else if n == 39 {
            assert(c == others[5]);
        } else if n == 42 {
            assert(c == others[6]);
        } else if n == 43 {
            assert(c == others[7]);
        } else if n == 45 {
            assert(c == others[8]);
        } else if n == 46 {
            assert(c == others[9]);
        } else if n == 94 {
            assert(c == others[10]);
        } else if n == 95 {
            assert(c == others[11]);
        } else if n == 96 {
            assert(c == others[12]);
        } else if n == 124 {
            assert(c == others[13]);
        } else if n == 126 {
            assert(c == others[14]);
        }
    }
}

/// No name of an entry for text ends as the names of entries for bytes do, in any case of the
/// letters; no name is empty or has a character that ends a name. Every other name that is not too
/// long can be one.
pub proof fn names_that_entries_can_have(
    front: Seq<char>,
    b: char,
    i: char,
    n: char,
    name: Seq<char>,
)
    ensures
        (b == 'b' || b == 'B') && (i == 'i' || i == 'I') && (n == 'n' || n == 'N') ==> entry_name(
            front + seq!['-', b, i, n],
        ) is None,
        entry_name(seq![]) is None,
        (exists|j: int| 0 <= j < name.len() && ends_a_name(#[trigger] name[j])) ==> entry_name(
            name,
        ) is None,
        0 < name.len() < 4 && (forall|j: int|
            0 <= j < name.len() ==> !ends_a_name(#[trigger] name[j])) ==> entry_name(name) is Some,
        4 <= name.len() <= 65535 && name[name.len() - 4] != '-' && (forall|j: int|
            0 <= j < name.len() ==> !ends_a_name(#[trigger] name[j])) ==> entry_name(name) is Some,
        name.len() > 65535 ==> entry_name(name) is None,
{
    let all = front + seq!['-', b, i, n];
    let text = all.map_values(|c: char| crate::metadata::lower(c));
    if (b == 'b' || b == 'B') && (i == 'i' || i == 'I') && (n == 'n' || n == 'N') {
        assert(text.skip(text.len() - 4) =~= seq!['-', 'b', 'i', 'n']);
    }
    assert forall|c: char| #[trigger] is_name_char(c) <==> !ends_a_name(c) by {
        names_have_all_but_separators(c);
    }
    if exists|j: int| 0 <= j < name.len() && ends_a_name(#[trigger] name[j]) {
        let j = choose|j: int| 0 <= j < name.len() && ends_a_name(#[trigger] name[j]);
        assert(!is_name_char(name[j]));
    }
    if 4 <= name.len() && name[name.len() - 4] != '-' {
        let low = name.map_values(|c: char| crate::metadata::lower(c));
        assert(low.skip(low.len() - 4)[0] == low[low.len() - 4]);
        assert(seq!['-', 'b', 'i', 'n'][0] == '-');
    }
}

/// A control character; the tab is none here.
pub open spec fn is_control(c: char) -> bool {
    c != '\t' && (c as int <= 31 || c as int == 127)
}

/// The value of an entry can have every character but control characters.
pub proof fn values_have_all_but_controls(value: Seq<char>)
    ensures
        is_value(value) <==> forall|i: int|
            0 <= i < value.len() ==> !is_control(#[trigger] value[i]),
{
    assert('\t' as int == 9);
    if is_value(value) {
        assert forall|i: int| 0 <= i < value.len() implies !is_control(#[trigger] value[i]) by {
            assert(crate::metadata::is_value_char(value[i]));
        }
    }
    if forall|i: int| 0 <= i < value.len() ==> !is_control(#[trigger] value[i]) {
        assert forall|i: int| 0 <= i < value.len() implies crate::metadata::is_value_char(
            #[trigger] value[i],
        ) by {
            assert(!is_control(value[i]));
        }
    }
}

/// Of the entries of the settings, the first that is not valid is the one that is named.
pub proof fn first_invalid_entry_is_named(
    config: ConfigView,
    headers: Seq<(Seq<char>, Seq<char>)>,
    done: Seq<(Seq<char>, Seq<char>)>,
    i: int,
)
    requires
        0 <= i < headers.len(),
        forall|j: int|
            #![trigger headers[j]]
            0 <= j < i ==> entry_name(headers[j].0) is Some && is_value(headers[j].1),
    ensures
        entry_name(headers[i].0) is None ==> with_headers(done, headers) == Err::<
            Seq<(Seq<char>, Seq<char>)>,
            ErrorView,
        >(
            failure_by(
                "invalid `build.rbe.headers` name "@ + "`"@ + headers[i].0 + "`"@,
                "invalid gRPC metadata key name"@,
            ),
        ),
        entry_name(headers[i].0) is Some && !is_value(headers[i].1) ==> with_headers(done, headers)
            == Err::<Seq<(Seq<char>, Seq<char>)>, ErrorView>(
            failure_by(
                "invalid `build.rbe.headers` value for "@ + "`"@ + headers[i].0 + "`"@,
                "failed to parse metadata value"@,
            ),
        ),
        config.api_key matches Some(key) ==> (!is_value(key) ==> metadata_of(config) == Err::<
            Seq<(Seq<char>, Seq<char>)>,
            ErrorView,
        >(
            failure_by("invalid `build.rbe.api-key` value"@, "failed to parse metadata value"@),
        )),
    decreases headers.len(),
{
    if i > 0 {
        let rest = headers.skip(1);
        assert(entry_name(headers[0].0) is Some && is_value(headers[0].1));
        assert forall|j: int|
            #![trigger rest[j]]
            0 <= j < i - 1 implies entry_name(rest[j].0) is Some && is_value(rest[j].1) by {
            assert(rest[j] == headers[j + 1]);
        }
        let next = crate::tables::with_entry(done, entry_name(headers[0].0)->0, headers[0].1);
        first_invalid_entry_is_named(config, rest, next, i - 1);
    }
}

/// The key of the settings is carried under the name that the service has for it, unless an entry
/// of the settings has that name.
pub proof fn key_is_carried(config: ConfigView, key: Seq<char>)
    requires
        config.api_key == Some(key),
        last_header(config.headers, "x-buildbuddy-api-key"@) is None,
    ensures
        metadata_of(config) matches Ok(table) ==> lookup::<String, Seq<char>>(
            table,
            "x-buildbuddy-api-key"@,
        ) == Some(key),
{
    headers_are_carried(config, "x-buildbuddy-api-key"@);
}

/// What fails first in the preparation of a command is what is reported: the search for the
/// program, the taking in of the package, of the program, the arguments, the environment, and the
/// outputs.
pub proof fn first_failure_is_reported(
    context: ContextView,
    cmd: InvocationView,
    config: ConfigView,
    host: HostView,
    d: Seq<FactView>,
    package: NodeView,
    cwd: Seq<u8>,
    program: Seq<u8>,
    s: Stages,
)
    requires
        cmd.cwd == Some(cwd),
        s.start == fresh(
            cwd,
            context.target_dir,
            context.build_dir,
            context.sysroot,
            context.outputs,
        ),
    ensures
        program_path(cmd, host, d, cmd.program) matches Err(e) ==> assembled(
            context,
            cmd,
            config,
            host,
            d,
            package,
        ) == Err::<AssemblyView, ErrorView>(e),
        compiler_path(context, cmd, host, d) == Ok::<Seq<u8>, ErrorView>(program) ==> match with_tree_at(
            s.start,
            d,
            context.package_root,
            package,
            true,
        ) {
            Err(f) => assembled(context, cmd, config, host, d, package) == Err::<
                AssemblyView,
                ErrorView,
            >(f.error),
            Ok(m) => m == s.package ==> match with_path(m, d, program) {
                Err(f) => assembled(context, cmd, config, host, d, package) == Err::<
                    AssemblyView,
                    ErrorView,
                >(f.error),
                Ok(n) => n == s.program ==> match spelled_input(n, d, program) {
                    Err(f) => assembled(context, cmd, config, host, d, package) == Err::<
                        AssemblyView,
                        ErrorView,
                    >(f.error),
                    Ok((k, _)) => k == s.spelled ==> fails_after(
                        context,
                        cmd,
                        d,
                        s,
                        assembled(context, cmd, config, host, d, package),
                    ),
                },
            },
        },
{
}

/// What fails after the program was taken in is what is reported.
pub open spec fn fails_after(
    context: ContextView,
    cmd: InvocationView,
    d: Seq<FactView>,
    s: Stages,
    r: Result<AssemblyView, ErrorView>,
) -> bool {
    match command_args(s.spelled, d, cmd.args) {
        Err(f) => r == Err::<AssemblyView, ErrorView>(f.error),
        Ok((m, _)) => match envs_spelled(m, d, cmd.envs, seq![]) {
            Err(f) => r == Err::<AssemblyView, ErrorView>(f.error),
            Ok((n, _)) => match outputs_spelled(n, d, context.outputs, seq![]) {
                Err(f) => r == Err::<AssemblyView, ErrorView>(f.error),
                Ok(_) => r is Ok,
            },
        },
    }
}

} // verus!
