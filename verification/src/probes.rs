//! What has to be known of the local file system before a command can be prepared.
use vstd::prelude::*;
use vstd::utf8::encode_utf8;

use crate::config::{
    ConfigView, ContextView, Host, HostView, Invocation, InvocationView, RemoteExecutorContext,
};
use crate::disk::{dir_at, exists_at, node_at, regular_at, Disk, FactView, NodeView};
use crate::environment::{env_views, envs_spelled, os_env_value, outputs_spelled};
use crate::local_path::{joined_path, parts, LocalPath};
use crate::mapper::{
    fresh, raw_paths, sound, spelled, spelled_input, with_path, with_tree_at, MapperView,
};
use crate::mapper_laws::input_grows;
use crate::os_text::{os_to_utf8, utf8_args, utf8_text, utf8_texts, OsText, OsView};
use crate::platform::platform_of;
use crate::prepare::{assembled, command_assembled, compiler_path};
use crate::program::{candidate_paths, first_file, program_candidates, program_path};
use crate::rewrite::{
    all_exist, all_present, args_spelled, codegen_value, flag_spelled, has_value, inputs_spelled,
    named_path_value, search_path_value, search_paths, split_paths, takes_value, word_spelled,
};
use crate::text::{
    after_prefix, rsplit_once, same_text, split_first, split_last, split_once, strip_prefix, texts,
};

verus! {

/// A path that preparation can ask about.
#[derive(Debug)]
pub struct Probe {
    pub path: LocalPath,
    /// Whether what stands there can be taken in as an input; otherwise it matters only what kind
    /// of thing it is.
    pub contents: bool,
}

/// The content of a [`Probe`].
pub struct ProbeView {
    pub path: Seq<u8>,
    pub contents: bool,
}

impl View for Probe {
    type V = ProbeView;

    open spec fn view(&self) -> ProbeView {
        ProbeView { path: self.path@, contents: self.contents }
    }
}

/// The contents of several probes.
pub open spec fn probe_views(s: Seq<Probe>) -> Seq<ProbeView> {
    s.map_values(|p: Probe| p@)
}

/// Two states of knowledge say the same of a probe.
pub open spec fn agree(a: Seq<FactView>, b: Seq<FactView>, p: ProbeView) -> bool {
    &&& exists_at(a, p.path) == exists_at(b, p.path)
    &&& dir_at(a, p.path) == dir_at(b, p.path)
    &&& regular_at(a, p.path) == regular_at(b, p.path)
    &&& p.contents ==> node_at(a, p.path) == node_at(b, p.path)
}

/// Two states of knowledge say the same of all probes.
pub open spec fn agree_all(a: Seq<FactView>, b: Seq<FactView>, ps: Seq<ProbeView>) -> bool {
    forall|i: int| 0 <= i < ps.len() ==> agree(a, b, #[trigger] ps[i])
}

/// A probe for an input that a command in the working directory names.
pub open spec fn input_probe(cwd: Seq<u8>, path: Seq<char>) -> ProbeView {
    ProbeView { path: joined_path(cwd, encode_utf8(path)), contents: true }
}

/// A probe for a path that a command in the working directory names.
pub open spec fn kind_probe(cwd: Seq<u8>, path: Seq<char>) -> ProbeView {
    ProbeView { path: joined_path(cwd, encode_utf8(path)), contents: false }
}

/// A probe for what follows a text.
pub open spec fn option_probes(cwd: Seq<u8>, option: Seq<char>, value: Seq<char>) -> Seq<ProbeView> {
    match after_prefix(value, option) {
        Some(path) => seq![input_probe(cwd, path)],
        None => seq![],
    }
}

/// What an argument and its value ask about.
pub open spec fn flag_probes(cwd: Seq<u8>, flag: Seq<char>, value: Seq<char>) -> Seq<ProbeView> {
    if flag == "--out-dir"@ || flag == "-o"@ {
        seq![kind_probe(cwd, value)]
    } else if flag == "--extern"@ {
        match split_last(value, '=') {
            Some((_, path)) => seq![input_probe(cwd, path)],
            None => seq![],
        }
    } else if flag == "-L"@ {
        (match split_first(value, '=') {
            Some((_, path)) => seq![input_probe(cwd, path)],
            None => seq![],
        }) + seq![input_probe(cwd, value)]
    } else if flag == "-C"@ {
        option_probes(cwd, "linker="@, value) + option_probes(cwd, "link-arg="@, value)
    } else {
        seq![input_probe(cwd, value)]
    }
}

/// What an argument by itself asks about.
pub open spec fn word_probes(cwd: Seq<u8>, arg: Seq<char>) -> Seq<ProbeView> {
    match after_prefix(arg, "--sysroot="@) {
        Some(value) => seq![input_probe(cwd, value)],
        None => match after_prefix(arg, "--remap-path-prefix="@) {
            Some(value) => match split_first(value, '=') {
                Some((from, _)) => seq![kind_probe(cwd, from)],
                None => seq![],
            },
            None => seq![input_probe(cwd, arg)],
        },
    }
}

/// What the arguments ask about.
pub open spec fn arg_probes(cwd: Seq<u8>, args: Seq<Seq<char>>) -> Seq<ProbeView>
    decreases args.len(),
{
    if args.len() == 0 {
        seq![]
    } else if takes_value(args[0]) {
        if args.len() < 2 {
            seq![]
        } else {
            flag_probes(cwd, args[0], args[1]) + arg_probes(cwd, args.skip(2))
        }
    } else {
        word_probes(cwd, args[0]) + arg_probes(cwd, args.skip(1))
    }
}

/// Probes for inputs at paths.
pub open spec fn path_probes(paths: Seq<Seq<u8>>, contents: bool) -> Seq<ProbeView> {
    paths.map_values(|path: Seq<u8>| ProbeView { path, contents })
}

/// A value is taken as a search path: it is no path at which something is, and something is at
/// each of the paths in it.
pub open spec fn is_search_path(d: Seq<FactView>, cwd: Seq<u8>, text: Seq<char>) -> bool {
    !exists_at(d, joined_path(cwd, encode_utf8(text))) && all_exist(d, search_paths(text))
}

/// What the value of a variable asks about. What stands at the paths in it matters only where the
/// value is taken as a search path.
pub open spec fn value_probes(d: Seq<FactView>, cwd: Seq<u8>, value: Option<OsView>) -> Seq<
    ProbeView,
> {
    match value {
        Some(v) => match utf8_text(v) {
            Ok(text) => seq![input_probe(cwd, text)] + path_probes(
                search_paths(text),
                is_search_path(d, cwd, text),
            ),
            Err(_) => seq![],
        },
        None => seq![],
    }
}

/// What the environment asks about.
pub open spec fn env_probes(
    d: Seq<FactView>,
    cwd: Seq<u8>,
    envs: Seq<(Seq<char>, Option<OsView>)>,
) -> Seq<ProbeView>
    decreases envs.len(),
{
    if envs.len() == 0 {
        seq![]
    } else {
        value_probes(d, cwd, envs[0].1) + env_probes(d, cwd, envs.skip(1))
    }
}

/// What the search for a program asks about.
pub open spec fn program_probes(
    cmd: InvocationView,
    host: HostView,
    program: Seq<u8>,
    contents: bool,
) -> Seq<ProbeView> {
    if parts(program).len() > 1 {
        seq![ProbeView { path: program, contents }]
    } else {
        match program_candidates(cmd, host, program) {
            Some(paths) => path_probes(paths, contents),
            None => seq![],
        }
    }
}

/// What the preparation of a command asks about. The paths depend on nothing but the command; what
/// is known of them already decides where the contents matter.
pub open spec fn command_probes(
    context: ContextView,
    cmd: InvocationView,
    host: HostView,
    d: Seq<FactView>,
) -> Seq<ProbeView> {
    match cmd.cwd {
        None => seq![],
        Some(cwd) => program_probes(cmd, host, cmd.program, true) + program_probes(
            cmd,
            host,
            context.rustc_path,
            false,
        ) + seq![ProbeView { path: context.package_root, contents: false }] + (match utf8_texts(
            cmd.args,
        ) {
            Ok(words) => arg_probes(cwd, words),
            Err(_) => seq![],
        }) + env_probes(d, cwd, cmd.envs) + path_probes(context.outputs, false),
    }
}

/// Saying the same of two lists is saying the same of both together.
proof fn lemma_agree_both(a: Seq<FactView>, b: Seq<FactView>, x: Seq<ProbeView>, y: Seq<ProbeView>)
    requires
        agree_all(a, b, x + y),
    ensures
        agree_all(a, b, x),
        agree_all(a, b, y),
{
    assert forall|i: int| 0 <= i < x.len() implies agree(a, b, #[trigger] x[i]) by {
        assert((x + y)[i] == x[i]);
    }
    assert forall|i: int| 0 <= i < y.len() implies agree(a, b, #[trigger] y[i]) by {
        assert((x + y)[x.len() + i] == y[i]);
    }
}

proof fn lemma_same_flag(
    m: MapperView,
    a: Seq<FactView>,
    b: Seq<FactView>,
    flag: Seq<char>,
    value: Seq<char>,
)
    requires
        takes_value(flag),
        agree_all(a, b, flag_probes(m.cwd, flag, value)),
    ensures
        flag_spelled(m, a, flag, value) == flag_spelled(m, b, flag, value),
{
    let ps = flag_probes(m.cwd, flag, value);
    if flag == "--out-dir"@ || flag == "-o"@ {
        assert(agree(a, b, ps[0]));
    } else if flag == "--extern"@ {
        if let Some((_, path)) = split_last(value, '=') {
            assert(agree(a, b, ps[0]));
        }
        assert(named_path_value(m, a, value) == named_path_value(m, b, value));
    } else if flag == "-L"@ {
        assert(agree(a, b, ps[0]));
        assert(agree(a, b, ps[ps.len() - 1]));
        assert(search_path_value(m, a, value) == search_path_value(m, b, value));
    } else if flag == "-C"@ {
        let x = option_probes(m.cwd, "linker="@, value);
        let y = option_probes(m.cwd, "link-arg="@, value);
        lemma_agree_both(a, b, x, y);
        if let Some(path) = after_prefix(value, "linker="@) {
            assert(agree(a, b, x[0]));
        }
        if let Some(path) = after_prefix(value, "link-arg="@) {
            assert(agree(a, b, y[0]));
        }
        assert(codegen_value(m, a, value) == codegen_value(m, b, value));
    } else {
        assert(agree(a, b, ps[0]));
    }
}

proof fn lemma_same_word(m: MapperView, a: Seq<FactView>, b: Seq<FactView>, arg: Seq<char>)
    requires
        agree_all(a, b, word_probes(m.cwd, arg)),
    ensures
        word_spelled(m, a, arg) == word_spelled(m, b, arg),
{
    let ps = word_probes(m.cwd, arg);
    if ps.len() > 0 {
        assert(agree(a, b, ps[0]));
    }
}

proof fn lemma_same_args(
    m: MapperView,
    a: Seq<FactView>,
    b: Seq<FactView>,
    args: Seq<Seq<char>>,
)
    requires
        sound(m),
        agree_all(a, b, arg_probes(m.cwd, args)),
    ensures
        args_spelled(m, a, args) == args_spelled(m, b, args),
    decreases args.len(),
{
    if args.len() == 0 {
    } else if takes_value(args[0]) {
        if args.len() >= 2 {
            lemma_agree_both(
                a,
                b,
                flag_probes(m.cwd, args[0], args[1]),
                arg_probes(m.cwd, args.skip(2)),
            );
            lemma_same_flag(m, a, b, args[0], args[1]);
            crate::rewrite_laws::lemma_flag_advances(m, a, args[0], args[1]);
            if let Ok((n, _)) = flag_spelled(m, a, args[0], args[1]) {
                lemma_same_args(n, a, b, args.skip(2));
            }
        }
    } else {
        lemma_agree_both(
            a,
            b,
            word_probes(m.cwd, args[0]),
            arg_probes(m.cwd, args.skip(1)),
        );
        lemma_same_word(m, a, b, args[0]);
        crate::rewrite_laws::lemma_word_advances(m, a, args[0]);
        if let Ok((n, _)) = word_spelled(m, a, args[0]) {
            lemma_same_args(n, a, b, args.skip(1));
        }
    }
}

proof fn lemma_same_inputs(
    m: MapperView,
    a: Seq<FactView>,
    b: Seq<FactView>,
    paths: Seq<Seq<u8>>,
)
    requires
        agree_all(a, b, path_probes(paths, true)),
    ensures
        inputs_spelled(m, a, paths) == inputs_spelled(m, b, paths),
    decreases paths.len(),
{
    let ps = path_probes(paths, true);
    if paths.len() > 0 {
        assert(agree(a, b, ps[0]));
        let rest = path_probes(paths.skip(1), true);
        assert forall|i: int| 0 <= i < rest.len() implies agree(a, b, #[trigger] rest[i]) by {
            assert(rest[i] == ps[i + 1]);
        }
        if let Ok((n, _)) = spelled_input(m, a, paths[0]) {
            lemma_same_inputs(n, a, b, paths.skip(1));
        }
    }
}

/// The same paths are there.
proof fn lemma_same_presence(
    a: Seq<FactView>,
    b: Seq<FactView>,
    paths: Seq<Seq<u8>>,
    contents: bool,
)
    requires
        agree_all(a, b, path_probes(paths, contents)),
    ensures
        all_exist(a, paths) == all_exist(b, paths),
{
    let ps = path_probes(paths, contents);
    assert forall|i: int| 0 <= i < paths.len() implies exists_at(a, #[trigger] paths[i])
        == exists_at(b, paths[i]) by {
        assert(agree(a, b, ps[i]));
    }
}

proof fn lemma_same_env_value(m: MapperView, a: Seq<FactView>, b: Seq<FactView>, value: OsView)
    requires
        agree_all(a, b, value_probes(a, m.cwd, Some(value))),
    ensures
        os_env_value(m, a, value) == os_env_value(m, b, value),
{
    if let Ok(text) = utf8_text(value) {
        let x = seq![input_probe(m.cwd, text)];
        let contents = is_search_path(a, m.cwd, text);
        let y = path_probes(search_paths(text), contents);
        lemma_agree_both(a, b, x, y);
        assert(agree(a, b, x[0]));
        lemma_same_presence(a, b, search_paths(text), contents);
        if contents {
            lemma_same_inputs(m, a, b, search_paths(text));
        }
    }
}

proof fn lemma_same_envs(
    m: MapperView,
    a: Seq<FactView>,
    b: Seq<FactView>,
    envs: Seq<(Seq<char>, Option<OsView>)>,
    done: Seq<(Seq<char>, Seq<char>)>,
)
    requires
        sound(m),
        agree_all(a, b, env_probes(a, m.cwd, envs)),
    ensures
        envs_spelled(m, a, envs, done) == envs_spelled(m, b, envs, done),
    decreases envs.len(),
{
    if envs.len() > 0 {
        lemma_agree_both(
            a,
            b,
            value_probes(a, m.cwd, envs[0].1),
            env_probes(a, m.cwd, envs.skip(1)),
        );
        match envs[0].1 {
            Some(value) => {
                lemma_same_env_value(m, a, b, value);
                crate::rewrite_laws::lemma_env_value_advances(m, a, value);
                if let Ok((n, text)) = os_env_value(m, a, value) {
                    let next = crate::tables::with_entry(done, envs[0].0, text);
                    lemma_same_envs(n, a, b, envs.skip(1), next);
                }
            },
            None => {
                lemma_same_envs(m, a, b, envs.skip(1), done);
            },
        }
    }
}

proof fn lemma_same_outputs(
    m: MapperView,
    a: Seq<FactView>,
    b: Seq<FactView>,
    outputs: Seq<Seq<u8>>,
    done: Seq<(Seq<char>, Seq<u8>)>,
)
    requires
        agree_all(a, b, path_probes(outputs, false)),
    ensures
        outputs_spelled(m, a, outputs, done) == outputs_spelled(m, b, outputs, done),
    decreases outputs.len(),
{
    if outputs.len() > 0 {
        let ps = path_probes(outputs, false);
        assert(agree(a, b, ps[0]));
        let rest = path_probes(outputs.skip(1), false);
        assert forall|i: int| 0 <= i < rest.len() implies agree(a, b, #[trigger] rest[i]) by {
            assert(rest[i] == ps[i + 1]);
        }
        let (n, remote) = spelled(m, a, outputs[0]);
        let next = crate::tables::with_entry(done, remote, outputs[0]);
        lemma_same_outputs(n, a, b, outputs.skip(1), next);
    }
}

proof fn lemma_same_first_file(
    a: Seq<FactView>,
    b: Seq<FactView>,
    paths: Seq<Seq<u8>>,
    contents: bool,
)
    requires
        agree_all(a, b, path_probes(paths, contents)),
    ensures
        first_file(a, paths) == first_file(b, paths),
        first_file(a, paths) matches Some(path) ==> agree(a, b, ProbeView { path, contents }),
    decreases paths.len(),
{
    if paths.len() > 0 {
        let ps = path_probes(paths, contents);
        assert(agree(a, b, ps[0]));
        let rest = path_probes(paths.skip(1), contents);
        assert forall|i: int| 0 <= i < rest.len() implies agree(a, b, #[trigger] rest[i]) by {
            assert(rest[i] == ps[i + 1]);
        }
        lemma_same_first_file(a, b, paths.skip(1), contents);
    }
}

proof fn lemma_same_program(
    cmd: InvocationView,
    host: HostView,
    a: Seq<FactView>,
    b: Seq<FactView>,
    program: Seq<u8>,
    contents: bool,
)
    requires
        agree_all(a, b, program_probes(cmd, host, program, contents)),
    ensures
        program_path(cmd, host, a, program) == program_path(cmd, host, b, program),
        program_path(cmd, host, a, program) matches Ok(path) ==> agree(
            a,
            b,
            ProbeView { path, contents },
        ),
{
    let ps = program_probes(cmd, host, program, contents);
    if parts(program).len() > 1 {
        assert(agree(a, b, ps[0]));
    } else if let Some(paths) = program_candidates(cmd, host, program) {
        lemma_same_first_file(a, b, paths, contents);
    }
}

/// The preparation of a command asks about nothing but its probes: where two states of knowledge
/// say the same of these, they lead to the same action.
pub proof fn preparation_asks_only_its_probes(
    context: ContextView,
    cmd: InvocationView,
    config: ConfigView,
    host: HostView,
    a: Seq<FactView>,
    b: Seq<FactView>,
    package: NodeView,
)
    requires
        agree_all(a, b, command_probes(context, cmd, host, a)),
    ensures
        assembled(context, cmd, config, host, a, package) == assembled(
            context,
            cmd,
            config,
            host,
            b,
            package,
        ),
{
    if let Some(cwd) = cmd.cwd {
        let p1 = program_probes(cmd, host, cmd.program, true);
        let p2 = program_probes(cmd, host, context.rustc_path, false);
        let p3 = seq![ProbeView { path: context.package_root, contents: false }];
        let p4 = match utf8_texts(cmd.args) {
            Ok(words) => arg_probes(cwd, words),
            Err(_) => seq![],
        };
        let p5 = env_probes(a, cwd, cmd.envs);
        let p6 = path_probes(context.outputs, false);
        lemma_agree_both(a, b, p1 + p2 + p3 + p4 + p5, p6);
        lemma_agree_both(a, b, p1 + p2 + p3 + p4, p5);
        lemma_agree_both(a, b, p1 + p2 + p3, p4);
        lemma_agree_both(a, b, p1 + p2, p3);
        lemma_agree_both(a, b, p1, p2);
        lemma_same_program(cmd, host, a, b, cmd.program, true);
        lemma_same_program(cmd, host, a, b, context.rustc_path, false);
        assert(agree(a, b, p3[0]));
        if let Ok(program) = compiler_path(context, cmd, host, a) {
            let m = fresh(
                cwd,
                context.target_dir,
                context.build_dir,
                context.sysroot,
                context.outputs,
            );
            crate::mapper::lemma_fresh_is_sound(
                cwd,
                context.target_dir,
                context.build_dir,
                context.sysroot,
                context.outputs,
            );
            input_grows(m, a, context.package_root, package, true);
            if let Ok(m1) = with_tree_at(m, a, context.package_root, package, true) {
                input_grows(m1, a, program, node_at(a, program), false);
                if let Ok(m2) = with_path(m1, a, program) {
                    let platform = platform_of(config, host);
                    lemma_same_command(m2, cmd, context.outputs, platform, a, b, program);
                }
            }
        }
    }
}

proof fn lemma_same_command(
    m: MapperView,
    cmd: InvocationView,
    outputs: Seq<Seq<u8>>,
    platform: Seq<(Seq<char>, Seq<char>)>,
    a: Seq<FactView>,
    b: Seq<FactView>,
    program: Seq<u8>,
)
    requires
        sound(m),
        agree(a, b, (ProbeView { path: program, contents: true })),
        utf8_texts(cmd.args) matches Ok(words) ==> agree_all(a, b, arg_probes(m.cwd, words)),
        agree_all(a, b, env_probes(a, m.cwd, cmd.envs)),
        agree_all(a, b, path_probes(outputs, false)),
    ensures
        command_assembled(m, cmd, outputs, platform, a, program) == command_assembled(
            m,
            cmd,
            outputs,
            platform,
            b,
            program,
        ),
{
    crate::rewrite_laws::lemma_input_advances(m, a, program);
    if let Ok((m1, word)) = spelled_input(m, a, program) {
        if let Ok(words) = utf8_texts(cmd.args) {
            lemma_same_args(m1, a, b, words);
            crate::rewrite_laws::only_incremental_flags_are_dropped(m1, a, words);
            if let Ok((m2, args)) = args_spelled(m1, a, words) {
                lemma_same_envs(m2, a, b, cmd.envs, seq![]);
                if let Ok((m3, envs)) = envs_spelled(m2, a, cmd.envs, seq![]) {
                    lemma_same_outputs(m3, a, b, outputs, seq![]);
                }
            }
        }
    }
}

/// The paths of probes.
pub open spec fn probed_paths(ps: Seq<ProbeView>) -> Seq<Seq<u8>> {
    ps.map_values(|p: ProbeView| p.path)
}

proof fn lemma_same_env_paths(
    a: Seq<FactView>,
    b: Seq<FactView>,
    cwd: Seq<u8>,
    envs: Seq<(Seq<char>, Option<OsView>)>,
)
    ensures
        probed_paths(env_probes(a, cwd, envs)) == probed_paths(env_probes(b, cwd, envs)),
    decreases envs.len(),
{
    if envs.len() > 0 {
        lemma_same_env_paths(a, b, cwd, envs.skip(1));
        let x = value_probes(a, cwd, envs[0].1);
        let y = value_probes(b, cwd, envs[0].1);
        assert(probed_paths(x) =~= probed_paths(y));
        let rest_a = env_probes(a, cwd, envs.skip(1));
        let rest_b = env_probes(b, cwd, envs.skip(1));
        assert(probed_paths(x + rest_a) =~= probed_paths(x) + probed_paths(rest_a));
        assert(probed_paths(y + rest_b) =~= probed_paths(y) + probed_paths(rest_b));
    }
}

/// Which paths are asked about depends on the command alone, not on what is at them.
pub proof fn probed_paths_depend_on_the_command_alone(
    context: ContextView,
    cmd: InvocationView,
    host: HostView,
    a: Seq<FactView>,
    b: Seq<FactView>,
)
    ensures
        probed_paths(command_probes(context, cmd, host, a)) == probed_paths(
            command_probes(context, cmd, host, b),
        ),
{
    if let Some(cwd) = cmd.cwd {
        lemma_same_env_paths(a, b, cwd, cmd.envs);
        let front = program_probes(cmd, host, cmd.program, true) + program_probes(
            cmd,
            host,
            context.rustc_path,
            false,
        ) + seq![ProbeView { path: context.package_root, contents: false }] + (match utf8_texts(
            cmd.args,
        ) {
            Ok(words) => arg_probes(cwd, words),
            Err(_) => seq![],
        });
        let x = env_probes(a, cwd, cmd.envs);
        let y = env_probes(b, cwd, cmd.envs);
        let end = path_probes(context.outputs, false);
        assert(probed_paths(front + x + end) =~= probed_paths(front) + probed_paths(x)
            + probed_paths(end));
        assert(probed_paths(front + y + end) =~= probed_paths(front) + probed_paths(y)
            + probed_paths(end));
    }
}

/// The path that a command in the working directory means by a text.
fn path_in(cwd: &LocalPath, text: &str) -> (r: LocalPath)
    ensures
        r@ == joined_path(cwd@, encode_utf8(text@)),
{
    cwd.join(&LocalPath::from_text(text))
}

/// A list of one probe.
fn one_probe(path: LocalPath, contents: bool) -> (r: Vec<Probe>)
    ensures
        probe_views(r@) == seq![ProbeView { path: path@, contents }],
{
    let mut r: Vec<Probe> = Vec::new();
    r.push(Probe { path, contents });
    assert(probe_views(r@) =~= seq![ProbeView { path: path@, contents }]);
    r
}

/// A list of no probes.
fn no_probes() -> (r: Vec<Probe>)
    ensures
        probe_views(r@) == Seq::<ProbeView>::empty(),
{
    let r: Vec<Probe> = Vec::new();
    assert(probe_views(r@) =~= seq![]);
    r
}

/// Puts probes behind others.
fn append_probes(to: &mut Vec<Probe>, added: Vec<Probe>)
    ensures
        probe_views(final(to)@) == probe_views(old(to)@) + probe_views(added@),
{
    let ghost before = to@;
    let ghost more = added@;
    let mut added = added;
    to.append(&mut added);
    assert(probe_views(to@) =~= probe_views(before) + probe_views(more));
}

/// A probe for what follows a text.
fn option_paths(cwd: &LocalPath, option: &str, value: &str) -> (r: Vec<Probe>)
    ensures
        probe_views(r@) == option_probes(cwd@, option@, value@),
{
    match strip_prefix(value, option) {
        Some(path) => one_probe(path_in(cwd, path.as_str()), true),
        None => no_probes(),
    }
}

/// What an argument and its value ask about.
fn flag_paths(cwd: &LocalPath, flag: &str, value: &str) -> (r: Vec<Probe>)
    ensures
        probe_views(r@) == flag_probes(cwd@, flag@, value@),
{
    if same_text(flag, "--out-dir") || same_text(flag, "-o") {
        one_probe(path_in(cwd, value), false)
    } else if same_text(flag, "--extern") {
        match rsplit_once(value, '=') {
            Some((_, path)) => one_probe(path_in(cwd, path.as_str()), true),
            None => no_probes(),
        }
    } else if same_text(flag, "-L") {
        let mut r = match split_once(value, '=') {
            Some((_, path)) => one_probe(path_in(cwd, path.as_str()), true),
            None => no_probes(),
        };
        append_probes(&mut r, one_probe(path_in(cwd, value), true));
        r
    } else if same_text(flag, "-C") {
        let mut r = option_paths(cwd, "linker=", value);
        append_probes(&mut r, option_paths(cwd, "link-arg=", value));
        r
    } else {
        one_probe(path_in(cwd, value), true)
    }
}

/// What an argument by itself asks about.
fn word_paths(cwd: &LocalPath, arg: &str) -> (r: Vec<Probe>)
    ensures
        probe_views(r@) == word_probes(cwd@, arg@),
{
    if let Some(value) = strip_prefix(arg, "--sysroot=") {
        return one_probe(path_in(cwd, value.as_str()), true);
    }
    if let Some(value) = strip_prefix(arg, "--remap-path-prefix=") {
        return match split_once(value.as_str(), '=') {
            Some((from, _)) => one_probe(path_in(cwd, from.as_str()), false),
            None => no_probes(),
        };
    }
    one_probe(path_in(cwd, arg), true)
}

/// What the arguments ask about.
fn arg_paths(cwd: &LocalPath, args: &Vec<String>) -> (r: Vec<Probe>)
    ensures
        probe_views(r@) == arg_probes(cwd@, texts(args@)),
{
    let ghost all = texts(args@);
    let mut r = no_probes();
    let mut i: usize = 0;
    assert(all.skip(0) =~= all);
    assert(probe_views(r@) + arg_probes(cwd@, all) =~= arg_probes(cwd@, all));
    while i < args.len()
        invariant
            i <= args@.len(),
            all == texts(args@),
            probe_views(r@) + arg_probes(cwd@, all.skip(i as int)) == arg_probes(cwd@, all),
        decreases args@.len() - i,
    {
        let ghost left = all.skip(i as int);
        let ghost before = probe_views(r@);
        assert(left[0] == args@[i as int]@);
        if has_value(args[i].as_str()) {
            if args.len() - i < 2 {
                assert(before + seq![] =~= before);
                return r;
            }
            assert(left[1] == args@[i + 1]@);
            append_probes(&mut r, flag_paths(cwd, args[i].as_str(), args[i + 1].as_str()));
            i += 2;
            proof {
                assert(left.skip(2) =~= all.skip(i as int));
                let now = flag_probes(cwd@, left[0], left[1]);
                let rest = arg_probes(cwd@, left.skip(2));
                assert(before + (now + rest) =~= (before + now) + rest);
            }
        } else {
            append_probes(&mut r, word_paths(cwd, args[i].as_str()));
            i += 1;
            proof {
                assert(left.skip(1) =~= all.skip(i as int));
                let now = word_probes(cwd@, left[0]);
                let rest = arg_probes(cwd@, left.skip(1));
                assert(before + (now + rest) =~= (before + now) + rest);
            }
        }
    }
    assert(probe_views(r@) + seq![] =~= probe_views(r@));
    r
}

/// Probes for paths.
fn probes_at(paths: &Vec<LocalPath>, contents: bool) -> (r: Vec<Probe>)
    ensures
        probe_views(r@) == path_probes(raw_paths(paths@), contents),
{
    let mut r: Vec<Probe> = Vec::new();
    let mut i: usize = 0;
    while i < paths.len()
        invariant
            i <= paths@.len(),
            r@.len() == i,
            forall|j: int|
                0 <= j < i ==> (#[trigger] r@[j])@ == (ProbeView { path: paths@[j]@, contents }),
        decreases paths@.len() - i,
    {
        r.push(Probe { path: paths[i].clone(), contents });
        i += 1;
    }
    assert(probe_views(r@) =~= path_probes(raw_paths(paths@), contents));
    r
}

/// What the environment asks about.
fn env_paths(disk: &Disk, cwd: &LocalPath, envs: &Vec<(String, Option<OsText>)>) -> (r: Vec<Probe>)
    ensures
        probe_views(r@) == env_probes(disk@, cwd@, env_views(envs@)),
{
    let ghost all = env_views(envs@);
    let mut r = no_probes();
    let mut i: usize = 0;
    assert(all.skip(0) =~= all);
    assert(probe_views(r@) + env_probes(disk@, cwd@, all) =~= env_probes(disk@, cwd@, all));
    while i < envs.len()
        invariant
            i <= envs@.len(),
            all == env_views(envs@),
            probe_views(r@) + env_probes(disk@, cwd@, all.skip(i as int)) == env_probes(
                disk@,
                cwd@,
                all,
            ),
        decreases envs@.len() - i,
    {
        let ghost before = probe_views(r@);
        assert(all.skip(i as int)[0] == all[i as int]);
        assert(all.skip(i as int).skip(1) =~= all.skip(i + 1));
        if let Some(value) = &envs[i].1 {
            if let Ok(text) = os_to_utf8(value) {
                let path = path_in(cwd, text.as_str());
                let paths = split_paths(text.as_str());
                let contents = !disk.is_present(&path) && all_present(disk, &paths);
                let mut added = one_probe(path, true);
                append_probes(&mut added, probes_at(&paths, contents));
                append_probes(&mut r, added);
            }
        }
        proof {
            let now = value_probes(disk@, cwd@, all[i as int].1);
            let rest = env_probes(disk@, cwd@, all.skip(i + 1));
            assert(before + (now + rest) =~= (before + now) + rest);
            assert(probe_views(r@) =~= before + now);
        }
        i += 1;
    }
    assert(probe_views(r@) + seq![] =~= probe_views(r@));
    r
}

/// What the search for a program asks about.
fn program_paths(cmd: &Invocation, host: &Host, program: &LocalPath, contents: bool) -> (r: Vec<
    Probe,
>)
    ensures
        probe_views(r@) == program_probes(cmd@, host@, program@, contents),
{
    if program.components().len() > 1 {
        return one_probe(program.clone(), contents);
    }
    match candidate_paths(cmd, host, program) {
        Some(paths) => probes_at(&paths, contents),
        None => no_probes(),
    }
}

/// What the preparation of a command asks about, where `disk` says what is at these paths.
pub fn probe_paths(
    context: &RemoteExecutorContext,
    cmd: &Invocation,
    host: &Host,
    disk: &Disk,
) -> (r: Vec<Probe>)
    ensures
        probe_views(r@) == command_probes(context@, cmd@, host@, disk@),
{
    match &cmd.cwd {
        None => no_probes(),
        Some(cwd) => {
            let mut r = program_paths(cmd, host, &cmd.program, true);
            append_probes(&mut r, program_paths(cmd, host, &context.rustc_path, false));
            append_probes(&mut r, one_probe(context.package_root.clone(), false));
            match utf8_args(&cmd.args) {
                Ok(words) => append_probes(&mut r, arg_paths(cwd, &words)),
                Err(_) => append_probes(&mut r, no_probes()),
            }
            append_probes(&mut r, env_paths(disk, cwd, &cmd.envs));
            append_probes(&mut r, probes_at(&context.outputs, false));
            r
        },
    }
}

} // verus!
