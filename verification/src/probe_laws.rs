//! What is looked at on the local file system, and what is not.
use vstd::prelude::*;
use vstd::utf8::encode_utf8;

use crate::argument_laws::{
    lemma_equals_sign, lemma_first_split, lemma_flags, lemma_no_split, lemma_remap_word,
};
use crate::config::{ContextView, HostView, InvocationView};
use crate::disk::{exists_at, FactView};
use crate::local_path::{joined_path, parts};
use crate::os_text::{utf8_text, OsView};
use crate::probes::{
    arg_probes, command_probes, env_probes, flag_probes, value_probes, word_probes, ProbeView,
};
use crate::rewrite::{search_paths, takes_value};
use crate::text::after_prefix;

verus! {

/// The path is looked at, but what is there is not read.
pub open spec fn looked_at(cwd: Seq<u8>, text: Seq<char>) -> ProbeView {
    ProbeView { path: joined_path(cwd, encode_utf8(text)), contents: false }
}

/// The path is looked at, and what is there is read.
pub open spec fn read(cwd: Seq<u8>, text: Seq<char>) -> ProbeView {
    ProbeView { path: joined_path(cwd, encode_utf8(text)), contents: true }
}

/// A flag and its value by themselves.
proof fn lemma_flag_alone(cwd: Seq<u8>, flag: Seq<char>, value: Seq<char>)
    requires
        takes_value(flag),
    ensures
        arg_probes(cwd, seq![flag, value]) == flag_probes(cwd, flag, value),
{
    let args = seq![flag, value];
    assert(args.skip(2) =~= seq![]);
    assert(arg_probes(cwd, seq![]) =~= seq![]);
    assert(flag_probes(cwd, flag, value) + seq![] =~= flag_probes(cwd, flag, value));
}

/// Nothing is read for a place of outputs, and nothing is looked at for an option that names no
/// path.
pub proof fn nothing_is_read_for_a_place(cwd: Seq<u8>, flag: Seq<char>, value: Seq<char>)
    ensures
        flag == "--out-dir"@ || flag == "-o"@ ==> arg_probes(cwd, seq![flag, value]) == seq![
            looked_at(cwd, value),
        ],
        !value.contains('=') ==> arg_probes(cwd, seq!["--extern"@, value]).len() == 0,
        after_prefix(value, "linker="@) is None && after_prefix(value, "link-arg="@) is None
            ==> arg_probes(cwd, seq!["-C"@, value]).len() == 0,
        takes_value(flag) ==> arg_probes(cwd, seq![flag]).len() == 0,
{
    lemma_flags();
    if flag == "--out-dir"@ || flag == "-o"@ {
        lemma_flag_alone(cwd, flag, value);
    }
    lemma_flag_alone(cwd, "--extern"@, value);
    lemma_flag_alone(cwd, "-C"@, value);
    if !value.contains('=') {
        lemma_no_split(value, '=');
    }
}

/// Nothing is read for a path prefix that is to be replaced.
pub proof fn remapping_reads_nothing(cwd: Seq<u8>, from: Seq<char>, to: Seq<char>)
    requires
        !from.contains('='),
    ensures
        arg_probes(cwd, seq!["--remap-path-prefix="@ + (from + "="@ + to)]) == seq![
            looked_at(cwd, from),
        ],
{
    let value = from + "="@ + to;
    let word = "--remap-path-prefix="@ + value;
    lemma_equals_sign();
    lemma_first_split(from, '=', to);
    lemma_remap_word(value);
    let one = seq![word];
    assert(one.skip(1) =~= seq![]);
    assert(arg_probes(cwd, seq![]) =~= seq![]);
    assert(arg_probes(cwd, one) =~= seq![looked_at(cwd, from)]);
}

/// A command without a working directory asks about nothing.
pub proof fn command_without_a_directory_asks_nothing(
    context: ContextView,
    cmd: InvocationView,
    host: HostView,
    d: Seq<FactView>,
)
    requires
        cmd.cwd is None,
    ensures
        command_probes(context, cmd, host, d).len() == 0,
{
}

/// What an argument can name is read: for a search path what follows its kind, and the whole.
pub proof fn what_an_argument_can_name_is_read(
    cwd: Seq<u8>,
    kind: Seq<char>,
    path: Seq<char>,
    word: Seq<char>,
)
    requires
        !kind.contains('='),
        !takes_value(word),
        after_prefix(word, "--sysroot="@) is None,
        after_prefix(word, "--remap-path-prefix="@) is None,
    ensures
        arg_probes(cwd, seq!["-L"@, kind + "="@ + path]) == seq![
            read(cwd, path),
            read(cwd, kind + "="@ + path),
        ],
        arg_probes(cwd, seq!["-L"@, kind]) == seq![read(cwd, kind)],
        arg_probes(cwd, seq!["--sysroot"@, path]) == seq![read(cwd, path)],
        arg_probes(cwd, seq![word]) == seq![read(cwd, word)],
{
    lemma_flags();
    lemma_equals_sign();
    let value = kind + "="@ + path;
    lemma_first_split(kind, '=', path);
    lemma_no_split(kind, '=');
    lemma_flag_alone(cwd, "-L"@, value);
    lemma_flag_alone(cwd, "-L"@, kind);
    lemma_flag_alone(cwd, "--sysroot"@, path);
    assert(flag_probes(cwd, "-L"@, value) =~= seq![read(cwd, path), read(cwd, value)]);
    assert(flag_probes(cwd, "-L"@, kind) =~= seq![read(cwd, kind)]);
    let one = seq![word];
    assert(one.skip(1) =~= seq![]);
    assert(arg_probes(cwd, seq![]) =~= seq![]);
    assert(arg_probes(cwd, one) =~= seq![read(cwd, word)]);
}

/// The arguments ask one after the other.
pub proof fn arguments_ask_one_after_the_other(
    cwd: Seq<u8>,
    flag: Seq<char>,
    value: Seq<char>,
    word: Seq<char>,
    rest: Seq<Seq<char>>,
)
    requires
        takes_value(flag),
        !takes_value(word),
    ensures
        arg_probes(cwd, seq![flag, value] + rest) == arg_probes(cwd, seq![flag, value])
            + arg_probes(cwd, rest),
        arg_probes(cwd, seq![word] + rest) == arg_probes(cwd, seq![word]) + arg_probes(cwd, rest),
{
    lemma_flag_alone(cwd, flag, value);
    let a = seq![flag, value] + rest;
    assert(a.skip(2) =~= rest);
    assert(a[0] == flag && a[1] == value);
    let b = seq![word] + rest;
    let one = seq![word];
    assert(b.skip(1) =~= rest);
    assert(b[0] == word);
    assert(one.skip(1) =~= seq![]);
    assert(arg_probes(cwd, seq![]) =~= seq![]);
    assert(arg_probes(cwd, one) =~= word_probes(cwd, word));
}

/// What a variable names is read, and the paths of a search path are read only where the value is
/// taken as one; a variable without a value asks about nothing.
pub proof fn what_a_variable_names_is_read(
    d: Seq<FactView>,
    cwd: Seq<u8>,
    name: Seq<char>,
    value: OsView,
    text: Seq<char>,
    i: int,
)
    requires
        utf8_text(value) matches Ok(t) && t == text,
        0 <= i < search_paths(text).len(),
    ensures
        env_probes(d, cwd, seq![(name, None)]).len() == 0,
        env_probes(d, cwd, seq![(name, Some(value))]).len() == 1 + search_paths(text).len(),
        env_probes(d, cwd, seq![(name, Some(value))])[0] == read(cwd, text),
        env_probes(d, cwd, seq![(name, Some(value))])[1 + i].path == search_paths(text)[i],
        env_probes(d, cwd, seq![(name, Some(value))])[1 + i].contents <==> {
            &&& !exists_at(d, joined_path(cwd, encode_utf8(text)))
            &&& forall|j: int|
                0 <= j < search_paths(text).len() ==> exists_at(d, #[trigger] search_paths(text)[j])
        },
{
    let none: Seq<(Seq<char>, Option<OsView>)> = seq![(name, None)];
    let some: Seq<(Seq<char>, Option<OsView>)> = seq![(name, Some(value))];
    assert(none.skip(1) =~= seq![]);
    assert(some.skip(1) =~= seq![]);
    assert(env_probes(d, cwd, seq![]) =~= seq![]);
    assert(env_probes(d, cwd, none) =~= seq![]);
    assert(env_probes(d, cwd, some) =~= value_probes(d, cwd, Some(value)));
}

/// The program is read wherever it can be, the compiler of the build and the package are only
/// looked at, and so are the places of the outputs, last of all.
pub proof fn outputs_are_only_looked_at(
    context: ContextView,
    cmd: InvocationView,
    host: HostView,
    d: Seq<FactView>,
    i: int,
)
    requires
        cmd.cwd is Some,
        0 <= i < context.outputs.len(),
    ensures
        ({
            let all = command_probes(context, cmd, host, d);
            let n = all.len() - context.outputs.len();
            n >= 0 && all[n + i] == (ProbeView { path: context.outputs[i], contents: false })
        }),
        parts(cmd.program).len() > 1 ==> command_probes(context, cmd, host, d)[0] == (ProbeView {
            path: cmd.program,
            contents: true,
        }),
        parts(cmd.program).len() > 1 && parts(context.rustc_path).len() > 1 ==> {
            &&& command_probes(context, cmd, host, d)[1] == (ProbeView {
                path: context.rustc_path,
                contents: false,
            })
            &&& command_probes(context, cmd, host, d)[2] == (ProbeView {
                path: context.package_root,
                contents: false,
            })
        },
{
}

} // verus!
