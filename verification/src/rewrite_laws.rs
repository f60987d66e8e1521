//! What holds of the remote spelling of a command.
use vstd::prelude::*;

use crate::disk::{dir_at, exists_at, node_at, FactView};
use crate::environment::{envs_spelled, os_env_value, outputs_spelled};
use crate::error::ErrorView;
use crate::mapper::{resolved, sound, spelled, spelled_input, Fault, MapperView};
use crate::mapper_laws::{
    asking_grows, growth_is_transitive, grown, input_grows, input_is_spelled_by_its_place,
    remote_path_is_stable, slots_are_own,
};
use crate::os_text::{utf8_text, utf8_texts, OsView};
use crate::rewrite::{
    args_spelled, codegen_value, command_args, flag_spelled, inputs_spelled, named_input,
    named_path_value,
    search_path_value, search_paths, takes_value, word_spelled,
};
use crate::sorted::{lemma_with, lookup};
use crate::tables::{is_table, with_entry};
use crate::text::{after_prefix, split_first, split_last};

verus! {

/// `n` is what `m` became, and it is in order as `m` was.
pub open spec fn advanced(m: MapperView, n: MapperView) -> bool {
    &&& grown(m, n)
    &&& sound(n)
    &&& slots_are_own(m) ==> slots_are_own(n)
}

proof fn lemma_advanced_twice(a: MapperView, b: MapperView, c: MapperView)
    requires
        advanced(a, b),
        advanced(b, c),
    ensures
        advanced(a, c),
{
    growth_is_transitive(a, b, c);
}

proof fn lemma_no_advance(m: MapperView)
    requires
        sound(m),
    ensures
        advanced(m, m),
{
    assert(m.external_roots.take(m.external_roots.len() as int) =~= m.external_roots);
}

/// A step leads to what the mapping became, whether it fails or not.
pub open spec fn leads_on<T>(m: MapperView, s: Result<(MapperView, T), Fault>) -> bool {
    match s {
        Ok((n, _)) => advanced(m, n),
        Err(f) => advanced(m, f.at),
    }
}

/// A step after a step leads to what the mapping became.
proof fn lemma_leads_on_twice<T>(m: MapperView, n: MapperView, s: Result<(MapperView, T), Fault>)
    requires
        advanced(m, n),
        leads_on(n, s),
    ensures
        leads_on(m, s),
{
    match s {
        Ok((k, _)) => lemma_advanced_twice(m, n, k),
        Err(f) => lemma_advanced_twice(m, n, f.at),
    }
}

/// Taking in an input leads on.
pub proof fn lemma_input_advances(m: MapperView, d: Seq<FactView>, path: Seq<u8>)
    requires
        sound(m),
    ensures
        leads_on(m, spelled_input(m, d, path)),
{
    input_grows(m, d, path, node_at(d, path), false);
    input_is_spelled_by_its_place(m, d, path);
}

proof fn lemma_spelling_advances(m: MapperView, d: Seq<FactView>, path: Seq<u8>)
    requires
        sound(m),
    ensures
        advanced(m, spelled(m, d, path).0),
{
    asking_grows(m, path, dir_at(d, path));
}

proof fn lemma_named_input_advances(m: MapperView, d: Seq<FactView>, path: Seq<char>)
    requires
        sound(m),
    ensures
        named_input(m, d, path) matches Some(s) ==> leads_on(m, s),
{
    lemma_input_advances(m, d, resolved(m, path));
}

proof fn lemma_values_advance(m: MapperView, d: Seq<FactView>, value: Seq<char>)
    requires
        sound(m),
    ensures
        leads_on(m, named_path_value(m, d, value)),
        leads_on(m, search_path_value(m, d, value)),
        leads_on(m, codegen_value(m, d, value)),
{
    lemma_no_advance(m);
    lemma_named_input_advances(m, d, value);
    if let Some((_, path)) = split_last(value, '=') {
        lemma_named_input_advances(m, d, path);
    }
    if let Some((_, path)) = split_first(value, '=') {
        lemma_named_input_advances(m, d, path);
    }
    if let Some(path) = after_prefix(value, "linker="@) {
        lemma_named_input_advances(m, d, path);
    }
    if let Some(path) = after_prefix(value, "link-arg="@) {
        lemma_named_input_advances(m, d, path);
    }
}

pub proof fn lemma_flag_advances(
    m: MapperView,
    d: Seq<FactView>,
    flag: Seq<char>,
    value: Seq<char>,
)
    requires
        sound(m),
    ensures
        leads_on(m, flag_spelled(m, d, flag, value)),
        flag_spelled(m, d, flag, value) matches Ok((_, words)) ==> words.len() == (if flag == "-C"@
            && after_prefix(value, "incremental="@) is Some {
            0nat
        } else {
            2nat
        }),
{
    lemma_no_advance(m);
    lemma_spelling_advances(m, d, resolved(m, value));
    lemma_input_advances(m, d, resolved(m, value));
    lemma_values_advance(m, d, value);
}

pub proof fn lemma_word_advances(m: MapperView, d: Seq<FactView>, arg: Seq<char>)
    requires
        sound(m),
    ensures
        leads_on(m, word_spelled(m, d, arg)),
{
    lemma_no_advance(m);
    lemma_input_advances(m, d, resolved(m, arg));
    if let Some(value) = after_prefix(arg, "--sysroot="@) {
        lemma_input_advances(m, d, resolved(m, value));
    }
    if let Some(value) = after_prefix(arg, "--remap-path-prefix="@) {
        if let Some((from, _)) = split_first(value, '=') {
            lemma_spelling_advances(m, d, resolved(m, from));
        }
    }
}

/// How many of the arguments ask for incremental compilation.
pub open spec fn incremental_flags(args: Seq<Seq<char>>) -> nat
    decreases args.len(),
{
    if args.len() < 2 {
        0
    } else if takes_value(args[0]) {
        (if args[0] == "-C"@ && after_prefix(args[1], "incremental="@) is Some {
            1nat
        } else {
            0nat
        }) + incremental_flags(args.skip(2))
    } else {
        incremental_flags(args.skip(1))
    }
}

/// Rewriting the arguments drops the flags for incremental compilation with their values, and
/// nothing else; the mapping stays in order and what was in it stays, whether the rewriting fails
/// or not.
pub proof fn only_incremental_flags_are_dropped(
    m: MapperView,
    d: Seq<FactView>,
    args: Seq<Seq<char>>,
)
    requires
        sound(m),
    ensures
        leads_on(m, args_spelled(m, d, args)),
        args_spelled(m, d, args) matches Ok((_, words)) ==> words.len() + 2 * incremental_flags(
            args,
        ) == args.len(),
    decreases args.len(),
{
    lemma_no_advance(m);
    if args.len() == 0 {
    } else if takes_value(args[0]) {
        if args.len() >= 2 {
            lemma_flag_advances(m, d, args[0], args[1]);
            if let Ok((n, words)) = flag_spelled(m, d, args[0], args[1]) {
                only_incremental_flags_are_dropped(n, d, args.skip(2));
                lemma_leads_on_twice(m, n, args_spelled(n, d, args.skip(2)));
            }
        }
    } else {
        lemma_word_advances(m, d, args[0]);
        if let Ok((n, word)) = word_spelled(m, d, args[0]) {
            only_incremental_flags_are_dropped(n, d, args.skip(1));
            lemma_leads_on_twice(m, n, args_spelled(n, d, args.skip(1)));
            if args.len() < 2 {
                assert(args.skip(1).len() == 0);
            }
        }
    }
}

/// A flag for incremental compilation with its value leaves no trace: the arguments after it are
/// spelled, and the mapping is left, as they would be without it, also where the rewriting fails.
pub proof fn incremental_flag_leaves_no_trace(
    m: MapperView,
    d: Seq<FactView>,
    value: Seq<char>,
    args: Seq<Seq<char>>,
)
    ensures
        args_spelled(m, d, seq!["-C"@, "incremental="@ + value] + args) == args_spelled(m, d, args),
{
    let option = "incremental="@;
    let all = seq!["-C"@, option + value] + args;
    assert((option + value).take(option.len() as int) =~= option);
    assert(all.skip(2) =~= args);
    assert(all[0] == "-C"@);
    assert(all[1] == option + value);
    assert(flag_spelled(m, d, all[0], all[1]) == Ok::<(MapperView, Seq<Seq<char>>), Fault>(
        (m, seq![]),
    ));
    if let Ok((n, words)) = args_spelled(m, d, args) {
        assert(seq![] + words =~= words);
    }
}

/// The texts of two arguments and of those after them.
proof fn lemma_two_texts_ahead(
    a: OsView,
    b: OsView,
    one: Seq<char>,
    two: Seq<char>,
    args: Seq<OsView>,
)
    requires
        utf8_text(a) == Ok::<Seq<char>, ErrorView>(one),
        utf8_text(b) == Ok::<Seq<char>, ErrorView>(two),
    ensures
        utf8_texts(seq![a, b] + args) == (match utf8_texts(args) {
            Ok(words) => Ok::<Seq<Seq<char>>, ErrorView>(seq![one, two] + words),
            Err(e) => Err(e),
        }),
{
    let all = seq![a, b] + args;
    let rest = all.skip(1);
    assert(all[0] == a);
    assert(rest[0] == b);
    assert(rest.skip(1) =~= args);
    match utf8_texts(args) {
        Ok(words) => {
            assert(utf8_texts(rest) == Ok::<Seq<Seq<char>>, ErrorView>(seq![two] + words));
            assert(seq![one] + (seq![two] + words) =~= seq![one, two] + words);
        },
        Err(e) => {
            assert(utf8_texts(rest) == Err::<Seq<Seq<char>>, ErrorView>(e));
        },
    }
}

/// A flag for incremental compilation leaves no trace among the arguments of a command.
pub proof fn incremental_argument_leaves_no_trace(
    m: MapperView,
    d: Seq<FactView>,
    flag: OsView,
    option: OsView,
    value: Seq<char>,
    args: Seq<OsView>,
)
    requires
        utf8_text(flag) == Ok::<Seq<char>, ErrorView>("-C"@),
        utf8_text(option) == Ok::<Seq<char>, ErrorView>("incremental="@ + value),
    ensures
        command_args(m, d, seq![flag, option] + args) == command_args(m, d, args),
{
    lemma_two_texts_ahead(flag, option, "-C"@, "incremental="@ + value, args);
    if let Ok(words) = utf8_texts(args) {
        incremental_flag_leaves_no_trace(m, d, value, words);
    }
}

/// Where nothing is at the paths that they mean, arguments by themselves stay as they are.
pub proof fn plain_arguments_stay(m: MapperView, d: Seq<FactView>, args: Seq<Seq<char>>)
    requires
        forall|i: int|
            #![trigger args[i]]
            0 <= i < args.len() ==> {
                &&& !takes_value(args[i])
                &&& after_prefix(args[i], "--sysroot="@) is None
                &&& after_prefix(args[i], "--remap-path-prefix="@) is None
                &&& !exists_at(d, resolved(m, args[i]))
            },
    ensures
        args_spelled(m, d, args) == Ok::<(MapperView, Seq<Seq<char>>), Fault>((m, args)),
    decreases args.len(),
{
    if args.len() > 0 {
        let rest = args.skip(1);
        assert forall|i: int| #![trigger rest[i]] 0 <= i < rest.len() implies {
            &&& !takes_value(rest[i])
            &&& after_prefix(rest[i], "--sysroot="@) is None
            &&& after_prefix(rest[i], "--remap-path-prefix="@) is None
            &&& !exists_at(d, resolved(m, rest[i]))
        } by {
            assert(rest[i] == args[i + 1]);
        }
        plain_arguments_stay(m, d, rest);
        assert(seq![args[0]] + rest =~= args);
    } else {
        assert(args =~= seq![]);
    }
}

proof fn lemma_inputs_advance(m: MapperView, d: Seq<FactView>, paths: Seq<Seq<u8>>)
    requires
        sound(m),
    ensures
        leads_on(m, inputs_spelled(m, d, paths)),
        inputs_spelled(m, d, paths) matches Ok((_, words)) ==> words.len() == paths.len(),
    decreases paths.len(),
{
    lemma_no_advance(m);
    if paths.len() > 0 {
        lemma_input_advances(m, d, paths[0]);
        if let Ok((n, _)) = spelled_input(m, d, paths[0]) {
            lemma_inputs_advance(n, d, paths.skip(1));
            lemma_leads_on_twice(m, n, inputs_spelled(n, d, paths.skip(1)));
        }
    }
}

pub proof fn lemma_env_value_advances(m: MapperView, d: Seq<FactView>, value: OsView)
    requires
        sound(m),
    ensures
        leads_on(m, os_env_value(m, d, value)),
{
    lemma_no_advance(m);
    if let Ok(text) = utf8_text(value) {
        lemma_input_advances(m, d, resolved(m, text));
        lemma_inputs_advance(m, d, search_paths(text));
    }
}

/// A variable is set, by one of the entries.
pub open spec fn is_set(envs: Seq<(Seq<char>, Option<OsView>)>, name: Seq<char>) -> bool {
    exists|i: int| 0 <= i < envs.len() && (#[trigger] envs[i]).0 == name && envs[i].1 is Some
}

/// Rewriting the environment keeps the variables that are set, and no others, in the order of
/// their names; the mapping stays in order and what was in it stays, whether the rewriting fails
/// or not.
pub proof fn environment_keeps_its_names(
    m: MapperView,
    d: Seq<FactView>,
    envs: Seq<(Seq<char>, Option<OsView>)>,
    done: Seq<(Seq<char>, Seq<char>)>,
    name: Seq<char>,
)
    requires
        sound(m),
        is_table(done),
    ensures
        leads_on(m, envs_spelled(m, d, envs, done)),
        envs_spelled(m, d, envs, done) matches Ok((_, table)) ==> {
            &&& is_table(table)
            &&& lookup::<String, Seq<char>>(table, name) is Some <==> (is_set(envs, name) || lookup::<
                String,
                Seq<char>,
            >(done, name) is Some)
        },
    decreases envs.len(),
{
    lemma_no_advance(m);
    if envs.len() > 0 {
        let rest = envs.skip(1);
        assert(is_set(envs, name) <==> (envs[0].0 == name && envs[0].1 is Some) || is_set(
            rest,
            name,
        )) by {
            if is_set(envs, name) {
                let i = choose|i: int|
                    0 <= i < envs.len() && (#[trigger] envs[i]).0 == name && envs[i].1 is Some;
                if i > 0 {
                    assert(rest[i - 1] == envs[i]);
                }
            }
            if is_set(rest, name) {
                let i = choose|i: int|
                    0 <= i < rest.len() && (#[trigger] rest[i]).0 == name && rest[i].1 is Some;
                assert(envs[i + 1] == rest[i]);
            }
        }
        match envs[0].1 {
            Some(value) => {
                lemma_env_value_advances(m, d, value);
                if let Ok((n, text)) = os_env_value(m, d, value) {
                    lemma_with::<String, Seq<char>>(done, envs[0].0, text);
                    let next = with_entry(done, envs[0].0, text);
                    environment_keeps_its_names(n, d, rest, next, name);
                    lemma_leads_on_twice(m, n, envs_spelled(n, d, rest, next));
                }
            },
            None => {
                environment_keeps_its_names(m, d, rest, done, name);
            },
        }
    }
}

/// One of the outputs is `local`, and a command spells it `remote`.
pub open spec fn is_output(
    n: MapperView,
    d: Seq<FactView>,
    outputs: Seq<Seq<u8>>,
    remote: Seq<char>,
    local: Seq<u8>,
) -> bool {
    outputs.contains(local) && spelled(n, d, local).1 == remote
}

/// Every output is expected under its remote spelling; what is expected under a spelling is an
/// output with that spelling, and nothing else; nothing is expected in place of the remote working
/// directory. The mapping stays in order and what was in it stays, whether the outputs can be
/// expected or not.
pub proof fn every_output_is_expected(
    m: MapperView,
    d: Seq<FactView>,
    outputs: Seq<Seq<u8>>,
    done: Seq<(Seq<char>, Seq<u8>)>,
)
    requires
        sound(m),
        is_table(done),
        lookup::<String, Seq<u8>>(done, "."@) is None,
    ensures
        leads_on(m, outputs_spelled(m, d, outputs, done)),
        outputs_spelled(m, d, outputs, done) matches Ok((n, table)) ==> {
            &&& is_table(table)
            &&& lookup::<String, Seq<u8>>(table, "."@) is None
            &&& forall|i: int|
                #![trigger outputs[i]]
                0 <= i < outputs.len() ==> lookup::<String, Seq<u8>>(
                    table,
                    spelled(n, d, outputs[i]).1,
                ) is Some
            &&& forall|remote: Seq<char>|
                (#[trigger] lookup::<String, Seq<u8>>(table, remote)) matches Some(local)
                    ==> is_output(n, d, outputs, remote, local) || lookup::<String, Seq<u8>>(
                    done,
                    remote,
                ) == Some(local)
            &&& forall|remote: Seq<char>|
                lookup::<String, Seq<u8>>(done, remote) is Some ==> (#[trigger] lookup::<
                    String,
                    Seq<u8>,
                >(table, remote)) is Some
        },
    decreases outputs.len(),
{
    lemma_no_advance(m);
    if outputs.len() > 0 {
        let path = outputs[0];
        let (n, remote) = spelled(m, d, path);
        lemma_spelling_advances(m, d, path);
        if remote != "."@ {
            let rest = outputs.skip(1);
            lemma_with::<String, Seq<u8>>(done, remote, path);
            let next = with_entry(done, remote, path);
            every_output_is_expected(n, d, rest, next);
            lemma_leads_on_twice(m, n, outputs_spelled(n, d, rest, next));
            if let Ok((k, table)) = outputs_spelled(n, d, rest, next) {
                let is_dir = dir_at(d, path);
                remote_path_is_stable(m, path, is_dir, k, is_dir);
                assert(spelled(k, d, path).1 == remote);
                assert(lookup::<String, Seq<u8>>(next, remote) is Some);
                assert(lookup::<String, Seq<u8>>(table, remote) is Some);
                assert forall|i: int|
                    #![trigger outputs[i]]
                    0 <= i < outputs.len() implies lookup::<String, Seq<u8>>(
                    table,
                    spelled(k, d, outputs[i]).1,
                ) is Some by {
                    if i > 0 {
                        assert(rest[i - 1] == outputs[i]);
                    }
                }
                assert forall|q: Seq<char>|
                    (#[trigger] lookup::<String, Seq<u8>>(table, q)) is Some implies is_output(
                    k,
                    d,
                    outputs,
                    q,
                    lookup::<String, Seq<u8>>(table, q)->0,
                ) || lookup::<String, Seq<u8>>(done, q) == lookup::<String, Seq<u8>>(table, q) by {
                    let local = lookup::<String, Seq<u8>>(table, q)->0;
                    if is_output(k, d, rest, q, local) {
                        let i = choose|i: int| 0 <= i < rest.len() && rest[i] == local;
                        assert(outputs[i + 1] == local);
                    } else if q == remote {
                        assert(local == path);
                        assert(outputs[0] == local);
                    } else {
                        assert(lookup::<String, Seq<u8>>(next, q) == lookup::<String, Seq<u8>>(
                            done,
                            q,
                        ));
                    }
                }
                assert forall|q: Seq<char>|
                    lookup::<String, Seq<u8>>(done, q) is Some implies (#[trigger] lookup::<
                    String,
                    Seq<u8>,
                >(table, q)) is Some by {
                    if q != remote {
                        assert(lookup::<String, Seq<u8>>(next, q) == lookup::<String, Seq<u8>>(
                            done,
                            q,
                        ));
                    }
                }
            }
        }
    }
}

} // verus!
