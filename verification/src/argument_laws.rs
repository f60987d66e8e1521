//! What becomes of each kind of argument, of the environment and of what they name.
use vstd::prelude::*;
use vstd::utf8::{encode_utf8, encode_utf8_decode_utf8, encode_utf8_valid_utf8, valid_utf8};

use crate::disk::{dir_at, exists_at, node_at, FactView};
use crate::environment::{envs_spelled, os_env_value, outputs_spelled};
use crate::error::{failure, ErrorView};
use crate::input_laws::{input_stands, input_stands_where_it_is_spelled, readable, tidy};
use crate::mapper::{
    asked, command_path, execroot, resolved, sound, spelled, spelled_input, with_path, Fault,
    MapperView,
};
use crate::mapper_laws::slots_are_own;
use crate::os_text::{utf8_text, utf8_texts, OsView};
use crate::path_laws::lemma_pieces_of_joined;
use crate::rewrite::{
    args_spelled, codegen_value, command_args, env_value, flag_spelled, inputs_spelled,
    named_path_value, remap_value, search_path_value, search_paths, takes_value, word_spelled,
    Spelling, Spellings,
};
use crate::rewrite_laws::lemma_input_advances;
use crate::sorted::{lemma_with, lookup};
use crate::tables::{is_table, with_entry};
use crate::text::{
    after_prefix, first_index, joined, last_index, lemma_first_index, lemma_first_index_is,
    lemma_last_index, lemma_last_index_is, pieces, split_first, split_last,
};

verus! {

/// How a command spells a local path.
pub open spec fn spelling(m: MapperView, d: Seq<FactView>, path: Seq<u8>) -> Seq<char> {
    command_path(execroot(m, path, dir_at(d, path)))
}

/// What is at a local path has been taken in, and the text is `lead` and the spelling of the path.
/// Where it can be read, nothing fails; where something fails, it is the taking in of the input.
pub open spec fn brings(
    m: MapperView,
    d: Seq<FactView>,
    path: Seq<u8>,
    lead: Seq<char>,
    s: Spelling,
) -> bool {
    &&& s matches Ok((n, text)) ==> input_stands(m, d, path, n) && text == lead + spelling(
        m,
        d,
        path,
    )
    &&& s matches Err(f) ==> with_path(m, d, path) == Err::<MapperView, Fault>(f)
    &&& readable(node_at(d, path)) && slots_are_own(m) ==> s is Ok
}

/// The same, for a text that stands after others.
pub open spec fn brings_after(
    m: MapperView,
    d: Seq<FactView>,
    path: Seq<u8>,
    words: Seq<Seq<char>>,
    lead: Seq<char>,
    s: Spellings,
) -> bool {
    &&& s matches Ok((n, texts)) ==> input_stands(m, d, path, n) && texts == words.push(
        lead + spelling(m, d, path),
    )
    &&& s matches Err(f) ==> with_path(m, d, path) == Err::<MapperView, Fault>(f)
    &&& readable(node_at(d, path)) && slots_are_own(m) ==> s is Ok
}

/// A local path is known, and nothing has been taken in.
pub open spec fn only_placed(
    m: MapperView,
    d: Seq<FactView>,
    path: Seq<u8>,
    n: MapperView,
) -> bool {
    &&& n == asked(m, path, dir_at(d, path))
    &&& n.tree == m.tree
    &&& n.uploads == m.uploads
}

proof fn lemma_input_brings(m: MapperView, d: Seq<FactView>, path: Seq<u8>)
    requires
        sound(m),
        tidy(node_at(d, path)),
    ensures
        brings(m, d, path, seq![], spelled_input(m, d, path)),
{
    input_stands_where_it_is_spelled(m, d, path);
    assert(seq![] + spelling(m, d, path) =~= spelling(m, d, path));
}

/// The first `c` is where a text without `c` ends.
pub proof fn lemma_first_split(a: Seq<char>, c: char, b: Seq<char>)
    requires
        !a.contains(c),
    ensures
        split_first(a + seq![c] + b, c) == Some((a, b)),
{
    let s = a + seq![c] + b;
    assert forall|i: int| 0 <= i < a.len() implies s[i] != c by {
        assert(a.contains(a[i]));
    }
    lemma_first_index_is(s, c, a.len() as int);
    assert(s.take(a.len() as int) =~= a);
    assert(s.skip(a.len() as int + 1) =~= b);
}

proof fn lemma_last_split(a: Seq<char>, c: char, b: Seq<char>)
    requires
        !b.contains(c),
    ensures
        split_last(a + seq![c] + b, c) == Some((a, b)),
{
    let s = a + seq![c] + b;
    assert forall|i: int| a.len() < i < s.len() implies s[i] != c by {
        assert(b.contains(b[i - a.len() - 1]));
    }
    lemma_last_index_is(s, c, a.len() as int);
    assert(s.take(a.len() as int) =~= a);
    assert(s.skip(a.len() as int + 1) =~= b);
}

/// A text without `c` has no two sides.
pub proof fn lemma_no_split(s: Seq<char>, c: char)
    requires
        !s.contains(c),
    ensures
        split_first(s, c) is None,
        split_last(s, c) is None,
{
    lemma_first_index(s, c);
    lemma_last_index(s, c);
    if first_index(s, c) < s.len() {
        assert(s.contains(s[first_index(s, c)]));
    }
    if last_index(s, c) >= 0 {
        assert(s.contains(s[last_index(s, c)]));
    }
}

/// The text of an equals sign.
pub proof fn lemma_equals_sign()
    ensures
        "="@ == seq!['='],
{
    reveal_strlit("=");
    assert("="@ =~= seq!['=']);
}

/// The flags that take a value are told apart.
pub proof fn lemma_flags()
    ensures
        "-L"@ != "--out-dir"@,
        "-L"@ != "-o"@,
        "-L"@ != "--extern"@,
        "-L"@ != "-C"@,
        "-C"@ != "--out-dir"@,
        "-C"@ != "-o"@,
        "-C"@ != "--extern"@,
        "--extern"@ != "--out-dir"@,
        "--extern"@ != "-o"@,
        "--sysroot"@ != "--out-dir"@,
        "--sysroot"@ != "-o"@,
        "--sysroot"@ != "--extern"@,
        "--sysroot"@ != "-L"@,
        "--sysroot"@ != "-C"@,
        "--out-dir"@ != "-C"@,
        "-o"@ != "-C"@,
{
    reveal_strlit("-L");
    reveal_strlit("-o");
    reveal_strlit("-C");
    reveal_strlit("--out-dir");
    reveal_strlit("--extern");
    reveal_strlit("--sysroot");
    assert("-L"@[1] == 'L');
    assert("-o"@[1] == 'o');
    assert("-C"@[1] == 'C');
    assert("--sysroot"@[2] == 's');
    assert("--out-dir"@[2] == 'o');
}

/// A flag and its value by themselves.
proof fn lemma_one_flag(m: MapperView, d: Seq<FactView>, flag: Seq<char>, value: Seq<char>)
    requires
        takes_value(flag),
    ensures
        args_spelled(m, d, seq![flag, value]) == flag_spelled(m, d, flag, value),
{
    let args = seq![flag, value];
    assert(args.skip(2) =~= seq![]);
    if let Ok((n, words)) = flag_spelled(m, d, flag, value) {
        assert(args_spelled(n, d, seq![]) == Ok::<(MapperView, Seq<Seq<char>>), Fault>(
            (n, seq![]),
        ));
        assert(words + seq![] =~= words);
    }
}

/// A word by itself.
proof fn lemma_one_word(m: MapperView, d: Seq<FactView>, word: Seq<char>)
    requires
        !takes_value(word),
    ensures
        args_spelled(m, d, seq![word]) == (match word_spelled(m, d, word) {
            Ok((n, text)) => Ok((n, seq![text])),
            Err(f) => Err(f),
        }),
{
    let args = seq![word];
    assert(args.skip(1) =~= seq![]);
    if let Ok((n, text)) = word_spelled(m, d, word) {
        assert(args_spelled(n, d, seq![]) == Ok::<(MapperView, Seq<Seq<char>>), Fault>(
            (n, seq![]),
        ));
        assert(seq![text] + seq![] =~= seq![text]);
    }
}

/// The arguments are spelled one after the other: those after a flag and its value are spelled as
/// they would be by themselves, with the mapping that the flag left.
pub proof fn arguments_follow_a_flag(
    m: MapperView,
    d: Seq<FactView>,
    flag: Seq<char>,
    value: Seq<char>,
    rest: Seq<Seq<char>>,
)
    requires
        flag == "--out-dir"@ || flag == "-o"@ || flag == "--extern"@ || flag == "-L"@ || flag
            == "-C"@ || flag == "--sysroot"@,
    ensures
        args_spelled(m, d, seq![flag, value] + rest) == (match args_spelled(
            m,
            d,
            seq![flag, value],
        ) {
            Ok((n, words)) => match args_spelled(n, d, rest) {
                Ok((k, more)) => Ok((k, words + more)),
                Err(f) => Err(f),
            },
            Err(f) => Err(f),
        }),
{
    lemma_one_flag(m, d, flag, value);
    let all = seq![flag, value] + rest;
    assert(all.skip(2) =~= rest);
    assert(all[0] == flag && all[1] == value);
}

/// The same for an argument by itself.
pub proof fn arguments_follow_a_word(
    m: MapperView,
    d: Seq<FactView>,
    word: Seq<char>,
    rest: Seq<Seq<char>>,
)
    requires
        word != "--out-dir"@ && word != "-o"@ && word != "--extern"@ && word != "-L"@ && word
            != "-C"@ && word != "--sysroot"@,
    ensures
        args_spelled(m, d, seq![word] + rest) == (match args_spelled(m, d, seq![word]) {
            Ok((n, words)) => match args_spelled(n, d, rest) {
                Ok((k, more)) => Ok((k, words + more)),
                Err(f) => Err(f),
            },
            Err(f) => Err(f),
        }),
{
    lemma_one_word(m, d, word);
    let all = seq![word] + rest;
    assert(all.skip(1) =~= rest);
    assert(all[0] == word);
}

/// A flag at the end, without its value, fails and changes nothing.
pub proof fn flag_needs_its_value(m: MapperView, d: Seq<FactView>, flag: Seq<char>)
    ensures
        flag == "--out-dir"@ || flag == "-o"@ ==> args_spelled(m, d, seq![flag]) == Err::<
            (MapperView, Seq<Seq<char>>),
            Fault,
        >(
            Fault {
                at: m,
                error: failure("expected a value after a path-bearing rustc flag"@),
            },
        ),
        flag == "--extern"@ || flag == "-L"@ || flag == "-C"@ || flag == "--sysroot"@
            ==> args_spelled(m, d, seq![flag]) == Err::<(MapperView, Seq<Seq<char>>), Fault>(
            Fault { at: m, error: failure("expected a value after `"@ + flag + "`"@) },
        ),
{
    lemma_flags();
}

/// The directory or file of an `-L` argument is taken in whole, below the remote path by which the
/// argument spells it: what follows the first `=`, where something is there, and otherwise the
/// whole value, where something is there.
pub proof fn search_path_argument_is_taken_in(
    m: MapperView,
    d: Seq<FactView>,
    kind: Seq<char>,
    path: Seq<char>,
)
    requires
        sound(m),
        !kind.contains('='),
        tidy(node_at(d, resolved(m, path))),
        tidy(node_at(d, resolved(m, kind + "="@ + path))),
    ensures
        exists_at(d, resolved(m, path)) ==> {
            &&& brings(
                m,
                d,
                resolved(m, path),
                kind + "="@,
                search_path_value(m, d, kind + "="@ + path),
            )
            &&& brings_after(
                m,
                d,
                resolved(m, path),
                seq!["-L"@],
                kind + "="@,
                args_spelled(m, d, seq!["-L"@, kind + "="@ + path]),
            )
        },
        !exists_at(d, resolved(m, path)) && exists_at(d, resolved(m, kind + "="@ + path)) ==> {
            &&& brings(
                m,
                d,
                resolved(m, kind + "="@ + path),
                seq![],
                search_path_value(m, d, kind + "="@ + path),
            )
            &&& brings_after(
                m,
                d,
                resolved(m, kind + "="@ + path),
                seq!["-L"@],
                seq![],
                args_spelled(m, d, seq!["-L"@, kind + "="@ + path]),
            )
        },
        !exists_at(d, resolved(m, path)) && !exists_at(d, resolved(m, kind + "="@ + path))
            ==> args_spelled(m, d, seq!["-L"@, kind + "="@ + path]) == Ok::<
            (MapperView, Seq<Seq<char>>),
            Fault,
        >((m, seq!["-L"@, kind + "="@ + path])),
{
    let value = kind + "="@ + path;
    lemma_equals_sign();
    lemma_first_split(kind, '=', path);
    lemma_flags();
    lemma_one_flag(m, d, "-L"@, value);
    lemma_input_brings(m, d, resolved(m, path));
    lemma_input_brings(m, d, resolved(m, value));
    lemma_pushed("-L"@, kind + "="@ + spelling(m, d, resolved(m, path)));
    lemma_pushed("-L"@, seq![] + spelling(m, d, resolved(m, value)));
    assert(seq![] + spelling(m, d, resolved(m, path)) =~= spelling(m, d, resolved(m, path)));
}

proof fn lemma_pushed(a: Seq<char>, b: Seq<char>)
    ensures
        seq![a].push(b) == seq![a, b],
{
    assert(seq![a].push(b) =~= seq![a, b]);
}

/// An `-L` argument without a kind: the path is taken in whole, where something is there.
pub proof fn plain_search_path_is_taken_in(m: MapperView, d: Seq<FactView>, path: Seq<char>)
    requires
        sound(m),
        !path.contains('='),
        tidy(node_at(d, resolved(m, path))),
    ensures
        exists_at(d, resolved(m, path)) ==> brings_after(
            m,
            d,
            resolved(m, path),
            seq!["-L"@],
            seq![],
            args_spelled(m, d, seq!["-L"@, path]),
        ),
        !exists_at(d, resolved(m, path)) ==> args_spelled(m, d, seq!["-L"@, path]) == Ok::<
            (MapperView, Seq<Seq<char>>),
            Fault,
        >((m, seq!["-L"@, path])),
{
    lemma_no_split(path, '=');
    lemma_flags();
    lemma_one_flag(m, d, "-L"@, path);
    lemma_input_brings(m, d, resolved(m, path));
    lemma_pushed("-L"@, seq![] + spelling(m, d, resolved(m, path)));
}

/// The file of an `--extern` argument, which follows the last `=`, is taken in where it is there.
pub proof fn dependency_is_taken_in(
    m: MapperView,
    d: Seq<FactView>,
    name: Seq<char>,
    path: Seq<char>,
)
    requires
        sound(m),
        !path.contains('='),
        tidy(node_at(d, resolved(m, path))),
    ensures
        exists_at(d, resolved(m, path)) ==> {
            &&& brings(
                m,
                d,
                resolved(m, path),
                name + "="@,
                named_path_value(m, d, name + "="@ + path),
            )
            &&& brings_after(
                m,
                d,
                resolved(m, path),
                seq!["--extern"@],
                name + "="@,
                args_spelled(m, d, seq!["--extern"@, name + "="@ + path]),
            )
        },
        !exists_at(d, resolved(m, path)) ==> args_spelled(
            m,
            d,
            seq!["--extern"@, name + "="@ + path],
        ) == Ok::<(MapperView, Seq<Seq<char>>), Fault>(
            (m, seq!["--extern"@, name + "="@ + path]),
        ),
        args_spelled(m, d, seq!["--extern"@, path]) == Ok::<(MapperView, Seq<Seq<char>>), Fault>(
            (m, seq!["--extern"@, path]),
        ),
{
    let value = name + "="@ + path;
    lemma_equals_sign();
    lemma_last_split(name, '=', path);
    lemma_no_split(path, '=');
    lemma_flags();
    lemma_one_flag(m, d, "--extern"@, value);
    lemma_one_flag(m, d, "--extern"@, path);
    lemma_input_brings(m, d, resolved(m, path));
    lemma_pushed("--extern"@, name + "="@ + spelling(m, d, resolved(m, path)));
    assert(seq![] + spelling(m, d, resolved(m, path)) =~= spelling(m, d, resolved(m, path)));
}

/// A linker, and an argument for it, is taken in where it is a path at which something is.
pub proof fn linker_is_taken_in(
    m: MapperView,
    d: Seq<FactView>,
    option: Seq<char>,
    path: Seq<char>,
)
    requires
        sound(m),
        option == "linker="@ || option == "link-arg="@,
        tidy(node_at(d, resolved(m, path))),
    ensures
        exists_at(d, resolved(m, path)) ==> {
            &&& brings(m, d, resolved(m, path), option, codegen_value(m, d, option + path))
            &&& brings_after(
                m,
                d,
                resolved(m, path),
                seq!["-C"@],
                option,
                args_spelled(m, d, seq!["-C"@, option + path]),
            )
        },
        !exists_at(d, resolved(m, path)) ==> args_spelled(m, d, seq!["-C"@, option + path])
            == Ok::<(MapperView, Seq<Seq<char>>), Fault>((m, seq!["-C"@, option + path])),
{
    let value = option + path;
    reveal_strlit("linker=");
    reveal_strlit("link-arg=");
    reveal_strlit("incremental=");
    assert(value.take(option.len() as int) =~= option);
    assert(value.skip(option.len() as int) =~= path);
    assert(value[0] == 'l');
    assert(value[4] == option[4]);
    assert("linker="@[4] == 'e' && "link-arg="@[4] == '-');
    if value.len() >= "incremental="@.len() {
        assert(value.take("incremental="@.len() as int)[0] == 'l');
        assert("incremental="@[0] == 'i');
    }
    if option == "link-arg="@ {
        if value.len() >= "linker="@.len() {
            assert(value.take("linker="@.len() as int)[4] == '-');
        }
    }
    lemma_flags();
    lemma_one_flag(m, d, "-C"@, value);
    lemma_input_brings(m, d, resolved(m, path));
    lemma_pushed("-C"@, option + spelling(m, d, resolved(m, path)));
    assert(seq![] + spelling(m, d, resolved(m, path)) =~= spelling(m, d, resolved(m, path)));
}

/// Other code generation options stay as they are, and change nothing.
pub proof fn other_codegen_options_stay(m: MapperView, d: Seq<FactView>, value: Seq<char>)
    requires
        after_prefix(value, "linker="@) is None,
        after_prefix(value, "link-arg="@) is None,
        after_prefix(value, "incremental="@) is None,
    ensures
        args_spelled(m, d, seq!["-C"@, value]) == Ok::<(MapperView, Seq<Seq<char>>), Fault>(
            (m, seq!["-C"@, value]),
        ),
{
    lemma_flags();
    lemma_one_flag(m, d, "-C"@, value);
}

/// The sysroot is taken in, in either form of the argument.
pub proof fn sysroot_is_taken_in(m: MapperView, d: Seq<FactView>, path: Seq<char>)
    requires
        sound(m),
        tidy(node_at(d, resolved(m, path))),
    ensures
        brings_after(
            m,
            d,
            resolved(m, path),
            seq!["--sysroot"@],
            seq![],
            args_spelled(m, d, seq!["--sysroot"@, path]),
        ),
        brings_after(
            m,
            d,
            resolved(m, path),
            seq![],
            "--sysroot="@,
            args_spelled(m, d, seq!["--sysroot="@ + path]),
        ),
{
    let word = "--sysroot="@ + path;
    lemma_flags();
    lemma_one_flag(m, d, "--sysroot"@, path);
    lemma_input_brings(m, d, resolved(m, path));
    lemma_pushed("--sysroot"@, seq![] + spelling(m, d, resolved(m, path)));
    reveal_strlit("--sysroot=");
    reveal_strlit("--sysroot");
    reveal_strlit("--out-dir");
    reveal_strlit("--extern");
    reveal_strlit("-o");
    reveal_strlit("-L");
    reveal_strlit("-C");
    assert(word.len() >= 10);
    assert(word.take(10) =~= "--sysroot="@);
    assert(word.skip(10) =~= path);
    lemma_one_word(m, d, word);
    assert(seq![] + spelling(m, d, resolved(m, path)) =~= spelling(m, d, resolved(m, path)));
    let text = "--sysroot="@ + spelling(m, d, resolved(m, path));
    assert(Seq::<Seq<char>>::empty().push(text) =~= seq![text]);
}

/// An argument by itself that names something is taken in; one that names nothing stays.
pub proof fn word_is_taken_in(m: MapperView, d: Seq<FactView>, word: Seq<char>)
    requires
        sound(m),
        !takes_value(word),
        after_prefix(word, "--sysroot="@) is None,
        after_prefix(word, "--remap-path-prefix="@) is None,
        tidy(node_at(d, resolved(m, word))),
    ensures
        exists_at(d, resolved(m, word)) ==> brings_after(
            m,
            d,
            resolved(m, word),
            seq![],
            seq![],
            args_spelled(m, d, seq![word]),
        ),
        !exists_at(d, resolved(m, word)) ==> args_spelled(m, d, seq![word]) == Ok::<
            (MapperView, Seq<Seq<char>>),
            Fault,
        >((m, seq![word])),
{
    lemma_one_word(m, d, word);
    lemma_input_brings(m, d, resolved(m, word));
    let text = seq![] + spelling(m, d, resolved(m, word));
    assert(Seq::<Seq<char>>::empty().push(text) =~= seq![text]);
}

/// A place for outputs is spelled as it is placed, and nothing is taken in for it.
pub proof fn output_argument_is_only_placed(
    m: MapperView,
    d: Seq<FactView>,
    flag: Seq<char>,
    path: Seq<char>,
)
    requires
        flag == "--out-dir"@ || flag == "-o"@,
    ensures
        args_spelled(m, d, seq![flag, path]) matches Ok((n, words)) && {
            &&& only_placed(m, d, resolved(m, path), n)
            &&& words == seq![flag, spelling(m, d, resolved(m, path))]
        },
{
    lemma_flags();
    lemma_one_flag(m, d, flag, path);
}

/// A path prefix to be replaced is spelled as it is placed where something is there, and nothing is
/// taken in for it; what it is replaced by stays.
pub proof fn remapped_prefix_is_only_placed(
    m: MapperView,
    d: Seq<FactView>,
    from: Seq<char>,
    to: Seq<char>,
)
    requires
        !from.contains('='),
    ensures
        remap_value(m, d, from + "="@ + to) matches Ok((n, text)) && (if exists_at(
            d,
            resolved(m, from),
        ) {
            &&& only_placed(m, d, resolved(m, from), n)
            &&& text == "--remap-path-prefix="@ + spelling(m, d, resolved(m, from)) + "="@ + to
        } else {
            &&& n == m
            &&& text == "--remap-path-prefix="@ + from + "="@ + to
        }),
        remap_value(m, d, from) == Err::<(MapperView, Seq<char>), Fault>(
            Fault { at: m, error: failure("invalid `--remap-path-prefix` argument"@) },
        ),
{
    lemma_equals_sign();
    lemma_first_split(from, '=', to);
    lemma_no_split(from, '=');
}

/// A variable whose value names something has that taken in, and its spelling as its value.
pub proof fn variable_is_taken_in(m: MapperView, d: Seq<FactView>, value: Seq<char>)
    requires
        sound(m),
        exists_at(d, resolved(m, value)),
        tidy(node_at(d, resolved(m, value))),
    ensures
        brings(m, d, resolved(m, value), seq![], env_value(m, d, value)),
{
    lemma_input_brings(m, d, resolved(m, value));
}

/// A variable whose value names nothing, and is no search path of things that are there, stays.
pub proof fn other_variables_stay(m: MapperView, d: Seq<FactView>, value: Seq<char>, i: int)
    requires
        !exists_at(d, resolved(m, value)),
        0 <= i < search_paths(value).len(),
        !exists_at(d, search_paths(value)[i]),
    ensures
        env_value(m, d, value) == Ok::<(MapperView, Seq<char>), Fault>((m, value)),
{
}

/// What is at each of the paths has been taken in, one after the other, and the texts are their
/// spellings.
pub open spec fn brought_all(
    m: MapperView,
    d: Seq<FactView>,
    paths: Seq<Seq<u8>>,
    n: MapperView,
    texts: Seq<Seq<char>>,
) -> bool
    decreases paths.len(),
{
    if paths.len() == 0 {
        n == m && texts.len() == 0
    } else {
        &&& texts.len() > 0
        &&& texts[0] == spelling(m, d, paths[0])
        &&& exists|k: MapperView|
            #[trigger] input_stands(m, d, paths[0], k) && brought_all(
                k,
                d,
                paths.skip(1),
                n,
                texts.skip(1),
            )
    }
}

proof fn lemma_inputs_brought(m: MapperView, d: Seq<FactView>, paths: Seq<Seq<u8>>)
    requires
        sound(m),
        forall|i: int| 0 <= i < paths.len() ==> tidy(node_at(d, #[trigger] paths[i])),
    ensures
        inputs_spelled(m, d, paths) matches Ok((n, texts)) ==> brought_all(m, d, paths, n, texts)
            && texts.len() == paths.len(),
        slots_are_own(m) && (forall|i: int|
            0 <= i < paths.len() ==> readable(node_at(d, #[trigger] paths[i])))
            ==> inputs_spelled(m, d, paths) is Ok,
    decreases paths.len(),
{
    if paths.len() > 0 {
        assert(tidy(node_at(d, paths[0])));
        input_stands_where_it_is_spelled(m, d, paths[0]);
        lemma_input_advances(m, d, paths[0]);
        if let Ok((k, text)) = spelled_input(m, d, paths[0]) {
            let rest = paths.skip(1);
            assert forall|i: int| 0 <= i < rest.len() implies tidy(
                node_at(d, #[trigger] rest[i]),
            ) by {
                assert(rest[i] == paths[i + 1]);
            }
            if forall|i: int| 0 <= i < paths.len() ==> readable(node_at(d, #[trigger] paths[i])) {
                assert forall|i: int| 0 <= i < rest.len() implies readable(
                    node_at(d, #[trigger] rest[i]),
                ) by {
                    assert(rest[i] == paths[i + 1]);
                }
            }
            lemma_inputs_brought(k, d, rest);
            if let Ok((n, texts)) = inputs_spelled(k, d, rest) {
                let all = seq![text] + texts;
                assert(all.skip(1) =~= texts);
                assert(all[0] == text);
                assert(input_stands(m, d, paths[0], k) && brought_all(
                    k,
                    d,
                    paths.skip(1),
                    n,
                    all.skip(1),
                ));
                assert(brought_all(m, d, paths, n, all));
            }
        }
    }
}

/// A variable that is a search path of things that are there has each of them taken in, in their
/// order, and the search path of their spellings as its value. It fails where a spelling has the
/// separator in it, or something cannot be read.
pub proof fn search_path_variable_is_taken_in(
    m: MapperView,
    d: Seq<FactView>,
    words: Seq<Seq<char>>,
)
    requires
        sound(m),
        words.len() > 0,
        forall|i: int| 0 <= i < words.len() ==> !(#[trigger] words[i]).contains(':'),
        !exists_at(d, resolved(m, joined(words, ":"@))),
        forall|i: int| 0 <= i < words.len() ==> exists_at(d, encode_utf8(#[trigger] words[i])),
        forall|i: int| 0 <= i < words.len() ==> tidy(node_at(d, encode_utf8(#[trigger] words[i]))),
    ensures
        env_value(m, d, joined(words, ":"@)) matches Ok((n, text)) ==> brought_all(
            m,
            d,
            words.map_values(|word: Seq<char>| encode_utf8(word)),
            n,
            pieces(text, ':'),
        ),
        slots_are_own(m) && (forall|i: int|
            0 <= i < words.len() ==> readable(node_at(d, encode_utf8(#[trigger] words[i])))) ==> (
        env_value(m, d, joined(words, ":"@)) matches Err(f) ==> f.error == failure(
            "path segment contains separator `:`"@,
        ) && exists|texts: Seq<Seq<char>>, j: int|
            #![trigger texts[j]]
            0 <= j < texts.len() && texts[j].contains(':') && brought_all(
                m,
                d,
                words.map_values(|word: Seq<char>| encode_utf8(word)),
                f.at,
                texts,
            )),
{
    reveal_strlit(":");
    assert(":"@ =~= seq![':']);
    let value = joined(words, ":"@);
    lemma_pieces_of_joined(words, ':');
    let paths = words.map_values(|word: Seq<char>| encode_utf8(word));
    assert(search_paths(value) =~= paths);
    assert forall|i: int| 0 <= i < paths.len() implies tidy(node_at(d, #[trigger] paths[i])) by {
        assert(tidy(node_at(d, encode_utf8(words[i]))));
    }
    assert forall|i: int| 0 <= i < paths.len() implies exists_at(d, #[trigger] paths[i]) by {
        assert(exists_at(d, encode_utf8(words[i])));
    }
    if forall|i: int| 0 <= i < words.len() ==> readable(node_at(d, encode_utf8(#[trigger] words[i]))) {
        assert forall|i: int| 0 <= i < paths.len() implies readable(
            node_at(d, #[trigger] paths[i]),
        ) by {
            assert(readable(node_at(d, encode_utf8(words[i]))));
        }
    }
    lemma_inputs_brought(m, d, paths);
    if let Ok((n, parts)) = inputs_spelled(m, d, paths) {
        if exists|i: int| 0 <= i < parts.len() && parts[i].contains(':') {
            let j = choose|j: int| 0 <= j < parts.len() && parts[j].contains(':');
            assert(parts[j].contains(':') && brought_all(m, d, paths, n, parts));
        } else {
            lemma_pieces_of_joined(parts, ':');
        }
    }
}

/// The variables are handled one after the other: those after the first ones with the mapping and
/// the table that these left.
pub proof fn variables_follow_one_another(
    m: MapperView,
    d: Seq<FactView>,
    a: Seq<(Seq<char>, Option<OsView>)>,
    b: Seq<(Seq<char>, Option<OsView>)>,
    done: Seq<(Seq<char>, Seq<char>)>,
)
    ensures
        envs_spelled(m, d, a + b, done) == (match envs_spelled(m, d, a, done) {
            Ok((n, table)) => envs_spelled(n, d, b, table),
            Err(f) => Err(f),
        }),
    decreases a.len(),
{
    if a.len() == 0 {
        assert(a + b =~= b);
    } else {
        assert((a + b).skip(1) =~= a.skip(1) + b);
        assert((a + b)[0] == a[0]);
        match a[0].1 {
            Some(value) => {
                if let Ok((n, text)) = os_env_value(m, d, value) {
                    variables_follow_one_another(
                        n,
                        d,
                        a.skip(1),
                        b,
                        with_entry(done, a[0].0, text),
                    );
                }
            },
            None => {
                variables_follow_one_another(m, d, a.skip(1), b, done);
            },
        }
    }
}

/// A variable with a value is in the table under its name, with the value that the remote side has
/// for it, and no other variable changes; one without a value changes nothing.
pub proof fn variable_is_in_the_table(
    m: MapperView,
    d: Seq<FactView>,
    name: Seq<char>,
    value: OsView,
    text: Seq<char>,
    done: Seq<(Seq<char>, Seq<char>)>,
    other: Seq<char>,
)
    requires
        is_table(done),
    ensures
        utf8_text(value) == Ok::<Seq<char>, ErrorView>(text) ==> match env_value(m, d, text) {
            Ok((n, spelled)) => envs_spelled(m, d, seq![(name, Some(value))], done) matches Ok(
                (k, table),
            ) && {
                &&& k == n
                &&& lookup::<String, Seq<char>>(table, name) == Some(spelled)
                &&& other != name ==> lookup::<String, Seq<char>>(table, other) == lookup::<
                    String,
                    Seq<char>,
                >(done, other)
            },
            Err(f) => envs_spelled(m, d, seq![(name, Some(value))], done) == Err::<
                (MapperView, Seq<(Seq<char>, Seq<char>)>),
                Fault,
            >(f),
        },
        envs_spelled(m, d, seq![(name, None)], done) == Ok::<
            (MapperView, Seq<(Seq<char>, Seq<char>)>),
            Fault,
        >((m, done)),
{
    let one: Seq<(Seq<char>, Option<OsView>)> = seq![(name, Some(value))];
    let none: Seq<(Seq<char>, Option<OsView>)> = seq![(name, None)];
    assert(one.skip(1) =~= seq![]);
    assert(none.skip(1) =~= seq![]);
    assert(envs_spelled(m, d, seq![], done) == Ok::<
        (MapperView, Seq<(Seq<char>, Seq<char>)>),
        Fault,
    >((m, done)));
    if let Ok((n, spelled)) = os_env_value(m, d, value) {
        let table = with_entry(done, name, spelled);
        assert(envs_spelled(n, d, seq![], table) == Ok::<
            (MapperView, Seq<(Seq<char>, Seq<char>)>),
            Fault,
        >((n, table)));
        lemma_with::<String, Seq<char>>(done, name, spelled);
    }
}

/// An argument that replaces a path prefix spells the prefix as it is placed where something is
/// there, and takes in nothing for it.
pub proof fn remapping_argument_is_only_placed(
    m: MapperView,
    d: Seq<FactView>,
    from: Seq<char>,
    to: Seq<char>,
)
    requires
        !from.contains('='),
    ensures
        args_spelled(m, d, seq!["--remap-path-prefix="@ + from + "="@ + to]) matches Ok((n, words))
            && (if exists_at(d, resolved(m, from)) {
            &&& only_placed(m, d, resolved(m, from), n)
            &&& words == seq![
                "--remap-path-prefix="@ + spelling(m, d, resolved(m, from)) + "="@ + to,
            ]
        } else {
            &&& n == m
            &&& words == seq!["--remap-path-prefix="@ + from + "="@ + to]
        }),
{
    let value = from + "="@ + to;
    let word = "--remap-path-prefix="@ + from + "="@ + to;
    remapped_prefix_is_only_placed(m, d, from, to);
    assert(word =~= "--remap-path-prefix="@ + value);
    lemma_remap_word(value);
    lemma_one_word(m, d, word);
}

/// An argument that replaces a path prefix is no other argument.
pub proof fn lemma_remap_word(value: Seq<char>)
    ensures
        !takes_value("--remap-path-prefix="@ + value),
        after_prefix("--remap-path-prefix="@ + value, "--sysroot="@) is None,
        after_prefix("--remap-path-prefix="@ + value, "--remap-path-prefix="@) == Some(value),
{
    let lead = "--remap-path-prefix="@;
    let word = lead + value;
    reveal_strlit("--remap-path-prefix=");
    reveal_strlit("--sysroot=");
    reveal_strlit("--sysroot");
    reveal_strlit("--out-dir");
    reveal_strlit("--extern");
    reveal_strlit("-o");
    reveal_strlit("-L");
    reveal_strlit("-C");
    let n = lead.len() as int;
    assert(word.take(n) =~= lead);
    assert(word.skip(n) =~= value);
    assert(word[2] == 'r');
    assert(word.take(10)[2] == 'r');
    assert("--sysroot="@[2] == 's');
    assert("--sysroot"@[2] == 's');
    assert("--out-dir"@[2] == 'o');
    assert("--extern"@[2] == 'e');
}

/// The arguments of a command are the texts that it was given.
pub proof fn arguments_are_texts(
    m: MapperView,
    d: Seq<FactView>,
    args: Seq<OsView>,
    words: Seq<Seq<char>>,
)
    requires
        args.len() == words.len(),
        forall|j: int| 0 <= j < args.len() ==> (#[trigger] args[j]).raw == encode_utf8(words[j]),
    ensures
        command_args(m, d, args) == args_spelled(m, d, words),
{
    lemma_texts(args, words);
}

proof fn lemma_texts(args: Seq<OsView>, words: Seq<Seq<char>>)
    requires
        args.len() == words.len(),
        forall|j: int| 0 <= j < args.len() ==> (#[trigger] args[j]).raw == encode_utf8(words[j]),
    ensures
        utf8_texts(args) == Ok::<Seq<Seq<char>>, ErrorView>(words),
    decreases args.len(),
{
    if args.len() == 0 {
        assert(words =~= seq![]);
    } else {
        let rest = args.skip(1);
        let others = words.skip(1);
        assert forall|j: int| 0 <= j < rest.len() implies (#[trigger] rest[j]).raw == encode_utf8(
            others[j],
        ) by {
            assert(rest[j] == args[j + 1]);
        }
        lemma_texts(rest, others);
        assert(args[0].raw == encode_utf8(words[0]));
        encode_utf8_valid_utf8(words[0]);
        encode_utf8_decode_utf8(words[0]);
        assert(seq![words[0]] + others =~= words);
    }
}

/// The first argument that is no text is the one that is refused.
pub proof fn first_broken_argument_is_refused(
    m: MapperView,
    d: Seq<FactView>,
    args: Seq<OsView>,
    i: int,
)
    requires
        0 <= i < args.len(),
        !valid_utf8(args[i].raw),
        forall|j: int| 0 <= j < i ==> valid_utf8((#[trigger] args[j]).raw),
    ensures
        command_args(m, d, args) == Err::<(MapperView, Seq<Seq<char>>), Fault>(
            Fault {
                at: m,
                error: failure(
                    "remote execution requires UTF-8, found "@ + "`"@ + args[i].shown + "`"@,
                ),
            },
        ),
{
    lemma_broken_text(args, i);
}

proof fn lemma_broken_text(args: Seq<OsView>, i: int)
    requires
        0 <= i < args.len(),
        !valid_utf8(args[i].raw),
        forall|j: int| 0 <= j < i ==> valid_utf8((#[trigger] args[j]).raw),
    ensures
        utf8_texts(args) == Err::<Seq<Seq<char>>, ErrorView>(
            failure("remote execution requires UTF-8, found "@ + "`"@ + args[i].shown + "`"@),
        ),
    decreases args.len(),
{
    if i > 0 {
        let rest = args.skip(1);
        assert(valid_utf8(args[0].raw));
        assert forall|j: int| 0 <= j < i - 1 implies valid_utf8((#[trigger] rest[j]).raw) by {
            assert(rest[j] == args[j + 1]);
        }
        lemma_broken_text(rest, i - 1);
    }
}

/// The outputs are handled one after the other: those after the first ones with the mapping and the
/// table that these left.
pub proof fn outputs_follow_one_another(
    m: MapperView,
    d: Seq<FactView>,
    a: Seq<Seq<u8>>,
    b: Seq<Seq<u8>>,
    done: Seq<(Seq<char>, Seq<u8>)>,
)
    ensures
        outputs_spelled(m, d, a + b, done) == (match outputs_spelled(m, d, a, done) {
            Ok((n, table)) => outputs_spelled(n, d, b, table),
            Err(f) => Err(f),
        }),
    decreases a.len(),
{
    if a.len() == 0 {
        assert(a + b =~= b);
    } else {
        assert((a + b).skip(1) =~= a.skip(1) + b);
        assert((a + b)[0] == a[0]);
        let (n, remote) = spelled(m, d, a[0]);
        if remote != "."@ {
            outputs_follow_one_another(n, d, a.skip(1), b, with_entry(done, remote, a[0]));
        }
    }
}

/// An output is expected under its spelling, and nothing is taken in for it; other outputs stay.
/// The remote working directory itself cannot be an output.
pub proof fn output_is_expected_under_its_spelling(
    m: MapperView,
    d: Seq<FactView>,
    path: Seq<u8>,
    done: Seq<(Seq<char>, Seq<u8>)>,
    other: Seq<char>,
)
    requires
        is_table(done),
    ensures
        spelling(m, d, path) != "."@ ==> (outputs_spelled(m, d, seq![path], done) matches Ok(
            (n, table),
        ) && {
            &&& only_placed(m, d, path, n)
            &&& lookup::<String, Seq<u8>>(table, spelling(m, d, path)) == Some(path)
            &&& other != spelling(m, d, path) ==> lookup::<String, Seq<u8>>(table, other) == lookup::<
                String,
                Seq<u8>,
            >(done, other)
        }),
        spelling(m, d, path) == "."@ ==> (outputs_spelled(m, d, seq![path], done) matches Err(f)
            && f.error == failure(
            "unexpected output path at the remote working directory root"@,
        )),
{
    let one = seq![path];
    let (n, remote) = spelled(m, d, path);
    assert(one.skip(1) =~= seq![]);
    if remote != "."@ {
        let table = with_entry(done, remote, path);
        assert(outputs_spelled(n, d, seq![], table) == Ok::<
            (MapperView, Seq<(Seq<char>, Seq<u8>)>),
            Fault,
        >((n, table)));
        lemma_with::<String, Seq<u8>>(done, remote, path);
    }
}

} // verus!
