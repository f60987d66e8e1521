//! How the arguments and the environment of a command are spelled on the remote side.
use vstd::prelude::*;
use vstd::utf8::encode_utf8;

use crate::disk::{exists_at, Disk, FactView};
use crate::error::{fail, failure, Error};
use crate::local_path::LocalPath;
use crate::mapper::{
    raw_paths, resolved, sound, spelled, spelled_input, yields, Fault, MapperView, PathMapper,
};
use crate::os_text::{os_views, utf8_args, utf8_texts, OsText, OsView};
use crate::text::{
    after_prefix, join, joined, lemma_first_index, pieces, plus, rsplit_once, same_text,
    split_first, split_last, split_on, split_once, strip_prefix, texts,
};

verus! {

/// What a rewriting step leads to: the mapping after it and the text, or the mapping after it and
/// a failure.
pub type Spelling = Result<(MapperView, Seq<char>), Fault>;

/// What the rewriting of several texts leads to.
pub type Spellings = Result<(MapperView, Seq<Seq<char>>), Fault>;

/// A spelling with a text in front of it.
pub open spec fn prefixed(prefix: Seq<char>, s: Spelling) -> Spelling {
    match s {
        Ok((m, text)) => Ok((m, prefix + text)),
        Err(e) => Err(e),
    }
}

/// The spelling of the path that `path` means where something is there.
pub open spec fn named_input(m: MapperView, d: Seq<FactView>, path: Seq<char>) -> Option<Spelling> {
    if exists_at(d, resolved(m, path)) {
        Some(spelled_input(m, d, resolved(m, path)))
    } else {
        None
    }
}

/// The value of an argument that names a crate and its file: what follows the last `=` is a path.
pub open spec fn named_path_value(m: MapperView, d: Seq<FactView>, value: Seq<char>) -> Spelling {
    match split_last(value, '=') {
        Some((name, path)) => match named_input(m, d, path) {
            Some(s) => prefixed(name + "="@, s),
            None => Ok((m, value)),
        },
        None => Ok((m, value)),
    }
}

/// The value of a search path argument: a path, or a kind, `=` and a path.
pub open spec fn search_path_value(m: MapperView, d: Seq<FactView>, value: Seq<char>) -> Spelling {
    let whole = match named_input(m, d, value) {
        Some(s) => s,
        None => Ok((m, value)),
    };
    match split_first(value, '=') {
        Some((kind, path)) => match named_input(m, d, path) {
            Some(s) => prefixed(kind + "="@, s),
            None => whole,
        },
        None => whole,
    }
}

/// The spelling of an option and its path, where the value is this option and something is at the
/// path.
pub open spec fn option_value(
    m: MapperView,
    d: Seq<FactView>,
    option: Seq<char>,
    value: Seq<char>,
) -> Option<Spelling> {
    match after_prefix(value, option) {
        Some(path) => match named_input(m, d, path) {
            Some(s) => Some(prefixed(option, s)),
            None => None,
        },
        None => None,
    }
}

/// The value of a code generation argument: the linker and its arguments can be paths.
pub open spec fn codegen_value(m: MapperView, d: Seq<FactView>, value: Seq<char>) -> Spelling {
    match option_value(m, d, "linker="@, value) {
        Some(s) => s,
        None => match option_value(m, d, "link-arg="@, value) {
            Some(s) => s,
            None => Ok((m, value)),
        },
    }
}

/// A path prefix and what it is to be replaced by.
pub open spec fn remap_value(m: MapperView, d: Seq<FactView>, value: Seq<char>) -> Spelling {
    match split_first(value, '=') {
        Some((from, to)) => {
            let (n, remote) = if exists_at(d, resolved(m, from)) {
                spelled(m, d, resolved(m, from))
            } else {
                (m, from)
            };
            Ok((n, "--remap-path-prefix="@ + remote + "="@ + to))
        },
        None => Err(
            Fault { at: m, error: failure("invalid `--remap-path-prefix` argument"@) },
        ),
    }
}

/// The value of `--extern`.
pub fn rewrite_named_path_value(mapper: &mut PathMapper, disk: &Disk, value: &str) -> (r: Result<
    String,
    Error,
>)
    requires
        sound(old(mapper)@),
    ensures
        yields(r, final(mapper)@, named_path_value(old(mapper)@, disk@, value@)),
        sound(final(mapper)@),
{
    match rsplit_once(value, '=') {
        Some((name, path)) => {
            let local = mapper.resolve(path.as_str());
            if !disk.is_present(&local) {
                return Ok(value.to_owned());
            }
            let prefix = plus(name.as_str(), "=");
            match mapper.map_input_command_path(&local, disk) {
                Ok(text) => Ok(plus(prefix.as_str(), text.as_str())),
                Err(e) => Err(e),
            }
        },
        None => Ok(value.to_owned()),
    }
}

/// The value of `-L`.
pub fn rewrite_search_path_value(mapper: &mut PathMapper, disk: &Disk, value: &str) -> (r: Result<
    String,
    Error,
>)
    requires
        sound(old(mapper)@),
    ensures
        yields(r, final(mapper)@, search_path_value(old(mapper)@, disk@, value@)),
        sound(final(mapper)@),
{
    if let Some((kind, path)) = split_once(value, '=') {
        let local = mapper.resolve(path.as_str());
        if disk.is_present(&local) {
            let prefix = plus(kind.as_str(), "=");
            return match mapper.map_input_command_path(&local, disk) {
                Ok(text) => Ok(plus(prefix.as_str(), text.as_str())),
                Err(e) => Err(e),
            };
        }
    }
    let local = mapper.resolve(value);
    if disk.is_present(&local) {
        mapper.map_input_command_path(&local, disk)
    } else {
        Ok(value.to_owned())
    }
}

/// The value of `-C`.
pub fn rewrite_codegen_arg(mapper: &mut PathMapper, disk: &Disk, value: &str) -> (r: Result<
    String,
    Error,
>)
    requires
        sound(old(mapper)@),
    ensures
        yields(r, final(mapper)@, codegen_value(old(mapper)@, disk@, value@)),
        sound(final(mapper)@),
{
    if let Some(path) = strip_prefix(value, "linker=") {
        let local = mapper.resolve(path.as_str());
        if disk.is_present(&local) {
            return match mapper.map_input_command_path(&local, disk) {
                Ok(text) => Ok(plus("linker=", text.as_str())),
                Err(e) => Err(e),
            };
        }
    }
    if let Some(path) = strip_prefix(value, "link-arg=") {
        let local = mapper.resolve(path.as_str());
        if disk.is_present(&local) {
            return match mapper.map_input_command_path(&local, disk) {
                Ok(text) => Ok(plus("link-arg=", text.as_str())),
                Err(e) => Err(e),
            };
        }
    }
    Ok(value.to_owned())
}

/// The argument `--remap-path-prefix=`, from its value.
pub fn rewrite_remap_path_prefix(mapper: &mut PathMapper, disk: &Disk, value: &str) -> (r: Result<
    String,
    Error,
>)
    requires
        sound(old(mapper)@),
    ensures
        yields(r, final(mapper)@, remap_value(old(mapper)@, disk@, value@)),
        sound(final(mapper)@),
{
    match split_once(value, '=') {
        Some((from, to)) => {
            let local = mapper.resolve(from.as_str());
            let remote = if disk.is_present(&local) {
                mapper.map_existing_command_path(&local, disk)
            } else {
                from
            };
            Ok(
                plus("--remap-path-prefix=", remote.as_str()).concat("=").concat(to.as_str()),
            )
        },
        None => Err(fail("invalid `--remap-path-prefix` argument")),
    }
}

/// The path that an argument means, where something is there.
pub fn maybe_existing_path(mapper: &PathMapper, disk: &Disk, value: &str) -> (r: Option<LocalPath>)
    ensures
        match r {
            Some(path) => path@ == resolved(mapper@, value@) && exists_at(disk@, path@),
            None => !exists_at(disk@, resolved(mapper@, value@)),
        },
{
    let path = mapper.resolve(value);
    if disk.is_present(&path) {
        Some(path)
    } else {
        None
    }
}

/// The next argument is the value of this one.
pub open spec fn takes_value(arg: Seq<char>) -> bool {
    ||| arg == "--out-dir"@
    ||| arg == "-o"@
    ||| arg == "--extern"@
    ||| arg == "-L"@
    ||| arg == "-C"@
    ||| arg == "--sysroot"@
}

/// What is said where the value of an argument is missing.
pub open spec fn value_missing(arg: Seq<char>) -> Seq<char> {
    if arg == "--out-dir"@ || arg == "-o"@ {
        "expected a value after a path-bearing rustc flag"@
    } else {
        "expected a value after `"@ + arg + "`"@
    }
}

/// An argument and its value: incremental compilation is left out, and paths are spelled as the
/// remote side has them.
pub open spec fn flag_spelled(
    m: MapperView,
    d: Seq<FactView>,
    flag: Seq<char>,
    value: Seq<char>,
) -> Spellings {
    if flag == "-C"@ && after_prefix(value, "incremental="@) is Some {
        Ok((m, seq![]))
    } else {
        let s = if flag == "--out-dir"@ || flag == "-o"@ {
            Ok(spelled(m, d, resolved(m, value)))
        } else if flag == "--extern"@ {
            named_path_value(m, d, value)
        } else if flag == "-L"@ {
            search_path_value(m, d, value)
        } else if flag == "-C"@ {
            codegen_value(m, d, value)
        } else {
            spelled_input(m, d, resolved(m, value))
        };
        match s {
            Ok((n, text)) => Ok((n, seq![flag, text])),
            Err(e) => Err(e),
        }
    }
}

/// An argument by itself: what names something that is there is an input.
pub open spec fn word_spelled(m: MapperView, d: Seq<FactView>, arg: Seq<char>) -> Spelling {
    match after_prefix(arg, "--sysroot="@) {
        Some(value) => prefixed("--sysroot="@, spelled_input(m, d, resolved(m, value))),
        None => match after_prefix(arg, "--remap-path-prefix="@) {
            Some(value) => remap_value(m, d, value),
            None => match named_input(m, d, arg) {
                Some(s) => s,
                None => Ok((m, arg)),
            },
        },
    }
}

/// Texts in front of others.
pub open spec fn led_by(words: Seq<Seq<char>>, s: Spellings) -> Spellings {
    match s {
        Ok((m, rest)) => Ok((m, words + rest)),
        Err(e) => Err(e),
    }
}

/// The first of the arguments, with its value where it takes one.
pub open spec fn next_spelled(m: MapperView, d: Seq<FactView>, args: Seq<Seq<char>>) -> Spellings {
    if takes_value(args[0]) {
        if args.len() < 2 {
            Err(Fault { at: m, error: failure(value_missing(args[0])) })
        } else {
            flag_spelled(m, d, args[0], args[1])
        }
    } else {
        match word_spelled(m, d, args[0]) {
            Ok((n, word)) => Ok((n, seq![word])),
            Err(e) => Err(e),
        }
    }
}

/// How many arguments an argument and its value are.
pub open spec fn width(arg: Seq<char>) -> int {
    if takes_value(arg) {
        2
    } else {
        1
    }
}

/// The arguments, one after the other.
pub open spec fn args_spelled(m: MapperView, d: Seq<FactView>, args: Seq<Seq<char>>) -> Spellings
    decreases args.len(),
{
    if args.len() == 0 {
        Ok((m, seq![]))
    } else {
        match next_spelled(m, d, args) {
            Ok((n, words)) => led_by(words, args_spelled(n, d, args.skip(width(args[0])))),
            Err(e) => Err(e),
        }
    }
}

/// The outcome of a step that yields a new mapping and texts.
pub open spec fn yields_all(
    r: Result<Vec<String>, Error>,
    after: MapperView,
    expected: Spellings,
) -> bool {
    match (r, expected) {
        (Ok(v), Ok((m, t))) => after == m && texts(v@) == t,
        (Err(e), Err(f)) => after == f.at && e@ == f.error,
        _ => false,
    }
}

/// Whether the next argument is the value of this one.
pub fn has_value(arg: &str) -> (r: bool)
    ensures
        r == takes_value(arg@),
{
    same_text(arg, "--out-dir") || same_text(arg, "-o") || same_text(arg, "--extern") || same_text(
        arg,
        "-L",
    ) || same_text(arg, "-C") || same_text(arg, "--sysroot")
}

/// What is said where the value of an argument is missing.
fn missing_value(arg: &str) -> (e: Error)
    ensures
        e@ == failure(value_missing(arg@)),
{
    if same_text(arg, "--out-dir") || same_text(arg, "-o") {
        fail("expected a value after a path-bearing rustc flag")
    } else {
        let message = plus("expected a value after `", arg).concat("`");
        fail(message.as_str())
    }
}

/// An argument and its value.
fn rewrite_flag(mapper: &mut PathMapper, disk: &Disk, flag: &str, value: &str) -> (r: Result<
    Vec<String>,
    Error,
>)
    requires
        sound(old(mapper)@),
    ensures
        yields_all(r, final(mapper)@, flag_spelled(old(mapper)@, disk@, flag@, value@)),
        sound(final(mapper)@),
{
    let mut words: Vec<String> = Vec::new();
    if same_text(flag, "-C") && strip_prefix(value, "incremental=").is_some() {
        assert(texts(words@) =~= seq![]);
        return Ok(words);
    }
    let spelling = if same_text(flag, "--out-dir") || same_text(flag, "-o") {
        let local = mapper.resolve(value);
        Ok(mapper.map_output_command_path(&local, disk))
    } else if same_text(flag, "--extern") {
        rewrite_named_path_value(mapper, disk, value)
    } else if same_text(flag, "-L") {
        rewrite_search_path_value(mapper, disk, value)
    } else if same_text(flag, "-C") {
        rewrite_codegen_arg(mapper, disk, value)
    } else {
        let local = mapper.resolve(value);
        mapper.map_input_command_path(&local, disk)
    };
    match spelling {
        Ok(text) => {
            words.push(flag.to_owned());
            words.push(text);
            assert(texts(words@) =~= seq![flag@, text@]);
            Ok(words)
        },
        Err(e) => Err(e),
    }
}

/// An argument by itself.
fn rewrite_word(mapper: &mut PathMapper, disk: &Disk, arg: &str) -> (r: Result<String, Error>)
    requires
        sound(old(mapper)@),
    ensures
        yields(r, final(mapper)@, word_spelled(old(mapper)@, disk@, arg@)),
        sound(final(mapper)@),
{
    if let Some(value) = strip_prefix(arg, "--sysroot=") {
        let local = mapper.resolve(value.as_str());
        return match mapper.map_input_command_path(&local, disk) {
            Ok(text) => Ok(plus("--sysroot=", text.as_str())),
            Err(e) => Err(e),
        };
    }
    if let Some(value) = strip_prefix(arg, "--remap-path-prefix=") {
        return rewrite_remap_path_prefix(mapper, disk, value.as_str());
    }
    match maybe_existing_path(mapper, disk, arg) {
        Some(path) => mapper.map_input_command_path(&path, disk),
        None => Ok(arg.to_owned()),
    }
}

/// The argument at `i`, with its value where it takes one.
#[verifier::spinoff_prover]
fn rewrite_next(mapper: &mut PathMapper, disk: &Disk, args: &Vec<String>, i: usize) -> (r: Result<
    Vec<String>,
    Error,
>)
    requires
        sound(old(mapper)@),
        i < args@.len(),
    ensures
        yields_all(
            r,
            final(mapper)@,
            next_spelled(old(mapper)@, disk@, texts(args@).skip(i as int)),
        ),
        sound(final(mapper)@),
        r is Ok ==> i + width(args@[i as int]@) <= args@.len(),
{
    let ghost rest = texts(args@).skip(i as int);
    assert(rest[0] == args@[i as int]@);
    if has_value(args[i].as_str()) {
        if args.len() - i < 2 {
            return Err(missing_value(args[i].as_str()));
        }
        assert(rest[1] == args@[i + 1]@);
        return rewrite_flag(mapper, disk, args[i].as_str(), args[i + 1].as_str());
    }
    match rewrite_word(mapper, disk, args[i].as_str()) {
        Ok(word) => {
            let mut words: Vec<String> = Vec::new();
            words.push(word);
            assert(texts(words@) =~= seq![word@]);
            Ok(words)
        },
        Err(e) => Err(e),
    }
}

/// The arguments, one after the other.
#[verifier::spinoff_prover]
pub fn rewrite_words(mapper: &mut PathMapper, disk: &Disk, args: &Vec<String>) -> (r: Result<
    Vec<String>,
    Error,
>)
    requires
        sound(old(mapper)@),
    ensures
        yields_all(r, final(mapper)@, args_spelled(old(mapper)@, disk@, texts(args@))),
        sound(final(mapper)@),
{
    let ghost whole = args_spelled(mapper@, disk@, texts(args@));
    let mut rewritten: Vec<String> = Vec::new();
    let mut i: usize = 0;
    proof {
        assert(texts(args@).skip(0) =~= texts(args@));
        if let Ok((m, rest)) = whole {
            assert(texts(rewritten@) + rest =~= rest);
        }
    }
    while i < args.len()
        invariant
            i <= args@.len(),
            sound(mapper@),
            whole == args_spelled(old(mapper)@, disk@, texts(args@)),
            whole == led_by(
                texts(rewritten@),
                args_spelled(mapper@, disk@, texts(args@).skip(i as int)),
            ),
        decreases args@.len() - i,
    {
        let ghost rest = texts(args@).skip(i as int);
        let ghost before = rewritten@;
        assert(rest[0] == args@[i as int]@);
        match rewrite_next(mapper, disk, args, i) {
            Ok(words) => {
                let ghost added = words@;
                let mut words = words;
                rewritten.append(&mut words);
                i += if has_value(args[i].as_str()) {
                    2
                } else {
                    1
                };
                proof {
                    let after = rest.skip(width(rest[0]));
                    assert(after =~= texts(args@).skip(i as int));
                    lemma_led_twice(
                        texts(before),
                        texts(added),
                        args_spelled(mapper@, disk@, after),
                    );
                    assert(texts(rewritten@) =~= texts(before) + texts(added));
                }
            },
            Err(e) => {
                return Err(e);
            },
        }
    }
    assert(texts(rewritten@) + seq![] =~= texts(rewritten@));
    Ok(rewritten)
}

/// Texts in front of texts in front of others.
proof fn lemma_led_twice(a: Seq<Seq<char>>, b: Seq<Seq<char>>, s: Spellings)
    ensures
        led_by(a, led_by(b, s)) == led_by(a + b, s),
{
    if let Ok((m, rest)) = s {
        assert(a + (b + rest) =~= a + b + rest);
    }
}

/// The arguments of a command as the remote side has them.
pub open spec fn command_args(m: MapperView, d: Seq<FactView>, args: Seq<OsView>) -> Spellings {
    match utf8_texts(args) {
        Ok(words) => args_spelled(m, d, words),
        Err(error) => Err(Fault { at: m, error }),
    }
}

/// The arguments of a command as the remote side has them.
pub fn rewrite_args(mapper: &mut PathMapper, disk: &Disk, args: &Vec<OsText>) -> (r: Result<
    Vec<String>,
    Error,
>)
    requires
        sound(old(mapper)@),
    ensures
        yields_all(r, final(mapper)@, command_args(old(mapper)@, disk@, os_views(args@))),
        sound(final(mapper)@),
{
    match utf8_args(args) {
        Ok(words) => rewrite_words(mapper, disk, &words),
        Err(e) => Err(e),
    }
}

/// The paths in a search path.
pub open spec fn search_paths(value: Seq<char>) -> Seq<Seq<u8>> {
    pieces(value, ':').map_values(|piece: Seq<char>| encode_utf8(piece))
}

/// Something is at each of the paths.
pub open spec fn all_exist(d: Seq<FactView>, paths: Seq<Seq<u8>>) -> bool {
    forall|i: int| 0 <= i < paths.len() ==> exists_at(d, #[trigger] paths[i])
}

/// The spellings of several inputs, taken in one after the other.
pub open spec fn inputs_spelled(m: MapperView, d: Seq<FactView>, paths: Seq<Seq<u8>>) -> Spellings
    decreases paths.len(),
{
    if paths.len() == 0 {
        Ok((m, seq![]))
    } else {
        match spelled_input(m, d, paths[0]) {
            Ok((n, text)) => led_by(seq![text], inputs_spelled(n, d, paths.skip(1))),
            Err(e) => Err(e),
        }
    }
}

/// Texts as one search path.
pub open spec fn joined_search_path(s: Spellings) -> Spelling {
    match s {
        Ok((m, parts)) => if exists|i: int| 0 <= i < parts.len() && parts[i].contains(':') {
            Err(Fault { at: m, error: failure("path segment contains separator `:`"@) })
        } else {
            Ok((m, joined(parts, ":"@)))
        },
        Err(e) => Err(e),
    }
}

/// The value of an environment variable: a path at which something is, a search path of nothing
/// but such paths, or a text that stays as it is.
pub open spec fn env_value(m: MapperView, d: Seq<FactView>, value: Seq<char>) -> Spelling {
    match named_input(m, d, value) {
        Some(s) => s,
        None => if all_exist(d, search_paths(value)) {
            joined_search_path(inputs_spelled(m, d, search_paths(value)))
        } else {
            Ok((m, value))
        },
    }
}

/// The paths in a search path.
pub fn split_paths(value: &str) -> (r: Vec<LocalPath>)
    ensures
        raw_paths(r@) == search_paths(value@),
{
    let parts = split_on(value, ':');
    let mut r: Vec<LocalPath> = Vec::new();
    let mut i: usize = 0;
    while i < parts.len()
        invariant
            i <= parts@.len(),
            texts(parts@) == pieces(value@, ':'),
            r@.len() == i,
            forall|j: int| 0 <= j < i ==> (#[trigger] r@[j])@ == encode_utf8(parts@[j]@),
        decreases parts@.len() - i,
    {
        r.push(LocalPath::from_text(parts[i].as_str()));
        i += 1;
    }
    proof {
        assert forall|j: int| 0 <= j < r@.len() implies #[trigger] raw_paths(r@)[j]
            == search_paths(value@)[j] by {
            assert(texts(parts@)[j] == parts@[j]@);
        }
        assert(raw_paths(r@) =~= search_paths(value@));
    }
    r
}

/// Whether something is at each of the paths.
pub fn all_present(disk: &Disk, paths: &Vec<LocalPath>) -> (r: bool)
    ensures
        r == all_exist(disk@, raw_paths(paths@)),
{
    let mut i: usize = 0;
    while i < paths.len()
        invariant
            i <= paths@.len(),
            forall|j: int| 0 <= j < i ==> exists_at(disk@, #[trigger] raw_paths(paths@)[j]),
        decreases paths@.len() - i,
    {
        assert(raw_paths(paths@)[i as int] == paths@[i as int]@);
        if !disk.is_present(&paths[i]) {
            return false;
        }
        i += 1;
    }
    true
}

/// Takes in several inputs, and spells their paths.
fn map_input_command_paths(mapper: &mut PathMapper, disk: &Disk, paths: &Vec<LocalPath>) -> (r:
    Result<Vec<String>, Error>)
    requires
        sound(old(mapper)@),
    ensures
        yields_all(r, final(mapper)@, inputs_spelled(old(mapper)@, disk@, raw_paths(paths@))),
        sound(final(mapper)@),
{
    let ghost all = raw_paths(paths@);
    let ghost whole = inputs_spelled(mapper@, disk@, all);
    let mut r: Vec<String> = Vec::new();
    let mut i: usize = 0;
    proof {
        assert(all.skip(0) =~= all);
        if let Ok((m, rest)) = whole {
            assert(texts(r@) + rest =~= rest);
        }
    }
    while i < paths.len()
        invariant
            i <= paths@.len(),
            sound(mapper@),
            all == raw_paths(paths@),
            whole == inputs_spelled(old(mapper)@, disk@, all),
            whole == led_by(
                texts(r@),
                inputs_spelled(mapper@, disk@, all.skip(i as int)),
            ),
        decreases paths@.len() - i,
    {
        let ghost before = r@;
        assert(all.skip(i as int)[0] == paths@[i as int]@);
        assert(all.skip(i as int).skip(1) =~= all.skip(i + 1));
        match mapper.map_input_command_path(&paths[i], disk) {
            Ok(text) => {
                r.push(text);
                proof {
                    lemma_led_twice(
                        texts(before),
                        seq![text@],
                        inputs_spelled(mapper@, disk@, all.skip(i + 1)),
                    );
                    assert(texts(r@) =~= texts(before) + seq![text@]);
                }
            },
            Err(e) => {
                return Err(e);
            },
        }
        i += 1;
    }
    assert(texts(r@) + seq![] =~= texts(r@));
    Ok(r)
}

/// Whether a text holds a `:`.
fn holds_colon(text: &str) -> (r: bool)
    ensures
        r == text@.contains(':'),
{
    match split_once(text, ':') {
        Some(_) => {
            proof {
                lemma_first_index(text@, ':');
            }
            true
        },
        None => {
            proof {
                lemma_first_index(text@, ':');
            }
            false
        },
    }
}

/// Texts as one search path.
fn join_paths(parts: &Vec<String>) -> (r: Result<String, Error>)
    ensures
        match r {
            Ok(s) => s@ == joined(texts(parts@), ":"@) && forall|i: int|
                0 <= i < texts(parts@).len() ==> !(#[trigger] texts(parts@)[i]).contains(':'),
            Err(e) => e@ == failure("path segment contains separator `:`"@) && exists|i: int|
                0 <= i < texts(parts@).len() && (#[trigger] texts(parts@)[i]).contains(':'),
        },
{
    let mut i: usize = 0;
    while i < parts.len()
        invariant
            i <= parts@.len(),
            forall|j: int| 0 <= j < i ==> !(#[trigger] texts(parts@)[j]).contains(':'),
        decreases parts@.len() - i,
    {
        assert(texts(parts@)[i as int] == parts@[i as int]@);
        if holds_colon(parts[i].as_str()) {
            return Err(fail("path segment contains separator `:`"));
        }
        i += 1;
    }
    Ok(join(parts, ":"))
}

/// The value of an environment variable as the remote side has it.
pub fn rewrite_env_value(mapper: &mut PathMapper, disk: &Disk, value: &str) -> (r: Result<
    String,
    Error,
>)
    requires
        sound(old(mapper)@),
    ensures
        yields(r, final(mapper)@, env_value(old(mapper)@, disk@, value@)),
        sound(final(mapper)@),
{
    if let Some(path) = maybe_existing_path(mapper, disk, value) {
        return mapper.map_input_command_path(&path, disk);
    }
    let paths = split_paths(value);
    if all_present(disk, &paths) {
        return match map_input_command_paths(mapper, disk, &paths) {
            Ok(parts) => join_paths(&parts),
            Err(e) => Err(e),
        };
    }
    Ok(value.to_owned())
}

} // verus!
