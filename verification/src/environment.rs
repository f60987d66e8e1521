//! The environment of a command, and the outputs that are expected of it.
use vstd::prelude::*;

use crate::disk::{Disk, FactView};
use crate::error::{fail, failure, Error};
use crate::local_path::LocalPath;
use crate::mapper::{raw_paths, sound, spelled, Fault, MapperView, PathMapper};
use crate::messages::pair_texts;
use crate::os_text::{os_to_utf8, utf8_text, OsText, OsView};
use crate::rewrite::{env_value, rewrite_env_value};
use crate::tables::{is_table, pair_paths, put_path, put_text, with_entry};
use crate::text::same_text;

verus! {

/// The names and values of an environment; a name without a value is not to be set.
pub open spec fn env_views(s: Seq<(String, Option<OsText>)>) -> Seq<(Seq<char>, Option<OsView>)> {
    s.map_values(
        |e: (String, Option<OsText>)|
            (
                e.0@,
                match e.1 {
                    Some(value) => Some(value@),
                    None => None,
                },
            ),
    )
}

/// The value of an environment variable as the remote side has it.
pub open spec fn os_env_value(m: MapperView, d: Seq<FactView>, value: OsView) -> Result<
    (MapperView, Seq<char>),
    Fault,
> {
    match utf8_text(value) {
        Ok(text) => env_value(m, d, text),
        Err(error) => Err(Fault { at: m, error }),
    }
}

/// The variables with a value, as the remote side has them, beside those in `done`, in the order
/// of their names.
pub open spec fn envs_spelled(
    m: MapperView,
    d: Seq<FactView>,
    envs: Seq<(Seq<char>, Option<OsView>)>,
    done: Seq<(Seq<char>, Seq<char>)>,
) -> Result<(MapperView, Seq<(Seq<char>, Seq<char>)>), Fault>
    decreases envs.len(),
{
    if envs.len() == 0 {
        Ok((m, done))
    } else {
        match envs[0].1 {
            Some(value) => match os_env_value(m, d, value) {
                Ok((n, text)) => envs_spelled(
                    n,
                    d,
                    envs.skip(1),
                    with_entry(done, envs[0].0, text),
                ),
                Err(e) => Err(e),
            },
            None => envs_spelled(m, d, envs.skip(1), done),
        }
    }
}

/// The environment of a command as the remote side has it.
pub fn rewrite_envs(
    mapper: &mut PathMapper,
    disk: &Disk,
    envs: &Vec<(String, Option<OsText>)>,
) -> (r: Result<Vec<(String, String)>, Error>)
    requires
        sound(old(mapper)@),
    ensures
        match (r, envs_spelled(old(mapper)@, disk@, env_views(envs@), seq![])) {
            (Ok(table), Ok((m, t))) => final(mapper)@ == m && pair_texts(table@) == t && is_table(
                t,
            ),
            (Err(e), Err(f)) => final(mapper)@ == f.at && e@ == f.error,
            _ => false,
        },
        sound(final(mapper)@),
{
    let ghost all = env_views(envs@);
    let mut table: Vec<(String, String)> = Vec::new();
    let mut i: usize = 0;
    assert(all.skip(0) =~= all);
    assert(pair_texts(table@) =~= seq![]);
    while i < envs.len()
        invariant
            i <= envs@.len(),
            sound(mapper@),
            all == env_views(envs@),
            is_table(pair_texts(table@)),
            envs_spelled(old(mapper)@, disk@, all, seq![]) == envs_spelled(
                mapper@,
                disk@,
                all.skip(i as int),
                pair_texts(table@),
            ),
        decreases envs@.len() - i,
    {
        assert(all.skip(i as int)[0] == all[i as int]);
        assert(all.skip(i as int).skip(1) =~= all.skip(i + 1));
        if let Some(value) = &envs[i].1 {
            match os_to_utf8(value) {
                Ok(text) => match rewrite_env_value(mapper, disk, text.as_str()) {
                    Ok(rewritten) => {
                        put_text(&mut table, envs[i].0.clone(), rewritten);
                    },
                    Err(e) => {
                        return Err(e);
                    },
                },
                Err(e) => {
                    return Err(e);
                },
            }
        }
        i += 1;
    }
    Ok(table)
}

/// The outputs by their remote spelling, beside those in `done`, in the order of the spellings.
pub open spec fn outputs_spelled(
    m: MapperView,
    d: Seq<FactView>,
    outputs: Seq<Seq<u8>>,
    done: Seq<(Seq<char>, Seq<u8>)>,
) -> Result<(MapperView, Seq<(Seq<char>, Seq<u8>)>), Fault>
    decreases outputs.len(),
{
    if outputs.len() == 0 {
        Ok((m, done))
    } else {
        let (n, remote) = spelled(m, d, outputs[0]);
        if remote == "."@ {
            Err(
                Fault {
                    at: n,
                    error: failure("unexpected output path at the remote working directory root"@),
                },
            )
        } else {
            outputs_spelled(n, d, outputs.skip(1), with_entry(done, remote, outputs[0]))
        }
    }
}

/// The outputs that are expected of a command, by their remote spelling.
pub fn build_expected_outputs(
    mapper: &mut PathMapper,
    disk: &Disk,
    outputs: &Vec<LocalPath>,
) -> (r: Result<Vec<(String, LocalPath)>, Error>)
    requires
        sound(old(mapper)@),
    ensures
        match (r, outputs_spelled(old(mapper)@, disk@, raw_paths(outputs@), seq![])) {
            (Ok(table), Ok((m, t))) => final(mapper)@ == m && pair_paths(table@) == t && is_table(
                t,
            ),
            (Err(e), Err(f)) => final(mapper)@ == f.at && e@ == f.error,
            _ => false,
        },
        sound(final(mapper)@),
{
    let ghost all = raw_paths(outputs@);
    let mut table: Vec<(String, LocalPath)> = Vec::new();
    let mut i: usize = 0;
    assert(all.skip(0) =~= all);
    assert(pair_paths(table@) =~= seq![]);
    while i < outputs.len()
        invariant
            i <= outputs@.len(),
            sound(mapper@),
            all == raw_paths(outputs@),
            is_table(pair_paths(table@)),
            outputs_spelled(old(mapper)@, disk@, all, seq![]) == outputs_spelled(
                mapper@,
                disk@,
                all.skip(i as int),
                pair_paths(table@),
            ),
        decreases outputs@.len() - i,
    {
        assert(all.skip(i as int)[0] == outputs@[i as int]@);
        assert(all.skip(i as int).skip(1) =~= all.skip(i + 1));
        let remote = mapper.map_output_command_path(&outputs[i], disk);
        if same_text(remote.as_str(), ".") {
            return Err(fail("unexpected output path at the remote working directory root"));
        }
        put_path(&mut table, remote, outputs[i].clone());
        i += 1;
    }
    Ok(table)
}

} // verus!
