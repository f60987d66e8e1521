//! The machine that a command is to run on.
use vstd::prelude::*;

use crate::config::{ConfigView, Host, HostView, RemoteBuildConfig};
use crate::messages::pair_texts;
use crate::sorted::{lemma_has, lemma_with, lookup};
use crate::tables::{is_table, put_text, with_entry};
use crate::text::same_text;

verus! {

/// The name that the remote service has for an operating system.
pub open spec fn os_family(os: Seq<char>) -> Seq<char> {
    if os == "macos"@ {
        "darwin"@
    } else {
        os
    }
}

/// The name that the remote service has for a processor architecture.
pub open spec fn arch_name(arch: Seq<char>) -> Seq<char> {
    if arch == "x86_64"@ {
        "amd64"@
    } else if arch == "aarch64"@ {
        "arm64"@
    } else {
        arch
    }
}

/// The table with more entries; what is stored later under a name stays.
pub open spec fn with_entries(
    table: Seq<(Seq<char>, Seq<char>)>,
    added: Seq<(Seq<char>, Seq<char>)>,
) -> Seq<(Seq<char>, Seq<char>)>
    decreases added.len(),
{
    if added.len() == 0 {
        table
    } else {
        with_entry(with_entries(table, added.drop_last()), added.last().0, added.last().1)
    }
}

/// The properties of the machine: those of this one, unless the settings say otherwise.
pub open spec fn platform_of(config: ConfigView, host: HostView) -> Seq<(Seq<char>, Seq<char>)> {
    with_entries(
        with_entry(
            with_entry(seq![], "Arch"@, arch_name(host.arch)),
            "OSFamily"@,
            os_family(host.os),
        ),
        config.exec_properties,
    )
}

/// The name that the remote service has for an operating system.
pub fn default_os_family(os: &str) -> (r: String)
    ensures
        r@ == os_family(os@),
{
    if same_text(os, "macos") {
        "darwin".to_owned()
    } else {
        os.to_owned()
    }
}

/// The name that the remote service has for a processor architecture.
pub fn default_arch(arch: &str) -> (r: String)
    ensures
        r@ == arch_name(arch@),
{
    if same_text(arch, "x86_64") {
        "amd64".to_owned()
    } else if same_text(arch, "aarch64") {
        "arm64".to_owned()
    } else {
        arch.to_owned()
    }
}

/// The properties of the machine that a command is to run on, in the order of their names.
pub fn platform_from_config(config: &RemoteBuildConfig, host: &Host) -> (r: Vec<(String, String)>)
    ensures
        pair_texts(r@) == platform_of(config@, host@),
        is_table(pair_texts(r@)),
{
    let mut properties: Vec<(String, String)> = Vec::new();
    assert(pair_texts(properties@) =~= seq![]);
    put_text(&mut properties, "Arch".to_owned(), default_arch(host.arch.as_str()));
    put_text(&mut properties, "OSFamily".to_owned(), default_os_family(host.os.as_str()));
    let ghost start = pair_texts(properties@);
    let ghost all = pair_texts(config.exec_properties@);
    let mut i: usize = 0;
    assert(all.take(0) =~= seq![]);
    while i < config.exec_properties.len()
        invariant
            i <= config.exec_properties@.len(),
            all == pair_texts(config.exec_properties@),
            is_table(pair_texts(properties@)),
            pair_texts(properties@) == with_entries(start, all.take(i as int)),
        decreases config.exec_properties@.len() - i,
    {
        let (name, value) = &config.exec_properties[i];
        put_text(&mut properties, name.clone(), value.clone());
        proof {
            assert(all.take(i + 1).drop_last() =~= all.take(i as int));
            assert(all.take(i + 1).last() == (name@, value@));
        }
        i += 1;
    }
    assert(all.take(all.len() as int) =~= all);
    properties
}

/// The last value that is given for a name.
pub open spec fn last_value(s: Seq<(Seq<char>, Seq<char>)>, name: Seq<char>) -> Option<Seq<char>>
    decreases s.len(),
{
    if s.len() == 0 {
        None
    } else if s.last().0 == name {
        Some(s.last().1)
    } else {
        last_value(s.drop_last(), name)
    }
}

proof fn lemma_with_entries(
    table: Seq<(Seq<char>, Seq<char>)>,
    added: Seq<(Seq<char>, Seq<char>)>,
    name: Seq<char>,
)
    requires
        is_table(table),
    ensures
        is_table(with_entries(table, added)),
        lookup::<String, Seq<char>>(with_entries(table, added), name) == (match last_value(
            added,
            name,
        ) {
            Some(value) => Some(value),
            None => lookup::<String, Seq<char>>(table, name),
        }),
    decreases added.len(),
{
    if added.len() > 0 {
        lemma_with_entries(table, added.drop_last(), name);
        lemma_with::<String, Seq<char>>(
            with_entries(table, added.drop_last()),
            added.last().0,
            added.last().1,
        );
    }
}

/// The settings decide every property that they name, and this machine decides the architecture
/// and the operating system where the settings do not; there is nothing else.
pub proof fn settings_override_the_host(config: ConfigView, host: HostView, name: Seq<char>)
    ensures
        lookup::<String, Seq<char>>(platform_of(config, host), name) == (match last_value(
            config.exec_properties,
            name,
        ) {
            Some(value) => Some(value),
            None => if name == "OSFamily"@ {
                Some(os_family(host.os))
            } else if name == "Arch"@ {
                Some(arch_name(host.arch))
            } else {
                None
            },
        }),
{
    reveal_strlit("OSFamily");
    reveal_strlit("Arch");
    let none: Seq<(Seq<char>, Seq<char>)> = seq![];
    let one = with_entry(none, "Arch"@, arch_name(host.arch));
    let two = with_entry(one, "OSFamily"@, os_family(host.os));
    lemma_with::<String, Seq<char>>(none, "Arch"@, arch_name(host.arch));
    lemma_with::<String, Seq<char>>(one, "OSFamily"@, os_family(host.os));
    lemma_with_entries(two, config.exec_properties, name);
    lemma_has::<String, Seq<char>>(none, name);
}

} // verus!
