//! Tables from names to texts and to paths, in the order of the names.
use vstd::prelude::*;

use crate::local_path::LocalPath;
use crate::messages::pair_texts;
use crate::sorted::{entries, lemma_mapped, lemma_with, mapped, put, sorted, with};

verus! {

/// The names and paths of a list of pairs.
pub open spec fn pair_paths(s: Seq<(String, LocalPath)>) -> Seq<(Seq<char>, Seq<u8>)> {
    s.map_values(|p: (String, LocalPath)| (p.0@, p.1@))
}

/// The names stand in strictly increasing order.
pub open spec fn is_table<V>(s: Seq<(Seq<char>, V)>) -> bool {
    sorted::<String, V>(s)
}

/// The table with a value under a name.
pub open spec fn with_entry<V>(s: Seq<(Seq<char>, V)>, name: Seq<char>, value: V) -> Seq<
    (Seq<char>, V),
> {
    with::<String, V>(s, name, value)
}

/// Stores a text under a name.
pub fn put_text(table: &mut Vec<(String, String)>, name: String, value: String)
    requires
        is_table(pair_texts(old(table)@)),
    ensures
        pair_texts(final(table)@) == with_entry(pair_texts(old(table)@), name@, value@),
        is_table(pair_texts(final(table)@)),
{
    let ghost e = entries(table@);
    let ghost f = |s: String| s@;
    proof {
        assert(pair_texts(table@) =~= mapped::<String, String, Seq<char>>(e, f));
        lemma_mapped::<String, String, Seq<char>>(e, f, name@, value);
        lemma_with::<String, Seq<char>>(pair_texts(table@), name@, value@);
    }
    put(table, name, value);
    assert(pair_texts(table@) =~= mapped::<String, String, Seq<char>>(entries(table@), f));
}

/// Stores a path under a name.
pub fn put_path(table: &mut Vec<(String, LocalPath)>, name: String, value: LocalPath)
    requires
        is_table(pair_paths(old(table)@)),
    ensures
        pair_paths(final(table)@) == with_entry(pair_paths(old(table)@), name@, value@),
        is_table(pair_paths(final(table)@)),
{
    let ghost e = entries(table@);
    let ghost f = |p: LocalPath| p@;
    proof {
        assert(pair_paths(table@) =~= mapped::<String, LocalPath, Seq<u8>>(e, f));
        lemma_mapped::<String, LocalPath, Seq<u8>>(e, f, name@, value);
        lemma_with::<String, Seq<u8>>(pair_paths(table@), name@, value@);
    }
    put(table, name, value);
    assert(pair_paths(table@) =~= mapped::<String, LocalPath, Seq<u8>>(entries(table@), f));
}

} // verus!
