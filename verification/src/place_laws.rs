//! Where local paths stand on the remote side, and what the message of a directory says.
use vstd::prelude::*;
use vstd::utf8::{decode_utf8, decode_utf8_encode_utf8, encode_utf8};

use crate::digest::{digest_of, sha256, short_digest, DigestView};
use crate::digits::hex_text;
use crate::dir_builder::{
    components, empty_dir, file_at, lemma_empty_dir, subdir, subdir_digests, symlink_at,
    tree_digest, tree_view, well_formed, DirModel,
};
use crate::disk::{dir_at, exists_at, fact_at, node_at, regular_at, FactView};
use crate::input_laws::{dir_in, is_name};
use crate::local_path::{
    below, leading_cur, lossy_text, parent, parts, reapi_pieces, reapi_text, remote_text, rooted,
    PartView,
};
use crate::mapper::{
    asked, aux, bases, command_path, execroot, external_slot, fresh, placed, resolved, MapperView,
    WORKDIR_NAME,
};
use crate::messages::{directory_wire, FileView};
use crate::path_laws::{
    command_path_undoes_placing, lemma_plain_name, lemma_reapi_pieces_of_two, lemma_rootless_pieces,
    plain, rootless, splitting_undoes_joining,
};
use crate::sorted::{lemma_rank, lemma_rank_is, lookup, rank, sorted};
use crate::tree_laws::ensured_directory_changes_no_entry;

verus! {

/// A remote path below a directory of the remote side.
pub open spec fn place_below(base: Seq<char>, rel: Seq<PartView>) -> Seq<char> {
    if rel.len() == 0 {
        base
    } else {
        base + "/"@ + reapi_text(rel)
    }
}

/// The path lies in none of the directories.
pub open spec fn outside(path: Seq<u8>, dirs: Seq<Seq<u8>>) -> bool {
    forall|i: int| 0 <= i < dirs.len() ==> below(path, #[trigger] dirs[i]) is None
}

proof fn lemma_aux()
    ensures
        aux("target-dir"@) == "workspace/.cargo-rbe/target-dir"@,
        aux("build-dir"@) == "workspace/.cargo-rbe/build-dir"@,
        aux("toolchain"@) == "workspace/.cargo-rbe/toolchain"@,
        WORKDIR_NAME@ == "workspace"@,
{
    reveal_strlit("workspace");
    reveal_strlit("/");
    reveal_strlit(".cargo-rbe");
    reveal_strlit("target-dir");
    reveal_strlit("build-dir");
    reveal_strlit("toolchain");
    reveal_strlit("workspace/.cargo-rbe/target-dir");
    reveal_strlit("workspace/.cargo-rbe/build-dir");
    reveal_strlit("workspace/.cargo-rbe/toolchain");
    assert(aux("target-dir"@) =~= "workspace/.cargo-rbe/target-dir"@);
    assert(aux("build-dir"@) =~= "workspace/.cargo-rbe/build-dir"@);
    assert(aux("toolchain"@) =~= "workspace/.cargo-rbe/toolchain"@);
}

/// The working directory, the build directories and the toolchain have their places on the remote
/// side, and what lies in one of them stands below its place, under the same names. The first of
/// them that a path lies in counts.
pub proof fn known_directories_have_their_places(
    m: MapperView,
    path: Seq<u8>,
    is_dir: bool,
    rel: Seq<PartView>,
)
    ensures
        below(path, m.cwd) == Some(rel) ==> {
            &&& execroot(m, path, is_dir) == place_below("workspace"@, rel)
            &&& command_path(execroot(m, path, is_dir)) == (if rel.len() == 0 {
                "."@
            } else {
                reapi_text(rel)
            })
            &&& asked(m, path, is_dir) == m
        },
        outside(path, seq![m.cwd]) && below(path, m.target_dir) == Some(rel) ==> {
            &&& execroot(m, path, is_dir) == place_below("workspace/.cargo-rbe/target-dir"@, rel)
            &&& asked(m, path, is_dir) == m
        },
        outside(path, seq![m.cwd, m.target_dir]) && below(path, m.build_dir) == Some(rel) ==> {
            &&& execroot(m, path, is_dir) == place_below("workspace/.cargo-rbe/build-dir"@, rel)
            &&& asked(m, path, is_dir) == m
        },
        outside(path, seq![m.cwd, m.target_dir, m.build_dir]) && below(path, m.sysroot) == Some(rel)
            ==> {
            &&& execroot(m, path, is_dir) == place_below("workspace/.cargo-rbe/toolchain"@, rel)
            &&& asked(m, path, is_dir) == m
        },
{
    lemma_aux();
    let b = bases(m);
    reveal_with_fuel(placed, 5);
    assert(b[0].0 == m.cwd);
    assert(b.skip(1)[0] == b[1]);
    assert(b.skip(1).skip(1)[0] == b[2]);
    assert(b.skip(1).skip(1).skip(1)[0] == b[3]);
    if below(path, m.cwd) == Some(rel) {
        command_path_undoes_placing(rel);
    }
    if outside(path, seq![m.cwd]) {
        assert(below(path, seq![m.cwd][0]) is None);
    }
    if outside(path, seq![m.cwd, m.target_dir]) {
        let dirs = seq![m.cwd, m.target_dir];
        assert(below(path, dirs[0]) is None);
        assert(below(path, dirs[1]) is None);
    }
    if outside(path, seq![m.cwd, m.target_dir, m.build_dir]) {
        let dirs = seq![m.cwd, m.target_dir, m.build_dir];
        assert(below(path, dirs[0]) is None);
        assert(below(path, dirs[1]) is None);
        assert(below(path, dirs[2]) is None);
    }
}

proof fn lemma_not_placed(b: Seq<(Seq<u8>, Seq<char>)>, path: Seq<u8>)
    requires
        forall|i: int| 0 <= i < b.len() ==> below(path, (#[trigger] b[i]).0) is None,
    ensures
        placed(b, path) is None,
    decreases b.len(),
{
    if b.len() > 0 {
        let rest = b.skip(1);
        assert forall|i: int| 0 <= i < rest.len() implies below(path, (#[trigger] rest[i]).0) is None by {
            assert(rest[i] == b[i + 1]);
        }
        lemma_not_placed(rest, path);
    }
}

/// A directory outside the known ones gets a place of its own, named after its path, and a file
/// there stands in the place of its directory. The place is remembered, with the directory that it
/// is for.
pub proof fn other_directories_get_places_of_their_own(m: MapperView, path: Seq<u8>, up: Seq<u8>)
    requires
        outside(path, seq![m.cwd, m.target_dir, m.build_dir, m.sysroot]),
        forall|i: int|
            0 <= i < m.external_roots.len() ==> below(path, (#[trigger] m.external_roots[i]).0)
                is None,
    ensures
        execroot(m, path, true) == "workspace/.cargo-rbe/external/"@ + hex_text(
            sha256(path),
        ).take(16),
        asked(m, path, true).external_roots == m.external_roots.push(
            (path, execroot(m, path, true)),
        ),
        parent(path) == Some(up) ==> {
            &&& parts(path).len() > 0
            &&& execroot(m, path, false) == place_below(
                "workspace/.cargo-rbe/external/"@ + hex_text(sha256(up)).take(16),
                seq![parts(path).last()],
            )
            &&& asked(m, path, false).external_roots == m.external_roots.push(
                (up, "workspace/.cargo-rbe/external/"@ + hex_text(sha256(up)).take(16)),
            )
        },
{
    let b = bases(m);
    let dirs = seq![m.cwd, m.target_dir, m.build_dir, m.sysroot];
    assert forall|i: int| 0 <= i < b.len() implies below(path, (#[trigger] b[i]).0) is None by {
        if i < 4 {
            assert(below(path, dirs[i]) is None);
        } else {
            assert(b[i] == m.external_roots[i - 4]);
        }
    }
    lemma_not_placed(b, path);
    lemma_slot(path);
    lemma_slot(up);
    crate::component_laws::joining_adds_components(path, seq![]);
    if parent(path) == Some(up) {
        crate::local_path::lemma_parent(path);
        crate::component_laws::below_is_what_follows(path, up, seq![parts(path).last()]);
        assert(parts(path) =~= parts(up) + seq![parts(path).last()]);
    }
}

proof fn lemma_slot(root: Seq<u8>)
    ensures
        external_slot(root) == "workspace/.cargo-rbe/external/"@ + hex_text(sha256(root)).take(16),
{
    reveal_strlit("workspace");
    reveal_strlit("/");
    reveal_strlit(".cargo-rbe");
    reveal_strlit("external/");
    reveal_strlit("workspace/.cargo-rbe/external/");
    assert(external_slot(root) =~= "workspace/.cargo-rbe/external/"@ + short_digest(root));
}

/// All of the components are names, as text.
pub open spec fn all_names(ps: Seq<PartView>) -> bool {
    forall|i: int|
        0 <= i < ps.len() ==> (#[trigger] ps[i] matches PartView::Normal(name) && is_name(name))
}

proof fn lemma_name_pieces(ps: Seq<PartView>)
    requires
        all_names(ps),
    ensures
        reapi_pieces(ps).len() == ps.len(),
        forall|i: int|
            0 <= i < ps.len() ==> plain(#[trigger] reapi_pieces(ps)[i], '/') && (
            ps[i] matches PartView::Normal(name) && reapi_pieces(ps)[i] == decode_utf8(name)),
    decreases ps.len(),
{
    if ps.len() > 0 {
        let front = ps.drop_last();
        assert forall|i: int| 0 <= i < front.len() implies (
        #[trigger] front[i] matches PartView::Normal(name) && is_name(name)) by {
            assert(front[i] == ps[i]);
        }
        lemma_name_pieces(front);
        let n = ps.len() - 1;
        assert(ps[n] is Normal);
        let name = ps[n]->Normal_0;
        lemma_plain_name(name, decode_utf8(name));
        assert forall|i: int| 0 <= i < ps.len() implies plain(
            #[trigger] reapi_pieces(ps)[i],
            '/',
        ) && (ps[i] matches PartView::Normal(name) && reapi_pieces(ps)[i] == decode_utf8(name)) by {
            if i < n {
                assert(front[i] == ps[i]);
                assert(reapi_pieces(ps)[i] == reapi_pieces(front)[i]);
            }
        }
    }
}

/// Names below one directory stand at different places of the remote side where they differ.
pub proof fn different_names_have_different_places(
    base: Seq<char>,
    a: Seq<PartView>,
    b: Seq<PartView>,
)
    requires
        all_names(a),
        all_names(b),
        remote_text(base, a) == remote_text(base, b),
    ensures
        a == b,
{
    lemma_name_pieces(a);
    lemma_name_pieces(b);
    crate::path_laws::placing_adds_components(base, a);
    crate::path_laws::placing_adds_components(base, b);
    splitting_undoes_joining(reapi_pieces(a));
    splitting_undoes_joining(reapi_pieces(b));
    let x = components(base) + reapi_pieces(a);
    let y = components(base) + reapi_pieces(b);
    assert(x == y);
    let n = components(base).len() as int;
    assert(x.skip(n) =~= reapi_pieces(a));
    assert(y.skip(n) =~= reapi_pieces(b));
    assert forall|i: int| 0 <= i < a.len() implies a[i] == b[i] by {
        assert(reapi_pieces(a)[i] == reapi_pieces(b)[i]);
        decode_utf8_encode_utf8(a[i]->Normal_0);
        decode_utf8_encode_utf8(b[i]->Normal_0);
    }
    assert(a =~= b);
}

/// The remote spelling of names has the names, with a `/` between them.
pub proof fn names_are_spelled_in_their_order(ps: Seq<PartView>, i: int)
    requires
        all_names(ps),
        0 <= i < ps.len(),
    ensures
        components(reapi_text(ps)).len() == ps.len(),
        ps[i] matches PartView::Normal(name) && components(reapi_text(ps))[i] == decode_utf8(name),
{
    lemma_name_pieces(ps);
    splitting_undoes_joining(reapi_pieces(ps));
}

/// A fresh mapping has the working directory and nothing else.
pub proof fn fresh_mapping_has_nothing(
    cwd: Seq<u8>,
    target_dir: Seq<u8>,
    build_dir: Seq<u8>,
    sysroot: Seq<u8>,
    output_paths: Seq<Seq<u8>>,
    path: Seq<Seq<char>>,
)
    ensures
        ({
            let m = fresh(cwd, target_dir, build_dir, sysroot, output_paths);
            &&& m.cwd == cwd && m.target_dir == target_dir && m.build_dir == build_dir && m.sysroot
                == sysroot && m.output_paths == output_paths
            &&& m.external_roots.len() == 0
            &&& m.uploads.len() == 0
            &&& dir_in(m.tree, seq!["workspace"@])
            &&& file_at(m.tree, path) is None
            &&& symlink_at(m.tree, path) is None
        }),
{
    lemma_empty_dir();
    let home = seq!["workspace"@];
    ensured_directory_changes_no_entry(empty_dir(), home, path);
    lemma_empty_has_nothing(path);
    crate::input_laws::lemma_ensured_dir(empty_dir(), home, seq![]);
}

proof fn lemma_empty_has_nothing(path: Seq<Seq<char>>)
    ensures
        file_at(empty_dir(), path) is None,
        symlink_at(empty_dir(), path) is None,
    decreases path.len(),
{
    if path.len() > 1 {
        lemma_empty_has_nothing(path.skip(1));
    }
}

/// What is known of a path is what its first fact says, and of a path without a fact nothing is
/// there.
pub proof fn first_fact_counts(d: Seq<FactView>, path: Seq<u8>, i: int)
    requires
        0 <= i <= d.len(),
        forall|j: int| 0 <= j < i ==> (#[trigger] d[j]).path != path,
        i < d.len() ==> d[i].path == path,
    ensures
        i < d.len() ==> {
            &&& exists_at(d, path) == d[i].exists
            &&& dir_at(d, path) == d[i].is_dir
            &&& regular_at(d, path) == d[i].is_file
            &&& node_at(d, path) == d[i].node
        },
        i == d.len() ==> {
            &&& !exists_at(d, path)
            &&& !dir_at(d, path)
            &&& !regular_at(d, path)
            &&& node_at(d, path) is Unreadable
        },
    decreases d.len(),
{
    if i > 0 {
        let rest = d.skip(1);
        assert(d[0].path != path);
        assert forall|j: int| 0 <= j < i - 1 implies (#[trigger] rest[j]).path != path by {
            assert(rest[j] == d[j + 1]);
        }
        first_fact_counts(rest, path, i - 1);
        assert(fact_at(d, path) == fact_at(rest, path));
    }
}

proof fn lemma_subdir_digests(dirs: Seq<(Seq<char>, DirModel)>)
    ensures
        subdir_digests(dirs).len() == dirs.len(),
        forall|i: int|
            0 <= i < dirs.len() ==> #[trigger] subdir_digests(dirs)[i] == (
                dirs[i].0,
                tree_digest(dirs[i].1),
            ),
    decreases dirs.len(),
{
    if dirs.len() > 0 {
        let front = dirs.drop_last();
        lemma_subdir_digests(front);
        assert forall|i: int| 0 <= i < dirs.len() implies #[trigger] subdir_digests(dirs)[i] == (
            dirs[i].0,
            tree_digest(dirs[i].1),
        ) by {
            if i < front.len() {
                assert(subdir_digests(dirs)[i] == subdir_digests(front)[i]);
            }
        }
    }
}

/// The message of a directory lists its files and symbolic links, and each of its directories by
/// the digest of that directory's message, and nothing else.
pub proof fn message_lists_what_is_there(t: DirModel, name: Seq<char>)
    requires
        well_formed(t),
    ensures
        lookup::<String, FileView>(tree_view(t).files, name) == file_at(t, seq![name]),
        lookup::<String, Seq<char>>(tree_view(t).symlinks, name) == symlink_at(t, seq![name]),
        lookup::<String, DigestView>(tree_view(t).directories, name) == (if dir_in(
            t,
            seq![name],
        ) {
            Some(digest_of(directory_wire(tree_view(subdir(t, name)))))
        } else {
            None
        }),
{
    let dirs = t.dirs;
    let listed = subdir_digests(dirs);
    lemma_subdir_digests(dirs);
    lemma_rank::<String, DirModel>(dirs, name);
    let r = rank::<String, DirModel>(dirs, name);
    assert forall|i: int| 0 <= i < r implies <String as crate::sorted::OrderedKey>::before(
        #[trigger] listed[i].0,
        name,
    ) by {
        assert(dirs[i].0 == listed[i].0);
    }
    if r < dirs.len() {
        assert(listed[r].0 == dirs[r].0);
    }
    lemma_rank_is::<String, DigestView>(listed, name, r);
    assert(seq![name].skip(1) =~= seq![]);
    assert(dir_in(subdir(t, name), seq![]));
}

/// Each component of a path is spelled after those before it, with a `/` between them: a name as
/// its text, and what leads to another directory as it is written. The root is left out.
pub proof fn each_component_is_spelled(ps: Seq<PartView>, name: Seq<u8>)
    ensures
        reapi_text(seq![]) == Seq::<char>::empty(),
        reapi_text(seq![PartView::Root]) == Seq::<char>::empty(),
        reapi_text(seq![PartView::Cur]) == "."@,
        reapi_text(seq![PartView::Parent]) == ".."@,
        reapi_text(seq![PartView::Normal(name)]) == lossy_text(name),
        reapi_text(seq![PartView::Root] + ps) == reapi_text(ps),
        ps.len() > 0 && rootless(ps) ==> {
            &&& reapi_text(ps.push(PartView::Cur)) == reapi_text(ps) + "/"@ + "."@
            &&& reapi_text(ps.push(PartView::Parent)) == reapi_text(ps) + "/"@ + ".."@
            &&& reapi_text(ps.push(PartView::Normal(name))) == reapi_text(ps) + "/"@ + lossy_text(
                name,
            )
        },
{
    let none = Seq::<PartView>::empty();
    lemma_spelled_once(PartView::Root);
    lemma_spelled_once(PartView::Cur);
    lemma_spelled_once(PartView::Parent);
    lemma_spelled_once(PartView::Normal(name));
    assert(reapi_pieces(none) =~= seq![]);
    lemma_reapi_pieces_of_two(seq![PartView::Root], ps);
    assert(seq![] + reapi_pieces(ps) =~= reapi_pieces(ps));
    if ps.len() > 0 && rootless(ps) {
        lemma_rootless_pieces(ps);
        lemma_spelled_after(ps, PartView::Cur, "."@);
        lemma_spelled_after(ps, PartView::Parent, ".."@);
        lemma_spelled_after(ps, PartView::Normal(name), lossy_text(name));
    }
}

proof fn lemma_spelled_once(part: PartView)
    ensures
        reapi_pieces(seq![part]) == (match part {
            PartView::Root => seq![],
            PartView::Cur => seq!["."@],
            PartView::Parent => seq![".."@],
            PartView::Normal(name) => seq![lossy_text(name)],
        }),
{
    let one = seq![part];
    assert(one.drop_last() =~= seq![]);
    assert(reapi_pieces(seq![]) =~= seq![]);
    assert(reapi_pieces(one) =~= (match part {
        PartView::Root => seq![],
        PartView::Cur => seq!["."@],
        PartView::Parent => seq![".."@],
        PartView::Normal(name) => seq![lossy_text(name)],
    }));
}

proof fn lemma_spelled_after(ps: Seq<PartView>, part: PartView, text: Seq<char>)
    requires
        ps.len() > 0,
        reapi_pieces(ps).len() == ps.len(),
        reapi_pieces(seq![part]) == seq![text],
    ensures
        reapi_text(ps.push(part)) == reapi_text(ps) + "/"@ + text,
{
    let all = ps.push(part);
    lemma_reapi_pieces_of_two(ps, seq![part]);
    assert(ps + seq![part] =~= all);
    let texts = reapi_pieces(all);
    assert(texts.drop_last() =~= reapi_pieces(ps));
    assert(texts.last() == text);
}

/// A command means a path in its working directory by a relative one, and the path itself by an
/// absolute one.
pub proof fn words_mean_paths_from_the_working_directory(m: MapperView, value: Seq<char>)
    ensures
        encode_utf8(value).len() > 0 && encode_utf8(value)[0] == 47u8 ==> resolved(m, value)
            == encode_utf8(value),
        !rooted(encode_utf8(value)) && !leading_cur(encode_utf8(value)) ==> {
            &&& parts(resolved(m, value)) == parts(m.cwd) + parts(encode_utf8(value))
            &&& below(resolved(m, value), m.cwd) == Some(parts(encode_utf8(value)))
        },
{
    crate::component_laws::joining_adds_components(m.cwd, encode_utf8(value));
}

} // verus!
