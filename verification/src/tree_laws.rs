//! What holds of input trees and of the blobs that describe them.
use vstd::prelude::*;

use crate::digest::{DigestKey, DigestView};
use crate::dir_builder::{
    ensured, file_at, lemma_subdir, lemma_with_dir, subdir, subdir_digests, symlink_at, tree_digest,
    tree_view, tree_wire, well_formed, with_dir, with_file, with_subdirs, with_symlink, with_tree,
    DirModel,
};
use crate::messages::FileView;
use crate::sorted::{
    lemma_rank, lemma_with, lemma_with_commutes, lemma_with_twice, lookup, rank, sorted,
};
use crate::uploads::{holds, honest, included, lemma_with_blob, ordered, BlobView, DataView};

verus! {

/// The blobs of all files in a tree are in the upload set.
pub open spec fn files_uploaded(t: DirModel, u: Seq<(DigestView, BlobView)>) -> bool
    decreases t,
{
    &&& forall|i: int| 0 <= i < t.files.len() ==> holds(u, (#[trigger] t.files[i]).1.digest)
    &&& forall|i: int| 0 <= i < t.dirs.len() ==> files_uploaded(#[trigger] t.dirs[i].1, u)
}

/// Everything that the digest of a tree leads to is in the upload set: its message, the blobs of
/// its files, and the same for each directory below.
pub open spec fn closed(t: DirModel, u: Seq<(DigestView, BlobView)>) -> bool
    decreases t,
{
    &&& holds(u, tree_digest(t))
    &&& forall|i: int| 0 <= i < t.files.len() ==> holds(u, (#[trigger] t.files[i]).1.digest)
    &&& forall|i: int| 0 <= i < t.dirs.len() ==> closed(#[trigger] t.dirs[i].1, u)
}

/// Whatever is in the first set is in the second.
pub open spec fn no_less(a: Seq<(DigestView, BlobView)>, b: Seq<(DigestView, BlobView)>) -> bool {
    forall|d: DigestView| holds(a, d) ==> #[trigger] holds(b, d)
}

/// A file that is put at a path is found there, and no other file and no symbolic link changes.
pub proof fn inserted_file_is_found(
    t: DirModel,
    path: Seq<Seq<char>>,
    f: FileView,
    other: Seq<Seq<char>>,
)
    requires
        well_formed(t),
        path.len() > 0,
    ensures
        well_formed(with_file(t, path, f)),
        file_at(with_file(t, path, f), path) == Some(f),
        other != path ==> file_at(with_file(t, path, f), other) == file_at(t, other),
        symlink_at(with_file(t, path, f), other) == symlink_at(t, other),
    decreases path.len(),
{
    let n = with_file(t, path, f);
    if path.len() == 1 {
        lemma_with::<String, FileView>(t.files, path[0], f);
        if other.len() == 1 && other[0] == path[0] {
            assert(other =~= path);
        }
        if other.len() > 1 {
            assert(subdir(n, other[0]) == subdir(t, other[0]));
        }
    } else {
        let name = path[0];
        let rest = path.skip(1);
        lemma_subdir(t, name);
        inserted_file_is_found(subdir(t, name), rest, f, other.skip(1));
        lemma_with_dir(t, name, with_file(subdir(t, name), rest, f));
        if other.len() > 1 && other[0] == name && other.skip(1) == rest {
            assert forall|i: int| 0 <= i < path.len() implies path[i] == other[i] by {
                if i > 0 {
                    assert(path.skip(1)[i - 1] == other.skip(1)[i - 1]);
                }
            }
            assert(path =~= other);
        }
    }
}

/// A symbolic link that is put at a path is found there, and no other symbolic link and no file
/// changes.
pub proof fn inserted_symlink_is_found(
    t: DirModel,
    path: Seq<Seq<char>>,
    target: Seq<char>,
    other: Seq<Seq<char>>,
)
    requires
        well_formed(t),
        path.len() > 0,
    ensures
        well_formed(with_symlink(t, path, target)),
        symlink_at(with_symlink(t, path, target), path) == Some(target),
        other != path ==> symlink_at(with_symlink(t, path, target), other) == symlink_at(t, other),
        file_at(with_symlink(t, path, target), other) == file_at(t, other),
    decreases path.len(),
{
    let n = with_symlink(t, path, target);
    if path.len() == 1 {
        lemma_with::<String, Seq<char>>(t.symlinks, path[0], target);
        if other.len() == 1 && other[0] == path[0] {
            assert(other =~= path);
        }
        if other.len() > 1 {
            assert(subdir(n, other[0]) == subdir(t, other[0]));
        }
    } else {
        let name = path[0];
        let rest = path.skip(1);
        lemma_subdir(t, name);
        inserted_symlink_is_found(subdir(t, name), rest, target, other.skip(1));
        lemma_with_dir(t, name, with_symlink(subdir(t, name), rest, target));
        if other.len() > 1 && other[0] == name && other.skip(1) == rest {
            assert forall|i: int| 0 <= i < path.len() implies path[i] == other[i] by {
                if i > 0 {
                    assert(path.skip(1)[i - 1] == other.skip(1)[i - 1]);
                }
            }
            assert(path =~= other);
        }
    }
}

/// Adding a directory changes no file and no symbolic link.
pub proof fn ensured_directory_changes_no_entry(
    t: DirModel,
    path: Seq<Seq<char>>,
    other: Seq<Seq<char>>,
)
    requires
        well_formed(t),
    ensures
        well_formed(ensured(t, path)),
        file_at(ensured(t, path), other) == file_at(t, other),
        symlink_at(ensured(t, path), other) == symlink_at(t, other),
    decreases path.len(),
{
    if path.len() > 0 {
        let name = path[0];
        lemma_subdir(t, name);
        ensured_directory_changes_no_entry(subdir(t, name), path.skip(1), other.skip(1));
        lemma_with_dir(t, name, ensured(subdir(t, name), path.skip(1)));
    }
}

/// Two files at different paths may be put in either order: the tree, and so its digest, is the
/// same.
pub proof fn file_insertions_commute(
    t: DirModel,
    p: Seq<Seq<char>>,
    f: FileView,
    q: Seq<Seq<char>>,
    g: FileView,
)
    requires
        well_formed(t),
        p.len() > 0,
        q.len() > 0,
        p != q,
    ensures
        with_file(with_file(t, p, f), q, g) == with_file(with_file(t, q, g), p, f),
    decreases p.len(),
{
    let x = with_file(with_file(t, p, f), q, g);
    let y = with_file(with_file(t, q, g), p, f);
    if p.len() == 1 && q.len() == 1 {
        if p[0] == q[0] {
            assert(p =~= q);
        }
        lemma_with_commutes::<String, FileView>(t.files, p[0], f, q[0], g);
    } else if p.len() == 1 || q.len() == 1 {
        if p.len() == 1 {
            assert(subdir(with_file(t, p, f), q[0]) == subdir(t, q[0]));
        } else {
            assert(subdir(with_file(t, q, g), p[0]) == subdir(t, p[0]));
        }
        assert(x =~= y);
    } else {
        let a = subdir(t, p[0]);
        let b = subdir(t, q[0]);
        lemma_subdir(t, p[0]);
        lemma_subdir(t, q[0]);
        inserted_file_is_found(a, p.skip(1), f, p);
        inserted_file_is_found(b, q.skip(1), g, q);
        let fa = with_file(a, p.skip(1), f);
        let gb = with_file(b, q.skip(1), g);
        lemma_with_dir(t, p[0], fa);
        lemma_with_dir(t, q[0], gb);
        if p[0] == q[0] {
            if p.skip(1) == q.skip(1) {
                assert forall|i: int| 0 <= i < p.len() implies p[i] == q[i] by {
                    if i > 0 {
                        assert(p.skip(1)[i - 1] == q.skip(1)[i - 1]);
                    }
                }
                assert(p =~= q);
            }
            file_insertions_commute(a, p.skip(1), f, q.skip(1), g);
            lemma_with_twice::<String, DirModel>(
                t.dirs,
                p[0],
                fa,
                with_file(fa, q.skip(1), g),
            );
            lemma_with_twice::<String, DirModel>(
                t.dirs,
                p[0],
                gb,
                with_file(gb, p.skip(1), f),
            );
        } else {
            lemma_with_commutes::<String, DirModel>(t.dirs, p[0], fa, q[0], gb);
        }
        assert(x =~= y);
    }
}

/// A tree with several files put in it, one after the other.
pub open spec fn with_files(t: DirModel, files: Seq<(Seq<Seq<char>>, FileView)>) -> DirModel
    decreases files.len(),
{
    if files.len() == 0 {
        t
    } else {
        with_file(with_files(t, files.drop_last()), files.last().0, files.last().1)
    }
}

/// The files have paths, and no two have the same.
pub open spec fn own_places(files: Seq<(Seq<Seq<char>>, FileView)>) -> bool {
    &&& forall|i: int| 0 <= i < files.len() ==> (#[trigger] files[i]).0.len() > 0
    &&& forall|i: int, j: int|
        #![trigger files[i], files[j]]
        0 <= i < j < files.len() ==> files[i].0 != files[j].0
}

/// Leaving out a file leaves each of the others its own place.
proof fn lemma_own_places_without(files: Seq<(Seq<Seq<char>>, FileView)>, n: int)
    requires
        own_places(files),
        0 <= n < files.len(),
    ensures
        own_places(files.remove(n)),
{
    let rest = files.remove(n);
    assert forall|i: int| 0 <= i < rest.len() implies (#[trigger] rest[i]).0.len() > 0 by {
        assert(rest[i] == files[if i < n {
            i
        } else {
            i + 1
        }]);
    }
    assert forall|i: int, j: int|
        #![trigger rest[i], rest[j]]
        0 <= i < j < rest.len() implies rest[i].0 != rest[j].0 by {
        assert(rest[i] == files[if i < n {
            i
        } else {
            i + 1
        }]);
        assert(rest[j] == files[if j < n {
            j
        } else {
            j + 1
        }]);
    }
}

/// Putting files in a tree keeps it well formed.
proof fn lemma_with_files_is_well_formed(t: DirModel, files: Seq<(Seq<Seq<char>>, FileView)>)
    requires
        well_formed(t),
        own_places(files),
    ensures
        well_formed(with_files(t, files)),
    decreases files.len(),
{
    if files.len() > 0 {
        let n = files.len() - 1;
        lemma_own_places_without(files, n);
        assert(files.remove(n) =~= files.drop_last());
        lemma_with_files_is_well_formed(t, files.drop_last());
        assert(files[n].0.len() > 0);
        inserted_file_is_found(
            with_files(t, files.drop_last()),
            files[n].0,
            files[n].1,
            files[n].0,
        );
    }
}

/// Any one of the files may be put last.
proof fn lemma_any_file_last(t: DirModel, files: Seq<(Seq<Seq<char>>, FileView)>, n: int)
    requires
        well_formed(t),
        own_places(files),
        0 <= n < files.len(),
    ensures
        with_files(t, files) == with_file(
            with_files(t, files.remove(n)),
            files[n].0,
            files[n].1,
        ),
    decreases files.len(),
{
    let last = files.len() - 1;
    let front = files.drop_last();
    if n == last {
        assert(files.remove(n) =~= front);
    } else {
        lemma_own_places_without(files, last);
        assert(files.remove(last) =~= front);
        lemma_any_file_last(t, front, n);
        lemma_own_places_without(front, n);
        lemma_with_files_is_well_formed(t, front.remove(n));
        assert(front[n] == files[n]);
        assert(files[n].0.len() > 0 && files[last].0.len() > 0);
        file_insertions_commute(
            with_files(t, front.remove(n)),
            files[n].0,
            files[n].1,
            files[last].0,
            files[last].1,
        );
        assert(files.remove(n).drop_last() =~= front.remove(n));
        assert(files.remove(n).last() == files[last]);
    }
}

/// Files at different paths may be put in any order: the tree is the same, and so is its digest.
pub proof fn order_of_files_is_of_no_account(
    t: DirModel,
    a: Seq<(Seq<Seq<char>>, FileView)>,
    b: Seq<(Seq<Seq<char>>, FileView)>,
)
    requires
        well_formed(t),
        own_places(a),
        a.to_multiset() == b.to_multiset(),
    ensures
        with_files(t, a) == with_files(t, b),
        tree_digest(with_files(t, a)) == tree_digest(with_files(t, b)),
    decreases b.len(),
{
    a.to_multiset_ensures();
    b.to_multiset_ensures();
    assert(a.len() == a.to_multiset().len());
    if b.len() > 0 {
        let last = b.len() - 1;
        let x = b[last];
        assert(b.contains(x));
        assert(b.to_multiset().count(x) > 0);
        assert(a.contains(x));
        let n = choose|n: int| 0 <= n < a.len() && a[n] == x;
        lemma_any_file_last(t, a, n);
        lemma_own_places_without(a, n);
        assert(b.remove(last) =~= b.drop_last());
        assert(a.remove(n).to_multiset() =~= a.to_multiset().remove(x));
        assert(b.remove(last).to_multiset() =~= b.to_multiset().remove(x));
        order_of_files_is_of_no_account(t, a.remove(n), b.drop_last());
    }
}

/// A file and a symbolic link may be put in either order.
pub proof fn file_and_symlink_insertions_commute(
    t: DirModel,
    p: Seq<Seq<char>>,
    f: FileView,
    q: Seq<Seq<char>>,
    target: Seq<char>,
)
    requires
        well_formed(t),
        p.len() > 0,
        q.len() > 0,
    ensures
        with_symlink(with_file(t, p, f), q, target) == with_file(
            with_symlink(t, q, target),
            p,
            f,
        ),
    decreases p.len(),
{
    let x = with_symlink(with_file(t, p, f), q, target);
    let y = with_file(with_symlink(t, q, target), p, f);
    if p.len() == 1 || q.len() == 1 {
        if p.len() == 1 {
            assert(subdir(with_file(t, p, f), q[0]) == subdir(t, q[0]));
        }
        if q.len() == 1 {
            assert(subdir(with_symlink(t, q, target), p[0]) == subdir(t, p[0]));
        }
        assert(x =~= y);
    } else {
        let a = subdir(t, p[0]);
        let b = subdir(t, q[0]);
        lemma_subdir(t, p[0]);
        lemma_subdir(t, q[0]);
        inserted_file_is_found(a, p.skip(1), f, p);
        inserted_symlink_is_found(b, q.skip(1), target, q);
        let fa = with_file(a, p.skip(1), f);
        let gb = with_symlink(b, q.skip(1), target);
        lemma_with_dir(t, p[0], fa);
        lemma_with_dir(t, q[0], gb);
        if p[0] == q[0] {
            file_and_symlink_insertions_commute(a, p.skip(1), f, q.skip(1), target);
            lemma_with_twice::<String, DirModel>(
                t.dirs,
                p[0],
                fa,
                with_symlink(fa, q.skip(1), target),
            );
            lemma_with_twice::<String, DirModel>(
                t.dirs,
                p[0],
                gb,
                with_file(gb, p.skip(1), f),
            );
        } else {
            lemma_with_commutes::<String, DirModel>(t.dirs, p[0], fa, q[0], gb);
        }
        assert(x =~= y);
    }
}

/// The message of a directory lists its files, directories and symbolic links in strictly
/// increasing order of their names.
pub proof fn directory_message_is_canonical(t: DirModel)
    requires
        well_formed(t),
    ensures
        sorted::<String, FileView>(tree_view(t).files),
        sorted::<String, DigestView>(tree_view(t).directories),
        sorted::<String, Seq<char>>(tree_view(t).symlinks),
{
    lemma_subdir_names(t.dirs);
    let d = tree_view(t).directories;
    assert forall|i: int, j: int| 0 <= i < j < d.len() implies crate::text::text_before(
        #[trigger] d[i].0,
        #[trigger] d[j].0,
    ) by {
        assert(d[i].0 == t.dirs[i].0 && d[j].0 == t.dirs[j].0);
    }
}

proof fn lemma_subdir_names(dirs: Seq<(Seq<char>, DirModel)>)
    ensures
        subdir_digests(dirs).len() == dirs.len(),
        forall|i: int|
            0 <= i < dirs.len() ==> #[trigger] subdir_digests(dirs)[i] == (
                dirs[i].0,
                tree_digest(dirs[i].1),
            ),
    decreases dirs.len(),
{
    if dirs.len() > 0 {
        lemma_subdir_names(dirs.drop_last());
    }
}

/// A larger upload set still holds the blobs of all files.
pub proof fn lemma_files_uploaded_grows(
    t: DirModel,
    a: Seq<(DigestView, BlobView)>,
    b: Seq<(DigestView, BlobView)>,
)
    requires
        no_less(a, b),
        files_uploaded(t, a),
    ensures
        files_uploaded(t, b),
    decreases t,
{
    assert forall|i: int| 0 <= i < t.dirs.len() implies files_uploaded(
        #[trigger] t.dirs[i].1,
        b,
    ) by {
        lemma_files_uploaded_grows(t.dirs[i].1, a, b);
    }
}

/// A larger upload set is still closed.
pub proof fn lemma_closed_grows(
    t: DirModel,
    a: Seq<(DigestView, BlobView)>,
    b: Seq<(DigestView, BlobView)>,
)
    requires
        no_less(a, b),
        closed(t, a),
    ensures
        closed(t, b),
    decreases t,
{
    assert forall|i: int| 0 <= i < t.dirs.len() implies closed(#[trigger] t.dirs[i].1, b) by {
        lemma_closed_grows(t.dirs[i].1, a, b);
    }
}

/// Adding the messages of a tree keeps the set ordered and honest and everything in it as it is.
pub proof fn adding_a_tree_keeps_the_set(t: DirModel, u: Seq<(DigestView, BlobView)>)
    requires
        ordered(u),
    ensures
        ordered(with_tree(t, u)),
        no_less(u, with_tree(t, u)),
        included(u, with_tree(t, u)),
        honest(u) ==> honest(with_tree(t, u)),
        holds(with_tree(t, u), tree_digest(t)),
    decreases t, 1nat,
{
    lemma_adding_subdirs(t.dirs, u);
    let v = with_subdirs(t.dirs, u);
    lemma_with_blob(v, tree_digest(t), DataView::Bytes(tree_wire(t)));
    assert forall|d: DigestView| lookup::<DigestKey, BlobView>(u, d) is Some implies #[trigger] lookup::<
        DigestKey,
        BlobView,
    >(with_tree(t, u), d) == lookup::<DigestKey, BlobView>(u, d) by {
        assert(lookup::<DigestKey, BlobView>(v, d) == lookup::<DigestKey, BlobView>(u, d));
    }
}

proof fn lemma_adding_subdirs(
    dirs: Seq<(Seq<char>, DirModel)>,
    u: Seq<(DigestView, BlobView)>,
)
    requires
        ordered(u),
    ensures
        ordered(with_subdirs(dirs, u)),
        no_less(u, with_subdirs(dirs, u)),
        included(u, with_subdirs(dirs, u)),
        honest(u) ==> honest(with_subdirs(dirs, u)),
    decreases dirs, 0nat,
{
    if dirs.len() > 0 {
        let v = with_subdirs(dirs.drop_last(), u);
        lemma_adding_subdirs(dirs.drop_last(), u);
        adding_a_tree_keeps_the_set(dirs.last().1, v);
        assert forall|d: DigestView| lookup::<DigestKey, BlobView>(u, d) is Some implies #[trigger] lookup::<
            DigestKey,
            BlobView,
        >(with_subdirs(dirs, u), d) == lookup::<DigestKey, BlobView>(u, d) by {
            assert(lookup::<DigestKey, BlobView>(v, d) == lookup::<DigestKey, BlobView>(u, d));
        }
    }
}

/// Once the blobs of the files are in the upload set, adding the messages of the tree puts in
/// everything that the digest of the tree leads to.
pub proof fn tree_is_uploaded_whole(t: DirModel, u: Seq<(DigestView, BlobView)>)
    requires
        ordered(u),
        files_uploaded(t, u),
    ensures
        closed(t, with_tree(t, u)),
    decreases t, 1nat,
{
    adding_a_tree_keeps_the_set(t, u);
    lemma_adding_subdirs(t.dirs, u);
    let v = with_subdirs(t.dirs, u);
    lemma_subdirs_closed(t.dirs, u);
    lemma_with_blob(v, tree_digest(t), DataView::Bytes(tree_wire(t)));
    assert forall|i: int| 0 <= i < t.dirs.len() implies closed(
        #[trigger] t.dirs[i].1,
        with_tree(t, u),
    ) by {
        lemma_closed_grows(t.dirs[i].1, v, with_tree(t, u));
    }
}

proof fn lemma_subdirs_closed(dirs: Seq<(Seq<char>, DirModel)>, u: Seq<(DigestView, BlobView)>)
    requires
        ordered(u),
        forall|i: int| 0 <= i < dirs.len() ==> files_uploaded(#[trigger] dirs[i].1, u),
    ensures
        forall|i: int|
            0 <= i < dirs.len() ==> closed(#[trigger] dirs[i].1, with_subdirs(dirs, u)),
    decreases dirs, 0nat,
{
    if dirs.len() > 0 {
        let front = dirs.drop_last();
        let v = with_subdirs(front, u);
        assert forall|i: int| 0 <= i < front.len() implies files_uploaded(
            #[trigger] front[i].1,
            u,
        ) by {
            assert(front[i] == dirs[i]);
        }
        lemma_subdirs_closed(front, u);
        lemma_adding_subdirs(front, u);
        lemma_files_uploaded_grows(dirs.last().1, u, v);
        tree_is_uploaded_whole(dirs.last().1, v);
        adding_a_tree_keeps_the_set(dirs.last().1, v);
        assert forall|i: int| 0 <= i < dirs.len() implies closed(
            #[trigger] dirs[i].1,
            with_subdirs(dirs, u),
        ) by {
            if i < front.len() {
                assert(front[i] == dirs[i]);
                lemma_closed_grows(front[i].1, v, with_subdirs(dirs, u));
            }
        }
    }
}

/// The message of every directory of a tree is in the upload set.
pub open spec fn messages_held(t: DirModel, u: Seq<(DigestView, BlobView)>) -> bool
    decreases t,
{
    &&& holds(u, tree_digest(t))
    &&& forall|i: int| 0 <= i < t.dirs.len() ==> messages_held(#[trigger] t.dirs[i].1, u)
}

proof fn lemma_messages_held_grows(
    t: DirModel,
    a: Seq<(DigestView, BlobView)>,
    b: Seq<(DigestView, BlobView)>,
)
    requires
        no_less(a, b),
        messages_held(t, a),
    ensures
        messages_held(t, b),
    decreases t,
{
    assert forall|i: int| 0 <= i < t.dirs.len() implies messages_held(
        #[trigger] t.dirs[i].1,
        b,
    ) by {
        lemma_messages_held_grows(t.dirs[i].1, a, b);
    }
}

/// Adding the messages of a tree puts in the message of each of its directories.
pub proof fn tree_adds_its_messages(t: DirModel, u: Seq<(DigestView, BlobView)>)
    requires
        ordered(u),
    ensures
        messages_held(t, with_tree(t, u)),
    decreases t, 1nat,
{
    adding_a_tree_keeps_the_set(t, u);
    lemma_adding_subdirs(t.dirs, u);
    let v = with_subdirs(t.dirs, u);
    lemma_subdirs_add_their_messages(t.dirs, u);
    lemma_with_blob(v, tree_digest(t), DataView::Bytes(tree_wire(t)));
    assert forall|i: int| 0 <= i < t.dirs.len() implies messages_held(
        #[trigger] t.dirs[i].1,
        with_tree(t, u),
    ) by {
        lemma_messages_held_grows(t.dirs[i].1, v, with_tree(t, u));
    }
}

proof fn lemma_subdirs_add_their_messages(
    dirs: Seq<(Seq<char>, DirModel)>,
    u: Seq<(DigestView, BlobView)>,
)
    requires
        ordered(u),
    ensures
        forall|i: int|
            0 <= i < dirs.len() ==> messages_held(#[trigger] dirs[i].1, with_subdirs(dirs, u)),
    decreases dirs, 0nat,
{
    if dirs.len() > 0 {
        let front = dirs.drop_last();
        let v = with_subdirs(front, u);
        lemma_subdirs_add_their_messages(front, u);
        lemma_adding_subdirs(front, u);
        tree_adds_its_messages(dirs.last().1, v);
        adding_a_tree_keeps_the_set(dirs.last().1, v);
        assert forall|i: int| 0 <= i < dirs.len() implies messages_held(
            #[trigger] dirs[i].1,
            with_subdirs(dirs, u),
        ) by {
            if i < front.len() {
                assert(front[i] == dirs[i]);
                lemma_messages_held_grows(front[i].1, v, with_subdirs(dirs, u));
            }
        }
    }
}

/// Where the messages are in the upload set, adding them changes nothing.
proof fn lemma_nothing_to_add(t: DirModel, u: Seq<(DigestView, BlobView)>)
    requires
        messages_held(t, u),
    ensures
        with_tree(t, u) == u,
    decreases t, 1nat,
{
    lemma_no_subdirs_to_add(t.dirs, u);
}

proof fn lemma_no_subdirs_to_add(
    dirs: Seq<(Seq<char>, DirModel)>,
    u: Seq<(DigestView, BlobView)>,
)
    requires
        forall|i: int| 0 <= i < dirs.len() ==> messages_held(#[trigger] dirs[i].1, u),
    ensures
        with_subdirs(dirs, u) == u,
    decreases dirs, 0nat,
{
    if dirs.len() > 0 {
        let front = dirs.drop_last();
        assert forall|i: int| 0 <= i < front.len() implies messages_held(
            #[trigger] front[i].1,
            u,
        ) by {
            assert(front[i] == dirs[i]);
        }
        lemma_no_subdirs_to_add(front, u);
        assert(messages_held(dirs[dirs.len() - 1].1, u));
        lemma_nothing_to_add(dirs.last().1, u);
    }
}

/// Adding the messages of a tree once more changes nothing.
pub proof fn adding_a_tree_again_changes_nothing(t: DirModel, u: Seq<(DigestView, BlobView)>)
    requires
        ordered(u),
    ensures
        with_tree(t, with_tree(t, u)) == with_tree(t, u),
{
    tree_adds_its_messages(t, u);
    lemma_nothing_to_add(t, with_tree(t, u));
}

/// Where the blobs of all files are in the upload set and the blob of one more file is, so are
/// the blobs of all files once that file is put into the tree.
pub proof fn inserted_file_stays_uploaded(
    t: DirModel,
    path: Seq<Seq<char>>,
    f: FileView,
    u: Seq<(DigestView, BlobView)>,
)
    requires
        well_formed(t),
        path.len() > 0,
        files_uploaded(t, u),
        holds(u, f.digest),
    ensures
        files_uploaded(with_file(t, path, f), u),
    decreases path.len(),
{
    let n = with_file(t, path, f);
    if path.len() == 1 {
        lemma_rank::<String, FileView>(t.files, path[0]);
        let r = rank::<String, FileView>(t.files, path[0]);
        assert forall|i: int| 0 <= i < n.files.len() implies holds(
            u,
            (#[trigger] n.files[i]).1.digest,
        ) by {
            if r < t.files.len() && t.files[r].0 == path[0] {
                if i != r {
                    assert(n.files[i] == t.files[i]);
                }
            } else if i < r {
                assert(n.files[i] == t.files[i]);
            } else if i > r {
                assert(n.files[i] == t.files[i - 1]);
            }
        }
    } else {
        lemma_subdir(t, path[0]);
        lemma_subdir_uploaded(t, path[0], u);
        inserted_file_stays_uploaded(subdir(t, path[0]), path.skip(1), f, u);
        lemma_with_dir_uploaded(t, path[0], with_file(subdir(t, path[0]), path.skip(1), f), u);
    }
}

/// A symbolic link or a directory that is put into the tree brings in no file.
pub proof fn inserted_symlink_stays_uploaded(
    t: DirModel,
    path: Seq<Seq<char>>,
    target: Seq<char>,
    u: Seq<(DigestView, BlobView)>,
)
    requires
        well_formed(t),
        files_uploaded(t, u),
    ensures
        path.len() > 0 ==> files_uploaded(with_symlink(t, path, target), u),
        files_uploaded(ensured(t, path), u),
    decreases path.len(),
{
    if path.len() > 0 {
        lemma_subdir(t, path[0]);
        lemma_subdir_uploaded(t, path[0], u);
        inserted_symlink_stays_uploaded(subdir(t, path[0]), path.skip(1), target, u);
        lemma_with_dir_uploaded(t, path[0], ensured(subdir(t, path[0]), path.skip(1)), u);
        if path.len() > 1 {
            lemma_with_dir_uploaded(
                t,
                path[0],
                with_symlink(subdir(t, path[0]), path.skip(1), target),
                u,
            );
        }
    }
}

proof fn lemma_subdir_uploaded(t: DirModel, name: Seq<char>, u: Seq<(DigestView, BlobView)>)
    requires
        files_uploaded(t, u),
    ensures
        files_uploaded(subdir(t, name), u),
{
    match lookup::<String, DirModel>(t.dirs, name) {
        Some(d) => {
            let i = rank::<String, DirModel>(t.dirs, name);
            assert(files_uploaded(t.dirs[i].1, u));
        },
        None => {},
    }
}

proof fn lemma_with_dir_uploaded(
    t: DirModel,
    name: Seq<char>,
    d: DirModel,
    u: Seq<(DigestView, BlobView)>,
)
    requires
        files_uploaded(t, u),
        files_uploaded(d, u),
    ensures
        files_uploaded(with_dir(t, name, d), u),
{
    let n = with_dir(t, name, d);
    lemma_rank::<String, DirModel>(t.dirs, name);
    let r = rank::<String, DirModel>(t.dirs, name);
    assert forall|i: int| 0 <= i < n.dirs.len() implies files_uploaded(
        #[trigger] n.dirs[i].1,
        u,
    ) by {
        if r < t.dirs.len() && t.dirs[r].0 == name {
            if i != r {
                assert(n.dirs[i] == t.dirs[i]);
            }
        } else if i < r {
            assert(n.dirs[i] == t.dirs[i]);
        } else if i > r {
            assert(n.dirs[i] == t.dirs[i - 1]);
        }
    }
}

} // verus!
