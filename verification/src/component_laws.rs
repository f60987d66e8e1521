//! What the components of a local path are.
use vstd::prelude::*;

use crate::local_path::{
    before_last_piece, below, body_start, extended, file_name, joined_path, kept, last_piece,
    leading_cur, parent, part_of, parts, rooted, stem, trimmed, PartView, DOT, SEP,
};
use crate::path_laws::{lemma_one_piece, lemma_pieces_of_two};
use crate::text::{lemma_last_index, lemma_last_index_is, pieces, split_last};

verus! {

/// A name: not empty, without a separator, and neither `.` nor `..`.
pub open spec fn names_an_entry(name: Seq<u8>) -> bool {
    &&& name.len() > 0
    &&& !name.contains(47u8)
    &&& name != seq![46u8]
    &&& name != seq![46u8, 46u8]
}

proof fn lemma_kept_of_two(a: Seq<Seq<u8>>, b: Seq<Seq<u8>>)
    ensures
        kept(a + b) == kept(a) + kept(b),
    decreases b.len(),
{
    if b.len() == 0 {
        assert(a + b =~= a);
        assert(kept(a) + kept(b) =~= kept(a));
    } else {
        assert((a + b).drop_last() =~= a + b.drop_last());
        assert((a + b).last() == b.last());
        lemma_kept_of_two(a, b.drop_last());
        assert(kept(a + b) =~= kept(a) + kept(b));
    }
}

proof fn lemma_kept_one(piece: Seq<u8>)
    ensures
        kept(seq![piece]) == (match part_of(piece) {
            Some(part) => seq![part],
            None => seq![],
        }),
{
    let one = seq![piece];
    assert(one.drop_last() =~= seq![]);
    assert(kept(seq![]) =~= seq![]);
    assert(kept(one) =~= (match part_of(piece) {
        Some(part) => seq![part],
        None => seq![],
    }));
}

/// What follows a separator adds its components.
proof fn lemma_parts_of_two(path: Seq<u8>, more: Seq<u8>)
    requires
        path.len() > 0,
    ensures
        parts(path + seq![SEP] + more) == parts(path) + kept(pieces(more, SEP)),
{
    let s = path + seq![SEP] + more;
    let n = body_start(path);
    assert(s[0] == path[0]);
    if path.len() == 1 {
        assert(s[1] == SEP);
    } else {
        assert(s[1] == path[1]);
    }
    assert(body_start(s) == n);
    assert(s.skip(n) =~= path.skip(n) + seq![SEP] + more);
    lemma_pieces_of_two(path.skip(n), SEP, more);
    lemma_kept_of_two(pieces(path.skip(n), SEP), pieces(more, SEP));
    assert(parts(s) =~= parts(path) + kept(pieces(more, SEP)));
}

/// The components of the shortest paths: none, the root, a `.`, a `..` and a single name.
pub proof fn components_of_short_paths(name: Seq<u8>)
    requires
        names_an_entry(name),
    ensures
        parts(seq![]) == Seq::<PartView>::empty(),
        parts(seq![47u8]) == seq![PartView::Root],
        parts(seq![46u8]) == seq![PartView::Cur],
        parts(seq![46u8, 46u8]) == seq![PartView::Parent],
        parts(name) == seq![PartView::Normal(name)],
        parts(seq![47u8] + name) == seq![PartView::Root, PartView::Normal(name)],
{
    let none = Seq::<u8>::empty();
    let up = seq![46u8, 46u8];
    lemma_one_piece(none, SEP);
    lemma_kept_one(none);
    assert(seq![47u8].skip(1) =~= none);
    assert(seq![46u8].skip(1) =~= none);
    assert(none.skip(0) =~= none);
    assert(up.skip(0) =~= up);
    assert(name.skip(0) =~= name);
    lemma_one_piece(up, SEP);
    lemma_kept_one(up);
    lemma_one_piece(name, SEP);
    lemma_kept_one(name);
    assert(name.contains(name[0]));
    if leading_cur(name) {
        if name.len() > 1 {
            assert(name.contains(name[1]));
        } else {
            assert(name =~= seq![46u8]);
        }
    }
    let deep = seq![47u8] + name;
    assert(deep[0] == 47u8);
    assert(deep.skip(1) =~= name);
    assert(parts(none) =~= seq![]);
    assert(parts(seq![47u8]) =~= seq![PartView::Root]);
    assert(parts(seq![46u8]) =~= seq![PartView::Cur]);
    assert(parts(up) =~= seq![PartView::Parent]);
    assert(parts(name) =~= seq![PartView::Normal(name)]);
    assert(parts(deep) =~= seq![PartView::Root, PartView::Normal(name)]);
}

/// A separator at the end of a path adds no component, a `.` after it adds none either, and a `..`
/// or a name adds one.
pub proof fn components_of_longer_paths(path: Seq<u8>, name: Seq<u8>)
    requires
        path.len() > 0,
        names_an_entry(name),
    ensures
        parts(path + seq![47u8]) == parts(path),
        parts(path + seq![47u8, 46u8]) == parts(path),
        parts(path + seq![47u8, 46u8, 46u8]) == parts(path).push(PartView::Parent),
        parts(path + seq![47u8] + name) == parts(path).push(PartView::Normal(name)),
{
    let none = Seq::<u8>::empty();
    let dot = seq![46u8];
    let up = seq![46u8, 46u8];
    lemma_parts_of_two(path, none);
    lemma_parts_of_two(path, dot);
    lemma_parts_of_two(path, up);
    lemma_parts_of_two(path, name);
    assert(path + seq![SEP] + none =~= path + seq![47u8]);
    assert(path + seq![SEP] + dot =~= path + seq![47u8, 46u8]);
    assert(path + seq![SEP] + up =~= path + seq![47u8, 46u8, 46u8]);
    lemma_one_piece(none, SEP);
    lemma_one_piece(dot, SEP);
    lemma_one_piece(up, SEP);
    lemma_one_piece(name, SEP);
    lemma_kept_one(none);
    lemma_kept_one(dot);
    lemma_kept_one(up);
    lemma_kept_one(name);
    assert(parts(path) + seq![] =~= parts(path));
    assert(parts(path) + seq![PartView::Parent] =~= parts(path).push(PartView::Parent));
    assert(parts(path) + seq![PartView::Normal(name)] =~= parts(path).push(
        PartView::Normal(name),
    ));
}

/// Joining a relative path to another adds its components; an absolute path stays as it is. What
/// was joined lies below what it was joined to.
pub proof fn joining_adds_components(base: Seq<u8>, path: Seq<u8>)
    ensures
        path.len() > 0 && path[0] == 47u8 ==> joined_path(base, path) == path,
        !rooted(path) && !leading_cur(path) ==> {
            &&& parts(joined_path(base, path)) == parts(base) + parts(path)
            &&& below(joined_path(base, path), base) == Some(parts(path))
        },
        below(base, base) == Some(Seq::<PartView>::empty()),
{
    assert(parts(base).skip(parts(base).len() as int) =~= seq![]);
    assert(parts(base).take(parts(base).len() as int) =~= parts(base));
    if !rooted(path) && !leading_cur(path) {
        let j = joined_path(base, path);
        assert(path.skip(0) =~= path);
        assert(parts(path) =~= kept(pieces(path, SEP)));
        if base.len() == 0 {
            assert(j =~= path);
            lemma_one_piece(base, SEP);
            lemma_kept_one(base);
            assert(base.skip(0) =~= base);
            assert(parts(base) =~= seq![]);
            assert(parts(base) + parts(path) =~= parts(path));
        } else if base.last() == SEP {
            let front = base.drop_last();
            assert(base =~= front + seq![SEP]);
            if front.len() == 0 {
                assert(j =~= seq![SEP] + path);
                assert(j[0] == SEP);
                assert(j.skip(1) =~= path);
                let none = Seq::<u8>::empty();
                assert(base.skip(1) =~= none);
                lemma_one_piece(none, SEP);
                lemma_kept_one(none);
                assert(parts(base) =~= seq![PartView::Root]);
                assert(parts(j) =~= parts(base) + parts(path));
            } else {
                let none = Seq::<u8>::empty();
                lemma_parts_of_two(front, path);
                lemma_parts_of_two(front, none);
                lemma_one_piece(none, SEP);
                lemma_kept_one(none);
                assert(front + seq![SEP] + none =~= base);
                assert(j =~= front + seq![SEP] + path);
                assert(parts(front) + seq![] =~= parts(front));
            }
        } else {
            lemma_parts_of_two(base, path);
        }
        let all = parts(base) + parts(path);
        assert(all.take(parts(base).len() as int) =~= parts(base));
        assert(all.skip(parts(base).len() as int) =~= parts(path));
    }
}

/// A path lies below another where it has its components and then others.
pub proof fn below_is_what_follows(path: Seq<u8>, base: Seq<u8>, rel: Seq<PartView>)
    ensures
        below(path, base) == Some(rel) <==> parts(path) == parts(base) + rel,
{
    let n = parts(base).len() as int;
    if below(path, base) == Some(rel) {
        assert(parts(path) =~= parts(path).take(n) + parts(path).skip(n));
    }
    if parts(path) == parts(base) + rel {
        assert((parts(base) + rel).take(n) =~= parts(base));
        assert((parts(base) + rel).skip(n) =~= rel);
    }
}

/// The file name of a path is the name that it ends with; a path that ends with the root, a `.` or
/// a `..` has none.
pub proof fn file_name_is_the_last_name(path: Seq<u8>, name: Seq<u8>)
    requires
        names_an_entry(name),
    ensures
        file_name(name) == Some(name),
        file_name(seq![47u8] + name) == Some(name),
        path.len() > 0 ==> file_name(path + seq![47u8] + name) == Some(name),
        path.len() > 0 ==> file_name(path + seq![47u8]) == file_name(path),
        path.len() > 0 ==> file_name(path + seq![47u8, 46u8, 46u8]) is None,
        file_name(seq![47u8]) is None,
        file_name(seq![46u8]) is None,
        file_name(seq![]) is None,
{
    components_of_short_paths(name);
    if path.len() > 0 {
        components_of_longer_paths(path, name);
    }
}

proof fn lemma_ends(path: Seq<u8>, piece: Seq<u8>)
    requires
        path.len() > 0,
        !piece.contains(SEP),
    ensures
        last_piece(path + seq![SEP] + piece) == piece,
        before_last_piece(path + seq![SEP] + piece) == path,
        body_start(path + seq![SEP] + piece) == body_start(path),
{
    let s = path + seq![SEP] + piece;
    let n = body_start(path);
    assert(s[0] == path[0]);
    if path.len() == 1 {
        assert(s[1] == SEP);
    } else {
        assert(s[1] == path[1]);
    }
    let body = s.skip(n);
    let front = path.skip(n);
    assert(body =~= front + seq![SEP] + piece);
    assert forall|i: int| front.len() < i < body.len() implies body[i] != SEP by {
        assert(piece.contains(body[i]));
    }
    lemma_last_index_is(body, SEP, front.len() as int);
    assert(body.take(front.len() as int) =~= front);
    assert(body.skip(front.len() as int + 1) =~= piece);
    assert(s.take(n + front.len()) =~= path);
}

/// What stands for no component does not matter, where a path ends or before its last name: the
/// parent is the same without it, and so is the path with another extension.
pub proof fn what_is_no_component_does_not_matter(path: Seq<u8>, name: Seq<u8>, extension: Seq<u8>)
    requires
        path.len() > 0,
        names_an_entry(name),
    ensures
        parent(path + seq![47u8]) == parent(path),
        parent(path + seq![47u8, 46u8]) == parent(path),
        parent(path + seq![47u8] + seq![47u8] + name) == parent(path + seq![47u8] + name),
        parent(path + seq![47u8, 46u8] + seq![47u8] + name) == parent(path + seq![47u8] + name),
        file_name(path) is Some ==> extended(path + seq![47u8], extension) == extended(
            path,
            extension,
        ) && extended(path + seq![47u8, 46u8], extension) == extended(path, extension),
{
    lemma_trimmed_end(path);
    components_of_longer_paths(path, name);
    let a = path + seq![47u8];
    let b = path + seq![47u8, 46u8];
    lemma_ends(path, name);
    lemma_ends(a, name);
    lemma_ends(b, name);
    lemma_last_name(path, name);
    lemma_last_name(a, name);
    lemma_last_name(b, name);
}

/// What stands for no component at the end of a path is left out.
proof fn lemma_trimmed_end(path: Seq<u8>)
    requires
        path.len() > 0,
    ensures
        trimmed(path + seq![SEP]) == trimmed(path),
        trimmed(path + seq![SEP, DOT]) == trimmed(path),
{
    let none = Seq::<u8>::empty();
    let dot = seq![DOT];
    assert(path + seq![SEP] + none =~= path + seq![SEP]);
    assert(path + seq![SEP] + dot =~= path + seq![SEP, DOT]);
    lemma_ends(path, none);
    lemma_ends(path, dot);
}

/// A path that ends with a name has nothing to leave out.
proof fn lemma_last_name(path: Seq<u8>, name: Seq<u8>)
    requires
        path.len() > 0,
        names_an_entry(name),
    ensures
        trimmed(path + seq![SEP] + name) == path + seq![SEP] + name,
        parent(path + seq![SEP] + name) == Some(trimmed(path)),
{
    lemma_ends(path, name);
}

/// The parent of a path is the path without its last component, as it was written.
pub proof fn parent_is_what_comes_before(path: Seq<u8>, up: Seq<u8>, name: Seq<u8>)
    requires
        names_an_entry(up),
        names_an_entry(name),
    ensures
        parent(name) == Some(Seq::<u8>::empty()),
        parent(seq![47u8] + name) == Some(seq![47u8]),
        parent(up + seq![47u8] + name) == Some(up),
        path.len() > 0 ==> parent(path + seq![47u8] + up + seq![47u8] + name) == Some(
            path + seq![47u8] + up,
        ),
        parent(seq![47u8]) is None,
        parent(seq![]) is None,
{
    components_of_short_paths(name);
    components_of_short_paths(up);
    let none = Seq::<u8>::empty();
    // A single name.
    lemma_no_separator(name);
    assert(part_of(name) is Some);
    assert(name.contains(name[0]));
    assert(!rooted(name));
    if leading_cur(name) {
        assert(parts(name)[0] == PartView::Cur);
    }
    assert(name.skip(0) =~= name);
    assert(last_piece(name) == name);
    assert(trimmed(name) == name);
    assert(before_last_piece(name) =~= none);
    assert(trimmed(none) == none);
    // A name below the root.
    let deep = seq![47u8] + name;
    assert(deep.skip(1) =~= name);
    assert(last_piece(deep) == name);
    assert(trimmed(deep) == deep);
    assert(before_last_piece(deep) =~= seq![47u8]);
    assert(trimmed(seq![47u8]) == seq![47u8]);
    // A name below a name.
    let two = up + seq![47u8] + name;
    lemma_ends(up, name);
    lemma_whole_name(up);
    assert(trimmed(two) == two);
    // A name below a name, further down.
    if path.len() > 0 {
        let base = path + seq![47u8] + up;
        let three = base + seq![47u8] + name;
        lemma_ends(path, up);
        lemma_ends(base, name);
        assert(trimmed(base) == base);
        assert(trimmed(three) == three);
    }
}

proof fn lemma_no_separator(name: Seq<u8>)
    requires
        !name.contains(SEP),
    ensures
        split_last(name, SEP) is None,
{
    lemma_last_index(name, SEP);
    let i = crate::text::last_index(name, SEP);
    if i >= 0 {
        assert(name.contains(name[i]));
    }
}

proof fn lemma_whole_name(name: Seq<u8>)
    requires
        names_an_entry(name),
    ensures
        last_piece(name) == name,
        trimmed(name) == name,
{
    components_of_short_paths(name);
    lemma_no_separator(name);
    assert(name.contains(name[0]));
    if leading_cur(name) {
        assert(parts(name)[0] == PartView::Cur);
    }
    assert(name.skip(0) =~= name);
}

/// The stem of a file name is what stands before the last `.`, unless nothing does.
pub proof fn stem_stands_before_the_extension(front: Seq<u8>, extension: Seq<u8>)
    requires
        !extension.contains(46u8),
    ensures
        front.len() > 0 ==> stem(front + seq![46u8] + extension) == front,
        stem(seq![46u8] + extension) == seq![46u8] + extension,
        stem(extension) == extension,
{
    let s = front + seq![DOT] + extension;
    assert forall|i: int| front.len() < i < s.len() implies s[i] != DOT by {
        assert(extension.contains(s[i]));
    }
    lemma_last_index_is(s, DOT, front.len() as int);
    assert(s.take(front.len() as int) =~= front);
    let t = seq![DOT] + extension;
    assert forall|i: int| 0 < i < t.len() implies t[i] != DOT by {
        assert(extension.contains(t[i]));
    }
    lemma_last_index_is(t, DOT, 0);
    lemma_last_index(extension, DOT);
    let i = crate::text::last_index(extension, DOT);
    if i >= 0 {
        assert(extension.contains(extension[i]));
    }
}

/// A path with another extension has the stem of its file name and that extension in place of the
/// file name.
pub proof fn extension_takes_the_place_of_the_old(path: Seq<u8>, name: Seq<u8>, extension: Seq<u8>)
    requires
        names_an_entry(name),
    ensures
        extended(name, extension) == stem(name) + seq![46u8] + extension,
        path.len() > 0 ==> extended(path + seq![47u8] + name, extension) == path + seq![47u8]
            + stem(name) + seq![46u8] + extension,
{
    components_of_short_paths(name);
    lemma_whole_name(name);
    assert(name.take(0) =~= seq![]);
    assert(extended(name, extension) =~= stem(name) + seq![46u8] + extension);
    if path.len() > 0 {
        components_of_longer_paths(path, name);
        lemma_ends(path, name);
        let s = path + seq![47u8] + name;
        assert(trimmed(s) == s);
        assert(s.take(s.len() - name.len()) =~= path + seq![47u8]);
    }
}

} // verus!
