//! Paths on the local machine, as the bytes that name them, and their remote spelling.
//!
//! A path is a sequence of bytes in which `/` separates components. Repeated separators and `.`
//! components are of no account, except for a `.` that starts a relative path.
use vstd::prelude::*;
use vstd::utf8::{decode_utf8, encode_utf8, valid_utf8};

use crate::dir_builder::components;
use crate::path_laws::{
    lemma_parts_are_plain, lemma_plain_name, lemma_plain_words_are_normal, normal, plain_parts,
    plain_words, spelling_again_changes_nothing,
};
use crate::text::{
    after_prefix, first_index, join, joined, last_index, lemma_first_index, lemma_first_index_is,
    lemma_last_index, lemma_last_index_is, pieces, plus, split_last, texts,
};

verus! {

/// The byte that separates components.
pub const SEP: u8 = 47;

/// The byte `.`.
pub const DOT: u8 = 46;

/// A path on the local machine.
#[derive(Debug)]
pub struct LocalPath {
    pub raw: Vec<u8>,
}

impl View for LocalPath {
    type V = Seq<u8>;

    open spec fn view(&self) -> Seq<u8> {
        self.raw@
    }
}

impl Clone for LocalPath {
    fn clone(&self) -> (r: Self)
        ensures
            r@ == self@,
    {
        LocalPath { raw: copy_bytes(self.raw.as_slice()) }
    }
}

/// A component of a path.
#[derive(Debug)]
pub enum Part {
    Root,
    Cur,
    Parent,
    Normal(Vec<u8>),
}

/// The content of a [`Part`].
pub enum PartView {
    Root,
    Cur,
    Parent,
    Normal(Seq<u8>),
}

impl View for Part {
    type V = PartView;

    open spec fn view(&self) -> PartView {
        match self {
            Part::Root => PartView::Root,
            Part::Cur => PartView::Cur,
            Part::Parent => PartView::Parent,
            Part::Normal(name) => PartView::Normal(name@),
        }
    }
}

/// The contents of a sequence of parts.
pub open spec fn part_views(parts: Seq<Part>) -> Seq<PartView> {
    parts.map_values(|p: Part| p@)
}

/// The path starts at the root.
pub open spec fn rooted(raw: Seq<u8>) -> bool {
    raw.len() > 0 && raw[0] == SEP
}

/// The path starts with a `.` component.
pub open spec fn leading_cur(raw: Seq<u8>) -> bool {
    raw.len() > 0 && raw[0] == DOT && (raw.len() == 1 || raw[1] == SEP)
}

/// Where the components after the root or the leading `.` begin.
pub open spec fn body_start(raw: Seq<u8>) -> int {
    if rooted(raw) || leading_cur(raw) {
        1
    } else {
        0
    }
}

/// The component that a piece between separators stands for.
pub open spec fn part_of(piece: Seq<u8>) -> Option<PartView> {
    if piece.len() == 0 || piece == seq![DOT] {
        None
    } else if piece == seq![DOT, DOT] {
        Some(PartView::Parent)
    } else {
        Some(PartView::Normal(piece))
    }
}

/// The components that pieces stand for.
pub open spec fn kept(ps: Seq<Seq<u8>>) -> Seq<PartView>
    decreases ps.len(),
{
    if ps.len() == 0 {
        seq![]
    } else {
        match part_of(ps.last()) {
            Some(part) => kept(ps.drop_last()).push(part),
            None => kept(ps.drop_last()),
        }
    }
}

/// The root or the leading `.` of a path.
pub open spec fn head(raw: Seq<u8>) -> Seq<PartView> {
    if rooted(raw) {
        seq![PartView::Root]
    } else if leading_cur(raw) {
        seq![PartView::Cur]
    } else {
        seq![]
    }
}

/// The components of a path.
pub open spec fn parts(raw: Seq<u8>) -> Seq<PartView> {
    head(raw) + kept(pieces(raw.skip(body_start(raw)), SEP))
}

/// The components of `path` below `base`, where `base` is `path` or one of its ancestors.
pub open spec fn below(path: Seq<u8>, base: Seq<u8>) -> Option<Seq<PartView>> {
    after_prefix(parts(path), parts(base))
}

/// `base` followed by `path`, or `path` alone where it is absolute.
pub open spec fn joined_path(base: Seq<u8>, path: Seq<u8>) -> Seq<u8> {
    if rooted(path) {
        path
    } else if base.len() == 0 || base.last() == SEP {
        base + path
    } else {
        base + seq![SEP] + path
    }
}

/// The path up to its last piece, without the separator before that piece.
pub open spec fn before_last_piece(raw: Seq<u8>) -> Seq<u8> {
    let s = body_start(raw);
    match split_last(raw.skip(s), SEP) {
        Some((a, _)) => raw.take(s + a.len()),
        None => raw.take(s),
    }
}

/// The last piece of a path.
pub open spec fn last_piece(raw: Seq<u8>) -> Seq<u8> {
    let body = raw.skip(body_start(raw));
    match split_last(body, SEP) {
        Some((_, b)) => b,
        None => body,
    }
}

/// The path without the pieces at its end that stand for no component.
pub open spec fn trimmed(raw: Seq<u8>) -> Seq<u8>
    decreases raw.len(),
{
    if raw.len() <= body_start(raw) || part_of(last_piece(raw)) is Some {
        raw
    } else {
        let shorter = before_last_piece(raw);
        if shorter.len() < raw.len() {
            trimmed(shorter)
        } else {
            raw
        }
    }
}

/// The path without its last component.
pub open spec fn parent(raw: Seq<u8>) -> Option<Seq<u8>> {
    let t = trimmed(raw);
    if t.len() > body_start(t) {
        Some(trimmed(before_last_piece(t)))
    } else if leading_cur(t) {
        Some(seq![])
    } else {
        None
    }
}

/// The name in the last component of a path.
pub open spec fn file_name(raw: Seq<u8>) -> Option<Seq<u8>> {
    let p = parts(raw);
    if p.len() == 0 {
        None
    } else {
        match p.last() {
            PartView::Normal(name) => Some(name),
            _ => None,
        }
    }
}

/// A file name without its extension: what stands before its last `.`, where something does.
pub open spec fn stem(name: Seq<u8>) -> Seq<u8> {
    match split_last(name, DOT) {
        Some((front, _)) => if front.len() > 0 {
            front
        } else {
            name
        },
        None => name,
    }
}

/// The path with another extension: it stands in place of the one of the file name, or is added.
/// A path without a file name stays as it is.
pub open spec fn extended(raw: Seq<u8>, extension: Seq<u8>) -> Seq<u8> {
    match file_name(raw) {
        Some(name) => {
            let t = trimmed(raw);
            t.take(t.len() - name.len()) + stem(name) + seq![DOT] + extension
        },
        None => raw,
    }
}

/// The text of bytes that are not UTF-8, as the standard library replaces what is not.
pub uninterp spec fn replaced_text(bytes: Seq<u8>) -> Seq<char>;

/// The text of bytes that need not be UTF-8: the text that they encode, where they encode one.
pub open spec fn lossy_text(bytes: Seq<u8>) -> Seq<char> {
    if valid_utf8(bytes) {
        decode_utf8(bytes)
    } else {
        replaced_text(bytes)
    }
}

/// `String::from_utf8_lossy` gives the text that `bytes` encode where they are UTF-8. Where they
/// are not, it puts the replacement character in place of what is invalid and keeps the rest: the
/// text holds that character, and no `/` where the bytes hold none. How many replacement
/// characters there are is left to the name.
#[verifier::external_body]
pub(crate) fn from_utf8_lossy(bytes: &[u8]) -> (s: String)
    ensures
        valid_utf8(bytes@) ==> s@ == decode_utf8(bytes@),
        !valid_utf8(bytes@) ==> s@ == replaced_text(bytes@),
        !valid_utf8(bytes@) ==> s@.contains('\u{fffd}'),
        !valid_utf8(bytes@) && !bytes@.contains(SEP) ==> !s@.contains('/'),
{
    String::from_utf8_lossy(bytes).into_owned()
}

/// The remote spelling of components: the root is dropped.
pub open spec fn reapi_pieces(ps: Seq<PartView>) -> Seq<Seq<char>>
    decreases ps.len(),
{
    if ps.len() == 0 {
        seq![]
    } else {
        let rest = reapi_pieces(ps.drop_last());
        match ps.last() {
            PartView::Root => rest,
            PartView::Cur => rest.push("."@),
            PartView::Parent => rest.push(".."@),
            PartView::Normal(name) => rest.push(lossy_text(name)),
        }
    }
}

/// The remote spelling of a path.
pub open spec fn reapi_text(ps: Seq<PartView>) -> Seq<char> {
    joined(reapi_pieces(ps), "/"@)
}

/// `base` followed by the remote spelling of the components below it.
pub open spec fn remote_text(base: Seq<char>, rel: Seq<PartView>) -> Seq<char> {
    if rel.len() == 0 {
        base
    } else {
        base + "/"@ + reapi_text(rel)
    }
}

/// Splitting where the last separator is known.
pub proof fn lemma_pieces_last(s: Seq<u8>)
    ensures
        pieces(s, SEP).len() > 0,
        match split_last(s, SEP) {
            Some((a, b)) => pieces(s, SEP) == pieces(a, SEP).push(b),
            None => pieces(s, SEP) == seq![s],
        },
    decreases s.len(),
{
    lemma_first_index(s, SEP);
    lemma_last_index(s, SEP);
    let i = first_index(s, SEP);
    let j = last_index(s, SEP);
    if i < s.len() {
        let tail = s.skip(i + 1);
        lemma_pieces_last(tail);
        lemma_last_index(tail, SEP);
        if i < j {
            lemma_last_index_is(tail, SEP, j - i - 1);
            let a = s.take(j);
            lemma_first_index_is(a, SEP, i);
            assert(a.take(i) =~= s.take(i));
            assert(a.skip(i + 1) =~= tail.take(j - i - 1));
            assert(tail.skip(j - i) =~= s.skip(j + 1));
            assert(pieces(s, SEP) =~= pieces(a, SEP).push(s.skip(j + 1)));
        } else {
            assert(i == j);
            lemma_last_index_is(tail, SEP, -1);
            let a = s.take(i);
            lemma_first_index_is(a, SEP, i);
            assert(pieces(a, SEP) =~= seq![a]);
            assert(pieces(s, SEP) =~= pieces(a, SEP).push(s.skip(j + 1)));
        }
    } else {
        lemma_last_index_is(s, SEP, -1);
    }
}

/// Leaving out the last piece of a path leaves out the component that it stands for.
pub proof fn lemma_before_last_piece(raw: Seq<u8>)
    requires
        raw.len() > body_start(raw),
    ensures
        body_start(raw) <= before_last_piece(raw).len() < raw.len(),
        body_start(before_last_piece(raw)) == body_start(raw),
        rooted(before_last_piece(raw)) == rooted(raw),
        match part_of(last_piece(raw)) {
            Some(part) => parts(raw) == parts(before_last_piece(raw)).push(part),
            None => parts(raw) == parts(before_last_piece(raw)),
        },
{
    let s = body_start(raw);
    let body = raw.skip(s);
    lemma_pieces_last(body);
    lemma_last_index(body, SEP);
    let shorter = before_last_piece(raw);
    match split_last(body, SEP) {
        Some((a, b)) => {
            assert(shorter.skip(s) =~= a);
            assert(pieces(body, SEP).drop_last() =~= pieces(a, SEP));
            if s == 0 && shorter.len() > 0 {
                assert(shorter[0] == raw[0]);
                if shorter.len() == 1 {
                    assert(raw[1] == SEP);
                } else {
                    assert(shorter[1] == raw[1]);
                }
            }
        },
        None => {
            assert(shorter.skip(s) =~= Seq::<u8>::empty());
            lemma_first_index_is(shorter.skip(s), SEP, 0);
            let empty = pieces(shorter.skip(s), SEP);
            assert(empty =~= seq![Seq::<u8>::empty()]);
            assert(empty.drop_last() =~= Seq::<Seq<u8>>::empty());
            assert(kept(Seq::<Seq<u8>>::empty()) =~= seq![]);
            assert(kept(empty) =~= seq![]);
            assert(pieces(body, SEP).drop_last() =~= Seq::<Seq<u8>>::empty());
        },
    }
    assert(head(shorter) =~= head(raw));
    match part_of(last_piece(raw)) {
        Some(part) => {
            assert(parts(raw) =~= parts(shorter).push(part));
        },
        None => {
            assert(parts(raw) =~= parts(shorter));
        },
    }
}

/// Trimming changes no component.
pub proof fn lemma_trimmed(raw: Seq<u8>)
    ensures
        parts(trimmed(raw)) == parts(raw),
        trimmed(raw).len() <= raw.len(),
        trimmed(raw).len() > body_start(trimmed(raw)) ==> part_of(last_piece(trimmed(raw))) is Some,
    decreases raw.len(),
{
    if raw.len() > body_start(raw) && part_of(last_piece(raw)) is None {
        lemma_before_last_piece(raw);
        lemma_trimmed(before_last_piece(raw));
    }
}

/// A trimmed path ends with its file name.
pub proof fn lemma_ends_with_name(raw: Seq<u8>)
    ensures
        file_name(raw) matches Some(name) ==> name.len() <= trimmed(raw).len(),
{
    lemma_trimmed(raw);
    let t = trimmed(raw);
    if t.len() > body_start(t) {
        lemma_before_last_piece(t);
        let body = t.skip(body_start(t));
        lemma_last_index(body, SEP);
        assert(last_piece(t).len() <= body.len());
        assert(parts(t).last() == part_of(last_piece(t))->0);
    } else {
        let body = t.skip(body_start(t));
        assert(body =~= Seq::<u8>::empty());
        lemma_first_index_is(body, SEP, 0);
        assert(pieces(body, SEP) =~= seq![Seq::<u8>::empty()]);
        assert(pieces(body, SEP).drop_last() =~= Seq::<Seq<u8>>::empty());
        assert(kept(Seq::<Seq<u8>>::empty()) =~= seq![]);
        assert(kept(pieces(body, SEP)) =~= seq![]);
        assert(parts(t) =~= head(t));
    }
}

/// The parent of a path has the components of the path but for the last.
pub proof fn lemma_parent(raw: Seq<u8>)
    ensures
        match parent(raw) {
            Some(up) => parts(raw).len() > 0 && parts(up) == parts(raw).drop_last(),
            None => parts(raw).len() == 0 || parts(raw) == seq![PartView::Root],
        },
{
    lemma_trimmed(raw);
    let t = trimmed(raw);
    if t.len() > body_start(t) {
        lemma_before_last_piece(t);
        lemma_trimmed(before_last_piece(t));
        assert(parts(t).drop_last() =~= parts(before_last_piece(t)));
    } else {
        let body = t.skip(body_start(t));
        assert(body =~= Seq::<u8>::empty());
        lemma_first_index_is(body, SEP, 0);
        assert(pieces(body, SEP) =~= seq![Seq::<u8>::empty()]);
        assert(pieces(body, SEP).drop_last() =~= Seq::<Seq<u8>>::empty());
        assert(kept(Seq::<Seq<u8>>::empty()) =~= seq![]);
        assert(kept(pieces(body, SEP)) =~= seq![]);
        let none = Seq::<u8>::empty();
        lemma_first_index_is(none, SEP, 0);
        assert(none.skip(0) =~= none);
        assert(parts(none) =~= seq![]);
        if leading_cur(t) {
            assert(parts(t) =~= seq![PartView::Cur]);
            assert(parts(t).drop_last() =~= parts(none));
        } else if rooted(t) {
            assert(parts(t) =~= seq![PartView::Root]);
        } else {
            assert(parts(t) =~= seq![]);
        }
    }
}

/// A copy of `bytes`.
pub fn copy_bytes(bytes: &[u8]) -> (r: Vec<u8>)
    ensures
        r@ == bytes@,
{
    let mut r: Vec<u8> = Vec::new();
    r.extend_from_slice(bytes);
    assert(r@ =~= bytes@);
    r
}

/// Whether two byte strings are equal.
pub fn same_bytes(a: &[u8], b: &[u8]) -> (r: bool)
    ensures
        r == (a@ == b@),
{
    if a.len() != b.len() {
        return false;
    }
    let mut i: usize = 0;
    while i < a.len()
        invariant
            i <= a@.len() == b@.len(),
            forall|j: int| 0 <= j < i ==> a@[j] == b@[j],
        decreases a@.len() - i,
    {
        if a[i] != b[i] {
            return false;
        }
        i += 1;
    }
    assert(a@ =~= b@);
    true
}

/// The bytes from `from` up to `to`.
pub fn slice_bytes(bytes: &Vec<u8>, from: usize, to: usize) -> (r: Vec<u8>)
    requires
        from <= to <= bytes@.len(),
    ensures
        r@ == bytes@.subrange(from as int, to as int),
{
    let mut r: Vec<u8> = Vec::new();
    let mut i: usize = from;
    while i < to
        invariant
            from <= i <= to <= bytes@.len(),
            r@ == bytes@.subrange(from as int, i as int),
        decreases to - i,
    {
        r.push(bytes[i]);
        i += 1;
    }
    r
}

/// The component that a piece between separators stands for.
fn classify(piece: Vec<u8>) -> (r: Option<Part>)
    ensures
        match r {
            Some(part) => part_of(piece@) == Some(part@),
            None => part_of(piece@) is None,
        },
{
    if piece.len() == 0 {
        return None;
    }
    if piece.len() == 1 && piece[0] == DOT {
        assert(piece@ =~= seq![DOT]);
        return None;
    }
    if piece.len() == 2 && piece[0] == DOT && piece[1] == DOT {
        assert(piece@ =~= seq![DOT, DOT]);
        return Some(Part::Parent);
    }
    Some(Part::Normal(piece))
}

impl Part {
    /// Whether two components are equal.
    pub fn same(&self, other: &Part) -> (r: bool)
        ensures
            r == (self@ == other@),
    {
        match (self, other) {
            (Part::Root, Part::Root) => true,
            (Part::Cur, Part::Cur) => true,
            (Part::Parent, Part::Parent) => true,
            (Part::Normal(a), Part::Normal(b)) => same_bytes(a.as_slice(), b.as_slice()),
            _ => false,
        }
    }

    /// A copy of the component.
    pub fn copy(&self) -> (r: Part)
        ensures
            r@ == self@,
    {
        match self {
            Part::Root => Part::Root,
            Part::Cur => Part::Cur,
            Part::Parent => Part::Parent,
            Part::Normal(name) => Part::Normal(copy_bytes(name.as_slice())),
        }
    }
}

impl LocalPath {
    /// The path named by a text.
    pub fn from_text(s: &str) -> (r: LocalPath)
        ensures
            r@ == vstd::utf8::encode_utf8(s@),
    {
        LocalPath { raw: copy_bytes(s.as_bytes()) }
    }

    /// Whether the path starts at the root.
    pub fn is_absolute(&self) -> (r: bool)
        ensures
            r == rooted(self@),
    {
        self.raw.len() > 0 && self.raw[0] == SEP
    }

    /// Where the components after the root or the leading `.` begin.
    fn start(&self) -> (r: usize)
        ensures
            r == body_start(self@),
            r <= self@.len(),
    {
        if self.raw.len() > 0 && (self.raw[0] == SEP || (self.raw[0] == DOT && (self.raw.len() == 1
            || self.raw[1] == SEP))) {
            1
        } else {
            0
        }
    }

    /// The components of the path.
    pub fn components(&self) -> (r: Vec<Part>)
        ensures
            part_views(r@) == parts(self@),
    {
        let mut r: Vec<Part> = Vec::new();
        let from = self.start();
        if from == 1 {
            if self.raw[0] == SEP {
                r.push(Part::Root);
            } else {
                r.push(Part::Cur);
            }
        }
        let ghost raw = self.raw@;
        let ghost body = raw.skip(from as int);
        let mut start: usize = from;
        let mut i: usize = from;
        let ghost mut done: Seq<Seq<u8>> = seq![];
        proof {
            assert(part_views(r@) =~= head(raw));
            assert(head(raw) + kept(done) =~= head(raw));
            assert(body.skip(0) =~= body);
            assert(done + pieces(body, SEP) =~= pieces(body, SEP));
        }
        while i < self.raw.len()
            invariant
                from <= start <= i <= self.raw@.len(),
                raw == self.raw@,
                body == raw.skip(from as int),
                forall|j: int| start <= j < i ==> raw[j] != SEP,
                done + pieces(body.skip(start - from), SEP) == pieces(body, SEP),
                part_views(r@) == head(raw) + kept(done),
            decreases self.raw@.len() - i,
        {
            if self.raw[i] == SEP {
                let piece = slice_bytes(&self.raw, start, i);
                let ghost seen = piece@;
                proof {
                    let tail = body.skip(start - from);
                    lemma_first_index_is(tail, SEP, i - start);
                    assert(seen =~= tail.take(i - start));
                    assert(tail.skip(i - start + 1) =~= body.skip(i + 1 - from));
                    assert(done.push(seen) + pieces(body.skip(i + 1 - from), SEP) =~= done + (seq![
                        seen,
                    ] + pieces(body.skip(i + 1 - from), SEP)));
                    assert(done.push(seen).drop_last() =~= done);
                }
                let ghost before = r@;
                match classify(piece) {
                    Some(part) => {
                        r.push(part);
                        proof {
                            assert(part_views(r@) =~= part_views(before).push(part@));
                            assert(head(raw) + kept(done).push(part@) =~= (head(raw) + kept(
                                done,
                            )).push(part@));
                        }
                    },
                    None => {},
                }
                proof {
                    done = done.push(seen);
                }
                start = i + 1;
            }
            i += 1;
        }
        let piece = slice_bytes(&self.raw, start, self.raw.len());
        let ghost seen = piece@;
        proof {
            let tail = body.skip(start - from);
            lemma_first_index_is(tail, SEP, tail.len() as int);
            assert(seen =~= tail);
            assert(done.push(seen) =~= done + seq![seen]);
            assert(done.push(seen).drop_last() =~= done);
        }
        let ghost before = r@;
        match classify(piece) {
            Some(part) => {
                r.push(part);
                proof {
                    assert(part_views(r@) =~= part_views(before).push(part@));
                    assert(head(raw) + kept(done).push(part@) =~= (head(raw) + kept(done)).push(
                        part@,
                    ));
                }
            },
            None => {},
        }
        r
    }

    /// Whether the two paths have the same components.
    pub fn same_path(&self, other: &LocalPath) -> (r: bool)
        ensures
            r == (parts(self@) == parts(other@)),
    {
        let a = self.components();
        let b = other.components();
        if a.len() != b.len() {
            assert(part_views(a@).len() != part_views(b@).len());
            return false;
        }
        let mut i: usize = 0;
        while i < a.len()
            invariant
                i <= a@.len() == b@.len(),
                part_views(a@) == parts(self@),
                part_views(b@) == parts(other@),
                forall|j: int| 0 <= j < i ==> a@[j]@ == b@[j]@,
            decreases a@.len() - i,
        {
            if !a[i].same(&b[i]) {
                assert(part_views(a@)[i as int] != part_views(b@)[i as int]);
                return false;
            }
            i += 1;
        }
        assert(part_views(a@) =~= part_views(b@));
        true
    }

    /// The components below `base`, where `base` is this path or one of its ancestors.
    pub fn strip_prefix(&self, base: &LocalPath) -> (r: Option<Vec<Part>>)
        ensures
            match r {
                Some(rel) => below(self@, base@) == Some(part_views(rel@)),
                None => below(self@, base@) is None,
            },
    {
        let a = self.components();
        let b = base.components();
        if b.len() > a.len() {
            return None;
        }
        let mut i: usize = 0;
        while i < b.len()
            invariant
                i <= b@.len() <= a@.len(),
                part_views(a@) == parts(self@),
                part_views(b@) == parts(base@),
                forall|j: int| 0 <= j < i ==> a@[j]@ == b@[j]@,
            decreases b@.len() - i,
        {
            if !a[i].same(&b[i]) {
                assert(parts(self@).take(b@.len() as int)[i as int] != parts(base@)[i as int]);
                return None;
            }
            i += 1;
        }
        assert(parts(self@).take(b@.len() as int) =~= parts(base@));
        let mut rel: Vec<Part> = Vec::new();
        while i < a.len()
            invariant
                b@.len() <= i <= a@.len(),
                part_views(a@) == parts(self@),
                part_views(rel@) == parts(self@).subrange(b@.len() as int, i as int),
            decreases a@.len() - i,
        {
            let part = a[i].copy();
            let ghost before = rel@;
            rel.push(part);
            assert(part_views(rel@) =~= part_views(before).push(part@));
            assert(part_views(a@)[i as int] == a@[i as int]@);
            i += 1;
        }
        assert(part_views(rel@) =~= parts(self@).skip(b@.len() as int));
        Some(rel)
    }

    /// Whether `base` is this path or one of its ancestors.
    pub fn starts_with(&self, base: &LocalPath) -> (r: bool)
        ensures
            r == (below(self@, base@) is Some),
    {
        match self.strip_prefix(base) {
            Some(_) => true,
            None => false,
        }
    }

    /// This path followed by `path`, or `path` alone where it is absolute.
    pub fn join(&self, path: &LocalPath) -> (r: LocalPath)
        ensures
            r@ == joined_path(self@, path@),
    {
        if path.is_absolute() {
            return path.clone();
        }
        let mut raw = copy_bytes(self.raw.as_slice());
        if raw.len() > 0 && raw[raw.len() - 1] != SEP {
            raw.push(SEP);
        }
        raw.extend_from_slice(path.raw.as_slice());
        assert(raw@ =~= joined_path(self@, path@));
        LocalPath { raw }
    }

    /// The path with another extension.
    pub fn with_extension(&self, extension: &Vec<u8>) -> (r: LocalPath)
        ensures
            r@ == extended(self@, extension@),
    {
        match self.file_name() {
            Some(name) => {
                proof {
                    lemma_ends_with_name(self@);
                }
                let t = self.trim();
                let mut raw = slice_bytes(&t.raw, 0, t.raw.len() - name.len());
                let base = stem_of(&name);
                raw.extend_from_slice(base.as_slice());
                raw.push(DOT);
                raw.extend_from_slice(extension.as_slice());
                assert(raw@ =~= extended(self@, extension@));
                LocalPath { raw }
            },
            None => self.clone(),
        }
    }

    /// The name in the last component.
    pub fn file_name(&self) -> (r: Option<Vec<u8>>)
        ensures
            match r {
                Some(name) => file_name(self@) == Some(name@),
                None => file_name(self@) is None,
            },
    {
        let a = self.components();
        if a.len() == 0 {
            return None;
        }
        assert(parts(self@).last() == a@.last()@);
        match &a[a.len() - 1] {
            Part::Normal(name) => Some(copy_bytes(name.as_slice())),
            _ => None,
        }
    }

    /// The path up to its last piece, and that piece.
    fn split_last_piece(&self) -> (r: (LocalPath, Vec<u8>))
        requires
            self@.len() > body_start(self@),
        ensures
            r.0@ == before_last_piece(self@),
            r.1@ == last_piece(self@),
    {
        let s = self.start();
        let ghost body = self@.skip(s as int);
        let mut i: usize = self.raw.len();
        while i > s
            invariant
                s <= i <= self.raw@.len(),
                s == body_start(self@),
                body == self@.skip(s as int),
                forall|j: int| i <= j < self@.len() ==> self@[j] != SEP,
            decreases i,
        {
            i -= 1;
            if self.raw[i] == SEP {
                proof {
                    lemma_last_index_is(body, SEP, i - s);
                }
                let front = slice_bytes(&self.raw, 0, i);
                let piece = slice_bytes(&self.raw, i + 1, self.raw.len());
                assert(front@ =~= self@.take(s + (i - s)));
                assert(piece@ =~= body.skip(i - s + 1));
                return (LocalPath { raw: front }, piece);
            }
        }
        proof {
            lemma_last_index_is(body, SEP, -1);
        }
        let front = slice_bytes(&self.raw, 0, s);
        let piece = slice_bytes(&self.raw, s, self.raw.len());
        assert(front@ =~= self@.take(s as int));
        assert(piece@ =~= body);
        (LocalPath { raw: front }, piece)
    }

    /// The path without the pieces at its end that stand for no component.
    pub fn trim(&self) -> (r: LocalPath)
        ensures
            r@ == trimmed(self@),
    {
        let mut t = self.clone();
        while t.raw.len() > t.start()
            invariant
                trimmed(t@) == trimmed(self@),
            ensures
                t@ == trimmed(self@),
            decreases t@.len(),
        {
            let (front, piece) = t.split_last_piece();
            proof {
                lemma_before_last_piece(t@);
            }
            if let Some(_) = classify(piece) {
                break;
            }
            t = front;
        }
        t
    }

    /// The path without its last component.
    pub fn parent(&self) -> (r: Option<LocalPath>)
        ensures
            match r {
                Some(up) => parent(self@) == Some(up@),
                None => parent(self@) is None,
            },
    {
        let t = self.trim();
        if t.raw.len() > t.start() {
            let (front, _) = t.split_last_piece();
            Some(front.trim())
        } else if t.raw.len() == 1 && t.raw[0] == DOT {
            let up = LocalPath { raw: Vec::new() };
            assert(up@ =~= seq![]);
            Some(up)
        } else {
            None
        }
    }
}

/// A file name without its extension.
fn stem_of(name: &Vec<u8>) -> (r: Vec<u8>)
    ensures
        r@ == stem(name@),
{
    let mut i: usize = name.len();
    while i > 1
        invariant
            i <= name@.len(),
            forall|j: int| i <= j < name@.len() ==> name@[j] != DOT,
        decreases i,
    {
        i -= 1;
        if name[i] == DOT {
            proof {
                lemma_last_index_is(name@, DOT, i as int);
            }
            let r = slice_bytes(name, 0, i);
            assert(r@ =~= name@.take(i as int));
            return r;
        }
    }
    proof {
        lemma_last_index(name@, DOT);
    }
    copy_bytes(name.as_slice())
}

/// The remote spelling of components. Of the components of a path it is plain.
pub fn reapi_path(ps: &Vec<Part>) -> (r: String)
    ensures
        r@ == reapi_text(part_views(ps@)),
        plain_parts(part_views(ps@)) ==> plain_words(reapi_pieces(part_views(ps@))),
{
    let ghost all = part_views(ps@);
    let mut out: Vec<String> = Vec::new();
    let mut i: usize = 0;
    while i < ps.len()
        invariant
            i <= ps@.len(),
            all == part_views(ps@),
            texts(out@) == reapi_pieces(all.take(i as int)),
            plain_parts(all) ==> plain_words(reapi_pieces(all.take(i as int))),
            i == 0 ==> texts(out@).len() == 0,
        decreases ps@.len() - i,
    {
        let ghost before = out@;
        proof {
            let next = all.take(i + 1);
            assert(next.drop_last() =~= all.take(i as int));
            assert(next.last() == ps@[i as int]@);
            assert(all[i as int] == ps@[i as int]@);
            reveal_strlit(".");
            reveal_strlit("..");
            assert("."@ == seq!['.']);
            assert(".."@ == seq!['.', '.']);
            assert(".."@.len() != "."@.len());
        }
        match &ps[i] {
            Part::Root => {},
            Part::Cur => {
                let s = ".".to_owned();
                out.push(s);
                assert(texts(out@) =~= texts(before).push(s@));
            },
            Part::Parent => {
                let s = "..".to_owned();
                out.push(s);
                assert(texts(out@) =~= texts(before).push(s@));
            },
            Part::Normal(name) => {
                let s = from_utf8_lossy(name.as_slice());
                proof {
                    if plain_parts(all) {
                        lemma_plain_name(name@, s@);
                    }
                }
                out.push(s);
                assert(texts(out@) =~= texts(before).push(s@));
            },
        }
        i += 1;
    }
    assert(all.take(ps@.len() as int) =~= all);
    join(&out, "/")
}

/// The remote spelling of a path. It has no `/` at its ends and no two in a row, it is its own
/// pieces with a `/` between them, and spelling it once more changes nothing.
pub fn to_reapi_path(path: &LocalPath) -> (r: String)
    ensures
        r@ == reapi_text(parts(path@)),
        normal(r@),
        joined(components(r@), "/"@) == r@,
        reapi_text(parts(encode_utf8(r@))) == r@,
{
    let ps = path.components();
    proof {
        lemma_parts_are_plain(path@);
        if plain_words(reapi_pieces(parts(path@))) {
            lemma_plain_words_are_normal(reapi_pieces(parts(path@)));
            spelling_again_changes_nothing(reapi_pieces(parts(path@)));
        }
    }
    reapi_path(&ps)
}

/// `base` followed by the remote spelling of the components below it.
pub fn join_remote(base: &str, rel: &Vec<Part>) -> (r: String)
    ensures
        r@ == remote_text(base@, part_views(rel@)),
{
    if rel.len() == 0 {
        base.to_owned()
    } else {
        let stem = plus(base, "/");
        let tail = reapi_path(rel);
        stem.concat(tail.as_str())
    }
}

} // verus!
