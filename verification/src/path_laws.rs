//! What holds of remote paths as texts.
use vstd::prelude::*;
use vstd::utf8::{
    decode_utf8_encode_utf8, encode_scalar, encode_utf8, encode_utf8_decode_utf8,
    encode_utf8_valid_utf8, has_width_1_encoding, leading_byte_width_1, valid_utf8,
};

use crate::dir_builder::components;
use crate::local_path::{
    head, kept, lossy_text, part_of, parts, reapi_pieces, reapi_text, remote_text, PartView, DOT,
    SEP,
};
use crate::mapper::{command_path, WORKDIR_NAME};
use crate::text::{first_index, joined, lemma_first_index, lemma_first_index_is, non_empty, pieces};

verus! {

/// A piece of a remote path: not empty, and without a `/`.
pub open spec fn plain<T>(piece: Seq<T>, sep: T) -> bool {
    piece.len() > 0 && !piece.contains(sep)
}

/// The pieces of a remote path; only the first can be a `.`.
pub open spec fn plain_words(words: Seq<Seq<char>>) -> bool {
    forall|i: int|
        #![trigger words[i]]
        0 <= i < words.len() ==> plain(words[i], '/') && (words[i] == "."@ ==> i == 0)
}

/// A remote path without a `/` at its ends, without two in a row, and without a `.` but at its
/// start.
pub open spec fn normal(text: Seq<char>) -> bool {
    text.len() == 0 || plain_words(pieces(text, '/'))
}

/// The components of a path, as the path itself gives them.
pub open spec fn plain_parts(ps: Seq<PartView>) -> bool {
    forall|i: int|
        #![trigger ps[i]]
        0 <= i < ps.len() ==> match ps[i] {
            PartView::Root => i == 0,
            PartView::Cur => i == 0,
            PartView::Parent => true,
            PartView::Normal(name) => plain(name, SEP) && name != seq![DOT],
        }
}

/// Splitting around a separator splits both sides.
pub proof fn lemma_pieces_of_two<T>(a: Seq<T>, c: T, b: Seq<T>)
    ensures
        pieces(a + seq![c] + b, c) == pieces(a, c) + pieces(b, c),
    decreases a.len(),
{
    let s = a + seq![c] + b;
    let i = first_index(a, c);
    lemma_first_index(a, c);
    assert(s[a.len() as int] == c);
    lemma_first_index_is(s, c, i);
    if i < a.len() {
        assert(s.take(i) =~= a.take(i));
        assert(s.skip(i + 1) =~= a.skip(i + 1) + seq![c] + b);
        lemma_pieces_of_two(a.skip(i + 1), c, b);
        assert(pieces(s, c) =~= pieces(a, c) + pieces(b, c));
    } else {
        assert(s.take(i) =~= a);
        assert(s.skip(i + 1) =~= b);
    }
}

/// Leaving out the empty pieces of both sides.
proof fn lemma_non_empty_of_two<T>(a: Seq<Seq<T>>, b: Seq<Seq<T>>)
    ensures
        non_empty(a + b) == non_empty(a) + non_empty(b),
    decreases b.len(),
{
    if b.len() == 0 {
        assert(a + b =~= a);
        assert(non_empty(a) + non_empty(b) =~= non_empty(a));
    } else {
        assert((a + b).drop_last() =~= a + b.drop_last());
        lemma_non_empty_of_two(a, b.drop_last());
        assert(non_empty(a + b) =~= non_empty(a) + non_empty(b));
    }
}

/// A single piece is left out where it is empty.
proof fn lemma_single_non_empty<T>(piece: Seq<T>)
    ensures
        piece.len() == 0 ==> non_empty(seq![piece]) == Seq::<Seq<T>>::empty(),
{
    let none = Seq::<Seq<T>>::empty();
    assert(seq![piece].drop_last() =~= none);
    assert(non_empty(none) =~= none);
}

/// Nothing is left out where nothing is empty.
proof fn lemma_none_empty<T>(s: Seq<Seq<T>>)
    requires
        forall|i: int| 0 <= i < s.len() ==> (#[trigger] s[i]).len() > 0,
    ensures
        non_empty(s) == s,
    decreases s.len(),
{
    if s.len() > 0 {
        let front = s.drop_last();
        assert forall|i: int| 0 <= i < front.len() implies (#[trigger] front[i]).len() > 0 by {
            assert(front[i] == s[i]);
        }
        lemma_none_empty(front);
        assert(front.push(s.last()) =~= s);
    }
}

/// A text without the separator is one piece.
pub proof fn lemma_one_piece<T>(s: Seq<T>, c: T)
    requires
        !s.contains(c),
    ensures
        pieces(s, c) == seq![s],
{
    lemma_first_index(s, c);
    let i = first_index(s, c);
    if i < s.len() {
        assert(s[i] == c);
    }
}

/// What was joined with a separator is split by it.
pub proof fn lemma_pieces_of_joined<T>(ps: Seq<Seq<T>>, c: T)
    requires
        ps.len() > 0,
        forall|i: int| 0 <= i < ps.len() ==> !(#[trigger] ps[i]).contains(c),
    ensures
        pieces(joined(ps, seq![c]), c) == ps,
    decreases ps.len(),
{
    if ps.len() == 1 {
        lemma_one_piece(ps[0], c);
        assert(seq![ps[0]] =~= ps);
    } else {
        let front = ps.drop_last();
        assert forall|i: int| 0 <= i < front.len() implies !(#[trigger] front[i]).contains(c) by {
            assert(front[i] == ps[i]);
        }
        lemma_pieces_of_joined(front, c);
        assert(!ps[ps.len() - 1].contains(c));
        lemma_one_piece(ps.last(), c);
        lemma_pieces_of_two(joined(front, seq![c]), c, ps.last());
        assert(front + seq![ps.last()] =~= ps);
    }
}

/// Joining two runs is joining each, with the separator between them.
pub proof fn lemma_joined_of_two<T>(a: Seq<Seq<T>>, b: Seq<Seq<T>>, sep: Seq<T>)
    requires
        a.len() > 0,
        b.len() > 0,
    ensures
        joined(a + b, sep) == joined(a, sep) + sep + joined(b, sep),
    decreases b.len(),
{
    assert((a + b).drop_last() =~= a + b.drop_last());
    if b.len() == 1 {
        assert(a + b.drop_last() =~= a);
    } else {
        lemma_joined_of_two(a, b.drop_last(), sep);
        assert(joined(a + b, sep) =~= joined(a, sep) + sep + joined(b, sep));
    }
}

/// The components of a path that was joined from components are these.
pub proof fn splitting_undoes_joining(words: Seq<Seq<char>>)
    requires
        forall|i: int| 0 <= i < words.len() ==> plain(#[trigger] words[i], '/'),
    ensures
        components(joined(words, "/"@)) == words,
{
    reveal_strlit("/");
    assert("/"@ =~= seq!['/']);
    if words.len() == 0 {
        let none: Seq<char> = seq![];
        assert(joined(words, "/"@) =~= none);
        lemma_one_piece(none, '/');
        lemma_single_non_empty(none);
        assert(components(none) =~= words);
    } else {
        lemma_pieces_of_joined(words, '/');
        lemma_none_empty(words);
    }
}

/// The components of one path below another are those of both.
pub proof fn components_of_a_path_below(base: Seq<char>, tail: Seq<char>)
    ensures
        components(base + "/"@ + tail) == components(base) + components(tail),
{
    reveal_strlit("/");
    assert("/"@ =~= seq!['/']);
    lemma_pieces_of_two(base, '/', tail);
    lemma_non_empty_of_two(pieces(base, '/'), pieces(tail, '/'));
}

/// The components of a remote path are those of the directory it was placed in and those of what
/// was placed.
pub proof fn placing_adds_components(base: Seq<char>, rel: Seq<PartView>)
    ensures
        components(remote_text(base, rel)) == components(base) + components(reapi_text(rel)),
{
    if rel.len() == 0 {
        splitting_undoes_joining(seq![]);
        assert(components(base) + seq![] =~= components(base));
    } else {
        components_of_a_path_below(base, reapi_text(rel));
    }
}

/// The spelling of components is piece by piece.
pub proof fn lemma_reapi_pieces_of_two(a: Seq<PartView>, b: Seq<PartView>)
    ensures
        reapi_pieces(a + b) == reapi_pieces(a) + reapi_pieces(b),
    decreases b.len(),
{
    if b.len() == 0 {
        assert(a + b =~= a);
        assert(reapi_pieces(a) + reapi_pieces(b) =~= reapi_pieces(a));
    } else {
        assert((a + b).drop_last() =~= a + b.drop_last());
        lemma_reapi_pieces_of_two(a, b.drop_last());
        assert(reapi_pieces(a + b) =~= reapi_pieces(a) + reapi_pieces(b));
    }
}

/// No component is the root.
pub open spec fn rootless(ps: Seq<PartView>) -> bool {
    forall|i: int| 0 <= i < ps.len() ==> !((#[trigger] ps[i]) is Root)
}

/// Each component but the root is spelled.
pub proof fn lemma_rootless_pieces(ps: Seq<PartView>)
    requires
        rootless(ps),
    ensures
        reapi_pieces(ps).len() == ps.len(),
    decreases ps.len(),
{
    if ps.len() > 0 {
        assert(!(ps[ps.len() - 1] is Root));
        assert forall|i: int| 0 <= i < ps.drop_last().len() implies !((#[trigger] ps.drop_last()[i])
            is Root) by {
            assert(ps.drop_last()[i] == ps[i]);
        }
        lemma_rootless_pieces(ps.drop_last());
    }
}

/// Placing components below components is placing all of them.
pub proof fn placing_twice_is_placing_all(base: Seq<char>, a: Seq<PartView>, b: Seq<PartView>)
    requires
        rootless(a),
        rootless(b),
    ensures
        remote_text(remote_text(base, a), b) == remote_text(base, a + b),
{
    if a.len() == 0 {
        assert(a + b =~= b);
    } else if b.len() == 0 {
        assert(a + b =~= a);
    } else {
        lemma_reapi_pieces_of_two(a, b);
        lemma_rootless_pieces(a);
        lemma_rootless_pieces(b);
        lemma_joined_of_two(reapi_pieces(a), reapi_pieces(b), "/"@);
        assert(remote_text(remote_text(base, a), b) =~= remote_text(base, a + b));
    }
}

/// A command in the remote working directory spells what was placed in it as it was spelled before
/// it was placed.
pub proof fn command_path_undoes_placing(rel: Seq<PartView>)
    ensures
        command_path(remote_text(WORKDIR_NAME@, rel)) == (if rel.len() == 0 {
            "."@
        } else {
            reapi_text(rel)
        }),
{
    if rel.len() > 0 {
        let prefix = WORKDIR_NAME@ + "/"@;
        let all = prefix + reapi_text(rel);
        reveal_strlit("/");
        assert(all.len() > WORKDIR_NAME@.len());
        assert(all.take(prefix.len() as int) =~= prefix);
        assert(all.skip(prefix.len() as int) =~= reapi_text(rel));
    }
}

/// The encoding of two texts in a row.
pub proof fn lemma_encoding_of_two(a: Seq<char>, b: Seq<char>)
    ensures
        encode_utf8(a + b) == encode_utf8(a) + encode_utf8(b),
    decreases a.len(),
{
    if a.len() == 0 {
        assert(a + b =~= b);
        assert(encode_utf8(a) + encode_utf8(b) =~= encode_utf8(b));
    } else {
        assert((a + b).drop_first() =~= a.drop_first() + b);
        lemma_encoding_of_two(a.drop_first(), b);
        assert(encode_utf8(a + b) =~= encode_utf8(a) + encode_utf8(b));
    }
}

/// The encoding of one character: the byte of an ASCII character, else no byte of one.
proof fn lemma_encoding_of_one(c: char)
    ensures
        (c as u32) < 128 ==> encode_scalar(c as u32) == seq![c as u8],
        (c as u32) >= 128 ==> forall|i: int|
            0 <= i < encode_scalar(c as u32).len() ==> (#[trigger] encode_scalar(c as u32)[i])
                >= 128,
        encode_scalar(c as u32).len() > 0,
        (c as u32) < 128 ==> (c as u8) as int == c as int,
{
    let s = c as u32;
    if s < 128 {
        assert(s as u8 == leading_byte_width_1(s)) by (bit_vector)
            requires
                has_width_1_encoding(s),
        ;
    } else {
        assert(forall|x: u8| #[trigger] (0x80u8 | x) >= 128) by (bit_vector);
        assert(forall|x: u8| #[trigger] (0xC0u8 | x) >= 128) by (bit_vector);
        assert(forall|x: u8| #[trigger] (0xE0u8 | x) >= 128) by (bit_vector);
        assert(forall|x: u8| #[trigger] (0xF0u8 | x) >= 128) by (bit_vector);
    }
}

/// An ASCII character is in a text where its byte is in the encoding.
pub proof fn lemma_ascii_in_encoding(text: Seq<char>, c: char)
    requires
        (c as u32) < 128,
    ensures
        encode_utf8(text).contains(c as u8) <==> text.contains(c),
    decreases text.len(),
{
    let bytes = encode_utf8(text);
    if text.len() > 0 {
        let first = encode_scalar(text[0] as u32);
        let rest = text.drop_first();
        let tail = encode_utf8(rest);
        lemma_encoding_of_one(text[0]);
        lemma_ascii_in_encoding(rest, c);
        assert(bytes == first + tail);
        if text.contains(c) {
            let i = choose|i: int| 0 <= i < text.len() && text[i] == c;
            if i == 0 {
                assert(bytes[0] == c as u8);
            } else {
                assert(rest[i - 1] == c);
                let j = choose|j: int| 0 <= j < tail.len() && tail[j] == c as u8;
                assert(bytes[first.len() + j] == c as u8);
            }
        }
        if bytes.contains(c as u8) {
            let j = choose|j: int| 0 <= j < bytes.len() && bytes[j] == c as u8;
            if j < first.len() {
                assert(first[j] == c as u8);
                assert((c as u8) as int == c as int);
                assert((text[0] as u32) < 128);
                assert((text[0] as u8) as int == text[0] as int);
                assert(text[0] == c);
            } else {
                assert(tail[j - first.len()] == c as u8);
                let i = choose|i: int| 0 <= i < rest.len() && rest[i] == c;
                assert(text[i + 1] == c);
            }
        }
    }
}

/// The text of a name is a plain piece, and no `.`.
pub proof fn lemma_plain_name(name: Seq<u8>, text: Seq<char>)
    requires
        plain(name, SEP),
        name != seq![DOT],
        text == lossy_text(name),
        !valid_utf8(name) ==> text.contains('\u{fffd}') && !text.contains('/'),
    ensures
        plain(text, '/'),
        text != "."@,
{
    reveal_strlit(".");
    assert("."@ =~= seq!['.']);
    if valid_utf8(name) {
        decode_utf8_encode_utf8(name);
        lemma_ascii_in_encoding(text, '/');
        if text.len() == 0 {
            assert(encode_utf8(text).len() == 0);
        }
        if text == "."@ {
            lemma_encoding_of_dot();
        }
    } else if text == "."@ {
        assert(text[0] == '.');
    }
}

/// The encodings of `.` and of `..`.
proof fn lemma_encoding_of_dot()
    ensures
        encode_utf8("."@) == seq![DOT],
        encode_utf8(".."@) == seq![DOT, DOT],
{
    reveal_strlit(".");
    reveal_strlit("..");
    let none: Seq<char> = seq![];
    lemma_encoding_of_one('.');
    assert("."@ =~= seq!['.']);
    assert("."@.drop_first() =~= none);
    assert(encode_utf8(none) =~= seq![]);
    assert(encode_utf8("."@) =~= seq![DOT]);
    assert(".."@ =~= "."@ + "."@);
    lemma_encoding_of_two("."@, "."@);
    assert(seq![DOT] + seq![DOT] =~= seq![DOT, DOT]);
}

/// The pieces of a text hold no separator.
proof fn lemma_pieces_are_free<T>(s: Seq<T>, c: T)
    ensures
        forall|i: int| 0 <= i < pieces(s, c).len() ==> !(#[trigger] pieces(s, c)[i]).contains(c),
    decreases s.len(),
{
    let n = first_index(s, c);
    lemma_first_index(s, c);
    if n < s.len() {
        lemma_pieces_are_free(s.skip(n + 1), c);
        assert forall|i: int| 0 <= i < pieces(s, c).len() implies !(#[trigger] pieces(
            s,
            c,
        )[i]).contains(c) by {
            if i > 0 {
                assert(pieces(s, c)[i] == pieces(s.skip(n + 1), c)[i - 1]);
            }
        }
    }
}

/// The components that pieces stand for are names or lead to a parent.
proof fn lemma_kept_is_plain(ps: Seq<Seq<u8>>)
    requires
        forall|i: int| 0 <= i < ps.len() ==> !(#[trigger] ps[i]).contains(SEP),
    ensures
        rootless(kept(ps)),
        plain_parts(kept(ps)),
        forall|i: int| 0 <= i < kept(ps).len() ==> !((#[trigger] kept(ps)[i]) is Cur),
    decreases ps.len(),
{
    if ps.len() > 0 {
        let front = ps.drop_last();
        assert forall|i: int| 0 <= i < front.len() implies !(#[trigger] front[i]).contains(SEP) by {
            assert(front[i] == ps[i]);
        }
        lemma_kept_is_plain(front);
        assert(!ps[ps.len() - 1].contains(SEP));
        if let Some(part) = part_of(ps.last()) {
            assert forall|i: int| #![trigger kept(ps)[i]] 0 <= i < kept(ps).len() - 1 implies kept(
                ps,
            )[i] == kept(front)[i] by {}
        }
    }
}

/// The components of a path are plain: only the first can be the root or a `.`, and a name is not
/// empty and holds no separator.
pub proof fn lemma_parts_are_plain(raw: Seq<u8>)
    ensures
        plain_parts(parts(raw)),
{
    let body = raw.skip(crate::local_path::body_start(raw));
    lemma_pieces_are_free(body, SEP);
    lemma_kept_is_plain(pieces(body, SEP));
    let tail = kept(pieces(body, SEP));
    assert forall|i: int| #![trigger parts(raw)[i]] 0 <= i < parts(raw).len() implies match parts(
        raw,
    )[i] {
        PartView::Root => i == 0,
        PartView::Cur => i == 0,
        PartView::Parent => true,
        PartView::Normal(name) => plain(name, SEP) && name != seq![DOT],
    } by {
        if i >= head(raw).len() {
            assert(parts(raw)[i] == tail[i - head(raw).len()]);
        }
    }
}

/// Plain pieces with a `/` between them are a normal path, and its components are the pieces.
pub proof fn lemma_plain_words_are_normal(words: Seq<Seq<char>>)
    requires
        plain_words(words),
    ensures
        normal(joined(words, "/"@)),
        components(joined(words, "/"@)) == words,
{
    reveal_strlit("/");
    assert("/"@ =~= seq!['/']);
    assert forall|i: int| 0 <= i < words.len() implies plain(#[trigger] words[i], '/') by {}
    splitting_undoes_joining(words);
    if words.len() > 0 {
        assert forall|i: int| 0 <= i < words.len() implies !(#[trigger] words[i]).contains(
            '/',
        ) by {}
        lemma_pieces_of_joined(words, '/');
    }
}

/// The encodings of several texts.
spec fn encodings(words: Seq<Seq<char>>) -> Seq<Seq<u8>> {
    words.map_values(|w: Seq<char>| encode_utf8(w))
}

/// The encoding of joined texts.
proof fn lemma_encoding_of_joined(words: Seq<Seq<char>>)
    ensures
        encode_utf8(joined(words, "/"@)) == joined(encodings(words), seq![SEP]),
    decreases words.len(),
{
    reveal_strlit("/");
    assert("/"@ =~= seq!['/']);
    let none: Seq<char> = seq![];
    assert("/"@.drop_first() =~= none);
    lemma_encoding_of_one('/');
    assert(encode_utf8(none) =~= seq![]);
    assert(encode_utf8("/"@) =~= seq![SEP]);
    if words.len() > 1 {
        let front = words.drop_last();
        lemma_encoding_of_joined(front);
        lemma_encoding_of_two(joined(front, "/"@), "/"@);
        lemma_encoding_of_two(joined(front, "/"@) + "/"@, words.last());
        assert(encodings(words).drop_last() =~= encodings(front));
    }
}

/// The spelling of the components that encoded pieces stand for is the pieces.
proof fn lemma_encoded_words_are_spelled_back(words: Seq<Seq<char>>)
    requires
        forall|i: int|
            #![trigger words[i]]
            0 <= i < words.len() ==> words[i].len() > 0 && words[i] != "."@,
    ensures
        reapi_pieces(kept(encodings(words))) == words,
    decreases words.len(),
{
    if words.len() == 0 {
        assert(encodings(words) =~= seq![]);
        assert(kept(encodings(words)) =~= seq![]);
        assert(reapi_pieces(kept(encodings(words))) =~= words);
    } else {
        let front = words.drop_last();
        let last = words.last();
        let bytes = encode_utf8(last);
        assert(words[words.len() - 1] == last);
        assert forall|i: int| #![trigger front[i]] 0 <= i < front.len() implies front[i].len() > 0
            && front[i] != "."@ by {
            assert(front[i] == words[i]);
        }
        lemma_encoded_words_are_spelled_back(front);
        assert(encodings(words).drop_last() =~= encodings(front));
        assert(encodings(words).last() == bytes);
        lemma_encoding_of_dot();
        encode_utf8_decode_utf8(last);
        encode_utf8_decode_utf8("."@);
        encode_utf8_decode_utf8(".."@);
        encode_utf8_valid_utf8(last);
        lemma_encoding_of_one(last[0]);
        assert(bytes.len() > 0);
        assert(bytes != seq![DOT]);
        let part = part_of(bytes)->0;
        let more = kept(encodings(front)).push(part);
        assert(kept(encodings(words)) == more);
        assert(more.drop_last() =~= kept(encodings(front)));
        assert(reapi_pieces(more) == reapi_pieces(kept(encodings(front))).push(last));
        assert(front.push(last) =~= words);
    }
}

/// The remote spelling of a remote path is the path.
pub proof fn spelling_again_changes_nothing(words: Seq<Seq<char>>)
    requires
        plain_words(words),
    ensures
        reapi_text(parts(encode_utf8(joined(words, "/"@)))) == joined(words, "/"@),
{
    let raw = encode_utf8(joined(words, "/"@));
    let es = encodings(words);
    lemma_encoding_of_joined(words);
    lemma_encoding_of_dot();
    if words.len() == 0 {
        let none: Seq<u8> = seq![];
        assert(raw =~= none);
        lemma_one_piece(none, SEP);
        assert(none.skip(0) =~= none);
        lemma_kept_skips_empty(seq![]);
        assert(seq![seq![]] + Seq::<Seq<u8>>::empty() =~= seq![none]);
        assert(kept(seq![none]) =~= seq![]);
        assert(parts(raw) =~= seq![]);
        assert(reapi_pieces(parts(raw)) =~= words);
    } else {
        assert forall|i: int| 0 <= i < es.len() implies plain(#[trigger] es[i], SEP) by {
            assert(plain(words[i], '/'));
            lemma_ascii_in_encoding(words[i], '/');
            lemma_encoding_of_one(words[i][0]);
        }
        let rest = words.skip(1);
        assert forall|i: int| #![trigger rest[i]] 0 <= i < rest.len() implies rest[i].len() > 0
            && rest[i] != "."@ by {
            assert(rest[i] == words[i + 1]);
        }
        lemma_encoded_words_are_spelled_back(rest);
        lemma_first_of_joined(es);
        if words[0] == "."@ {
            lemma_dot_first(es);
            assert(es.skip(1) =~= encodings(rest));
            let cur = seq![PartView::Cur];
            lemma_reapi_pieces_of_two(cur, kept(encodings(rest)));
            let none = Seq::<PartView>::empty();
            assert(cur.drop_last() =~= none);
            assert(reapi_pieces(none) =~= seq![]);
            assert(reapi_pieces(cur) =~= seq!["."@]);
            assert(seq!["."@] + rest =~= words);
        } else {
            assert(plain(words[0], '/'));
            encode_utf8_decode_utf8(words[0]);
            encode_utf8_decode_utf8("."@);
            assert(es[0] != seq![DOT]);
            lemma_no_dot_first(es);
            assert forall|i: int| #![trigger words[i]] 0 <= i < words.len() implies words[i].len()
                > 0 && words[i] != "."@ by {}
            lemma_encoded_words_are_spelled_back(words);
        }
    }
}

/// Joined bytes start with the first of the pieces, and a separator comes right after it where
/// there are more.
proof fn lemma_first_of_joined(es: Seq<Seq<u8>>)
    requires
        es.len() > 0,
    ensures
        es.len() == 1 ==> joined(es, seq![SEP]) == es[0],
        es.len() > 1 ==> joined(es, seq![SEP]) == es[0] + seq![SEP] + joined(
            es.skip(1),
            seq![SEP],
        ),
{
    if es.len() > 1 {
        assert(es =~= seq![es[0]] + es.skip(1));
        lemma_joined_of_two(seq![es[0]], es.skip(1), seq![SEP]);
    }
}

/// The components of a path whose first piece is a `.`.
proof fn lemma_dot_first(es: Seq<Seq<u8>>)
    requires
        es.len() > 0,
        es[0] == seq![DOT],
        forall|i: int| 0 <= i < es.len() ==> plain(#[trigger] es[i], SEP),
    ensures
        parts(joined(es, seq![SEP])) == seq![PartView::Cur] + kept(es.skip(1)),
{
    let raw = joined(es, seq![SEP]);
    let none: Seq<u8> = seq![];
    lemma_first_of_joined(es);
    lemma_one_piece(none, SEP);
    let rest = es.skip(1);
    if es.len() == 1 {
        assert(raw.skip(1) =~= none);
        lemma_kept_skips_empty(seq![]);
        assert(seq![seq![]] + Seq::<Seq<u8>>::empty() =~= seq![none]);
        assert(kept(seq![none]) =~= seq![]);
        assert(rest =~= seq![]);
    } else {
        assert forall|i: int| 0 <= i < rest.len() implies !(#[trigger] rest[i]).contains(SEP) by {
            assert(plain(es[i + 1], SEP));
        }
        let tail = joined(rest, seq![SEP]);
        assert(raw.skip(1) =~= none + seq![SEP] + tail);
        lemma_pieces_of_two(none, SEP, tail);
        lemma_pieces_of_joined(rest, SEP);
        lemma_kept_skips_empty(rest);
    }
}

/// An empty piece stands for no component.
proof fn lemma_kept_skips_empty(ps: Seq<Seq<u8>>)
    ensures
        kept(seq![seq![]] + ps) == kept(ps),
    decreases ps.len(),
{
    let first = seq![Seq::<u8>::empty()];
    let all = seq![seq![]] + ps;
    assert(all =~= first + ps);
    if ps.len() == 0 {
        let none = Seq::<Seq<u8>>::empty();
        assert(all.drop_last() =~= none);
        assert(ps =~= none);
        assert(all.last() =~= seq![]);
        assert(kept(none) =~= seq![]);
        assert(kept(all) == kept(all.drop_last()));
    } else {
        assert(all.drop_last() =~= seq![seq![]] + ps.drop_last());
        lemma_kept_skips_empty(ps.drop_last());
    }
}

/// The components of a path whose first piece is no `.`.
proof fn lemma_no_dot_first(es: Seq<Seq<u8>>)
    requires
        es.len() > 0,
        es[0] != seq![DOT],
        forall|i: int| 0 <= i < es.len() ==> plain(#[trigger] es[i], SEP),
    ensures
        parts(joined(es, seq![SEP])) == kept(es),
{
    let raw = joined(es, seq![SEP]);
    lemma_first_of_joined(es);
    assert(plain(es[0], SEP));
    assert(raw[0] == es[0][0]);
    assert(es[0].contains(es[0][0]));
    if raw[0] == DOT {
        if es[0].len() == 1 {
            assert(es[0] =~= seq![DOT]);
        } else {
            assert(raw[1] == es[0][1]);
            assert(es[0].contains(es[0][1]));
        }
    }
    assert(raw.skip(0) =~= raw);
    assert forall|i: int| 0 <= i < es.len() implies !(#[trigger] es[i]).contains(SEP) by {
        assert(plain(es[i], SEP));
    }
    lemma_pieces_of_joined(es, SEP);
    assert(head(raw) + kept(es) =~= kept(es));
}

} // verus!
