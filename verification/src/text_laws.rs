//! What holds of texts: of their order, of numbers in them and of the lines that they have.
use vstd::prelude::*;
use vstd::utf8::{encode_utf8, encode_utf8_decode_utf8, encode_utf8_valid_utf8};

use crate::console::{lines_of, printed, LineView};
use crate::digest::{digest_before, DigestView};
use crate::digits::{decimal, digit, hex_text, signed_decimal};
use crate::local_path::lossy_text;
use crate::names::{
    blob_place, download_name, is_random_uuid, marked, upload_name, uuid_shows_version_and_variant,
};
use crate::text::{first_index, joined, lemma_first_index_is, pieces, text_before};

verus! {

/// A text stands before every longer text that begins with it.
pub proof fn prefix_stands_before(a: Seq<char>, b: Seq<char>)
    requires
        b.len() > 0,
    ensures
        text_before(a, a + b),
        !text_before(a + b, a),
    decreases a.len(),
{
    if a.len() > 0 {
        assert((a + b).skip(1) =~= a.skip(1) + b);
        prefix_stands_before(a.skip(1), b);
    }
}

/// The first characters that differ decide which of two texts stands before the other.
pub proof fn first_difference_decides(
    a: Seq<char>,
    x: char,
    b: Seq<char>,
    y: char,
    c: Seq<char>,
)
    requires
        x != y,
    ensures
        text_before(a + seq![x] + b, a + seq![y] + c) <==> (x as int) < (y as int),
    decreases a.len(),
{
    let s = a + seq![x] + b;
    let t = a + seq![y] + c;
    if a.len() > 0 {
        assert(s.skip(1) =~= a.skip(1) + seq![x] + b);
        assert(t.skip(1) =~= a.skip(1) + seq![y] + c);
        first_difference_decides(a.skip(1), x, b, y, c);
    } else {
        assert(s[0] == x);
        assert(t[0] == y);
    }
}

/// Digests stand in the order of their hashes, and those with one hash in the order of their sizes.
pub proof fn digests_are_in_order(a: DigestView, b: DigestView)
    ensures
        a.hash != b.hash ==> (digest_before(a, b) <==> text_before(a.hash, b.hash)),
        a.hash == b.hash ==> (digest_before(a, b) <==> a.size_bytes < b.size_bytes),
{
    crate::text::lemma_text_order(a.hash, b.hash);
}

/// What was split at a separator is joined by it.
pub proof fn joining_undoes_splitting<T>(s: Seq<T>, c: T)
    ensures
        joined(pieces(s, c), seq![c]) == s,
        forall|i: int| 0 <= i < pieces(s, c).len() ==> !(#[trigger] pieces(s, c)[i]).contains(c),
    decreases s.len(),
{
    crate::text::lemma_first_index(s, c);
    let i = first_index(s, c);
    let ps = pieces(s, c);
    if i < s.len() {
        let rest = s.skip(i + 1);
        let tail = pieces(rest, c);
        joining_undoes_splitting(rest, c);
        lemma_some_piece(rest, c);
        crate::path_laws::lemma_joined_of_two(seq![s.take(i)], tail, seq![c]);
        assert(joined(seq![s.take(i)], seq![c]) == s.take(i));
        assert(s =~= s.take(i) + seq![c] + rest);
        assert forall|j: int| 0 <= j < ps.len() implies !(#[trigger] ps[j]).contains(c) by {
            if j == 0 {
                assert(ps[0] == s.take(i));
            } else {
                assert(ps[j] == tail[j - 1]);
            }
        }
    } else {
        assert(ps =~= seq![s]);
    }
}

proof fn lemma_some_piece<T>(s: Seq<T>, c: T)
    ensures
        pieces(s, c).len() > 0,
{
}

/// The number that digits in base ten stand for.
pub open spec fn decimal_value(text: Seq<char>) -> nat
    decreases text.len(),
{
    if text.len() == 0 {
        0
    } else {
        decimal_value(text.drop_last()) * 10 + (text.last() as int - '0' as int) as nat
    }
}

/// A number in base ten stands for the number, has nothing but digits, and does not begin with a
/// zero unless it is one.
pub proof fn decimal_stands_for_its_number(n: nat)
    ensures
        decimal_value(decimal(n)) == n,
        decimal(n).len() > 0,
        forall|i: int| 0 <= i < decimal(n).len() ==> '0' <= #[trigger] decimal(n)[i] <= '9',
        n > 0 ==> decimal(n)[0] != '0',
    decreases n,
{
    let text = decimal(n);
    if n < 10 {
        assert(text.drop_last() =~= seq![]);
        assert(decimal_value(seq![]) == 0);
    } else {
        let front = decimal(n / 10);
        decimal_stands_for_its_number(n / 10);
        assert(text.drop_last() =~= front);
        assert(text.last() == digit((n % 10) as int));
        assert(text.last() as int - '0' as int == n % 10);
        assert forall|i: int| 0 <= i < text.len() implies '0' <= #[trigger] text[i] <= '9' by {
            if i < front.len() {
                assert(text[i] == front[i]);
            }
        }
        assert(text[0] == front[0]);
    }
}

/// A negative number has a minus sign in front of its magnitude.
pub proof fn signed_decimal_stands_for_its_number(i: int)
    ensures
        i >= 0 ==> decimal_value(signed_decimal(i)) == i && signed_decimal(i)[0] != '-',
        i < 0 ==> signed_decimal(i)[0] == '-' && decimal_value(signed_decimal(i).skip(1)) == -i,
{
    if i >= 0 {
        decimal_stands_for_its_number(i as nat);
    } else {
        decimal_stands_for_its_number((-i) as nat);
        assert(signed_decimal(i).skip(1) =~= decimal((-i) as nat));
    }
}

/// The value of a digit in base sixteen.
pub open spec fn digit_value(c: char) -> int {
    if '0' <= c <= '9' {
        c as int - '0' as int
    } else {
        c as int - 'a' as int + 10
    }
}

/// Two digits stand for each byte.
pub proof fn digits_stand_for_their_byte(bytes: Seq<u8>, i: int)
    requires
        0 <= i < bytes.len(),
    ensures
        hex_text(bytes).len() == 2 * bytes.len(),
        digit_value(hex_text(bytes)[2 * i]) * 16 + digit_value(hex_text(bytes)[2 * i + 1])
            == bytes[i],
{
    let hi = bytes[i] as int / 16;
    let lo = bytes[i] as int % 16;
    assert((2 * i) / 2 == i && (2 * i + 1) / 2 == i);
    assert((2 * i) % 2 == 0 && (2 * i + 1) % 2 == 1);
    assert(0 <= hi < 16 && 0 <= lo < 16);
    lemma_digit(hi);
    lemma_digit(lo);
}

proof fn lemma_digit(d: int)
    requires
        0 <= d < 16,
    ensures
        digit_value(digit(d)) == d,
{
}

proof fn lemma_lines_led(line: Seq<char>, rest: Seq<char>)
    requires
        !line.contains('\n'),
    ensures
        pieces(line + seq!['\n'] + rest, '\n') == seq![line] + pieces(rest, '\n'),
{
    let s = line + seq!['\n'] + rest;
    let n = line.len() as int;
    assert forall|i: int| 0 <= i < n implies s[i] != '\n' by {
        assert(line.contains(line[i]));
    }
    lemma_first_index_is(s, '\n', n);
    assert(s.take(n) =~= line);
    assert(s.skip(n + 1) =~= rest);
}

/// A line that ends with a line feed is the first line, without the line feed; of a carriage return
/// and a line feed neither is left.
pub proof fn line_is_the_first(line: Seq<char>, rest: Seq<char>)
    requires
        !line.contains('\n'),
    ensures
        line.len() == 0 || line.last() != '\r' ==> lines_of(line + seq!['\n'] + rest) == seq![line]
            + lines_of(rest),
        lines_of(line + seq!['\r', '\n'] + rest) == seq![line] + lines_of(rest),
{
    lemma_some_piece(rest, '\n');
    lemma_lines_led(line, rest);
    let ps = pieces(rest, '\n');
    if line.len() == 0 || line.last() != '\r' {
        let all = seq![line] + ps;
        assert(all.drop_last() =~= seq![line] + ps.drop_last());
        assert(lines_of(line + seq!['\n'] + rest) =~= seq![line] + lines_of(rest));
    }
    let marked = line.push('\r');
    assert(marked.drop_last() =~= line);
    assert(!marked.contains('\n')) by {
        if marked.contains('\n') {
            let i = choose|i: int| 0 <= i < marked.len() && marked[i] == '\n';
            assert(line[i] == '\n');
        }
    }
    lemma_lines_led(marked, rest);
    assert(line + seq!['\r', '\n'] + rest =~= marked + seq!['\n'] + rest);
    let all = seq![marked] + ps;
    assert(all.drop_last() =~= seq![marked] + ps.drop_last());
    assert(lines_of(line + seq!['\r', '\n'] + rest) =~= seq![line] + lines_of(rest));
}

/// What has no line feed is one line, as it is, unless it is empty.
pub proof fn rest_is_the_last_line(rest: Seq<char>)
    requires
        !rest.contains('\n'),
    ensures
        lines_of(rest) == (if rest.len() == 0 {
            seq![]
        } else {
            seq![rest]
        }),
{
    let n = rest.len() as int;
    assert forall|i: int| 0 <= i < n implies rest[i] != '\n' by {
        assert(rest.contains(rest[i]));
    }
    lemma_first_index_is(rest, '\n', n);
    assert(pieces(rest, '\n') =~= seq![rest]);
    assert(lines_of(rest) =~= (if rest.len() == 0 {
        seq![]
    } else {
        seq![rest]
    }));
}

/// The lines that a command printed are passed on in their order, those of the standard output
/// first, each as what it is.
pub proof fn printed_lines_are_passed_on(out: Seq<char>, err: Seq<char>, i: int)
    requires
        0 <= i < lines_of(out).len() + lines_of(err).len(),
    ensures
        printed(encode_utf8(out), encode_utf8(err)).len() == lines_of(out).len() + lines_of(
            err,
        ).len(),
        printed(encode_utf8(out), encode_utf8(err))[i] == (if i < lines_of(out).len() {
            LineView::Stdout(lines_of(out)[i])
        } else {
            LineView::Stderr(lines_of(err)[i - lines_of(out).len()])
        }),
{
    lemma_text_of_encoding(out);
    lemma_text_of_encoding(err);
}

/// The text of the encoding of a text is the text.
pub proof fn lemma_text_of_encoding(text: Seq<char>)
    ensures
        lossy_text(encode_utf8(text)) == text,
{
    encode_utf8_valid_utf8(text);
    encode_utf8_decode_utf8(text);
}

/// What stands before the first `/` of a text, and what stands after it, are found again.
proof fn lemma_sides(a: Seq<char>, x: Seq<char>, b: Seq<char>, y: Seq<char>)
    requires
        !a.contains('/'),
        !b.contains('/'),
        a + "/"@ + x == b + "/"@ + y,
    ensures
        a == b,
        x == y,
{
    reveal_strlit("/");
    let s = a + "/"@ + x;
    let t = b + "/"@ + y;
    assert(s[a.len() as int] == '/');
    assert(t[b.len() as int] == '/');
    if a.len() < b.len() {
        assert(b[a.len() as int] == t[a.len() as int]);
        assert(b.contains('/'));
    }
    if b.len() < a.len() {
        assert(a[b.len() as int] == s[b.len() as int]);
        assert(a.contains('/'));
    }
    assert(s.take(a.len() as int) =~= a);
    assert(t.take(b.len() as int) =~= b);
    assert(s.skip(a.len() as int + 1) =~= x);
    assert(t.skip(b.len() as int + 1) =~= y);
}

proof fn lemma_same_number(a: int, b: int)
    requires
        signed_decimal(a) == signed_decimal(b),
    ensures
        a == b,
{
    signed_decimal_stands_for_its_number(a);
    signed_decimal_stands_for_its_number(b);
}

/// Different blobs of an instance are streamed under different names, here and there.
pub proof fn blobs_have_names_of_their_own(
    instance_name: Seq<char>,
    id: Seq<char>,
    a: DigestView,
    b: DigestView,
)
    requires
        !a.hash.contains('/'),
        !b.hash.contains('/'),
    ensures
        download_name(instance_name, a) == download_name(instance_name, b) ==> a == b,
        upload_name(instance_name, id, a) == upload_name(instance_name, id, b) ==> a == b,
{
    let i = instance_name;
    if blob_place(a) == blob_place(b) {
        let lead = "blobs/sha256/"@;
        let n = lead.len() as int;
        assert(blob_place(a).skip(n) =~= a.hash + "/"@ + signed_decimal(a.size_bytes as int));
        assert(blob_place(b).skip(n) =~= b.hash + "/"@ + signed_decimal(b.size_bytes as int));
        lemma_sides(
            a.hash,
            signed_decimal(a.size_bytes as int),
            b.hash,
            signed_decimal(b.size_bytes as int),
        );
        lemma_same_number(a.size_bytes as int, b.size_bytes as int);
    }
    let down = i + "/"@;
    if i.len() > 0 {
        assert(download_name(i, a).skip(down.len() as int) =~= blob_place(a));
        assert(download_name(i, b).skip(down.len() as int) =~= blob_place(b));
    }
    let up = "uploads/"@ + id + "/"@;
    if i.len() > 0 {
        let all = down + up;
        assert(upload_name(i, id, a).skip(all.len() as int) =~= blob_place(a));
        assert(upload_name(i, id, b).skip(all.len() as int) =~= blob_place(b));
    } else {
        assert(upload_name(i, id, a).skip(up.len() as int) =~= blob_place(a));
        assert(upload_name(i, id, b).skip(up.len() as int) =~= blob_place(b));
    }
}

/// The name that a blob is written by says which instance it is for, which writing this is, and
/// which blob it is.
pub proof fn written_blob_is_named(instance_name: Seq<char>, id: Seq<char>, d: DigestView)
    ensures
        upload_name(instance_name, id, d) == (if instance_name.len() == 0 {
            seq![]
        } else {
            instance_name + "/"@
        }) + ("uploads/"@ + id + "/blobs/sha256/"@ + d.hash + "/"@ + signed_decimal(
            d.size_bytes as int,
        )),
{
    reveal_strlit("/blobs/sha256/");
    reveal_strlit("blobs/sha256/");
    reveal_strlit("/");
    assert("/blobs/sha256/"@ =~= "/"@ + "blobs/sha256/"@);
    let rest = "uploads/"@ + id + "/blobs/sha256/"@ + d.hash + "/"@ + signed_decimal(
        d.size_bytes as int,
    );
    assert("uploads/"@ + id + "/"@ + blob_place(d) =~= rest);
    assert(seq![] + rest =~= rest);
    assert(instance_name + "/"@ + rest =~= (instance_name + "/"@) + rest);
}

/// The text of an identifier without the marks between its groups.
pub open spec fn without_marks(id: Seq<char>) -> Seq<char> {
    id.subrange(0, 8) + id.subrange(9, 13) + id.subrange(14, 18) + id.subrange(19, 23)
        + id.subrange(24, 36)
}

/// An identifier has all of its bytes in it, in their order, and of the random bytes it was made of
/// all but the bits that mark it.
pub proof fn identifier_has_its_bytes(id: Seq<char>, bytes: Seq<u8>, i: int)
    requires
        is_random_uuid(id, bytes),
        0 <= i < 16,
    ensures
        without_marks(id) == hex_text(marked(bytes)),
        i != 6 && i != 8 ==> marked(bytes)[i] == bytes[i],
        i == 6 ==> marked(bytes)[i] % 16 == bytes[i] % 16,
        i == 8 ==> marked(bytes)[i] % 64 == bytes[i] % 64,
{
    reveal_strlit("-");
    uuid_shows_version_and_variant(id, bytes);
    let b = marked(bytes);
    let b6 = bytes[6];
    let b8 = bytes[8];
    assert(((b6 & 0x0f) | 0x40) % 16 == b6 % 16) by (bit_vector);
    assert(((b8 & 0x3f) | 0x80) % 64 == b8 % 64) by (bit_vector);
    let h0 = hex_text(b.subrange(0, 4));
    let h1 = hex_text(b.subrange(4, 6));
    let h2 = hex_text(b.subrange(6, 8));
    let h3 = hex_text(b.subrange(8, 10));
    let h4 = hex_text(b.subrange(10, 16));
    assert(id.subrange(0, 8) =~= h0);
    assert(id.subrange(9, 13) =~= h1);
    assert(id.subrange(14, 18) =~= h2);
    assert(id.subrange(19, 23) =~= h3);
    assert(id.subrange(24, 36) =~= h4);
    lemma_hex_of_two(b.subrange(0, 4), b.subrange(4, 6));
    lemma_hex_of_two(b.subrange(0, 6), b.subrange(6, 8));
    lemma_hex_of_two(b.subrange(0, 8), b.subrange(8, 10));
    lemma_hex_of_two(b.subrange(0, 10), b.subrange(10, 16));
    assert(b.subrange(0, 4) + b.subrange(4, 6) =~= b.subrange(0, 6));
    assert(b.subrange(0, 6) + b.subrange(6, 8) =~= b.subrange(0, 8));
    assert(b.subrange(0, 8) + b.subrange(8, 10) =~= b.subrange(0, 10));
    assert(b.subrange(0, 10) + b.subrange(10, 16) =~= b);
}

proof fn lemma_hex_of_two(a: Seq<u8>, b: Seq<u8>)
    ensures
        hex_text(a + b) == hex_text(a) + hex_text(b),
{
    let s = hex_text(a + b);
    let t = hex_text(a) + hex_text(b);
    assert forall|i: int| 0 <= i < s.len() implies s[i] == t[i] by {
        if i < 2 * a.len() {
            assert((a + b)[i / 2] == a[i / 2]);
        } else {
            let j = i - 2 * a.len();
            assert(j / 2 == i / 2 - a.len());
            assert(j % 2 == i % 2);
            assert((a + b)[i / 2] == b[j / 2]);
        }
    }
    assert(s =~= t);
}

} // verus!
