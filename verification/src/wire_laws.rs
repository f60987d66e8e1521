//! What is written can be read back, so that different messages have different encodings.
use vstd::prelude::*;
use vstd::utf8::{encode_utf8, encode_utf8_decode_utf8, encode_utf8_valid_utf8};

use crate::digest::DigestView;
use crate::fields::{key_at, key_read, number_at, number_read, text_read, varint_at, MalformedView};
use crate::messages::{
    action_wire, command_wire, digest_wire, directory_wire, file_wire, pair_wire, platform_wire,
    subdir_wire, text_wires, ActionView, CommandView, DirectoryView, FileView,
};
use crate::response::{digest_field_read, digest_fields_read, empty_digest};
use crate::wire::{bool_field, delimited, int_field, number, repeated, text_field, varint, MAX_TAG};

verus! {

/// The value of a field: a number, or bytes.
pub enum ValueView {
    Number(u64),
    Bytes(Seq<u8>),
}

/// Fields: tags and values.
pub type Fields = Seq<(u32, ValueView)>;

/// The value of the given kind at the start of `bytes`, and what follows it.
pub open spec fn value_at(kind: nat, bytes: Seq<u8>) -> Option<(ValueView, Seq<u8>)> {
    match varint_at(bytes) {
        Some((n, used)) => {
            let rest = bytes.skip(used as int);
            if kind == 0 {
                Some((ValueView::Number(n as u64), rest))
            } else if kind == 2 && n <= rest.len() {
                Some((ValueView::Bytes(rest.take(n as int)), rest.skip(n as int)))
            } else {
                None
            }
        },
        None => None,
    }
}

/// The fields of a message that has nothing but numbers and bytes, in their order.
pub open spec fn fields_of(bytes: Seq<u8>) -> Option<Fields>
    decreases bytes.len(),
{
    if bytes.len() == 0 {
        Some(seq![])
    } else {
        match key_at(bytes) {
            None => None,
            Some((tag, kind, used)) => match value_at(kind, bytes.skip(used as int)) {
                None => None,
                Some((value, rest)) => if rest.len() < bytes.len() {
                    match fields_of(rest) {
                        Some(fields) => Some(seq![(tag as u32, value)] + fields),
                        None => None,
                    }
                } else {
                    None
                },
            },
        }
    }
}

/// The numbers that so many bytes have room for start below this one.
pub open spec fn room_for(room: nat) -> nat
    decreases room,
{
    if room == 0 {
        0
    } else if room == 1 {
        2
    } else {
        128 * room_for((room - 1) as nat)
    }
}

/// A number that was written is read back, whatever follows it.
pub proof fn number_is_read_back(n: nat, rest: Seq<u8>, room: nat)
    requires
        n < room_for(room),
    ensures
        number_at(varint(n) + rest, room) == Some((n, varint(n).len())),
        varint(n).len() > 0,
    decreases n,
{
    let bytes = varint(n) + rest;
    if n < 128 {
        assert(bytes[0] == n as u8);
    } else {
        assert(room >= 2);
        number_is_read_back(n / 128, rest, (room - 1) as nat);
        assert(bytes[0] == (n % 128 + 128) as u8);
        assert(bytes.skip(1) =~= varint(n / 128) + rest);
    }
}

proof fn lemma_room()
    ensures
        room_for(10) == 0x1_0000_0000_0000_0000,
{
    reveal_with_fuel(room_for, 11);
}

/// The number at the start of what was written, for all numbers of 64 bits.
pub proof fn lemma_varint_at(n: nat, rest: Seq<u8>)
    requires
        n <= u64::MAX,
    ensures
        varint_at(varint(n) + rest) == Some((n, varint(n).len())),
        (varint(n) + rest).skip(varint(n).len() as int) == rest,
        varint(n).len() > 0,
{
    lemma_room();
    number_is_read_back(n, rest, 10);
    assert((varint(n) + rest).skip(varint(n).len() as int) =~= rest);
}

/// Fields in front of others.
pub open spec fn fields_led(f: Fields, rest: Option<Fields>) -> Option<Fields> {
    match rest {
        Some(r) => Some(f + r),
        None => None,
    }
}

proof fn lemma_delimited(tag: u32, bytes: Seq<u8>, rest: Seq<u8>)
    requires
        1 <= tag <= MAX_TAG,
        bytes.len() <= u64::MAX,
    ensures
        fields_of(delimited(tag as nat, bytes) + rest) == fields_led(
            seq![(tag, ValueView::Bytes(bytes))],
            fields_of(rest),
        ),
{
    let key = tag as nat * 8 + 2;
    let all = delimited(tag as nat, bytes) + rest;
    let tail = varint(bytes.len()) + bytes + rest;
    assert(all =~= varint(key) + tail);
    lemma_varint_at(key, tail);
    assert(tail =~= varint(bytes.len()) + (bytes + rest));
    lemma_varint_at(bytes.len(), bytes + rest);
    assert(key_at(all) == Some((tag as nat, 2nat, varint(key).len())));
    assert((bytes + rest).take(bytes.len() as int) =~= bytes);
    assert((bytes + rest).skip(bytes.len() as int) =~= rest);
    assert(value_at(2, tail) == Some((ValueView::Bytes(bytes), rest)));
}

proof fn lemma_number_field(tag: u32, value: u64, rest: Seq<u8>)
    requires
        1 <= tag <= MAX_TAG,
    ensures
        fields_of(number(tag as nat, value) + rest) == fields_led(
            seq![(tag, ValueView::Number(value))],
            fields_of(rest),
        ),
{
    let key = tag as nat * 8;
    let all = number(tag as nat, value) + rest;
    let tail = varint(value as nat) + rest;
    assert(all =~= varint(key) + tail);
    lemma_varint_at(key, tail);
    lemma_varint_at(value as nat, rest);
    assert(key_at(all) == Some((tag as nat, 0nat, varint(key).len())));
    assert(value_at(0, tail) == Some((ValueView::Number(value), rest)));
}

/// The fields of a text that need not be there.
pub open spec fn text_fields(tag: u32, s: Seq<char>) -> Fields {
    if s.len() == 0 {
        seq![]
    } else {
        seq![(tag, ValueView::Bytes(encode_utf8(s)))]
    }
}

/// The fields of a number that need not be there.
pub open spec fn int_fields(tag: u32, value: i64) -> Fields {
    if value == 0 {
        seq![]
    } else {
        seq![(tag, ValueView::Number(value as u64))]
    }
}

/// The fields of a truth value.
pub open spec fn bool_fields(tag: u32, value: bool) -> Fields {
    if value {
        seq![(tag, ValueView::Number(1))]
    } else {
        seq![]
    }
}

/// The fields of several byte strings.
pub open spec fn bytes_fields(tag: u32, items: Seq<Seq<u8>>) -> Fields {
    items.map_values(|b: Seq<u8>| (tag, ValueView::Bytes(b)))
}

proof fn lemma_no_fields(rest: Seq<u8>)
    ensures
        fields_of(Seq::<u8>::empty() + rest) == fields_led(seq![], fields_of(rest)),
{
    assert(Seq::<u8>::empty() + rest =~= rest);
    if let Some(r) = fields_of(rest) {
        assert(Seq::<(u32, ValueView)>::empty() + r =~= r);
    }
}

proof fn lemma_text_field(tag: u32, s: Seq<char>, rest: Seq<u8>)
    requires
        1 <= tag <= MAX_TAG,
        text_field(tag as nat, s).len() <= u64::MAX,
    ensures
        fields_of(text_field(tag as nat, s) + rest) == fields_led(
            text_fields(tag, s),
            fields_of(rest),
        ),
{
    if s.len() == 0 {
        lemma_no_fields(rest);
    } else {
        lemma_delimited(tag, encode_utf8(s), rest);
    }
}

proof fn lemma_int_field(tag: u32, value: i64, rest: Seq<u8>)
    requires
        1 <= tag <= MAX_TAG,
    ensures
        fields_of(int_field(tag as nat, value) + rest) == fields_led(
            int_fields(tag, value),
            fields_of(rest),
        ),
{
    if value == 0 {
        lemma_no_fields(rest);
    } else {
        lemma_number_field(tag, value as u64, rest);
    }
}

proof fn lemma_bool_field(tag: u32, value: bool, rest: Seq<u8>)
    requires
        1 <= tag <= MAX_TAG,
    ensures
        fields_of(bool_field(tag as nat, value) + rest) == fields_led(
            bool_fields(tag, value),
            fields_of(rest),
        ),
{
    if value {
        lemma_number_field(tag, 1, rest);
    } else {
        lemma_no_fields(rest);
    }
}

proof fn lemma_led_twice(a: Fields, b: Fields, rest: Option<Fields>)
    ensures
        fields_led(a, fields_led(b, rest)) == fields_led(a + b, rest),
{
    if let Some(r) = rest {
        assert(a + (b + r) =~= a + b + r);
    }
}

proof fn lemma_repeated(tag: u32, items: Seq<Seq<u8>>, rest: Seq<u8>)
    requires
        1 <= tag <= MAX_TAG,
        repeated(tag as nat, items).len() <= u64::MAX,
    ensures
        fields_of(repeated(tag as nat, items) + rest) == fields_led(
            bytes_fields(tag, items),
            fields_of(rest),
        ),
    decreases items.len(),
{
    if items.len() == 0 {
        lemma_no_fields(rest);
        assert(bytes_fields(tag, items) =~= seq![]);
    } else {
        let front = items.drop_last();
        let last = items.last();
        assert(repeated(tag as nat, items) + rest =~= repeated(tag as nat, front) + (delimited(
            tag as nat,
            last,
        ) + rest));
        lemma_repeated(tag, front, delimited(tag as nat, last) + rest);
        lemma_delimited(tag, last, rest);
        lemma_led_twice(
            bytes_fields(tag, front),
            seq![(tag, ValueView::Bytes(last))],
            fields_of(rest),
        );
        assert(bytes_fields(tag, items) =~= bytes_fields(tag, front) + seq![
            (tag, ValueView::Bytes(last)),
        ]);
    }
}

proof fn lemma_end(f: Fields)
    ensures
        fields_led(f, fields_of(Seq::<u8>::empty())) == Some(f),
{
    assert(f + seq![] =~= f);
}

/// A digest that was written is read back, whatever follows it.
pub proof fn digest_is_read_back(d: DigestView, rest: Seq<u8>, budget: nat)
    requires
        digest_wire(d).len() <= u64::MAX,
    ensures
        digest_fields_read(empty_digest(), digest_wire(d) + rest, rest.len(), budget) == Ok::<
            (DigestView, Seq<u8>),
            MalformedView,
        >((d, rest)),
{
    let h = text_field(1, d.hash);
    let n = int_field(2, d.size_bytes);
    let mid = DigestView { hash: d.hash, size_bytes: 0 };
    let size = d.size_bytes;
    assert(digest_wire(d) + rest =~= h + (n + rest));
    assert(digest_fields_read(d, rest, rest.len(), budget) == Ok::<
        (DigestView, Seq<u8>),
        MalformedView,
    >((d, rest)));
    assert(digest_fields_read(mid, n + rest, rest.len(), budget) == Ok::<
        (DigestView, Seq<u8>),
        MalformedView,
    >((d, rest))) by {
        if size == 0 {
            assert(mid == d);
            assert(n + rest =~= rest);
        } else {
            assert((size as u64) as i64 == size) by (bit_vector);
            lemma_number_is_read(2, size as u64, rest);
            assert(digest_field_read(mid, 2, 0, varint((size as u64) as nat) + rest, budget) == Ok::<
                (DigestView, Seq<u8>),
                MalformedView,
            >((d, rest)));
        }
    }
    if d.hash.len() == 0 {
        assert(d.hash =~= seq![]);
        assert(mid == empty_digest());
        assert(h + (n + rest) =~= n + rest);
    } else {
        let bytes = encode_utf8(d.hash);
        lemma_text_is_read(1, d.hash, n + rest);
        assert(digest_field_read(
            empty_digest(),
            1,
            2,
            varint(bytes.len()) + bytes + (n + rest),
            budget,
        ) == Ok::<(DigestView, Seq<u8>), MalformedView>((mid, n + rest)));
    }
}

/// A number field that was written is read back, whatever follows it.
pub proof fn lemma_number_is_read(tag: u32, value: u64, rest: Seq<u8>)
    requires
        1 <= tag <= MAX_TAG,
    ensures
        key_read(number(tag as nat, value) + rest) == Ok::<((u32, u8), Seq<u8>), MalformedView>(
            ((tag, 0), varint(value as nat) + rest),
        ),
        number_read(0, varint(value as nat) + rest) == Ok::<(u64, Seq<u8>), MalformedView>(
            (value, rest),
        ),
        (varint(value as nat) + rest).len() < (number(tag as nat, value) + rest).len(),
{
    let key = tag as nat * 8;
    let all = number(tag as nat, value) + rest;
    let tail = varint(value as nat) + rest;
    assert(all =~= varint(key) + tail);
    lemma_varint_at(key, tail);
    lemma_varint_at(value as nat, rest);
}

/// A text field that was written is read back, whatever follows it.
proof fn lemma_text_is_read(tag: u32, s: Seq<char>, rest: Seq<u8>)
    requires
        1 <= tag <= MAX_TAG,
        encode_utf8(s).len() <= u64::MAX,
    ensures
        key_read(delimited(tag as nat, encode_utf8(s)) + rest) == Ok::<
            ((u32, u8), Seq<u8>),
            MalformedView,
        >(((tag, 2), varint(encode_utf8(s).len()) + encode_utf8(s) + rest)),
        text_read(2, varint(encode_utf8(s).len()) + encode_utf8(s) + rest) == Ok::<
            (Seq<char>, Seq<u8>),
            MalformedView,
        >((s, rest)),
        (varint(encode_utf8(s).len()) + encode_utf8(s) + rest).len() < (delimited(
            tag as nat,
            encode_utf8(s),
        ) + rest).len(),
{
    let bytes = encode_utf8(s);
    let key = tag as nat * 8 + 2;
    let all = delimited(tag as nat, bytes) + rest;
    let tail = varint(bytes.len()) + bytes + rest;
    assert(all =~= varint(key) + tail);
    lemma_varint_at(key, tail);
    assert(tail =~= varint(bytes.len()) + (bytes + rest));
    lemma_varint_at(bytes.len(), bytes + rest);
    assert((bytes + rest).take(bytes.len() as int) =~= bytes);
    assert((bytes + rest).skip(bytes.len() as int) =~= rest);
    encode_utf8_valid_utf8(s);
    encode_utf8_decode_utf8(s);
}

proof fn lemma_text_fields_len(tag: u32, s: Seq<char>)
    ensures
        text_fields(tag, s).len() == (if s.len() == 0 {
            0nat
        } else {
            1nat
        }),
{
}

proof fn lemma_int_fields_len(tag: u32, value: i64)
    ensures
        int_fields(tag, value).len() == (if value == 0 {
            0nat
        } else {
            1nat
        }),
{
}

proof fn lemma_bool_fields_len(tag: u32, value: bool)
    ensures
        bool_fields(tag, value).len() == (if value {
            1nat
        } else {
            0nat
        }),
{
}

/// Texts whose fields are equal are equal.
proof fn lemma_same_text(tag: u32, a: Seq<char>, b: Seq<char>)
    requires
        text_fields(tag, a) == text_fields(tag, b),
    ensures
        a == b,
{
    encode_utf8_decode_utf8(a);
    encode_utf8_decode_utf8(b);
    if a.len() > 0 && b.len() > 0 {
        assert(text_fields(tag, a)[0] == text_fields(tag, b)[0]);
    } else {
        lemma_text_fields_len(tag, a);
        lemma_text_fields_len(tag, b);
        assert(a =~= b);
    }
}

/// Numbers whose fields are equal are equal.
proof fn lemma_same_int(tag: u32, a: i64, b: i64)
    requires
        int_fields(tag, a) == int_fields(tag, b),
    ensures
        a == b,
{
    if a != 0 && b != 0 {
        assert(int_fields(tag, a)[0] == int_fields(tag, b)[0]);
        assert(a as u64 == b as u64 ==> a == b) by (bit_vector);
    } else {
        lemma_int_fields_len(tag, a);
        lemma_int_fields_len(tag, b);
    }
}

proof fn lemma_same_bool(tag: u32, a: bool, b: bool)
    requires
        bool_fields(tag, a) == bool_fields(tag, b),
    ensures
        a == b,
{
    lemma_bool_fields_len(tag, a);
    lemma_bool_fields_len(tag, b);
}

/// Two groups of fields, the first with one tag and the second without it, are found again.
proof fn lemma_first_group(a: Fields, b: Fields, c: Fields, d: Fields, tag: u32)
    requires
        a + b == c + d,
        forall|i: int| 0 <= i < a.len() ==> (#[trigger] a[i]).0 == tag,
        forall|i: int| 0 <= i < c.len() ==> (#[trigger] c[i]).0 == tag,
        forall|i: int| 0 <= i < b.len() ==> (#[trigger] b[i]).0 != tag,
        forall|i: int| 0 <= i < d.len() ==> (#[trigger] d[i]).0 != tag,
    ensures
        a == c,
        b == d,
{
    let x = a + b;
    let y = c + d;
    if a.len() < c.len() {
        assert(y[a.len() as int] == c[a.len() as int]);
        if a.len() < x.len() {
            assert(x[a.len() as int] == b[0]);
        }
        assert(x.len() == y.len());
        assert(false);
    }
    if c.len() < a.len() {
        assert(x[c.len() as int] == a[c.len() as int]);
        if c.len() < y.len() {
            assert(y[c.len() as int] == d[0]);
        }
        assert(x.len() == y.len());
        assert(false);
    }
    assert forall|i: int| 0 <= i < a.len() implies a[i] == c[i] by {
        assert(x[i] == y[i]);
    }
    assert(a =~= c);
    assert(x.len() == a.len() + b.len() && y.len() == c.len() + d.len());
    assert forall|i: int| 0 <= i < b.len() implies b[i] == d[i] by {
        let at = a.len() + i;
        assert(x[at] == b[i]);
        assert(y[at] == d[i]);
    }
    assert(b =~= d);
}

/// Different digests have different encodings.
pub proof fn digests_are_told_apart(a: DigestView, b: DigestView)
    requires
        digest_wire(a) == digest_wire(b),
        digest_wire(a).len() <= u64::MAX,
    ensures
        a == b,
{
    let none = Seq::<u8>::empty();
    digest_is_read_back(a, none, 1);
    digest_is_read_back(b, none, 1);
}

/// No item of a repeated field is longer than the field.
proof fn lemma_item_len(tag: nat, items: Seq<Seq<u8>>, i: int)
    requires
        0 <= i < items.len(),
    ensures
        items[i].len() <= repeated(tag, items).len(),
    decreases items.len(),
{
    if i < items.len() - 1 {
        lemma_item_len(tag, items.drop_last(), i);
        assert(items.drop_last()[i] == items[i]);
    }
}

/// Byte strings whose fields are equal are equal.
proof fn lemma_same_items(tag: u32, a: Seq<Seq<u8>>, b: Seq<Seq<u8>>)
    requires
        bytes_fields(tag, a) == bytes_fields(tag, b),
    ensures
        a == b,
{
    let x = bytes_fields(tag, a);
    let y = bytes_fields(tag, b);
    assert(x.len() == a.len() && y.len() == b.len());
    assert forall|i: int| 0 <= i < a.len() implies a[i] == b[i] by {
        assert(x[i] == (tag, ValueView::Bytes(a[i])));
        assert(y[i] == (tag, ValueView::Bytes(b[i])));
    }
    assert(a =~= b);
}

/// The fields of a name with a value.
pub open spec fn pair_fields(p: (Seq<char>, Seq<char>)) -> Fields {
    text_fields(1, p.0) + text_fields(2, p.1)
}

proof fn lemma_pair_fields(p: (Seq<char>, Seq<char>))
    requires
        pair_wire(p).len() <= u64::MAX,
    ensures
        fields_of(pair_wire(p)) == Some(pair_fields(p)),
{
    let none = Seq::<u8>::empty();
    let b = text_field(2, p.1);
    lemma_text_field(1, p.0, b);
    lemma_text_field(2, p.1, none);
    assert(b + none =~= b);
    lemma_end(text_fields(2, p.1));
}

/// Different names or values have different encodings.
pub proof fn pairs_are_told_apart(a: (Seq<char>, Seq<char>), b: (Seq<char>, Seq<char>))
    requires
        pair_wire(a) == pair_wire(b),
        pair_wire(a).len() <= u64::MAX,
    ensures
        a == b,
{
    lemma_pair_fields(a);
    lemma_pair_fields(b);
    lemma_first_group(
        text_fields(1, a.0),
        text_fields(2, a.1),
        text_fields(1, b.0),
        text_fields(2, b.1),
        1,
    );
    lemma_same_text(1, a.0, b.0);
    lemma_same_text(2, a.1, b.1);
}

proof fn lemma_same_pairs(
    tag: u32,
    a: Seq<(Seq<char>, Seq<char>)>,
    b: Seq<(Seq<char>, Seq<char>)>,
)
    requires
        a.map_values(|p: (Seq<char>, Seq<char>)| pair_wire(p)) == b.map_values(
            |p: (Seq<char>, Seq<char>)| pair_wire(p),
        ),
        repeated(tag as nat, a.map_values(|p: (Seq<char>, Seq<char>)| pair_wire(p))).len()
            <= u64::MAX,
    ensures
        a == b,
{
    let f = |p: (Seq<char>, Seq<char>)| pair_wire(p);
    let x = a.map_values(f);
    let y = b.map_values(f);
    assert(x.len() == a.len() && y.len() == b.len());
    assert forall|i: int| 0 <= i < a.len() implies a[i] == b[i] by {
        lemma_item_len(tag as nat, x, i);
        assert(x[i] == pair_wire(a[i]) && y[i] == pair_wire(b[i]));
        pairs_are_told_apart(a[i], b[i]);
    }
    assert(a =~= b);
}

proof fn lemma_same_texts(a: Seq<Seq<char>>, b: Seq<Seq<char>>)
    requires
        text_wires(a) == text_wires(b),
    ensures
        a == b,
{
    let x = text_wires(a);
    let y = text_wires(b);
    assert(x.len() == a.len() && y.len() == b.len());
    assert forall|i: int| 0 <= i < a.len() implies a[i] == b[i] by {
        assert(x[i] == encode_utf8(a[i]) && y[i] == encode_utf8(b[i]));
        encode_utf8_decode_utf8(a[i]);
        encode_utf8_decode_utf8(b[i]);
    }
    assert(a =~= b);
}

/// The fields of a file entry.
pub open spec fn file_fields(f: (Seq<char>, FileView)) -> Fields {
    text_fields(1, f.0) + (seq![(2u32, ValueView::Bytes(digest_wire(f.1.digest)))] + bool_fields(
        4,
        f.1.is_executable,
    ))
}

proof fn lemma_file_fields(f: (Seq<char>, FileView))
    requires
        file_wire(f).len() <= u64::MAX,
    ensures
        fields_of(file_wire(f)) == Some(file_fields(f)),
{
    let none = Seq::<u8>::empty();
    let a = text_field(1, f.0);
    let b = delimited(2, digest_wire(f.1.digest));
    let c = bool_field(4, f.1.is_executable);
    assert(file_wire(f) =~= a + (b + c));
    lemma_text_field(1, f.0, b + c);
    lemma_delimited(2, digest_wire(f.1.digest), c);
    lemma_bool_field(4, f.1.is_executable, none);
    assert(c + none =~= c);
    lemma_end(bool_fields(4, f.1.is_executable));
}

/// Different file entries have different encodings.
pub proof fn files_are_told_apart(a: (Seq<char>, FileView), b: (Seq<char>, FileView))
    requires
        file_wire(a) == file_wire(b),
        file_wire(a).len() <= u64::MAX,
    ensures
        a == b,
{
    lemma_file_fields(a);
    lemma_file_fields(b);
    let x = seq![(2u32, ValueView::Bytes(digest_wire(a.1.digest)))];
    let y = seq![(2u32, ValueView::Bytes(digest_wire(b.1.digest)))];
    let u = bool_fields(4, a.1.is_executable);
    let v = bool_fields(4, b.1.is_executable);
    lemma_first_group(text_fields(1, a.0), x + u, text_fields(1, b.0), y + v, 1);
    lemma_first_group(x, u, y, v, 2);
    lemma_same_text(1, a.0, b.0);
    assert(x[0] == y[0]);
    digests_are_told_apart(a.1.digest, b.1.digest);
    lemma_same_bool(4, a.1.is_executable, b.1.is_executable);
}

/// The fields of a directory entry.
pub open spec fn subdir_fields(d: (Seq<char>, DigestView)) -> Fields {
    text_fields(1, d.0) + seq![(2u32, ValueView::Bytes(digest_wire(d.1)))]
}

proof fn lemma_subdir_fields(d: (Seq<char>, DigestView))
    requires
        subdir_wire(d).len() <= u64::MAX,
    ensures
        fields_of(subdir_wire(d)) == Some(subdir_fields(d)),
{
    let none = Seq::<u8>::empty();
    let b = delimited(2, digest_wire(d.1));
    lemma_text_field(1, d.0, b);
    lemma_delimited(2, digest_wire(d.1), none);
    assert(b + none =~= b);
    lemma_end(seq![(2u32, ValueView::Bytes(digest_wire(d.1)))]);
}

/// Different directory entries have different encodings.
pub proof fn subdirs_are_told_apart(a: (Seq<char>, DigestView), b: (Seq<char>, DigestView))
    requires
        subdir_wire(a) == subdir_wire(b),
        subdir_wire(a).len() <= u64::MAX,
    ensures
        a == b,
{
    lemma_subdir_fields(a);
    lemma_subdir_fields(b);
    let x = seq![(2u32, ValueView::Bytes(digest_wire(a.1)))];
    let y = seq![(2u32, ValueView::Bytes(digest_wire(b.1)))];
    lemma_first_group(text_fields(1, a.0), x, text_fields(1, b.0), y, 1);
    lemma_same_text(1, a.0, b.0);
    assert(x[0] == y[0]);
    digests_are_told_apart(a.1, b.1);
}

/// Different directories have different encodings.
pub proof fn directories_are_told_apart(a: DirectoryView, b: DirectoryView)
    requires
        directory_wire(a) == directory_wire(b),
        directory_wire(a).len() <= u64::MAX,
    ensures
        a == b,
{
    let ff = |f: (Seq<char>, FileView)| file_wire(f);
    let fd = |s: (Seq<char>, DigestView)| subdir_wire(s);
    let fs = |s: (Seq<char>, Seq<char>)| pair_wire(s);
    let (a1, a2, a3) = (
        a.files.map_values(ff),
        a.directories.map_values(fd),
        a.symlinks.map_values(fs),
    );
    let (b1, b2, b3) = (
        b.files.map_values(ff),
        b.directories.map_values(fd),
        b.symlinks.map_values(fs),
    );
    lemma_three_repeated(a1, a2, a3);
    lemma_three_repeated(b1, b2, b3);
    let rest_a = bytes_fields(2, a2) + bytes_fields(3, a3);
    let rest_b = bytes_fields(2, b2) + bytes_fields(3, b3);
    lemma_first_group(bytes_fields(1, a1), rest_a, bytes_fields(1, b1), rest_b, 1);
    lemma_first_group(
        bytes_fields(2, a2),
        bytes_fields(3, a3),
        bytes_fields(2, b2),
        bytes_fields(3, b3),
        2,
    );
    lemma_same_items(1, a1, b1);
    lemma_same_items(2, a2, b2);
    lemma_same_items(3, a3, b3);
    assert(a1.len() == a.files.len() && b1.len() == b.files.len());
    assert forall|i: int| 0 <= i < a.files.len() implies a.files[i] == b.files[i] by {
        lemma_item_len(1, a1, i);
        assert(a1[i] == file_wire(a.files[i]) && b1[i] == file_wire(b.files[i]));
        files_are_told_apart(a.files[i], b.files[i]);
    }
    assert(a.files =~= b.files);
    assert(a2.len() == a.directories.len() && b2.len() == b.directories.len());
    assert forall|i: int| 0 <= i < a.directories.len() implies a.directories[i]
        == b.directories[i] by {
        lemma_item_len(2, a2, i);
        assert(a2[i] == subdir_wire(a.directories[i]) && b2[i] == subdir_wire(b.directories[i]));
        subdirs_are_told_apart(a.directories[i], b.directories[i]);
    }
    assert(a.directories =~= b.directories);
    lemma_same_pairs(3, a.symlinks, b.symlinks);
}

proof fn lemma_three_repeated(a: Seq<Seq<u8>>, b: Seq<Seq<u8>>, c: Seq<Seq<u8>>)
    requires
        (repeated(1, a) + repeated(2, b) + repeated(3, c)).len() <= u64::MAX,
    ensures
        fields_of(repeated(1, a) + repeated(2, b) + repeated(3, c)) == Some(
            bytes_fields(1, a) + (bytes_fields(2, b) + bytes_fields(3, c)),
        ),
{
    let none = Seq::<u8>::empty();
    let (x, y, z) = (repeated(1, a), repeated(2, b), repeated(3, c));
    assert(x + y + z =~= x + (y + z));
    lemma_repeated(1, a, y + z);
    lemma_repeated(2, b, z);
    lemma_repeated(3, c, none);
    assert(z + none =~= z);
    lemma_end(bytes_fields(3, c));
}

/// Different platforms have different encodings.
pub proof fn platforms_are_told_apart(
    a: Seq<(Seq<char>, Seq<char>)>,
    b: Seq<(Seq<char>, Seq<char>)>,
)
    requires
        platform_wire(a) == platform_wire(b),
        platform_wire(a).len() <= u64::MAX,
    ensures
        a == b,
{
    let f = |p: (Seq<char>, Seq<char>)| pair_wire(p);
    let none = Seq::<u8>::empty();
    let (x, y) = (a.map_values(f), b.map_values(f));
    lemma_repeated(1, x, none);
    lemma_repeated(1, y, none);
    assert(platform_wire(a) + none =~= platform_wire(a));
    assert(platform_wire(b) + none =~= platform_wire(b));
    lemma_end(bytes_fields(1, x));
    lemma_end(bytes_fields(1, y));
    lemma_same_items(1, x, y);
    lemma_same_pairs(1, a, b);
}

/// The fields of a command.
pub open spec fn command_fields(c: CommandView) -> Fields {
    bytes_fields(1, text_wires(c.arguments)) + (bytes_fields(
        2,
        c.environment_variables.map_values(|p: (Seq<char>, Seq<char>)| pair_wire(p)),
    ) + (seq![(5u32, ValueView::Bytes(platform_wire(c.platform)))] + (text_fields(
        6,
        c.working_directory,
    ) + (bytes_fields(7, text_wires(c.output_paths)) + int_fields(
        9,
        c.output_directory_format as i64,
    )))))
}

proof fn lemma_command_fields(c: CommandView)
    requires
        command_wire(c).len() <= u64::MAX,
    ensures
        fields_of(command_wire(c)) == Some(command_fields(c)),
{
    let none = Seq::<u8>::empty();
    let f = |p: (Seq<char>, Seq<char>)| pair_wire(p);
    let envs = c.environment_variables.map_values(f);
    let a = repeated(1, text_wires(c.arguments));
    let b = repeated(2, envs);
    let d = delimited(5, platform_wire(c.platform));
    let e = text_field(6, c.working_directory);
    let g = repeated(7, text_wires(c.output_paths));
    let h = int_field(9, c.output_directory_format as i64);
    assert(command_wire(c) =~= a + (b + (d + (e + (g + h)))));
    lemma_repeated(1, text_wires(c.arguments), b + (d + (e + (g + h))));
    lemma_repeated(2, envs, d + (e + (g + h)));
    lemma_delimited(5, platform_wire(c.platform), e + (g + h));
    lemma_text_field(6, c.working_directory, g + h);
    lemma_repeated(7, text_wires(c.output_paths), h);
    lemma_int_field(9, c.output_directory_format as i64, none);
    assert(h + none =~= h);
    lemma_end(int_fields(9, c.output_directory_format as i64));
}

/// Different commands have different encodings.
pub proof fn commands_are_told_apart(a: CommandView, b: CommandView)
    requires
        command_wire(a) == command_wire(b),
        command_wire(a).len() <= u64::MAX,
    ensures
        a == b,
{
    let f = |p: (Seq<char>, Seq<char>)| pair_wire(p);
    lemma_command_fields(a);
    lemma_command_fields(b);
    let a6 = int_fields(9, a.output_directory_format as i64);
    let b6 = int_fields(9, b.output_directory_format as i64);
    let a5 = bytes_fields(7, text_wires(a.output_paths));
    let b5 = bytes_fields(7, text_wires(b.output_paths));
    let a4 = text_fields(6, a.working_directory);
    let b4 = text_fields(6, b.working_directory);
    let a3 = seq![(5u32, ValueView::Bytes(platform_wire(a.platform)))];
    let b3 = seq![(5u32, ValueView::Bytes(platform_wire(b.platform)))];
    let a2 = bytes_fields(2, a.environment_variables.map_values(f));
    let b2 = bytes_fields(2, b.environment_variables.map_values(f));
    let a1 = bytes_fields(1, text_wires(a.arguments));
    let b1 = bytes_fields(1, text_wires(b.arguments));
    lemma_first_group(a1, a2 + (a3 + (a4 + (a5 + a6))), b1, b2 + (b3 + (b4 + (b5 + b6))), 1);
    lemma_first_group(a2, a3 + (a4 + (a5 + a6)), b2, b3 + (b4 + (b5 + b6)), 2);
    lemma_first_group(a3, a4 + (a5 + a6), b3, b4 + (b5 + b6), 5);
    lemma_first_group(a4, a5 + a6, b4, b5 + b6, 6);
    lemma_first_group(a5, a6, b5, b6, 7);
    lemma_same_items(1, text_wires(a.arguments), text_wires(b.arguments));
    lemma_same_texts(a.arguments, b.arguments);
    lemma_same_items(
        2,
        a.environment_variables.map_values(f),
        b.environment_variables.map_values(f),
    );
    lemma_same_pairs(2, a.environment_variables, b.environment_variables);
    assert(a3[0] == b3[0]);
    platforms_are_told_apart(a.platform, b.platform);
    lemma_same_text(6, a.working_directory, b.working_directory);
    lemma_same_items(7, text_wires(a.output_paths), text_wires(b.output_paths));
    lemma_same_texts(a.output_paths, b.output_paths);
    lemma_same_int(9, a.output_directory_format as i64, b.output_directory_format as i64);
}

/// The fields of an action.
pub open spec fn action_fields(a: ActionView) -> Fields {
    seq![(1u32, ValueView::Bytes(digest_wire(a.command_digest)))] + (seq![
        (2u32, ValueView::Bytes(digest_wire(a.input_root_digest))),
    ] + (bool_fields(7, a.do_not_cache) + seq![
        (10u32, ValueView::Bytes(platform_wire(a.platform))),
    ]))
}

proof fn lemma_action_fields(a: ActionView)
    requires
        action_wire(a).len() <= u64::MAX,
    ensures
        fields_of(action_wire(a)) == Some(action_fields(a)),
{
    let none = Seq::<u8>::empty();
    let x = delimited(1, digest_wire(a.command_digest));
    let y = delimited(2, digest_wire(a.input_root_digest));
    let z = bool_field(7, a.do_not_cache);
    let w = delimited(10, platform_wire(a.platform));
    assert(action_wire(a) =~= x + (y + (z + w)));
    lemma_delimited(1, digest_wire(a.command_digest), y + (z + w));
    lemma_delimited(2, digest_wire(a.input_root_digest), z + w);
    lemma_bool_field(7, a.do_not_cache, w);
    lemma_delimited(10, platform_wire(a.platform), none);
    assert(w + none =~= w);
    lemma_end(seq![(10u32, ValueView::Bytes(platform_wire(a.platform)))]);
}

/// Different actions have different encodings.
pub proof fn actions_are_told_apart(a: ActionView, b: ActionView)
    requires
        action_wire(a) == action_wire(b),
        action_wire(a).len() <= u64::MAX,
    ensures
        a == b,
{
    lemma_action_fields(a);
    lemma_action_fields(b);
    let a1 = seq![(1u32, ValueView::Bytes(digest_wire(a.command_digest)))];
    let b1 = seq![(1u32, ValueView::Bytes(digest_wire(b.command_digest)))];
    let a2 = seq![(2u32, ValueView::Bytes(digest_wire(a.input_root_digest)))];
    let b2 = seq![(2u32, ValueView::Bytes(digest_wire(b.input_root_digest)))];
    let a3 = bool_fields(7, a.do_not_cache);
    let b3 = bool_fields(7, b.do_not_cache);
    let a4 = seq![(10u32, ValueView::Bytes(platform_wire(a.platform)))];
    let b4 = seq![(10u32, ValueView::Bytes(platform_wire(b.platform)))];
    lemma_first_group(a1, a2 + (a3 + a4), b1, b2 + (b3 + b4), 1);
    lemma_first_group(a2, a3 + a4, b2, b3 + b4, 2);
    lemma_first_group(a3, a4, b3, b4, 7);
    assert(a1[0] == b1[0] && a2[0] == b2[0] && a4[0] == b4[0]);
    digests_are_told_apart(a.command_digest, b.command_digest);
    digests_are_told_apart(a.input_root_digest, b.input_root_digest);
    lemma_same_bool(7, a.do_not_cache, b.do_not_cache);
    platforms_are_told_apart(a.platform, b.platform);
}

/// A directory is written as its files, its directories and its symbolic links, each in a field of
/// its own, in their order.
pub proof fn directory_has_its_fields(d: DirectoryView)
    requires
        directory_wire(d).len() <= u64::MAX,
    ensures
        fields_of(directory_wire(d)) == Some(
            bytes_fields(1, d.files.map_values(|f: (Seq<char>, FileView)| file_wire(f))) + (
            bytes_fields(2, d.directories.map_values(|s: (Seq<char>, DigestView)| subdir_wire(s)))
                + bytes_fields(
                3,
                d.symlinks.map_values(|s: (Seq<char>, Seq<char>)| pair_wire(s)),
            )),
        ),
{
    lemma_three_repeated(
        d.files.map_values(|f: (Seq<char>, FileView)| file_wire(f)),
        d.directories.map_values(|s: (Seq<char>, DigestView)| subdir_wire(s)),
        d.symlinks.map_values(|s: (Seq<char>, Seq<char>)| pair_wire(s)),
    );
}

/// A platform is written as its properties, each in a field of its own, in their order.
pub proof fn platform_has_its_fields(p: Seq<(Seq<char>, Seq<char>)>)
    requires
        platform_wire(p).len() <= u64::MAX,
    ensures
        fields_of(platform_wire(p)) == Some(
            bytes_fields(1, p.map_values(|q: (Seq<char>, Seq<char>)| pair_wire(q))),
        ),
{
    let none = Seq::<u8>::empty();
    let items = p.map_values(|q: (Seq<char>, Seq<char>)| pair_wire(q));
    lemma_repeated(1, items, none);
    assert(platform_wire(p) + none =~= platform_wire(p));
    lemma_end(bytes_fields(1, items));
}

/// A digest is written as its hash and its size.
pub proof fn digest_has_its_fields(d: DigestView)
    requires
        digest_wire(d).len() <= u64::MAX,
    ensures
        fields_of(digest_wire(d)) == Some(text_fields(1, d.hash) + int_fields(2, d.size_bytes)),
{
    let none = Seq::<u8>::empty();
    let n = int_field(2, d.size_bytes);
    lemma_text_field(1, d.hash, n);
    lemma_int_field(2, d.size_bytes, none);
    assert(n + none =~= n);
    lemma_end(int_fields(2, d.size_bytes));
}

/// A name with a value is written as these fields.
pub proof fn pair_has_its_fields(p: (Seq<char>, Seq<char>))
    requires
        pair_wire(p).len() <= u64::MAX,
    ensures
        fields_of(pair_wire(p)) == Some(pair_fields(p)),
{
    lemma_pair_fields(p);
}

/// A file entry is written as these fields.
pub proof fn file_has_its_fields(f: (Seq<char>, FileView))
    requires
        file_wire(f).len() <= u64::MAX,
    ensures
        fields_of(file_wire(f)) == Some(file_fields(f)),
{
    lemma_file_fields(f);
}

/// A directory entry is written as these fields.
pub proof fn subdir_has_its_fields(d: (Seq<char>, DigestView))
    requires
        subdir_wire(d).len() <= u64::MAX,
    ensures
        fields_of(subdir_wire(d)) == Some(subdir_fields(d)),
{
    lemma_subdir_fields(d);
}

/// A command is written as these fields.
pub proof fn command_has_its_fields(c: CommandView)
    requires
        command_wire(c).len() <= u64::MAX,
    ensures
        fields_of(command_wire(c)) == Some(command_fields(c)),
{
    lemma_command_fields(c);
}

/// An action is written as these fields.
pub proof fn action_has_its_fields(a: ActionView)
    requires
        action_wire(a).len() <= u64::MAX,
    ensures
        fields_of(action_wire(a)) == Some(action_fields(a)),
{
    lemma_action_fields(a);
}

} // verus!
