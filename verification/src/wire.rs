//! The protobuf wire format, as far as messages are written.
use vstd::prelude::*;
use vstd::utf8::encode_utf8;

verus! {

/// The largest field number.
pub const MAX_TAG: u32 = 0x1fff_ffff;

/// A number in groups of seven bits, the lowest first, each group but the last marked.
pub open spec fn varint(n: nat) -> Seq<u8>
    decreases n,
{
    if n < 128 {
        seq![n as u8]
    } else {
        seq![(n % 128 + 128) as u8] + varint(n / 128)
    }
}

/// The key of a field: its number and the wire type of its value.
pub open spec fn field_key(tag: nat, wire_type: nat) -> Seq<u8> {
    varint(tag * 8 + wire_type)
}

/// A field whose value is a number.
pub open spec fn number(tag: nat, value: u64) -> Seq<u8> {
    field_key(tag, 0) + varint(value as nat)
}

/// A field whose value is a run of bytes, preceded by its length.
pub open spec fn delimited(tag: nat, bytes: Seq<u8>) -> Seq<u8> {
    field_key(tag, 2) + varint(bytes.len()) + bytes
}

/// A text field: an empty text is not written.
pub open spec fn text_field(tag: nat, s: Seq<char>) -> Seq<u8> {
    if s.len() == 0 {
        seq![]
    } else {
        delimited(tag, encode_utf8(s))
    }
}

/// A number field: zero is not written, and a negative number is written in two's complement.
pub open spec fn int_field(tag: nat, value: i64) -> Seq<u8> {
    if value == 0 {
        seq![]
    } else {
        number(tag, value as u64)
    }
}

/// A truth value: `false` is not written.
pub open spec fn bool_field(tag: nat, value: bool) -> Seq<u8> {
    if value {
        number(tag, 1)
    } else {
        seq![]
    }
}

/// A field that occurs once for each of `items`.
pub open spec fn repeated(tag: nat, items: Seq<Seq<u8>>) -> Seq<u8>
    decreases items.len(),
{
    if items.len() == 0 {
        seq![]
    } else {
        repeated(tag, items.drop_last()) + delimited(tag, items.last())
    }
}

/// `prost::encoding::string::encode` writes the key, the length in bytes, and the UTF-8 bytes of
/// the text.
#[verifier::external_body]
fn encode_string(tag: u32, value: &String, buf: &mut Vec<u8>)
    requires
        1 <= tag <= MAX_TAG,
    ensures
        final(buf)@ == old(buf)@ + delimited(tag as nat, encode_utf8(value@)),
{
    prost::encoding::string::encode(tag, value, buf)
}

/// `prost::encoding::bytes::encode` writes the key, the length, and the bytes.
#[verifier::external_body]
fn encode_bytes(tag: u32, value: &Vec<u8>, buf: &mut Vec<u8>)
    requires
        1 <= tag <= MAX_TAG,
    ensures
        final(buf)@ == old(buf)@ + delimited(tag as nat, value@),
{
    prost::encoding::bytes::encode(tag, value, buf)
}

/// `prost::encoding::int64::encode` writes the key and the value as an unsigned number in two's
/// complement.
#[verifier::external_body]
fn encode_int64(tag: u32, value: i64, buf: &mut Vec<u8>)
    requires
        1 <= tag <= MAX_TAG,
    ensures
        final(buf)@ == old(buf)@ + number(tag as nat, value as u64),
{
    prost::encoding::int64::encode(tag, &value, buf)
}

/// `prost::encoding::bool::encode` writes the key and then one for `true` and zero for `false`.
#[verifier::external_body]
fn encode_bool(tag: u32, value: bool, buf: &mut Vec<u8>)
    requires
        1 <= tag <= MAX_TAG,
    ensures
        final(buf)@ == old(buf)@ + number(
            tag as nat,
            if value {
                1
            } else {
                0
            },
        ),
{
    prost::encoding::bool::encode(tag, &value, buf)
}

/// Writes a text field.
pub fn put_text(tag: u32, value: &String, buf: &mut Vec<u8>)
    requires
        1 <= tag <= MAX_TAG,
    ensures
        final(buf)@ == old(buf)@ + text_field(tag as nat, value@),
{
    if value.as_str().is_empty() {
        assert(buf@ =~= buf@ + Seq::<u8>::empty());
    } else {
        encode_string(tag, value, buf);
    }
}

/// Writes one occurrence of a repeated text field.
pub fn put_repeated_text(tag: u32, value: &String, buf: &mut Vec<u8>)
    requires
        1 <= tag <= MAX_TAG,
    ensures
        final(buf)@ == old(buf)@ + delimited(tag as nat, encode_utf8(value@)),
{
    encode_string(tag, value, buf);
}

/// Writes a message field, given the message's own bytes.
pub fn put_message(tag: u32, value: &Vec<u8>, buf: &mut Vec<u8>)
    requires
        1 <= tag <= MAX_TAG,
    ensures
        final(buf)@ == old(buf)@ + delimited(tag as nat, value@),
{
    encode_bytes(tag, value, buf);
}

/// Writes a number field.
pub fn put_int(tag: u32, value: i64, buf: &mut Vec<u8>)
    requires
        1 <= tag <= MAX_TAG,
    ensures
        final(buf)@ == old(buf)@ + int_field(tag as nat, value),
{
    if value == 0 {
        assert(buf@ =~= buf@ + Seq::<u8>::empty());
    } else {
        encode_int64(tag, value, buf);
    }
}

/// Writes a truth value field.
pub fn put_bool(tag: u32, value: bool, buf: &mut Vec<u8>)
    requires
        1 <= tag <= MAX_TAG,
    ensures
        final(buf)@ == old(buf)@ + bool_field(tag as nat, value),
{
    if value {
        encode_bool(tag, value, buf);
    } else {
        assert(buf@ =~= buf@ + Seq::<u8>::empty());
    }
}

} // verus!
