//! Reading encoded messages field by field.
use vstd::prelude::*;
use vstd::utf8::{decode_utf8, valid_utf8};

use crate::digits::{decimal, decimal_text};
use crate::local_path::copy_bytes;
use crate::os_text::from_utf8;
use crate::text::plus;

verus! {

/// How deeply messages and groups may be nested in each other.
pub const NESTING: u32 = 100;

/// Why bytes are no message: the fields in which that showed, the innermost first, each followed by
/// a colon, and what it was.
#[derive(Debug)]
pub struct Malformed {
    pub places: String,
    pub what: String,
}

/// The content of a [`Malformed`].
#[verifier::ext_equal]
pub struct MalformedView {
    pub places: Seq<char>,
    pub what: Seq<char>,
}

impl View for Malformed {
    type V = MalformedView;

    open spec fn view(&self) -> MalformedView {
        MalformedView { places: self.places@, what: self.what@ }
    }
}

/// What is said of bytes that are no message.
pub open spec fn malformed_text(m: MalformedView) -> Seq<char> {
    "failed to decode Protobuf message: "@ + m.places + m.what
}

/// What was found, in no field yet.
pub open spec fn found(what: Seq<char>) -> MalformedView {
    MalformedView { places: seq![], what }
}

/// What was found, in one more field.
pub open spec fn within(m: MalformedView, place: Seq<char>) -> MalformedView {
    MalformedView { places: m.places + place + ": "@, what: m.what }
}

/// What is said of bytes that are no message.
pub fn describe(m: &Malformed) -> (r: String)
    ensures
        r@ == malformed_text(m@),
{
    plus("failed to decode Protobuf message: ", m.places.as_str()).concat(m.what.as_str())
}

/// What was found, in no field yet.
pub fn find(what: &str) -> (r: Malformed)
    ensures
        r@ == found(what@),
{
    let r = Malformed { places: String::new(), what: what.to_owned() };
    assert(r@ =~= found(what@));
    r
}

/// What was found, in one more field.
pub fn locate(m: Malformed, place: &str) -> (r: Malformed)
    ensures
        r@ == within(m@, place@),
{
    let places = plus(m.places.as_str(), place).concat(": ");
    Malformed { places, what: m.what }
}

/// What is read from bytes, and what follows it.
pub type Reading<T> = Result<(T, Seq<u8>), MalformedView>;

/// What is read from the bytes of a field.
pub open spec fn reading_in<T>(place: Seq<char>, r: Reading<T>) -> Reading<T> {
    match r {
        Ok(x) => Ok(x),
        Err(m) => Err(within(m, place)),
    }
}

/// A number at the start of `bytes` in groups of seven bits, the lowest first, and how many bytes
/// it takes: each byte but the last has its highest bit set. There are at most `room` bytes, and
/// the number fits in 64 bits when there are ten.
pub open spec fn number_at(bytes: Seq<u8>, room: nat) -> Option<(nat, nat)>
    decreases room,
{
    if bytes.len() == 0 || room == 0 {
        None
    } else if bytes[0] < 128 {
        if room == 1 && bytes[0] >= 2 {
            None
        } else {
            Some((bytes[0] as nat, 1))
        }
    } else {
        match number_at(bytes.skip(1), (room - 1) as nat) {
            Some((value, used)) => Some(((bytes[0] - 128) as nat + 128 * value, used + 1)),
            None => None,
        }
    }
}

/// The number at the start of `bytes`.
pub open spec fn varint_at(bytes: Seq<u8>) -> Option<(nat, nat)> {
    number_at(bytes, 10)
}

/// `prost::encoding::decode_varint` reads the number at the start of the buffer and moves the
/// buffer behind it, or fails where there is none.
#[verifier::external_body]
fn decode_varint(buf: &mut &[u8]) -> (r: Option<u64>)
    ensures
        match (r, varint_at(old(buf)@)) {
            (Some(value), Some((n, used))) => value == n && final(buf)@ == old(buf)@.skip(
                used as int,
            ),
            (None, None) => true,
            _ => false,
        },
{
    prost::encoding::decode_varint(buf).ok()
}

/// The tag and the kind of the field at the start of `bytes`, and how many bytes they take.
pub open spec fn key_at(bytes: Seq<u8>) -> Option<(nat, nat, nat)> {
    match varint_at(bytes) {
        Some((key, used)) => if key <= u32::MAX && key % 8 <= 5 && key / 8 >= 1 {
            Some((key / 8, key % 8, used))
        } else {
            None
        },
        None => None,
    }
}

/// `prost::encoding::decode_key` reads the tag and the kind of the field at the start of the
/// buffer and moves the buffer behind them, or fails where there are none.
#[verifier::external_body]
fn decode_key(buf: &mut &[u8]) -> (r: Option<(u32, u8)>)
    ensures
        match (r, key_at(old(buf)@)) {
            (Some((tag, kind)), Some((t, k, used))) => tag == t && kind == k && final(buf)@ == old(
                buf,
            )@.skip(used as int),
            (None, None) => true,
            _ => false,
        },
{
    prost::encoding::decode_key(buf).ok().map(|(tag, kind)| (tag, kind as u8))
}

/// A number takes at least one byte and at most all that are there.
pub proof fn lemma_number_at(bytes: Seq<u8>, room: nat)
    ensures
        number_at(bytes, room) matches Some((_, used)) ==> 1 <= used <= bytes.len(),
    decreases room,
{
    if bytes.len() > 0 && room > 0 && bytes[0] >= 128 {
        lemma_number_at(bytes.skip(1), (room - 1) as nat);
    }
}

/// Why there is no tag and kind at the start of `bytes`.
pub open spec fn key_fault(bytes: Seq<u8>) -> Seq<char> {
    match varint_at(bytes) {
        Some((key, _)) => if key > u32::MAX {
            "invalid key value: "@ + decimal(key)
        } else if key % 8 > 5 {
            "invalid wire type value: "@ + decimal(key % 8)
        } else {
            "invalid tag value: 0"@
        },
        None => "invalid varint"@,
    }
}

/// The tag and the kind of the field at the start of `bytes`.
pub open spec fn key_read(bytes: Seq<u8>) -> Reading<(u32, u8)> {
    match key_at(bytes) {
        Some((tag, kind, used)) => Ok(((tag as u32, kind as u8), bytes.skip(used as int))),
        None => Err(found(key_fault(bytes))),
    }
}

/// Reads the tag and the kind of a field.
pub fn read_key(buf: &mut &[u8]) -> (r: Result<(u32, u8), Malformed>)
    ensures
        match (r, key_read(old(buf)@)) {
            (Ok(key), Ok((k, rest))) => key == k && final(buf)@ == rest && rest.len() < old(
                buf,
            )@.len(),
            (Err(e), Err(m)) => e@ == m,
            _ => false,
        },
{
    proof {
        lemma_number_at(buf@, 10);
    }
    let mut again: &[u8] = *buf;
    match decode_key(buf) {
        Some(key) => Ok(key),
        None => match decode_varint(&mut again) {
            Some(key) => if key > 0xffff_ffff {
                let what = plus("invalid key value: ", decimal_text(key).as_str());
                Err(find(what.as_str()))
            } else if key % 8 > 5 {
                let what = plus("invalid wire type value: ", decimal_text(key % 8).as_str());
                Err(find(what.as_str()))
            } else {
                Err(find("invalid tag value: 0"))
            },
            None => Err(find("invalid varint")),
        },
    }
}

/// The name of a kind of fields.
pub open spec fn kind_name(kind: u8) -> Seq<char> {
    if kind == 0 {
        "Varint"@
    } else if kind == 1 {
        "SixtyFourBit"@
    } else if kind == 2 {
        "LengthDelimited"@
    } else if kind == 3 {
        "StartGroup"@
    } else if kind == 4 {
        "EndGroup"@
    } else {
        "ThirtyTwoBit"@
    }
}

/// A field is of another kind than it should be.
pub open spec fn wrong_kind(actual: u8, expected: u8) -> MalformedView {
    found(
        "invalid wire type: "@ + kind_name(actual) + " (expected "@ + kind_name(expected) + ")"@,
    )
}

/// The name of a kind of fields.
fn name_of_kind(kind: u8) -> (r: &'static str)
    ensures
        r@ == kind_name(kind),
{
    match kind {
        0 => "Varint",
        1 => "SixtyFourBit",
        2 => "LengthDelimited",
        3 => "StartGroup",
        4 => "EndGroup",
        _ => "ThirtyTwoBit",
    }
}

/// A field is of another kind than it should be.
fn refuse_kind(actual: u8, expected: u8) -> (r: Malformed)
    ensures
        r@ == wrong_kind(actual, expected),
{
    let what = plus("invalid wire type: ", name_of_kind(actual)).concat(" (expected ").concat(
        name_of_kind(expected),
    ).concat(")");
    find(what.as_str())
}

/// The number at the start of `bytes`, in a field of the given kind.
pub open spec fn number_read(kind: u8, bytes: Seq<u8>) -> Reading<u64> {
    if kind != 0 {
        Err(wrong_kind(kind, 0))
    } else {
        match varint_at(bytes) {
            Some((n, used)) => Ok((n as u64, bytes.skip(used as int))),
            None => Err(found("invalid varint"@)),
        }
    }
}

/// Reads the number in a field.
pub fn read_number(kind: u8, buf: &mut &[u8]) -> (r: Result<u64, Malformed>)
    ensures
        match (r, number_read(kind, old(buf)@)) {
            (Ok(n), Ok((v, rest))) => n == v && final(buf)@ == rest && rest.len() <= old(
                buf,
            )@.len(),
            (Err(e), Err(m)) => e@ == m,
            _ => false,
        },
{
    proof {
        lemma_number_at(buf@, 10);
    }
    if kind != 0 {
        return Err(refuse_kind(kind, 0));
    }
    match decode_varint(buf) {
        Some(n) => Ok(n),
        None => Err(find("invalid varint")),
    }
}

/// What follows the length at the start of `bytes`, and the length: there are so many bytes.
pub open spec fn length_read(bytes: Seq<u8>) -> Reading<nat> {
    match varint_at(bytes) {
        Some((n, used)) => {
            let rest = bytes.skip(used as int);
            if n <= rest.len() {
                Ok((n, rest))
            } else {
                Err(found("buffer underflow"@))
            }
        },
        None => Err(found("invalid varint"@)),
    }
}

/// Reads a length.
fn read_length(buf: &mut &[u8]) -> (r: Result<usize, Malformed>)
    ensures
        match (r, length_read(old(buf)@)) {
            (Ok(n), Ok((v, rest))) => n == v && final(buf)@ == rest && n <= rest.len() && rest.len()
                <= old(buf)@.len(),
            (Err(e), Err(m)) => e@ == m,
            _ => false,
        },
{
    proof {
        lemma_number_at(buf@, 10);
    }
    match decode_varint(buf) {
        Some(n) => if n <= buf.len() as u64 {
            Ok(n as usize)
        } else {
            Err(find("buffer underflow"))
        },
        None => Err(find("invalid varint")),
    }
}

/// The bytes at the start of `bytes`, in a field of the given kind.
pub open spec fn bytes_read(kind: u8, bytes: Seq<u8>) -> Reading<Seq<u8>> {
    if kind != 2 {
        Err(wrong_kind(kind, 2))
    } else {
        match length_read(bytes) {
            Ok((n, rest)) => Ok((rest.take(n as int), rest.skip(n as int))),
            Err(m) => Err(m),
        }
    }
}

/// Reads the bytes in a field.
pub fn read_bytes(kind: u8, buf: &mut &[u8]) -> (r: Result<Vec<u8>, Malformed>)
    ensures
        match (r, bytes_read(kind, old(buf)@)) {
            (Ok(b), Ok((v, rest))) => b@ == v && final(buf)@ == rest && rest.len() <= old(
                buf,
            )@.len(),
            (Err(e), Err(m)) => e@ == m,
            _ => false,
        },
{
    if kind != 2 {
        return Err(refuse_kind(kind, 2));
    }
    match read_length(buf) {
        Ok(n) => {
            let value = first_of(*buf, n);
            *buf = rest_of(*buf, n);
            Ok(value)
        },
        Err(e) => Err(e),
    }
}

/// The text at the start of `bytes`, in a field of the given kind.
pub open spec fn text_read(kind: u8, bytes: Seq<u8>) -> Reading<Seq<char>> {
    match bytes_read(kind, bytes) {
        Ok((b, rest)) => if valid_utf8(b) {
            Ok((decode_utf8(b), rest))
        } else {
            Err(found("invalid string value: data is not UTF-8 encoded"@))
        },
        Err(m) => Err(m),
    }
}

/// Reads the text in a field.
pub fn read_text(kind: u8, buf: &mut &[u8]) -> (r: Result<String, Malformed>)
    ensures
        match (r, text_read(kind, old(buf)@)) {
            (Ok(s), Ok((v, rest))) => s@ == v && final(buf)@ == rest && rest.len() <= old(
                buf,
            )@.len(),
            (Err(e), Err(m)) => e@ == m,
            _ => false,
        },
{
    match read_bytes(kind, buf) {
        Ok(b) => match from_utf8(b.as_slice()) {
            Some(s) => Ok(s),
            None => Err(find("invalid string value: data is not UTF-8 encoded")),
        },
        Err(e) => Err(e),
    }
}

/// The start of a message in a field of the given kind: how many bytes are left behind it. There
/// must be room for one more message in the others.
pub open spec fn start_read(kind: u8, bytes: Seq<u8>, budget: nat) -> Reading<nat> {
    if kind != 2 {
        Err(wrong_kind(kind, 2))
    } else if budget == 0 {
        Err(found("recursion limit reached"@))
    } else {
        match length_read(bytes) {
            Ok((n, rest)) => Ok(((rest.len() - n) as nat, rest)),
            Err(m) => Err(m),
        }
    }
}

/// Reads the start of a message in a field.
pub fn read_start(kind: u8, buf: &mut &[u8], budget: u32) -> (r: Result<usize, Malformed>)
    ensures
        match (r, start_read(kind, old(buf)@, budget as nat)) {
            (Ok(n), Ok((v, rest))) => n == v && final(buf)@ == rest && n <= rest.len() && rest.len()
                <= old(buf)@.len(),
            (Err(e), Err(m)) => e@ == m,
            _ => false,
        },
        r is Ok ==> budget > 0,
{
    if kind != 2 {
        return Err(refuse_kind(kind, 2));
    }
    if budget == 0 {
        return Err(find("recursion limit reached"));
    }
    match read_length(buf) {
        Ok(n) => Ok(buf.len() - n),
        Err(e) => Err(e),
    }
}

/// The end of a message: so many bytes are left.
pub open spec fn end_read<T>(x: T, bytes: Seq<u8>, limit: nat) -> Reading<T> {
    if bytes.len() == limit {
        Ok((x, bytes))
    } else {
        Err(found("delimited length exceeded"@))
    }
}

/// What follows so many bytes.
pub open spec fn after_bytes(n: nat, bytes: Seq<u8>) -> Result<Seq<u8>, MalformedView> {
    if n <= bytes.len() {
        Ok(bytes.skip(n as int))
    } else {
        Err(found("buffer underflow"@))
    }
}

/// What follows the value of a field that has no meaning here.
pub open spec fn after_value(tag: u32, kind: u8, bytes: Seq<u8>, budget: nat) -> Result<
    Seq<u8>,
    MalformedView,
>
    decreases budget, 0nat,
{
    if budget == 0 {
        Err(found("recursion limit reached"@))
    } else if kind == 0 {
        match number_read(0, bytes) {
            Ok((_, rest)) => Ok(rest),
            Err(m) => Err(m),
        }
    } else if kind == 1 {
        after_bytes(8, bytes)
    } else if kind == 2 {
        match length_read(bytes) {
            Ok((n, rest)) => Ok(rest.skip(n as int)),
            Err(m) => Err(m),
        }
    } else if kind == 3 {
        after_group(tag, bytes, (budget - 1) as nat)
    } else if kind == 4 {
        Err(found("unexpected end group tag"@))
    } else {
        after_bytes(4, bytes)
    }
}

/// What follows the end of the group with this tag, of whose content `bytes` is what is left.
pub open spec fn after_group(tag: u32, bytes: Seq<u8>, budget: nat) -> Result<
    Seq<u8>,
    MalformedView,
>
    decreases budget, bytes.len() + 1,
{
    match key_read(bytes) {
        Err(m) => Err(m),
        Ok(((inner, kind), rest)) => if kind == 4 {
            if inner == tag {
                Ok(rest)
            } else {
                Err(found("unexpected end group tag"@))
            }
        } else {
            match after_value(inner, kind, rest, budget) {
                Err(m) => Err(m),
                Ok(later) => if later.len() < bytes.len() {
                    after_group(tag, later, budget)
                } else {
                    Err(found("buffer underflow"@))
                },
            }
        },
    }
}

/// Passes over bytes.
fn skip_bytes(n: usize, buf: &mut &[u8]) -> (r: Result<(), Malformed>)
    ensures
        match (r, after_bytes(n as nat, old(buf)@)) {
            (Ok(_), Ok(rest)) => final(buf)@ == rest && rest.len() <= old(buf)@.len(),
            (Err(e), Err(m)) => e@ == m,
            _ => false,
        },
{
    if n <= buf.len() {
        *buf = rest_of(*buf, n);
        Ok(())
    } else {
        Err(find("buffer underflow"))
    }
}

/// Passes over the value of a field that has no meaning here. `prost::encoding::skip_field` does
/// that for a field outside all others only: nothing but prost itself can tell it how deep a field
/// is nested, and so how much room is left.
pub fn skip_value(tag: u32, kind: u8, buf: &mut &[u8], budget: u32) -> (r: Result<(), Malformed>)
    ensures
        match (r, after_value(tag, kind, old(buf)@, budget as nat)) {
            (Ok(_), Ok(rest)) => final(buf)@ == rest && rest.len() <= old(buf)@.len(),
            (Err(e), Err(m)) => e@ == m,
            _ => false,
        },
    decreases budget, 0nat,
{
    if budget == 0 {
        return Err(find("recursion limit reached"));
    }
    match kind {
        0 => match read_number(0, buf) {
            Ok(_) => Ok(()),
            Err(e) => Err(e),
        },
        1 => skip_bytes(8, buf),
        2 => match read_length(buf) {
            Ok(n) => {
                *buf = rest_of(*buf, n);
                Ok(())
            },
            Err(e) => Err(e),
        },
        3 => skip_group(tag, buf, budget - 1),
        4 => Err(find("unexpected end group tag")),
        _ => skip_bytes(4, buf),
    }
}

/// Passes over a group.
fn skip_group(tag: u32, buf: &mut &[u8], budget: u32) -> (r: Result<(), Malformed>)
    ensures
        match (r, after_group(tag, old(buf)@, budget as nat)) {
            (Ok(_), Ok(rest)) => final(buf)@ == rest && rest.len() <= old(buf)@.len(),
            (Err(e), Err(m)) => e@ == m,
            _ => false,
        },
    decreases budget, 1nat,
{
    let ghost start = buf@;
    loop
        invariant
            buf@.len() <= start.len(),
            start == old(buf)@,
            after_group(tag, start, budget as nat) == after_group(tag, buf@, budget as nat),
        decreases buf@.len(),
    {
        proof {
            lemma_number_at(buf@, 10);
        }
        let (inner, kind) = match read_key(buf) {
            Ok(key) => key,
            Err(e) => {
                return Err(e);
            },
        };
        if kind == 4 {
            if inner == tag {
                return Ok(());
            }
            return Err(find("unexpected end group tag"));
        }
        if let Err(e) = skip_value(inner, kind, buf, budget) {
            return Err(e);
        }
    }
}

/// The first bytes.
fn first_of(bytes: &[u8], n: usize) -> (r: Vec<u8>)
    requires
        n <= bytes@.len(),
    ensures
        r@ == bytes@.take(n as int),
{
    let r = copy_bytes(vstd::slice::slice_subrange(bytes, 0, n));
    assert(r@ =~= bytes@.take(n as int));
    r
}

/// All but the first bytes.
fn rest_of(bytes: &[u8], n: usize) -> (r: &[u8])
    requires
        n <= bytes@.len(),
    ensures
        r@ == bytes@.skip(n as int),
{
    let r = vstd::slice::slice_subrange(bytes, n, bytes.len());
    assert(r@ =~= bytes@.skip(n as int));
    r
}

} // verus!
