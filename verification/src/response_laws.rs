//! An answer that was written is read back whole.
use vstd::prelude::*;
use vstd::utf8::{encode_utf8, encode_utf8_decode_utf8, encode_utf8_valid_utf8, valid_utf8};

use crate::digest::DigestView;
use crate::digits::decimal;
use crate::error::{failure_by, ErrorView};
use crate::fields::{
    after_group, after_value, bytes_read, key_read, start_read, text_read, within, wrong_kind,
    MalformedView, Reading, NESTING,
};
use crate::messages::digest_wire;
use crate::response::{
    digest_field_read, digest_fields_read, empty_digest, empty_file, empty_response, empty_result,
    empty_status, empty_symlink, file_field_read, file_fields_read, response_field_read,
    response_fields_read, response_of, result_field_read, result_fields_read, status_field_read,
    status_fields_read, symlink_field_read, symlink_fields_read, ActionResultView,
    ExecuteResponseView, OutputFileView, OutputSymlinkView,
};
use crate::transfer::StatusView;
use crate::wire::{
    bool_field, delimited, field_key, int_field, number, repeated, text_field, varint, MAX_TAG,
};
use crate::wire_laws::{digest_is_read_back, lemma_number_is_read, lemma_varint_at};

verus! {

/// A field of bytes: none are not written.
pub open spec fn bytes_field(tag: nat, bytes: Seq<u8>) -> Seq<u8> {
    if bytes.len() == 0 {
        seq![]
    } else {
        delimited(tag, bytes)
    }
}

/// A field with a message, where there is one.
pub open spec fn message_field(tag: nat, message: Option<Seq<u8>>) -> Seq<u8> {
    match message {
        Some(bytes) => delimited(tag, bytes),
        None => seq![],
    }
}

/// A digest that need not be there, as bytes.
pub open spec fn some_digest_wire(d: Option<DigestView>) -> Option<Seq<u8>> {
    match d {
        Some(d) => Some(digest_wire(d)),
        None => None,
    }
}

/// A status as bytes.
pub open spec fn status_wire(x: StatusView) -> Seq<u8> {
    int_field(1, x.code as i64) + text_field(2, x.message)
}

/// A file that an execution wrote, as bytes.
pub open spec fn output_file_wire(x: OutputFileView) -> Seq<u8> {
    text_field(1, x.path) + message_field(2, some_digest_wire(x.digest)) + bool_field(
        4,
        x.is_executable,
    ) + bytes_field(5, x.contents)
}

/// A symbolic link that an execution wrote, as bytes.
pub open spec fn output_symlink_wire(x: OutputSymlinkView) -> Seq<u8> {
    text_field(1, x.path) + text_field(2, x.target)
}

/// Several files, as bytes.
pub open spec fn output_file_wires(s: Seq<OutputFileView>) -> Seq<Seq<u8>> {
    s.map_values(|f: OutputFileView| output_file_wire(f))
}

/// Several symbolic links, as bytes.
pub open spec fn output_symlink_wires(s: Seq<OutputSymlinkView>) -> Seq<Seq<u8>> {
    s.map_values(|l: OutputSymlinkView| output_symlink_wire(l))
}

/// A result as bytes.
pub open spec fn result_wire(x: ActionResultView) -> Seq<u8> {
    repeated(2, output_file_wires(x.output_files)) + int_field(4, x.exit_code as i64) + bytes_field(
        5,
        x.stdout_raw,
    ) + message_field(6, some_digest_wire(x.stdout_digest)) + bytes_field(7, x.stderr_raw)
        + message_field(8, some_digest_wire(x.stderr_digest)) + repeated(
        12,
        output_symlink_wires(x.output_symlinks),
    )
}

/// An answer as bytes.
pub open spec fn response_wire(x: ExecuteResponseView) -> Seq<u8> {
    message_field(
        1,
        match x.result {
            Some(result) => Some(result_wire(result)),
            None => None,
        },
    ) + message_field(
        3,
        match x.status {
            Some(status) => Some(status_wire(status)),
            None => None,
        },
    )
}

/// A field of bytes that was written is read back, whatever follows it, and passed over where it
/// has no meaning.
proof fn lemma_bytes_are_read(tag: u32, bytes: Seq<u8>, rest: Seq<u8>, budget: nat)
    requires
        1 <= tag <= MAX_TAG,
        bytes.len() <= u64::MAX,
        budget > 0,
    ensures
        key_read(delimited(tag as nat, bytes) + rest) == Ok::<((u32, u8), Seq<u8>), MalformedView>(
            ((tag, 2), varint(bytes.len()) + bytes + rest),
        ),
        bytes_read(2, varint(bytes.len()) + bytes + rest) == Ok::<
            (Seq<u8>, Seq<u8>),
            MalformedView,
        >(
            (bytes, rest),
        ),
        start_read(2, varint(bytes.len()) + bytes + rest, budget) == Ok::<
            (nat, Seq<u8>),
            MalformedView,
        >((rest.len(), bytes + rest)),
        after_value(tag, 2, varint(bytes.len()) + bytes + rest, budget) == Ok::<
            Seq<u8>,
            MalformedView,
        >(rest),
        rest.len() < (delimited(tag as nat, bytes) + rest).len(),
{
    let key = tag as nat * 8 + 2;
    let all = delimited(tag as nat, bytes) + rest;
    let tail = varint(bytes.len()) + bytes + rest;
    assert(all =~= varint(key) + tail);
    lemma_varint_at(key, tail);
    assert(tail =~= varint(bytes.len()) + (bytes + rest));
    lemma_varint_at(bytes.len(), bytes + rest);
    assert((bytes + rest).take(bytes.len() as int) =~= bytes);
    assert((bytes + rest).skip(bytes.len() as int) =~= rest);
}

/// A text that was written is read back, whatever follows it.
proof fn lemma_text_read(s: Seq<char>, rest: Seq<u8>)
    requires
        encode_utf8(s).len() <= u64::MAX,
    ensures
        text_read(2, varint(encode_utf8(s).len()) + encode_utf8(s) + rest) == Ok::<
            (Seq<char>, Seq<u8>),
            MalformedView,
        >((s, rest)),
{
    lemma_bytes_are_read(1, encode_utf8(s), rest, 1);
    encode_utf8_valid_utf8(s);
    encode_utf8_decode_utf8(s);
}

/// The key of a field is read, whatever its kind.
proof fn lemma_key_is_read(tag: u32, kind: u8, rest: Seq<u8>)
    requires
        1 <= tag <= MAX_TAG,
        kind <= 5,
    ensures
        key_read(field_key(tag as nat, kind as nat) + rest) == Ok::<
            ((u32, u8), Seq<u8>),
            MalformedView,
        >(((tag, kind), rest)),
        rest.len() < (field_key(tag as nat, kind as nat) + rest).len(),
{
    lemma_varint_at(tag as nat * 8 + kind as nat, rest);
}

/// Bytes of a fixed number, and groups, are passed over where they have no meaning.
proof fn lemma_others_are_passed(
    tag: u32,
    inner: u32,
    value: u64,
    bytes: Seq<u8>,
    rest: Seq<u8>,
    budget: nat,
)
    requires
        1 <= tag <= MAX_TAG,
        1 <= inner <= MAX_TAG,
        budget > 1,
    ensures
        bytes.len() == 8 ==> after_value(tag, 1, bytes + rest, budget) == Ok::<
            Seq<u8>,
            MalformedView,
        >(rest),
        bytes.len() == 4 ==> after_value(tag, 5, bytes + rest, budget) == Ok::<
            Seq<u8>,
            MalformedView,
        >(rest),
        after_value(tag, 3, field_key(tag as nat, 4) + rest, budget) == Ok::<
            Seq<u8>,
            MalformedView,
        >(rest),
        after_value(
            tag,
            3,
            number(inner as nat, value) + (field_key(tag as nat, 4) + rest),
            budget,
        ) == Ok::<Seq<u8>, MalformedView>(rest),
{
    assert((bytes + rest).skip(bytes.len() as int) =~= rest);
    let end = field_key(tag as nat, 4) + rest;
    lemma_key_is_read(tag, 4, rest);
    lemma_number_is_read(inner, value, end);
    lemma_number_is_passed(inner, value, end, (budget - 1) as nat);
    assert(after_group(tag, end, (budget - 1) as nat) == Ok::<Seq<u8>, MalformedView>(rest));
}

/// The name of a kind of fields.
pub open spec fn kind_text(kind: u8) -> Seq<char> {
    if kind == 0 {
        "Varint"@
    } else if kind == 1 {
        "SixtyFourBit"@
    } else if kind == 2 {
        "LengthDelimited"@
    } else if kind == 3 {
        "StartGroup"@
    } else if kind == 4 {
        "EndGroup"@
    } else {
        "ThirtyTwoBit"@
    }
}

/// What is said of a field of another kind than it should be.
pub open spec fn other_kind(kind: u8, expected: u8) -> Seq<char> {
    "invalid wire type: "@ + kind_text(kind) + " (expected "@ + kind_text(expected) + ")"@
}

/// A reading that found this, in these fields.
pub open spec fn broken<T>(places: Seq<char>, what: Seq<char>) -> Reading<T> {
    Err(MalformedView { places, what })
}

proof fn lemma_wrong_kind(kind: u8, expected: u8)
    ensures
        wrong_kind(kind, expected) == (MalformedView {
            places: seq![],
            what: other_kind(kind, expected),
        }),
{
}

proof fn lemma_located(place: Seq<char>, what: Seq<char>)
    ensures
        within(MalformedView { places: seq![], what }, place) == (MalformedView {
            places: place + ": "@,
            what,
        }),
{
    assert(seq![] + place + ": "@ =~= place + ": "@);
}

/// A number is passed over where it has no meaning.
proof fn lemma_number_is_passed(tag: u32, value: u64, rest: Seq<u8>, budget: nat)
    requires
        1 <= tag <= MAX_TAG,
        budget > 0,
    ensures
        after_value(tag, 0, varint(value as nat) + rest, budget) == Ok::<Seq<u8>, MalformedView>(
            rest,
        ),
{
    lemma_number_is_read(tag, value, rest);
}

proof fn lemma_small_number(value: i32)
    ensures
        ((value as i64) as u64) as i32 == value,
        value != 0 ==> value as i64 != 0,
        value == 0 ==> value as i64 == 0,
{
    assert(((value as i64) as u64) as i32 == value) by (bit_vector);
}

/// A digest with a field `hash` has its value, and what follows is read.
pub proof fn digest_takes_hash(
    x: DigestView,
    value: Seq<char>,
    rest: Seq<u8>,
    limit: nat,
    budget: nat,
)
    requires
        encode_utf8(value).len() <= u64::MAX,
        limit <= rest.len(),
    ensures
        digest_fields_read(
            x,
            delimited(1, encode_utf8(value)) + rest,
            limit,
            budget,
        ) == digest_fields_read(
            DigestView { hash: value, ..x },
            rest,
            limit,
            budget,
        ),
{
    lemma_bytes_are_read(1, encode_utf8(value), rest, 1);
    lemma_text_read(value, rest);
    assert(digest_field_read(
        x,
        1,
        2,
        varint(encode_utf8(value).len()) + encode_utf8(value) + rest,
        budget,
    ) == Ok::<(DigestView, Seq<u8>), MalformedView>((DigestView { hash: value, ..x }, rest)));
}

/// A digest with a field `size_bytes` has its value, and what follows is read.
pub proof fn digest_takes_size_bytes(
    x: DigestView,
    value: u64,
    rest: Seq<u8>,
    limit: nat,
    budget: nat,
)
    requires
        limit <= rest.len(),
    ensures
        digest_fields_read(x, number(2, value) + rest, limit, budget) == digest_fields_read(
            DigestView { size_bytes: value as i64, ..x },
            rest,
            limit,
            budget,
        ),
{
    lemma_number_is_read(2, value, rest);
    assert(digest_field_read(
        x,
        2,
        0,
        varint(value as nat) + rest,
        budget,
    ) == Ok::<(DigestView, Seq<u8>), MalformedView>(
        (DigestView { size_bytes: value as i64, ..x }, rest),
    ));
}

/// A field that has no meaning in a digest changes nothing, whatever its kind.
pub proof fn digest_passes_over_others(
    x: DigestView,
    tag: u32,
    inner: u32,
    bytes: Seq<u8>,
    value: u64,
    rest: Seq<u8>,
    limit: nat,
    budget: nat,
)
    requires
        1 <= tag <= MAX_TAG,
        1 <= inner <= MAX_TAG,
        tag != 1 && tag != 2,
        bytes.len() <= u64::MAX,
        limit <= rest.len(),
        budget > 1,
    ensures
        bytes.len() == 8 ==> digest_fields_read(
            x,
            field_key(tag as nat, 1) + (bytes + rest),
            limit,
            budget,
        ) == digest_fields_read(x, rest, limit, budget),
        bytes.len() == 4 ==> digest_fields_read(
            x,
            field_key(tag as nat, 5) + (bytes + rest),
            limit,
            budget,
        ) == digest_fields_read(x, rest, limit, budget),
        digest_fields_read(
            x,
            field_key(tag as nat, 3) + (field_key(tag as nat, 4) + rest),
            limit,
            budget,
        ) == digest_fields_read(x, rest, limit, budget),
        digest_fields_read(
            x,
            field_key(tag as nat, 3) + (number(inner as nat, value) + (field_key(tag as nat, 4)
                + rest)),
            limit,
            budget,
        ) == digest_fields_read(x, rest, limit, budget),
        digest_fields_read(x, delimited(tag as nat, bytes) + rest, limit, budget)
            == digest_fields_read(x, rest, limit, budget),
        digest_fields_read(x, number(tag as nat, value) + rest, limit, budget)
            == digest_fields_read(x, rest, limit, budget),
{
    lemma_bytes_are_read(tag, bytes, rest, budget);
    lemma_number_is_read(tag, value, rest);
    lemma_number_is_passed(tag, value, rest, budget);
    lemma_others_are_passed(tag, inner, value, bytes, rest, budget);
    let end = field_key(tag as nat, 4) + rest;
    let group = number(inner as nat, value) + end;
    lemma_key_is_read(tag, 1, bytes + rest);
    lemma_key_is_read(tag, 5, bytes + rest);
    lemma_key_is_read(tag, 3, end);
    lemma_key_is_read(tag, 3, group);
    assert(bytes.len() == 8 ==> digest_field_read(
        x,
        tag,
        1,
        bytes + rest,
        budget,
    ) == Ok::<(DigestView, Seq<u8>), MalformedView>((x, rest)));
    assert(bytes.len() == 4 ==> digest_field_read(
        x,
        tag,
        5,
        bytes + rest,
        budget,
    ) == Ok::<(DigestView, Seq<u8>), MalformedView>((x, rest)));
    assert(digest_field_read(x, tag, 3, end, budget) == Ok::<(DigestView, Seq<u8>), MalformedView>(
        (x, rest),
    ));
    assert(digest_field_read(
        x,
        tag,
        3,
        group,
        budget,
    ) == Ok::<(DigestView, Seq<u8>), MalformedView>((x, rest)));
    assert(digest_field_read(
        x,
        tag,
        2,
        varint(bytes.len()) + bytes + rest,
        budget,
    ) == Ok::<(DigestView, Seq<u8>), MalformedView>((x, rest)));
    assert(digest_field_read(
        x,
        tag,
        0,
        varint(value as nat) + rest,
        budget,
    ) == Ok::<(DigestView, Seq<u8>), MalformedView>((x, rest)));
}

/// A digest ends where it says: with so many bytes left it is read, and where it would need more
/// than there are it is refused. The end of a group that was not begun is refused too.
pub proof fn digest_ends_where_it_says(
    x: DigestView,
    tag: u32,
    rest: Seq<u8>,
    limit: nat,
    budget: nat,
)
    requires
        1 <= tag <= MAX_TAG,
        tag != 1 && tag != 2,
    ensures
        digest_fields_read(x, rest, rest.len(), budget) == Ok::<
            (DigestView, Seq<u8>),
            MalformedView,
        >(
            (x, rest),
        ),
        rest.len() < limit ==> digest_fields_read(x, rest, limit, budget) is Err,
        limit <= rest.len() ==> digest_fields_read(
            x,
            field_key(tag as nat, 4) + rest,
            limit,
            budget,
        ) is Err,
{
    lemma_key_is_read(tag, 4, rest);
}

proof fn lemma_digest_places()
    ensures
        "Digest.hash: "@ == "Digest.hash"@ + ": "@,
        "Digest.size_bytes: "@ == "Digest.size_bytes"@ + ": "@,
{
    reveal_strlit(": ");
    reveal_strlit("Digest.hash");
    reveal_strlit("Digest.hash: ");
    assert("Digest.hash: "@ =~= "Digest.hash"@ + ": "@);
    reveal_strlit("Digest.size_bytes");
    reveal_strlit("Digest.size_bytes: ");
    assert("Digest.size_bytes: "@ =~= "Digest.size_bytes"@ + ": "@);
}

/// What is wrong with a broken field `hash` is said with its place.
pub proof fn digest_says_how_hash_is_broken(
    x: DigestView,
    kind: u8,
    n: nat,
    rest: Seq<u8>,
    limit: nat,
    budget: nat,
)
    requires
        kind <= 5,
        n <= u64::MAX,
        limit <= rest.len(),
    ensures
        kind != 2 ==> digest_fields_read(
            x,
            field_key(1, kind as nat) + rest,
            limit,
            budget,
        ) == broken::<DigestView>("Digest.hash: "@, other_kind(kind, 2)),
        rest.len() < n ==> digest_fields_read(
            x,
            field_key(1, 2) + (varint(n) + rest),
            limit,
            budget,
        ) == broken::<DigestView>("Digest.hash: "@, "buffer underflow"@),
        rest.len() >= n && !valid_utf8(rest.take(n as int)) ==> digest_fields_read(
            x,
            field_key(1, 2) + (varint(n) + rest),
            limit,
            budget,
        ) == broken::<DigestView>(
            "Digest.hash: "@,
            "invalid string value: data is not UTF-8 encoded"@,
        ),
{
    lemma_digest_places();
    lemma_key_is_read(1, kind, rest);
    lemma_wrong_kind(kind, 2);
    lemma_located("Digest.hash"@, other_kind(kind, 2));
    lemma_key_is_read(1, 2, varint(n) + rest);
    lemma_varint_at(n, rest);
    lemma_located("Digest.hash"@, "buffer underflow"@);
    lemma_located("Digest.hash"@, "invalid string value: data is not UTF-8 encoded"@);
}

/// What is wrong with a broken field `size_bytes` is said with its place.
pub proof fn digest_says_how_size_bytes_is_broken(
    x: DigestView,
    kind: u8,
    n: nat,
    rest: Seq<u8>,
    limit: nat,
    budget: nat,
)
    requires
        kind <= 5,
        n <= u64::MAX,
        limit <= rest.len(),
    ensures
        kind != 0 ==> digest_fields_read(
            x,
            field_key(2, kind as nat) + rest,
            limit,
            budget,
        ) == broken::<DigestView>("Digest.size_bytes: "@, other_kind(kind, 0)),
{
    lemma_digest_places();
    lemma_key_is_read(2, kind, rest);
    lemma_wrong_kind(kind, 0);
    lemma_located("Digest.size_bytes"@, other_kind(kind, 0));
}

/// A status with a field `code` has its value, and what follows is read.
pub proof fn status_takes_code(x: StatusView, value: u64, rest: Seq<u8>, limit: nat, budget: nat)
    requires
        limit <= rest.len(),
    ensures
        status_fields_read(x, number(1, value) + rest, limit, budget) == status_fields_read(
            StatusView { code: value as i32, ..x },
            rest,
            limit,
            budget,
        ),
{
    lemma_number_is_read(1, value, rest);
    assert(status_field_read(
        x,
        1,
        0,
        varint(value as nat) + rest,
        budget,
    ) == Ok::<(StatusView, Seq<u8>), MalformedView>(
        (StatusView { code: value as i32, ..x }, rest),
    ));
}

/// A status with a field `message` has its value, and what follows is read.
pub proof fn status_takes_message(
    x: StatusView,
    value: Seq<char>,
    rest: Seq<u8>,
    limit: nat,
    budget: nat,
)
    requires
        encode_utf8(value).len() <= u64::MAX,
        limit <= rest.len(),
    ensures
        status_fields_read(
            x,
            delimited(2, encode_utf8(value)) + rest,
            limit,
            budget,
        ) == status_fields_read(
            StatusView { message: value, ..x },
            rest,
            limit,
            budget,
        ),
{
    lemma_bytes_are_read(2, encode_utf8(value), rest, 1);
    lemma_text_read(value, rest);
    assert(status_field_read(
        x,
        2,
        2,
        varint(encode_utf8(value).len()) + encode_utf8(value) + rest,
        budget,
    ) == Ok::<(StatusView, Seq<u8>), MalformedView>((StatusView { message: value, ..x }, rest)));
}

/// A field that has no meaning in a status changes nothing, whatever its kind.
pub proof fn status_passes_over_others(
    x: StatusView,
    tag: u32,
    inner: u32,
    bytes: Seq<u8>,
    value: u64,
    rest: Seq<u8>,
    limit: nat,
    budget: nat,
)
    requires
        1 <= tag <= MAX_TAG,
        1 <= inner <= MAX_TAG,
        tag != 1 && tag != 2,
        bytes.len() <= u64::MAX,
        limit <= rest.len(),
        budget > 1,
    ensures
        bytes.len() == 8 ==> status_fields_read(
            x,
            field_key(tag as nat, 1) + (bytes + rest),
            limit,
            budget,
        ) == status_fields_read(x, rest, limit, budget),
        bytes.len() == 4 ==> status_fields_read(
            x,
            field_key(tag as nat, 5) + (bytes + rest),
            limit,
            budget,
        ) == status_fields_read(x, rest, limit, budget),
        status_fields_read(
            x,
            field_key(tag as nat, 3) + (field_key(tag as nat, 4) + rest),
            limit,
            budget,
        ) == status_fields_read(x, rest, limit, budget),
        status_fields_read(
            x,
            field_key(tag as nat, 3) + (number(inner as nat, value) + (field_key(tag as nat, 4)
                + rest)),
            limit,
            budget,
        ) == status_fields_read(x, rest, limit, budget),
        status_fields_read(x, delimited(tag as nat, bytes) + rest, limit, budget)
            == status_fields_read(x, rest, limit, budget),
        status_fields_read(x, number(tag as nat, value) + rest, limit, budget)
            == status_fields_read(x, rest, limit, budget),
{
    lemma_bytes_are_read(tag, bytes, rest, budget);
    lemma_number_is_read(tag, value, rest);
    lemma_number_is_passed(tag, value, rest, budget);
    lemma_others_are_passed(tag, inner, value, bytes, rest, budget);
    let end = field_key(tag as nat, 4) + rest;
    let group = number(inner as nat, value) + end;
    lemma_key_is_read(tag, 1, bytes + rest);
    lemma_key_is_read(tag, 5, bytes + rest);
    lemma_key_is_read(tag, 3, end);
    lemma_key_is_read(tag, 3, group);
    assert(bytes.len() == 8 ==> status_field_read(
        x,
        tag,
        1,
        bytes + rest,
        budget,
    ) == Ok::<(StatusView, Seq<u8>), MalformedView>((x, rest)));
    assert(bytes.len() == 4 ==> status_field_read(
        x,
        tag,
        5,
        bytes + rest,
        budget,
    ) == Ok::<(StatusView, Seq<u8>), MalformedView>((x, rest)));
    assert(status_field_read(x, tag, 3, end, budget) == Ok::<(StatusView, Seq<u8>), MalformedView>(
        (x, rest),
    ));
    assert(status_field_read(
        x,
        tag,
        3,
        group,
        budget,
    ) == Ok::<(StatusView, Seq<u8>), MalformedView>((x, rest)));
    assert(status_field_read(
        x,
        tag,
        2,
        varint(bytes.len()) + bytes + rest,
        budget,
    ) == Ok::<(StatusView, Seq<u8>), MalformedView>((x, rest)));
    assert(status_field_read(
        x,
        tag,
        0,
        varint(value as nat) + rest,
        budget,
    ) == Ok::<(StatusView, Seq<u8>), MalformedView>((x, rest)));
}

/// A status ends where it says: with so many bytes left it is read, and where it would need more
/// than there are it is refused. The end of a group that was not begun is refused too.
pub proof fn status_ends_where_it_says(
    x: StatusView,
    tag: u32,
    rest: Seq<u8>,
    limit: nat,
    budget: nat,
)
    requires
        1 <= tag <= MAX_TAG,
        tag != 1 && tag != 2,
    ensures
        status_fields_read(x, rest, rest.len(), budget) == Ok::<
            (StatusView, Seq<u8>),
            MalformedView,
        >(
            (x, rest),
        ),
        rest.len() < limit ==> status_fields_read(x, rest, limit, budget) is Err,
        limit <= rest.len() ==> status_fields_read(
            x,
            field_key(tag as nat, 4) + rest,
            limit,
            budget,
        ) is Err,
{
    lemma_key_is_read(tag, 4, rest);
}

proof fn lemma_status_places()
    ensures
        "Status.code: "@ == "Status.code"@ + ": "@,
        "Status.message: "@ == "Status.message"@ + ": "@,
{
    reveal_strlit(": ");
    reveal_strlit("Status.code");
    reveal_strlit("Status.code: ");
    assert("Status.code: "@ =~= "Status.code"@ + ": "@);
    reveal_strlit("Status.message");
    reveal_strlit("Status.message: ");
    assert("Status.message: "@ =~= "Status.message"@ + ": "@);
}

/// What is wrong with a broken field `code` is said with its place.
pub proof fn status_says_how_code_is_broken(
    x: StatusView,
    kind: u8,
    n: nat,
    rest: Seq<u8>,
    limit: nat,
    budget: nat,
)
    requires
        kind <= 5,
        n <= u64::MAX,
        limit <= rest.len(),
    ensures
        kind != 0 ==> status_fields_read(
            x,
            field_key(1, kind as nat) + rest,
            limit,
            budget,
        ) == broken::<StatusView>("Status.code: "@, other_kind(kind, 0)),
{
    lemma_status_places();
    lemma_key_is_read(1, kind, rest);
    lemma_wrong_kind(kind, 0);
    lemma_located("Status.code"@, other_kind(kind, 0));
}

/// What is wrong with a broken field `message` is said with its place.
pub proof fn status_says_how_message_is_broken(
    x: StatusView,
    kind: u8,
    n: nat,
    rest: Seq<u8>,
    limit: nat,
    budget: nat,
)
    requires
        kind <= 5,
        n <= u64::MAX,
        limit <= rest.len(),
    ensures
        kind != 2 ==> status_fields_read(
            x,
            field_key(2, kind as nat) + rest,
            limit,
            budget,
        ) == broken::<StatusView>("Status.message: "@, other_kind(kind, 2)),
        rest.len() < n ==> status_fields_read(
            x,
            field_key(2, 2) + (varint(n) + rest),
            limit,
            budget,
        ) == broken::<StatusView>("Status.message: "@, "buffer underflow"@),
        rest.len() >= n && !valid_utf8(rest.take(n as int)) ==> status_fields_read(
            x,
            field_key(2, 2) + (varint(n) + rest),
            limit,
            budget,
        ) == broken::<StatusView>(
            "Status.message: "@,
            "invalid string value: data is not UTF-8 encoded"@,
        ),
{
    lemma_status_places();
    lemma_key_is_read(2, kind, rest);
    lemma_wrong_kind(kind, 2);
    lemma_located("Status.message"@, other_kind(kind, 2));
    lemma_key_is_read(2, 2, varint(n) + rest);
    lemma_varint_at(n, rest);
    lemma_located("Status.message"@, "buffer underflow"@);
    lemma_located("Status.message"@, "invalid string value: data is not UTF-8 encoded"@);
}

/// A file with a field `path` has its value, and what follows is read.
pub proof fn file_takes_path(
    x: OutputFileView,
    value: Seq<char>,
    rest: Seq<u8>,
    limit: nat,
    budget: nat,
)
    requires
        encode_utf8(value).len() <= u64::MAX,
        limit <= rest.len(),
    ensures
        file_fields_read(
            x,
            delimited(1, encode_utf8(value)) + rest,
            limit,
            budget,
        ) == file_fields_read(
            OutputFileView { path: value, ..x },
            rest,
            limit,
            budget,
        ),
{
    lemma_bytes_are_read(1, encode_utf8(value), rest, 1);
    lemma_text_read(value, rest);
    assert(file_field_read(
        x,
        1,
        2,
        varint(encode_utf8(value).len()) + encode_utf8(value) + rest,
        budget,
    ) == Ok::<(OutputFileView, Seq<u8>), MalformedView>(
        (OutputFileView { path: value, ..x }, rest),
    ));
}

/// A file with a field `digest` has its value, and what follows is read.
pub proof fn file_takes_digest(x: OutputFileView, bytes: Seq<u8>,
    value: DigestView, rest: Seq<u8>, limit: nat, budget: nat)
    requires
        bytes.len() <= u64::MAX,
        budget > 0,
        digest_fields_read(
            match x.digest {
                Some(present) => present,
                None => empty_digest(),
            },
            bytes + rest,
            rest.len(),
            (budget - 1) as nat,
        ) == Ok::<(DigestView, Seq<u8>), MalformedView>((value, rest)),
        limit <= rest.len(),
    ensures
        file_fields_read(x, delimited(2, bytes) + rest, limit, budget) == file_fields_read(
            OutputFileView { digest: Some(value), ..x },
            rest,
            limit,
            budget,
        ),
{
    lemma_bytes_are_read(2, bytes, rest, budget);
    assert(file_field_read(
        x,
        2,
        2,
        varint(bytes.len()) + bytes + rest,
        budget,
    ) == Ok::<(OutputFileView, Seq<u8>), MalformedView>(
        (OutputFileView { digest: Some(value), ..x }, rest),
    ));
}

/// A file with a field `is_executable` has its value, and what follows is read.
pub proof fn file_takes_is_executable(
    x: OutputFileView,
    value: u64,
    rest: Seq<u8>,
    limit: nat,
    budget: nat,
)
    requires
        limit <= rest.len(),
    ensures
        file_fields_read(x, number(4, value) + rest, limit, budget) == file_fields_read(
            OutputFileView { is_executable: value != 0, ..x },
            rest,
            limit,
            budget,
        ),
{
    lemma_number_is_read(4, value, rest);
    assert(file_field_read(
        x,
        4,
        0,
        varint(value as nat) + rest,
        budget,
    ) == Ok::<(OutputFileView, Seq<u8>), MalformedView>(
        (OutputFileView { is_executable: value != 0, ..x }, rest),
    ));
}

/// A file with a field `contents` has its value, and what follows is read.
pub proof fn file_takes_contents(
    x: OutputFileView,
    value: Seq<u8>,
    rest: Seq<u8>,
    limit: nat,
    budget: nat,
)
    requires
        value.len() <= u64::MAX,
        limit <= rest.len(),
    ensures
        file_fields_read(x, delimited(5, value) + rest, limit, budget) == file_fields_read(
            OutputFileView { contents: value, ..x },
            rest,
            limit,
            budget,
        ),
{
    lemma_bytes_are_read(5, value, rest, 1);
    assert(file_field_read(
        x,
        5,
        2,
        varint(value.len()) + value + rest,
        budget,
    ) == Ok::<(OutputFileView, Seq<u8>), MalformedView>(
        (OutputFileView { contents: value, ..x }, rest),
    ));
}

/// A field that has no meaning in a file changes nothing, whatever its kind.
pub proof fn file_passes_over_others(
    x: OutputFileView,
    tag: u32,
    inner: u32,
    bytes: Seq<u8>,
    value: u64,
    rest: Seq<u8>,
    limit: nat,
    budget: nat,
)
    requires
        1 <= tag <= MAX_TAG,
        1 <= inner <= MAX_TAG,
        tag != 1 && tag != 2 && tag != 4 && tag != 5,
        bytes.len() <= u64::MAX,
        limit <= rest.len(),
        budget > 1,
    ensures
        bytes.len() == 8 ==> file_fields_read(
            x,
            field_key(tag as nat, 1) + (bytes + rest),
            limit,
            budget,
        ) == file_fields_read(x, rest, limit, budget),
        bytes.len() == 4 ==> file_fields_read(
            x,
            field_key(tag as nat, 5) + (bytes + rest),
            limit,
            budget,
        ) == file_fields_read(x, rest, limit, budget),
        file_fields_read(
            x,
            field_key(tag as nat, 3) + (field_key(tag as nat, 4) + rest),
            limit,
            budget,
        ) == file_fields_read(x, rest, limit, budget),
        file_fields_read(
            x,
            field_key(tag as nat, 3) + (number(inner as nat, value) + (field_key(tag as nat, 4)
                + rest)),
            limit,
            budget,
        ) == file_fields_read(x, rest, limit, budget),
        file_fields_read(x, delimited(tag as nat, bytes) + rest, limit, budget)
            == file_fields_read(x, rest, limit, budget),
        file_fields_read(x, number(tag as nat, value) + rest, limit, budget)
            == file_fields_read(x, rest, limit, budget),
{
    lemma_bytes_are_read(tag, bytes, rest, budget);
    lemma_number_is_read(tag, value, rest);
    lemma_number_is_passed(tag, value, rest, budget);
    lemma_others_are_passed(tag, inner, value, bytes, rest, budget);
    let end = field_key(tag as nat, 4) + rest;
    let group = number(inner as nat, value) + end;
    lemma_key_is_read(tag, 1, bytes + rest);
    lemma_key_is_read(tag, 5, bytes + rest);
    lemma_key_is_read(tag, 3, end);
    lemma_key_is_read(tag, 3, group);
    assert(bytes.len() == 8 ==> file_field_read(
        x,
        tag,
        1,
        bytes + rest,
        budget,
    ) == Ok::<(OutputFileView, Seq<u8>), MalformedView>((x, rest)));
    assert(bytes.len() == 4 ==> file_field_read(
        x,
        tag,
        5,
        bytes + rest,
        budget,
    ) == Ok::<(OutputFileView, Seq<u8>), MalformedView>((x, rest)));
    assert(file_field_read(
        x,
        tag,
        3,
        end,
        budget,
    ) == Ok::<(OutputFileView, Seq<u8>), MalformedView>((x, rest)));
    assert(file_field_read(
        x,
        tag,
        3,
        group,
        budget,
    ) == Ok::<(OutputFileView, Seq<u8>), MalformedView>((x, rest)));
    assert(file_field_read(
        x,
        tag,
        2,
        varint(bytes.len()) + bytes + rest,
        budget,
    ) == Ok::<(OutputFileView, Seq<u8>), MalformedView>((x, rest)));
    assert(file_field_read(
        x,
        tag,
        0,
        varint(value as nat) + rest,
        budget,
    ) == Ok::<(OutputFileView, Seq<u8>), MalformedView>((x, rest)));
}

/// A file ends where it says: with so many bytes left it is read, and where it would need more
/// than there are it is refused. The end of a group that was not begun is refused too.
pub proof fn file_ends_where_it_says(
    x: OutputFileView,
    tag: u32,
    rest: Seq<u8>,
    limit: nat,
    budget: nat,
)
    requires
        1 <= tag <= MAX_TAG,
        tag != 1 && tag != 2 && tag != 4 && tag != 5,
    ensures
        file_fields_read(x, rest, rest.len(), budget) == Ok::<
            (OutputFileView, Seq<u8>),
            MalformedView,
        >(
            (x, rest),
        ),
        rest.len() < limit ==> file_fields_read(x, rest, limit, budget) is Err,
        limit <= rest.len() ==> file_fields_read(
            x,
            field_key(tag as nat, 4) + rest,
            limit,
            budget,
        ) is Err,
{
    lemma_key_is_read(tag, 4, rest);
}

/// A message in a file needs room for one more in the others.
pub proof fn file_refuses_what_is_too_deep(
    x: OutputFileView,
    tag: u32,
    bytes: Seq<u8>,
    rest: Seq<u8>,
    limit: nat,
)
    requires
        tag == 2,
        bytes.len() <= u64::MAX,
        limit <= rest.len(),
    ensures
        file_fields_read(x, delimited(tag as nat, bytes) + rest, limit, 0) is Err,
{
    lemma_bytes_are_read(tag, bytes, rest, 1);
}

proof fn lemma_file_places()
    ensures
        "OutputFile.path: "@ == "OutputFile.path"@ + ": "@,
        "OutputFile.digest: "@ == "OutputFile.digest"@ + ": "@,
        "OutputFile.is_executable: "@ == "OutputFile.is_executable"@ + ": "@,
        "OutputFile.contents: "@ == "OutputFile.contents"@ + ": "@,
{
    reveal_strlit(": ");
    reveal_strlit("OutputFile.path");
    reveal_strlit("OutputFile.path: ");
    assert("OutputFile.path: "@ =~= "OutputFile.path"@ + ": "@);
    reveal_strlit("OutputFile.digest");
    reveal_strlit("OutputFile.digest: ");
    assert("OutputFile.digest: "@ =~= "OutputFile.digest"@ + ": "@);
    reveal_strlit("OutputFile.is_executable");
    reveal_strlit("OutputFile.is_executable: ");
    assert("OutputFile.is_executable: "@ =~= "OutputFile.is_executable"@ + ": "@);
    reveal_strlit("OutputFile.contents");
    reveal_strlit("OutputFile.contents: ");
    assert("OutputFile.contents: "@ =~= "OutputFile.contents"@ + ": "@);
}

/// What is wrong with a broken field `path` is said with its place.
pub proof fn file_says_how_path_is_broken(
    x: OutputFileView,
    kind: u8,
    n: nat,
    rest: Seq<u8>,
    limit: nat,
    budget: nat,
)
    requires
        kind <= 5,
        n <= u64::MAX,
        limit <= rest.len(),
    ensures
        kind != 2 ==> file_fields_read(
            x,
            field_key(1, kind as nat) + rest,
            limit,
            budget,
        ) == broken::<OutputFileView>("OutputFile.path: "@, other_kind(kind, 2)),
        rest.len() < n ==> file_fields_read(
            x,
            field_key(1, 2) + (varint(n) + rest),
            limit,
            budget,
        ) == broken::<OutputFileView>("OutputFile.path: "@, "buffer underflow"@),
        rest.len() >= n && !valid_utf8(rest.take(n as int)) ==> file_fields_read(
            x,
            field_key(1, 2) + (varint(n) + rest),
            limit,
            budget,
        ) == broken::<OutputFileView>(
            "OutputFile.path: "@,
            "invalid string value: data is not UTF-8 encoded"@,
        ),
{
    lemma_file_places();
    lemma_key_is_read(1, kind, rest);
    lemma_wrong_kind(kind, 2);
    lemma_located("OutputFile.path"@, other_kind(kind, 2));
    lemma_key_is_read(1, 2, varint(n) + rest);
    lemma_varint_at(n, rest);
    lemma_located("OutputFile.path"@, "buffer underflow"@);
    lemma_located("OutputFile.path"@, "invalid string value: data is not UTF-8 encoded"@);
}

/// What is wrong with a broken field `digest` is said with its place.
#[verifier::rlimit(30)]
pub proof fn file_says_how_digest_is_broken(
    x: OutputFileView,
    kind: u8,
    n: nat,
    bytes: Seq<u8>,
    m: MalformedView,
    rest: Seq<u8>,
    limit: nat,
    budget: nat,
)
    requires
        kind <= 5,
        n <= u64::MAX,
        limit <= rest.len(),
        budget > 0,
    ensures
        kind != 2 ==> file_fields_read(
            x,
            field_key(2, kind as nat) + rest,
            limit,
            budget,
        ) == broken::<OutputFileView>("OutputFile.digest: "@, other_kind(kind, 2)),
        rest.len() < n ==> file_fields_read(
            x,
            field_key(2, 2) + (varint(n) + rest),
            limit,
            budget,
        ) == broken::<OutputFileView>("OutputFile.digest: "@, "buffer underflow"@),
        (bytes.len() <= u64::MAX && digest_fields_read(
            match x.digest {
                Some(present) => present,
                None => empty_digest(),
            },
            bytes + rest,
            rest.len(),
            (budget - 1) as nat,
        ) == Err::<(DigestView, Seq<u8>), MalformedView>(m)) ==> file_fields_read(
            x,
            delimited(2, bytes) + rest,
            limit,
            budget,
        ) == broken::<OutputFileView>(m.places + "OutputFile.digest: "@, m.what),
{
    lemma_file_places();
    lemma_key_is_read(2, kind, rest);
    lemma_wrong_kind(kind, 2);
    lemma_located("OutputFile.digest"@, other_kind(kind, 2));
    lemma_key_is_read(2, 2, varint(n) + rest);
    lemma_varint_at(n, rest);
    lemma_located("OutputFile.digest"@, "buffer underflow"@);
    if bytes.len() <= u64::MAX {
        lemma_bytes_are_read(2, bytes, rest, budget);
        assert(m.places + "OutputFile.digest"@ + ": "@ =~= m.places + "OutputFile.digest: "@);
    }
}

/// What is wrong with a broken field `is_executable` is said with its place.
pub proof fn file_says_how_is_executable_is_broken(
    x: OutputFileView,
    kind: u8,
    n: nat,
    rest: Seq<u8>,
    limit: nat,
    budget: nat,
)
    requires
        kind <= 5,
        n <= u64::MAX,
        limit <= rest.len(),
    ensures
        kind != 0 ==> file_fields_read(
            x,
            field_key(4, kind as nat) + rest,
            limit,
            budget,
        ) == broken::<OutputFileView>("OutputFile.is_executable: "@, other_kind(kind, 0)),
{
    lemma_file_places();
    lemma_key_is_read(4, kind, rest);
    lemma_wrong_kind(kind, 0);
    lemma_located("OutputFile.is_executable"@, other_kind(kind, 0));
}

/// What is wrong with a broken field `contents` is said with its place.
pub proof fn file_says_how_contents_is_broken(
    x: OutputFileView,
    kind: u8,
    n: nat,
    rest: Seq<u8>,
    limit: nat,
    budget: nat,
)
    requires
        kind <= 5,
        n <= u64::MAX,
        limit <= rest.len(),
    ensures
        kind != 2 ==> file_fields_read(
            x,
            field_key(5, kind as nat) + rest,
            limit,
            budget,
        ) == broken::<OutputFileView>("OutputFile.contents: "@, other_kind(kind, 2)),
        rest.len() < n ==> file_fields_read(
            x,
            field_key(5, 2) + (varint(n) + rest),
            limit,
            budget,
        ) == broken::<OutputFileView>("OutputFile.contents: "@, "buffer underflow"@),
{
    lemma_file_places();
    lemma_key_is_read(5, kind, rest);
    lemma_wrong_kind(kind, 2);
    lemma_located("OutputFile.contents"@, other_kind(kind, 2));
    lemma_key_is_read(5, 2, varint(n) + rest);
    lemma_varint_at(n, rest);
    lemma_located("OutputFile.contents"@, "buffer underflow"@);
}

/// A link with a field `path` has its value, and what follows is read.
pub proof fn symlink_takes_path(
    x: OutputSymlinkView,
    value: Seq<char>,
    rest: Seq<u8>,
    limit: nat,
    budget: nat,
)
    requires
        encode_utf8(value).len() <= u64::MAX,
        limit <= rest.len(),
    ensures
        symlink_fields_read(
            x,
            delimited(1, encode_utf8(value)) + rest,
            limit,
            budget,
        ) == symlink_fields_read(
            OutputSymlinkView { path: value, ..x },
            rest,
            limit,
            budget,
        ),
{
    lemma_bytes_are_read(1, encode_utf8(value), rest, 1);
    lemma_text_read(value, rest);
    assert(symlink_field_read(
        x,
        1,
        2,
        varint(encode_utf8(value).len()) + encode_utf8(value) + rest,
        budget,
    ) == Ok::<(OutputSymlinkView, Seq<u8>), MalformedView>(
        (OutputSymlinkView { path: value, ..x }, rest),
    ));
}

/// A link with a field `target` has its value, and what follows is read.
pub proof fn symlink_takes_target(
    x: OutputSymlinkView,
    value: Seq<char>,
    rest: Seq<u8>,
    limit: nat,
    budget: nat,
)
    requires
        encode_utf8(value).len() <= u64::MAX,
        limit <= rest.len(),
    ensures
        symlink_fields_read(
            x,
            delimited(2, encode_utf8(value)) + rest,
            limit,
            budget,
        ) == symlink_fields_read(
            OutputSymlinkView { target: value, ..x },
            rest,
            limit,
            budget,
        ),
{
    lemma_bytes_are_read(2, encode_utf8(value), rest, 1);
    lemma_text_read(value, rest);
    assert(symlink_field_read(
        x,
        2,
        2,
        varint(encode_utf8(value).len()) + encode_utf8(value) + rest,
        budget,
    ) == Ok::<(OutputSymlinkView, Seq<u8>), MalformedView>(
        (OutputSymlinkView { target: value, ..x }, rest),
    ));
}

/// A field that has no meaning in a link changes nothing, whatever its kind.
pub proof fn symlink_passes_over_others(
    x: OutputSymlinkView,
    tag: u32,
    inner: u32,
    bytes: Seq<u8>,
    value: u64,
    rest: Seq<u8>,
    limit: nat,
    budget: nat,
)
    requires
        1 <= tag <= MAX_TAG,
        1 <= inner <= MAX_TAG,
        tag != 1 && tag != 2,
        bytes.len() <= u64::MAX,
        limit <= rest.len(),
        budget > 1,
    ensures
        bytes.len() == 8 ==> symlink_fields_read(
            x,
            field_key(tag as nat, 1) + (bytes + rest),
            limit,
            budget,
        ) == symlink_fields_read(x, rest, limit, budget),
        bytes.len() == 4 ==> symlink_fields_read(
            x,
            field_key(tag as nat, 5) + (bytes + rest),
            limit,
            budget,
        ) == symlink_fields_read(x, rest, limit, budget),
        symlink_fields_read(
            x,
            field_key(tag as nat, 3) + (field_key(tag as nat, 4) + rest),
            limit,
            budget,
        ) == symlink_fields_read(x, rest, limit, budget),
        symlink_fields_read(
            x,
            field_key(tag as nat, 3) + (number(inner as nat, value) + (field_key(tag as nat, 4)
                + rest)),
            limit,
            budget,
        ) == symlink_fields_read(x, rest, limit, budget),
        symlink_fields_read(x, delimited(tag as nat, bytes) + rest, limit, budget)
            == symlink_fields_read(x, rest, limit, budget),
        symlink_fields_read(x, number(tag as nat, value) + rest, limit, budget)
            == symlink_fields_read(x, rest, limit, budget),
{
    lemma_bytes_are_read(tag, bytes, rest, budget);
    lemma_number_is_read(tag, value, rest);
    lemma_number_is_passed(tag, value, rest, budget);
    lemma_others_are_passed(tag, inner, value, bytes, rest, budget);
    let end = field_key(tag as nat, 4) + rest;
    let group = number(inner as nat, value) + end;
    lemma_key_is_read(tag, 1, bytes + rest);
    lemma_key_is_read(tag, 5, bytes + rest);
    lemma_key_is_read(tag, 3, end);
    lemma_key_is_read(tag, 3, group);
    assert(bytes.len() == 8 ==> symlink_field_read(
        x,
        tag,
        1,
        bytes + rest,
        budget,
    ) == Ok::<(OutputSymlinkView, Seq<u8>), MalformedView>((x, rest)));
    assert(bytes.len() == 4 ==> symlink_field_read(
        x,
        tag,
        5,
        bytes + rest,
        budget,
    ) == Ok::<(OutputSymlinkView, Seq<u8>), MalformedView>((x, rest)));
    assert(symlink_field_read(
        x,
        tag,
        3,
        end,
        budget,
    ) == Ok::<(OutputSymlinkView, Seq<u8>), MalformedView>((x, rest)));
    assert(symlink_field_read(
        x,
        tag,
        3,
        group,
        budget,
    ) == Ok::<(OutputSymlinkView, Seq<u8>), MalformedView>((x, rest)));
    assert(symlink_field_read(
        x,
        tag,
        2,
        varint(bytes.len()) + bytes + rest,
        budget,
    ) == Ok::<(OutputSymlinkView, Seq<u8>), MalformedView>((x, rest)));
    assert(symlink_field_read(
        x,
        tag,
        0,
        varint(value as nat) + rest,
        budget,
    ) == Ok::<(OutputSymlinkView, Seq<u8>), MalformedView>((x, rest)));
}

/// A link ends where it says: with so many bytes left it is read, and where it would need more
/// than there are it is refused. The end of a group that was not begun is refused too.
pub proof fn symlink_ends_where_it_says(
    x: OutputSymlinkView,
    tag: u32,
    rest: Seq<u8>,
    limit: nat,
    budget: nat,
)
    requires
        1 <= tag <= MAX_TAG,
        tag != 1 && tag != 2,
    ensures
        symlink_fields_read(x, rest, rest.len(), budget) == Ok::<
            (OutputSymlinkView, Seq<u8>),
            MalformedView,
        >(
            (x, rest),
        ),
        rest.len() < limit ==> symlink_fields_read(x, rest, limit, budget) is Err,
        limit <= rest.len() ==> symlink_fields_read(
            x,
            field_key(tag as nat, 4) + rest,
            limit,
            budget,
        ) is Err,
{
    lemma_key_is_read(tag, 4, rest);
}

proof fn lemma_symlink_places()
    ensures
        "OutputSymlink.path: "@ == "OutputSymlink.path"@ + ": "@,
        "OutputSymlink.target: "@ == "OutputSymlink.target"@ + ": "@,
{
    reveal_strlit(": ");
    reveal_strlit("OutputSymlink.path");
    reveal_strlit("OutputSymlink.path: ");
    assert("OutputSymlink.path: "@ =~= "OutputSymlink.path"@ + ": "@);
    reveal_strlit("OutputSymlink.target");
    reveal_strlit("OutputSymlink.target: ");
    assert("OutputSymlink.target: "@ =~= "OutputSymlink.target"@ + ": "@);
}

/// What is wrong with a broken field `path` is said with its place.
pub proof fn symlink_says_how_path_is_broken(
    x: OutputSymlinkView,
    kind: u8,
    n: nat,
    rest: Seq<u8>,
    limit: nat,
    budget: nat,
)
    requires
        kind <= 5,
        n <= u64::MAX,
        limit <= rest.len(),
    ensures
        kind != 2 ==> symlink_fields_read(
            x,
            field_key(1, kind as nat) + rest,
            limit,
            budget,
        ) == broken::<OutputSymlinkView>("OutputSymlink.path: "@, other_kind(kind, 2)),
        rest.len() < n ==> symlink_fields_read(
            x,
            field_key(1, 2) + (varint(n) + rest),
            limit,
            budget,
        ) == broken::<OutputSymlinkView>("OutputSymlink.path: "@, "buffer underflow"@),
        rest.len() >= n && !valid_utf8(rest.take(n as int)) ==> symlink_fields_read(
            x,
            field_key(1, 2) + (varint(n) + rest),
            limit,
            budget,
        ) == broken::<OutputSymlinkView>(
            "OutputSymlink.path: "@,
            "invalid string value: data is not UTF-8 encoded"@,
        ),
{
    lemma_symlink_places();
    lemma_key_is_read(1, kind, rest);
    lemma_wrong_kind(kind, 2);
    lemma_located("OutputSymlink.path"@, other_kind(kind, 2));
    lemma_key_is_read(1, 2, varint(n) + rest);
    lemma_varint_at(n, rest);
    lemma_located("OutputSymlink.path"@, "buffer underflow"@);
    lemma_located("OutputSymlink.path"@, "invalid string value: data is not UTF-8 encoded"@);
}

/// What is wrong with a broken field `target` is said with its place.
pub proof fn symlink_says_how_target_is_broken(
    x: OutputSymlinkView,
    kind: u8,
    n: nat,
    rest: Seq<u8>,
    limit: nat,
    budget: nat,
)
    requires
        kind <= 5,
        n <= u64::MAX,
        limit <= rest.len(),
    ensures
        kind != 2 ==> symlink_fields_read(
            x,
            field_key(2, kind as nat) + rest,
            limit,
            budget,
        ) == broken::<OutputSymlinkView>("OutputSymlink.target: "@, other_kind(kind, 2)),
        rest.len() < n ==> symlink_fields_read(
            x,
            field_key(2, 2) + (varint(n) + rest),
            limit,
            budget,
        ) == broken::<OutputSymlinkView>("OutputSymlink.target: "@, "buffer underflow"@),
        rest.len() >= n && !valid_utf8(rest.take(n as int)) ==> symlink_fields_read(
            x,
            field_key(2, 2) + (varint(n) + rest),
            limit,
            budget,
        ) == broken::<OutputSymlinkView>(
            "OutputSymlink.target: "@,
            "invalid string value: data is not UTF-8 encoded"@,
        ),
{
    lemma_symlink_places();
    lemma_key_is_read(2, kind, rest);
    lemma_wrong_kind(kind, 2);
    lemma_located("OutputSymlink.target"@, other_kind(kind, 2));
    lemma_key_is_read(2, 2, varint(n) + rest);
    lemma_varint_at(n, rest);
    lemma_located("OutputSymlink.target"@, "buffer underflow"@);
    lemma_located("OutputSymlink.target"@, "invalid string value: data is not UTF-8 encoded"@);
}

/// A result with a field `output_files` has its value, after those that it had, and what follows is
/// read.
pub proof fn result_takes_output_files(x: ActionResultView, bytes: Seq<u8>,
    value: OutputFileView, rest: Seq<u8>, limit: nat, budget: nat)
    requires
        bytes.len() <= u64::MAX,
        budget > 0,
        file_fields_read(
            empty_file(),
            bytes + rest,
            rest.len(),
            (budget - 1) as nat,
        ) == Ok::<(OutputFileView, Seq<u8>), MalformedView>((value, rest)),
        limit <= rest.len(),
    ensures
        result_fields_read(x, delimited(2, bytes) + rest, limit, budget) == result_fields_read(
            ActionResultView { output_files: x.output_files.push(value), ..x },
            rest,
            limit,
            budget,
        ),
{
    lemma_bytes_are_read(2, bytes, rest, budget);
    assert(result_field_read(
        x,
        2,
        2,
        varint(bytes.len()) + bytes + rest,
        budget,
    ) == Ok::<(ActionResultView, Seq<u8>), MalformedView>(
        (ActionResultView { output_files: x.output_files.push(value), ..x }, rest),
    ));
}

/// A result with a field `exit_code` has its value, and what follows is read.
pub proof fn result_takes_exit_code(
    x: ActionResultView,
    value: u64,
    rest: Seq<u8>,
    limit: nat,
    budget: nat,
)
    requires
        limit <= rest.len(),
    ensures
        result_fields_read(x, number(4, value) + rest, limit, budget) == result_fields_read(
            ActionResultView { exit_code: value as i32, ..x },
            rest,
            limit,
            budget,
        ),
{
    lemma_number_is_read(4, value, rest);
    assert(result_field_read(
        x,
        4,
        0,
        varint(value as nat) + rest,
        budget,
    ) == Ok::<(ActionResultView, Seq<u8>), MalformedView>(
        (ActionResultView { exit_code: value as i32, ..x }, rest),
    ));
}

/// A result with a field `stdout_raw` has its value, and what follows is read.
pub proof fn result_takes_stdout_raw(
    x: ActionResultView,
    value: Seq<u8>,
    rest: Seq<u8>,
    limit: nat,
    budget: nat,
)
    requires
        value.len() <= u64::MAX,
        limit <= rest.len(),
    ensures
        result_fields_read(x, delimited(5, value) + rest, limit, budget) == result_fields_read(
            ActionResultView { stdout_raw: value, ..x },
            rest,
            limit,
            budget,
        ),
{
    lemma_bytes_are_read(5, value, rest, 1);
    assert(result_field_read(
        x,
        5,
        2,
        varint(value.len()) + value + rest,
        budget,
    ) == Ok::<(ActionResultView, Seq<u8>), MalformedView>(
        (ActionResultView { stdout_raw: value, ..x }, rest),
    ));
}

/// A result with a field `stdout_digest` has its value, and what follows is read.
pub proof fn result_takes_stdout_digest(x: ActionResultView, bytes: Seq<u8>,
    value: DigestView, rest: Seq<u8>, limit: nat, budget: nat)
    requires
        bytes.len() <= u64::MAX,
        budget > 0,
        digest_fields_read(
            match x.stdout_digest {
                Some(present) => present,
                None => empty_digest(),
            },
            bytes + rest,
            rest.len(),
            (budget - 1) as nat,
        ) == Ok::<(DigestView, Seq<u8>), MalformedView>((value, rest)),
        limit <= rest.len(),
    ensures
        result_fields_read(x, delimited(6, bytes) + rest, limit, budget) == result_fields_read(
            ActionResultView { stdout_digest: Some(value), ..x },
            rest,
            limit,
            budget,
        ),
{
    lemma_bytes_are_read(6, bytes, rest, budget);
    assert(result_field_read(
        x,
        6,
        2,
        varint(bytes.len()) + bytes + rest,
        budget,
    ) == Ok::<(ActionResultView, Seq<u8>), MalformedView>(
        (ActionResultView { stdout_digest: Some(value), ..x }, rest),
    ));
}

/// A result with a field `stderr_raw` has its value, and what follows is read.
pub proof fn result_takes_stderr_raw(
    x: ActionResultView,
    value: Seq<u8>,
    rest: Seq<u8>,
    limit: nat,
    budget: nat,
)
    requires
        value.len() <= u64::MAX,
        limit <= rest.len(),
    ensures
        result_fields_read(x, delimited(7, value) + rest, limit, budget) == result_fields_read(
            ActionResultView { stderr_raw: value, ..x },
            rest,
            limit,
            budget,
        ),
{
    lemma_bytes_are_read(7, value, rest, 1);
    assert(result_field_read(
        x,
        7,
        2,
        varint(value.len()) + value + rest,
        budget,
    ) == Ok::<(ActionResultView, Seq<u8>), MalformedView>(
        (ActionResultView { stderr_raw: value, ..x }, rest),
    ));
}

/// A result with a field `stderr_digest` has its value, and what follows is read.
pub proof fn result_takes_stderr_digest(x: ActionResultView, bytes: Seq<u8>,
    value: DigestView, rest: Seq<u8>, limit: nat, budget: nat)
    requires
        bytes.len() <= u64::MAX,
        budget > 0,
        digest_fields_read(
            match x.stderr_digest {
                Some(present) => present,
                None => empty_digest(),
            },
            bytes + rest,
            rest.len(),
            (budget - 1) as nat,
        ) == Ok::<(DigestView, Seq<u8>), MalformedView>((value, rest)),
        limit <= rest.len(),
    ensures
        result_fields_read(x, delimited(8, bytes) + rest, limit, budget) == result_fields_read(
            ActionResultView { stderr_digest: Some(value), ..x },
            rest,
            limit,
            budget,
        ),
{
    lemma_bytes_are_read(8, bytes, rest, budget);
    assert(result_field_read(
        x,
        8,
        2,
        varint(bytes.len()) + bytes + rest,
        budget,
    ) == Ok::<(ActionResultView, Seq<u8>), MalformedView>(
        (ActionResultView { stderr_digest: Some(value), ..x }, rest),
    ));
}

/// A result with a field `output_symlinks` has its value, after those that it had, and what follows
/// is read.
pub proof fn result_takes_output_symlinks(x: ActionResultView, bytes: Seq<u8>,
    value: OutputSymlinkView, rest: Seq<u8>, limit: nat, budget: nat)
    requires
        bytes.len() <= u64::MAX,
        budget > 0,
        symlink_fields_read(
            empty_symlink(),
            bytes + rest,
            rest.len(),
            (budget - 1) as nat,
        ) == Ok::<(OutputSymlinkView, Seq<u8>), MalformedView>((value, rest)),
        limit <= rest.len(),
    ensures
        result_fields_read(x, delimited(12, bytes) + rest, limit, budget) == result_fields_read(
            ActionResultView { output_symlinks: x.output_symlinks.push(value), ..x },
            rest,
            limit,
            budget,
        ),
{
    lemma_bytes_are_read(12, bytes, rest, budget);
    assert(result_field_read(
        x,
        12,
        2,
        varint(bytes.len()) + bytes + rest,
        budget,
    ) == Ok::<(ActionResultView, Seq<u8>), MalformedView>(
        (ActionResultView { output_symlinks: x.output_symlinks.push(value), ..x }, rest),
    ));
}

/// A field that has no meaning in a result changes nothing, whatever its kind.
pub proof fn result_passes_over_others(
    x: ActionResultView,
    tag: u32,
    inner: u32,
    bytes: Seq<u8>,
    value: u64,
    rest: Seq<u8>,
    limit: nat,
    budget: nat,
)
    requires
        1 <= tag <= MAX_TAG,
        1 <= inner <= MAX_TAG,
        tag != 2 && tag != 4 && tag != 5 && tag != 6 && tag != 7 && tag != 8 && tag != 12,
        bytes.len() <= u64::MAX,
        limit <= rest.len(),
        budget > 1,
    ensures
        bytes.len() == 8 ==> result_fields_read(
            x,
            field_key(tag as nat, 1) + (bytes + rest),
            limit,
            budget,
        ) == result_fields_read(x, rest, limit, budget),
        bytes.len() == 4 ==> result_fields_read(
            x,
            field_key(tag as nat, 5) + (bytes + rest),
            limit,
            budget,
        ) == result_fields_read(x, rest, limit, budget),
        result_fields_read(
            x,
            field_key(tag as nat, 3) + (field_key(tag as nat, 4) + rest),
            limit,
            budget,
        ) == result_fields_read(x, rest, limit, budget),
        result_fields_read(
            x,
            field_key(tag as nat, 3) + (number(inner as nat, value) + (field_key(tag as nat, 4)
                + rest)),
            limit,
            budget,
        ) == result_fields_read(x, rest, limit, budget),
        result_fields_read(x, delimited(tag as nat, bytes) + rest, limit, budget)
            == result_fields_read(x, rest, limit, budget),
        result_fields_read(x, number(tag as nat, value) + rest, limit, budget)
            == result_fields_read(x, rest, limit, budget),
{
    lemma_bytes_are_read(tag, bytes, rest, budget);
    lemma_number_is_read(tag, value, rest);
    lemma_number_is_passed(tag, value, rest, budget);
    lemma_others_are_passed(tag, inner, value, bytes, rest, budget);
    let end = field_key(tag as nat, 4) + rest;
    let group = number(inner as nat, value) + end;
    lemma_key_is_read(tag, 1, bytes + rest);
    lemma_key_is_read(tag, 5, bytes + rest);
    lemma_key_is_read(tag, 3, end);
    lemma_key_is_read(tag, 3, group);
    assert(bytes.len() == 8 ==> result_field_read(
        x,
        tag,
        1,
        bytes + rest,
        budget,
    ) == Ok::<(ActionResultView, Seq<u8>), MalformedView>((x, rest)));
    assert(bytes.len() == 4 ==> result_field_read(
        x,
        tag,
        5,
        bytes + rest,
        budget,
    ) == Ok::<(ActionResultView, Seq<u8>), MalformedView>((x, rest)));
    assert(result_field_read(
        x,
        tag,
        3,
        end,
        budget,
    ) == Ok::<(ActionResultView, Seq<u8>), MalformedView>((x, rest)));
    assert(result_field_read(
        x,
        tag,
        3,
        group,
        budget,
    ) == Ok::<(ActionResultView, Seq<u8>), MalformedView>((x, rest)));
    assert(result_field_read(
        x,
        tag,
        2,
        varint(bytes.len()) + bytes + rest,
        budget,
    ) == Ok::<(ActionResultView, Seq<u8>), MalformedView>((x, rest)));
    assert(result_field_read(
        x,
        tag,
        0,
        varint(value as nat) + rest,
        budget,
    ) == Ok::<(ActionResultView, Seq<u8>), MalformedView>((x, rest)));
}

/// A result ends where it says: with so many bytes left it is read, and where it would need more
/// than there are it is refused. The end of a group that was not begun is refused too.
pub proof fn result_ends_where_it_says(
    x: ActionResultView,
    tag: u32,
    rest: Seq<u8>,
    limit: nat,
    budget: nat,
)
    requires
        1 <= tag <= MAX_TAG,
        tag != 2 && tag != 4 && tag != 5 && tag != 6 && tag != 7 && tag != 8 && tag != 12,
    ensures
        result_fields_read(x, rest, rest.len(), budget) == Ok::<
            (ActionResultView, Seq<u8>),
            MalformedView,
        >(
            (x, rest),
        ),
        rest.len() < limit ==> result_fields_read(x, rest, limit, budget) is Err,
        limit <= rest.len() ==> result_fields_read(
            x,
            field_key(tag as nat, 4) + rest,
            limit,
            budget,
        ) is Err,
{
    lemma_key_is_read(tag, 4, rest);
}

/// A message in a result needs room for one more in the others.
pub proof fn result_refuses_what_is_too_deep(
    x: ActionResultView,
    tag: u32,
    bytes: Seq<u8>,
    rest: Seq<u8>,
    limit: nat,
)
    requires
        tag == 2 || tag == 6 || tag == 8 || tag == 12,
        bytes.len() <= u64::MAX,
        limit <= rest.len(),
    ensures
        result_fields_read(x, delimited(tag as nat, bytes) + rest, limit, 0) is Err,
{
    lemma_bytes_are_read(tag, bytes, rest, 1);
}

proof fn lemma_result_places()
    ensures
        "ActionResult.output_files: "@ == "ActionResult.output_files"@ + ": "@,
        "ActionResult.exit_code: "@ == "ActionResult.exit_code"@ + ": "@,
        "ActionResult.stdout_raw: "@ == "ActionResult.stdout_raw"@ + ": "@,
        "ActionResult.stdout_digest: "@ == "ActionResult.stdout_digest"@ + ": "@,
        "ActionResult.stderr_raw: "@ == "ActionResult.stderr_raw"@ + ": "@,
        "ActionResult.stderr_digest: "@ == "ActionResult.stderr_digest"@ + ": "@,
        "ActionResult.output_symlinks: "@ == "ActionResult.output_symlinks"@ + ": "@,
{
    reveal_strlit(": ");
    reveal_strlit("ActionResult.output_files");
    reveal_strlit("ActionResult.output_files: ");
    assert("ActionResult.output_files: "@ =~= "ActionResult.output_files"@ + ": "@);
    reveal_strlit("ActionResult.exit_code");
    reveal_strlit("ActionResult.exit_code: ");
    assert("ActionResult.exit_code: "@ =~= "ActionResult.exit_code"@ + ": "@);
    reveal_strlit("ActionResult.stdout_raw");
    reveal_strlit("ActionResult.stdout_raw: ");
    assert("ActionResult.stdout_raw: "@ =~= "ActionResult.stdout_raw"@ + ": "@);
    reveal_strlit("ActionResult.stdout_digest");
    reveal_strlit("ActionResult.stdout_digest: ");
    assert("ActionResult.stdout_digest: "@ =~= "ActionResult.stdout_digest"@ + ": "@);
    reveal_strlit("ActionResult.stderr_raw");
    reveal_strlit("ActionResult.stderr_raw: ");
    assert("ActionResult.stderr_raw: "@ =~= "ActionResult.stderr_raw"@ + ": "@);
    reveal_strlit("ActionResult.stderr_digest");
    reveal_strlit("ActionResult.stderr_digest: ");
    assert("ActionResult.stderr_digest: "@ =~= "ActionResult.stderr_digest"@ + ": "@);
    reveal_strlit("ActionResult.output_symlinks");
    reveal_strlit("ActionResult.output_symlinks: ");
    assert("ActionResult.output_symlinks: "@ =~= "ActionResult.output_symlinks"@ + ": "@);
}

/// What is wrong with a broken field `output_files` is said with its place.
#[verifier::rlimit(30)]
pub proof fn result_says_how_output_files_is_broken(
    x: ActionResultView,
    kind: u8,
    n: nat,
    bytes: Seq<u8>,
    m: MalformedView,
    rest: Seq<u8>,
    limit: nat,
    budget: nat,
)
    requires
        kind <= 5,
        n <= u64::MAX,
        limit <= rest.len(),
        budget > 0,
    ensures
        kind != 2 ==> result_fields_read(
            x,
            field_key(2, kind as nat) + rest,
            limit,
            budget,
        ) == broken::<ActionResultView>("ActionResult.output_files: "@, other_kind(kind, 2)),
        rest.len() < n ==> result_fields_read(
            x,
            field_key(2, 2) + (varint(n) + rest),
            limit,
            budget,
        ) == broken::<ActionResultView>("ActionResult.output_files: "@, "buffer underflow"@),
        (bytes.len() <= u64::MAX && file_fields_read(
            empty_file(),
            bytes + rest,
            rest.len(),
            (budget - 1) as nat,
        ) == Err::<(OutputFileView, Seq<u8>), MalformedView>(m)) ==> result_fields_read(
            x,
            delimited(2, bytes) + rest,
            limit,
            budget,
        ) == broken::<ActionResultView>(m.places + "ActionResult.output_files: "@, m.what),
{
    lemma_result_places();
    lemma_key_is_read(2, kind, rest);
    lemma_wrong_kind(kind, 2);
    lemma_located("ActionResult.output_files"@, other_kind(kind, 2));
    lemma_key_is_read(2, 2, varint(n) + rest);
    lemma_varint_at(n, rest);
    lemma_located("ActionResult.output_files"@, "buffer underflow"@);
    if bytes.len() <= u64::MAX {
        lemma_bytes_are_read(2, bytes, rest, budget);
        assert(m.places + "ActionResult.output_files"@ + ": "@
            =~= m.places + "ActionResult.output_files: "@);
    }
}

/// What is wrong with a broken field `exit_code` is said with its place.
pub proof fn result_says_how_exit_code_is_broken(
    x: ActionResultView,
    kind: u8,
    n: nat,
    rest: Seq<u8>,
    limit: nat,
    budget: nat,
)
    requires
        kind <= 5,
        n <= u64::MAX,
        limit <= rest.len(),
    ensures
        kind != 0 ==> result_fields_read(
            x,
            field_key(4, kind as nat) + rest,
            limit,
            budget,
        ) == broken::<ActionResultView>("ActionResult.exit_code: "@, other_kind(kind, 0)),
{
    lemma_result_places();
    lemma_key_is_read(4, kind, rest);
    lemma_wrong_kind(kind, 0);
    lemma_located("ActionResult.exit_code"@, other_kind(kind, 0));
}

/// What is wrong with a broken field `stdout_raw` is said with its place.
pub proof fn result_says_how_stdout_raw_is_broken(
    x: ActionResultView,
    kind: u8,
    n: nat,
    rest: Seq<u8>,
    limit: nat,
    budget: nat,
)
    requires
        kind <= 5,
        n <= u64::MAX,
        limit <= rest.len(),
    ensures
        kind != 2 ==> result_fields_read(
            x,
            field_key(5, kind as nat) + rest,
            limit,
            budget,
        ) == broken::<ActionResultView>("ActionResult.stdout_raw: "@, other_kind(kind, 2)),
        rest.len() < n ==> result_fields_read(
            x,
            field_key(5, 2) + (varint(n) + rest),
            limit,
            budget,
        ) == broken::<ActionResultView>("ActionResult.stdout_raw: "@, "buffer underflow"@),
{
    lemma_result_places();
    lemma_key_is_read(5, kind, rest);
    lemma_wrong_kind(kind, 2);
    lemma_located("ActionResult.stdout_raw"@, other_kind(kind, 2));
    lemma_key_is_read(5, 2, varint(n) + rest);
    lemma_varint_at(n, rest);
    lemma_located("ActionResult.stdout_raw"@, "buffer underflow"@);
}

/// What is wrong with a broken field `stdout_digest` is said with its place.
#[verifier::rlimit(30)]
pub proof fn result_says_how_stdout_digest_is_broken(
    x: ActionResultView,
    kind: u8,
    n: nat,
    bytes: Seq<u8>,
    m: MalformedView,
    rest: Seq<u8>,
    limit: nat,
    budget: nat,
)
    requires
        kind <= 5,
        n <= u64::MAX,
        limit <= rest.len(),
        budget > 0,
    ensures
        kind != 2 ==> result_fields_read(
            x,
            field_key(6, kind as nat) + rest,
            limit,
            budget,
        ) == broken::<ActionResultView>("ActionResult.stdout_digest: "@, other_kind(kind, 2)),
        rest.len() < n ==> result_fields_read(
            x,
            field_key(6, 2) + (varint(n) + rest),
            limit,
            budget,
        ) == broken::<ActionResultView>("ActionResult.stdout_digest: "@, "buffer underflow"@),
        (bytes.len() <= u64::MAX && digest_fields_read(
            match x.stdout_digest {
                Some(present) => present,
                None => empty_digest(),
            },
            bytes + rest,
            rest.len(),
            (budget - 1) as nat,
        ) == Err::<(DigestView, Seq<u8>), MalformedView>(m)) ==> result_fields_read(
            x,
            delimited(6, bytes) + rest,
            limit,
            budget,
        ) == broken::<ActionResultView>(m.places + "ActionResult.stdout_digest: "@, m.what),
{
    lemma_result_places();
    lemma_key_is_read(6, kind, rest);
    lemma_wrong_kind(kind, 2);
    lemma_located("ActionResult.stdout_digest"@, other_kind(kind, 2));
    lemma_key_is_read(6, 2, varint(n) + rest);
    lemma_varint_at(n, rest);
    lemma_located("ActionResult.stdout_digest"@, "buffer underflow"@);
    if bytes.len() <= u64::MAX {
        lemma_bytes_are_read(6, bytes, rest, budget);
        assert(m.places + "ActionResult.stdout_digest"@ + ": "@
            =~= m.places + "ActionResult.stdout_digest: "@);
    }
}

/// What is wrong with a broken field `stderr_raw` is said with its place.
pub proof fn result_says_how_stderr_raw_is_broken(
    x: ActionResultView,
    kind: u8,
    n: nat,
    rest: Seq<u8>,
    limit: nat,
    budget: nat,
)
    requires
        kind <= 5,
        n <= u64::MAX,
        limit <= rest.len(),
    ensures
        kind != 2 ==> result_fields_read(
            x,
            field_key(7, kind as nat) + rest,
            limit,
            budget,
        ) == broken::<ActionResultView>("ActionResult.stderr_raw: "@, other_kind(kind, 2)),
        rest.len() < n ==> result_fields_read(
            x,
            field_key(7, 2) + (varint(n) + rest),
            limit,
            budget,
        ) == broken::<ActionResultView>("ActionResult.stderr_raw: "@, "buffer underflow"@),
{
    lemma_result_places();
    lemma_key_is_read(7, kind, rest);
    lemma_wrong_kind(kind, 2);
    lemma_located("ActionResult.stderr_raw"@, other_kind(kind, 2));
    lemma_key_is_read(7, 2, varint(n) + rest);
    lemma_varint_at(n, rest);
    lemma_located("ActionResult.stderr_raw"@, "buffer underflow"@);
}

/// What is wrong with a broken field `stderr_digest` is said with its place.
#[verifier::rlimit(30)]
pub proof fn result_says_how_stderr_digest_is_broken(
    x: ActionResultView,
    kind: u8,
    n: nat,
    bytes: Seq<u8>,
    m: MalformedView,
    rest: Seq<u8>,
    limit: nat,
    budget: nat,
)
    requires
        kind <= 5,
        n <= u64::MAX,
        limit <= rest.len(),
        budget > 0,
    ensures
        kind != 2 ==> result_fields_read(
            x,
            field_key(8, kind as nat) + rest,
            limit,
            budget,
        ) == broken::<ActionResultView>("ActionResult.stderr_digest: "@, other_kind(kind, 2)),
        rest.len() < n ==> result_fields_read(
            x,
            field_key(8, 2) + (varint(n) + rest),
            limit,
            budget,
        ) == broken::<ActionResultView>("ActionResult.stderr_digest: "@, "buffer underflow"@),
        (bytes.len() <= u64::MAX && digest_fields_read(
            match x.stderr_digest {
                Some(present) => present,
                None => empty_digest(),
            },
            bytes + rest,
            rest.len(),
            (budget - 1) as nat,
        ) == Err::<(DigestView, Seq<u8>), MalformedView>(m)) ==> result_fields_read(
            x,
            delimited(8, bytes) + rest,
            limit,
            budget,
        ) == broken::<ActionResultView>(m.places + "ActionResult.stderr_digest: "@, m.what),
{
    lemma_result_places();
    lemma_key_is_read(8, kind, rest);
    lemma_wrong_kind(kind, 2);
    lemma_located("ActionResult.stderr_digest"@, other_kind(kind, 2));
    lemma_key_is_read(8, 2, varint(n) + rest);
    lemma_varint_at(n, rest);
    lemma_located("ActionResult.stderr_digest"@, "buffer underflow"@);
    if bytes.len() <= u64::MAX {
        lemma_bytes_are_read(8, bytes, rest, budget);
        assert(m.places + "ActionResult.stderr_digest"@ + ": "@
            =~= m.places + "ActionResult.stderr_digest: "@);
    }
}

/// What is wrong with a broken field `output_symlinks` is said with its place.
#[verifier::rlimit(30)]
pub proof fn result_says_how_output_symlinks_is_broken(
    x: ActionResultView,
    kind: u8,
    n: nat,
    bytes: Seq<u8>,
    m: MalformedView,
    rest: Seq<u8>,
    limit: nat,
    budget: nat,
)
    requires
        kind <= 5,
        n <= u64::MAX,
        limit <= rest.len(),
        budget > 0,
    ensures
        kind != 2 ==> result_fields_read(
            x,
            field_key(12, kind as nat) + rest,
            limit,
            budget,
        ) == broken::<ActionResultView>("ActionResult.output_symlinks: "@, other_kind(kind, 2)),
        rest.len() < n ==> result_fields_read(
            x,
            field_key(12, 2) + (varint(n) + rest),
            limit,
            budget,
        ) == broken::<ActionResultView>("ActionResult.output_symlinks: "@, "buffer underflow"@),
        (bytes.len() <= u64::MAX && symlink_fields_read(
            empty_symlink(),
            bytes + rest,
            rest.len(),
            (budget - 1) as nat,
        ) == Err::<(OutputSymlinkView, Seq<u8>), MalformedView>(m)) ==> result_fields_read(
            x,
            delimited(12, bytes) + rest,
            limit,
            budget,
        ) == broken::<ActionResultView>(m.places + "ActionResult.output_symlinks: "@, m.what),
{
    lemma_result_places();
    lemma_key_is_read(12, kind, rest);
    lemma_wrong_kind(kind, 2);
    lemma_located("ActionResult.output_symlinks"@, other_kind(kind, 2));
    lemma_key_is_read(12, 2, varint(n) + rest);
    lemma_varint_at(n, rest);
    lemma_located("ActionResult.output_symlinks"@, "buffer underflow"@);
    if bytes.len() <= u64::MAX {
        lemma_bytes_are_read(12, bytes, rest, budget);
        assert(m.places + "ActionResult.output_symlinks"@ + ": "@
            =~= m.places + "ActionResult.output_symlinks: "@);
    }
}

/// An answer with a field `result` has its value, and what follows is read.
pub proof fn response_takes_result(x: ExecuteResponseView, bytes: Seq<u8>,
    value: ActionResultView, rest: Seq<u8>, limit: nat, budget: nat)
    requires
        bytes.len() <= u64::MAX,
        budget > 0,
        result_fields_read(
            match x.result {
                Some(present) => present,
                None => empty_result(),
            },
            bytes + rest,
            rest.len(),
            (budget - 1) as nat,
        ) == Ok::<(ActionResultView, Seq<u8>), MalformedView>((value, rest)),
        limit <= rest.len(),
    ensures
        response_fields_read(x, delimited(1, bytes) + rest, limit, budget) == response_fields_read(
            ExecuteResponseView { result: Some(value), ..x },
            rest,
            limit,
            budget,
        ),
{
    lemma_bytes_are_read(1, bytes, rest, budget);
    assert(response_field_read(
        x,
        1,
        2,
        varint(bytes.len()) + bytes + rest,
        budget,
    ) == Ok::<(ExecuteResponseView, Seq<u8>), MalformedView>(
        (ExecuteResponseView { result: Some(value), ..x }, rest),
    ));
}

/// An answer with a field `status` has its value, and what follows is read.
pub proof fn response_takes_status(x: ExecuteResponseView, bytes: Seq<u8>,
    value: StatusView, rest: Seq<u8>, limit: nat, budget: nat)
    requires
        bytes.len() <= u64::MAX,
        budget > 0,
        status_fields_read(
            match x.status {
                Some(present) => present,
                None => empty_status(),
            },
            bytes + rest,
            rest.len(),
            (budget - 1) as nat,
        ) == Ok::<(StatusView, Seq<u8>), MalformedView>((value, rest)),
        limit <= rest.len(),
    ensures
        response_fields_read(x, delimited(3, bytes) + rest, limit, budget) == response_fields_read(
            ExecuteResponseView { status: Some(value), ..x },
            rest,
            limit,
            budget,
        ),
{
    lemma_bytes_are_read(3, bytes, rest, budget);
    assert(response_field_read(
        x,
        3,
        2,
        varint(bytes.len()) + bytes + rest,
        budget,
    ) == Ok::<(ExecuteResponseView, Seq<u8>), MalformedView>(
        (ExecuteResponseView { status: Some(value), ..x }, rest),
    ));
}

/// A field that has no meaning in an answer changes nothing, whatever its kind.
pub proof fn response_passes_over_others(
    x: ExecuteResponseView,
    tag: u32,
    inner: u32,
    bytes: Seq<u8>,
    value: u64,
    rest: Seq<u8>,
    limit: nat,
    budget: nat,
)
    requires
        1 <= tag <= MAX_TAG,
        1 <= inner <= MAX_TAG,
        tag != 1 && tag != 3,
        bytes.len() <= u64::MAX,
        limit <= rest.len(),
        budget > 1,
    ensures
        bytes.len() == 8 ==> response_fields_read(
            x,
            field_key(tag as nat, 1) + (bytes + rest),
            limit,
            budget,
        ) == response_fields_read(x, rest, limit, budget),
        bytes.len() == 4 ==> response_fields_read(
            x,
            field_key(tag as nat, 5) + (bytes + rest),
            limit,
            budget,
        ) == response_fields_read(x, rest, limit, budget),
        response_fields_read(
            x,
            field_key(tag as nat, 3) + (field_key(tag as nat, 4) + rest),
            limit,
            budget,
        ) == response_fields_read(x, rest, limit, budget),
        response_fields_read(
            x,
            field_key(tag as nat, 3) + (number(inner as nat, value) + (field_key(tag as nat, 4)
                + rest)),
            limit,
            budget,
        ) == response_fields_read(x, rest, limit, budget),
        response_fields_read(x, delimited(tag as nat, bytes) + rest, limit, budget)
            == response_fields_read(x, rest, limit, budget),
        response_fields_read(x, number(tag as nat, value) + rest, limit, budget)
            == response_fields_read(x, rest, limit, budget),
{
    lemma_bytes_are_read(tag, bytes, rest, budget);
    lemma_number_is_read(tag, value, rest);
    lemma_number_is_passed(tag, value, rest, budget);
    lemma_others_are_passed(tag, inner, value, bytes, rest, budget);
    let end = field_key(tag as nat, 4) + rest;
    let group = number(inner as nat, value) + end;
    lemma_key_is_read(tag, 1, bytes + rest);
    lemma_key_is_read(tag, 5, bytes + rest);
    lemma_key_is_read(tag, 3, end);
    lemma_key_is_read(tag, 3, group);
    assert(bytes.len() == 8 ==> response_field_read(
        x,
        tag,
        1,
        bytes + rest,
        budget,
    ) == Ok::<(ExecuteResponseView, Seq<u8>), MalformedView>((x, rest)));
    assert(bytes.len() == 4 ==> response_field_read(
        x,
        tag,
        5,
        bytes + rest,
        budget,
    ) == Ok::<(ExecuteResponseView, Seq<u8>), MalformedView>((x, rest)));
    assert(response_field_read(
        x,
        tag,
        3,
        end,
        budget,
    ) == Ok::<(ExecuteResponseView, Seq<u8>), MalformedView>((x, rest)));
    assert(response_field_read(
        x,
        tag,
        3,
        group,
        budget,
    ) == Ok::<(ExecuteResponseView, Seq<u8>), MalformedView>((x, rest)));
    assert(response_field_read(
        x,
        tag,
        2,
        varint(bytes.len()) + bytes + rest,
        budget,
    ) == Ok::<(ExecuteResponseView, Seq<u8>), MalformedView>((x, rest)));
    assert(response_field_read(
        x,
        tag,
        0,
        varint(value as nat) + rest,
        budget,
    ) == Ok::<(ExecuteResponseView, Seq<u8>), MalformedView>((x, rest)));
}

/// An answer ends where it says: with so many bytes left it is read, and where it would need more
/// than there are it is refused. The end of a group that was not begun is refused too.
pub proof fn response_ends_where_it_says(
    x: ExecuteResponseView,
    tag: u32,
    rest: Seq<u8>,
    limit: nat,
    budget: nat,
)
    requires
        1 <= tag <= MAX_TAG,
        tag != 1 && tag != 3,
    ensures
        response_fields_read(x, rest, rest.len(), budget) == Ok::<
            (ExecuteResponseView, Seq<u8>),
            MalformedView,
        >(
            (x, rest),
        ),
        rest.len() < limit ==> response_fields_read(x, rest, limit, budget) is Err,
        limit <= rest.len() ==> response_fields_read(
            x,
            field_key(tag as nat, 4) + rest,
            limit,
            budget,
        ) is Err,
{
    lemma_key_is_read(tag, 4, rest);
}

/// A message in an answer needs room for one more in the others.
pub proof fn response_refuses_what_is_too_deep(
    x: ExecuteResponseView,
    tag: u32,
    bytes: Seq<u8>,
    rest: Seq<u8>,
    limit: nat,
)
    requires
        tag == 1 || tag == 3,
        bytes.len() <= u64::MAX,
        limit <= rest.len(),
    ensures
        response_fields_read(x, delimited(tag as nat, bytes) + rest, limit, 0) is Err,
{
    lemma_bytes_are_read(tag, bytes, rest, 1);
}

proof fn lemma_response_places()
    ensures
        "ExecuteResponse.result: "@ == "ExecuteResponse.result"@ + ": "@,
        "ExecuteResponse.status: "@ == "ExecuteResponse.status"@ + ": "@,
{
    reveal_strlit(": ");
    reveal_strlit("ExecuteResponse.result");
    reveal_strlit("ExecuteResponse.result: ");
    assert("ExecuteResponse.result: "@ =~= "ExecuteResponse.result"@ + ": "@);
    reveal_strlit("ExecuteResponse.status");
    reveal_strlit("ExecuteResponse.status: ");
    assert("ExecuteResponse.status: "@ =~= "ExecuteResponse.status"@ + ": "@);
}

/// What is wrong with a broken field `result` is said with its place.
#[verifier::rlimit(30)]
pub proof fn response_says_how_result_is_broken(
    x: ExecuteResponseView,
    kind: u8,
    n: nat,
    bytes: Seq<u8>,
    m: MalformedView,
    rest: Seq<u8>,
    limit: nat,
    budget: nat,
)
    requires
        kind <= 5,
        n <= u64::MAX,
        limit <= rest.len(),
        budget > 0,
    ensures
        kind != 2 ==> response_fields_read(
            x,
            field_key(1, kind as nat) + rest,
            limit,
            budget,
        ) == broken::<ExecuteResponseView>("ExecuteResponse.result: "@, other_kind(kind, 2)),
        rest.len() < n ==> response_fields_read(
            x,
            field_key(1, 2) + (varint(n) + rest),
            limit,
            budget,
        ) == broken::<ExecuteResponseView>("ExecuteResponse.result: "@, "buffer underflow"@),
        (bytes.len() <= u64::MAX && result_fields_read(
            match x.result {
                Some(present) => present,
                None => empty_result(),
            },
            bytes + rest,
            rest.len(),
            (budget - 1) as nat,
        ) == Err::<(ActionResultView, Seq<u8>), MalformedView>(m)) ==> response_fields_read(
            x,
            delimited(1, bytes) + rest,
            limit,
            budget,
        ) == broken::<ExecuteResponseView>(m.places + "ExecuteResponse.result: "@, m.what),
{
    lemma_response_places();
    lemma_key_is_read(1, kind, rest);
    lemma_wrong_kind(kind, 2);
    lemma_located("ExecuteResponse.result"@, other_kind(kind, 2));
    lemma_key_is_read(1, 2, varint(n) + rest);
    lemma_varint_at(n, rest);
    lemma_located("ExecuteResponse.result"@, "buffer underflow"@);
    if bytes.len() <= u64::MAX {
        lemma_bytes_are_read(1, bytes, rest, budget);
        assert(m.places + "ExecuteResponse.result"@ + ": "@
            =~= m.places + "ExecuteResponse.result: "@);
    }
}

/// What is wrong with a broken field `status` is said with its place.
#[verifier::rlimit(30)]
pub proof fn response_says_how_status_is_broken(
    x: ExecuteResponseView,
    kind: u8,
    n: nat,
    bytes: Seq<u8>,
    m: MalformedView,
    rest: Seq<u8>,
    limit: nat,
    budget: nat,
)
    requires
        kind <= 5,
        n <= u64::MAX,
        limit <= rest.len(),
        budget > 0,
    ensures
        kind != 2 ==> response_fields_read(
            x,
            field_key(3, kind as nat) + rest,
            limit,
            budget,
        ) == broken::<ExecuteResponseView>("ExecuteResponse.status: "@, other_kind(kind, 2)),
        rest.len() < n ==> response_fields_read(
            x,
            field_key(3, 2) + (varint(n) + rest),
            limit,
            budget,
        ) == broken::<ExecuteResponseView>("ExecuteResponse.status: "@, "buffer underflow"@),
        (bytes.len() <= u64::MAX && status_fields_read(
            match x.status {
                Some(present) => present,
                None => empty_status(),
            },
            bytes + rest,
            rest.len(),
            (budget - 1) as nat,
        ) == Err::<(StatusView, Seq<u8>), MalformedView>(m)) ==> response_fields_read(
            x,
            delimited(3, bytes) + rest,
            limit,
            budget,
        ) == broken::<ExecuteResponseView>(m.places + "ExecuteResponse.status: "@, m.what),
{
    lemma_response_places();
    lemma_key_is_read(3, kind, rest);
    lemma_wrong_kind(kind, 2);
    lemma_located("ExecuteResponse.status"@, other_kind(kind, 2));
    lemma_key_is_read(3, 2, varint(n) + rest);
    lemma_varint_at(n, rest);
    lemma_located("ExecuteResponse.status"@, "buffer underflow"@);
    if bytes.len() <= u64::MAX {
        lemma_bytes_are_read(3, bytes, rest, budget);
        assert(m.places + "ExecuteResponse.status"@ + ": "@
            =~= m.places + "ExecuteResponse.status: "@);
    }
}

/// Nothing is left to read.
proof fn lemma_nothing(rest: Seq<u8>)
    ensures
        Seq::<u8>::empty() + rest == rest,
{
    assert(Seq::<u8>::empty() + rest =~= rest);
}

/// Runs of bytes in a row may be read one after the other.
proof fn lemma_in_a_row(
    a: Seq<u8>,
    b: Seq<u8>,
    c: Seq<u8>,
    d: Seq<u8>,
    e: Seq<u8>,
    f: Seq<u8>,
    g: Seq<u8>,
    rest: Seq<u8>,
)
    ensures
        a + b + c + d + e + f + g + rest == a + (b + (c + (d + (e + (f + (g + rest)))))),
        (a + b + c + d + e + f + g).len() == a.len() + b.len() + c.len() + d.len() + e.len()
            + f.len() + g.len(),
{
    assert(a + b + c + d + e + f + g + rest =~= a + (b + (c + (d + (e + (f + (g + rest)))))));
}

/// A status with the fields at the start of `bytes`.
#[verifier::opaque]
spec fn status_reading(
    x: StatusView,
    bytes: Seq<u8>,
    limit: nat,
    budget: nat,
) -> Reading<StatusView> {
    status_fields_read(x, bytes, limit, budget)
}

proof fn lemma_status_reading(x: StatusView, bytes: Seq<u8>, limit: nat, budget: nat)
    ensures
        status_reading(x, bytes, limit, budget) == status_fields_read(x, bytes, limit, budget),
{
    reveal(status_reading);
}

proof fn lemma_status_read(x: StatusView, rest: Seq<u8>, budget: nat)
    ensures
        status_reading(x, rest, rest.len(), budget) == Ok::<(StatusView, Seq<u8>), MalformedView>(
            (x, rest),
        ),
{
    reveal(status_reading);
}

proof fn lemma_status_code(x: StatusView, value: i32, rest: Seq<u8>, limit: nat, budget: nat)
    requires
        x.code == 0,
        int_field(1, value as i64).len() <= u64::MAX,
        limit <= rest.len(),
    ensures
        status_reading(x, int_field(1, value as i64) + rest, limit, budget) == status_reading(
            StatusView { code: value, ..x },
            rest,
            limit,
            budget,
        ),
{
    reveal(status_reading);
    if value == 0 {
        lemma_nothing(rest);
        assert(StatusView { code: value, ..x } =~= x);
    } else {
        lemma_small_number(value);
        status_takes_code(x, (value as i64) as u64, rest, limit, budget);
    }
}

proof fn lemma_status_message(
    x: StatusView,
    value: Seq<char>,
    rest: Seq<u8>,
    limit: nat,
    budget: nat,
)
    requires
        x.message.len() == 0,
        text_field(2, value).len() <= u64::MAX,
        limit <= rest.len(),
    ensures
        status_reading(x, text_field(2, value) + rest, limit, budget) == status_reading(
            StatusView { message: value, ..x },
            rest,
            limit,
            budget,
        ),
{
    reveal(status_reading);
    if value.len() == 0 {
        lemma_nothing(rest);
        assert(value =~= x.message);
        assert(StatusView { message: value, ..x } =~= x);
    } else {
        status_takes_message(x, value, rest, limit, budget);
    }
}

/// A status that was written is read back whole, whatever follows it.
#[verifier::rlimit(30)]
pub proof fn status_is_read_back(d: StatusView, rest: Seq<u8>, budget: nat)
    requires
        status_wire(d).len() <= u64::MAX,
    ensures
        status_fields_read(empty_status(), status_wire(d) + rest, rest.len(), budget) == Ok::<
            (StatusView, Seq<u8>),
            MalformedView,
        >(
            (d, rest),
        ),
{
    let e = empty_status();
    let t2 = rest;
    let w1 = text_field(2, d.message);
    let t1 = w1 + t2;
    let w0 = int_field(1, d.code as i64);
    let t0 = w0 + t1;
    let x0 = e;
    let x1 = StatusView { code: d.code, ..x0 };
    assert(status_wire(d) + rest =~= t0);
    lemma_status_code(x0, d.code, t1, rest.len(), budget);
    lemma_status_message(x1, d.message, t2, rest.len(), budget);
    lemma_status_read(d, rest, budget);
    lemma_status_reading(e, t0, rest.len(), budget);
}

/// A file with the fields at the start of `bytes`.
#[verifier::opaque]
spec fn file_reading(
    x: OutputFileView,
    bytes: Seq<u8>,
    limit: nat,
    budget: nat,
) -> Reading<OutputFileView> {
    file_fields_read(x, bytes, limit, budget)
}

proof fn lemma_file_reading(x: OutputFileView, bytes: Seq<u8>, limit: nat, budget: nat)
    ensures
        file_reading(x, bytes, limit, budget) == file_fields_read(x, bytes, limit, budget),
{
    reveal(file_reading);
}

proof fn lemma_file_read(x: OutputFileView, rest: Seq<u8>, budget: nat)
    ensures
        file_reading(x, rest, rest.len(), budget) == Ok::<(OutputFileView, Seq<u8>), MalformedView>(
            (x, rest),
        ),
{
    reveal(file_reading);
}

proof fn lemma_file_path(
    x: OutputFileView,
    value: Seq<char>,
    rest: Seq<u8>,
    limit: nat,
    budget: nat,
)
    requires
        x.path.len() == 0,
        text_field(1, value).len() <= u64::MAX,
        limit <= rest.len(),
    ensures
        file_reading(x, text_field(1, value) + rest, limit, budget) == file_reading(
            OutputFileView { path: value, ..x },
            rest,
            limit,
            budget,
        ),
{
    reveal(file_reading);
    if value.len() == 0 {
        lemma_nothing(rest);
        assert(value =~= x.path);
        assert(OutputFileView { path: value, ..x } =~= x);
    } else {
        file_takes_path(x, value, rest, limit, budget);
    }
}

proof fn lemma_file_digest(
    x: OutputFileView,
    value: Option<DigestView>,
    rest: Seq<u8>,
    limit: nat,
    budget: nat,
)
    requires
        x.digest is None,
        message_field(2, some_digest_wire(value)).len() <= u64::MAX,
        limit <= rest.len(),
        budget >= 1,
    ensures
        file_reading(
            x,
            message_field(2, some_digest_wire(value)) + rest,
            limit,
            budget,
        ) == file_reading(
            OutputFileView { digest: value, ..x },
            rest,
            limit,
            budget,
        ),
{
    reveal(file_reading);
    match value {
        Some(part) => {
            digest_is_read_back(part, rest, (budget - 1) as nat);
            file_takes_digest(x, digest_wire(part), part, rest, limit, budget);
        },
        None => {
            lemma_nothing(rest);
            assert(OutputFileView { digest: value, ..x } =~= x);
        },
    }
}

proof fn lemma_file_is_executable(
    x: OutputFileView,
    value: bool,
    rest: Seq<u8>,
    limit: nat,
    budget: nat,
)
    requires
        !x.is_executable,
        bool_field(4, value).len() <= u64::MAX,
        limit <= rest.len(),
    ensures
        file_reading(x, bool_field(4, value) + rest, limit, budget) == file_reading(
            OutputFileView { is_executable: value, ..x },
            rest,
            limit,
            budget,
        ),
{
    reveal(file_reading);
    if value {
        file_takes_is_executable(x, 1, rest, limit, budget);
    } else {
        lemma_nothing(rest);
        assert(OutputFileView { is_executable: value, ..x } =~= x);
    }
}

proof fn lemma_file_contents(
    x: OutputFileView,
    value: Seq<u8>,
    rest: Seq<u8>,
    limit: nat,
    budget: nat,
)
    requires
        x.contents.len() == 0,
        bytes_field(5, value).len() <= u64::MAX,
        limit <= rest.len(),
    ensures
        file_reading(x, bytes_field(5, value) + rest, limit, budget) == file_reading(
            OutputFileView { contents: value, ..x },
            rest,
            limit,
            budget,
        ),
{
    reveal(file_reading);
    if value.len() == 0 {
        lemma_nothing(rest);
        assert(value =~= x.contents);
        assert(OutputFileView { contents: value, ..x } =~= x);
    } else {
        file_takes_contents(x, value, rest, limit, budget);
    }
}

/// A file that was written is read back whole, whatever follows it.
#[verifier::rlimit(30)]
pub proof fn file_is_read_back(d: OutputFileView, rest: Seq<u8>, budget: nat)
    requires
        output_file_wire(d).len() <= u64::MAX,
        budget >= 1,
    ensures
        file_fields_read(empty_file(), output_file_wire(d) + rest, rest.len(), budget) == Ok::<
            (OutputFileView, Seq<u8>),
            MalformedView,
        >(
            (d, rest),
        ),
{
    let e = empty_file();
    let t4 = rest;
    let w3 = bytes_field(5, d.contents);
    let t3 = w3 + t4;
    let w2 = bool_field(4, d.is_executable);
    let t2 = w2 + t3;
    let w1 = message_field(2, some_digest_wire(d.digest));
    let t1 = w1 + t2;
    let w0 = text_field(1, d.path);
    let t0 = w0 + t1;
    let x0 = e;
    let x1 = OutputFileView { path: d.path, ..x0 };
    let x2 = OutputFileView { digest: d.digest, ..x1 };
    let x3 = OutputFileView { is_executable: d.is_executable, ..x2 };
    assert(output_file_wire(d) + rest =~= t0);
    lemma_file_path(x0, d.path, t1, rest.len(), budget);
    lemma_file_digest(x1, d.digest, t2, rest.len(), budget);
    lemma_file_is_executable(x2, d.is_executable, t3, rest.len(), budget);
    lemma_file_contents(x3, d.contents, t4, rest.len(), budget);
    lemma_file_read(d, rest, budget);
    lemma_file_reading(e, t0, rest.len(), budget);
}

/// A link with the fields at the start of `bytes`.
#[verifier::opaque]
spec fn symlink_reading(
    x: OutputSymlinkView,
    bytes: Seq<u8>,
    limit: nat,
    budget: nat,
) -> Reading<OutputSymlinkView> {
    symlink_fields_read(x, bytes, limit, budget)
}

proof fn lemma_symlink_reading(x: OutputSymlinkView, bytes: Seq<u8>, limit: nat, budget: nat)
    ensures
        symlink_reading(x, bytes, limit, budget) == symlink_fields_read(x, bytes, limit, budget),
{
    reveal(symlink_reading);
}

proof fn lemma_symlink_read(x: OutputSymlinkView, rest: Seq<u8>, budget: nat)
    ensures
        symlink_reading(x, rest, rest.len(), budget) == Ok::<
            (OutputSymlinkView, Seq<u8>),
            MalformedView,
        >(
            (x, rest),
        ),
{
    reveal(symlink_reading);
}

proof fn lemma_symlink_path(
    x: OutputSymlinkView,
    value: Seq<char>,
    rest: Seq<u8>,
    limit: nat,
    budget: nat,
)
    requires
        x.path.len() == 0,
        text_field(1, value).len() <= u64::MAX,
        limit <= rest.len(),
    ensures
        symlink_reading(x, text_field(1, value) + rest, limit, budget) == symlink_reading(
            OutputSymlinkView { path: value, ..x },
            rest,
            limit,
            budget,
        ),
{
    reveal(symlink_reading);
    if value.len() == 0 {
        lemma_nothing(rest);
        assert(value =~= x.path);
        assert(OutputSymlinkView { path: value, ..x } =~= x);
    } else {
        symlink_takes_path(x, value, rest, limit, budget);
    }
}

proof fn lemma_symlink_target(
    x: OutputSymlinkView,
    value: Seq<char>,
    rest: Seq<u8>,
    limit: nat,
    budget: nat,
)
    requires
        x.target.len() == 0,
        text_field(2, value).len() <= u64::MAX,
        limit <= rest.len(),
    ensures
        symlink_reading(x, text_field(2, value) + rest, limit, budget) == symlink_reading(
            OutputSymlinkView { target: value, ..x },
            rest,
            limit,
            budget,
        ),
{
    reveal(symlink_reading);
    if value.len() == 0 {
        lemma_nothing(rest);
        assert(value =~= x.target);
        assert(OutputSymlinkView { target: value, ..x } =~= x);
    } else {
        symlink_takes_target(x, value, rest, limit, budget);
    }
}

/// A link that was written is read back whole, whatever follows it.
#[verifier::rlimit(30)]
pub proof fn symlink_is_read_back(d: OutputSymlinkView, rest: Seq<u8>, budget: nat)
    requires
        output_symlink_wire(d).len() <= u64::MAX,
    ensures
        symlink_fields_read(
            empty_symlink(),
            output_symlink_wire(d) + rest,
            rest.len(),
            budget,
        ) == Ok::<(OutputSymlinkView, Seq<u8>), MalformedView>(
            (d, rest),
        ),
{
    let e = empty_symlink();
    let t2 = rest;
    let w1 = text_field(2, d.target);
    let t1 = w1 + t2;
    let w0 = text_field(1, d.path);
    let t0 = w0 + t1;
    let x0 = e;
    let x1 = OutputSymlinkView { path: d.path, ..x0 };
    assert(output_symlink_wire(d) + rest =~= t0);
    lemma_symlink_path(x0, d.path, t1, rest.len(), budget);
    lemma_symlink_target(x1, d.target, t2, rest.len(), budget);
    lemma_symlink_read(d, rest, budget);
    lemma_symlink_reading(e, t0, rest.len(), budget);
}

/// A result with the fields at the start of `bytes`.
#[verifier::opaque]
spec fn result_reading(
    x: ActionResultView,
    bytes: Seq<u8>,
    limit: nat,
    budget: nat,
) -> Reading<ActionResultView> {
    result_fields_read(x, bytes, limit, budget)
}

proof fn lemma_result_reading(x: ActionResultView, bytes: Seq<u8>, limit: nat, budget: nat)
    ensures
        result_reading(x, bytes, limit, budget) == result_fields_read(x, bytes, limit, budget),
{
    reveal(result_reading);
}

proof fn lemma_result_read(x: ActionResultView, rest: Seq<u8>, budget: nat)
    ensures
        result_reading(x, rest, rest.len(), budget) == Ok::<
            (ActionResultView, Seq<u8>),
            MalformedView,
        >(
            (x, rest),
        ),
{
    reveal(result_reading);
}

/// All of the items are read, after those that there are, in their order.
proof fn lemma_output_files_are_read(
    x: ActionResultView,
    items: Seq<OutputFileView>,
    rest: Seq<u8>,
    limit: nat,
    budget: nat,
)
    requires
        repeated(2, output_file_wires(items)).len() <= u64::MAX,
        limit <= rest.len(),
        budget >= 2,
    ensures
        result_reading(
            x,
            repeated(2, output_file_wires(items)) + rest,
            limit,
            budget,
        ) == result_reading(
            ActionResultView { output_files: x.output_files + items, ..x },
            rest,
            limit,
            budget,
        ),
    decreases items.len(),
{
    let wires = output_file_wires(items);
    if items.len() == 0 {
        lemma_nothing(rest);
        assert(x.output_files + items =~= x.output_files);
        assert(ActionResultView { output_files: x.output_files + items, ..x } =~= x);
    } else {
        let item = items.last();
        let bytes = output_file_wire(item);
        let front = items.drop_last();
        let tail = delimited(2, bytes) + rest;
        assert(wires.drop_last() =~= output_file_wires(front));
        assert(wires.last() == bytes);
        assert(repeated(2, wires) + rest =~= repeated(2, output_file_wires(front)) + tail);
        lemma_output_files_are_read(x, front, tail, limit, budget);
        let y = ActionResultView { output_files: x.output_files + front, ..x };
        file_is_read_back(item, rest, (budget - 1) as nat);
        result_takes_output_files(y, bytes, item, rest, limit, budget);
        lemma_result_reading(y, tail, limit, budget);
        lemma_result_reading(
            ActionResultView { output_files: y.output_files.push(item), ..y },
            rest,
            limit,
            budget,
        );
        assert((x.output_files + front).push(item) =~= x.output_files + items);
        assert(ActionResultView { output_files: y.output_files.push(item), ..y }
            =~= ActionResultView {
            output_files: x.output_files + items,
            ..x
        });
    }
}

proof fn lemma_result_exit_code(
    x: ActionResultView,
    value: i32,
    rest: Seq<u8>,
    limit: nat,
    budget: nat,
)
    requires
        x.exit_code == 0,
        int_field(4, value as i64).len() <= u64::MAX,
        limit <= rest.len(),
    ensures
        result_reading(x, int_field(4, value as i64) + rest, limit, budget) == result_reading(
            ActionResultView { exit_code: value, ..x },
            rest,
            limit,
            budget,
        ),
{
    reveal(result_reading);
    if value == 0 {
        lemma_nothing(rest);
        assert(ActionResultView { exit_code: value, ..x } =~= x);
    } else {
        lemma_small_number(value);
        result_takes_exit_code(x, (value as i64) as u64, rest, limit, budget);
    }
}

proof fn lemma_result_stdout_raw(
    x: ActionResultView,
    value: Seq<u8>,
    rest: Seq<u8>,
    limit: nat,
    budget: nat,
)
    requires
        x.stdout_raw.len() == 0,
        bytes_field(5, value).len() <= u64::MAX,
        limit <= rest.len(),
    ensures
        result_reading(x, bytes_field(5, value) + rest, limit, budget) == result_reading(
            ActionResultView { stdout_raw: value, ..x },
            rest,
            limit,
            budget,
        ),
{
    reveal(result_reading);
    if value.len() == 0 {
        lemma_nothing(rest);
        assert(value =~= x.stdout_raw);
        assert(ActionResultView { stdout_raw: value, ..x } =~= x);
    } else {
        result_takes_stdout_raw(x, value, rest, limit, budget);
    }
}

proof fn lemma_result_stdout_digest(
    x: ActionResultView,
    value: Option<DigestView>,
    rest: Seq<u8>,
    limit: nat,
    budget: nat,
)
    requires
        x.stdout_digest is None,
        message_field(6, some_digest_wire(value)).len() <= u64::MAX,
        limit <= rest.len(),
        budget >= 1,
    ensures
        result_reading(
            x,
            message_field(6, some_digest_wire(value)) + rest,
            limit,
            budget,
        ) == result_reading(
            ActionResultView { stdout_digest: value, ..x },
            rest,
            limit,
            budget,
        ),
{
    reveal(result_reading);
    match value {
        Some(part) => {
            digest_is_read_back(part, rest, (budget - 1) as nat);
            result_takes_stdout_digest(x, digest_wire(part), part, rest, limit, budget);
        },
        None => {
            lemma_nothing(rest);
            assert(ActionResultView { stdout_digest: value, ..x } =~= x);
        },
    }
}

proof fn lemma_result_stderr_raw(
    x: ActionResultView,
    value: Seq<u8>,
    rest: Seq<u8>,
    limit: nat,
    budget: nat,
)
    requires
        x.stderr_raw.len() == 0,
        bytes_field(7, value).len() <= u64::MAX,
        limit <= rest.len(),
    ensures
        result_reading(x, bytes_field(7, value) + rest, limit, budget) == result_reading(
            ActionResultView { stderr_raw: value, ..x },
            rest,
            limit,
            budget,
        ),
{
    reveal(result_reading);
    if value.len() == 0 {
        lemma_nothing(rest);
        assert(value =~= x.stderr_raw);
        assert(ActionResultView { stderr_raw: value, ..x } =~= x);
    } else {
        result_takes_stderr_raw(x, value, rest, limit, budget);
    }
}

proof fn lemma_result_stderr_digest(
    x: ActionResultView,
    value: Option<DigestView>,
    rest: Seq<u8>,
    limit: nat,
    budget: nat,
)
    requires
        x.stderr_digest is None,
        message_field(8, some_digest_wire(value)).len() <= u64::MAX,
        limit <= rest.len(),
        budget >= 1,
    ensures
        result_reading(
            x,
            message_field(8, some_digest_wire(value)) + rest,
            limit,
            budget,
        ) == result_reading(
            ActionResultView { stderr_digest: value, ..x },
            rest,
            limit,
            budget,
        ),
{
    reveal(result_reading);
    match value {
        Some(part) => {
            digest_is_read_back(part, rest, (budget - 1) as nat);
            result_takes_stderr_digest(x, digest_wire(part), part, rest, limit, budget);
        },
        None => {
            lemma_nothing(rest);
            assert(ActionResultView { stderr_digest: value, ..x } =~= x);
        },
    }
}

/// All of the items are read, after those that there are, in their order.
proof fn lemma_output_symlinks_are_read(
    x: ActionResultView,
    items: Seq<OutputSymlinkView>,
    rest: Seq<u8>,
    limit: nat,
    budget: nat,
)
    requires
        repeated(12, output_symlink_wires(items)).len() <= u64::MAX,
        limit <= rest.len(),
        budget >= 1,
    ensures
        result_reading(
            x,
            repeated(12, output_symlink_wires(items)) + rest,
            limit,
            budget,
        ) == result_reading(
            ActionResultView { output_symlinks: x.output_symlinks + items, ..x },
            rest,
            limit,
            budget,
        ),
    decreases items.len(),
{
    let wires = output_symlink_wires(items);
    if items.len() == 0 {
        lemma_nothing(rest);
        assert(x.output_symlinks + items =~= x.output_symlinks);
        assert(ActionResultView { output_symlinks: x.output_symlinks + items, ..x } =~= x);
    } else {
        let item = items.last();
        let bytes = output_symlink_wire(item);
        let front = items.drop_last();
        let tail = delimited(12, bytes) + rest;
        assert(wires.drop_last() =~= output_symlink_wires(front));
        assert(wires.last() == bytes);
        assert(repeated(12, wires) + rest =~= repeated(12, output_symlink_wires(front)) + tail);
        lemma_output_symlinks_are_read(x, front, tail, limit, budget);
        let y = ActionResultView { output_symlinks: x.output_symlinks + front, ..x };
        symlink_is_read_back(item, rest, (budget - 1) as nat);
        result_takes_output_symlinks(y, bytes, item, rest, limit, budget);
        lemma_result_reading(y, tail, limit, budget);
        lemma_result_reading(
            ActionResultView { output_symlinks: y.output_symlinks.push(item), ..y },
            rest,
            limit,
            budget,
        );
        assert((x.output_symlinks + front).push(item) =~= x.output_symlinks + items);
        assert(ActionResultView { output_symlinks: y.output_symlinks.push(item), ..y }
            =~= ActionResultView {
            output_symlinks: x.output_symlinks + items,
            ..x
        });
    }
}

/// A result that was written is read back whole, whatever follows it.
#[verifier::rlimit(30)]
pub proof fn result_is_read_back(d: ActionResultView, rest: Seq<u8>, budget: nat)
    requires
        result_wire(d).len() <= u64::MAX,
        budget >= 2,
    ensures
        result_fields_read(empty_result(), result_wire(d) + rest, rest.len(), budget) == Ok::<
            (ActionResultView, Seq<u8>),
            MalformedView,
        >(
            (d, rest),
        ),
{
    let e = empty_result();
    let t7 = rest;
    let w6 = repeated(12, output_symlink_wires(d.output_symlinks));
    let t6 = w6 + t7;
    let w5 = message_field(8, some_digest_wire(d.stderr_digest));
    let t5 = w5 + t6;
    let w4 = bytes_field(7, d.stderr_raw);
    let t4 = w4 + t5;
    let w3 = message_field(6, some_digest_wire(d.stdout_digest));
    let t3 = w3 + t4;
    let w2 = bytes_field(5, d.stdout_raw);
    let t2 = w2 + t3;
    let w1 = int_field(4, d.exit_code as i64);
    let t1 = w1 + t2;
    let w0 = repeated(2, output_file_wires(d.output_files));
    let t0 = w0 + t1;
    let x0 = e;
    let x1 = ActionResultView { output_files: d.output_files, ..x0 };
    let x2 = ActionResultView { exit_code: d.exit_code, ..x1 };
    let x3 = ActionResultView { stdout_raw: d.stdout_raw, ..x2 };
    let x4 = ActionResultView { stdout_digest: d.stdout_digest, ..x3 };
    let x5 = ActionResultView { stderr_raw: d.stderr_raw, ..x4 };
    let x6 = ActionResultView { stderr_digest: d.stderr_digest, ..x5 };
    lemma_in_a_row(w0, w1, w2, w3, w4, w5, w6, rest);
    lemma_output_files_are_read(x0, d.output_files, t1, rest.len(), budget);
    assert(x0.output_files + d.output_files =~= d.output_files);
    lemma_result_exit_code(x1, d.exit_code, t2, rest.len(), budget);
    lemma_result_stdout_raw(x2, d.stdout_raw, t3, rest.len(), budget);
    lemma_result_stdout_digest(x3, d.stdout_digest, t4, rest.len(), budget);
    lemma_result_stderr_raw(x4, d.stderr_raw, t5, rest.len(), budget);
    lemma_result_stderr_digest(x5, d.stderr_digest, t6, rest.len(), budget);
    lemma_output_symlinks_are_read(x6, d.output_symlinks, t7, rest.len(), budget);
    assert(x6.output_symlinks + d.output_symlinks =~= d.output_symlinks);
    lemma_result_read(d, rest, budget);
    lemma_result_reading(e, t0, rest.len(), budget);
}

/// An answer with the fields at the start of `bytes`.
#[verifier::opaque]
spec fn response_reading(
    x: ExecuteResponseView,
    bytes: Seq<u8>,
    limit: nat,
    budget: nat,
) -> Reading<ExecuteResponseView> {
    response_fields_read(x, bytes, limit, budget)
}

proof fn lemma_response_reading(x: ExecuteResponseView, bytes: Seq<u8>, limit: nat, budget: nat)
    ensures
        response_reading(x, bytes, limit, budget) == response_fields_read(x, bytes, limit, budget),
{
    reveal(response_reading);
}

proof fn lemma_response_read(x: ExecuteResponseView, rest: Seq<u8>, budget: nat)
    ensures
        response_reading(x, rest, rest.len(), budget) == Ok::<
            (ExecuteResponseView, Seq<u8>),
            MalformedView,
        >(
            (x, rest),
        ),
{
    reveal(response_reading);
}

proof fn lemma_response_result(
    x: ExecuteResponseView,
    value: Option<ActionResultView>,
    rest: Seq<u8>,
    limit: nat,
    budget: nat,
)
    requires
        x.result is None,
        message_field(
        1,
        match value {
            Some(part) => Some(result_wire(part)),
            None => None,
        },
    ).len() <= u64::MAX,
        limit <= rest.len(),
        budget >= 3,
    ensures
        response_reading(x, message_field(
        1,
        match value {
            Some(part) => Some(result_wire(part)),
            None => None,
        },
    ) + rest, limit, budget) == response_reading(
            ExecuteResponseView { result: value, ..x },
            rest,
            limit,
            budget,
        ),
{
    reveal(response_reading);
    match value {
        Some(part) => {
            result_is_read_back(part, rest, (budget - 1) as nat);
            response_takes_result(x, result_wire(part), part, rest, limit, budget);
        },
        None => {
            lemma_nothing(rest);
            assert(ExecuteResponseView { result: value, ..x } =~= x);
        },
    }
}

proof fn lemma_response_status(
    x: ExecuteResponseView,
    value: Option<StatusView>,
    rest: Seq<u8>,
    limit: nat,
    budget: nat,
)
    requires
        x.status is None,
        message_field(
        3,
        match value {
            Some(part) => Some(status_wire(part)),
            None => None,
        },
    ).len() <= u64::MAX,
        limit <= rest.len(),
        budget >= 1,
    ensures
        response_reading(x, message_field(
        3,
        match value {
            Some(part) => Some(status_wire(part)),
            None => None,
        },
    ) + rest, limit, budget) == response_reading(
            ExecuteResponseView { status: value, ..x },
            rest,
            limit,
            budget,
        ),
{
    reveal(response_reading);
    match value {
        Some(part) => {
            status_is_read_back(part, rest, (budget - 1) as nat);
            response_takes_status(x, status_wire(part), part, rest, limit, budget);
        },
        None => {
            lemma_nothing(rest);
            assert(ExecuteResponseView { status: value, ..x } =~= x);
        },
    }
}

/// An answer that was written is read back whole, whatever follows it.
#[verifier::rlimit(30)]
pub proof fn response_is_read_back(d: ExecuteResponseView, rest: Seq<u8>, budget: nat)
    requires
        response_wire(d).len() <= u64::MAX,
        budget >= 3,
    ensures
        response_fields_read(empty_response(), response_wire(d) + rest, rest.len(), budget) == Ok::<
            (ExecuteResponseView, Seq<u8>),
            MalformedView,
        >(
            (d, rest),
        ),
{
    let e = empty_response();
    let t2 = rest;
    let w1 = message_field(
        3,
        match d.status {
            Some(part) => Some(status_wire(part)),
            None => None,
        },
    );
    let t1 = w1 + t2;
    let w0 = message_field(
        1,
        match d.result {
            Some(part) => Some(result_wire(part)),
            None => None,
        },
    );
    let t0 = w0 + t1;
    let x0 = e;
    let x1 = ExecuteResponseView { result: d.result, ..x0 };
    assert(response_wire(d) + rest =~= t0);
    lemma_response_result(x0, d.result, t1, rest.len(), budget);
    lemma_response_status(x1, d.status, t2, rest.len(), budget);
    lemma_response_read(d, rest, budget);
    lemma_response_reading(e, t0, rest.len(), budget);
}

/// The files that are read from bytes with files in front are those that the result had, these, and
/// then those of the other bytes, in their order; and so with the links.
pub proof fn files_and_links_add_up(
    x: ActionResultView,
    files: Seq<OutputFileView>,
    links: Seq<OutputSymlinkView>,
    rest: Seq<u8>,
    limit: nat,
    budget: nat,
)
    requires
        repeated(2, output_file_wires(files)).len() <= u64::MAX,
        repeated(12, output_symlink_wires(links)).len() <= u64::MAX,
        limit <= rest.len(),
        budget >= 2,
    ensures
        result_fields_read(x, repeated(2, output_file_wires(files)) + rest, limit, budget)
            == result_fields_read(
            ActionResultView { output_files: x.output_files + files, ..x },
            rest,
            limit,
            budget,
        ),
        result_fields_read(x, repeated(12, output_symlink_wires(links)) + rest, limit, budget)
            == result_fields_read(
            ActionResultView { output_symlinks: x.output_symlinks + links, ..x },
            rest,
            limit,
            budget,
        ),
{
    lemma_output_files_are_read(x, files, rest, limit, budget);
    lemma_output_symlinks_are_read(x, links, rest, limit, budget);
    reveal(result_reading);
}

/// A number that is no key is refused, and it is said why: it is too large, or the kind of field or
/// the tag in it is none.
pub proof fn broken_key_is_refused(
    x: ExecuteResponseView,
    key: nat,
    rest: Seq<u8>,
    limit: nat,
    budget: nat,
)
    requires
        key <= u64::MAX,
        limit <= rest.len(),
    ensures
        key > u32::MAX ==> response_fields_read(x, varint(key) + rest, limit, budget) == broken::<
            ExecuteResponseView,
        >(seq![], "invalid key value: "@ + decimal(key)),
        key <= u32::MAX && key % 8 > 5 ==> response_fields_read(
            x,
            varint(key) + rest,
            limit,
            budget,
        ) == broken::<ExecuteResponseView>(seq![], "invalid wire type value: "@ + decimal(key % 8)),
        key < 6 ==> response_fields_read(x, varint(key) + rest, limit, budget) == broken::<
            ExecuteResponseView,
        >(seq![], "invalid tag value: 0"@),
{
    lemma_varint_at(key, rest);
}

/// Bytes that are no answer are refused, and it is said what is wrong with them and where.
pub proof fn broken_answer_is_refused(bytes: Seq<u8>, m: MalformedView)
    requires
        response_fields_read(empty_response(), bytes, 0, 100) == broken::<ExecuteResponseView>(
            m.places,
            m.what,
        ),
    ensures
        response_of(bytes) == Err::<ExecuteResponseView, ErrorView>(
            failure_by(
                "failed to decode ExecuteResponse from operation payload"@,
                "failed to decode Protobuf message: "@ + m.places + m.what,
            ),
        ),
{
}

/// Decoding undoes encoding: an answer that was written is the answer that is read, with all of its
/// files and links in their order.
pub proof fn decoding_undoes_encoding(x: ExecuteResponseView)
    requires
        response_wire(x).len() <= u64::MAX,
    ensures
        response_of(response_wire(x)) == Ok::<ExecuteResponseView, ErrorView>(x),
{
    let none = Seq::<u8>::empty();
    response_is_read_back(x, none, NESTING as nat);
    assert(response_wire(x) + none =~= response_wire(x));
}

} // verus!
