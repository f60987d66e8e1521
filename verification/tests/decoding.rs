use rbe::digest::Digest;
use rbe::error::Error;
use rbe::fields::{read_key, read_number};
use rbe::messages::encode_digest;
use rbe::response::unpack_execute_response;

use prost::bytes::{Buf, BufMut};
use prost::encoding::{DecodeContext, WireType};
use prost::Message;

fn field(tag: u8, bytes: &[u8]) -> Vec<u8> {
    let mut out = vec![tag * 8 + 2];
    if bytes.len() < 128 {
        out.push(bytes.len() as u8);
    } else {
        out.push((bytes.len() % 128 + 128) as u8);
        out.push((bytes.len() / 128) as u8);
    }
    out.extend_from_slice(bytes);
    out
}

fn groups(depth: usize) -> Vec<u8> {
    [vec![0x2b; depth], vec![0x2c; depth]].concat()
}

fn number(tag: u8, value: u8) -> Vec<u8> {
    vec![tag * 8, value]
}

fn digest(hash: &str, size_bytes: i64) -> Digest {
    Digest { hash: hash.to_owned(), size_bytes }
}

fn refused(cause: &str) -> Error {
    Error {
        message: "failed to decode ExecuteResponse from operation payload".to_owned(),
        causes: vec![format!("failed to decode Protobuf message: {cause}")],
    }
}

fn refusal(bytes: Vec<u8>) -> Error {
    match unpack_execute_response(&bytes) {
        Err(e) => e,
        Ok(_) => panic!("{bytes:?} is no answer"),
    }
}

fn file() -> Vec<u8> {
    [
        field(1, b"out/f"),
        field(2, &encode_digest(&digest("ab", 300))),
        number(4, 1),
        field(5, b"xyz"),
    ]
    .concat()
}

fn payload() -> Vec<u8> {
    let link = [field(1, b"out/l"), field(2, b"../t")].concat();
    let result = [
        field(2, &file()),
        number(4, 7),
        field(5, b"hello"),
        field(6, &encode_digest(&digest("o", 5))),
        field(7, b""),
        field(8, &encode_digest(&digest("e", -1))),
        field(12, &link),
    ]
    .concat();
    let status = [number(1, 3), field(2, b"why")].concat();
    [field(1, &result), number(2, 1), field(3, &status)].concat()
}

#[test]
fn answers_are_decoded() {
    let response = unpack_execute_response(&payload()).unwrap();
    let result = response.result.unwrap();
    assert_eq!(result.output_files.len(), 1);
    assert_eq!(result.output_files[0].path, "out/f");
    assert_eq!(result.output_files[0].digest, Some(digest("ab", 300)));
    assert!(result.output_files[0].is_executable);
    assert_eq!(result.output_files[0].contents, b"xyz".to_vec());
    assert_eq!(result.output_symlinks.len(), 1);
    assert_eq!(result.output_symlinks[0].path, "out/l");
    assert_eq!(result.output_symlinks[0].target, "../t");
    assert_eq!(result.exit_code, 7);
    assert_eq!(result.stdout_raw, b"hello".to_vec());
    assert_eq!(result.stdout_digest, Some(digest("o", 5)));
    assert!(result.stderr_raw.is_empty());
    assert_eq!(result.stderr_digest, Some(digest("e", -1)));
    let status = response.status.unwrap();
    assert_eq!(status.code, 3);
    assert_eq!(status.message, "why");
}

#[test]
fn empty_payload_is_an_empty_answer() {
    let response = unpack_execute_response(&Vec::new()).unwrap();
    assert!(response.result.is_none());
    assert!(response.status.is_none());
}

#[test]
fn repeated_messages_are_merged_and_scalars_replaced() {
    let bytes = [
        field(3, &[number(1, 3), field(2, b"one")].concat()),
        field(3, &field(2, b"two")),
    ]
    .concat();
    let status = unpack_execute_response(&bytes).unwrap().status.unwrap();
    assert_eq!(status.code, 3);
    assert_eq!(status.message, "two");
}

#[test]
fn negative_exit_codes_take_ten_bytes() {
    let code = [
        vec![4 * 8],
        vec![0xff, 0xff, 0xff, 0xff, 0xff, 0xff, 0xff, 0xff, 0xff, 0x01],
    ]
    .concat();
    let response = unpack_execute_response(&field(1, &code)).unwrap();
    assert_eq!(response.result.unwrap().exit_code, -1);
}

#[test]
fn malformed_payloads_are_refused() {
    let cases: Vec<(Vec<u8>, &str)> = vec![
        (vec![0x0a], "ExecuteResponse.result: invalid varint"),
        (vec![0x0a, 0x05, 0x00], "ExecuteResponse.result: buffer underflow"),
        (vec![0x80], "invalid varint"),
        (vec![0x00, 0x00], "invalid tag value: 0"),
        (vec![0x0f], "invalid wire type value: 7"),
        (
            number(1, 1),
            "ExecuteResponse.result: invalid wire type: Varint (expected LengthDelimited)",
        ),
        (
            field(1, &number(5, 1)),
            "ActionResult.stdout_raw: ExecuteResponse.result: \
             invalid wire type: Varint (expected LengthDelimited)",
        ),
        (
            field(3, &field(1, b"x")),
            "Status.code: ExecuteResponse.status: \
             invalid wire type: LengthDelimited (expected Varint)",
        ),
        (
            field(3, &field(2, &[0xff])),
            "Status.message: ExecuteResponse.status: \
             invalid string value: data is not UTF-8 encoded",
        ),
        (
            vec![0x0c],
            "ExecuteResponse.result: invalid wire type: EndGroup (expected LengthDelimited)",
        ),
        (
            vec![0x09],
            "ExecuteResponse.result: invalid wire type: SixtyFourBit (expected LengthDelimited)",
        ),
        (
            vec![0x0b],
            "ExecuteResponse.result: invalid wire type: StartGroup (expected LengthDelimited)",
        ),
        (
            vec![0x0d],
            "ExecuteResponse.result: invalid wire type: ThirtyTwoBit (expected LengthDelimited)",
        ),
        (vec![0x2b, 0x08], "invalid varint"),
        (vec![0x34], "unexpected end group tag"),
        (vec![0x2b, 0x34], "unexpected end group tag"),
        (vec![0x21, 0, 0, 0, 0, 0, 0, 0], "buffer underflow"),
        (vec![0x25, 0, 0, 0], "buffer underflow"),
        (vec![0x22, 2, 0], "buffer underflow"),
        (
            vec![0x10, 0xff, 0xff, 0xff, 0xff, 0xff, 0xff, 0xff, 0xff, 0xff, 0x02],
            "invalid varint",
        ),
        (
            vec![0x10, 0x80, 0x80, 0x80, 0x80, 0x80, 0x80, 0x80, 0x80, 0x80, 0x80, 0x00],
            "invalid varint",
        ),
        (vec![0x80, 0x80, 0x80, 0x80, 0x10, 0x00], "invalid key value: 4294967296"),
        (
            vec![0x1a, 0x01, 0x08, 0x05],
            "ExecuteResponse.status: delimited length exceeded",
        ),
        (
            field(1, &field(2, &field(2, &number(1, 1)))),
            "Digest.hash: OutputFile.digest: ActionResult.output_files: \
             ExecuteResponse.result: invalid wire type: Varint (expected LengthDelimited)",
        ),
    ];
    for (bytes, cause) in cases {
        assert_eq!(refusal(bytes), refused(cause));
    }
}

#[test]
fn nesting_has_a_limit_that_messages_count_in() {
    let deep = "recursion limit reached";
    assert!(unpack_execute_response(&groups(100)).is_ok());
    assert_eq!(refusal(groups(101)), refused(deep));
    assert!(unpack_execute_response(&field(3, &groups(99))).is_ok());
    assert_eq!(
        refusal(field(3, &groups(100))),
        refused("ExecuteResponse.status: recursion limit reached")
    );
    assert!(unpack_execute_response(&field(1, &field(6, &groups(98)))).is_ok());
    assert_eq!(
        refusal(field(1, &field(6, &groups(99)))),
        refused("ActionResult.stdout_digest: ExecuteResponse.result: recursion limit reached")
    );
    assert!(unpack_execute_response(&field(1, &field(2, &field(2, &groups(97))))).is_ok());
    assert_eq!(
        refusal(field(1, &field(2, &field(2, &groups(98))))),
        refused(
            "OutputFile.digest: ActionResult.output_files: ExecuteResponse.result: \
             recursion limit reached"
        )
    );
}

#[derive(Debug, Default)]
struct Status {
    code: i32,
    message: String,
}

impl Message for Status {
    fn encode_raw(&self, _buf: &mut impl BufMut) {}

    fn merge_field(
        &mut self,
        tag: u32,
        wire_type: WireType,
        buf: &mut impl Buf,
        ctx: DecodeContext,
    ) -> Result<(), prost::DecodeError> {
        match tag {
            1 => prost::encoding::int32::merge(wire_type, &mut self.code, buf, ctx).map_err(
                |mut e| {
                    e.push("Status", "code");
                    e
                },
            ),
            2 => prost::encoding::string::merge(wire_type, &mut self.message, buf, ctx).map_err(
                |mut e| {
                    e.push("Status", "message");
                    e
                },
            ),
            _ => prost::encoding::skip_field(wire_type, tag, buf, ctx),
        }
    }

    fn encoded_len(&self) -> usize {
        0
    }

    fn clear(&mut self) {}
}

#[derive(Debug, Default)]
struct ExecuteResponse {
    status: Status,
}

impl Message for ExecuteResponse {
    fn encode_raw(&self, _buf: &mut impl BufMut) {}

    fn merge_field(
        &mut self,
        tag: u32,
        wire_type: WireType,
        buf: &mut impl Buf,
        ctx: DecodeContext,
    ) -> Result<(), prost::DecodeError> {
        match tag {
            3 => prost::encoding::message::merge(wire_type, &mut self.status, buf, ctx).map_err(
                |mut e| {
                    e.push("ExecuteResponse", "status");
                    e
                },
            ),
            _ => prost::encoding::skip_field(wire_type, tag, buf, ctx),
        }
    }

    fn encoded_len(&self) -> usize {
        0
    }

    fn clear(&mut self) {}
}

#[test]
fn payloads_are_judged_as_by_the_encoding_library() {
    let whole = [
        field(3, &[number(1, 3), field(2, b"why"), groups(2)].concat()),
        vec![0x21, 1, 2, 3, 4, 5, 6, 7, 8],
        vec![0x25, 1, 2, 3, 4],
        groups(3),
        field(3, &number(1, 9)),
    ]
    .concat();
    let mut cases: Vec<Vec<u8>> = (0..=whole.len()).map(|n| whole[..n].to_vec()).collect();
    for i in 0..whole.len() {
        for byte in [0x00, 0x07, 0x1c, 0x2b, 0x7f, 0x80, 0xff] {
            let mut changed = whole.clone();
            changed[i] = byte;
            cases.push(changed);
        }
    }
    cases.extend([groups(100), groups(101), field(3, &groups(99)), field(3, &groups(100))]);
    for bytes in cases {
        let expected = ExecuteResponse::decode(bytes.as_slice());
        match (unpack_execute_response(&bytes), expected) {
            // These two hold a result, of which the messages here know nothing.
            (Ok(response), _) if response.result.is_some() => {},
            (Err(e), _) if e.causes[0].contains("ExecuteResponse.result") => {},
            (Ok(response), Ok(expected)) => {
                let (code, message) = match response.status {
                    Some(status) => (status.code, status.message),
                    None => (0, String::new()),
                };
                assert_eq!(code, expected.status.code);
                assert_eq!(message, expected.status.message);
            },
            (Err(e), Err(expected)) => assert_eq!(e.causes, vec![expected.to_string()]),
            (r, expected) => panic!("{bytes:?}: {r:?}, {expected:?}"),
        }
    }
}

#[test]
fn fields_without_a_meaning_are_passed_over() {
    let group = vec![0x2b, 0x08, 0x01, 0x33, 0x34, 0x2c];
    let bytes = [
        number(2, 1),
        field(7, b"later"),
        vec![0x21, 1, 2, 3, 4, 5, 6, 7, 8],
        vec![0x25, 1, 2, 3, 4],
        group,
        field(3, &number(1, 9)),
    ]
    .concat();
    let response = unpack_execute_response(&bytes).unwrap();
    assert_eq!(response.status.unwrap().code, 9);
}

#[test]
fn numbers_are_read_from_their_groups() {
    let bytes = [vec![0x08, 0xac, 0x02], vec![0x10], vec![0xff; 9], vec![0x01]].concat();
    let mut buf: &[u8] = &bytes;
    assert_eq!(read_key(&mut buf).unwrap(), (1, 0));
    assert_eq!(read_number(0, &mut buf).unwrap(), 300);
    assert_eq!(read_key(&mut buf).unwrap(), (2, 0));
    assert_eq!(read_number(0, &mut buf).unwrap(), u64::MAX);
    assert!(buf.is_empty());
    assert_eq!(read_number(0, &mut buf).unwrap_err().what, "invalid varint");
}

#[test]
fn digests_survive_the_wire() {
    for original in [digest("", 0), digest("abc", 1), digest("h\u{e9}", -5), digest("x", i64::MAX)] {
        let bytes = field(1, &field(6, &encode_digest(&original)));
        let result = unpack_execute_response(&bytes).unwrap().result.unwrap();
        assert_eq!(result.stdout_digest, Some(original));
    }
}
