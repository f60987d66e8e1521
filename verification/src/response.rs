//! What the remote service reports of an execution.
use vstd::prelude::*;

use crate::digest::{Digest, DigestView};
use crate::error::{fail_by, failure_by, Error, ErrorView};
use crate::fields::{
    after_value, bytes_read, describe, end_read, find, found, key_read, locate, malformed_text,
    number_read, read_bytes, read_key, read_number, read_start, read_text, reading_in, skip_value,
    start_read, text_read, Malformed, Reading, NESTING,
};
use crate::transfer::{digest_view, status_view, Status, StatusView};

verus! {

/// A file that an execution wrote.
#[derive(Debug)]
pub struct OutputFile {
    pub path: String,
    pub digest: Option<Digest>,
    pub is_executable: bool,
    /// The bytes of the file, where they were sent along.
    pub contents: Vec<u8>,
}

/// The content of an [`OutputFile`].
#[verifier::ext_equal]
pub struct OutputFileView {
    pub path: Seq<char>,
    pub digest: Option<DigestView>,
    pub is_executable: bool,
    pub contents: Seq<u8>,
}

impl View for OutputFile {
    type V = OutputFileView;

    open spec fn view(&self) -> OutputFileView {
        OutputFileView {
            path: self.path@,
            digest: digest_view(self.digest),
            is_executable: self.is_executable,
            contents: self.contents@,
        }
    }
}

/// A symbolic link that an execution wrote.
#[derive(Debug)]
pub struct OutputSymlink {
    pub path: String,
    pub target: String,
}

/// The content of an [`OutputSymlink`].
#[verifier::ext_equal]
pub struct OutputSymlinkView {
    pub path: Seq<char>,
    pub target: Seq<char>,
}

impl View for OutputSymlink {
    type V = OutputSymlinkView;

    open spec fn view(&self) -> OutputSymlinkView {
        OutputSymlinkView { path: self.path@, target: self.target@ }
    }
}

/// What an execution led to.
#[derive(Debug)]
pub struct ActionResult {
    pub output_files: Vec<OutputFile>,
    pub output_symlinks: Vec<OutputSymlink>,
    pub exit_code: i32,
    pub stdout_raw: Vec<u8>,
    pub stdout_digest: Option<Digest>,
    pub stderr_raw: Vec<u8>,
    pub stderr_digest: Option<Digest>,
}

/// The content of an [`ActionResult`].
#[verifier::ext_equal]
pub struct ActionResultView {
    pub output_files: Seq<OutputFileView>,
    pub output_symlinks: Seq<OutputSymlinkView>,
    pub exit_code: i32,
    pub stdout_raw: Seq<u8>,
    pub stdout_digest: Option<DigestView>,
    pub stderr_raw: Seq<u8>,
    pub stderr_digest: Option<DigestView>,
}

/// The contents of several files.
pub open spec fn file_views(s: Seq<OutputFile>) -> Seq<OutputFileView> {
    s.map_values(|f: OutputFile| f@)
}

/// The contents of several links.
pub open spec fn symlink_views(s: Seq<OutputSymlink>) -> Seq<OutputSymlinkView> {
    s.map_values(|l: OutputSymlink| l@)
}

impl View for ActionResult {
    type V = ActionResultView;

    open spec fn view(&self) -> ActionResultView {
        ActionResultView {
            output_files: file_views(self.output_files@),
            output_symlinks: symlink_views(self.output_symlinks@),
            exit_code: self.exit_code,
            stdout_raw: self.stdout_raw@,
            stdout_digest: digest_view(self.stdout_digest),
            stderr_raw: self.stderr_raw@,
            stderr_digest: digest_view(self.stderr_digest),
        }
    }
}

/// The answer to a request for an execution.
#[derive(Debug)]
pub struct ExecuteResponse {
    pub result: Option<ActionResult>,
    pub status: Option<Status>,
}

/// The content of an [`ExecuteResponse`].
#[verifier::ext_equal]
pub struct ExecuteResponseView {
    pub result: Option<ActionResultView>,
    pub status: Option<StatusView>,
}

/// The content of a result that need not be there.
pub open spec fn result_view(r: Option<ActionResult>) -> Option<ActionResultView> {
    match r {
        Some(result) => Some(result@),
        None => None,
    }
}

impl View for ExecuteResponse {
    type V = ExecuteResponseView;

    open spec fn view(&self) -> ExecuteResponseView {
        ExecuteResponseView { result: result_view(self.result), status: status_view(self.status) }
    }
}

/// A digest before any field is known.
pub open spec fn empty_digest() -> DigestView {
    DigestView { hash: seq![], size_bytes: 0 }
}

/// A digest with the field of the given tag and kind, whose value is at the start of `bytes`: the
/// last value of a field stays, and what has no meaning here is passed over.
pub open spec fn digest_field_read(
    x: DigestView,
    tag: u32,
    kind: u8,
    bytes: Seq<u8>,
    budget: nat,
) -> Reading<DigestView> {
    if tag == 1 {
        reading_in(
            "Digest.hash"@,
            match text_read(kind, bytes) {
                Ok((t, rest)) => Ok((DigestView { hash: t, ..x }, rest)),
                Err(m) => Err(m),
            },
        )
    } else if tag == 2 {
        reading_in(
            "Digest.size_bytes"@,
            match number_read(kind, bytes) {
                Ok((n, rest)) => Ok((DigestView { size_bytes: n as i64, ..x }, rest)),
                Err(m) => Err(m),
            },
        )
    } else {
        match after_value(tag, kind, bytes, budget) {
            Ok(rest) => Ok((x, rest)),
            Err(m) => Err(m),
        }
    }
}

/// A digest with the fields at the start of `bytes`, as far as there are more than `limit` bytes.
pub open spec fn digest_fields_read(
    x: DigestView,
    bytes: Seq<u8>,
    limit: nat,
    budget: nat,
) -> Reading<DigestView>
    decreases bytes.len(),
{
    if bytes.len() <= limit {
        end_read(x, bytes, limit)
    } else {
        match key_read(bytes) {
            Err(m) => Err(m),
            Ok(((tag, kind), rest)) => match digest_field_read(x, tag, kind, rest, budget) {
                Err(m) => Err(m),
                Ok((y, later)) => if later.len() < bytes.len() {
                    digest_fields_read(y, later, limit, budget)
                } else {
                    Err(found("buffer underflow"@))
                },
            },
        }
    }
}

/// A digest with the message in a field of the given kind taken in.
pub open spec fn digest_read(x: DigestView, kind: u8, bytes: Seq<u8>, budget: nat) -> Reading<
    DigestView,
> {
    match start_read(kind, bytes, budget) {
        Ok((limit, rest)) => digest_fields_read(x, rest, limit, (budget - 1) as nat),
        Err(m) => Err(m),
    }
}

/// A digest before any field is known.
fn new_digest() -> (r: Digest)
    ensures
        r@ == empty_digest(),
{
    let r = Digest { hash: String::new(), size_bytes: 0 };
    assert(r@ =~= empty_digest());
    r
}

/// A digest with one more field.
fn digest_field(x: Digest, tag: u32, kind: u8, buf: &mut &[u8], budget: u32) -> (r: Result<
    Digest,
    Malformed,
>)
    ensures
        match (r, digest_field_read(x@, tag, kind, old(buf)@, budget as nat)) {
            (Ok(y), Ok((v, rest))) => y@ == v && final(buf)@ == rest && rest.len() <= old(
                buf,
            )@.len(),
            (Err(e), Err(m)) => e@ == m,
            _ => false,
        },
{
    let mut x = x;
    let ghost start = x@;
    match tag {
        1 => match read_text(kind, buf) {
            Ok(v) => {
                x.hash = v;
                assert(x@ =~= DigestView { hash: v@, ..start });
                Ok(x)
            },
            Err(e) => Err(locate(e, "Digest.hash")),
        },
        2 => match read_number(kind, buf) {
            Ok(n) => {
                x.size_bytes = n as i64;
                assert(x@ =~= DigestView { size_bytes: n as i64, ..start });
                Ok(x)
            },
            Err(e) => Err(locate(e, "Digest.size_bytes")),
        },
        _ => match skip_value(tag, kind, buf, budget) {
            Ok(_) => Ok(x),
            Err(e) => Err(e),
        },
    }
}

/// A digest with more fields.
fn digest_fields(from: Digest, buf: &mut &[u8], limit: usize, budget: u32) -> (r: Result<
    Digest,
    Malformed,
>)
    ensures
        match (r, digest_fields_read(from@, old(buf)@, limit as nat, budget as nat)) {
            (Ok(y), Ok((v, rest))) => y@ == v && final(buf)@ == rest && rest.len() <= old(
                buf,
            )@.len(),
            (Err(e), Err(m)) => e@ == m,
            _ => false,
        },
{
    let ghost start = buf@;
    let mut x = from;
    while buf.len() > limit
        invariant
            start == old(buf)@,
            buf@.len() <= start.len(),
            digest_fields_read(from@, start, limit as nat, budget as nat) == digest_fields_read(
                x@,
                buf@,
                limit as nat,
                budget as nat,
            ),
        decreases buf@.len(),
    {
        let (tag, kind) = match read_key(buf) {
            Ok(key) => key,
            Err(e) => {
                return Err(e);
            },
        };
        match digest_field(x, tag, kind, buf, budget) {
            Ok(y) => {
                x = y;
            },
            Err(e) => {
                return Err(e);
            },
        }
    }
    if buf.len() == limit {
        Ok(x)
    } else {
        Err(find("delimited length exceeded"))
    }
}

/// A digest with the message in a field taken in.
fn digest_message(x: Digest, kind: u8, buf: &mut &[u8], budget: u32) -> (r: Result<
    Digest,
    Malformed,
>)
    ensures
        match (r, digest_read(x@, kind, old(buf)@, budget as nat)) {
            (Ok(y), Ok((v, rest))) => y@ == v && final(buf)@ == rest && rest.len() <= old(
                buf,
            )@.len(),
            (Err(e), Err(m)) => e@ == m,
            _ => false,
        },
{
    match read_start(kind, buf, budget) {
        Ok(limit) => digest_fields(x, buf, limit, budget - 1),
        Err(e) => Err(e),
    }
}

/// A status before any field is known.
pub open spec fn empty_status() -> StatusView {
    StatusView { code: 0, message: seq![] }
}

/// A status with the field of the given tag and kind, whose value is at the start of `bytes`: the
/// last value of a field stays, and what has no meaning here is passed over.
pub open spec fn status_field_read(
    x: StatusView,
    tag: u32,
    kind: u8,
    bytes: Seq<u8>,
    budget: nat,
) -> Reading<StatusView> {
    if tag == 1 {
        reading_in(
            "Status.code"@,
            match number_read(kind, bytes) {
                Ok((n, rest)) => Ok((StatusView { code: n as i32, ..x }, rest)),
                Err(m) => Err(m),
            },
        )
    } else if tag == 2 {
        reading_in(
            "Status.message"@,
            match text_read(kind, bytes) {
                Ok((t, rest)) => Ok((StatusView { message: t, ..x }, rest)),
                Err(m) => Err(m),
            },
        )
    } else {
        match after_value(tag, kind, bytes, budget) {
            Ok(rest) => Ok((x, rest)),
            Err(m) => Err(m),
        }
    }
}

/// A status with the fields at the start of `bytes`, as far as there are more than `limit` bytes.
pub open spec fn status_fields_read(
    x: StatusView,
    bytes: Seq<u8>,
    limit: nat,
    budget: nat,
) -> Reading<StatusView>
    decreases bytes.len(),
{
    if bytes.len() <= limit {
        end_read(x, bytes, limit)
    } else {
        match key_read(bytes) {
            Err(m) => Err(m),
            Ok(((tag, kind), rest)) => match status_field_read(x, tag, kind, rest, budget) {
                Err(m) => Err(m),
                Ok((y, later)) => if later.len() < bytes.len() {
                    status_fields_read(y, later, limit, budget)
                } else {
                    Err(found("buffer underflow"@))
                },
            },
        }
    }
}

/// A status with the message in a field of the given kind taken in.
pub open spec fn status_read(x: StatusView, kind: u8, bytes: Seq<u8>, budget: nat) -> Reading<
    StatusView,
> {
    match start_read(kind, bytes, budget) {
        Ok((limit, rest)) => status_fields_read(x, rest, limit, (budget - 1) as nat),
        Err(m) => Err(m),
    }
}

/// A status before any field is known.
fn new_status() -> (r: Status)
    ensures
        r@ == empty_status(),
{
    let r = Status { code: 0, message: String::new() };
    assert(r@ =~= empty_status());
    r
}

/// A status with one more field.
fn status_field(x: Status, tag: u32, kind: u8, buf: &mut &[u8], budget: u32) -> (r: Result<
    Status,
    Malformed,
>)
    ensures
        match (r, status_field_read(x@, tag, kind, old(buf)@, budget as nat)) {
            (Ok(y), Ok((v, rest))) => y@ == v && final(buf)@ == rest && rest.len() <= old(
                buf,
            )@.len(),
            (Err(e), Err(m)) => e@ == m,
            _ => false,
        },
{
    let mut x = x;
    let ghost start = x@;
    match tag {
        1 => match read_number(kind, buf) {
            Ok(n) => {
                x.code = n as i32;
                assert(x@ =~= StatusView { code: n as i32, ..start });
                Ok(x)
            },
            Err(e) => Err(locate(e, "Status.code")),
        },
        2 => match read_text(kind, buf) {
            Ok(v) => {
                x.message = v;
                assert(x@ =~= StatusView { message: v@, ..start });
                Ok(x)
            },
            Err(e) => Err(locate(e, "Status.message")),
        },
        _ => match skip_value(tag, kind, buf, budget) {
            Ok(_) => Ok(x),
            Err(e) => Err(e),
        },
    }
}

/// A status with more fields.
fn status_fields(from: Status, buf: &mut &[u8], limit: usize, budget: u32) -> (r: Result<
    Status,
    Malformed,
>)
    ensures
        match (r, status_fields_read(from@, old(buf)@, limit as nat, budget as nat)) {
            (Ok(y), Ok((v, rest))) => y@ == v && final(buf)@ == rest && rest.len() <= old(
                buf,
            )@.len(),
            (Err(e), Err(m)) => e@ == m,
            _ => false,
        },
{
    let ghost start = buf@;
    let mut x = from;
    while buf.len() > limit
        invariant
            start == old(buf)@,
            buf@.len() <= start.len(),
            status_fields_read(from@, start, limit as nat, budget as nat) == status_fields_read(
                x@,
                buf@,
                limit as nat,
                budget as nat,
            ),
        decreases buf@.len(),
    {
        let (tag, kind) = match read_key(buf) {
            Ok(key) => key,
            Err(e) => {
                return Err(e);
            },
        };
        match status_field(x, tag, kind, buf, budget) {
            Ok(y) => {
                x = y;
            },
            Err(e) => {
                return Err(e);
            },
        }
    }
    if buf.len() == limit {
        Ok(x)
    } else {
        Err(find("delimited length exceeded"))
    }
}

/// A status with the message in a field taken in.
fn status_message(x: Status, kind: u8, buf: &mut &[u8], budget: u32) -> (r: Result<
    Status,
    Malformed,
>)
    ensures
        match (r, status_read(x@, kind, old(buf)@, budget as nat)) {
            (Ok(y), Ok((v, rest))) => y@ == v && final(buf)@ == rest && rest.len() <= old(
                buf,
            )@.len(),
            (Err(e), Err(m)) => e@ == m,
            _ => false,
        },
{
    match read_start(kind, buf, budget) {
        Ok(limit) => status_fields(x, buf, limit, budget - 1),
        Err(e) => Err(e),
    }
}

/// A file before any field is known.
pub open spec fn empty_file() -> OutputFileView {
    OutputFileView { path: seq![], digest: None, is_executable: false, contents: seq![] }
}

/// A file with the field of the given tag and kind, whose value is at the start of `bytes`: the
/// last value of a field stays, and what has no meaning here is passed over.
pub open spec fn file_field_read(
    x: OutputFileView,
    tag: u32,
    kind: u8,
    bytes: Seq<u8>,
    budget: nat,
) -> Reading<OutputFileView> {
    if tag == 1 {
        reading_in(
            "OutputFile.path"@,
            match text_read(kind, bytes) {
                Ok((t, rest)) => Ok((OutputFileView { path: t, ..x }, rest)),
                Err(m) => Err(m),
            },
        )
    } else if tag == 2 {
        reading_in(
            "OutputFile.digest"@,
            match digest_read(
                match x.digest {
                    Some(present) => present,
                    None => empty_digest(),
                },
                kind,
                bytes,
                budget,
            ) {
                Ok((v, rest)) => Ok((OutputFileView { digest: Some(v), ..x }, rest)),
                Err(m) => Err(m),
            },
        )
    } else if tag == 4 {
        reading_in(
            "OutputFile.is_executable"@,
            match number_read(kind, bytes) {
                Ok((n, rest)) => Ok((OutputFileView { is_executable: n != 0, ..x }, rest)),
                Err(m) => Err(m),
            },
        )
    } else if tag == 5 {
        reading_in(
            "OutputFile.contents"@,
            match bytes_read(kind, bytes) {
                Ok((b, rest)) => Ok((OutputFileView { contents: b, ..x }, rest)),
                Err(m) => Err(m),
            },
        )
    } else {
        match after_value(tag, kind, bytes, budget) {
            Ok(rest) => Ok((x, rest)),
            Err(m) => Err(m),
        }
    }
}

/// A file with the fields at the start of `bytes`, as far as there are more than `limit` bytes.
pub open spec fn file_fields_read(
    x: OutputFileView,
    bytes: Seq<u8>,
    limit: nat,
    budget: nat,
) -> Reading<OutputFileView>
    decreases bytes.len(),
{
    if bytes.len() <= limit {
        end_read(x, bytes, limit)
    } else {
        match key_read(bytes) {
            Err(m) => Err(m),
            Ok(((tag, kind), rest)) => match file_field_read(x, tag, kind, rest, budget) {
                Err(m) => Err(m),
                Ok((y, later)) => if later.len() < bytes.len() {
                    file_fields_read(y, later, limit, budget)
                } else {
                    Err(found("buffer underflow"@))
                },
            },
        }
    }
}

/// A file with the message in a field of the given kind taken in.
pub open spec fn file_read(x: OutputFileView, kind: u8, bytes: Seq<u8>, budget: nat) -> Reading<
    OutputFileView,
> {
    match start_read(kind, bytes, budget) {
        Ok((limit, rest)) => file_fields_read(x, rest, limit, (budget - 1) as nat),
        Err(m) => Err(m),
    }
}

/// A file before any field is known.
fn new_file() -> (r: OutputFile)
    ensures
        r@ == empty_file(),
{
    let r = OutputFile {
        path: String::new(),
        digest: None,
        is_executable: false,
        contents: Vec::new(),
    };
    assert(r@ =~= empty_file());
    r
}

/// A file with one more field.
fn file_field(x: OutputFile, tag: u32, kind: u8, buf: &mut &[u8], budget: u32) -> (r: Result<
    OutputFile,
    Malformed,
>)
    ensures
        match (r, file_field_read(x@, tag, kind, old(buf)@, budget as nat)) {
            (Ok(y), Ok((v, rest))) => y@ == v && final(buf)@ == rest && rest.len() <= old(
                buf,
            )@.len(),
            (Err(e), Err(m)) => e@ == m,
            _ => false,
        },
{
    let mut x = x;
    let ghost start = x@;
    match tag {
        1 => match read_text(kind, buf) {
            Ok(v) => {
                x.path = v;
                assert(x@ =~= OutputFileView { path: v@, ..start });
                Ok(x)
            },
            Err(e) => Err(locate(e, "OutputFile.path")),
        },
        2 => {
            let present = match x.digest {
                Some(v) => v,
                None => new_digest(),
            };
            x.digest = None;
            match digest_message(present, kind, buf, budget) {
                Ok(v) => {
                    x.digest = Some(v);
                    assert(x@ =~= OutputFileView { digest: Some(v@), ..start });
                    Ok(x)
                },
                Err(e) => Err(locate(e, "OutputFile.digest")),
            }
        },
        4 => match read_number(kind, buf) {
            Ok(n) => {
                x.is_executable = n != 0;
                assert(x@ =~= OutputFileView { is_executable: n != 0, ..start });
                Ok(x)
            },
            Err(e) => Err(locate(e, "OutputFile.is_executable")),
        },
        5 => match read_bytes(kind, buf) {
            Ok(v) => {
                x.contents = v;
                assert(x@ =~= OutputFileView { contents: v@, ..start });
                Ok(x)
            },
            Err(e) => Err(locate(e, "OutputFile.contents")),
        },
        _ => match skip_value(tag, kind, buf, budget) {
            Ok(_) => Ok(x),
            Err(e) => Err(e),
        },
    }
}

/// A file with more fields.
fn file_fields(from: OutputFile, buf: &mut &[u8], limit: usize, budget: u32) -> (r: Result<
    OutputFile,
    Malformed,
>)
    ensures
        match (r, file_fields_read(from@, old(buf)@, limit as nat, budget as nat)) {
            (Ok(y), Ok((v, rest))) => y@ == v && final(buf)@ == rest && rest.len() <= old(
                buf,
            )@.len(),
            (Err(e), Err(m)) => e@ == m,
            _ => false,
        },
{
    let ghost start = buf@;
    let mut x = from;
    while buf.len() > limit
        invariant
            start == old(buf)@,
            buf@.len() <= start.len(),
            file_fields_read(from@, start, limit as nat, budget as nat) == file_fields_read(
                x@,
                buf@,
                limit as nat,
                budget as nat,
            ),
        decreases buf@.len(),
    {
        let (tag, kind) = match read_key(buf) {
            Ok(key) => key,
            Err(e) => {
                return Err(e);
            },
        };
        match file_field(x, tag, kind, buf, budget) {
            Ok(y) => {
                x = y;
            },
            Err(e) => {
                return Err(e);
            },
        }
    }
    if buf.len() == limit {
        Ok(x)
    } else {
        Err(find("delimited length exceeded"))
    }
}

/// A file with the message in a field taken in.
fn file_message(x: OutputFile, kind: u8, buf: &mut &[u8], budget: u32) -> (r: Result<
    OutputFile,
    Malformed,
>)
    ensures
        match (r, file_read(x@, kind, old(buf)@, budget as nat)) {
            (Ok(y), Ok((v, rest))) => y@ == v && final(buf)@ == rest && rest.len() <= old(
                buf,
            )@.len(),
            (Err(e), Err(m)) => e@ == m,
            _ => false,
        },
{
    match read_start(kind, buf, budget) {
        Ok(limit) => file_fields(x, buf, limit, budget - 1),
        Err(e) => Err(e),
    }
}

/// A link before any field is known.
pub open spec fn empty_symlink() -> OutputSymlinkView {
    OutputSymlinkView { path: seq![], target: seq![] }
}

/// A link with the field of the given tag and kind, whose value is at the start of `bytes`: the
/// last value of a field stays, and what has no meaning here is passed over.
pub open spec fn symlink_field_read(
    x: OutputSymlinkView,
    tag: u32,
    kind: u8,
    bytes: Seq<u8>,
    budget: nat,
) -> Reading<OutputSymlinkView> {
    if tag == 1 {
        reading_in(
            "OutputSymlink.path"@,
            match text_read(kind, bytes) {
                Ok((t, rest)) => Ok((OutputSymlinkView { path: t, ..x }, rest)),
                Err(m) => Err(m),
            },
        )
    } else if tag == 2 {
        reading_in(
            "OutputSymlink.target"@,
            match text_read(kind, bytes) {
                Ok((t, rest)) => Ok((OutputSymlinkView { target: t, ..x }, rest)),
                Err(m) => Err(m),
            },
        )
    } else {
        match after_value(tag, kind, bytes, budget) {
            Ok(rest) => Ok((x, rest)),
            Err(m) => Err(m),
        }
    }
}

/// A link with the fields at the start of `bytes`, as far as there are more than `limit` bytes.
pub open spec fn symlink_fields_read(
    x: OutputSymlinkView,
    bytes: Seq<u8>,
    limit: nat,
    budget: nat,
) -> Reading<OutputSymlinkView>
    decreases bytes.len(),
{
    if bytes.len() <= limit {
        end_read(x, bytes, limit)
    } else {
        match key_read(bytes) {
            Err(m) => Err(m),
            Ok(((tag, kind), rest)) => match symlink_field_read(x, tag, kind, rest, budget) {
                Err(m) => Err(m),
                Ok((y, later)) => if later.len() < bytes.len() {
                    symlink_fields_read(y, later, limit, budget)
                } else {
                    Err(found("buffer underflow"@))
                },
            },
        }
    }
}

/// A link with the message in a field of the given kind taken in.
pub open spec fn symlink_read(
    x: OutputSymlinkView,
    kind: u8,
    bytes: Seq<u8>,
    budget: nat,
) -> Reading<OutputSymlinkView> {
    match start_read(kind, bytes, budget) {
        Ok((limit, rest)) => symlink_fields_read(x, rest, limit, (budget - 1) as nat),
        Err(m) => Err(m),
    }
}

/// A link before any field is known.
fn new_symlink() -> (r: OutputSymlink)
    ensures
        r@ == empty_symlink(),
{
    let r = OutputSymlink { path: String::new(), target: String::new() };
    assert(r@ =~= empty_symlink());
    r
}

/// A link with one more field.
fn symlink_field(x: OutputSymlink, tag: u32, kind: u8, buf: &mut &[u8], budget: u32) -> (r: Result<
    OutputSymlink,
    Malformed,
>)
    ensures
        match (r, symlink_field_read(x@, tag, kind, old(buf)@, budget as nat)) {
            (Ok(y), Ok((v, rest))) => y@ == v && final(buf)@ == rest && rest.len() <= old(
                buf,
            )@.len(),
            (Err(e), Err(m)) => e@ == m,
            _ => false,
        },
{
    let mut x = x;
    let ghost start = x@;
    match tag {
        1 => match read_text(kind, buf) {
            Ok(v) => {
                x.path = v;
                assert(x@ =~= OutputSymlinkView { path: v@, ..start });
                Ok(x)
            },
            Err(e) => Err(locate(e, "OutputSymlink.path")),
        },
        2 => match read_text(kind, buf) {
            Ok(v) => {
                x.target = v;
                assert(x@ =~= OutputSymlinkView { target: v@, ..start });
                Ok(x)
            },
            Err(e) => Err(locate(e, "OutputSymlink.target")),
        },
        _ => match skip_value(tag, kind, buf, budget) {
            Ok(_) => Ok(x),
            Err(e) => Err(e),
        },
    }
}

/// A link with more fields.
fn symlink_fields(from: OutputSymlink, buf: &mut &[u8], limit: usize, budget: u32) -> (r: Result<
    OutputSymlink,
    Malformed,
>)
    ensures
        match (r, symlink_fields_read(from@, old(buf)@, limit as nat, budget as nat)) {
            (Ok(y), Ok((v, rest))) => y@ == v && final(buf)@ == rest && rest.len() <= old(
                buf,
            )@.len(),
            (Err(e), Err(m)) => e@ == m,
            _ => false,
        },
{
    let ghost start = buf@;
    let mut x = from;
    while buf.len() > limit
        invariant
            start == old(buf)@,
            buf@.len() <= start.len(),
            symlink_fields_read(from@, start, limit as nat, budget as nat) == symlink_fields_read(
                x@,
                buf@,
                limit as nat,
                budget as nat,
            ),
        decreases buf@.len(),
    {
        let (tag, kind) = match read_key(buf) {
            Ok(key) => key,
            Err(e) => {
                return Err(e);
            },
        };
        match symlink_field(x, tag, kind, buf, budget) {
            Ok(y) => {
                x = y;
            },
            Err(e) => {
                return Err(e);
            },
        }
    }
    if buf.len() == limit {
        Ok(x)
    } else {
        Err(find("delimited length exceeded"))
    }
}

/// A link with the message in a field taken in.
fn symlink_message(x: OutputSymlink, kind: u8, buf: &mut &[u8], budget: u32) -> (r: Result<
    OutputSymlink,
    Malformed,
>)
    ensures
        match (r, symlink_read(x@, kind, old(buf)@, budget as nat)) {
            (Ok(y), Ok((v, rest))) => y@ == v && final(buf)@ == rest && rest.len() <= old(
                buf,
            )@.len(),
            (Err(e), Err(m)) => e@ == m,
            _ => false,
        },
{
    match read_start(kind, buf, budget) {
        Ok(limit) => symlink_fields(x, buf, limit, budget - 1),
        Err(e) => Err(e),
    }
}

/// A result before any field is known.
pub open spec fn empty_result() -> ActionResultView {
    ActionResultView {
        output_files: seq![],
        output_symlinks: seq![],
        exit_code: 0,
        stdout_raw: seq![],
        stdout_digest: None,
        stderr_raw: seq![],
        stderr_digest: None,
    }
}

/// A result with the field of the given tag and kind, whose value is at the start of `bytes`: the
/// last value of a field stays, and what has no meaning here is passed over.
pub open spec fn result_field_read(
    x: ActionResultView,
    tag: u32,
    kind: u8,
    bytes: Seq<u8>,
    budget: nat,
) -> Reading<ActionResultView> {
    if tag == 2 {
        reading_in(
            "ActionResult.output_files"@,
            match file_read(empty_file(), kind, bytes, budget) {
                Ok((v, rest)) => Ok(
                    (ActionResultView { output_files: x.output_files.push(v), ..x }, rest),
                ),
                Err(m) => Err(m),
            },
        )
    } else if tag == 4 {
        reading_in(
            "ActionResult.exit_code"@,
            match number_read(kind, bytes) {
                Ok((n, rest)) => Ok((ActionResultView { exit_code: n as i32, ..x }, rest)),
                Err(m) => Err(m),
            },
        )
    } else if tag == 5 {
        reading_in(
            "ActionResult.stdout_raw"@,
            match bytes_read(kind, bytes) {
                Ok((b, rest)) => Ok((ActionResultView { stdout_raw: b, ..x }, rest)),
                Err(m) => Err(m),
            },
        )
    } else if tag == 6 {
        reading_in(
            "ActionResult.stdout_digest"@,
            match digest_read(
                match x.stdout_digest {
                    Some(present) => present,
                    None => empty_digest(),
                },
                kind,
                bytes,
                budget,
            ) {
                Ok((v, rest)) => Ok((ActionResultView { stdout_digest: Some(v), ..x }, rest)),
                Err(m) => Err(m),
            },
        )
    } else if tag == 7 {
        reading_in(
            "ActionResult.stderr_raw"@,
            match bytes_read(kind, bytes) {
                Ok((b, rest)) => Ok((ActionResultView { stderr_raw: b, ..x }, rest)),
                Err(m) => Err(m),
            },
        )
    } else if tag == 8 {
        reading_in(
            "ActionResult.stderr_digest"@,
            match digest_read(
                match x.stderr_digest {
                    Some(present) => present,
                    None => empty_digest(),
                },
                kind,
                bytes,
                budget,
            ) {
                Ok((v, rest)) => Ok((ActionResultView { stderr_digest: Some(v), ..x }, rest)),
                Err(m) => Err(m),
            },
        )
    } else if tag == 12 {
        reading_in(
            "ActionResult.output_symlinks"@,
            match symlink_read(empty_symlink(), kind, bytes, budget) {
                Ok((v, rest)) => Ok(
                    (ActionResultView { output_symlinks: x.output_symlinks.push(v), ..x }, rest),
                ),
                Err(m) => Err(m),
            },
        )
    } else {
        match after_value(tag, kind, bytes, budget) {
            Ok(rest) => Ok((x, rest)),
            Err(m) => Err(m),
        }
    }
}

/// A result with the fields at the start of `bytes`, as far as there are more than `limit` bytes.
pub open spec fn result_fields_read(
    x: ActionResultView,
    bytes: Seq<u8>,
    limit: nat,
    budget: nat,
) -> Reading<ActionResultView>
    decreases bytes.len(),
{
    if bytes.len() <= limit {
        end_read(x, bytes, limit)
    } else {
        match key_read(bytes) {
            Err(m) => Err(m),
            Ok(((tag, kind), rest)) => match result_field_read(x, tag, kind, rest, budget) {
                Err(m) => Err(m),
                Ok((y, later)) => if later.len() < bytes.len() {
                    result_fields_read(y, later, limit, budget)
                } else {
                    Err(found("buffer underflow"@))
                },
            },
        }
    }
}

/// A result with the message in a field of the given kind taken in.
pub open spec fn result_read(x: ActionResultView, kind: u8, bytes: Seq<u8>, budget: nat) -> Reading<
    ActionResultView,
> {
    match start_read(kind, bytes, budget) {
        Ok((limit, rest)) => result_fields_read(x, rest, limit, (budget - 1) as nat),
        Err(m) => Err(m),
    }
}

/// A result before any field is known.
fn new_result() -> (r: ActionResult)
    ensures
        r@ == empty_result(),
{
    let r = ActionResult {
        output_files: Vec::new(),
        output_symlinks: Vec::new(),
        exit_code: 0,
        stdout_raw: Vec::new(),
        stdout_digest: None,
        stderr_raw: Vec::new(),
        stderr_digest: None,
    };
    assert(r@ =~= empty_result());
    r
}

/// A result with one more field.
fn result_field(x: ActionResult, tag: u32, kind: u8, buf: &mut &[u8], budget: u32) -> (r: Result<
    ActionResult,
    Malformed,
>)
    ensures
        match (r, result_field_read(x@, tag, kind, old(buf)@, budget as nat)) {
            (Ok(y), Ok((v, rest))) => y@ == v && final(buf)@ == rest && rest.len() <= old(
                buf,
            )@.len(),
            (Err(e), Err(m)) => e@ == m,
            _ => false,
        },
{
    let mut x = x;
    let ghost start = x@;
    match tag {
        2 => match file_message(new_file(), kind, buf, budget) {
            Ok(v) => {
                let ghost before = x@.output_files;
                x.output_files.push(v);
                assert(x@.output_files =~= before.push(v@));
                assert(x@ =~= ActionResultView { output_files: before.push(v@), ..start });
                Ok(x)
            },
            Err(e) => Err(locate(e, "ActionResult.output_files")),
        },
        4 => match read_number(kind, buf) {
            Ok(n) => {
                x.exit_code = n as i32;
                assert(x@ =~= ActionResultView { exit_code: n as i32, ..start });
                Ok(x)
            },
            Err(e) => Err(locate(e, "ActionResult.exit_code")),
        },
        5 => match read_bytes(kind, buf) {
            Ok(v) => {
                x.stdout_raw = v;
                assert(x@ =~= ActionResultView { stdout_raw: v@, ..start });
                Ok(x)
            },
            Err(e) => Err(locate(e, "ActionResult.stdout_raw")),
        },
        6 => {
            let present = match x.stdout_digest {
                Some(v) => v,
                None => new_digest(),
            };
            x.stdout_digest = None;
            match digest_message(present, kind, buf, budget) {
                Ok(v) => {
                    x.stdout_digest = Some(v);
                    assert(x@ =~= ActionResultView { stdout_digest: Some(v@), ..start });
                    Ok(x)
                },
                Err(e) => Err(locate(e, "ActionResult.stdout_digest")),
            }
        },
        7 => match read_bytes(kind, buf) {
            Ok(v) => {
                x.stderr_raw = v;
                assert(x@ =~= ActionResultView { stderr_raw: v@, ..start });
                Ok(x)
            },
            Err(e) => Err(locate(e, "ActionResult.stderr_raw")),
        },
        8 => {
            let present = match x.stderr_digest {
                Some(v) => v,
                None => new_digest(),
            };
            x.stderr_digest = None;
            match digest_message(present, kind, buf, budget) {
                Ok(v) => {
                    x.stderr_digest = Some(v);
                    assert(x@ =~= ActionResultView { stderr_digest: Some(v@), ..start });
                    Ok(x)
                },
                Err(e) => Err(locate(e, "ActionResult.stderr_digest")),
            }
        },
        12 => match symlink_message(new_symlink(), kind, buf, budget) {
            Ok(v) => {
                let ghost before = x@.output_symlinks;
                x.output_symlinks.push(v);
                assert(x@.output_symlinks =~= before.push(v@));
                assert(x@ =~= ActionResultView { output_symlinks: before.push(v@), ..start });
                Ok(x)
            },
            Err(e) => Err(locate(e, "ActionResult.output_symlinks")),
        },
        _ => match skip_value(tag, kind, buf, budget) {
            Ok(_) => Ok(x),
            Err(e) => Err(e),
        },
    }
}

/// A result with more fields.
fn result_fields(from: ActionResult, buf: &mut &[u8], limit: usize, budget: u32) -> (r: Result<
    ActionResult,
    Malformed,
>)
    ensures
        match (r, result_fields_read(from@, old(buf)@, limit as nat, budget as nat)) {
            (Ok(y), Ok((v, rest))) => y@ == v && final(buf)@ == rest && rest.len() <= old(
                buf,
            )@.len(),
            (Err(e), Err(m)) => e@ == m,
            _ => false,
        },
{
    let ghost start = buf@;
    let mut x = from;
    while buf.len() > limit
        invariant
            start == old(buf)@,
            buf@.len() <= start.len(),
            result_fields_read(from@, start, limit as nat, budget as nat) == result_fields_read(
                x@,
                buf@,
                limit as nat,
                budget as nat,
            ),
        decreases buf@.len(),
    {
        let (tag, kind) = match read_key(buf) {
            Ok(key) => key,
            Err(e) => {
                return Err(e);
            },
        };
        match result_field(x, tag, kind, buf, budget) {
            Ok(y) => {
                x = y;
            },
            Err(e) => {
                return Err(e);
            },
        }
    }
    if buf.len() == limit {
        Ok(x)
    } else {
        Err(find("delimited length exceeded"))
    }
}

/// A result with the message in a field taken in.
fn result_message(x: ActionResult, kind: u8, buf: &mut &[u8], budget: u32) -> (r: Result<
    ActionResult,
    Malformed,
>)
    ensures
        match (r, result_read(x@, kind, old(buf)@, budget as nat)) {
            (Ok(y), Ok((v, rest))) => y@ == v && final(buf)@ == rest && rest.len() <= old(
                buf,
            )@.len(),
            (Err(e), Err(m)) => e@ == m,
            _ => false,
        },
{
    match read_start(kind, buf, budget) {
        Ok(limit) => result_fields(x, buf, limit, budget - 1),
        Err(e) => Err(e),
    }
}

/// An answer before any field is known.
pub open spec fn empty_response() -> ExecuteResponseView {
    ExecuteResponseView { result: None, status: None }
}

/// An answer with the field of the given tag and kind, whose value is at the start of `bytes`: the
/// last value of a field stays, and what has no meaning here is passed over.
pub open spec fn response_field_read(
    x: ExecuteResponseView,
    tag: u32,
    kind: u8,
    bytes: Seq<u8>,
    budget: nat,
) -> Reading<ExecuteResponseView> {
    if tag == 1 {
        reading_in(
            "ExecuteResponse.result"@,
            match result_read(
                match x.result {
                    Some(present) => present,
                    None => empty_result(),
                },
                kind,
                bytes,
                budget,
            ) {
                Ok((v, rest)) => Ok((ExecuteResponseView { result: Some(v), ..x }, rest)),
                Err(m) => Err(m),
            },
        )
    } else if tag == 3 {
        reading_in(
            "ExecuteResponse.status"@,
            match status_read(
                match x.status {
                    Some(present) => present,
                    None => empty_status(),
                },
                kind,
                bytes,
                budget,
            ) {
                Ok((v, rest)) => Ok((ExecuteResponseView { status: Some(v), ..x }, rest)),
                Err(m) => Err(m),
            },
        )
    } else {
        match after_value(tag, kind, bytes, budget) {
            Ok(rest) => Ok((x, rest)),
            Err(m) => Err(m),
        }
    }
}

/// An answer with the fields at the start of `bytes`, as far as there are more than `limit` bytes.
pub open spec fn response_fields_read(
    x: ExecuteResponseView,
    bytes: Seq<u8>,
    limit: nat,
    budget: nat,
) -> Reading<ExecuteResponseView>
    decreases bytes.len(),
{
    if bytes.len() <= limit {
        end_read(x, bytes, limit)
    } else {
        match key_read(bytes) {
            Err(m) => Err(m),
            Ok(((tag, kind), rest)) => match response_field_read(x, tag, kind, rest, budget) {
                Err(m) => Err(m),
                Ok((y, later)) => if later.len() < bytes.len() {
                    response_fields_read(y, later, limit, budget)
                } else {
                    Err(found("buffer underflow"@))
                },
            },
        }
    }
}

/// An answer before any field is known.
fn new_response() -> (r: ExecuteResponse)
    ensures
        r@ == empty_response(),
{
    let r = ExecuteResponse { result: None, status: None };
    assert(r@ =~= empty_response());
    r
}

/// An answer with one more field.
fn response_field(
    x: ExecuteResponse,
    tag: u32,
    kind: u8,
    buf: &mut &[u8],
    budget: u32,
) -> (r: Result<ExecuteResponse, Malformed>)
    ensures
        match (r, response_field_read(x@, tag, kind, old(buf)@, budget as nat)) {
            (Ok(y), Ok((v, rest))) => y@ == v && final(buf)@ == rest && rest.len() <= old(
                buf,
            )@.len(),
            (Err(e), Err(m)) => e@ == m,
            _ => false,
        },
{
    let mut x = x;
    let ghost start = x@;
    match tag {
        1 => {
            let present = match x.result {
                Some(v) => v,
                None => new_result(),
            };
            x.result = None;
            match result_message(present, kind, buf, budget) {
                Ok(v) => {
                    x.result = Some(v);
                    assert(x@ =~= ExecuteResponseView { result: Some(v@), ..start });
                    Ok(x)
                },
                Err(e) => Err(locate(e, "ExecuteResponse.result")),
            }
        },
        3 => {
            let present = match x.status {
                Some(v) => v,
                None => new_status(),
            };
            x.status = None;
            match status_message(present, kind, buf, budget) {
                Ok(v) => {
                    x.status = Some(v);
                    assert(x@ =~= ExecuteResponseView { status: Some(v@), ..start });
                    Ok(x)
                },
                Err(e) => Err(locate(e, "ExecuteResponse.status")),
            }
        },
        _ => match skip_value(tag, kind, buf, budget) {
            Ok(_) => Ok(x),
            Err(e) => Err(e),
        },
    }
}

/// An answer with more fields.
fn response_fields(from: ExecuteResponse, buf: &mut &[u8], limit: usize, budget: u32) -> (r: Result<
    ExecuteResponse,
    Malformed,
>)
    ensures
        match (r, response_fields_read(from@, old(buf)@, limit as nat, budget as nat)) {
            (Ok(y), Ok((v, rest))) => y@ == v && final(buf)@ == rest && rest.len() <= old(
                buf,
            )@.len(),
            (Err(e), Err(m)) => e@ == m,
            _ => false,
        },
{
    let ghost start = buf@;
    let mut x = from;
    while buf.len() > limit
        invariant
            start == old(buf)@,
            buf@.len() <= start.len(),
            response_fields_read(from@, start, limit as nat, budget as nat) == response_fields_read(
                x@,
                buf@,
                limit as nat,
                budget as nat,
            ),
        decreases buf@.len(),
    {
        let (tag, kind) = match read_key(buf) {
            Ok(key) => key,
            Err(e) => {
                return Err(e);
            },
        };
        match response_field(x, tag, kind, buf, budget) {
            Ok(y) => {
                x = y;
            },
            Err(e) => {
                return Err(e);
            },
        }
    }
    if buf.len() == limit {
        Ok(x)
    } else {
        Err(find("delimited length exceeded"))
    }
}

/// The answer that bytes encode.
pub open spec fn response_of(bytes: Seq<u8>) -> Result<ExecuteResponseView, ErrorView> {
    match response_fields_read(empty_response(), bytes, 0, NESTING as nat) {
        Ok((response, _)) => Ok(response),
        Err(m) => Err(
            failure_by(
                "failed to decode ExecuteResponse from operation payload"@,
                malformed_text(m),
            ),
        ),
    }
}

/// The answer that the payload of an operation encodes.
pub fn unpack_execute_response(payload: &Vec<u8>) -> (r: Result<ExecuteResponse, Error>)
    ensures
        match r {
            Ok(response) => response_of(payload@) == Ok::<ExecuteResponseView, ErrorView>(
                response@,
            ),
            Err(e) => response_of(payload@) == Err::<ExecuteResponseView, ErrorView>(e@),
        },
{
    let mut buf: &[u8] = payload.as_slice();
    match response_fields(new_response(), &mut buf, 0, NESTING) {
        Ok(response) => Ok(response),
        Err(m) => {
            let cause = describe(&m);
            Err(
                fail_by("failed to decode ExecuteResponse from operation payload", cause.as_str()),
            )
        },
    }
}

} // verus!
