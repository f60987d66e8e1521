//! What a command printed, line by line.
use vstd::prelude::*;

use crate::local_path::{from_utf8_lossy, lossy_text};
use crate::text::{chars_of, pieces, split_on, text_of, texts};

verus! {

/// A line without the carriage return at its end.
pub open spec fn without_return(line: Seq<char>) -> Seq<char> {
    if line.len() > 0 && line.last() == '\r' {
        line.drop_last()
    } else {
        line
    }
}

/// The lines of a text: each ends at a line feed, or at a carriage return and a line feed, and what
/// follows the last line feed is a line where it is not empty.
pub open spec fn lines_of(text: Seq<char>) -> Seq<Seq<char>> {
    let ps = pieces(text, '\n');
    ps.drop_last().map_values(|line: Seq<char>| without_return(line)) + (if ps.last().len() > 0 {
        seq![ps.last()]
    } else {
        seq![]
    })
}

/// A line without the carriage return at its end.
fn trim_return(line: &str) -> (r: String)
    ensures
        r@ == without_return(line@),
{
    let chars = chars_of(line);
    if chars.len() > 0 && chars[chars.len() - 1] == '\r' {
        let r = text_of(&chars, 0, chars.len() - 1);
        assert(r@ =~= line@.drop_last());
        r
    } else {
        line.to_owned()
    }
}

/// The lines of what was printed; what is no UTF-8 is replaced.
pub fn emit_lines(bytes: &Vec<u8>) -> (r: Vec<String>)
    ensures
        texts(r@) == lines_of(lossy_text(bytes@)),
{
    let text = from_utf8_lossy(bytes.as_slice());
    lines(text.as_str())
}

/// A line that a command printed, and where.
#[derive(Debug, PartialEq, Eq)]
pub enum Line {
    Stdout(String),
    Stderr(String),
}

/// The content of a [`Line`].
pub enum LineView {
    Stdout(Seq<char>),
    Stderr(Seq<char>),
}

impl View for Line {
    type V = LineView;

    open spec fn view(&self) -> LineView {
        match self {
            Line::Stdout(text) => LineView::Stdout(text@),
            Line::Stderr(text) => LineView::Stderr(text@),
        }
    }
}

/// The contents of several lines.
pub open spec fn line_views(s: Seq<Line>) -> Seq<LineView> {
    s.map_values(|line: Line| line@)
}

/// The lines that a command printed, in the order in which they are passed on: those on its
/// standard output, then those on its standard error.
pub open spec fn printed(stdout: Seq<u8>, stderr: Seq<u8>) -> Seq<LineView> {
    lines_of(lossy_text(stdout)).map_values(|t: Seq<char>| LineView::Stdout(t)) + lines_of(
        lossy_text(stderr),
    ).map_values(|t: Seq<char>| LineView::Stderr(t))
}

/// The lines that a command printed, in the order in which they are passed on.
pub fn printed_lines(stdout: &Vec<u8>, stderr: &Vec<u8>) -> (r: Vec<Line>)
    ensures
        line_views(r@) == printed(stdout@, stderr@),
{
    let out = emit_lines(stdout);
    let err = emit_lines(stderr);
    let mut r: Vec<Line> = Vec::new();
    let mut i: usize = 0;
    while i < out.len()
        invariant
            i <= out@.len(),
            r@.len() == i,
            forall|j: int| 0 <= j < i ==> (#[trigger] r@[j])@ == LineView::Stdout(out@[j]@),
        decreases out@.len() - i,
    {
        r.push(Line::Stdout(out[i].clone()));
        i += 1;
    }
    let mut k: usize = 0;
    while k < err.len()
        invariant
            k <= err@.len(),
            r@.len() == out@.len() + k,
            forall|j: int|
                0 <= j < out@.len() ==> (#[trigger] r@[j])@ == LineView::Stdout(out@[j]@),
            forall|j: int|
                out@.len() <= j < r@.len() ==> (#[trigger] r@[j])@ == LineView::Stderr(
                    err@[j - out@.len()]@,
                ),
        decreases err@.len() - k,
    {
        r.push(Line::Stderr(err[k].clone()));
        k += 1;
    }
    proof {
        let a = lines_of(lossy_text(stdout@));
        let b = lines_of(lossy_text(stderr@));
        assert forall|j: int| 0 <= j < r@.len() implies #[trigger] line_views(r@)[j] == printed(
            stdout@,
            stderr@,
        )[j] by {
            if j < out@.len() {
                assert(a[j] == out@[j]@);
            } else {
                assert(b[j - out@.len()] == err@[j - out@.len()]@);
            }
        }
        assert(line_views(r@) =~= printed(stdout@, stderr@));
    }
    r
}

/// There is at least one piece.
proof fn lemma_some_piece(s: Seq<char>, c: char)
    ensures
        pieces(s, c).len() > 0,
{
}

/// The lines of a text.
pub fn lines(text: &str) -> (r: Vec<String>)
    ensures
        texts(r@) == lines_of(text@),
{
    let parts = split_on(text, '\n');
    let ghost ps = pieces(text@, '\n');
    proof {
        lemma_some_piece(text@, '\n');
        assert(texts(parts@).len() == parts@.len());
    }
    let mut r: Vec<String> = Vec::new();
    let last = parts.len() - 1;
    let mut i: usize = 0;
    while i < last
        invariant
            i <= last,
            last + 1 == parts@.len(),
            r@.len() == i,
            forall|j: int| 0 <= j < i ==> (#[trigger] r@[j])@ == without_return(parts@[j]@),
        decreases last - i,
    {
        r.push(trim_return(parts[i].as_str()));
        i += 1;
    }
    let ghost front = ps.drop_last().map_values(|line: Seq<char>| without_return(line));
    proof {
        assert(texts(parts@)[last as int] == parts@[last as int]@);
        assert forall|j: int| 0 <= j < last implies texts(parts@)[j] == (#[trigger] parts@[j])@ by {}
        assert(texts(r@) =~= front);
    }
    if !parts[last].as_str().is_empty() {
        r.push(parts[last].clone());
        assert(texts(r@) =~= front.push(ps.last()));
        assert(texts(r@) =~= lines_of(text@));
    } else {
        assert(texts(r@) =~= lines_of(text@));
    }
    r
}

} // verus!
