//! Texts of the operating system, which need not be UTF-8.
use vstd::prelude::*;
use vstd::utf8::{decode_utf8, valid_utf8};

use crate::error::{fail, failure, Error, ErrorView};
use crate::local_path::copy_bytes;
use crate::mapper::{quote, quoting};
use crate::text::texts;

verus! {

/// A text of the operating system: its bytes, and how messages show it.
#[derive(Debug)]
pub struct OsText {
    pub raw: Vec<u8>,
    pub shown: String,
}

/// The content of an [`OsText`].
#[verifier::ext_equal]
pub struct OsView {
    pub raw: Seq<u8>,
    pub shown: Seq<char>,
}

impl View for OsText {
    type V = OsView;

    open spec fn view(&self) -> OsView {
        OsView { raw: self.raw@, shown: self.shown@ }
    }
}

impl Clone for OsText {
    fn clone(&self) -> (r: OsText)
        ensures
            r@ == self@,
    {
        OsText { raw: copy_bytes(self.raw.as_slice()), shown: self.shown.clone() }
    }
}

/// The contents of several texts.
pub open spec fn os_views(s: Seq<OsText>) -> Seq<OsView> {
    s.map_values(|t: OsText| t@)
}

/// `std::str::from_utf8` gives the text that `bytes` encode where they are UTF-8, and an error
/// where they are not.
#[verifier::external_body]
pub(crate) fn from_utf8(bytes: &[u8]) -> (r: Option<String>)
    ensures
        match r {
            Some(s) => valid_utf8(bytes@) && s@ == decode_utf8(bytes@),
            None => !valid_utf8(bytes@),
        },
{
    std::str::from_utf8(bytes).map(str::to_owned).ok()
}

/// The text that the bytes encode.
pub open spec fn utf8_text(value: OsView) -> Result<Seq<char>, ErrorView> {
    if valid_utf8(value.raw) {
        Ok(decode_utf8(value.raw))
    } else {
        Err(failure(quoting("remote execution requires UTF-8, found "@, value.shown)))
    }
}

/// The texts that several texts encode, or the failure of the first that is not UTF-8.
pub open spec fn utf8_texts(values: Seq<OsView>) -> Result<Seq<Seq<char>>, ErrorView>
    decreases values.len(),
{
    if values.len() == 0 {
        Ok(seq![])
    } else {
        match utf8_text(values[0]) {
            Ok(text) => match utf8_texts(values.skip(1)) {
                Ok(rest) => Ok(seq![text] + rest),
                Err(e) => Err(e),
            },
            Err(e) => Err(e),
        }
    }
}

/// The text that the bytes encode.
pub fn os_to_utf8(value: &OsText) -> (r: Result<String, Error>)
    ensures
        match r {
            Ok(s) => utf8_text(value@) == Ok::<Seq<char>, ErrorView>(s@),
            Err(e) => utf8_text(value@) == Err::<Seq<char>, ErrorView>(e@),
        },
{
    match from_utf8(value.raw.as_slice()) {
        Some(s) => Ok(s),
        None => {
            let message = quote("remote execution requires UTF-8, found ", value.shown.as_str());
            Err(fail(message.as_str()))
        },
    }
}

/// The texts that the arguments encode.
pub fn utf8_args(args: &Vec<OsText>) -> (r: Result<Vec<String>, Error>)
    ensures
        match r {
            Ok(v) => utf8_texts(os_views(args@)) == Ok::<Seq<Seq<char>>, ErrorView>(texts(v@)),
            Err(e) => utf8_texts(os_views(args@)) == Err::<Seq<Seq<char>>, ErrorView>(e@),
        },
{
    let ghost all = os_views(args@);
    let mut r: Vec<String> = Vec::new();
    let mut i: usize = 0;
    proof {
        assert(all.skip(0) =~= all);
        if let Ok(rest) = utf8_texts(all) {
            assert(texts(r@) + rest =~= rest);
        }
    }
    while i < args.len()
        invariant
            i <= args@.len(),
            all == os_views(args@),
            match utf8_texts(all.skip(i as int)) {
                Ok(rest) => utf8_texts(all) == Ok::<Seq<Seq<char>>, ErrorView>(texts(r@) + rest),
                Err(e) => utf8_texts(all) == Err::<Seq<Seq<char>>, ErrorView>(e),
            },
        decreases args@.len() - i,
    {
        let ghost before = r@;
        assert(all.skip(i as int)[0] == args@[i as int]@);
        assert(all.skip(i as int).skip(1) =~= all.skip(i + 1));
        match os_to_utf8(&args[i]) {
            Ok(text) => {
                r.push(text);
                proof {
                    assert(texts(r@) =~= texts(before).push(text@));
                    if let Ok(rest) = utf8_texts(all.skip(i + 1)) {
                        assert(texts(r@) + rest =~= texts(before) + (seq![text@] + rest));
                    }
                }
            },
            Err(e) => {
                return Err(e);
            },
        }
        i += 1;
    }
    assert(texts(r@) + seq![] =~= texts(r@));
    Ok(r)
}

} // verus!
