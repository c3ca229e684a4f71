//! From value bytes to text: UTF-8 decoding, quote unescaping and the
//! decoding of extended values.
use crate::bytes::{BACKSLASH, QUOTE};
use crate::percent::{percent_decode, percent_decoded};
use std::borrow::Cow;
use vstd::prelude::*;
use vstd::string::StringSliceAdditionalSpecFns;
use vstd::utf8::{decode_utf8, encode_utf8_decode_utf8, valid_utf8};

verus! {

/// The text that `bytes` encodes in UTF-8, `None` when they encode none.
pub open spec fn utf8_text(bytes: Seq<u8>) -> Option<Seq<char>> {
    if valid_utf8(bytes) {
        Some(decode_utf8(bytes))
    } else {
        None
    }
}

/// The characters of an optional string.
pub open spec fn text_of(r: Option<Cow<'_, str>>) -> Option<Seq<char>> {
    match r {
        Some(text) => Some(text@),
        None => None,
    }
}

/// `s` begins with an escaped quote: a backslash and a quote.
pub open spec fn starts_with_escaped_quote(s: Seq<u8>) -> bool {
    s.len() >= 2 && s[0] == BACKSLASH && s[1] == QUOTE
}

/// `s` with every escaped quote, read from left to right, replaced by a
/// plain quote. A backslash before any other byte stands for itself.
pub open spec fn unescaped(s: Seq<u8>) -> Seq<u8>
    decreases s.len(),
{
    if s.len() == 0 {
        s
    } else if starts_with_escaped_quote(s) {
        seq![QUOTE] + unescaped(s.skip(2))
    } else {
        seq![s[0]] + unescaped(s.skip(1))
    }
}

/// The text of a quoted value that held escaped quotes.
pub open spec fn escaped_text(value: Seq<u8>) -> Option<Seq<char>> {
    utf8_text(unescaped(value))
}

/// The text of an extended value.
pub open spec fn extended_text(value: Seq<u8>) -> Option<Seq<char>> {
    utf8_text(percent_decoded(value))
}

/// `core::str::from_utf8`: the bytes as a string slice when they are valid
/// UTF-8, and `None` when they are not. The string's bytes are the input.
#[verifier::external_body]
pub(crate) fn str_from_utf8(bytes: &[u8]) -> (r: Option<&str>)
    ensures
        r is Some <==> valid_utf8(bytes@),
        r matches Some(s) ==> s.spec_bytes() == bytes@,
{
    match core::str::from_utf8(bytes) {
        Ok(s) => Some(s),
        Err(_) => None,
    }
}

/// Reads `bytes` as UTF-8 text.
pub fn text_from_utf8(bytes: &[u8]) -> (r: Option<&str>)
    ensures
        r is Some <==> valid_utf8(bytes@),
        r matches Some(s) ==> s@ == decode_utf8(bytes@),
{
    let r = str_from_utf8(bytes);
    proof {
        if let Some(s) = r {
            encode_utf8_decode_utf8(s@);
        }
    }
    r
}

/// Replaces each escaped quote of `bytes` by a plain quote.
pub fn unescape_quotes(bytes: &[u8]) -> (r: Vec<u8>)
    ensures
        r@ == unescaped(bytes@),
{
    let mut out: Vec<u8> = Vec::with_capacity(bytes.len());
    let mut i: usize = 0;
    assert(bytes@.skip(0) =~= bytes@);
    assert(out@ + unescaped(bytes@) =~= unescaped(bytes@));
    while i < bytes.len()
        invariant
            i <= bytes@.len(),
            out@ + unescaped(bytes@.skip(i as int)) == unescaped(bytes@),
        decreases bytes@.len() - i,
    {
        let ghost tail = bytes@.skip(i as int);
        let ghost before = out@;
        if bytes[i] == BACKSLASH && bytes.len() - i >= 2 && bytes[i + 1] == QUOTE {
            out.push(QUOTE);
            i += 2;
            proof {
                assert(tail.skip(2) =~= bytes@.skip(i as int));
            }
        } else {
            out.push(bytes[i]);
            i += 1;
            proof {
                assert(tail.skip(1) =~= bytes@.skip(i as int));
            }
        }
        assert(out@ + unescaped(bytes@.skip(i as int)) =~= before + unescaped(tail));
    }
    assert(out@ + unescaped(bytes@.skip(i as int)) =~= out@);
    out
}

/// The text of a quoted value that holds escaped quotes: each `\"` becomes
/// `"`, and the result is read as UTF-8. `None` when that is no valid UTF-8.
pub fn convert_escaped(bytes: &[u8]) -> (r: Option<Cow<'_, str>>)
    ensures
        text_of(r) == escaped_text(bytes@),
{
    let plain = unescape_quotes(bytes);
    match text_from_utf8(plain.as_slice()) {
        Some(s) => Some(Cow::Owned(s.to_owned())),
        None => None,
    }
}

/// The text of an extended value: its `%XX` escapes are decoded and the
/// result is read as UTF-8, whatever charset the value named. `None` when
/// the decoded bytes are no valid UTF-8.
pub fn decode_field(value: &[u8]) -> (r: Option<Cow<'_, str>>)
    ensures
        text_of(r) == extended_text(value@),
{
    match percent_decode(value) {
        Some(Cow::Borrowed(bytes)) => match text_from_utf8(bytes) {
            Some(s) => Some(Cow::Borrowed(s)),
            None => None,
        },
        Some(Cow::Owned(bytes)) => match text_from_utf8(bytes.as_slice()) {
            Some(s) => Some(Cow::Owned(s.to_owned())),
            None => None,
        },
        None => None,
    }
}

} // verus!
