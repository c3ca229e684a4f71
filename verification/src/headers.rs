//! The header map of the `http` crate, from which the header's value comes.
use http::header::{HeaderMap, HeaderValue};
use vstd::prelude::*;

verus! {

/// `http::header::HeaderValue`, the value of one header, opaque here.
#[verifier::external_type_specification]
#[verifier::external_body]
pub struct ExHeaderValue(HeaderValue);

/// `http::header::HeaderMap`, a multimap from header names to values,
/// opaque here.
#[verifier::external_type_specification]
#[verifier::external_body]
#[verifier::reject_recursive_types(T)]
pub struct ExHeaderMap<T>(HeaderMap<T>);

/// What a header map holds: for each header name that has a value, written
/// in lower case, the bytes of its values, the one that was set first at
/// the front.
pub uninterp spec fn header_values(headers: HeaderMap) -> Map<Seq<u8>, Seq<Seq<u8>>>;

/// The bytes of `content-disposition`, the name of the header.
pub open spec fn content_disposition_name() -> Seq<u8> {
    seq![
        0x63u8, 0x6f, 0x6e, 0x74, 0x65, 0x6e, 0x74, 0x2d, 0x64, 0x69, 0x73, 0x70, 0x6f, 0x73, 0x69,
        0x74, 0x69, 0x6f, 0x6e,
    ]
}

/// The value of the `Content-Disposition` header that `headers` holds: the
/// first one when there are several, `None` when there is none.
pub open spec fn content_disposition_value(headers: HeaderMap) -> Option<Seq<u8>> {
    if header_values(headers).contains_key(content_disposition_name()) {
        Some(header_values(headers)[content_disposition_name()][0])
    } else {
        None
    }
}

/// `HeaderMap::get` with the key `http::header::CONTENT_DISPOSITION`, and
/// `HeaderValue::as_bytes` on what it finds: the bytes of the first value
/// that the map holds under the name `content-disposition`, `None` when it
/// holds no value under that name.
#[verifier::external_body]
pub(crate) fn get_content_disposition(headers: &HeaderMap) -> (r: Option<&[u8]>)
    ensures
        r is Some <==> header_values(*headers).contains_key(content_disposition_name()),
        r matches Some(value) ==> header_values(*headers)[content_disposition_name()].len() > 0
            && value@ == header_values(*headers)[content_disposition_name()][0],
{
    match headers.get(http::header::CONTENT_DISPOSITION) {
        Some(value) => Some(value.as_bytes()),
        None => None,
    }
}

} // verus!
