//! The two parameters of a `Content-Disposition` header and their
//! extraction.
use crate::headers::{content_disposition_value, get_content_disposition};
use crate::parser::{find_next_field, lemma_next_field_shrinks, next_field, FieldView, ParsedField};
use crate::text::{
    convert_escaped, decode_field, escaped_text, extended_text, text_from_utf8, text_of, utf8_text,
};
use http::header::HeaderMap;
use std::borrow::Cow;
use vstd::prelude::*;

verus! {

/// The parameters of a `Content-Disposition` header that a form needs.
#[derive(Debug)]
pub struct ContentDisposition {
    /// The name of the form field, from the parameter `name`.
    pub field_name: Option<String>,
    /// The name of the uploaded file, from the parameter `filename`.
    pub file_name: Option<String>,
}

/// What a `ContentDisposition` holds, as mathematical values.
pub struct ContentDispositionView {
    pub field_name: Option<Seq<char>>,
    pub file_name: Option<Seq<char>>,
}

/// The characters of an optional owned string.
pub open spec fn string_of(s: Option<String>) -> Option<Seq<char>> {
    match s {
        Some(text) => Some(text@),
        None => None,
    }
}

impl View for ContentDisposition {
    type V = ContentDispositionView;

    open spec fn view(&self) -> ContentDispositionView {
        ContentDispositionView {
            field_name: string_of(self.field_name),
            file_name: string_of(self.file_name),
        }
    }
}

/// A parameter that can be asked for.
#[derive(Clone, Copy, Debug, PartialEq, Eq, Structural)]
pub enum ContentDispositionAttr {
    /// The parameter `name`.
    Name,
    /// The parameter `filename`.
    FileName,
}

/// The value of the first field of `header` named `prefix` that is given
/// in extended form.
///
/// The fields named `prefix` are taken from left to right, each search
/// starting after the name of the field before.
pub open spec fn first_extended(header: Seq<u8>, prefix: Seq<u8>) -> Option<Seq<u8>>
    decreases header.len(),
    via first_extended_terminates
{
    match next_field(header, prefix) {
        Some((field, rest)) => if field.is_extended {
            Some(field.value)
        } else {
            first_extended(rest, prefix)
        },
        None => None,
    }
}

#[via_fn]
proof fn first_extended_terminates(header: Seq<u8>, prefix: Seq<u8>) {
    lemma_next_field_shrinks(header, prefix);
}

/// The text of a field in plain form.
pub open spec fn regular_text(field: FieldView) -> Option<Seq<char>> {
    if field.is_escaped {
        escaped_text(field.value)
    } else {
        utf8_text(field.value)
    }
}

/// The text of the parameter named `prefix` in `header`.
///
/// Where a field named `prefix` is given in extended form, the first such
/// field decides, wherever it stands. Otherwise the first field named
/// `prefix` decides: its text, or nothing when its value is no valid UTF-8.
/// Without any such field there is no text.
pub open spec fn extracted(header: Seq<u8>, prefix: Seq<u8>) -> Option<Seq<char>> {
    match first_extended(header, prefix) {
        Some(value) => extended_text(value),
        None => match next_field(header, prefix) {
            Some((field, _)) => regular_text(field),
            None => None,
        },
    }
}

/// What a header value, if there is one, gives for the two parameters.
pub open spec fn disposition_of(value: Option<Seq<u8>>) -> ContentDispositionView {
    match value {
        Some(header) => ContentDispositionView {
            field_name: extracted(header, ContentDispositionAttr::Name.prefix()),
            file_name: extracted(header, ContentDispositionAttr::FileName.prefix()),
        },
        None => ContentDispositionView { field_name: None, file_name: None },
    }
}

impl ContentDispositionAttr {
    /// The parameter's name in lower case: `name` or `filename`.
    pub open spec fn prefix(self) -> Seq<u8> {
        match self {
            ContentDispositionAttr::Name => seq![0x6eu8, 0x61, 0x6d, 0x65],
            ContentDispositionAttr::FileName => seq![
                0x66u8, 0x69, 0x6c, 0x65, 0x6e, 0x61, 0x6d, 0x65,
            ],
        }
    }

    /// Extracts this parameter's text from the value of a header.
    ///
    /// A field in extended form wins over one in plain form, wherever the
    /// two stand; among fields in plain form the leftmost wins. `None`
    /// when the header holds no such field, or when the bytes of the field
    /// that decides are no valid UTF-8.
    pub fn extract_from<'h>(&self, header: &'h [u8]) -> (r: Option<Cow<'h, str>>)
        ensures
            text_of(r) == extracted(header@, self.prefix()),
    {
        let name: [u8; 4] = [0x6e, 0x61, 0x6d, 0x65];
        let filename: [u8; 8] = [0x66, 0x69, 0x6c, 0x65, 0x6e, 0x61, 0x6d, 0x65];
        let prefix = match self {
            ContentDispositionAttr::Name => name.as_slice(),
            ContentDispositionAttr::FileName => filename.as_slice(),
        };
        assert(prefix@ =~= self.prefix());

        let mut regular_result: Option<ParsedField<'h>> = None;
        let mut current_header = header;
        loop
            invariant
                prefix@ == self.prefix(),
                first_extended(current_header@, prefix@) == first_extended(header@, prefix@),
                regular_result is None ==> current_header@ == header@,
                regular_result matches Some(field) ==> !field.is_extended && (next_field(
                    header@,
                    prefix@,
                ) matches Some((first, _)) && first == field@),
            ensures
                first_extended(header@, prefix@) is None,
                regular_result is None ==> next_field(header@, prefix@) is None,
                regular_result matches Some(field) ==> (next_field(header@, prefix@) matches Some(
                    (first, _),
                ) && first == field@),
            decreases current_header@.len(),
        {
            proof {
                lemma_next_field_shrinks(current_header@, prefix@);
            }
            match find_next_field(current_header, prefix) {
                Some((field, rest)) => {
                    if field.is_extended {
                        return decode_field(field.value);
                    } else if regular_result.is_none() {
                        regular_result = Some(field);
                    }
                    current_header = rest;
                },
                None => {
                    break ;
                },
            }
        }
        match regular_result {
            Some(field) => {
                if field.is_escaped {
                    convert_escaped(field.value)
                } else {
                    match text_from_utf8(field.value) {
                        Some(text) => Some(Cow::Borrowed(text)),
                        None => None,
                    }
                }
            },
            None => None,
        }
    }
}

/// Makes an owned string of an extracted text.
pub fn into_owned(text: Option<Cow<'_, str>>) -> (r: Option<String>)
    ensures
        string_of(r) == text_of(text),
{
    match text {
        Some(Cow::Borrowed(s)) => Some(s.to_owned()),
        Some(Cow::Owned(s)) => Some(s),
        None => None,
    }
}

impl ContentDisposition {
    /// Reads both parameters from the value of a `Content-Disposition`
    /// header. Without a header value both are absent.
    pub fn from_value(value: Option<&[u8]>) -> (r: ContentDisposition)
        ensures
            r@ == disposition_of(
                match value {
                    Some(header) => Some(header@),
                    None => None,
                },
            ),
    {
        match value {
            Some(header) => ContentDisposition {
                field_name: into_owned(ContentDispositionAttr::Name.extract_from(header)),
                file_name: into_owned(ContentDispositionAttr::FileName.extract_from(header)),
            },
            None => ContentDisposition { field_name: None, file_name: None },
        }
    }

    /// Reads both parameters from the `Content-Disposition` header of
    /// `headers`, from its first value when there are several. Without
    /// such a header both are absent.
    pub fn parse(headers: &HeaderMap) -> (r: ContentDisposition)
        ensures
            r@ == disposition_of(content_disposition_value(*headers)),
    {
        ContentDisposition::from_value(get_content_disposition(headers))
    }
}

} // verus!
