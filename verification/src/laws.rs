//! What extraction promises, stated of whole headers.
use crate::bytes::{find, lemma_find2, ASTERISK, EQUALS, PERCENT, QUOTE, SEMICOLON, SPACE};
use crate::content_disposition::{extracted, regular_text, ContentDispositionAttr};
use crate::occurrences::{
    extended_at, field_at, first_field_index, lemma_first_extended_is_leftmost,
    lemma_first_extended_none, lemma_first_field,
};
use crate::parser::{backslash_run, has_prefix, lower, parameter_field, parsed_value, FieldView};
use crate::percent::{
    escape_value, hex_digit_of, hex_value, is_hex_digit, percent_decoded, percent_encoded,
    starts_with_escape,
};
use crate::shapes::{
    all_ws, extended_parameter, extended_parts, lacks, lemma_extended_needs_asterisk,
    lemma_extended_parameter, lemma_lacks_concat, lemma_one_semicolon, lemma_parameter,
    lemma_parameter_after, lemma_parameter_of_other_name, lemma_plain_parameter, lemma_plain_parameter_lacks_asterisk,
    lemma_plain_parameter_lacks_semicolon, lemma_quoted_parameter, lemma_two_parameters,
    lemma_unescaped_without_quote, lemma_unquoted_value,
    plain_parameter, quotable, quoted, spells, unquoted,
};
use crate::text::{extended_text, unescaped, utf8_text};
use vstd::prelude::*;
use vstd::utf8::{decode_utf8, encode_utf8, encode_utf8_decode_utf8, encode_utf8_valid_utf8};

verus! {

/// The text of what follows the `=` of a parameter in plain form.
pub open spec fn plain_value_text(value: Seq<u8>) -> Option<Seq<char>> {
    match parsed_value(value) {
        Some((found, escaped)) => regular_text(
            FieldView { value: found, is_extended: false, is_escaped: escaped },
        ),
        None => None,
    }
}

/// The name of a parameter is made of lower-case letters.
pub proof fn lemma_attr_prefix(attr: ContentDispositionAttr)
    ensures
        attr.prefix().len() > 0,
        forall|k: int|
            0 <= k < attr.prefix().len() ==> 0x61 <= #[trigger] attr.prefix()[k] <= 0x7a,
{
}

/// A header in which no parameter holds the field gives no text for it.
pub proof fn law_absent_without_field(attr: ContentDispositionAttr, header: Seq<u8>)
    requires
        forall|j: int| 0 <= j < header.len() ==> field_at(header, j, attr.prefix()) is None,
    ensures
        extracted(header, attr.prefix()) is None,
{
    let name = attr.prefix();
    lemma_first_field(header, name);
    assert forall|j: int| 0 <= j < header.len() implies !extended_at(header, j, name) by {
        assert(field_at(header, j, name) is None);
    }
    lemma_first_extended_none(header, name);
}

/// The leftmost field in extended form decides, whatever fields in plain
/// form the header holds and wherever they stand, before it or after it.
pub proof fn law_extended_form_wins(attr: ContentDispositionAttr, header: Seq<u8>, i: int)
    requires
        extended_at(header, i, attr.prefix()),
        forall|j: int| 0 <= j < i ==> !extended_at(header, j, attr.prefix()),
    ensures
        field_at(header, i, attr.prefix()) matches Some(field) && extracted(header, attr.prefix())
            == extended_text(field.value),
        extracted(header, attr.prefix()) is Some,
{
    lemma_attr_prefix(attr);
    lemma_first_extended_is_leftmost(header, attr.prefix(), i);
}

/// Where no field is in extended form, the leftmost field decides.
pub proof fn law_first_plain_form_wins(attr: ContentDispositionAttr, header: Seq<u8>, i: int)
    requires
        field_at(header, i, attr.prefix()) is Some,
        forall|j: int| 0 <= j < i ==> field_at(header, j, attr.prefix()) is None,
        forall|j: int| 0 <= j < header.len() ==> !extended_at(header, j, attr.prefix()),
    ensures
        field_at(header, i, attr.prefix()) matches Some(field) && extracted(header, attr.prefix())
            == regular_text(field),
{
    let name = attr.prefix();
    lemma_first_field(header, name);
    lemma_first_extended_none(header, name);
    let k = first_field_index(header, name);
    if k < i {
        assert(field_at(header, k, name) is None);
    }
}

/// A parameter's name matches in whatever case it is written: the
/// parameter holds the same field as with its name in lower case.
pub proof fn law_name_case_is_ignored(
    attr: ContentDispositionAttr,
    gap: Seq<u8>,
    key: Seq<u8>,
    after_name: Seq<u8>,
)
    requires
        all_ws(gap),
        spells(key, attr.prefix()),
    ensures
        has_prefix(key + after_name, attr.prefix()),
        parameter_field(gap + key + after_name, attr.prefix()) == parameter_field(
            gap + attr.prefix() + after_name,
            attr.prefix(),
        ),
{
    let name = attr.prefix();
    lemma_attr_prefix(attr);
    lemma_parameter(gap, key, after_name, name);
    lemma_parameter(gap, name, after_name, name);
    assert forall|j: int| 0 <= j < name.len() implies lower(#[trigger] (key + after_name)[j])
        == lower(name[j]) by {
        assert((key + after_name)[j] == key[j]);
    }
}

/// A quoted value whose quotes are all escaped is extracted with each
/// escaped quote made a plain one.
///
/// The header holds, after the `;` at index `i`, the parameter
/// `name="x"`, its name in any case. This is the first field of that name,
/// and none is in extended form.
pub proof fn law_escaped_quotes_are_unescaped(
    attr: ContentDispositionAttr,
    header: Seq<u8>,
    i: int,
    gap: Seq<u8>,
    key: Seq<u8>,
    x: Seq<u8>,
    post: Seq<u8>,
)
    requires
        0 <= i < header.len(),
        header[i] == SEMICOLON,
        header.skip(i + 1) == plain_parameter(gap, key, quoted(x)) + post,
        all_ws(gap),
        spells(key, attr.prefix()),
        quotable(x),
        forall|j: int| 0 <= j < i ==> field_at(header, j, attr.prefix()) is None,
        forall|j: int| 0 <= j < header.len() ==> !extended_at(header, j, attr.prefix()),
    ensures
        extracted(header, attr.prefix()) == utf8_text(unescaped(x)),
{
    lemma_attr_prefix(attr);
    lemma_quoted_parameter(gap, key, x, post, attr.prefix());
    law_first_plain_form_wins(attr, header, i);
    lemma_find2(x, QUOTE, QUOTE);
    if find(x, QUOTE) >= x.len() {
        lemma_unescaped_without_quote(x);
    }
}

/// A quoted name without a quote in it is extracted exactly.
///
/// The header holds, after the `;` at index `i`, the parameter
/// `name="x"`, its name in any case. This is the first field of that name,
/// and none is in extended form. `x` does not end with a backslash that
/// would escape the closing quote.
pub proof fn law_quoted_value_is_extracted(
    attr: ContentDispositionAttr,
    header: Seq<u8>,
    i: int,
    gap: Seq<u8>,
    key: Seq<u8>,
    x: Seq<u8>,
    post: Seq<u8>,
)
    requires
        0 <= i < header.len(),
        header[i] == SEMICOLON,
        header.skip(i + 1) == plain_parameter(gap, key, quoted(x)) + post,
        all_ws(gap),
        spells(key, attr.prefix()),
        lacks(x, QUOTE),
        backslash_run(x, x.len() as int) % 2 == 0,
        forall|j: int| 0 <= j < i ==> field_at(header, j, attr.prefix()) is None,
        forall|j: int| 0 <= j < header.len() ==> !extended_at(header, j, attr.prefix()),
    ensures
        extracted(header, attr.prefix()) == utf8_text(x),
{
    law_escaped_quotes_are_unescaped(attr, header, i, gap, key, x, post);
    lemma_unescaped_without_quote(x);
}

/// An unquoted value is extracted as it stands.
///
/// The header holds, after the `;` at index `i`, the parameter
/// `name=token`, its name in any case. This is the first field of that
/// name, and none is in extended form. The token ends where the header
/// ends or a `;` or a space follows.
pub proof fn law_unquoted_value_is_extracted(
    attr: ContentDispositionAttr,
    header: Seq<u8>,
    i: int,
    gap: Seq<u8>,
    key: Seq<u8>,
    token: Seq<u8>,
    post: Seq<u8>,
)
    requires
        0 <= i < header.len(),
        header[i] == SEMICOLON,
        header.skip(i + 1) == plain_parameter(gap, key, token) + post,
        all_ws(gap),
        spells(key, attr.prefix()),
        unquoted(token, post),
        forall|j: int| 0 <= j < i ==> field_at(header, j, attr.prefix()) is None,
        forall|j: int| 0 <= j < header.len() ==> !extended_at(header, j, attr.prefix()),
    ensures
        extracted(header, attr.prefix()) == utf8_text(token),
{
    lemma_attr_prefix(attr);
    lemma_plain_parameter(gap, key, token, post, attr.prefix());
    lemma_unquoted_value(token, post);
    law_first_plain_form_wins(attr, header, i);
}

/// A quoted value is extracted in full, whatever `;` it holds.
///
/// The header is `pre; name="x"post`, with no `;` before the parameter and
/// no `*` in or after the value.
pub proof fn law_quoted_value_keeps_semicolons(
    attr: ContentDispositionAttr,
    pre: Seq<u8>,
    gap: Seq<u8>,
    key: Seq<u8>,
    x: Seq<u8>,
    post: Seq<u8>,
)
    requires
        lacks(pre, SEMICOLON),
        all_ws(gap),
        spells(key, attr.prefix()),
        quotable(x),
        lacks(x, ASTERISK),
        lacks(post, ASTERISK),
    ensures
        extracted(
            pre + seq![SEMICOLON] + plain_parameter(gap, key, quoted(x)) + post,
            attr.prefix(),
        ) == utf8_text(unescaped(x)),
{
    let name = attr.prefix();
    lemma_attr_prefix(attr);
    let parameter = plain_parameter(gap, key, quoted(x)) + post;
    let header = pre + seq![SEMICOLON] + plain_parameter(gap, key, quoted(x)) + post;
    let i = pre.len() as int;
    assert(header =~= pre + seq![SEMICOLON] + parameter);
    lemma_parameter_after(pre, parameter);
    assert(lacks(parameter, ASTERISK)) by {
        lemma_lacks_concat(seq![QUOTE], x, ASTERISK);
        lemma_lacks_concat(seq![QUOTE] + x, seq![QUOTE], ASTERISK);
        lemma_plain_parameter_lacks_asterisk(gap, key, quoted(x), name);
        lemma_lacks_concat(plain_parameter(gap, key, quoted(x)), post, ASTERISK);
    }
    assert forall|j: int| 0 <= j < header.len() implies !extended_at(header, j, name) by {
        if j >= i {
            assert forall|k: int| j < k < header.len() implies header[k] != ASTERISK by {
                assert(header[k] == parameter[k - i - 1]);
            }
            lemma_extended_needs_asterisk(header, j, name);
        }
    }
    law_escaped_quotes_are_unescaped(attr, header, i, gap, key, x, post);
}

/// An empty quoted value gives the empty text, not nothing.
///
/// The header is `pre; name=""post`, with no `;` before the parameter and
/// no `*` after it.
pub proof fn law_empty_quoted_value_is_present(
    attr: ContentDispositionAttr,
    pre: Seq<u8>,
    gap: Seq<u8>,
    key: Seq<u8>,
    post: Seq<u8>,
)
    requires
        lacks(pre, SEMICOLON),
        all_ws(gap),
        spells(key, attr.prefix()),
        lacks(post, ASTERISK),
    ensures
        extracted(
            pre + seq![SEMICOLON] + plain_parameter(gap, key, quoted(Seq::empty())) + post,
            attr.prefix(),
        ) == Some(Seq::<char>::empty()),
{
    let x = Seq::<u8>::empty();
    law_quoted_value_keeps_semicolons(attr, pre, gap, key, x, post);
    assert(unescaped(x) =~= x);
    assert(decode_utf8(x) =~= Seq::<char>::empty());
}

/// An extended value decides when no other stands before it, whatever
/// fields in plain form the header holds and wherever they stand.
///
/// The header holds, after the `;` at index `i`, the parameter
/// `name*=charset'language'value`, its name in any case. The value ends
/// where the header ends or a `;` or a space follows.
pub proof fn law_extended_value_wins(
    attr: ContentDispositionAttr,
    header: Seq<u8>,
    i: int,
    gap: Seq<u8>,
    key: Seq<u8>,
    charset: Seq<u8>,
    language: Seq<u8>,
    value: Seq<u8>,
    post: Seq<u8>,
)
    requires
        0 <= i < header.len(),
        header[i] == SEMICOLON,
        header.skip(i + 1) == extended_parameter(gap, key, charset, language, value) + post,
        all_ws(gap),
        spells(key, attr.prefix()),
        extended_parts(charset, language, value),
        post.len() > 0 ==> post[0] == SEMICOLON || post[0] == SPACE,
        forall|j: int| 0 <= j < i ==> !extended_at(header, j, attr.prefix()),
    ensures
        extracted(header, attr.prefix()) == extended_text(value),
{
    lemma_attr_prefix(attr);
    lemma_extended_parameter(gap, key, charset, language, value, post, attr.prefix());
    law_extended_form_wins(attr, header, i);
}

/// In `pre; name=x; name*=charset'language'value` the text is that of the
/// extended value, not that of `x`, though `x` stands first.
///
/// The names are in any case. No `;` stands before the two parameters or
/// in `x`.
pub proof fn law_extended_wins_after_plain(
    attr: ContentDispositionAttr,
    pre: Seq<u8>,
    plain_gap: Seq<u8>,
    plain_key: Seq<u8>,
    x: Seq<u8>,
    gap: Seq<u8>,
    key: Seq<u8>,
    charset: Seq<u8>,
    language: Seq<u8>,
    value: Seq<u8>,
)
    requires
        lacks(pre, SEMICOLON),
        all_ws(plain_gap),
        spells(plain_key, attr.prefix()),
        lacks(x, SEMICOLON),
        all_ws(gap),
        spells(key, attr.prefix()),
        extended_parts(charset, language, value),
    ensures
        extracted(
            pre + seq![SEMICOLON] + plain_parameter(plain_gap, plain_key, x) + seq![SEMICOLON]
                + extended_parameter(gap, key, charset, language, value),
            attr.prefix(),
        ) == extended_text(value),
{
    let name = attr.prefix();
    lemma_attr_prefix(attr);
    let plain = plain_parameter(plain_gap, plain_key, x);
    let extended = extended_parameter(gap, key, charset, language, value);
    let header = pre + seq![SEMICOLON] + plain + seq![SEMICOLON] + extended;
    let first = pre.len() as int;
    let i = first + 1 + plain.len();
    lemma_plain_parameter_lacks_semicolon(plain_gap, plain_key, x, name);
    lemma_two_parameters(pre, plain, extended, name);
    assert(!extended_at(header, first, name)) by {
        lemma_plain_parameter(plain_gap, plain_key, x, seq![SEMICOLON] + extended, name);
    }
    assert(header.skip(i + 1) == extended + Seq::<u8>::empty()) by {
        assert(extended + Seq::<u8>::empty() =~= extended);
    }
    assert forall|j: int| 0 <= j < i implies !extended_at(header, j, name) by {
        if j != first {
            assert(field_at(header, j, name) is None);
        }
    }
    law_extended_value_wins(
        attr,
        header,
        i,
        gap,
        key,
        charset,
        language,
        value,
        Seq::<u8>::empty(),
    );
}

/// In `pre; name*=charset'language'value; name=x` the text is that of the
/// extended value, not that of `x`.
///
/// The names are in any case. No `;` stands before the two parameters.
pub proof fn law_extended_wins_before_plain(
    attr: ContentDispositionAttr,
    pre: Seq<u8>,
    plain_gap: Seq<u8>,
    plain_key: Seq<u8>,
    x: Seq<u8>,
    gap: Seq<u8>,
    key: Seq<u8>,
    charset: Seq<u8>,
    language: Seq<u8>,
    value: Seq<u8>,
)
    requires
        lacks(pre, SEMICOLON),
        all_ws(gap),
        spells(key, attr.prefix()),
        extended_parts(charset, language, value),
    ensures
        extracted(
            pre + seq![SEMICOLON] + extended_parameter(gap, key, charset, language, value)
                + seq![SEMICOLON] + plain_parameter(plain_gap, plain_key, x),
            attr.prefix(),
        ) == extended_text(value),
{
    let name = attr.prefix();
    let plain = plain_parameter(plain_gap, plain_key, x);
    let extended = extended_parameter(gap, key, charset, language, value);
    let header = pre + seq![SEMICOLON] + extended + seq![SEMICOLON] + plain;
    let i = pre.len() as int;
    let post = seq![SEMICOLON] + plain;
    assert(header =~= pre + seq![SEMICOLON] + (extended + post));
    lemma_parameter_after(pre, extended + post);
    assert(post[0] == SEMICOLON);
    law_extended_value_wins(attr, header, i, gap, key, charset, language, value, post);
}

/// Decoding undoes encoding: bytes written as escape triples decode to
/// themselves.
pub proof fn law_percent_round_trip(bytes: Seq<u8>)
    ensures
        percent_decoded(percent_encoded(bytes)) == bytes,
        lacks(percent_encoded(bytes), SEMICOLON),
        lacks(percent_encoded(bytes), SPACE),
    decreases bytes.len(),
{
    if bytes.len() > 0 {
        let b = bytes[0];
        let tail = bytes.skip(1);
        let encoded = percent_encoded(bytes);
        let triple = seq![PERCENT, hex_digit_of(b / 16), hex_digit_of(b % 16)];
        law_percent_round_trip(tail);
        assert(encoded == triple + percent_encoded(tail));
        assert(encoded[0] == PERCENT);
        assert(encoded[1] == hex_digit_of(b / 16));
        assert(encoded[2] == hex_digit_of(b % 16));
        assert(is_hex_digit(encoded[1]) && hex_value(encoded[1]) == b / 16);
        assert(is_hex_digit(encoded[2]) && hex_value(encoded[2]) == b % 16);
        assert(starts_with_escape(encoded));
        assert(escape_value(encoded) == b);
        assert(encoded.skip(3) =~= percent_encoded(tail));
        assert(seq![b] + tail =~= bytes);
        assert forall|j: int| 0 <= j < encoded.len() implies #[trigger] encoded[j] != SEMICOLON
            && encoded[j] != SPACE by {
            if j >= 3 {
                assert(encoded[j] == percent_encoded(tail)[j - 3]);
            }
        }
    }
}

/// A text that is written in UTF-8 and percent-encoded is what the
/// extended value decodes to.
pub proof fn law_encoded_text_is_decoded(text: Seq<char>)
    ensures
        extended_text(percent_encoded(encode_utf8(text))) == Some(text),
{
    law_percent_round_trip(encode_utf8(text));
    encode_utf8_valid_utf8(text);
    encode_utf8_decode_utf8(text);
}

/// A header whose one parameter is the file name gives no name, and gives
/// the file name.
///
/// The header is `pre; filename=value`, the parameter's name in any case,
/// with no `;` before the parameter and none in the value, which reads as
/// `text`.
pub proof fn law_file_name_only(
    pre: Seq<u8>,
    gap: Seq<u8>,
    key: Seq<u8>,
    value: Seq<u8>,
    text: Seq<char>,
)
    requires
        lacks(pre, SEMICOLON),
        all_ws(gap),
        spells(key, ContentDispositionAttr::FileName.prefix()),
        lacks(value, SEMICOLON),
        plain_value_text(value) == Some(text),
    ensures
        extracted(
            pre + seq![SEMICOLON] + plain_parameter(gap, key, value),
            ContentDispositionAttr::Name.prefix(),
        ) is None,
        extracted(
            pre + seq![SEMICOLON] + plain_parameter(gap, key, value),
            ContentDispositionAttr::FileName.prefix(),
        ) == Some(text),
{
    let name = ContentDispositionAttr::Name.prefix();
    let file_name = ContentDispositionAttr::FileName.prefix();
    lemma_attr_prefix(ContentDispositionAttr::Name);
    lemma_attr_prefix(ContentDispositionAttr::FileName);
    let parameter = plain_parameter(gap, key, value);
    let header = pre + seq![SEMICOLON] + parameter;
    let i = pre.len() as int;
    lemma_parameter_after(pre, parameter);
    lemma_plain_parameter_lacks_semicolon(gap, key, value, file_name);

    assert(extracted(header, name) is None) by {
        lemma_one_semicolon(pre, parameter, name);
        assert(parameter =~= gap + key + (seq![EQUALS] + value));
        lemma_parameter_of_other_name(gap, key, seq![EQUALS] + value, file_name, name);
        law_absent_without_field(ContentDispositionAttr::Name, header);
    }

    assert(extracted(header, file_name) == Some(text)) by {
        lemma_one_semicolon(pre, parameter, file_name);
        assert(header.skip(i + 1) == parameter + Seq::<u8>::empty()) by {
            assert(parameter + Seq::<u8>::empty() =~= parameter);
        }
        assert(value + Seq::<u8>::empty() =~= value);
        lemma_plain_parameter(gap, key, value, Seq::<u8>::empty(), file_name);
        assert forall|j: int| 0 <= j < header.len() implies !extended_at(header, j, file_name) by {
            if j != i {
                assert(field_at(header, j, file_name) is None);
            }
        }
        law_first_plain_form_wins(ContentDispositionAttr::FileName, header, i);
    }
}

} // verus!
