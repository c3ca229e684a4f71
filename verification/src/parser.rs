//! The scanners that locate one parameter in a header and cut out its value.
use crate::bytes::{
    find, find2, leading_ws, lemma_find2, lemma_find2_unique, lemma_leading_ws,
    trim_ascii_ws_start, trim_start, APOSTROPHE, ASTERISK, BACKSLASH, EQUALS, QUOTE, SEMICOLON,
    SPACE,
};
use crate::search::{first_byte, first_of_two};
use crate::text::{decode_field, extended_text, text_from_utf8, utf8_text};
use vstd::prelude::*;
use vstd::slice::slice_subrange;

verus! {

/// One located occurrence of a parameter.
#[derive(Debug)]
pub struct ParsedField<'a> {
    /// The value as it stands in the header: without the enclosing quotes,
    /// with its escapes still in place.
    pub value: &'a [u8],
    /// The parameter was given in extended form (`name*=`).
    pub is_extended: bool,
    /// The value was quoted and holds at least one escaped quote.
    pub is_escaped: bool,
}

/// What a `ParsedField` holds, as mathematical values.
pub struct FieldView {
    pub value: Seq<u8>,
    pub is_extended: bool,
    pub is_escaped: bool,
}

impl<'a> View for ParsedField<'a> {
    type V = FieldView;

    open spec fn view(&self) -> FieldView {
        FieldView { value: self.value@, is_extended: self.is_extended, is_escaped: self.is_escaped }
    }
}

/// An extended value, split at its two apostrophes.
#[derive(Debug)]
pub struct ExtendedValue<'a> {
    /// The charset that the value names. It is not acted upon.
    pub charset: &'a str,
    /// The language tag, `None` when it is empty.
    pub language_tag: Option<&'a str>,
    /// The value itself, still percent-encoded.
    pub value: &'a [u8],
}

/// What an `ExtendedValue` holds, as mathematical values.
pub struct ExtendedValueView {
    pub charset: Seq<char>,
    pub language_tag: Option<Seq<char>>,
    pub value: Seq<u8>,
}

impl<'a> View for ExtendedValue<'a> {
    type V = ExtendedValueView;

    open spec fn view(&self) -> ExtendedValueView {
        ExtendedValueView {
            charset: self.charset@,
            language_tag: match self.language_tag {
                Some(tag) => Some(tag@),
                None => None,
            },
            value: self.value@,
        }
    }
}

/// An ASCII letter in lower case, any other byte unchanged.
pub open spec fn lower(b: u8) -> u8 {
    if 0x41 <= b <= 0x5a {
        (b + 0x20) as u8
    } else {
        b
    }
}

/// `bytes` begins with `prefix`, letters compared without regard to case.
pub open spec fn has_prefix(bytes: Seq<u8>, prefix: Seq<u8>) -> bool {
    &&& bytes.len() >= prefix.len()
    &&& forall|i: int| 0 <= i < prefix.len() ==> lower(#[trigger] bytes[i]) == lower(prefix[i])
}

/// Number of consecutive backslashes that end just before index `k`.
pub open spec fn backslash_run(s: Seq<u8>, k: int) -> int
    decreases k,
{
    if 0 < k <= s.len() && s[k - 1] == BACKSLASH {
        1 + backslash_run(s, k - 1)
    } else {
        0
    }
}

/// The byte at index `k` is a quote that closes a quoted value: one that an
/// even number of backslashes, possibly none, precedes.
pub open spec fn is_closing_quote(s: Seq<u8>, k: int) -> bool {
    0 <= k < s.len() && s[k] == QUOTE && backslash_run(s, k) % 2 == 0
}

/// Index of the first closing quote of `s` at or after `from`; `s.len()`
/// when there is none.
pub open spec fn closing_quote(s: Seq<u8>, from: int) -> int
    decreases s.len() - from,
{
    if from < 0 || from >= s.len() {
        s.len() as int
    } else if is_closing_quote(s, from) {
        from
    } else {
        closing_quote(s, from + 1)
    }
}

/// The value that begins `input`, and whether it holds escaped quotes.
///
/// After leading whitespace, a quote opens a quoted value, which runs to
/// the first closing quote and is absent when there is none. Anything else
/// is an unquoted value, which runs to the first `;` or space, or to the end.
pub open spec fn parsed_value(input: Seq<u8>) -> Option<(Seq<u8>, bool)> {
    let trimmed = trim_start(input);
    if trimmed.len() > 0 && trimmed[0] == QUOTE {
        let body = trimmed.skip(1);
        let end = closing_quote(body, 0);
        if end < body.len() {
            Some((body.take(end), find(body, QUOTE) < end))
        } else {
            None
        }
    } else {
        Some((trimmed.take(find2(trimmed, SEMICOLON, SPACE)), false))
    }
}

/// The extended value that begins `input`.
///
/// After leading whitespace, the charset runs to the first apostrophe and
/// the language tag to the second. The value runs from there to the first
/// `;`, or to the end, and is cut short at its first space. Absent when
/// there are no two apostrophes, or when charset or language tag are no
/// valid UTF-8.
pub open spec fn parsed_extended_value(input: Seq<u8>) -> Option<ExtendedValueView> {
    let trimmed = trim_start(input);
    let first = find(trimmed, APOSTROPHE);
    let charset = trimmed.take(first);
    let after_charset = trimmed.skip(first + 1);
    let second = find(after_charset, APOSTROPHE);
    let language = after_charset.take(second);
    let remaining = after_charset.skip(second + 1);
    let to_semicolon = remaining.take(find(remaining, SEMICOLON));
    if first < trimmed.len() && second < after_charset.len() && utf8_text(charset) is Some
        && utf8_text(language) is Some {
        Some(
            ExtendedValueView {
                charset: utf8_text(charset)->0,
                language_tag: if language.len() == 0 {
                    None
                } else {
                    utf8_text(language)
                },
                value: to_semicolon.take(find(to_semicolon, SPACE)),
            },
        )
    } else {
        None
    }
}

/// The field that a parameter holds, given what follows its name.
///
/// After optional whitespace, a `*` marks the extended form; after more
/// optional whitespace an `=` must follow, and the value after it. A plain
/// parameter holds the value that `parsed_value` finds. An extended one
/// holds the value that `parsed_extended_value` finds, and counts only when
/// that value, percent-decoded, is valid UTF-8.
pub open spec fn parsed_field(after_name: Seq<u8>) -> Option<FieldView> {
    let trimmed = trim_start(after_name);
    let extended = trimmed.len() > 0 && trimmed[0] == ASTERISK;
    let assignment = if extended {
        trim_start(trimmed.skip(1))
    } else {
        trimmed
    };
    if assignment.len() > 0 && assignment[0] == EQUALS {
        if extended {
            match parsed_extended_value(assignment.skip(1)) {
                Some(found) if extended_text(found.value) is Some => Some(
                    FieldView { value: found.value, is_extended: true, is_escaped: false },
                ),
                _ => None,
            }
        } else {
            match parsed_value(assignment.skip(1)) {
                Some((value, escaped)) => Some(
                    FieldView { value, is_extended: false, is_escaped: escaped },
                ),
                None => None,
            }
        }
    } else {
        None
    }
}

/// The field named `prefix` that the parameter `parameter` holds, with what
/// follows the parameter's name. `parameter` is the text after a `;`.
pub open spec fn parameter_field(parameter: Seq<u8>, prefix: Seq<u8>) -> Option<
    (FieldView, Seq<u8>),
> {
    let candidate = trim_start(parameter);
    let after_name = candidate.skip(prefix.len() as int);
    if has_prefix(candidate, prefix) && parsed_field(after_name) is Some {
        Some((parsed_field(after_name)->0, after_name))
    } else {
        None
    }
}

/// The first field named `prefix` in `header`, with what follows its name:
/// the one held by the parameter after the leftmost `;` whose parameter
/// holds such a field.
pub open spec fn next_field(header: Seq<u8>, prefix: Seq<u8>) -> Option<(FieldView, Seq<u8>)>
    decreases header.len(),
{
    if header.len() == 0 {
        None
    } else if header[0] == SEMICOLON && parameter_field(header.skip(1), prefix) is Some {
        parameter_field(header.skip(1), prefix)
    } else {
        next_field(header.skip(1), prefix)
    }
}

/// The views of an optional field with the rest of the header.
pub open spec fn located_of(r: Option<(ParsedField<'_>, &[u8])>) -> Option<(FieldView, Seq<u8>)> {
    match r {
        Some((field, rest)) => Some((field@, rest@)),
        None => None,
    }
}

/// The views of an optional value with its flag.
pub open spec fn value_of(r: Option<(&[u8], bool)>) -> Option<(Seq<u8>, bool)> {
    match r {
        Some((value, escaped)) => Some((value@, escaped)),
        None => None,
    }
}

/// The view of an optional extended value.
pub open spec fn extended_value_of(r: Option<ExtendedValue<'_>>) -> Option<ExtendedValueView> {
    match r {
        Some(value) => Some(value@),
        None => None,
    }
}

/// No closing quote stands where no quote stands.
pub proof fn lemma_closing_quote_skips(s: Seq<u8>, from: int, to: int)
    requires
        0 <= from <= to <= s.len(),
        forall|j: int| from <= j < to ==> !is_closing_quote(s, j),
    ensures
        closing_quote(s, from) == closing_quote(s, to),
    decreases to - from,
{
    if from < to {
        lemma_closing_quote_skips(s, from + 1, to);
    }
}

/// A stretch without `;` holds no field.
pub proof fn lemma_next_field_skips(header: Seq<u8>, n: int, prefix: Seq<u8>)
    requires
        0 <= n <= header.len(),
        forall|j: int| 0 <= j < n ==> header[j] != SEMICOLON,
    ensures
        next_field(header, prefix) == next_field(header.skip(n), prefix),
    decreases n,
{
    if n == 0 {
        assert(header.skip(0) =~= header);
    } else {
        let tail = header.skip(1);
        assert forall|j: int| 0 <= j < n - 1 implies tail[j] != SEMICOLON by {
            assert(tail[j] == header[j + 1]);
        }
        lemma_next_field_skips(tail, n - 1, prefix);
        assert(tail.skip(n - 1) =~= header.skip(n));
    }
}

/// What follows a located field's name is shorter than the header.
pub proof fn lemma_next_field_shrinks(header: Seq<u8>, prefix: Seq<u8>)
    ensures
        next_field(header, prefix) matches Some((_, rest)) ==> rest.len() < header.len(),
    decreases header.len(),
{
    if header.len() > 0 {
        if header[0] == SEMICOLON && parameter_field(header.skip(1), prefix) is Some {
            lemma_leading_ws(header.skip(1));
        } else {
            lemma_next_field_shrinks(header.skip(1), prefix);
        }
    }
}

/// Lowers an ASCII letter.
pub fn to_lower(b: u8) -> (r: u8)
    ensures
        r == lower(b),
{
    if 0x41 <= b && b <= 0x5a {
        b + 0x20
    } else {
        b
    }
}

/// Tells whether `bytes` begins with `prefix`, letters compared without
/// regard to case.
pub fn matches_prefix(bytes: &[u8], prefix: &[u8]) -> (r: bool)
    ensures
        r == has_prefix(bytes@, prefix@),
{
    if bytes.len() < prefix.len() {
        return false;
    }
    let mut i: usize = 0;
    while i < prefix.len()
        invariant
            i <= prefix@.len() <= bytes@.len(),
            forall|j: int| 0 <= j < i ==> lower(#[trigger] bytes@[j]) == lower(prefix@[j]),
        decreases prefix@.len() - i,
    {
        if to_lower(bytes[i]) != to_lower(prefix[i]) {
            return false;
        }
        i += 1;
    }
    true
}

/// Counts the backslashes that stand just before index `k`.
pub fn backslashes_before(bytes: &[u8], k: usize) -> (n: usize)
    ensures
        n == backslash_run(bytes@, k as int),
        n <= k,
{
    if k > bytes.len() {
        return 0;
    }
    let mut n: usize = 0;
    while n < k && bytes[k - 1 - n] == BACKSLASH
        invariant
            n <= k <= bytes@.len(),
            backslash_run(bytes@, k as int) == n + backslash_run(bytes@, k - n),
        decreases k - n,
    {
        n += 1;
    }
    n
}

/// Cuts the value out of what follows the `=` of a plain parameter.
///
/// A quoted value is returned without its quotes and with its escapes in
/// place; the flag tells whether it holds an escaped quote. A quoted value
/// that is never closed gives `None`. An unquoted value is always found,
/// and may be empty.
pub fn parse_value(input: &[u8]) -> (r: Option<(&[u8], bool)>)
    ensures
        value_of(r) == parsed_value(input@),
{
    let trimmed = trim_ascii_ws_start(input);
    if trimmed.len() > 0 && trimmed[0] == QUOTE {
        let body = slice_subrange(trimmed, 1, trimmed.len());
        let mut from: usize = 0;
        let mut escaped = false;
        loop
            invariant
                from <= body@.len(),
                closing_quote(body@, 0) == closing_quote(body@, from as int),
                !escaped ==> forall|j: int| 0 <= j < from ==> body@[j] != QUOTE,
                escaped ==> find(body@, QUOTE) < from,
                body@ == trimmed@.skip(1),
                trimmed@ == trim_start(input@),
                trimmed@.len() > 0 && trimmed@[0] == QUOTE,
            decreases body@.len() - from,
        {
            let tail = slice_subrange(body, from, body.len());
            match first_byte(QUOTE, tail) {
                None => {
                    proof {
                        lemma_find2(tail@, QUOTE, QUOTE);
                        assert forall|j: int| from <= j < body@.len() implies !is_closing_quote(
                            body@,
                            j,
                        ) by {
                            assert(body@[j] == tail@[j - from]);
                        }
                        lemma_closing_quote_skips(body@, from as int, body@.len() as int);
                    }
                    return None;
                },
                Some(offset) => {
                    let k = from + offset;
                    proof {
                        lemma_find2(tail@, QUOTE, QUOTE);
                        assert forall|j: int| from <= j < k implies body@[j] != QUOTE by {
                            assert(body@[j] == tail@[j - from]);
                        }
                        assert(body@[k as int] == tail@[offset as int]);
                        lemma_closing_quote_skips(body@, from as int, k as int);
                        if !escaped {
                            lemma_find2_unique(body@, QUOTE, QUOTE, k as int);
                        }
                    }
                    if backslashes_before(body, k) % 2 == 0 {
                        return Some((slice_subrange(body, 0, k), escaped));
                    }
                    escaped = true;
                    from = k + 1;
                },
            }
        }
    } else {
        let end = match first_of_two(SEMICOLON, SPACE, trimmed) {
            Some(i) => i,
            None => trimmed.len(),
        };
        Some((slice_subrange(trimmed, 0, end), false))
    }
}

/// Splits what follows the `*=` of an extended parameter into charset,
/// language tag and value.
///
/// The value is not percent-decoded here. `None` when one of the two
/// apostrophes is missing, or when charset or language tag are no valid
/// UTF-8.
pub fn parse_extended_value(input: &[u8]) -> (r: Option<ExtendedValue<'_>>)
    ensures
        extended_value_of(r) == parsed_extended_value(input@),
{
    let input = trim_ascii_ws_start(input);
    let len = input.len();
    let charset_end = match first_byte(APOSTROPHE, input) {
        Some(i) => i,
        None => { return None; },
    };
    let charset = match text_from_utf8(slice_subrange(input, 0, charset_end)) {
        Some(s) => s,
        None => { return None; },
    };
    let after_charset = slice_subrange(input, charset_end + 1, len);
    let lang_end = match first_byte(APOSTROPHE, after_charset) {
        Some(i) => i,
        None => { return None; },
    };
    let language = match text_from_utf8(slice_subrange(after_charset, 0, lang_end)) {
        Some(s) => s,
        None => { return None; },
    };
    let language_tag = if lang_end == 0 {
        None
    } else {
        Some(language)
    };
    let remaining = slice_subrange(after_charset, lang_end + 1, after_charset.len());
    let value_end = match first_byte(SEMICOLON, remaining) {
        Some(i) => i,
        None => remaining.len(),
    };
    let value = slice_subrange(remaining, 0, value_end);
    let value = match first_byte(SPACE, value) {
        Some(i) => slice_subrange(value, 0, i),
        None => {
            assert(value@.take(value@.len() as int) =~= value@);
            value
        },
    };
    Some(ExtendedValue { charset, language_tag, value })
}

/// Reads the parameter that `header` begins with as a field, taking its
/// first `prefix.len()` bytes for the name, which the caller has matched.
///
/// Returns the field and what follows the name, from where a caller may
/// scan on. `None` when no `=` follows the name (the name only began
/// another word), when no value can be cut out after it, or when `header`
/// is shorter than `prefix`.
pub fn parse_field<'a>(header: &'a [u8], prefix: &[u8]) -> (r: Option<(ParsedField<'a>, &'a [u8])>)
    ensures
        located_of(r) == if prefix@.len() <= header@.len() {
            match parsed_field(header@.skip(prefix@.len() as int)) {
                Some(field) => Some((field, header@.skip(prefix@.len() as int))),
                None => None,
            }
        } else {
            None
        },
{
    if header.len() < prefix.len() {
        return None;
    }
    let suffix = slice_subrange(header, prefix.len(), header.len());
    let rest = trim_ascii_ws_start(suffix);
    let is_extended = rest.len() > 0 && rest[0] == ASTERISK;
    let rest = if is_extended {
        trim_ascii_ws_start(slice_subrange(rest, 1, rest.len()))
    } else {
        rest
    };
    if rest.len() == 0 || rest[0] != EQUALS {
        return None;
    }
    let rest = slice_subrange(rest, 1, rest.len());
    if is_extended {
        let found = match parse_extended_value(rest) {
            Some(found) => found,
            None => { return None; },
        };
        if decode_field(found.value).is_none() {
            return None;
        }
        Some((ParsedField { value: found.value, is_extended: true, is_escaped: false }, suffix))
    } else {
        match parse_value(rest) {
            Some((value, is_escaped)) => Some(
                (ParsedField { value, is_extended: false, is_escaped }, suffix),
            ),
            None => None,
        }
    }
}

/// Finds the first field named `prefix` in `header`.
///
/// The parameters of the header are visited from left to right, each
/// beginning after a `;` and optional whitespace. The first one whose name
/// matches `prefix`, letters compared without regard to case, and that
/// reads as a field is returned, with what follows its name. A parameter
/// that does not match, or that matches and does not read as a field, is
/// passed over. `None` when no parameter is left.
pub fn find_next_field<'a>(header: &'a [u8], prefix: &[u8]) -> (r: Option<
    (ParsedField<'a>, &'a [u8]),
>)
    ensures
        located_of(r) == next_field(header@, prefix@),
{
    let mut current = trim_ascii_ws_start(header);
    proof {
        lemma_leading_ws(header@);
        lemma_next_field_skips(header@, leading_ws(header@), prefix@);
    }
    while current.len() > 0
        invariant
            next_field(current@, prefix@) == next_field(header@, prefix@),
        decreases current@.len(),
    {
        if current[0] != SEMICOLON {
            match first_byte(SEMICOLON, current) {
                Some(next_semi) => {
                    proof {
                        lemma_find2(current@, SEMICOLON, SEMICOLON);
                        lemma_next_field_skips(current@, next_semi as int, prefix@);
                    }
                    current = slice_subrange(current, next_semi, current.len());
                },
                None => {
                    proof {
                        lemma_find2(current@, SEMICOLON, SEMICOLON);
                        lemma_next_field_skips(current@, current@.len() as int, prefix@);
                    }
                    return None;
                },
            }
        }
        let parameter = slice_subrange(current, 1, current.len());
        let candidate = trim_ascii_ws_start(parameter);
        if matches_prefix(candidate, prefix) {
            if let Some((field, rest)) = parse_field(candidate, prefix) {
                return Some((field, rest));
            }
        }
        proof {
            lemma_leading_ws(parameter@);
            lemma_next_field_skips(parameter@, leading_ws(parameter@), prefix@);
        }
        match first_byte(SEMICOLON, candidate) {
            Some(next_semi) => {
                proof {
                    lemma_find2(candidate@, SEMICOLON, SEMICOLON);
                    lemma_next_field_skips(candidate@, next_semi as int, prefix@);
                }
                current = slice_subrange(candidate, next_semi, candidate.len());
            },
            None => {
                proof {
                    lemma_find2(candidate@, SEMICOLON, SEMICOLON);
                    lemma_next_field_skips(candidate@, candidate@.len() as int, prefix@);
                }
                return None;
            },
        }
    }
    None
}

} // verus!
