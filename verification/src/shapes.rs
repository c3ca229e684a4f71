//! How a parameter reads that is written in one of the usual forms.
use crate::bytes::{
    find, find2, is_ws, leading_ws, lemma_find2, lemma_find2_unique, lemma_leading_ws,
    lemma_leading_ws_unique, trim_start, APOSTROPHE, ASTERISK, BACKSLASH, EQUALS, QUOTE,
    SEMICOLON, SPACE,
};
use crate::occurrences::{extended_at, field_at};
use crate::parser::{
    backslash_run, closing_quote, has_prefix, is_closing_quote, lemma_closing_quote_skips, lower,
    parameter_field, parsed_extended_value, parsed_field, parsed_value, FieldView,
};
use crate::text::{extended_text, starts_with_escaped_quote, unescaped, utf8_text};
use vstd::prelude::*;

verus! {

/// Every byte of `s` is whitespace.
pub open spec fn all_ws(s: Seq<u8>) -> bool {
    forall|j: int| 0 <= j < s.len() ==> is_ws(#[trigger] s[j])
}

/// No byte of `s` is `b`.
pub open spec fn lacks(s: Seq<u8>, b: u8) -> bool {
    forall|j: int| 0 <= j < s.len() ==> #[trigger] s[j] != b
}

/// `key` is `name` in some spelling: of the same length, and equal to it
/// when letters are compared without regard to case.
pub open spec fn spells(key: Seq<u8>, name: Seq<u8>) -> bool {
    &&& key.len() == name.len()
    &&& forall|j: int| 0 <= j < key.len() ==> lower(#[trigger] key[j]) == lower(name[j])
}

/// `x` can stand between quotes as it is: each quote in it is escaped, and
/// it does not end with a backslash that would escape the quote after it.
pub open spec fn quotable(x: Seq<u8>) -> bool {
    &&& forall|k: int| 0 <= k < x.len() && #[trigger] x[k] == QUOTE ==> backslash_run(x, k) % 2 == 1
    &&& backslash_run(x, x.len() as int) % 2 == 0
}

/// `token` can stand as an unquoted value before `post`: it holds no `;`
/// and no space, does not begin with whitespace or a quote, and ends where
/// the header ends or a `;` or a space follows.
pub open spec fn unquoted(token: Seq<u8>, post: Seq<u8>) -> bool {
    &&& lacks(token, SEMICOLON)
    &&& lacks(token, SPACE)
    &&& token.len() > 0 ==> !is_ws(token[0]) && token[0] != QUOTE
    &&& post.len() > 0 ==> post[0] == SEMICOLON || (post[0] == SPACE && token.len() > 0)
}

/// A quoted value as it is written: `x` between two quotes.
pub open spec fn quoted(x: Seq<u8>) -> Seq<u8> {
    seq![QUOTE] + x + seq![QUOTE]
}

/// A parameter in plain form as it is written: whitespace, the name, `=`
/// and the value.
pub open spec fn plain_parameter(gap: Seq<u8>, key: Seq<u8>, value: Seq<u8>) -> Seq<u8> {
    gap + key + seq![EQUALS] + value
}

/// A parameter in extended form as it is written: whitespace, the name,
/// `*=`, and charset, language and value with an apostrophe between them.
pub open spec fn extended_parameter(
    gap: Seq<u8>,
    key: Seq<u8>,
    charset: Seq<u8>,
    language: Seq<u8>,
    value: Seq<u8>,
) -> Seq<u8> {
    gap + key + seq![ASTERISK, EQUALS] + charset + seq![APOSTROPHE] + language + seq![APOSTROPHE]
        + value
}

/// Charset, language and value can stand in an extended parameter as they
/// are: charset and language are UTF-8 text without an apostrophe, the
/// charset does not begin with whitespace, and the value holds no `;` and
/// no space and decodes to text.
pub open spec fn extended_parts(charset: Seq<u8>, language: Seq<u8>, value: Seq<u8>) -> bool {
    &&& lacks(charset, APOSTROPHE)
    &&& lacks(language, APOSTROPHE)
    &&& charset.len() > 0 ==> !is_ws(charset[0])
    &&& utf8_text(charset) is Some
    &&& utf8_text(language) is Some
    &&& lacks(value, SEMICOLON)
    &&& lacks(value, SPACE)
    &&& extended_text(value) is Some
}

/// What two sequences lack, the two in a row lack.
pub proof fn lemma_lacks_concat(a: Seq<u8>, b: Seq<u8>, c: u8)
    requires
        lacks(a, c),
        lacks(b, c),
    ensures
        lacks(a + b, c),
{
    assert forall|j: int| 0 <= j < (a + b).len() implies #[trigger] (a + b)[j] != c by {
        if j < a.len() {
            assert((a + b)[j] == a[j]);
        } else {
            assert((a + b)[j] == b[j - a.len()]);
        }
    }
}

/// Whitespace and a name made of letters hold neither `;` nor `*`.
pub proof fn lemma_gap_and_key_lack(gap: Seq<u8>, key: Seq<u8>, name: Seq<u8>)
    requires
        all_ws(gap),
        spells(key, name),
        forall|k: int| 0 <= k < name.len() ==> 0x61 <= #[trigger] name[k] <= 0x7a,
    ensures
        lacks(gap + key, SEMICOLON),
        lacks(gap + key, ASTERISK),
{
    assert forall|j: int| 0 <= j < key.len() implies #[trigger] key[j] != SEMICOLON && key[j]
        != ASTERISK by {
        assert(lower(key[j]) == lower(name[j]));
    }
    lemma_lacks_concat(gap, key, SEMICOLON);
    lemma_lacks_concat(gap, key, ASTERISK);
}

/// After `prefix` and a `;`, the header's parameter begins.
pub proof fn lemma_parameter_after(prefix: Seq<u8>, parameter: Seq<u8>)
    ensures
        (prefix + seq![SEMICOLON] + parameter)[prefix.len() as int] == SEMICOLON,
        (prefix + seq![SEMICOLON] + parameter).skip(prefix.len() as int + 1) == parameter,
        forall|j: int|
            0 <= j < prefix.len() ==> (prefix + seq![SEMICOLON] + parameter)[j] == prefix[j],
        forall|j: int|
            0 <= j < parameter.len() ==> (prefix + seq![SEMICOLON] + parameter)[prefix.len() + 1
                + j] == parameter[j],
{
    assert((prefix + seq![SEMICOLON] + parameter).skip(prefix.len() as int + 1) =~= parameter);
}

/// Whitespace in front of what begins with another byte is what
/// `trim_start` takes away.
pub proof fn lemma_trim_start_after_gap(gap: Seq<u8>, rest: Seq<u8>)
    requires
        all_ws(gap),
        rest.len() > 0 ==> !is_ws(rest[0]),
    ensures
        leading_ws(gap + rest) == gap.len(),
        trim_start(gap + rest) == rest,
{
    let s = gap + rest;
    assert forall|j: int| 0 <= j < gap.len() implies is_ws(#[trigger] s[j]) by {
        assert(s[j] == gap[j]);
    }
    if gap.len() < s.len() {
        assert(s[gap.len() as int] == rest[0]);
    }
    lemma_leading_ws_unique(s, gap.len() as int);
    assert(s.skip(gap.len() as int) =~= rest);
}

/// The backslashes before an index do not depend on what follows it.
pub proof fn lemma_backslash_run_prefix(a: Seq<u8>, b: Seq<u8>, k: int)
    requires
        0 <= k <= a.len(),
    ensures
        backslash_run(a + b, k) == backslash_run(a, k),
    decreases k,
{
    if k > 0 {
        assert((a + b)[k - 1] == a[k - 1]);
        if a[k - 1] == BACKSLASH {
            lemma_backslash_run_prefix(a, b, k - 1);
        }
    }
}

/// Searching `a + b` finds what searching `a` finds, and goes on in `b`
/// when `a` holds neither byte.
pub proof fn lemma_find2_concat(a: Seq<u8>, b: Seq<u8>, x: u8, y: u8)
    ensures
        find2(a, x, y) < a.len() ==> find2(a + b, x, y) == find2(a, x, y),
        find2(a, x, y) == a.len() ==> find2(a + b, x, y) == a.len() + find2(b, x, y),
{
    let s = a + b;
    lemma_find2(a, x, y);
    lemma_find2(b, x, y);
    let n = if find2(a, x, y) < a.len() {
        find2(a, x, y)
    } else {
        a.len() + find2(b, x, y)
    };
    assert forall|j: int| 0 <= j < n implies #[trigger] s[j] != x && s[j] != y by {
        if j < a.len() {
            assert(s[j] == a[j]);
        } else {
            assert(s[j] == b[j - a.len()]);
        }
    }
    if n < s.len() {
        if n < a.len() {
            assert(s[n] == a[n]);
        } else {
            assert(s[n] == b[n - a.len()]);
        }
    }
    lemma_find2_unique(s, x, y, n);
}

/// Without a quote there is nothing to unescape.
pub proof fn lemma_unescaped_without_quote(x: Seq<u8>)
    requires
        lacks(x, QUOTE),
    ensures
        unescaped(x) == x,
    decreases x.len(),
{
    if x.len() > 0 {
        let t = x.skip(1);
        assert forall|j: int| 0 <= j < t.len() implies #[trigger] t[j] != QUOTE by {
            assert(t[j] == x[j + 1]);
        }
        if x.len() >= 2 {
            assert(x[1] != QUOTE);
        }
        assert(!starts_with_escaped_quote(x));
        lemma_unescaped_without_quote(t);
        assert(seq![x[0]] + t =~= x);
    }
}

/// A quoted value reads as what stands between its quotes.
pub proof fn lemma_quoted_value(x: Seq<u8>, post: Seq<u8>)
    requires
        quotable(x),
    ensures
        parsed_value(seq![QUOTE] + x + seq![QUOTE] + post) == Some(
            (x, find(x, QUOTE) < x.len()),
        ),
{
    let input = seq![QUOTE] + x + seq![QUOTE] + post;
    assert(input[0] == QUOTE);
    lemma_leading_ws_unique(input, 0);
    assert(input.skip(0) =~= input);
    let tail = seq![QUOTE] + post;
    let body = input.skip(1);
    assert(body =~= x + tail);
    let n = x.len() as int;
    assert forall|j: int| 0 <= j < n implies !is_closing_quote(body, j) by {
        assert(body[j] == x[j]);
        lemma_backslash_run_prefix(x, tail, j);
    }
    lemma_closing_quote_skips(body, 0, n);
    lemma_backslash_run_prefix(x, tail, n);
    assert(body[n] == QUOTE);
    assert(is_closing_quote(body, n));
    assert(closing_quote(body, n) == n);
    assert(body.take(n) =~= x);
    lemma_find2_concat(x, tail, QUOTE, QUOTE);
    lemma_find2(tail, QUOTE, QUOTE);
    lemma_find2(x, QUOTE, QUOTE);
}

/// An unquoted value reads as itself.
pub proof fn lemma_unquoted_value(token: Seq<u8>, post: Seq<u8>)
    requires
        unquoted(token, post),
    ensures
        parsed_value(token + post) == Some((token, false)),
{
    let input = token + post;
    if input.len() > 0 {
        if token.len() > 0 {
            assert(input[0] == token[0]);
        } else {
            assert(input[0] == post[0]);
        }
    }
    lemma_leading_ws_unique(input, 0);
    assert(input.skip(0) =~= input);
    lemma_find2(token, SEMICOLON, SPACE);
    lemma_find2_unique(token, SEMICOLON, SPACE, token.len() as int);
    lemma_find2_concat(token, post, SEMICOLON, SPACE);
    if post.len() > 0 {
        lemma_find2_unique(post, SEMICOLON, SPACE, 0);
    }
    assert(input.take(token.len() as int) =~= token);
}

/// A sequence splits at the first separator into what stands before it
/// and what stands after it.
pub proof fn lemma_split_at_first(head: Seq<u8>, separator: u8, tail: Seq<u8>)
    requires
        lacks(head, separator),
    ensures
        find(head + seq![separator] + tail, separator) == head.len(),
        (head + seq![separator] + tail).take(head.len() as int) == head,
        (head + seq![separator] + tail).skip(head.len() as int + 1) == tail,
{
    let s = head + seq![separator] + tail;
    let n = head.len() as int;
    assert forall|j: int| 0 <= j < n implies #[trigger] s[j] != separator by {
        assert(s[j] == head[j]);
    }
    assert(s[n] == separator);
    lemma_find2_unique(s, separator, separator, n);
    assert(s.take(n) =~= head);
    assert(s.skip(n + 1) =~= tail);
}

/// A value without `;` and space, followed by nothing or by one of the
/// two, is what is left when the text is cut at the first `;` and then at
/// the first space.
pub proof fn lemma_value_cut(value: Seq<u8>, post: Seq<u8>)
    requires
        lacks(value, SEMICOLON),
        lacks(value, SPACE),
        post.len() > 0 ==> post[0] == SEMICOLON || post[0] == SPACE,
    ensures
        ({
            let to_semicolon = (value + post).take(find(value + post, SEMICOLON));
            to_semicolon.take(find(to_semicolon, SPACE)) == value
        }),
{
    let remaining = value + post;
    let n = value.len() as int;
    let cut = find(remaining, SEMICOLON);
    let to_semicolon = remaining.take(cut);
    lemma_find2(remaining, SEMICOLON, SEMICOLON);
    assert(cut >= n) by {
        if cut < n {
            assert(remaining[cut] == value[cut]);
        }
    }
    assert forall|j: int| 0 <= j < n implies #[trigger] to_semicolon[j] != SPACE by {
        assert(to_semicolon[j] == value[j]);
    }
    if cut > n {
        assert(remaining[n] == post[0]);
        assert(to_semicolon[n] == SPACE);
    }
    lemma_find2_unique(to_semicolon, SPACE, SPACE, n);
    assert(to_semicolon.take(n) =~= value);
}

/// An extended value in the usual form reads as its three parts.
pub proof fn lemma_extended_value(
    charset: Seq<u8>,
    language: Seq<u8>,
    value: Seq<u8>,
    post: Seq<u8>,
)
    requires
        lacks(charset, APOSTROPHE),
        lacks(language, APOSTROPHE),
        charset.len() > 0 ==> !is_ws(charset[0]),
        utf8_text(charset) is Some,
        utf8_text(language) is Some,
        lacks(value, SEMICOLON),
        lacks(value, SPACE),
        post.len() > 0 ==> post[0] == SEMICOLON || post[0] == SPACE,
    ensures
        parsed_extended_value(charset + seq![APOSTROPHE] + language + seq![APOSTROPHE] + value + post)
            matches Some(found) && found.value == value && found.charset == utf8_text(charset)->0,
{
    let input = charset + seq![APOSTROPHE] + language + seq![APOSTROPHE] + value + post;
    let remaining = value + post;
    let after_charset = language + seq![APOSTROPHE] + remaining;
    assert(input =~= charset + seq![APOSTROPHE] + after_charset);
    assert(!is_ws(input[0])) by {
        if charset.len() > 0 {
            assert(input[0] == charset[0]);
        } else {
            assert(input[0] == APOSTROPHE);
        }
    }
    lemma_leading_ws_unique(input, 0);
    assert(trim_start(input) == input) by {
        assert(input.skip(0) =~= input);
    }
    lemma_split_at_first(charset, APOSTROPHE, after_charset);
    lemma_split_at_first(language, APOSTROPHE, remaining);
    lemma_value_cut(value, post);
}

/// After `=`, a parameter holds what `parsed_value` finds.
pub proof fn lemma_plain_field(value: Seq<u8>)
    ensures
        parsed_field(seq![EQUALS] + value) == match parsed_value(value) {
            Some((found, escaped)) => Some(
                FieldView { value: found, is_extended: false, is_escaped: escaped },
            ),
            None => None,
        },
{
    let after_name = seq![EQUALS] + value;
    assert(after_name[0] == EQUALS);
    lemma_leading_ws_unique(after_name, 0);
    assert(after_name.skip(0) =~= after_name);
    assert(after_name.skip(1) =~= value);
}

/// After `*=`, a parameter holds what `parsed_extended_value` finds, if
/// that decodes to text.
pub proof fn lemma_extended_field(value: Seq<u8>)
    ensures
        parsed_field(seq![ASTERISK, EQUALS] + value) == match parsed_extended_value(value) {
            Some(found) if extended_text(found.value) is Some => Some(
                FieldView { value: found.value, is_extended: true, is_escaped: false },
            ),
            _ => None,
        },
{
    let after_name = seq![ASTERISK, EQUALS] + value;
    assert(after_name[0] == ASTERISK);
    lemma_leading_ws_unique(after_name, 0);
    assert(after_name.skip(0) =~= after_name);
    let assignment = after_name.skip(1);
    assert(assignment =~= seq![EQUALS] + value);
    assert(assignment[0] == EQUALS);
    lemma_leading_ws_unique(assignment, 0);
    assert(assignment.skip(0) =~= assignment);
    assert(assignment.skip(1) =~= value);
}

/// A parameter whose name is spelled in any case, after any whitespace,
/// holds the field that follows the name.
pub proof fn lemma_parameter(gap: Seq<u8>, key: Seq<u8>, after_name: Seq<u8>, name: Seq<u8>)
    requires
        all_ws(gap),
        spells(key, name),
        name.len() > 0,
        !is_ws(name[0]),
    ensures
        parameter_field(gap + key + after_name, name) == match parsed_field(after_name) {
            Some(field) => Some((field, after_name)),
            None => None,
        },
{
    let candidate = key + after_name;
    assert(lower(key[0]) == lower(name[0]));
    assert(candidate[0] == key[0]);
    lemma_trim_start_after_gap(gap, candidate);
    assert(gap + key + after_name =~= gap + candidate);
    assert forall|j: int| 0 <= j < name.len() implies lower(#[trigger] candidate[j]) == lower(
        name[j],
    ) by {
        assert(candidate[j] == key[j]);
    }
    assert(has_prefix(candidate, name));
    assert(candidate.skip(name.len() as int) =~= after_name);
}

/// Where no `*` follows a `;`, its parameter holds no field in extended
/// form.
pub proof fn lemma_extended_needs_asterisk(header: Seq<u8>, i: int, name: Seq<u8>)
    requires
        forall|k: int| i < k < header.len() ==> header[k] != ASTERISK,
    ensures
        !extended_at(header, i, name),
{
    if 0 <= i < header.len() && header[i] == SEMICOLON {
        let parameter = header.skip(i + 1);
        let candidate = trim_start(parameter);
        if has_prefix(candidate, name) {
            let after_name = candidate.skip(name.len() as int);
            let trimmed = trim_start(after_name);
            lemma_leading_ws(parameter);
            lemma_leading_ws(after_name);
            if trimmed.len() > 0 {
                let k = i + 1 + leading_ws(parameter) + name.len() + leading_ws(after_name);
                assert(trimmed[0] == header[k]);
            }
        }
    }
}

/// A parameter in plain form holds what `parsed_value` finds after its
/// `=`, and is not in extended form.
pub proof fn lemma_plain_parameter(
    gap: Seq<u8>,
    key: Seq<u8>,
    value: Seq<u8>,
    post: Seq<u8>,
    name: Seq<u8>,
)
    requires
        all_ws(gap),
        spells(key, name),
        name.len() > 0,
        !is_ws(name[0]),
    ensures
        match parameter_field(plain_parameter(gap, key, value) + post, name) {
            Some((field, _)) => !field.is_extended && parsed_value(value + post) == Some(
                (field.value, field.is_escaped),
            ),
            None => parsed_value(value + post) is None,
        },
{
    let after_name = seq![EQUALS] + (value + post);
    assert(plain_parameter(gap, key, value) + post =~= gap + key + after_name);
    lemma_parameter(gap, key, after_name, name);
    lemma_plain_field(value + post);
}

/// A parameter with a quoted value holds what stands between the quotes.
pub proof fn lemma_quoted_parameter(
    gap: Seq<u8>,
    key: Seq<u8>,
    x: Seq<u8>,
    post: Seq<u8>,
    name: Seq<u8>,
)
    requires
        all_ws(gap),
        spells(key, name),
        name.len() > 0,
        !is_ws(name[0]),
        quotable(x),
    ensures
        parameter_field(plain_parameter(gap, key, quoted(x)) + post, name) matches Some(
            (field, _),
        ) && field == (FieldView {
            value: x,
            is_extended: false,
            is_escaped: find(x, QUOTE) < x.len(),
        }),
{
    lemma_plain_parameter(gap, key, quoted(x), post, name);
    lemma_quoted_value(x, post);
    assert(quoted(x) + post =~= seq![QUOTE] + x + seq![QUOTE] + post);
}

/// A parameter in extended form holds its value.
pub proof fn lemma_extended_parameter(
    gap: Seq<u8>,
    key: Seq<u8>,
    charset: Seq<u8>,
    language: Seq<u8>,
    value: Seq<u8>,
    post: Seq<u8>,
    name: Seq<u8>,
)
    requires
        all_ws(gap),
        spells(key, name),
        name.len() > 0,
        !is_ws(name[0]),
        extended_parts(charset, language, value),
        post.len() > 0 ==> post[0] == SEMICOLON || post[0] == SPACE,
    ensures
        parameter_field(extended_parameter(gap, key, charset, language, value) + post, name)
            matches Some((field, _)) && field == (FieldView {
            value,
            is_extended: true,
            is_escaped: false,
        }),
{
    let written = charset + seq![APOSTROPHE] + language + seq![APOSTROPHE] + value + post;
    let after_name = seq![ASTERISK, EQUALS] + written;
    assert(extended_parameter(gap, key, charset, language, value) + post =~= gap + key
        + after_name);
    lemma_parameter(gap, key, after_name, name);
    lemma_extended_field(written);
    lemma_extended_value(charset, language, value, post);
}

/// A parameter in plain form whose value holds no `;` holds none.
pub proof fn lemma_plain_parameter_lacks_semicolon(
    gap: Seq<u8>,
    key: Seq<u8>,
    value: Seq<u8>,
    name: Seq<u8>,
)
    requires
        all_ws(gap),
        spells(key, name),
        forall|k: int| 0 <= k < name.len() ==> 0x61 <= #[trigger] name[k] <= 0x7a,
        lacks(value, SEMICOLON),
    ensures
        lacks(plain_parameter(gap, key, value), SEMICOLON),
{
    lemma_gap_and_key_lack(gap, key, name);
    lemma_lacks_concat(gap + key, seq![EQUALS], SEMICOLON);
    lemma_lacks_concat(gap + key + seq![EQUALS], value, SEMICOLON);
}

/// A parameter in plain form whose value holds no `*` holds none.
pub proof fn lemma_plain_parameter_lacks_asterisk(
    gap: Seq<u8>,
    key: Seq<u8>,
    value: Seq<u8>,
    name: Seq<u8>,
)
    requires
        all_ws(gap),
        spells(key, name),
        forall|k: int| 0 <= k < name.len() ==> 0x61 <= #[trigger] name[k] <= 0x7a,
        lacks(value, ASTERISK),
    ensures
        lacks(plain_parameter(gap, key, value), ASTERISK),
{
    lemma_gap_and_key_lack(gap, key, name);
    lemma_lacks_concat(gap + key, seq![EQUALS], ASTERISK);
    lemma_lacks_concat(gap + key + seq![EQUALS], value, ASTERISK);
}

/// The only `;` of `pre;parameter`, where neither part holds one, is the
/// one between the parts.
pub proof fn lemma_one_semicolon(pre: Seq<u8>, parameter: Seq<u8>, name: Seq<u8>)
    requires
        lacks(pre, SEMICOLON),
        lacks(parameter, SEMICOLON),
    ensures
        forall|j: int|
            0 <= j < (pre + seq![SEMICOLON] + parameter).len() && j != pre.len() ==> field_at(
                pre + seq![SEMICOLON] + parameter,
                j,
                name,
            ) is None,
{
    let header = pre + seq![SEMICOLON] + parameter;
    assert forall|j: int| 0 <= j < header.len() && j != pre.len() implies field_at(
        header,
        j,
        name,
    ) is None by {
        if j < pre.len() {
            assert(header[j] == pre[j]);
        } else {
            assert(header[j] == parameter[j - pre.len() - 1]);
        }
    }
}

/// In `pre;first;second`, where `pre` and `first` hold no `;`, the two
/// parameters begin after the only two `;` up to the second one.
pub proof fn lemma_two_parameters(pre: Seq<u8>, first: Seq<u8>, second: Seq<u8>, name: Seq<u8>)
    requires
        lacks(pre, SEMICOLON),
        lacks(first, SEMICOLON),
    ensures
        ({
            let header = pre + seq![SEMICOLON] + first + seq![SEMICOLON] + second;
            let i = pre.len() as int;
            let k = i + 1 + first.len();
            &&& header[i] == SEMICOLON
            &&& header.skip(i + 1) == first + (seq![SEMICOLON] + second)
            &&& header[k] == SEMICOLON
            &&& header.skip(k + 1) == second
            &&& forall|j: int| 0 <= j < k && j != i ==> field_at(header, j, name) is None
        }),
{
    let header = pre + seq![SEMICOLON] + first + seq![SEMICOLON] + second;
    let i = pre.len() as int;
    let k = i + 1 + first.len();
    assert(header.skip(i + 1) =~= first + (seq![SEMICOLON] + second));
    assert(header.skip(k + 1) =~= second);
    assert forall|j: int| 0 <= j < k && j != i implies field_at(header, j, name) is None by {
        if j < i {
            assert(header[j] == pre[j]);
        } else {
            assert(header[j] == first[j - i - 1]);
        }
    }
}

/// A parameter holds no field of a name that begins with another letter
/// than its own.
pub proof fn lemma_parameter_of_other_name(
    gap: Seq<u8>,
    key: Seq<u8>,
    after_name: Seq<u8>,
    name: Seq<u8>,
    other: Seq<u8>,
)
    requires
        all_ws(gap),
        spells(key, name),
        name.len() > 0,
        !is_ws(name[0]),
        other.len() > 0,
        lower(other[0]) != lower(name[0]),
    ensures
        parameter_field(gap + key + after_name, other) is None,
{
    let candidate = key + after_name;
    assert(lower(key[0]) == lower(name[0]));
    assert(candidate[0] == key[0]);
    lemma_trim_start_after_gap(gap, candidate);
    assert(gap + key + after_name =~= gap + candidate);
    assert(lower(candidate[0]) != lower(other[0]));
}

} // verus!
