use content_disposition::content_disposition::into_owned;
use content_disposition::{ContentDisposition, ContentDispositionAttr};
use http::header::{HeaderMap, HeaderValue, CONTENT_DISPOSITION, CONTENT_TYPE};
use std::borrow::Cow;

fn name_of(header: &[u8]) -> Option<String> {
    into_owned(ContentDispositionAttr::Name.extract_from(header))
}

fn file_name_of(header: &[u8]) -> Option<String> {
    into_owned(ContentDispositionAttr::FileName.extract_from(header))
}

#[test]
fn quoted_name_is_extracted_exactly() {
    assert_eq!(name_of(br#"form-data; name="X""#).as_deref(), Some("X"));
    assert_eq!(name_of(br#"form-data; name="a b\c=d*e'f""#).as_deref(), Some(r#"a b\c=d*e'f"#));
    assert_eq!(name_of(br#"form-data; a=b; name="X"; c=d"#).as_deref(), Some("X"));
    assert_eq!(name_of(br#"form-data;name="X""#).as_deref(), Some("X"));
}

#[test]
fn extended_name_wins_in_either_order() {
    assert_eq!(name_of(b"form-data; name=X; name*=utf-8''Y%21").as_deref(), Some("Y!"));
    assert_eq!(name_of(b"form-data; name*=utf-8''Y%21; name=X").as_deref(), Some("Y!"));
    assert_eq!(name_of(br#"form-data; name="X"; name*=utf-8''Y%21"#).as_deref(), Some("Y!"));
    assert_eq!(name_of(br#"form-data; name*=utf-8''Y%21; name="X""#).as_deref(), Some("Y!"));
}

#[test]
fn first_extended_name_wins_among_several() {
    assert_eq!(name_of(b"x; name*=utf-8''one; name*=utf-8''two").as_deref(), Some("one"));
    assert_eq!(name_of(b"x; name=a; name*=utf-8''one; name=b; name*=utf-8''two").as_deref(), Some("one"));
}

#[test]
fn first_plain_name_wins_among_several() {
    assert_eq!(name_of(b"x; name=one; name=two").as_deref(), Some("one"));
    assert_eq!(name_of(br#"x; name="one"; name=two"#).as_deref(), Some("one"));
}

#[test]
fn name_matches_in_any_case() {
    for key in ["name", "Name", "NAME", "nAmE", "naME"] {
        let header = format!("form-data; {}=value", key);
        assert_eq!(name_of(header.as_bytes()).as_deref(), Some("value"));
        let header = format!("form-data; {}*=utf-8''value", key);
        assert_eq!(name_of(header.as_bytes()).as_deref(), Some("value"));
    }
    for key in ["filename", "FileName", "FILENAME", "fIlEnAmE"] {
        let header = format!("form-data; {}=value", key);
        assert_eq!(file_name_of(header.as_bytes()).as_deref(), Some("value"));
        assert_eq!(name_of(header.as_bytes()), None);
    }
}

#[test]
fn quoted_value_keeps_its_semicolons() {
    assert_eq!(name_of(br#"form-data; name="a;b""#).as_deref(), Some("a;b"));
    assert_eq!(name_of(br#"form-data; name="a; b ;c""#).as_deref(), Some("a; b ;c"));
    assert_eq!(file_name_of(br#"form-data; name=x; filename="a;b.txt""#).as_deref(), Some("a;b.txt"));
}

#[test]
fn escaped_quotes_are_unescaped() {
    assert_eq!(name_of(br#"form-data; name="a\"b""#).as_deref(), Some(r#"a"b"#));
    assert_eq!(name_of(br#"form-data; name="\"""#).as_deref(), Some(r#"""#));
    assert_eq!(name_of(br#"form-data; name="a\\\"b""#).as_deref(), Some(r#"a\\"b"#));
}

#[test]
fn backslash_without_escaped_quote_is_kept() {
    assert_eq!(name_of(br#"form-data; name="a\b""#).as_deref(), Some(r#"a\b"#));
    assert_eq!(name_of(br#"form-data; name="a\\""#).as_deref(), Some(r#"a\\"#));
}

#[test]
fn extended_value_is_percent_decoded() {
    assert_eq!(
        name_of(b"form-data; name*=utf-8''my_field%20with%20space").as_deref(),
        Some("my_field with space")
    );
    assert_eq!(
        file_name_of(b"form-data; filename*=UTF-8'zh'%E4%BD%A0%E5%A5%BD.txt").as_deref(),
        Some("\u{4f60}\u{597d}.txt")
    );
    assert_eq!(name_of(b"form-data; name*=utf-8''100%").as_deref(), Some("100%"));
}

#[test]
fn extended_value_ends_at_its_first_space() {
    assert_eq!(name_of(b"form-data; name*=utf-8''my field").as_deref(), Some("my"));
    assert_eq!(name_of(b"form-data; name*=utf-8''my%20field more").as_deref(), Some("my field"));
}

#[test]
fn declared_charset_is_not_acted_upon() {
    assert_eq!(name_of(b"form-data; name*=iso-8859-1''%C3%A9").as_deref(), Some("\u{e9}"));
    assert_eq!(name_of(b"form-data; name*=iso-8859-1''%E9"), None);
}

#[test]
fn file_name_alone_leaves_the_name_absent() {
    let header = b"form-data; filename=report.pdf";
    assert_eq!(name_of(header), None);
    assert_eq!(file_name_of(header).as_deref(), Some("report.pdf"));
    let header = br#"form-data; filename="a name.txt""#;
    assert_eq!(name_of(header), None);
    assert_eq!(file_name_of(header).as_deref(), Some("a name.txt"));
    let header = b"form-data; filename*=utf-8''a%20name.txt";
    assert_eq!(name_of(header), None);
    assert_eq!(file_name_of(header).as_deref(), Some("a name.txt"));
}

#[test]
fn empty_quoted_value_is_present_and_empty() {
    assert_eq!(name_of(br#"form-data; name="""#).as_deref(), Some(""));
    assert_eq!(name_of(br#"form-data; name=""; filename="f""#).as_deref(), Some(""));
    assert_eq!(file_name_of(br#"form-data; name="n"; filename="""#).as_deref(), Some(""));
}

#[test]
fn scenario_name_only() {
    let header = br#"form-data; name="my_field""#;
    assert_eq!(name_of(header).as_deref(), Some("my_field"));
    assert_eq!(file_name_of(header), None);
}

#[test]
fn scenario_misordered_parameters() {
    let header = b"form-data; filename=file-name.txt; name=file";
    assert_eq!(name_of(header).as_deref(), Some("file"));
    assert_eq!(file_name_of(header).as_deref(), Some("file-name.txt"));
}

#[test]
fn scenario_extended_file_name_before_plain_duplicate() {
    let header =
        "form-data; name=my_field; filename*=utf-8''\u{4f60}\u{597d}.txt; filename=\"\u{4f60}\u{597d}.txt\"";
    assert_eq!(file_name_of(header.as_bytes()).as_deref(), Some("\u{4f60}\u{597d}.txt"));
    assert_eq!(name_of(header.as_bytes()).as_deref(), Some("my_field"));
}

#[test]
fn header_without_the_parameter_gives_nothing() {
    assert_eq!(name_of(b""), None);
    assert_eq!(name_of(b"form-data"), None);
    assert_eq!(name_of(b"form-data;"), None);
    assert_eq!(name_of(b"name=x"), None);
    assert_eq!(name_of(b"form-data; names=x"), None);
    assert_eq!(name_of(b"form-data; name"), None);
}

#[test]
fn disposition_type_is_not_checked() {
    assert_eq!(name_of(b"attachment; name=x").as_deref(), Some("x"));
    assert_eq!(name_of(b"; name=x").as_deref(), Some("x"));
}

#[test]
fn unusable_extended_field_is_passed_over() {
    assert_eq!(name_of(b"form-data; name*=utf-8''%FF; name=plain").as_deref(), Some("plain"));
    assert_eq!(name_of(b"form-data; name*=utf-8; name=plain").as_deref(), Some("plain"));
    assert_eq!(name_of(b"form-data; name*=utf-8''%FF; name*=utf-8''ok").as_deref(), Some("ok"));
    assert_eq!(name_of(b"form-data; name*=utf-8''%FF"), None);
}

#[test]
fn first_plain_field_that_is_not_utf8_makes_the_name_absent() {
    let mut header = b"form-data; name=".to_vec();
    header.push(0xff);
    header.extend_from_slice(b"; name=second");
    assert_eq!(name_of(&header), None);

    let mut header = b"form-data; name=\"a\\\"".to_vec();
    header.push(0xff);
    header.extend_from_slice(b"\"; name=second");
    assert_eq!(name_of(&header), None);
}

#[test]
fn unclosed_quote_is_passed_over() {
    assert_eq!(name_of(br#"form-data; name="abc"#), None);
    assert_eq!(name_of(br#"form-data; name="abc; name=def"#).as_deref(), Some("def"));
}

#[test]
fn parameter_inside_a_quoted_value_is_seen_by_the_scan() {
    assert_eq!(name_of(br#"form-data; name="a; name*=utf-8''b""#).as_deref(), Some("b\""));
    assert_eq!(name_of(br#"form-data; x="; name=inner"; name=outer"#).as_deref(), Some("inner\""));
}

#[test]
fn plain_text_is_borrowed_from_the_header() {
    let header = b"form-data; name=plain";
    assert!(matches!(ContentDispositionAttr::Name.extract_from(header), Some(Cow::Borrowed("plain"))));
    let header = b"form-data; name*=utf-8''plain";
    assert!(matches!(ContentDispositionAttr::Name.extract_from(header), Some(Cow::Borrowed("plain"))));
    let header = b"form-data; name*=utf-8''pl%61in";
    assert!(matches!(ContentDispositionAttr::Name.extract_from(header), Some(Cow::Owned(_))));
}

#[test]
fn into_owned_keeps_the_text() {
    assert_eq!(into_owned(Some(Cow::Borrowed("abc"))), Some(String::from("abc")));
    assert_eq!(into_owned(Some(Cow::Owned(String::from("abc")))), Some(String::from("abc")));
    assert_eq!(into_owned(None), None);
}

#[test]
fn from_value_reads_both_parameters() {
    let parsed = ContentDisposition::from_value(Some(&br#"form-data; name="field"; filename="a.txt""#[..]));
    assert_eq!(parsed.field_name.as_deref(), Some("field"));
    assert_eq!(parsed.file_name.as_deref(), Some("a.txt"));
    let parsed = ContentDisposition::from_value(Some(&b"form-data; name=field"[..]));
    assert_eq!(parsed.field_name.as_deref(), Some("field"));
    assert_eq!(parsed.file_name, None);
}

#[test]
fn from_value_without_header_gives_nothing() {
    let parsed = ContentDisposition::from_value(None);
    assert_eq!(parsed.field_name, None);
    assert_eq!(parsed.file_name, None);
}

#[test]
fn parse_reads_the_content_disposition_header() {
    let mut headers = HeaderMap::new();
    headers.insert(CONTENT_TYPE, HeaderValue::from_static("text/plain; name=wrong"));
    headers.insert(
        CONTENT_DISPOSITION,
        HeaderValue::from_static("form-data; name=\"field\"; filename=\"a.txt\""),
    );
    let parsed = ContentDisposition::parse(&headers);
    assert_eq!(parsed.field_name.as_deref(), Some("field"));
    assert_eq!(parsed.file_name.as_deref(), Some("a.txt"));
}

#[test]
fn parse_reads_the_first_of_several_values() {
    let mut headers = HeaderMap::new();
    headers.append(CONTENT_DISPOSITION, HeaderValue::from_static("form-data; name=first"));
    headers.append(CONTENT_DISPOSITION, HeaderValue::from_static("form-data; name=second; filename=f"));
    let parsed = ContentDisposition::parse(&headers);
    assert_eq!(parsed.field_name.as_deref(), Some("first"));
    assert_eq!(parsed.file_name, None);
}

#[test]
fn parse_without_the_header_gives_nothing() {
    let mut headers = HeaderMap::new();
    let parsed = ContentDisposition::parse(&headers);
    assert_eq!(parsed.field_name, None);
    assert_eq!(parsed.file_name, None);
    headers.insert(CONTENT_TYPE, HeaderValue::from_static("form-data; name=field"));
    let parsed = ContentDisposition::parse(&headers);
    assert_eq!(parsed.field_name, None);
    assert_eq!(parsed.file_name, None);
}

#[test]
fn parse_reads_header_bytes_that_are_not_ascii() {
    let mut headers = HeaderMap::new();
    let value = "form-data; name=\"\u{4f60}\u{597d}\"";
    headers.insert(CONTENT_DISPOSITION, HeaderValue::from_bytes(value.as_bytes()).unwrap());
    let parsed = ContentDisposition::parse(&headers);
    assert_eq!(parsed.field_name.as_deref(), Some("\u{4f60}\u{597d}"));
}
