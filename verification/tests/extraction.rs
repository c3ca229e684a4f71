use content_disposition::ContentDispositionAttr;

#[test]
fn test_name_only() {
    let val = br#"form-data; name="my_field""#;
    let name = ContentDispositionAttr::Name.extract_from(val);
    let filename = ContentDispositionAttr::FileName.extract_from(val);
    assert_eq!(name.unwrap(), "my_field");
    assert!(filename.is_none());

    let val = br#"form-data; name=my_field  "#;
    let name = ContentDispositionAttr::Name.extract_from(val);
    let filename = ContentDispositionAttr::FileName.extract_from(val);
    assert_eq!(name.unwrap(), "my_field");
    assert!(filename.is_none());

    let val = br#"form-data; name  =  my_field  "#;
    let name = ContentDispositionAttr::Name.extract_from(val);
    let filename = ContentDispositionAttr::FileName.extract_from(val);
    assert_eq!(name.unwrap(), "my_field");
    assert!(filename.is_none());

    let val = br#"form-data; name  =  "#;
    let name = ContentDispositionAttr::Name.extract_from(val);
    let filename = ContentDispositionAttr::FileName.extract_from(val);
    assert_eq!(name.unwrap(), "");
    assert!(filename.is_none());

    let val = br#"form-data; name*=utf-8''my_field%20with%20space"#;
    let name = ContentDispositionAttr::Name.extract_from(val);
    let filename = ContentDispositionAttr::FileName.extract_from(val);
    assert_eq!(name.unwrap(), "my_field with space");
    assert!(filename.is_none());
}

#[test]
fn test_extraction() {
    let val = br#"form-data; name="my_field"; filename="file abc.txt""#;
    let name = ContentDispositionAttr::Name.extract_from(val);
    let filename = ContentDispositionAttr::FileName.extract_from(val);
    assert_eq!(name.unwrap(), "my_field");
    assert_eq!(filename.unwrap(), "file abc.txt");

    let val = "form-data; name=\"你好\"; filename=\"file abc.txt\"".as_bytes();
    let name = ContentDispositionAttr::Name.extract_from(val);
    let filename = ContentDispositionAttr::FileName.extract_from(val);
    assert_eq!(name.unwrap(), "你好");
    assert_eq!(filename.unwrap(), "file abc.txt");

    let val = "form-data; name=\"কখগ\"; filename=\"你好.txt\"".as_bytes();
    let name = ContentDispositionAttr::Name.extract_from(val);
    let filename = ContentDispositionAttr::FileName.extract_from(val);
    assert_eq!(name.unwrap(), "কখগ");
    assert_eq!(filename.unwrap(), "你好.txt");
}

#[test]
fn test_extraction_extended() {
    let val = br#"form-data; name*=utf-8''my_field%20with%20space; filename="file abc.txt""#;
    let name = ContentDispositionAttr::Name.extract_from(val);
    let filename = ContentDispositionAttr::FileName.extract_from(val);
    assert_eq!(name.unwrap(), "my_field with space");
    assert_eq!(filename.unwrap(), "file abc.txt");

    let val = "form-data; name=\"my_field\"; filename=\"你好.txt\"".as_bytes();
    let name = ContentDispositionAttr::Name.extract_from(val);
    let filename = ContentDispositionAttr::FileName.extract_from(val);
    assert_eq!(name.unwrap(), "my_field");
    assert_eq!(filename.unwrap(), "你好.txt");

    // RFC 7578 Section 4.2 says `filename*=` syntax is invalid.
    // Clients might still set it, though.
    // See https://datatracker.ietf.org/doc/html/rfc7578#section-4.2
    let val = "form-data; name=my_field; filename=\"你好.txt\"; filename*=utf-8''你好.txt".as_bytes();
    let name = ContentDispositionAttr::Name.extract_from(val);
    let filename = ContentDispositionAttr::FileName.extract_from(val);
    assert_eq!(name.unwrap(), "my_field");
    assert_eq!(filename.unwrap(), "你好.txt");

    let val = "form-data; name=my_field; filename*=utf-8''你好.txt; filename=\"你好.txt\"".as_bytes();
    let name = ContentDispositionAttr::Name.extract_from(val);
    let filename = ContentDispositionAttr::FileName.extract_from(val);
    assert_eq!(name.unwrap(), "my_field");
    assert_eq!(filename.unwrap(), "你好.txt");
}

#[test]
fn test_file_name_only() {
    // These are technically malformed, as RFC 7578 says the `name`
    // parameter _must_ be included. But okay.
    let val = br#"form-data; filename="file-name.txt""#;
    let name = ContentDispositionAttr::Name.extract_from(val);
    let filename = ContentDispositionAttr::FileName.extract_from(val);
    assert_eq!(filename.unwrap(), "file-name.txt");
    assert!(name.is_none());

    let val = "form-data; filename=\"কখগ-你好.txt\"".as_bytes();
    let name = ContentDispositionAttr::Name.extract_from(val);
    let filename = ContentDispositionAttr::FileName.extract_from(val);
    assert_eq!(filename.unwrap(), "কখগ-你好.txt");
    assert!(name.is_none());
}

#[test]
fn test_misordered_fields() {
    let val = br#"form-data; filename=file-name.txt; name=file"#;
    let name = ContentDispositionAttr::Name.extract_from(val);
    let filename = ContentDispositionAttr::FileName.extract_from(val);
    assert_eq!(filename.unwrap(), "file-name.txt");
    assert_eq!(name.unwrap(), "file");

    let val = br#"form-data; filename="file-name.txt"; name="file""#;
    let name = ContentDispositionAttr::Name.extract_from(val);
    let filename = ContentDispositionAttr::FileName.extract_from(val);
    assert_eq!(filename.unwrap(), "file-name.txt");
    assert_eq!(name.unwrap(), "file");

    let val = "form-data; filename=\"你好.txt\"; name=\"কখগ\"".as_bytes();
    let name = ContentDispositionAttr::Name.extract_from(val);
    let filename = ContentDispositionAttr::FileName.extract_from(val);
    assert_eq!(name.unwrap(), "কখগ");
    assert_eq!(filename.unwrap(), "你好.txt");
}

#[test]
fn test_name_mixed_case() {
    let val = br#"form-data; Name=file; FileName=file-name.txt"#;
    let name = ContentDispositionAttr::Name.extract_from(val);
    let filename = ContentDispositionAttr::FileName.extract_from(val);
    assert_eq!(name.unwrap(), "file");
    assert_eq!(filename.unwrap(), "file-name.txt");

    let val = br#"form-data; NAME="file"; FILENAME="file-name.txt""#;
    let name = ContentDispositionAttr::Name.extract_from(val);
    let filename = ContentDispositionAttr::FileName.extract_from(val);
    assert_eq!(name.unwrap(), "file");
    assert_eq!(filename.unwrap(), "file-name.txt");

    let val = "form-data; Name=\"কখগ\"; FileName=\"你好.txt\"".as_bytes();
    let name = ContentDispositionAttr::Name.extract_from(val);
    let filename = ContentDispositionAttr::FileName.extract_from(val);
    assert_eq!(name.unwrap(), "কখগ");
    assert_eq!(filename.unwrap(), "你好.txt");

    let val = "form-data; Name*=UTF-8''কখগ; FileNAME*=utf-8''你好.txt; FILEName=\"file-name.txt\"".as_bytes();
    let name = ContentDispositionAttr::Name.extract_from(val);
    let filename = ContentDispositionAttr::FileName.extract_from(val);
    assert_eq!(name.unwrap(), "কখগ");
    assert_eq!(filename.unwrap(), "你好.txt");
}

#[test]
fn test_name_unquoted() {
    let val = br#"form-data; name=my_field"#;
    let name = ContentDispositionAttr::Name.extract_from(val);
    let filename = ContentDispositionAttr::FileName.extract_from(val);
    assert_eq!(name.unwrap(), "my_field");
    assert!(filename.is_none());

    let val = br#"form-data; name=my_field; filename=file-name.txt"#;
    let name = ContentDispositionAttr::Name.extract_from(val);
    let filename = ContentDispositionAttr::FileName.extract_from(val);
    assert_eq!(name.unwrap(), "my_field");
    assert_eq!(filename.unwrap(), "file-name.txt");
}

#[test]
fn test_name_quoted() {
    let val = br#"form-data; name="my;f;ield""#;
    let name = ContentDispositionAttr::Name.extract_from(val);
    let filename = ContentDispositionAttr::FileName.extract_from(val);
    assert_eq!(name.unwrap(), "my;f;ield");
    assert!(filename.is_none());

    let val = br#"form-data; name=my_field; filename = "file;name.txt""#;
    let name = ContentDispositionAttr::Name.extract_from(val);
    assert_eq!(name.unwrap(), "my_field");
    let filename = ContentDispositionAttr::FileName.extract_from(val);
    assert_eq!(filename.unwrap(), "file;name.txt");

    let val = br#"form-data; name=; filename=filename.txt"#;
    let name = ContentDispositionAttr::Name.extract_from(val);
    let filename = ContentDispositionAttr::FileName.extract_from(val);
    assert_eq!(name.unwrap(), "");
    assert_eq!(filename.unwrap(), "filename.txt");

    let val = br#"form-data; name=";"; filename=";""#;
    let name = ContentDispositionAttr::Name.extract_from(val);
    let filename = ContentDispositionAttr::FileName.extract_from(val);
    assert_eq!(name.unwrap(), ";");
    assert_eq!(filename.unwrap(), ";");
}

#[test]
fn test_name_escaped_quote() {
    let val = br#"form-data; name="my\"field\"name""#;
    let name = ContentDispositionAttr::Name.extract_from(val);
    assert_eq!(name.unwrap(), r#"my"field"name"#);

    let val = br#"form-data; name="myfield\"name""#;
    let name = ContentDispositionAttr::Name.extract_from(val);
    assert_eq!(name.unwrap(), r#"myfield"name"#);
}
