use rustybrain_core::frontmatter::{decode, encode, MetaField, ZettelHeader};

fn header(title: Option<&str>, extra: &[(&str, &str)]) -> ZettelHeader {
    ZettelHeader {
        title: title.map(|t| t.to_string()),
        extra: extra
            .iter()
            .map(|(k, v)| MetaField { key: k.to_string(), value: v.to_string() })
            .collect(),
    }
}

#[test]
fn round_trip_simple() {
    let h = header(Some("My Note"), &[]);
    let body = "Hello, world.\nSecond line.\n";
    let text = encode(&h, body);
    assert_eq!(text, "+++\ntitle = \"My Note\"\n+++\nHello, world.\nSecond line.\n");
    let (h2, b2) = decode(&text).unwrap();
    assert_eq!(h2.title.as_deref(), Some("My Note"));
    assert!(h2.extra.is_empty());
    assert_eq!(b2, body);
}

#[test]
fn round_trip_extra_fields_kept() {
    let h = header(Some("A"), &[("created", "2021-07-04"), ("mood", "good")]);
    let body = "text";
    let (h2, b2) = decode(&encode(&h, body)).unwrap();
    assert_eq!(h2.title.as_deref(), Some("A"));
    assert_eq!(h2.extra.len(), 2);
    assert_eq!(h2.extra[0].key, "created");
    assert_eq!(h2.extra[0].value, "2021-07-04");
    assert_eq!(h2.extra[1].key, "mood");
    assert_eq!(h2.extra[1].value, "good");
    assert_eq!(b2, "text");
}

#[test]
fn round_trip_escaped_title() {
    let h = header(Some("quote \" slash \\ line\nbreak"), &[]);
    let (h2, b2) = decode(&encode(&h, "b")).unwrap();
    assert_eq!(h2.title.as_deref(), Some("quote \" slash \\ line\nbreak"));
    assert_eq!(b2, "b");
}

#[test]
fn round_trip_body_with_delimiter_line() {
    // the header block closes before the body is ever looked at, so even a
    // body holding a delimiter line survives the round trip
    let h = header(Some("t"), &[]);
    let body = "before\n+++\nafter";
    let (h2, b2) = decode(&encode(&h, body)).unwrap();
    assert_eq!(h2.title.as_deref(), Some("t"));
    assert_eq!(b2, body);
}

#[test]
fn no_header_decodes_whole_file_as_body() {
    let text = "just some text\nwith lines\n";
    let (h, b) = decode(text).unwrap();
    assert!(h.title.is_none());
    assert!(h.extra.is_empty());
    assert_eq!(b, text);
}

#[test]
fn nearly_delimiter_first_line_is_body() {
    let text = "++++\ntitle = \"x\"\n+++\nrest";
    let (h, b) = decode(text).unwrap();
    assert!(h.title.is_none());
    assert_eq!(b, text);
}

#[test]
fn unclosed_header_is_error_not_partial() {
    let text = "+++\ntitle = \"x\"\nbody without closing";
    let e = decode(text).unwrap_err();
    assert_eq!(e, "title = \"x\"\nbody without closing");
}

#[test]
fn lone_delimiter_line_is_error() {
    let e = decode("+++").unwrap_err();
    assert_eq!(e, "");
}

#[test]
fn malformed_line_is_error_naming_the_line() {
    let text = "+++\ntitle : \"x\"\n+++\nbody";
    let e = decode(text).unwrap_err();
    assert_eq!(e, "title : \"x\"");
}

#[test]
fn duplicate_key_is_error() {
    let text = "+++\na = \"1\"\na = \"2\"\n+++\n";
    let e = decode(text).unwrap_err();
    assert_eq!(e, "a = \"2\"");
}

#[test]
fn duplicate_title_is_error() {
    let text = "+++\ntitle = \"1\"\ntitle = \"2\"\n+++\n";
    let e = decode(text).unwrap_err();
    assert_eq!(e, "title = \"2\"");
}

#[test]
fn blank_lines_and_spacing_tolerated() {
    let text = "+++\n\n  title   =   \"x\"  \n\t\n+++\nbody";
    let (h, b) = decode(text).unwrap();
    assert_eq!(h.title.as_deref(), Some("x"));
    assert_eq!(b, "body");
}

#[test]
fn escape_codes_accepted_on_input() {
    let text = "+++\ntitle = \"a\\tb\\rc\\nd\\\"e\\\\f\"\n+++\n";
    let (h, _) = decode(text).unwrap();
    assert_eq!(h.title.as_deref(), Some("a\tb\rc\nd\"e\\f"));
}

#[test]
fn unknown_escape_code_is_error() {
    let text = "+++\ntitle = \"a\\qb\"\n+++\n";
    assert!(decode(text).is_err());
}

#[test]
fn empty_file_decodes_to_default() {
    let (h, b) = decode("").unwrap();
    assert!(h.title.is_none());
    assert_eq!(b, "");
}

#[test]
fn empty_header_block() {
    let (h, b) = decode("+++\n+++\nbody").unwrap();
    assert!(h.title.is_none());
    assert!(h.extra.is_empty());
    assert_eq!(b, "body");
}

#[test]
fn body_starts_right_after_closing_newline() {
    let (_, b) = decode("+++\n+++\n\nindented start").unwrap();
    assert_eq!(b, "\nindented start");
}

#[test]
fn closing_delimiter_at_end_of_file_gives_empty_body() {
    let (h, b) = decode("+++\ntitle = \"x\"\n+++").unwrap();
    assert_eq!(h.title.as_deref(), Some("x"));
    assert_eq!(b, "");
}

#[test]
fn encode_without_title_writes_no_title_line() {
    let h = header(None, &[("k", "v")]);
    assert_eq!(encode(&h, "b"), "+++\nk = \"v\"\n+++\nb");
}
