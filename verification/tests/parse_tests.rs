use icy_metadata::error::EmptyMetadataError;
use icy_metadata::metadata::IcyMetadata;
use icy_metadata::parse::{parse_delimited_string, parse_value_if_valid};

fn parse(s: &str) -> Result<IcyMetadata, EmptyMetadataError> {
    IcyMetadata::parse_metadata(s)
}

#[test]
fn parse_stream_title_only() {
    let md = parse("StreamTitle='stream-title0';").unwrap();
    assert_eq!(md.stream_title(), Some("stream-title0"));
    assert_eq!(md.stream_url(), None);
    assert!(md.custom_fields().is_empty());
}

#[test]
fn parse_stream_url_only() {
    let md = parse("StreamUrl='stream-url0';").unwrap();
    assert_eq!(md.stream_url(), Some("stream-url0"));
    assert_eq!(md.stream_title(), None);
}

#[test]
fn parse_empty_is_error() {
    let err = parse("").unwrap_err();
    assert_eq!(err, EmptyMetadataError("".to_string()));
}

#[test]
fn parse_ambiguous_quoting_recovery() {
    let md = parse("StreamTitle=';stre'am-;title;';StreamUrl='stre;am=url';").unwrap();
    assert_eq!(md.stream_title(), Some(";stre'am-;title;"));
    assert_eq!(md.stream_url(), Some("stre;am=url"));
}

#[test]
fn parse_unescaped_cases() {
    let cases: Vec<(&str, Option<&str>, Option<&str>)> = vec![
        ("StreamTitle='stream-t;itle';", Some("stream-t;itle"), None),
        ("StreamTitle=';stream-title';", Some(";stream-title"), None),
        ("StreamTitle=';stream-title;';", Some(";stream-title;"), None),
        ("StreamTitle=';stream-;title;';", Some(";stream-;title;"), None),
        ("StreamTitle=';stre'am-;title;';", Some(";stre'am-;title;"), None),
        ("StreamUrl=';stre'am-;url;';", None, Some(";stre'am-;url;")),
        (
            "StreamTitle=';stre'am-;title;';StreamUrl='stre'am=url';",
            Some(";stre'am-;title;"),
            Some("stre'am=url"),
        ),
        (
            "StreamUrl='stre;am=url';StreamTitle=';stre'am-;title;';",
            Some(";stre'am-;title;"),
            Some("stre;am=url"),
        ),
        (
            "StreamTitle='streamtitle';StreamUrl='stre;am=url';",
            Some("streamtitle"),
            Some("stre;am=url"),
        ),
        (
            "StreamTitle=';stre'am-;title;';StreamUrl='stre;am=url'",
            Some(";stre'am-;title;"),
            Some("stre;am=url"),
        ),
        (
            "ExtraField=extra;StreamTitle=';stre'am-;title;';StreamUrl='stre'am=url';",
            Some(";stre'am-;title;"),
            Some("stre'am=url"),
        ),
    ];
    for (input, title, url) in cases {
        let md = parse(input).unwrap();
        assert_eq!(md.stream_title(), title, "title for {input}");
        assert_eq!(md.stream_url(), url, "url for {input}");
    }
}

#[test]
fn recovery_leaves_custom_fields_alone() {
    let md = parse("ExtraField=extra;StreamTitle=';stre'am-;title;';").unwrap();
    assert_eq!(md.stream_title(), Some(";stre'am-;title;"));
    let custom = md.custom_fields();
    assert_eq!(custom.len(), 1);
    assert_eq!(custom[0].0, "ExtraField");
    assert_eq!(custom[0].1, "extra");
}

#[test]
fn parse_all_properties() {
    let md = parse("StreamTitle='t0';StreamUrl='u0';CustomVal='custom0';").unwrap();
    assert_eq!(md.stream_title(), Some("t0"));
    assert_eq!(md.stream_url(), Some("u0"));
    let custom = md.custom_fields();
    assert_eq!(custom.len(), 1);
    assert_eq!(custom[0].0, "CustomVal");
    assert_eq!(custom[0].1, "custom0");
}

#[test]
fn parse_case_insensitive_keys() {
    let md = parse("streamtitle='a';STREAMURL='b';").unwrap();
    assert_eq!(md.stream_title(), Some("a"));
    assert_eq!(md.stream_url(), Some("b"));
}

#[test]
fn parse_missing_quotes_value_kept() {
    let md = parse("StreamTitle=plain;").unwrap();
    assert_eq!(md.stream_title(), Some("plain"));
}

#[test]
fn parse_duplicate_keys_last_wins() {
    // a later duplicate key overwrites the earlier value; the stray key
    // keeps the raw text's extra `;` from triggering re-extraction of
    // title or url, which stay absent
    let md = parse("A='1';A='2';").unwrap();
    assert_eq!(md.stream_title(), None);
    assert_eq!(md.stream_url(), None);
    assert_eq!(md.custom_fields().len(), 1);
    assert_eq!(md.custom_fields()[0], ("A".to_string(), "2".to_string()));
}

#[test]
fn parse_duplicate_reserved_key_recovers_from_raw_text() {
    // duplicate reserved keys make the element count fall short of the
    // `;` count, so the title is re-extracted from the raw text, running
    // from the first `streamtitle=` marker to the end
    let md = parse("StreamTitle='first';StreamTitle='second';").unwrap();
    assert_eq!(md.stream_title(), Some("first';StreamTitle='second"));
}

#[test]
fn delimited_string_flags() {
    let r = parse_delimited_string("a='1';b=2;");
    assert_eq!(r.map.len(), 2);
    assert_eq!(r.map[0].0, "a");
    assert_eq!(r.map[0].1, "1");
    assert_eq!(r.map[1].0, "b");
    assert_eq!(r.map[1].1, "2");
    // the trailing empty element has no `=`, so it is malformed
    assert!(r.errors_found);
    assert!(r.missing_quotes_found);

    let r2 = parse_delimited_string("a='1'");
    assert!(!r2.errors_found);
    assert!(!r2.missing_quotes_found);
}

#[test]
fn delimited_string_trims_whitespace() {
    let r = parse_delimited_string("  key = 'value'  ");
    assert_eq!(r.map.len(), 1);
    assert_eq!(r.map[0].0, "key");
    assert_eq!(r.map[0].1, "value");
}

#[test]
fn value_if_valid_strips_one_trailing_semicolon() {
    assert_eq!(parse_value_if_valid("k='v';"), Some("v".to_string()));
    assert_eq!(parse_value_if_valid("k=v"), Some("v".to_string()));
    assert_eq!(parse_value_if_valid("novalue"), None);
    // only a single trailing `;` is dropped
    assert_eq!(parse_value_if_valid("k=v;;"), Some("v;".to_string()));
}

#[test]
fn empty_metadata_error_message() {
    let err = EmptyMetadataError("block".to_string());
    assert_eq!(
        err.message(),
        "No valid values found for metadata block block"
    );
}

#[test]
fn default_metadata_is_empty() {
    let md = IcyMetadata::default();
    assert_eq!(md.stream_title(), None);
    assert_eq!(md.stream_url(), None);
    assert!(md.custom_fields().is_empty());
}

#[test]
fn parse_via_from_str() {
    let md: IcyMetadata = "StreamTitle='x';".parse().unwrap();
    assert_eq!(md.stream_title(), Some("x"));
}
