use cargo_minimal_versions::document::serialize;
use cargo_minimal_versions::parse::{parse, ParseErrorKind};

fn roundtrip(input: &str) {
    let doc = parse(input.as_bytes()).expect("input should parse");
    let out = serialize(&doc);
    assert_eq!(String::from_utf8(out).unwrap(), input);
}

#[test]
fn roundtrip_simple() {
    roundtrip("[package]\nname = \"demo\"\nversion = \"0.1.0\"\n");
}

#[test]
fn roundtrip_comments_and_blanks() {
    roundtrip(
        "# top comment\n\n[package]  # section comment\nname = \"demo\"   # trailing\n\n\n[dependencies]\nserde = \"1\"\n",
    );
}

#[test]
fn roundtrip_inline_tables_and_arrays() {
    roundtrip(
        "[dependencies]\na = { version = \"1\", path = \"p\", features = [\"x\", \"y\"] }\nb = [1, 2, 3]\n",
    );
}

#[test]
fn roundtrip_multiline_array() {
    roundtrip("[workspace]\nmembers = [\n    \"a\",\n    \"b\", # keep\n]\n");
}

#[test]
fn roundtrip_multiline_string() {
    roundtrip("[package]\ndescription = \"\"\"\nlong text \\\" here\n\"\"\"\n");
}

#[test]
fn roundtrip_literal_strings() {
    roundtrip("[target.'cfg(unix)'.dependencies]\nlibc = '0.2'\n");
}

#[test]
fn roundtrip_array_of_tables() {
    roundtrip("[[bin]]\nname = \"tool\"\n\n[[bin]]\nname = \"other\"\n");
}

#[test]
fn roundtrip_dotted_keys() {
    roundtrip("workspace.resolver = \"2\"\n\n[package]\nauthors.workspace = true\n");
}

#[test]
fn roundtrip_crlf_lines() {
    roundtrip("[package]\r\nname = \"demo\"\r\n");
}

#[test]
fn roundtrip_no_trailing_newline() {
    roundtrip("[package]\nname = \"demo\"");
}

#[test]
fn roundtrip_escapes() {
    roundtrip("[package]\nname = \"a\\\"b\\\\c\\u00e9\"\n");
}

#[test]
fn parse_error_unclosed_string() {
    let e = parse(b"[package]\nname = \"demo\n").unwrap_err();
    assert_eq!(e.kind, ParseErrorKind::UnclosedString);
}

#[test]
fn parse_error_missing_equals() {
    let e = parse(b"[package]\nname \"demo\"\n").unwrap_err();
    assert_eq!(e.kind, ParseErrorKind::ExpectedEquals);
}

#[test]
fn parse_error_unclosed_array() {
    let e = parse(b"[workspace]\nmembers = [\"a\",\n").unwrap_err();
    assert_eq!(e.kind, ParseErrorKind::UnclosedArray);
}

#[test]
fn parse_error_missing_value() {
    let e = parse(b"[package]\nname =\n").unwrap_err();
    assert_eq!(e.kind, ParseErrorKind::ExpectedValue);
}

#[test]
fn parse_error_unclosed_header() {
    let e = parse(b"[package\nname = \"x\"\n").unwrap_err();
    assert_eq!(e.kind, ParseErrorKind::ExpectedCloseBracket);
}

#[test]
fn roundtrip_indented_lines() {
    roundtrip("[package]\n    name = \"demo\"\n\t[dependencies]\n  a = \"1\"\n");
}

#[test]
fn trailing_bytes_are_only_trivia() {
    // content can never hide in the trailing bytes: it becomes structure
    let doc = parse(b"[package]\nname = \"x\"\n\n# done\n").unwrap();
    assert_eq!(doc.trailing, b"\n# done\n".to_vec());
    assert_eq!(doc.sections.len(), 1);
    assert_eq!(doc.sections[0].entries.len(), 1);
}
