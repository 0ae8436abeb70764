use cargo_minimal_versions::document::serialize;
use cargo_minimal_versions::members::{exclude_members, promote_to_detached_workspace};
use cargo_minimal_versions::parse::parse;

fn excl(input: &str, names: &[&str]) -> String {
    let mut doc = parse(input.as_bytes()).expect("input should parse");
    let excl: Vec<Vec<u8>> = names.iter().map(|n| n.as_bytes().to_vec()).collect();
    exclude_members(&mut doc, &excl);
    String::from_utf8(serialize(&doc)).unwrap()
}

fn promote(input: &str) -> String {
    let mut doc = parse(input.as_bytes()).expect("input should parse");
    promote_to_detached_workspace(&mut doc);
    String::from_utf8(serialize(&doc)).unwrap()
}

#[test]
fn exclude_appends_to_existing_list() {
    let input = "[workspace]\nmembers = [\"a\", \"b\"]\nexclude = [\"c\"]\n";
    let expected = "[workspace]\nmembers = [\"a\", \"b\"]\nexclude = [\"c\", \"b\",]\n";
    assert_eq!(excl(input, &["b"]), expected);
}

#[test]
fn exclude_shortens_members_without_list() {
    let input = "[workspace]\nmembers = [\"a\", \"b\"]\n";
    let expected = "[workspace]\nmembers = [\"a\",]\n";
    assert_eq!(excl(input, &["b"]), expected);
}

#[test]
fn exclude_can_empty_the_members_list() {
    let input = "[workspace]\nmembers = [\"a\"]\n";
    let expected = "[workspace]\nmembers = []\n";
    assert_eq!(excl(input, &["a"]), expected);
}

#[test]
fn exclude_unknown_member_changes_nothing() {
    let input = "[workspace]\nmembers = [\"a\"]\n";
    assert_eq!(excl(input, &["zzz"]), input);
}

#[test]
fn exclude_escapes_quoted_members() {
    let input = "[workspace]\nexclude = []\n";
    let expected = "[workspace]\nexclude = [ \"a\\\"b\",]\n";
    assert_eq!(excl(input, &["a\"b"]), expected);
}

#[test]
fn promote_adds_marker_table() {
    let input = "[package]\nname = \"x\"\n";
    let expected = "[package]\nname = \"x\"\n\n[workspace]\n";
    assert_eq!(promote(input), expected);
}

#[test]
fn promote_leaves_existing_workspace() {
    let input = "[package]\nname = \"x\"\n\n[workspace]\nmembers = []\n";
    assert_eq!(promote(input), input);
}

#[test]
fn promote_respects_dotted_workspace_entry() {
    let input = "workspace.resolver = \"2\"\n[package]\nname = \"x\"\n";
    assert_eq!(promote(input), input);
}

#[test]
fn exclude_nothing_is_byte_identical() {
    // an empty exclusion set must not touch the document, not even the
    // separator of an existing exclusion list's last element
    let input = "[workspace]\nexclude = [\"a\"]\n";
    assert_eq!(excl(input, &[]), input);
    let input = "[workspace]\nmembers = [\"a\"]\nexclude = [\"b\", \"c\"]\n";
    assert_eq!(excl(input, &[]), input);
}
