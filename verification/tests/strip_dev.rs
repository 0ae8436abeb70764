use cargo_minimal_versions::document::serialize;
use cargo_minimal_versions::parse::parse;
use cargo_minimal_versions::strip::strip_dev_sections;

fn strip(input: &str) -> String {
    let mut doc = parse(input.as_bytes()).expect("input should parse");
    strip_dev_sections(&mut doc);
    String::from_utf8(serialize(&doc)).unwrap()
}

#[test]
fn strip_basic_scenario() {
    // development sections go; the feature entry naming the dependency that
    // only they declared is pruned, the one still declared elsewhere stays
    let input = "[dependencies]\nd1 = \"1\"\n\n[dev-dependencies]\nd1 = \"1\"\nd2 = \"1\"\n\n[features]\nf1 = [\"d1/x\", \"d2/y\"]\n";
    let expected = "[dependencies]\nd1 = \"1\"\n\n[features]\nf1 = [\"d1/x\",]\n";
    assert_eq!(strip(input), expected);
}

#[test]
fn strip_preserves_nondev_entries() {
    // a dependency declared in both kinds of section keeps its entry and its
    // feature references
    let input = "[dependencies]\nfoo = \"1\"\n\n[dev-dependencies]\nfoo = \"1\"\n\n[features]\nf = [\"foo/x\"]\n";
    let expected = "[dependencies]\nfoo = \"1\"\n\n[features]\nf = [\"foo/x\"]\n";
    assert_eq!(strip(input), expected);
}

#[test]
fn strip_feature_pruning_is_exact() {
    // d1 occurs only under dev-dependencies, d2 under both: exactly the d1
    // reference is pruned
    let input = "[dependencies]\nd2 = \"1\"\n\n[dev-dependencies]\nd1 = \"1\"\nd2 = \"1\"\n\n[features]\nf1 = [\"d1/x\", \"d2/y\"]\n";
    let expected = "[dependencies]\nd2 = \"1\"\n\n[features]\nf1 = [ \"d2/y\"]\n";
    assert_eq!(strip(input), expected);
}

#[test]
fn strip_target_sections() {
    let input = "[package]\nname = \"x\"\n\n[target.'cfg(unix)'.dev-dependencies]\nfoo = \"0.1\"\n\n[dev-dependencies]\nfoo = \"0.1\"\n\n[target.'cfg(unix)'.dependencies]\nfoo = \"0.1\"\n";
    let expected = "[package]\nname = \"x\"\n\n[target.'cfg(unix)'.dependencies]\nfoo = \"0.1\"\n";
    assert_eq!(strip(input), expected);
}

#[test]
fn strip_dev_spec_sections() {
    let input = "[package]\n\n[dev-dependencies.serde]\nfeatures = []\n\n[dependencies]\n";
    let expected = "[package]\n\n[dependencies]\n";
    assert_eq!(strip(input), expected);
}

#[test]
fn strip_top_level_dev_entry() {
    let input = "dev-dependencies = { a = \"1\" }\nx = 1\n";
    let expected = "x = 1\n";
    assert_eq!(strip(input), expected);
}

#[test]
fn strip_keeps_untouched_document() {
    let input = "[package]\nfoo = [\n    ['dev-dependencies'],\n    [\"dev-dependencies\"]\n]\n";
    assert_eq!(strip(input), input);
}

#[test]
fn strip_whole_document_of_dev_sections() {
    let input = "[dev-dependencies]\nfoo = { features = [] }\nbar = \"0.1\"\n";
    assert_eq!(strip(input), "");
}

#[test]
fn strip_keeps_build_dependency_names() {
    // a name under build-dependencies counts as retained
    let input = "[build-dependencies]\ncc = \"1\"\n\n[dev-dependencies]\ncc = \"1\"\n\n[features]\nf = [\"cc/parallel\"]\n";
    let expected = "[build-dependencies]\ncc = \"1\"\n\n[features]\nf = [\"cc/parallel\"]\n";
    assert_eq!(strip(input), expected);
}

#[test]
fn strip_bare_feature_entries_stay() {
    // only entries of the form name/feature are pruned
    let input = "[dev-dependencies]\nd1 = \"1\"\n\n[features]\nf = [\"d1\", \"d1/x\"]\n";
    let expected = "\n[features]\nf = [\"d1\",]\n";
    assert_eq!(strip(input), expected);
}
