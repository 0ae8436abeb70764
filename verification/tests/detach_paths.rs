use cargo_minimal_versions::cli::DetachPathDeps;
use cargo_minimal_versions::detach::detach_path_deps;
use cargo_minimal_versions::document::serialize;
use cargo_minimal_versions::parse::parse;

fn detach(input: &str, mode: DetachPathDeps) -> String {
    let mut doc = parse(input.as_bytes()).expect("input should parse");
    detach_path_deps(&mut doc, mode);
    String::from_utf8(serialize(&doc)).unwrap()
}

#[test]
fn detach_all_removes_paths_with_version() {
    let input = "[dependencies]\na = { version = '1', path = 'p' }\ng = { path = 'p' }\nh = { version = '=1', path = 'p' }\n[build-dependencies]\nb = { path = 'p', version = '1' }\n[dev-dependencies]\nc = { path = 'p', version = '1' }\n[dependencies.d]\npath = 'p'\nversion = '1'\n";
    let expected = "[dependencies]\na = { version = '1' }\ng = { path = 'p' }\nh = { version = '=1' }\n[build-dependencies]\nb = { version = '1' }\n[dev-dependencies]\nc = { path = 'p', version = '1' }\n[dependencies.d]\nversion = '1'\n";
    assert_eq!(detach(input, DetachPathDeps::All), expected);
}

#[test]
fn detach_skip_exact_spares_full_pins() {
    // a full exact pin keeps its path; a pin without a patch component and a
    // pin with a pre-release qualifier lose theirs
    let input = "[dependencies]\ni = { version = '=1.2', path = 'p' }\nj = { version = '=1.2.3', path = 'p' }\nk = { version = '=1.2.3-alpha', path = 'p' }\nl = { version = '=1.2.3-alpha.1', path = 'p' }\n";
    let expected = "[dependencies]\ni = { version = '=1.2' }\nj = { version = '=1.2.3', path = 'p' }\nk = { version = '=1.2.3-alpha' }\nl = { version = '=1.2.3-alpha.1' }\n";
    assert_eq!(detach(input, DetachPathDeps::SkipExact), expected);
}

#[test]
fn detach_path_only_dep_is_untouched() {
    let input = "[dependencies]\ng = { path = 'p' }\n[dependencies.h]\npath = 'p'\n";
    assert_eq!(detach(input, DetachPathDeps::All), input);
    assert_eq!(detach(input, DetachPathDeps::SkipExact), input);
}

#[test]
fn detach_git_dep_loses_path() {
    let input = "[dependencies]\ng = { git = 'u', path = 'p' }\n";
    let expected = "[dependencies]\ng = { git = 'u' }\n";
    assert_eq!(detach(input, DetachPathDeps::All), expected);
}

#[test]
fn detach_never_touches_dev_sections() {
    let input = "[dev-dependencies]\nc = { path = 'p', version = '1' }\n[dev-dependencies.f]\nversion = '1'\npath = 'p'\n[target.a.dev-dependencies]\nc = { path = 'p', version = '1' }\n";
    assert_eq!(detach(input, DetachPathDeps::All), input);
}

#[test]
fn detach_target_sections() {
    let input = "[target.a.dependencies]\na = { version = '1', path = 'p' }\n[target.b.build-dependencies.e]\nversion = '1'\npath = 'p'\n";
    let expected = "[target.a.dependencies]\na = { version = '1' }\n[target.b.build-dependencies.e]\nversion = '1'\n";
    assert_eq!(detach(input, DetachPathDeps::All), expected);
}

#[test]
fn detach_workspace_dependency_tables() {
    let input = "[workspace.dependencies]\na = { version = '1', path = 'p' }\n[workspace.dependencies.d]\npath = 'p'\nversion = '1'\n";
    let expected = "[workspace.dependencies]\na = { version = '1' }\n[workspace.dependencies.d]\nversion = '1'\n";
    assert_eq!(detach(input, DetachPathDeps::All), expected);
}

#[test]
fn detach_skip_exact_nonstring_version() {
    // a version that is not a string cannot be an exact pin, so the path goes
    let input = "[dependencies]\na = { version = 1, path = 'p' }\n";
    let expected = "[dependencies]\na = { version = 1 }\n";
    assert_eq!(detach(input, DetachPathDeps::SkipExact), expected);
}
