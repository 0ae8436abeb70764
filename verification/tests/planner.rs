use cargo_minimal_versions::cli::{Args, DetachPathDeps, Subcommand};
use cargo_minimal_versions::manifest::{
    Action, Error, Manifest, Package, PackageInput, WorkspaceInput, with,
};
use cargo_minimal_versions::parse::parse;
use cargo_minimal_versions::try_main;

fn args(no_private: bool, detach: Option<DetachPathDeps>, sub: &str) -> Args {
    Args {
        no_private,
        direct: false,
        subcommand: Subcommand::new(sub.to_owned()),
        manifest_path: None,
        detach_path_deps: detach,
        cargo_args: Vec::new(),
        rest: Vec::new(),
    }
}

fn pkg(path: &str, publish: bool, contents: &str, lockfile: Option<&str>) -> PackageInput {
    PackageInput {
        manifest_path: path.as_bytes().to_vec(),
        publish,
        contents: contents.as_bytes().to_vec(),
        lockfile: lockfile.map(|c| c.as_bytes().to_vec()),
    }
}

fn ws(packages: Vec<PackageInput>, root_contents: &str, root_lockfile: Option<&str>) -> WorkspaceInput {
    WorkspaceInput {
        cargo_version: 62,
        workspace_root: b"/w".to_vec(),
        packages,
        root_contents: root_contents.as_bytes().to_vec(),
        root_lockfile: root_lockfile.map(|c| c.as_bytes().to_vec()),
    }
}

#[test]
fn plan_single_package_strips_and_keeps_lockfile() {
    let manifest = "[package]\nname = \"r\"\n\n[dependencies]\nx = \"1\"\n\n[dev-dependencies]\ny = \"1\"\n";
    let w = ws(
        vec![pkg("/w/Cargo.toml", true, manifest, None)],
        manifest,
        Some("LOCK"),
    );
    let plan = try_main(&w, &args(false, None, "check")).unwrap();
    assert!(!plan.detach_workspace);
    assert_eq!(plan.ids, vec![0]);
    assert_eq!(plan.actions.len(), 2);
    match &plan.actions[0] {
        Action::RegisterWrite { path, original, mutated } => {
            assert_eq!(path, &b"/w/Cargo.toml".to_vec());
            assert_eq!(original, &manifest.as_bytes().to_vec());
            assert_eq!(
                String::from_utf8(mutated.clone()).unwrap(),
                "[package]\nname = \"r\"\n\n[dependencies]\nx = \"1\"\n"
            );
        }
        _ => panic!("expected the manifest write first"),
    }
    match &plan.actions[1] {
        Action::RegisterKeep { path, contents } => {
            assert_eq!(path, &b"/w/Cargo.lock".to_vec());
            assert_eq!(contents, &b"LOCK".to_vec());
        }
        _ => panic!("expected the lockfile registration last"),
    }
}

#[test]
fn plan_detached_workspace() {
    let root = "[package]\nname = \"r\"\n\n[workspace]\nmembers = [\"m\"]\n";
    let member = "[package]\nname = \"m\"\n\n[dev-dependencies]\nz = \"1\"\n";
    let w = ws(
        vec![
            pkg("/w/Cargo.toml", true, root, None),
            pkg("/w/m/Cargo.toml", true, member, None),
        ],
        root,
        None,
    );
    let plan = try_main(&w, &args(false, None, "check")).unwrap();
    assert!(plan.detach_workspace);
    assert_eq!(plan.ids, vec![0, 1]);
    assert_eq!(plan.actions.len(), 3);
    match &plan.actions[0] {
        Action::RegisterWrite { path, mutated, .. } => {
            assert_eq!(path, &b"/w/Cargo.toml".to_vec());
            assert_eq!(
                String::from_utf8(mutated.clone()).unwrap(),
                "[package]\nname = \"r\"\n\n[workspace]\nmembers = []\n"
            );
        }
        _ => panic!("expected the root write first"),
    }
    match &plan.actions[1] {
        Action::RegisterRemove { path } => {
            assert_eq!(path, &b"/w/m/Cargo.lock".to_vec());
        }
        _ => panic!("expected the member lockfile marker"),
    }
    match &plan.actions[2] {
        Action::RegisterWrite { path, mutated, .. } => {
            assert_eq!(path, &b"/w/m/Cargo.toml".to_vec());
            assert_eq!(
                String::from_utf8(mutated.clone()).unwrap(),
                "[package]\nname = \"m\"\n\n[workspace]\n"
            );
        }
        _ => panic!("expected the member write"),
    }
}

#[test]
fn plan_excludes_private_members() {
    let root = "[package]\nname = \"r\"\n\n[workspace]\nmembers = [\"m\"]\n\n[dev-dependencies]\nq = \"1\"\n";
    let member = "[package]\nname = \"m\"\n";
    let w = ws(
        vec![
            pkg("/w/Cargo.toml", true, root, None),
            pkg("/w/m/Cargo.toml", false, member, None),
        ],
        root,
        None,
    );
    let plan = try_main(&w, &args(true, None, "check")).unwrap();
    assert!(!plan.detach_workspace);
    assert_eq!(plan.ids, vec![0]);
    assert_eq!(plan.actions.len(), 1);
    match &plan.actions[0] {
        Action::RegisterWrite { path, mutated, .. } => {
            assert_eq!(path, &b"/w/Cargo.toml".to_vec());
            assert_eq!(
                String::from_utf8(mutated.clone()).unwrap(),
                "[package]\nname = \"r\"\n\n[workspace]\nmembers = []\n"
            );
        }
        _ => panic!("expected the root write"),
    }
}

#[test]
fn plan_private_root_is_refused() {
    let root = "[package]\nname = \"r\"\n";
    let w = ws(vec![pkg("/w/Cargo.toml", false, root, None)], root, None);
    match with(&w, &args(true, None, "check"), true) {
        Err(Error::PrivateRoot) => {}
        _ => panic!("expected the private-root error"),
    }
}

#[test]
fn plan_detach_needs_removed_dev_deps() {
    let root = "[package]\nname = \"r\"\n";
    let w = ws(vec![pkg("/w/Cargo.toml", true, root, None)], root, None);
    match try_main(&w, &args(false, Some(DetachPathDeps::All), "test")) {
        Err(Error::DetachNeedsRemovedDevDeps { subcommand }) => {
            assert_eq!(subcommand, "test");
        }
        _ => panic!("expected the detach precondition error"),
    }
}

#[test]
fn plan_parse_error_surfaces() {
    let root = "[package\nname = \"r\"\n";
    let w = ws(vec![pkg("/w/Cargo.toml", true, root, None)], root, None);
    match with(&w, &args(false, None, "check"), true) {
        Err(Error::Parse { .. }) => {}
        _ => panic!("expected a parse error"),
    }
}

#[test]
fn plan_missing_package_table() {
    let root = "[dependencies]\nx = \"1\"\n";
    let w = ws(vec![pkg("/w/Cargo.toml", true, root, None)], root, None);
    match with(&w, &args(false, None, "check"), true) {
        Err(Error::MissingField { field }) => {
            assert_eq!(field, b"package".to_vec());
        }
        _ => panic!("expected the missing-field error"),
    }
}

#[test]
fn plan_dev_subcommand_keeps_manifests() {
    // a subcommand that always needs development dependencies, without
    // detaching, leaves a single-package workspace untouched
    let root = "[package]\nname = \"r\"\n\n[dev-dependencies]\ny = \"1\"\n";
    let w = ws(vec![pkg("/w/Cargo.toml", true, root, None)], root, None);
    let plan = try_main(&w, &args(false, None, "test")).unwrap();
    assert_eq!(plan.actions.len(), 0);
    assert_eq!(plan.ids, vec![0]);
}

#[test]
fn manifest_reads_publish_for_old_metadata() {
    let doc = parse(b"[package]\nname = \"x\"\npublish = false\n").unwrap();
    let p = Package::from_table(&doc, 38).unwrap();
    assert_eq!(p.publish, Some(false));
    let doc = parse(b"[package]\nname = \"x\"\n").unwrap();
    let p = Package::from_table(&doc, 38).unwrap();
    assert_eq!(p.publish, Some(true));
    let doc = parse(b"[package]\npublish = []\n").unwrap();
    let p = Package::from_table(&doc, 38).unwrap();
    assert_eq!(p.publish, Some(false));
    let doc = parse(b"[package]\npublish = [\"crates-io\"]\n").unwrap();
    let p = Package::from_table(&doc, 38).unwrap();
    assert_eq!(p.publish, Some(true));
    let doc = parse(b"[package]\npublish = \"no\"\n").unwrap();
    match Package::from_table(&doc, 38) {
        Err(Error::MissingField { field }) => assert_eq!(field, b"publish".to_vec()),
        _ => panic!("expected the malformed publish field to be refused"),
    }
}

#[test]
fn manifest_new_keeps_raw_bytes() {
    let raw = b"[package]\nname = \"x\"\n".to_vec();
    let m = Manifest::new(raw.clone(), 62).unwrap();
    assert_eq!(m.raw, raw);
    assert_eq!(m.package.publish, None);
}

#[test]
fn plan_member_lockfile_is_kept() {
    let root = "[package]\nname = \"r\"\n\n[workspace]\nmembers = [\"m\"]\n";
    let member = "[package]\nname = \"m\"\n";
    let w = ws(
        vec![
            pkg("/w/Cargo.toml", true, root, None),
            pkg("/w/m/Cargo.toml", true, member, Some("MLOCK")),
        ],
        root,
        None,
    );
    let plan = try_main(&w, &args(false, None, "check")).unwrap();
    assert!(plan.detach_workspace);
    match &plan.actions[1] {
        Action::RegisterKeep { path, contents } => {
            assert_eq!(path, &b"/w/m/Cargo.lock".to_vec());
            assert_eq!(contents, &b"MLOCK".to_vec());
        }
        _ => panic!("expected the member lockfile to be registered"),
    }
}

#[test]
fn plan_appends_to_existing_exclusion_list() {
    let root = "[package]\nname = \"r\"\n\n[workspace]\nmembers = [\"m\"]\nexclude = [\"x\"]\n";
    let member = "[package]\nname = \"m\"\n";
    let w = ws(
        vec![
            pkg("/w/Cargo.toml", true, root, None),
            pkg("/w/m/Cargo.toml", true, member, None),
        ],
        root,
        None,
    );
    let plan = try_main(&w, &args(false, None, "check")).unwrap();
    match &plan.actions[0] {
        Action::RegisterWrite { path, mutated, .. } => {
            assert_eq!(path, &b"/w/Cargo.toml".to_vec());
            assert_eq!(
                String::from_utf8(mutated.clone()).unwrap(),
                "[package]\nname = \"r\"\n\n[workspace]\nmembers = [\"m\"]\nexclude = [\"x\", \"m\",]\n"
            );
        }
        _ => panic!("expected the root write first"),
    }
}
