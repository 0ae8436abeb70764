use cargo_minimal_versions::restore::{Manager, RestoreAction};

#[test]
fn register_records_pristine_bytes_once() {
    let mut mgr = Manager::new();
    mgr.register(b"first".to_vec(), b"/w/Cargo.toml".to_vec());
    // a second registration for the same path must not shadow the pristine
    // content
    mgr.register(b"second".to_vec(), b"/w/Cargo.toml".to_vec());
    let drained = mgr.restore_all();
    assert_eq!(drained.len(), 1);
    let f = drained.into_iter().next().unwrap();
    match f.restore() {
        RestoreAction::Rewrite { path, contents } => {
            assert_eq!(path, b"/w/Cargo.toml".to_vec());
            assert_eq!(contents, b"first".to_vec());
        }
        RestoreAction::Remove { .. } => panic!("expected a rewrite"),
    }
}

#[test]
fn restore_is_idempotent() {
    let mut mgr = Manager::new();
    mgr.register(b"a".to_vec(), b"/w/a/Cargo.toml".to_vec());
    mgr.register(b"b".to_vec(), b"/w/b/Cargo.toml".to_vec());
    let mut writes: usize = 0;
    for f in mgr.restore_all() {
        match f.restore() {
            RestoreAction::Rewrite { .. } => writes += 1,
            RestoreAction::Remove { .. } => writes += 1,
        }
    }
    assert_eq!(writes, 2);
    // the second drain observes an empty registry and performs nothing
    for _ in mgr.restore_all() {
        writes += 1;
    }
    assert_eq!(writes, 2);
}

#[test]
fn interrupt_after_two_of_three() {
    // two of three files were mutated and registered before the interrupt:
    // exactly those two are rewritten, to their original bytes, and the
    // third is never touched
    let mut mgr = Manager::new();
    mgr.register(b"one".to_vec(), b"/w/a/Cargo.toml".to_vec());
    mgr.register(b"two".to_vec(), b"/w/b/Cargo.toml".to_vec());
    let drained = mgr.restore_all();
    assert_eq!(drained.len(), 2);
    let mut restored: Vec<(Vec<u8>, Vec<u8>)> = Vec::new();
    for f in drained {
        match f.restore() {
            RestoreAction::Rewrite { path, contents } => restored.push((path, contents)),
            RestoreAction::Remove { .. } => panic!("expected rewrites only"),
        }
    }
    assert_eq!(
        restored,
        vec![
            (b"/w/a/Cargo.toml".to_vec(), b"one".to_vec()),
            (b"/w/b/Cargo.toml".to_vec(), b"two".to_vec()),
        ]
    );
    assert!(!restored.iter().any(|(p, _)| p == &b"/w/c/Cargo.toml".to_vec()));
}

#[test]
fn register_remove_yields_deletion() {
    let mut mgr = Manager::new();
    mgr.register_remove(b"/w/m/Cargo.lock".to_vec());
    let drained = mgr.restore_all();
    assert_eq!(drained.len(), 1);
    match drained.into_iter().next().unwrap().restore() {
        RestoreAction::Remove { path } => assert_eq!(path, b"/w/m/Cargo.lock".to_vec()),
        RestoreAction::Rewrite { .. } => panic!("expected a deletion"),
    }
}
