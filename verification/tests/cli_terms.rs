use cargo_minimal_versions::cargo::CargoVersion;
use cargo_minimal_versions::cli::Subcommand;
use cargo_minimal_versions::term::Coloring;

#[test]
fn subcommand_classification() {
    let b = Subcommand::new("build".to_owned());
    assert!(!b.always_needs_dev_deps());
    assert_eq!(b.as_str(), "build");
    let t = Subcommand::new("test".to_owned());
    assert!(t.always_needs_dev_deps());
    assert_eq!(t.as_str(), "test");
    let o = Subcommand::new("doc".to_owned());
    assert!(!o.always_needs_dev_deps());
    assert_eq!(o.as_str(), "doc");
    assert!(matches!(o, Subcommand::Other(_)));
    assert!(Subcommand::new("bench".to_owned()).always_needs_dev_deps());
    assert!(matches!(Subcommand::new("clippy".to_owned()), Subcommand::Builtin(_)));
}

#[test]
fn coloring_names() {
    assert_eq!(Coloring::Auto.as_str(), "auto");
    assert_eq!(Coloring::Always.as_str(), "always");
    assert_eq!(Coloring::Never.as_str(), "never");
    assert_eq!(Coloring::from_str("always"), Some(Coloring::Always));
    assert_eq!(Coloring::from_str("auto"), Some(Coloring::Auto));
    assert_eq!(Coloring::from_str("never"), Some(Coloring::Never));
    assert_eq!(Coloring::from_str("sometimes"), None);
}

#[test]
fn cargo_version_parsing() {
    let v = CargoVersion::parse(b"cargo 1.62.0 (a748cf5a3 2022-06-08)\nrelease: 1.62.0\n").unwrap();
    assert_eq!(v.minor, 62);
    assert!(!v.nightly);
    let v = CargoVersion::parse(b"release: 1.84.0-nightly\nhost: x86_64\n").unwrap();
    assert_eq!(v.minor, 84);
    assert!(v.nightly);
    let v = CargoVersion::parse(b"release: 1.77.1-dev\r\n").unwrap();
    assert_eq!(v.minor, 77);
    assert!(v.nightly);
    let v = CargoVersion::parse(b"release: 1.70.0-beta.3\n").unwrap();
    assert_eq!(v.minor, 70);
    assert!(!v.nightly);
    assert!(CargoVersion::parse(b"no such line\n").is_none());
    assert!(CargoVersion::parse(b"release: 2.0.0\n").is_none());
    assert!(CargoVersion::parse(b"release: 1.62\n").is_none());
    assert!(CargoVersion::parse(b"release: 1.x.0\n").is_none());
}
