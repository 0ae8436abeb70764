use cargo_minimal_versions::version::check_exact_req;

#[test]
fn exact_full_pins_are_recognized() {
    assert!(check_exact_req(b"=1.2.3"));
    assert!(check_exact_req(b"= 1.2.3"));
    assert!(check_exact_req(b" =1.2.3 "));
    assert!(check_exact_req(b"=0.0.1"));
    assert!(check_exact_req(b"=1.2.3+build.01"));
    assert!(check_exact_req(b"=18446744073709551615.0.0"));
}

#[test]
fn partial_or_loose_pins_are_not() {
    assert!(!check_exact_req(b"1.2.3"));
    assert!(!check_exact_req(b"=1"));
    assert!(!check_exact_req(b"=1.2"));
    assert!(!check_exact_req(b"^1.2.3"));
    assert!(!check_exact_req(b"~1.2.3"));
    assert!(!check_exact_req(b">=1.2.3"));
    assert!(!check_exact_req(b"=1.2.*"));
    assert!(!check_exact_req(b"=1.2.3, <2"));
    assert!(!check_exact_req(b""));
    assert!(!check_exact_req(b"="));
}

#[test]
fn pre_release_pins_are_not_exempt() {
    assert!(!check_exact_req(b"=1.2.3-alpha"));
    assert!(!check_exact_req(b"=1.2.3-alpha.1"));
}

#[test]
fn malformed_numbers_are_rejected() {
    assert!(!check_exact_req(b"=01.2.3"));
    assert!(!check_exact_req(b"=1.02.3"));
    assert!(!check_exact_req(b"=18446744073709551616.0.0"));
    assert!(!check_exact_req(b"=1.2.3+"));
    assert!(!check_exact_req(b"=1.2.3+a..b"));
    assert!(!check_exact_req(b"=1.2.3\t"));
}

#[test]
fn exactness_matches_the_reference_resolver() {
    let cases: &[&str] = &[
        "=1.2.3",
        "= 1.2.3",
        " =1.2.3 ",
        "=1.2.3+build.01",
        "=18446744073709551615.0.0",
        "=18446744073709551616.0.0",
        "1.2.3",
        "=1",
        "=1.2",
        "=1.2.3-alpha",
        "=1.2.3-alpha.1",
        "^1.2.3",
        "~1.2.3",
        ">=1.2.3",
        "=1.2.*",
        "=1.2.3, <2",
        "=01.2.3",
        "=1.02.3",
        "=1.2.3+",
        "=1.2.3+a..b",
        "=1.2.3\t",
        "==1.2.3",
        "=1.2.3.4",
        "=0.0.0",
        "=1.2.3 ,<2",
    ];
    for case in cases {
        let reference = match semver::VersionReq::parse(case) {
            Ok(req) => {
                req.comparators.len() == 1 && {
                    let c = &req.comparators[0];
                    c.op == semver::Op::Exact && c.patch.is_some() && c.pre.is_empty()
                }
            }
            Err(_) => false,
        };
        assert_eq!(
            check_exact_req(case.as_bytes()),
            reference,
            "disagreement on {:?}",
            case
        );
    }
}
