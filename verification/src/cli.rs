use vstd::prelude::*;

use crate::bytes::{bytes_eq, bytes_starts_with};

verus! {

/// Which local-path references to detach from dependency specifications.
#[derive(Clone, Copy, Debug, PartialEq, Eq, Structural)]
pub enum DetachPathDeps {
    All,
    SkipExact,
}

/// The wrapped tool's subcommand, grouped by whether it is a known build-like
/// command, a known command that needs development dependencies, or unknown.
pub enum Subcommand {
    Builtin(String),
    BuiltinDev(String),
    Other(String),
}

/// Names of the known build-like subcommands.
pub open spec fn is_builtin_name(s: Seq<char>) -> bool {
    ||| s == "b"@
    ||| s == "build"@
    ||| s == "c"@
    ||| s == "check"@
    ||| s == "r"@
    ||| s == "run"@
    ||| s == "clippy"@
}

/// Names of the known subcommands that always need development dependencies.
pub open spec fn is_builtin_dev_name(s: Seq<char>) -> bool {
    ||| s == "t"@
    ||| s == "test"@
    ||| s == "bench"@
}

impl Subcommand {
    /// The underlying subcommand text.
    pub open spec fn spec_str(&self) -> Seq<char> {
        match self {
            Subcommand::Builtin(s) => s@,
            Subcommand::BuiltinDev(s) => s@,
            Subcommand::Other(s) => s@,
        }
    }

    /// Classifies a subcommand by name.
    pub fn new(s: String) -> (r: Subcommand)
        ensures
            r.spec_str() == s@,
            r is Builtin <==> is_builtin_name(s@),
            r is BuiltinDev <==> is_builtin_dev_name(s@),
    {
        proof {
            reveal_strlit("b");
            reveal_strlit("build");
            reveal_strlit("c");
            reveal_strlit("check");
            reveal_strlit("r");
            reveal_strlit("run");
            reveal_strlit("clippy");
            reveal_strlit("t");
            reveal_strlit("test");
            reveal_strlit("bench");
            assert("b"@.len() == 1 && "b"@[0] == 'b');
            assert("build"@.len() == 5 && "build"@[0] == 'b' && "build"@[1] == 'u');
            assert("c"@.len() == 1 && "c"@[0] == 'c');
            assert("check"@.len() == 5 && "check"@[0] == 'c');
            assert("r"@.len() == 1 && "r"@[0] == 'r');
            assert("run"@.len() == 3);
            assert("clippy"@.len() == 6);
            assert("t"@.len() == 1 && "t"@[0] == 't');
            assert("test"@.len() == 4);
            assert("bench"@.len() == 5 && "bench"@[0] == 'b' && "bench"@[1] == 'e');
        }
        if s == "b".to_owned() || s == "build".to_owned() || s == "c".to_owned() || s
            == "check".to_owned() || s == "r".to_owned() || s == "run".to_owned() || s
            == "clippy".to_owned() {
            Subcommand::Builtin(s)
        } else if s == "t".to_owned() || s == "test".to_owned() || s == "bench".to_owned() {
            Subcommand::BuiltinDev(s)
        } else {
            Subcommand::Other(s)
        }
    }

    /// Whether the subcommand always needs development dependencies.
    pub fn always_needs_dev_deps(&self) -> (r: bool)
        ensures
            r == (self is BuiltinDev),
    {
        match self {
            Subcommand::BuiltinDev(_) => true,
            _ => false,
        }
    }

    /// The subcommand text.
    pub fn as_str(&self) -> (r: &str)
        ensures
            r@ == self.spec_str(),
    {
        match self {
            Subcommand::Builtin(s) => s.as_str(),
            Subcommand::BuiltinDev(s) => s.as_str(),
            Subcommand::Other(s) => s.as_str(),
        }
    }
}

/// The parsed command line, as the orchestrated transaction consumes it.
pub struct Args {
    pub no_private: bool,
    pub direct: bool,
    pub subcommand: Subcommand,
    pub manifest_path: Option<Vec<u8>>,
    pub detach_path_deps: Option<DetachPathDeps>,
    pub cargo_args: Vec<Vec<u8>>,
    pub rest: Vec<Vec<u8>>,
}

/// The bytes of `--example`.
pub open spec fn k_example_flag() -> Seq<u8> {
    seq!['-' as u8, '-' as u8, 'e' as u8, 'x' as u8, 'a' as u8, 'm' as u8, 'p' as u8, 'l' as u8, 'e' as u8]
}

/// The bytes of `--examples`.
pub open spec fn k_examples_flag() -> Seq<u8> {
    seq!['-' as u8, '-' as u8, 'e' as u8, 'x' as u8, 'a' as u8, 'm' as u8, 'p' as u8, 'l' as u8, 'e' as u8, 's' as u8]
}

/// The bytes of `--test`.
pub open spec fn k_test_flag() -> Seq<u8> {
    seq!['-' as u8, '-' as u8, 't' as u8, 'e' as u8, 's' as u8, 't' as u8]
}

/// The bytes of `--tests`.
pub open spec fn k_tests_flag() -> Seq<u8> {
    seq!['-' as u8, '-' as u8, 't' as u8, 'e' as u8, 's' as u8, 't' as u8, 's' as u8]
}

/// The bytes of `--bench`.
pub open spec fn k_bench_flag() -> Seq<u8> {
    seq!['-' as u8, '-' as u8, 'b' as u8, 'e' as u8, 'n' as u8, 'c' as u8, 'h' as u8]
}

/// The bytes of `--benches`.
pub open spec fn k_benches_flag() -> Seq<u8> {
    seq!['-' as u8, '-' as u8, 'b' as u8, 'e' as u8, 'n' as u8, 'c' as u8, 'h' as u8, 'e' as u8, 's' as u8]
}

/// The bytes of `--all-targets`.
pub open spec fn k_all_targets_flag() -> Seq<u8> {
    seq!['-' as u8, '-' as u8, 'a' as u8, 'l' as u8, 'l' as u8, '-' as u8, 't' as u8, 'a' as u8, 'r' as u8, 'g' as u8, 'e' as u8, 't' as u8, 's' as u8]
}

/// The bytes of `--example=`.
pub open spec fn k_example_prefix() -> Seq<u8> {
    seq!['-' as u8, '-' as u8, 'e' as u8, 'x' as u8, 'a' as u8, 'm' as u8, 'p' as u8, 'l' as u8, 'e' as u8, '=' as u8]
}

/// The bytes of `--test=`.
pub open spec fn k_test_prefix() -> Seq<u8> {
    seq!['-' as u8, '-' as u8, 't' as u8, 'e' as u8, 's' as u8, 't' as u8, '=' as u8]
}

/// The bytes of `--bench=`.
pub open spec fn k_bench_prefix() -> Seq<u8> {
    seq!['-' as u8, '-' as u8, 'b' as u8, 'e' as u8, 'n' as u8, 'c' as u8, 'h' as u8, '=' as u8]
}

/// An argument that makes the run build targets needing development
/// dependencies.
pub open spec fn is_dev_target_arg(a: Seq<u8>) -> bool {
    ||| a == k_example_flag()
    ||| a == k_examples_flag()
    ||| a == k_test_flag()
    ||| a == k_tests_flag()
    ||| a == k_bench_flag()
    ||| a == k_benches_flag()
    ||| a == k_all_targets_flag()
    ||| (a.len() >= k_example_prefix().len() && a.take(k_example_prefix().len() as int)
        == k_example_prefix())
    ||| (a.len() >= k_test_prefix().len() && a.take(k_test_prefix().len() as int)
        == k_test_prefix())
    ||| (a.len() >= k_bench_prefix().len() && a.take(k_bench_prefix().len() as int)
        == k_bench_prefix())
}

fn arg_is_example_flag(a: &[u8]) -> (r: bool)
    ensures
        r == (a@ == k_example_flag()),
{
    let lit: [u8; 9] = ['-' as u8, '-' as u8, 'e' as u8, 'x' as u8, 'a' as u8, 'm' as u8, 'p' as u8, 'l' as u8, 'e' as u8];
    let r = bytes_eq(a, lit.as_slice());
    proof {
        assert(lit@ =~= k_example_flag());
    }
    r
}

fn arg_is_examples_flag(a: &[u8]) -> (r: bool)
    ensures
        r == (a@ == k_examples_flag()),
{
    let lit: [u8; 10] = ['-' as u8, '-' as u8, 'e' as u8, 'x' as u8, 'a' as u8, 'm' as u8, 'p' as u8, 'l' as u8, 'e' as u8, 's' as u8];
    let r = bytes_eq(a, lit.as_slice());
    proof {
        assert(lit@ =~= k_examples_flag());
    }
    r
}

fn arg_is_test_flag(a: &[u8]) -> (r: bool)
    ensures
        r == (a@ == k_test_flag()),
{
    let lit: [u8; 6] = ['-' as u8, '-' as u8, 't' as u8, 'e' as u8, 's' as u8, 't' as u8];
    let r = bytes_eq(a, lit.as_slice());
    proof {
        assert(lit@ =~= k_test_flag());
    }
    r
}

fn arg_is_tests_flag(a: &[u8]) -> (r: bool)
    ensures
        r == (a@ == k_tests_flag()),
{
    let lit: [u8; 7] = ['-' as u8, '-' as u8, 't' as u8, 'e' as u8, 's' as u8, 't' as u8, 's' as u8];
    let r = bytes_eq(a, lit.as_slice());
    proof {
        assert(lit@ =~= k_tests_flag());
    }
    r
}

fn arg_is_bench_flag(a: &[u8]) -> (r: bool)
    ensures
        r == (a@ == k_bench_flag()),
{
    let lit: [u8; 7] = ['-' as u8, '-' as u8, 'b' as u8, 'e' as u8, 'n' as u8, 'c' as u8, 'h' as u8];
    let r = bytes_eq(a, lit.as_slice());
    proof {
        assert(lit@ =~= k_bench_flag());
    }
    r
}

fn arg_is_benches_flag(a: &[u8]) -> (r: bool)
    ensures
        r == (a@ == k_benches_flag()),
{
    let lit: [u8; 9] = ['-' as u8, '-' as u8, 'b' as u8, 'e' as u8, 'n' as u8, 'c' as u8, 'h' as u8, 'e' as u8, 's' as u8];
    let r = bytes_eq(a, lit.as_slice());
    proof {
        assert(lit@ =~= k_benches_flag());
    }
    r
}

fn arg_is_all_targets_flag(a: &[u8]) -> (r: bool)
    ensures
        r == (a@ == k_all_targets_flag()),
{
    let lit: [u8; 13] = ['-' as u8, '-' as u8, 'a' as u8, 'l' as u8, 'l' as u8, '-' as u8, 't' as u8, 'a' as u8, 'r' as u8, 'g' as u8, 'e' as u8, 't' as u8, 's' as u8];
    let r = bytes_eq(a, lit.as_slice());
    proof {
        assert(lit@ =~= k_all_targets_flag());
    }
    r
}

fn arg_has_example_prefix(a: &[u8]) -> (r: bool)
    ensures
        r == (a@.len() >= k_example_prefix().len() && a@.take(k_example_prefix().len() as int) == k_example_prefix()),
{
    let lit: [u8; 10] = ['-' as u8, '-' as u8, 'e' as u8, 'x' as u8, 'a' as u8, 'm' as u8, 'p' as u8, 'l' as u8, 'e' as u8, '=' as u8];
    let r = bytes_starts_with(a, lit.as_slice());
    proof {
        assert(lit@ =~= k_example_prefix());
    }
    r
}

fn arg_has_test_prefix(a: &[u8]) -> (r: bool)
    ensures
        r == (a@.len() >= k_test_prefix().len() && a@.take(k_test_prefix().len() as int) == k_test_prefix()),
{
    let lit: [u8; 7] = ['-' as u8, '-' as u8, 't' as u8, 'e' as u8, 's' as u8, 't' as u8, '=' as u8];
    let r = bytes_starts_with(a, lit.as_slice());
    proof {
        assert(lit@ =~= k_test_prefix());
    }
    r
}

fn arg_has_bench_prefix(a: &[u8]) -> (r: bool)
    ensures
        r == (a@.len() >= k_bench_prefix().len() && a@.take(k_bench_prefix().len() as int) == k_bench_prefix()),
{
    let lit: [u8; 8] = ['-' as u8, '-' as u8, 'b' as u8, 'e' as u8, 'n' as u8, 'c' as u8, 'h' as u8, '=' as u8];
    let r = bytes_starts_with(a, lit.as_slice());
    proof {
        assert(lit@ =~= k_bench_prefix());
    }
    r
}

/// Decides whether one argument selects targets that need development
/// dependencies.
pub fn arg_is_dev_target(a: &[u8]) -> (r: bool)
    ensures
        r == is_dev_target_arg(a@),
{
    arg_is_example_flag(a) || arg_is_examples_flag(a) || arg_is_test_flag(a)
        || arg_is_tests_flag(a) || arg_is_bench_flag(a) || arg_is_benches_flag(a)
        || arg_is_all_targets_flag(a) || arg_has_example_prefix(a) || arg_has_test_prefix(a)
        || arg_has_bench_prefix(a)
}

/// Some argument selects targets that need development dependencies.
pub open spec fn any_dev_target_arg(cargo_args: Seq<Seq<u8>>) -> bool {
    exists|i: int| 0 <= i < cargo_args.len() && is_dev_target_arg(#[trigger] cargo_args[i])
}

/// Decides whether any argument selects such targets.
pub fn args_have_dev_target(cargo_args: &Vec<Vec<u8>>) -> (r: bool)
    ensures
        r == any_dev_target_arg(cargo_args@.map_values(|a: Vec<u8>| a@)),
{
    let ghost av = cargo_args@.map_values(|a: Vec<u8>| a@);
    let mut i: usize = 0;
    while i < cargo_args.len()
        invariant
            i <= cargo_args@.len(),
            av == cargo_args@.map_values(|a: Vec<u8>| a@),
            forall|j: int| 0 <= j < i ==> !is_dev_target_arg(#[trigger] av[j]),
        decreases cargo_args@.len() - i,
    {
        proof {
            assert(av[i as int] == cargo_args@[i as int]@);
        }
        if arg_is_dev_target(cargo_args[i].as_slice()) {
            return true;
        }
        i += 1;
    }
    false
}

} // verus!
