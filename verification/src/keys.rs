use vstd::prelude::*;

use crate::bytes::bytes_eq;

verus! {

// Key names that the mutation rules look for in a manifest, as byte
// sequences, each with a matcher usable from executable code.
/// The bytes of the key name `dev-dependencies`.
pub open spec fn k_dev_dependencies() -> Seq<u8> {
    seq!['d' as u8, 'e' as u8, 'v' as u8, '-' as u8, 'd' as u8, 'e' as u8, 'p' as u8, 'e' as u8, 'n' as u8, 'd' as u8, 'e' as u8, 'n' as u8, 'c' as u8, 'i' as u8, 'e' as u8, 's' as u8]
}

/// True iff `k` spells `dev-dependencies`.
pub fn is_dev_dependencies(k: &[u8]) -> (r: bool)
    ensures
        r == (k@ == k_dev_dependencies()),
{
    let lit: [u8; 16] = ['d' as u8, 'e' as u8, 'v' as u8, '-' as u8, 'd' as u8, 'e' as u8, 'p' as u8, 'e' as u8, 'n' as u8, 'd' as u8, 'e' as u8, 'n' as u8, 'c' as u8, 'i' as u8, 'e' as u8, 's' as u8];
    let r = bytes_eq(k, lit.as_slice());
    proof {
        assert(lit@ =~= k_dev_dependencies());
    }
    r
}

/// The bytes of the key name `dependencies`.
pub open spec fn k_dependencies() -> Seq<u8> {
    seq!['d' as u8, 'e' as u8, 'p' as u8, 'e' as u8, 'n' as u8, 'd' as u8, 'e' as u8, 'n' as u8, 'c' as u8, 'i' as u8, 'e' as u8, 's' as u8]
}

/// True iff `k` spells `dependencies`.
pub fn is_dependencies(k: &[u8]) -> (r: bool)
    ensures
        r == (k@ == k_dependencies()),
{
    let lit: [u8; 12] = ['d' as u8, 'e' as u8, 'p' as u8, 'e' as u8, 'n' as u8, 'd' as u8, 'e' as u8, 'n' as u8, 'c' as u8, 'i' as u8, 'e' as u8, 's' as u8];
    let r = bytes_eq(k, lit.as_slice());
    proof {
        assert(lit@ =~= k_dependencies());
    }
    r
}

/// The bytes of the key name `build-dependencies`.
pub open spec fn k_build_dependencies() -> Seq<u8> {
    seq!['b' as u8, 'u' as u8, 'i' as u8, 'l' as u8, 'd' as u8, '-' as u8, 'd' as u8, 'e' as u8, 'p' as u8, 'e' as u8, 'n' as u8, 'd' as u8, 'e' as u8, 'n' as u8, 'c' as u8, 'i' as u8, 'e' as u8, 's' as u8]
}

/// True iff `k` spells `build-dependencies`.
pub fn is_build_dependencies(k: &[u8]) -> (r: bool)
    ensures
        r == (k@ == k_build_dependencies()),
{
    let lit: [u8; 18] = ['b' as u8, 'u' as u8, 'i' as u8, 'l' as u8, 'd' as u8, '-' as u8, 'd' as u8, 'e' as u8, 'p' as u8, 'e' as u8, 'n' as u8, 'd' as u8, 'e' as u8, 'n' as u8, 'c' as u8, 'i' as u8, 'e' as u8, 's' as u8];
    let r = bytes_eq(k, lit.as_slice());
    proof {
        assert(lit@ =~= k_build_dependencies());
    }
    r
}

/// The bytes of the key name `target`.
pub open spec fn k_target() -> Seq<u8> {
    seq!['t' as u8, 'a' as u8, 'r' as u8, 'g' as u8, 'e' as u8, 't' as u8]
}

/// True iff `k` spells `target`.
pub fn is_target(k: &[u8]) -> (r: bool)
    ensures
        r == (k@ == k_target()),
{
    let lit: [u8; 6] = ['t' as u8, 'a' as u8, 'r' as u8, 'g' as u8, 'e' as u8, 't' as u8];
    let r = bytes_eq(k, lit.as_slice());
    proof {
        assert(lit@ =~= k_target());
    }
    r
}

/// The bytes of the key name `workspace`.
pub open spec fn k_workspace() -> Seq<u8> {
    seq!['w' as u8, 'o' as u8, 'r' as u8, 'k' as u8, 's' as u8, 'p' as u8, 'a' as u8, 'c' as u8, 'e' as u8]
}

/// True iff `k` spells `workspace`.
pub fn is_workspace(k: &[u8]) -> (r: bool)
    ensures
        r == (k@ == k_workspace()),
{
    let lit: [u8; 9] = ['w' as u8, 'o' as u8, 'r' as u8, 'k' as u8, 's' as u8, 'p' as u8, 'a' as u8, 'c' as u8, 'e' as u8];
    let r = bytes_eq(k, lit.as_slice());
    proof {
        assert(lit@ =~= k_workspace());
    }
    r
}

/// The bytes of the key name `features`.
pub open spec fn k_features() -> Seq<u8> {
    seq!['f' as u8, 'e' as u8, 'a' as u8, 't' as u8, 'u' as u8, 'r' as u8, 'e' as u8, 's' as u8]
}

/// True iff `k` spells `features`.
pub fn is_features(k: &[u8]) -> (r: bool)
    ensures
        r == (k@ == k_features()),
{
    let lit: [u8; 8] = ['f' as u8, 'e' as u8, 'a' as u8, 't' as u8, 'u' as u8, 'r' as u8, 'e' as u8, 's' as u8];
    let r = bytes_eq(k, lit.as_slice());
    proof {
        assert(lit@ =~= k_features());
    }
    r
}

/// The bytes of the key name `members`.
pub open spec fn k_members() -> Seq<u8> {
    seq!['m' as u8, 'e' as u8, 'm' as u8, 'b' as u8, 'e' as u8, 'r' as u8, 's' as u8]
}

/// True iff `k` spells `members`.
pub fn is_members(k: &[u8]) -> (r: bool)
    ensures
        r == (k@ == k_members()),
{
    let lit: [u8; 7] = ['m' as u8, 'e' as u8, 'm' as u8, 'b' as u8, 'e' as u8, 'r' as u8, 's' as u8];
    let r = bytes_eq(k, lit.as_slice());
    proof {
        assert(lit@ =~= k_members());
    }
    r
}

/// The bytes of the key name `exclude`.
pub open spec fn k_exclude() -> Seq<u8> {
    seq!['e' as u8, 'x' as u8, 'c' as u8, 'l' as u8, 'u' as u8, 'd' as u8, 'e' as u8]
}

/// True iff `k` spells `exclude`.
pub fn is_exclude(k: &[u8]) -> (r: bool)
    ensures
        r == (k@ == k_exclude()),
{
    let lit: [u8; 7] = ['e' as u8, 'x' as u8, 'c' as u8, 'l' as u8, 'u' as u8, 'd' as u8, 'e' as u8];
    let r = bytes_eq(k, lit.as_slice());
    proof {
        assert(lit@ =~= k_exclude());
    }
    r
}

/// The bytes of the key name `package`.
pub open spec fn k_package() -> Seq<u8> {
    seq!['p' as u8, 'a' as u8, 'c' as u8, 'k' as u8, 'a' as u8, 'g' as u8, 'e' as u8]
}

/// True iff `k` spells `package`.
pub fn is_package(k: &[u8]) -> (r: bool)
    ensures
        r == (k@ == k_package()),
{
    let lit: [u8; 7] = ['p' as u8, 'a' as u8, 'c' as u8, 'k' as u8, 'a' as u8, 'g' as u8, 'e' as u8];
    let r = bytes_eq(k, lit.as_slice());
    proof {
        assert(lit@ =~= k_package());
    }
    r
}

/// The bytes of the key name `publish`.
pub open spec fn k_publish() -> Seq<u8> {
    seq!['p' as u8, 'u' as u8, 'b' as u8, 'l' as u8, 'i' as u8, 's' as u8, 'h' as u8]
}

/// True iff `k` spells `publish`.
pub fn is_publish(k: &[u8]) -> (r: bool)
    ensures
        r == (k@ == k_publish()),
{
    let lit: [u8; 7] = ['p' as u8, 'u' as u8, 'b' as u8, 'l' as u8, 'i' as u8, 's' as u8, 'h' as u8];
    let r = bytes_eq(k, lit.as_slice());
    proof {
        assert(lit@ =~= k_publish());
    }
    r
}

/// The bytes of the key name `version`.
pub open spec fn k_version() -> Seq<u8> {
    seq!['v' as u8, 'e' as u8, 'r' as u8, 's' as u8, 'i' as u8, 'o' as u8, 'n' as u8]
}

/// True iff `k` spells `version`.
pub fn is_version(k: &[u8]) -> (r: bool)
    ensures
        r == (k@ == k_version()),
{
    let lit: [u8; 7] = ['v' as u8, 'e' as u8, 'r' as u8, 's' as u8, 'i' as u8, 'o' as u8, 'n' as u8];
    let r = bytes_eq(k, lit.as_slice());
    proof {
        assert(lit@ =~= k_version());
    }
    r
}

/// The bytes of the key name `path`.
pub open spec fn k_path() -> Seq<u8> {
    seq!['p' as u8, 'a' as u8, 't' as u8, 'h' as u8]
}

/// True iff `k` spells `path`.
pub fn is_path(k: &[u8]) -> (r: bool)
    ensures
        r == (k@ == k_path()),
{
    let lit: [u8; 4] = ['p' as u8, 'a' as u8, 't' as u8, 'h' as u8];
    let r = bytes_eq(k, lit.as_slice());
    proof {
        assert(lit@ =~= k_path());
    }
    r
}

/// The bytes of the key name `git`.
pub open spec fn k_git() -> Seq<u8> {
    seq!['g' as u8, 'i' as u8, 't' as u8]
}

/// True iff `k` spells `git`.
pub fn is_git(k: &[u8]) -> (r: bool)
    ensures
        r == (k@ == k_git()),
{
    let lit: [u8; 3] = ['g' as u8, 'i' as u8, 't' as u8];
    let r = bytes_eq(k, lit.as_slice());
    proof {
        assert(lit@ =~= k_git());
    }
    r
}

} // verus!
