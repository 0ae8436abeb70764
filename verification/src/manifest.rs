use vstd::prelude::*;

use crate::bytes::bytes_eq;
use crate::cli::{Args, DetachPathDeps};
use crate::detach::{detach, detach_path_deps};
use crate::document::{Document, DocumentV, EntryV, SectionV, ValueV, ser_doc};
use crate::keys::{is_package, is_publish, k_package, k_publish};
use crate::members::{
    apply_exclusions, exclude_members, is_members_entry, promote, promote_to_detached_workspace,
    ws_section,
};
use crate::parse::{ParseErrorKind, parse};
use crate::strip::{names_contain, names_view, strip_dev, strip_dev_sections};

verus! {

// ---------------------------------------------------------------------------
// The workspace transaction planner.
//
// Given the workspace's package graph, each package's manifest bytes and
// lockfile state, and the requested operations, the planner decides which
// manifests are mutated and produces, in order, the registrations and writes
// that carry the transaction out: each write is preceded by a registration
// of the pristine bytes, and the workspace lockfile is registered last. The
// caller performs the file writes, runs the wrapped commands, and then
// restores every registered file.
// ---------------------------------------------------------------------------

/// Why planning failed.
#[derive(Debug)]
pub enum Error {
    /// A manifest did not parse.
    Parse { pos: usize, kind: ParseErrorKind },
    /// A manifest lacks a required field; the field name is given.
    MissingField { field: Vec<u8> },
    /// Excluding private packages cannot work when the workspace root itself
    /// is private.
    PrivateRoot,
    /// Detaching path dependencies is only supported when development
    /// dependencies are removed; the subcommand that kept them is given.
    DetachNeedsRemovedDevDeps { subcommand: String },
}

// Byte constants used by the planner.

/// The bytes of `true`.
pub open spec fn k_true() -> Seq<u8> {
    seq!['t' as u8, 'r' as u8, 'u' as u8, 'e' as u8]
}

/// The bytes of `false`.
pub open spec fn k_false() -> Seq<u8> {
    seq!['f' as u8, 'a' as u8, 'l' as u8, 's' as u8, 'e' as u8]
}

/// The bytes of the manifest file name.
pub open spec fn k_cargo_toml() -> Seq<u8> {
    seq![
        'C' as u8,
        'a' as u8,
        'r' as u8,
        'g' as u8,
        'o' as u8,
        '.' as u8,
        't' as u8,
        'o' as u8,
        'm' as u8,
        'l' as u8,
    ]
}

/// The bytes of the lockfile name.
pub open spec fn k_cargo_lock() -> Seq<u8> {
    seq![
        'C' as u8,
        'a' as u8,
        'r' as u8,
        'g' as u8,
        'o' as u8,
        '.' as u8,
        'l' as u8,
        'o' as u8,
        'c' as u8,
        'k' as u8,
    ]
}

pub open spec fn k_slash() -> Seq<u8> {
    seq!['/' as u8]
}

/// The path of the root manifest under the workspace root.
pub open spec fn root_manifest_path(root: Seq<u8>) -> Seq<u8> {
    root + k_slash() + k_cargo_toml()
}

/// The path of the workspace lockfile under the workspace root.
pub open spec fn root_lock_path(root: Seq<u8>) -> Seq<u8> {
    root + k_slash() + k_cargo_lock()
}

/// The lockfile beside a manifest: the manifest file name replaced by the
/// lockfile name.
pub open spec fn sibling_lock_path(p: Seq<u8>) -> Seq<u8> {
    if p.len() >= k_cargo_toml().len() && p.skip(p.len() - k_cargo_toml().len() as int)
        == k_cargo_toml() {
        p.take(p.len() - k_cargo_toml().len() as int) + k_cargo_lock()
    } else {
        p
    }
}

/// A member string with a leading `./` removed.
pub open spec fn strip_dot_slash(m: Seq<u8>) -> Seq<u8> {
    if m.len() >= 2 && m[0] == '.' as u8 && m[1] == '/' as u8 {
        m.skip(2)
    } else {
        m
    }
}

/// The manifest path a membership entry refers to.
pub open spec fn join_member(root: Seq<u8>, m: Seq<u8>) -> Seq<u8> {
    let m2 = strip_dot_slash(m);
    if m2.len() > 0 && m2[0] == '/' as u8 {
        m2 + k_slash() + k_cargo_toml()
    } else {
        root + k_slash() + m2 + k_slash() + k_cargo_toml()
    }
}

fn cargo_toml_bytes() -> (v: [u8; 10])
    ensures
        v@ == k_cargo_toml(),
{
    let v: [u8; 10] = [
        'C' as u8,
        'a' as u8,
        'r' as u8,
        'g' as u8,
        'o' as u8,
        '.' as u8,
        't' as u8,
        'o' as u8,
        'm' as u8,
        'l' as u8,
    ];
    proof {
        assert(v@ =~= k_cargo_toml());
    }
    v
}

fn cargo_lock_bytes() -> (v: [u8; 10])
    ensures
        v@ == k_cargo_lock(),
{
    let v: [u8; 10] = [
        'C' as u8,
        'a' as u8,
        'r' as u8,
        'g' as u8,
        'o' as u8,
        '.' as u8,
        'l' as u8,
        'o' as u8,
        'c' as u8,
        'k' as u8,
    ];
    proof {
        assert(v@ =~= k_cargo_lock());
    }
    v
}

fn make_root_manifest_path(root: &Vec<u8>) -> (v: Vec<u8>)
    ensures
        v@ == root_manifest_path(root@),
{
    let mut v = crate::strip::copy_bytes(root);
    v.push('/' as u8);
    let name = cargo_toml_bytes();
    v.extend_from_slice(name.as_slice());
    proof {
        assert(v@ =~= root_manifest_path(root@));
    }
    v
}

fn make_root_lock_path(root: &Vec<u8>) -> (v: Vec<u8>)
    ensures
        v@ == root_lock_path(root@),
{
    let mut v = crate::strip::copy_bytes(root);
    v.push('/' as u8);
    let name = cargo_lock_bytes();
    v.extend_from_slice(name.as_slice());
    proof {
        assert(v@ =~= root_lock_path(root@));
    }
    v
}

fn make_sibling_lock_path(p: &Vec<u8>) -> (v: Vec<u8>)
    ensures
        v@ == sibling_lock_path(p@),
{
    let name = cargo_toml_bytes();
    let plen = p.len();
    if plen >= 10 && bytes_eq(
        vstd::slice::slice_subrange(p.as_slice(), plen - 10, plen),
        name.as_slice(),
    ) {
        proof {
            assert(p@.skip(p@.len() - 10) =~= p@.subrange(plen - 10, plen as int));
        }
        let mut v = vstd::slice::slice_to_vec(
            vstd::slice::slice_subrange(p.as_slice(), 0, plen - 10),
        );
        let lock = cargo_lock_bytes();
        v.extend_from_slice(lock.as_slice());
        proof {
            assert(p@.take(p@.len() - 10) =~= p@.subrange(0, plen - 10));
            assert(v@ =~= sibling_lock_path(p@));
        }
        v
    } else {
        proof {
            if p@.len() >= 10 {
                assert(p@.skip(p@.len() - 10) =~= p@.subrange(plen - 10, plen as int));
            }
        }
        crate::strip::copy_bytes(p)
    }
}

fn make_join_member(root: &Vec<u8>, m: &Vec<u8>) -> (v: Vec<u8>)
    ensures
        v@ == join_member(root@, m@),
{
    let stripped: Vec<u8> = if m.len() >= 2 && m[0] == '.' as u8 && m[1] == '/' as u8 {
        let s = vstd::slice::slice_to_vec(
            vstd::slice::slice_subrange(m.as_slice(), 2, m.len()),
        );
        proof {
            assert(s@ =~= strip_dot_slash(m@));
        }
        s
    } else {
        crate::strip::copy_bytes(m)
    };
    let name = cargo_toml_bytes();
    if stripped.len() > 0 && stripped[0] == '/' as u8 {
        let mut v = stripped;
        v.push('/' as u8);
        v.extend_from_slice(name.as_slice());
        proof {
            assert(v@ =~= join_member(root@, m@));
        }
        v
    } else {
        let mut v = crate::strip::copy_bytes(root);
        v.push('/' as u8);
        v.extend_from_slice(stripped.as_slice());
        v.push('/' as u8);
        v.extend_from_slice(name.as_slice());
        proof {
            assert(v@ =~= join_member(root@, m@));
        }
        v
    }
}

// ---------------------------------------------------------------------------
// The package table and its publish field.
// ---------------------------------------------------------------------------

/// The manifest declares a package table.
pub open spec fn has_package(d: DocumentV) -> bool {
    exists|i: int|
        0 <= i < d.sections.len() && (#[trigger] d.sections[i]).path.len() >= 1 && d.sections[
            i
        ].path[0] == k_package()
}

pub open spec fn is_package_section(s: SectionV) -> bool {
    s.path.len() == 1 && s.path[0] == k_package()
}

pub open spec fn first_package_idx(ss: Seq<SectionV>, i: int) -> Option<int>
    decreases ss.len() - i,
{
    if i < 0 || i >= ss.len() {
        Option::None
    } else if is_package_section(ss[i]) {
        Option::Some(i)
    } else {
        first_package_idx(ss, i + 1)
    }
}

pub open spec fn is_publish_entry(e: EntryV) -> bool {
    e.keys.len() == 1 && e.keys[0] == k_publish()
}

pub open spec fn first_publish_idx(entries: Seq<EntryV>, i: int) -> Option<int>
    decreases entries.len() - i,
{
    if i < 0 || i >= entries.len() {
        Option::None
    } else if is_publish_entry(entries[i]) {
        Option::Some(i)
    } else {
        first_publish_idx(entries, i + 1)
    }
}

/// What the manifest says about publishing: unrestricted when the field is
/// absent or `true`, forbidden when `false` or an empty registry list, and
/// rejected when the field has any other shape.
pub open spec fn publish_value(d: DocumentV) -> Result<bool, ()> {
    match first_package_idx(d.sections, 0) {
        Option::None => Result::Ok(true),
        Option::Some(si) => match first_publish_idx(d.sections[si].entries, 0) {
            Option::None => Result::Ok(true),
            Option::Some(ei) => match d.sections[si].entries[ei].value {
                ValueV::Scalar { raw, sval: Option::None } => if raw == k_true() {
                    Result::Ok(true)
                } else if raw == k_false() {
                    Result::Ok(false)
                } else {
                    Result::Err(())
                },
                ValueV::Array { items, .. } => Result::Ok(items.len() > 0),
                _ => Result::Err(()),
            },
        },
    }
}

/// The publishing restriction parsed from a manifest, when the package graph
/// does not already supply it.
pub struct Package {
    pub publish: Option<bool>,
}

proof fn lemma_first_package_step(ss: Seq<SectionV>, i: int)
    requires
        0 <= i < ss.len(),
        !is_package_section(ss[i]),
    ensures
        first_package_idx(ss, i) == first_package_idx(ss, i + 1),
{
}

proof fn lemma_first_publish_step(entries: Seq<EntryV>, i: int)
    requires
        0 <= i < entries.len(),
        !is_publish_entry(entries[i]),
    ensures
        first_publish_idx(entries, i) == first_publish_idx(entries, i + 1),
{
}

fn doc_has_package(doc: &Document) -> (r: bool)
    ensures
        r == has_package(doc@),
{
    let mut i: usize = 0;
    while i < doc.sections.len()
        invariant
            i <= doc.sections@.len(),
            forall|j: int|
                0 <= j < i ==> !((#[trigger] doc@.sections[j]).path.len() >= 1 && doc@.sections[
                    j
                ].path[0] == k_package()),
        decreases doc.sections@.len() - i,
    {
        let s = &doc.sections[i];
        proof {
            assert(doc@.sections[i as int] == s@);
        }
        if s.path.len() >= 1 && is_package(s.path[0].as_slice()) {
            return true;
        }
        i += 1;
    }
    false
}

fn find_first_package(doc: &Document) -> (r: Option<usize>)
    ensures
        match r {
            Option::Some(i) => first_package_idx(doc@.sections, 0) == Option::Some(i as int) && i
                < doc.sections@.len(),
            Option::None => first_package_idx(doc@.sections, 0) is None,
        },
{
    let mut i: usize = 0;
    while i < doc.sections.len()
        invariant
            i <= doc.sections@.len(),
            first_package_idx(doc@.sections, 0) == first_package_idx(doc@.sections, i as int),
        decreases doc.sections@.len() - i,
    {
        let s = &doc.sections[i];
        proof {
            assert(doc@.sections[i as int] == s@);
        }
        if s.path.len() == 1 && is_package(s.path[0].as_slice()) {
            return Some(i);
        }
        proof {
            lemma_first_package_step(doc@.sections, i as int);
        }
        i += 1;
    }
    None
}

fn find_first_publish(sec: &crate::document::Section) -> (r: Option<usize>)
    ensures
        match r {
            Option::Some(i) => first_publish_idx(sec@.entries, 0) == Option::Some(i as int) && i
                < sec.entries@.len(),
            Option::None => first_publish_idx(sec@.entries, 0) is None,
        },
{
    let mut i: usize = 0;
    while i < sec.entries.len()
        invariant
            i <= sec.entries@.len(),
            first_publish_idx(sec@.entries, 0) == first_publish_idx(sec@.entries, i as int),
        decreases sec.entries@.len() - i,
    {
        let e = &sec.entries[i];
        proof {
            assert(sec@.entries[i as int] == e@);
        }
        if e.keys.len() == 1 && is_publish(e.keys[0].as_slice()) {
            return Some(i);
        }
        proof {
            lemma_first_publish_step(sec@.entries, i as int);
        }
        i += 1;
    }
    None
}

fn package_field_name() -> (v: Vec<u8>)
    ensures
        v@ == k_package(),
{
    let a: [u8; 7] = ['p' as u8, 'a' as u8, 'c' as u8, 'k' as u8, 'a' as u8, 'g' as u8, 'e' as u8];
    proof {
        assert(a@ =~= k_package());
    }
    vstd::slice::slice_to_vec(a.as_slice())
}

fn publish_field_name() -> (v: Vec<u8>)
    ensures
        v@ == k_publish(),
{
    let a: [u8; 7] = ['p' as u8, 'u' as u8, 'b' as u8, 'l' as u8, 'i' as u8, 's' as u8, 'h' as u8];
    proof {
        assert(a@ =~= k_publish());
    }
    vstd::slice::slice_to_vec(a.as_slice())
}

impl Package {
    /// Reads the publishing restriction from a parsed manifest. With a
    /// package graph recent enough to carry the restriction itself, the
    /// field is not consulted, but the package table must still exist.
    pub fn from_table(doc: &Document, metadata_cargo_version: u32) -> (r: Result<Package, Error>)
        ensures
            match r {
                Result::Ok(p) => {
                    &&& has_package(doc@)
                    &&& metadata_cargo_version >= 39 ==> p.publish is None
                    &&& metadata_cargo_version < 39 ==> publish_value(doc@) is Ok && p.publish
                        == Option::Some(publish_value(doc@)->Ok_0)
                },
                Result::Err(e) => {
                    &&& e matches Error::MissingField { field } ==> (if !has_package(doc@) {
                        field@ == k_package()
                    } else {
                        field@ == k_publish()
                    })
                    &&& e is MissingField
                    &&& !has_package(doc@) || (metadata_cargo_version < 39 && publish_value(doc@)
                        is Err)
                },
            },
            r is Err <==> (!has_package(doc@) || (metadata_cargo_version < 39 && publish_value(
                doc@,
            ) is Err)),
    {
        if !doc_has_package(doc) {
            return Err(Error::MissingField { field: package_field_name() });
        }
        if metadata_cargo_version >= 39 {
            return Ok(Package { publish: None });
        }
        match find_first_package(doc) {
            None => Ok(Package { publish: Some(true) }),
            Some(si) => {
                let sec = &doc.sections[si];
                proof {
                    assert(doc@.sections[si as int] == sec@);
                }
                match find_first_publish(sec) {
                    None => Ok(Package { publish: Some(true) }),
                    Some(ei) => {
                        let e = &sec.entries[ei];
                        proof {
                            assert(sec@.entries[ei as int] == e@);
                        }
                        match &e.value {
                            crate::document::Value::Scalar { raw, sval } => {
                                if sval.is_some() {
                                    return Err(
                                        Error::MissingField { field: publish_field_name() },
                                    );
                                }
                                let t: [u8; 4] = ['t' as u8, 'r' as u8, 'u' as u8, 'e' as u8];
                                let f: [u8; 5] = [
                                    'f' as u8,
                                    'a' as u8,
                                    'l' as u8,
                                    's' as u8,
                                    'e' as u8,
                                ];
                                proof {
                                    assert(t@ =~= k_true());
                                    assert(f@ =~= k_false());
                                }
                                if bytes_eq(raw.as_slice(), t.as_slice()) {
                                    Ok(Package { publish: Some(true) })
                                } else if bytes_eq(raw.as_slice(), f.as_slice()) {
                                    Ok(Package { publish: Some(false) })
                                } else {
                                    Err(Error::MissingField { field: publish_field_name() })
                                }
                            },
                            crate::document::Value::Array { items, .. } => {
                                Ok(Package { publish: Some(items.len() > 0) })
                            },
                            _ => Err(Error::MissingField { field: publish_field_name() }),
                        }
                    },
                }
            },
        }
    }
}

/// One parsed manifest: the pristine bytes, the document, and the package
/// fields read from it.
pub struct Manifest {
    pub raw: Vec<u8>,
    pub doc: Document,
    pub package: Package,
}

impl Manifest {
    /// Parses manifest bytes. The document serializes back to exactly the
    /// given bytes, which are also kept as the pristine content to restore.
    pub fn new(raw: Vec<u8>, metadata_cargo_version: u32) -> (r: Result<Manifest, Error>)
        ensures
            match r {
                Result::Ok(m) => {
                    &&& m.raw@ == raw@
                    &&& ser_doc(m.doc@) == raw@
                    &&& has_package(m.doc@)
                    &&& metadata_cargo_version >= 39 ==> m.package.publish is None
                    &&& metadata_cargo_version < 39 ==> publish_value(m.doc@) is Ok
                        && m.package.publish == Option::Some(publish_value(m.doc@)->Ok_0)
                },
                Result::Err(e) => {
                    &&& (e is Parse || e is MissingField)
                    &&& e matches Error::MissingField { field } ==> exists|doc: DocumentV|
                        #[trigger] ser_doc(doc) == raw@ && ((field@ == k_package()
                            && !has_package(doc)) || (field@ == k_publish()
                            && metadata_cargo_version < 39 && publish_value(doc) is Err))
                },
            },
    {
        let doc = match parse(raw.as_slice()) {
            Ok(doc) => doc,
            Err(e) => {
                return Err(Error::Parse { pos: e.pos, kind: e.kind });
            },
        };
        let package = match Package::from_table(&doc, metadata_cargo_version) {
            Ok(p) => p,
            Err(e) => {
                proof {
                    assert(ser_doc(doc@) == raw@);
                }
                return Err(e);
            },
        };
        Ok(Manifest { raw, doc, package })
    }
}

// ---------------------------------------------------------------------------
// Membership strings.
// ---------------------------------------------------------------------------

pub open spec fn member_in_entry(e: EntryV, m: Seq<u8>) -> bool {
    is_members_entry(e) && match e.value {
        ValueV::Array { items, .. } => exists|t: int|
            0 <= t < items.len() && (#[trigger] items[t]).sval == Option::Some(m),
        _ => false,
    }
}

pub open spec fn member_in_sec(s: SectionV, m: Seq<u8>) -> bool {
    ws_section(s) && exists|j: int|
        0 <= j < s.entries.len() && member_in_entry(#[trigger] s.entries[j], m)
}

/// The string occurs in a workspace membership list of the document.
pub open spec fn member_in_doc(d: DocumentV, m: Seq<u8>) -> bool {
    exists|i: int| 0 <= i < d.sections.len() && member_in_sec(#[trigger] d.sections[i], m)
}

// Bounded variants of the occurrence predicates, for loop invariants.

pub open spec fn member_in_entry_upto(e: EntryV, m: Seq<u8>, hi: int) -> bool {
    is_members_entry(e) && match e.value {
        ValueV::Array { items, .. } => exists|t: int|
            0 <= t < hi <= items.len() && (#[trigger] items[t]).sval == Option::Some(m),
        _ => false,
    }
}

pub open spec fn member_in_sec_upto(s: SectionV, m: Seq<u8>, hi: int) -> bool {
    ws_section(s) && exists|j: int|
        0 <= j < hi <= s.entries.len() && member_in_entry(#[trigger] s.entries[j], m)
}

pub open spec fn member_in_doc_upto(d: DocumentV, m: Seq<u8>, hi: int) -> bool {
    exists|i: int| 0 <= i < hi <= d.sections.len() && member_in_sec(#[trigger] d.sections[i], m)
}

proof fn lemma_member_doc_upto_unfold(d: DocumentV, m: Seq<u8>, i: int)
    requires
        0 <= i < d.sections.len(),
    ensures
        member_in_doc_upto(d, m, i + 1) == (member_in_doc_upto(d, m, i) || member_in_sec(
            d.sections[i],
            m,
        )),
{
    if member_in_doc_upto(d, m, i + 1) {
        let t = choose|t: int| 0 <= t < i + 1 && member_in_sec(#[trigger] d.sections[t], m);
        if t < i {
            assert(member_in_doc_upto(d, m, i));
        }
    }
    if member_in_doc_upto(d, m, i) {
        let t = choose|t: int| 0 <= t < i && member_in_sec(#[trigger] d.sections[t], m);
        assert(member_in_doc_upto(d, m, i + 1));
    }
    if member_in_sec(d.sections[i], m) {
        assert(member_in_doc_upto(d, m, i + 1));
    }
}

proof fn lemma_member_sec_upto_unfold(s: SectionV, m: Seq<u8>, j: int)
    requires
        0 <= j < s.entries.len(),
        ws_section(s),
    ensures
        member_in_sec_upto(s, m, j + 1) == (member_in_sec_upto(s, m, j) || member_in_entry(
            s.entries[j],
            m,
        )),
{
    if member_in_sec_upto(s, m, j + 1) {
        let t = choose|t: int| 0 <= t < j + 1 && member_in_entry(#[trigger] s.entries[t], m);
        if t < j {
            assert(member_in_sec_upto(s, m, j));
        }
    }
    if member_in_sec_upto(s, m, j) {
        let t = choose|t: int| 0 <= t < j && member_in_entry(#[trigger] s.entries[t], m);
        assert(member_in_sec_upto(s, m, j + 1));
    }
    if member_in_entry(s.entries[j], m) {
        assert(member_in_sec_upto(s, m, j + 1));
    }
}

proof fn lemma_member_sec_upto_full(s: SectionV, m: Seq<u8>)
    ensures
        member_in_sec_upto(s, m, s.entries.len() as int) == member_in_sec(s, m),
{
}

proof fn lemma_member_doc_upto_full(d: DocumentV, m: Seq<u8>)
    ensures
        member_in_doc_upto(d, m, d.sections.len() as int) == member_in_doc(d, m),
{
}

proof fn lemma_member_entry_upto_unfold(e: EntryV, m: Seq<u8>, t: int)
    requires
        is_members_entry(e),
        e.value matches ValueV::Array { items, .. } && 0 <= t < items.len(),
    ensures
        member_in_entry_upto(e, m, t + 1) == (member_in_entry_upto(e, m, t) || (e.value
            matches ValueV::Array { items, .. } && items[t].sval == Option::Some(m))),
{
    match e.value {
        ValueV::Array { items, .. } => {
            if member_in_entry_upto(e, m, t + 1) {
                let u = choose|u: int|
                    0 <= u < t + 1 && (#[trigger] items[u]).sval == Option::Some(m);
                if u < t {
                    assert(member_in_entry_upto(e, m, t));
                }
            }
            if member_in_entry_upto(e, m, t) {
                let u = choose|u: int| 0 <= u < t && (#[trigger] items[u]).sval == Option::Some(m);
                assert(member_in_entry_upto(e, m, t + 1));
            }
            if items[t].sval == Option::Some(m) {
                assert(member_in_entry_upto(e, m, t + 1));
            }
        },
        _ => {},
    }
}

/// Collects exactly the member strings whose manifests differ from the root
/// manifest: the members to exclude when every member is detached.
fn collect_detach_excl(doc: &Document, root: &Vec<u8>, root_manifest: &Vec<u8>) -> (r: Vec<
    Vec<u8>,
>)
    ensures
        forall|m: Seq<u8>|
            #[trigger] names_contain(names_view(r@), m) == (member_in_doc(doc@, m)
                && join_member(root@, m) != root_manifest@),
{
    let ghost d = doc@;
    let mut out: Vec<Vec<u8>> = Vec::new();
    let mut i: usize = 0;
    while i < doc.sections.len()
        invariant
            i <= doc.sections@.len(),
            d == doc@,
            forall|m: Seq<u8>|
                #[trigger] names_contain(names_view(out@), m) == (member_in_doc_upto(
                    d,
                    m,
                    i as int,
                ) && join_member(root@, m) != root_manifest@),
        decreases doc.sections@.len() - i,
    {
        let s = &doc.sections[i];
        let ghost sv = d.sections[i as int];
        proof {
            assert(sv == s@);
        }
        if s.path.len() == 1 && crate::keys::is_workspace(s.path[0].as_slice()) {
            let mut j: usize = 0;
            while j < s.entries.len()
                invariant
                    j <= s.entries@.len(),
                    d == doc@,
                    i < doc.sections@.len(),
                    s == &doc.sections[i as int],
                    sv == d.sections[i as int],
                    sv == s@,
                    ws_section(sv),
                    forall|m: Seq<u8>|
                        #[trigger] names_contain(names_view(out@), m) == ((member_in_doc_upto(
                            d,
                            m,
                            i as int,
                        ) || member_in_sec_upto(sv, m, j as int)) && join_member(root@, m)
                            != root_manifest@),
                decreases s.entries@.len() - j,
            {
                let e = &s.entries[j];
                let ghost ev = sv.entries[j as int];
                proof {
                    assert(ev == e@);
                }
                let is_members_array = e.keys.len() == 1 && crate::keys::is_members(
                    e.keys[0].as_slice(),
                ) && match &e.value {
                    crate::document::Value::Array { .. } => true,
                    _ => false,
                };
                if is_members_array {
                    match &e.value {
                        crate::document::Value::Array { items, .. } => {
                            let ghost itemsv = items@.map_values(
                                |it: crate::document::ArrayItem| it@,
                            );
                            let mut t: usize = 0;
                            while t < items.len()
                                invariant
                                    t <= items@.len(),
                                    d == doc@,
                                    i < doc.sections@.len(),
                                    j < s.entries@.len(),
                                    s == &doc.sections[i as int],
                                    e == &s.entries[j as int],
                                    sv == d.sections[i as int],
                                    ev == sv.entries[j as int],
                                    ws_section(sv),
                                    is_members_entry(ev),
                                    ev.value matches ValueV::Array { items: iv, .. } && iv
                                        == itemsv,
                                    itemsv == items@.map_values(
                                        |it: crate::document::ArrayItem| it@,
                                    ),
                                    forall|m: Seq<u8>|
                                        #[trigger] names_contain(names_view(out@), m) == ((
                                        member_in_doc_upto(d, m, i as int) || member_in_sec_upto(
                                            sv,
                                            m,
                                            j as int,
                                        ) || member_in_entry_upto(ev, m, t as int))
                                            && join_member(root@, m) != root_manifest@),
                                decreases items@.len() - t,
                            {
                                let it = &items[t];
                                proof {
                                    assert(itemsv[t as int] == it@);
                                }
                                match &it.sval {
                                    Some(mstr) => {
                                        let joined = make_join_member(root, mstr);
                                        let cond = !bytes_eq(
                                            joined.as_slice(),
                                            root_manifest.as_slice(),
                                        );
                                        let ghost outv0 = names_view(out@);
                                        if cond {
                                            let c = crate::strip::copy_bytes(mstr);
                                            out.push(c);
                                        }
                                        proof {
                                            if cond {
                                                crate::strip::lemma_names_push(outv0, mstr@);
                                                assert(names_view(out@) =~= outv0.push(mstr@));
                                            }
                                            assert forall|m: Seq<u8>|
                                                #[trigger] names_contain(names_view(out@), m)
                                                    == ((member_in_doc_upto(d, m, i as int)
                                                    || member_in_sec_upto(sv, m, j as int)
                                                    || member_in_entry_upto(
                                                    ev,
                                                    m,
                                                    t as int + 1,
                                                )) && join_member(root@, m)
                                                    != root_manifest@) by {
                                                lemma_member_entry_upto_unfold(ev, m, t as int);
                                            }
                                        }
                                    },
                                    None => {
                                        proof {
                                            assert forall|m: Seq<u8>|
                                                #[trigger] names_contain(names_view(out@), m)
                                                    == ((member_in_doc_upto(d, m, i as int)
                                                    || member_in_sec_upto(sv, m, j as int)
                                                    || member_in_entry_upto(
                                                    ev,
                                                    m,
                                                    t as int + 1,
                                                )) && join_member(root@, m)
                                                    != root_manifest@) by {
                                                lemma_member_entry_upto_unfold(ev, m, t as int);
                                            }
                                        }
                                    },
                                }
                                t += 1;
                            }
                            proof {
                                assert forall|m: Seq<u8>|
                                    #[trigger] names_contain(names_view(out@), m) == ((
                                    member_in_doc_upto(d, m, i as int) || member_in_sec_upto(
                                        sv,
                                        m,
                                        j as int + 1,
                                    )) && join_member(root@, m) != root_manifest@) by {
                                    lemma_member_sec_upto_unfold(sv, m, j as int);
                                    assert(member_in_entry_upto(ev, m, itemsv.len() as int)
                                        == member_in_entry(ev, m));
                                }
                            }
                        },
                        _ => {},
                    }
                } else {
                    proof {
                        assert forall|m: Seq<u8>|
                            #[trigger] names_contain(names_view(out@), m) == ((
                            member_in_doc_upto(d, m, i as int) || member_in_sec_upto(
                                sv,
                                m,
                                j as int + 1,
                            )) && join_member(root@, m) != root_manifest@) by {
                            lemma_member_sec_upto_unfold(sv, m, j as int);
                            assert(!member_in_entry(ev, m));
                        }
                    }
                }
                j += 1;
            }
            proof {
                assert forall|m: Seq<u8>|
                    #[trigger] names_contain(names_view(out@), m) == (member_in_doc_upto(
                        d,
                        m,
                        i as int + 1,
                    ) && join_member(root@, m) != root_manifest@) by {
                    lemma_member_doc_upto_unfold(d, m, i as int);
                    lemma_member_sec_upto_full(sv, m);
                }
            }
        } else {
            proof {
                assert forall|m: Seq<u8>|
                    #[trigger] names_contain(names_view(out@), m) == (member_in_doc_upto(
                        d,
                        m,
                        i as int + 1,
                    ) && join_member(root@, m) != root_manifest@) by {
                    lemma_member_doc_upto_unfold(d, m, i as int);
                    assert(!member_in_sec(sv, m));
                }
            }
        }
        i += 1;
    }
    proof {
        assert forall|m: Seq<u8>|
            #[trigger] names_contain(names_view(out@), m) == (member_in_doc(doc@, m)
                && join_member(root@, m) != root_manifest@) by {
            lemma_member_doc_upto_full(d, m);
        }
    }
    out
}

/// Collects exactly the member strings whose manifests belong to the given
/// private paths: the members to exclude when private packages are left out.
fn collect_private_excl(doc: &Document, root: &Vec<u8>, privates: &Vec<Vec<u8>>) -> (r: Vec<
    Vec<u8>,
>)
    ensures
        forall|m: Seq<u8>|
            #[trigger] names_contain(names_view(r@), m) == (member_in_doc(doc@, m)
                && names_contain(names_view(privates@), join_member(root@, m))),
{
    let ghost d = doc@;
    let ghost privs = names_view(privates@);
    let mut out: Vec<Vec<u8>> = Vec::new();
    let mut i: usize = 0;
    while i < doc.sections.len()
        invariant
            i <= doc.sections@.len(),
            d == doc@,
            privs == names_view(privates@),
            forall|m: Seq<u8>|
                #[trigger] names_contain(names_view(out@), m) == (member_in_doc_upto(
                    d,
                    m,
                    i as int,
                ) && names_contain(privs, join_member(root@, m))),
        decreases doc.sections@.len() - i,
    {
        let s = &doc.sections[i];
        let ghost sv = d.sections[i as int];
        proof {
            assert(sv == s@);
        }
        if s.path.len() == 1 && crate::keys::is_workspace(s.path[0].as_slice()) {
            let mut j: usize = 0;
            while j < s.entries.len()
                invariant
                    j <= s.entries@.len(),
                    d == doc@,
                    privs == names_view(privates@),
                    i < doc.sections@.len(),
                    s == &doc.sections[i as int],
                    sv == d.sections[i as int],
                    sv == s@,
                    ws_section(sv),
                    forall|m: Seq<u8>|
                        #[trigger] names_contain(names_view(out@), m) == ((member_in_doc_upto(
                            d,
                            m,
                            i as int,
                        ) || member_in_sec_upto(sv, m, j as int)) && names_contain(
                            privs,
                            join_member(root@, m),
                        )),
                decreases s.entries@.len() - j,
            {
                let e = &s.entries[j];
                let ghost ev = sv.entries[j as int];
                proof {
                    assert(ev == e@);
                }
                let is_members_array = e.keys.len() == 1 && crate::keys::is_members(
                    e.keys[0].as_slice(),
                ) && match &e.value {
                    crate::document::Value::Array { .. } => true,
                    _ => false,
                };
                if is_members_array {
                    match &e.value {
                        crate::document::Value::Array { items, .. } => {
                            let ghost itemsv = items@.map_values(
                                |it: crate::document::ArrayItem| it@,
                            );
                            let mut t: usize = 0;
                            while t < items.len()
                                invariant
                                    t <= items@.len(),
                                    d == doc@,
                                    privs == names_view(privates@),
                                    i < doc.sections@.len(),
                                    j < s.entries@.len(),
                                    s == &doc.sections[i as int],
                                    e == &s.entries[j as int],
                                    sv == d.sections[i as int],
                                    ev == sv.entries[j as int],
                                    ws_section(sv),
                                    is_members_entry(ev),
                                    ev.value matches ValueV::Array { items: iv, .. } && iv
                                        == itemsv,
                                    itemsv == items@.map_values(
                                        |it: crate::document::ArrayItem| it@,
                                    ),
                                    forall|m: Seq<u8>|
                                        #[trigger] names_contain(names_view(out@), m) == ((
                                        member_in_doc_upto(d, m, i as int) || member_in_sec_upto(
                                            sv,
                                            m,
                                            j as int,
                                        ) || member_in_entry_upto(ev, m, t as int))
                                            && names_contain(privs, join_member(root@, m))),
                                decreases items@.len() - t,
                            {
                                let it = &items[t];
                                proof {
                                    assert(itemsv[t as int] == it@);
                                }
                                match &it.sval {
                                    Some(mstr) => {
                                        let joined = make_join_member(root, mstr);
                                        let cond = crate::strip::names_has(
                                            privates,
                                            joined.as_slice(),
                                        );
                                        let ghost outv0 = names_view(out@);
                                        if cond {
                                            let c = crate::strip::copy_bytes(mstr);
                                            out.push(c);
                                        }
                                        proof {
                                            if cond {
                                                crate::strip::lemma_names_push(outv0, mstr@);
                                                assert(names_view(out@) =~= outv0.push(mstr@));
                                            }
                                            assert forall|m: Seq<u8>|
                                                #[trigger] names_contain(names_view(out@), m)
                                                    == ((member_in_doc_upto(d, m, i as int)
                                                    || member_in_sec_upto(sv, m, j as int)
                                                    || member_in_entry_upto(
                                                    ev,
                                                    m,
                                                    t as int + 1,
                                                )) && names_contain(
                                                    privs,
                                                    join_member(root@, m),
                                                )) by {
                                                lemma_member_entry_upto_unfold(ev, m, t as int);
                                            }
                                        }
                                    },
                                    None => {
                                        proof {
                                            assert forall|m: Seq<u8>|
                                                #[trigger] names_contain(names_view(out@), m)
                                                    == ((member_in_doc_upto(d, m, i as int)
                                                    || member_in_sec_upto(sv, m, j as int)
                                                    || member_in_entry_upto(
                                                    ev,
                                                    m,
                                                    t as int + 1,
                                                )) && names_contain(
                                                    privs,
                                                    join_member(root@, m),
                                                )) by {
                                                lemma_member_entry_upto_unfold(ev, m, t as int);
                                            }
                                        }
                                    },
                                }
                                t += 1;
                            }
                            proof {
                                assert forall|m: Seq<u8>|
                                    #[trigger] names_contain(names_view(out@), m) == ((
                                    member_in_doc_upto(d, m, i as int) || member_in_sec_upto(
                                        sv,
                                        m,
                                        j as int + 1,
                                    )) && names_contain(privs, join_member(root@, m))) by {
                                    lemma_member_sec_upto_unfold(sv, m, j as int);
                                    assert(member_in_entry_upto(ev, m, itemsv.len() as int)
                                        == member_in_entry(ev, m));
                                }
                            }
                        },
                        _ => {},
                    }
                } else {
                    proof {
                        assert forall|m: Seq<u8>|
                            #[trigger] names_contain(names_view(out@), m) == ((
                            member_in_doc_upto(d, m, i as int) || member_in_sec_upto(
                                sv,
                                m,
                                j as int + 1,
                            )) && names_contain(privs, join_member(root@, m))) by {
                            lemma_member_sec_upto_unfold(sv, m, j as int);
                            assert(!member_in_entry(ev, m));
                        }
                    }
                }
                j += 1;
            }
            proof {
                assert forall|m: Seq<u8>|
                    #[trigger] names_contain(names_view(out@), m) == (member_in_doc_upto(
                        d,
                        m,
                        i as int + 1,
                    ) && names_contain(privs, join_member(root@, m))) by {
                    lemma_member_doc_upto_unfold(d, m, i as int);
                    lemma_member_sec_upto_full(sv, m);
                }
            }
        } else {
            proof {
                assert forall|m: Seq<u8>|
                    #[trigger] names_contain(names_view(out@), m) == (member_in_doc_upto(
                        d,
                        m,
                        i as int + 1,
                    ) && names_contain(privs, join_member(root@, m))) by {
                    lemma_member_doc_upto_unfold(d, m, i as int);
                    assert(!member_in_sec(sv, m));
                }
            }
        }
        i += 1;
    }
    proof {
        assert forall|m: Seq<u8>|
            #[trigger] names_contain(names_view(out@), m) == (member_in_doc(doc@, m)
                && names_contain(privs, join_member(root@, m))) by {
            lemma_member_doc_upto_full(d, m);
        }
    }
    out
}

// ---------------------------------------------------------------------------
// The plan.
// ---------------------------------------------------------------------------

/// One step of the transaction, in order: register pristine bytes and write
/// the mutated manifest; register pristine lockfile bytes; or register that
/// a lockfile did not exist.
pub enum Action {
    RegisterWrite { path: Vec<u8>, original: Vec<u8>, mutated: Vec<u8> },
    RegisterKeep { path: Vec<u8>, contents: Vec<u8> },
    RegisterRemove { path: Vec<u8> },
}

#[verifier::ext_equal]
pub enum ActionV {
    RegisterWrite { path: Seq<u8>, original: Seq<u8>, mutated: Seq<u8> },
    RegisterKeep { path: Seq<u8>, contents: Seq<u8> },
    RegisterRemove { path: Seq<u8> },
}

impl View for Action {
    type V = ActionV;

    open spec fn view(&self) -> ActionV {
        match self {
            Action::RegisterWrite { path, original, mutated } => ActionV::RegisterWrite {
                path: path@,
                original: original@,
                mutated: mutated@,
            },
            Action::RegisterKeep { path, contents } => ActionV::RegisterKeep {
                path: path@,
                contents: contents@,
            },
            Action::RegisterRemove { path } => ActionV::RegisterRemove { path: path@ },
        }
    }
}

/// The planned transaction: the ordered actions, the indices of the packages
/// taking part, and whether the workspace is split into independent members.
pub struct Plan {
    pub actions: Vec<Action>,
    pub ids: Vec<usize>,
    pub detach_workspace: bool,
}

/// One workspace package as the planner consumes it: its manifest path, the
/// publishing flag from the package graph, the manifest bytes, and the
/// contents of the lockfile beside it, when one exists.
pub struct PackageInput {
    pub manifest_path: Vec<u8>,
    pub publish: bool,
    pub contents: Vec<u8>,
    pub lockfile: Option<Vec<u8>>,
}

#[verifier::ext_equal]
pub struct PackageInputV {
    pub manifest_path: Seq<u8>,
    pub publish: bool,
    pub contents: Seq<u8>,
    pub lockfile: Option<Seq<u8>>,
}

impl View for PackageInput {
    type V = PackageInputV;

    open spec fn view(&self) -> PackageInputV {
        PackageInputV {
            manifest_path: self.manifest_path@,
            publish: self.publish,
            contents: self.contents@,
            lockfile: crate::document::opt_view(self.lockfile),
        }
    }
}

/// The whole workspace as the planner consumes it.
pub struct WorkspaceInput {
    pub cargo_version: u32,
    pub workspace_root: Vec<u8>,
    pub packages: Vec<PackageInput>,
    pub root_contents: Vec<u8>,
    pub root_lockfile: Option<Vec<u8>>,
}

#[verifier::ext_equal]
pub struct WorkspaceInputV {
    pub cargo_version: u32,
    pub workspace_root: Seq<u8>,
    pub packages: Seq<PackageInputV>,
    pub root_contents: Seq<u8>,
    pub root_lockfile: Option<Seq<u8>>,
}

impl View for WorkspaceInput {
    type V = WorkspaceInputV;

    open spec fn view(&self) -> WorkspaceInputV {
        WorkspaceInputV {
            cargo_version: self.cargo_version,
            workspace_root: self.workspace_root@,
            packages: self.packages@.map_values(|p: PackageInput| p@),
            root_contents: self.root_contents@,
            root_lockfile: crate::document::opt_view(self.root_lockfile),
        }
    }
}

// ---------------------------------------------------------------------------
// What each planned action means.
// ---------------------------------------------------------------------------

/// The mutation pipeline of a non-root member: development dependencies
/// stripped, path dependencies detached, and the member promoted to its own
/// workspace, each as requested.
pub open spec fn nonroot_pipe(
    doc: DocumentV,
    no_dev_deps: bool,
    mode: Option<DetachPathDeps>,
    detach_ws: bool,
) -> DocumentV {
    let d1 = if no_dev_deps {
        strip_dev(doc)
    } else {
        doc
    };
    let d2 = if no_dev_deps && mode is Some {
        detach(d1, mode->0)
    } else {
        d1
    };
    if detach_ws {
        promote(d2)
    } else {
        d2
    }
}

/// The root manifest after its own dependency mutations, before member
/// exclusions.
pub open spec fn root_mid(
    doc: DocumentV,
    strip_flag: bool,
    mode: Option<DetachPathDeps>,
) -> DocumentV {
    let d1 = if strip_flag {
        strip_dev(doc)
    } else {
        doc
    };
    if strip_flag && mode is Some {
        detach(d1, mode->0)
    } else {
        d1
    }
}

/// The mutation pipeline of the root manifest: optionally stripped and
/// detached, then member exclusions applied.
pub open spec fn root_pipe(
    doc: DocumentV,
    strip_flag: bool,
    mode: Option<DetachPathDeps>,
    excl: Option<Seq<Seq<u8>>>,
) -> DocumentV {
    match excl {
        Option::Some(x) => apply_exclusions(root_mid(doc, strip_flag, mode), x),
        Option::None => root_mid(doc, strip_flag, mode),
    }
}

/// Every path in the set names a workspace package, and one the package
/// graph itself marks unpublishable when it carries that information.
pub open spec fn priv_entry_ok(w: WorkspaceInputV, p: Seq<u8>) -> bool {
    exists|i: int|
        0 <= i < w.packages.len() && (#[trigger] w.packages[i]).manifest_path == p && (
        w.cargo_version >= 39 ==> !w.packages[i].publish)
}

pub open spec fn private_paths_ok(w: WorkspaceInputV, privs: Seq<Seq<u8>>) -> bool {
    forall|p: Seq<u8>| #[trigger] names_contain(privs, p) ==> priv_entry_ok(w, p)
}

/// The excluded member set is exact: when the workspace is split, it holds
/// precisely the members of the rewritten document whose manifests differ
/// from the root manifest; otherwise precisely the members whose manifests
/// belong to private packages.
pub open spec fn excl_ok(
    w: WorkspaceInputV,
    detach_ws: bool,
    d2: DocumentV,
    x: Seq<Seq<u8>>,
) -> bool {
    if detach_ws {
        forall|m: Seq<u8>|
            #[trigger] names_contain(x, m) == (member_in_doc(d2, m) && join_member(
                w.workspace_root,
                m,
            ) != root_manifest_path(w.workspace_root))
    } else {
        exists|privs: Seq<Seq<u8>>|
            #[trigger] private_paths_ok(w, privs) && (forall|m: Seq<u8>|
                #[trigger] names_contain(x, m) == (member_in_doc(d2, m) && names_contain(
                    privs,
                    join_member(w.workspace_root, m),
                )))
    }
}

/// Every planned action is truthful: a write registers exactly the pristine
/// bytes of a workspace manifest and writes the serialization of its
/// mutation pipeline applied to a document those bytes parse to; a lockfile
/// registration records exactly the lockfile state the workspace reported.
pub open spec fn action_valid(
    w: WorkspaceInputV,
    no_dev_deps: bool,
    mode: Option<DetachPathDeps>,
    detach_ws: bool,
    a: ActionV,
) -> bool {
    match a {
        ActionV::RegisterWrite { path, original, mutated } => {
            if path == root_manifest_path(w.workspace_root) {
                &&& (original == w.root_contents || exists|i: int|
                    0 <= i < w.packages.len() && (#[trigger] w.packages[i]).manifest_path == path
                        && w.packages[i].contents == original)
                &&& exists|doc: DocumentV, strip_flag: bool, excl: Option<Seq<Seq<u8>>>|
                    ser_doc(doc) == original && mutated == ser_doc(
                        #[trigger] root_pipe(doc, strip_flag, mode, excl),
                    ) && match excl {
                        Option::Some(x) => excl_ok(
                            w,
                            detach_ws,
                            root_mid(doc, strip_flag, mode),
                            x,
                        ),
                        Option::None => !detach_ws,
                    }
            } else {
                &&& exists|i: int|
                    0 <= i < w.packages.len() && (#[trigger] w.packages[i]).manifest_path == path
                        && w.packages[i].contents == original
                &&& exists|doc: DocumentV|
                    ser_doc(doc) == original && mutated == ser_doc(
                        #[trigger] nonroot_pipe(doc, no_dev_deps, mode, detach_ws),
                    )
            }
        },
        ActionV::RegisterKeep { path, contents } => {
            ||| (path == root_lock_path(w.workspace_root) && w.root_lockfile == Option::Some(
                contents,
            ))
            ||| exists|i: int|
                0 <= i < w.packages.len() && path == sibling_lock_path(
                    (#[trigger] w.packages[i]).manifest_path,
                ) && w.packages[i].lockfile == Option::Some(contents)
        },
        ActionV::RegisterRemove { path } => exists|i: int|
            0 <= i < w.packages.len() && path == sibling_lock_path(
                (#[trigger] w.packages[i]).manifest_path,
            ) && w.packages[i].lockfile is None,
    }
}

/// Some action writes the given manifest path.
pub open spec fn has_write_for(actions: Seq<ActionV>, path: Seq<u8>) -> bool {
    exists|j: int|
        0 <= j < actions.len() && ((#[trigger] actions[j]) matches ActionV::RegisterWrite {
            path: p,
            ..
        } && p == path)
}

struct Kept {
    idx: usize,
    m: Manifest,
}

/// The plan lists the package index.
pub open spec fn contains_id(ids: Seq<usize>, i: int) -> bool {
    exists|t: int| 0 <= t < ids.len() && #[trigger] ids[t] as int == i
}

proof fn lemma_contains_id_push(ids: Seq<usize>, v: usize)
    ensures
        forall|i: int|
            #[trigger] contains_id(ids.push(v), i) == (contains_id(ids, i) || v as int == i),
{
    assert forall|i: int|
        #[trigger] contains_id(ids.push(v), i) == (contains_id(ids, i) || v as int == i) by {
        if contains_id(ids.push(v), i) {
            let t = choose|t: int| 0 <= t < ids.push(v).len() && #[trigger] ids.push(v)[t] as int
                == i;
            if t < ids.len() {
                assert(ids[t] as int == i);
                assert(contains_id(ids, i));
            }
        }
        if contains_id(ids, i) {
            let t = choose|t: int| 0 <= t < ids.len() && #[trigger] ids[t] as int == i;
            assert(ids.push(v)[t] as int == i);
            assert(contains_id(ids.push(v), i));
        }
        if v as int == i {
            assert(ids.push(v)[ids.len() as int] as int == i);
            assert(contains_id(ids.push(v), i));
        }
    }
}

/// A package the planner kept is not excluded by the privacy rule: with a
/// package graph that carries the restriction itself, it is public or
/// privacy exclusion was not requested; with an older graph, its manifest
/// parses to a document whose publish field permits it.
pub open spec fn pkg_kept_ok(w: WorkspaceInputV, no_private: bool, i: int) -> bool {
    &&& (w.cargo_version >= 39 ==> w.packages[i].publish || !no_private)
    &&& (w.cargo_version < 39 ==> exists|doc: DocumentV|
        #[trigger] ser_doc(doc) == w.packages[i].contents && publish_value(doc) is Ok && (
        no_private ==> publish_value(doc)->Ok_0))
}

/// A package the planner left out was excluded by the privacy rule.
pub open spec fn pkg_skipped_private(w: WorkspaceInputV, no_private: bool, i: int) -> bool {
    &&& no_private
    &&& (w.cargo_version >= 39 ==> !w.packages[i].publish)
    &&& (w.cargo_version < 39 ==> exists|doc: DocumentV|
        #[trigger] ser_doc(doc) == w.packages[i].contents && publish_value(doc) == Result::<
            bool,
            (),
        >::Ok(false))
}

/// The registration a detached member's lockfile state calls for: keep the
/// existing bytes, or mark the absent file for deletion.
pub open spec fn expected_lock_action(w: WorkspaceInputV, i: int) -> ActionV {
    match w.packages[i].lockfile {
        Option::Some(c) => ActionV::RegisterKeep {
            path: sibling_lock_path(w.packages[i].manifest_path),
            contents: c,
        },
        Option::None => ActionV::RegisterRemove {
            path: sibling_lock_path(w.packages[i].manifest_path),
        },
    }
}

/// The member's lockfile registration appears, and strictly before the
/// member's manifest write.
pub open spec fn lock_then_write(w: WorkspaceInputV, actions: Seq<ActionV>, i: int) -> bool {
    exists|j1: int, j2: int|
        #![trigger actions[j1], actions[j2]]
        0 <= j1 < j2 < actions.len() && actions[j1] == expected_lock_action(w, i) && (actions[j2]
            matches ActionV::RegisterWrite { path: p, .. } && p == w.packages[i].manifest_path)
}

proof fn lemma_lock_then_write_push(w: WorkspaceInputV, actions: Seq<ActionV>, a: ActionV)
    ensures
        forall|i: int|
            lock_then_write(w, actions, i) ==> #[trigger] lock_then_write(w, actions.push(a), i),
{
    assert forall|i: int|
        lock_then_write(w, actions, i) implies #[trigger] lock_then_write(
        w,
        actions.push(a),
        i,
    ) by {
        let (j1, j2) = choose|j1: int, j2: int|
            #![trigger actions[j1], actions[j2]]
            0 <= j1 < j2 < actions.len() && actions[j1] == expected_lock_action(w, i) && (
            actions[j2] matches ActionV::RegisterWrite { path: p, .. } && p == w.packages[
                i
            ].manifest_path);
        assert(actions.push(a)[j1] == actions[j1]);
        assert(actions.push(a)[j2] == actions[j2]);
    }
}

/// Everything a successful plan promises: the split flag mirrors how many
/// members take part; the listed indices are exactly the members the
/// privacy rule admits, in order, always including the root; every action
/// is truthful; every owed write is present, with the member-lockfile
/// registration before it; the root rewrite happens whenever its dependency
/// mutations or a member exclusion calls for it; and the workspace lockfile
/// is registered last when it exists.
pub open spec fn plan_valid(
    w: WorkspaceInputV,
    no_private: bool,
    mode: Option<DetachPathDeps>,
    ndd: bool,
    ids: Seq<usize>,
    actions: Seq<ActionV>,
    dws: bool,
) -> bool {
    let rootp = root_manifest_path(w.workspace_root);
    &&& dws == (ids.len() > 1)
    &&& forall|k: int| 0 <= k < ids.len() ==> (#[trigger] ids[k]) < w.packages.len()
    &&& forall|k1: int, k2: int| 0 <= k1 < k2 < ids.len() ==> ids[k1] < ids[k2]
    &&& forall|k: int|
        0 <= k < actions.len() ==> action_valid(w, ndd, mode, dws, #[trigger] actions[k])
    &&& forall|t: int|
        0 <= t < ids.len() && write_owed(w, ndd, dws, #[trigger] ids[t] as int)
            ==> has_write_for(actions, w.packages[ids[t] as int].manifest_path)
    &&& dws ==> forall|t: int|
        0 <= t < ids.len() && write_owed(w, ndd, dws, #[trigger] ids[t] as int)
            ==> lock_then_write(w, actions, ids[t] as int)
    &&& match w.root_lockfile {
        Option::Some(c) => actions.len() > 0 && actions.last() == (ActionV::RegisterKeep {
            path: root_lock_path(w.workspace_root),
            contents: c,
        }),
        Option::None => true,
    }
    &&& forall|i: int|
        0 <= i < w.packages.len() && #[trigger] contains_id(ids, i) ==> pkg_kept_ok(
            w,
            no_private,
            i,
        )
    &&& forall|i: int|
        0 <= i < w.packages.len() && !(#[trigger] contains_id(ids, i)) ==> pkg_skipped_private(
            w,
            no_private,
            i,
        )
    &&& forall|i: int|
        0 <= i < w.packages.len() && (#[trigger] w.packages[i]).manifest_path == rootp
            ==> contains_id(ids, i)
    &&& (mode is Some && !ndd) ==> forall|t: int|
        0 <= t < ids.len() ==> no_private && (#[trigger] w.packages[ids[t] as int]).manifest_path
            == rootp
    &&& ((ndd || dws) && !no_private && (exists|i: int|
        0 <= i < w.packages.len() && #[trigger] contains_id(ids, i) && w.packages[
            i
        ].manifest_path == rootp)) ==> has_write_for(actions, rootp)
    &&& (no_private && ndd && (exists|i: int|
        0 <= i < w.packages.len() && #[trigger] contains_id(ids, i) && w.packages[
            i
        ].manifest_path == rootp)) ==> has_write_for(actions, rootp)
    &&& (no_private && w.cargo_version >= 39 && (exists|i: int|
        0 <= i < w.packages.len() && !(#[trigger] w.packages[i]).publish && w.packages[
            i
        ].manifest_path != rootp)) ==> has_write_for(actions, rootp)
}

/// What each failure promises: privacy errors only under the privacy flag,
/// the detach conflict only under its flags and carrying the subcommand
/// text, and a missing-field error only for a field some member manifest's
/// parsed form really lacks or malforms.
pub open spec fn error_valid(
    w: WorkspaceInputV,
    no_private: bool,
    mode: Option<DetachPathDeps>,
    ndd: bool,
    sub: Seq<char>,
    e: Error,
) -> bool {
    &&& (e is PrivateRoot ==> no_private)
    &&& (e matches Error::DetachNeedsRemovedDevDeps { subcommand } ==> mode is Some && !ndd
        && subcommand@ == sub)
    &&& (e matches Error::MissingField { field } ==> exists|i: int, doc: DocumentV|
        #![trigger w.packages[i], ser_doc(doc)]
        0 <= i < w.packages.len() && ser_doc(doc) == w.packages[i].contents && ((field@
            == k_package() && !has_package(doc)) || (field@ == k_publish() && w.cargo_version < 39
            && publish_value(doc) is Err)))
    &&& (e is Parse || e is MissingField || e is PrivateRoot || e is DetachNeedsRemovedDevDeps)
}

spec fn kept_entry_ok(w: WorkspaceInputV, k: Kept) -> bool {
    &&& (k.idx as int) < w.packages.len()
    &&& ser_doc(k.m.doc@) == w.packages[k.idx as int].contents
    &&& k.m.raw@ == w.packages[k.idx as int].contents
}

proof fn lemma_has_write_push(actions: Seq<ActionV>, a: ActionV)
    ensures
        forall|p: Seq<u8>|
            has_write_for(actions, p) ==> #[trigger] has_write_for(actions.push(a), p),
{
    assert forall|p: Seq<u8>|
        has_write_for(actions, p) implies #[trigger] has_write_for(actions.push(a), p) by {
        let j = choose|j: int|
            0 <= j < actions.len() && ((#[trigger] actions[j]) matches ActionV::RegisterWrite {
                path: q,
                ..
            } && q == p);
        assert(actions.push(a)[j] == actions[j]);
    }
}

/// The condition under which a planned package manifest must appear among
/// the writes: something is mutated and the package is not the root held
/// back for the private-package rewrite.
pub open spec fn write_owed(
    w: WorkspaceInputV,
    no_dev_deps: bool,
    detach_ws: bool,
    idx: int,
) -> bool {
    (no_dev_deps || detach_ws) && w.packages[idx].manifest_path != root_manifest_path(
        w.workspace_root,
    )
}

/// Plans one workspace transaction: decides which members take part, applies
/// the requested mutations to each manifest, and lays the registrations and
/// writes out in the order the caller must perform them — each pristine
/// content registered before its file is overwritten, and the workspace
/// lockfile registered last, so restoration can always rewind the run.
#[verifier::rlimit(50)]
pub fn with(ws: &WorkspaceInput, args: &Args, no_dev_deps: bool) -> (r: Result<Plan, Error>)
    ensures
        match r {
            Result::Ok(plan) => plan_valid(
                ws@,
                args.no_private,
                args.detach_path_deps,
                no_dev_deps,
                plan.ids@,
                plan.actions@.map_values(|a: Action| a@),
                plan.detach_workspace,
            ),
            Result::Err(e) => error_valid(
                ws@,
                args.no_private,
                args.detach_path_deps,
                no_dev_deps,
                args.subcommand.spec_str(),
                e,
            ),
        },
{
    let n = ws.packages.len();
    let root_manifest = make_root_manifest_path(&ws.workspace_root);
    let mut kept: Vec<Kept> = Vec::new();
    let mut ids: Vec<usize> = Vec::new();
    let mut privates: Vec<Vec<u8>> = Vec::new();
    let mut i: usize = 0;
    while i < n
        invariant
            i <= n,
            n == ws.packages@.len(),
            root_manifest@ == root_manifest_path(ws@.workspace_root),
            ids@.len() == kept@.len(),
            forall|t: int| 0 <= t < kept@.len() ==> ids@[t] == (#[trigger] kept@[t]).idx,
            forall|t: int| 0 <= t < kept@.len() ==> (#[trigger] kept@[t]).idx < i,
            forall|t1: int, t2: int| 0 <= t1 < t2 < kept@.len() ==> kept@[t1].idx < kept@[t2].idx,
            forall|t: int| 0 <= t < kept@.len() ==> kept_entry_ok(ws@, #[trigger] kept@[t]),
            forall|t: int|
                0 <= t < privates@.len() ==> priv_entry_ok(ws@, (#[trigger] privates@[t])@),
            forall|idx: int|
                0 <= idx < i && #[trigger] contains_id(ids@, idx) ==> pkg_kept_ok(
                    ws@,
                    args.no_private,
                    idx,
                ),
            forall|idx: int|
                0 <= idx < i && !(#[trigger] contains_id(ids@, idx)) ==> pkg_skipped_private(
                    ws@,
                    args.no_private,
                    idx,
                ),
            forall|idx: int|
                0 <= idx < i && (#[trigger] ws@.packages[idx]).manifest_path
                    == root_manifest_path(ws@.workspace_root) ==> contains_id(ids@, idx),
            forall|idx: int|
                0 <= idx < i && args.no_private && ws.cargo_version >= 39 && !(
                #[trigger] ws@.packages[idx]).publish && ws@.packages[idx].manifest_path
                    != root_manifest_path(ws@.workspace_root) ==> privates@.len() > 0,
        decreases n - i,
    {
        let p = &ws.packages[i];
        proof {
            assert(ws@.packages[i as int] == p@);
        }
        let is_root = bytes_eq(p.manifest_path.as_slice(), root_manifest.as_slice());
        let parsed: Option<Manifest> = if ws.cargo_version >= 39 {
            if !p.publish && args.no_private {
                if is_root {
                    return Err(Error::PrivateRoot);
                }
                let ghost pv0 = privates@;
                let c = crate::strip::copy_bytes(&p.manifest_path);
                privates.push(c);
                proof {
                    assert(priv_entry_ok(ws@, ws@.packages[i as int].manifest_path));
                    assert forall|t: int|
                        0 <= t < privates@.len() implies priv_entry_ok(
                        ws@,
                        (#[trigger] privates@[t])@,
                    ) by {
                        if t < pv0.len() {
                            assert(privates@[t] == pv0[t]);
                        } else {
                            assert(privates@[t]@ == ws@.packages[i as int].manifest_path);
                        }
                    }
                    assert(pkg_skipped_private(ws@, args.no_private, i as int));
                }
                None
            } else {
                let m = match Manifest::new(
                    crate::strip::copy_bytes(&p.contents),
                    ws.cargo_version,
                ) {
                    Ok(m) => m,
                    Err(e) => {
                        proof {
                            assert(ws@.packages[i as int].contents == p.contents@);
                            assert(error_valid(
                                ws@,
                                args.no_private,
                                args.detach_path_deps,
                                no_dev_deps,
                                args.subcommand.spec_str(),
                                e,
                            ));
                        }
                        return Err(e);
                    },
                };
                proof {
                    assert(pkg_kept_ok(ws@, args.no_private, i as int));
                }
                Some(m)
            }
        } else {
            let m = match Manifest::new(crate::strip::copy_bytes(&p.contents), ws.cargo_version) {
                Ok(m) => m,
                Err(e) => {
                    proof {
                        assert(ws@.packages[i as int].contents == p.contents@);
                        assert(error_valid(
                            ws@,
                            args.no_private,
                            args.detach_path_deps,
                            no_dev_deps,
                            args.subcommand.spec_str(),
                            e,
                        ));
                    }
                    return Err(e);
                },
            };
            let private = match m.package.publish {
                Some(b) => !b,
                None => false,
            };
            proof {
                assert(ser_doc(m.doc@) == ws@.packages[i as int].contents);
                if private && args.no_private {
                    assert(publish_value(m.doc@) == Result::<bool, ()>::Ok(false));
                    assert(pkg_skipped_private(ws@, args.no_private, i as int));
                } else {
                    assert(pkg_kept_ok(ws@, args.no_private, i as int));
                }
            }
            if private && args.no_private {
                if is_root {
                    return Err(Error::PrivateRoot);
                }
                let ghost pv0 = privates@;
                let c = crate::strip::copy_bytes(&p.manifest_path);
                privates.push(c);
                proof {
                    assert(priv_entry_ok(ws@, ws@.packages[i as int].manifest_path));
                    assert forall|t: int|
                        0 <= t < privates@.len() implies priv_entry_ok(
                        ws@,
                        (#[trigger] privates@[t])@,
                    ) by {
                        if t < pv0.len() {
                            assert(privates@[t] == pv0[t]);
                        } else {
                            assert(privates@[t]@ == ws@.packages[i as int].manifest_path);
                        }
                    }
                }
                None
            } else {
                Some(m)
            }
        };
        match parsed {
            Some(m) => {
                let ghost k0 = kept@;
                let ghost i0 = ids@;
                let x = Kept { idx: i, m };
                let ghost xv = x;
                proof {
                    assert(kept_entry_ok(ws@, xv));
                }
                kept.push(x);
                ids.push(i);
                proof {
                    assert forall|t: int|
                        0 <= t < kept@.len() implies ids@[t] == (#[trigger] kept@[t]).idx && (
                    #[trigger] kept@[t]).idx < i + 1 && kept_entry_ok(ws@, kept@[t]) by {
                        if t < k0.len() {
                            assert(kept@[t] == k0[t]);
                            assert(ids@[t] == i0[t]);
                        } else {
                            assert(kept@[t] == xv);
                        }
                    }
                    assert forall|t1: int, t2: int|
                        0 <= t1 < t2 < kept@.len() implies kept@[t1].idx < kept@[t2].idx by {
                        if t2 < k0.len() {
                            assert(kept@[t1] == k0[t1] && kept@[t2] == k0[t2]);
                        } else {
                            assert(kept@[t2] == xv);
                            assert(kept@[t1] == k0[t1]);
                        }
                    }
                    lemma_contains_id_push(i0, i);
                    assert(ids@ == i0.push(i));
                    assert forall|idx: int|
                        0 <= idx < i + 1 implies ((#[trigger] contains_id(ids@, idx)
                        ==> pkg_kept_ok(ws@, args.no_private, idx)) && (!contains_id(ids@, idx)
                        ==> pkg_skipped_private(ws@, args.no_private, idx))) by {
                        if idx < i {
                            assert(contains_id(ids@, idx) == (contains_id(i0, idx) || i as int
                                == idx));
                        } else {
                            assert(contains_id(ids@, idx));
                        }
                    }
                    assert forall|idx: int|
                        0 <= idx < i + 1 && (#[trigger] ws@.packages[idx]).manifest_path
                            == root_manifest_path(ws@.workspace_root) implies contains_id(
                        ids@,
                        idx,
                    ) by {
                        if idx < i {
                            assert(contains_id(i0, idx));
                            assert(contains_id(ids@, idx) == (contains_id(i0, idx) || i as int
                                == idx));
                        } else {
                            assert(contains_id(ids@, idx));
                        }
                    }
                    assert forall|idx: int|
                        0 <= idx < i + 1 && args.no_private && ws.cargo_version >= 39 && !(
                        #[trigger] ws@.packages[idx]).publish && ws@.packages[idx].manifest_path
                            != root_manifest_path(ws@.workspace_root) implies privates@.len()
                        > 0 by {
                        if idx == i as int {
                            assert(ws@.packages[idx] == p@);
                        }
                    }
                }
            },
            None => {
                proof {
                    assert(!contains_id(ids@, i as int)) by {
                        if contains_id(ids@, i as int) {
                            let t = choose|t: int|
                                0 <= t < ids@.len() && #[trigger] ids@[t] as int == i as int;
                            assert(ids@[t] == kept@[t].idx);
                            assert(kept@[t].idx < i);
                        }
                    }
                    assert forall|idx: int|
                        0 <= idx < i + 1 implies ((#[trigger] contains_id(ids@, idx)
                        ==> pkg_kept_ok(ws@, args.no_private, idx)) && (!contains_id(ids@, idx)
                        ==> pkg_skipped_private(ws@, args.no_private, idx))) by {}
                    assert forall|idx: int|
                        0 <= idx < i + 1 && (#[trigger] ws@.packages[idx]).manifest_path
                            == root_manifest_path(ws@.workspace_root) implies contains_id(
                        ids@,
                        idx,
                    ) by {
                        if idx == i as int {
                            assert(ws@.packages[idx] == p@);
                            assert(p.manifest_path@ != root_manifest@);
                            assert(false);
                        }
                    }
                    assert forall|idx: int|
                        0 <= idx < i + 1 && args.no_private && ws.cargo_version >= 39 && !(
                        #[trigger] ws@.packages[idx]).publish && ws@.packages[idx].manifest_path
                            != root_manifest_path(ws@.workspace_root) implies privates@.len()
                        > 0 by {}
                }
            },
        }
        i += 1;
    }
    // detaching path dependencies needs the development sections removed
    if args.detach_path_deps.is_some() && !no_dev_deps {
        let mut t: usize = 0;
        while t < kept.len()
            invariant
                t <= kept@.len(),
                n == ws.packages@.len(),
                root_manifest@ == root_manifest_path(ws@.workspace_root),
                forall|u: int| 0 <= u < kept@.len() ==> kept_entry_ok(ws@, #[trigger] kept@[u]),
                args.detach_path_deps is Some,
                !no_dev_deps,
                ids@.len() == kept@.len(),
                forall|u: int| 0 <= u < kept@.len() ==> ids@[u] == (#[trigger] kept@[u]).idx,
                forall|u: int|
                    0 <= u < t ==> args.no_private && (#[trigger] ws@.packages[
                        ids@[u] as int
                    ]).manifest_path == root_manifest_path(ws@.workspace_root),
            decreases kept@.len() - t,
        {
            let idx = kept[t].idx;
            proof {
                assert(kept_entry_ok(ws@, kept@[t as int]));
                assert(ids@[t as int] == idx);
            }
            let isr = bytes_eq(
                ws.packages[idx].manifest_path.as_slice(),
                root_manifest.as_slice(),
            );
            if !(isr && args.no_private) {
                let sub = args.subcommand.as_str().to_owned();
                let e = Error::DetachNeedsRemovedDevDeps { subcommand: sub };
                proof {
                    assert(error_valid(
                        ws@,
                        args.no_private,
                        args.detach_path_deps,
                        no_dev_deps,
                        args.subcommand.spec_str(),
                        e,
                    ));
                }
                return Err(e);
            }
            proof {
                assert(ws@.packages[idx as int] == ws.packages@[idx as int]@);
            }
            t += 1;
        }
    }
    let detach_workspace = kept.len() > 1;
    let ghost dws = detach_workspace;
    let ghost idsv = ids@;
    let total = ids.len();
    proof {
        assert(idsv.len() == total);
        assert forall|t: int| 0 <= t < idsv.len() implies (#[trigger] idsv[t]) < n by {
            assert(idsv[t] == kept@[t].idx);
            assert(kept_entry_ok(ws@, kept@[t]));
        }
        assert forall|t1: int, t2: int|
            0 <= t1 < t2 < idsv.len() implies idsv[t1] < idsv[t2] by {
            assert(idsv[t1] == kept@[t1].idx);
            assert(idsv[t2] == kept@[t2].idx);
        }
    }
    let mut actions: Vec<Action> = Vec::new();
    let mut root_doc: Option<Manifest> = None;
    let mut src = kept;
    proof {
        assert forall|t: int|
            0 <= t < src@.len() implies (#[trigger] src@[t]).idx == idsv[t] && kept_entry_ok(
            ws@,
            src@[t],
        ) by {
            assert(idsv[t] == src@[t].idx);
        }
    }
    let mut g: usize = 0;
    while src.len() > 0
        invariant
            idsv.len() <= usize::MAX,
            n == ws.packages@.len(),
            root_manifest@ == root_manifest_path(ws@.workspace_root),
            ids@ == idsv,
            detach_workspace == dws,
            dws == (idsv.len() > 1),
            g + src@.len() == idsv.len(),
            forall|t: int| 0 <= t < idsv.len() ==> (#[trigger] idsv[t]) < n,
            forall|t1: int, t2: int| 0 <= t1 < t2 < idsv.len() ==> idsv[t1] < idsv[t2],
            forall|t: int|
                0 <= t < src@.len() ==> (#[trigger] src@[t]).idx == idsv[g + t] && kept_entry_ok(
                    ws@,
                    src@[t],
                ),
            forall|k: int|
                0 <= k < actions@.len() ==> action_valid(
                    ws@,
                    no_dev_deps,
                    args.detach_path_deps,
                    dws,
                    (#[trigger] actions@[k])@,
                ),
            forall|t: int|
                0 <= t < g && write_owed(ws@, no_dev_deps, dws, #[trigger] idsv[t] as int)
                    ==> has_write_for(
                    actions@.map_values(|a: Action| a@),
                    ws@.packages[idsv[t] as int].manifest_path,
                ),
            forall|t: int|
                0 <= t < g && dws && write_owed(ws@, no_dev_deps, dws, #[trigger] idsv[t] as int)
                    ==> lock_then_write(
                    ws@,
                    actions@.map_values(|a: Action| a@),
                    idsv[t] as int,
                ),
            forall|t: int|
                0 <= t < g && (#[trigger] ws@.packages[idsv[t] as int]).manifest_path
                    == root_manifest_path(ws@.workspace_root) ==> ((args.no_private ==> root_doc
                    is Some) && (!args.no_private && (no_dev_deps || dws) ==> has_write_for(
                    actions@.map_values(|a: Action| a@),
                    root_manifest_path(ws@.workspace_root),
                ))),
            match root_doc {
                Option::Some(mm) => exists|ri: int|
                    0 <= ri < ws@.packages.len() && (#[trigger] ws@.packages[ri]).manifest_path
                        == root_manifest_path(ws@.workspace_root) && ws@.packages[ri].contents
                        == mm.raw@ && ser_doc(mm.doc@) == mm.raw@,
                Option::None => true,
            },
        decreases src@.len(),
    {
        let ghost presrc = src@;
        let x = src.remove(0);
        proof {
            assert(x == presrc[0]);
            assert(x.idx == idsv[g as int]);
            assert(kept_entry_ok(ws@, x));
            assert forall|t: int|
                0 <= t < src@.len() implies (#[trigger] src@[t]).idx == idsv[g + 1 + t]
                && kept_entry_ok(ws@, src@[t]) by {
                assert(src@[t] == presrc[t + 1]);
            }
        }
        let Kept { idx, m } = x;
        let pkg = &ws.packages[idx];
        proof {
            assert(ws@.packages[idx as int] == pkg@);
        }
        let is_root = bytes_eq(pkg.manifest_path.as_slice(), root_manifest.as_slice());
        if is_root && args.no_private {
            proof {
                assert(ser_doc(m.doc@) == m.raw@);
            }
            root_doc = Some(m);
        } else if no_dev_deps || detach_workspace {
            let ghost mut jlock: int = 0;
            let ghost mut lock_pushed: bool = false;
            let Manifest { raw, doc, package: _ } = m;
            let mut doc = doc;
            let ghost doc0 = doc@;
            if no_dev_deps {
                strip_dev_sections(&mut doc);
                if let Some(mode) = args.detach_path_deps {
                    detach_path_deps(&mut doc, mode);
                }
            }
            let ghost d2 = doc@;
            proof {
                assert(d2 == {
                    let d1 = if no_dev_deps {
                        strip_dev(doc0)
                    } else {
                        doc0
                    };
                    if no_dev_deps && args.detach_path_deps is Some {
                        detach(d1, args.detach_path_deps->0)
                    } else {
                        d1
                    }
                });
            }
            let ghost mut excl_used: Option<Seq<Seq<u8>>> = Option::None;
            if detach_workspace {
                if is_root {
                    let excl = collect_detach_excl(&doc, &ws.workspace_root, &root_manifest);
                    proof {
                        assert(ws.workspace_root@ == ws@.workspace_root);
                        assert(d2 == root_mid(doc0, no_dev_deps, args.detach_path_deps));
                        assert(excl_ok(ws@, dws, d2, names_view(excl@)));
                    }
                    exclude_members(&mut doc, &excl);
                    proof {
                        excl_used = Option::Some(names_view(excl@));
                    }
                } else {
                    promote_to_detached_workspace(&mut doc);
                    let lockp = make_sibling_lock_path(&pkg.manifest_path);
                    let ghost a0 = actions@;
                    proof {
                        jlock = a0.len() as int;
                        lock_pushed = true;
                    }
                    match &pkg.lockfile {
                        Some(c) => {
                            let act = Action::RegisterKeep {
                                path: lockp,
                                contents: crate::strip::copy_bytes(c),
                            };
                            proof {
                                assert(ws@.packages[idx as int].lockfile == Option::Some(c@));
                                assert(act@ == expected_lock_action(ws@, idx as int));
                                assert(action_valid(
                                    ws@,
                                    no_dev_deps,
                                    args.detach_path_deps,
                                    dws,
                                    act@,
                                ));
                            }
                            actions.push(act);
                        },
                        None => {
                            let act = Action::RegisterRemove { path: lockp };
                            proof {
                                assert(ws@.packages[idx as int].lockfile is None);
                                assert(act@ == expected_lock_action(ws@, idx as int));
                                assert(action_valid(
                                    ws@,
                                    no_dev_deps,
                                    args.detach_path_deps,
                                    dws,
                                    act@,
                                ));
                            }
                            actions.push(act);
                        },
                    }
                    proof {
                        let a1 = actions@;
                        lemma_has_write_push(
                            a0.map_values(|a: Action| a@),
                            a1.last()@,
                        );
                        lemma_lock_then_write_push(
                            ws@,
                            a0.map_values(|a: Action| a@),
                            a1.last()@,
                        );
                        assert(a1.map_values(|a: Action| a@) =~= a0.map_values(
                            |a: Action| a@,
                        ).push(a1.last()@));
                        assert(a1.map_values(|a: Action| a@)[jlock] == expected_lock_action(
                            ws@,
                            idx as int,
                        ));
                        assert forall|k: int|
                            0 <= k < actions@.len() implies action_valid(
                            ws@,
                            no_dev_deps,
                            args.detach_path_deps,
                            dws,
                            (#[trigger] actions@[k])@,
                        ) by {
                            if k < a0.len() {
                                assert(actions@[k] == a0[k]);
                            }
                        }
                    }
                }
            }
            let mutated = crate::document::serialize(&doc);
            let path = crate::strip::copy_bytes(&pkg.manifest_path);
            let act = Action::RegisterWrite { path, original: raw, mutated };
            let ghost a1 = actions@;
            proof {
                if is_root {
                    assert(pkg@.manifest_path == root_manifest_path(ws@.workspace_root));
                    assert(doc@ == root_pipe(doc0, no_dev_deps, args.detach_path_deps, excl_used));
                    assert(action_valid(ws@, no_dev_deps, args.detach_path_deps, dws, act@));
                } else {
                    assert(pkg@.manifest_path != root_manifest_path(ws@.workspace_root));
                    assert(doc@ == nonroot_pipe(doc0, no_dev_deps, args.detach_path_deps, dws));
                    assert(action_valid(ws@, no_dev_deps, args.detach_path_deps, dws, act@));
                }
            }
            actions.push(act);
            proof {
                lemma_has_write_push(a1.map_values(|a: Action| a@), act@);
                lemma_lock_then_write_push(ws@, a1.map_values(|a: Action| a@), act@);
                assert(actions@.map_values(|a: Action| a@) =~= a1.map_values(
                    |a: Action| a@,
                ).push(act@));
                assert forall|k: int|
                    0 <= k < actions@.len() implies action_valid(
                    ws@,
                    no_dev_deps,
                    args.detach_path_deps,
                    dws,
                    (#[trigger] actions@[k])@,
                ) by {
                    if k < a1.len() {
                        assert(actions@[k] == a1[k]);
                    }
                }
                assert(has_write_for(
                    actions@.map_values(|a: Action| a@),
                    ws@.packages[idx as int].manifest_path,
                )) by {
                    assert(actions@.map_values(|a: Action| a@)[actions@.len() - 1] == act@);
                }
                if lock_pushed {
                    let m2 = actions@.map_values(|a: Action| a@);
                    assert(m2[jlock] == expected_lock_action(ws@, idx as int)) by {
                        assert(actions@[jlock] == a1[jlock]);
                    }
                    assert(m2[m2.len() - 1] == act@);
                    assert(lock_then_write(ws@, m2, idx as int));
                }
            }
        }
        proof {
            assert forall|t: int|
                0 <= t < g + 1 && write_owed(
                    ws@,
                    no_dev_deps,
                    dws,
                    #[trigger] idsv[t] as int,
                ) implies has_write_for(
                actions@.map_values(|a: Action| a@),
                ws@.packages[idsv[t] as int].manifest_path,
            ) by {
                if t < g {
                } else {
                    assert(idsv[t] == idx);
                    if write_owed(ws@, no_dev_deps, dws, idx as int) {
                        assert(ws@.packages[idx as int].manifest_path != root_manifest_path(
                            ws@.workspace_root,
                        ));
                        assert(!is_root);
                        assert(no_dev_deps || detach_workspace);
                    }
                }
            }
            assert forall|t: int|
                0 <= t < g + 1 && dws && write_owed(
                    ws@,
                    no_dev_deps,
                    dws,
                    #[trigger] idsv[t] as int,
                ) implies lock_then_write(
                ws@,
                actions@.map_values(|a: Action| a@),
                idsv[t] as int,
            ) by {
                if t < g {
                } else {
                    assert(idsv[t] == idx);
                    if dws && write_owed(ws@, no_dev_deps, dws, idx as int) {
                        assert(ws@.packages[idx as int].manifest_path != root_manifest_path(
                            ws@.workspace_root,
                        ));
                        assert(!is_root);
                    }
                }
            }
            assert forall|t: int|
                0 <= t < g + 1 && (#[trigger] ws@.packages[idsv[t] as int]).manifest_path
                    == root_manifest_path(ws@.workspace_root) implies ((args.no_private
                ==> root_doc is Some) && (!args.no_private && (no_dev_deps || dws)
                ==> has_write_for(
                actions@.map_values(|a: Action| a@),
                root_manifest_path(ws@.workspace_root),
            ))) by {
                if t < g {
                } else {
                    assert(idsv[t] == idx);
                    if ws@.packages[idx as int].manifest_path == root_manifest_path(
                        ws@.workspace_root,
                    ) {
                        assert(is_root);
                    }
                }
            }
        }
        g += 1;
    }
    // the root manifest is rewritten once, covering private-member exclusion
    // and, when requested, its own dependency mutations
    let has_root_crate = root_doc.is_some();
    if args.no_private && ((no_dev_deps && has_root_crate) || privates.len() > 0) {
        let ghost a2 = actions@;
        let (raw, doc) = match root_doc {
            Some(mm) => {
                let Manifest { raw, doc, package: _ } = mm;
                (raw, doc)
            },
            None => {
                match parse(ws.root_contents.as_slice()) {
                    Ok(doc) => (crate::strip::copy_bytes(&ws.root_contents), doc),
                    Err(e) => {
                        return Err(Error::Parse { pos: e.pos, kind: e.kind });
                    },
                }
            },
        };
        let mut doc = doc;
        let ghost doc0 = doc@;
        let strip_flag = no_dev_deps && has_root_crate;
        if strip_flag {
            strip_dev_sections(&mut doc);
            if let Some(mode) = args.detach_path_deps {
                detach_path_deps(&mut doc, mode);
            }
        }
        let ghost d2c = doc@;
        proof {
            assert(d2c == root_mid(doc0, strip_flag, args.detach_path_deps));
        }
        let ghost mut excl_used: Option<Seq<Seq<u8>>> = Option::None;
        if detach_workspace {
            let excl = collect_detach_excl(&doc, &ws.workspace_root, &root_manifest);
            proof {
                assert(ws.workspace_root@ == ws@.workspace_root);
                assert(excl_ok(ws@, dws, d2c, names_view(excl@)));
            }
            exclude_members(&mut doc, &excl);
            proof {
                excl_used = Option::Some(names_view(excl@));
            }
        } else if privates.len() > 0 {
            let excl = collect_private_excl(&doc, &ws.workspace_root, &privates);
            proof {
                assert(ws.workspace_root@ == ws@.workspace_root);
                let privs = names_view(privates@);
                assert forall|p: Seq<u8>| #[trigger] names_contain(privs, p) implies priv_entry_ok(
                    ws@,
                    p,
                ) by {
                    let t = choose|t: int| 0 <= t < privs.len() && privs[t] == p;
                    assert(privs[t] == (#[trigger] privates@[t])@);
                }
                assert(private_paths_ok(ws@, privs));
                assert(excl_ok(ws@, dws, d2c, names_view(excl@)));
            }
            exclude_members(&mut doc, &excl);
            proof {
                excl_used = Option::Some(names_view(excl@));
            }
        }
        let mutated = crate::document::serialize(&doc);
        let path = crate::strip::copy_bytes(&root_manifest);
        let act = Action::RegisterWrite { path, original: raw, mutated };
        proof {
            assert(doc@ == root_pipe(doc0, strip_flag, args.detach_path_deps, excl_used));
            assert(action_valid(ws@, no_dev_deps, args.detach_path_deps, dws, act@));
        }
        actions.push(act);
        proof {
            lemma_has_write_push(a2.map_values(|a: Action| a@), act@);
            lemma_lock_then_write_push(ws@, a2.map_values(|a: Action| a@), act@);
            assert(actions@.map_values(|a: Action| a@) =~= a2.map_values(|a: Action| a@).push(
                act@,
            ));
            assert forall|k: int|
                0 <= k < actions@.len() implies action_valid(
                ws@,
                no_dev_deps,
                args.detach_path_deps,
                dws,
                (#[trigger] actions@[k])@,
            ) by {
                if k < a2.len() {
                    assert(actions@[k] == a2[k]);
                }
            }
            assert(has_write_for(
                actions@.map_values(|a: Action| a@),
                root_manifest_path(ws@.workspace_root),
            )) by {
                assert(actions@.map_values(|a: Action| a@)[actions@.len() - 1] == act@);
            }
        }
    }
    // the workspace lockfile is registered so the resolution step's rewrite
    // is undone as well
    match &ws.root_lockfile {
        Some(c) => {
            let ghost a3 = actions@;
            let p = make_root_lock_path(&ws.workspace_root);
            let act = Action::RegisterKeep { path: p, contents: crate::strip::copy_bytes(c) };
            proof {
                assert(action_valid(ws@, no_dev_deps, args.detach_path_deps, dws, act@));
            }
            actions.push(act);
            proof {
                lemma_has_write_push(a3.map_values(|a: Action| a@), act@);
                lemma_lock_then_write_push(ws@, a3.map_values(|a: Action| a@), act@);
                assert(actions@.map_values(|a: Action| a@) =~= a3.map_values(
                    |a: Action| a@,
                ).push(act@));
                assert forall|k: int|
                    0 <= k < actions@.len() implies action_valid(
                    ws@,
                    no_dev_deps,
                    args.detach_path_deps,
                    dws,
                    (#[trigger] actions@[k])@,
                ) by {
                    if k < a3.len() {
                        assert(actions@[k] == a3[k]);
                    }
                }
            }
        },
        None => {},
    }
    proof {
        let actionsv = actions@.map_values(|a: Action| a@);
        let rootp = root_manifest_path(ws@.workspace_root);
        if (no_dev_deps || dws) && !args.no_private && (exists|i2: int|
            0 <= i2 < ws@.packages.len() && #[trigger] contains_id(ids@, i2) && ws@.packages[
                i2
            ].manifest_path == rootp) {
            let i2 = choose|i2: int|
                0 <= i2 < ws@.packages.len() && #[trigger] contains_id(ids@, i2) && ws@.packages[
                    i2
                ].manifest_path == rootp;
            let t = choose|t: int| 0 <= t < ids@.len() && #[trigger] ids@[t] as int == i2;
            assert(idsv[t] as int == i2);
            assert(has_write_for(actionsv, rootp));
        }
        if args.no_private && no_dev_deps && (exists|i2: int|
            0 <= i2 < ws@.packages.len() && #[trigger] contains_id(ids@, i2) && ws@.packages[
                i2
            ].manifest_path == rootp) {
            let i2 = choose|i2: int|
                0 <= i2 < ws@.packages.len() && #[trigger] contains_id(ids@, i2) && ws@.packages[
                    i2
                ].manifest_path == rootp;
            let t = choose|t: int| 0 <= t < ids@.len() && #[trigger] ids@[t] as int == i2;
            assert(idsv[t] as int == i2);
            assert(has_root_crate);
            assert(has_write_for(actionsv, rootp));
        }
        if args.no_private && ws.cargo_version >= 39 && (exists|i2: int|
            0 <= i2 < ws@.packages.len() && !(#[trigger] ws@.packages[i2]).publish
                && ws@.packages[i2].manifest_path != rootp) {
            let i2 = choose|i2: int|
                0 <= i2 < ws@.packages.len() && !(#[trigger] ws@.packages[i2]).publish
                    && ws@.packages[i2].manifest_path != rootp;
            assert(privates@.len() > 0);
            assert(has_write_for(actionsv, rootp));
        }
        assert(plan_valid(
            ws@,
            args.no_private,
            args.detach_path_deps,
            no_dev_deps,
            ids@,
            actionsv,
            detach_workspace,
        ));
    }
    Ok(Plan { actions, ids, detach_workspace })
}

} // verus!
