use vstd::prelude::*;

use crate::bytes::bytes_eq;
use crate::document::{
    ArrayItem, ArrayItemV, Document, DocumentV, Entry, EntryV, Section, SectionV, Value, ValueV,
    keys_view,
};
use crate::keys::{
    is_build_dependencies, is_dependencies, is_dev_dependencies, is_features, is_target,
    k_build_dependencies, k_dependencies, k_dev_dependencies, k_features, k_target,
};

verus! {

// ---------------------------------------------------------------------------
// Removing development-dependency sections.
//
// The operation removes the development-dependency section at the root and
// inside every per-target section, then prunes, from every feature list, the
// entries that name a dependency which occurred only in a removed section.
// A dependency that also occurs in a retained section keeps its feature
// entries.
// ---------------------------------------------------------------------------

/// A header path that lies inside a development-dependency table.
pub open spec fn is_dev_path(path: Seq<Seq<u8>>) -> bool {
    ||| (path.len() >= 1 && path[0] == k_dev_dependencies())
    ||| (path.len() >= 3 && path[0] == k_target() && path[2] == k_dev_dependencies())
}

/// A key naming a retained dependency-like table.
pub open spec fn dep_kind_key(k: Seq<u8>) -> bool {
    k == k_dependencies() || k == k_build_dependencies()
}

/// A header path of a retained dependency table, at the root or under a
/// target.
pub open spec fn retained_table_path(path: Seq<Seq<u8>>) -> bool {
    ||| (path.len() == 1 && dep_kind_key(path[0]))
    ||| (path.len() == 3 && path[0] == k_target() && dep_kind_key(path[2]))
}

/// A header path of a single retained dependency's own section; its last key
/// is the dependency name.
pub open spec fn retained_spec_path(path: Seq<Seq<u8>>) -> bool {
    ||| (path.len() == 2 && dep_kind_key(path[0]))
    ||| (path.len() == 4 && path[0] == k_target() && dep_kind_key(path[2]))
}

/// A header path of a development-dependency table.
pub open spec fn dev_table_path(path: Seq<Seq<u8>>) -> bool {
    ||| (path.len() == 1 && path[0] == k_dev_dependencies())
    ||| (path.len() == 3 && path[0] == k_target() && path[2] == k_dev_dependencies())
}

/// A header path of a single development dependency's own section.
pub open spec fn dev_spec_path(path: Seq<Seq<u8>>) -> bool {
    ||| (path.len() == 2 && path[0] == k_dev_dependencies())
    ||| (path.len() == 4 && path[0] == k_target() && path[2] == k_dev_dependencies())
}

/// The path of the feature-definition section.
pub open spec fn is_features_path(path: Seq<Seq<u8>>) -> bool {
    path.len() == 1 && path[0] == k_features()
}

/// One section's contribution of a dependency name through its entry keys.
pub open spec fn sec_has_entry_name(s: SectionV, n: Seq<u8>) -> bool {
    exists|j: int|
        0 <= j < s.entries.len() && (#[trigger] s.entries[j]).keys.len() > 0
            && s.entries[j].keys[0] == n
}

/// The name occurs in some retained dependency-like section.
pub open spec fn in_retained(d: DocumentV, n: Seq<u8>) -> bool {
    exists|i: int|
        0 <= i < d.sections.len() && {
            let s = #[trigger] d.sections[i];
            (retained_table_path(s.path) && sec_has_entry_name(s, n)) || (retained_spec_path(
                s.path,
            ) && s.path.last() == n)
        }
}

/// The name occurs in some development-dependency section.
pub open spec fn in_removed(d: DocumentV, n: Seq<u8>) -> bool {
    exists|i: int|
        0 <= i < d.sections.len() && {
            let s = #[trigger] d.sections[i];
            (dev_table_path(s.path) && sec_has_entry_name(s, n)) || (dev_spec_path(s.path)
                && s.path.last() == n)
        }
}

/// The name occurred only in removed sections, so its feature references go.
pub open spec fn is_removable(d: DocumentV, n: Seq<u8>) -> bool {
    in_removed(d, n) && !in_retained(d, n)
}

/// The offset of the first slash at or after `i`.
pub open spec fn first_slash_from(s: Seq<u8>, i: int) -> Option<int>
    decreases s.len() - i,
{
    if i < 0 || i >= s.len() {
        Option::None
    } else if s[i] == '/' as u8 {
        Option::Some(i)
    } else {
        first_slash_from(s, i + 1)
    }
}

/// The dependency name in a feature entry of the form `name/feature`.
pub open spec fn feature_item_name(it: ArrayItemV) -> Option<Seq<u8>> {
    match it.sval {
        Option::Some(s) => match first_slash_from(s, 0) {
            Option::Some(k) => Option::Some(s.take(k)),
            Option::None => Option::None,
        },
        Option::None => Option::None,
    }
}

/// A feature-list element that must be pruned.
pub open spec fn drop_feature_item(d: DocumentV, it: ArrayItemV) -> bool {
    match feature_item_name(it) {
        Option::Some(n) => is_removable(d, n),
        Option::None => false,
    }
}

/// Feature-list elements with the pruned ones removed.
pub open spec fn prune_items(d: DocumentV, items: Seq<ArrayItemV>) -> Seq<ArrayItemV>
    decreases items.len(),
{
    if items.len() == 0 {
        Seq::empty()
    } else {
        prune_items(d, items.drop_last()) + (if drop_feature_item(d, items.last()) {
            Seq::empty()
        } else {
            seq![items.last()]
        })
    }
}

/// A value with its feature list pruned; non-array values are untouched.
pub open spec fn prune_value(d: DocumentV, v: ValueV) -> ValueV {
    match v {
        ValueV::Array { open, items, close } => ValueV::Array {
            open,
            items: prune_items(d, items),
            close,
        },
        _ => v,
    }
}

/// A feature-definition entry with its list pruned.
pub open spec fn prune_entry(d: DocumentV, e: EntryV) -> EntryV {
    EntryV { value: prune_value(d, e.value), ..e }
}

/// A retained section after the operation: feature sections are pruned,
/// every other section is untouched.
pub open spec fn prune_section(d: DocumentV, s: SectionV) -> SectionV {
    if is_features_path(s.path) {
        SectionV { entries: s.entries.map_values(|e: EntryV| prune_entry(d, e)), ..s }
    } else {
        s
    }
}

/// A prologue entry survives unless it introduces a development-dependency
/// key at the top level.
pub open spec fn keep_prologue_entry(e: EntryV) -> bool {
    !(e.keys.len() > 0 && e.keys[0] == k_dev_dependencies())
}

pub open spec fn strip_prologue(es: Seq<EntryV>) -> Seq<EntryV>
    decreases es.len(),
{
    if es.len() == 0 {
        Seq::empty()
    } else {
        strip_prologue(es.drop_last()) + (if keep_prologue_entry(es.last()) {
            seq![es.last()]
        } else {
            Seq::empty()
        })
    }
}

pub open spec fn strip_sections(d: DocumentV, ss: Seq<SectionV>) -> Seq<SectionV>
    decreases ss.len(),
{
    if ss.len() == 0 {
        Seq::empty()
    } else {
        strip_sections(d, ss.drop_last()) + (if is_dev_path(ss.last().path) {
            Seq::empty()
        } else {
            seq![prune_section(d, ss.last())]
        })
    }
}

/// The whole operation as a function of the document.
pub open spec fn strip_dev(d: DocumentV) -> DocumentV {
    DocumentV {
        prologue: strip_prologue(d.prologue),
        sections: strip_sections(d, d.sections),
        trailing: d.trailing,
    }
}

// ---------------------------------------------------------------------------
// Step lemmas for the recursive functions above.
// ---------------------------------------------------------------------------

proof fn lemma_prune_items_take_step(d: DocumentV, items: Seq<ArrayItemV>, i: int)
    requires
        0 <= i < items.len(),
    ensures
        prune_items(d, items.take(i + 1)) == prune_items(d, items.take(i)) + (if drop_feature_item(
            d,
            items[i],
        ) {
            Seq::<ArrayItemV>::empty()
        } else {
            seq![items[i]]
        }),
{
    assert(items.take(i + 1).drop_last() =~= items.take(i));
    assert(items.take(i + 1).last() == items[i]);
}

proof fn lemma_strip_prologue_take_step(es: Seq<EntryV>, i: int)
    requires
        0 <= i < es.len(),
    ensures
        strip_prologue(es.take(i + 1)) == strip_prologue(es.take(i)) + (if keep_prologue_entry(
            es[i],
        ) {
            seq![es[i]]
        } else {
            Seq::<EntryV>::empty()
        }),
{
    assert(es.take(i + 1).drop_last() =~= es.take(i));
    assert(es.take(i + 1).last() == es[i]);
}

proof fn lemma_strip_sections_take_step(d: DocumentV, ss: Seq<SectionV>, i: int)
    requires
        0 <= i < ss.len(),
    ensures
        strip_sections(d, ss.take(i + 1)) == strip_sections(d, ss.take(i)) + (if is_dev_path(
            ss[i].path,
        ) {
            Seq::<SectionV>::empty()
        } else {
            seq![prune_section(d, ss[i])]
        }),
{
    assert(ss.take(i + 1).drop_last() =~= ss.take(i));
    assert(ss.take(i + 1).last() == ss[i]);
}

// ---------------------------------------------------------------------------
// Name collection.
// ---------------------------------------------------------------------------

pub open spec fn names_view(ns: Seq<Vec<u8>>) -> Seq<Seq<u8>> {
    ns.map_values(|v: Vec<u8>| v@)
}

pub open spec fn names_contain(ns: Seq<Seq<u8>>, n: Seq<u8>) -> bool {
    exists|i: int| 0 <= i < ns.len() && ns[i] == n
}

pub(crate) proof fn lemma_names_push(ns: Seq<Seq<u8>>, m: Seq<u8>)
    ensures
        forall|n: Seq<u8>|
            #[trigger] names_contain(ns.push(m), n) == (names_contain(ns, n) || n == m),
{
    assert forall|n: Seq<u8>|
        #[trigger] names_contain(ns.push(m), n) == (names_contain(ns, n) || n == m) by {
        if names_contain(ns.push(m), n) {
            let i = choose|i: int| 0 <= i < ns.push(m).len() && ns.push(m)[i] == n;
            if i < ns.len() {
                assert(ns[i] == n);
                assert(names_contain(ns, n));
            } else {
                assert(n == m);
            }
        }
        if names_contain(ns, n) {
            let i = choose|i: int| 0 <= i < ns.len() && ns[i] == n;
            assert(ns.push(m)[i] == n);
            assert(names_contain(ns.push(m), n));
        }
        if n == m {
            assert(ns.push(m)[ns.len() as int] == n);
            assert(names_contain(ns.push(m), n));
        }
    }
}

pub(crate) fn copy_bytes(b: &Vec<u8>) -> (v: Vec<u8>)
    ensures
        v@ == b@,
{
    vstd::slice::slice_to_vec(b.as_slice())
}

/// True iff the collection holds the given name.
pub(crate) fn names_has(ns: &Vec<Vec<u8>>, k: &[u8]) -> (r: bool)
    ensures
        r == names_contain(names_view(ns@), k@),
{
    let mut i: usize = 0;
    while i < ns.len()
        invariant
            i <= ns@.len(),
            forall|j: int| 0 <= j < i ==> names_view(ns@)[j] != k@,
        decreases ns@.len() - i,
    {
        if bytes_eq(ns[i].as_slice(), k) {
            assert(names_view(ns@)[i as int] == k@);
            return true;
        }
        i += 1;
    }
    false
}

// Executable classification of header paths.

pub(crate) fn path_is_dev(path: &Vec<Vec<u8>>) -> (r: bool)
    ensures
        r == is_dev_path(keys_view(*path)),
{
    if path.len() >= 1 && is_dev_dependencies(path[0].as_slice()) {
        return true;
    }
    if path.len() >= 3 && is_target(path[0].as_slice()) && is_dev_dependencies(
        path[2].as_slice(),
    ) {
        return true;
    }
    false
}

fn key_is_dep_kind(k: &Vec<u8>) -> (r: bool)
    ensures
        r == dep_kind_key(k@),
{
    is_dependencies(k.as_slice()) || is_build_dependencies(k.as_slice())
}

pub(crate) fn path_retained_table(path: &Vec<Vec<u8>>) -> (r: bool)
    ensures
        r == retained_table_path(keys_view(*path)),
{
    (path.len() == 1 && key_is_dep_kind(&path[0])) || (path.len() == 3 && is_target(
        path[0].as_slice(),
    ) && key_is_dep_kind(&path[2]))
}

pub(crate) fn path_retained_spec(path: &Vec<Vec<u8>>) -> (r: bool)
    ensures
        r == retained_spec_path(keys_view(*path)),
{
    (path.len() == 2 && key_is_dep_kind(&path[0])) || (path.len() == 4 && is_target(
        path[0].as_slice(),
    ) && key_is_dep_kind(&path[2]))
}

fn path_dev_table(path: &Vec<Vec<u8>>) -> (r: bool)
    ensures
        r == dev_table_path(keys_view(*path)),
{
    (path.len() == 1 && is_dev_dependencies(path[0].as_slice())) || (path.len() == 3 && is_target(
        path[0].as_slice(),
    ) && is_dev_dependencies(path[2].as_slice()))
}

fn path_dev_spec(path: &Vec<Vec<u8>>) -> (r: bool)
    ensures
        r == dev_spec_path(keys_view(*path)),
{
    (path.len() == 2 && is_dev_dependencies(path[0].as_slice())) || (path.len() == 4 && is_target(
        path[0].as_slice(),
    ) && is_dev_dependencies(path[2].as_slice()))
}

fn path_features(path: &Vec<Vec<u8>>) -> (r: bool)
    ensures
        r == is_features_path(keys_view(*path)),
{
    path.len() == 1 && is_features(path[0].as_slice())
}

// Bounded variants of the occurrence predicates, for loop invariants.

pub open spec fn in_retained_upto(d: DocumentV, n: Seq<u8>, hi: int) -> bool {
    exists|i: int|
        0 <= i < hi <= d.sections.len() && {
            let s = #[trigger] d.sections[i];
            (retained_table_path(s.path) && sec_has_entry_name(s, n)) || (retained_spec_path(
                s.path,
            ) && s.path.last() == n)
        }
}

pub open spec fn in_removed_upto(d: DocumentV, n: Seq<u8>, hi: int) -> bool {
    exists|i: int|
        0 <= i < hi <= d.sections.len() && {
            let s = #[trigger] d.sections[i];
            (dev_table_path(s.path) && sec_has_entry_name(s, n)) || (dev_spec_path(s.path)
                && s.path.last() == n)
        }
}

pub open spec fn sec_has_entry_name_upto(s: SectionV, n: Seq<u8>, hi: int) -> bool {
    exists|j: int|
        0 <= j < hi <= s.entries.len() && (#[trigger] s.entries[j]).keys.len() > 0
            && s.entries[j].keys[0] == n
}

/// Collects, from every dependency-like section, the names declared in
/// retained sections and the names declared in development sections.
fn collect_names(doc: &Document) -> (r: (Vec<Vec<u8>>, Vec<Vec<u8>>))
    ensures
        forall|n: Seq<u8>| #[trigger] names_contain(names_view(r.0@), n) == in_retained(doc@, n),
        forall|n: Seq<u8>| #[trigger] names_contain(names_view(r.1@), n) == in_removed(doc@, n),
{
    let ghost d = doc@;
    let mut retained: Vec<Vec<u8>> = Vec::new();
    let mut removed: Vec<Vec<u8>> = Vec::new();
    let mut i: usize = 0;
    while i < doc.sections.len()
        invariant
            i <= doc.sections@.len(),
            d == doc@,
            forall|n: Seq<u8>|
                #[trigger] names_contain(names_view(retained@), n) == in_retained_upto(
                    d,
                    n,
                    i as int,
                ),
            forall|n: Seq<u8>|
                #[trigger] names_contain(names_view(removed@), n) == in_removed_upto(
                    d,
                    n,
                    i as int,
                ),
        decreases doc.sections@.len() - i,
    {
        let s = &doc.sections[i];
        let ghost sv = d.sections[i as int];
        proof {
            assert(sv == s@);
        }
        let rt = path_retained_table(&s.path);
        let rs = path_retained_spec(&s.path);
        let dt = path_dev_table(&s.path);
        let ds = path_dev_spec(&s.path);
        if rt || dt {
            let mut j: usize = 0;
            while j < s.entries.len()
                invariant
                    j <= s.entries@.len(),
                    d == doc@,
                    i < doc.sections@.len(),
                    sv == d.sections[i as int],
                    sv == doc.sections@[i as int]@,
                    s == &doc.sections[i as int],
                    rt == retained_table_path(sv.path),
                    dt == dev_table_path(sv.path),
                    rt || dt,
                    forall|n: Seq<u8>|
                        #[trigger] names_contain(names_view(retained@), n) == (in_retained_upto(
                            d,
                            n,
                            i as int,
                        ) || (rt && sec_has_entry_name_upto(sv, n, j as int))),
                    forall|n: Seq<u8>|
                        #[trigger] names_contain(names_view(removed@), n) == (in_removed_upto(
                            d,
                            n,
                            i as int,
                        ) || (dt && sec_has_entry_name_upto(sv, n, j as int))),
                decreases s.entries@.len() - j,
            {
                let e = &s.entries[j];
                if e.keys.len() > 0 {
                    let m = copy_bytes(&e.keys[0]);
                    proof {
                        assert(sv.entries[j as int] == e@);
                        assert(sv.entries[j as int].keys[0] == m@);
                        if rt {
                            lemma_names_push(names_view(retained@), m@);
                            assert(names_view(retained@.push(m)) =~= names_view(retained@).push(
                                m@,
                            ));
                        } else {
                            lemma_names_push(names_view(removed@), m@);
                            assert(names_view(removed@.push(m)) =~= names_view(removed@).push(m@));
                        }
                        assert forall|n: Seq<u8>|
                            #[trigger] sec_has_entry_name_upto(sv, n, j as int + 1) == (
                            sec_has_entry_name_upto(sv, n, j as int) || n == m@) by {
                            if sec_has_entry_name_upto(sv, n, j as int + 1) {
                                let t = choose|t: int|
                                    0 <= t < j as int + 1 && (#[trigger] sv.entries[t]).keys.len()
                                        > 0 && sv.entries[t].keys[0] == n;
                                if t < j as int {
                                    assert(sec_has_entry_name_upto(sv, n, j as int));
                                }
                            }
                            if sec_has_entry_name_upto(sv, n, j as int) {
                                let t = choose|t: int|
                                    0 <= t < j as int && (#[trigger] sv.entries[t]).keys.len() > 0
                                        && sv.entries[t].keys[0] == n;
                                assert(sec_has_entry_name_upto(sv, n, j as int + 1));
                            }
                            if n == m@ {
                                assert((sv.entries[j as int]).keys.len() > 0 && sv.entries[
                                    j as int
                                ].keys[0] == n);
                                assert(sec_has_entry_name_upto(sv, n, j as int + 1));
                            }
                        }
                    }
                    if rt {
                        retained.push(m);
                    } else {
                        removed.push(m);
                    }
                } else {
                    proof {
                        assert forall|n: Seq<u8>|
                            #[trigger] sec_has_entry_name_upto(sv, n, j as int + 1)
                                == sec_has_entry_name_upto(sv, n, j as int) by {
                            if sec_has_entry_name_upto(sv, n, j as int + 1) {
                                let t = choose|t: int|
                                    0 <= t < j as int + 1 && (#[trigger] sv.entries[t]).keys.len()
                                        > 0 && sv.entries[t].keys[0] == n;
                                assert(sv.entries[j as int] == doc.sections@[i as int]@.entries[
                                    j as int
                                ]);
                                if t < j as int {
                                    assert(sec_has_entry_name_upto(sv, n, j as int));
                                }
                            }
                            if sec_has_entry_name_upto(sv, n, j as int) {
                                let t = choose|t: int|
                                    0 <= t < j as int && (#[trigger] sv.entries[t]).keys.len() > 0
                                        && sv.entries[t].keys[0] == n;
                                assert(sec_has_entry_name_upto(sv, n, j as int + 1));
                            }
                        }
                    }
                }
                j += 1;
            }
            proof {
                assert forall|n: Seq<u8>|
                    #[trigger] sec_has_entry_name_upto(sv, n, sv.entries.len() as int)
                        == sec_has_entry_name(sv, n) by {}
                assert forall|n: Seq<u8>|
                    #[trigger] in_retained_upto(d, n, i as int + 1) == (in_retained_upto(
                        d,
                        n,
                        i as int,
                    ) || (rt && sec_has_entry_name(sv, n))) by {
                    lemma_retained_upto_unfold(d, n, i as int);
                    if rt {
                        assert(!retained_spec_path(sv.path)) by {
                            assert(retained_table_path(sv.path));
                        }
                    }
                }
                assert forall|n: Seq<u8>|
                    #[trigger] in_removed_upto(d, n, i as int + 1) == (in_removed_upto(
                        d,
                        n,
                        i as int,
                    ) || (dt && sec_has_entry_name(sv, n))) by {
                    lemma_removed_upto_unfold(d, n, i as int);
                }
            }
        } else if rs || ds {
            let klen = s.path.len();
            let m = copy_bytes(&s.path[klen - 1]);
            proof {
                assert(sv.path.last() == m@);
                if rs {
                    lemma_names_push(names_view(retained@), m@);
                    assert(names_view(retained@.push(m)) =~= names_view(retained@).push(m@));
                } else {
                    lemma_names_push(names_view(removed@), m@);
                    assert(names_view(removed@.push(m)) =~= names_view(removed@).push(m@));
                }
                assert forall|n: Seq<u8>|
                    #[trigger] in_retained_upto(d, n, i as int + 1) == (in_retained_upto(
                        d,
                        n,
                        i as int,
                    ) || (rs && n == m@)) by {
                    lemma_retained_upto_unfold(d, n, i as int);
                }
                assert forall|n: Seq<u8>|
                    #[trigger] in_removed_upto(d, n, i as int + 1) == (in_removed_upto(
                        d,
                        n,
                        i as int,
                    ) || (ds && n == m@)) by {
                    lemma_removed_upto_unfold(d, n, i as int);
                }
            }
            if rs {
                retained.push(m);
            } else {
                removed.push(m);
            }
        } else {
            proof {
                assert forall|n: Seq<u8>|
                    #[trigger] in_retained_upto(d, n, i as int + 1) == in_retained_upto(
                        d,
                        n,
                        i as int,
                    ) by {
                    lemma_retained_upto_unfold(d, n, i as int);
                }
                assert forall|n: Seq<u8>|
                    #[trigger] in_removed_upto(d, n, i as int + 1) == in_removed_upto(
                        d,
                        n,
                        i as int,
                    ) by {
                    lemma_removed_upto_unfold(d, n, i as int);
                }
            }
        }
        i += 1;
    }
    proof {
        assert forall|n: Seq<u8>|
            #[trigger] in_retained_upto(d, n, d.sections.len() as int) == in_retained(d, n) by {}
        assert forall|n: Seq<u8>|
            #[trigger] in_removed_upto(d, n, d.sections.len() as int) == in_removed(d, n) by {}
    }
    (retained, removed)
}

proof fn lemma_retained_upto_unfold(d: DocumentV, n: Seq<u8>, i: int)
    requires
        0 <= i < d.sections.len(),
    ensures
        in_retained_upto(d, n, i + 1) == (in_retained_upto(d, n, i) || {
            let s = d.sections[i];
            (retained_table_path(s.path) && sec_has_entry_name(s, n)) || (retained_spec_path(
                s.path,
            ) && s.path.last() == n)
        }),
{
    let s = d.sections[i];
    if in_retained_upto(d, n, i + 1) {
        let t = choose|t: int|
            0 <= t < i + 1 && {
                let s = #[trigger] d.sections[t];
                (retained_table_path(s.path) && sec_has_entry_name(s, n)) || (retained_spec_path(
                    s.path,
                ) && s.path.last() == n)
            };
        if t < i {
            assert(in_retained_upto(d, n, i));
        }
    }
    if in_retained_upto(d, n, i) {
        let t = choose|t: int|
            0 <= t < i && {
                let s = #[trigger] d.sections[t];
                (retained_table_path(s.path) && sec_has_entry_name(s, n)) || (retained_spec_path(
                    s.path,
                ) && s.path.last() == n)
            };
        assert(in_retained_upto(d, n, i + 1));
    }
    if (retained_table_path(s.path) && sec_has_entry_name(s, n)) || (retained_spec_path(s.path)
        && s.path.last() == n) {
        assert(in_retained_upto(d, n, i + 1));
    }
}

proof fn lemma_removed_upto_unfold(d: DocumentV, n: Seq<u8>, i: int)
    requires
        0 <= i < d.sections.len(),
    ensures
        in_removed_upto(d, n, i + 1) == (in_removed_upto(d, n, i) || {
            let s = d.sections[i];
            (dev_table_path(s.path) && sec_has_entry_name(s, n)) || (dev_spec_path(s.path)
                && s.path.last() == n)
        }),
{
    let s = d.sections[i];
    if in_removed_upto(d, n, i + 1) {
        let t = choose|t: int|
            0 <= t < i + 1 && {
                let s = #[trigger] d.sections[t];
                (dev_table_path(s.path) && sec_has_entry_name(s, n)) || (dev_spec_path(s.path)
                    && s.path.last() == n)
            };
        if t < i {
            assert(in_removed_upto(d, n, i));
        }
    }
    if in_removed_upto(d, n, i) {
        let t = choose|t: int|
            0 <= t < i && {
                let s = #[trigger] d.sections[t];
                (dev_table_path(s.path) && sec_has_entry_name(s, n)) || (dev_spec_path(s.path)
                    && s.path.last() == n)
            };
        assert(in_removed_upto(d, n, i + 1));
    }
    if (dev_table_path(s.path) && sec_has_entry_name(s, n)) || (dev_spec_path(s.path)
        && s.path.last() == n) {
        assert(in_removed_upto(d, n, i + 1));
    }
}

/// Finds the first slash in a byte sequence.
fn find_slash(s: &[u8]) -> (r: Option<usize>)
    ensures
        match r {
            Option::Some(k) => first_slash_from(s@, 0) == Option::Some(k as int) && k < s@.len(),
            Option::None => first_slash_from(s@, 0) is None,
        },
{
    let mut i: usize = 0;
    while i < s.len()
        invariant
            i <= s@.len(),
            first_slash_from(s@, 0) == first_slash_from(s@, i as int),
        decreases s@.len() - i,
    {
        if s[i] == '/' as u8 {
            return Some(i);
        }
        i += 1;
    }
    None
}

// ---------------------------------------------------------------------------
// The operation itself.
// ---------------------------------------------------------------------------

/// Removes the pruned elements from one feature list.
fn prune_feature_items(
    Ghost(d): Ghost<DocumentV>,
    retained: &Vec<Vec<u8>>,
    removed: &Vec<Vec<u8>>,
    items: Vec<ArrayItem>,
) -> (r: Vec<ArrayItem>)
    requires
        forall|n: Seq<u8>| #[trigger] names_contain(names_view(retained@), n) == in_retained(d, n),
        forall|n: Seq<u8>| #[trigger] names_contain(names_view(removed@), n) == in_removed(d, n),
    ensures
        r@.map_values(|it: ArrayItem| it@) == prune_items(
            d,
            items@.map_values(|it: ArrayItem| it@),
        ),
{
    let ghost itemsv = items@.map_values(|it: ArrayItem| it@);
    let mut src = items;
    let n0 = src.len();
    proof {
        assert forall|i: int| 0 <= i < src@.len() implies (#[trigger] src@[i])@ == itemsv[i] by {
            assert(itemsv[i] == src@[i]@);
        }
    }
    let mut out: Vec<ArrayItem> = Vec::new();
    let mut k: usize = 0;
    while src.len() > 0
        invariant
            k + src@.len() == itemsv.len(),
            itemsv.len() == n0,
            forall|i: int| 0 <= i < src@.len() ==> (#[trigger] src@[i])@ == itemsv[k + i],
            out@.map_values(|it: ArrayItem| it@) == prune_items(d, itemsv.take(k as int)),
            forall|n: Seq<u8>|
                #[trigger] names_contain(names_view(retained@), n) == in_retained(d, n),
            forall|n: Seq<u8>| #[trigger] names_contain(names_view(removed@), n) == in_removed(
                d,
                n,
            ),
        decreases src@.len(),
    {
        let ghost presrc = src@;
        let it = src.remove(0);
        proof {
            assert(it@ == itemsv[k as int]);
            assert forall|i: int| 0 <= i < src@.len() implies (#[trigger] src@[i])@ == itemsv[
                k + 1 + i
            ] by {
                assert(src@[i] == presrc[i + 1]);
            }
            lemma_prune_items_take_step(d, itemsv, k as int);
        }
        let mut dropit = false;
        match &it.sval {
            Some(sv) => {
                match find_slash(sv.as_slice()) {
                    Some(p) => {
                        let name = vstd::slice::slice_subrange(sv.as_slice(), 0, p);
                        proof {
                            assert(name@ =~= sv@.take(p as int));
                        }
                        dropit = names_has(removed, name) && !names_has(retained, name);
                        proof {
                            assert(feature_item_name(it@) == Option::Some(sv@.take(p as int)));
                            assert(dropit == drop_feature_item(d, it@));
                        }
                    },
                    None => {
                        proof {
                            assert(feature_item_name(it@) is None);
                        }
                    },
                }
            },
            None => {},
        }
        if !dropit {
            let ghost outv = out@.map_values(|x: ArrayItem| x@);
            out.push(it);
            proof {
                assert(out@.map_values(|x: ArrayItem| x@) =~= outv.push(itemsv[k as int]));
            }
        }
        k += 1;
    }
    proof {
        assert(itemsv.take(k as int) =~= itemsv);
    }
    out
}

/// Prunes every feature list in the entries of the feature section.
fn prune_feature_entries(
    Ghost(d): Ghost<DocumentV>,
    retained: &Vec<Vec<u8>>,
    removed: &Vec<Vec<u8>>,
    entries: Vec<Entry>,
) -> (r: Vec<Entry>)
    requires
        forall|n: Seq<u8>| #[trigger] names_contain(names_view(retained@), n) == in_retained(d, n),
        forall|n: Seq<u8>| #[trigger] names_contain(names_view(removed@), n) == in_removed(d, n),
    ensures
        r@.map_values(|e: Entry| e@) == entries@.map_values(|e: Entry| e@).map_values(
            |e: EntryV| prune_entry(d, e),
        ),
{
    let ghost esv = entries@.map_values(|e: Entry| e@);
    let mut src = entries;
    let n0 = src.len();
    proof {
        assert forall|i: int| 0 <= i < src@.len() implies (#[trigger] src@[i])@ == esv[i] by {
            assert(esv[i] == src@[i]@);
        }
    }
    let mut out: Vec<Entry> = Vec::new();
    let mut k: usize = 0;
    while src.len() > 0
        invariant
            k + src@.len() == esv.len(),
            esv.len() == n0,
            forall|i: int| 0 <= i < src@.len() ==> (#[trigger] src@[i])@ == esv[k + i],
            out@.map_values(|e: Entry| e@) == esv.take(k as int).map_values(
                |e: EntryV| prune_entry(d, e),
            ),
            forall|n: Seq<u8>|
                #[trigger] names_contain(names_view(retained@), n) == in_retained(d, n),
            forall|n: Seq<u8>| #[trigger] names_contain(names_view(removed@), n) == in_removed(
                d,
                n,
            ),
        decreases src@.len(),
    {
        let ghost presrc = src@;
        let e = src.remove(0);
        proof {
            assert(e@ == esv[k as int]);
            assert forall|i: int| 0 <= i < src@.len() implies (#[trigger] src@[i])@ == esv[
                k + 1 + i
            ] by {
                assert(src@[i] == presrc[i + 1]);
            }
        }
        let Entry { lead, key_raw, keys, value, line_end } = e;
        let newvalue = match value {
            Value::Array { open, items, close } => {
                let pruned = prune_feature_items(Ghost(d), retained, removed, items);
                Value::Array { open, items: pruned, close }
            },
            other => other,
        };
        let ghost outv = out@.map_values(|x: Entry| x@);
        let ne = Entry { lead, key_raw, keys, value: newvalue, line_end };
        proof {
            assert(ne@ =~= prune_entry(d, esv[k as int]));
        }
        out.push(ne);
        proof {
            assert(out@.map_values(|x: Entry| x@) =~= outv.push(prune_entry(d, esv[k as int])));
            assert(esv.take(k as int + 1).map_values(|x: EntryV| prune_entry(d, x)) =~= esv.take(
                k as int,
            ).map_values(|x: EntryV| prune_entry(d, x)).push(prune_entry(d, esv[k as int])));
        }
        k += 1;
    }
    proof {
        assert(esv.take(k as int) =~= esv);
    }
    out
}

/// Removes the development-dependency sections, at the root and under every
/// target, and prunes from each feature list the entries that name a
/// dependency found only in the removed sections.
pub fn strip_dev_sections(doc: &mut Document)
    ensures
        final(doc)@ == strip_dev(old(doc)@),
{
    let ghost d = old(doc)@;
    let (retained, removed) = collect_names(doc);
    // top-level entries before any header
    let mut oldpro: Vec<Entry> = Vec::new();
    core::mem::swap(&mut oldpro, &mut doc.prologue);
    let mut newpro: Vec<Entry> = Vec::new();
    let ghost prov = d.prologue;
    let n0 = oldpro.len();
    proof {
        assert forall|i: int| 0 <= i < oldpro@.len() implies (#[trigger] oldpro@[i])@ == prov[
            i
        ] by {
            assert(prov[i] == oldpro@[i]@);
        }
    }
    let mut k: usize = 0;
    while oldpro.len() > 0
        invariant
            k + oldpro@.len() == prov.len(),
            prov.len() == n0,
            forall|i: int| 0 <= i < oldpro@.len() ==> (#[trigger] oldpro@[i])@ == prov[k + i],
            newpro@.map_values(|e: Entry| e@) == strip_prologue(prov.take(k as int)),
        decreases oldpro@.len(),
    {
        let ghost presrc = oldpro@;
        let e = oldpro.remove(0);
        proof {
            assert(e@ == prov[k as int]);
            assert forall|i: int| 0 <= i < oldpro@.len() implies (#[trigger] oldpro@[i])@ == prov[
                k + 1 + i
            ] by {
                assert(oldpro@[i] == presrc[i + 1]);
            }
            lemma_strip_prologue_take_step(prov, k as int);
        }
        let is_dev = e.keys.len() > 0 && is_dev_dependencies(e.keys[0].as_slice());
        proof {
            assert(is_dev == !keep_prologue_entry(prov[k as int]));
        }
        if !is_dev {
            let ghost outv = newpro@.map_values(|x: Entry| x@);
            newpro.push(e);
            proof {
                assert(newpro@.map_values(|x: Entry| x@) =~= outv.push(prov[k as int]));
            }
        }
        k += 1;
    }
    proof {
        assert(prov.take(k as int) =~= prov);
    }
    doc.prologue = newpro;
    // sections
    let mut olds: Vec<Section> = Vec::new();
    core::mem::swap(&mut olds, &mut doc.sections);
    let mut news: Vec<Section> = Vec::new();
    let ghost ssv = d.sections;
    let m0 = olds.len();
    proof {
        assert forall|i: int| 0 <= i < olds@.len() implies (#[trigger] olds@[i])@ == ssv[i] by {
            assert(ssv[i] == olds@[i]@);
        }
    }
    let mut t: usize = 0;
    while olds.len() > 0
        invariant
            t + olds@.len() == ssv.len(),
            ssv.len() == m0,
            forall|i: int| 0 <= i < olds@.len() ==> (#[trigger] olds@[i])@ == ssv[t + i],
            news@.map_values(|s: Section| s@) == strip_sections(d, ssv.take(t as int)),
            forall|n: Seq<u8>|
                #[trigger] names_contain(names_view(retained@), n) == in_retained(d, n),
            forall|n: Seq<u8>| #[trigger] names_contain(names_view(removed@), n) == in_removed(
                d,
                n,
            ),
        decreases olds@.len(),
    {
        let ghost presrc = olds@;
        let s = olds.remove(0);
        proof {
            assert(s@ == ssv[t as int]);
            assert forall|i: int| 0 <= i < olds@.len() implies (#[trigger] olds@[i])@ == ssv[
                t + 1 + i
            ] by {
                assert(olds@[i] == presrc[i + 1]);
            }
            lemma_strip_sections_take_step(d, ssv, t as int);
        }
        if path_is_dev(&s.path) {
            // the whole section is removed
        } else if path_features(&s.path) {
            let Section { lead, header, path, is_array, entries } = s;
            let newentries = prune_feature_entries(Ghost(d), &retained, &removed, entries);
            let ns = Section { lead, header, path, is_array, entries: newentries };
            let ghost outv = news@.map_values(|x: Section| x@);
            proof {
                assert(ns@ =~= prune_section(d, ssv[t as int]));
            }
            news.push(ns);
            proof {
                assert(news@.map_values(|x: Section| x@) =~= outv.push(
                    prune_section(d, ssv[t as int]),
                ));
            }
        } else {
            let ghost outv = news@.map_values(|x: Section| x@);
            proof {
                assert(prune_section(d, ssv[t as int]) == ssv[t as int]);
            }
            news.push(s);
            proof {
                assert(news@.map_values(|x: Section| x@) =~= outv.push(
                    prune_section(d, ssv[t as int]),
                ));
            }
        }
        t += 1;
    }
    proof {
        assert(ssv.take(t as int) =~= ssv);
    }
    doc.sections = news;
    proof {
        assert(final(doc)@ =~= strip_dev(d));
    }
}

// ---------------------------------------------------------------------------
// Laws of the operation.
// ---------------------------------------------------------------------------

proof fn lemma_strip_sections_contains(d: DocumentV, ss: Seq<SectionV>, i: int)
    requires
        0 <= i < ss.len(),
        !is_dev_path(ss[i].path),
    ensures
        strip_sections(d, ss).contains(prune_section(d, ss[i])),
    decreases ss.len(),
{
    if i == ss.len() - 1 {
        let sub = strip_sections(d, ss.drop_last());
        assert(strip_sections(d, ss) == sub + seq![prune_section(d, ss.last())]);
        assert(strip_sections(d, ss)[sub.len() as int] == prune_section(d, ss[i]));
    } else {
        lemma_strip_sections_contains(d, ss.drop_last(), i);
        let sub = strip_sections(d, ss.drop_last());
        let j = choose|j: int| 0 <= j < sub.len() && sub[j] == prune_section(d, ss[i]);
        assert(strip_sections(d, ss)[j] == prune_section(d, ss[i]));
    }
}

/// Removing development sections preserves every entry of a retained
/// dependency section, and prunes no feature entry that names a dependency
/// still declared in a retained section: such a name is not removable, every
/// feature entry `name/feature` built on it survives pruning, and every
/// retained dependency table reappears unchanged in the result.
pub proof fn lemma_dev_removal_preserves_nondev(d: DocumentV, n: Seq<u8>)
    requires
        in_retained(d, n),
    ensures
        !is_removable(d, n),
        forall|it: ArrayItemV|
            #[trigger] feature_item_name(it) == Option::Some(n) ==> !drop_feature_item(d, it),
        forall|i: int|
            0 <= i < d.sections.len() && retained_table_path(
                (#[trigger] d.sections[i]).path,
            ) ==> strip_dev(d).sections.contains(d.sections[i]),
{
    assert forall|i: int|
        0 <= i < d.sections.len() && retained_table_path(
            (#[trigger] d.sections[i]).path,
        ) implies strip_dev(d).sections.contains(d.sections[i]) by {
        let s = d.sections[i];
        assert(!is_dev_path(s.path)) by {
            assert(s.path[0] == k_dependencies() || s.path[0] == k_build_dependencies()
                || s.path[0] == k_target());
        }
        assert(!is_features_path(s.path));
        assert(prune_section(d, s) == s);
        lemma_strip_sections_contains(d, d.sections, i);
    }
}

/// Feature pruning is exact: in a two-element feature list whose first
/// element names a dependency found only in removed sections and whose
/// second names a dependency still retained, pruning keeps exactly the
/// second element.
pub proof fn lemma_feature_pruning_exact(
    d: DocumentV,
    n1: Seq<u8>,
    n2: Seq<u8>,
    it1: ArrayItemV,
    it2: ArrayItemV,
)
    requires
        in_removed(d, n1),
        !in_retained(d, n1),
        in_retained(d, n2),
        feature_item_name(it1) == Option::Some(n1),
        feature_item_name(it2) == Option::Some(n2),
    ensures
        prune_items(d, seq![it1, it2]) =~= seq![it2],
{
    let items = seq![it1, it2];
    assert(drop_feature_item(d, it1));
    assert(!drop_feature_item(d, it2));
    assert(items.drop_last() =~= seq![it1]);
    assert(seq![it1].drop_last() =~= Seq::<ArrayItemV>::empty());
    assert(prune_items(d, Seq::<ArrayItemV>::empty()) =~= Seq::<ArrayItemV>::empty());
    assert(prune_items(d, seq![it1]) == prune_items(d, seq![it1].drop_last())
        + Seq::<ArrayItemV>::empty());
    assert(prune_items(d, seq![it1]) =~= Seq::<ArrayItemV>::empty());
    assert(prune_items(d, items) =~= seq![it2]);
}

} // verus!
