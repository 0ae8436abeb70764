use vstd::prelude::*;

use crate::cli::DetachPathDeps;
use crate::document::{
    Document, DocumentV, Entry, EntryV, Section, SectionV, TableItem, TableItemV, Value, ValueV,
    keys_view,
};
use crate::keys::{is_dependencies, is_git, is_path, is_version, is_workspace, k_dependencies,
    k_git, k_path, k_version, k_workspace};
use crate::strip::{path_retained_spec, path_retained_table, retained_spec_path,
    retained_table_path};
use crate::version::{check_exact_req, is_exact_req};

verus! {

// ---------------------------------------------------------------------------
// Detaching local-path references from dependency specifications.
//
// For every dependency specification in a root, per-target or workspace-level
// dependency table that is not a development-dependency table: when the
// specification carries a version requirement, its `path` key is removed —
// unless the mode spares exact full pins and the requirement is one; when it
// carries no version but a `git` reference, `path` is removed; when it
// carries neither, it is left untouched, since the path is then its only
// source.
// ---------------------------------------------------------------------------

/// A header path of a dependency table subject to detaching.
pub open spec fn detach_table_path(path: Seq<Seq<u8>>) -> bool {
    ||| retained_table_path(path)
    ||| (path.len() == 2 && path[0] == k_workspace() && path[1] == k_dependencies())
}

/// A header path of a single dependency's own section subject to detaching.
pub open spec fn detach_spec_path(path: Seq<Seq<u8>>) -> bool {
    ||| retained_spec_path(path)
    ||| (path.len() == 3 && path[0] == k_workspace() && path[1] == k_dependencies())
}

/// An inline-table pair holding exactly the given key.
pub open spec fn titem_has_key(it: TableItemV, k: Seq<u8>) -> bool {
    it.keys.len() == 1 && it.keys[0] == k
}

pub open spec fn items_have_key(items: Seq<TableItemV>, k: Seq<u8>) -> bool {
    exists|i: int| 0 <= i < items.len() && titem_has_key(#[trigger] items[i], k)
}

/// The first pair holding the given key, from offset `i` on.
pub open spec fn first_item_with_key(items: Seq<TableItemV>, k: Seq<u8>, i: int) -> Option<int>
    decreases items.len() - i,
{
    if i < 0 || i >= items.len() {
        Option::None
    } else if titem_has_key(items[i], k) {
        Option::Some(i)
    } else {
        first_item_with_key(items, k, i + 1)
    }
}

/// The version requirement of the specification spares the path: the first
/// version pair holds a string that is an exact full pin.
pub open spec fn version_exempts(items: Seq<TableItemV>) -> bool {
    match first_item_with_key(items, k_version(), 0) {
        Option::Some(i) => match items[i].sval {
            Option::Some(s) => is_exact_req(s),
            Option::None => false,
        },
        Option::None => false,
    }
}

/// Whether the path key of an inline dependency specification is removed.
pub open spec fn table_removes_path(items: Seq<TableItemV>, mode: DetachPathDeps) -> bool {
    if items_have_key(items, k_version()) {
        !(mode == DetachPathDeps::SkipExact && version_exempts(items))
    } else {
        items_have_key(items, k_git())
    }
}

/// The pairs with every `path` pair removed.
pub open spec fn drop_path_items(items: Seq<TableItemV>) -> Seq<TableItemV>
    decreases items.len(),
{
    if items.len() == 0 {
        Seq::empty()
    } else {
        drop_path_items(items.drop_last()) + (if titem_has_key(items.last(), k_path()) {
            Seq::empty()
        } else {
            seq![items.last()]
        })
    }
}

/// A separator with a trailing comma removed.
pub open spec fn strip_comma(s: Seq<u8>) -> Seq<u8> {
    if s.len() > 0 && s.last() == ',' as u8 {
        s.drop_last()
    } else {
        s
    }
}

/// The last pair of a shortened inline table loses its trailing comma, so
/// the table stays well formed.
pub open spec fn fix_last_sep(items: Seq<TableItemV>) -> Seq<TableItemV> {
    if items.len() == 0 {
        items
    } else {
        items.update(
            items.len() - 1,
            TableItemV { sep: strip_comma(items.last().sep), ..items.last() },
        )
    }
}

/// One inline dependency specification after the operation.
pub open spec fn detach_items(items: Seq<TableItemV>, mode: DetachPathDeps) -> Seq<TableItemV> {
    if table_removes_path(items, mode) {
        let f = drop_path_items(items);
        if f.len() == items.len() {
            items
        } else {
            fix_last_sep(f)
        }
    } else {
        items
    }
}

pub open spec fn detach_value(v: ValueV, mode: DetachPathDeps) -> ValueV {
    match v {
        ValueV::Table { open, items, close } => ValueV::Table {
            open,
            items: detach_items(items, mode),
            close,
        },
        _ => v,
    }
}

/// One entry of a dependency table: inline-table values are treated as
/// dependency specifications, everything else is untouched.
pub open spec fn detach_dep_entry(e: EntryV, mode: DetachPathDeps) -> EntryV {
    EntryV { value: detach_value(e.value, mode), ..e }
}

// The same decision for a dependency written as its own section, whose
// entries are the specification's keys.

pub open spec fn entry_has_key(e: EntryV, k: Seq<u8>) -> bool {
    e.keys.len() == 1 && e.keys[0] == k
}

pub open spec fn entries_have_key(entries: Seq<EntryV>, k: Seq<u8>) -> bool {
    exists|i: int| 0 <= i < entries.len() && entry_has_key(#[trigger] entries[i], k)
}

pub open spec fn first_entry_with_key(entries: Seq<EntryV>, k: Seq<u8>, i: int) -> Option<int>
    decreases entries.len() - i,
{
    if i < 0 || i >= entries.len() {
        Option::None
    } else if entry_has_key(entries[i], k) {
        Option::Some(i)
    } else {
        first_entry_with_key(entries, k, i + 1)
    }
}

pub open spec fn entries_version_exempts(entries: Seq<EntryV>) -> bool {
    match first_entry_with_key(entries, k_version(), 0) {
        Option::Some(i) => match entries[i].value {
            ValueV::Scalar { sval: Option::Some(s), .. } => is_exact_req(s),
            _ => false,
        },
        Option::None => false,
    }
}

pub open spec fn entries_remove_path(entries: Seq<EntryV>, mode: DetachPathDeps) -> bool {
    if entries_have_key(entries, k_version()) {
        !(mode == DetachPathDeps::SkipExact && entries_version_exempts(entries))
    } else {
        entries_have_key(entries, k_git())
    }
}

pub open spec fn drop_path_entries(entries: Seq<EntryV>) -> Seq<EntryV>
    decreases entries.len(),
{
    if entries.len() == 0 {
        Seq::empty()
    } else {
        drop_path_entries(entries.drop_last()) + (if entry_has_key(entries.last(), k_path()) {
            Seq::empty()
        } else {
            seq![entries.last()]
        })
    }
}

pub open spec fn detach_sec_entries(entries: Seq<EntryV>, mode: DetachPathDeps) -> Seq<EntryV> {
    if entries_remove_path(entries, mode) {
        drop_path_entries(entries)
    } else {
        entries
    }
}

/// One section after the operation.
pub open spec fn detach_section(s: SectionV, mode: DetachPathDeps) -> SectionV {
    if detach_table_path(s.path) {
        SectionV { entries: s.entries.map_values(|e: EntryV| detach_dep_entry(e, mode)), ..s }
    } else if detach_spec_path(s.path) {
        SectionV { entries: detach_sec_entries(s.entries, mode), ..s }
    } else {
        s
    }
}

/// The whole operation as a function of the document.
pub open spec fn detach(d: DocumentV, mode: DetachPathDeps) -> DocumentV {
    DocumentV {
        prologue: d.prologue,
        sections: d.sections.map_values(|s: SectionV| detach_section(s, mode)),
        trailing: d.trailing,
    }
}

// ---------------------------------------------------------------------------
// Laws of the operation.
// ---------------------------------------------------------------------------

/// A dependency specification with neither a version requirement nor a git
/// reference keeps its path under either mode: the path is then its only
/// source.
pub proof fn lemma_path_only_dep_untouched(items: Seq<TableItemV>, mode: DetachPathDeps)
    requires
        !items_have_key(items, k_version()),
        !items_have_key(items, k_git()),
    ensures
        detach_items(items, mode) == items,
{
}

/// The same for a dependency written as its own section.
pub proof fn lemma_path_only_dep_section_untouched(entries: Seq<EntryV>, mode: DetachPathDeps)
    requires
        !entries_have_key(entries, k_version()),
        !entries_have_key(entries, k_git()),
    ensures
        detach_sec_entries(entries, mode) == entries,
{
}

// ---------------------------------------------------------------------------
// Step lemmas.
// ---------------------------------------------------------------------------

proof fn lemma_drop_path_items_take_step(items: Seq<TableItemV>, i: int)
    requires
        0 <= i < items.len(),
    ensures
        drop_path_items(items.take(i + 1)) == drop_path_items(items.take(i)) + (if titem_has_key(
            items[i],
            k_path(),
        ) {
            Seq::<TableItemV>::empty()
        } else {
            seq![items[i]]
        }),
{
    assert(items.take(i + 1).drop_last() =~= items.take(i));
    assert(items.take(i + 1).last() == items[i]);
}

proof fn lemma_drop_path_entries_take_step(entries: Seq<EntryV>, i: int)
    requires
        0 <= i < entries.len(),
    ensures
        drop_path_entries(entries.take(i + 1)) == drop_path_entries(entries.take(i)) + (
        if entry_has_key(entries[i], k_path()) {
            Seq::<EntryV>::empty()
        } else {
            seq![entries[i]]
        }),
{
    assert(entries.take(i + 1).drop_last() =~= entries.take(i));
    assert(entries.take(i + 1).last() == entries[i]);
}

proof fn lemma_drop_path_items_len(items: Seq<TableItemV>)
    ensures
        drop_path_items(items).len() <= items.len(),
        drop_path_items(items).len() == items.len() ==> drop_path_items(items) == items,
    decreases items.len(),
{
    if items.len() > 0 {
        lemma_drop_path_items_len(items.drop_last());
        if drop_path_items(items).len() == items.len() {
            assert(!titem_has_key(items.last(), k_path()));
            assert(drop_path_items(items.drop_last()) == items.drop_last());
            assert(drop_path_items(items) =~= items);
        }
    }
}

proof fn lemma_drop_path_entries_len(entries: Seq<EntryV>)
    ensures
        drop_path_entries(entries).len() <= entries.len(),
        drop_path_entries(entries).len() == entries.len() ==> drop_path_entries(entries)
            == entries,
    decreases entries.len(),
{
    if entries.len() > 0 {
        lemma_drop_path_entries_len(entries.drop_last());
        if drop_path_entries(entries).len() == entries.len() {
            assert(!entry_has_key(entries.last(), k_path()));
            assert(drop_path_entries(entries.drop_last()) == entries.drop_last());
            assert(drop_path_entries(entries) =~= entries);
        }
    }
}

// ---------------------------------------------------------------------------
// Executable decisions.
// ---------------------------------------------------------------------------

fn titem_is_version(it: &TableItem) -> (r: bool)
    ensures
        r == titem_has_key(it@, k_version()),
{
    it.keys.len() == 1 && is_version(it.keys[0].as_slice())
}

fn titem_is_git(it: &TableItem) -> (r: bool)
    ensures
        r == titem_has_key(it@, k_git()),
{
    it.keys.len() == 1 && is_git(it.keys[0].as_slice())
}

fn titem_is_path(it: &TableItem) -> (r: bool)
    ensures
        r == titem_has_key(it@, k_path()),
{
    it.keys.len() == 1 && is_path(it.keys[0].as_slice())
}

fn entry_is_version(e: &Entry) -> (r: bool)
    ensures
        r == entry_has_key(e@, k_version()),
{
    e.keys.len() == 1 && is_version(e.keys[0].as_slice())
}

fn entry_is_git(e: &Entry) -> (r: bool)
    ensures
        r == entry_has_key(e@, k_git()),
{
    e.keys.len() == 1 && is_git(e.keys[0].as_slice())
}

fn entry_is_path(e: &Entry) -> (r: bool)
    ensures
        r == entry_has_key(e@, k_path()),
{
    e.keys.len() == 1 && is_path(e.keys[0].as_slice())
}

proof fn lemma_first_item_step(items: Seq<TableItemV>, k: Seq<u8>, i: int)
    requires
        0 <= i < items.len(),
        !titem_has_key(items[i], k),
    ensures
        first_item_with_key(items, k, i) == first_item_with_key(items, k, i + 1),
{
}

fn find_first_version_item(items: &Vec<TableItem>) -> (r: Option<usize>)
    ensures
        ({
            let itemsv = items@.map_values(|it: TableItem| it@);
            match r {
                Option::Some(i) => first_item_with_key(itemsv, k_version(), 0)
                    == Option::Some(i as int) && i < items@.len(),
                Option::None => first_item_with_key(itemsv, k_version(), 0) is None,
            }
        }),
{
    let ghost itemsv = items@.map_values(|it: TableItem| it@);
    let mut i: usize = 0;
    while i < items.len()
        invariant
            i <= items@.len(),
            itemsv == items@.map_values(|it: TableItem| it@),
            first_item_with_key(itemsv, k_version(), 0) == first_item_with_key(
                itemsv,
                k_version(),
                i as int,
            ),
        decreases items@.len() - i,
    {
        proof {
            assert(itemsv[i as int] == items@[i as int]@);
        }
        if titem_is_version(&items[i]) {
            return Some(i);
        }
        proof {
            lemma_first_item_step(itemsv, k_version(), i as int);
        }
        i += 1;
    }
    None
}

fn items_have_git_x(items: &Vec<TableItem>) -> (r: bool)
    ensures
        r == items_have_key(items@.map_values(|it: TableItem| it@), k_git()),
{
    let ghost itemsv = items@.map_values(|it: TableItem| it@);
    let mut i: usize = 0;
    while i < items.len()
        invariant
            i <= items@.len(),
            itemsv == items@.map_values(|it: TableItem| it@),
            forall|j: int| 0 <= j < i ==> !titem_has_key(#[trigger] itemsv[j], k_git()),
        decreases items@.len() - i,
    {
        proof {
            assert(itemsv[i as int] == items@[i as int]@);
        }
        if titem_is_git(&items[i]) {
            return true;
        }
        i += 1;
    }
    false
}

/// Decides whether the path pair of an inline dependency specification goes.
fn table_removes_path_x(items: &Vec<TableItem>, mode: DetachPathDeps) -> (r: bool)
    ensures
        r == table_removes_path(items@.map_values(|it: TableItem| it@), mode),
{
    let ghost itemsv = items@.map_values(|it: TableItem| it@);
    match find_first_version_item(items) {
        Some(i) => {
            proof {
                assert(items_have_key(itemsv, k_version())) by {
                    lemma_first_item_props(itemsv, k_version(), 0);
                }
            }
            if mode == DetachPathDeps::SkipExact {
                proof {
                    assert(itemsv[i as int] == items@[i as int]@);
                }
                match &items[i].sval {
                    Some(sv) => !check_exact_req(sv.as_slice()),
                    None => true,
                }
            } else {
                true
            }
        },
        None => {
            proof {
                lemma_first_item_none(itemsv, k_version(), 0);
            }
            items_have_git_x(items)
        },
    }
}

proof fn lemma_first_item_props(items: Seq<TableItemV>, k: Seq<u8>, i: int)
    requires
        0 <= i <= items.len(),
        first_item_with_key(items, k, i) is Some,
    ensures
        ({
            let j = first_item_with_key(items, k, i)->Some_0;
            &&& i <= j < items.len()
            &&& titem_has_key(items[j], k)
            &&& items_have_key(items, k)
        }),
    decreases items.len() - i,
{
    if i < items.len() {
        if titem_has_key(items[i], k) {
        } else {
            lemma_first_item_props(items, k, i + 1);
        }
    }
}

proof fn lemma_first_item_none(items: Seq<TableItemV>, k: Seq<u8>, i: int)
    requires
        0 <= i <= items.len(),
        first_item_with_key(items, k, i) is None,
    ensures
        forall|j: int| i <= j < items.len() ==> !titem_has_key(#[trigger] items[j], k),
    decreases items.len() - i,
{
    if i < items.len() {
        lemma_first_item_none(items, k, i + 1);
    }
}

proof fn lemma_first_entry_step(entries: Seq<EntryV>, k: Seq<u8>, i: int)
    requires
        0 <= i < entries.len(),
        !entry_has_key(entries[i], k),
    ensures
        first_entry_with_key(entries, k, i) == first_entry_with_key(entries, k, i + 1),
{
}

proof fn lemma_first_entry_props(entries: Seq<EntryV>, k: Seq<u8>, i: int)
    requires
        0 <= i <= entries.len(),
        first_entry_with_key(entries, k, i) is Some,
    ensures
        ({
            let j = first_entry_with_key(entries, k, i)->Some_0;
            &&& i <= j < entries.len()
            &&& entry_has_key(entries[j], k)
            &&& entries_have_key(entries, k)
        }),
    decreases entries.len() - i,
{
    if i < entries.len() {
        if entry_has_key(entries[i], k) {
        } else {
            lemma_first_entry_props(entries, k, i + 1);
        }
    }
}

proof fn lemma_first_entry_none(entries: Seq<EntryV>, k: Seq<u8>, i: int)
    requires
        0 <= i <= entries.len(),
        first_entry_with_key(entries, k, i) is None,
    ensures
        forall|j: int| i <= j < entries.len() ==> !entry_has_key(#[trigger] entries[j], k),
    decreases entries.len() - i,
{
    if i < entries.len() {
        lemma_first_entry_none(entries, k, i + 1);
    }
}

fn find_first_version_entry(entries: &Vec<Entry>) -> (r: Option<usize>)
    ensures
        ({
            let esv = entries@.map_values(|e: Entry| e@);
            match r {
                Option::Some(i) => first_entry_with_key(esv, k_version(), 0) == Option::Some(
                    i as int,
                ) && i < entries@.len(),
                Option::None => first_entry_with_key(esv, k_version(), 0) is None,
            }
        }),
{
    let ghost esv = entries@.map_values(|e: Entry| e@);
    let mut i: usize = 0;
    while i < entries.len()
        invariant
            i <= entries@.len(),
            esv == entries@.map_values(|e: Entry| e@),
            first_entry_with_key(esv, k_version(), 0) == first_entry_with_key(
                esv,
                k_version(),
                i as int,
            ),
        decreases entries@.len() - i,
    {
        proof {
            assert(esv[i as int] == entries@[i as int]@);
        }
        if entry_is_version(&entries[i]) {
            return Some(i);
        }
        proof {
            lemma_first_entry_step(esv, k_version(), i as int);
        }
        i += 1;
    }
    None
}

fn entries_have_git_x(entries: &Vec<Entry>) -> (r: bool)
    ensures
        r == entries_have_key(entries@.map_values(|e: Entry| e@), k_git()),
{
    let ghost esv = entries@.map_values(|e: Entry| e@);
    let mut i: usize = 0;
    while i < entries.len()
        invariant
            i <= entries@.len(),
            esv == entries@.map_values(|e: Entry| e@),
            forall|j: int| 0 <= j < i ==> !entry_has_key(#[trigger] esv[j], k_git()),
        decreases entries@.len() - i,
    {
        proof {
            assert(esv[i as int] == entries@[i as int]@);
        }
        if entry_is_git(&entries[i]) {
            return true;
        }
        i += 1;
    }
    false
}

/// Decides whether the path entry of a dependency section goes.
fn entries_remove_path_x(entries: &Vec<Entry>, mode: DetachPathDeps) -> (r: bool)
    ensures
        r == entries_remove_path(entries@.map_values(|e: Entry| e@), mode),
{
    let ghost esv = entries@.map_values(|e: Entry| e@);
    match find_first_version_entry(entries) {
        Some(i) => {
            proof {
                lemma_first_entry_props(esv, k_version(), 0);
            }
            if mode == DetachPathDeps::SkipExact {
                proof {
                    assert(esv[i as int] == entries@[i as int]@);
                }
                match &entries[i].value {
                    Value::Scalar { sval: Some(sv), .. } => !check_exact_req(sv.as_slice()),
                    _ => true,
                }
            } else {
                true
            }
        },
        None => {
            proof {
                lemma_first_entry_none(esv, k_version(), 0);
            }
            entries_have_git_x(entries)
        },
    }
}

// ---------------------------------------------------------------------------
// The operation itself.
// ---------------------------------------------------------------------------

/// Removes the path pair from one inline dependency specification when the
/// decision calls for it, keeping the table well formed.
fn detach_items_x(items: Vec<TableItem>, mode: DetachPathDeps) -> (r: Vec<TableItem>)
    ensures
        r@.map_values(|it: TableItem| it@) == detach_items(
            items@.map_values(|it: TableItem| it@),
            mode,
        ),
{
    let ghost itemsv = items@.map_values(|it: TableItem| it@);
    if !table_removes_path_x(&items, mode) {
        return items;
    }
    let n0 = items.len();
    let mut src = items;
    proof {
        assert forall|i: int| 0 <= i < src@.len() implies (#[trigger] src@[i])@ == itemsv[i] by {
            assert(itemsv[i] == src@[i]@);
        }
    }
    let mut out: Vec<TableItem> = Vec::new();
    let mut k: usize = 0;
    while src.len() > 0
        invariant
            k + src@.len() == itemsv.len(),
            itemsv.len() == n0,
            forall|i: int| 0 <= i < src@.len() ==> (#[trigger] src@[i])@ == itemsv[k + i],
            out@.map_values(|it: TableItem| it@) == drop_path_items(itemsv.take(k as int)),
        decreases src@.len(),
    {
        let ghost presrc = src@;
        let it = src.remove(0);
        proof {
            assert(it@ == itemsv[k as int]);
            assert forall|i: int| 0 <= i < src@.len() implies (#[trigger] src@[i])@ == itemsv[
                k + 1 + i
            ] by {
                assert(src@[i] == presrc[i + 1]);
            }
            lemma_drop_path_items_take_step(itemsv, k as int);
        }
        if !titem_is_path(&it) {
            let ghost outv = out@.map_values(|x: TableItem| x@);
            out.push(it);
            proof {
                assert(out@.map_values(|x: TableItem| x@) =~= outv.push(itemsv[k as int]));
            }
        }
        k += 1;
    }
    proof {
        assert(itemsv.take(k as int) =~= itemsv);
        lemma_drop_path_items_len(itemsv);
    }
    if out.len() == n0 {
        return out;
    }
    if out.len() == 0 {
        return out;
    }
    // the new last pair keeps the table well formed without a trailing comma
    let ghost filtered = drop_path_items(itemsv);
    match out.pop() {
        Some(mut last) => {
            proof {
                assert(last@ == filtered.last());
            }
            let slen = last.sep.len();
            if slen > 0 && last.sep[slen - 1] == ',' as u8 {
                last.sep.pop();
            }
            proof {
                assert(last@.sep =~= strip_comma(filtered.last().sep));
            }
            let ghost outv = out@.map_values(|x: TableItem| x@);
            out.push(last);
            proof {
                assert(out@.map_values(|x: TableItem| x@) =~= fix_last_sep(filtered));
            }
            out
        },
        None => {
            // unreachable: the vector was checked to be non-empty
            out
        },
    }
}

/// Applies the operation to every entry of a dependency table.
fn detach_table_entries(entries: Vec<Entry>, mode: DetachPathDeps) -> (r: Vec<Entry>)
    ensures
        r@.map_values(|e: Entry| e@) == entries@.map_values(|e: Entry| e@).map_values(
            |e: EntryV| detach_dep_entry(e, mode),
        ),
{
    let ghost esv = entries@.map_values(|e: Entry| e@);
    let n0 = entries.len();
    let mut src = entries;
    proof {
        assert forall|i: int| 0 <= i < src@.len() implies (#[trigger] src@[i])@ == esv[i] by {
            assert(esv[i] == src@[i]@);
        }
    }
    let mut out: Vec<Entry> = Vec::new();
    let mut k: usize = 0;
    while src.len() > 0
        invariant
            k + src@.len() == esv.len(),
            esv.len() == n0,
            forall|i: int| 0 <= i < src@.len() ==> (#[trigger] src@[i])@ == esv[k + i],
            out@.map_values(|e: Entry| e@) == esv.take(k as int).map_values(
                |e: EntryV| detach_dep_entry(e, mode),
            ),
        decreases src@.len(),
    {
        let ghost presrc = src@;
        let e = src.remove(0);
        proof {
            assert(e@ == esv[k as int]);
            assert forall|i: int| 0 <= i < src@.len() implies (#[trigger] src@[i])@ == esv[
                k + 1 + i
            ] by {
                assert(src@[i] == presrc[i + 1]);
            }
        }
        let Entry { lead, key_raw, keys, value, line_end } = e;
        let newvalue = match value {
            Value::Table { open, items, close } => {
                let newitems = detach_items_x(items, mode);
                Value::Table { open, items: newitems, close }
            },
            other => other,
        };
        let ghost outv = out@.map_values(|x: Entry| x@);
        let ne = Entry { lead, key_raw, keys, value: newvalue, line_end };
        proof {
            assert(ne@ =~= detach_dep_entry(esv[k as int], mode));
        }
        out.push(ne);
        proof {
            assert(out@.map_values(|x: Entry| x@) =~= outv.push(
                detach_dep_entry(esv[k as int], mode),
            ));
            assert(esv.take(k as int + 1).map_values(|x: EntryV| detach_dep_entry(x, mode))
                =~= esv.take(k as int).map_values(|x: EntryV| detach_dep_entry(x, mode)).push(
                detach_dep_entry(esv[k as int], mode),
            ));
        }
        k += 1;
    }
    proof {
        assert(esv.take(k as int) =~= esv);
    }
    out
}

/// Applies the operation to a dependency written as its own section.
fn detach_spec_entries_x(entries: Vec<Entry>, mode: DetachPathDeps) -> (r: Vec<Entry>)
    ensures
        r@.map_values(|e: Entry| e@) == detach_sec_entries(
            entries@.map_values(|e: Entry| e@),
            mode,
        ),
{
    let ghost esv = entries@.map_values(|e: Entry| e@);
    if !entries_remove_path_x(&entries, mode) {
        return entries;
    }
    let n0 = entries.len();
    let mut src = entries;
    proof {
        assert forall|i: int| 0 <= i < src@.len() implies (#[trigger] src@[i])@ == esv[i] by {
            assert(esv[i] == src@[i]@);
        }
    }
    let mut out: Vec<Entry> = Vec::new();
    let mut k: usize = 0;
    while src.len() > 0
        invariant
            k + src@.len() == esv.len(),
            esv.len() == n0,
            forall|i: int| 0 <= i < src@.len() ==> (#[trigger] src@[i])@ == esv[k + i],
            out@.map_values(|e: Entry| e@) == drop_path_entries(esv.take(k as int)),
        decreases src@.len(),
    {
        let ghost presrc = src@;
        let e = src.remove(0);
        proof {
            assert(e@ == esv[k as int]);
            assert forall|i: int| 0 <= i < src@.len() implies (#[trigger] src@[i])@ == esv[
                k + 1 + i
            ] by {
                assert(src@[i] == presrc[i + 1]);
            }
            lemma_drop_path_entries_take_step(esv, k as int);
        }
        if !entry_is_path(&e) {
            let ghost outv = out@.map_values(|x: Entry| x@);
            out.push(e);
            proof {
                assert(out@.map_values(|x: Entry| x@) =~= outv.push(esv[k as int]));
            }
        }
        k += 1;
    }
    proof {
        assert(esv.take(k as int) =~= esv);
    }
    out
}

fn path_detach_table(path: &Vec<Vec<u8>>) -> (r: bool)
    ensures
        r == detach_table_path(keys_view(*path)),
{
    path_retained_table(path) || (path.len() == 2 && is_workspace(path[0].as_slice())
        && is_dependencies(path[1].as_slice()))
}

fn path_detach_spec(path: &Vec<Vec<u8>>) -> (r: bool)
    ensures
        r == detach_spec_path(keys_view(*path)),
{
    path_retained_spec(path) || (path.len() == 3 && is_workspace(path[0].as_slice())
        && is_dependencies(path[1].as_slice()))
}

/// Removes local-path references from every dependency specification that
/// keeps another source, in root, per-target and workspace-level dependency
/// tables; development-dependency sections are never touched.
pub fn detach_path_deps(doc: &mut Document, mode: DetachPathDeps)
    ensures
        final(doc)@ == detach(old(doc)@, mode),
{
    let ghost d = old(doc)@;
    let mut olds: Vec<Section> = Vec::new();
    core::mem::swap(&mut olds, &mut doc.sections);
    let mut news: Vec<Section> = Vec::new();
    let ghost ssv = d.sections;
    let m0 = olds.len();
    proof {
        assert forall|i: int| 0 <= i < olds@.len() implies (#[trigger] olds@[i])@ == ssv[i] by {
            assert(ssv[i] == olds@[i]@);
        }
    }
    let mut t: usize = 0;
    while olds.len() > 0
        invariant
            t + olds@.len() == ssv.len(),
            ssv.len() == m0,
            forall|i: int| 0 <= i < olds@.len() ==> (#[trigger] olds@[i])@ == ssv[t + i],
            news@.map_values(|s: Section| s@) == ssv.take(t as int).map_values(
                |s: SectionV| detach_section(s, mode),
            ),
        decreases olds@.len(),
    {
        let ghost presrc = olds@;
        let s = olds.remove(0);
        proof {
            assert(s@ == ssv[t as int]);
            assert forall|i: int| 0 <= i < olds@.len() implies (#[trigger] olds@[i])@ == ssv[
                t + 1 + i
            ] by {
                assert(olds@[i] == presrc[i + 1]);
            }
        }
        let ns = if path_detach_table(&s.path) {
            let Section { lead, header, path, is_array, entries } = s;
            let newentries = detach_table_entries(entries, mode);
            Section { lead, header, path, is_array, entries: newentries }
        } else if path_detach_spec(&s.path) {
            let Section { lead, header, path, is_array, entries } = s;
            let newentries = detach_spec_entries_x(entries, mode);
            Section { lead, header, path, is_array, entries: newentries }
        } else {
            s
        };
        let ghost outv = news@.map_values(|x: Section| x@);
        proof {
            assert(ns@ =~= detach_section(ssv[t as int], mode));
        }
        news.push(ns);
        proof {
            assert(news@.map_values(|x: Section| x@) =~= outv.push(
                detach_section(ssv[t as int], mode),
            ));
            assert(ssv.take(t as int + 1).map_values(|x: SectionV| detach_section(x, mode))
                =~= ssv.take(t as int).map_values(|x: SectionV| detach_section(x, mode)).push(
                detach_section(ssv[t as int], mode),
            ));
        }
        t += 1;
    }
    proof {
        assert(ssv.take(t as int) =~= ssv);
    }
    doc.sections = news;
    proof {
        assert(final(doc)@ =~= detach(d, mode));
    }
}

} // verus!
