use vstd::prelude::*;

use crate::document::{
    ArrayItem, ArrayItemV, Document, DocumentV, Entry, EntryV, Section, SectionV, Value, ValueV,
};
use crate::keys::{is_exclude, is_members, is_workspace, k_exclude, k_members, k_workspace};
use crate::strip::{names_contain, names_has, names_view};

verus! {

// ---------------------------------------------------------------------------
// Workspace membership rewrites.
//
// Excluding members: given the member-path strings to exclude, either append
// them to an existing exclusion list, or, when none exists, remove those same
// entries from the membership list directly. Only one strategy applies,
// depending on whether an exclusion list already exists.
//
// Promoting: a manifest without any workspace table gains an empty one, so
// its directory roots a workspace of one member.
// ---------------------------------------------------------------------------

pub open spec fn ws_section(s: SectionV) -> bool {
    s.path.len() == 1 && s.path[0] == k_workspace()
}

pub open spec fn is_exclude_entry(e: EntryV) -> bool {
    e.keys.len() == 1 && e.keys[0] == k_exclude() && e.value is Array
}

pub open spec fn is_members_entry(e: EntryV) -> bool {
    e.keys.len() == 1 && e.keys[0] == k_members() && e.value is Array
}

pub open spec fn first_exclude_idx(entries: Seq<EntryV>, i: int) -> Option<int>
    decreases entries.len() - i,
{
    if i < 0 || i >= entries.len() {
        Option::None
    } else if is_exclude_entry(entries[i]) {
        Option::Some(i)
    } else {
        first_exclude_idx(entries, i + 1)
    }
}

/// A byte sequence with quotes and backslashes escaped.
pub open spec fn esc_bytes(s: Seq<u8>) -> Seq<u8>
    decreases s.len(),
{
    if s.len() == 0 {
        Seq::empty()
    } else {
        esc_bytes(s.drop_last()) + (if s.last() == '"' as u8 || s.last() == '\\' as u8 {
            seq!['\\' as u8, s.last()]
        } else {
            seq![s.last()]
        })
    }
}

/// A member string rendered as a quoted string value.
pub open spec fn quote_str(m: Seq<u8>) -> Seq<u8> {
    seq!['"' as u8] + esc_bytes(m) + seq!['"' as u8]
}

/// A separator that ends with a comma.
pub open spec fn ensure_comma(s: Seq<u8>) -> Seq<u8> {
    if s.len() > 0 && s.last() == ',' as u8 {
        s
    } else {
        s.push(',' as u8)
    }
}

pub open spec fn ensure_last_comma(items: Seq<ArrayItemV>) -> Seq<ArrayItemV> {
    if items.len() == 0 {
        items
    } else {
        items.update(
            items.len() - 1,
            ArrayItemV { sep: ensure_comma(items.last().sep), ..items.last() },
        )
    }
}

/// A freshly rendered element for one excluded member.
pub open spec fn new_member_item(m: Seq<u8>) -> ArrayItemV {
    ArrayItemV {
        lead: seq![' ' as u8],
        raw: quote_str(m),
        sval: Option::Some(m),
        sep: seq![',' as u8],
    }
}

/// The exclusion list with the given members appended.
pub open spec fn append_items(items: Seq<ArrayItemV>, excl: Seq<Seq<u8>>) -> Seq<ArrayItemV> {
    ensure_last_comma(items) + excl.map_values(|m: Seq<u8>| new_member_item(m))
}

pub open spec fn append_array(v: ValueV, excl: Seq<Seq<u8>>) -> ValueV {
    match v {
        ValueV::Array { open, items, close } => ValueV::Array {
            open,
            items: append_items(items, excl),
            close,
        },
        _ => v,
    }
}

pub open spec fn append_to_exclude(e: EntryV, excl: Seq<Seq<u8>>) -> EntryV {
    EntryV { value: append_array(e.value, excl), ..e }
}

/// The membership list with the excluded member strings removed.
pub open spec fn keep_members(items: Seq<ArrayItemV>, excl: Seq<Seq<u8>>) -> Seq<ArrayItemV>
    decreases items.len(),
{
    if items.len() == 0 {
        Seq::empty()
    } else {
        keep_members(items.drop_last(), excl) + (if drop_member_item(items.last(), excl) {
            Seq::<ArrayItemV>::empty()
        } else {
            seq![items.last()]
        })
    }
}

pub open spec fn drop_member_item(it: ArrayItemV, excl: Seq<Seq<u8>>) -> bool {
    match it.sval {
        Option::Some(m) => names_contain(excl, m),
        Option::None => false,
    }
}

pub open spec fn filter_members_entry(e: EntryV, excl: Seq<Seq<u8>>) -> EntryV {
    if is_members_entry(e) {
        EntryV {
            value: match e.value {
                ValueV::Array { open, items, close } => ValueV::Array {
                    open,
                    items: keep_members(items, excl),
                    close,
                },
                other => other,
            },
            ..e
        }
    } else {
        e
    }
}

/// The entries of one workspace section after the rewrite: append to the
/// first exclusion list, or, when there is none, shorten the membership
/// lists.
pub open spec fn exclude_entries(entries: Seq<EntryV>, excl: Seq<Seq<u8>>) -> Seq<EntryV> {
    match first_exclude_idx(entries, 0) {
        Option::Some(j) => entries.update(j, append_to_exclude(entries[j], excl)),
        Option::None => entries.map_values(|e: EntryV| filter_members_entry(e, excl)),
    }
}

pub open spec fn exclude_section(s: SectionV, excl: Seq<Seq<u8>>) -> SectionV {
    if ws_section(s) {
        SectionV { entries: exclude_entries(s.entries, excl), ..s }
    } else {
        s
    }
}

/// The whole rewrite as a function of the document. Excluding nothing is
/// the identity: no span of the document may change.
pub open spec fn apply_exclusions(d: DocumentV, excl: Seq<Seq<u8>>) -> DocumentV {
    if excl.len() == 0 {
        d
    } else {
        DocumentV {
            prologue: d.prologue,
            sections: d.sections.map_values(|s: SectionV| exclude_section(s, excl)),
            trailing: d.trailing,
        }
    }
}

// Promotion.

pub open spec fn has_workspace(d: DocumentV) -> bool {
    ||| exists|i: int|
        0 <= i < d.sections.len() && (#[trigger] d.sections[i]).path.len() >= 1 && d.sections[
            i
        ].path[0] == k_workspace()
    ||| exists|i: int|
        0 <= i < d.prologue.len() && (#[trigger] d.prologue[i]).keys.len() >= 1 && d.prologue[
            i
        ].keys[0] == k_workspace()
}

pub open spec fn ws_marker_lead() -> Seq<u8> {
    seq!['\n' as u8]
}

pub open spec fn ws_marker_header() -> Seq<u8> {
    seq!['[' as u8] + k_workspace() + seq![']' as u8, '\n' as u8]
}

pub open spec fn ws_marker_section() -> SectionV {
    SectionV {
        lead: ws_marker_lead(),
        header: ws_marker_header(),
        path: seq![k_workspace()],
        is_array: false,
        entries: Seq::empty(),
    }
}

/// The document with an empty workspace-marker table appended when none
/// exists.
pub open spec fn promote(d: DocumentV) -> DocumentV {
    if has_workspace(d) {
        d
    } else {
        DocumentV { sections: d.sections.push(ws_marker_section()), ..d }
    }
}

// ---------------------------------------------------------------------------
// Step lemmas.
// ---------------------------------------------------------------------------

proof fn lemma_keep_members_take_step(items: Seq<ArrayItemV>, excl: Seq<Seq<u8>>, i: int)
    requires
        0 <= i < items.len(),
    ensures
        keep_members(items.take(i + 1), excl) == keep_members(items.take(i), excl) + (
        if drop_member_item(items[i], excl) {
            Seq::<ArrayItemV>::empty()
        } else {
            seq![items[i]]
        }),
{
    assert(items.take(i + 1).drop_last() =~= items.take(i));
    assert(items.take(i + 1).last() == items[i]);
}

proof fn lemma_esc_bytes_take_step(s: Seq<u8>, i: int)
    requires
        0 <= i < s.len(),
    ensures
        esc_bytes(s.take(i + 1)) == esc_bytes(s.take(i)) + (if s[i] == '"' as u8 || s[i]
            == '\\' as u8 {
            seq!['\\' as u8, s[i]]
        } else {
            seq![s[i]]
        }),
{
    assert(s.take(i + 1).drop_last() =~= s.take(i));
    assert(s.take(i + 1).last() == s[i]);
}

proof fn lemma_first_exclude_step(entries: Seq<EntryV>, i: int)
    requires
        0 <= i < entries.len(),
        !is_exclude_entry(entries[i]),
    ensures
        first_exclude_idx(entries, i) == first_exclude_idx(entries, i + 1),
{
}

proof fn lemma_first_exclude_props(entries: Seq<EntryV>, i: int)
    requires
        0 <= i <= entries.len(),
        first_exclude_idx(entries, i) is Some,
    ensures
        ({
            let j = first_exclude_idx(entries, i)->Some_0;
            i <= j < entries.len() && is_exclude_entry(entries[j])
        }),
    decreases entries.len() - i,
{
    if i < entries.len() {
        if is_exclude_entry(entries[i]) {
        } else {
            lemma_first_exclude_props(entries, i + 1);
        }
    }
}

// ---------------------------------------------------------------------------
// Executable pieces.
// ---------------------------------------------------------------------------

fn entry_is_exclude(e: &Entry) -> (r: bool)
    ensures
        r == is_exclude_entry(e@),
{
    e.keys.len() == 1 && is_exclude(e.keys[0].as_slice()) && match &e.value {
        Value::Array { .. } => true,
        _ => false,
    }
}

fn entry_is_members(e: &Entry) -> (r: bool)
    ensures
        r == is_members_entry(e@),
{
    e.keys.len() == 1 && is_members(e.keys[0].as_slice()) && match &e.value {
        Value::Array { .. } => true,
        _ => false,
    }
}

fn find_first_exclude(entries: &Vec<Entry>) -> (r: Option<usize>)
    ensures
        ({
            let esv = entries@.map_values(|e: Entry| e@);
            match r {
                Option::Some(i) => first_exclude_idx(esv, 0) == Option::Some(i as int) && i
                    < entries@.len(),
                Option::None => first_exclude_idx(esv, 0) is None,
            }
        }),
{
    let ghost esv = entries@.map_values(|e: Entry| e@);
    let mut i: usize = 0;
    while i < entries.len()
        invariant
            i <= entries@.len(),
            esv == entries@.map_values(|e: Entry| e@),
            first_exclude_idx(esv, 0) == first_exclude_idx(esv, i as int),
        decreases entries@.len() - i,
    {
        proof {
            assert(esv[i as int] == entries@[i as int]@);
        }
        if entry_is_exclude(&entries[i]) {
            return Some(i);
        }
        proof {
            lemma_first_exclude_step(esv, i as int);
        }
        i += 1;
    }
    None
}

/// Renders one member string as a quoted element.
fn make_member_item(m: &Vec<u8>) -> (r: ArrayItem)
    ensures
        r@ == new_member_item(m@),
{
    let mut lead: Vec<u8> = Vec::new();
    lead.push(' ' as u8);
    let mut raw: Vec<u8> = Vec::new();
    raw.push('"' as u8);
    let mut i: usize = 0;
    while i < m.len()
        invariant
            i <= m@.len(),
            raw@ == seq!['"' as u8] + esc_bytes(m@.take(i as int)),
        decreases m@.len() - i,
    {
        let c = m[i];
        proof {
            lemma_esc_bytes_take_step(m@, i as int);
        }
        if c == '"' as u8 || c == '\\' as u8 {
            raw.push('\\' as u8);
            raw.push(c);
        } else {
            raw.push(c);
        }
        proof {
            assert(raw@ =~= seq!['"' as u8] + esc_bytes(m@.take(i as int + 1)));
        }
        i += 1;
    }
    proof {
        assert(m@.take(m@.len() as int) =~= m@);
    }
    raw.push('"' as u8);
    let mut sep: Vec<u8> = Vec::new();
    sep.push(',' as u8);
    let sval = Some(crate::strip::copy_bytes(m));
    let r = ArrayItem { lead, raw, sval, sep };
    proof {
        assert(r@.raw =~= quote_str(m@));
        assert(r@.lead =~= new_member_item(m@).lead);
        assert(r@.sep =~= new_member_item(m@).sep);
        assert(r@ =~= new_member_item(m@));
    }
    r
}

/// Appends the excluded members to an existing exclusion array.
fn append_excl_items(items: Vec<ArrayItem>, excl: &Vec<Vec<u8>>) -> (r: Vec<ArrayItem>)
    ensures
        r@.map_values(|it: ArrayItem| it@) == append_items(
            items@.map_values(|it: ArrayItem| it@),
            names_view(excl@),
        ),
{
    let ghost itemsv = items@.map_values(|it: ArrayItem| it@);
    let ghost exclv = names_view(excl@);
    let mut out = items;
    if out.len() > 0 {
        // make sure the current last element carries a comma
        let li = out.len() - 1;
        match out.pop() {
            Some(mut last) => {
                let ghost lastv = last@;
                proof {
                    assert(lastv == itemsv.last());
                }
                let slen = last.sep.len();
                if !(slen > 0 && last.sep[slen - 1] == ',' as u8) {
                    last.sep.push(',' as u8);
                }
                proof {
                    assert(last@.sep =~= ensure_comma(lastv.sep));
                }
                let ghost outv = out@.map_values(|x: ArrayItem| x@);
                proof {
                    assert(outv =~= itemsv.drop_last());
                }
                out.push(last);
                proof {
                    assert(out@.map_values(|x: ArrayItem| x@) =~= ensure_last_comma(itemsv));
                }
            },
            None => {},
        }
    } else {
        proof {
            assert(ensure_last_comma(itemsv) =~= itemsv);
        }
    }
    let ghost base = ensure_last_comma(itemsv);
    let mut i: usize = 0;
    while i < excl.len()
        invariant
            i <= excl@.len(),
            exclv == names_view(excl@),
            base == ensure_last_comma(itemsv),
            out@.map_values(|it: ArrayItem| it@) == base + exclv.take(i as int).map_values(
                |m: Seq<u8>| new_member_item(m),
            ),
        decreases excl@.len() - i,
    {
        let it = make_member_item(&excl[i]);
        proof {
            assert(exclv[i as int] == excl@[i as int]@);
        }
        let ghost outv = out@.map_values(|x: ArrayItem| x@);
        out.push(it);
        proof {
            assert(out@.map_values(|x: ArrayItem| x@) =~= outv.push(
                new_member_item(exclv[i as int]),
            ));
            assert(exclv.take(i as int + 1).map_values(|m: Seq<u8>| new_member_item(m))
                =~= exclv.take(i as int).map_values(|m: Seq<u8>| new_member_item(m)).push(
                new_member_item(exclv[i as int]),
            ));
            assert(outv.push(new_member_item(exclv[i as int])) =~= base + exclv.take(
                i as int + 1,
            ).map_values(|m: Seq<u8>| new_member_item(m)));
        }
        i += 1;
    }
    proof {
        assert(exclv.take(excl@.len() as int) =~= exclv);
    }
    out
}

/// Removes the excluded member strings from a membership array.
fn filter_member_items(items: Vec<ArrayItem>, excl: &Vec<Vec<u8>>) -> (r: Vec<ArrayItem>)
    ensures
        r@.map_values(|it: ArrayItem| it@) == keep_members(
            items@.map_values(|it: ArrayItem| it@),
            names_view(excl@),
        ),
{
    let ghost itemsv = items@.map_values(|it: ArrayItem| it@);
    let ghost exclv = names_view(excl@);
    let n0 = items.len();
    let mut src = items;
    proof {
        assert forall|i: int| 0 <= i < src@.len() implies (#[trigger] src@[i])@ == itemsv[i] by {
            assert(itemsv[i] == src@[i]@);
        }
    }
    let mut out: Vec<ArrayItem> = Vec::new();
    let mut k: usize = 0;
    while src.len() > 0
        invariant
            k + src@.len() == itemsv.len(),
            itemsv.len() == n0,
            exclv == names_view(excl@),
            forall|i: int| 0 <= i < src@.len() ==> (#[trigger] src@[i])@ == itemsv[k + i],
            out@.map_values(|it: ArrayItem| it@) == keep_members(itemsv.take(k as int), exclv),
        decreases src@.len(),
    {
        let ghost presrc = src@;
        let it = src.remove(0);
        proof {
            assert(it@ == itemsv[k as int]);
            assert forall|i: int| 0 <= i < src@.len() implies (#[trigger] src@[i])@ == itemsv[
                k + 1 + i
            ] by {
                assert(src@[i] == presrc[i + 1]);
            }
            lemma_keep_members_take_step(itemsv, exclv, k as int);
        }
        let dropit = match &it.sval {
            Some(m) => names_has(excl, m.as_slice()),
            None => false,
        };
        proof {
            assert(dropit == drop_member_item(it@, exclv));
        }
        if !dropit {
            let ghost outv = out@.map_values(|x: ArrayItem| x@);
            out.push(it);
            proof {
                assert(out@.map_values(|x: ArrayItem| x@) =~= outv.push(itemsv[k as int]));
            }
        }
        k += 1;
    }
    proof {
        assert(itemsv.take(k as int) =~= itemsv);
    }
    out
}

/// Rewrites the entries of one workspace section.
fn exclude_in_entries(entries: Vec<Entry>, excl: &Vec<Vec<u8>>) -> (r: Vec<Entry>)
    ensures
        r@.map_values(|e: Entry| e@) == exclude_entries(
            entries@.map_values(|e: Entry| e@),
            names_view(excl@),
        ),
{
    let ghost esv = entries@.map_values(|e: Entry| e@);
    let ghost exclv = names_view(excl@);
    let target = find_first_exclude(&entries);
    let n0 = entries.len();
    let mut src = entries;
    proof {
        assert forall|i: int| 0 <= i < src@.len() implies (#[trigger] src@[i])@ == esv[i] by {
            assert(esv[i] == src@[i]@);
        }
        if target is Some {
            lemma_first_exclude_props(esv, 0);
        }
    }
    let mut out: Vec<Entry> = Vec::new();
    let mut k: usize = 0;
    while src.len() > 0
        invariant
            k + src@.len() == esv.len(),
            esv.len() == n0,
            exclv == names_view(excl@),
            forall|i: int| 0 <= i < src@.len() ==> (#[trigger] src@[i])@ == esv[k + i],
            match target {
                Option::Some(j) => first_exclude_idx(esv, 0) == Option::Some(j as int) && (
                j as int) < esv.len() && is_exclude_entry(esv[j as int]) && out@.map_values(
                    |e: Entry| e@,
                ) == esv.update(j as int, append_to_exclude(esv[j as int], exclv)).take(k as int),
                Option::None => first_exclude_idx(esv, 0) is None && out@.map_values(
                    |e: Entry| e@,
                ) == esv.take(k as int).map_values(|e: EntryV| filter_members_entry(e, exclv)),
            },
        decreases src@.len(),
    {
        let ghost presrc = src@;
        let e = src.remove(0);
        proof {
            assert(e@ == esv[k as int]);
            assert forall|i: int| 0 <= i < src@.len() implies (#[trigger] src@[i])@ == esv[
                k + 1 + i
            ] by {
                assert(src@[i] == presrc[i + 1]);
            }
        }
        match target {
            Some(j) => {
                let ne = if k == j {
                    let Entry { lead, key_raw, keys, value, line_end } = e;
                    let newvalue = match value {
                        Value::Array { open, items, close } => {
                            let newitems = append_excl_items(items, excl);
                            Value::Array { open, items: newitems, close }
                        },
                        other => other,
                    };
                    let ne = Entry { lead, key_raw, keys, value: newvalue, line_end };
                    proof {
                        assert(ne@ =~= append_to_exclude(esv[k as int], exclv));
                    }
                    ne
                } else {
                    e
                };
                let ghost outv = out@.map_values(|x: Entry| x@);
                let ghost updated = esv.update(j as int, append_to_exclude(esv[j as int], exclv));
                proof {
                    assert(ne@ == updated[k as int]);
                }
                out.push(ne);
                proof {
                    assert(out@.map_values(|x: Entry| x@) =~= outv.push(updated[k as int]));
                    assert(updated.take(k as int + 1) =~= updated.take(k as int).push(
                        updated[k as int],
                    ));
                }
            },
            None => {
                let ne = if entry_is_members(&e) {
                    let Entry { lead, key_raw, keys, value, line_end } = e;
                    let newvalue = match value {
                        Value::Array { open, items, close } => {
                            let newitems = filter_member_items(items, excl);
                            Value::Array { open, items: newitems, close }
                        },
                        other => other,
                    };
                    let ne = Entry { lead, key_raw, keys, value: newvalue, line_end };
                    proof {
                        assert(ne@ =~= filter_members_entry(esv[k as int], exclv));
                    }
                    ne
                } else {
                    proof {
                        assert(e@ == filter_members_entry(esv[k as int], exclv));
                    }
                    e
                };
                let ghost outv = out@.map_values(|x: Entry| x@);
                out.push(ne);
                proof {
                    assert(out@.map_values(|x: Entry| x@) =~= outv.push(
                        filter_members_entry(esv[k as int], exclv),
                    ));
                    assert(esv.take(k as int + 1).map_values(
                        |x: EntryV| filter_members_entry(x, exclv),
                    ) =~= esv.take(k as int).map_values(
                        |x: EntryV| filter_members_entry(x, exclv),
                    ).push(filter_members_entry(esv[k as int], exclv)));
                }
            },
        }
        k += 1;
    }
    proof {
        match target {
            Option::Some(j) => {
                let updated = esv.update(j as int, append_to_exclude(esv[j as int], exclv));
                assert(updated.take(k as int) =~= updated);
            },
            Option::None => {
                assert(esv.take(k as int) =~= esv);
            },
        }
    }
    out
}

fn sec_is_workspace(path: &Vec<Vec<u8>>) -> (r: bool)
    ensures
        r == (crate::document::keys_view(*path).len() == 1 && crate::document::keys_view(
            *path,
        )[0] == k_workspace()),
{
    path.len() == 1 && is_workspace(path[0].as_slice())
}

/// Excludes the given member-path strings from the workspace: appends them
/// to an existing exclusion list, or removes them from the membership list
/// when no exclusion list exists.
pub fn exclude_members(doc: &mut Document, excl: &Vec<Vec<u8>>)
    ensures
        final(doc)@ == apply_exclusions(old(doc)@, names_view(excl@)),
{
    let ghost d = old(doc)@;
    let ghost exclv = names_view(excl@);
    if excl.len() == 0 {
        proof {
            assert(exclv.len() == 0);
        }
        return ;
    }
    let mut olds: Vec<Section> = Vec::new();
    core::mem::swap(&mut olds, &mut doc.sections);
    let mut news: Vec<Section> = Vec::new();
    let ghost ssv = d.sections;
    let m0 = olds.len();
    proof {
        assert forall|i: int| 0 <= i < olds@.len() implies (#[trigger] olds@[i])@ == ssv[i] by {
            assert(ssv[i] == olds@[i]@);
        }
    }
    let mut t: usize = 0;
    while olds.len() > 0
        invariant
            t + olds@.len() == ssv.len(),
            ssv.len() == m0,
            exclv == names_view(excl@),
            forall|i: int| 0 <= i < olds@.len() ==> (#[trigger] olds@[i])@ == ssv[t + i],
            news@.map_values(|s: Section| s@) == ssv.take(t as int).map_values(
                |s: SectionV| exclude_section(s, exclv),
            ),
        decreases olds@.len(),
    {
        let ghost presrc = olds@;
        let s = olds.remove(0);
        proof {
            assert(s@ == ssv[t as int]);
            assert forall|i: int| 0 <= i < olds@.len() implies (#[trigger] olds@[i])@ == ssv[
                t + 1 + i
            ] by {
                assert(olds@[i] == presrc[i + 1]);
            }
        }
        let ns = if sec_is_workspace(&s.path) {
            let Section { lead, header, path, is_array, entries } = s;
            let newentries = exclude_in_entries(entries, excl);
            Section { lead, header, path, is_array, entries: newentries }
        } else {
            s
        };
        let ghost outv = news@.map_values(|x: Section| x@);
        proof {
            assert(ns@ =~= exclude_section(ssv[t as int], exclv));
        }
        news.push(ns);
        proof {
            assert(news@.map_values(|x: Section| x@) =~= outv.push(
                exclude_section(ssv[t as int], exclv),
            ));
            assert(ssv.take(t as int + 1).map_values(|x: SectionV| exclude_section(x, exclv))
                =~= ssv.take(t as int).map_values(|x: SectionV| exclude_section(x, exclv)).push(
                exclude_section(ssv[t as int], exclv),
            ));
        }
        t += 1;
    }
    proof {
        assert(ssv.take(t as int) =~= ssv);
    }
    doc.sections = news;
    proof {
        assert(final(doc)@ =~= apply_exclusions(d, exclv));
    }
}

/// Detects any workspace table, as a section or as a top-level entry.
fn doc_has_workspace(doc: &Document) -> (r: bool)
    ensures
        r == has_workspace(doc@),
{
    let mut i: usize = 0;
    while i < doc.sections.len()
        invariant
            i <= doc.sections@.len(),
            forall|j: int|
                0 <= j < i ==> !((#[trigger] doc@.sections[j]).path.len() >= 1 && doc@.sections[
                    j
                ].path[0] == k_workspace()),
        decreases doc.sections@.len() - i,
    {
        let s = &doc.sections[i];
        proof {
            assert(doc@.sections[i as int] == s@);
        }
        if s.path.len() >= 1 && is_workspace(s.path[0].as_slice()) {
            return true;
        }
        i += 1;
    }
    let mut i: usize = 0;
    while i < doc.prologue.len()
        invariant
            i <= doc.prologue@.len(),
            forall|j: int|
                0 <= j < doc@.sections.len() ==> !((#[trigger] doc@.sections[j]).path.len() >= 1
                    && doc@.sections[j].path[0] == k_workspace()),
            forall|j: int|
                0 <= j < i ==> !((#[trigger] doc@.prologue[j]).keys.len() >= 1 && doc@.prologue[
                    j
                ].keys[0] == k_workspace()),
        decreases doc.prologue@.len() - i,
    {
        let e = &doc.prologue[i];
        proof {
            assert(doc@.prologue[i as int] == e@);
        }
        if e.keys.len() >= 1 && is_workspace(e.keys[0].as_slice()) {
            return true;
        }
        i += 1;
    }
    false
}

/// Appends an empty workspace-marker table when the manifest has none, so
/// the package roots its own workspace of one member.
pub fn promote_to_detached_workspace(doc: &mut Document)
    ensures
        final(doc)@ == promote(old(doc)@),
{
    let ghost d = old(doc)@;
    if doc_has_workspace(doc) {
        return ;
    }
    let mut lead: Vec<u8> = Vec::new();
    lead.push('\n' as u8);
    let mut header: Vec<u8> = Vec::new();
    header.push('[' as u8);
    let wk: [u8; 9] = [
        'w' as u8,
        'o' as u8,
        'r' as u8,
        'k' as u8,
        's' as u8,
        'p' as u8,
        'a' as u8,
        'c' as u8,
        'e' as u8,
    ];
    header.extend_from_slice(wk.as_slice());
    header.push(']' as u8);
    header.push('\n' as u8);
    let mut path: Vec<Vec<u8>> = Vec::new();
    path.push(vstd::slice::slice_to_vec(wk.as_slice()));
    let sec = Section { lead, header, path, is_array: false, entries: Vec::new() };
    proof {
        assert(wk@ =~= k_workspace());
        assert(sec@.header =~= ws_marker_header());
        assert(sec@.path =~= ws_marker_section().path);
        assert(sec@.entries =~= ws_marker_section().entries);
        assert(sec@ =~= ws_marker_section());
    }
    let ghost ssv = doc@.sections;
    doc.sections.push(sec);
    proof {
        assert(doc@.sections =~= d.sections.push(ws_marker_section()));
        assert(final(doc)@ =~= promote(d));
    }
}

} // verus!
