use vstd::prelude::*;

verus! {

// ---------------------------------------------------------------------------
// A format-preserving model of one manifest file.
//
// Every node keeps the exact source bytes of the regions it covers, so that a
// document that is never structurally mutated serializes back byte for byte.
// A mutation replaces only the bytes of the node it rewrites; every sibling
// span is carried through verbatim.
// ---------------------------------------------------------------------------

/// One element of an array value: verbatim leading trivia, the verbatim value
/// text, its decoded content when the value is a single-line string, and the
/// verbatim separator (trailing trivia up to and including a comma; empty for
/// a final element without a trailing comma).
#[derive(Debug)]
pub struct ArrayItem {
    pub lead: Vec<u8>,
    pub raw: Vec<u8>,
    pub sval: Option<Vec<u8>>,
    pub sep: Vec<u8>,
}

/// One `key = value` pair of an inline table, with the same verbatim framing
/// as an array element. `key_raw` covers the key text, the equals sign and the
/// whitespace around it; `keys` is the decoded (possibly dotted) key path.
#[derive(Debug)]
pub struct TableItem {
    pub lead: Vec<u8>,
    pub key_raw: Vec<u8>,
    pub keys: Vec<Vec<u8>>,
    pub raw: Vec<u8>,
    pub sval: Option<Vec<u8>>,
    pub sep: Vec<u8>,
}

/// A value: a scalar kept verbatim (with decoded content when it is a
/// single-line string), an array, or an inline table. For an array or an
/// inline table, `open` is the opening bracket and `close` is the trailing
/// trivia plus the closing bracket.
#[derive(Debug)]
pub enum Value {
    Scalar { raw: Vec<u8>, sval: Option<Vec<u8>> },
    Array { open: Vec<u8>, items: Vec<ArrayItem>, close: Vec<u8> },
    Table { open: Vec<u8>, items: Vec<TableItem>, close: Vec<u8> },
}

/// One `key = value` line (the value may span several physical lines).
/// `lead` holds the blank and comment lines before it; `line_end` holds the
/// trailing whitespace, comment and newline after the value.
#[derive(Debug)]
pub struct Entry {
    pub lead: Vec<u8>,
    pub key_raw: Vec<u8>,
    pub keys: Vec<Vec<u8>>,
    pub value: Value,
    pub line_end: Vec<u8>,
}

/// A bracketed section: its leading trivia, the verbatim header line, the
/// decoded header key path, whether it is an array-of-tables header, and the
/// entries that follow it up to the next header.
#[derive(Debug)]
pub struct Section {
    pub lead: Vec<u8>,
    pub header: Vec<u8>,
    pub path: Vec<Vec<u8>>,
    pub is_array: bool,
    pub entries: Vec<Entry>,
}

/// A whole manifest: the entries before the first header, the sections, and
/// the trivia after the last entry.
#[derive(Debug)]
pub struct Document {
    pub prologue: Vec<Entry>,
    pub sections: Vec<Section>,
    pub trailing: Vec<u8>,
}

// ---------------------------------------------------------------------------
// Mathematical mirrors of the types above, used by every contract.
// ---------------------------------------------------------------------------

#[verifier::ext_equal]
pub struct ArrayItemV {
    pub lead: Seq<u8>,
    pub raw: Seq<u8>,
    pub sval: Option<Seq<u8>>,
    pub sep: Seq<u8>,
}

#[verifier::ext_equal]
pub struct TableItemV {
    pub lead: Seq<u8>,
    pub key_raw: Seq<u8>,
    pub keys: Seq<Seq<u8>>,
    pub raw: Seq<u8>,
    pub sval: Option<Seq<u8>>,
    pub sep: Seq<u8>,
}

#[verifier::ext_equal]
pub enum ValueV {
    Scalar { raw: Seq<u8>, sval: Option<Seq<u8>> },
    Array { open: Seq<u8>, items: Seq<ArrayItemV>, close: Seq<u8> },
    Table { open: Seq<u8>, items: Seq<TableItemV>, close: Seq<u8> },
}

#[verifier::ext_equal]
pub struct EntryV {
    pub lead: Seq<u8>,
    pub key_raw: Seq<u8>,
    pub keys: Seq<Seq<u8>>,
    pub value: ValueV,
    pub line_end: Seq<u8>,
}

#[verifier::ext_equal]
pub struct SectionV {
    pub lead: Seq<u8>,
    pub header: Seq<u8>,
    pub path: Seq<Seq<u8>>,
    pub is_array: bool,
    pub entries: Seq<EntryV>,
}

#[verifier::ext_equal]
pub struct DocumentV {
    pub prologue: Seq<EntryV>,
    pub sections: Seq<SectionV>,
    pub trailing: Seq<u8>,
}

pub open spec fn keys_view(keys: Vec<Vec<u8>>) -> Seq<Seq<u8>> {
    keys@.map_values(|k: Vec<u8>| k@)
}

pub open spec fn opt_view(o: Option<Vec<u8>>) -> Option<Seq<u8>> {
    match o {
        Option::Some(v) => Option::Some(v@),
        Option::None => Option::None,
    }
}

impl View for ArrayItem {
    type V = ArrayItemV;

    open spec fn view(&self) -> ArrayItemV {
        ArrayItemV { lead: self.lead@, raw: self.raw@, sval: opt_view(self.sval), sep: self.sep@ }
    }
}

impl View for TableItem {
    type V = TableItemV;

    open spec fn view(&self) -> TableItemV {
        TableItemV {
            lead: self.lead@,
            key_raw: self.key_raw@,
            keys: keys_view(self.keys),
            raw: self.raw@,
            sval: opt_view(self.sval),
            sep: self.sep@,
        }
    }
}

impl View for Value {
    type V = ValueV;

    open spec fn view(&self) -> ValueV {
        match self {
            Value::Scalar { raw, sval } => ValueV::Scalar { raw: raw@, sval: opt_view(*sval) },
            Value::Array { open, items, close } => ValueV::Array {
                open: open@,
                items: items@.map_values(|it: ArrayItem| it@),
                close: close@,
            },
            Value::Table { open, items, close } => ValueV::Table {
                open: open@,
                items: items@.map_values(|it: TableItem| it@),
                close: close@,
            },
        }
    }
}

impl View for Entry {
    type V = EntryV;

    open spec fn view(&self) -> EntryV {
        EntryV {
            lead: self.lead@,
            key_raw: self.key_raw@,
            keys: keys_view(self.keys),
            value: self.value@,
            line_end: self.line_end@,
        }
    }
}

impl View for Section {
    type V = SectionV;

    open spec fn view(&self) -> SectionV {
        SectionV {
            lead: self.lead@,
            header: self.header@,
            path: keys_view(self.path),
            is_array: self.is_array,
            entries: self.entries@.map_values(|e: Entry| e@),
        }
    }
}

impl View for Document {
    type V = DocumentV;

    open spec fn view(&self) -> DocumentV {
        DocumentV {
            prologue: self.prologue@.map_values(|e: Entry| e@),
            sections: self.sections@.map_values(|s: Section| s@),
            trailing: self.trailing@,
        }
    }
}

// ---------------------------------------------------------------------------
// Serialization, specified bottom-up as concatenation of the verbatim spans.
// ---------------------------------------------------------------------------

pub open spec fn ser_array_item(it: ArrayItemV) -> Seq<u8> {
    it.lead + it.raw + it.sep
}

pub open spec fn ser_table_item(it: TableItemV) -> Seq<u8> {
    it.lead + it.key_raw + it.raw + it.sep
}

pub open spec fn ser_array_items(items: Seq<ArrayItemV>) -> Seq<u8>
    decreases items.len(),
{
    if items.len() == 0 {
        Seq::empty()
    } else {
        ser_array_items(items.drop_last()) + ser_array_item(items.last())
    }
}

pub open spec fn ser_table_items(items: Seq<TableItemV>) -> Seq<u8>
    decreases items.len(),
{
    if items.len() == 0 {
        Seq::empty()
    } else {
        ser_table_items(items.drop_last()) + ser_table_item(items.last())
    }
}

pub open spec fn ser_value(v: ValueV) -> Seq<u8> {
    match v {
        ValueV::Scalar { raw, .. } => raw,
        ValueV::Array { open, items, close } => open + ser_array_items(items) + close,
        ValueV::Table { open, items, close } => open + ser_table_items(items) + close,
    }
}

pub open spec fn ser_entry(e: EntryV) -> Seq<u8> {
    e.lead + e.key_raw + ser_value(e.value) + e.line_end
}

pub open spec fn ser_entries(entries: Seq<EntryV>) -> Seq<u8>
    decreases entries.len(),
{
    if entries.len() == 0 {
        Seq::empty()
    } else {
        ser_entries(entries.drop_last()) + ser_entry(entries.last())
    }
}

pub open spec fn ser_section(s: SectionV) -> Seq<u8> {
    s.lead + s.header + ser_entries(s.entries)
}

pub open spec fn ser_sections(sections: Seq<SectionV>) -> Seq<u8>
    decreases sections.len(),
{
    if sections.len() == 0 {
        Seq::empty()
    } else {
        ser_sections(sections.drop_last()) + ser_section(sections.last())
    }
}

pub open spec fn ser_doc(d: DocumentV) -> Seq<u8> {
    ser_entries(d.prologue) + ser_sections(d.sections) + d.trailing
}

// ---------------------------------------------------------------------------
// Step lemmas for the concatenations above.
// ---------------------------------------------------------------------------

pub proof fn lemma_ser_array_items_push(items: Seq<ArrayItemV>, it: ArrayItemV)
    ensures
        ser_array_items(items.push(it)) == ser_array_items(items) + ser_array_item(it),
{
    assert(items.push(it).drop_last() =~= items);
    assert(items.push(it).last() == it);
}

pub proof fn lemma_ser_table_items_push(items: Seq<TableItemV>, it: TableItemV)
    ensures
        ser_table_items(items.push(it)) == ser_table_items(items) + ser_table_item(it),
{
    assert(items.push(it).drop_last() =~= items);
    assert(items.push(it).last() == it);
}

pub proof fn lemma_ser_entries_push(entries: Seq<EntryV>, e: EntryV)
    ensures
        ser_entries(entries.push(e)) == ser_entries(entries) + ser_entry(e),
{
    assert(entries.push(e).drop_last() =~= entries);
    assert(entries.push(e).last() == e);
}

pub proof fn lemma_ser_sections_push(sections: Seq<SectionV>, s: SectionV)
    ensures
        ser_sections(sections.push(s)) == ser_sections(sections) + ser_section(s),
{
    assert(sections.push(s).drop_last() =~= sections);
    assert(sections.push(s).last() == s);
}

pub proof fn lemma_ser_array_items_take_step(items: Seq<ArrayItemV>, i: int)
    requires
        0 <= i < items.len(),
    ensures
        ser_array_items(items.take(i + 1)) == ser_array_items(items.take(i)) + ser_array_item(
            items[i],
        ),
{
    assert(items.take(i + 1).drop_last() =~= items.take(i));
    assert(items.take(i + 1).last() == items[i]);
}

pub proof fn lemma_ser_table_items_take_step(items: Seq<TableItemV>, i: int)
    requires
        0 <= i < items.len(),
    ensures
        ser_table_items(items.take(i + 1)) == ser_table_items(items.take(i)) + ser_table_item(
            items[i],
        ),
{
    assert(items.take(i + 1).drop_last() =~= items.take(i));
    assert(items.take(i + 1).last() == items[i]);
}

pub proof fn lemma_ser_entries_take_step(entries: Seq<EntryV>, i: int)
    requires
        0 <= i < entries.len(),
    ensures
        ser_entries(entries.take(i + 1)) == ser_entries(entries.take(i)) + ser_entry(entries[i]),
{
    assert(entries.take(i + 1).drop_last() =~= entries.take(i));
    assert(entries.take(i + 1).last() == entries[i]);
}

pub proof fn lemma_ser_sections_take_step(sections: Seq<SectionV>, i: int)
    requires
        0 <= i < sections.len(),
    ensures
        ser_sections(sections.take(i + 1)) == ser_sections(sections.take(i)) + ser_section(
            sections[i],
        ),
{
    assert(sections.take(i + 1).drop_last() =~= sections.take(i));
    assert(sections.take(i + 1).last() == sections[i]);
}

// ---------------------------------------------------------------------------
// The serializer.
// ---------------------------------------------------------------------------

fn append_bytes(out: &mut Vec<u8>, b: &Vec<u8>)
    ensures
        final(out)@ == old(out)@ + b@,
{
    out.extend_from_slice(b.as_slice());
    proof {
        assert(final(out)@ =~= old(out)@ + b@);
    }
}

fn append_value(out: &mut Vec<u8>, v: &Value)
    ensures
        final(out)@ == old(out)@ + ser_value(v@),
{
    match v {
        Value::Scalar { raw, .. } => {
            append_bytes(out, raw);
        },
        Value::Array { open, items, close } => {
            append_bytes(out, open);
            let ghost itemsv = items@.map_values(|it: ArrayItem| it@);
            let mut i: usize = 0;
            while i < items.len()
                invariant
                    i <= items.len(),
                    itemsv == items@.map_values(|it: ArrayItem| it@),
                    out@ == old(out)@ + open@ + ser_array_items(itemsv.take(i as int)),
                decreases items.len() - i,
            {
                let it = &items[i];
                append_bytes(out, &it.lead);
                append_bytes(out, &it.raw);
                append_bytes(out, &it.sep);
                proof {
                    lemma_ser_array_items_take_step(itemsv, i as int);
                    assert(out@ =~= old(out)@ + open@ + ser_array_items(
                        itemsv.take(i as int + 1),
                    ));
                }
                i += 1;
            }
            proof {
                assert(itemsv.take(items.len() as int) =~= itemsv);
            }
            append_bytes(out, close);
            proof {
                assert(out@ =~= old(out)@ + ser_value(v@));
            }
        },
        Value::Table { open, items, close } => {
            append_bytes(out, open);
            let ghost itemsv = items@.map_values(|it: TableItem| it@);
            let mut i: usize = 0;
            while i < items.len()
                invariant
                    i <= items.len(),
                    itemsv == items@.map_values(|it: TableItem| it@),
                    out@ == old(out)@ + open@ + ser_table_items(itemsv.take(i as int)),
                decreases items.len() - i,
            {
                let it = &items[i];
                append_bytes(out, &it.lead);
                append_bytes(out, &it.key_raw);
                append_bytes(out, &it.raw);
                append_bytes(out, &it.sep);
                proof {
                    lemma_ser_table_items_take_step(itemsv, i as int);
                    assert(out@ =~= old(out)@ + open@ + ser_table_items(
                        itemsv.take(i as int + 1),
                    ));
                }
                i += 1;
            }
            proof {
                assert(itemsv.take(items.len() as int) =~= itemsv);
            }
            append_bytes(out, close);
            proof {
                assert(out@ =~= old(out)@ + ser_value(v@));
            }
        },
    }
}

fn append_entry(out: &mut Vec<u8>, e: &Entry)
    ensures
        final(out)@ == old(out)@ + ser_entry(e@),
{
    append_bytes(out, &e.lead);
    append_bytes(out, &e.key_raw);
    append_value(out, &e.value);
    append_bytes(out, &e.line_end);
    proof {
        assert(out@ =~= old(out)@ + ser_entry(e@));
    }
}

fn append_entries(out: &mut Vec<u8>, entries: &Vec<Entry>)
    ensures
        final(out)@ == old(out)@ + ser_entries(entries@.map_values(|e: Entry| e@)),
{
    let ghost entriesv = entries@.map_values(|e: Entry| e@);
    let mut i: usize = 0;
    while i < entries.len()
        invariant
            i <= entries.len(),
            entriesv == entries@.map_values(|e: Entry| e@),
            out@ == old(out)@ + ser_entries(entriesv.take(i as int)),
        decreases entries.len() - i,
    {
        append_entry(out, &entries[i]);
        proof {
            lemma_ser_entries_take_step(entriesv, i as int);
        }
        i += 1;
    }
    proof {
        assert(entriesv.take(entries.len() as int) =~= entriesv);
    }
}

/// Renders a document back to bytes: exactly the concatenation of the spans
/// the document holds, so an unmutated document reproduces its source.
pub fn serialize(doc: &Document) -> (out: Vec<u8>)
    ensures
        out@ == ser_doc(doc@),
{
    let mut out: Vec<u8> = Vec::new();
    append_entries(&mut out, &doc.prologue);
    let ghost sectionsv = doc.sections@.map_values(|s: Section| s@);
    let mut i: usize = 0;
    while i < doc.sections.len()
        invariant
            i <= doc.sections.len(),
            sectionsv == doc.sections@.map_values(|s: Section| s@),
            out@ == ser_entries(doc@.prologue) + ser_sections(sectionsv.take(i as int)),
        decreases doc.sections.len() - i,
    {
        let s = &doc.sections[i];
        append_bytes(&mut out, &s.lead);
        append_bytes(&mut out, &s.header);
        append_entries(&mut out, &s.entries);
        proof {
            lemma_ser_sections_take_step(sectionsv, i as int);
            assert(out@ =~= ser_entries(doc@.prologue) + ser_sections(
                sectionsv.take(i as int + 1),
            ));
        }
        i += 1;
    }
    proof {
        assert(sectionsv.take(doc.sections.len() as int) =~= sectionsv);
    }
    append_bytes(&mut out, &doc.trailing);
    proof {
        assert(out@ =~= ser_doc(doc@));
    }
    out
}

} // verus!
