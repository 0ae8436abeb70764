use vstd::prelude::*;

use crate::document::{
    ArrayItem, ArrayItemV, Document, DocumentV, Entry, EntryV, Section, SectionV, TableItem,
    TableItemV, Value,
    lemma_ser_array_items_push, lemma_ser_entries_push, lemma_ser_table_items_push,
    ser_array_item, ser_array_items, ser_doc, ser_entries, ser_entry, ser_section, ser_sections,
    ser_table_item, ser_table_items, ser_value,
};

verus! {

/// Why a byte sequence was rejected, together with the byte offset at which
/// the problem was found.
#[derive(Clone, Copy, Debug, PartialEq, Eq, Structural)]
pub enum ParseErrorKind {
    ExpectedKey,
    ExpectedEquals,
    ExpectedValue,
    ExpectedNewline,
    ExpectedCommaOrClose,
    ExpectedCloseBracket,
    UnclosedString,
    UnclosedArray,
    UnclosedTable,
    BadEscape,
    BadKey,
}

/// A structured parse failure: the location and the reason.
#[derive(Clone, Copy, Debug, PartialEq, Eq, Structural)]
pub struct ParseError {
    pub pos: usize,
    pub kind: ParseErrorKind,
}

pub proof fn lemma_subrange_concat(s: Seq<u8>, a: int, b: int, c: int)
    requires
        0 <= a <= b <= c <= s.len(),
    ensures
        s.subrange(a, b) + s.subrange(b, c) == s.subrange(a, c),
{
    assert(s.subrange(a, b) + s.subrange(b, c) =~= s.subrange(a, c));
}

/// Copies the bytes of `input` between the two offsets.
fn span(input: &[u8], i: usize, j: usize) -> (v: Vec<u8>)
    requires
        i <= j <= input@.len(),
    ensures
        v@ == input@.subrange(i as int, j as int),
{
    vstd::slice::slice_to_vec(vstd::slice::slice_subrange(input, i, j))
}

fn is_bare_key_char(c: u8) -> bool {
    ('a' as u8 <= c && c <= 'z' as u8) || ('A' as u8 <= c && c <= 'Z' as u8) || ('0' as u8 <= c
        && c <= '9' as u8) || c == '_' as u8 || c == '-' as u8
}

fn is_hex_digit(c: u8) -> bool {
    ('0' as u8 <= c && c <= '9' as u8) || ('a' as u8 <= c && c <= 'f' as u8) || ('A' as u8 <= c
        && c <= 'F' as u8)
}

/// A position forced into the given bounds.
pub open spec fn clamp_pos(v: int, lo: int, hi: int) -> int {
    if v < lo {
        lo
    } else if v > hi {
        hi
    } else {
        v
    }
}

/// First offset at or after `i` that holds neither a space nor a tab.
pub open spec fn ws_end(s: Seq<u8>, i: int) -> int
    decreases s.len() - i,
{
    if i < 0 || i >= s.len() {
        i
    } else if s[i] == ' ' as u8 || s[i] == '\t' as u8 {
        ws_end(s, i + 1)
    } else {
        i
    }
}

/// The offset just past the next newline at or after `i`, or the end of the
/// input.
pub open spec fn past_newline(s: Seq<u8>, i: int) -> int
    decreases s.len() - i,
{
    if i < 0 || i >= s.len() {
        i
    } else if s[i] == '\n' as u8 {
        i + 1
    } else {
        past_newline(s, i + 1)
    }
}

/// The end of the run of whole blank and comment lines starting at `i`: the
/// first line start that carries content, or the end of the input.
pub open spec fn trivia_end(s: Seq<u8>, i: int) -> int
    decreases s.len() - i,
{
    if i < 0 || i >= s.len() {
        i
    } else {
        let k = clamp_pos(ws_end(s, i), i, s.len() as int);
        if k >= s.len() {
            k
        } else if s[k] == '#' as u8 {
            trivia_end(s, clamp_pos(past_newline(s, k + 1), k + 1, s.len() as int))
        } else if s[k] == '\n' as u8 {
            trivia_end(s, k + 1)
        } else if s[k] == '\r' as u8 && k + 1 < s.len() && s[k + 1] == '\n' as u8 {
            trivia_end(s, k + 2)
        } else {
            i
        }
    }
}

proof fn lemma_ws_end_step(s: Seq<u8>, i: int)
    requires
        0 <= i < s.len(),
        s[i] == ' ' as u8 || s[i] == '\t' as u8,
    ensures
        ws_end(s, i) == ws_end(s, i + 1),
{
}

proof fn lemma_past_newline_step(s: Seq<u8>, i: int)
    requires
        0 <= i < s.len(),
        s[i] != '\n' as u8,
    ensures
        past_newline(s, i) == past_newline(s, i + 1),
{
}

/// Advances over spaces and tabs.
fn scan_ws(input: &[u8], start: usize) -> (end: usize)
    requires
        start <= input@.len(),
    ensures
        start <= end <= input@.len(),
        end == ws_end(input@, start as int),
{
    let mut j = start;
    while j < input.len() && (input[j] == ' ' as u8 || input[j] == '\t' as u8)
        invariant
            start <= j <= input@.len(),
            ws_end(input@, start as int) == ws_end(input@, j as int),
        decreases input@.len() - j,
    {
        proof {
            lemma_ws_end_step(input@, j as int);
        }
        j += 1;
    }
    j
}

/// Advances past the next newline (or to the end of the input).
fn scan_to_newline(input: &[u8], start: usize) -> (end: usize)
    requires
        start <= input@.len(),
    ensures
        start <= end <= input@.len(),
        end == past_newline(input@, start as int),
{
    let mut j = start;
    while j < input.len() && input[j] != '\n' as u8
        invariant
            start <= j <= input@.len(),
            past_newline(input@, start as int) == past_newline(input@, j as int),
        decreases input@.len() - j,
    {
        proof {
            lemma_past_newline_step(input@, j as int);
        }
        j += 1;
    }
    if j < input.len() {
        j + 1
    } else {
        j
    }
}

/// Advances over whole lines that hold only whitespace or a comment.
/// Stops at the first line that carries content, without consuming its
/// leading whitespace.
fn scan_trivia(input: &[u8], start: usize) -> (end: usize)
    requires
        start <= input@.len(),
    ensures
        start <= end <= input@.len(),
        end == trivia_end(input@, start as int),
{
    let mut i = start;
    loop
        invariant
            start <= i <= input@.len(),
            trivia_end(input@, start as int) == trivia_end(input@, i as int),
        decreases input@.len() - i,
    {
        let k = scan_ws(input, i);
        if k == input.len() {
            proof {
                assert(trivia_end(input@, i as int) == k);
            }
            return k;
        }
        let c = input[k];
        if c == '#' as u8 {
            i = scan_to_newline(input, k + 1);
        } else if c == '\n' as u8 {
            i = k + 1;
        } else if c == '\r' as u8 && k + 1 < input.len() && input[k + 1] == '\n' as u8 {
            i = k + 2;
        } else {
            proof {
                assert(trivia_end(input@, i as int) == i);
            }
            return i;
        }
    }
}

// ---------------------------------------------------------------------------
// The shape a parsed document always has: headers begin with an opening
// bracket, entries begin with a key character, and the trailing bytes are a
// maximal run of blank and comment lines.
// ---------------------------------------------------------------------------

pub open spec fn entry_shaped(e: EntryV) -> bool {
    &&& e.key_raw.len() > 0
    &&& e.key_raw[0] != '[' as u8
    &&& e.key_raw[0] != ' ' as u8
    &&& e.key_raw[0] != '\t' as u8
    &&& e.key_raw[0] != '\n' as u8
    &&& e.key_raw[0] != '#' as u8
}

pub open spec fn section_shaped(s: SectionV) -> bool {
    &&& s.header.len() > 0
    &&& s.header[0] == '[' as u8
    &&& forall|j: int| 0 <= j < s.entries.len() ==> entry_shaped(#[trigger] s.entries[j])
}

pub open spec fn doc_shaped(d: DocumentV) -> bool {
    &&& forall|i: int| 0 <= i < d.prologue.len() ==> entry_shaped(#[trigger] d.prologue[i])
    &&& forall|i: int| 0 <= i < d.sections.len() ==> section_shaped(#[trigger] d.sections[i])
}

proof fn lemma_ws_end_bounds(s: Seq<u8>, i: int)
    requires
        0 <= i <= s.len(),
    ensures
        i <= ws_end(s, i) <= s.len(),
        ws_end(s, i) < s.len() ==> s[ws_end(s, i)] != ' ' as u8 && s[ws_end(s, i)] != '\t' as u8,
    decreases s.len() - i,
{
    if i < s.len() && (s[i] == ' ' as u8 || s[i] == '\t' as u8) {
        lemma_ws_end_bounds(s, i + 1);
    }
}

proof fn lemma_trivia_end_ge(s: Seq<u8>, i: int)
    requires
        0 <= i,
    ensures
        trivia_end(s, i) >= i,
    decreases s.len() - i,
{
    if i < s.len() {
        let k = clamp_pos(ws_end(s, i), i, s.len() as int);
        if k >= s.len() {
        } else if s[k] == '#' as u8 {
            lemma_trivia_end_ge(s, clamp_pos(past_newline(s, k + 1), k + 1, s.len() as int));
        } else if s[k] == '\n' as u8 {
            lemma_trivia_end_ge(s, k + 1);
        } else if s[k] == '\r' as u8 && k + 1 < s.len() && s[k + 1] == '\n' as u8 {
            lemma_trivia_end_ge(s, k + 2);
        }
    }
}

proof fn lemma_trivia_end_idem(s: Seq<u8>, i: int)
    requires
        0 <= i <= s.len(),
    ensures
        trivia_end(s, trivia_end(s, i)) == trivia_end(s, i),
    decreases s.len() - i,
{
    if i < s.len() {
        let k = clamp_pos(ws_end(s, i), i, s.len() as int);
        if k >= s.len() {
        } else if s[k] == '#' as u8 {
            lemma_trivia_end_idem(s, clamp_pos(past_newline(s, k + 1), k + 1, s.len() as int));
        } else if s[k] == '\n' as u8 {
            lemma_trivia_end_idem(s, k + 1);
        } else if s[k] == '\r' as u8 && k + 1 < s.len() && s[k + 1] == '\n' as u8 {
            lemma_trivia_end_idem(s, k + 2);
        }
    }
}

/// Where a trivia run stops short of the input's end, the first byte after
/// the line's leading whitespace is real content: not whitespace, not a
/// comment, not a line break.
proof fn lemma_trivia_stop(s: Seq<u8>, i: int)
    requires
        0 <= i < s.len(),
        trivia_end(s, i) == i,
    ensures
        ({
            let k = ws_end(s, i);
            &&& i <= k < s.len()
            &&& s[k] != ' ' as u8
            &&& s[k] != '\t' as u8
            &&& s[k] != '#' as u8
            &&& s[k] != '\n' as u8
            &&& !(s[k] == '\r' as u8 && k + 1 < s.len() && s[k + 1] == '\n' as u8)
        }),
{
    lemma_ws_end_bounds(s, i);
    let k = clamp_pos(ws_end(s, i), i, s.len() as int);
    assert(k == ws_end(s, i));
    if k >= s.len() {
        assert(trivia_end(s, i) == k);
        assert(false);
    } else if s[k] == '#' as u8 {
        let nx = clamp_pos(past_newline(s, k + 1), k + 1, s.len() as int);
        lemma_trivia_end_ge(s, nx);
        assert(false);
    } else if s[k] == '\n' as u8 {
        lemma_trivia_end_ge(s, k + 1);
        assert(false);
    } else if s[k] == '\r' as u8 && k + 1 < s.len() && s[k + 1] == '\n' as u8 {
        lemma_trivia_end_ge(s, k + 2);
        assert(false);
    }
}

/// Advances over whitespace, newlines and comments inside a bracketed value.
fn scan_item_trivia(input: &[u8], start: usize) -> (end: usize)
    requires
        start <= input@.len(),
    ensures
        start <= end <= input@.len(),
{
    let mut i = start;
    loop
        invariant
            start <= i <= input@.len(),
        decreases input@.len() - i,
    {
        if i == input.len() {
            return i;
        }
        let c = input[i];
        if c == ' ' as u8 || c == '\t' as u8 || c == '\n' as u8 || c == '\r' as u8 {
            i += 1;
        } else if c == '#' as u8 {
            i = scan_to_newline(input, i + 1);
        } else {
            return i;
        }
    }
}

/// Scans a string value starting at a quote; returns the offset just past the
/// closing delimiter, plus the decoded content when the string is single-line
/// and free of unicode escapes.
fn scan_string(input: &[u8], start: usize) -> (r: Result<(usize, Option<Vec<u8>>), ParseError>)
    requires
        start < input@.len(),
        input@[start as int] == '"' as u8 || input@[start as int] == '\'' as u8,
    ensures
        r matches Ok(p) ==> start < p.0 <= input@.len(),
{
    let ilen = input.len();
    let q = input[start];
    if ilen - start > 2 && input[start + 1] == q && input[start + 2] == q {
        // multi-line string; the content is kept verbatim only
        let mut j = start + 3;
        loop
            invariant
                start + 3 <= j <= input@.len(),
                input@.len() <= usize::MAX,
            decreases input@.len() - j,
        {
            if j >= input.len() {
                return Err(ParseError { pos: start, kind: ParseErrorKind::UnclosedString });
            }
            let c = input[j];
            if q == '"' as u8 && c == '\\' as u8 {
                if j + 1 >= input.len() {
                    return Err(ParseError { pos: j, kind: ParseErrorKind::UnclosedString });
                }
                j += 2;
            } else if c == q && input.len() - j > 2 && input[j + 1] == q && input[j + 2] == q {
                let mut e = j + 3;
                if e < input.len() && input[e] == q {
                    e += 1;
                    if e < input.len() && input[e] == q {
                        e += 1;
                    }
                }
                return Ok((e, None));
            } else {
                j += 1;
            }
        }
    } else if q == '\'' as u8 {
        // single-line literal string: content is verbatim
        let mut j = start + 1;
        loop
            invariant
                start + 1 <= j <= input@.len(),
                input@.len() <= usize::MAX,
            decreases input@.len() - j,
        {
            if j >= input.len() {
                return Err(ParseError { pos: start, kind: ParseErrorKind::UnclosedString });
            }
            let c = input[j];
            if c == '\'' as u8 {
                let content = span(input, start + 1, j);
                return Ok((j + 1, Some(content)));
            } else if c == '\n' as u8 || c == '\r' as u8 {
                return Err(ParseError { pos: j, kind: ParseErrorKind::UnclosedString });
            } else {
                j += 1;
            }
        }
    } else {
        // single-line basic string: decode the simple escapes
        let mut decoded: Vec<u8> = Vec::new();
        let mut complex = false;
        let mut j = start + 1;
        loop
            invariant
                start + 1 <= j <= input@.len(),
                input@.len() <= usize::MAX,
            decreases input@.len() - j,
        {
            if j >= input.len() {
                return Err(ParseError { pos: start, kind: ParseErrorKind::UnclosedString });
            }
            let c = input[j];
            if c == '"' as u8 {
                let sval = if complex {
                    None
                } else {
                    Some(decoded)
                };
                return Ok((j + 1, sval));
            } else if c == '\n' as u8 || c == '\r' as u8 {
                return Err(ParseError { pos: j, kind: ParseErrorKind::UnclosedString });
            } else if c == '\\' as u8 {
                if j + 1 >= input.len() {
                    return Err(ParseError { pos: j, kind: ParseErrorKind::UnclosedString });
                }
                let e = input[j + 1];
                if e == 'n' as u8 {
                    decoded.push('\n' as u8);
                    j += 2;
                } else if e == 't' as u8 {
                    decoded.push('\t' as u8);
                    j += 2;
                } else if e == 'r' as u8 {
                    decoded.push('\r' as u8);
                    j += 2;
                } else if e == 'b' as u8 {
                    decoded.push(8);
                    j += 2;
                } else if e == 'f' as u8 {
                    decoded.push(12);
                    j += 2;
                } else if e == '"' as u8 {
                    decoded.push('"' as u8);
                    j += 2;
                } else if e == '\\' as u8 {
                    decoded.push('\\' as u8);
                    j += 2;
                } else if e == 'u' as u8 || e == 'U' as u8 {
                    let n: usize = if e == 'u' as u8 {
                        4
                    } else {
                        8
                    };
                    if input.len() - (j + 1) <= n {
                        return Err(ParseError { pos: j, kind: ParseErrorKind::UnclosedString });
                    }
                    let mut k: usize = 0;
                    while k < n
                        invariant
                            k <= n,
                            n < input@.len() - (j + 1),
                            j + 1 < input@.len(),
                            input@.len() <= usize::MAX,
                        decreases n - k,
                    {
                        if !is_hex_digit(input[j + 2 + k]) {
                            return Err(
                                ParseError { pos: j + 2 + k, kind: ParseErrorKind::BadEscape },
                            );
                        }
                        k += 1;
                    }
                    complex = true;
                    j += 2 + n;
                } else {
                    return Err(ParseError { pos: j + 1, kind: ParseErrorKind::BadEscape });
                }
            } else {
                decoded.push(c);
                j += 1;
            }
        }
    }
}

/// Scans a scalar token: everything up to a separator, bracket, comment or
/// line break, with trailing whitespace left for the caller.
fn scan_scalar(input: &[u8], start: usize) -> (r: Result<usize, ParseError>)
    requires
        start <= input@.len(),
    ensures
        r matches Ok(end) ==> start < end <= input@.len(),
{
    let mut j = start;
    while j < input.len() && input[j] != ',' as u8 && input[j] != ']' as u8 && input[j]
        != '}' as u8 && input[j] != '#' as u8 && input[j] != '\n' as u8 && input[j] != '\r' as u8
        invariant
            start <= j <= input@.len(),
        decreases input@.len() - j,
    {
        j += 1;
    }
    let mut e = j;
    while e > start && (input[e - 1] == ' ' as u8 || input[e - 1] == '\t' as u8)
        invariant
            start <= e <= j <= input@.len(),
        decreases e,
    {
        e -= 1;
    }
    if e == start {
        Err(ParseError { pos: start, kind: ParseErrorKind::ExpectedValue })
    } else {
        Ok(e)
    }
}

/// Scans one key: bare, basic-quoted or literal-quoted; returns the decoded
/// key and the offset just past it.
fn parse_key(input: &[u8], start: usize) -> (r: Result<(Vec<u8>, usize), ParseError>)
    requires
        start <= input@.len(),
    ensures
        r matches Ok(p) ==> start < p.1 <= input@.len(),
{
    if start >= input.len() {
        return Err(ParseError { pos: start, kind: ParseErrorKind::ExpectedKey });
    }
    let c = input[start];
    if c == '"' as u8 || c == '\'' as u8 {
        let (end, sval) = scan_string(input, start)?;
        match sval {
            Some(k) => Ok((k, end)),
            None => Err(ParseError { pos: start, kind: ParseErrorKind::BadKey }),
        }
    } else {
        let mut j = start;
        while j < input.len() && is_bare_key_char(input[j])
            invariant
                start <= j <= input@.len(),
            decreases input@.len() - j,
        {
            j += 1;
        }
        if j == start {
            return Err(ParseError { pos: start, kind: ParseErrorKind::ExpectedKey });
        }
        Ok((span(input, start, j), j))
    }
}

/// Scans a dotted key path; returns the decoded keys and the offset just past
/// the last key.
fn parse_keypath(input: &[u8], start: usize) -> (r: Result<(Vec<Vec<u8>>, usize), ParseError>)
    requires
        start <= input@.len(),
    ensures
        r matches Ok(p) ==> start < p.1 <= input@.len(),
{
    let (k0, mut j) = parse_key(input, start)?;
    let mut keys: Vec<Vec<u8>> = Vec::new();
    keys.push(k0);
    loop
        invariant
            start < j <= input@.len(),
        decreases input@.len() - j,
    {
        let w = scan_ws(input, j);
        if w < input.len() && input[w] == '.' as u8 {
            let w2 = scan_ws(input, w + 1);
            let (k, j2) = parse_key(input, w2)?;
            keys.push(k);
            j = j2;
        } else {
            return Ok((keys, j));
        }
    }
}

/// Scans the end of a line after a value or header: whitespace, an optional
/// comment, then a newline or the end of the input.
fn scan_line_end(input: &[u8], start: usize) -> (r: Result<usize, ParseError>)
    requires
        start <= input@.len(),
    ensures
        r matches Ok(end) ==> start <= end <= input@.len(),
{
    let w = scan_ws(input, start);
    if w == input.len() {
        Ok(w)
    } else if input[w] == '#' as u8 {
        Ok(scan_to_newline(input, w + 1))
    } else if input[w] == '\n' as u8 {
        Ok(w + 1)
    } else if input[w] == '\r' as u8 && w + 1 < input.len() && input[w + 1] == '\n' as u8 {
        Ok(w + 2)
    } else {
        Err(ParseError { pos: w, kind: ParseErrorKind::ExpectedNewline })
    }
}

/// Scans any value and returns the offset just past it, together with the
/// decoded content when it is a single-line string. Nested values inside
/// arrays and inline tables are traversed but kept verbatim.
fn scan_value_span(input: &[u8], start: usize) -> (r: Result<
    (usize, Option<Vec<u8>>),
    ParseError,
>)
    requires
        start <= input@.len(),
    ensures
        r matches Ok(p) ==> start < p.0 <= input@.len(),
    decreases input@.len() - start,
{
    if start >= input.len() {
        return Err(ParseError { pos: start, kind: ParseErrorKind::ExpectedValue });
    }
    let c = input[start];
    if c == '"' as u8 || c == '\'' as u8 {
        scan_string(input, start)
    } else if c == '[' as u8 {
        let mut j = start + 1;
        loop
            invariant
                start < j <= input@.len(),
            decreases input@.len() - j,
        {
            let t = scan_item_trivia(input, j);
            if t == input.len() {
                return Err(ParseError { pos: start, kind: ParseErrorKind::UnclosedArray });
            }
            if input[t] == ']' as u8 {
                return Ok((t + 1, None));
            }
            let (vend, _) = scan_value_span(input, t)?;
            let t2 = scan_item_trivia(input, vend);
            if t2 == input.len() {
                return Err(ParseError { pos: start, kind: ParseErrorKind::UnclosedArray });
            }
            if input[t2] == ',' as u8 {
                j = t2 + 1;
            } else if input[t2] == ']' as u8 {
                return Ok((t2 + 1, None));
            } else {
                return Err(ParseError { pos: t2, kind: ParseErrorKind::ExpectedCommaOrClose });
            }
        }
    } else if c == '{' as u8 {
        let mut j = start + 1;
        loop
            invariant
                start < j <= input@.len(),
            decreases input@.len() - j,
        {
            let t = scan_item_trivia(input, j);
            if t == input.len() {
                return Err(ParseError { pos: start, kind: ParseErrorKind::UnclosedTable });
            }
            if input[t] == '}' as u8 {
                return Ok((t + 1, None));
            }
            let (_, kend) = parse_keypath(input, t)?;
            let w = scan_ws(input, kend);
            if w >= input.len() || input[w] != '=' as u8 {
                return Err(ParseError { pos: w, kind: ParseErrorKind::ExpectedEquals });
            }
            let vstart = scan_ws(input, w + 1);
            let (vend, _) = scan_value_span(input, vstart)?;
            let t2 = scan_item_trivia(input, vend);
            if t2 == input.len() {
                return Err(ParseError { pos: start, kind: ParseErrorKind::UnclosedTable });
            }
            if input[t2] == ',' as u8 {
                j = t2 + 1;
            } else if input[t2] == '}' as u8 {
                return Ok((t2 + 1, None));
            } else {
                return Err(ParseError { pos: t2, kind: ParseErrorKind::ExpectedCommaOrClose });
            }
        }
    } else {
        match scan_scalar(input, start) {
            Ok(end) => Ok((end, None)),
            Err(e) => Err(e),
        }
    }
}

/// Parses an array value starting at its opening bracket, keeping every
/// element's verbatim text.
fn parse_array(input: &[u8], start: usize) -> (r: Result<(Value, usize), ParseError>)
    requires
        start < input@.len(),
        input@[start as int] == '[' as u8,
    ensures
        r matches Ok(p) ==> {
            &&& start < p.1 <= input@.len()
            &&& ser_value(p.0@) == input@.subrange(start as int, p.1 as int)
            &&& p.0 is Array
        },
{
    let ilen = input.len();
    assert(start < ilen);
    let open = span(input, start, start + 1);
    let mut items: Vec<ArrayItem> = Vec::new();
    let mut j = start + 1;
    loop
        invariant
            start < j <= input@.len(),
            open@ == input@.subrange(start as int, start as int + 1),
            ser_array_items(items@.map_values(|it: ArrayItem| it@)) == input@.subrange(
                start as int + 1,
                j as int,
            ),
        decreases input@.len() - j,
    {
        let ghost itemsv = items@.map_values(|it: ArrayItem| it@);
        let t = scan_item_trivia(input, j);
        if t == input.len() {
            return Err(ParseError { pos: start, kind: ParseErrorKind::UnclosedArray });
        }
        if input[t] == ']' as u8 {
            let close = span(input, j, t + 1);
            let v = Value::Array { open, items, close };
            proof {
                lemma_subrange_concat(input@, start as int + 1, j as int, t as int + 1);
                lemma_subrange_concat(input@, start as int, start as int + 1, t as int + 1);
            }
            return Ok((v, t + 1));
        }
        let lead = span(input, j, t);
        let (vend, sval) = scan_value_span(input, t)?;
        let raw = span(input, t, vend);
        let t2 = scan_item_trivia(input, vend);
        if t2 == input.len() {
            return Err(ParseError { pos: start, kind: ParseErrorKind::UnclosedArray });
        }
        if input[t2] == ',' as u8 {
            let sep = span(input, vend, t2 + 1);
            let it = ArrayItem { lead, raw, sval, sep };
            proof {
                lemma_ser_array_items_push(itemsv, it@);
                lemma_subrange_concat(input@, j as int, t as int, vend as int);
                lemma_subrange_concat(input@, j as int, vend as int, t2 as int + 1);
                lemma_subrange_concat(input@, start as int + 1, j as int, t2 as int + 1);
                assert(items@.push(it).map_values(|x: ArrayItem| x@) =~= itemsv.push(it@));
            }
            items.push(it);
            j = t2 + 1;
        } else if input[t2] == ']' as u8 {
            let sep = span(input, vend, vend);
            let it = ArrayItem { lead, raw, sval, sep };
            let close = span(input, vend, t2 + 1);
            proof {
                lemma_ser_array_items_push(itemsv, it@);
                lemma_subrange_concat(input@, j as int, t as int, vend as int);
                assert(ser_array_item(it@) =~= input@.subrange(j as int, vend as int));
                lemma_subrange_concat(input@, start as int + 1, j as int, vend as int);
                assert(items@.push(it).map_values(|x: ArrayItem| x@) =~= itemsv.push(it@));
                lemma_subrange_concat(input@, start as int + 1, vend as int, t2 as int + 1);
                lemma_subrange_concat(input@, start as int, start as int + 1, t2 as int + 1);
            }
            items.push(it);
            let v = Value::Array { open, items, close };
            return Ok((v, t2 + 1));
        } else {
            return Err(ParseError { pos: t2, kind: ParseErrorKind::ExpectedCommaOrClose });
        }
    }
}

/// Parses an inline table starting at its opening brace, keeping every
/// pair's verbatim text.
fn parse_inline_table(input: &[u8], start: usize) -> (r: Result<(Value, usize), ParseError>)
    requires
        start < input@.len(),
        input@[start as int] == '{' as u8,
    ensures
        r matches Ok(p) ==> {
            &&& start < p.1 <= input@.len()
            &&& ser_value(p.0@) == input@.subrange(start as int, p.1 as int)
            &&& p.0 is Table
        },
{
    let ilen = input.len();
    assert(start < ilen);
    let open = span(input, start, start + 1);
    let mut items: Vec<TableItem> = Vec::new();
    let mut j = start + 1;
    loop
        invariant
            start < j <= input@.len(),
            open@ == input@.subrange(start as int, start as int + 1),
            ser_table_items(items@.map_values(|it: TableItem| it@)) == input@.subrange(
                start as int + 1,
                j as int,
            ),
        decreases input@.len() - j,
    {
        let ghost itemsv = items@.map_values(|it: TableItem| it@);
        let t = scan_item_trivia(input, j);
        if t == input.len() {
            return Err(ParseError { pos: start, kind: ParseErrorKind::UnclosedTable });
        }
        if input[t] == '}' as u8 {
            let close = span(input, j, t + 1);
            let v = Value::Table { open, items, close };
            proof {
                lemma_subrange_concat(input@, start as int + 1, j as int, t as int + 1);
                lemma_subrange_concat(input@, start as int, start as int + 1, t as int + 1);
            }
            return Ok((v, t + 1));
        }
        let lead = span(input, j, t);
        let (keys, kend) = parse_keypath(input, t)?;
        let w = scan_ws(input, kend);
        if w >= input.len() || input[w] != '=' as u8 {
            return Err(ParseError { pos: w, kind: ParseErrorKind::ExpectedEquals });
        }
        let vstart = scan_ws(input, w + 1);
        let key_raw = span(input, t, vstart);
        let (vend, sval) = scan_value_span(input, vstart)?;
        let raw = span(input, vstart, vend);
        let t2 = scan_item_trivia(input, vend);
        if t2 == input.len() {
            return Err(ParseError { pos: start, kind: ParseErrorKind::UnclosedTable });
        }
        if input[t2] == ',' as u8 {
            let sep = span(input, vend, t2 + 1);
            let it = TableItem { lead, key_raw, keys, raw, sval, sep };
            proof {
                lemma_ser_table_items_push(itemsv, it@);
                lemma_subrange_concat(input@, j as int, t as int, vstart as int);
                lemma_subrange_concat(input@, j as int, vstart as int, vend as int);
                lemma_subrange_concat(input@, j as int, vend as int, t2 as int + 1);
                lemma_subrange_concat(input@, start as int + 1, j as int, t2 as int + 1);
                assert(items@.push(it).map_values(|x: TableItem| x@) =~= itemsv.push(it@));
            }
            items.push(it);
            j = t2 + 1;
        } else if input[t2] == '}' as u8 {
            let sep = span(input, vend, vend);
            let it = TableItem { lead, key_raw, keys, raw, sval, sep };
            let close = span(input, vend, t2 + 1);
            proof {
                lemma_ser_table_items_push(itemsv, it@);
                lemma_subrange_concat(input@, j as int, t as int, vstart as int);
                lemma_subrange_concat(input@, j as int, vstart as int, vend as int);
                assert(ser_table_item(it@) =~= input@.subrange(j as int, vend as int));
                lemma_subrange_concat(input@, start as int + 1, j as int, vend as int);
                assert(items@.push(it).map_values(|x: TableItem| x@) =~= itemsv.push(it@));
                lemma_subrange_concat(input@, start as int + 1, vend as int, t2 as int + 1);
                lemma_subrange_concat(input@, start as int, start as int + 1, t2 as int + 1);
            }
            items.push(it);
            let v = Value::Table { open, items, close };
            return Ok((v, t2 + 1));
        } else {
            return Err(ParseError { pos: t2, kind: ParseErrorKind::ExpectedCommaOrClose });
        }
    }
}

/// Parses one value in structured form.
fn parse_value(input: &[u8], start: usize) -> (r: Result<(Value, usize), ParseError>)
    requires
        start <= input@.len(),
    ensures
        r matches Ok(p) ==> {
            &&& start < p.1 <= input@.len()
            &&& ser_value(p.0@) == input@.subrange(start as int, p.1 as int)
        },
{
    if start >= input.len() {
        return Err(ParseError { pos: start, kind: ParseErrorKind::ExpectedValue });
    }
    let c = input[start];
    if c == '"' as u8 || c == '\'' as u8 {
        let (end, sval) = scan_string(input, start)?;
        let raw = span(input, start, end);
        Ok((Value::Scalar { raw, sval }, end))
    } else if c == '[' as u8 {
        parse_array(input, start)
    } else if c == '{' as u8 {
        parse_inline_table(input, start)
    } else {
        let end = scan_scalar(input, start)?;
        let raw = span(input, start, end);
        Ok((Value::Scalar { raw, sval: None }, end))
    }
}

/// Parses one `key = value` entry starting at its key, attaching the given
/// leading trivia.
fn parse_entry(input: &[u8], lead: Vec<u8>, start: usize) -> (r: Result<
    (Entry, usize),
    ParseError,
>)
    requires
        start < input@.len(),
    ensures
        r matches Ok(p) ==> {
            &&& start < p.1 <= input@.len()
            &&& ser_entry(p.0@) == lead@ + input@.subrange(start as int, p.1 as int)
            &&& p.0.key_raw@.len() > 0
            &&& p.0.key_raw@[0] == input@[start as int]
        },
{
    let (keys, kend) = parse_keypath(input, start)?;
    let w = scan_ws(input, kend);
    if w >= input.len() || input[w] != '=' as u8 {
        return Err(ParseError { pos: w, kind: ParseErrorKind::ExpectedEquals });
    }
    let vstart = scan_ws(input, w + 1);
    let key_raw = span(input, start, vstart);
    let (value, vend) = parse_value(input, vstart)?;
    let end = scan_line_end(input, vend)?;
    let line_end = span(input, vend, end);
    let e = Entry { lead, key_raw, keys, value, line_end };
    proof {
        lemma_subrange_concat(input@, start as int, vstart as int, vend as int);
        lemma_subrange_concat(input@, start as int, vend as int, end as int);
    }
    Ok((e, end))
}

/// Parses one bracketed section header starting at its opening bracket,
/// attaching the given leading trivia. The returned section has no entries
/// yet.
fn parse_header(input: &[u8], lead: Vec<u8>, start: usize) -> (r: Result<
    (Section, usize),
    ParseError,
>)
    requires
        start < input@.len(),
        input@[start as int] == '[' as u8,
    ensures
        r matches Ok(p) ==> {
            &&& start < p.1 <= input@.len()
            &&& ser_section(p.0@) == lead@ + input@.subrange(start as int, p.1 as int)
            &&& p.0.header@.len() > 0
            &&& p.0.header@[0] == '[' as u8
            &&& p.0.entries@.len() == 0
        },
{
    let ilen = input.len();
    assert(start < ilen);
    let is_array = start + 1 < ilen && input[start + 1] == '[' as u8;
    let j0 = if is_array {
        start + 2
    } else {
        start + 1
    };
    let w = scan_ws(input, j0);
    let (path, kend) = parse_keypath(input, w)?;
    let w2 = scan_ws(input, kend);
    if w2 >= input.len() || input[w2] != ']' as u8 {
        return Err(ParseError { pos: w2, kind: ParseErrorKind::ExpectedCloseBracket });
    }
    let mut j = w2 + 1;
    if is_array {
        if j >= input.len() || input[j] != ']' as u8 {
            return Err(ParseError { pos: j, kind: ParseErrorKind::ExpectedCloseBracket });
        }
        j += 1;
    }
    let end = scan_line_end(input, j)?;
    let header = span(input, start, end);
    let s = Section { lead, header, path, is_array, entries: Vec::new() };
    proof {
        assert(s@.entries =~= Seq::<crate::document::EntryV>::empty());
        assert(ser_entries(s@.entries) =~= Seq::<u8>::empty());
        assert(ser_section(s@) =~= lead@ + input@.subrange(start as int, end as int));
    }
    Ok((s, end))
}

/// Parses a whole manifest. On success the document serializes back to
/// exactly the input bytes.
#[verifier::rlimit(100)]
pub fn parse(input: &[u8]) -> (r: Result<Document, ParseError>)
    ensures
        r matches Ok(doc) ==> {
            &&& ser_doc(doc@) == input@
            &&& doc_shaped(doc@)
            &&& doc.trailing@.len() <= input@.len()
            &&& trivia_end(input@, input@.len() - doc.trailing@.len()) == input@.len()
        },
{
    let mut prologue: Vec<Entry> = Vec::new();
    let mut sections: Vec<Section> = Vec::new();
    let mut i: usize = 0;
    loop
        invariant
            i <= input@.len(),
            ser_entries(prologue@.map_values(|e: Entry| e@)) + ser_sections(
                sections@.map_values(|s: Section| s@),
            ) == input@.subrange(0, i as int),
            forall|x: int|
                0 <= x < prologue@.len() ==> entry_shaped((#[trigger] prologue@[x])@),
            forall|x: int|
                0 <= x < sections@.len() ==> section_shaped((#[trigger] sections@[x])@),
        decreases input@.len() - i,
    {
        let ghost pv = prologue@.map_values(|e: Entry| e@);
        let ghost sv = sections@.map_values(|s: Section| s@);
        let t = scan_trivia(input, i);
        if t == input.len() {
            let trailing = span(input, i, t);
            let doc = Document { prologue, sections, trailing };
            proof {
                lemma_subrange_concat(input@, 0, i as int, t as int);
                assert(input@.subrange(0, input@.len() as int) =~= input@);
                assert(doc@.prologue =~= pv);
                assert(doc@.sections =~= sv);
                assert(doc_shaped(doc@));
                assert(input@.len() - doc.trailing@.len() == i as int);
            }
            return Ok(doc);
        }
        proof {
            lemma_trivia_end_idem(input@, i as int);
            lemma_trivia_stop(input@, t as int);
        }
        let tw = scan_ws(input, t);
        let lead = span(input, i, tw);
        proof {
            lemma_subrange_concat(input@, i as int, t as int, tw as int);
        }
        if input[tw] == '[' as u8 {
            let (sec, end) = parse_header(input, lead, tw)?;
            proof {
                lemma_ser_sections_push_local(sv, sec@);
                lemma_subrange_concat(input@, i as int, tw as int, end as int);
                lemma_subrange_concat(input@, 0, i as int, end as int);
                assert(sections@.push(sec).map_values(|s: Section| s@) =~= sv.push(sec@));
                assert(section_shaped(sec@));
                assert forall|x: int|
                    0 <= x < sections@.push(sec).len() implies section_shaped(
                    (#[trigger] sections@.push(sec)[x])@,
                ) by {
                    if x < sections@.len() {
                        assert(sections@.push(sec)[x] == sections@[x]);
                    } else {
                        assert(sections@.push(sec)[x] == sec);
                    }
                }
            }
            sections.push(sec);
            i = end;
        } else {
            let (e, end) = parse_entry(input, lead, tw)?;
            proof {
                lemma_subrange_concat(input@, i as int, tw as int, end as int);
                lemma_subrange_concat(input@, 0, i as int, end as int);
                assert(entry_shaped(e@));
            }
            if sections.len() == 0 {
                proof {
                    lemma_ser_entries_push(pv, e@);
                    assert(prologue@.push(e).map_values(|x: Entry| x@) =~= pv.push(e@));
                    assert(sv =~= Seq::<SectionV>::empty());
                    assert forall|x: int|
                        0 <= x < prologue@.push(e).len() implies entry_shaped(
                        (#[trigger] prologue@.push(e)[x])@,
                    ) by {
                        if x < prologue@.len() {
                            assert(prologue@.push(e)[x] == prologue@[x]);
                        } else {
                            assert(prologue@.push(e)[x] == e);
                        }
                    }
                }
                prologue.push(e);
            } else {
                let k = sections.len() - 1;
                let ghost olds = sections@[k as int]@;
                let ghost ev = e@;
                sections[k].entries.push(e);
                proof {
                    let newsv = sections@.map_values(|s: Section| s@);
                    assert(newsv.drop_last() =~= sv.drop_last());
                    assert(newsv.last().entries =~= olds.entries.push(ev));
                    assert(newsv.last().lead == olds.lead);
                    assert(newsv.last().header == olds.header);
                    lemma_ser_entries_push(olds.entries, ev);
                    assert(ser_section(newsv.last()) == ser_section(olds) + ser_entry(ev));
                    assert(sv.drop_last().push(sv.last()) =~= sv);
                    lemma_ser_sections_push_local(sv.drop_last(), sv.last());
                    lemma_ser_sections_push_local(newsv.drop_last(), newsv.last());
                    assert(newsv.drop_last().push(newsv.last()) =~= newsv);
                    assert forall|x: int|
                        0 <= x < sections@.len() implies section_shaped(
                        (#[trigger] sections@[x])@,
                    ) by {
                        if x < k as int {
                            assert(sections@[x]@ == sv[x]);
                            assert(section_shaped(sv[x]));
                        } else {
                            assert(sections@[x]@ == newsv.last());
                            assert(section_shaped(olds));
                            assert forall|j: int|
                                0 <= j < newsv.last().entries.len() implies entry_shaped(
                                #[trigger] newsv.last().entries[j],
                            ) by {
                                if j < olds.entries.len() {
                                    assert(newsv.last().entries[j] == olds.entries[j]);
                                } else {
                                    assert(newsv.last().entries[j] == ev);
                                }
                            }
                        }
                    }
                }
            }
            i = end;
        }
    }
}

proof fn lemma_ser_sections_push_local(
    sections: Seq<crate::document::SectionV>,
    s: crate::document::SectionV,
)
    ensures
        ser_sections(sections.push(s)) == ser_sections(sections) + ser_section(s),
{
    assert(sections.push(s).drop_last() =~= sections);
    assert(sections.push(s).last() == s);
}

} // verus!
