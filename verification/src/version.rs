use vstd::prelude::*;

verus! {

// ---------------------------------------------------------------------------
// Deciding whether a version requirement is an exact full pin.
//
// A requirement exempts a dependency from having its local path removed only
// when it is a single comparator with the exactly-equals operator, a numeric
// major, minor and patch component, and no pre-release qualifier: optional
// spaces, `=`, optional spaces, `N.N.N`, optional `+build` metadata, optional
// trailing spaces. Each numeric component carries no leading zero and fits an
// unsigned 64-bit value.
// ---------------------------------------------------------------------------

pub open spec fn is_digit(c: u8) -> bool {
    '0' as u8 <= c && c <= '9' as u8
}

pub open spec fn is_build_char(c: u8) -> bool {
    is_digit(c) || ('a' as u8 <= c && c <= 'z' as u8) || ('A' as u8 <= c && c <= 'Z' as u8) || c
        == '-' as u8
}

/// First offset at or after `i` that does not hold a space.
pub open spec fn skip_spaces(s: Seq<u8>, i: int) -> int
    decreases s.len() - i,
{
    if i < 0 || i >= s.len() {
        i
    } else if s[i] == ' ' as u8 {
        skip_spaces(s, i + 1)
    } else {
        i
    }
}

/// First offset at or after `i` that does not hold a digit.
pub open spec fn skip_digits(s: Seq<u8>, i: int) -> int
    decreases s.len() - i,
{
    if i < 0 || i >= s.len() {
        i
    } else if is_digit(s[i]) {
        skip_digits(s, i + 1)
    } else {
        i
    }
}

/// First offset at or after `i` that holds neither a build-metadata
/// character nor a dot.
pub open spec fn skip_build(s: Seq<u8>, i: int) -> int
    decreases s.len() - i,
{
    if i < 0 || i >= s.len() {
        i
    } else if is_build_char(s[i]) || s[i] == '.' as u8 {
        skip_build(s, i + 1)
    } else {
        i
    }
}

/// The numeric value of a digit sequence.
pub open spec fn digits_val(s: Seq<u8>) -> nat
    decreases s.len(),
{
    if s.len() == 0 {
        0
    } else {
        digits_val(s.drop_last()) * 10 + (s.last() - '0' as u8) as nat
    }
}

/// The digit run `a..b` is a well-formed numeric component: non-empty, no
/// leading zero, and small enough for an unsigned 64-bit value.
pub open spec fn num_ok(s: Seq<u8>, a: int, b: int) -> bool {
    &&& a < b
    &&& (b - a == 1 || s[a] != '0' as u8)
    &&& digits_val(s.subrange(a, b)) <= u64::MAX
}

/// The run `a..b` is well-formed build metadata: non-empty dot-separated
/// segments of alphanumeric and dash characters.
pub open spec fn build_ok(s: Seq<u8>, a: int, b: int) -> bool {
    &&& a < b
    &&& s[a] != '.' as u8
    &&& s[b - 1] != '.' as u8
    &&& forall|i: int| a <= i < b - 1 ==> !(#[trigger] s[i] == '.' as u8 && s[i + 1] == '.' as u8)
}

/// The offset just past the optional `+build` part starting at `i`, or no
/// offset when that part is present but malformed.
pub open spec fn after_build(s: Seq<u8>, i: int) -> Option<int> {
    if i < s.len() && s[i] == '+' as u8 {
        let b = skip_build(s, i + 1);
        if build_ok(s, i + 1, b) {
            Option::Some(b)
        } else {
            Option::None
        }
    } else {
        Option::Some(i)
    }
}

/// Whether the whole byte sequence is an exact full version pin.
pub open spec fn is_exact_req(s: Seq<u8>) -> bool {
    let i0 = skip_spaces(s, 0);
    &&& i0 < s.len()
    &&& s[i0] == '=' as u8
    &&& {
        let i1 = skip_spaces(s, i0 + 1);
        let j1 = skip_digits(s, i1);
        &&& num_ok(s, i1, j1)
        &&& j1 < s.len()
        &&& s[j1] == '.' as u8
        &&& {
            let i2 = j1 + 1;
            let j2 = skip_digits(s, i2);
            &&& num_ok(s, i2, j2)
            &&& j2 < s.len()
            &&& s[j2] == '.' as u8
            &&& {
                let i3 = j2 + 1;
                let j3 = skip_digits(s, i3);
                &&& num_ok(s, i3, j3)
                &&& match after_build(s, j3) {
                    Option::Some(j4) => skip_spaces(s, j4) == s.len(),
                    Option::None => false,
                }
            }
        }
    }
}

// ---------------------------------------------------------------------------
// Executable scanners, each proved against its specification.
// ---------------------------------------------------------------------------

proof fn lemma_skip_spaces_step(s: Seq<u8>, i: int)
    requires
        0 <= i < s.len(),
        s[i] == ' ' as u8,
    ensures
        skip_spaces(s, i) == skip_spaces(s, i + 1),
{
}

fn scan_spaces(s: &[u8], start: usize) -> (end: usize)
    requires
        start <= s@.len(),
    ensures
        start <= end <= s@.len(),
        end == skip_spaces(s@, start as int),
{
    let mut j = start;
    while j < s.len() && s[j] == ' ' as u8
        invariant
            start <= j <= s@.len(),
            skip_spaces(s@, start as int) == skip_spaces(s@, j as int),
        decreases s@.len() - j,
    {
        proof {
            lemma_skip_spaces_step(s@, j as int);
        }
        j += 1;
    }
    j
}

proof fn lemma_skip_digits_step(s: Seq<u8>, i: int)
    requires
        0 <= i < s.len(),
        is_digit(s[i]),
    ensures
        skip_digits(s, i) == skip_digits(s, i + 1),
{
}

fn scan_digits(s: &[u8], start: usize) -> (end: usize)
    requires
        start <= s@.len(),
    ensures
        start <= end <= s@.len(),
        end == skip_digits(s@, start as int),
{
    let mut j = start;
    while j < s.len() && '0' as u8 <= s[j] && s[j] <= '9' as u8
        invariant
            start <= j <= s@.len(),
            skip_digits(s@, start as int) == skip_digits(s@, j as int),
        decreases s@.len() - j,
    {
        proof {
            lemma_skip_digits_step(s@, j as int);
        }
        j += 1;
    }
    j
}

proof fn lemma_skip_build_step(s: Seq<u8>, i: int)
    requires
        0 <= i < s.len(),
        is_build_char(s[i]) || s[i] == '.' as u8,
    ensures
        skip_build(s, i) == skip_build(s, i + 1),
{
}

fn scan_build(s: &[u8], start: usize) -> (end: usize)
    requires
        start <= s@.len(),
    ensures
        start <= end <= s@.len(),
        end == skip_build(s@, start as int),
{
    let mut j = start;
    while j < s.len() && (('0' as u8 <= s[j] && s[j] <= '9' as u8) || ('a' as u8 <= s[j] && s[j]
        <= 'z' as u8) || ('A' as u8 <= s[j] && s[j] <= 'Z' as u8) || s[j] == '-' as u8 || s[j]
        == '.' as u8)
        invariant
            start <= j <= s@.len(),
            skip_build(s@, start as int) == skip_build(s@, j as int),
        decreases s@.len() - j,
    {
        proof {
            lemma_skip_build_step(s@, j as int);
        }
        j += 1;
    }
    j
}

pub(crate) proof fn lemma_digits_val_take_step(s: Seq<u8>, k: int)
    requires
        0 <= k < s.len(),
    ensures
        digits_val(s.take(k + 1)) == digits_val(s.take(k)) * 10 + (s[k] - '0' as u8) as nat,
{
    assert(s.take(k + 1).drop_last() =~= s.take(k));
    assert(s.take(k + 1).last() == s[k]);
}

pub(crate) proof fn lemma_digits_val_take_le(s: Seq<u8>, k: int)
    requires
        0 <= k <= s.len(),
    ensures
        digits_val(s.take(k)) <= digits_val(s),
    decreases s.len() - k,
{
    if k < s.len() {
        lemma_digits_val_take_le(s, k + 1);
        lemma_digits_val_take_step(s, k);
    } else {
        assert(s.take(k) =~= s);
    }
}

/// Checks the digit run `a..b` of `s` for a well-formed numeric component.
fn check_num(s: &[u8], a: usize, b: usize) -> (r: bool)
    requires
        a <= b <= s@.len(),
        b == skip_digits(s@, a as int),
    ensures
        r == num_ok(s@, a as int, b as int),
{
    if a == b {
        return false;
    }
    if b - a > 1 && s[a] == '0' as u8 {
        return false;
    }
    let ghost digits = s@.subrange(a as int, b as int);
    let mut value: u64 = 0;
    let mut k: usize = a;
    while k < b
        invariant
            a <= k <= b <= s@.len(),
            b == skip_digits(s@, a as int),
            digits == s@.subrange(a as int, b as int),
            value == digits_val(digits.take(k - a)),
        decreases b - k,
    {
        proof {
            lemma_skip_digits_bounds_all(s@, a as int, b as int);
            assert(is_digit(s@[k as int]));
            assert(digits[k - a] == s@[k as int]);
        }
        let d = s[k] - '0' as u8;
        if value > 0x1999_9999_9999_9999 || (value == 0x1999_9999_9999_9999 && d > 5) {
            // the accumulated component no longer fits an unsigned 64-bit
            // value, and appending further digits cannot shrink it
            proof {
                lemma_digits_val_take_step(digits, k - a);
                assert(digits_val(digits.take(k - a + 1)) > u64::MAX);
                lemma_digits_val_take_le(digits, k - a + 1);
            }
            return false;
        }
        proof {
            lemma_digits_val_take_step(digits, k - a);
        }
        value = value * 10 + (d as u64);
        k += 1;
    }
    proof {
        assert(digits.take(b - a) =~= digits);
    }
    true
}

pub(crate) proof fn lemma_skip_digits_bounds_all(s: Seq<u8>, a: int, b: int)
    requires
        0 <= a <= s.len(),
        b == skip_digits(s, a),
    ensures
        a <= b <= s.len(),
        forall|i: int| a <= i < b ==> is_digit(#[trigger] s[i]),
    decreases s.len() - a,
{
    if a < s.len() && is_digit(s[a]) {
        lemma_skip_digits_bounds_all(s, a + 1, b);
    }
}

/// Checks the run `a..b` of `s` for well-formed build metadata.
fn check_build(s: &[u8], a: usize, b: usize) -> (r: bool)
    requires
        a <= b <= s@.len(),
    ensures
        r == build_ok(s@, a as int, b as int),
{
    if a == b {
        return false;
    }
    if s[a] == '.' as u8 || s[b - 1] == '.' as u8 {
        return false;
    }
    let mut i = a;
    while i < b - 1
        invariant
            a <= i,
            i <= b <= s@.len(),
            a < b,
            forall|j: int| a <= j < i ==> !(#[trigger] s@[j] == '.' as u8 && s@[j + 1]
                == '.' as u8),
        decreases b - i,
    {
        if s[i] == '.' as u8 && s[i + 1] == '.' as u8 {
            return false;
        }
        i += 1;
    }
    true
}

/// Decides whether `s` is an exact full version pin.
pub fn check_exact_req(s: &[u8]) -> (r: bool)
    ensures
        r == is_exact_req(s@),
{
    let n = s.len();
    let i0 = scan_spaces(s, 0);
    if i0 >= n || s[i0] != '=' as u8 {
        return false;
    }
    let i1 = scan_spaces(s, i0 + 1);
    let j1 = scan_digits(s, i1);
    if !check_num(s, i1, j1) {
        return false;
    }
    if j1 >= n || s[j1] != '.' as u8 {
        return false;
    }
    let i2 = j1 + 1;
    let j2 = scan_digits(s, i2);
    if !check_num(s, i2, j2) {
        return false;
    }
    if j2 >= n || s[j2] != '.' as u8 {
        return false;
    }
    let i3 = j2 + 1;
    let j3 = scan_digits(s, i3);
    if !check_num(s, i3, j3) {
        return false;
    }
    let j4 = if j3 < n && s[j3] == '+' as u8 {
        let b = scan_build(s, j3 + 1);
        if !check_build(s, j3 + 1, b) {
            return false;
        }
        b
    } else {
        j3
    };
    let j5 = scan_spaces(s, j4);
    j5 == n
}

} // verus!
