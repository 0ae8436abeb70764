use vstd::prelude::*;

use crate::bytes::bytes_eq;
use crate::parse::clamp_pos;
use crate::version::{digits_val, is_digit};

verus! {

// ---------------------------------------------------------------------------
// Reading the toolchain's version from its verbose version output.
//
// The verbose output is used because packagers add extra strings to the
// normal version line. The `release:` line carries `1.<minor>.<patch>`,
// optionally followed by a dash and the channel name; only a major version
// of one is accepted, and the minor and patch components must be numeric.
// Whether the toolchain is a nightly follows from the channel name; the
// caller folds in any environment override.
// ---------------------------------------------------------------------------

/// The parsed toolchain version: the minor number, and whether the channel
/// is a nightly one.
pub struct CargoVersion {
    pub minor: u32,
    pub nightly: bool,
}

/// The bytes of the `release: ` line prefix.
pub open spec fn k_release_prefix() -> Seq<u8> {
    seq![
        'r' as u8,
        'e' as u8,
        'l' as u8,
        'e' as u8,
        'a' as u8,
        's' as u8,
        'e' as u8,
        ':' as u8,
        ' ' as u8,
    ]
}

/// The bytes of the `nightly` channel name.
pub open spec fn k_nightly() -> Seq<u8> {
    seq!['n' as u8, 'i' as u8, 'g' as u8, 'h' as u8, 't' as u8, 'l' as u8, 'y' as u8]
}

/// The bytes of the `dev` channel name.
pub open spec fn k_dev() -> Seq<u8> {
    seq!['d' as u8, 'e' as u8, 'v' as u8]
}

/// The release-line prefix stands at offset `i`.
pub open spec fn is_release_at(s: Seq<u8>, i: int) -> bool {
    0 <= i && i + 9 <= s.len() && s.subrange(i, i + 9) == k_release_prefix()
}

/// The offset of the first newline at or after `i`, or the input's end.
pub open spec fn nl_at(s: Seq<u8>, i: int) -> int
    decreases s.len() - i,
{
    if i < 0 || i >= s.len() {
        s.len() as int
    } else if s[i] == '\n' as u8 {
        i
    } else {
        nl_at(s, i + 1)
    }
}

/// The offset just past the prefix of the first line that begins with the
/// release-line prefix, scanning line starts from `i` on.
pub open spec fn first_release(s: Seq<u8>, i: int) -> Option<int>
    decreases s.len() - i,
{
    if i < 0 || i >= s.len() {
        Option::None
    } else if is_release_at(s, i) {
        Option::Some(i + 9)
    } else {
        first_release(s, clamp_pos(nl_at(s, i) + 1, i + 1, s.len() as int))
    }
}

/// The first dash in `[i, e)`, or nothing.
pub open spec fn dash_at(s: Seq<u8>, i: int, e: int) -> Option<int>
    decreases e - i,
{
    if i < 0 || i >= e || i >= s.len() {
        Option::None
    } else if s[i] == '-' as u8 {
        Option::Some(i)
    } else {
        dash_at(s, i + 1, e)
    }
}

/// The first dot in `[i, e)`, or `e`.
pub open spec fn dot_at(s: Seq<u8>, i: int, e: int) -> int
    decreases e - i,
{
    if i < 0 || i >= e || i >= s.len() {
        e
    } else if s[i] == '.' as u8 {
        i
    } else {
        dot_at(s, i + 1, e)
    }
}

/// The run `[a, b)` is a non-empty digit sequence whose value fits the
/// minor-version type.
pub open spec fn num32_ok(s: Seq<u8>, a: int, b: int) -> bool {
    &&& 0 <= a < b <= s.len()
    &&& (forall|j: int| a <= j < b ==> is_digit(#[trigger] s[j]))
    &&& digits_val(s.subrange(a, b)) <= u32::MAX
}

/// What the release line `[p, e)` yields: the minor number and the
/// channel's nightliness, when the line is `1.<minor>.<patch>` with an
/// optional dashed channel.
pub open spec fn release_value(s: Seq<u8>, p: int, e: int) -> Option<(u32, bool)> {
    let vend = match dash_at(s, p, e) {
        Option::Some(x) => x,
        Option::None => e,
    };
    let nightly = match dash_at(s, p, e) {
        Option::Some(x) => s.subrange(x + 1, e) == k_nightly() || s.subrange(x + 1, e) == k_dev(),
        Option::None => false,
    };
    let dot1 = dot_at(s, p, vend);
    let dot2 = dot_at(s, dot1 + 1, vend);
    if dot1 < vend && dot2 < vend && s.subrange(p, dot1) == seq!['1' as u8] && num32_ok(
        s,
        dot1 + 1,
        dot2,
    ) && num32_ok(s, dot2 + 1, vend) {
        Option::Some((digits_val(s.subrange(dot1 + 1, dot2)) as u32, nightly))
    } else {
        Option::None
    }
}

/// What the whole verbose version output yields.
pub open spec fn spec_cargo_version(s: Seq<u8>) -> Option<(u32, bool)> {
    match first_release(s, 0) {
        Option::None => Option::None,
        Option::Some(p) => {
            let nl = nl_at(s, p);
            let e = if nl < s.len() && nl > p && s[nl - 1] == '\r' as u8 {
                nl - 1
            } else {
                nl
            };
            release_value(s, p, e)
        },
    }
}

// ---------------------------------------------------------------------------
// Executable scanners, each proved against its specification.
// ---------------------------------------------------------------------------

proof fn lemma_nl_at_step(s: Seq<u8>, i: int)
    requires
        0 <= i < s.len(),
        s[i] != '\n' as u8,
    ensures
        nl_at(s, i) == nl_at(s, i + 1),
{
}

proof fn lemma_nl_at_bounds(s: Seq<u8>, i: int)
    requires
        0 <= i <= s.len(),
    ensures
        i <= nl_at(s, i) <= s.len(),
    decreases s.len() - i,
{
    if i < s.len() && s[i] != '\n' as u8 {
        lemma_nl_at_bounds(s, i + 1);
    }
}

fn scan_nl(s: &[u8], start: usize) -> (end: usize)
    requires
        start <= s@.len(),
    ensures
        start <= end <= s@.len(),
        end == nl_at(s@, start as int),
{
    let mut j = start;
    while j < s.len() && s[j] != '\n' as u8
        invariant
            start <= j <= s@.len(),
            nl_at(s@, start as int) == nl_at(s@, j as int),
        decreases s@.len() - j,
    {
        proof {
            lemma_nl_at_step(s@, j as int);
        }
        j += 1;
    }
    j
}

proof fn lemma_dash_step(s: Seq<u8>, i: int, e: int)
    requires
        0 <= i < e <= s.len(),
        s[i] != '-' as u8,
    ensures
        dash_at(s, i, e) == dash_at(s, i + 1, e),
{
}

fn scan_dash(s: &[u8], start: usize, e: usize) -> (r: Option<usize>)
    requires
        start <= e <= s@.len(),
    ensures
        match r {
            Option::Some(x) => dash_at(s@, start as int, e as int) == Option::Some(x as int)
                && start <= x < e,
            Option::None => dash_at(s@, start as int, e as int) is None,
        },
{
    let mut j = start;
    while j < e
        invariant
            start <= j <= e <= s@.len(),
            dash_at(s@, start as int, e as int) == dash_at(s@, j as int, e as int),
        decreases e - j,
    {
        if s[j] == '-' as u8 {
            return Some(j);
        }
        proof {
            lemma_dash_step(s@, j as int, e as int);
        }
        j += 1;
    }
    None
}

proof fn lemma_dot_step(s: Seq<u8>, i: int, e: int)
    requires
        0 <= i < e <= s.len(),
        s[i] != '.' as u8,
    ensures
        dot_at(s, i, e) == dot_at(s, i + 1, e),
{
}

fn scan_dot(s: &[u8], start: usize, e: usize) -> (x: usize)
    requires
        start <= e <= s@.len(),
    ensures
        start <= x <= e,
        x as int == dot_at(s@, start as int, e as int),
        x < e ==> s@[x as int] == '.' as u8,
{
    let mut j = start;
    while j < e
        invariant
            start <= j <= e <= s@.len(),
            dot_at(s@, start as int, e as int) == dot_at(s@, j as int, e as int),
        decreases e - j,
    {
        if s[j] == '.' as u8 {
            return j;
        }
        proof {
            lemma_dot_step(s@, j as int, e as int);
        }
        j += 1;
    }
    e
}

/// Checks the run `[a, b)` for a non-empty digit sequence and computes its
/// value when it fits.
fn scan_num32(s: &[u8], a: usize, b: usize) -> (r: Option<u32>)
    requires
        a <= b <= s@.len(),
    ensures
        match r {
            Option::Some(v) => num32_ok(s@, a as int, b as int) && v == digits_val(
                s@.subrange(a as int, b as int),
            ),
            Option::None => !num32_ok(s@, a as int, b as int),
        },
{
    if a == b {
        return None;
    }
    let ghost digits = s@.subrange(a as int, b as int);
    let mut value: u32 = 0;
    let mut k: usize = a;
    while k < b
        invariant
            a <= k <= b <= s@.len(),
            digits == s@.subrange(a as int, b as int),
            value == digits_val(digits.take(k - a)),
            forall|j: int| a <= j < k ==> is_digit(#[trigger] s@[j]),
        decreases b - k,
    {
        let c = s[k];
        if !('0' as u8 <= c && c <= '9' as u8) {
            return None;
        }
        proof {
            assert(digits[k - a] == s@[k as int]);
        }
        let d = c - '0' as u8;
        if value > 429496729 || (value == 429496729 && d > 5) {
            // the component no longer fits, and further digits cannot
            // shrink it
            proof {
                crate::version::lemma_digits_val_take_step(digits, k - a);
                assert(digits_val(digits.take(k - a + 1)) > u32::MAX);
                crate::version::lemma_digits_val_take_le(digits, k - a + 1);
            }
            return None;
        }
        proof {
            crate::version::lemma_digits_val_take_step(digits, k - a);
        }
        value = value * 10 + (d as u32);
        k += 1;
    }
    proof {
        assert(digits.take(b - a) =~= digits);
    }
    Some(value)
}

impl CargoVersion {
    /// Reads the minor version and channel nightliness from the verbose
    /// version output, exactly as the specification function describes.
    pub fn parse(verbose_version: &[u8]) -> (r: Option<CargoVersion>)
        ensures
            match r {
                Option::Some(cv) => spec_cargo_version(verbose_version@) == Option::Some(
                    (cv.minor, cv.nightly),
                ),
                Option::None => spec_cargo_version(verbose_version@) is None,
            },
    {
        let s = verbose_version;
        let n = s.len();
        let prefix: [u8; 9] = [
            'r' as u8,
            'e' as u8,
            'l' as u8,
            'e' as u8,
            'a' as u8,
            's' as u8,
            'e' as u8,
            ':' as u8,
            ' ' as u8,
        ];
        proof {
            assert(prefix@ =~= k_release_prefix());
        }
        // find the release line
        let mut i: usize = 0;
        let mut p: usize = 0;
        let mut found = false;
        while !found && i < n
            invariant
                i <= n,
                n == s@.len(),
                prefix@ == k_release_prefix(),
                first_release(s@, 0) == if found {
                    Option::<int>::Some(p as int)
                } else {
                    first_release(s@, i as int)
                },
                found ==> p <= n,
            decreases n - i + (if found {
                0int
            } else {
                1int
            }),
        {
            if n - i >= 9 && bytes_eq(
                vstd::slice::slice_subrange(s, i, i + 9),
                prefix.as_slice(),
            ) {
                proof {
                    assert(is_release_at(s@, i as int));
                }
                p = i + 9;
                found = true;
            } else {
                proof {
                    assert(!is_release_at(s@, i as int)) by {
                        if is_release_at(s@, i as int) {
                            assert(s@.subrange(i as int, i as int + 9) == k_release_prefix());
                        }
                    }
                }
                let nl = scan_nl(s, i);
                proof {
                    lemma_nl_at_bounds(s@, i as int);
                    assert(clamp_pos(nl_at(s@, i as int) + 1, i as int + 1, n as int) == if nl
                        + 1 <= n {
                        nl as int + 1
                    } else {
                        n as int
                    });
                }
                if nl < n {
                    i = nl + 1;
                } else {
                    i = n;
                }
            }
        }
        if !found {
            return None;
        }
        // trim the line, dropping a carriage return before the newline
        let nl = scan_nl(s, p);
        let e = if nl < n && nl > p && s[nl - 1] == '\r' as u8 {
            nl - 1
        } else {
            nl
        };
        // split off the channel at the first dash
        let (vend, nightly) = match scan_dash(s, p, e) {
            Some(x) => {
                let lit_nightly: [u8; 7] = [
                    'n' as u8,
                    'i' as u8,
                    'g' as u8,
                    'h' as u8,
                    't' as u8,
                    'l' as u8,
                    'y' as u8,
                ];
                let lit_dev: [u8; 3] = ['d' as u8, 'e' as u8, 'v' as u8];
                let chan = vstd::slice::slice_subrange(s, x + 1, e);
                let is_n = bytes_eq(chan, lit_nightly.as_slice()) || bytes_eq(
                    chan,
                    lit_dev.as_slice(),
                );
                proof {
                    assert(lit_nightly@ =~= k_nightly());
                    assert(lit_dev@ =~= k_dev());
                }
                (x, is_n)
            },
            None => (e, false),
        };
        // the three dot-separated components
        let dot1 = scan_dot(s, p, vend);
        if dot1 >= vend {
            return None;
        }
        let dot2 = scan_dot(s, dot1 + 1, vend);
        if dot2 >= vend {
            return None;
        }
        let one: [u8; 1] = ['1' as u8];
        if !bytes_eq(vstd::slice::slice_subrange(s, p, dot1), one.as_slice()) {
            proof {
                assert(one@ =~= seq!['1' as u8]);
            }
            return None;
        }
        proof {
            assert(one@ =~= seq!['1' as u8]);
        }
        let minor = match scan_num32(s, dot1 + 1, dot2) {
            Some(v) => v,
            None => {
                return None;
            },
        };
        if scan_num32(s, dot2 + 1, vend).is_none() {
            return None;
        }
        Some(CargoVersion { minor, nightly })
    }
}

} // verus!
