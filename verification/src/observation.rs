//! Extraction of the most recent progress observation from a log.
//!
//! A log is a byte buffer of newline-separated lines. The observation pattern
//! is the fixed grammar
//!
//! ```text
//! TimeStep <spaces> <digits> ": Time" <spaces> <digits> "." <digits> "e" [+|-] <digits>
//! ```
//!
//! where each `<spaces>` is one or more spaces or tabs. The extractor scans
//! the last line that holds the keyword `TimeStep`, reads the step number,
//! and reads the simulated time, an exact decimal which it reports rounded
//! to hundredths of a unit (half up).

use vstd::prelude::*;

use crate::CaseError;

verus! {

/// One parsed progress observation: the step counter and the simulated
/// time in hundredths of a unit.
#[derive(Debug, Clone, Copy, PartialEq, Eq, Structural)]
pub struct Observation {
    /// The step counter read from the log.
    pub step: usize,
    /// The simulated time, in hundredths of a unit, rounded half up.
    pub time_centi: u64,
}

// ---------------------------------------------------------------------------
// Byte classes and fixed tokens
// ---------------------------------------------------------------------------

/// An ASCII decimal digit.
pub open spec fn is_digit(b: u8) -> bool {
    48 <= b && b <= 57
}

/// Value of an ASCII decimal digit.
pub open spec fn digit_val(b: u8) -> int {
    b - 48
}

/// A space or a tab: the blank run between tokens of the pattern.
pub open spec fn is_space(b: u8) -> bool {
    b == 32 || b == 9
}

/// The bytes of the keyword `TimeStep`.
pub open spec fn keyword() -> Seq<u8> {
    seq![84u8, 105u8, 109u8, 101u8, 83u8, 116u8, 101u8, 112u8]
}

/// The bytes of the literal `: Time` that follows the step number.
pub open spec fn time_marker() -> Seq<u8> {
    seq![58u8, 32u8, 84u8, 105u8, 109u8, 101u8]
}

// ---------------------------------------------------------------------------
// Runs of bytes
// ---------------------------------------------------------------------------

/// End of the run of spaces/tabs that starts at `i`.
pub open spec fn spaces_end(s: Seq<u8>, i: int) -> int
    decreases s.len() - i when 0 <= i <= s.len()
{
    if i < s.len() && is_space(s[i]) {
        spaces_end(s, i + 1)
    } else {
        i
    }
}

/// End of the run of digits that starts at `i`.
pub open spec fn digits_end(s: Seq<u8>, i: int) -> int
    decreases s.len() - i when 0 <= i <= s.len()
{
    if i < s.len() && is_digit(s[i]) {
        digits_end(s, i + 1)
    } else {
        i
    }
}

proof fn lemma_spaces_end(s: Seq<u8>, i: int)
    requires
        0 <= i <= s.len(),
    ensures
        i <= spaces_end(s, i) <= s.len(),
        forall|p: int| i <= p < spaces_end(s, i) ==> is_space(#[trigger] s[p]),
        spaces_end(s, i) < s.len() ==> !is_space(s[spaces_end(s, i)]),
    decreases s.len() - i,
{
    if i < s.len() && is_space(s[i]) {
        lemma_spaces_end(s, i + 1);
    }
}

proof fn lemma_digits_end(s: Seq<u8>, i: int)
    requires
        0 <= i <= s.len(),
    ensures
        i <= digits_end(s, i) <= s.len(),
        forall|p: int| i <= p < digits_end(s, i) ==> is_digit(#[trigger] s[p]),
        digits_end(s, i) < s.len() ==> !is_digit(s[digits_end(s, i)]),
    decreases s.len() - i,
{
    if i < s.len() && is_digit(s[i]) {
        lemma_digits_end(s, i + 1);
    }
}

/// Scans the run of spaces/tabs that starts at `i`.
fn scan_spaces(line: &[u8], i: usize) -> (r: usize)
    requires
        i <= line@.len(),
    ensures
        r == spaces_end(line@, i as int),
        i <= r <= line@.len(),
{
    proof {
        lemma_spaces_end(line@, i as int);
    }
    let mut p = i;
    while p < line.len() && (line[p] == 32 || line[p] == 9)
        invariant
            i <= p <= line@.len(),
            spaces_end(line@, i as int) == spaces_end(line@, p as int),
        decreases line@.len() - p,
    {
        p = p + 1;
    }
    p
}

/// Scans the run of digits that starts at `i`.
fn scan_digits(line: &[u8], i: usize) -> (r: usize)
    requires
        i <= line@.len(),
    ensures
        r == digits_end(line@, i as int),
        i <= r <= line@.len(),
{
    proof {
        lemma_digits_end(line@, i as int);
    }
    let mut p = i;
    while p < line.len() && 48 <= line[p] && line[p] <= 57
        invariant
            i <= p <= line@.len(),
            digits_end(line@, i as int) == digits_end(line@, p as int),
        decreases line@.len() - p,
    {
        p = p + 1;
    }
    p
}

// ---------------------------------------------------------------------------
// The observation pattern within one line
// ---------------------------------------------------------------------------

/// Does the observation pattern match at position `i` of `s`? If it does,
/// gives (start of the step digits, end of the step digits, start of the
/// simulated-time number).
pub open spec fn obs_at(s: Seq<u8>, i: int) -> Option<(int, int, int)> {
    if 0 <= i && i + 8 <= s.len() && s.subrange(i, i + 8) == keyword() {
        let j = spaces_end(s, i + 8);
        let k = digits_end(s, j);
        if j == i + 8 {
            None
        } else if k == j {
            None
        } else if !(k + 6 <= s.len() && s.subrange(k, k + 6) == time_marker()) {
            None
        } else {
            let m = spaces_end(s, k + 6);
            if m == k + 6 {
                None
            } else if m < s.len() && is_digit(s[m]) {
                Some((j, k, m))
            } else {
                None
            }
        }
    } else {
        None
    }
}

/// The leftmost match of the observation pattern at or after `i`.
pub open spec fn first_obs_from(s: Seq<u8>, i: int) -> Option<(int, int, int)>
    decreases s.len() - i when 0 <= i <= s.len()
{
    if i >= s.len() {
        None
    } else if obs_at(s, i) is Some {
        obs_at(s, i)
    } else {
        first_obs_from(s, i + 1)
    }
}

proof fn lemma_first_obs_props(s: Seq<u8>, i: int)
    requires
        0 <= i <= s.len(),
        first_obs_from(s, i) is Some,
    ensures
        ({
            let t = first_obs_from(s, i)->Some_0;
            &&& 0 <= t.0 < t.1 <= s.len()
            &&& forall|p: int| t.0 <= p < t.1 ==> is_digit(#[trigger] s[p])
            &&& t.1 < t.2 < s.len()
            &&& is_digit(s[t.2])
        }),
    decreases s.len() - i,
{
    if obs_at(s, i) is Some {
        let j = spaces_end(s, i + 8);
        let k = digits_end(s, j);
        lemma_spaces_end(s, i + 8);
        lemma_digits_end(s, j);
        lemma_spaces_end(s, k + 6);
    } else {
        lemma_first_obs_props(s, i + 1);
    }
}

proof fn lemma_first_obs_skip(s: Seq<u8>, a: int, b: int)
    requires
        0 <= a <= b <= s.len(),
        forall|i: int| a <= i < b ==> #[trigger] obs_at(s, i) is None,
    ensures
        first_obs_from(s, a) == first_obs_from(s, b),
    decreases b - a,
{
    if a < b {
        lemma_first_obs_skip(s, a + 1, b);
    }
}

/// Tests whether the keyword `TimeStep` stands at position `i`.
fn kw_at(line: &[u8], i: usize) -> (r: bool)
    requires
        i <= line@.len(),
    ensures
        r == (i + 8 <= line@.len() && line@.subrange(i as int, i as int + 8) == keyword()),
{
    if line.len() < 8 || i > line.len() - 8 {
        return false;
    }
    let r = line[i] == 84 && line[i + 1] == 105 && line[i + 2] == 109 && line[i + 3] == 101
        && line[i + 4] == 83 && line[i + 5] == 116 && line[i + 6] == 101 && line[i + 7] == 112;
    proof {
        let sub = line@.subrange(i as int, i as int + 8);
        if r {
            assert(sub =~= keyword());
        } else {
            assert(sub != keyword()) by {
                if sub == keyword() {
                    assert(sub[0] == 84u8 && sub[1] == 105u8 && sub[2] == 109u8 && sub[3]
                        == 101u8 && sub[4] == 83u8 && sub[5] == 116u8 && sub[6] == 101u8 && sub[7]
                        == 112u8);
                }
            }
        }
    }
    r
}

/// Tests whether the literal `: Time` stands at position `i`.
fn marker_at(line: &[u8], i: usize) -> (r: bool)
    requires
        i <= line@.len(),
    ensures
        r == (i + 6 <= line@.len() && line@.subrange(i as int, i as int + 6) == time_marker()),
{
    if line.len() < 6 || i > line.len() - 6 {
        return false;
    }
    let r = line[i] == 58 && line[i + 1] == 32 && line[i + 2] == 84 && line[i + 3] == 105
        && line[i + 4] == 109 && line[i + 5] == 101;
    proof {
        let sub = line@.subrange(i as int, i as int + 6);
        if r {
            assert(sub =~= time_marker());
        } else {
            assert(sub != time_marker()) by {
                if sub == time_marker() {
                    assert(sub[0] == 58u8 && sub[1] == 32u8 && sub[2] == 84u8 && sub[3] == 105u8
                        && sub[4] == 109u8 && sub[5] == 101u8);
                }
            }
        }
    }
    r
}

/// Tries the observation pattern at position `i` of the line.
fn try_obs_at(line: &[u8], i: usize) -> (r: Option<(usize, usize, usize)>)
    requires
        i <= line@.len(),
    ensures
        match r {
            Some(t) => obs_at(line@, i as int) == Some((t.0 as int, t.1 as int, t.2 as int)),
            None => obs_at(line@, i as int) is None,
        },
{
    let n = line.len();
    if !kw_at(line, i) {
        return None;
    }
    let j = scan_spaces(line, i + 8);
    if j == i + 8 {
        return None;
    }
    let k = scan_digits(line, j);
    if k == j {
        return None;
    }
    if !marker_at(line, k) {
        return None;
    }
    let m = scan_spaces(line, k + 6);
    if m == k + 6 {
        return None;
    }
    if m < line.len() && 48 <= line[m] && line[m] <= 57 {
        Some((j, k, m))
    } else {
        None
    }
}

/// Finds the leftmost match of the observation pattern in the line: the
/// start and end of the step digits and the start of the simulated-time
/// number.
pub fn find_observation(line: &[u8]) -> (r: Option<(usize, usize, usize)>)
    ensures
        match r {
            Some(t) => first_obs_from(line@, 0) == Some((t.0 as int, t.1 as int, t.2 as int)),
            None => first_obs_from(line@, 0) is None,
        },
{
    let mut i: usize = 0;
    while i < line.len()
        invariant
            i <= line@.len(),
            forall|p: int| 0 <= p < i ==> #[trigger] obs_at(line@, p) is None,
        decreases line@.len() - i,
    {
        let r = try_obs_at(line, i);
        if r.is_some() {
            proof {
                lemma_first_obs_skip(line@, 0, i as int);
            }
            return r;
        }
        i = i + 1;
    }
    proof {
        lemma_first_obs_skip(line@, 0, line@.len() as int);
    }
    None
}

// ---------------------------------------------------------------------------
// Digit strings and powers of ten
// ---------------------------------------------------------------------------

/// Value of a string of ASCII digits read as a decimal number.
pub open spec fn digits_val(s: Seq<u8>) -> int
    decreases s.len(),
{
    if s.len() == 0 {
        0
    } else {
        digits_val(s.drop_last()) * 10 + digit_val(s.last())
    }
}

/// The n-th power of ten.
pub open spec fn pow10(n: nat) -> int
    decreases n,
{
    if n == 0 {
        1
    } else {
        10 * pow10((n - 1) as nat)
    }
}

proof fn lemma_pow10_pos(n: nat)
    ensures
        pow10(n) >= 1,
    decreases n,
{
    if n > 0 {
        lemma_pow10_pos((n - 1) as nat);
    }
}

proof fn lemma_pow10_mono(a: nat, b: nat)
    requires
        a <= b,
    ensures
        pow10(a) <= pow10(b),
    decreases b,
{
    if a < b {
        lemma_pow10_mono(a, (b - 1) as nat);
        lemma_pow10_pos((b - 1) as nat);
    }
}

proof fn lemma_pow10_vals()
    ensures
        pow10(19) == 10_000_000_000_000_000_000,
        pow10(20) == 100_000_000_000_000_000_000,
{
    reveal_with_fuel(pow10, 21);
}

proof fn lemma_digits_val_nonneg(s: Seq<u8>)
    requires
        forall|p: int| 0 <= p < s.len() ==> is_digit(#[trigger] s[p]),
    ensures
        digits_val(s) >= 0,
    decreases s.len(),
{
    if s.len() > 0 {
        lemma_digits_val_nonneg(s.drop_last());
    }
}

/// Reading one more digit multiplies the value by ten and adds the digit.
proof fn lemma_digits_val_extend(s: Seq<u8>, lo: int, i: int)
    requires
        0 <= lo <= i < s.len(),
    ensures
        digits_val(s.subrange(lo, i + 1)) == digits_val(s.subrange(lo, i)) * 10 + digit_val(
            s[i],
        ),
{
    assert(s.subrange(lo, i + 1).drop_last() =~= s.subrange(lo, i));
    assert(s.subrange(lo, i + 1).last() == s[i]);
}

/// A prefix of a digit string never exceeds the whole string's value.
proof fn lemma_digits_val_prefix_le(s: Seq<u8>, lo: int, i: int, hi: int)
    requires
        0 <= lo <= i <= hi <= s.len(),
        forall|p: int| lo <= p < hi ==> is_digit(#[trigger] s[p]),
    ensures
        digits_val(s.subrange(lo, i)) <= digits_val(s.subrange(lo, hi)),
    decreases hi - i,
{
    if i < hi {
        lemma_digits_val_extend(s, lo, i);
        lemma_digits_val_nonneg(s.subrange(lo, i));
        lemma_digits_val_prefix_le(s, lo, i + 1, hi);
    }
}

/// Reads the digits in `[lo, hi)` as a decimal number; `None` if the value
/// does not fit in a `u64`.
fn parse_digits_u64(line: &[u8], lo: usize, hi: usize) -> (r: Option<u64>)
    requires
        lo <= hi <= line@.len(),
        forall|p: int| lo <= p < hi ==> is_digit(#[trigger] line@[p]),
    ensures
        match r {
            Some(v) => v == digits_val(line@.subrange(lo as int, hi as int)),
            None => digits_val(line@.subrange(lo as int, hi as int)) > u64::MAX,
        },
{
    let mut acc: u64 = 0;
    let mut i = lo;
    proof {
        assert(line@.subrange(lo as int, lo as int) =~= Seq::<u8>::empty());
    }
    while i < hi
        invariant
            lo <= i <= hi <= line@.len(),
            forall|p: int| lo <= p < hi ==> is_digit(#[trigger] line@[p]),
            acc == digits_val(line@.subrange(lo as int, i as int)),
        decreases hi - i,
    {
        let d = line[i] - 48;
        let t: u128 = (acc as u128) * 10 + (d as u128);
        proof {
            lemma_digits_val_extend(line@, lo as int, i as int);
        }
        if t > u64::MAX as u128 {
            proof {
                lemma_digits_val_prefix_le(line@, lo as int, i as int + 1, hi as int);
            }
            return None;
        }
        acc = t as u64;
        i = i + 1;
    }
    Some(acc)
}

/// Computes the n-th power of ten.
fn pow10_u64(n: usize) -> (r: u64)
    requires
        n <= 19,
    ensures
        r == pow10(n as nat),
{
    proof {
        lemma_pow10_vals();
    }
    let mut r: u64 = 1;
    let mut i: usize = 0;
    while i < n
        invariant
            i <= n <= 19,
            r == pow10(i as nat),
            pow10(19) == 10_000_000_000_000_000_000,
        decreases n - i,
    {
        proof {
            lemma_pow10_mono((i + 1) as nat, 19);
        }
        r = r * 10;
        i = i + 1;
    }
    r
}

// ---------------------------------------------------------------------------
// The simulated-time number
// ---------------------------------------------------------------------------

/// The pieces of a parsed scientific-notation number
/// `<digits> "." <digits> "e" [+|-] <digits>`: its value is
/// `mantissa * 10^(exp - frac_len)` with `exp` the signed exponent.
pub struct NumParts {
    /// All mantissa digits (integer part then fraction) as one integer.
    pub mantissa: int,
    /// How many of the mantissa digits stand after the decimal point.
    pub frac_len: int,
    /// Whether the exponent carries a minus sign.
    pub exp_neg: bool,
    /// Absolute value of the exponent.
    pub exp_val: int,
}

/// Parses the scientific-notation number that starts at `m`; bytes after it
/// are ignored. `None` if the grammar does not match.
pub open spec fn parse_num_at(s: Seq<u8>, m: int) -> Option<NumParts> {
    let a = digits_end(s, m);
    if a == m {
        None
    } else if !(a < s.len() && s[a] == 46) {
        None
    } else {
        let b = digits_end(s, a + 1);
        if b == a + 1 {
            None
        } else if !(b < s.len() && s[b] == 101) {
            None
        } else {
            let c = if b + 1 < s.len() && (s[b + 1] == 43 || s[b + 1] == 45) {
                b + 2
            } else {
                b + 1
            };
            let d = digits_end(s, c);
            if d == c {
                None
            } else {
                Some(
                    NumParts {
                        mantissa: digits_val(s.subrange(m, a)) * pow10((b - (a + 1)) as nat)
                            + digits_val(s.subrange(a + 1, b)),
                        frac_len: b - (a + 1),
                        exp_neg: b + 1 < s.len() && s[b + 1] == 45,
                        exp_val: digits_val(s.subrange(c, d)),
                    },
                )
            }
        }
    }
}

/// Decimal exponent of the number's value expressed in hundredths:
/// `value * 100 == mantissa * 10^scale_exp`.
pub open spec fn scale_exp(p: NumParts) -> int {
    (if p.exp_neg {
        -p.exp_val
    } else {
        p.exp_val
    }) - p.frac_len + 2
}

/// The number's value in hundredths of a unit, rounded half up.
pub open spec fn centi_of(p: NumParts) -> int {
    let k = scale_exp(p);
    if k >= 0 {
        p.mantissa * pow10(k as nat)
    } else {
        (2 * p.mantissa + pow10((-k) as nat)) / (2 * pow10((-k) as nat))
    }
}

/// Whether the parsed number can be carried in 64 bits: its digit fields
/// and its rounded hundredths value all fit.
pub open spec fn num_fits(p: NumParts) -> bool {
    p.mantissa <= u64::MAX && p.exp_val <= u64::MAX && centi_of(p) <= u64::MAX
}

/// Rounds the value `mant * 10^(exp - frac_len)` to hundredths, half up;
/// `None` if the result does not fit in a `u64`.
fn compute_centi(mant: u64, frac_len: usize, exp_neg: bool, exp_val: u64) -> (r: Option<u64>)
    ensures
        ({
            let p = NumParts {
                mantissa: mant as int,
                frac_len: frac_len as int,
                exp_neg: exp_neg,
                exp_val: exp_val as int,
            };
            match r {
                Some(c) => c == centi_of(p) && centi_of(p) <= u64::MAX,
                None => centi_of(p) > u64::MAX,
            }
        }),
{
    let ghost p = NumParts {
        mantissa: mant as int,
        frac_len: frac_len as int,
        exp_neg: exp_neg,
        exp_val: exp_val as int,
    };
    let e: i128 = if exp_neg {
        -(exp_val as i128)
    } else {
        exp_val as i128
    };
    let k: i128 = e - (frac_len as i128) + 2;
    proof {
        assert(k == scale_exp(p));
    }
    if mant == 0 {
        proof {
            if k >= 0 {
                assert(p.mantissa * pow10(k as nat) == 0) by (nonlinear_arith)
                    requires
                        p.mantissa == 0,
                ;
            }
            if k < 0 {
                let n = (-k) as nat;
                lemma_pow10_pos(n);
                assert(pow10(n) / (2 * pow10(n)) == 0) by (nonlinear_arith)
                    requires
                        pow10(n) >= 1,
                ;
            }
        }
        return Some(0);
    }
    if k >= 0 {
        if k > 19 {
            proof {
                lemma_pow10_vals();
                lemma_pow10_mono(20, k as nat);
                assert(p.mantissa * pow10(k as nat) >= pow10(k as nat)) by (nonlinear_arith)
                    requires
                        p.mantissa >= 1,
                        pow10(k as nat) >= 1,
                ;
            }
            return None;
        }
        let p10 = pow10_u64(k as usize);
        proof {
            lemma_pow10_vals();
            lemma_pow10_mono(k as nat, 19);
            assert((mant as u128) * (p10 as u128) <= (u64::MAX as u128) * (
            10_000_000_000_000_000_000u128)) by (nonlinear_arith)
                requires
                    mant <= u64::MAX,
                    0 <= p10 <= 10_000_000_000_000_000_000u64,
            ;
        }
        let prod: u128 = (mant as u128) * (p10 as u128);
        if prod > u64::MAX as u128 {
            return None;
        }
        return Some(prod as u64);
    }
    // k < 0: divide by 10^(-k), rounding half up.
    if k < -19 {
        proof {
            let n = (-k) as nat;
            lemma_pow10_vals();
            lemma_pow10_mono(20, n);
            assert(2 * p.mantissa + pow10(n) < 2 * pow10(n)) by {
                assert(2 * p.mantissa < pow10(n));
            }
            lemma_pow10_pos(n);
            assert((2 * p.mantissa + pow10(n)) / (2 * pow10(n)) == 0) by (nonlinear_arith)
                requires
                    0 <= 2 * p.mantissa + pow10(n) < 2 * pow10(n),
            ;
        }
        return Some(0);
    }
    let n = (-k) as usize;
    let p10 = pow10_u64(n);
    proof {
        lemma_pow10_pos(n as nat);
    }
    let num: u128 = 2 * (mant as u128) + (p10 as u128);
    let den: u128 = 2 * (p10 as u128);
    let q: u128 = num / den;
    proof {
        assert(q <= mant) by (nonlinear_arith)
            requires
                q == num / den,
                num == 2 * (mant as u128) + (p10 as u128),
                den == 2 * (p10 as u128),
                p10 >= 1,
        ;
        assert(q == centi_of(p));
    }
    Some(q as u64)
}

/// Parses the simulated-time number that starts at `m` and returns its
/// value in hundredths of a unit, rounded half up. `None` when the number
/// is malformed or any of its pieces overflows 64 bits.
fn parse_number_centi(line: &[u8], m: usize) -> (r: Option<u64>)
    requires
        m <= line@.len(),
    ensures
        match parse_num_at(line@, m as int) {
            Some(p) => match r {
                Some(c) => num_fits(p) && c == centi_of(p),
                None => !num_fits(p),
            },
            None => r is None,
        },
{
    let n = line.len();
    let a = scan_digits(line, m);
    if a == m {
        return None;
    }
    if a >= n || line[a] != 46 {
        return None;
    }
    let b = scan_digits(line, a + 1);
    if b == a + 1 {
        return None;
    }
    if b >= n || line[b] != 101 {
        return None;
    }
    let (neg, c): (bool, usize) = if b + 1 < n && line[b + 1] == 43 {
        (false, b + 2)
    } else if b + 1 < n && line[b + 1] == 45 {
        (true, b + 2)
    } else {
        (false, b + 1)
    };
    let d = scan_digits(line, c);
    if d == c {
        return None;
    }
    let ghost s = line@;
    let ghost p = parse_num_at(s, m as int).unwrap();
    proof {
        lemma_digits_end(s, m as int);
        lemma_digits_end(s, a as int + 1);
        lemma_digits_end(s, c as int);
        lemma_digits_val_nonneg(s.subrange(m as int, a as int));
        lemma_digits_val_nonneg(s.subrange(a as int + 1, b as int));
        lemma_digits_val_nonneg(s.subrange(c as int, d as int));
        lemma_pow10_pos((b - (a + 1)) as nat);
    }
    let f = b - (a + 1);
    let iv = match parse_digits_u64(line, m, a) {
        Some(v) => v,
        None => {
            proof {
                assert(p.mantissa > u64::MAX) by (nonlinear_arith)
                    requires
                        p.mantissa == digits_val(s.subrange(m as int, a as int)) * pow10(
                            (b - (a + 1)) as nat,
                        ) + digits_val(s.subrange(a as int + 1, b as int)),
                        digits_val(s.subrange(m as int, a as int)) > u64::MAX,
                        pow10((b - (a + 1)) as nat) >= 1,
                        digits_val(s.subrange(a as int + 1, b as int)) >= 0,
                ;
            }
            return None;
        },
    };
    let fv = match parse_digits_u64(line, a + 1, b) {
        Some(v) => v,
        None => {
            proof {
                assert(p.mantissa > u64::MAX) by (nonlinear_arith)
                    requires
                        p.mantissa == digits_val(s.subrange(m as int, a as int)) * pow10(
                            (b - (a + 1)) as nat,
                        ) + digits_val(s.subrange(a as int + 1, b as int)),
                        digits_val(s.subrange(m as int, a as int)) >= 0,
                        pow10((b - (a + 1)) as nat) >= 1,
                        digits_val(s.subrange(a as int + 1, b as int)) > u64::MAX,
                ;
            }
            return None;
        },
    };
    let mant: u64 = if iv == 0 {
        fv
    } else {
        if f > 19 {
            proof {
                lemma_pow10_vals();
                lemma_pow10_mono(20, f as nat);
                assert(p.mantissa > u64::MAX) by (nonlinear_arith)
                    requires
                        p.mantissa == (iv as int) * pow10(f as nat) + (fv as int),
                        iv >= 1,
                        fv >= 0,
                        pow10(f as nat) > u64::MAX,
                ;
            }
            return None;
        }
        let p10f = pow10_u64(f);
        proof {
            lemma_pow10_vals();
            lemma_pow10_mono(f as nat, 19);
            assert((iv as u128) * (p10f as u128) <= (u64::MAX as u128) * (
            10_000_000_000_000_000_000u128)) by (nonlinear_arith)
                requires
                    iv <= u64::MAX,
                    0 <= p10f <= 10_000_000_000_000_000_000u64,
            ;
        }
        let prodm: u128 = (iv as u128) * (p10f as u128) + (fv as u128);
        if prodm > u64::MAX as u128 {
            return None;
        }
        prodm as u64
    };
    let ev = match parse_digits_u64(line, c, d) {
        Some(v) => v,
        None => {
            return None;
        },
    };
    proof {
        if iv == 0 {
            assert(digits_val(s.subrange(m as int, a as int)) * pow10(f as nat) == 0)
                by (nonlinear_arith)
                requires
                    digits_val(s.subrange(m as int, a as int)) == 0,
            ;
        }
        assert(p.mantissa == mant as int);
        assert(p.exp_val == ev as int);
        assert(p.frac_len == f as int);
        assert(p.exp_neg == neg);
    }
    compute_centi(mant, f, neg, ev)
}

// ---------------------------------------------------------------------------
// Whole-line and whole-log extraction
// ---------------------------------------------------------------------------

/// What parsing one line yields: the step and the simulated time in
/// hundredths, or the error that the line earns.
pub open spec fn observe_line(s: Seq<u8>) -> Result<(int, int), CaseError> {
    match first_obs_from(s, 0) {
        None => Err(CaseError::Regex),
        Some(t) => {
            let sv = digits_val(s.subrange(t.0, t.1));
            if sv > usize::MAX {
                Err(CaseError::ParseInt)
            } else {
                match parse_num_at(s, t.2) {
                    None => Err(CaseError::ParseFloat),
                    Some(p) => if !num_fits(p) {
                        Err(CaseError::ParseFloat)
                    } else {
                        Ok((sv, centi_of(p)))
                    },
                }
            }
        },
    }
}

/// Parses one log line: finds the leftmost observation pattern, then reads
/// the step number and the simulated time.
///
/// Fails with `Regex` when no position of the line matches the pattern,
/// with `ParseInt` when the step digits overflow the step counter, and
/// with `ParseFloat` when the simulated-time number is malformed or
/// overflows 64 bits.
pub fn parse_observation(line: &[u8]) -> (r: Result<Observation, CaseError>)
    ensures
        ({
            let s = observe_line(line@);
            match r {
                Ok(o) => s is Ok && s->Ok_0 == (o.step as int, o.time_centi as int),
                Err(e) => s is Err && s->Err_0 == e,
            }
        }),
{
    let t = match find_observation(line) {
        None => {
            return Err(CaseError::Regex);
        },
        Some(t) => t,
    };
    let (ds, de, m) = t;
    proof {
        lemma_first_obs_props(line@, 0);
    }
    let sv = match parse_digits_u64(line, ds, de) {
        Some(v) => v,
        None => {
            return Err(CaseError::ParseInt);
        },
    };
    if sv > usize::MAX as u64 {
        return Err(CaseError::ParseInt);
    }
    match parse_number_centi(line, m) {
        None => Err(CaseError::ParseFloat),
        Some(c) => Ok(Observation { step: sv as usize, time_centi: c }),
    }
}

// ---------------------------------------------------------------------------
// The last keyword line of a log
// ---------------------------------------------------------------------------

/// The rightmost position before `i` at which the keyword `TimeStep`
/// stands; the filter step of the extraction.
pub open spec fn last_kw_before(s: Seq<u8>, i: int) -> Option<int>
    decreases i when i >= 0
{
    if i <= 0 {
        None
    } else if i - 1 + 8 <= s.len() && s.subrange(i - 1, i + 7) == keyword() {
        Some(i - 1)
    } else {
        last_kw_before(s, i - 1)
    }
}

proof fn lemma_last_kw_bounds(s: Seq<u8>, i: int)
    requires
        0 <= i,
        last_kw_before(s, i) is Some,
    ensures
        ({
            let j = last_kw_before(s, i)->Some_0;
            0 <= j && j < i && j + 8 <= s.len()
        }),
    decreases i,
{
    if !(i - 1 + 8 <= s.len() && s.subrange(i - 1, i + 7) == keyword()) {
        lemma_last_kw_bounds(s, i - 1);
    }
}

/// Start of the line of `s` that position `i` stands in.
pub open spec fn line_start(s: Seq<u8>, i: int) -> int
    decreases i when 0 <= i <= s.len()
{
    if i <= 0 {
        0
    } else if s[i - 1] == 10 {
        i
    } else {
        line_start(s, i - 1)
    }
}

/// End of the line of `s` that position `i` stands in.
pub open spec fn line_end(s: Seq<u8>, i: int) -> int
    decreases s.len() - i when 0 <= i <= s.len()
{
    if i < s.len() && s[i] != 10 {
        line_end(s, i + 1)
    } else {
        i
    }
}

proof fn lemma_line_start(s: Seq<u8>, i: int)
    requires
        0 <= i <= s.len(),
    ensures
        0 <= line_start(s, i) <= i,
    decreases i,
{
    if i > 0 && s[i - 1] != 10 {
        lemma_line_start(s, i - 1);
    }
}

proof fn lemma_line_end(s: Seq<u8>, i: int)
    requires
        0 <= i <= s.len(),
    ensures
        i <= line_end(s, i) <= s.len(),
    decreases s.len() - i,
{
    if i < s.len() && s[i] != 10 {
        lemma_line_end(s, i + 1);
    }
}

/// Finds the rightmost occurrence of the keyword `TimeStep` in the log.
fn find_last_keyword(log: &[u8]) -> (r: Option<usize>)
    ensures
        match r {
            Some(j) => last_kw_before(log@, log@.len() as int) == Some(j as int),
            None => last_kw_before(log@, log@.len() as int) is None,
        },
{
    let n = log.len();
    let mut best: Option<usize> = None;
    let mut i: usize = 0;
    while i < n
        invariant
            i <= n == log@.len(),
            match best {
                Some(j) => last_kw_before(log@, i as int) == Some(j as int),
                None => last_kw_before(log@, i as int) is None,
            },
        decreases n - i,
    {
        if kw_at(log, i) {
            best = Some(i);
        }
        i = i + 1;
    }
    best
}

/// Bounds of the line that position `j` stands in: the positions after the
/// previous newline and before the next one.
fn line_bounds(log: &[u8], j: usize) -> (r: (usize, usize))
    requires
        j <= log@.len(),
    ensures
        r.0 == line_start(log@, j as int),
        r.1 == line_end(log@, j as int),
        r.0 <= j <= r.1 <= log@.len(),
{
    proof {
        lemma_line_start(log@, j as int);
        lemma_line_end(log@, j as int);
    }
    let mut start = j;
    while start > 0 && log[start - 1] != 10
        invariant
            start <= j <= log@.len(),
            line_start(log@, j as int) == line_start(log@, start as int),
        decreases start,
    {
        start = start - 1;
    }
    let n = log.len();
    let mut end = j;
    while end < n && log[end] != 10
        invariant
            j <= end <= n == log@.len(),
            line_end(log@, j as int) == line_end(log@, end as int),
        decreases n - end,
    {
        end = end + 1;
    }
    (start, end)
}

/// What one poll of a whole log yields: the step and simulated time read
/// from the last line that holds the keyword `TimeStep`, or the error the
/// log earns.
pub open spec fn observe(t: Seq<u8>) -> Result<(int, int), CaseError> {
    match last_kw_before(t, t.len() as int) {
        None => Err(CaseError::Regex),
        Some(j) => observe_line(t.subrange(line_start(t, j), line_end(t, j))),
    }
}

/// Extracts the most recent progress observation from a log: takes the last
/// line that holds the keyword `TimeStep` and parses it.
///
/// Fails with `Regex` when no line holds the keyword or the chosen line
/// does not match the observation pattern, with `ParseInt` when the step
/// digits overflow, and with `ParseFloat` when the simulated-time number is
/// malformed or overflows.
pub fn extract_last_observation(log: &[u8]) -> (r: Result<Observation, CaseError>)
    ensures
        ({
            let s = observe(log@);
            match r {
                Ok(o) => s is Ok && s->Ok_0 == (o.step as int, o.time_centi as int),
                Err(e) => s is Err && s->Err_0 == e,
            }
        }),
{
    let j = match find_last_keyword(log) {
        None => {
            return Err(CaseError::Regex);
        },
        Some(j) => j,
    };
    proof {
        lemma_last_kw_bounds(log@, log@.len() as int);
    }
    let (ls, le) = line_bounds(log, j);
    let line: &[u8] = &log[ls..le];
    parse_observation(line)
}

} // verus!

