//! Fixed-point parsing of decimal angular coordinates.
//!
//! An attribute value such as `47.1234567` becomes degrees times `10^7`.
//! Accepted form: an optional sign, then digits with at most one decimal
//! point and at least one digit in total. Fractional digits beyond the
//! seventh are cut off. Anything else — exponents, stray characters,
//! whitespace, a magnitude beyond 180 degrees — is rejected, and the point
//! carrying the value is skipped.

use vstd::prelude::*;

verus! {

/// Largest accepted magnitude: 180 degrees in e7 fixed point.
pub const COORD_ABS_MAX_E7: i64 = 1_800_000_000;

pub open spec fn is_digit(b: u8) -> bool {
    48 <= b <= 57
}

/// First position at or after `i` holding a non-digit byte, or the length.
pub open spec fn digits_end(s: Seq<u8>, i: int) -> int
    decreases s.len() - i,
{
    if i >= s.len() {
        s.len() as int
    } else if is_digit(s[i]) {
        digits_end(s, i + 1)
    } else {
        i
    }
}

proof fn lemma_digits_end_eq(s: Seq<u8>, i: int, r: int)
    requires
        0 <= i <= r <= s.len(),
        r < s.len() ==> !is_digit(s[r]),
        forall|k: int| i <= k < r ==> is_digit(s[k]),
    ensures
        digits_end(s, i) == r,
    decreases r - i,
{
    if i < r {
        lemma_digits_end_eq(s, i + 1, r);
    }
}

fn scan_digits(s: &Vec<u8>, from: usize) -> (r: usize)
    requires
        from <= s@.len(),
    ensures
        r as int == digits_end(s@, from as int),
        from <= r <= s@.len(),
        forall|k: int| from <= k < r ==> is_digit(s@[k]),
{
    let n = s.len();
    let mut j = from;
    while j < n && 48 <= s[j] && s[j] <= 57
        invariant
            from <= j <= n,
            n == s@.len(),
            forall|k: int| from <= k < j ==> is_digit(s@[k]),
        decreases n - j,
    {
        j = j + 1;
    }
    proof {
        lemma_digits_end_eq(s@, from as int, j as int);
    }
    j
}

/// Value of the digit run `s[i..j)` read as a base-ten number.
pub open spec fn digits_value(s: Seq<u8>, i: int, j: int) -> int
    decreases j - i,
{
    if j <= i {
        0
    } else {
        digits_value(s, i, j - 1) * 10 + (s[j - 1] - 48)
    }
}

proof fn lemma_digits_value_nonneg(s: Seq<u8>, i: int, j: int)
    requires
        forall|k: int| i <= k < j ==> is_digit(s[k]),
        0 <= i,
        j <= s.len(),
    ensures
        digits_value(s, i, j) >= 0,
    decreases j - i,
{
    if j > i {
        lemma_digits_value_nonneg(s, i, j - 1);
    }
}

/// A digit run's value never shrinks as more digits are appended.
proof fn lemma_digits_value_mono(s: Seq<u8>, i: int, k: int, j: int)
    requires
        i <= k <= j <= s.len(),
        0 <= i,
        forall|m: int| i <= m < j ==> is_digit(s[m]),
    ensures
        digits_value(s, i, j) >= digits_value(s, i, k),
    decreases j - k,
{
    if k < j {
        lemma_digits_value_mono(s, i, k, j - 1);
        lemma_digits_value_nonneg(s, i, j - 1);
        assert(digits_value(s, i, j) == digits_value(s, i, j - 1) * 10 + (s[j - 1] - 48));
        assert(digits_value(s, i, j - 1) * 10 >= digits_value(s, i, j - 1)) by (nonlinear_arith)
            requires
                digits_value(s, i, j - 1) >= 0,
        ;
    }
}

pub open spec fn pow10(k: nat) -> int
    decreases k,
{
    if k == 0 {
        1
    } else {
        10 * pow10((k - 1) as nat)
    }
}

proof fn lemma_digits_value_bound(s: Seq<u8>, i: int, j: int)
    requires
        0 <= i <= j <= s.len(),
        forall|k: int| i <= k < j ==> is_digit(s[k]),
    ensures
        0 <= digits_value(s, i, j) < pow10((j - i) as nat),
    decreases j - i,
{
    if j > i {
        lemma_digits_value_bound(s, i, j - 1);
        assert(digits_value(s, i, j - 1) * 10 + 9 < pow10((j - i) as nat)) by (nonlinear_arith)
            requires
                digits_value(s, i, j - 1) < pow10((j - i - 1) as nat),
                digits_value(s, i, j - 1) >= 0,
                pow10((j - i) as nat) == 10 * pow10((j - i - 1) as nat),
        ;
    }
}

/// Digit-run value, stopped early once it can no longer stay within range.
fn digits_value_capped(s: &Vec<u8>, from: usize, upto: usize) -> (r: Option<u64>)
    requires
        from <= upto <= s@.len(),
        forall|k: int| from <= k < upto ==> is_digit(s@[k]),
    ensures
        match r {
            Some(v) => v as int == digits_value(s@, from as int, upto as int) && v <= 2000,
            None => digits_value(s@, from as int, upto as int) > 2000,
        },
{
    let mut v: u64 = 0;
    let mut j = from;
    while j < upto
        invariant
            from <= j <= upto <= s@.len(),
            forall|k: int| from <= k < upto ==> is_digit(s@[k]),
            v as int == digits_value(s@, from as int, j as int),
            v <= 2000,
        decreases upto - j,
    {
        let d = s[j] - 48;
        let nv = v * 10 + (d as u64);
        if nv > 2000 {
            proof {
                lemma_digits_value_mono(s@, from as int, j + 1 as int, upto as int);
            }
            return None;
        }
        v = nv;
        j = j + 1;
    }
    Some(v)
}

/// The coordinate denoted by `s`, in e7 fixed point, or nothing when `s` is
/// not a plain decimal number of magnitude at most 180 degrees.
pub open spec fn coord_of(s: Seq<u8>) -> Option<int> {
    let negative = s.len() > 0 && s[0] == 45;
    let i0: int = if s.len() > 0 && (s[0] == 43 || s[0] == 45) {
        1
    } else {
        0
    };
    let ie = digits_end(s, i0);
    let whole = digits_value(s, i0, ie);
    if ie == s.len() {
        if ie > i0 {
            check_range(negative, whole * 10_000_000)
        } else {
            None
        }
    } else if s[ie] == 46 {
        let fe = digits_end(s, ie + 1);
        if fe == s.len() && (ie > i0 || fe > ie + 1) {
            let fd: int = if fe - (ie + 1) > 7 {
                7
            } else {
                fe - (ie + 1)
            };
            let frac = digits_value(s, ie + 1, ie + 1 + fd) * pow10((7 - fd) as nat);
            check_range(negative, whole * 10_000_000 + frac)
        } else {
            None
        }
    } else {
        None
    }
}

pub open spec fn check_range(negative: bool, magnitude: int) -> Option<int> {
    if magnitude > COORD_ABS_MAX_E7 as int {
        None
    } else if negative {
        Some(-magnitude)
    } else {
        Some(magnitude)
    }
}

proof fn lemma_pow10_7()
    ensures
        pow10(7nat) == 10_000_000,
{
    reveal_with_fuel(pow10, 8);
}

proof fn lemma_pow10_pos(k: nat)
    ensures
        pow10(k) >= 1,
    decreases k,
{
    if k > 0 {
        lemma_pow10_pos((k - 1) as nat);
    }
}

proof fn lemma_pow10_add(a: nat, b: nat)
    ensures
        pow10(a + b) == pow10(a) * pow10(b),
    decreases a,
{
    if a == 0 {
    } else {
        lemma_pow10_add((a - 1) as nat, b);
        assert(10 * (pow10((a - 1) as nat) * pow10(b)) == (10 * pow10((a - 1) as nat)) * pow10(b))
            by (nonlinear_arith);
    }
}

/// Powers of ten up to the seventh stay within the fraction scale.
proof fn lemma_pow10_at_most_7(k: nat)
    requires
        k <= 7,
    ensures
        1 <= pow10(k) <= 10_000_000,
{
    lemma_pow10_7();
    lemma_pow10_pos(k);
    lemma_pow10_add(k, (7 - k) as nat);
    lemma_pow10_pos((7 - k) as nat);
    assert(pow10(k) * pow10((7 - k) as nat) >= pow10(k) * 1) by (nonlinear_arith)
        requires
            pow10((7 - k) as nat) >= 1,
            pow10(k) >= 1,
    ;
}

fn pow10_small(k: u64) -> (r: u64)
    requires
        k <= 7,
    ensures
        r as int == pow10(k as nat),
        1 <= r <= 10_000_000,
{
    let mut r: u64 = 1;
    let mut j: u64 = 0;
    while j < k
        invariant
            0 <= j <= k <= 7,
            r as int == pow10(j as nat),
            r <= 10_000_000,
        decreases k - j,
    {
        proof {
            lemma_pow10_at_most_7((j + 1) as nat);
        }
        r = r * 10;
        j = j + 1;
    }
    proof {
        lemma_pow10_at_most_7(k as nat);
    }
    r
}

/// Digit-run value of at most seven digits; always below `10^7`.
fn digits_value_small(s: &Vec<u8>, from: usize, upto: usize) -> (r: u64)
    requires
        from <= upto <= s@.len(),
        upto - from <= 7,
        forall|k: int| from <= k < upto ==> is_digit(s@[k]),
    ensures
        r as int == digits_value(s@, from as int, upto as int),
        r < 10_000_000,
{
    let mut v: u64 = 0;
    let mut j = from;
    while j < upto
        invariant
            from <= j <= upto <= s@.len(),
            upto - from <= 7,
            forall|k: int| from <= k < upto ==> is_digit(s@[k]),
            v as int == digits_value(s@, from as int, j as int),
            (v as int) < pow10((j - from) as nat),
        decreases upto - j,
    {
        let d = s[j] - 48;
        proof {
            lemma_pow10_pos((j - from) as nat);
            assert(pow10((j + 1 - from) as nat) == 10 * pow10((j - from) as nat));
            assert((v as int) * 10 + 9 < pow10((j + 1 - from) as nat)) by (nonlinear_arith)
                requires
                    (v as int) < pow10((j - from) as nat),
                    v >= 0,
                    pow10((j + 1 - from) as nat) == 10 * pow10((j - from) as nat),
            ;
            lemma_pow10_at_most_7((j + 1 - from) as nat);
        }
        v = v * 10 + (d as u64);
        j = j + 1;
    }
    proof {
        lemma_pow10_at_most_7((j - from) as nat);
    }
    v
}

/// Assembles the signed fixed-point value and applies the range check.
fn finish_coord(negative: bool, whole: u64, fval: u64) -> (r: Option<i64>)
    requires
        whole <= 2000,
        fval < 10_000_000,
    ensures
        match r {
            Some(v) => check_range(negative, whole as int * 10_000_000 + fval as int) == Some(
                v as int,
            ) && -COORD_ABS_MAX_E7 <= v <= COORD_ABS_MAX_E7,
            None => check_range(negative, whole as int * 10_000_000 + fval as int) is None,
        },
{
    let mag: u64 = whole * 10_000_000 + fval;
    if mag > 1_800_000_000 {
        None
    } else {
        let m = mag as i64;
        if negative {
            Some(-m)
        } else {
            Some(m)
        }
    }
}

proof fn lemma_whole_too_big(w: int)
    requires
        w > 2000,
    ensures
        w * 10_000_000 > COORD_ABS_MAX_E7,
{
    assert(w * 10_000_000 > 2000 * 10_000_000) by (nonlinear_arith)
        requires
            w > 2000,
    ;
}

/// Parses a decimal coordinate; `Some` exactly on the inputs `coord_of`
/// accepts, and the value is then within 180 degrees either way.
pub fn parse_coord(s: &Vec<u8>) -> (r: Option<i64>)
    ensures
        match r {
            Some(v) => coord_of(s@) == Some(v as int) && -COORD_ABS_MAX_E7 <= v
                <= COORD_ABS_MAX_E7,
            None => coord_of(s@) is None,
        },
{
    let n = s.len();
    let negative = n > 0 && s[0] == 45;
    let i0: usize = if n > 0 && (s[0] == 43 || s[0] == 45) {
        1
    } else {
        0
    };
    let ie = scan_digits(s, i0);
    let whole_opt = digits_value_capped(s, i0, ie);
    if ie == n {
        if ie > i0 {
            match whole_opt {
                Some(w) => finish_coord(negative, w, 0),
                None => {
                    proof {
                        lemma_whole_too_big(digits_value(s@, i0 as int, ie as int));
                    }
                    None
                },
            }
        } else {
            None
        }
    } else if s[ie] == 46 {
        let fe = scan_digits(s, ie + 1);
        if fe == n && (ie > i0 || fe > ie + 1) {
            let fd: usize = if fe - (ie + 1) > 7 {
                7
            } else {
                fe - (ie + 1)
            };
            let fpart = digits_value_small(s, ie + 1, ie + 1 + fd);
            let pw = pow10_small(7 - fd as u64);
            proof {
                lemma_digits_value_bound(s@, ie + 1 as int, ie + 1 + fd as int);
                lemma_pow10_add(fd as nat, (7 - fd) as nat);
                lemma_pow10_7();
                assert((fpart as int) * (pw as int) < 10_000_000) by (nonlinear_arith)
                    requires
                        0 <= fpart as int <= pow10(fd as nat) - 1,
                        1 <= pw as int,
                        pw as int == pow10((7 - fd) as nat),
                        pow10(fd as nat) * pow10((7 - fd) as nat) == 10_000_000,
                ;
            }
            let fval: u64 = fpart * pw;
            match whole_opt {
                Some(w) => finish_coord(negative, w, fval),
                None => {
                    proof {
                        lemma_whole_too_big(digits_value(s@, i0 as int, ie as int));
                    }
                    None
                },
            }
        } else {
            None
        }
    } else {
        None
    }
}

} // verus!
