//! JSON numbers are IEEE-754 binary64 values.  The library never computes
//! with floating point: a number is carried as the 64-bit pattern of the
//! double, and everything the library decides about numbers (equality,
//! order, finiteness, truncation to `i32`, conversion from `i32`) is integer
//! logic on that pattern.
use vstd::prelude::*;

verus! {

/// 2^63: the sign bit of a binary64 pattern.
pub const SIGN_BIT: u64 = 0x8000_0000_0000_0000;

/// 2^52: the weight of the lowest exponent bit (and of the implicit mantissa bit).
pub const EXPONENT_UNIT: u64 = 0x10_0000_0000_0000;

/// The pattern of positive infinity; larger magnitudes are NaNs.
pub const INFINITY_MAGNITUDE: u64 = 0x7ff0_0000_0000_0000;

/// `2^n`.
pub open spec fn two_pow(n: nat) -> nat
    decreases n,
{
    if n == 0 {
        1
    } else {
        2 * two_pow((n - 1) as nat)
    }
}

/// The pattern without its sign bit; for non-NaN patterns it grows with `|value|`.
pub open spec fn magnitude(b: u64) -> int {
    (b % SIGN_BIT) as int
}

/// The biased exponent field (bits 52..62).
pub open spec fn exponent_field(b: u64) -> int {
    magnitude(b) / (EXPONENT_UNIT as int)
}

/// The fraction field (bits 0..51).
pub open spec fn fraction_field(b: u64) -> int {
    (b % EXPONENT_UNIT) as int
}

pub open spec fn sign_set(b: u64) -> bool {
    b >= SIGN_BIT
}

/// A NaN has an all-ones exponent and a non-zero fraction.
pub open spec fn is_nan(b: u64) -> bool {
    magnitude(b) > INFINITY_MAGNITUDE as int
}

/// Neither infinite nor NaN.
pub open spec fn is_finite(b: u64) -> bool {
    magnitude(b) < INFINITY_MAGNITUDE as int
}

/// An integer that orders non-NaN doubles as their values are ordered:
/// `+0` and `-0` both map to `0`.
pub open spec fn order_key(b: u64) -> int {
    if sign_set(b) {
        -magnitude(b)
    } else {
        magnitude(b)
    }
}

/// Floating-point equality (`==` on `f64`): NaN equals nothing, `+0 == -0`.
pub open spec fn number_eq(a: u64, b: u64) -> bool {
    !is_nan(a) && !is_nan(b) && order_key(a) == order_key(b)
}

/// The significand of a finite pattern, implicit bit included.
pub open spec fn significand(b: u64) -> int {
    if exponent_field(b) == 0 {
        fraction_field(b)
    } else {
        fraction_field(b) + EXPONENT_UNIT as int
    }
}

/// The binary exponent `k` such that `|value| == significand * 2^k`, plus 1074.
pub open spec fn scaled_exponent(b: u64) -> int {
    if exponent_field(b) == 0 {
        0
    } else {
        exponent_field(b) - 1
    }
}

/// `floor(|value|)` of a finite pattern.
pub open spec fn truncated_magnitude(b: u64) -> int {
    let k = scaled_exponent(b) - 1074;
    if k >= 0 {
        significand(b) * two_pow(k as nat)
    } else {
        significand(b) / (two_pow((-k) as nat) as int)
    }
}

/// What `value as i32` gives in Rust: truncation toward zero, saturating at
/// the bounds of `i32`, and `0` for NaN.
pub open spec fn saturating_i32(b: u64) -> i32 {
    if is_nan(b) {
        0
    } else if !is_finite(b) {
        if sign_set(b) {
            i32::MIN
        } else {
            i32::MAX
        }
    } else {
        let t = truncated_magnitude(b);
        let v = if sign_set(b) {
            -t
        } else {
            t
        };
        if v > i32::MAX {
            i32::MAX
        } else if v < i32::MIN {
            i32::MIN
        } else {
            v as i32
        }
    }
}

/// The pattern `b` is a finite double whose value is exactly the integer `n`.
pub open spec fn represents_int(b: u64, n: int) -> bool {
    let k = scaled_exponent(b) - 1074;
    let m = if n < 0 {
        -n
    } else {
        n
    };
    &&& is_finite(b)
    &&& (n < 0 ==> sign_set(b))
    &&& (n > 0 ==> !sign_set(b))
    &&& if k >= 0 {
        significand(b) * two_pow(k as nat) == m
    } else {
        significand(b) == m * two_pow((-k) as nat)
    }
}

pub proof fn lemma_two_pow_positive(n: nat)
    ensures
        two_pow(n) >= 1,
    decreases n,
{
    if n > 0 {
        lemma_two_pow_positive((n - 1) as nat);
    }
}

pub proof fn lemma_two_pow_monotone(a: nat, b: nat)
    requires
        a <= b,
    ensures
        two_pow(a) <= two_pow(b),
    decreases b,
{
    if a < b {
        lemma_two_pow_monotone(a, (b - 1) as nat);
        lemma_two_pow_positive((b - 1) as nat);
    }
}

/// The absolute value, times `2^1074`, of the finite double whose pattern
/// without its sign is `m`: the significand (with the implicit bit when the
/// exponent field is not zero) times the power of two of the exponent.
pub open spec fn magnitude_value(m: int) -> int {
    let e = m / 0x10_0000_0000_0000int;
    let f = m % 0x10_0000_0000_0000int;
    if e == 0 {
        f
    } else {
        (f + 0x10_0000_0000_0000int) * two_pow((e - 1) as nat)
    }
}

/// The value of a finite double, times `2^1074` (so an integer).
pub open spec fn scaled_value(b: u64) -> int {
    let v = significand(b) * two_pow(scaled_exponent(b) as nat);
    if sign_set(b) {
        -v
    } else {
        v
    }
}

pub proof fn lemma_scaled_value(b: u64)
    requires
        is_finite(b),
    ensures
        scaled_value(b) == if sign_set(b) {
            -magnitude_value(magnitude(b))
        } else {
            magnitude_value(magnitude(b))
        },
{
    assert((b % 0x8000_0000_0000_0000u64) % 0x10_0000_0000_0000u64 == b % 0x10_0000_0000_0000u64)
        by (bit_vector);
    let m = magnitude(b);
    assert(m == (b % 0x8000_0000_0000_0000u64) as int);
    assert(fraction_field(b) == m % 0x10_0000_0000_0000int);
    assert(exponent_field(b) == m / 0x10_0000_0000_0000int);
    let e = exponent_field(b);
    if e == 0 {
        assert(two_pow(0) == 1);
        let f = fraction_field(b);
        let t = two_pow(0);
        assert(f * t == f) by (nonlinear_arith)
            requires
                t == 1,
        ;
        assert(scaled_exponent(b) == 0);
        assert(significand(b) * two_pow(scaled_exponent(b) as nat) == magnitude_value(m));
    } else {
        assert(significand(b) * two_pow(scaled_exponent(b) as nat) == magnitude_value(m));
    }
}

/// Larger patterns (without sign) of finite doubles have larger values.
pub proof fn lemma_magnitude_value_monotone(m1: int, m2: int)
    requires
        0 <= m1 < m2,
    ensures
        0 <= magnitude_value(m1) < magnitude_value(m2),
{
    let u = 0x10_0000_0000_0000int;
    let e1 = m1 / u;
    let f1 = m1 % u;
    let e2 = m2 / u;
    let f2 = m2 % u;
    assert(m1 == u * e1 + f1 && 0 <= f1 < u);
    assert(m2 == u * e2 + f2 && 0 <= f2 < u);
    assert(e1 <= e2) by (nonlinear_arith)
        requires
            m1 == u * e1 + f1,
            m2 == u * e2 + f2,
            0 <= f1 < u,
            0 <= f2 < u,
            m1 < m2,
            u > 0,
    ;
    assert(e1 >= 0);
    if e1 == e2 {
        assert(f1 < f2);
        if e1 > 0 {
            let p = two_pow((e1 - 1) as nat);
            lemma_two_pow_positive((e1 - 1) as nat);
            assert((f1 + u) * p < (f2 + u) * p) by (nonlinear_arith)
                requires
                    f1 < f2,
                    p >= 1,
            ;
            assert(0 <= (f1 + u) * p) by (nonlinear_arith)
                requires
                    0 <= f1,
                    p >= 1,
                    u > 0,
            ;
        }
    } else {
        let p2 = two_pow((e2 - 1) as nat);
        lemma_two_pow_positive((e2 - 1) as nat);
        assert(u <= (f2 + u) * p2) by (nonlinear_arith)
            requires
                0 <= f2,
                p2 >= 1,
                u > 0,
        ;
        if e1 > 0 {
            let p1 = two_pow((e1 - 1) as nat);
            lemma_two_pow_positive((e1 - 1) as nat);
            lemma_two_pow_monotone(e1 as nat, (e2 - 1) as nat);
            assert(two_pow(e1 as nat) == 2 * p1);
            let q = two_pow(e1 as nat);
            assert((f1 + u) * p1 < u * q && u * q <= (f2 + u) * p2 && 0 <= (f1 + u) * p1)
                by (nonlinear_arith)
                requires
                    0 <= f1 < u,
                    q == 2 * p1,
                    p1 >= 1,
                    q <= p2,
                    0 <= f2,
            ;
        }
    }
}


proof fn lemma_two_pow_values()
    ensures
        two_pow(21) == 0x20_0000,
        two_pow(22) == 0x40_0000,
        two_pow(31) == 0x8000_0000,
        two_pow(52) == 0x10_0000_0000_0000,
        two_pow(53) == 0x20_0000_0000_0000,
{
    reveal_with_fuel(two_pow, 54);
}

/// Whether the pattern is a NaN.
pub fn number_is_nan(b: u64) -> (r: bool)
    ensures
        r == is_nan(b),
{
    b % SIGN_BIT > INFINITY_MAGNITUDE
}

/// Whether the pattern is a finite double.
pub fn number_is_finite(b: u64) -> (r: bool)
    ensures
        r == is_finite(b),
{
    b % SIGN_BIT < INFINITY_MAGNITUDE
}

/// Floating-point equality of two patterns.
pub fn number_equals(a: u64, b: u64) -> (r: bool)
    ensures
        r == number_eq(a, b),
{
    if number_is_nan(a) || number_is_nan(b) {
        return false;
    }
    let ma = a % SIGN_BIT;
    let mb = b % SIGN_BIT;
    if ma == 0 && mb == 0 {
        true
    } else {
        a == b
    }
}

/// `floor(x / 2^n)` by repeated halving.
fn halve_times(x: u64, n: u64) -> (r: u64)
    ensures
        r == x as int / (two_pow(n as nat) as int),
{
    let mut r = x;
    let mut i: u64 = 0;
    assert(two_pow(0) == 1);
    while i < n
        invariant
            i <= n,
            r == x as int / (two_pow(i as nat) as int),
        decreases n - i,
    {
        proof {
            lemma_two_pow_positive(i as nat);
            vstd::arithmetic::div_mod::lemma_div_denominator(x as int, two_pow(i as nat) as int, 2);
            assert(two_pow((i + 1) as nat) == 2 * two_pow(i as nat));
            assert(two_pow(i as nat) * 2 == 2 * two_pow(i as nat)) by (nonlinear_arith);
        }
        r = r / 2;
        i = i + 1;
    }
    r
}

/// The value of the pattern converted as `value as i32`.
pub fn number_to_i32(b: u64) -> (r: i32)
    ensures
        r == saturating_i32(b),
{
    if number_is_nan(b) {
        return 0;
    }
    let neg = b >= SIGN_BIT;
    if !number_is_finite(b) {
        return if neg {
            i32::MIN
        } else {
            i32::MAX
        };
    }
    let mag = b % SIGN_BIT;
    let e = mag / EXPONENT_UNIT;
    let m = if e == 0 {
        b % EXPONENT_UNIT
    } else {
        b % EXPONENT_UNIT + EXPONENT_UNIT
    };
    proof {
        lemma_two_pow_values();
        assert(m == significand(b));
        assert(m < 0x20_0000_0000_0000);
    }
    if e < 1023 {
        // |value| < 1
        proof {
            let k = scaled_exponent(b) - 1074;
            assert(k <= -53);
            lemma_two_pow_monotone(53, (-k) as nat);
            vstd::arithmetic::div_mod::lemma_small_div_converse(m as int, two_pow((-k) as nat) as int);
            assert(truncated_magnitude(b) == 0) by {
                assert(0 <= m < two_pow((-k) as nat));
                vstd::arithmetic::div_mod::lemma_basic_div(m as int, two_pow((-k) as nat) as int);
            }
        }
        return 0;
    }
    if e >= 1054 {
        // |value| >= 2^31
        proof {
            let k = scaled_exponent(b) - 1074;
            if k >= 0 {
                lemma_two_pow_positive(k as nat);
                assert(significand(b) * two_pow(k as nat) >= significand(b)) by (nonlinear_arith)
                    requires
                        two_pow(k as nat) >= 1,
                        significand(b) >= 0,
                ;
            } else {
                assert(-k <= 21);
                lemma_two_pow_monotone((-k) as nat, 21);
                lemma_two_pow_positive((-k) as nat);
                let d = two_pow((-k) as nat) as int;
                assert(m >= 0x10_0000_0000_0000);
                assert((m as int) / d >= 0x8000_0000) by {
                    vstd::arithmetic::div_mod::lemma_div_is_ordered(
                        0x8000_0000 * d,
                        m as int,
                        d,
                    );
                    vstd::arithmetic::div_mod::lemma_div_multiples_vanish(0x8000_0000, d);
                    assert(0x8000_0000 * d <= 0x8000_0000 * 0x20_0000) by (nonlinear_arith)
                        requires
                            d <= 0x20_0000,
                    ;
                }
            }
        }
        return if neg {
            i32::MIN
        } else {
            i32::MAX
        };
    }
    let t = halve_times(m, 1075 - e);
    proof {
        assert(scaled_exponent(b) - 1074 == e - 1075);
        lemma_two_pow_monotone(22, (1075 - e) as nat);
        let d = two_pow((1075 - e) as nat) as int;
        assert(t < 0x8000_0000) by {
            vstd::arithmetic::div_mod::lemma_div_is_ordered_by_denominator(m as int, 0x40_0000, d);
            assert((m as int) / 0x40_0000 < 0x8000_0000);
        }
    }
    if neg {
        -(t as i32)
    } else {
        t as i32
    }
}

/// The pattern of the double whose value is `n`; `0` maps to `+0`.
pub fn number_from_i32(n: i32) -> (r: u64)
    ensures
        represents_int(r, n as int),
        n == 0 ==> r == 0,
{
    if n == 0 {
        proof {
            assert(significand(0) == 0);
            assert(scaled_exponent(0) == 0);
            lemma_two_pow_positive(1074);
            assert(0 * two_pow(1074) == 0);
        }
        return 0;
    }
    let a: u64 = if n < 0 {
        (-(n as i64)) as u64
    } else {
        n as u64
    };
    // k = floor(log2 a)
    let mut q: u64 = a;
    let mut k: u64 = 0;
    proof {
        lemma_two_pow_values();
        assert(two_pow(0) == 1);
    }
    while q >= 2
        invariant
            1 <= q,
            1 <= a <= 0x8000_0000,
            k <= 31,
            q * two_pow(k as nat) <= a,
            a < (q + 1) * two_pow(k as nat),
            q * two_pow(k as nat) <= 0x8000_0000,
        decreases q,
    {
        proof {
            lemma_two_pow_positive(k as nat);
            let p = two_pow(k as nat) as int;
            assert(two_pow((k + 1) as nat) == 2 * p);
            assert((q / 2) * (2 * p) <= q * p) by (nonlinear_arith)
                requires
                    q >= 0,
                    p >= 0,
            ;
            assert(q * p < ((q / 2) + 1) * (2 * p)) by (nonlinear_arith)
                requires
                    q >= 0,
                    p >= 1,
            ;
            assert((q + 1) * p <= ((q / 2) + 1) * (2 * p)) by (nonlinear_arith)
                requires
                    q >= 0,
                    p >= 1,
            ;
            lemma_two_pow_positive(k as nat);
            if k >= 31 {
                lemma_two_pow_values();
                lemma_two_pow_monotone(31, k as nat);
                assert(q * p >= 2 * 0x8000_0000) by (nonlinear_arith)
                    requires
                        q >= 2,
                        p >= 0x8000_0000,
                ;
            }
        }
        q = q / 2;
        k = k + 1;
    }
    assert(q == 1);
    // mantissa = a * 2^(52 - k), in [2^52, 2^53)
    let mut mant: u64 = a;
    let mut j: u64 = 0;
    assert(two_pow(0) == 1);
    while j < 52 - k
        invariant
            k <= 31,
            j <= 52 - k,
            mant == a * two_pow(j as nat),
            two_pow((k + j) as nat) <= mant < 2 * two_pow((k + j) as nat),
        decreases 52 - k - j,
    {
        proof {
            lemma_two_pow_monotone((k + j) as nat, 51);
            lemma_two_pow_values();
            assert(two_pow(51) == 0x8_0000_0000_0000) by {
                assert(two_pow(52) == 2 * two_pow(51));
            }
            assert(two_pow((k + j + 1) as nat) == 2 * two_pow((k + j) as nat));
            assert(two_pow((j + 1) as nat) == 2 * two_pow(j as nat));
            assert(a * (2 * two_pow(j as nat)) == 2 * (a * two_pow(j as nat))) by (nonlinear_arith);
        }
        mant = mant * 2;
        j = j + 1;
    }
    proof {
        lemma_two_pow_values();
        assert(k + j == 52);
    }
    let sign: u64 = if n < 0 {
        SIGN_BIT
    } else {
        0
    };
    let r = sign + (k + 1023) * EXPONENT_UNIT + (mant - EXPONENT_UNIT);
    proof {
        let body = (k + 1023) * EXPONENT_UNIT + (mant - EXPONENT_UNIT);
        assert(body < SIGN_BIT);
        assert(magnitude(r) == body);
        assert(exponent_field(r) == k + 1023);
        assert(fraction_field(r) == mant - EXPONENT_UNIT);
        assert(significand(r) == mant);
        assert(scaled_exponent(r) - 1074 == k - 52);
    }
    r
}

} // verus!
