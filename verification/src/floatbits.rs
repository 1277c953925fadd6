//! The numeric model of 8-byte floating-point cells.
//!
//! A float cell is kept as its big-endian IEEE-754 bit pattern in a `u64`.
//! Comparison and the widening of integers to doubles are defined here as
//! plain integer computations on those patterns: sign-magnitude order over
//! the non-NaN patterns, and round-to-nearest-even for the widening.
use core::cmp::Ordering;
use vstd::arithmetic::power2::{
    lemma2_to64, lemma2_to64_rest, lemma_pow2_adds, lemma_pow2_pos, lemma_pow2_strictly_increases,
    lemma_pow2_unfold, pow2,
};
use vstd::prelude::*;

verus! {

/// The sign bit of an IEEE-754 double bit pattern.
pub open spec fn f64_sign(b: u64) -> bool {
    b >= 0x8000_0000_0000_0000
}

/// The magnitude bits (everything but the sign) of a double bit pattern.
pub open spec fn f64_mag(b: u64) -> u64 {
    b & 0x7fff_ffff_ffff_ffff
}

/// Whether the pattern is a NaN: magnitude above the infinity pattern.
pub open spec fn f64_is_nan(b: u64) -> bool {
    f64_mag(b) > 0x7ff0_0000_0000_0000
}

/// The order key of a non-NaN pattern: magnitudes order doubles of equal
/// sign, negatives are reflected, and both zeroes share the key 0.
pub open spec fn f64_key(b: u64) -> int {
    if f64_sign(b) {
        -(f64_mag(b) as int)
    } else {
        f64_mag(b) as int
    }
}

/// IEEE-754 comparison of two double bit patterns: `None` when either is
/// NaN, otherwise the order of their keys.
pub open spec fn f64_cmp(a: u64, b: u64) -> Option<Ordering> {
    if f64_is_nan(a) || f64_is_nan(b) {
        None
    } else if f64_key(a) == f64_key(b) {
        Some(Ordering::Equal)
    } else if f64_key(a) < f64_key(b) {
        Some(Ordering::Less)
    } else {
        Some(Ordering::Greater)
    }
}

/// Compares two double bit patterns per IEEE-754: NaN compares with
/// nothing, negative zero equals positive zero, and otherwise the wider
/// magnitude wins on the side of its sign.
pub fn f64_cmp_bits(a: u64, b: u64) -> (r: Option<Ordering>)
    ensures
        r == f64_cmp(a, b),
{
    let amag = a & 0x7fff_ffff_ffff_ffff;
    let bmag = b & 0x7fff_ffff_ffff_ffff;
    if amag > 0x7ff0_0000_0000_0000 || bmag > 0x7ff0_0000_0000_0000 {
        None
    } else {
        let aneg = a >= 0x8000_0000_0000_0000;
        let bneg = b >= 0x8000_0000_0000_0000;
        if amag == 0 && bmag == 0 {
            Some(Ordering::Equal)
        } else if aneg && !bneg {
            Some(Ordering::Less)
        } else if !aneg && bneg {
            Some(Ordering::Greater)
        } else if !aneg && !bneg {
            if amag == bmag {
                Some(Ordering::Equal)
            } else if amag < bmag {
                Some(Ordering::Less)
            } else {
                Some(Ordering::Greater)
            }
        } else {
            if amag == bmag {
                Some(Ordering::Equal)
            } else if bmag < amag {
                Some(Ordering::Less)
            } else {
                Some(Ordering::Greater)
            }
        }
    }
}

/// The position of the highest set bit of `m`, i.e. the floor of its
/// base-two logarithm.
pub open spec fn spec_msb(m: nat) -> nat
    decreases m,
{
    if m < 2 {
        0
    } else {
        1 + spec_msb(m / 2)
    }
}

proof fn lemma_msb_unique(m: nat, e: nat)
    requires
        pow2(e) <= m < pow2(e + 1),
    ensures
        spec_msb(m) == e,
    decreases e,
{
    lemma_pow2_unfold(e + 1);
    if e == 0 {
        assert(pow2(0) == 1) by {
            lemma2_to64();
        };
    } else {
        lemma_pow2_unfold(e);
        lemma_pow2_pos((e - 1) as nat);
        assert(pow2(e) >= 2);
        assert(m / 2 >= pow2((e - 1) as nat));
        assert(m / 2 < pow2(e));
        lemma_msb_unique(m / 2, (e - 1) as nat);
    }
}

/// The double bit pattern nearest to `m` (ties to even) with the given
/// sign; `m` must be a positive magnitude no larger than 2^63.
pub open spec fn f64_enc(neg: bool, m: nat) -> u64 {
    let e = spec_msb(m);
    let sign: nat = if neg {
        0x8000_0000_0000_0000
    } else {
        0
    };
    if e <= 52 {
        (sign + (e + 1023) * pow2(52) + (m * pow2((52 - e) as nat) - pow2(52))) as u64
    } else {
        let sh = (e - 52) as nat;
        let q = m / pow2(sh);
        let rem = m % pow2(sh);
        let half = pow2((sh - 1) as nat);
        let q2: nat = if rem > half || (rem == half && q % 2 == 1) {
            q + 1
        } else {
            q
        };
        if q2 == pow2(53) {
            (sign + (e + 1 + 1023) * pow2(52)) as u64
        } else {
            (sign + (e + 1023) * pow2(52) + (q2 - pow2(52))) as u64
        }
    }
}

/// The bit pattern of the signed 64-bit integer `v` widened to a double,
/// rounded to the nearest representable value with ties to even.
pub open spec fn f64_of_i64(v: i64) -> u64 {
    if v == 0 {
        0
    } else if v > 0 {
        f64_enc(false, v as nat)
    } else {
        f64_enc(true, (-(v as int)) as nat)
    }
}

/// Computes 2 to the power `k`.
pub fn pow2_u64(k: u64) -> (r: u64)
    requires
        k <= 63,
    ensures
        r as nat == pow2(k as nat),
{
    let mut i: u64 = 0;
    let mut p: u64 = 1;
    proof {
        lemma2_to64();
    }
    while i < k
        invariant
            i <= k <= 63,
            p as nat == pow2(i as nat),
        decreases k - i,
    {
        proof {
            if (i as nat) < 63 {
                lemma_pow2_strictly_increases(i as nat, 63);
                lemma2_to64_rest();
            }
            lemma_pow2_unfold((i + 1) as nat);
        }
        p = p * 2;
        i = i + 1;
    }
    p
}

/// Widens a signed 64-bit integer to the nearest double, returning the bit
/// pattern; ties round to even.
pub fn f64_bits_of_i64(v: i64) -> (r: u64)
    ensures
        r == f64_of_i64(v),
{
    if v == 0 {
        return 0;
    }
    let neg: bool = v < 0;
    let m: u64 = if neg {
        (-(v as i128)) as u64
    } else {
        v as u64
    };
    let ghost mg: nat = if v > 0 {
        v as nat
    } else {
        (-(v as int)) as nat
    };
    assert(m as nat == mg);
    assert(m >= 1);
    // locate the highest set bit of the magnitude
    let mut e: u64 = 0;
    let mut p: u64 = 1;
    proof {
        lemma2_to64();
    }
    while e < 63 && p <= m / 2
        invariant
            e <= 63,
            p as nat == pow2(e as nat),
            p <= m,
        decreases 63 - e,
    {
        proof {
            if (e as nat) < 63 {
                lemma_pow2_strictly_increases(e as nat, 63);
                lemma2_to64_rest();
            }
            lemma_pow2_unfold((e + 1) as nat);
        }
        p = p * 2;
        e = e + 1;
    }
    proof {
        lemma_pow2_unfold((e + 1) as nat);
        if e < 63 {
            // the loop stopped because doubling p would pass m
            assert(p > m / 2);
            assert(m < 2 * (p as nat));
        } else {
            lemma2_to64_rest();
            assert(m < pow2(64)) by {
                lemma2_to64_rest();
            };
        }
        lemma_msb_unique(m as nat, e as nat);
    }
    let sign: u64 = if neg {
        0x8000_0000_0000_0000
    } else {
        0
    };
    if e <= 52 {
        let scale = pow2_u64(52 - e);
        proof {
            lemma_pow2_adds((e + 1) as nat, (52 - e) as nat);
            lemma_pow2_adds(e as nat, (52 - e) as nat);
            lemma2_to64();
            lemma2_to64_rest();
            lemma_pow2_pos((52 - e) as nat);
            assert((m as nat) * (scale as nat) < pow2((e + 1) as nat) * pow2((52 - e) as nat))
                by (nonlinear_arith)
                requires
                    (m as nat) < pow2((e + 1) as nat),
                    (scale as nat) == pow2((52 - e) as nat),
                    (scale as nat) > 0,
            ;
            assert((m as nat) * (scale as nat) >= pow2(e as nat) * pow2((52 - e) as nat))
                by (nonlinear_arith)
                requires
                    (m as nat) >= pow2(e as nat),
                    (scale as nat) == pow2((52 - e) as nat),
                    (scale as nat) > 0,
            ;
        }
        let mant = m * scale - 0x10_0000_0000_0000;
        sign + (e + 1023) * 0x10_0000_0000_0000 + mant
    } else {
        let psh = pow2_u64(e - 52);
        proof {
            lemma_pow2_pos((e - 52) as nat);
            lemma_pow2_adds((e - 52) as nat, 53);
            lemma_pow2_adds((e - 52) as nat, 52);
            lemma2_to64();
            lemma2_to64_rest();
            assert((m as nat) / (psh as nat) < pow2(53)) by (nonlinear_arith)
                requires
                    (m as nat) < (psh as nat) * pow2(53),
                    (psh as nat) > 0,
            ;
            assert((m as nat) / (psh as nat) >= pow2(52)) by (nonlinear_arith)
                requires
                    (m as nat) >= (psh as nat) * pow2(52),
                    (psh as nat) > 0,
            ;
            lemma_pow2_unfold((e - 52) as nat);
        }
        let q = m / psh;
        let rem = m % psh;
        let half = psh / 2;
        let q2 = if rem > half || (rem == half && q % 2 == 1) {
            q + 1
        } else {
            q
        };
        if q2 == 0x20_0000_0000_0000 {
            sign + (e + 1 + 1023) * 0x10_0000_0000_0000
        } else {
            sign + (e + 1023) * 0x10_0000_0000_0000 + (q2 - 0x10_0000_0000_0000)
        }
    }
}

} // verus!
