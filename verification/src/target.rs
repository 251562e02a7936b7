//! Compact proof-of-work targets and their difficulty.
//!
//! A compact target packs an 8-bit exponent and a 24-bit mantissa into a
//! `u32`; the threshold it encodes is `mantissa * 256^(exponent - 3)`.
//! Difficulty is the ratio of the maximum-target reference threshold
//! (exponent `0x1d`, mantissa `0xffffff`) to the encoded threshold, an
//! exact positive rational whenever the mantissa is non-zero.

use vstd::prelude::*;
use vstd::arithmetic::div_mod::{
    lemma_div_is_ordered, lemma_div_is_ordered_by_denominator, lemma_div_multiples_vanish,
};
use crate::rational::{
    Frac, Ratio, frac_wf, frac_eq, frac_div, norm, norm_fit, fits_u64, lemma_norm_facts,
    reduce_and_fit,
};

verus! {

/// The maximum-target reference encoding: exponent `0x1d`, mantissa
/// `0xffffff`.
pub const MAX_TARGET_BITS: u32 = 0x1dffffff;

/// Exponent byte of a compact target encoding.
pub open spec fn exponent_of(bits: u32) -> u32 {
    bits >> 24
}

/// Mantissa: the low 24 bits of a compact target encoding.
pub open spec fn mantissa_of(bits: u32) -> u32 {
    bits & 0xffffff
}

/// `256^k`.
pub open spec fn pow256(k: nat) -> int
    decreases k,
{
    if k == 0 {
        1
    } else {
        256 * pow256((k - 1) as nat)
    }
}

/// Difficulty of `bits` as an exact fraction: the maximum-target threshold
/// divided by the encoded threshold, with the common `256^(exponent - 3)`
/// scale cancelled so that one side is a plain integer.
pub open spec fn difficulty_frac(bits: u32) -> Frac {
    let e = exponent_of(bits) as int;
    let m = mantissa_of(bits) as int;
    if e <= 29 {
        Frac { num: 0xffffff * pow256((29 - e) as nat), den: m }
    } else {
        Frac { num: 0xffffff, den: m * pow256((e - 29) as nat) }
    }
}

/// Canonical represented difficulty of `bits`: `None` when the mantissa is
/// zero (the threshold is zero and the ratio undefined) or when the reduced
/// fraction does not fit into a `u64` pair.
pub open spec fn spec_difficulty(bits: u32) -> Option<Frac> {
    if mantissa_of(bits) == 0 {
        None
    } else {
        norm_fit(difficulty_frac(bits))
    }
}

/// The threshold value `mantissa * 256^(exponent - 3)` encoded by `bits`,
/// as an exact fraction (the exponent may be below 3).
pub open spec fn target_frac(bits: u32) -> Frac {
    let e = exponent_of(bits) as int;
    let m = mantissa_of(bits) as int;
    if e >= 3 {
        Frac { num: m * pow256((e - 3) as nat), den: 1 }
    } else {
        Frac { num: m, den: pow256((3 - e) as nat) }
    }
}

pub proof fn lemma_pow256_pos(k: nat)
    ensures
        pow256(k) >= 1,
    decreases k,
{
    if k > 0 {
        lemma_pow256_pos((k - 1) as nat);
    }
}

pub proof fn lemma_pow256_add(a: nat, b: nat)
    ensures
        pow256(a + b) == pow256(a) * pow256(b),
    decreases a,
{
    if a == 0 {
        assert(pow256(0) == 1);
    } else {
        lemma_pow256_add((a - 1) as nat, b);
        assert(pow256(a + b) == 256 * pow256((a + b - 1) as nat));
        assert(256 * (pow256((a - 1) as nat) * pow256(b)) == (256 * pow256((a - 1) as nat))
            * pow256(b)) by (nonlinear_arith);
    }
}

pub proof fn lemma_pow256_increases(a: nat, b: nat)
    requires
        a <= b,
    ensures
        pow256(a) <= pow256(b),
{
    lemma_pow256_add(a, (b - a) as nat);
    lemma_pow256_pos(a);
    lemma_pow256_pos((b - a) as nat);
    assert(pow256(a) * pow256((b - a) as nat) >= pow256(a) * 1) by (nonlinear_arith)
        requires
            pow256(a) >= 1,
            pow256((b - a) as nat) >= 1,
    ;
}

/// Any non-zero mantissa gives a strictly positive, finite difficulty.
pub proof fn lemma_difficulty_positive(bits: u32)
    requires
        mantissa_of(bits) >= 1,
    ensures
        difficulty_frac(bits).num >= 1,
        difficulty_frac(bits).den >= 1,
        spec_difficulty(bits) is Some ==> spec_difficulty(bits)->0.num >= 1
            && spec_difficulty(bits)->0.den >= 1,
{
    let e = exponent_of(bits) as int;
    let m = mantissa_of(bits) as int;
    let f = difficulty_frac(bits);
    if e <= 29 {
        lemma_pow256_pos((29 - e) as nat);
        assert(f.num >= 1) by (nonlinear_arith)
            requires
                f.num == 0xffffff * pow256((29 - e) as nat),
                pow256((29 - e) as nat) >= 1,
        ;
    } else {
        lemma_pow256_pos((e - 29) as nat);
        assert(f.den >= 1) by (nonlinear_arith)
            requires
                f.den == m * pow256((e - 29) as nat),
                pow256((e - 29) as nat) >= 1,
                m >= 1,
        ;
    }
    if spec_difficulty(bits) is Some {
        lemma_norm_facts(f.num, f.den);
    }
}

/// The reference encoding has difficulty exactly one.
pub proof fn lemma_reference_difficulty_is_one()
    ensures
        spec_difficulty(MAX_TARGET_BITS) is Some,
        spec_difficulty(MAX_TARGET_BITS)->0 == (Frac { num: 1, den: 1 }),
        frac_eq(difficulty_frac(MAX_TARGET_BITS), Frac { num: 1, den: 1 }),
{
    assert((0x1dffffffu32 >> 24u32) == 29u32) by (bit_vector);
    assert((0x1dffffffu32 & 0xffffffu32) == 0xffffffu32) by (bit_vector);
    let f = difficulty_frac(MAX_TARGET_BITS);
    assert(pow256(0) == 1);
    assert(f == (Frac { num: 0xffffff, den: 0xffffff }));
    let n: int = 0xffffff;
    assert(crate::rational::spec_gcd(n as nat, n as nat) == 0xffffff) by {
        reveal_with_fuel(crate::rational::spec_gcd, 3);
        assert(n as nat % (n as nat) == 0);
    }
    assert(norm(n, n).num == n / 0xffffff);
    assert(norm(n, n).den == n / 0xffffff);
    assert(norm(n, n) == (Frac { num: 1, den: 1 }));
}

/// Difficulty is the ratio of the reference threshold to the encoded one.
pub proof fn lemma_difficulty_is_target_ratio(bits: u32)
    requires
        mantissa_of(bits) >= 1,
    ensures
        frac_eq(difficulty_frac(bits), frac_div(target_frac(MAX_TARGET_BITS), target_frac(bits))),
{
    assert((0x1dffffffu32 >> 24u32) == 29u32) by (bit_vector);
    assert((0x1dffffffu32 & 0xffffffu32) == 0xffffffu32) by (bit_vector);
    let e = exponent_of(bits) as int;
    let m = mantissa_of(bits) as int;
    let top = 0xffffff * pow256(26);
    assert(target_frac(MAX_TARGET_BITS) == (Frac { num: top, den: 1 }));
    if e < 3 {
        lemma_pow256_add(26, (3 - e) as nat);
        assert(0xffffff * pow256((29 - e) as nat) * m == top * pow256((3 - e) as nat) * m)
            by (nonlinear_arith)
            requires
                top == 0xffffff * pow256(26),
                pow256((29 - e) as nat) == pow256(26) * pow256((3 - e) as nat),
        ;
    } else if e <= 29 {
        lemma_pow256_add((29 - e) as nat, (e - 3) as nat);
        assert(0xffffff * pow256((29 - e) as nat) * (m * pow256((e - 3) as nat)) == top * m)
            by (nonlinear_arith)
            requires
                top == 0xffffff * pow256(26),
                pow256(26) == pow256((29 - e) as nat) * pow256((e - 3) as nat),
        ;
    } else {
        lemma_pow256_add(26, (e - 29) as nat);
        assert(0xffffff * (m * pow256((e - 3) as nat)) == top * (m * pow256((e - 29) as nat)))
            by (nonlinear_arith)
            requires
                top == 0xffffff * pow256(26),
                pow256((e - 3) as nat) == pow256(26) * pow256((e - 29) as nat),
        ;
    }
}

/// With an exponent at or below 15, or at or above 43, the reduced
/// difficulty is too large on one side to fit into a `u64` pair.
proof fn lemma_difficulty_oversized(bits: u32)
    requires
        mantissa_of(bits) >= 1,
        exponent_of(bits) <= 15 || exponent_of(bits) >= 43,
    ensures
        norm_fit(difficulty_frac(bits)) is None,
{
    assert((bits & 0xffffffu32) <= 0xffffffu32) by (bit_vector);
    let e = exponent_of(bits) as int;
    let m = mantissa_of(bits) as int;
    let f = difficulty_frac(bits);
    lemma_difficulty_positive(bits);
    if e <= 15 {
        let k = (29 - e) as nat;
        lemma_norm_facts(f.num, f.den);
        assert(norm(f.num, f.den).num >= f.num / f.den);
        lemma_div_is_ordered_by_denominator(f.num, f.den, 0xffffff);
        lemma_div_multiples_vanish(pow256(k), 0xffffff);
        assert(f.num / 0xffffff == pow256(k));
        lemma_pow256_increases(14, k);
        assert(pow256(14) > u64::MAX) by {
            reveal_with_fuel(pow256, 15);
        }
        assert(!fits_u64(norm(f.num, f.den)));
    } else {
        let k = (e - 29) as nat;
        lemma_pow256_pos(k);
        lemma_norm_facts(f.num, f.den);
        assert(norm(f.num, f.den).den >= f.den / f.num);
        assert(f.den >= pow256(k)) by (nonlinear_arith)
            requires
                f.den == m * pow256(k),
                m >= 1,
                pow256(k) >= 0,
        ;
        lemma_div_is_ordered(pow256(k), f.den, 0xffffff);
        lemma_div_is_ordered_by_denominator(pow256(k), 0xffffff, 0x1000000);
        lemma_pow256_add(3, (k - 3) as nat);
        lemma_div_multiples_vanish(pow256((k - 3) as nat), 0x1000000);
        assert(pow256(3) == 0x1000000) by {
            reveal_with_fuel(pow256, 4);
        }
        assert(pow256(k) / 0x1000000 == pow256((k - 3) as nat));
        lemma_pow256_increases(11, (k - 3) as nat);
        assert(pow256(11) > u64::MAX) by {
            reveal_with_fuel(pow256, 12);
        }
        assert(!fits_u64(norm(f.num, f.den)));
    }
}

/// `256^k` for small `k`.
fn pow256_u128(k: u32) -> (r: u128)
    requires
        k <= 13,
    ensures
        r == pow256(k as nat),
{
    let mut i: u32 = 0;
    let mut acc: u128 = 1;
    while i < k
        invariant
            i <= k,
            k <= 13,
            acc == pow256(i as nat),
        decreases k - i,
    {
        proof {
            lemma_pow256_increases((i + 1) as nat, 13);
            assert(pow256(13) < u128::MAX) by {
                reveal_with_fuel(pow256, 14);
            }
            assert(pow256((i + 1) as nat) == 256 * pow256(i as nat));
        }
        acc = acc * 256;
        i = i + 1;
    }
    acc
}

/// Convert a compact target encoding into its exact difficulty.
///
/// Returns `None` exactly when the mantissa is zero (no finite difficulty
/// exists) or when the reduced difficulty does not fit into a `u64` pair.
pub fn difficulty_from_compact_target(bits: u32) -> (r: Option<Ratio>)
    ensures
        r is Some <==> spec_difficulty(bits) is Some,
        r is Some ==> r->0@ == spec_difficulty(bits)->0,
        r is Some ==> r->0.wf() && r->0@.num >= 1,
{
    let exp: u32 = bits >> 24;
    let m: u32 = bits & 0xffffff;
    proof {
        assert((bits & 0xffffffu32) <= 0xffffffu32) by (bit_vector);
        assert((bits >> 24u32) <= 0xffu32) by (bit_vector);
    }
    if m == 0 {
        return None;
    }
    proof {
        lemma_difficulty_positive(bits);
    }
    let f = if exp <= 29 {
        let k: u32 = 29 - exp;
        if k >= 14 {
            proof {
                lemma_difficulty_oversized(bits);
            }
            return None;
        }
        let p: u128 = pow256_u128(k);
        proof {
            lemma_pow256_increases(k as nat, 13);
            assert(pow256(13) * 0xffffff < u128::MAX) by {
                reveal_with_fuel(pow256, 14);
            }
            assert(0xffffff * pow256(k as nat) <= pow256(13) * 0xffffff) by (nonlinear_arith)
                requires
                    pow256(k as nat) <= pow256(13),
                    pow256(k as nat) >= 0,
            ;
        }
        let n: u128 = 0xffffffu128 * p;
        reduce_and_fit(n, m as u128)
    } else {
        let k: u32 = exp - 29;
        if k >= 14 {
            proof {
                lemma_difficulty_oversized(bits);
            }
            return None;
        }
        let p: u128 = pow256_u128(k);
        proof {
            lemma_pow256_increases(k as nat, 13);
            assert(pow256(13) * 0xffffff < u128::MAX) by {
                reveal_with_fuel(pow256, 14);
            }
            assert(m as int * pow256(k as nat) <= pow256(13) * 0xffffff) by (nonlinear_arith)
                requires
                    pow256(k as nat) <= pow256(13),
                    pow256(k as nat) >= 0,
                    0 < m <= 0xffffff,
            ;
            lemma_pow256_pos(k as nat);
            assert(m as int * pow256(k as nat) >= 1) by (nonlinear_arith)
                requires
                    pow256(k as nat) >= 1,
                    m >= 1,
            ;
        }
        let d: u128 = (m as u128) * p;
        reduce_and_fit(0xffffffu128, d)
    };
    proof {
        if f is Some {
            lemma_norm_facts(difficulty_frac(bits).num, difficulty_frac(bits).den);
        }
    }
    f
}

} // verus!
