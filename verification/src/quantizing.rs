//! What the quantization steps mean: four of them to the octave, and every
//! coefficient restored near the middle of the values that it stands for.
use crate::bitio;
use crate::quant;
use vstd::arithmetic::power2;
use vstd::prelude::*;

verus! {

/// The quantizer of an encoder: how many whole steps of a quarter of the factor are
/// in a magnitude.
pub open spec fn steps_in(magnitude: int, index: nat) -> int {
    4 * magnitude / quant::spec_quant_factor(index)
}

proof fn lemma_offset(index: nat)
    requires
        index < 244,
    ensures
        ({
            let (f, o) = (quant::spec_quant_factor(index), quant::spec_quant_offset(index));
            &&& f >= 4
            &&& 1 <= o
            &&& o + 2 < f
            &&& -4 <= 2 * (o - 1) - f
            &&& index >= 2 ==> f <= 2 * o <= f + 1
        }),
{
    power2::lemma2_to64();
    power2::lemma_pow2_pos(index / 4);
    let base = power2::pow2(index / 4) as int;
    if index < 4 {
        assert(index / 4 == 0);
        assert((503829 + 52958) / 105917 == 5);
        assert((665857 + 58854) / 117708 == 6);
        assert((440253 + 32722) / 65444 == 7);
    } else {
        if index / 4 > 1 {
            power2::lemma_pow2_strictly_increases(1, index / 4);
        }
        assert(base >= 2);
        assert(quant::exact_factor(index) >= 8);
    }
}

/// A restored magnitude lies inside the interval of those that quantize to the same
/// number of steps, and near its middle; so quantizing it again changes nothing.
pub proof fn law_restored_magnitudes_requantize(steps: int, index: nat)
    requires
        steps >= 1,
        index < 244,
        quant::spec_inverse_quant(steps, index) < bitio::i64_max(),
    ensures
        ({
            let f = quant::spec_quant_factor(index);
            let above = 4 * quant::spec_inverse_quant(steps, index) - f * steps;
            &&& 0 <= above < f
            &&& -4 <= 2 * above - f <= 5
            &&& steps_in(quant::spec_inverse_quant(steps, index), index) == steps
        }),
{
    lemma_offset(index);
    let (f, o) = (quant::spec_quant_factor(index), quant::spec_quant_offset(index));
    let v = quant::spec_inverse_quant(steps, index);
    assert(steps * f == f * steps) by (nonlinear_arith);
    assert(v == (f * steps + o + 2) / 4);
    let above = 4 * v - f * steps;
    assert(o - 1 <= above <= o + 2);
    vstd::arithmetic::div_mod::lemma_fundamental_div_mod_converse(4 * v, f, steps, above);
}

/// So does every magnitude that an encoder quantizes: it comes back less than a step
/// away, in the same interval.
pub proof fn law_quantized_magnitudes_come_back(magnitude: int, index: nat)
    requires
        index < 244,
        4 * magnitude >= quant::spec_quant_factor(index),
        magnitude < bitio::i64_max() / 2,
    ensures
        ({
            let f = quant::spec_quant_factor(index);
            let back = quant::spec_inverse_quant(steps_in(magnitude, index), index);
            &&& -f < 4 * (back - magnitude) < f
            &&& steps_in(back, index) == steps_in(magnitude, index)
        }),
{
    lemma_offset(index);
    let (f, o) = (quant::spec_quant_factor(index), quant::spec_quant_offset(index));
    let steps = steps_in(magnitude, index);
    vstd::arithmetic::div_mod::lemma_fundamental_div_mod(4 * magnitude, f);
    assert(steps >= 1) by (nonlinear_arith)
        requires
            4 * magnitude == f * steps + (4 * magnitude) % f,
            (4 * magnitude) % f < f,
            4 * magnitude >= f,
            f >= 4,
    ;
    assert(steps * f == f * steps) by (nonlinear_arith);
    assert(f * steps <= 4 * magnitude);
    assert(f <= f * steps) by (nonlinear_arith)
        requires
            steps >= 1,
            f >= 4,
    ;
    let v = quant::spec_inverse_quant(steps, index);
    assert((f * steps + o + 2) / 4 < bitio::i64_max());
    law_restored_magnitudes_requantize(steps, index);
}

/// The factors: four times a power of two at every fourth index, twice as much four
/// indices on, and between them in equal ratios. Halfway, the factor is the integer
/// nearest to the square root of twice the square; at the quarters, its square is the
/// product of the factors beside it, but for the rounding.
pub proof fn law_four_steps_to_the_octave(octave: nat)
    requires
        octave <= 20,
    ensures
        ({
            let f0 = quant::spec_quant_factor(4 * octave);
            let f1 = quant::spec_quant_factor(4 * octave + 1);
            let f2 = quant::spec_quant_factor(4 * octave + 2);
            let f3 = quant::spec_quant_factor(4 * octave + 3);
            let f4 = quant::spec_quant_factor(4 * octave + 4);
            &&& f0 == 4 * power2::pow2(octave)
            &&& f4 == 2 * f0
            &&& (2 * f2 - 1) * (2 * f2 - 1) <= 8 * (f0 * f0) <= (2 * f2 + 1) * (2 * f2 + 1)
            &&& -(f1 + f0) <= f1 * f1 - f0 * f2 <= f1 + f0
            &&& -(f3 + f4) <= f3 * f3 - f2 * f4 <= f3 + f4
        }),
{
    let b = power2::pow2(octave) as int;
    power2::lemma2_to64();
    power2::lemma_pow2_pos(octave);
    power2::lemma_pow2_unfold(octave + 1);
    if octave < 20 {
        power2::lemma_pow2_strictly_increases(octave, 20);
    }
    assert((4 * octave) / 4 == octave && (4 * octave + 1) / 4 == octave);
    assert((4 * octave + 2) / 4 == octave && (4 * octave + 3) / 4 == octave);
    assert((4 * octave + 4) / 4 == octave + 1);
    let (f1, f2) = (quant::spec_quant_factor(4 * octave + 1), quant::spec_quant_factor(
        4 * octave + 2,
    ));
    let f3 = quant::spec_quant_factor(4 * octave + 3);
    let r1 = 105917 * f1 - 503829 * b;
    let r2 = 117708 * f2 - 665857 * b;
    let r3 = 65444 * f3 - 440253 * b;
    assert(-52959 <= r1 <= 52958);
    assert(-58853 <= r2 <= 58854);
    assert(-32722 <= r3 <= 32722);
    lemma_no_tie(octave, f2);
    lemma_halfway(b, f2, r2);
    lemma_quarter(b, f1, f2, r1, r2);
    lemma_three_quarters(b, f2, f3, r2, r3);
}

/// Four indices on, the factor is twice as large but for the rounding; from index
/// 244 on it is the largest that there is.
pub proof fn law_factors_double(index: nat)
    ensures
        index < 240 ==> -1 <= quant::spec_quant_factor(index + 4) - 2 * quant::spec_quant_factor(
            index,
        ) <= 1,
        index >= 244 ==> quant::spec_quant_factor(index) == i64::MAX,
        index < 244 ==> quant::spec_quant_factor(index) < i64::MAX,
{
    let e = index / 4;
    let b = power2::pow2(e) as int;
    power2::lemma2_to64();
    power2::lemma2_to64_rest();
    power2::lemma_pow2_pos(e);
    power2::lemma_pow2_unfold(e + 1);
    assert((index + 4) / 4 == e + 1 && (index + 4) % 4 == index % 4);
    if index >= 244 {
        if e > 61 {
            power2::lemma_pow2_strictly_increases(61, e);
        }
    } else if index >= 240 {
        assert(e == 60);
    } else {
        assert(e <= 59);
        if e < 59 {
            power2::lemma_pow2_strictly_increases(e, 59);
        }
        assert(quant::exact_factor(index + 4) <= bitio::i64_max());
        assert(quant::exact_factor(index) <= bitio::i64_max());
    }
}

/// A power of two is no multiple of an odd number above one.
proof fn lemma_no_tie(octave: nat, f2: int)
    ensures
        117708 * f2 - 665857 * power2::pow2(octave) != 58854,
{
    let b = power2::pow2(octave) as int;
    if 117708 * f2 - 665857 * b == 58854 {
        assert((665857 * b) % 3 == 0);
        lemma_not_by_three(octave);
        assert(false);
    }
}

proof fn lemma_not_by_three(e: nat)
    ensures
        power2::pow2(e) % 3 == 1 || power2::pow2(e) % 3 == 2,
    decreases e,
{
    power2::lemma2_to64();
    if e > 0 {
        lemma_not_by_three((e - 1) as nat);
        power2::lemma_pow2_unfold(e);
    }
}

proof fn lemma_halfway(b: int, f: int, r: int)
    requires
        1 <= b <= 0x10_0000,
        r == 117708 * f - 665857 * b,
        -58853 <= r <= 58853,
    ensures
        (2 * f - 1) * (2 * f - 1) <= 8 * ((4 * b) * (4 * b)) <= (2 * f + 1) * (2 * f + 1),
{
    let (lo, hi) = (665857 * b + r - 58854, 665857 * b + r + 58854);
    assert(58854 * (2 * f - 1) == lo && 58854 * (2 * f + 1) == hi);
    assert(lo * lo <= 443365544448 * (b * b)) by (nonlinear_arith)
        requires
            1 <= b <= 0x10_0000,
            lo <= 665857 * b - 1,
            lo >= 0,
    ;
    assert(hi * hi >= 443365544448 * (b * b)) by (nonlinear_arith)
        requires
            1 <= b <= 0x10_0000,
            hi >= 665857 * b + 1,
    ;
    let (x, y) = (2 * f - 1, 2 * f + 1);
    assert((58854 * x) * (58854 * x) == 3463793316 * (x * x)) by (nonlinear_arith);
    assert((58854 * y) * (58854 * y) == 3463793316 * (y * y)) by (nonlinear_arith);
    assert((4 * b) * (4 * b) == 16 * (b * b)) by (nonlinear_arith);
}

proof fn lemma_scaled_bound(b: int, r: int, most: int)
    requires
        b >= 0,
        -most <= r <= most,
    ensures
        -(most * b) <= b * r <= most * b,
{
    assert(-(most * b) <= b * r <= most * b) by (nonlinear_arith)
        requires
            b >= 0,
            -most <= r <= most,
    ;
}

proof fn lemma_quarter(b: int, f1: int, f2: int, r1: int, r2: int)
    requires
        1 <= b <= 0x10_0000,
        r1 == 105917 * f1 - 503829 * b,
        r2 == 117708 * f2 - 665857 * b,
        -52959 <= r1 <= 52959,
        -58854 <= r2 <= 58854,
    ensures
        -(f1 + 4 * b) <= f1 * f1 - (4 * b) * f2 <= f1 + 4 * b,
{
    assert(11218410889 * (f1 * f1) == 253843661241 * (b * b) + 1007658 * (b * r1) + r1 * r1)
        by (nonlinear_arith)
        requires
            105917 * f1 == 503829 * b + r1,
    ;
    assert(117708 * (b * f2) == 665857 * (b * b) + b * r2) by (nonlinear_arith)
        requires
            117708 * f2 == 665857 * b + r2,
    ;
    lemma_scaled_bound(b, r1, 52959);
    lemma_scaled_bound(b, r2, 58854);
    assert(0 <= b * b <= 0x10_0000 * b) by (nonlinear_arith)
        requires
            1 <= b <= 0x10_0000,
    ;
    assert(0 <= r1 * r1 <= 52959 * 52959) by (nonlinear_arith)
        requires
            -52959 <= r1 <= 52959,
    ;
    assert((4 * b) * f2 == 4 * (b * f2)) by (nonlinear_arith);
}

proof fn lemma_three_quarters(b: int, f2: int, f3: int, r2: int, r3: int)
    requires
        1 <= b <= 0x10_0000,
        r2 == 117708 * f2 - 665857 * b,
        r3 == 65444 * f3 - 440253 * b,
        -58854 <= r2 <= 58854,
        -32722 <= r3 <= 32722,
    ensures
        -(f3 + 8 * b) <= f3 * f3 - f2 * (8 * b) <= f3 + 8 * b,
{
    assert(4282917136 * (f3 * f3) == 193822704009 * (b * b) + 880506 * (b * r3) + r3 * r3)
        by (nonlinear_arith)
        requires
            65444 * f3 == 440253 * b + r3,
    ;
    assert(117708 * (b * f2) == 665857 * (b * b) + b * r2) by (nonlinear_arith)
        requires
            117708 * f2 == 665857 * b + r2,
    ;
    lemma_scaled_bound(b, r3, 32722);
    lemma_scaled_bound(b, r2, 58854);
    assert(0 <= b * b <= 0x10_0000 * b) by (nonlinear_arith)
        requires
            1 <= b <= 0x10_0000,
    ;
    assert(0 <= r3 * r3 <= 32722 * 32722) by (nonlinear_arith)
        requires
            -32722 <= r3 <= 32722,
    ;
    assert(f2 * (8 * b) == 8 * (b * f2)) by (nonlinear_arith);
}

} // verus!
