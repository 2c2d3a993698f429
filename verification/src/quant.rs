//! Inverse quantization and the default quantization matrices.
//!
//! The defaults cover the seven symmetric filter pairs and the one mixed pair
//! of Haar without shift and LeGall, for transform depths up to 4 in either
//! direction and up to 5 in all. Every other combination needs a custom matrix
//! in the stream.
use crate::bitio;
use vstd::arithmetic::power2;
use vstd::prelude::*;

verus! {

/// The quantization factor of an index, four steps to the octave, before any
/// limit of the machine.
pub open spec fn exact_factor(index: nat) -> int {
    let base = power2::pow2(index / 4) as int;
    if index % 4 == 0 {
        4 * base
    } else if index % 4 == 1 {
        (503829 * base + 52958) / 105917
    } else if index % 4 == 2 {
        (665857 * base + 58854) / 117708
    } else {
        (440253 * base + 32722) / 65444
    }
}

/// The quantization factor, saturated.
pub open spec fn spec_quant_factor(index: nat) -> int {
    bitio::least(exact_factor(index), bitio::i64_max())
}

/// The reconstruction offset inside a quantization interval.
pub open spec fn spec_quant_offset(index: nat) -> int {
    if index == 0 {
        1
    } else if index == 1 {
        2
    } else {
        (spec_quant_factor(index) + 1) / 2
    }
}

/// The magnitude that a quantized magnitude stands for.
pub open spec fn dequantized_magnitude(magnitude: int, index: nat) -> int {
    if magnitude == 0 {
        0
    } else {
        bitio::least(
            (magnitude * spec_quant_factor(index) + spec_quant_offset(index) + 2) / 4,
            bitio::i64_max(),
        )
    }
}

/// The coefficient that a quantized coefficient stands for: dead-zone
/// reconstruction of the magnitude, under the same sign.
pub open spec fn spec_inverse_quant(coeff: int, index: nat) -> int {
    if coeff < 0 {
        -dequantized_magnitude(-coeff, index)
    } else {
        dequantized_magnitude(coeff, index)
    }
}

/// Quantization index 0 is lossless: every coefficient but the least of all,
/// whose magnitude is out of reach, stands for itself.
pub proof fn law_index_zero_is_lossless(coeff: int)
    requires
        -bitio::i64_max() <= coeff <= bitio::i64_max(),
    ensures
        spec_inverse_quant(coeff, 0) == coeff,
{
    power2::lemma2_to64();
    assert(exact_factor(0) == 4);
    assert(spec_quant_factor(0) == 4);
    let m = if coeff < 0 {
        -coeff
    } else {
        coeff
    };
    assert(m * spec_quant_factor(0) == m * 4);
    assert((m * 4 + 3) / 4 == m);
}

/// The factor exceeds an `i64` exactly from index 244 on.
proof fn lemma_factor_limit(index: nat)
    ensures
        index >= 244 ==> exact_factor(index) > bitio::i64_max(),
        index < 244 ==> 0 < exact_factor(index) <= bitio::i64_max(),
{
    let e = index / 4;
    power2::lemma2_to64();
    power2::lemma2_to64_rest();
    power2::lemma_pow2_pos(e);
    if index >= 244 {
        if e > 61 {
            power2::lemma_pow2_strictly_increases(61, e);
        }
    } else {
        if e < 60 {
            power2::lemma_pow2_strictly_increases(e, 60);
        }
    }
}

/// Quantization factor of an index. Factors beyond an `i64` saturate.
pub fn quant_factor(index: u64) -> (f: i64)
    ensures
        f == spec_quant_factor(index as nat),
        f > 0,
{
    proof {
        lemma_factor_limit(index as nat);
    }
    if index >= 244 {
        return i64::MAX;
    }
    let shift: u64 = index / 4;
    let base: u64 = 1u64 << shift;
    proof {
        vstd::bits::lemma_u64_shl_is_mul(1, shift);
        lemma_base_limit(shift as nat);
    }
    let wide: i128 = base as i128;
    let factor: i128 = match index % 4 {
        0 => 4 * wide,
        1 => ((503829 * wide) + 52958) / 105917,
        2 => ((665857 * wide) + 58854) / 117708,
        _ => ((440253 * wide) + 32722) / 65444,
    };
    factor as i64
}

proof fn lemma_base_limit(e: nat)
    requires
        e <= 60,
    ensures
        power2::pow2(e) <= 0x1000_0000_0000_0000,
        power2::pow2(e) > 0,
{
    power2::lemma2_to64_rest();
    power2::lemma_pow2_pos(e);
    if e < 60 {
        power2::lemma_pow2_strictly_increases(e, 60);
    }
}

/// Reconstruction offset of an index.
pub fn quant_offset(index: u64) -> (f: i64)
    ensures
        f == spec_quant_offset(index as nat),
        f > 0,
{
    match index {
        0 => 1,
        1 => 2,
        _ => {
            let factor: i64 = quant_factor(index);
            proof {
                lemma_factor_at_least_two(index as nat);
            }
            ((factor as i128 + 1) / 2) as i64
        },
    }
}

proof fn lemma_factor_at_least_two(index: nat)
    ensures
        spec_quant_factor(index) >= 4,
{
    power2::lemma_pow2_pos(index / 4);
}

/// Inverse quantization of one coefficient. Magnitudes beyond an `i64`
/// saturate.
pub fn inverse_quant(quantized_coeff: i64, quant_index: u64) -> (v: i64)
    ensures
        v == spec_inverse_quant(quantized_coeff as int, quant_index as nat),
{
    if quantized_coeff == 0 {
        return 0;
    }
    let negative: bool = quantized_coeff < 0;
    let wide: i128 = quantized_coeff as i128;
    let magnitude: i128 = if negative {
        -wide
    } else {
        wide
    };
    let factor: i64 = quant_factor(quant_index);
    let offset: i64 = quant_offset(quant_index);
    assert(0 <= magnitude * factor <= 0x8000_0000_0000_0000 * 0x7fff_ffff_ffff_ffff)
        by (nonlinear_arith)
        requires
            0 <= magnitude <= 0x8000_0000_0000_0000,
            0 <= factor <= 0x7fff_ffff_ffff_ffff,
    ;
    let scaled: i128 = (magnitude * (factor as i128) + (offset as i128) + 2) / 4;
    let limit: i128 = 0x7fff_ffff_ffff_ffff;
    let bounded: i64 = if scaled > limit {
        0x7fff_ffff_ffff_ffff
    } else {
        scaled as i64
    };
    if negative {
        -bounded
    } else {
        bounded
    }
}

/// Inverse quantization is odd, maps zero alone to zero, and is the identity
/// for index 0.
pub proof fn law_inverse_quant_keeps_sign(coeff: i64, index: nat)
    ensures
        coeff > i64::MIN ==> spec_inverse_quant(-coeff, index) == -spec_inverse_quant(
            coeff as int,
            index,
        ),
        spec_inverse_quant(coeff as int, index) == 0 <==> coeff == 0,
        spec_inverse_quant(coeff as int, index) > 0 <==> coeff > 0,
        i64::MIN < spec_inverse_quant(coeff as int, index) <= i64::MAX,
        coeff > i64::MIN ==> spec_inverse_quant(coeff as int, 0) == coeff,
{
    lemma_factor_at_least_two(index);
    let f = spec_quant_factor(index);
    let m = if coeff < 0 {
        -(coeff as int)
    } else {
        coeff as int
    };
    if m > 0 {
        assert(m * f >= 4) by (nonlinear_arith)
            requires
                m >= 1,
                f >= 4,
        ;
    }
    power2::lemma2_to64();
    assert(0nat / 4 == 0);
    assert(exact_factor(0) == 4);
    let f0 = spec_quant_factor(0);
    assert(f0 == 4);
    assert(m * f0 == 4 * m) by (nonlinear_arith)
        requires
            f0 == 4,
    ;
    assert((4 * m + 1 + 2) / 4 == m);
}

/// A larger magnitude never dequantizes to a smaller one.
pub proof fn law_inverse_quant_is_monotone(a: int, b: int, index: nat)
    requires
        a <= b,
    ensures
        spec_inverse_quant(a, index) <= spec_inverse_quant(b, index),
{
    lemma_factor_at_least_two(index);
    let f = spec_quant_factor(index);
    let (x, y) = if a >= 0 {
        (a, b)
    } else if b <= 0 {
        (-b, -a)
    } else {
        (0int, 0int)
    };
    assert(x * f <= y * f) by (nonlinear_arith)
        requires
            x <= y,
            f >= 4,
    ;
    assert(b >= 0 ==> b * f >= 0) by (nonlinear_arith)
        requires
            f >= 4,
    ;
    assert(a < 0 ==> (-a) * f >= 0) by (nonlinear_arith)
        requires
            f >= 4,
    ;
}

proof fn lemma_factor_step(index: nat)
    ensures
        exact_factor(index) <= exact_factor(index + 1),
{
    let base = power2::pow2(index / 4) as int;
    power2::lemma_pow2_pos(index / 4);
    power2::lemma_pow2_unfold(index / 4 + 1);
    let (f0, f1) = (4 * base, (503829 * base + 52958) / 105917);
    let (f2, f3) = ((665857 * base + 58854) / 117708, (440253 * base + 32722) / 65444);
    assert(f0 <= f1 <= f2 <= f3 <= 8 * base);
    if index % 4 == 3 {
        assert((index + 1) / 4 == index / 4 + 1);
    } else {
        assert((index + 1) / 4 == index / 4);
    }
}

/// A greater index never has a smaller quantization factor.
pub proof fn law_quant_factor_is_monotone(a: nat, b: nat)
    requires
        a <= b,
    ensures
        spec_quant_factor(a) <= spec_quant_factor(b),
    decreases b,
{
    if a < b {
        law_quant_factor_is_monotone(a, (b - 1) as nat);
        lemma_factor_step((b - 1) as nat);
    }
}

/// Orientation key within a default matrix.
#[derive(Debug, Clone, Copy, PartialEq, Eq)]
pub enum Orient {
    LL,
    HL,
    LH,
    HH,
}

/// The quantization-matrix values of one level.
#[derive(Debug, Clone, Copy, PartialEq, Eq)]
pub enum MatrixLevel {
    /// The value of the level-0 band: LL, or L of an asymmetric transform.
    Ll(i64),
    /// The value of a horizontal-only level.
    H(i64),
    /// The values of a two-dimensional level.
    Ac { hl: i64, lh: i64, hh: i64 },
}

/// A cell of a default table: the level-0 value, the values of the
/// horizontal-only levels and those of the two-dimensional levels.
type Cell = (i64, &'static [i64], &'static [(i64, i64, i64)]);

/// Whether a table has a cell for these depths.
pub open spec fn tabled(ho: int, depth: int) -> bool {
    0 <= ho <= 4 && 0 <= depth <= 4 && ho + depth <= 5
}

/// The table of a pair of filters, by number; zero where there is none.
pub open spec fn table_of(wavelet_index: u64, wavelet_index_ho: u64) -> int {
    if wavelet_index == wavelet_index_ho && wavelet_index <= 6 {
        wavelet_index + 1
    } else if wavelet_index == 3 && wavelet_index_ho == 1 {
        8
    } else {
        0
    }
}

/// The level-0 value. It is that of the first level, two steps up, in the
/// tables of the Haar filters, and else depends on little but the filter.
pub open spec fn column_dc(table: int, ho: int, depth: int) -> i64 {
    if ho == 0 && depth == 0 {
        0
    } else if table == 1 || table == 3 {
        if ho == 0 {
            5
        } else {
            3
        }
    } else if table == 2 {
        if ho == 0 {
            4
        } else {
            2
        }
    } else if table == 4 {
        if ho == 0 {
            (4 * depth + 4) as i64
        } else {
            (haar_h(ho, depth, 0) + 4) as i64
        }
    } else if table == 5 {
        if ho == 0 {
            8
        } else if ho == 1 && depth > 0 {
            6
        } else {
            4
        }
    } else if table == 6 {
        0
    } else if table == 7 {
        if ho == 0 {
            3
        } else {
            1
        }
    } else {
        if ho == 0 {
            6
        } else if ho == 1 && depth > 0 {
            3
        } else {
            2
        }
    }
}

/// The value of horizontal-only level `l + 1` for the Haar filter without
/// shift: two per remaining horizontal level, and four per level above them
/// with two for the first.
pub open spec fn haar_h(ho: int, depth: int, l: int) -> int {
    2 * (ho - 1 - l) + if depth > 0 {
        4 * depth + 2
    } else {
        0
    }
}

/// The values of the horizontal-only levels: but for the tables of the Haar
/// filters, the first ones of one sequence per filter.
pub open spec fn column_h(table: int, ho: int, depth: int) -> Seq<i64> {
    if table == 4 {
        Seq::new(ho as nat, |l: int| haar_h(ho, depth, l) as i64)
    } else if table == 5 && ho == 1 && depth > 0 {
        seq![2i64]
    } else if table == 8 && ho == 1 && depth > 0 {
        seq![1i64]
    } else {
        let all: Seq<i64> = if table == 1 || table == 3 {
            seq![0i64, 3, 5, 8]
        } else if table == 2 || table == 8 {
            seq![0i64, 3, 6, 8]
        } else if table == 5 {
            seq![0i64, 2, 4, 6]
        } else if table == 6 {
            seq![4i64, 6, 8, 11]
        } else {
            seq![0i64, 3, 6, 10]
        };
        all.take(ho)
    }
}

/// The HL, LH and HH values that a symmetric pair of filters has at a level:
/// HL and LH agree, and HH is `gap` away from them.
pub open spec fn square(v: int, gap: int) -> (i64, i64, i64) {
    (v as i64, v as i64, (v + gap) as i64)
}

/// The values of the two-dimensional levels: the first ones of one sequence
/// per filter and number of horizontal-only levels; for the Haar filter without
/// shift, four per level that follows.
pub open spec fn column_ac(table: int, ho: int, depth: int) -> Seq<(i64, i64, i64)> {
    if table == 4 {
        Seq::new(depth as nat, |l: int| square(4 * (depth - l), -4))
    } else {
        let all: Seq<(i64, i64, i64)> = if table == 1 || table == 3 {
            if ho <= 1 {
                seq![square(3, -3), square(4, -3), square(5, -3), square(6, -3)]
            } else if ho == 2 {
                seq![square(5, if table == 1 { -2 } else { -3 }), square(6, -2), square(7, -2)]
            } else if ho == 3 {
                seq![square(8, -3), square(9, -3)]
            } else {
                seq![square(10, -2)]
            }
        } else if table == 2 {
            if ho == 0 {
                seq![square(2, -2), square(4, -2), square(5, -2), square(7, -2)]
            } else if ho == 1 {
                seq![square(3, -2), square(4, -2), square(6, -2), square(8, -2)]
            } else if ho == 2 {
                seq![square(6, -2), square(7, -2), square(9, -2)]
            } else if ho == 3 {
                seq![square(8, -2), square(10, -2)]
            } else {
                seq![square(11, -2)]
            }
        } else if table == 5 {
            let v: int = if ho <= 2 {
                4
            } else if ho == 3 {
                6
            } else {
                8
            };
            seq![square(v, -4), square(v, -4), square(v, -4), square(v, -4)]
        } else if table == 6 {
            if ho == 0 {
                seq![square(4, 4), square(8, 4), square(13, 4), square(17, 4)]
            } else if ho == 1 {
                seq![square(6, 4), square(11, 4), square(15, 4), square(19, 4)]
            } else if ho == 2 {
                seq![square(8, 4), square(13, 4), square(17, 4)]
            } else if ho == 3 {
                seq![square(11, 4), square(15, 4)]
            } else {
                seq![square(13, 4)]
            }
        } else if table == 7 {
            if ho == 0 {
                seq![square(1, -1), square(4, -2), square(6, -1), square(9, -2)]
            } else if ho == 1 {
                seq![square(3, -1), square(6, -2), square(8, -1), square(11, -2)]
            } else if ho == 2 {
                seq![square(6, -1), square(9, -1), square(11, -1)]
            } else if ho == 3 {
                seq![square(10, -2), square(12, -1)]
            } else {
                seq![square(13, -1)]
            }
        } else {
            if ho <= 1 {
                seq![(4i64, 2i64, 0i64), (5i64, 3i64, 1i64), (6i64, 4i64, 2i64), (6i64, 5i64, 2i64)]
            } else if ho == 2 {
                seq![(6i64, 4i64, 2i64), (6i64, 5i64, 2i64), (7i64, 5i64, 3i64)]
            } else if ho == 3 {
                seq![(8i64, 7i64, 4i64), (9i64, 7i64, 5i64)]
            } else {
                seq![(11i64, 9i64, 7i64)]
            }
        };
        all.take(depth)
    }
}

/// Whether `r` is the cell of a table.
spec fn cell_matches(r: Option<Cell>, table: int, ho: u64, depth: u64) -> bool {
    &&& r is Some <==> tabled(ho as int, depth as int)
    &&& r matches Some((dc, h, ac)) ==> {
        &&& dc == column_dc(table, ho as int, depth as int)
        &&& h@ == column_h(table, ho as int, depth as int)
        &&& ac@ == column_ac(table, ho as int, depth as int)
    }
}

/// Defaults of Deslauriers-Dubuc (9,7).
fn dubuc_9_7_cell(ho: u64, depth: u64) -> (r: Option<Cell>)
    ensures
        cell_matches(r, 1, ho, depth),
{
    let r: Option<Cell> = match (ho, depth) {
        (0, 0) => Some((0, &[], &[])),
        (0, 1) => Some((5, &[], &[(3, 3, 0)])),
        (0, 2) => Some((5, &[], &[(3, 3, 0), (4, 4, 1)])),
        (0, 3) => Some((5, &[], &[(3, 3, 0), (4, 4, 1), (5, 5, 2)])),
        (0, 4) => Some((5, &[], &[(3, 3, 0), (4, 4, 1), (5, 5, 2), (6, 6, 3)])),
        (1, 0) => Some((3, &[0], &[])),
        (1, 1) => Some((3, &[0], &[(3, 3, 0)])),
        (1, 2) => Some((3, &[0], &[(3, 3, 0), (4, 4, 1)])),
        (1, 3) => Some((3, &[0], &[(3, 3, 0), (4, 4, 1), (5, 5, 2)])),
        (1, 4) => Some((3, &[0], &[(3, 3, 0), (4, 4, 1), (5, 5, 2), (6, 6, 3)])),
        (2, 0) => Some((3, &[0, 3], &[])),
        (2, 1) => Some((3, &[0, 3], &[(5, 5, 3)])),
        (2, 2) => Some((3, &[0, 3], &[(5, 5, 3), (6, 6, 4)])),
        (2, 3) => Some((3, &[0, 3], &[(5, 5, 3), (6, 6, 4), (7, 7, 5)])),
        (3, 0) => Some((3, &[0, 3, 5], &[])),
        (3, 1) => Some((3, &[0, 3, 5], &[(8, 8, 5)])),
        (3, 2) => Some((3, &[0, 3, 5], &[(8, 8, 5), (9, 9, 6)])),
        (4, 0) => Some((3, &[0, 3, 5, 8], &[])),
        (4, 1) => Some((3, &[0, 3, 5, 8], &[(10, 10, 8)])),
        _ => None,
    };
    proof {
        if let Some((dc, h, ac)) = r {
            assert(h@ =~= column_h(1, ho as int, depth as int));
            assert(ac@ =~= column_ac(1, ho as int, depth as int));
        }
    }
    r
}

/// Defaults of LeGall (5,3).
fn legall_cell(ho: u64, depth: u64) -> (r: Option<Cell>)
    ensures
        cell_matches(r, 2, ho, depth),
{
    let r: Option<Cell> = match (ho, depth) {
        (0, 0) => Some((0, &[], &[])),
        (0, 1) => Some((4, &[], &[(2, 2, 0)])),
        (0, 2) => Some((4, &[], &[(2, 2, 0), (4, 4, 2)])),
        (0, 3) => Some((4, &[], &[(2, 2, 0), (4, 4, 2), (5, 5, 3)])),
        (0, 4) => Some((4, &[], &[(2, 2, 0), (4, 4, 2), (5, 5, 3), (7, 7, 5)])),
        (1, 0) => Some((2, &[0], &[])),
        (1, 1) => Some((2, &[0], &[(3, 3, 1)])),
        (1, 2) => Some((2, &[0], &[(3, 3, 1), (4, 4, 2)])),
        (1, 3) => Some((2, &[0], &[(3, 3, 1), (4, 4, 2), (6, 6, 4)])),
        (1, 4) => Some((2, &[0], &[(3, 3, 1), (4, 4, 2), (6, 6, 4), (8, 8, 6)])),
        (2, 0) => Some((2, &[0, 3], &[])),
        (2, 1) => Some((2, &[0, 3], &[(6, 6, 4)])),
        (2, 2) => Some((2, &[0, 3], &[(6, 6, 4), (7, 7, 5)])),
        (2, 3) => Some((2, &[0, 3], &[(6, 6, 4), (7, 7, 5), (9, 9, 7)])),
        (3, 0) => Some((2, &[0, 3, 6], &[])),
        (3, 1) => Some((2, &[0, 3, 6], &[(8, 8, 6)])),
        (3, 2) => Some((2, &[0, 3, 6], &[(8, 8, 6), (10, 10, 8)])),
        (4, 0) => Some((2, &[0, 3, 6, 8], &[])),
        (4, 1) => Some((2, &[0, 3, 6, 8], &[(11, 11, 9)])),
        _ => None,
    };
    proof {
        if let Some((dc, h, ac)) = r {
            assert(h@ =~= column_h(2, ho as int, depth as int));
            assert(ac@ =~= column_ac(2, ho as int, depth as int));
        }
    }
    r
}

/// Defaults of Deslauriers-Dubuc (13,7).
fn dubuc_13_7_cell(ho: u64, depth: u64) -> (r: Option<Cell>)
    ensures
        cell_matches(r, 3, ho, depth),
{
    let r: Option<Cell> = match (ho, depth) {
        (0, 0) => Some((0, &[], &[])),
        (0, 1) => Some((5, &[], &[(3, 3, 0)])),
        (0, 2) => Some((5, &[], &[(3, 3, 0), (4, 4, 1)])),
        (0, 3) => Some((5, &[], &[(3, 3, 0), (4, 4, 1), (5, 5, 2)])),
        (0, 4) => Some((5, &[], &[(3, 3, 0), (4, 4, 1), (5, 5, 2), (6, 6, 3)])),
        (1, 0) => Some((3, &[0], &[])),
        (1, 1) => Some((3, &[0], &[(3, 3, 0)])),
        (1, 2) => Some((3, &[0], &[(3, 3, 0), (4, 4, 1)])),
        (1, 3) => Some((3, &[0], &[(3, 3, 0), (4, 4, 1), (5, 5, 2)])),
        (1, 4) => Some((3, &[0], &[(3, 3, 0), (4, 4, 1), (5, 5, 2), (6, 6, 3)])),
        (2, 0) => Some((3, &[0, 3], &[])),
        (2, 1) => Some((3, &[0, 3], &[(5, 5, 2)])),
        (2, 2) => Some((3, &[0, 3], &[(5, 5, 2), (6, 6, 4)])),
        (2, 3) => Some((3, &[0, 3], &[(5, 5, 2), (6, 6, 4), (7, 7, 5)])),
        (3, 0) => Some((3, &[0, 3, 5], &[])),
        (3, 1) => Some((3, &[0, 3, 5], &[(8, 8, 5)])),
        (3, 2) => Some((3, &[0, 3, 5], &[(8, 8, 5), (9, 9, 6)])),
        (4, 0) => Some((3, &[0, 3, 5, 8], &[])),
        (4, 1) => Some((3, &[0, 3, 5, 8], &[(10, 10, 8)])),
        _ => None,
    };
    proof {
        if let Some((dc, h, ac)) = r {
            assert(h@ =~= column_h(3, ho as int, depth as int));
            assert(ac@ =~= column_ac(3, ho as int, depth as int));
        }
    }
    r
}

/// Defaults of Haar without shift.
fn haar_cell(ho: u64, depth: u64) -> (r: Option<Cell>)
    ensures
        cell_matches(r, 4, ho, depth),
{
    let r: Option<Cell> = match (ho, depth) {
        (0, 0) => Some((0, &[], &[])),
        (0, 1) => Some((8, &[], &[(4, 4, 0)])),
        (0, 2) => Some((12, &[], &[(8, 8, 4), (4, 4, 0)])),
        (0, 3) => Some((16, &[], &[(12, 12, 8), (8, 8, 4), (4, 4, 0)])),
        (0, 4) => Some((20, &[], &[(16, 16, 12), (12, 12, 8), (8, 8, 4), (4, 4, 0)])),
        (1, 0) => Some((4, &[0], &[])),
        (1, 1) => Some((10, &[6], &[(4, 4, 0)])),
        (1, 2) => Some((14, &[10], &[(8, 8, 4), (4, 4, 0)])),
        (1, 3) => Some((18, &[14], &[(12, 12, 8), (8, 8, 4), (4, 4, 0)])),
        (1, 4) => Some((22, &[18], &[(16, 16, 12), (12, 12, 8), (8, 8, 4), (4, 4, 0)])),
        (2, 0) => Some((6, &[2, 0], &[])),
        (2, 1) => Some((12, &[8, 6], &[(4, 4, 0)])),
        (2, 2) => Some((16, &[12, 10], &[(8, 8, 4), (4, 4, 0)])),
        (2, 3) => Some((20, &[16, 14], &[(12, 12, 8), (8, 8, 4), (4, 4, 0)])),
        (3, 0) => Some((8, &[4, 2, 0], &[])),
        (3, 1) => Some((14, &[10, 8, 6], &[(4, 4, 0)])),
        (3, 2) => Some((18, &[14, 12, 10], &[(8, 8, 4), (4, 4, 0)])),
        (4, 0) => Some((10, &[6, 4, 2, 0], &[])),
        (4, 1) => Some((16, &[12, 10, 8, 6], &[(4, 4, 0)])),
        _ => None,
    };
    proof {
        if let Some((dc, h, ac)) = r {
            assert(h@ =~= column_h(4, ho as int, depth as int));
            assert(ac@ =~= column_ac(4, ho as int, depth as int));
        }
    }
    r
}

/// Defaults of Haar with a single shift per level.
fn shifted_haar_cell(ho: u64, depth: u64) -> (r: Option<Cell>)
    ensures
        cell_matches(r, 5, ho, depth),
{
    let r: Option<Cell> = match (ho, depth) {
        (0, 0) => Some((0, &[], &[])),
        (0, 1) => Some((8, &[], &[(4, 4, 0)])),
        (0, 2) => Some((8, &[], &[(4, 4, 0), (4, 4, 0)])),
        (0, 3) => Some((8, &[], &[(4, 4, 0), (4, 4, 0), (4, 4, 0)])),
        (0, 4) => Some((8, &[], &[(4, 4, 0), (4, 4, 0), (4, 4, 0), (4, 4, 0)])),
        (1, 0) => Some((4, &[0], &[])),
        (1, 1) => Some((6, &[2], &[(4, 4, 0)])),
        (1, 2) => Some((6, &[2], &[(4, 4, 0), (4, 4, 0)])),
        (1, 3) => Some((6, &[2], &[(4, 4, 0), (4, 4, 0), (4, 4, 0)])),
        (1, 4) => Some((6, &[2], &[(4, 4, 0), (4, 4, 0), (4, 4, 0), (4, 4, 0)])),
        (2, 0) => Some((4, &[0, 2], &[])),
        (2, 1) => Some((4, &[0, 2], &[(4, 4, 0)])),
        (2, 2) => Some((4, &[0, 2], &[(4, 4, 0), (4, 4, 0)])),
        (2, 3) => Some((4, &[0, 2], &[(4, 4, 0), (4, 4, 0), (4, 4, 0)])),
        (3, 0) => Some((4, &[0, 2, 4], &[])),
        (3, 1) => Some((4, &[0, 2, 4], &[(6, 6, 2)])),
        (3, 2) => Some((4, &[0, 2, 4], &[(6, 6, 2), (6, 6, 2)])),
        (4, 0) => Some((4, &[0, 2, 4, 6], &[])),
        (4, 1) => Some((4, &[0, 2, 4, 6], &[(8, 8, 4)])),
        _ => None,
    };
    proof {
        if let Some((dc, h, ac)) = r {
            assert(h@ =~= column_h(5, ho as int, depth as int));
            assert(ac@ =~= column_ac(5, ho as int, depth as int));
        }
    }
    r
}

/// Defaults of Fidelity.
fn fidelity_cell(ho: u64, depth: u64) -> (r: Option<Cell>)
    ensures
        cell_matches(r, 6, ho, depth),
{
    let r: Option<Cell> = match (ho, depth) {
        (0, 0) => Some((0, &[], &[])),
        (0, 1) => Some((0, &[], &[(4, 4, 8)])),
        (0, 2) => Some((0, &[], &[(4, 4, 8), (8, 8, 12)])),
        (0, 3) => Some((0, &[], &[(4, 4, 8), (8, 8, 12), (13, 13, 17)])),
        (0, 4) => Some((0, &[], &[(4, 4, 8), (8, 8, 12), (13, 13, 17), (17, 17, 21)])),
        (1, 0) => Some((0, &[4], &[])),
        (1, 1) => Some((0, &[4], &[(6, 6, 10)])),
        (1, 2) => Some((0, &[4], &[(6, 6, 10), (11, 11, 15)])),
        (1, 3) => Some((0, &[4], &[(6, 6, 10), (11, 11, 15), (15, 15, 19)])),
        (1, 4) => Some((0, &[4], &[(6, 6, 10), (11, 11, 15), (15, 15, 19), (19, 19, 23)])),
        (2, 0) => Some((0, &[4, 6], &[])),
        (2, 1) => Some((0, &[4, 6], &[(8, 8, 12)])),
        (2, 2) => Some((0, &[4, 6], &[(8, 8, 12), (13, 13, 17)])),
        (2, 3) => Some((0, &[4, 6], &[(8, 8, 12), (13, 13, 17), (17, 17, 21)])),
        (3, 0) => Some((0, &[4, 6, 8], &[])),
        (3, 1) => Some((0, &[4, 6, 8], &[(11, 11, 15)])),
        (3, 2) => Some((0, &[4, 6, 8], &[(11, 11, 15), (15, 15, 19)])),
        (4, 0) => Some((0, &[4, 6, 8, 11], &[])),
        (4, 1) => Some((0, &[4, 6, 8, 11], &[(13, 13, 17)])),
        _ => None,
    };
    proof {
        if let Some((dc, h, ac)) = r {
            assert(h@ =~= column_h(6, ho as int, depth as int));
            assert(ac@ =~= column_ac(6, ho as int, depth as int));
        }
    }
    r
}

/// Defaults of Daubechies (9,7).
fn daubechies_cell(ho: u64, depth: u64) -> (r: Option<Cell>)
    ensures
        cell_matches(r, 7, ho, depth),
{
    let r: Option<Cell> = match (ho, depth) {
        (0, 0) => Some((0, &[], &[])),
        (0, 1) => Some((3, &[], &[(1, 1, 0)])),
        (0, 2) => Some((3, &[], &[(1, 1, 0), (4, 4, 2)])),
        (0, 3) => Some((3, &[], &[(1, 1, 0), (4, 4, 2), (6, 6, 5)])),
        (0, 4) => Some((3, &[], &[(1, 1, 0), (4, 4, 2), (6, 6, 5), (9, 9, 7)])),
        (1, 0) => Some((1, &[0], &[])),
        (1, 1) => Some((1, &[0], &[(3, 3, 2)])),
        (1, 2) => Some((1, &[0], &[(3, 3, 2), (6, 6, 4)])),
        (1, 3) => Some((1, &[0], &[(3, 3, 2), (6, 6, 4), (8, 8, 7)])),
        (1, 4) => Some((1, &[0], &[(3, 3, 2), (6, 6, 4), (8, 8, 7), (11, 11, 9)])),
        (2, 0) => Some((1, &[0, 3], &[])),
        (2, 1) => Some((1, &[0, 3], &[(6, 6, 5)])),
        (2, 2) => Some((1, &[0, 3], &[(6, 6, 5), (9, 9, 8)])),
        (2, 3) => Some((1, &[0, 3], &[(6, 6, 5), (9, 9, 8), (11, 11, 10)])),
        (3, 0) => Some((1, &[0, 3, 6], &[])),
        (3, 1) => Some((1, &[0, 3, 6], &[(10, 10, 8)])),
        (3, 2) => Some((1, &[0, 3, 6], &[(10, 10, 8), (12, 12, 11)])),
        (4, 0) => Some((1, &[0, 3, 6, 10], &[])),
        (4, 1) => Some((1, &[0, 3, 6, 10], &[(13, 13, 12)])),
        _ => None,
    };
    proof {
        if let Some((dc, h, ac)) = r {
            assert(h@ =~= column_h(7, ho as int, depth as int));
            assert(ac@ =~= column_ac(7, ho as int, depth as int));
        }
    }
    r
}

/// Defaults of Haar without shift vertically, LeGall horizontally.
fn mixed_cell(ho: u64, depth: u64) -> (r: Option<Cell>)
    ensures
        cell_matches(r, 8, ho, depth),
{
    let r: Option<Cell> = match (ho, depth) {
        (0, 0) => Some((0, &[], &[])),
        (0, 1) => Some((6, &[], &[(4, 2, 0)])),
        (0, 2) => Some((6, &[], &[(4, 2, 0), (5, 3, 1)])),
        (0, 3) => Some((6, &[], &[(4, 2, 0), (5, 3, 1), (6, 4, 2)])),
        (0, 4) => Some((6, &[], &[(4, 2, 0), (5, 3, 1), (6, 4, 2), (6, 5, 2)])),
        (1, 0) => Some((2, &[0], &[])),
        (1, 1) => Some((3, &[1], &[(4, 2, 0)])),
        (1, 2) => Some((3, &[1], &[(4, 2, 0), (5, 3, 1)])),
        (1, 3) => Some((3, &[1], &[(4, 2, 0), (5, 3, 1), (6, 4, 2)])),
        (1, 4) => Some((3, &[1], &[(4, 2, 0), (5, 3, 1), (6, 4, 2), (6, 5, 2)])),
        (2, 0) => Some((2, &[0, 3], &[])),
        (2, 1) => Some((2, &[0, 3], &[(6, 4, 2)])),
        (2, 2) => Some((2, &[0, 3], &[(6, 4, 2), (6, 5, 2)])),
        (2, 3) => Some((2, &[0, 3], &[(6, 4, 2), (6, 5, 2), (7, 5, 3)])),
        (3, 0) => Some((2, &[0, 3, 6], &[])),
        (3, 1) => Some((2, &[0, 3, 6], &[(8, 7, 4)])),
        (3, 2) => Some((2, &[0, 3, 6], &[(8, 7, 4), (9, 7, 5)])),
        (4, 0) => Some((2, &[0, 3, 6, 8], &[])),
        (4, 1) => Some((2, &[0, 3, 6, 8], &[(11, 9, 7)])),
        _ => None,
    };
    proof {
        if let Some((dc, h, ac)) = r {
            assert(h@ =~= column_h(8, ho as int, depth as int));
            assert(ac@ =~= column_ac(8, ho as int, depth as int));
        }
    }
    r
}

/// The cell of the table for a pair of filters.
fn default_cell(wavelet_index: u64, wavelet_index_ho: u64, depth: u64, ho: u64) -> (r: Option<Cell>)
    ensures
        table_of(wavelet_index, wavelet_index_ho) == 0 ==> r is None,
        table_of(wavelet_index, wavelet_index_ho) != 0 ==> cell_matches(
            r,
            table_of(wavelet_index, wavelet_index_ho),
            ho,
            depth,
        ),
{
    match (wavelet_index, wavelet_index_ho) {
        (0, 0) => dubuc_9_7_cell(ho, depth),
        (1, 1) => legall_cell(ho, depth),
        (2, 2) => dubuc_13_7_cell(ho, depth),
        (3, 3) => haar_cell(ho, depth),
        (4, 4) => shifted_haar_cell(ho, depth),
        (5, 5) => fidelity_cell(ho, depth),
        (6, 6) => daubechies_cell(ho, depth),
        (3, 1) => mixed_cell(ho, depth),
        _ => None,
    }
}

/// Whether there is a default matrix for these filters and depths.
pub open spec fn has_default(
    wavelet_index: u64,
    wavelet_index_ho: u64,
    dwt_depth: u64,
    dwt_depth_ho: u64,
) -> bool {
    table_of(wavelet_index, wavelet_index_ho) != 0 && tabled(
        dwt_depth_ho as int,
        dwt_depth as int,
    )
}

/// The default matrix: the level-0 value, then the horizontal-only levels, then
/// the two-dimensional ones.
pub open spec fn default_matrix(
    wavelet_index: u64,
    wavelet_index_ho: u64,
    dwt_depth: u64,
    dwt_depth_ho: u64,
) -> Seq<MatrixLevel> {
    let table = table_of(wavelet_index, wavelet_index_ho);
    let ho = dwt_depth_ho as int;
    let depth = dwt_depth as int;
    Seq::new(
        (1 + ho + depth) as nat,
        |l: int|
            if l == 0 {
                MatrixLevel::Ll(column_dc(table, ho, depth))
            } else if l <= ho {
                MatrixLevel::H(column_h(table, ho, depth)[l - 1])
            } else {
                let (hl, lh, hh) = column_ac(table, ho, depth)[l - 1 - ho];
                MatrixLevel::Ac { hl, lh, hh }
            },
    )
}

/// Default quantization matrix of a symmetric transform: both filters the same
/// and no horizontal-only level.
pub fn default_quant_matrix(wavelet_index: u64, dwt_depth: u64) -> (r: Option<Vec<MatrixLevel>>)
    ensures
        r is Some <==> has_default(wavelet_index, wavelet_index, dwt_depth, 0),
        r matches Some(m) ==> m@ == default_matrix(wavelet_index, wavelet_index, dwt_depth, 0),
{
    default_quant_matrix_full(wavelet_index, wavelet_index, dwt_depth, 0)
}

/// Default quantization matrix, indexed by level. `None` where none is defined:
/// the stream then has to carry a custom matrix.
pub fn default_quant_matrix_full(
    wavelet_index: u64,
    wavelet_index_ho: u64,
    dwt_depth: u64,
    dwt_depth_ho: u64,
) -> (r: Option<Vec<MatrixLevel>>)
    ensures
        r is Some <==> has_default(wavelet_index, wavelet_index_ho, dwt_depth, dwt_depth_ho),
        r matches Some(m) ==> m@ == default_matrix(
            wavelet_index,
            wavelet_index_ho,
            dwt_depth,
            dwt_depth_ho,
        ),
{
    let ghost table = table_of(wavelet_index, wavelet_index_ho);
    let ghost ho = dwt_depth_ho as int;
    let ghost depth = dwt_depth as int;
    match default_cell(wavelet_index, wavelet_index_ho, dwt_depth, dwt_depth_ho) {
        None => None,
        Some((dc, h, ac)) => {
            let mut out: Vec<MatrixLevel> = Vec::with_capacity(1 + h.len() + ac.len());
            let ghost want = default_matrix(
                wavelet_index,
                wavelet_index_ho,
                dwt_depth,
                dwt_depth_ho,
            );
            out.push(MatrixLevel::Ll(dc));
            let mut k: usize = 0;
            while k < h.len()
                invariant
                    k <= h@.len(),
                    h@.len() == ho,
                    h@ == column_h(table, ho, depth),
                    ac@.len() == depth,
                    out@.len() == 1 + k,
                    want.len() == 1 + ho + depth,
                    forall|l: int|
                        1 <= l <= ho ==> #[trigger] want[l] == MatrixLevel::H(h@[l - 1]),
                    forall|l: int| 0 <= l < out@.len() ==> out@[l] == want[l],
                decreases h@.len() - k,
            {
                out.push(MatrixLevel::H(h[k]));
                k = k + 1;
            }
            let mut k: usize = 0;
            while k < ac.len()
                invariant
                    k <= ac@.len(),
                    ac@.len() == depth,
                    ac@ == column_ac(table, ho, depth),
                    ho >= 0,
                    out@.len() == 1 + ho + k,
                    want.len() == 1 + ho + depth,
                    forall|l: int|
                        ho < l <= ho + depth ==> #[trigger] want[l] == (MatrixLevel::Ac {
                            hl: ac@[l - 1 - ho].0,
                            lh: ac@[l - 1 - ho].1,
                            hh: ac@[l - 1 - ho].2,
                        }),
                    forall|l: int| 0 <= l < out@.len() ==> out@[l] == want[l],
                decreases ac@.len() - k,
            {
                let (hl, lh, hh) = ac[k];
                out.push(MatrixLevel::Ac { hl, lh, hh });
                k = k + 1;
            }
            assert(out@ =~= want);
            Some(out)
        },
    }
}

/// A default matrix has one entry per level, of the shape that the level has.
pub proof fn law_default_matrix_shape(
    wavelet_index: u64,
    wavelet_index_ho: u64,
    dwt_depth: u64,
    dwt_depth_ho: u64,
)
    requires
        has_default(wavelet_index, wavelet_index_ho, dwt_depth, dwt_depth_ho),
    ensures
        ({
            let m = default_matrix(wavelet_index, wavelet_index_ho, dwt_depth, dwt_depth_ho);
            &&& m.len() == 1 + dwt_depth_ho + dwt_depth
            &&& m[0] is Ll
            &&& forall|l: int| 1 <= l <= dwt_depth_ho ==> (#[trigger] m[l]) is H
            &&& forall|l: int| dwt_depth_ho < l < m.len() ==> (#[trigger] m[l]) is Ac
        }),
{
}

} // verus!
