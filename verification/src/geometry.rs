//! Sizes: how planes are padded for a transform, and how its bands share them.
use crate::picture;
use crate::subband;
use crate::transform;
use vstd::arithmetic::div_mod;
use vstd::arithmetic::power2;
use vstd::prelude::*;

verus! {

/// Padding is the least that makes an extent a multiple of two to the number of
/// levels.
pub proof fn law_padding_is_least(n: int, levels: nat)
    requires
        n >= 0,
    ensures
        transform::padded(n, levels) % (power2::pow2(levels) as int) == 0,
        n <= transform::padded(n, levels) < n + power2::pow2(levels),
{
    let d = power2::pow2(levels) as int;
    power2::lemma_pow2_pos(levels);
    let q = (n + d - 1) / d;
    div_mod::lemma_fundamental_div_mod(n + d - 1, d);
    div_mod::lemma_mod_multiples_basic(q, d);
    assert(q * d == d * q) by (nonlinear_arith);
}

proof fn lemma_share(blocks: int, a: nat, b: nat)
    ensures
        (blocks * power2::pow2(a)) * power2::pow2(b) == blocks * power2::pow2(a + b),
{
    power2::lemma_pow2_adds(a, b);
    let (x, y) = (power2::pow2(a) as int, power2::pow2(b) as int);
    assert((blocks * x) * y == blocks * (x * y)) by (nonlinear_arith);
}

/// The bands of the last level are half as wide and, where it has two dimensions,
/// half as high as the padded plane; those of every level before are half of that
/// again, but for the height at horizontal-only levels. The DC band is as large as
/// the other bands of the first level.
pub proof fn law_bands_halve(w: int, h: int, ho: nat, depth: nat, level: nat)
    requires
        w >= 0,
        h >= 0,
        1 <= level <= ho + depth,
    ensures
        ({
            let (ho, depth, level) = (ho as int, depth as int, level as int);
            let width = subband::spec_subband_width(w, ho, depth, level);
            let height = subband::spec_subband_height(h, ho, depth, level);
            &&& width * power2::pow2((ho + depth - level + 1) as nat) == transform::padded(
                w,
                (ho + depth) as nat,
            )
            &&& level > ho ==> height * power2::pow2((ho + depth - level + 1) as nat)
                == transform::padded(h, depth as nat)
            &&& level <= ho ==> height * power2::pow2(depth as nat) == transform::padded(
                h,
                depth as nat,
            )
            &&& subband::spec_subband_width(w, ho, depth, 0) == subband::spec_subband_width(
                w,
                ho,
                depth,
                1,
            )
            &&& subband::spec_subband_height(h, ho, depth, 0) == subband::spec_subband_height(
                h,
                ho,
                depth,
                1,
            )
        }),
{
    let total = ho + depth;
    let bw = transform::ceil_div(w, power2::pow2(total) as int);
    let bh = transform::ceil_div(h, power2::pow2(depth) as int);
    lemma_share(bw, (level - 1) as nat, (total - level + 1) as nat);
    if level > ho {
        lemma_share(bh, (level - ho - 1) as nat, (total - level + 1) as nat);
    } else {
        lemma_share(bh, 0, depth);
    }
}

/// Samples use all of their range: zero comes out in the middle, and what is beyond
/// the range at its ends.
pub proof fn law_samples_use_their_range(v: i64, depth: nat)
    requires
        1 <= depth <= 16,
    ensures
        2 * picture::sample_of(0, depth) == power2::pow2(depth),
        2 * v <= -(power2::pow2(depth) as int) ==> picture::sample_of(v, depth) == 0,
        2 * v + 2 >= power2::pow2(depth) ==> picture::sample_of(v, depth) == power2::pow2(depth)
            - 1,
        -(power2::pow2(depth) as int) <= 2 * v < power2::pow2(depth) ==> picture::sample_of(
            v,
            depth,
        ) - v == picture::sample_of(0, depth),
{
    power2::lemma_pow2_unfold(depth);
    power2::lemma_pow2_pos((depth - 1) as nat);
    power2::lemma2_to64();
    if depth < 16 {
        power2::lemma_pow2_strictly_increases(depth, 16);
    }
}

} // verus!
