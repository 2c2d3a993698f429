//! Subband structure: which bands a transform has, how large they are, which
//! part of a band a slice holds, and the store that coefficients are unpacked
//! into.
use crate::grid;
use crate::grid::Grid;
use crate::params::{CodingParameters, SequenceHeader};
use crate::transform;
use crate::transform::{Orient, Transform, TransformParameters};
use crate::wavelet::Plane;
use vstd::arithmetic::div_mod;
use vstd::arithmetic::mul;
use vstd::arithmetic::power2;
use vstd::prelude::*;

verus! {

/// How many bands a transform has: the DC band, one per horizontal-only level
/// and three per two-dimensional level.
pub open spec fn band_count(ho: int, depth: int) -> int {
    1 + ho + 3 * depth
}

/// The level that band `k` belongs to.
pub open spec fn band_level(ho: int, k: int) -> int {
    if k <= ho {
        k
    } else {
        ho + 1 + (k - 1 - ho) / 3
    }
}

/// The orientation of band `k`.
pub open spec fn band_orient(ho: int, k: int) -> Orient {
    if k == 0 {
        if ho == 0 {
            Orient::LL
        } else {
            Orient::L
        }
    } else if k <= ho {
        Orient::H
    } else if (k - 1 - ho) % 3 == 0 {
        Orient::HL
    } else if (k - 1 - ho) % 3 == 1 {
        Orient::LH
    } else {
        Orient::HH
    }
}

/// The bands in the order in which a slice holds them.
pub open spec fn spec_subband_layout(ho: int, depth: int) -> Seq<(u64, Orient)> {
    Seq::new(
        band_count(ho, depth) as nat,
        |k: int| (band_level(ho, k) as u64, band_orient(ho, k)),
    )
}

/// The level and orientation of every band, in stream order.
pub fn subband_layout(dwt_depth_ho: u64, dwt_depth: u64) -> (r: Vec<(u64, Orient)>)
    requires
        dwt_depth_ho + dwt_depth <= u64::MAX,
    ensures
        r@ == spec_subband_layout(dwt_depth_ho as int, dwt_depth as int),
{
    let mut out: Vec<(u64, Orient)> = Vec::new();
    let ghost ho = dwt_depth_ho as int;
    let ghost want = spec_subband_layout(ho, dwt_depth as int);
    if dwt_depth_ho == 0 {
        out.push((0, Orient::LL));
    } else {
        out.push((0, Orient::L));
    }
    let mut level: u64 = 0;
    while level < dwt_depth_ho
        invariant
            level <= dwt_depth_ho,
            ho == dwt_depth_ho,
            want == spec_subband_layout(ho, dwt_depth as int),
            out@.len() == 1 + level,
            forall|k: int| 0 <= k < out@.len() ==> out@[k] == want[k],
        decreases dwt_depth_ho - level,
    {
        level = level + 1;
        out.push((level, Orient::H));
    }
    let mut done: u64 = 0;
    while done < dwt_depth
        invariant
            done <= dwt_depth,
            dwt_depth_ho + dwt_depth <= u64::MAX,
            ho == dwt_depth_ho,
            want == spec_subband_layout(ho, dwt_depth as int),
            out@.len() == 1 + ho + 3 * done,
            forall|k: int| 0 <= k < out@.len() ==> out@[k] == want[k],
        decreases dwt_depth - done,
    {
        done = done + 1;
        let level: u64 = dwt_depth_ho + done;
        out.push((level, Orient::HL));
        out.push((level, Orient::LH));
        out.push((level, Orient::HH));
        proof {
            let k = 1 + ho + 3 * (done - 1);
            assert(want[k] == out@[k]);
            assert(want[k + 1] == out@[k + 1]);
            assert(want[k + 2] == out@[k + 2]);
        }
    }
    assert(out@ =~= want);
    out
}

/// Width of the bands of a level of a component that is `w` wide: that of the
/// DC band, doubled with each level above the first.
pub open spec fn spec_subband_width(w: int, ho: int, depth: int, level: int) -> int {
    transform::ceil_div(w, power2::pow2((ho + depth) as nat) as int) * power2::pow2(
        if level <= 1 {
            0
        } else {
            (level - 1) as nat
        },
    )
}

/// Height of the bands of a level: horizontal-only levels do not change it.
pub open spec fn spec_subband_height(h: int, ho: int, depth: int, level: int) -> int {
    transform::ceil_div(h, power2::pow2(depth as nat) as int) * power2::pow2(
        if level <= ho + 1 {
            0
        } else {
            (level - ho - 1) as nat
        },
    )
}

/// A band is no wider than the padded component, and half as wide from level 1
/// on.
pub proof fn lemma_scaled(n: int, small: nat, large: nat)
    requires
        0 <= n,
        small <= large,
    ensures
        0 <= n * power2::pow2(small) <= n * power2::pow2(large),
{
    power2::lemma_pow2_pos(small);
    if small < large {
        power2::lemma_pow2_strictly_increases(small, large);
    }
    let (a, b) = (power2::pow2(small) as int, power2::pow2(large) as int);
    assert(0 <= n * a <= n * b) by (nonlinear_arith)
        requires
            0 <= n,
            0 < a <= b,
    ;
}

/// Width of the bands of a level.
pub fn subband_width(w: u64, dwt_depth_ho: u64, dwt_depth: u64, level: u64) -> (r: u64)
    requires
        dwt_depth_ho + dwt_depth < 64,
        level <= dwt_depth_ho + dwt_depth,
        transform::padded(w as int, (dwt_depth_ho + dwt_depth) as nat) <= u64::MAX,
    ensures
        r == spec_subband_width(w as int, dwt_depth_ho as int, dwt_depth as int, level as int),
        r <= transform::padded(w as int, (dwt_depth_ho + dwt_depth) as nat),
{
    let total: u64 = dwt_depth_ho + dwt_depth;
    let blocks: u64 = transform::div_ceil(w, transform::pow2_u64(total));
    let shift: u64 = if level <= 1 {
        0
    } else {
        level - 1
    };
    proof {
        transform::lemma_padded(w as int, total as nat);
        lemma_scaled(blocks as int, shift as nat, total as nat);
    }
    let scale: u64 = transform::pow2_u64(shift);
    blocks * scale
}

/// Height of the bands of a level.
pub fn subband_height(h: u64, dwt_depth_ho: u64, dwt_depth: u64, level: u64) -> (r: u64)
    requires
        dwt_depth_ho + dwt_depth < 64,
        level <= dwt_depth_ho + dwt_depth,
        transform::padded(h as int, dwt_depth as nat) <= u64::MAX,
    ensures
        r == spec_subband_height(h as int, dwt_depth_ho as int, dwt_depth as int, level as int),
        r <= transform::padded(h as int, dwt_depth as nat),
{
    let blocks: u64 = transform::div_ceil(h, transform::pow2_u64(dwt_depth));
    let shift: u64 = if level <= dwt_depth_ho + 1 {
        0
    } else {
        level - dwt_depth_ho - 1
    };
    proof {
        transform::lemma_padded(h as int, dwt_depth as nat);
        lemma_scaled(blocks as int, shift as nat, dwt_depth as nat);
    }
    let scale: u64 = transform::pow2_u64(shift);
    blocks * scale
}

/// Where piece `s` of `extent`, cut into `slices` pieces, begins.
pub open spec fn cut(extent: int, slices: int, s: int) -> int {
    (extent * s) / slices
}

/// The part of a band that a slice holds.
pub struct Block {
    pub left: int,
    pub right: int,
    pub top: int,
    pub bottom: int,
}

impl Block {
    /// The block of slice `(sx, sy)` in a band.
    pub open spec fn of(
        width: int,
        height: int,
        slices_x: int,
        slices_y: int,
        sx: int,
        sy: int,
    ) -> Block {
        Block {
            left: cut(width, slices_x, sx),
            right: cut(width, slices_x, sx + 1),
            top: cut(height, slices_y, sy),
            bottom: cut(height, slices_y, sy + 1),
        }
    }

    /// Whether row `y`, column `x` lies in the block.
    pub open spec fn contains(self, y: int, x: int) -> bool {
        self.top <= y < self.bottom && self.left <= x < self.right
    }

    /// How many coefficients the block holds.
    pub open spec fn area(self) -> int {
        (self.right - self.left) * (self.bottom - self.top)
    }

    /// The place of row `y`, column `x` in the raster order of the block.
    pub open spec fn rank(self, y: int, x: int) -> int {
        (y - self.top) * (self.right - self.left) + (x - self.left)
    }
}

/// The cuts of an extent ascend from its beginning to its end.
pub proof fn lemma_cuts(extent: int, slices: int, s: int)
    requires
        0 <= extent,
        0 < slices,
        0 <= s < slices,
    ensures
        0 <= cut(extent, slices, s) <= cut(extent, slices, s + 1) <= extent,
        cut(extent, slices, 0) == 0,
        cut(extent, slices, slices) == extent,
{
    assert(0 <= extent * s <= extent * (s + 1) <= extent * slices) by (nonlinear_arith)
        requires
            0 <= extent,
            0 <= s,
            s + 1 <= slices,
    ;
    div_mod::lemma_div_is_ordered(0, extent * s, slices);
    div_mod::lemma_div_is_ordered(extent * s, extent * (s + 1), slices);
    div_mod::lemma_div_is_ordered(extent * (s + 1), extent * slices, slices);
    div_mod::lemma_div_multiples_vanish(extent, slices);
    mul::lemma_mul_is_commutative(extent, slices);
    assert(extent * 0 == 0);
    div_mod::lemma_div_of0(slices);
}

/// The number of the piece that holds position `x`.
pub open spec fn piece_of(extent: int, slices: int, x: int) -> int {
    ((x + 1) * slices - 1) / extent
}

/// The slices of a band tile it: every position lies in one slice, and in no
/// other.
pub proof fn law_slices_tile(extent: int, slices: int, x: int, s: int)
    requires
        0 < slices,
        0 <= x < extent,
    ensures
        0 <= piece_of(extent, slices, x) < slices,
        cut(extent, slices, s) <= x < cut(extent, slices, s + 1) <==> s == piece_of(
            extent,
            slices,
            x,
        ),
{
    let p = piece_of(extent, slices, x);
    let t = (x + 1) * slices - 1;
    div_mod::lemma_fundamental_div_mod(t, extent);
    let r = t % extent;
    assert(t == extent * p + r);
    assert(0 <= p < slices) by (nonlinear_arith)
        requires
            t == (x + 1) * slices - 1,
            t == extent * p + r,
            0 <= r < extent,
            0 < slices,
            0 <= x < extent,
    ;
    lemma_cut_at_most(extent, slices, x, s);
    lemma_cut_at_most(extent, slices, x, s + 1);
    assert(extent * s <= t <==> s <= p) by (nonlinear_arith)
        requires
            t == extent * p + r,
            0 <= r < extent,
    ;
    assert(extent * (s + 1) <= t <==> s + 1 <= p) by (nonlinear_arith)
        requires
            t == extent * p + r,
            0 <= r < extent,
    ;
}

proof fn lemma_cut_at_most(extent: int, slices: int, x: int, s: int)
    requires
        0 < slices,
    ensures
        cut(extent, slices, s) <= x <==> extent * s <= (x + 1) * slices - 1,
{
    let c = cut(extent, slices, s);
    div_mod::lemma_fundamental_div_mod(extent * s, slices);
    let r = (extent * s) % slices;
    assert(c <= x <==> slices * c + r <= (x + 1) * slices - 1) by (nonlinear_arith)
        requires
            0 <= r < slices,
    ;
}

/// The slices of an extent are all of one size exactly when their number
/// divides it.
pub proof fn law_equal_slices_divide(extent: int, slices: int)
    requires
        0 <= extent,
        0 < slices,
    ensures
        extent % slices == 0 <==> forall|s: int|
            0 <= s < slices ==> #[trigger] cut(extent, slices, s + 1) - cut(extent, slices, s)
                == extent / slices,
{
    let q = extent / slices;
    div_mod::lemma_fundamental_div_mod(extent, slices);
    if extent % slices == 0 {
        assert forall|s: int| 0 <= s < slices implies #[trigger] cut(extent, slices, s + 1) - cut(
            extent,
            slices,
            s,
        ) == q by {
            assert(extent * s == (q * s) * slices) by (nonlinear_arith)
                requires
                    extent == slices * q,
            ;
            assert(extent * (s + 1) == (q * (s + 1)) * slices) by (nonlinear_arith)
                requires
                    extent == slices * q,
            ;
            div_mod::lemma_div_multiples_vanish(q * s, slices);
            div_mod::lemma_div_multiples_vanish(q * (s + 1), slices);
            mul::lemma_mul_is_commutative(q * s, slices);
            mul::lemma_mul_is_commutative(q * (s + 1), slices);
            assert(q * (s + 1) - q * s == q) by (nonlinear_arith);
        }
    }
    if forall|s: int|
        0 <= s < slices ==> #[trigger] cut(extent, slices, s + 1) - cut(extent, slices, s) == q {
        lemma_equal_cuts(extent, slices, slices);
        lemma_cuts(extent, slices, 0);
        assert(extent == q * slices);
        assert(q * slices == slices * q) by (nonlinear_arith);
    }
}

proof fn lemma_equal_cuts(extent: int, slices: int, n: int)
    requires
        0 <= extent,
        0 < slices,
        0 <= n <= slices,
        forall|s: int|
            0 <= s < slices ==> #[trigger] cut(extent, slices, s + 1) - cut(extent, slices, s)
                == extent / slices,
    ensures
        cut(extent, slices, n) == (extent / slices) * n,
    decreases n,
{
    let q = extent / slices;
    if n == 0 {
        lemma_cuts(extent, slices, 0);
        assert(q * 0 == 0);
    } else {
        lemma_equal_cuts(extent, slices, n - 1);
        assert(cut(extent, slices, (n - 1) + 1) - cut(extent, slices, n - 1) == q);
        assert(q * n == q * (n - 1) + q) by (nonlinear_arith);
    }
}

/// The left, right, top and bottom bounds of a slice inside a band.
pub fn slice_bounds(
    sub_w: u64,
    sub_h: u64,
    slices_x: u64,
    slices_y: u64,
    sx: u64,
    sy: u64,
) -> (r: (u64, u64, u64, u64))
    requires
        sx < slices_x,
        sy < slices_y,
    ensures
        ({
            let b = Block::of(
                sub_w as int,
                sub_h as int,
                slices_x as int,
                slices_y as int,
                sx as int,
                sy as int,
            );
            r.0 == b.left && r.1 == b.right && r.2 == b.top && r.3 == b.bottom
        }),
        r.0 <= r.1 <= sub_w,
        r.2 <= r.3 <= sub_h,
{
    proof {
        lemma_cuts(sub_w as int, slices_x as int, sx as int);
        lemma_cuts(sub_h as int, slices_y as int, sy as int);
    }
    let left: u64 = cut_at(sub_w, slices_x, sx);
    let right: u64 = cut_at(sub_w, slices_x, sx + 1);
    let top: u64 = cut_at(sub_h, slices_y, sy);
    let bottom: u64 = cut_at(sub_h, slices_y, sy + 1);
    (left, right, top, bottom)
}

/// Where piece `s` begins; see [`cut`].
fn cut_at(extent: u64, slices: u64, s: u64) -> (r: u64)
    requires
        0 < slices,
        cut(extent as int, slices as int, s as int) <= u64::MAX,
    ensures
        r == cut(extent as int, slices as int, s as int),
{
    assert(0 <= extent * s <= 0xffff_ffff_ffff_ffff * 0xffff_ffff_ffff_ffff) by (nonlinear_arith)
        requires
            0 <= extent <= 0xffff_ffff_ffff_ffff,
            0 <= s <= 0xffff_ffff_ffff_ffff,
    ;
    ((extent as u128 * s as u128) / slices as u128) as u64
}

/// Coefficient store of one video component: one plane per band, in layout
/// order.
#[derive(Debug)]
pub struct ComponentCoeffs {
    pub width: u64,
    pub height: u64,
    /// `bands[k]` holds the coefficients of band `k`.
    pub bands: Vec<Plane>,
}

/// [`ComponentCoeffs`] over mathematical values.
#[verifier::ext_equal]
pub struct Coeffs {
    pub width: u64,
    pub height: u64,
    pub bands: Seq<Grid>,
}

/// The grids of some planes.
pub open spec fn grids(planes: Seq<Plane>) -> Seq<Grid> {
    Seq::new(planes.len(), |k: int| planes[k]@)
}

impl View for ComponentCoeffs {
    type V = Coeffs;

    open spec fn view(&self) -> Coeffs {
        Coeffs { width: self.width, height: self.height, bands: grids(self.bands@) }
    }
}

impl Clone for ComponentCoeffs {
    fn clone(&self) -> (r: Self)
        ensures
            r@ == self@,
    {
        let mut bands: Vec<Plane> = Vec::with_capacity(self.bands.len());
        let mut k: usize = 0;
        while k < self.bands.len()
            invariant
                k <= self.bands@.len(),
                bands@.len() == k,
                forall|j: int| 0 <= j < k ==> (#[trigger] bands@[j])@ == self.bands@[j]@,
            decreases self.bands@.len() - k,
        {
            bands.push(self.bands[k].clone());
            k = k + 1;
        }
        let r = ComponentCoeffs { width: self.width, height: self.height, bands };
        assert(r@.bands =~= self@.bands);
        r
    }
}

impl Coeffs {
    /// Whether there is a full plane of the right size for each band of a
    /// transform.
    pub open spec fn shaped(self, ho: int, depth: int) -> bool {
        &&& self.bands.len() == band_count(ho, depth)
        &&& forall|k: int|
            0 <= k < self.bands.len() ==> (#[trigger] self.bands[k]).wf() && self.bands[k].width
                == spec_subband_width(self.width as int, ho, depth, band_level(ho, k))
                && self.bands[k].height == spec_subband_height(
                self.height as int,
                ho,
                depth,
                band_level(ho, k),
            )
    }
}

/// Whether the padded planes of a component can be held in memory.
pub open spec fn allocatable(w: int, h: int, ho: int, depth: int) -> bool {
    &&& ho + depth < 64
    &&& transform::padded(w, (ho + depth) as nat) <= usize::MAX
    &&& transform::padded(h, depth as nat) <= usize::MAX
    &&& transform::padded(w, (ho + depth) as nat) * transform::padded(h, depth as nat) <= usize::MAX
}

/// A store of zeros for a component of the given size.
pub open spec fn spec_init_component(w: u64, h: u64, t: Transform) -> Coeffs {
    let ho = t.dwt_depth_ho as int;
    let depth = t.dwt_depth as int;
    Coeffs {
        width: w,
        height: h,
        bands: Seq::new(
            band_count(ho, depth) as nat,
            |k: int|
                Grid::zero(
                    spec_subband_width(w as int, ho, depth, band_level(ho, k)),
                    spec_subband_height(h as int, ho, depth, band_level(ho, k)),
                ),
        ),
    }
}

/// The level of a band is one that the transform has.
proof fn lemma_band_level(ho: int, depth: int, k: int)
    requires
        0 <= ho,
        0 <= depth,
        0 <= k < band_count(ho, depth),
    ensures
        0 <= band_level(ho, k) <= ho + depth,
{
}

/// A new store has the shape of the transform.
pub proof fn lemma_init_shaped(w: u64, h: u64, t: Transform)
    ensures
        spec_init_component(w, h, t).shaped(t.dwt_depth_ho as int, t.dwt_depth as int),
{
    let ho = t.dwt_depth_ho as int;
    let depth = t.dwt_depth as int;
    let c = spec_init_component(w, h, t);
    assert forall|k: int| 0 <= k < c.bands.len() implies (#[trigger] c.bands[k]).wf() by {
        let level = band_level(ho, k);
        transform::lemma_padded(w as int, (ho + depth) as nat);
        transform::lemma_padded(h as int, depth as nat);
        let sx: nat = if level <= 1 {
            0
        } else {
            (level - 1) as nat
        };
        let sy: nat = if level <= ho + 1 {
            0
        } else {
            (level - ho - 1) as nat
        };
        lemma_scaled(
            transform::ceil_div(w as int, power2::pow2((ho + depth) as nat) as int),
            sx,
            sx,
        );
        lemma_scaled(transform::ceil_div(h as int, power2::pow2(depth as nat) as int), sy, sy);
        grid::lemma_zero(
            spec_subband_width(w as int, ho, depth, level),
            spec_subband_height(h as int, ho, depth, level),
        );
    }
}

/// The zeroed store of one component.
fn init_component(w: u64, h: u64, tp: &TransformParameters) -> (r: ComponentCoeffs)
    requires
        allocatable(w as int, h as int, tp.dwt_depth_ho as int, tp.dwt_depth as int),
    ensures
        r@ == spec_init_component(w, h, tp@),
{
    let ghost ho = tp.dwt_depth_ho as int;
    let ghost depth = tp.dwt_depth as int;
    let layout: Vec<(u64, Orient)> = subband_layout(tp.dwt_depth_ho, tp.dwt_depth);
    let mut bands: Vec<Plane> = Vec::with_capacity(layout.len());
    let ghost want = spec_init_component(w, h, tp@);
    let mut k: usize = 0;
    while k < layout.len()
        invariant
            k <= layout@.len(),
            layout@ == spec_subband_layout(ho, depth),
            ho == tp.dwt_depth_ho,
            depth == tp.dwt_depth,
            allocatable(w as int, h as int, ho, depth),
            want == spec_init_component(w, h, tp@),
            bands@.len() == k,
            forall|j: int| 0 <= j < k ==> (#[trigger] bands@[j])@ == want.bands[j],
        decreases layout@.len() - k,
    {
        let (level, _orient) = layout[k];
        proof {
            lemma_band_level(ho, depth, k as int);
        }
        let sw: u64 = subband_width(w, tp.dwt_depth_ho, tp.dwt_depth, level);
        let sh: u64 = subband_height(h, tp.dwt_depth_ho, tp.dwt_depth, level);
        proof {
            let pw = transform::padded(w as int, (ho + depth) as nat);
            let ph = transform::padded(h as int, depth as nat);
            assert(sw * sh <= pw * ph) by (nonlinear_arith)
                requires
                    0 <= sw <= pw,
                    0 <= sh <= ph,
            ;
        }
        bands.push(Plane::new(sw as usize, sh as usize));
        k = k + 1;
    }
    let r = ComponentCoeffs { width: w, height: h, bands };
    assert(r@.bands =~= want.bands);
    r
}

/// Transform data of the three components.
#[derive(Debug, Clone)]
pub struct TransformData {
    pub y: ComponentCoeffs,
    pub c1: ComponentCoeffs,
    pub c2: ComponentCoeffs,
}

/// [`TransformData`] over mathematical values.
#[verifier::ext_equal]
pub struct Coefficients {
    pub y: Coeffs,
    pub c1: Coeffs,
    pub c2: Coeffs,
}

impl View for TransformData {
    type V = Coefficients;

    open spec fn view(&self) -> Coefficients {
        Coefficients { y: self.y@, c1: self.c1@, c2: self.c2@ }
    }
}

impl Coefficients {
    /// Whether each component has the shape of the transform, and the two
    /// colour-difference components the same size.
    pub open spec fn shaped(self, t: Transform) -> bool {
        let ho = t.dwt_depth_ho as int;
        let depth = t.dwt_depth as int;
        &&& self.y.shaped(ho, depth)
        &&& self.c1.shaped(ho, depth)
        &&& self.c2.shaped(ho, depth)
        &&& self.c1.width == self.c2.width
        &&& self.c1.height == self.c2.height
    }

    /// Whether the components have the sizes of a picture.
    pub open spec fn sized(self, cp: CodingParameters) -> bool {
        &&& self.y.width == cp.luma_width
        &&& self.y.height == cp.luma_height
        &&& self.c1.width == cp.color_diff_width
        &&& self.c1.height == cp.color_diff_height
        &&& self.c2.width == cp.color_diff_width
        &&& self.c2.height == cp.color_diff_height
    }
}

/// Whether the padded planes of all components can be held in memory.
pub open spec fn all_allocatable(cp: CodingParameters, t: Transform) -> bool {
    let ho = t.dwt_depth_ho as int;
    let depth = t.dwt_depth as int;
    &&& allocatable(cp.luma_width as int, cp.luma_height as int, ho, depth)
    &&& allocatable(cp.color_diff_width as int, cp.color_diff_height as int, ho, depth)
}

/// A store of zeros for all three components.
pub open spec fn spec_init_transform_data(cp: CodingParameters, t: Transform) -> Coefficients {
    Coefficients {
        y: spec_init_component(cp.luma_width, cp.luma_height, t),
        c1: spec_init_component(cp.color_diff_width, cp.color_diff_height, t),
        c2: spec_init_component(cp.color_diff_width, cp.color_diff_height, t),
    }
}

/// The zeroed coefficient store that slices are unpacked into.
pub fn init_transform_data(seq: &SequenceHeader, tp: &TransformParameters) -> (r: TransformData)
    requires
        all_allocatable(seq.coding_parameters, tp@),
    ensures
        r@ == spec_init_transform_data(seq.coding_parameters, tp@),
        r@.shaped(tp@),
        r@.sized(seq.coding_parameters),
{
    let cp: &CodingParameters = &seq.coding_parameters;
    proof {
        lemma_init_shaped(cp.luma_width, cp.luma_height, tp@);
        lemma_init_shaped(cp.color_diff_width, cp.color_diff_height, tp@);
    }
    TransformData {
        y: init_component(cp.luma_width, cp.luma_height, tp),
        c1: init_component(cp.color_diff_width, cp.color_diff_height, tp),
        c2: init_component(cp.color_diff_width, cp.color_diff_height, tp),
    }
}

/// A smaller component pads to no more than a larger one.
proof fn lemma_padded_monotone(small: int, large: int, levels: nat)
    requires
        0 <= small <= large,
    ensures
        0 <= transform::padded(small, levels) <= transform::padded(large, levels),
{
    let d = power2::pow2(levels) as int;
    power2::lemma_pow2_pos(levels);
    transform::lemma_padded(small, levels);
    div_mod::lemma_div_is_ordered(small + d - 1, large + d - 1, d);
    let (a, b) = (transform::ceil_div(small, d), transform::ceil_div(large, d));
    assert(a * d <= b * d) by (nonlinear_arith)
        requires
            a <= b,
            d > 0,
    ;
}

/// Parameters that are valid for a picture whose chroma is no larger than its
/// luma keep all of its planes within the area cap.
pub proof fn law_valid_parameters_bound_memory(cp: CodingParameters, t: Transform)
    requires
        t.valid(cp),
        cp.color_diff_width <= cp.luma_width,
        cp.color_diff_height <= cp.luma_height,
    ensures
        all_allocatable(cp, t),
        transform::padded(cp.luma_width as int, (t.dwt_depth_ho + t.dwt_depth) as nat)
            * transform::padded(cp.luma_height as int, t.dwt_depth as nat)
            <= transform::MAX_PADDED_AREA,
        transform::padded(cp.color_diff_width as int, (t.dwt_depth_ho + t.dwt_depth) as nat)
            * transform::padded(cp.color_diff_height as int, t.dwt_depth as nat)
            <= transform::MAX_PADDED_AREA,
{
    let total = (t.dwt_depth_ho + t.dwt_depth) as nat;
    let depth = t.dwt_depth as nat;
    lemma_padded_monotone(cp.color_diff_width as int, cp.luma_width as int, total);
    lemma_padded_monotone(cp.color_diff_height as int, cp.luma_height as int, depth);
    let (w, h) = (
        transform::padded(cp.luma_width as int, total),
        transform::padded(cp.luma_height as int, depth),
    );
    let (cw, ch) = (
        transform::padded(cp.color_diff_width as int, total),
        transform::padded(cp.color_diff_height as int, depth),
    );
    assert(t.dwt_depth + t.dwt_depth_ho == t.dwt_depth_ho + t.dwt_depth);
    assert(cw * ch <= w * h) by (nonlinear_arith)
        requires
            0 <= cw <= w,
            0 <= ch <= h,
    ;
}

} // verus!
