//! Slice unpacking: the quantizers of a slice, the coefficients of its bands,
//! and the low-delay and high-quality slice formats.
use crate::bitio;
use crate::bitio::{BitReader, Input};
use crate::error::{Error, Result};
use crate::grid;
use crate::grid::Grid;
use crate::params;
use crate::quant;
use crate::quant::MatrixLevel;
use crate::reading;
use crate::subband;
use crate::subband::{Block, Coefficients, Coeffs, ComponentCoeffs, TransformData};
use crate::transform;
use crate::transform::{Orient, PictureKind, Transform, TransformParameters};
use crate::wavelet::Plane;
use vstd::arithmetic::power2;
use vstd::prelude::*;

verus! {

/// The matrix value of a band.
pub open spec fn matrix_value(matrix: Seq<MatrixLevel>, level: u64, orient: Orient) -> int {
    if level >= matrix.len() {
        0
    } else {
        match matrix[level as int] {
            MatrixLevel::Ll(v) => v as int,
            MatrixLevel::H(v) => v as int,
            MatrixLevel::Ac { hl, lh, hh } => match orient {
                Orient::LH => lh as int,
                Orient::HH => hh as int,
                _ => hl as int,
            },
        }
    }
}

/// The quantizers of a slice: for each band the slice's index less the matrix
/// value, but not below zero.
pub open spec fn spec_slice_quantizers(qindex: int, t: Transform) -> Seq<u64> {
    let layout = subband::spec_subband_layout(t.dwt_depth_ho as int, t.dwt_depth as int);
    Seq::new(
        layout.len(),
        |k: int|
            {
                let v = qindex - matrix_value(t.quant_matrix, layout[k].0, layout[k].1);
                if v > 0 {
                    v as u64
                } else {
                    0
                }
            },
    )
}

fn slice_quantizers(qindex: u64, tp: &TransformParameters) -> (r: Vec<u64>)
    requires
        qindex <= 255,
        tp.dwt_depth_ho + tp.dwt_depth <= u64::MAX,
    ensures
        r@ == spec_slice_quantizers(qindex as int, tp@),
{
    let layout: Vec<(u64, Orient)> = subband::subband_layout(tp.dwt_depth_ho, tp.dwt_depth);
    let mut out: Vec<u64> = Vec::with_capacity(layout.len());
    let ghost want = spec_slice_quantizers(qindex as int, tp@);
    let mut k: usize = 0;
    while k < layout.len()
        invariant
            k <= layout@.len(),
            qindex <= 255,
            layout@ == subband::spec_subband_layout(tp.dwt_depth_ho as int, tp.dwt_depth as int),
            want == spec_slice_quantizers(qindex as int, tp@),
            out@.len() == k,
            forall|j: int| 0 <= j < k ==> #[trigger] out@[j] == want[j],
        decreases layout@.len() - k,
    {
        let (level, orient) = layout[k];
        let value: i64 = if level >= tp.quant_matrix.len() as u64 {
            0
        } else {
            match tp.quant_matrix[level as usize] {
                MatrixLevel::Ll(v) => v,
                MatrixLevel::H(v) => v,
                MatrixLevel::Ac { hl, lh, hh } => match orient {
                    Orient::LH => lh,
                    Orient::HH => hh,
                    _ => hl,
                },
            }
        };
        let q: i128 = qindex as i128 - value as i128;
        out.push(
            if q > 0 {
                q as u64
            } else {
                0
            },
        );
        k = k + 1;
    }
    assert(out@ =~= want);
    out
}

/// The next `n` signed codes of the bounded block.
pub open spec fn sints(i: Input, n: nat) -> (Input, Seq<i64>)
    decreases n,
{
    if n == 0 {
        (i, seq![])
    } else {
        let (i1, vals) = sints(i, (n - 1) as nat);
        let (i2, v) = i1.sintb();
        (i2, vals.push(v as i64))
    }
}

/// Reading more codes does not change those read before.
proof fn lemma_sints_stable(i: Input, m: nat, n: nat)
    requires
        m <= n,
    ensures
        sints(i, m).1.len() == m,
        sints(i, n).1.len() == n,
        forall|k: int| 0 <= k < m ==> #[trigger] sints(i, n).1[k] == sints(i, m).1[k],
    decreases n,
{
    if n > 0 {
        if m < n {
            lemma_sints_stable(i, m, (n - 1) as nat);
        } else {
            lemma_sints_stable(i, (n - 1) as nat, (n - 1) as nat);
        }
    }
}

/// Codes of truncated data.
pub proof fn lemma_sints(a: Input, b: Input, n: nat)
    requires
        a.wf(),
    ensures
        a.moved_on(sints(a, n).0),
        a.alike(b, sints(a, n), sints(b, n)),
    decreases n,
{
    if n > 0 {
        let m = (n - 1) as nat;
        lemma_sints(a, b, m);
        reading::lemma_sintb(sints(a, m).0, sints(b, m).0);
    }
}

/// A grid with the samples of a block replaced by `value` of their place in the
/// raster order of the block.
pub open spec fn painted(g: Grid, block: Block, value: spec_fn(int) -> i64) -> Grid {
    Grid::tabulate(
        g.width,
        g.height,
        |y: int, x: int|
            if block.contains(y, x) {
                value(block.rank(y, x))
            } else {
                g.at(y, x)
            },
    )
}

/// The slice that is being unpacked: how many there are, and which it is.
pub struct Position {
    pub slices_x: int,
    pub slices_y: int,
    pub sx: int,
    pub sy: int,
}

impl Position {
    /// Whether the slice is one of them.
    pub open spec fn wf(self) -> bool {
        0 <= self.sx < self.slices_x && 0 <= self.sy < self.slices_y
    }

    /// The part of a band that the slice holds.
    pub open spec fn block(self, g: Grid) -> Block {
        Block::of(g.width, g.height, self.slices_x, self.slices_y, self.sx, self.sy)
    }
}

/// The part of a band that a slice holds: one code per coefficient, in raster
/// order.
pub open spec fn spec_band(i: Input, g: Grid, p: Position, q: u64) -> (Input, Grid) {
    let block = p.block(g);
    let (i1, vals) = sints(i, block.area() as nat);
    (
        i1,
        painted(g, block, |k: int| quant::spec_inverse_quant(vals[k] as int, q as nat) as i64),
    )
}

/// The parts of two bands of the same size that a slice holds: one code per
/// coefficient of either, alternating, in raster order.
pub open spec fn spec_color_diff_band(i: Input, g1: Grid, g2: Grid, p: Position, q: u64) -> (
    Input,
    Grid,
    Grid,
) {
    let block = p.block(g1);
    let (i1, vals) = sints(i, (2 * block.area()) as nat);
    (
        i1,
        painted(g1, block, |k: int| quant::spec_inverse_quant(vals[2 * k] as int, q as nat) as i64),
        painted(
            g2,
            block,
            |k: int| quant::spec_inverse_quant(vals[2 * k + 1] as int, q as nat) as i64,
        ),
    )
}

/// A block lies inside its band, and its raster order is that of its rows.
proof fn lemma_block(g: Grid, p: Position)
    requires
        g.wf(),
        p.wf(),
    ensures
        0 <= p.block(g).left <= p.block(g).right <= g.width,
        0 <= p.block(g).top <= p.block(g).bottom <= g.height,
        p.block(g).area() >= 0,
{
    subband::lemma_cuts(g.width, p.slices_x, p.sx);
    subband::lemma_cuts(g.height, p.slices_y, p.sy);
    let b = p.block(g);
    assert((b.right - b.left) * (b.bottom - b.top) >= 0) by (nonlinear_arith)
        requires
            b.left <= b.right,
            b.top <= b.bottom,
    ;
}

/// Moving on by one row moves on by the width of the block.
proof fn lemma_rank_row(b: Block, y: int)
    ensures
        b.rank(y, b.right) == b.rank(y + 1, b.left),
        b.rank(b.top, b.left) == 0,
        b.rank(b.bottom, b.left) == b.area(),
{
    let w = b.right - b.left;
    assert((y - b.top) * w + w == (y + 1 - b.top) * w) by (nonlinear_arith);
    assert((b.bottom - b.top) * w == w * (b.bottom - b.top)) by (nonlinear_arith);
    assert((b.top - b.top) * w == 0) by (nonlinear_arith);
}

/// Inside a block the raster order is below its area.
pub proof fn lemma_rank_inside(b: Block, y: int, x: int)
    requires
        b.contains(y, x),
    ensures
        0 <= b.rank(y, x) < b.area(),
{
    grid::lemma_place(b.right - b.left, b.bottom - b.top, y - b.top, x - b.left);
}

/// Unpacks the part of a band that a slice holds.
fn unpack_band(
    r: &mut BitReader,
    band: &mut Plane,
    q: u64,
    tp: &TransformParameters,
    sx: u64,
    sy: u64,
)
    requires
        old(band)@.wf(),
        sx < tp.slices_x,
        sy < tp.slices_y,
    ensures
        (final(r)@, final(band)@) == spec_band(
            old(r)@,
            old(band)@,
            position(tp@, sx as int, sy as int),
            q,
        ),
        final(band)@.wf(),
        final(band)@.width == old(band)@.width,
        final(band)@.height == old(band)@.height,
        final(r)@.wf(),
        final(r).source() == old(r).source(),
{
    let ghost g0 = band@;
    let ghost i0 = r@;
    let ghost p = position(tp@, sx as int, sy as int);
    let ghost b = p.block(g0);
    let ghost full = sints(i0, b.area() as nat).1;
    let ghost value = |k: int| quant::spec_inverse_quant(full[k] as int, q as nat) as i64;
    let ghost want = painted(g0, b, value);
    proof {
        lemma_block(g0, p);
        grid::lemma_tabulate(
            g0.width,
            g0.height,
            |y: int, x: int|
                if b.contains(y, x) {
                    value(b.rank(y, x))
                } else {
                    g0.at(y, x)
                },
        );
        lemma_rank_row(b, b.top);
    }
    let (left, right, top, bottom) = subband::slice_bounds(
        band.width as u64,
        band.height as u64,
        tp.slices_x,
        tp.slices_y,
        sx,
        sy,
    );
    proof {
        use_type_invariant(&*r);
        r.lemma_inv();
    }
    let mut y: u64 = top;
    while y < bottom
        invariant
            r.source() == old(r).source(),
            top <= y <= bottom,
            left <= right,
            b == (Block {
                left: left as int,
                right: right as int,
                top: top as int,
                bottom: bottom as int,
            }),
            0 <= b.left <= b.right <= g0.width,
            0 <= b.top <= b.bottom <= g0.height,
            g0.wf(),
            r@.wf(),
            r@ == sints(i0, b.rank(y as int, b.left) as nat).0,
            b.rank(y as int, b.left) >= 0,
            full == sints(i0, b.area() as nat).1,
            value == (|k: int| quant::spec_inverse_quant(full[k] as int, q as nat) as i64),
            band@.wf(),
            band@.width == g0.width,
            band@.height == g0.height,
            forall|yy: int, xx: int|
                0 <= yy < g0.height && 0 <= xx < g0.width ==> #[trigger] band@.at(yy, xx)
                    == if b.contains(yy, xx) && yy < y {
                    value(b.rank(yy, xx))
                } else {
                    g0.at(yy, xx)
                },
        decreases bottom - y,
    {
        let mut x: u64 = left;
        while x < right
            invariant
                r.source() == old(r).source(),
                top <= y < bottom,
                left <= x <= right,
                b == (Block {
                    left: left as int,
                    right: right as int,
                    top: top as int,
                    bottom: bottom as int,
                }),
                0 <= b.left <= b.right <= g0.width,
                0 <= b.top <= b.bottom <= g0.height,
                g0.wf(),
                r@.wf(),
                r@ == sints(i0, b.rank(y as int, x as int) as nat).0,
                b.rank(y as int, x as int) >= 0,
                full == sints(i0, b.area() as nat).1,
                value == (|k: int| quant::spec_inverse_quant(full[k] as int, q as nat) as i64),
                band@.wf(),
                band@.width == g0.width,
                band@.height == g0.height,
                forall|yy: int, xx: int|
                    0 <= yy < g0.height && 0 <= xx < g0.width ==> #[trigger] band@.at(yy, xx)
                        == if b.contains(yy, xx) && (yy < y || (yy == y && xx < x)) {
                        value(b.rank(yy, xx))
                    } else {
                        g0.at(yy, xx)
                    },
            decreases right - x,
        {
            let ghost k = b.rank(y as int, x as int) as nat;
            proof {
                lemma_rank_inside(b, y as int, x as int);
                lemma_sints_stable(i0, (k + 1) as nat, b.area() as nat);
                lemma_sints_stable(i0, k, k);
            }
            let v: i64 = r.read_sintb();
            assert(sints(i0, (k + 1) as nat).1[k as int] == v);
            assert(full[k as int] == v);
            let c: i64 = quant::inverse_quant(v, q);
            proof {
                grid::lemma_place(g0.width, g0.height, y as int, x as int);
                grid::lemma_with(band@, y as int, x as int, c);
            }
            band.set(y as usize, x as usize, c);
            x = x + 1;
        }
        proof {
            lemma_rank_row(b, y as int);
            lemma_rank_nonneg(b, y as int + 1);
        }
        y = y + 1;
    }
    proof {
        lemma_rank_row(b, b.bottom);
        grid::lemma_grid_equal(band@, want);
    }
}

proof fn lemma_rank_nonneg(b: Block, y: int)
    requires
        b.left <= b.right,
        b.top <= y,
    ensures
        b.rank(y, b.left) >= 0,
{
    assert((y - b.top) * (b.right - b.left) >= 0) by (nonlinear_arith)
        requires
            b.left <= b.right,
            b.top <= y,
    ;
}

/// The position of slice `(sx, sy)`.
pub open spec fn position(t: Transform, sx: int, sy: int) -> Position {
    Position { slices_x: t.slices_x as int, slices_y: t.slices_y as int, sx, sy }
}

/// Unpacks the parts of the two colour-difference bands that a slice holds.
fn unpack_color_diff_band(
    r: &mut BitReader,
    band1: &mut Plane,
    band2: &mut Plane,
    q: u64,
    tp: &TransformParameters,
    sx: u64,
    sy: u64,
)
    requires
        old(band1)@.wf(),
        old(band2)@.wf(),
        old(band1)@.width == old(band2)@.width,
        old(band1)@.height == old(band2)@.height,
        sx < tp.slices_x,
        sy < tp.slices_y,
    ensures
        (final(r)@, final(band1)@, final(band2)@) == spec_color_diff_band(
            old(r)@,
            old(band1)@,
            old(band2)@,
            position(tp@, sx as int, sy as int),
            q,
        ),
        final(band1)@.wf(),
        final(band1)@.width == old(band1)@.width,
        final(band1)@.height == old(band1)@.height,
        final(band2)@.wf(),
        final(band2)@.width == old(band2)@.width,
        final(band2)@.height == old(band2)@.height,
        final(r)@.wf(),
        final(r).source() == old(r).source(),
{
    let ghost g1 = band1@;
    let ghost g2 = band2@;
    let ghost i0 = r@;
    let ghost p = position(tp@, sx as int, sy as int);
    let ghost b = p.block(g1);
    let ghost full = sints(i0, (2 * b.area()) as nat).1;
    let ghost value1 = |k: int| quant::spec_inverse_quant(full[2 * k] as int, q as nat) as i64;
    let ghost value2 = |k: int| quant::spec_inverse_quant(full[2 * k + 1] as int, q as nat) as i64;
    let ghost want1 = painted(g1, b, value1);
    let ghost want2 = painted(g2, b, value2);
    proof {
        use_type_invariant(&*r);
        r.lemma_inv();
        lemma_block(g1, p);
        grid::lemma_tabulate(
            g1.width,
            g1.height,
            |y: int, x: int|
                if b.contains(y, x) {
                    value1(b.rank(y, x))
                } else {
                    g1.at(y, x)
                },
        );
        grid::lemma_tabulate(
            g2.width,
            g2.height,
            |y: int, x: int|
                if b.contains(y, x) {
                    value2(b.rank(y, x))
                } else {
                    g2.at(y, x)
                },
        );
        lemma_rank_row(b, b.top);
    }
    let (left, right, top, bottom) = subband::slice_bounds(
        band1.width as u64,
        band1.height as u64,
        tp.slices_x,
        tp.slices_y,
        sx,
        sy,
    );
    let mut y: u64 = top;
    while y < bottom
        invariant
            r.source() == old(r).source(),
            top <= y <= bottom,
            left <= right,
            b == (Block {
                left: left as int,
                right: right as int,
                top: top as int,
                bottom: bottom as int,
            }),
            0 <= b.left <= b.right <= g1.width,
            0 <= b.top <= b.bottom <= g1.height,
            g1.wf(),
            g2.wf(),
            g1.width == g2.width,
            g1.height == g2.height,
            r@.wf(),
            r@ == sints(i0, (2 * b.rank(y as int, b.left)) as nat).0,
            b.rank(y as int, b.left) >= 0,
            full == sints(i0, (2 * b.area()) as nat).1,
            value1 == (|k: int| quant::spec_inverse_quant(full[2 * k] as int, q as nat) as i64),
            value2 == (|k: int| quant::spec_inverse_quant(full[2 * k + 1] as int, q as nat) as i64),
            band1@.wf(),
            band1@.width == g1.width,
            band1@.height == g1.height,
            band2@.wf(),
            band2@.width == g2.width,
            band2@.height == g2.height,
            forall|yy: int, xx: int|
                0 <= yy < g1.height && 0 <= xx < g1.width ==> #[trigger] band1@.at(yy, xx)
                    == if b.contains(yy, xx) && yy < y {
                    value1(b.rank(yy, xx))
                } else {
                    g1.at(yy, xx)
                },
            forall|yy: int, xx: int|
                0 <= yy < g2.height && 0 <= xx < g2.width ==> #[trigger] band2@.at(yy, xx)
                    == if b.contains(yy, xx) && yy < y {
                    value2(b.rank(yy, xx))
                } else {
                    g2.at(yy, xx)
                },
        decreases bottom - y,
    {
        let mut x: u64 = left;
        while x < right
            invariant
                r.source() == old(r).source(),
                top <= y < bottom,
                left <= x <= right,
                b == (Block {
                    left: left as int,
                    right: right as int,
                    top: top as int,
                    bottom: bottom as int,
                }),
                0 <= b.left <= b.right <= g1.width,
                0 <= b.top <= b.bottom <= g1.height,
                g1.wf(),
                g2.wf(),
                g1.width == g2.width,
                g1.height == g2.height,
                r@.wf(),
                r@ == sints(i0, (2 * b.rank(y as int, x as int)) as nat).0,
                b.rank(y as int, x as int) >= 0,
                full == sints(i0, (2 * b.area()) as nat).1,
                value1 == (|k: int| quant::spec_inverse_quant(full[2 * k] as int, q as nat) as i64),
                value2 == (|k: int|
                    quant::spec_inverse_quant(full[2 * k + 1] as int, q as nat) as i64),
                band1@.wf(),
                band1@.width == g1.width,
                band1@.height == g1.height,
                band2@.wf(),
                band2@.width == g2.width,
                band2@.height == g2.height,
                forall|yy: int, xx: int|
                    0 <= yy < g1.height && 0 <= xx < g1.width ==> #[trigger] band1@.at(yy, xx)
                        == if b.contains(yy, xx) && (yy < y || (yy == y && xx < x)) {
                        value1(b.rank(yy, xx))
                    } else {
                        g1.at(yy, xx)
                    },
                forall|yy: int, xx: int|
                    0 <= yy < g2.height && 0 <= xx < g2.width ==> #[trigger] band2@.at(yy, xx)
                        == if b.contains(yy, xx) && (yy < y || (yy == y && xx < x)) {
                        value2(b.rank(yy, xx))
                    } else {
                        g2.at(yy, xx)
                    },
            decreases right - x,
        {
            let ghost k = 2 * b.rank(y as int, x as int);
            proof {
                lemma_rank_inside(b, y as int, x as int);
                lemma_sints_stable(i0, (k + 1) as nat, (2 * b.area()) as nat);
                lemma_sints_stable(i0, (k + 2) as nat, (2 * b.area()) as nat);
                lemma_sints_stable(i0, k as nat, k as nat);
                grid::lemma_place(g1.width, g1.height, y as int, x as int);
            }
            let v1: i64 = r.read_sintb();
            assert(sints(i0, (k + 1) as nat).1[k] == v1);
            assert(full[k] == v1);
            let c1: i64 = quant::inverse_quant(v1, q);
            proof {
                grid::lemma_with(band1@, y as int, x as int, c1);
            }
            band1.set(y as usize, x as usize, c1);
            let v2: i64 = r.read_sintb();
            assert(sints(i0, (k + 2) as nat).1[k + 1] == v2);
            assert(full[k + 1] == v2);
            let c2: i64 = quant::inverse_quant(v2, q);
            proof {
                grid::lemma_with(band2@, y as int, x as int, c2);
            }
            band2.set(y as usize, x as usize, c2);
            assert(2 * b.rank(y as int, x + 1) == k + 2);
            x = x + 1;
        }
        proof {
            lemma_rank_row(b, y as int);
            lemma_rank_nonneg(b, y as int + 1);
        }
        y = y + 1;
    }
    proof {
        lemma_rank_row(b, b.bottom);
        grid::lemma_grid_equal(band1@, want1);
        grid::lemma_grid_equal(band2@, want2);
    }
}

/// The first `n` bands of a component.
pub open spec fn spec_bands(i: Input, bands: Seq<Grid>, quant: Seq<u64>, p: Position, n: nat) -> (
    Input,
    Seq<Grid>,
)
    decreases n,
{
    if n == 0 {
        (i, bands)
    } else {
        let k = n - 1;
        let (i1, done) = spec_bands(i, bands, quant, p, k as nat);
        let (i2, g) = spec_band(i1, done[k], p, quant[k]);
        (i2, done.update(k, g))
    }
}

/// The first `n` bands of the two colour-difference components.
pub open spec fn spec_color_diff_bands(
    i: Input,
    bands1: Seq<Grid>,
    bands2: Seq<Grid>,
    quant: Seq<u64>,
    p: Position,
    n: nat,
) -> (Input, Seq<Grid>, Seq<Grid>)
    decreases n,
{
    if n == 0 {
        (i, bands1, bands2)
    } else {
        let k = n - 1;
        let (i1, done1, done2) = spec_color_diff_bands(i, bands1, bands2, quant, p, k as nat);
        let (i2, g1, g2) = spec_color_diff_band(i1, done1[k], done2[k], p, quant[k]);
        (i2, done1.update(k, g1), done2.update(k, g2))
    }
}

/// Every band of a component, in layout order.
pub open spec fn spec_component(i: Input, c: Coeffs, quant: Seq<u64>, p: Position) -> (
    Input,
    Coeffs,
) {
    let (i1, bands) = spec_bands(i, c.bands, quant, p, c.bands.len());
    (i1, Coeffs { bands, ..c })
}

/// Unpacks the part of a component that a slice holds.
fn unpack_component_bands(
    r: &mut BitReader,
    store: &mut ComponentCoeffs,
    tp: &TransformParameters,
    quant: &Vec<u64>,
    sx: u64,
    sy: u64,
)
    requires
        old(store)@.shaped(tp.dwt_depth_ho as int, tp.dwt_depth as int),
        quant@.len() == old(store)@.bands.len(),
        sx < tp.slices_x,
        sy < tp.slices_y,
    ensures
        (final(r)@, final(store)@) == spec_component(
            old(r)@,
            old(store)@,
            quant@,
            position(tp@, sx as int, sy as int),
        ),
        final(store)@.shaped(tp.dwt_depth_ho as int, tp.dwt_depth as int),
        final(store).width == old(store).width,
        final(store).height == old(store).height,
        final(r)@.wf(),
        final(r).source() == old(r).source(),
{
    let ghost i0 = r@;
    let ghost c0 = store@;
    let ghost p = position(tp@, sx as int, sy as int);
    proof {
        use_type_invariant(&*r);
        r.lemma_inv();
    }
    let count: usize = store.bands.len();
    let mut k: usize = 0;
    while k < count
        invariant
            r.source() == old(r).source(),
            k <= count,
            count == c0.bands.len(),
            quant@.len() == count,
            sx < tp.slices_x,
            sy < tp.slices_y,
            p == position(tp@, sx as int, sy as int),
            store@.shaped(tp.dwt_depth_ho as int, tp.dwt_depth as int),
            store@.width == c0.width,
            store@.height == c0.height,
            r@.wf(),
            (r@, store@.bands) == spec_bands(i0, c0.bands, quant@, p, k as nat),
            store@.bands.len() == count,
        decreases count - k,
    {
        let ghost before = store@;
        assert(before.bands[k as int].wf());
        unpack_band(r, &mut store.bands[k], quant[k], tp, sx, sy);
        assert(store@.bands =~= before.bands.update(k as int, store.bands@[k as int]@));
        k = k + 1;
    }
}

/// Unpacks the part of the two colour-difference components that a slice holds.
fn unpack_color_diff_bands(
    r: &mut BitReader,
    td: &mut TransformData,
    tp: &TransformParameters,
    quant: &Vec<u64>,
    sx: u64,
    sy: u64,
)
    requires
        old(td)@.shaped(tp@),
        quant@.len() == old(td)@.c1.bands.len(),
        sx < tp.slices_x,
        sy < tp.slices_y,
    ensures
        ({
            let (i1, bands1, bands2) = spec_color_diff_bands(
                old(r)@,
                old(td)@.c1.bands,
                old(td)@.c2.bands,
                quant@,
                position(tp@, sx as int, sy as int),
                old(td)@.c1.bands.len(),
            );
            &&& final(r)@ == i1
            &&& final(td)@ == Coefficients {
                y: old(td)@.y,
                c1: Coeffs { bands: bands1, ..old(td)@.c1 },
                c2: Coeffs { bands: bands2, ..old(td)@.c2 },
            }
        }),
        final(td)@.shaped(tp@),
        final(r)@.wf(),
        final(r).source() == old(r).source(),
{
    let ghost i0 = r@;
    let ghost t0 = td@;
    let ghost p = position(tp@, sx as int, sy as int);
    proof {
        use_type_invariant(&*r);
        r.lemma_inv();
    }
    let count: usize = td.c1.bands.len();
    let mut k: usize = 0;
    while k < count
        invariant
            r.source() == old(r).source(),
            k <= count,
            count == t0.c1.bands.len(),
            quant@.len() == count,
            sx < tp.slices_x,
            sy < tp.slices_y,
            p == position(tp@, sx as int, sy as int),
            td@.shaped(tp@),
            td@.y == t0.y,
            td@.c1.width == t0.c1.width,
            td@.c1.height == t0.c1.height,
            td@.c2.width == t0.c2.width,
            td@.c2.height == t0.c2.height,
            r@.wf(),
            (r@, td@.c1.bands, td@.c2.bands) == spec_color_diff_bands(
                i0,
                t0.c1.bands,
                t0.c2.bands,
                quant@,
                p,
                k as nat,
            ),
            td@.c1.bands.len() == count,
            td@.c2.bands.len() == count,
        decreases count - k,
    {
        let ghost before = td@;
        assert(before.c1.bands[k as int].wf());
        assert(before.c2.bands[k as int].wf());
        unpack_color_diff_band(
            r,
            &mut td.c1.bands[k],
            &mut td.c2.bands[k],
            quant[k],
            tp,
            sx,
            sy,
        );
        assert(td@.c1.bands =~= before.c1.bands.update(k as int, td.c1.bands@[k as int]@));
        assert(td@.c2.bands =~= before.c2.bands.update(k as int, td.c2.bands@[k as int]@));
        k = k + 1;
    }
}

/// The bytes that the first `n` slices take: the fraction of bytes per slice,
/// times `n`, rounded down.
pub open spec fn bytes_of_slices(t: Transform, n: int) -> int {
    (n * t.slice_bytes_numerator) / (t.slice_bytes_denominator as int)
}

/// The bytes of slice number `n`.
pub open spec fn spec_slice_bytes(t: Transform, n: int) -> int {
    bytes_of_slices(t, n + 1) - bytes_of_slices(t, n)
}

/// The number of slice `(sx, sy)` in raster order.
pub open spec fn slice_number(t: Transform, sx: int, sy: int) -> int {
    sy * t.slices_x + sx
}

/// The bytes of all of the first `n` slices together.
pub open spec fn total_slice_bytes(t: Transform, n: nat) -> int
    decreases n,
{
    if n == 0 {
        0
    } else {
        total_slice_bytes(t, (n - 1) as nat) + spec_slice_bytes(t, n - 1)
    }
}

/// The slices share out the bytes without a remainder being lost: together the
/// first `n` take `n` times the fraction, rounded down once.
pub proof fn law_slice_bytes_add_up(t: Transform, n: nat)
    requires
        t.slice_bytes_denominator >= 1,
    ensures
        total_slice_bytes(t, n) == bytes_of_slices(t, n as int),
    decreases n,
{
    if n == 0 {
        assert(0 * t.slice_bytes_numerator == 0);
        vstd::arithmetic::div_mod::lemma_div_of0(t.slice_bytes_denominator as int);
    } else {
        law_slice_bytes_add_up(t, (n - 1) as nat);
    }
}

/// A slice takes no more bytes than the numerator says.
proof fn lemma_slice_bytes(t: Transform, n: int)
    requires
        t.slice_bytes_denominator >= 1,
        n >= 0,
    ensures
        0 <= spec_slice_bytes(t, n) <= t.slice_bytes_numerator,
        0 <= bytes_of_slices(t, n) <= n * t.slice_bytes_numerator,
        n * t.slice_bytes_numerator <= (n + 1) * t.slice_bytes_numerator,
{
    let num = t.slice_bytes_numerator as int;
    let den = t.slice_bytes_denominator as int;
    let a = n * num;
    let b = (n + 1) * num;
    assert(b == a + num && 0 <= a) by (nonlinear_arith)
        requires
            a == n * num,
            b == (n + 1) * num,
            n >= 0,
            num >= 0,
    ;
    vstd::arithmetic::div_mod::lemma_div_is_ordered(a, b, den);
    vstd::arithmetic::div_mod::lemma_fundamental_div_mod(a, den);
    vstd::arithmetic::div_mod::lemma_fundamental_div_mod(b, den);
    let (qa, ra) = (a / den, a % den);
    let (qb, rb) = (b / den, b % den);
    let d = qb - qa;
    assert(den * d == num + ra - rb) by (nonlinear_arith)
        requires
            a == den * qa + ra,
            b == den * qb + rb,
            b == a + num,
            d == qb - qa,
    ;
    if d > num {
        assert(den * d >= num + den) by (nonlinear_arith)
            requires
                d >= num + 1,
                den >= 1,
                num >= 0,
        ;
    }
    assert(0 <= qa <= a) by (nonlinear_arith)
        requires
            a == den * qa + ra,
            0 <= ra < den,
            0 <= a,
            den >= 1,
    ;
}

/// The bytes of slice `(sx, sy)` of a low-delay picture.
pub fn slice_bytes(tp: &TransformParameters, sx: u64, sy: u64) -> (r: u64)
    requires
        tp.slice_bytes_denominator >= 1,
        slice_number(tp@, sx as int, sy as int) < u64::MAX,
        (slice_number(tp@, sx as int, sy as int) + 1) * tp.slice_bytes_numerator <= u64::MAX,
    ensures
        r == spec_slice_bytes(tp@, slice_number(tp@, sx as int, sy as int)),
        r <= tp.slice_bytes_numerator,
{
    assert(0 <= sy * tp.slices_x) by (nonlinear_arith);
    let slice_number: u64 = sy * tp.slices_x + sx;
    proof {
        lemma_slice_bytes(tp@, slice_number as int);
    }
    let a: u64 = ((slice_number + 1) * tp.slice_bytes_numerator) / tp.slice_bytes_denominator;
    let b: u64 = (slice_number * tp.slice_bytes_numerator) / tp.slice_bytes_denominator;
    a - b
}

/// Slice numbers of valid parameters stay below the slice count, and the byte
/// arithmetic stays small.
proof fn lemma_slice_number(t: Transform, sx: int, sy: int)
    requires
        t.slices_valid(),
        0 <= sx < t.slices_x,
        0 <= sy < t.slices_y,
    ensures
        0 <= slice_number(t, sx, sy) < t.slices_x * t.slices_y,
        (slice_number(t, sx, sy) + 1) * t.slice_bytes_numerator <= 0x40_0000_0000_0000,
{
    grid::lemma_place(t.slices_x as int, t.slices_y as int, sy, sx);
    let n = slice_number(t, sx, sy);
    let num = t.slice_bytes_numerator as int;
    assert((n + 1) * num <= 0x40_0000 * 0x1_0000_0000) by (nonlinear_arith)
        requires
            0 <= n + 1 <= 0x40_0000,
            0 <= num <= 0x1_0000_0000,
    ;
}

/// The size of a slice of valid parameters.
pub proof fn lemma_slice_size(t: Transform, sx: int, sy: int)
    requires
        t.slices_valid(),
        0 <= sx < t.slices_x,
        0 <= sy < t.slices_y,
    ensures
        0 <= spec_slice_bytes(t, slice_number(t, sx, sy)) <= transform::MAX_SLICE_BYTES_NUMERATOR,
{
    lemma_slice_number(t, sx, sy);
    lemma_slice_bytes(t, slice_number(t, sx, sy));
}

/// A low-delay slice of `size` bytes: seven bits of quantization index, the
/// length of the luma part, the luma bands in a block of that length, and the
/// interleaved colour-difference bands in what is left.
pub open spec fn spec_ld_slice(i: Input, td: Coefficients, t: Transform, sx: int, sy: int) -> (
    Input,
    Coefficients,
    Result<()>,
) {
    let total_bits = 8 * spec_slice_bytes(t, slice_number(t, sx, sy));
    if total_bits < 8 {
        (i, td, Err(Error::InvalidValue("low-delay slice smaller than its own header")))
    } else {
        let p = position(t, sx, sy);
        let (i1, qindex) = i.nbits(7);
        let quant = spec_slice_quantizers(qindex, t);
        let length_bits = params::spec_intlog2(total_bits - 7);
        let (i2, y_length) = i1.nbits(length_bits);
        let (i3, y) = spec_component(i2.with_bits_left(y_length), td.y, quant, p);
        let left_over = total_bits - (7 + length_bits + y_length);
        let (i4, bands1, bands2) = spec_color_diff_bands(
            i3.flushed().with_bits_left(
                if left_over > 0 {
                    left_over
                } else {
                    0
                },
            ),
            td.c1.bands,
            td.c2.bands,
            quant,
            p,
            td.c1.bands.len(),
        );
        (
            i4.flushed(),
            Coefficients {
                y,
                c1: Coeffs { bands: bands1, ..td.c1 },
                c2: Coeffs { bands: bands2, ..td.c2 },
            },
            Ok(()),
        )
    }
}

/// Unpacks a low-delay slice.
fn ld_slice(
    r: &mut BitReader,
    tp: &TransformParameters,
    td: &mut TransformData,
    sx: u64,
    sy: u64,
) -> (res: Result<()>)
    requires
        old(td)@.shaped(tp@),
        tp@.slices_valid(),
        tp.dwt_depth_ho + tp.dwt_depth < 64,
        sx < tp.slices_x,
        sy < tp.slices_y,
    ensures
        (final(r)@, final(td)@, res) == spec_ld_slice(
            old(r)@,
            old(td)@,
            tp@,
            sx as int,
            sy as int,
        ),
        final(td)@.shaped(tp@),
        final(td)@.y.width == old(td)@.y.width,
        final(td)@.y.height == old(td)@.y.height,
        final(r).source() == old(r).source(),
{
    proof {
        use_type_invariant(&*r);
        r.lemma_inv();
        lemma_slice_number(tp@, sx as int, sy as int);
    }
    let ghost td0 = td@;
    let slice_total_bits: u64 = 8 * slice_bytes(tp, sx, sy);
    if slice_total_bits < 8 {
        return Err(Error::InvalidValue("low-delay slice smaller than its own header"));
    }
    let ghost i0 = r@;
    let qindex: u64 = r.read_nbits(7);
    proof {
        reading::lemma_nbits_bound(i0, 7);
        power2::lemma2_to64();
    }
    let quant: Vec<u64> = slice_quantizers(qindex, tp);
    let ghost i1 = r@;
    let length_bits: u32 = params::intlog2(slice_total_bits - 7);
    proof {
        lemma_length_bits(slice_total_bits as int - 7);
        reading::lemma_nbits_bound(i1, length_bits as nat);
    }
    let slice_y_length: u64 = r.read_nbits(length_bits);
    r.set_bits_left(slice_y_length);
    unpack_component_bands(r, &mut td.y, tp, &quant, sx, sy);
    r.flush_inputb();
    let used: u64 = 7 + length_bits as u64 + slice_y_length;
    let cdiff_bits: u64 = slice_total_bits.saturating_sub(used);
    r.set_bits_left(cdiff_bits);
    assert(td@.c1 == td0.c1 && td@.c2 == td0.c2);
    unpack_color_diff_bands(r, td, tp, &quant, sx, sy);
    r.flush_inputb();
    Ok(())
}

/// A slice length is coded in few bits.
proof fn lemma_length_bits(n: int)
    requires
        1 <= n <= 0x8_0000_0000,
    ensures
        params::spec_intlog2(n) <= 35,
        power2::pow2(params::spec_intlog2(n)) <= 0x8_0000_0000,
{
    params::law_intlog2_is_the_ceiling_logarithm(n);
    power2::lemma2_to64_rest();
    assert(n <= power2::pow2(35));
    let m = params::spec_intlog2(n);
    if m < 35 {
        power2::lemma_pow2_strictly_increases(m, 35);
    }
}

/// One component of a high-quality slice: a length byte, and the bands in a
/// block of that many units.
pub open spec fn spec_hq_component(
    i: Input,
    c: Coeffs,
    t: Transform,
    quant: Seq<u64>,
    p: Position,
) -> (Input, Coeffs) {
    let (i1, length) = i.uint_lit(1);
    let (i2, done) = spec_component(
        i1.with_bits_left(8 * (t.slice_size_scaler * length)),
        c,
        quant,
        p,
    );
    (i2.flushed(), done)
}

/// A high-quality slice: the prefix bytes, a byte of quantization index, and
/// the three components.
pub open spec fn spec_hq_slice(i: Input, td: Coefficients, t: Transform, sx: int, sy: int) -> (
    Input,
    Coefficients,
    Result<()>,
) {
    match i.skipped(t.slice_prefix_bytes as nat) {
        (i1, Err(e)) => (i1, td, Err(e)),
        (i1, Ok(_)) => {
            let p = position(t, sx, sy);
            let (i2, qindex) = i1.uint_lit(1);
            let quant = spec_slice_quantizers(qindex, t);
            let (i3, y) = spec_hq_component(i2, td.y, t, quant, p);
            let (i4, c1) = spec_hq_component(i3, td.c1, t, quant, p);
            let (i5, c2) = spec_hq_component(i4, td.c2, t, quant, p);
            (i5, Coefficients { y, c1, c2 }, Ok(()))
        },
    }
}

/// Unpacks one component of a high-quality slice.
fn hq_component(
    r: &mut BitReader,
    store: &mut ComponentCoeffs,
    tp: &TransformParameters,
    quant: &Vec<u64>,
    sx: u64,
    sy: u64,
)
    requires
        old(store)@.shaped(tp.dwt_depth_ho as int, tp.dwt_depth as int),
        quant@.len() == old(store)@.bands.len(),
        tp@.slices_valid(),
        sx < tp.slices_x,
        sy < tp.slices_y,
    ensures
        (final(r)@, final(store)@) == spec_hq_component(
            old(r)@,
            old(store)@,
            tp@,
            quant@,
            position(tp@, sx as int, sy as int),
        ),
        final(store)@.shaped(tp.dwt_depth_ho as int, tp.dwt_depth as int),
        final(store).width == old(store).width,
        final(store).height == old(store).height,
        final(r).source() == old(r).source(),
{
    proof {
        use_type_invariant(&*r);
        r.lemma_inv();
        reading::lemma_nbits_bound(r@, 8);
        power2::lemma2_to64();
    }
    let code: u64 = r.read_uint_lit(1);
    assert(0 <= tp.slice_size_scaler * code <= 0x1_0000 * 0xff) by (nonlinear_arith)
        requires
            0 <= tp.slice_size_scaler <= 0x1_0000,
            0 <= code <= 0xff,
    ;
    let length: u64 = tp.slice_size_scaler * code;
    r.set_bits_left(8 * length);
    unpack_component_bands(r, store, tp, quant, sx, sy);
    r.flush_inputb();
}

/// Unpacks a high-quality slice.
fn hq_slice(
    r: &mut BitReader,
    tp: &TransformParameters,
    td: &mut TransformData,
    sx: u64,
    sy: u64,
) -> (res: Result<()>)
    requires
        old(td)@.shaped(tp@),
        tp@.slices_valid(),
        tp.dwt_depth_ho + tp.dwt_depth < 64,
        sx < tp.slices_x,
        sy < tp.slices_y,
    ensures
        (final(r)@, final(td)@, res) == spec_hq_slice(
            old(r)@,
            old(td)@,
            tp@,
            sx as int,
            sy as int,
        ),
        final(td)@.shaped(tp@),
        final(td)@.y.width == old(td)@.y.width,
        final(td)@.y.height == old(td)@.y.height,
        final(r).source() == old(r).source(),
{
    let ghost td0 = td@;
    r.skip_bytes(tp.slice_prefix_bytes)?;
    proof {
        reading::lemma_nbits_bound(r@, 8);
        power2::lemma2_to64();
    }
    let qindex: u64 = r.read_uint_lit(1);
    let quant: Vec<u64> = slice_quantizers(qindex, tp);
    hq_component(r, &mut td.y, tp, &quant, sx, sy);
    assert(td@.c1 == td0.c1 && td@.c2 == td0.c2);
    hq_component(r, &mut td.c1, tp, &quant, sx, sy);
    assert(td@.c2 == td0.c2);
    hq_component(r, &mut td.c2, tp, &quant, sx, sy);
    Ok(())
}

/// One slice. A slice that begins past the end of the data is not unpacked.
pub open spec fn spec_unpack_slice(
    i: Input,
    td: Coefficients,
    t: Transform,
    sx: int,
    sy: int,
    kind: PictureKind,
) -> (Input, Coefficients, Result<()>) {
    if i.overrun {
        (i, td, Err(Error::UnexpectedEof))
    } else {
        match kind {
            PictureKind::LowDelay => spec_ld_slice(i, td, t, sx, sy),
            PictureKind::HighQuality => spec_hq_slice(i, td, t, sx, sy),
        }
    }
}

/// Unpacks one slice into the coefficient store.
pub fn unpack_slice(
    r: &mut BitReader,
    tp: &TransformParameters,
    td: &mut TransformData,
    sx: u64,
    sy: u64,
    kind: PictureKind,
) -> (res: Result<()>)
    requires
        old(td)@.shaped(tp@),
        tp@.slices_valid(),
        tp.dwt_depth_ho + tp.dwt_depth < 64,
        sx < tp.slices_x,
        sy < tp.slices_y,
    ensures
        (final(r)@, final(td)@, res) == spec_unpack_slice(
            old(r)@,
            old(td)@,
            tp@,
            sx as int,
            sy as int,
            kind,
        ),
        final(td)@.shaped(tp@),
        final(td)@.y.width == old(td)@.y.width,
        final(td)@.y.height == old(td)@.y.height,
        final(td)@.c1.width == old(td)@.c1.width,
        final(td)@.c1.height == old(td)@.c1.height,
        final(td)@.c2.width == old(td)@.c2.width,
        final(td)@.c2.height == old(td)@.c2.height,
        final(r).source() == old(r).source(),
{
    if r.overrun() {
        return Err(Error::UnexpectedEof);
    }
    match kind {
        PictureKind::LowDelay => ld_slice(r, tp, td, sx, sy),
        PictureKind::HighQuality => hq_slice(r, tp, td, sx, sy),
    }
}

proof fn lemma_bands(a: Input, b: Input, bands: Seq<Grid>, quant: Seq<u64>, p: Position, n: nat)
    requires
        a.wf(),
    ensures
        a.moved_on(spec_bands(a, bands, quant, p, n).0),
        a.alike(b, spec_bands(a, bands, quant, p, n), spec_bands(b, bands, quant, p, n)),
    decreases n,
{
    if n > 0 {
        let k = n - 1;
        lemma_bands(a, b, bands, quant, p, k as nat);
        let (a1, done) = spec_bands(a, bands, quant, p, k as nat);
        let (b1, done_b) = spec_bands(b, bands, quant, p, k as nat);
        lemma_sints(a1, b1, p.block(done[k]).area() as nat);
        if b1.wf() {
            lemma_sints(b1, b1, p.block(done_b[k]).area() as nat);
        }
    }
}

proof fn lemma_color_diff_bands(
    a: Input,
    b: Input,
    bands1: Seq<Grid>,
    bands2: Seq<Grid>,
    quant: Seq<u64>,
    p: Position,
    n: nat,
)
    requires
        a.wf(),
    ensures
        ({
            let x = spec_color_diff_bands(a, bands1, bands2, quant, p, n);
            let y = spec_color_diff_bands(b, bands1, bands2, quant, p, n);
            &&& a.moved_on(x.0)
            &&& a.alike(b, (x.0, (x.1, x.2)), (y.0, (y.1, y.2)))
        }),
    decreases n,
{
    if n > 0 {
        let k = n - 1;
        lemma_color_diff_bands(a, b, bands1, bands2, quant, p, k as nat);
        let (a1, done1, done2) = spec_color_diff_bands(a, bands1, bands2, quant, p, k as nat);
        let (b1, done_b, _) = spec_color_diff_bands(b, bands1, bands2, quant, p, k as nat);
        lemma_sints(a1, b1, (2 * p.block(done1[k]).area()) as nat);
        if b1.wf() {
            lemma_sints(b1, b1, (2 * p.block(done_b[k]).area()) as nat);
        }
    }
}

/// The bands of a component in a bounded block of their own.
spec fn block_of_bands(i: Input, bits: int, c: Coeffs, quant: Seq<u64>, p: Position) -> (
    Input,
    Coeffs,
) {
    let (i1, done) = spec_component(i.with_bits_left(bits), c, quant, p);
    (i1.flushed(), done)
}

proof fn lemma_block_of_bands(
    a: Input,
    b: Input,
    bits: int,
    c: Coeffs,
    quant: Seq<u64>,
    p: Position,
)
    requires
        a.wf(),
        0 <= bits <= crate::bitio::u64_max(),
    ensures
        a.moved_on(block_of_bands(a, bits, c, quant, p).0),
        a.alike(
            b,
            block_of_bands(a, bits, c, quant, p),
            block_of_bands(b, bits, c, quant, p),
        ),
{
    let (al, bl) = (a.with_bits_left(bits), b.with_bits_left(bits));
    lemma_bands(al, bl, c.bands, quant, p, c.bands.len());
    let a1 = spec_component(al, c, quant, p).0;
    let b1 = spec_component(bl, c, quant, p).0;
    reading::lemma_flushed(a1, b1);
    if b.wf() {
        reading::lemma_flushed(b1, b1);
    }
}

/// The interleaved colour-difference bands in a bounded block of their own.
spec fn block_of_color_diff(
    i: Input,
    bits: int,
    td: Coefficients,
    quant: Seq<u64>,
    p: Position,
) -> (Input, (Seq<Grid>, Seq<Grid>)) {
    let (i1, bands1, bands2) = spec_color_diff_bands(
        i.with_bits_left(bits),
        td.c1.bands,
        td.c2.bands,
        quant,
        p,
        td.c1.bands.len(),
    );
    (i1.flushed(), (bands1, bands2))
}

proof fn lemma_block_of_color_diff(
    a: Input,
    b: Input,
    bits: int,
    td: Coefficients,
    quant: Seq<u64>,
    p: Position,
)
    requires
        a.wf(),
        0 <= bits <= crate::bitio::u64_max(),
    ensures
        a.moved_on(block_of_color_diff(a, bits, td, quant, p).0),
        a.alike(
            b,
            block_of_color_diff(a, bits, td, quant, p),
            block_of_color_diff(b, bits, td, quant, p),
        ),
{
    let (al, bl) = (a.with_bits_left(bits), b.with_bits_left(bits));
    let n = td.c1.bands.len();
    lemma_color_diff_bands(al, bl, td.c1.bands, td.c2.bands, quant, p, n);
    let a1 = spec_color_diff_bands(al, td.c1.bands, td.c2.bands, quant, p, n).0;
    let b1 = spec_color_diff_bands(bl, td.c1.bands, td.c2.bands, quant, p, n).0;
    reading::lemma_flushed(a1, b1);
    if b.wf() {
        reading::lemma_flushed(b1, b1);
    }
}

/// What a low-delay slice holds behind the length of its luma part.
spec fn ld_blocks(
    i: Input,
    td: Coefficients,
    quant: Seq<u64>,
    p: Position,
    y_length: int,
    left_over: int,
) -> (Input, Coefficients) {
    let (i1, y) = block_of_bands(i, y_length, td.y, quant, p);
    let (i2, (bands1, bands2)) = block_of_color_diff(
        i1,
        if left_over > 0 {
            left_over
        } else {
            0
        },
        td,
        quant,
        p,
    );
    (
        i2,
        Coefficients {
            y,
            c1: Coeffs { bands: bands1, ..td.c1 },
            c2: Coeffs { bands: bands2, ..td.c2 },
        },
    )
}

proof fn lemma_ld_blocks(
    a: Input,
    b: Input,
    td: Coefficients,
    quant: Seq<u64>,
    p: Position,
    y_length: int,
    left_over: int,
)
    requires
        a.wf(),
        0 <= y_length <= crate::bitio::u64_max(),
        left_over <= crate::bitio::u64_max(),
    ensures
        a.moved_on(ld_blocks(a, td, quant, p, y_length, left_over).0),
        a.alike(
            b,
            ld_blocks(a, td, quant, p, y_length, left_over),
            ld_blocks(b, td, quant, p, y_length, left_over),
        ),
{
    lemma_block_of_bands(a, b, y_length, td.y, quant, p);
    let a1 = block_of_bands(a, y_length, td.y, quant, p).0;
    let b1 = block_of_bands(b, y_length, td.y, quant, p).0;
    let bits = if left_over > 0 {
        left_over
    } else {
        0
    };
    lemma_block_of_color_diff(a1, b1, bits, td, quant, p);
}

proof fn lemma_ld_slice(a: Input, b: Input, td: Coefficients, t: Transform, sx: int, sy: int)
    requires
        a.wf(),
        t.slices_valid(),
        0 <= sx < t.slices_x,
        0 <= sy < t.slices_y,
    ensures
        ({
            let x = spec_ld_slice(a, td, t, sx, sy);
            let y = spec_ld_slice(b, td, t, sx, sy);
            &&& a.moved_on(x.0)
            &&& x.2 is Err ==> x.0 == a
            &&& a.alike(b, (x.0, (x.1, x.2)), (y.0, (y.1, y.2)))
        }),
{
    lemma_slice_number(t, sx, sy);
    let n = slice_number(t, sx, sy);
    lemma_slice_bytes(t, n);
    let total_bits = 8 * spec_slice_bytes(t, n);
    if total_bits >= 8 {
        let p = position(t, sx, sy);
        let length_bits = params::spec_intlog2(total_bits - 7);
        lemma_length_bits(total_bits - 7);
        reading::lemma_nbits(a, b, 7);
        let ((a1, a_index), (b1, b_index)) = (a.nbits(7), b.nbits(7));
        reading::lemma_nbits(a1, b1, length_bits);
        let ((a2, a_length), (b2, b_length)) = (a1.nbits(length_bits), b1.nbits(length_bits));
        reading::lemma_nbits_bound(a1, length_bits);
        lemma_ld_blocks(
            a2,
            b2,
            td,
            spec_slice_quantizers(a_index, t),
            p,
            a_length,
            total_bits - (7 + length_bits + a_length),
        );
        if b.wf() {
            reading::lemma_nbits_bound(b1, length_bits);
            lemma_ld_blocks(
                b2,
                b2,
                td,
                spec_slice_quantizers(b_index, t),
                p,
                b_length,
                total_bits - (7 + length_bits + b_length),
            );
        }
    }
}

proof fn lemma_hq_component(
    a: Input,
    b: Input,
    c: Coeffs,
    t: Transform,
    quant: Seq<u64>,
    p: Position,
)
    requires
        a.wf(),
        t.slices_valid(),
    ensures
        a.moved_on(spec_hq_component(a, c, t, quant, p).0),
        a.alike(b, spec_hq_component(a, c, t, quant, p), spec_hq_component(b, c, t, quant, p)),
{
    reading::lemma_nbits(a, b, 8);
    let ((a1, a_length), (b1, b_length)) = (a.uint_lit(1), b.uint_lit(1));
    lemma_component_bits(a, t);
    lemma_block_of_bands(a1, b1, 8 * (t.slice_size_scaler * a_length), c, quant, p);
    if b.wf() {
        lemma_component_bits(b, t);
        lemma_block_of_bands(b1, b1, 8 * (t.slice_size_scaler * b_length), c, quant, p);
    }
}

/// The length of a component is not out of the ordinary.
proof fn lemma_component_bits(a: Input, t: Transform)
    requires
        a.wf(),
        t.slices_valid(),
    ensures
        0 <= 8 * (t.slice_size_scaler * a.uint_lit(1).1) <= crate::bitio::u64_max(),
{
    reading::lemma_nbits_bound(a, 8);
    power2::lemma2_to64();
    let length = a.uint_lit(1).1;
    assert(0 <= t.slice_size_scaler * length <= 0x1_0000 * 0xff) by (nonlinear_arith)
        requires
            0 <= t.slice_size_scaler <= 0x1_0000,
            0 <= length <= 0xff,
    ;
}

/// The three components of a high-quality slice.
spec fn hq_components(i: Input, td: Coefficients, t: Transform, quant: Seq<u64>, p: Position) -> (
    Input,
    Coefficients,
) {
    let (i1, y) = spec_hq_component(i, td.y, t, quant, p);
    let (i2, c1) = spec_hq_component(i1, td.c1, t, quant, p);
    let (i3, c2) = spec_hq_component(i2, td.c2, t, quant, p);
    (i3, Coefficients { y, c1, c2 })
}

proof fn lemma_hq_components(
    a: Input,
    b: Input,
    td: Coefficients,
    t: Transform,
    quant: Seq<u64>,
    p: Position,
)
    requires
        a.wf(),
        t.slices_valid(),
    ensures
        a.moved_on(hq_components(a, td, t, quant, p).0),
        a.alike(b, hq_components(a, td, t, quant, p), hq_components(b, td, t, quant, p)),
{
    lemma_hq_component(a, b, td.y, t, quant, p);
    let a1 = spec_hq_component(a, td.y, t, quant, p).0;
    let b1 = spec_hq_component(b, td.y, t, quant, p).0;
    lemma_hq_component(a1, b1, td.c1, t, quant, p);
    let a2 = spec_hq_component(a1, td.c1, t, quant, p).0;
    let b2 = spec_hq_component(b1, td.c1, t, quant, p).0;
    lemma_hq_component(a2, b2, td.c2, t, quant, p);
}

proof fn lemma_hq_slice(a: Input, b: Input, td: Coefficients, t: Transform, sx: int, sy: int)
    requires
        a.wf(),
        !a.overrun,
        t.slices_valid(),
    ensures
        ({
            let x = spec_hq_slice(a, td, t, sx, sy);
            let y = spec_hq_slice(b, td, t, sx, sy);
            &&& a.moved_on(x.0)
            &&& x.2 is Err ==> x.0.overrun && x.2->Err_0 == Error::UnexpectedEof && x.1 == td
            &&& a.alike(b, (x.0, (x.1, x.2)), (y.0, (y.1, y.2)))
        }),
{
    let prefix = t.slice_prefix_bytes as nat;
    let p = position(t, sx, sy);
    reading::lemma_skipped(a, b, prefix);
    let (a1, b1) = (a.skipped(prefix).0, b.skipped(prefix).0);
    reading::lemma_nbits(a1, b1, 8);
    let ((a2, a_index), (b2, b_index)) = (a1.uint_lit(1), b1.uint_lit(1));
    lemma_hq_components(a2, b2, td, t, spec_slice_quantizers(a_index, t), p);
    if b.wf() {
        lemma_hq_components(b2, b2, td, t, spec_slice_quantizers(b_index, t), p);
    }
}

/// A slice of truncated data: what is unpacked is the same, or the reader has
/// run past the end. A slice that fails leaves the store alone.
pub proof fn lemma_unpack_slice(
    a: Input,
    b: Input,
    td: Coefficients,
    t: Transform,
    sx: int,
    sy: int,
    kind: PictureKind,
)
    requires
        a.wf(),
        t.slices_valid(),
        0 <= sx < t.slices_x,
        0 <= sy < t.slices_y,
    ensures
        ({
            let x = spec_unpack_slice(a, td, t, sx, sy, kind);
            let y = spec_unpack_slice(b, td, t, sx, sy, kind);
            &&& a.moved_on(x.0)
            &&& x.2 is Err ==> x.1 == td
            &&& x.2 is Err && x.0.overrun ==> x.2->Err_0 == Error::UnexpectedEof
            &&& a.alike(b, (x.0, (x.1, x.2)), (y.0, (y.1, y.2)))
        }),
{
    if !a.overrun {
        lemma_ld_slice(a, b, td, t, sx, sy);
        lemma_hq_slice(a, b, td, t, sx, sy);
    }
    if b.wf() && !b.overrun {
        lemma_ld_slice(b, b, td, t, sx, sy);
        lemma_hq_slice(b, b, td, t, sx, sy);
    }
}

/// Slices `from` to `to`, in raster order: what is left of the input, the
/// store, the number of the slice that was reached, and whether it failed.
pub open spec fn spec_unpack_slices(
    i: Input,
    td: Coefficients,
    t: Transform,
    kind: PictureKind,
    from: int,
    to: int,
) -> (Input, Coefficients, int, Result<()>)
    decreases to - from,
{
    if from >= to {
        (i, td, from, Ok(()))
    } else {
        match spec_unpack_slice(
            i,
            td,
            t,
            from % (t.slices_x as int),
            from / (t.slices_x as int),
            kind,
        ) {
            (i1, td1, Err(e)) => (i1, td1, from, Err(e)),
            (i1, td1, Ok(_)) => spec_unpack_slices(i1, td1, t, kind, from + 1, to),
        }
    }
}

/// Slice numbers are row and column.
proof fn lemma_slice_coordinates(t: Transform, n: int)
    requires
        t.slices_x >= 1,
        0 <= n < t.slices_x * t.slices_y,
    ensures
        0 <= n % (t.slices_x as int) < t.slices_x,
        0 <= n / (t.slices_x as int) < t.slices_y,
{
    grid::lemma_row_and_column(t.slices_x as int, t.slices_y as int, n);
}

/// Slices move on.
proof fn lemma_unpack_slices_moves(
    a: Input,
    td: Coefficients,
    t: Transform,
    kind: PictureKind,
    from: int,
    to: int,
)
    requires
        a.wf(),
        t.slices_valid(),
        0 <= from,
        to <= t.slices_x * t.slices_y,
    ensures
        a.moved_on(spec_unpack_slices(a, td, t, kind, from, to).0),
    decreases to - from,
{
    if from < to {
        lemma_slice_coordinates(t, from);
        let sx = from % (t.slices_x as int);
        let sy = from / (t.slices_x as int);
        lemma_unpack_slice(a, a, td, t, sx, sy, kind);
        let x = spec_unpack_slice(a, td, t, sx, sy, kind);
        if x.2 is Ok {
            lemma_unpack_slices_moves(x.0, x.1, t, kind, from + 1, to);
        }
    }
}

/// Slices of truncated data.
pub proof fn lemma_unpack_slices(
    a: Input,
    b: Input,
    td: Coefficients,
    t: Transform,
    kind: PictureKind,
    from: int,
    to: int,
)
    requires
        a.wf(),
        t.slices_valid(),
        0 <= from,
        to <= t.slices_x * t.slices_y,
    ensures
        ({
            let x = spec_unpack_slices(a, td, t, kind, from, to);
            let y = spec_unpack_slices(b, td, t, kind, from, to);
            &&& a.moved_on(x.0)
            &&& x.3 is Ok && from <= to ==> x.2 == to
            &&& from <= to ==> from <= x.2 <= to
            &&& x.3 is Err && x.0.overrun ==> x.3->Err_0 == Error::UnexpectedEof
            &&& a.alike(b, (x.0, (x.1, x.2, x.3)), (y.0, (y.1, y.2, y.3)))
        }),
    decreases to - from,
{
    if from < to {
        lemma_slice_coordinates(t, from);
        let sx = from % (t.slices_x as int);
        let sy = from / (t.slices_x as int);
        lemma_unpack_slice(a, b, td, t, sx, sy, kind);
        let x = spec_unpack_slice(a, td, t, sx, sy, kind);
        let y = spec_unpack_slice(b, td, t, sx, sy, kind);
        if x.2 is Ok {
            lemma_unpack_slices(x.0, y.0, x.1, t, kind, from + 1, to);
        }
        if b.wf() && y.2 is Ok {
            lemma_unpack_slices_moves(y.0, y.1, t, kind, from + 1, to);
        }
    }
}

/// Unpacking slices in two goes, the second taking up where the first stopped,
/// is unpacking them in one.
pub proof fn law_slices_unpack_in_pieces(
    i: Input,
    td: Coefficients,
    t: Transform,
    kind: PictureKind,
    from: int,
    mid: int,
    to: int,
)
    requires
        from <= mid <= to,
    ensures
        ({
            let first = spec_unpack_slices(i, td, t, kind, from, mid);
            spec_unpack_slices(i, td, t, kind, from, to) == if first.3 is Ok {
                spec_unpack_slices(first.0, first.1, t, kind, mid, to)
            } else {
                first
            }
        }),
    decreases mid - from,
{
    if from < mid {
        let x = spec_unpack_slice(
            i,
            td,
            t,
            from % (t.slices_x as int),
            from / (t.slices_x as int),
            kind,
        );
        if x.2 is Ok {
            law_slices_unpack_in_pieces(x.0, x.1, t, kind, from + 1, mid, to);
        }
    }
}

/// Unpacks slices `from` to `to`, in raster order, counting them in `reached`.
pub(crate) fn unpack_slices(
    r: &mut BitReader,
    tp: &TransformParameters,
    td: &mut TransformData,
    kind: PictureKind,
    from: u64,
    to: u64,
    reached: &mut u64,
) -> (res: Result<()>)
    requires
        old(td)@.shaped(tp@),
        tp@.slices_valid(),
        tp.dwt_depth_ho + tp.dwt_depth < 64,
        from <= to <= tp.slices_x * tp.slices_y,
    ensures
        (final(r)@, final(td)@, *final(reached) as int, res) == spec_unpack_slices(
            old(r)@,
            old(td)@,
            tp@,
            kind,
            from as int,
            to as int,
        ),
        final(td)@.shaped(tp@),
        final(td)@.y.width == old(td)@.y.width,
        final(td)@.y.height == old(td)@.y.height,
        final(td)@.c1.width == old(td)@.c1.width,
        final(td)@.c1.height == old(td)@.c1.height,
        final(td)@.c2.width == old(td)@.c2.width,
        final(td)@.c2.height == old(td)@.c2.height,
        final(r).source() == old(r).source(),
{
    *reached = from;
    let mut n: u64 = from;
    while n < to
        invariant
            r.source() == old(r).source(),
            from <= n <= to,
            *reached == n,
            to <= tp.slices_x * tp.slices_y,
            tp@.slices_valid(),
            tp.dwt_depth_ho + tp.dwt_depth < 64,
            td@.shaped(tp@),
            td@.y.width == old(td)@.y.width,
            td@.y.height == old(td)@.y.height,
            td@.c1.width == old(td)@.c1.width,
            td@.c1.height == old(td)@.c1.height,
            td@.c2.width == old(td)@.c2.width,
            td@.c2.height == old(td)@.c2.height,
            spec_unpack_slices(old(r)@, old(td)@, tp@, kind, from as int, to as int)
                == spec_unpack_slices(r@, td@, tp@, kind, n as int, to as int),
        decreases to - n,
    {
        proof {
            lemma_slice_coordinates(tp@, n as int);
        }
        let sx: u64 = n % tp.slices_x;
        let sy: u64 = n / tp.slices_x;
        match unpack_slice(r, tp, td, sx, sy, kind) {
            Ok(_) => {},
            Err(e) => {
                return Err(e);
            },
        }
        n = n + 1;
        *reached = n;
    }
    Ok(())
}

/// A band keeps its size, and stays full.
proof fn lemma_band_shape(i: Input, g: Grid, p: Position, q: u64)
    requires
        g.wf(),
    ensures
        spec_band(i, g, p, q).1.wf(),
        spec_band(i, g, p, q).1.width == g.width,
        spec_band(i, g, p, q).1.height == g.height,
{
    let block = p.block(g);
    let vals = sints(i, block.area() as nat).1;
    let value = |k: int| quant::spec_inverse_quant(vals[k] as int, q as nat) as i64;
    lemma_painted_shape(g, block, value);
}

proof fn lemma_painted_shape(g: Grid, block: Block, value: spec_fn(int) -> i64)
    requires
        g.wf(),
    ensures
        painted(g, block, value).wf(),
{
    grid::lemma_tabulate(
        g.width,
        g.height,
        |y: int, x: int|
            if block.contains(y, x) {
                value(block.rank(y, x))
            } else {
                g.at(y, x)
            },
    );
}

/// Whether two stores have bands of the same sizes, all of them full.
pub open spec fn same_shape(a: Seq<Grid>, b: Seq<Grid>) -> bool {
    &&& a.len() == b.len()
    &&& forall|k: int|
        0 <= k < a.len() ==> (#[trigger] b[k]).wf() && b[k].width == a[k].width && b[k].height
            == a[k].height
}

proof fn lemma_bands_shape(i: Input, bands: Seq<Grid>, quant: Seq<u64>, p: Position, n: nat)
    requires
        n <= bands.len(),
        forall|k: int| 0 <= k < bands.len() ==> (#[trigger] bands[k]).wf(),
    ensures
        same_shape(bands, spec_bands(i, bands, quant, p, n).1),
    decreases n,
{
    if n > 0 {
        let k = n - 1;
        lemma_bands_shape(i, bands, quant, p, k as nat);
        let (i1, done) = spec_bands(i, bands, quant, p, k as nat);
        assert(done[k].wf());
        lemma_band_shape(i1, done[k], p, quant[k]);
    }
}

proof fn lemma_color_diff_bands_shape(
    i: Input,
    bands1: Seq<Grid>,
    bands2: Seq<Grid>,
    quant: Seq<u64>,
    p: Position,
    n: nat,
)
    requires
        n <= bands1.len(),
        bands1.len() == bands2.len(),
        forall|k: int| 0 <= k < bands1.len() ==> (#[trigger] bands1[k]).wf(),
        forall|k: int| 0 <= k < bands2.len() ==> (#[trigger] bands2[k]).wf(),
    ensures
        same_shape(bands1, spec_color_diff_bands(i, bands1, bands2, quant, p, n).1),
        same_shape(bands2, spec_color_diff_bands(i, bands1, bands2, quant, p, n).2),
    decreases n,
{
    if n > 0 {
        let k = n - 1;
        lemma_color_diff_bands_shape(i, bands1, bands2, quant, p, k as nat);
        let (i1, done1, done2) = spec_color_diff_bands(i, bands1, bands2, quant, p, k as nat);
        assert(done1[k].wf());
        assert(done2[k].wf());
        let q = quant[k];
        let block = p.block(done1[k]);
        let vals = sints(i1, (2 * block.area()) as nat).1;
        lemma_painted_shape(
            done1[k],
            block,
            |j: int| quant::spec_inverse_quant(vals[2 * j] as int, q as nat) as i64,
        );
        lemma_painted_shape(
            done2[k],
            block,
            |j: int| quant::spec_inverse_quant(vals[2 * j + 1] as int, q as nat) as i64,
        );
    }
}

/// A store whose bands keep their sizes keeps its shape.
proof fn lemma_shape_kept(c: Coeffs, bands: Seq<Grid>, ho: int, depth: int)
    requires
        c.shaped(ho, depth),
        same_shape(c.bands, bands),
    ensures
        (Coeffs { bands, ..c }).shaped(ho, depth),
{
    let d = Coeffs { bands, ..c };
    assert forall|k: int| 0 <= k < d.bands.len() implies (#[trigger] d.bands[k]).wf()
        && d.bands[k].width == subband::spec_subband_width(
        d.width as int,
        ho,
        depth,
        subband::band_level(ho, k),
    ) && d.bands[k].height == subband::spec_subband_height(
        d.height as int,
        ho,
        depth,
        subband::band_level(ho, k),
    ) by {
        assert(c.bands[k].wf());
        assert(bands[k].wf());
    }
}

proof fn lemma_component_shape(
    i: Input,
    c: Coeffs,
    quant: Seq<u64>,
    p: Position,
    ho: int,
    depth: int,
)
    requires
        c.shaped(ho, depth),
    ensures
        spec_component(i, c, quant, p).1.shaped(ho, depth),
{
    assert forall|k: int| 0 <= k < c.bands.len() implies (#[trigger] c.bands[k]).wf() by {}
    lemma_bands_shape(i, c.bands, quant, p, c.bands.len());
    lemma_shape_kept(c, spec_bands(i, c.bands, quant, p, c.bands.len()).1, ho, depth);
}

/// A slice keeps the shape and the size of the store.
proof fn lemma_unpack_slice_shape(
    i: Input,
    td: Coefficients,
    t: Transform,
    sx: int,
    sy: int,
    kind: PictureKind,
)
    requires
        td.shaped(t),
    ensures
        spec_unpack_slice(i, td, t, sx, sy, kind).1.shaped(t),
        forall|cp: params::CodingParameters|
            #[trigger] td.sized(cp) ==> spec_unpack_slice(i, td, t, sx, sy, kind).1.sized(cp),
{
    let (ho, depth) = (t.dwt_depth_ho as int, t.dwt_depth as int);
    let p = position(t, sx, sy);
    if !i.overrun {
        match kind {
            PictureKind::LowDelay => {
                let total_bits = 8 * spec_slice_bytes(t, slice_number(t, sx, sy));
                if total_bits >= 8 {
                    let (i1, qindex) = i.nbits(7);
                    let quant = spec_slice_quantizers(qindex, t);
                    let length_bits = params::spec_intlog2(total_bits - 7);
                    let (i2, y_length) = i1.nbits(length_bits);
                    let i2l = i2.with_bits_left(y_length);
                    lemma_component_shape(i2l, td.y, quant, p, ho, depth);
                    let i3 = spec_component(i2l, td.y, quant, p).0;
                    let left_over = total_bits - (7 + length_bits + y_length);
                    let i3l = i3.flushed().with_bits_left(
                        if left_over > 0 {
                            left_over
                        } else {
                            0
                        },
                    );
                    let (b1, b2) = (td.c1.bands, td.c2.bands);
                    assert forall|k: int| 0 <= k < b1.len() implies (#[trigger] b1[k]).wf() by {}
                    assert forall|k: int| 0 <= k < b2.len() implies (#[trigger] b2[k]).wf() by {}
                    lemma_color_diff_bands_shape(i3l, b1, b2, quant, p, b1.len());
                    let x = spec_color_diff_bands(i3l, b1, b2, quant, p, b1.len());
                    lemma_shape_kept(td.c1, x.1, ho, depth);
                    lemma_shape_kept(td.c2, x.2, ho, depth);
                }
            },
            PictureKind::HighQuality => {
                let i1 = i.skipped(t.slice_prefix_bytes as nat).0;
                let (i2, qindex) = i1.uint_lit(1);
                let quant = spec_slice_quantizers(qindex, t);
                lemma_hq_component_shape(i2, td.y, t, quant, p);
                let i3 = spec_hq_component(i2, td.y, t, quant, p).0;
                lemma_hq_component_shape(i3, td.c1, t, quant, p);
                let i4 = spec_hq_component(i3, td.c1, t, quant, p).0;
                lemma_hq_component_shape(i4, td.c2, t, quant, p);
            },
        }
    }
}

proof fn lemma_hq_component_shape(
    i: Input,
    c: Coeffs,
    t: Transform,
    quant: Seq<u64>,
    p: Position,
)
    requires
        c.shaped(t.dwt_depth_ho as int, t.dwt_depth as int),
    ensures
        spec_hq_component(i, c, t, quant, p).1.shaped(t.dwt_depth_ho as int, t.dwt_depth as int),
{
    let (i1, length) = i.uint_lit(1);
    lemma_component_shape(
        i1.with_bits_left(8 * (t.slice_size_scaler * length)),
        c,
        quant,
        p,
        t.dwt_depth_ho as int,
        t.dwt_depth as int,
    );
}

/// Slices keep the shape and the size of the store.
pub proof fn lemma_unpack_slices_shape(
    i: Input,
    td: Coefficients,
    t: Transform,
    kind: PictureKind,
    from: int,
    to: int,
)
    requires
        td.shaped(t),
    ensures
        spec_unpack_slices(i, td, t, kind, from, to).1.shaped(t),
        forall|cp: params::CodingParameters|
            #[trigger] td.sized(cp) ==> spec_unpack_slices(i, td, t, kind, from, to).1.sized(cp),
    decreases to - from,
{
    if from < to {
        let sx = from % (t.slices_x as int);
        let sy = from / (t.slices_x as int);
        lemma_unpack_slice_shape(i, td, t, sx, sy, kind);
        let x = spec_unpack_slice(i, td, t, sx, sy, kind);
        if x.2 is Ok {
            lemma_unpack_slices_shape(x.0, x.1, t, kind, from + 1, to);
            assert forall|cp: params::CodingParameters| #[trigger] td.sized(
                cp,
            ) implies spec_unpack_slices(i, td, t, kind, from, to).1.sized(cp) by {
                assert(x.1.sized(cp));
            }
        }
    }
}

} // verus!
