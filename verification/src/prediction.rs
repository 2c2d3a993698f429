//! Spatial prediction of the DC bands.
//!
//! The sums wrap: hostile coefficient runs can grow without limit, and the
//! final clip bounds what comes out.
use crate::grid;
use crate::grid::Grid;
use crate::num;
use crate::subband::{Coefficients, Coeffs, TransformData};
use crate::transform::Transform;
use crate::wavelet::Plane;
use vstd::prelude::*;

verus! {

/// `a / b`, rounded towards minus infinity.
pub fn floor_div(a: i64, b: i64) -> (q: i64)
    requires
        b > 0,
    ensures
        q == a as int / b as int,
{
    if a >= 0 {
        a / b
    } else {
        let up: i128 = -(a as i128) + (b as i128 - 1);
        let q: i128 = up / (b as i128);
        proof {
            lemma_negated_ceiling(a as int, b as int, up as int, q as int);
        }
        (-q) as i64
    }
}

proof fn lemma_negated_ceiling(a: int, b: int, up: int, q: int)
    requires
        a < 0,
        b > 0,
        up == -a + (b - 1),
        q == up / b,
    ensures
        -q == a / b,
        0 <= q <= -a,
{
    vstd::arithmetic::div_mod::lemma_fundamental_div_mod(up, b);
    let r = up % b;
    assert(a == (-q) * b + (b - 1 - r)) by (nonlinear_arith)
        requires
            up == b * q + r,
            up == -a + (b - 1),
    ;
    vstd::arithmetic::div_mod::lemma_fundamental_div_mod_converse(a, b, -q, b - 1 - r);
    assert(0 <= q <= -a) by (nonlinear_arith)
        requires
            up == b * q + r,
            up == -a + (b - 1),
            0 <= r < b,
            a < 0,
            b > 0,
    ;
}

/// The unbiased integer mean of three values, rounded towards minus infinity.
pub open spec fn spec_mean3(a: i64, b: i64, c: i64) -> i64 {
    (num::wrap(a + b + c + 1) / 3) as i64
}

/// The unbiased integer mean of three values.
pub fn mean3(a: i64, b: i64, c: i64) -> (m: i64)
    ensures
        m == spec_mean3(a, b, c),
        m == num::wrap(a + b + c + 1) / 3,
{
    let ab: i64 = a.wrapping_add(b);
    let abc: i64 = ab.wrapping_add(c);
    let sum: i64 = abc.wrapping_add(1);
    proof {
        num::lemma_wrapping_ops(a, b);
        num::lemma_wrapping_ops(ab, c);
        num::lemma_wrapping_ops(abc, 1);
        num::lemma_wrap_add(a + b, c as int);
        num::lemma_wrap_add(a + b + c, 1);
    }
    floor_div(sum, 3)
}

/// The value in row `y`, column `x` after prediction: the coded value plus what
/// the values to the left, above, and to the left above predict; on the first
/// row and column the one neighbour there is; nothing in the corner.
pub open spec fn predicted(g: Grid, y: int, x: int) -> i64
    decreases y + x,
{
    if y < 0 || x < 0 {
        0
    } else {
        let prediction: i64 = if x > 0 && y > 0 {
            spec_mean3(predicted(g, y, x - 1), predicted(g, y - 1, x - 1), predicted(g, y - 1, x))
        } else if x > 0 {
            predicted(g, y, x - 1)
        } else if y > 0 {
            predicted(g, y - 1, x)
        } else {
            0
        };
        num::wrap(g.at(y, x) + prediction) as i64
    }
}

/// A band after prediction.
pub open spec fn spec_dc_prediction(g: Grid) -> Grid {
    Grid::tabulate(g.width, g.height, |y: int, x: int| predicted(g, y, x))
}

/// What the values to the left, above, and to the left above predict; see
/// [`predicted`].
pub open spec fn prediction_at(g: Grid, y: int, x: int) -> i64 {
    if x > 0 && y > 0 {
        spec_mean3(g.at(y, x - 1), g.at(y - 1, x - 1), g.at(y - 1, x))
    } else if x > 0 {
        g.at(y, x - 1)
    } else if y > 0 {
        g.at(y - 1, x)
    } else {
        0
    }
}

/// The band that an encoder writes: each value less what its neighbours predict.
pub open spec fn residuals(g: Grid) -> Grid {
    Grid::tabulate(
        g.width,
        g.height,
        |y: int, x: int| num::wrap(g.at(y, x) - prediction_at(g, y, x)) as i64,
    )
}

proof fn lemma_residual_predicted(g: Grid, y: int, x: int)
    requires
        g.wf(),
        0 <= y < g.height,
        0 <= x < g.width,
    ensures
        predicted(residuals(g), y, x) == g.at(y, x),
    decreases y + x,
{
    grid::lemma_tabulate(
        g.width,
        g.height,
        |y: int, x: int| num::wrap(g.at(y, x) - prediction_at(g, y, x)) as i64,
    );
    let r = residuals(g);
    if x > 0 {
        lemma_residual_predicted(g, y, x - 1);
    }
    if y > 0 {
        lemma_residual_predicted(g, y - 1, x);
    }
    if x > 0 && y > 0 {
        lemma_residual_predicted(g, y - 1, x - 1);
    }
    let (v, p) = (g.at(y, x) as int, prediction_at(g, y, x) as int);
    assert(r.at(y, x) == num::wrap(v - p) as i64);
    num::lemma_wrap(v - p);
    num::lemma_wrap_add(v - p, p);
    num::lemma_wrap(v);
}

/// Prediction is lossless: it recovers every band from its residuals, also where
/// the arithmetic wraps.
pub proof fn law_prediction_is_lossless(g: Grid)
    requires
        g.wf(),
    ensures
        spec_dc_prediction(residuals(g)) == g,
{
    let r = residuals(g);
    grid::lemma_tabulate(
        g.width,
        g.height,
        |y: int, x: int| num::wrap(g.at(y, x) - prediction_at(g, y, x)) as i64,
    );
    grid::lemma_tabulate(g.width, g.height, |y: int, x: int| predicted(r, y, x));
    let back = spec_dc_prediction(r);
    assert forall|y: int, x: int| 0 <= y < g.height && 0 <= x < g.width implies #[trigger] back.at(
        y,
        x,
    ) == g.at(y, x) by {
        lemma_residual_predicted(g, y, x);
    }
    grid::lemma_grid_equal(back, g);
}

/// Whether `v` leaves room for sums of three.
pub open spec fn summable(v: i64) -> bool {
    -0x1000_0000_0000_0000 <= v <= 0x1000_0000_0000_0000
}

/// What prediction adds to the coded values: nothing in the corner, the neighbour
/// before on the first row and column, and everywhere else the integer nearest to
/// the mean of the neighbours to the left, above, and to the left above, all of
/// them as they came out.
pub proof fn law_prediction_adds_the_mean(g: Grid, y: int, x: int)
    requires
        g.wf(),
        forall|y: int, x: int|
            0 <= y < g.height && 0 <= x < g.width ==> summable(#[trigger] g.at(y, x)) && summable(
                spec_dc_prediction(g).at(y, x),
            ),
        0 <= y < g.height,
        0 <= x < g.width,
    ensures
        ({
            let out = spec_dc_prediction(g);
            let added = out.at(y, x) - g.at(y, x);
            &&& out.wf() && out.width == g.width && out.height == g.height
            &&& y == 0 && x == 0 ==> added == 0
            &&& y == 0 && x > 0 ==> added == out.at(0, x - 1)
            &&& y > 0 && x == 0 ==> added == out.at(y - 1, 0)
            &&& y > 0 && x > 0 ==> -1 <= 3 * added - (out.at(y, x - 1) + out.at(y - 1, x) + out.at(
                y - 1,
                x - 1,
            )) <= 1
        }),
{
    grid::lemma_tabulate(g.width, g.height, |y: int, x: int| predicted(g, y, x));
    let out = spec_dc_prediction(g);
    assert(summable(g.at(y, x)) && summable(out.at(y, x)));
    if x > 0 {
        assert(summable(g.at(y, x - 1)));
        assert(out.at(y, x - 1) == predicted(g, y, x - 1));
    }
    if y > 0 {
        assert(summable(g.at(y - 1, x)));
        assert(out.at(y - 1, x) == predicted(g, y - 1, x));
    }
    let p: int = if x > 0 && y > 0 {
        assert(summable(g.at(y - 1, x - 1)));
        assert(out.at(y - 1, x - 1) == predicted(g, y - 1, x - 1));
        let sum = out.at(y, x - 1) + out.at(y - 1, x - 1) + out.at(y - 1, x) + 1;
        num::lemma_wrap(sum);
        sum / 3
    } else if x > 0 {
        out.at(y, x - 1) as int
    } else if y > 0 {
        out.at(y - 1, x) as int
    } else {
        0
    };
    assert(out.at(y, x) == num::wrap(g.at(y, x) + p));
    num::lemma_wrap(g.at(y, x) + p);
}

/// Predicts a DC band in place.
fn dc_prediction(band: &mut Plane)
    requires
        old(band)@.wf(),
    ensures
        final(band)@ == spec_dc_prediction(old(band)@),
        final(band)@.wf(),
        final(band)@.width == old(band)@.width,
        final(band)@.height == old(band)@.height,
{
    let ghost g0 = band@;
    let ghost want = spec_dc_prediction(g0);
    proof {
        grid::lemma_tabulate(g0.width, g0.height, |y: int, x: int| predicted(g0, y, x));
    }
    let height: usize = band.height;
    let width: usize = band.width;
    let mut y: usize = 0;
    while y < height
        invariant
            y <= height,
            g0.wf(),
            width == g0.width,
            height == g0.height,
            band@.wf(),
            band@.width == g0.width,
            band@.height == g0.height,
            forall|yy: int, xx: int|
                0 <= yy < g0.height && 0 <= xx < g0.width ==> #[trigger] band@.at(yy, xx) == if yy
                    < y {
                    predicted(g0, yy, xx)
                } else {
                    g0.at(yy, xx)
                },
        decreases height - y,
    {
        let mut x: usize = 0;
        while x < width
            invariant
                y < height,
                x <= width,
                g0.wf(),
                width == g0.width,
                height == g0.height,
                band@.wf(),
                band@.width == g0.width,
                band@.height == g0.height,
                forall|yy: int, xx: int|
                    0 <= yy < g0.height && 0 <= xx < g0.width ==> #[trigger] band@.at(yy, xx) == if yy
                        < y || (yy == y && xx < x) {
                        predicted(g0, yy, xx)
                    } else {
                        g0.at(yy, xx)
                    },
            decreases width - x,
        {
            proof {
                grid::lemma_place(g0.width, g0.height, y as int, x as int);
                if x > 0 {
                    grid::lemma_place(g0.width, g0.height, y as int, x - 1);
                }
                if y > 0 {
                    grid::lemma_place(g0.width, g0.height, y - 1, x as int);
                }
                if x > 0 && y > 0 {
                    grid::lemma_place(g0.width, g0.height, y - 1, x - 1);
                }
            }
            let prediction: i64 = if x > 0 && y > 0 {
                let a: i64 = band.get(y, x - 1);
                let b: i64 = band.get(y - 1, x - 1);
                let c: i64 = band.get(y - 1, x);
                mean3(a, b, c)
            } else if x > 0 {
                band.get(y, x - 1)
            } else if y > 0 {
                band.get(y - 1, x)
            } else {
                0
            };
            let cur: i64 = band.get(y, x);
            let sum: i64 = cur.wrapping_add(prediction);
            proof {
                num::lemma_wrapping_ops(cur, prediction);
                assert(sum == predicted(g0, y as int, x as int));
                grid::lemma_with(band@, y as int, x as int, sum);
            }
            band.set(y, x, sum);
            x = x + 1;
        }
        y = y + 1;
    }
    proof {
        grid::lemma_grid_equal(band@, want);
    }
}

/// A component with its DC band predicted.
pub open spec fn component_predicted(c: Coeffs) -> Coeffs {
    Coeffs { bands: c.bands.update(0, spec_dc_prediction(c.bands[0])), ..c }
}

/// All components with their DC bands predicted.
pub open spec fn spec_apply_dc_prediction(td: Coefficients) -> Coefficients {
    Coefficients {
        y: component_predicted(td.y),
        c1: component_predicted(td.c1),
        c2: component_predicted(td.c2),
    }
}

/// Predicts the DC band of every component, once all slices are there.
pub fn apply_dc_prediction(td: &mut TransformData)
    requires
        old(td).y.bands@.len() >= 1,
        old(td).c1.bands@.len() >= 1,
        old(td).c2.bands@.len() >= 1,
        old(td).y.bands@[0]@.wf(),
        old(td).c1.bands@[0]@.wf(),
        old(td).c2.bands@[0]@.wf(),
    ensures
        final(td)@ == spec_apply_dc_prediction(old(td)@),
{
    let ghost t0 = td@;
    dc_prediction(&mut td.y.bands[0]);
    dc_prediction(&mut td.c1.bands[0]);
    dc_prediction(&mut td.c2.bands[0]);
    proof {
        assert(td@.y.bands =~= component_predicted(t0.y).bands);
        assert(td@.c1.bands =~= component_predicted(t0.c1).bands);
        assert(td@.c2.bands =~= component_predicted(t0.c2).bands);
    }
}

/// Prediction keeps the shape of the store.
pub proof fn lemma_prediction_shape(td: Coefficients, t: Transform)
    requires
        td.shaped(t),
    ensures
        spec_apply_dc_prediction(td).shaped(t),
{
    lemma_component_shape(td.y, t.dwt_depth_ho as int, t.dwt_depth as int);
    lemma_component_shape(td.c1, t.dwt_depth_ho as int, t.dwt_depth as int);
    lemma_component_shape(td.c2, t.dwt_depth_ho as int, t.dwt_depth as int);
}

proof fn lemma_component_shape(c: Coeffs, ho: int, depth: int)
    requires
        c.shaped(ho, depth),
        0 <= ho,
        0 <= depth,
    ensures
        component_predicted(c).shaped(ho, depth),
{
    let g = c.bands[0];
    let d = component_predicted(c);
    assert(g.wf());
    grid::lemma_tabulate(g.width, g.height, |y: int, x: int| predicted(g, y, x));
    assert forall|k: int| 0 <= k < d.bands.len() implies (#[trigger] d.bands[k]).wf()
        && d.bands[k].width == crate::subband::spec_subband_width(
        d.width as int,
        ho,
        depth,
        crate::subband::band_level(ho, k),
    ) && d.bands[k].height == crate::subband::spec_subband_height(
        d.height as int,
        ho,
        depth,
        crate::subband::band_level(ho, k),
    ) by {
        assert(c.bands[k].wf());
    }
}

} // verus!
