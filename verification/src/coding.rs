//! Whole pictures, written slice by slice and decoded.
use crate::analysis;
use crate::bitio::Input;
use crate::codes;
use crate::error::Error;
use crate::grid;
use crate::grid::Grid;
use crate::headers;
use crate::headers::MatrixChoice;
use crate::num;
use crate::params::{CodingParameters, SequenceHeader};
use crate::picture;
use crate::picture::{Parsed, Picture};
use crate::prediction;
use crate::slices;
use crate::subband;
use crate::subband::{Coefficients, Coeffs};
use crate::transform;
use crate::transform::{PictureKind, Transform};
use crate::wavelet;
use crate::writing;
use crate::writing::{HqPart, HqSlice, LdSlice, Place};
use vstd::arithmetic::power2;
use vstd::prelude::*;

verus! {

/// The values of the part of a band that belongs to a slice, row by row.
pub open spec fn part(g: Grid, at: Place) -> Seq<i64> {
    let left = writing::edge(g.width, at.slices_x, at.sx);
    let across = writing::edge(g.width, at.slices_x, at.sx + 1) - left;
    let top = writing::edge(g.height, at.slices_y, at.sy);
    Seq::new(at.share(g) as nat, |k: int| g.at(top + k / across, left + k % across))
}

/// Whether the values are those of the bands at a place.
pub open spec fn carries(values: Seq<Seq<i64>>, bands: Seq<Grid>, at: Place) -> bool {
    &&& values.len() == bands.len()
    &&& forall|k: int| 0 <= k < bands.len() ==> #[trigger] values[k] == part(bands[k], at)
}

/// The number of the slice that holds row `y`, column `x` of a band.
spec fn number_of(g: Grid, t: Transform, y: int, x: int) -> int {
    subband::piece_of(g.height, t.slices_y as int, y) * t.slices_x + subband::piece_of(
        g.width,
        t.slices_x as int,
        x,
    )
}

/// Whether `g` has what `want` has in the slices before number `n`.
spec fn reached(g: Grid, want: Grid, t: Transform, n: int) -> bool {
    &&& g.wf()
    &&& g.width == want.width
    &&& g.height == want.height
    &&& forall|y: int, x: int|
        0 <= y < g.height && 0 <= x < g.width && number_of(want, t, y, x) < n ==> #[trigger] g.at(
            y,
            x,
        ) == want.at(y, x)
}

/// The place of slice number `n`.
spec fn nth(t: Transform, n: int) -> Place {
    writing::place(t, n % (t.slices_x as int), n / (t.slices_x as int))
}

proof fn lemma_share(g: Grid, t: Transform, n: int)
    requires
        g.wf(),
        t.slices_valid(),
        0 <= n < t.slices_x * t.slices_y,
    ensures
        ({
            let at = nth(t, n);
            &&& 0 <= at.sx < at.slices_x && 0 <= at.sy < at.slices_y
            &&& at.sy * t.slices_x + at.sx == n
            &&& at.share(g) >= 0
            &&& part(g, at).len() == at.share(g)
        }),
{
    let at = nth(t, n);
    grid::lemma_row_and_column(t.slices_x as int, t.slices_y as int, n);
    subband::lemma_cuts(g.width, at.slices_x, at.sx);
    subband::lemma_cuts(g.height, at.slices_y, at.sy);
    let w = writing::edge(g.width, at.slices_x, at.sx + 1) - writing::edge(
        g.width,
        at.slices_x,
        at.sx,
    );
    let h = writing::edge(g.height, at.slices_y, at.sy + 1) - writing::edge(
        g.height,
        at.slices_y,
        at.sy,
    );
    assert(w * h >= 0) by (nonlinear_arith)
        requires
            w >= 0,
            h >= 0,
    ;
}

/// One more slice.
proof fn lemma_received(new: Grid, old: Grid, want: Grid, t: Transform, n: int)
    requires
        want.wf(),
        t.slices_valid(),
        0 <= n < t.slices_x * t.slices_y,
        reached(old, want, t, n),
        writing::received(new, old, nth(t, n), part(want, nth(t, n))),
    ensures
        reached(new, want, t, n + 1),
{
    let at = nth(t, n);
    lemma_share(want, t, n);
    let left = writing::edge(want.width, at.slices_x, at.sx);
    let right = writing::edge(want.width, at.slices_x, at.sx + 1);
    let top = writing::edge(want.height, at.slices_y, at.sy);
    let bottom = writing::edge(want.height, at.slices_y, at.sy + 1);
    assert forall|y: int, x: int|
        0 <= y < new.height && 0 <= x < new.width && number_of(want, t, y, x) < n
            + 1 implies #[trigger] new.at(y, x) == want.at(y, x) by {
        let (py, px) = (
            subband::piece_of(want.height, at.slices_y, y),
            subband::piece_of(want.width, at.slices_x, x),
        );
        subband::law_slices_tile(want.height, at.slices_y, y, at.sy);
        subband::law_slices_tile(want.width, at.slices_x, x, at.sx);
        if top <= y < bottom && left <= x < right {
            grid::lemma_place(right - left, bottom - top, y - top, x - left);
            let k = (y - top) * (right - left) + (x - left);
            assert(part(want, at)[k] == want.at(y, x));
        } else {
            assert(old.at(y, x) == want.at(y, x)) by {
                if py * t.slices_x + px == n {
                    vstd::arithmetic::div_mod::lemma_fundamental_div_mod_converse(
                        n,
                        t.slices_x as int,
                        py,
                        px,
                    );
                    assert(false);
                }
            }
        }
    }
}

/// After the last slice everything is there.
proof fn lemma_all_reached(g: Grid, want: Grid, t: Transform)
    requires
        want.wf(),
        t.slices_valid(),
        reached(g, want, t, t.slices_x * t.slices_y),
    ensures
        g == want,
{
    assert forall|y: int, x: int| 0 <= y < g.height && 0 <= x < g.width implies #[trigger] g.at(y, x)
        == want.at(y, x) by {
        subband::law_slices_tile(want.height, t.slices_y as int, y, 0);
        subband::law_slices_tile(want.width, t.slices_x as int, x, 0);
        grid::lemma_place(
            t.slices_x as int,
            t.slices_y as int,
            subband::piece_of(want.height, t.slices_y as int, y),
            subband::piece_of(want.width, t.slices_x as int, x),
        );
    }
    grid::lemma_grid_equal(g, want);
}

/// Whether a component has what `want` has in the slices before number `n`.
spec fn component_reached(c: Coeffs, want: Coeffs, t: Transform, n: int) -> bool {
    &&& c.width == want.width
    &&& c.height == want.height
    &&& c.bands.len() == want.bands.len()
    &&& forall|k: int| 0 <= k < c.bands.len() ==> reached(#[trigger] c.bands[k], want.bands[k], t, n)
}

spec fn all_reached(td: Coefficients, want: Coefficients, t: Transform, n: int) -> bool {
    &&& component_reached(td.y, want.y, t, n)
    &&& component_reached(td.c1, want.c1, t, n)
    &&& component_reached(td.c2, want.c2, t, n)
}

proof fn lemma_component_received(new: Coeffs, old: Coeffs, want: Coeffs, t: Transform, n: int, values:
    Seq<Seq<i64>>)
    requires
        forall|k: int| 0 <= k < want.bands.len() ==> (#[trigger] want.bands[k]).wf(),
        t.slices_valid(),
        0 <= n < t.slices_x * t.slices_y,
        component_reached(old, want, t, n),
        new.width == old.width,
        new.height == old.height,
        carries(values, want.bands, nth(t, n)),
        writing::bands_verbatim(new.bands, old.bands, nth(t, n), values),
    ensures
        component_reached(new, want, t, n + 1),
{
    assert forall|k: int| 0 <= k < new.bands.len() implies reached(
        #[trigger] new.bands[k],
        want.bands[k],
        t,
        n + 1,
    ) by {
        assert(writing::received(new.bands[k], old.bands[k], nth(t, n), values[k]));
        assert(values[k] == part(want.bands[k], nth(t, n)));
        assert(reached(old.bands[k], want.bands[k], t, n));
        lemma_received(new.bands[k], old.bands[k], want.bands[k], t, n);
    }
}

proof fn lemma_component_done(c: Coeffs, want: Coeffs, t: Transform)
    requires
        forall|k: int| 0 <= k < want.bands.len() ==> (#[trigger] want.bands[k]).wf(),
        t.slices_valid(),
        component_reached(c, want, t, t.slices_x * t.slices_y),
    ensures
        c == want,
{
    assert forall|k: int| 0 <= k < c.bands.len() implies #[trigger] c.bands[k] == want.bands[k] by {
        lemma_all_reached(c.bands[k], want.bands[k], t);
    }
    assert(c.bands =~= want.bands);
}

proof fn lemma_component_fills(
    values: Seq<Seq<i64>>,
    c: Coeffs,
    want: Coeffs,
    t: Transform,
    n: int,
)
    requires
        forall|k: int| 0 <= k < want.bands.len() ==> (#[trigger] want.bands[k]).wf(),
        t.slices_valid(),
        0 <= n < t.slices_x * t.slices_y,
        component_reached(c, want, t, n),
        carries(values, want.bands, nth(t, n)),
        forall|k: int| 0 <= k < values.len() ==> writing::codable(#[trigger] values[k]),
    ensures
        writing::fills(values, c.bands, nth(t, n)),
{
    assert forall|k: int| 0 <= k < c.bands.len() implies (#[trigger] values[k]).len() == nth(
        t,
        n,
    ).share(c.bands[k]) && writing::codable(values[k]) by {
        lemma_share(want.bands[k], t, n);
        assert(reached(c.bands[k], want.bands[k], t, n));
    }
}

proof fn lemma_reached_shape(c: Coeffs, want: Coeffs, t: Transform, n: int, ho: int, depth: int)
    requires
        want.shaped(ho, depth),
        component_reached(c, want, t, n),
    ensures
        c.shaped(ho, depth),
{
    assert forall|k: int| 0 <= k < c.bands.len() implies (#[trigger] c.bands[k]).wf()
        && c.bands[k].width == want.bands[k].width && c.bands[k].height == want.bands[k].height by {
        assert(reached(c.bands[k], want.bands[k], t, n));
    }
}

proof fn lemma_nothing_reached(w: u64, h: u64, want: Coeffs, t: Transform)
    requires
        t.slices_valid(),
        want.shaped(t.dwt_depth_ho as int, t.dwt_depth as int),
        want.width == w,
        want.height == h,
    ensures
        component_reached(subband::spec_init_component(w, h, t), want, t, 0),
{
    let c = subband::spec_init_component(w, h, t);
    assert forall|k: int| 0 <= k < c.bands.len() implies reached(
        #[trigger] c.bands[k],
        want.bands[k],
        t,
        0,
    ) by {
        let (g, wanted) = (c.bands[k], want.bands[k]);
        assert(wanted.wf() && g.width == wanted.width && g.height == wanted.height);
        assert forall|y: int, x: int| 0 <= y < g.height && 0 <= x < g.width implies number_of(
            wanted,
            t,
            y,
            x,
        ) >= 0 by {
            subband::law_slices_tile(wanted.height, t.slices_y as int, y, 0);
            subband::law_slices_tile(wanted.width, t.slices_x as int, x, 0);
            grid::lemma_place(
                t.slices_x as int,
                t.slices_y as int,
                subband::piece_of(wanted.height, t.slices_y as int, y),
                subband::piece_of(wanted.width, t.slices_x as int, x),
            );
        }
    }
}

/// Whether every value of every band has a code.
pub open spec fn writable(values: Seq<Seq<i64>>) -> bool {
    forall|k: int| 0 <= k < values.len() ==> writing::codable(#[trigger] values[k])
}

/// Whether a high-quality slice holds the coefficients at a place, losslessly.
pub open spec fn hq_holds(s: HqSlice, want: Coefficients, t: Transform, at: Place) -> bool {
    &&& s.qindex == 0
    &&& s.prefix.len() == 8 * t.slice_prefix_bytes
    &&& s.y.measures(t.slice_size_scaler as int)
    &&& s.c1.measures(t.slice_size_scaler as int)
    &&& s.c2.measures(t.slice_size_scaler as int)
    &&& carries(s.y.values, want.y.bands, at) && writable(s.y.values)
    &&& carries(s.c1.values, want.c1.bands, at) && writable(s.c1.values)
    &&& carries(s.c2.values, want.c2.bands, at) && writable(s.c2.values)
}

/// Slices one after another, from number `from` on.
pub open spec fn hq_bits(slices: Seq<HqSlice>, from: int) -> Seq<int>
    decreases slices.len() - from,
{
    if from < 0 || from >= slices.len() {
        seq![]
    } else {
        slices[from].bits() + hq_bits(slices, from + 1)
    }
}

proof fn lemma_hq_rest(
    i: Input,
    td: Coefficients,
    t: Transform,
    slices: Seq<HqSlice>,
    from: int,
    want: Coefficients,
    dc: i64,
    h: Seq<i64>,
    ac: Seq<(i64, i64, i64)>,
)
    requires
        i.wf(),
        !i.overrun,
        t.slices_valid(),
        want.shaped(t),
        slices.len() == t.slices_x * t.slices_y,
        0 <= from <= slices.len(),
        forall|k: int|
            0 <= k < slices.len() ==> hq_holds(
                #[trigger] slices[k],
                want,
                t,
                writing::place(t, k % (t.slices_x as int), k / (t.slices_x as int)),
            ),
        h.len() == t.dwt_depth_ho,
        ac.len() == t.dwt_depth,
        t.dwt_depth_ho + t.dwt_depth <= u64::MAX,
        writing::matrix_values_ok(dc, h, ac),
        t.quant_matrix == writing::matrix_of(dc, h, ac),
        all_reached(td, want, t, from),
        i.offers(hq_bits(slices, from)),
    ensures
        slices::spec_unpack_slices(
            i,
            td,
            t,
            PictureKind::HighQuality,
            from,
            slices.len() as int,
        ) == (
            i.after_bits(hq_bits(slices, from).len()).with_bits_left(
                if from < slices.len() {
                    0
                } else {
                    i.bits_left
                },
            ),
            want,
            slices.len() as int,
            Ok::<(), Error>(()),
        ),
    decreases slices.len() - from,
{
    if from == slices.len() {
        lemma_component_done(td.y, want.y, t);
        lemma_component_done(td.c1, want.c1, t);
        lemma_component_done(td.c2, want.c2, t);
        assert(i.with_bits_left(i.bits_left) == i);
    } else {
        let s = slices[from];
        let (x, y) = (s.bits(), hq_bits(slices, from + 1));
        let at = nth(t, from);
        lemma_share(want.y.bands[0], t, from);
        writing::lemma_split(i, x, y);
        lemma_reached_shape(td.y, want.y, t, from, t.dwt_depth_ho as int, t.dwt_depth as int);
        lemma_reached_shape(td.c1, want.c1, t, from, t.dwt_depth_ho as int, t.dwt_depth as int);
        lemma_reached_shape(td.c2, want.c2, t, from, t.dwt_depth_ho as int, t.dwt_depth as int);
        lemma_component_fills(s.y.values, td.y, want.y, t, from);
        lemma_component_fills(s.c1.values, td.c1, want.c1, t, from);
        lemma_component_fills(s.c2.values, td.c2, want.c2, t, from);
        writing::law_hq_slices_read_back(i, td, t, at.sx, at.sy, s);
        writing::law_lossless_hq_slices_read_back(i, td, t, at.sx, at.sy, s, dc, h, ac);
        let (j, new, done) = slices::spec_unpack_slice(
            i,
            td,
            t,
            at.sx,
            at.sy,
            PictureKind::HighQuality,
        );
        lemma_component_received(new.y, td.y, want.y, t, from, s.y.values);
        lemma_component_received(new.c1, td.c1, want.c1, t, from, s.c1.values);
        lemma_component_received(new.c2, td.c2, want.c2, t, from, s.c2.values);
        let plain = i.after_bits(x.len());
        codes::lemma_offers_bounded(plain, 0, y);
        lemma_hq_rest(j, new, t, slices, from + 1, want, dc, h, ac);
        codes::lemma_after_bits_bounded(plain, 0, y.len());
        codes::lemma_after_bits(i, x.len(), y.len());
    }
}

/// The transform data of a high-quality picture reads back: its slices, one after
/// another in raster order, give the coefficients that they hold, of every band of
/// every component, and nothing else is read.
pub proof fn law_hq_transform_data_reads_back(
    i: Input,
    cp: CodingParameters,
    t: Transform,
    slices: Seq<HqSlice>,
    want: Coefficients,
    dc: i64,
    h: Seq<i64>,
    ac: Seq<(i64, i64, i64)>,
)
    requires
        i.wf(),
        !i.overrun,
        t.slices_valid(),
        want.shaped(t),
        want.sized(cp),
        slices.len() == t.slices_x * t.slices_y,
        forall|k: int|
            0 <= k < slices.len() ==> hq_holds(
                #[trigger] slices[k],
                want,
                t,
                writing::place(t, k % (t.slices_x as int), k / (t.slices_x as int)),
            ),
        h.len() == t.dwt_depth_ho,
        ac.len() == t.dwt_depth,
        t.dwt_depth_ho + t.dwt_depth <= u64::MAX,
        writing::matrix_values_ok(dc, h, ac),
        t.quant_matrix == writing::matrix_of(dc, h, ac),
        i.offers(hq_bits(slices, 0)),
    ensures
        transform::spec_transform_data(i, cp, t, PictureKind::HighQuality) == (
            i.after_bits(hq_bits(slices, 0).len()).with_bits_left(0),
            Ok::<Coefficients, Error>(want),
        ),
{
    let td = subband::spec_init_transform_data(cp, t);
    lemma_nothing_reached(cp.luma_width, cp.luma_height, want.y, t);
    lemma_nothing_reached(cp.color_diff_width, cp.color_diff_height, want.c1, t);
    lemma_nothing_reached(cp.color_diff_width, cp.color_diff_height, want.c2, t);
    assert(t.slices_x * t.slices_y >= 1) by (nonlinear_arith)
        requires
            t.slices_x >= 1,
            t.slices_y >= 1,
    ;
    lemma_hq_rest(i, td, t, slices, 0, want, dc, h, ac);
    writing::lemma_behind(i, hq_bits(slices, 0));
}

/// Whether a low-delay slice holds the coefficients at a place, losslessly, in
/// `size` bytes.
pub open spec fn ld_holds(
    s: LdSlice,
    want: Coefficients,
    at: Place,
    size: int,
    length_bits: nat,
) -> bool {
    &&& s.qindex == 0
    &&& size >= 1
    &&& writing::tells_apart(length_bits, 8 * size - 7)
    &&& s.luma().len() < power2::pow2(length_bits)
    &&& s.bits(length_bits).len() == 8 * size
    &&& carries(s.y, want.y.bands, at) && writable(s.y)
    &&& carries(s.c1, want.c1.bands, at) && writable(s.c1)
    &&& carries(s.c2, want.c2.bands, at) && writable(s.c2)
}

/// Low-delay slices one after another, from number `from` on; the lengths of their
/// luma parts take `length_bits[k]` bits.
pub open spec fn ld_bits(slices: Seq<LdSlice>, length_bits: Seq<nat>, from: int) -> Seq<int>
    decreases slices.len() - from,
{
    if from < 0 || from >= slices.len() {
        seq![]
    } else {
        slices[from].bits(length_bits[from]) + ld_bits(slices, length_bits, from + 1)
    }
}

/// Whether these are all slices of a low-delay picture: each in its place, as long
/// as its share of the bytes.
pub open spec fn ld_slices_hold(
    slices: Seq<LdSlice>,
    length_bits: Seq<nat>,
    want: Coefficients,
    t: Transform,
) -> bool {
    &&& slices.len() == t.slices_x * t.slices_y
    &&& length_bits.len() == slices.len()
    &&& forall|k: int|
        0 <= k < slices.len() ==> ld_holds(
            #[trigger] slices[k],
            want,
            writing::place(t, k % (t.slices_x as int), k / (t.slices_x as int)),
            writing::bytes_before(t, k + 1) - writing::bytes_before(t, k),
            length_bits[k],
        )
}

proof fn lemma_ld_rest(
    i: Input,
    td: Coefficients,
    t: Transform,
    slices: Seq<LdSlice>,
    length_bits: Seq<nat>,
    from: int,
    want: Coefficients,
    dc: i64,
    h: Seq<i64>,
    ac: Seq<(i64, i64, i64)>,
)
    requires
        i.wf(),
        !i.overrun,
        t.slices_valid(),
        want.shaped(t),
        ld_slices_hold(slices, length_bits, want, t),
        0 <= from <= slices.len(),
        h.len() == t.dwt_depth_ho,
        ac.len() == t.dwt_depth,
        t.dwt_depth_ho + t.dwt_depth <= u64::MAX,
        writing::matrix_values_ok(dc, h, ac),
        t.quant_matrix == writing::matrix_of(dc, h, ac),
        all_reached(td, want, t, from),
        i.offers(ld_bits(slices, length_bits, from)),
    ensures
        slices::spec_unpack_slices(
            i,
            td,
            t,
            PictureKind::LowDelay,
            from,
            slices.len() as int,
        ) == (
            i.after_bits(ld_bits(slices, length_bits, from).len()).with_bits_left(
                if from < slices.len() {
                    0
                } else {
                    i.bits_left
                },
            ),
            want,
            slices.len() as int,
            Ok::<(), Error>(()),
        ),
    decreases slices.len() - from,
{
    if from == slices.len() {
        lemma_component_done(td.y, want.y, t);
        lemma_component_done(td.c1, want.c1, t);
        lemma_component_done(td.c2, want.c2, t);
        assert(i.with_bits_left(i.bits_left) == i);
    } else {
        let s = slices[from];
        let bits = length_bits[from];
        let (x, y) = (s.bits(bits), ld_bits(slices, length_bits, from + 1));
        let at = nth(t, from);
        lemma_share(want.y.bands[0], t, from);
        writing::lemma_split(i, x, y);
        lemma_reached_shape(td.y, want.y, t, from, t.dwt_depth_ho as int, t.dwt_depth as int);
        lemma_reached_shape(td.c1, want.c1, t, from, t.dwt_depth_ho as int, t.dwt_depth as int);
        lemma_reached_shape(td.c2, want.c2, t, from, t.dwt_depth_ho as int, t.dwt_depth as int);
        lemma_component_fills(s.y, td.y, want.y, t, from);
        lemma_component_fills(s.c1, td.c1, want.c1, t, from);
        lemma_component_fills(s.c2, td.c2, want.c2, t, from);
        writing::law_ld_slices_read_back(i, td, t, at.sx, at.sy, s, bits);
        writing::law_lossless_ld_slices_read_back(i, td, t, at.sx, at.sy, s, bits, dc, h, ac);
        let (j, new, done) = slices::spec_unpack_slice(
            i,
            td,
            t,
            at.sx,
            at.sy,
            PictureKind::LowDelay,
        );
        lemma_component_received(new.y, td.y, want.y, t, from, s.y);
        lemma_component_received(new.c1, td.c1, want.c1, t, from, s.c1);
        lemma_component_received(new.c2, td.c2, want.c2, t, from, s.c2);
        let plain = i.after_bits(x.len());
        codes::lemma_offers_bounded(plain, 0, y);
        lemma_ld_rest(j, new, t, slices, length_bits, from + 1, want, dc, h, ac);
        codes::lemma_after_bits_bounded(plain, 0, y.len());
        codes::lemma_after_bits(i, x.len(), y.len());
    }
}

/// A component whose DC band is written as what its neighbours do not predict.
pub open spec fn component_residuals(c: Coeffs) -> Coeffs {
    Coeffs { bands: c.bands.update(0, prediction::residuals(c.bands[0])), ..c }
}

/// All components with their DC bands written so.
pub open spec fn all_residuals(td: Coefficients) -> Coefficients {
    Coefficients {
        y: component_residuals(td.y),
        c1: component_residuals(td.c1),
        c2: component_residuals(td.c2),
    }
}

proof fn lemma_component_residuals(c: Coeffs, ho: int, depth: int)
    requires
        c.shaped(ho, depth),
        ho >= 0,
        depth >= 0,
    ensures
        component_residuals(c).shaped(ho, depth),
        prediction::component_predicted(component_residuals(c)) == c,
{
    let r = component_residuals(c);
    let g = c.bands[0];
    assert(g.wf());
    prediction::law_prediction_is_lossless(g);
    grid::lemma_tabulate(
        g.width,
        g.height,
        |y: int, x: int| num::wrap(g.at(y, x) - prediction::prediction_at(g, y, x)) as i64,
    );
    assert(prediction::component_predicted(r).bands =~= c.bands);
}

/// The transform data of a low-delay picture reads back: its slices hold the
/// coefficients, those of the DC bands less what their neighbours predict.
pub proof fn law_ld_transform_data_reads_back(
    i: Input,
    cp: CodingParameters,
    t: Transform,
    slices: Seq<LdSlice>,
    length_bits: Seq<nat>,
    want: Coefficients,
    dc: i64,
    h: Seq<i64>,
    ac: Seq<(i64, i64, i64)>,
)
    requires
        i.wf(),
        !i.overrun,
        t.slices_valid(),
        want.shaped(t),
        want.sized(cp),
        ld_slices_hold(slices, length_bits, all_residuals(want), t),
        h.len() == t.dwt_depth_ho,
        ac.len() == t.dwt_depth,
        t.dwt_depth_ho + t.dwt_depth <= u64::MAX,
        writing::matrix_values_ok(dc, h, ac),
        t.quant_matrix == writing::matrix_of(dc, h, ac),
        i.offers(ld_bits(slices, length_bits, 0)),
    ensures
        transform::spec_transform_data(i, cp, t, PictureKind::LowDelay) == (
            i.after_bits(ld_bits(slices, length_bits, 0).len()).with_bits_left(0),
            Ok::<Coefficients, Error>(want),
        ),
{
    let td = subband::spec_init_transform_data(cp, t);
    let sent = all_residuals(want);
    lemma_component_residuals(want.y, t.dwt_depth_ho as int, t.dwt_depth as int);
    lemma_component_residuals(want.c1, t.dwt_depth_ho as int, t.dwt_depth as int);
    lemma_component_residuals(want.c2, t.dwt_depth_ho as int, t.dwt_depth as int);
    lemma_nothing_reached(cp.luma_width, cp.luma_height, sent.y, t);
    lemma_nothing_reached(cp.color_diff_width, cp.color_diff_height, sent.c1, t);
    lemma_nothing_reached(cp.color_diff_width, cp.color_diff_height, sent.c2, t);
    assert(t.slices_x * t.slices_y >= 1) by (nonlinear_arith)
        requires
            t.slices_x >= 1,
            t.slices_y >= 1,
    ;
    lemma_ld_rest(i, td, t, slices, length_bits, 0, sent, dc, h, ac);
    writing::lemma_behind(i, ld_bits(slices, length_bits, 0));
}

proof fn lemma_hq_part_size(part: HqPart, scaler: int)
    requires
        part.measures(scaler),
    ensures
        part.bits().len() % 8 == 0,
{
    writing::lemma_literal_len(part.length, 8);
}

proof fn lemma_hq_slice_size(s: HqSlice, scaler: int)
    requires
        s.prefix.len() % 8 == 0,
        s.y.measures(scaler),
        s.c1.measures(scaler),
        s.c2.measures(scaler),
    ensures
        s.bits().len() % 8 == 0,
{
    writing::lemma_literal_len(s.qindex, 8);
    lemma_hq_part_size(s.y, scaler);
    lemma_hq_part_size(s.c1, scaler);
    lemma_hq_part_size(s.c2, scaler);
}

/// High-quality slices are made of whole bytes.
pub proof fn lemma_hq_size(slices: Seq<HqSlice>, want: Coefficients, t: Transform, from: int)
    requires
        forall|k: int|
            0 <= k < slices.len() ==> hq_holds(
                #[trigger] slices[k],
                want,
                t,
                writing::place(t, k % (t.slices_x as int), k / (t.slices_x as int)),
            ),
    ensures
        hq_bits(slices, from).len() % 8 == 0,
    decreases slices.len() - from,
{
    if 0 <= from < slices.len() {
        lemma_hq_slice_size(slices[from], t.slice_size_scaler as int);
        lemma_hq_size(slices, want, t, from + 1);
    }
}

/// So are low-delay slices.
pub proof fn lemma_ld_size(
    slices: Seq<LdSlice>,
    length_bits: Seq<nat>,
    want: Coefficients,
    t: Transform,
    from: int,
)
    requires
        ld_slices_hold(slices, length_bits, want, t),
    ensures
        ld_bits(slices, length_bits, from).len() % 8 == 0,
    decreases slices.len() - from,
{
    if 0 <= from < slices.len() {
        assert(slices[from].bits(length_bits[from]).len() % 8 == 0);
        lemma_ld_size(slices, length_bits, want, t, from + 1);
    }
}

pub proof fn lemma_bit_position(i: Input, x: Seq<int>)
    requires
        i.wf(),
        !i.overrun,
        i.offers(x),
    ensures
        i.after_bits(x.len()).bit == (i.bit + x.len()) % 8,
    decreases x.len(),
{
    if x.len() > 0 {
        lemma_bit_position(i.after_bit(), x.skip(1));
    }
}

/// Padding up to the next byte.
pub proof fn lemma_padded(i: Input, padding: Seq<int>)
    requires
        i.wf(),
        !i.overrun,
        i.offers(padding),
        padding.len() < 8,
        (i.bit + padding.len()) % 8 == 0,
    ensures
        i.aligned() == i.after_bits(padding.len()),
    decreases padding.len(),
{
    if padding.len() > 0 {
        lemma_padded(i.after_bit(), padding.skip(1));
    }
}

/// A picture as bits: its number, the transform parameters, padding up to the next
/// byte, and the slices.
pub open spec fn picture_bits(number: u32, parameters: Seq<int>, padding: Seq<int>, data: Seq<int>) ->
    Seq<int> {
    writing::literal(number as nat, 32) + (parameters + (padding + data))
}

/// Whether padding fills a byte up behind so many bits.
pub open spec fn fills_up(bits: nat, padding: Seq<int>) -> bool {
    padding.len() < 8 && (bits + padding.len()) % 8 == 0
}

proof fn lemma_picture_front(
    i: Input,
    t: Transform,
    seq: SequenceHeader,
    kind: PictureKind,
    m: MatrixChoice,
    number: u32,
    padding: Seq<int>,
    data: Seq<int>,
) -> (j: Input)
    requires
        i.wf(),
        !i.overrun,
        i.bit == 0,
        headers::writable(t, seq.coding_parameters, seq.parse_parameters.major_version, kind, m),
        ({
            let parameters = headers::transform_parameters_bits(
                t,
                seq.parse_parameters.major_version,
                kind,
                m,
            );
            &&& fills_up(parameters.len(), padding)
            &&& i.offers(picture_bits(number, parameters, padding, data))
        }),
    ensures
        ({
            let parameters = headers::transform_parameters_bits(
                t,
                seq.parse_parameters.major_version,
                kind,
                m,
            );
            let (i1, n) = i.aligned().uint_lit(4);
            let (i2, read) = transform::spec_transform_parameters(i1.aligned(), seq, kind);
            &&& n == number
            &&& read == Ok::<Transform, Error>(t)
            &&& i2.aligned() == j
            &&& i.after_bits(picture_bits(number, parameters, padding, data).len())
                == j.after_bits(data.len())
        }),
        j.wf(),
        !j.overrun,
        j.offers(data),
{
    power2::lemma2_to64();
    let parameters = headers::transform_parameters_bits(
        t,
        seq.parse_parameters.major_version,
        kind,
        m,
    );
    let head = writing::literal(number as nat, 32);
    writing::lemma_literal_len(number as nat, 32);
    writing::lemma_split(i, head, parameters + (padding + data));
    writing::law_literals_read_back(i, number as nat, 32);
    let i1 = i.after_bits(32);
    lemma_bit_position(i, head);
    assert(i1.bit == 0);
    writing::lemma_split(i1, parameters, padding + data);
    headers::law_transform_parameters_read_back(i1, t, seq, kind, m);
    let i2 = i1.after_bits(parameters.len());
    lemma_bit_position(i1, parameters);
    writing::lemma_split(i2, padding, data);
    lemma_padded(i2, padding);
    i2.after_bits(padding.len())
}

/// Whether a component holds the bands of samples, which are taken about zero and
/// put in the top left of a grid.
pub open spec fn component_of(
    c: Coeffs,
    t: Transform,
    g: Grid,
    samples: Seq<u16>,
    width: int,
    height: int,
    depth: nat,
) -> bool {
    let (v, ho) = (
        wavelet::spec_wavelet_filter(t.wavelet_index),
        wavelet::spec_wavelet_filter(t.wavelet_index_ho),
    );
    &&& g.wf()
    &&& analysis::codable(g, v, ho, t.dwt_depth_ho as nat, t.dwt_depth as nat)
    &&& c.bands == analysis::bands(g, v, ho, t.dwt_depth_ho as nat, t.dwt_depth as nat)
    &&& samples.len() == width * height
    &&& forall|i: int| 0 <= i < samples.len() ==> #[trigger] samples[i] < power2::pow2(depth)
    &&& analysis::centred(g, samples, width, depth)
}

/// Whether the coefficients are those of a picture: each component made of the
/// samples of its own plane, with its own size and depth. `gy`, `g1` and `g2` are
/// the planes with what the encoder put beyond their edges.
pub open spec fn coefficients_of(
    td: Coefficients,
    t: Transform,
    cp: CodingParameters,
    p: Picture,
    gy: Grid,
    g1: Grid,
    g2: Grid,
) -> bool {
    &&& t.wavelet_index <= 6
    &&& t.wavelet_index_ho <= 6
    &&& p.luma_width == cp.luma_width && p.luma_height == cp.luma_height
    &&& p.color_diff_width == cp.color_diff_width && p.color_diff_height == cp.color_diff_height
    &&& p.luma_depth == cp.luma_depth && p.color_diff_depth == cp.color_diff_depth
    &&& 1 <= p.luma_depth <= 16 && 1 <= p.color_diff_depth <= 16
    &&& component_of(
        td.y,
        t,
        gy,
        p.y,
        p.luma_width as int,
        p.luma_height as int,
        p.luma_depth as nat,
    )
    &&& component_of(
        td.c1,
        t,
        g1,
        p.c1,
        p.color_diff_width as int,
        p.color_diff_height as int,
        p.color_diff_depth as nat,
    )
    &&& component_of(
        td.c2,
        t,
        g2,
        p.c2,
        p.color_diff_width as int,
        p.color_diff_height as int,
        p.color_diff_depth as nat,
    )
}

proof fn lemma_component_decodes(
    c: Coeffs,
    t: Transform,
    g: Grid,
    samples: Seq<u16>,
    width: int,
    height: int,
    depth: nat,
)
    requires
        t.wavelet_index <= 6,
        t.wavelet_index_ho <= 6,
        1 <= depth <= 16,
        width >= 0,
        height >= 0,
        component_of(c, t, g, samples, width, height, depth),
    ensures
        transform::spec_idwt(c, t) is Ok,
        picture::spec_finalize_component(
            transform::spec_idwt(c, t)->Ok_0,
            width,
            height,
            depth,
        ) == samples,
{
    analysis::law_component_is_lossless(c, t, g, samples, width, height, depth);
}

proof fn lemma_picture_decodes(
    parsed: Parsed,
    cp: CodingParameters,
    p: Picture,
    gy: Grid,
    g1: Grid,
    g2: Grid,
)
    requires
        parsed.picture_number == p.picture_number,
        coefficients_of(parsed.data, parsed.transform, cp, p, gy, g1, g2),
    ensures
        picture::spec_picture_decode(parsed, cp) == Ok::<Picture, Error>(p),
{
    let (w, h) = (p.luma_width as int, p.luma_height as int);
    let (cw, ch) = (p.color_diff_width as int, p.color_diff_height as int);
    let t = parsed.transform;
    lemma_component_decodes(parsed.data.y, t, gy, p.y, w, h, p.luma_depth as nat);
    lemma_component_decodes(parsed.data.c1, t, g1, p.c1, cw, ch, p.color_diff_depth as nat);
    lemma_component_decodes(parsed.data.c2, t, g2, p.c2, cw, ch, p.color_diff_depth as nat);
}

/// A high-quality picture that was coded losslessly decodes to its samples: its
/// number, the transform parameters and all slices, as bits, give the picture back.
pub proof fn law_hq_pictures_decode(
    i: Input,
    seq: SequenceHeader,
    t: Transform,
    m: MatrixChoice,
    padding: Seq<int>,
    slices: Seq<HqSlice>,
    td: Coefficients,
    p: Picture,
    gy: Grid,
    g1: Grid,
    g2: Grid,
    dc: i64,
    h: Seq<i64>,
    ac: Seq<(i64, i64, i64)>,
)
    requires
        i.wf(),
        !i.overrun,
        i.bit == 0,
        headers::writable(
            t,
            seq.coding_parameters,
            seq.parse_parameters.major_version,
            PictureKind::HighQuality,
            m,
        ),
        h.len() == t.dwt_depth_ho,
        ac.len() == t.dwt_depth,
        writing::matrix_values_ok(dc, h, ac),
        t.quant_matrix == writing::matrix_of(dc, h, ac),
        td.shaped(t),
        td.sized(seq.coding_parameters),
        slices.len() == t.slices_x * t.slices_y,
        forall|k: int|
            0 <= k < slices.len() ==> hq_holds(
                #[trigger] slices[k],
                td,
                t,
                writing::place(t, k % (t.slices_x as int), k / (t.slices_x as int)),
            ),
        coefficients_of(td, t, seq.coding_parameters, p, gy, g1, g2),
        ({
            let parameters = headers::transform_parameters_bits(
                t,
                seq.parse_parameters.major_version,
                PictureKind::HighQuality,
                m,
            );
            &&& fills_up(parameters.len(), padding)
            &&& i.offers(picture_bits(p.picture_number, parameters, padding, hq_bits(slices, 0)))
        }),
    ensures
        ({
            let parameters = headers::transform_parameters_bits(
                t,
                seq.parse_parameters.major_version,
                PictureKind::HighQuality,
                m,
            );
            let bits = picture_bits(p.picture_number, parameters, padding, hq_bits(slices, 0));
            let (j, parsed) = picture::spec_picture_parse(i, seq, PictureKind::HighQuality);
            &&& j == i.after_bits(bits.len()).with_bits_left(0)
            &&& parsed matches Ok(parsed) && picture::spec_picture_decode(
                parsed,
                seq.coding_parameters,
            ) == Ok::<Picture, Error>(p)
        }),
{
    let cp = seq.coding_parameters;
    let j = lemma_picture_front(
        i,
        t,
        seq,
        PictureKind::HighQuality,
        m,
        p.picture_number,
        padding,
        hq_bits(slices, 0),
    );
    law_hq_transform_data_reads_back(j, cp, t, slices, td, dc, h, ac);
    let parsed = Parsed {
        picture_number: p.picture_number,
        kind: PictureKind::HighQuality,
        transform: t,
        data: td,
    };
    lemma_picture_decodes(parsed, cp, p, gy, g1, g2);
}

/// A low-delay picture that was coded losslessly decodes to its samples.
pub proof fn law_ld_pictures_decode(
    i: Input,
    seq: SequenceHeader,
    t: Transform,
    m: MatrixChoice,
    padding: Seq<int>,
    slices: Seq<LdSlice>,
    length_bits: Seq<nat>,
    td: Coefficients,
    p: Picture,
    gy: Grid,
    g1: Grid,
    g2: Grid,
    dc: i64,
    h: Seq<i64>,
    ac: Seq<(i64, i64, i64)>,
)
    requires
        i.wf(),
        !i.overrun,
        i.bit == 0,
        headers::writable(
            t,
            seq.coding_parameters,
            seq.parse_parameters.major_version,
            PictureKind::LowDelay,
            m,
        ),
        h.len() == t.dwt_depth_ho,
        ac.len() == t.dwt_depth,
        writing::matrix_values_ok(dc, h, ac),
        t.quant_matrix == writing::matrix_of(dc, h, ac),
        td.shaped(t),
        td.sized(seq.coding_parameters),
        ld_slices_hold(slices, length_bits, all_residuals(td), t),
        coefficients_of(td, t, seq.coding_parameters, p, gy, g1, g2),
        ({
            let parameters = headers::transform_parameters_bits(
                t,
                seq.parse_parameters.major_version,
                PictureKind::LowDelay,
                m,
            );
            &&& fills_up(parameters.len(), padding)
            &&& i.offers(
                picture_bits(
                    p.picture_number,
                    parameters,
                    padding,
                    ld_bits(slices, length_bits, 0),
                ),
            )
        }),
    ensures
        ({
            let parameters = headers::transform_parameters_bits(
                t,
                seq.parse_parameters.major_version,
                PictureKind::LowDelay,
                m,
            );
            let bits = picture_bits(
                p.picture_number,
                parameters,
                padding,
                ld_bits(slices, length_bits, 0),
            );
            let (j, parsed) = picture::spec_picture_parse(i, seq, PictureKind::LowDelay);
            &&& j == i.after_bits(bits.len()).with_bits_left(0)
            &&& parsed matches Ok(parsed) && picture::spec_picture_decode(
                parsed,
                seq.coding_parameters,
            ) == Ok::<Picture, Error>(p)
        }),
{
    let cp = seq.coding_parameters;
    let j = lemma_picture_front(
        i,
        t,
        seq,
        PictureKind::LowDelay,
        m,
        p.picture_number,
        padding,
        ld_bits(slices, length_bits, 0),
    );
    law_ld_transform_data_reads_back(j, cp, t, slices, length_bits, td, dc, h, ac);
    let parsed = Parsed {
        picture_number: p.picture_number,
        kind: PictureKind::LowDelay,
        transform: t,
        data: td,
    };
    lemma_picture_decodes(parsed, cp, p, gy, g1, g2);
}

} // verus!
