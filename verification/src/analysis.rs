//! The forward wavelet transform, as a model: what an encoder does, and that
//! synthesis takes it back without loss.
use crate::error::Error;
use crate::grid;
use crate::grid::Grid;
use crate::num;
use crate::picture;
use crate::subband;
use crate::subband::Coeffs;
use crate::transform;
use crate::transform::Transform;
use crate::wavelet;
use crate::wavelet::Filter;
use vstd::arithmetic::div_mod;
use vstd::arithmetic::power2;
use vstd::prelude::*;

verus! {

/// A sample with accuracy bits.
pub open spec fn scaled_sample(v: i64, shift: nat) -> int {
    v * power2::pow2(shift)
}

/// Whether accuracy bits can be added to every sample, and rounded off again.
pub open spec fn scalable(g: Grid, shift: nat) -> bool {
    shift > 0 ==> forall|i: int|
        0 <= i < g.data.len() ==> {
            &&& i64::MIN <= scaled_sample(#[trigger] g.data[i], shift)
            &&& scaled_sample(g.data[i], shift) + power2::pow2((shift - 1) as nat) <= i64::MAX
        }
}

/// Every sample with accuracy bits.
pub open spec fn scaled(g: Grid, shift: nat) -> Grid {
    Grid {
        data: Seq::new(
            g.data.len(),
            |i: int|
                if shift == 0 {
                    g.data[i]
                } else {
                    scaled_sample(g.data[i], shift) as i64
                },
        ),
        ..g
    }
}

/// Every row analyzed.
pub open spec fn rows_analyzed(g: Grid, f: Filter) -> Grid {
    Grid::tabulate(g.width, g.height, |y: int, x: int| f.analysis(g.row(y))[x])
}

/// Every column analyzed.
pub open spec fn columns_analyzed(g: Grid, f: Filter) -> Grid {
    Grid::tabulate(g.width, g.height, |y: int, x: int| f.analysis(g.column(x))[y])
}

/// Every other column, from `dx` on.
pub open spec fn half(g: Grid, dx: int) -> Grid {
    Grid::tabulate(g.width / 2, g.height, |y: int, x: int| g.at(y, 2 * x + dx))
}

/// Every other sample of every other row, from row `dy` and column `dx` on.
pub open spec fn quadrant(g: Grid, dy: int, dx: int) -> Grid {
    Grid::tabulate(g.width / 2, g.height / 2, |y: int, x: int| g.at(2 * y + dy, 2 * x + dx))
}

/// Horizontal analysis, before the bands are taken apart.
pub open spec fn h_analyzed(g: Grid, f: Filter) -> Grid {
    rows_analyzed(scaled(g, f.bit_shift), f)
}

/// Horizontal, then vertical analysis, before the bands are taken apart.
pub open spec fn vh_analyzed(g: Grid, v: Filter, ho: Filter) -> Grid {
    columns_analyzed(rows_analyzed(scaled(g, ho.bit_shift), ho), v)
}

proof fn lemma_descaled(g: Grid, shift: nat)
    requires
        scalable(g, shift),
    ensures
        wavelet::descaled(scaled(g, shift), shift) == g,
{
    let back = wavelet::descaled(scaled(g, shift), shift);
    assert forall|i: int| 0 <= i < g.data.len() implies back.data[i] == g.data[i] by {
        if shift > 0 {
            let v = g.data[i];
            let (p, r) = (power2::pow2(shift) as int, power2::pow2((shift - 1) as nat) as int);
            power2::lemma_pow2_unfold(shift);
            power2::lemma_pow2_pos((shift - 1) as nat);
            let sum = scaled_sample(v, shift) + r;
            num::lemma_wrap(sum);
            assert(sum == v * p + r);
            div_mod::lemma_fundamental_div_mod_converse(sum, p, v as int, r);
        }
    }
    assert(back.data =~= g.data);
}

proof fn lemma_rows_back(g: Grid, f: Filter)
    requires
        g.wf(),
        g.width % 2 == 0,
    ensures
        rows_analyzed(g, f).wf(),
        wavelet::rows_synthesized(rows_analyzed(g, f), f) == g,
{
    let a = rows_analyzed(g, f);
    grid::lemma_tabulate(g.width, g.height, |y: int, x: int| f.analysis(g.row(y))[x]);
    let s = wavelet::rows_synthesized(a, f);
    grid::lemma_tabulate(a.width, a.height, |y: int, x: int| f.synthesis(a.row(y))[x]);
    assert forall|y: int, x: int| 0 <= y < g.height && 0 <= x < g.width implies #[trigger] s.at(
        y,
        x,
    ) == g.at(y, x) by {
        wavelet::lemma_analysis_len(f, g.row(y));
        assert(a.row(y) =~= f.analysis(g.row(y)));
        wavelet::law_synthesis_is_reversible(f, g.row(y));
    }
    grid::lemma_grid_equal(s, g);
}

proof fn lemma_columns_back(g: Grid, f: Filter)
    requires
        g.wf(),
        g.height % 2 == 0,
    ensures
        columns_analyzed(g, f).wf(),
        wavelet::columns_synthesized(columns_analyzed(g, f), f) == g,
{
    let a = columns_analyzed(g, f);
    grid::lemma_tabulate(g.width, g.height, |y: int, x: int| f.analysis(g.column(x))[y]);
    let s = wavelet::columns_synthesized(a, f);
    grid::lemma_tabulate(a.width, a.height, |y: int, x: int| f.synthesis(a.column(x))[y]);
    assert forall|y: int, x: int| 0 <= y < g.height && 0 <= x < g.width implies #[trigger] s.at(
        y,
        x,
    ) == g.at(y, x) by {
        wavelet::lemma_analysis_len(f, g.column(x));
        assert(a.column(x) =~= f.analysis(g.column(x)));
        wavelet::law_synthesis_is_reversible(f, g.column(x));
    }
    grid::lemma_grid_equal(s, g);
}

proof fn lemma_halves(g: Grid)
    requires
        g.wf(),
        g.width % 2 == 0,
    ensures
        wavelet::interleaved_columns(half(g, 0), half(g, 1)) == g,
{
    let (l, h) = (half(g, 0), half(g, 1));
    grid::lemma_tabulate(g.width / 2, g.height, |y: int, x: int| g.at(y, 2 * x + 0));
    grid::lemma_tabulate(g.width / 2, g.height, |y: int, x: int| g.at(y, 2 * x + 1));
    let both = wavelet::interleaved_columns(l, h);
    grid::lemma_tabulate(
        2 * l.width,
        l.height,
        |y: int, x: int|
            if x % 2 == 0 {
                l.at(y, x / 2)
            } else {
                h.at(y, x / 2)
            },
    );
    assert forall|y: int, x: int| 0 <= y < g.height && 0 <= x < g.width implies #[trigger] both.at(
        y,
        x,
    ) == g.at(y, x) by {
        assert(0 <= x / 2 < g.width / 2);
        assert(l.at(y, x / 2) == g.at(y, 2 * (x / 2) + 0));
        assert(h.at(y, x / 2) == g.at(y, 2 * (x / 2) + 1));
    }
    grid::lemma_grid_equal(both, g);
}

proof fn lemma_quadrants(g: Grid)
    requires
        g.wf(),
        g.width % 2 == 0,
        g.height % 2 == 0,
    ensures
        wavelet::interleaved_quadrants(
            quadrant(g, 0, 0),
            quadrant(g, 0, 1),
            quadrant(g, 1, 0),
            quadrant(g, 1, 1),
        ) == g,
{
    let (w, h) = (g.width / 2, g.height / 2);
    let (ll, hl) = (quadrant(g, 0, 0), quadrant(g, 0, 1));
    let (lh, hh) = (quadrant(g, 1, 0), quadrant(g, 1, 1));
    grid::lemma_tabulate(w, h, |y: int, x: int| g.at(2 * y + 0, 2 * x + 0));
    grid::lemma_tabulate(w, h, |y: int, x: int| g.at(2 * y + 0, 2 * x + 1));
    grid::lemma_tabulate(w, h, |y: int, x: int| g.at(2 * y + 1, 2 * x + 0));
    grid::lemma_tabulate(w, h, |y: int, x: int| g.at(2 * y + 1, 2 * x + 1));
    let all = wavelet::interleaved_quadrants(ll, hl, lh, hh);
    grid::lemma_tabulate(
        2 * ll.width,
        2 * ll.height,
        |y: int, x: int|
            if y % 2 == 0 {
                if x % 2 == 0 {
                    ll.at(y / 2, x / 2)
                } else {
                    hl.at(y / 2, x / 2)
                }
            } else if x % 2 == 0 {
                lh.at(y / 2, x / 2)
            } else {
                hh.at(y / 2, x / 2)
            },
    );
    assert forall|y: int, x: int| 0 <= y < g.height && 0 <= x < g.width implies #[trigger] all.at(
        y,
        x,
    ) == g.at(y, x) by {
        let (j, i) = (y / 2, x / 2);
        assert(0 <= i < w && 0 <= j < h);
        assert(ll.at(j, i) == g.at(2 * j + 0, 2 * i + 0));
        assert(hl.at(j, i) == g.at(2 * j + 0, 2 * i + 1));
        assert(lh.at(j, i) == g.at(2 * j + 1, 2 * i + 0));
        assert(hh.at(j, i) == g.at(2 * j + 1, 2 * i + 1));
    }
    grid::lemma_grid_equal(all, g);
}

/// Horizontal coding is lossless: synthesis recovers every grid of even width
/// from its low and high band.
pub proof fn law_h_synthesis_is_lossless(g: Grid, f: Filter)
    requires
        g.wf(),
        g.width % 2 == 0,
        scalable(g, f.bit_shift),
    ensures
        wavelet::spec_h_synthesis(half(h_analyzed(g, f), 0), half(h_analyzed(g, f), 1), f) == g,
{
    lemma_rows_back(scaled(g, f.bit_shift), f);
    lemma_halves(h_analyzed(g, f));
    lemma_descaled(g, f.bit_shift);
}

/// Two-dimensional coding is lossless: synthesis recovers every grid of even
/// dimensions from its four bands, with any pair of filters.
pub proof fn law_vh_synthesis_is_lossless(g: Grid, v: Filter, ho: Filter)
    requires
        g.wf(),
        g.width % 2 == 0,
        g.height % 2 == 0,
        scalable(g, ho.bit_shift),
    ensures
        ({
            let a = vh_analyzed(g, v, ho);
            wavelet::spec_vh_synthesis(
                quadrant(a, 0, 0),
                quadrant(a, 0, 1),
                quadrant(a, 1, 0),
                quadrant(a, 1, 1),
                v,
                ho,
            ) == g
        }),
{
    let s = scaled(g, ho.bit_shift);
    lemma_rows_back(s, ho);
    lemma_columns_back(rows_analyzed(s, ho), v);
    lemma_quadrants(vh_analyzed(g, v, ho));
    lemma_descaled(g, ho.bit_shift);
}

/// Whether `n` horizontal levels apply: each has an even width, and room for
/// its accuracy bits.
pub open spec fn h_codable(g: Grid, f: Filter, n: nat) -> bool
    decreases n,
{
    n > 0 ==> {
        &&& g.width % 2 == 0
        &&& scalable(g, f.bit_shift)
        &&& h_codable(half(h_analyzed(g, f), 0), f, (n - 1) as nat)
    }
}

/// The bands of `n` horizontal levels, the coarsest first.
pub open spec fn h_bands(g: Grid, f: Filter, n: nat) -> Seq<Grid>
    decreases n,
{
    if n == 0 {
        seq![g]
    } else {
        let a = h_analyzed(g, f);
        h_bands(half(a, 0), f, (n - 1) as nat).push(half(a, 1))
    }
}

/// Whether `n` two-dimensional levels apply, and `ho` horizontal ones to what
/// they leave: each level has even dimensions, and room for its accuracy bits.
pub open spec fn codable(g: Grid, v: Filter, f: Filter, ho: nat, n: nat) -> bool
    decreases n,
{
    if n == 0 {
        h_codable(g, f, ho)
    } else {
        &&& g.width % 2 == 0
        &&& g.height % 2 == 0
        &&& scalable(g, f.bit_shift)
        &&& codable(quadrant(vh_analyzed(g, v, f), 0, 0), v, f, ho, (n - 1) as nat)
    }
}

/// The bands of `n` two-dimensional and `ho` horizontal levels, the coarsest
/// first.
pub open spec fn bands(g: Grid, v: Filter, f: Filter, ho: nat, n: nat) -> Seq<Grid>
    decreases n,
{
    if n == 0 {
        h_bands(g, f, ho)
    } else {
        let a = vh_analyzed(g, v, f);
        bands(quadrant(a, 0, 0), v, f, ho, (n - 1) as nat) + seq![
            quadrant(a, 0, 1),
            quadrant(a, 1, 0),
            quadrant(a, 1, 1),
        ]
    }
}

/// Whether `c` begins with these bands.
pub open spec fn holds_bands(c: Coeffs, b: Seq<Grid>) -> bool {
    forall|i: int| 0 <= i < b.len() ==> #[trigger] c.bands[i] == b[i]
}

proof fn lemma_h_levels(c: Coeffs, g: Grid, f: Filter, n: nat)
    requires
        g.wf(),
        h_codable(g, f, n),
        holds_bands(c, h_bands(g, f, n)),
    ensures
        h_bands(g, f, n).len() == n + 1,
        transform::horizontal_levels(c, f, n) == g,
    decreases n,
{
    let b = h_bands(g, f, n);
    if n == 0 {
        assert(c.bands[0] == b[0]);
    } else {
        let m = (n - 1) as nat;
        let a = h_analyzed(g, f);
        let low = half(a, 0);
        let inner = h_bands(low, f, m);
        lemma_rows_back(scaled(g, f.bit_shift), f);
        grid::lemma_tabulate(a.width / 2, a.height, |y: int, x: int| a.at(y, 2 * x + 0));
        assert forall|i: int| 0 <= i < inner.len() implies #[trigger] c.bands[i] == inner[i] by {
            assert(b[i] == inner[i]);
        }
        lemma_h_levels(c, low, f, m);
        assert(c.bands[n as int] == b[n as int]);
        law_h_synthesis_is_lossless(g, f);
    }
}

proof fn lemma_levels(c: Coeffs, g: Grid, v: Filter, f: Filter, ho: nat, n: nat)
    requires
        g.wf(),
        codable(g, v, f, ho, n),
        holds_bands(c, bands(g, v, f, ho, n)),
    ensures
        bands(g, v, f, ho, n).len() == ho + 1 + 3 * n,
        transform::square_levels(c, ho, v, f, n) == g,
    decreases n,
{
    if n == 0 {
        lemma_h_levels(c, g, f, ho);
    } else {
        let m = (n - 1) as nat;
        let b = bands(g, v, f, ho, n);
        let s = scaled(g, f.bit_shift);
        let a = vh_analyzed(g, v, f);
        let low = quadrant(a, 0, 0);
        let inner = bands(low, v, f, ho, m);
        lemma_rows_back(s, f);
        lemma_columns_back(rows_analyzed(s, f), v);
        grid::lemma_tabulate(
            a.width / 2,
            a.height / 2,
            |y: int, x: int| a.at(2 * y + 0, 2 * x + 0),
        );
        assert forall|i: int| 0 <= i < inner.len() implies #[trigger] c.bands[i] == inner[i] by {
            assert(b[i] == inner[i]);
        }
        lemma_levels(c, low, v, f, ho, m);
        let first = ho + 3 * n - 2;
        assert(c.bands[first] == b[first]);
        assert(c.bands[first + 1] == b[first + 1]);
        assert(c.bands[first + 2] == b[first + 2]);
        law_vh_synthesis_is_lossless(g, v, f);
    }
}

/// The whole transform is lossless: the inverse transform recovers every grid
/// from its bands, at any depths and with any pair of filters.
pub proof fn law_inverse_transform_is_lossless(c: Coeffs, t: Transform, g: Grid)
    requires
        t.wavelet_index <= 6,
        t.wavelet_index_ho <= 6,
        g.wf(),
        codable(
            g,
            wavelet::spec_wavelet_filter(t.wavelet_index),
            wavelet::spec_wavelet_filter(t.wavelet_index_ho),
            t.dwt_depth_ho as nat,
            t.dwt_depth as nat,
        ),
        c.bands == bands(
            g,
            wavelet::spec_wavelet_filter(t.wavelet_index),
            wavelet::spec_wavelet_filter(t.wavelet_index_ho),
            t.dwt_depth_ho as nat,
            t.dwt_depth as nat,
        ),
    ensures
        transform::spec_idwt(c, t) == Ok::<Grid, Error>(g),
{
    lemma_levels(
        c,
        g,
        wavelet::spec_wavelet_filter(t.wavelet_index),
        wavelet::spec_wavelet_filter(t.wavelet_index_ho),
        t.dwt_depth_ho as nat,
        t.dwt_depth as nat,
    );
}

/// The size of the bands of level `level`, of a transform with `ho` horizontal
/// levels whose coarsest bands are `bw` by `bh`.
pub open spec fn sized(band: Grid, bw: int, bh: int, ho: int, level: int) -> bool {
    &&& band.wf()
    &&& band.width == bw * power2::pow2(
        if level <= 1 {
            0
        } else {
            (level - 1) as nat
        },
    )
    &&& band.height == bh * power2::pow2(
        if level <= ho + 1 {
            0
        } else {
            (level - ho - 1) as nat
        },
    )
}

/// Half of `blocks` times a power of two.
proof fn lemma_halved(blocks: int, k: nat)
    requires
        k > 0,
    ensures
        (blocks * power2::pow2(k)) % 2 == 0,
        blocks * power2::pow2(k) / 2 == blocks * power2::pow2((k - 1) as nat),
{
    power2::lemma_pow2_unfold(k);
    let p = power2::pow2((k - 1) as nat) as int;
    assert(blocks * (2 * p) == 2 * (blocks * p)) by (nonlinear_arith);
}

proof fn lemma_h_bands_sized(g: Grid, f: Filter, bw: int, bh: int, ho: nat, n: nat)
    requires
        n <= ho,
        g.wf(),
        g.width == bw * power2::pow2(n),
        g.height == bh * power2::pow2(0),
    ensures
        h_bands(g, f, n).len() == n + 1,
        forall|k: int|
            0 <= k <= n ==> sized(#[trigger] h_bands(g, f, n)[k], bw, bh, ho as int, k),
    decreases n,
{
    if n > 0 {
        let m = (n - 1) as nat;
        let a = h_analyzed(g, f);
        lemma_halved(bw, n);
        lemma_rows_back(scaled(g, f.bit_shift), f);
        grid::lemma_tabulate(a.width / 2, a.height, |y: int, x: int| a.at(y, 2 * x + 0));
        grid::lemma_tabulate(a.width / 2, a.height, |y: int, x: int| a.at(y, 2 * x + 1));
        lemma_h_bands_sized(half(a, 0), f, bw, bh, ho, m);
        let inner = h_bands(half(a, 0), f, m);
        assert forall|k: int| 0 <= k <= n implies sized(
            #[trigger] h_bands(g, f, n)[k],
            bw,
            bh,
            ho as int,
            k,
        ) by {
            if k < n {
                assert(h_bands(g, f, n)[k] == inner[k]);
            }
        }
    }
}

proof fn lemma_bands_sized(g: Grid, v: Filter, f: Filter, bw: int, bh: int, ho: nat, n: nat)
    requires
        g.wf(),
        g.width == bw * power2::pow2(ho + n),
        g.height == bh * power2::pow2(n),
    ensures
        bands(g, v, f, ho, n).len() == subband::band_count(ho as int, n as int),
        forall|k: int|
            0 <= k < bands(g, v, f, ho, n).len() ==> sized(
                #[trigger] bands(g, v, f, ho, n)[k],
                bw,
                bh,
                ho as int,
                subband::band_level(ho as int, k),
            ),
    decreases n,
{
    if n == 0 {
        lemma_h_bands_sized(g, f, bw, bh, ho, ho);
    } else {
        let m = (n - 1) as nat;
        let s = scaled(g, f.bit_shift);
        let a = vh_analyzed(g, v, f);
        lemma_halved(bw, ho + n);
        lemma_halved(bh, n);
        lemma_rows_back(s, f);
        lemma_columns_back(rows_analyzed(s, f), v);
        let (w, h) = (a.width / 2, a.height / 2);
        grid::lemma_tabulate(w, h, |y: int, x: int| a.at(2 * y + 0, 2 * x + 0));
        grid::lemma_tabulate(w, h, |y: int, x: int| a.at(2 * y + 0, 2 * x + 1));
        grid::lemma_tabulate(w, h, |y: int, x: int| a.at(2 * y + 1, 2 * x + 0));
        grid::lemma_tabulate(w, h, |y: int, x: int| a.at(2 * y + 1, 2 * x + 1));
        lemma_bands_sized(quadrant(a, 0, 0), v, f, bw, bh, ho, m);
        let inner = bands(quadrant(a, 0, 0), v, f, ho, m);
        let b = bands(g, v, f, ho, n);
        assert forall|k: int| 0 <= k < b.len() implies sized(
            #[trigger] b[k],
            bw,
            bh,
            ho as int,
            subband::band_level(ho as int, k),
        ) by {
            if k < inner.len() {
                assert(b[k] == inner[k]);
            } else {
                assert(subband::band_level(ho as int, k) == ho + n);
            }
        }
    }
}

/// The bands of a grid of padded size are the bands that the decoder expects
/// of a component, in number, order and size.
pub proof fn law_bands_fit_the_decoder(g: Grid, v: Filter, f: Filter, c: Coeffs, ho: nat, depth: nat)
    requires
        g.wf(),
        g.width == transform::padded(c.width as int, ho + depth),
        g.height == transform::padded(c.height as int, depth),
        c.bands == bands(g, v, f, ho, depth),
    ensures
        c.shaped(ho as int, depth as int),
{
    let bw = transform::ceil_div(c.width as int, power2::pow2(ho + depth) as int);
    let bh = transform::ceil_div(c.height as int, power2::pow2(depth) as int);
    lemma_bands_sized(g, v, f, bw, bh, ho, depth);
    assert forall|k: int| 0 <= k < c.bands.len() implies (#[trigger] c.bands[k]).wf()
        && c.bands[k].width == subband::spec_subband_width(
        c.width as int,
        ho as int,
        depth as int,
        subband::band_level(ho as int, k),
    ) && c.bands[k].height == subband::spec_subband_height(
        c.height as int,
        ho as int,
        depth as int,
        subband::band_level(ho as int, k),
    ) by {
        assert(sized(c.bands[k], bw, bh, ho as int, subband::band_level(ho as int, k)));
    }
}

/// Whether the top left of `g` holds these samples, about zero instead of
/// half the range.
pub open spec fn centred(g: Grid, samples: Seq<u16>, width: int, depth: nat) -> bool {
    forall|i: int|
        0 <= i < samples.len() ==> g.at(i / width, i % width) == #[trigger] samples[i]
            - picture::half_range(depth)
}

/// A losslessly coded component decodes to its samples: the bands of a grid
/// that holds the samples about zero give the samples back.
pub proof fn law_component_is_lossless(
    c: Coeffs,
    t: Transform,
    g: Grid,
    samples: Seq<u16>,
    width: int,
    height: int,
    depth: nat,
)
    requires
        t.wavelet_index <= 6,
        t.wavelet_index_ho <= 6,
        g.wf(),
        codable(
            g,
            wavelet::spec_wavelet_filter(t.wavelet_index),
            wavelet::spec_wavelet_filter(t.wavelet_index_ho),
            t.dwt_depth_ho as nat,
            t.dwt_depth as nat,
        ),
        c.bands == bands(
            g,
            wavelet::spec_wavelet_filter(t.wavelet_index),
            wavelet::spec_wavelet_filter(t.wavelet_index_ho),
            t.dwt_depth_ho as nat,
            t.dwt_depth as nat,
        ),
        1 <= depth <= 16,
        0 <= width,
        0 <= height,
        samples.len() == width * height,
        forall|i: int| 0 <= i < samples.len() ==> #[trigger] samples[i] < power2::pow2(depth),
        centred(g, samples, width, depth),
    ensures
        transform::spec_idwt(c, t) is Ok,
        picture::spec_finalize_component(
            transform::spec_idwt(c, t)->Ok_0,
            width,
            height,
            depth,
        ) == samples,
{
    law_inverse_transform_is_lossless(c, t, g);
    let out = picture::spec_finalize_component(g, width, height, depth);
    assert forall|i: int| 0 <= i < samples.len() implies #[trigger] out[i] == samples[i] by {
        picture::law_samples_are_in_range(g.at(i / width, i % width), depth);
        power2::lemma_pow2_unfold(depth);
        assert(samples[i] < power2::pow2(depth));
    }
    assert(out =~= samples);
}

} // verus!
