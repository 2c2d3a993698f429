//! Rectangular grids of samples, the model of subband and picture planes.
use vstd::arithmetic::div_mod;
use vstd::arithmetic::mul;
use vstd::prelude::*;

verus! {

/// A grid of samples, stored row by row.
#[verifier::ext_equal]
pub struct Grid {
    pub width: int,
    pub height: int,
    pub data: Seq<i64>,
}

impl Grid {
    /// Whether the samples fill the rectangle exactly.
    pub open spec fn wf(self) -> bool {
        &&& 0 <= self.width
        &&& 0 <= self.height
        &&& self.data.len() == self.width * self.height
    }

    /// The sample in row `y` and column `x`.
    pub open spec fn at(self, y: int, x: int) -> i64 {
        self.data[y * self.width + x]
    }

    /// Whether there is a sample in row `y` and column `x`.
    pub open spec fn holds(self, y: int, x: int) -> bool {
        0 <= y * self.width + x < self.data.len()
    }

    /// Whether the samples of the first `height` rows, up to column `width`,
    /// are all there.
    pub open spec fn covers(self, height: int, width: int) -> bool {
        forall|y: int, x: int|
            0 <= y < height && 0 <= x < width ==> #[trigger] self.holds(y, x)
    }

    /// The grid whose sample in row `y` and column `x` is `f(y, x)`.
    pub open spec fn tabulate(width: int, height: int, f: spec_fn(int, int) -> i64) -> Grid {
        Grid {
            width,
            height,
            data: Seq::new((width * height) as nat, |i: int| f(i / width, i % width)),
        }
    }

    /// The grid of zeros.
    pub open spec fn zero(width: int, height: int) -> Grid {
        Grid { width, height, data: Seq::new((width * height) as nat, |i: int| 0i64) }
    }

    /// The grid with another value in row `y` and column `x`.
    pub open spec fn with(self, y: int, x: int, v: i64) -> Grid {
        Grid { data: self.data.update(y * self.width + x, v), ..self }
    }

    /// Row `y`.
    pub open spec fn row(self, y: int) -> Seq<i64> {
        Seq::new(self.width as nat, |x: int| self.at(y, x))
    }

    /// Column `x`.
    pub open spec fn column(self, x: int) -> Seq<i64> {
        Seq::new(self.height as nat, |y: int| self.at(y, x))
    }
}

/// The place of row `y`, column `x` in row-major order tells row and column.
pub proof fn lemma_place(width: int, height: int, y: int, x: int)
    requires
        0 <= x < width,
        0 <= y < height,
    ensures
        0 <= y * width + x < width * height,
        (y * width + x) / width == y,
        (y * width + x) % width == x,
{
    div_mod::lemma_fundamental_div_mod_converse(y * width + x, width, y, x);
    assert(0 <= y * width + x < width * height) by (nonlinear_arith)
        requires
            0 <= x < width,
            0 <= y < height,
    ;
}

/// Every place in row-major order is that of one row and column.
pub proof fn lemma_row_and_column(width: int, height: int, i: int)
    requires
        0 <= i < width * height,
        0 <= width,
        0 <= height,
    ensures
        0 < width,
        0 <= i / width < height,
        0 <= i % width < width,
        (i / width) * width + i % width == i,
{
    assert(width > 0) by (nonlinear_arith)
        requires
            0 <= i < width * height,
            0 <= width,
    ;
    div_mod::lemma_fundamental_div_mod(i, width);
    mul::lemma_mul_is_commutative(width, i / width);
    assert(i / width < height) by (nonlinear_arith)
        requires
            i == width * (i / width) + i % width,
            0 <= i % width,
            i < width * height,
            0 < width,
    ;
    assert(0 <= i / width) by (nonlinear_arith)
        requires
            0 <= i,
            0 < width,
    ;
}

/// A full grid covers its rectangle, and every smaller one of the same width.
pub proof fn lemma_wf_covers(g: Grid, height: int, width: int)
    requires
        g.wf(),
        height <= g.height,
        width <= g.width,
    ensures
        g.covers(height, width),
{
    assert forall|y: int, x: int| 0 <= y < height && 0 <= x < width implies #[trigger] g.holds(
        y,
        x,
    ) by {
        lemma_place(g.width, g.height, y, x);
    }
}

/// Full grids with the same samples are equal.
pub proof fn lemma_grid_equal(g: Grid, h: Grid)
    requires
        g.wf(),
        h.wf(),
        g.width == h.width,
        g.height == h.height,
        forall|y: int, x: int|
            0 <= y < g.height && 0 <= x < g.width ==> #[trigger] g.at(y, x) == h.at(y, x),
    ensures
        g == h,
{
    assert forall|i: int| 0 <= i < g.data.len() implies g.data[i] == h.data[i] by {
        lemma_row_and_column(g.width, g.height, i);
        assert(g.at(i / g.width, i % g.width) == h.at(i / g.width, i % g.width));
    }
    assert(g.data =~= h.data);
}

/// The samples of a tabulated grid.
pub proof fn lemma_tabulate(width: int, height: int, f: spec_fn(int, int) -> i64)
    requires
        0 <= width,
        0 <= height,
    ensures
        Grid::tabulate(width, height, f).wf(),
        forall|y: int, x: int|
            0 <= y < height && 0 <= x < width ==> #[trigger] Grid::tabulate(width, height, f).at(
                y,
                x,
            ) == f(y, x),
{
    let g = Grid::tabulate(width, height, f);
    assert(0 <= width * height) by (nonlinear_arith)
        requires
            0 <= width,
            0 <= height,
    ;
    assert forall|y: int, x: int| 0 <= y < height && 0 <= x < width implies #[trigger] g.at(y, x)
        == f(y, x) by {
        lemma_place(width, height, y, x);
    }
}

/// The samples of a grid of zeros.
pub proof fn lemma_zero(width: int, height: int)
    requires
        0 <= width,
        0 <= height,
    ensures
        Grid::zero(width, height).wf(),
        forall|y: int, x: int|
            0 <= y < height && 0 <= x < width ==> #[trigger] Grid::zero(width, height).at(y, x)
                == 0,
{
    lemma_tabulate(width, height, |y: int, x: int| 0i64);
    assert(Grid::zero(width, height).data =~= Grid::tabulate(
        width,
        height,
        |y: int, x: int| 0i64,
    ).data);
}

/// Changing one sample changes that one alone.
pub proof fn lemma_with(g: Grid, y: int, x: int, v: i64)
    requires
        g.wf(),
        0 <= y < g.height,
        0 <= x < g.width,
    ensures
        g.with(y, x, v).wf(),
        forall|yy: int, xx: int|
            0 <= yy < g.height && 0 <= xx < g.width ==> #[trigger] g.with(y, x, v).at(yy, xx) == if yy
                == y && xx == x {
                v
            } else {
                g.at(yy, xx)
            },
{
    let h = g.with(y, x, v);
    lemma_place(g.width, g.height, y, x);
    assert forall|yy: int, xx: int|
        0 <= yy < g.height && 0 <= xx < g.width implies #[trigger] h.at(yy, xx) == if yy == y && xx
        == x {
        v
    } else {
        g.at(yy, xx)
    } by {
        lemma_place(g.width, g.height, yy, xx);
        if !(yy == y && xx == x) {
            assert(yy * g.width + xx != y * g.width + x);
        }
    }
}

} // verus!
