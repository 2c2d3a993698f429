//! What the synthesis filters make of simple signals: flat signals stay flat,
//! polynomials come out as polynomials, and single coefficients spread as the
//! wavelets do.
use crate::error::Error;
use crate::grid;
use crate::grid::Grid;
use crate::num;
use crate::subband;
use crate::subband::Coeffs;
use crate::transform;
use crate::transform::Transform;
use crate::wavelet;
use crate::wavelet::{LiftType, Stage};
use vstd::arithmetic::power2;
use vstd::prelude::*;

verus! {

/// The signal with `e` at every even and `o` at every odd position.
pub open spec fn alternating(len: nat, e: i64, o: i64) -> Seq<i64> {
    Seq::new(
        len,
        |k: int|
            if k % 2 == 0 {
                e
            } else {
                o
            },
    )
}

/// 2^59: sums of up to sixteen times as much fit in an `i64`.
pub open spec fn ample() -> int {
    0x800_0000_0000_0000
}

/// The sum of the first `count` taps.
spec fn tap_total(st: Stage, count: int) -> int
    decreases count,
{
    if count <= 0 {
        0
    } else {
        tap_total(st, count - 1) + st.taps[count - 1]
    }
}

proof fn lemma_tap_parity(st: Stage, len: int, n: int, j: int)
    requires
        len % 2 == 0,
        len >= 2,
    ensures
        0 <= st.tap_position(len, n, j) < len,
        st.tap_position(len, n, j) % 2 == if st.kind.changes_even() {
            1int
        } else {
            0
        },
{
}

proof fn lemma_tap_sum_flat(st: Stage, a: Seq<i64>, v: i64, n: int, count: int)
    requires
        a.len() % 2 == 0,
        a.len() >= 2,
        count <= st.taps.len(),
        forall|k: int| 0 <= k < a.len() && !st.changes(k) ==> #[trigger] a[k] == v,
    ensures
        st.tap_sum(a, n, count) == v * tap_total(st, count),
    decreases count,
{
    if count > 0 {
        lemma_tap_sum_flat(st, a, v, n, count - 1);
        lemma_tap_parity(st, a.len() as int, n, count - 1);
        let at = st.tap_position(a.len() as int, n, count - 1);
        assert(a[at] == v);
        let (t, rest) = (st.taps[count - 1], tap_total(st, count - 1));
        assert(v * (rest + t) == v * rest + t * v) by (nonlinear_arith);
    } else {
        assert(v * 0 == 0) by (nonlinear_arith);
    }
}

/// What a stage adds to or takes from a signal whose other samples are all `v`.
spec fn flat_delta(st: Stage, v: int) -> int {
    (v * tap_total(st, st.taps.len() as int) + st.rounding()) / (power2::pow2(st.s) as int)
}

/// A stage makes an alternating signal of an alternating signal.
proof fn lemma_alternating(st: Stage, len: nat, e: i64, o: i64)
    requires
        len % 2 == 0,
        ({
            let v = if st.kind.changes_even() {
                o
            } else {
                e
            };
            &&& i64::MIN <= v * tap_total(st, st.taps.len() as int) + st.rounding() <= i64::MAX
        }),
    ensures
        st.lifted(alternating(len, e, o)) == if st.kind.changes_even() {
            alternating(
                len,
                num::wrap(
                    if st.kind.adds() {
                        e + flat_delta(st, o as int)
                    } else {
                        e - flat_delta(st, o as int)
                    },
                ) as i64,
                o,
            )
        } else {
            alternating(
                len,
                e,
                num::wrap(
                    if st.kind.adds() {
                        o + flat_delta(st, e as int)
                    } else {
                        o - flat_delta(st, e as int)
                    },
                ) as i64,
            )
        },
{
    let a = alternating(len, e, o);
    let v = if st.kind.changes_even() {
        o
    } else {
        e
    };
    let total = st.taps.len() as int;
    assert forall|k: int| 0 <= k < len && st.changes(k) implies #[trigger] st.delta(a, k / 2)
        == flat_delta(st, v as int) by {
        lemma_tap_sum_flat(st, a, v, k / 2, total);
        num::lemma_wrap(v * tap_total(st, total) + st.rounding());
    }
    let got = st.lifted(a);
    assert forall|k: int| 0 <= k < len implies #[trigger] got[k] == if !st.changes(k) {
        a[k]
    } else if st.kind.adds() {
        num::wrap(a[k] + flat_delta(st, v as int)) as i64
    } else {
        num::wrap(a[k] - flat_delta(st, v as int)) as i64
    } by {
        if st.changes(k) {
            assert(st.delta(a, k / 2) == flat_delta(st, v as int));
        }
    }
    if st.kind.changes_even() {
        assert(got =~= alternating(len, got_even(st, e, o), o));
    } else {
        assert(got =~= alternating(len, e, got_odd(st, e, o)));
    }
}

spec fn got_even(st: Stage, e: i64, o: i64) -> i64 {
    num::wrap(
        if st.kind.adds() {
            e + flat_delta(st, o as int)
        } else {
            e - flat_delta(st, o as int)
        },
    ) as i64
}

spec fn got_odd(st: Stage, e: i64, o: i64) -> i64 {
    num::wrap(
        if st.kind.adds() {
            o + flat_delta(st, e as int)
        } else {
            o - flat_delta(st, e as int)
        },
    ) as i64
}

/// The filters of indices 0 to 4 reconstruct: of a low band that is `e`
/// throughout and a high band that is `o` throughout they make a signal that
/// alternates between two values, `o` apart, whose mean, rounded up, is `e`. So a
/// high band of zeros leaves a flat signal, at every position, edges included;
/// and two samples alone come out as from any other of these filters.
pub proof fn law_flat_bands_reconstruct(index: u64, len: nat, e: i64, o: i64)
    requires
        index <= 4,
        len % 2 == 0,
        -ample() <= o < ample() - 1,
        -ample() <= e - (o + 1) / 2 < ample(),
        -ample() <= o + e - (o + 1) / 2 < ample(),
    ensures
        ({
            let out = wavelet::spec_wavelet_filter(index).synthesis(alternating(len, e, o));
            &&& out.len() == len
            &&& o == 0 ==> forall|k: int| 0 <= k < len ==> #[trigger] out[k] == e
            &&& forall|n: int|
                0 <= 2 * n < len ==> {
                    &&& #[trigger] out[2 * n + 1] - out[2 * n] == o
                    &&& (out[2 * n] + out[2 * n + 1] + 1) / 2 == e
                }
        }),
{
    let f = wavelet::spec_wavelet_filter(index);
    let (s1, s2) = (f.stages[0], f.stages[1]);
    let (e1, o1) = (e - (o + 1) / 2, o + e - (o + 1) / 2);
    let a = alternating(len, e, o);
    lemma_gains(index);
    reveal_with_fuel(wavelet::lifted_by, 3);
    lemma_flat_update(s1, o as int);
    lemma_alternating(s1, len, e, o);
    num::lemma_wrap(e1);
    assert(s1.lifted(a) == alternating(len, e1 as i64, o));
    lemma_flat_predict(s2, e1);
    lemma_alternating(s2, len, e1 as i64, o);
    num::lemma_wrap(o1);
    assert(f.synthesis(a) == alternating(len, e1 as i64, o1 as i64));
}

/// A stage with half of its divisor for a gain takes half, rounded up.
proof fn lemma_flat_update(st: Stage, v: int)
    requires
        gain(st) == 1 || gain(st) == 2 || gain(st) == 16,
        power2::pow2(st.s) == 2 * gain(st),
        st.rounding() == gain(st),
        -ample() <= v < ample() - 1,
    ensures
        flat_delta(st, v) == (v + 1) / 2,
        i64::MIN <= v * gain(st) + st.rounding() <= i64::MAX,
{
    let g = gain(st);
    if g == 1 {
        assert(v * g == v);
        assert((v + 1) / 2 == (v * g + g) / (2 * g));
    } else if g == 2 {
        assert(v * g == 2 * v);
        assert((2 * v + 2) / 4 == (v + 1) / 2);
    } else {
        assert(v * g == 16 * v);
        assert((16 * v + 16) / 32 == (v + 1) / 2);
    }
}

/// A stage with its divisor for a gain takes all.
proof fn lemma_flat_predict(st: Stage, v: int)
    requires
        gain(st) == 1 || gain(st) == 2 || gain(st) == 16,
        power2::pow2(st.s) == gain(st),
        st.rounding() == gain(st) / 2,
        -ample() <= v < ample(),
    ensures
        flat_delta(st, v) == v,
        i64::MIN <= v * gain(st) + st.rounding() <= i64::MAX,
{
    let g = gain(st);
    assert(v * g == if g == 1 {
        v
    } else if g == 2 {
        2 * v
    } else {
        16 * v
    });
}

/// The sum of all taps.
spec fn gain(st: Stage) -> int {
    tap_total(st, st.taps.len() as int)
}

proof fn lemma_gains(index: u64)
    requires
        index <= 4,
    ensures
        ({
            let f = wavelet::spec_wavelet_filter(index);
            let (s1, s2) = (f.stages[0], f.stages[1]);
            &&& f.stages.len() == 2
            &&& s1.kind == LiftType::Type2 && s2.kind == LiftType::Type3
            &&& gain(s1) == if index <= 1 {
                2int
            } else if index == 2 {
                16
            } else {
                1
            }
            &&& power2::pow2(s1.s) == 2 * gain(s1) && s1.rounding() == gain(s1)
            &&& gain(s2) == if index == 1 {
                2int
            } else if index <= 2 {
                16
            } else {
                1
            }
            &&& power2::pow2(s2.s) == gain(s2) && s2.rounding() == gain(s2) / 2
        }),
{
    reveal_with_fuel(tap_total, 5);
    power2::lemma2_to64();
}

/// The flat bands of index 5 (Fidelity), where the high band comes first: of a
/// low band that is `e` throughout and a high band that is `o` throughout, the odd
/// positions hold `o` plus half of `e`, rounded up, and the even ones `e` less
/// that. A high band of zeros leaves the two halves of `e`.
#[verifier::spinoff_prover]
pub proof fn law_flat_bands_reconstruct_5(len: nat, e: i64, o: i64)
    requires
        len % 2 == 0,
        -0x40_0000_0000_0000 <= e <= 0x40_0000_0000_0000,
        -0x10_0000_0000_0000 <= o <= 0x10_0000_0000_0000,
        -0x20_0000_0000_0000 <= o + (e + 1) / 2 <= 0x20_0000_0000_0000,
    ensures
        ({
            let out = wavelet::spec_wavelet_filter(5).synthesis(alternating(len, e, o));
            &&& out.len() == len
            &&& forall|n: int|
                0 <= 2 * n < len ==> {
                    &&& #[trigger] out[2 * n] + out[2 * n + 1] == e
                    &&& out[2 * n + 1] - o == (e + 1) / 2
                }
        }),
{
    let f = wavelet::spec_wavelet_filter(5);
    let (s1, s2) = (f.stages[0], f.stages[1]);
    reveal_with_fuel(tap_total, 9);
    reveal_with_fuel(wavelet::lifted_by, 3);
    power2::lemma2_to64();
    let a = alternating(len, e, o);
    let o1 = o + (e + 1) / 2;
    let e1 = e - o1;
    assert(tap_total(s1, 8) == 128 && tap_total(s2, 8) == 256);
    assert(e * 128 == 128 * e && o1 * 256 == 256 * o1);
    assert(power2::pow2(8) == 256 && s1.rounding() == 128 && s2.rounding() == 128);
    assert((256 * o1 + 128) / 256 == o1);
    lemma_alternating(s1, len, e, o);
    assert(flat_delta(s1, e as int) == (e + 1) / 2);
    num::lemma_wrap(o1);
    assert(s1.lifted(a) == alternating(len, e, o1 as i64));
    lemma_alternating(s2, len, e, o1 as i64);
    assert(flat_delta(s2, o1) == o1);
    num::lemma_wrap(e1);
    assert(f.synthesis(a) == alternating(len, e1 as i64, o1 as i64));
}

/// The flat bands of index 6 (Daubechies): a high band of zeros leaves a signal
/// that is flat but for the precision of the coefficients, at 1665 parts of 2048
/// of the low band.
#[verifier::spinoff_prover]
pub proof fn law_flat_bands_reconstruct_6(len: nat, e: i64)
    requires
        len % 2 == 0,
        -0x1_0000_0000_0000 <= e <= 0x1_0000_0000_0000,
    ensures
        ({
            let out = wavelet::spec_wavelet_filter(6).synthesis(alternating(len, e, 0));
            &&& out.len() == len
            &&& forall|n: int|
                0 <= 2 * n < len ==> {
                    let (x, y) = (#[trigger] out[2 * n], out[2 * n + 1]);
                    let gap = if e < 0 {
                        -e
                    } else {
                        e as int
                    };
                    &&& -gap - 8192 <= 2048 * x - 1665 * e <= gap + 8192
                    &&& -gap - 8192 <= 2048 * y - 1665 * e <= gap + 8192
                }
        }),
{
    let f = wavelet::spec_wavelet_filter(6);
    let (s1, s2, s3, s4) = (f.stages[0], f.stages[1], f.stages[2], f.stages[3]);
    reveal_with_fuel(tap_total, 3);
    reveal_with_fuel(wavelet::lifted_by, 5);
    power2::lemma2_to64();
    let a = alternating(len, e, 0);
    let o1 = -((7232 * e + 2048) / 4096);
    let e1 = e + (434 * o1 + 2048) / 4096;
    let o2 = o1 + (12994 * e1 + 2048) / 4096;
    assert(tap_total(s1, 2) == 3634 && tap_total(s2, 2) == 7232);
    assert(tap_total(s3, 2) == 434 && tap_total(s4, 2) == 12994);
    assert(e * 7232 == 7232 * e && o1 * 434 == 434 * o1 && e1 * 12994 == 12994 * e1);
    lemma_alternating(s1, len, e, 0);
    num::lemma_wrap(e as int);
    assert(s1.lifted(a) == a);
    lemma_alternating(s2, len, e, 0);
    num::lemma_wrap(o1);
    assert(s2.lifted(a) == alternating(len, e, o1 as i64));
    lemma_alternating(s3, len, e, o1 as i64);
    num::lemma_wrap(e1);
    assert(s3.lifted(alternating(len, e, o1 as i64)) == alternating(len, e1 as i64, o1 as i64));
    lemma_alternating(s4, len, e1 as i64, o1 as i64);
    num::lemma_wrap(o2);
    assert(f.synthesis(a) == alternating(len, e1 as i64, o2 as i64));
}

/// A polynomial of degree three.
pub struct Cubic {
    pub c: int,
    pub m: int,
    pub q: int,
    pub r: int,
}

impl Cubic {
    /// The value at `k`.
    #[verifier::opaque]
    pub open spec fn at(self, k: int) -> int {
        self.c + self.m * k + self.q * (k * k) + self.r * (k * k * k)
    }

    /// Whether the degree is at most one.
    pub open spec fn affine(self) -> bool {
        self.q == 0 && self.r == 0
    }

    /// Whether the values at `0..len` leave room for the arithmetic.
    pub open spec fn moderate(self, len: nat) -> bool {
        forall|k: int|
            0 <= k < len ==> -0x10_0000_0000_0000 <= #[trigger] self.at(k)
                <= 0x10_0000_0000_0000
    }
}

proof fn lemma_cubic(p: Cubic, k: int)
    ensures
        -p.at(k - 3) + 9 * p.at(k - 1) + 9 * p.at(k + 1) - p.at(k + 3) == 16 * p.at(k),
        p.affine() ==> p.at(k - 1) + p.at(k + 1) == 2 * p.at(k),
{
    reveal(Cubic::at);
    let (m, q, r) = (p.m, p.q, p.r);
    let (a1, a2, a3, a4) = (k - 3, k - 1, k + 1, k + 3);
    assert(-(a1 * a1) + 9 * (a2 * a2) + 9 * (a3 * a3) - a4 * a4 == 16 * (k * k)) by (nonlinear_arith)
        requires
            a1 == k - 3,
            a2 == k - 1,
            a3 == k + 1,
            a4 == k + 3,
    ;
    assert(-(a1 * a1 * a1) + 9 * (a2 * a2 * a2) + 9 * (a3 * a3 * a3) - a4 * a4 * a4 == 16 * (k * k
        * k)) by (nonlinear_arith)
        requires
            a1 == k - 3,
            a2 == k - 1,
            a3 == k + 1,
            a4 == k + 3,
    ;
    lemma_weighted(m, a1, a2, a3, a4, k);
    lemma_weighted(q, a1 * a1, a2 * a2, a3 * a3, a4 * a4, k * k);
    lemma_weighted(r, a1 * a1 * a1, a2 * a2 * a2, a3 * a3 * a3, a4 * a4 * a4, k * k * k);
    assert(m * (k - 1) + m * (k + 1) == 2 * (m * k)) by (nonlinear_arith);
    if p.affine() {
        assert(forall|x: int| #[trigger] (0 * x) == 0);
    }
}

proof fn lemma_weighted(m: int, x1: int, x2: int, x3: int, x4: int, y: int)
    requires
        -x1 + 9 * x2 + 9 * x3 - x4 == 16 * y,
    ensures
        -(m * x1) + 9 * (m * x2) + 9 * (m * x3) - m * x4 == 16 * (m * y),
{
    assert(m * (-x1 + 9 * x2 + 9 * x3 - x4) == -(m * x1) + 9 * (m * x2) + 9 * (m * x3) - m * x4)
        by (nonlinear_arith);
    assert(m * (16 * y) == 16 * (m * y)) by (nonlinear_arith);
}

/// Whether the taps lie evenly about the sample that they are for.
spec fn centred(st: Stage) -> bool {
    &&& st.taps.len() % 2 == 0
    &&& st.d == 1 - st.taps.len() / 2
}

/// Away from the edges, centred taps read every other sample around their own.
proof fn lemma_tap_interior(st: Stage, len: int, k: int, j: int)
    requires
        centred(st),
        st.changes(k),
        len % 2 == 0,
        st.taps.len() - 1 <= k < len - (st.taps.len() - 1),
        0 <= j < st.taps.len(),
    ensures
        st.tap_position(len, k / 2, j) == k + 2 * j + 1 - st.taps.len(),
{
}

proof fn lemma_two_taps(st: Stage, a: Seq<i64>, k: int)
    requires
        centred(st),
        st.taps == seq![1int, 1],
        st.changes(k),
        a.len() % 2 == 0,
        1 <= k < a.len() - 1,
    ensures
        st.tap_sum(a, k / 2, st.taps.len() as int) == a[k - 1] + a[k + 1],
{
    let len = a.len() as int;
    reveal_with_fuel(Stage::tap_sum, 3);
    lemma_tap_interior(st, len, k, 0);
    lemma_tap_interior(st, len, k, 1);
    assert(st.taps[0] == 1 && st.taps[1] == 1);
    assert(st.tap_position(len, k / 2, 0) == k - 1 && st.tap_position(len, k / 2, 1) == k + 1);
    let (x, y) = (a[k - 1] as int, a[k + 1] as int);
    assert(st.taps[0] * x == x && st.taps[1] * y == y);
    assert(st.tap_sum(a, k / 2, 1) == a[k - 1]);
    assert(st.tap_sum(a, k / 2, 2) == st.tap_sum(a, k / 2, 1) + a[k + 1]);
}

proof fn lemma_four_taps(st: Stage, a: Seq<i64>, k: int)
    requires
        centred(st),
        st.taps == seq![-1int, 9, 9, -1],
        st.changes(k),
        a.len() % 2 == 0,
        3 <= k < a.len() - 3,
    ensures
        st.tap_sum(a, k / 2, st.taps.len() as int) == -a[k - 3] + 9 * a[k - 1] + 9 * a[k + 1] - a[k
            + 3],
{
    let len = a.len() as int;
    reveal_with_fuel(Stage::tap_sum, 5);
    lemma_tap_interior(st, len, k, 0);
    lemma_tap_interior(st, len, k, 1);
    lemma_tap_interior(st, len, k, 2);
    lemma_tap_interior(st, len, k, 3);
    assert(st.taps[0] == -1 && st.taps[1] == 9 && st.taps[2] == 9 && st.taps[3] == -1);
    assert(st.tap_sum(a, k / 2, 1) == -a[k - 3]);
    assert(st.tap_sum(a, k / 2, 2) == st.tap_sum(a, k / 2, 1) + 9 * a[k - 1]);
    assert(st.tap_sum(a, k / 2, 3) == st.tap_sum(a, k / 2, 2) + 9 * a[k + 1]);
    assert(st.tap_sum(a, k / 2, 4) == st.tap_sum(a, k / 2, 3) - a[k + 3]);
}

/// One sample after a stage, where nothing wraps.
pub proof fn lemma_sample(st: Stage, a: Seq<i64>, k: int, delta: int)
    requires
        0 <= k < a.len(),
        st.changes(k),
        ({
            let sum = st.tap_sum(a, k / 2, st.taps.len() as int) + st.rounding();
            &&& i64::MIN <= sum <= i64::MAX
            &&& delta == sum / (power2::pow2(st.s) as int)
        }),
        st.kind.adds() ==> i64::MIN <= a[k] + delta <= i64::MAX,
        !st.kind.adds() ==> i64::MIN <= a[k] - delta <= i64::MAX,
    ensures
        st.lifted(a)[k] == if st.kind.adds() {
            a[k] + delta
        } else {
            a[k] - delta
        },
{
    num::lemma_wrap(st.tap_sum(a, k / 2, st.taps.len() as int) + st.rounding());
    num::lemma_wrap(a[k] + delta);
    num::lemma_wrap(a[k] - delta);
}

/// A stage whose taps read nothing but zeros leaves a signal as it is.
proof fn lemma_idle(st: Stage, a: Seq<i64>)
    requires
        a.len() % 2 == 0,
        forall|k: int| 0 <= k < a.len() && !st.changes(k) ==> #[trigger] a[k] == 0,
        st.s < 32,
    ensures
        st.lifted(a) == a,
{
    power2::lemma_pow2_pos(st.s);
    if st.s > 0 {
        power2::lemma_pow2_unfold(st.s);
        power2::lemma_pow2_pos((st.s - 1) as nat);
        power2::lemma2_to64();
        if st.s < 32 {
            power2::lemma_pow2_strictly_increases(st.s, 32);
        }
    }
    let (r, d) = (st.rounding(), power2::pow2(st.s) as int);
    assert(r / d == 0) by {
        vstd::arithmetic::div_mod::lemma_basic_div(r, d);
    }
    assert forall|k: int| 0 <= k < a.len() implies #[trigger] st.lifted(a)[k] == a[k] by {
        if st.changes(k) {
            lemma_tap_sum_flat(st, a, 0, k / 2, st.taps.len() as int);
            assert(st.tap_sum(a, k / 2, st.taps.len() as int) == 0) by (nonlinear_arith)
                requires
                    st.tap_sum(a, k / 2, st.taps.len() as int) == 0 * tap_total(
                        st,
                        st.taps.len() as int,
                    ),
            ;
            lemma_sample(st, a, k, 0);
        }
    }
    assert(st.lifted(a) =~= a);
}

/// What the two stages of index 0, 1 or 2 are.
proof fn lemma_interpolating(index: u64)
    requires
        index <= 2,
    ensures
        ({
            let f = wavelet::spec_wavelet_filter(index);
            let (s1, s2) = (f.stages[0], f.stages[1]);
            &&& f.stages.len() == 2
            &&& s1.kind == LiftType::Type2 && s2.kind == LiftType::Type3
            &&& centred(s1) && centred(s2)
            &&& s1.s < 32
            &&& s1.taps == if index == 2 {
                seq![-1int, 9, 9, -1]
            } else {
                seq![1int, 1]
            }
            &&& power2::pow2(s1.s) == if index == 2 {
                32int
            } else {
                4
            }
            &&& s1.rounding() == power2::pow2(s1.s) / 2
            &&& s2.taps == if index == 1 {
                seq![1int, 1]
            } else {
                seq![-1int, 9, 9, -1]
            }
            &&& power2::pow2(s2.s) == if index == 1 {
                2int
            } else {
                16
            }
            &&& s2.rounding() == power2::pow2(s2.s) / 2
        }),
{
    power2::lemma2_to64();
}

/// How far from the edges a polynomial comes out of a low or a high band.
pub open spec fn margin(index: u64) -> int {
    if index == 1 {
        2
    } else {
        6
    }
}

/// A sample between others that follow a polynomial, `times` times over, and after a
/// stage of index 0, 1 or 2 that takes the mean of them, divided by `times`.
proof fn lemma_on_polynomial(st: Stage, a: Seq<i64>, k: int, p: Cubic, times: int)
    requires
        centred(st),
        st.taps == seq![1int, 1] || st.taps == seq![-1int, 9, 9, -1],
        st.taps.len() == 2 ==> p.affine(),
        st.changes(k),
        a.len() % 2 == 0,
        st.taps.len() - 1 <= k < a.len() - (st.taps.len() - 1),
        forall|i: int|
            k - st.taps.len() < i < k + st.taps.len() && (i - k) % 2 != 0 ==> #[trigger] a[i] == times
                * p.at(i),
    ensures
        st.taps.len() == 2 ==> st.tap_sum(a, k / 2, st.taps.len() as int) == 2 * (times * p.at(
            k,
        )),
        st.taps.len() == 4 ==> st.tap_sum(a, k / 2, st.taps.len() as int) == 16 * (times * p.at(
            k,
        )),
{
    lemma_cubic(p, k);
    if st.taps.len() == 2 {
        lemma_two_taps(st, a, k);
        assert(a[k - 1] == times * p.at(k - 1) && a[k + 1] == times * p.at(k + 1));
        let (x, y, z) = (p.at(k - 1), p.at(k + 1), p.at(k));
        assert(times * x + times * y == 2 * (times * z)) by (nonlinear_arith)
            requires
                x + y == 2 * z,
        ;
    } else {
        lemma_four_taps(st, a, k);
        assert(a[k - 1] == times * p.at(k - 1) && a[k + 1] == times * p.at(k + 1));
        assert(a[k - 3] == times * p.at(k - 3) && a[k + 3] == times * p.at(k + 3));
        lemma_weighted(times, p.at(k - 3), p.at(k - 1), p.at(k + 1), p.at(k + 3), p.at(k));
    }
}

/// A sample that such a stage adds the mean to, or takes it from.
proof fn lemma_mean_lifted(st: Stage, a: Seq<i64>, k: int, p: Cubic, times: int, delta: int)
    requires
        centred(st),
        st.taps == seq![1int, 1] || st.taps == seq![-1int, 9, 9, -1],
        st.taps.len() == 2 ==> p.affine(),
        st.changes(k),
        a.len() % 2 == 0,
        st.taps.len() - 1 <= k < a.len() - (st.taps.len() - 1),
        forall|i: int|
            k - st.taps.len() < i < k + st.taps.len() && (i - k) % 2 != 0 ==> #[trigger] a[i] == times
                * p.at(i),
        -0x10_0000_0000_0000 <= delta <= 0x10_0000_0000_0000,
        -0x20_0000_0000_0000 <= a[k] <= 0x20_0000_0000_0000,
        st.rounding() == power2::pow2(st.s) / 2,
        ({
            let d = power2::pow2(st.s) as int;
            &&& d == 2 || d == 4 || d == 16 || d == 32
            &&& st.taps.len() == 2 ==> 2 * (times * p.at(k)) == d * delta
            &&& st.taps.len() == 4 ==> 16 * (times * p.at(k)) == d * delta
        }),
    ensures
        st.lifted(a)[k] == if st.kind.adds() {
            a[k] + delta
        } else {
            a[k] - delta
        },
{
    lemma_on_polynomial(st, a, k, p, times);
    let d = power2::pow2(st.s) as int;
    let sum = st.tap_sum(a, k / 2, st.taps.len() as int) + st.rounding();
    if d == 2 {
        assert(sum == 2 * delta + 1);
    } else if d == 4 {
        assert(sum == 4 * delta + 2);
    } else if d == 16 {
        assert(sum == 16 * delta + 8);
    } else {
        assert(sum == 32 * delta + 16);
    }
    assert(sum / d == delta);
    lemma_sample(st, a, k, delta);
}

/// The filters of indices 0 to 2 interpolate: with a high band of zeros the low
/// band comes out unchanged at the even positions, and where it follows a
/// polynomial, of degree one for LeGall and of degree three for the other two,
/// the odd positions follow it too, away from the edges.
#[verifier::spinoff_prover]
pub proof fn law_polynomials_reconstruct(index: u64, a: Seq<i64>, p: Cubic)
    requires
        index <= 2,
        index == 1 ==> p.affine(),
        a.len() % 2 == 0,
        p.moderate(a.len()),
        forall|k: int|
            0 <= k < a.len() ==> #[trigger] a[k] == if k % 2 == 0 {
                p.at(k)
            } else {
                0
            },
    ensures
        ({
            let out = wavelet::spec_wavelet_filter(index).synthesis(a);
            &&& out.len() == a.len()
            &&& forall|n: int| 0 <= 2 * n < a.len() ==> #[trigger] out[2 * n] == a[2 * n]
            &&& forall|k: int|
                margin(index) <= k < a.len() - margin(index) ==> #[trigger] out[k] == p.at(k)
        }),
{
    let f = wavelet::spec_wavelet_filter(index);
    let (s1, s2) = (f.stages[0], f.stages[1]);
    lemma_interpolating(index);
    reveal_with_fuel(wavelet::lifted_by, 3);
    lemma_idle(s1, a);
    let out = f.synthesis(a);
    assert(out == s2.lifted(a));
    assert forall|n: int| 0 <= 2 * n < a.len() implies #[trigger] out[2 * n] == a[2 * n] by {
        assert(!s2.changes(2 * n));
    }
    assert forall|k: int| margin(index) <= k < a.len() - margin(index) implies #[trigger] out[k]
        == p.at(k) by {
        if k % 2 == 0 {
            assert(!s2.changes(k));
        } else {
            assert(p.at(k) <= 0x10_0000_0000_0000 && p.at(k) >= -0x10_0000_0000_0000);
            lemma_mean_lifted(s2, a, k, p, 1, p.at(k));
        }
    }
}

/// The other band of the same filters: with a low band of zeros, a high band that
/// follows twice a polynomial, of degree three for Deslauriers-Dubuc (13,7) and of
/// degree one for the other two, comes out as the polynomial with alternating
/// signs, away from the edges.
#[verifier::spinoff_prover]
pub proof fn law_detail_reconstructs(index: u64, a: Seq<i64>, p: Cubic)
    requires
        index <= 2,
        index <= 1 ==> p.affine(),
        a.len() % 2 == 0,
        p.moderate(a.len()),
        forall|k: int|
            0 <= k < a.len() ==> #[trigger] a[k] == if k % 2 == 0 {
                0
            } else {
                2 * p.at(k)
            },
    ensures
        ({
            let out = wavelet::spec_wavelet_filter(index).synthesis(a);
            &&& out.len() == a.len()
            &&& forall|k: int|
                margin(index) <= k < a.len() - margin(index) ==> #[trigger] out[k] == if k % 2 == 0 {
                    -p.at(k)
                } else {
                    p.at(k)
                }
        }),
{
    let f = wavelet::spec_wavelet_filter(index);
    let (s1, s2) = (f.stages[0], f.stages[1]);
    lemma_interpolating(index);
    reveal_with_fuel(wavelet::lifted_by, 3);
    let mid = s1.lifted(a);
    let reach = margin(index) / 2;
    assert forall|k: int| reach <= k < a.len() - reach && k % 2 == 0 implies #[trigger] mid[k]
        == -p.at(k) by {
        assert(p.at(k) <= 0x10_0000_0000_0000 && p.at(k) >= -0x10_0000_0000_0000);
        lemma_mean_lifted(s1, a, k, p, 2, p.at(k));
    }
    let out = f.synthesis(a);
    assert(out == s2.lifted(mid));
    assert forall|k: int| margin(index) <= k < a.len() - margin(index) implies #[trigger] out[k]
        == if k % 2 == 0 {
        -p.at(k)
    } else {
        p.at(k)
    } by {
        if k % 2 == 0 {
            assert(!s2.changes(k));
            assert(mid[k] == -p.at(k));
        } else {
            assert(!s1.changes(k) && mid[k] == a[k]);
            assert(p.at(k) <= 0x10_0000_0000_0000 && p.at(k) >= -0x10_0000_0000_0000);
            lemma_mean_lifted(s2, mid, k, p, -1, -p.at(k));
        }
    }
}

/// Two values, given by how far the second is above the first and by their mean,
/// rounded up.
pub open spec fn spread(mean: int, difference: int) -> (int, int) {
    (mean - (difference + 1) / 2, mean - (difference + 1) / 2 + difference)
}

/// The grid whose samples repeat a tile of two by two: `a` and `b` in the even
/// rows, `c` and `d` in the odd ones.
pub open spec fn tiled(width: int, height: int, a: int, b: int, c: int, d: int) -> Grid {
    Grid::tabulate(
        width,
        height,
        |y: int, x: int|
            if y % 2 == 0 {
                if x % 2 == 0 {
                    a as i64
                } else {
                    b as i64
                }
            } else if x % 2 == 0 {
                c as i64
            } else {
                d as i64
            },
    )
}

/// The grid of one value.
pub open spec fn flat(width: int, height: int, v: int) -> Grid {
    Grid::tabulate(width, height, |y: int, x: int| v as i64)
}

/// A sample with the accuracy bits of a filter rounded off: all filters but those
/// of indices 3 and 5 have one.
pub open spec fn rounded_off(index: u64, v: int) -> int {
    if index == 3 || index == 5 {
        v
    } else {
        (v + 1) / 2
    }
}

/// Whether `v` leaves ample room.
pub open spec fn roomy(v: int) -> bool {
    -0x100_0000_0000_0000 <= v <= 0x100_0000_0000_0000
}

proof fn lemma_spread(index: u64, len: nat, mean: i64, difference: i64)
    requires
        index <= 4,
        len % 2 == 0,
        roomy(mean as int),
        roomy(difference as int),
    ensures
        ({
            let (x, y) = spread(mean as int, difference as int);
            wavelet::spec_wavelet_filter(index).synthesis(alternating(len, mean, difference))
                == alternating(len, x as i64, y as i64)
        }),
{
    law_flat_bands_reconstruct(index, len, mean, difference);
    let (x, y) = spread(mean as int, difference as int);
    let out = wavelet::spec_wavelet_filter(index).synthesis(alternating(len, mean, difference));
    assert forall|k: int| 0 <= k < len implies out[k] == alternating(len, x as i64, y as i64)[k] by {
        let n = k / 2;
        assert(out[2 * n + 1] - out[2 * n] == difference);
        assert(k == 2 * n || k == 2 * n + 1);
    }
    assert(out =~= alternating(len, x as i64, y as i64));
}

proof fn lemma_tiled(width: int, height: int, a: int, b: int, c: int, d: int)
    requires
        0 <= width,
        0 <= height,
    ensures
        tiled(width, height, a, b, c, d).wf(),
        forall|y: int, x: int|
            0 <= y < height && 0 <= x < width ==> #[trigger] tiled(width, height, a, b, c, d).at(
                y,
                x,
            ) == if y % 2 == 0 {
                if x % 2 == 0 {
                    a as i64
                } else {
                    b as i64
                }
            } else if x % 2 == 0 {
                c as i64
            } else {
                d as i64
            },
{
    grid::lemma_tabulate(
        width,
        height,
        |y: int, x: int|
            if y % 2 == 0 {
                if x % 2 == 0 {
                    a as i64
                } else {
                    b as i64
                }
            } else if x % 2 == 0 {
                c as i64
            } else {
                d as i64
            },
    );
}

proof fn lemma_tiled_columns(
    index: u64,
    width: int,
    height: int,
    a: int,
    b: int,
    c: int,
    d: int,
)
    requires
        index <= 4,
        0 <= width,
        0 <= height,
        height % 2 == 0,
        roomy(a) && roomy(b) && roomy(c) && roomy(d),
    ensures
        wavelet::columns_synthesized(
            tiled(width, height, a, b, c, d),
            wavelet::spec_wavelet_filter(index),
        ) == tiled(
            width,
            height,
            spread(a, c).0,
            spread(b, d).0,
            spread(a, c).1,
            spread(b, d).1,
        ),
{
    let f = wavelet::spec_wavelet_filter(index);
    let g = tiled(width, height, a, b, c, d);
    let (l, r) = (spread(a, c), spread(b, d));
    let want = tiled(width, height, l.0, r.0, l.1, r.1);
    let got = wavelet::columns_synthesized(g, f);
    lemma_tiled(width, height, a, b, c, d);
    lemma_tiled(width, height, l.0, r.0, l.1, r.1);
    lemma_spread(index, height as nat, a as i64, c as i64);
    lemma_spread(index, height as nat, b as i64, d as i64);
    grid::lemma_tabulate(width, height, |y: int, x: int| f.synthesis(g.column(x))[y]);
    assert forall|y: int, x: int| 0 <= y < height && 0 <= x < width implies #[trigger] got.at(y, x)
        == want.at(y, x) by {
        if x % 2 == 0 {
            assert(g.column(x) =~= alternating(height as nat, a as i64, c as i64));
        } else {
            assert(g.column(x) =~= alternating(height as nat, b as i64, d as i64));
        }
    }
    grid::lemma_grid_equal(got, want);
}

proof fn lemma_tiled_rows(index: u64, width: int, height: int, a: int, b: int, c: int, d: int)
    requires
        index <= 4,
        0 <= width,
        0 <= height,
        width % 2 == 0,
        roomy(a) && roomy(b) && roomy(c) && roomy(d),
    ensures
        wavelet::rows_synthesized(
            tiled(width, height, a, b, c, d),
            wavelet::spec_wavelet_filter(index),
        ) == tiled(
            width,
            height,
            spread(a, b).0,
            spread(a, b).1,
            spread(c, d).0,
            spread(c, d).1,
        ),
{
    let f = wavelet::spec_wavelet_filter(index);
    let g = tiled(width, height, a, b, c, d);
    let (l, r) = (spread(a, b), spread(c, d));
    let want = tiled(width, height, l.0, l.1, r.0, r.1);
    let got = wavelet::rows_synthesized(g, f);
    lemma_tiled(width, height, a, b, c, d);
    lemma_tiled(width, height, l.0, l.1, r.0, r.1);
    lemma_spread(index, width as nat, a as i64, b as i64);
    lemma_spread(index, width as nat, c as i64, d as i64);
    grid::lemma_tabulate(width, height, |y: int, x: int| f.synthesis(g.row(y))[x]);
    assert forall|y: int, x: int| 0 <= y < height && 0 <= x < width implies #[trigger] got.at(y, x)
        == want.at(y, x) by {
        if y % 2 == 0 {
            assert(g.row(y) =~= alternating(width as nat, a as i64, b as i64));
        } else {
            assert(g.row(y) =~= alternating(width as nat, c as i64, d as i64));
        }
    }
    grid::lemma_grid_equal(got, want);
}

proof fn lemma_tiled_descaled(index: u64, width: int, height: int, a: int, b: int, c: int, d: int)
    requires
        index <= 4,
        0 <= width,
        0 <= height,
        ample() >= a >= -ample(),
        ample() >= b >= -ample(),
        ample() >= c >= -ample(),
        ample() >= d >= -ample(),
    ensures
        wavelet::descaled(
            tiled(width, height, a, b, c, d),
            wavelet::spec_wavelet_filter(index).bit_shift,
        ) == tiled(
            width,
            height,
            rounded_off(index, a),
            rounded_off(index, b),
            rounded_off(index, c),
            rounded_off(index, d),
        ),
{
    let shift = wavelet::spec_wavelet_filter(index).bit_shift;
    let g = tiled(width, height, a, b, c, d);
    let want = tiled(
        width,
        height,
        rounded_off(index, a),
        rounded_off(index, b),
        rounded_off(index, c),
        rounded_off(index, d),
    );
    power2::lemma2_to64();
    num::lemma_wrap(a + 1);
    num::lemma_wrap(b + 1);
    num::lemma_wrap(c + 1);
    num::lemma_wrap(d + 1);
    assert(wavelet::descaled(g, shift).data =~= want.data);
}

/// The four flat bands of a level and the plane that they make, with any pair of
/// the filters of indices 0 to 4: HL is the difference between neighbours in a row,
/// LH that between neighbours in a column, HH the difference of differences, and
/// LL the mean; vertical synthesis comes first, and the accuracy bits are those
/// of the horizontal filter.
pub proof fn law_flat_quadrants_reconstruct(
    v_index: u64,
    ho_index: u64,
    width: int,
    height: int,
    ll: int,
    hl: int,
    lh: int,
    hh: int,
)
    requires
        v_index <= 4,
        ho_index <= 4,
        0 <= width,
        0 <= height,
        -0x40_0000_0000_0000 <= ll <= 0x40_0000_0000_0000,
        -0x40_0000_0000_0000 <= hl <= 0x40_0000_0000_0000,
        -0x40_0000_0000_0000 <= lh <= 0x40_0000_0000_0000,
        -0x40_0000_0000_0000 <= hh <= 0x40_0000_0000_0000,
    ensures
        ({
            let (left_top, left_bottom) = spread(ll, lh);
            let (step_top, step_bottom) = spread(hl, hh);
            let (a, b) = spread(left_top, step_top);
            let (c, d) = spread(left_bottom, step_bottom);
            wavelet::spec_vh_synthesis(
                flat(width, height, ll),
                flat(width, height, hl),
                flat(width, height, lh),
                flat(width, height, hh),
                wavelet::spec_wavelet_filter(v_index),
                wavelet::spec_wavelet_filter(ho_index),
            ) == tiled(
                2 * width,
                2 * height,
                rounded_off(ho_index, a),
                rounded_off(ho_index, b),
                rounded_off(ho_index, c),
                rounded_off(ho_index, d),
            )
        }),
{
    let (w, h) = (2 * width, 2 * height);
    let (g1, g2) = (flat(width, height, ll), flat(width, height, hl));
    let (g3, g4) = (flat(width, height, lh), flat(width, height, hh));
    grid::lemma_tabulate(width, height, |y: int, x: int| ll as i64);
    grid::lemma_tabulate(width, height, |y: int, x: int| hl as i64);
    grid::lemma_tabulate(width, height, |y: int, x: int| lh as i64);
    grid::lemma_tabulate(width, height, |y: int, x: int| hh as i64);
    let woven = wavelet::interleaved_quadrants(g1, g2, g3, g4);
    lemma_tiled(w, h, ll, hl, lh, hh);
    grid::lemma_tabulate(
        w,
        h,
        |y: int, x: int|
            if y % 2 == 0 {
                if x % 2 == 0 {
                    g1.at(y / 2, x / 2)
                } else {
                    g2.at(y / 2, x / 2)
                }
            } else if x % 2 == 0 {
                g3.at(y / 2, x / 2)
            } else {
                g4.at(y / 2, x / 2)
            },
    );
    let want = tiled(w, h, ll, hl, lh, hh);
    assert forall|y: int, x: int| 0 <= y < h && 0 <= x < w implies #[trigger] woven.at(y, x)
        == want.at(y, x) by {
        assert(0 <= y / 2 < height && 0 <= x / 2 < width);
        assert(g1.at(y / 2, x / 2) == ll as i64 && g2.at(y / 2, x / 2) == hl as i64);
        assert(g3.at(y / 2, x / 2) == lh as i64 && g4.at(y / 2, x / 2) == hh as i64);
    }
    grid::lemma_grid_equal(woven, want);
    let (left_top, left_bottom) = spread(ll, lh);
    let (step_top, step_bottom) = spread(hl, hh);
    lemma_tiled_columns(v_index, w, h, ll, hl, lh, hh);
    lemma_tiled_rows(ho_index, w, h, left_top, step_top, left_bottom, step_bottom);
    let (a, b) = spread(left_top, step_top);
    let (c, d) = spread(left_bottom, step_bottom);
    lemma_tiled_descaled(ho_index, w, h, a, b, c, d);
}

/// The two flat bands of a horizontal level and the plane that they make, with a
/// filter of index 0 to 4.
pub proof fn law_flat_halves_reconstruct(
    index: u64,
    width: int,
    height: int,
    low: int,
    high: int,
)
    requires
        index <= 4,
        0 <= width,
        0 <= height,
        roomy(low),
        roomy(high),
    ensures
        ({
            let (a, b) = spread(low, high);
            wavelet::spec_h_synthesis(
                flat(width, height, low),
                flat(width, height, high),
                wavelet::spec_wavelet_filter(index),
            ) == tiled(
                2 * width,
                height,
                rounded_off(index, a),
                rounded_off(index, b),
                rounded_off(index, a),
                rounded_off(index, b),
            )
        }),
{
    let w = 2 * width;
    let (l, r) = (flat(width, height, low), flat(width, height, high));
    grid::lemma_tabulate(width, height, |y: int, x: int| low as i64);
    grid::lemma_tabulate(width, height, |y: int, x: int| high as i64);
    lemma_tiled(w, height, low, high, low, high);
    let woven = wavelet::interleaved_columns(l, r);
    grid::lemma_tabulate(
        w,
        height,
        |y: int, x: int|
            if x % 2 == 0 {
                l.at(y, x / 2)
            } else {
                r.at(y, x / 2)
            },
    );
    let want = tiled(w, height, low, high, low, high);
    assert forall|y: int, x: int| 0 <= y < height && 0 <= x < w implies #[trigger] woven.at(y, x)
        == want.at(y, x) by {
        assert(0 <= x / 2 < width);
        assert(l.at(y, x / 2) == low as i64 && r.at(y, x / 2) == high as i64);
    }
    grid::lemma_grid_equal(woven, want);
    lemma_tiled_rows(index, w, height, low, high, low, high);
    let (a, b) = spread(low, high);
    lemma_tiled_descaled(index, w, height, a, b, a, b);
}

proof fn lemma_flat_tiles(width: int, height: int, v: int)
    ensures
        tiled(width, height, v, v, v, v) == flat(width, height, v),
{
    assert(tiled(width, height, v, v, v, v).data =~= flat(width, height, v).data);
}

/// The value that `levels` levels make of a flat DC band.
pub open spec fn levelled(index: u64, v: int, levels: nat) -> int
    decreases levels,
{
    if levels == 0 {
        v
    } else {
        rounded_off(index, levelled(index, v, (levels - 1) as nat))
    }
}

proof fn lemma_levelled(index: u64, v: int, levels: nat)
    requires
        -0x40_0000_0000_0000 <= v <= 0x40_0000_0000_0000,
    ensures
        -0x40_0000_0000_0000 <= levelled(index, v, levels) <= 0x40_0000_0000_0000,
    decreases levels,
{
    if levels > 0 {
        lemma_levelled(index, v, (levels - 1) as nat);
    }
}

/// The bands of a component of which the DC band alone is not zero, and flat.
pub open spec fn dc_only(c: Coeffs, v: int) -> bool {
    &&& c.bands[0] == flat(c.bands[0].width, c.bands[0].height, v)
    &&& forall|k: int|
        0 < k < c.bands.len() ==> #[trigger] c.bands[k] == flat(
            c.bands[k].width,
            c.bands[k].height,
            0,
        )
}

proof fn lemma_flat_horizontal(c: Coeffs, t: Transform, v: int, n: nat)
    requires
        t.wavelet_index_ho <= 4,
        c.shaped(t.dwt_depth_ho as int, t.dwt_depth as int),
        dc_only(c, v),
        n <= t.dwt_depth_ho,
        -0x40_0000_0000_0000 <= v <= 0x40_0000_0000_0000,
    ensures
        transform::horizontal_levels(c, wavelet::spec_wavelet_filter(t.wavelet_index_ho), n)
            == flat(
            c.bands[0].width * power2::pow2(n),
            c.bands[0].height,
            levelled(t.wavelet_index_ho, v, n),
        ),
        c.bands[0].width >= 0,
        c.bands[0].height >= 0,
    decreases n,
{
    let index = t.wavelet_index_ho;
    let (w, h) = (c.bands[0].width, c.bands[0].height);
    assert(c.bands[0].wf());
    power2::lemma2_to64();
    if n > 0 {
        let m = (n - 1) as nat;
        lemma_flat_horizontal(c, t, v, m);
        lemma_levelled(index, v, m);
        let u = levelled(index, v, m);
        let wide = w * power2::pow2(m);
        let high = c.bands[n as int];
        power2::lemma_pow2_unfold(n);
        assert(2 * (w * power2::pow2(m)) == w * power2::pow2(n)) by (nonlinear_arith)
            requires
                power2::pow2(n) == 2 * power2::pow2(m),
        ;
        assert(wide >= 0) by (nonlinear_arith)
            requires
                wide == w * power2::pow2(m),
                w >= 0,
        ;
        let bw = transform::ceil_div(
            c.width as int,
            power2::pow2((t.dwt_depth_ho + t.dwt_depth) as nat) as int,
        );
        lemma_times_one(bw);
        assert(c.bands[0].width == bw * power2::pow2(0));
        assert(high.width == bw * power2::pow2(m));
        assert(high == flat(wide, h, 0));
        law_flat_halves_reconstruct(index, wide, h, u, 0);
        lemma_flat_tiles(2 * wide, h, rounded_off(index, u));
    } else {
        lemma_times_one(w);
    }
}

proof fn lemma_times_one(n: int)
    ensures
        n * power2::pow2(0) == n,
{
    power2::lemma2_to64();
    assert(n * 1 == n) by (nonlinear_arith);
}

proof fn lemma_flat_square(c: Coeffs, t: Transform, v: int, n: nat)
    requires
        t.wavelet_index <= 4,
        t.wavelet_index_ho <= 4,
        c.shaped(t.dwt_depth_ho as int, t.dwt_depth as int),
        dc_only(c, v),
        n <= t.dwt_depth,
        -0x40_0000_0000_0000 <= v <= 0x40_0000_0000_0000,
    ensures
        transform::square_levels(
            c,
            t.dwt_depth_ho as nat,
            wavelet::spec_wavelet_filter(t.wavelet_index),
            wavelet::spec_wavelet_filter(t.wavelet_index_ho),
            n,
        ) == flat(
            c.bands[0].width * power2::pow2((t.dwt_depth_ho + n) as nat),
            c.bands[0].height * power2::pow2(n),
            levelled(t.wavelet_index_ho, v, (t.dwt_depth_ho + n) as nat),
        ),
    decreases n,
{
    let index = t.wavelet_index_ho;
    let ho = t.dwt_depth_ho as nat;
    let (w, h) = (c.bands[0].width, c.bands[0].height);
    assert(c.bands[0].wf());
    power2::lemma2_to64();
    if n == 0 {
        lemma_flat_horizontal(c, t, v, ho);
        lemma_times_one(h);
    } else {
        let m = (n - 1) as nat;
        lemma_flat_square(c, t, v, m);
        lemma_levelled(index, v, ho + m);
        let u = levelled(index, v, ho + m);
        let (wide, high) = (w * power2::pow2(ho + m), h * power2::pow2(m));
        power2::lemma_pow2_unfold(n);
        power2::lemma_pow2_unfold(ho + n);
        assert(2 * wide == w * power2::pow2(ho + n) && wide >= 0) by (nonlinear_arith)
            requires
                wide == w * power2::pow2(ho + m),
                power2::pow2(ho + n) == 2 * power2::pow2(ho + m),
                w >= 0,
        ;
        assert(2 * high == h * power2::pow2(n) && high >= 0) by (nonlinear_arith)
            requires
                high == h * power2::pow2(m),
                power2::pow2(n) == 2 * power2::pow2(m),
                h >= 0,
        ;
        let first = ho + 3 * n - 2;
        let level = ho + n;
        let bw = transform::ceil_div(
            c.width as int,
            power2::pow2((t.dwt_depth_ho + t.dwt_depth) as nat) as int,
        );
        let bh = transform::ceil_div(c.height as int, power2::pow2(t.dwt_depth as nat) as int);
        lemma_times_one(bw);
        lemma_times_one(bh);
        assert(w == bw * power2::pow2(0) && h == bh * power2::pow2(0));
        assert forall|k: int| first <= k < first + 3 implies #[trigger] c.bands[k] == flat(
            wide,
            high,
            0,
        ) by {
            assert(subband::band_level(ho as int, k) == level);
            assert(c.bands[k].wf());
        }
        law_flat_quadrants_reconstruct(t.wavelet_index, index, wide, high, u, 0, 0, 0);
        lemma_flat_tiles(2 * wide, 2 * high, rounded_off(index, u));
        assert(c.bands[first] == flat(wide, high, 0) && c.bands[first + 1] == flat(wide, high, 0)
            && c.bands[first + 2] == flat(wide, high, 0));
    }
}

/// A DC band alone makes a flat picture: with any pair of the filters of indices 0
/// to 4, at any depths, the inverse transform of a flat DC band and nothing else is
/// a flat plane, at the value of the DC band less the accuracy bits of each level.
pub proof fn law_dc_band_alone_is_flat(c: Coeffs, t: Transform, v: int)
    requires
        t.wavelet_index <= 4,
        t.wavelet_index_ho <= 4,
        c.shaped(t.dwt_depth_ho as int, t.dwt_depth as int),
        dc_only(c, v),
        -0x40_0000_0000_0000 <= v <= 0x40_0000_0000_0000,
    ensures
        transform::spec_idwt(c, t) == Ok::<Grid, Error>(
            flat(
                c.bands[0].width * power2::pow2((t.dwt_depth_ho + t.dwt_depth) as nat),
                c.bands[0].height * power2::pow2(t.dwt_depth as nat),
                levelled(t.wavelet_index_ho, v, (t.dwt_depth_ho + t.dwt_depth) as nat),
            ),
        ),
{
    lemma_flat_square(c, t, v, t.dwt_depth as nat);
}

} // verus!
