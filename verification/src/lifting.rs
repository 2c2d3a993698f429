//! The filters, sample by sample: how every position of a signal comes out of its
//! synthesis, the edges included.
use crate::reconstruction;
use crate::wavelet;
use crate::wavelet::Stage;
use vstd::arithmetic::power2;
use vstd::prelude::*;

verus! {

/// The sample at position `k`; beyond an edge, the last one before it of the same
/// parity.
pub open spec fn near(a: Seq<i64>, k: int) -> int {
    if k < 0 {
        a[k % 2] as int
    } else if k >= a.len() {
        a[a.len() - 2 + k % 2] as int
    } else {
        a[k] as int
    }
}

/// The two samples at distance `d` from position `k`.
pub open spec fn around(a: Seq<i64>, k: int, d: int) -> int {
    near(a, k - d) + near(a, k + d)
}

/// Sixteen times the value at `k` of the cubic through the four neighbours of its
/// other parity.
pub open spec fn cubic_around(a: Seq<i64>, k: int) -> int {
    9 * around(a, k, 1) - around(a, k, 3)
}

/// Whether the taps lie evenly about the sample that they are for.
spec fn centred(st: Stage) -> bool {
    &&& st.taps.len() % 2 == 0
    &&& st.d == 1 - st.taps.len() / 2
}

/// The sum of the taps of a stage about position `k`, one or an even number of
/// them.
spec fn taps_around(st: Stage, a: Seq<i64>, k: int) -> int {
    let t = st.taps;
    if t.len() == 1 {
        t[0] * near(
            a,
            if k % 2 == 0 {
                k + 1
            } else {
                k - 1
            },
        )
    } else if t.len() == 2 {
        t[0] * near(a, k - 1) + t[1] * near(a, k + 1)
    } else if t.len() == 4 {
        t[0] * near(a, k - 3) + t[1] * near(a, k - 1) + t[2] * near(a, k + 1) + t[3] * near(
            a,
            k + 3,
        )
    } else {
        t[0] * near(a, k - 7) + t[1] * near(a, k - 5) + t[2] * near(a, k - 3) + t[3] * near(
            a,
            k - 1,
        ) + t[4] * near(a, k + 1) + t[5] * near(a, k + 3) + t[6] * near(a, k + 5) + t[7] * near(
            a,
            k + 7,
        )
    }
}

proof fn lemma_near(st: Stage, a: Seq<i64>, k: int, j: int)
    requires
        a.len() % 2 == 0,
        0 <= k < a.len(),
        st.changes(k),
    ensures
        a[st.tap_position(a.len() as int, k / 2, j)] == near(a, k + 2 * (st.d + j) - 1),
{
}

proof fn lemma_taps_around(st: Stage, a: Seq<i64>, k: int)
    requires
        a.len() % 2 == 0,
        0 <= k < a.len(),
        st.changes(k),
        ({
            ||| centred(st) && (st.taps.len() == 2 || st.taps.len() == 4 || st.taps.len() == 8)
            ||| st.taps.len() == 1 && st.d == if st.kind.changes_even() {
                1int
            } else {
                0
            }
        }),
    ensures
        st.tap_sum(a, k / 2, st.taps.len() as int) == taps_around(st, a, k),
{
    let n = st.taps.len();
    if n == 1 {
        reveal_with_fuel(Stage::tap_sum, 2);
        lemma_near(st, a, k, 0);
    } else if n == 2 {
        reveal_with_fuel(Stage::tap_sum, 3);
        lemma_near(st, a, k, 0);
        lemma_near(st, a, k, 1);
    } else if n == 4 {
        reveal_with_fuel(Stage::tap_sum, 5);
        lemma_near(st, a, k, 0);
        lemma_near(st, a, k, 1);
        lemma_near(st, a, k, 2);
        lemma_near(st, a, k, 3);
    } else {
        reveal_with_fuel(Stage::tap_sum, 9);
        lemma_near(st, a, k, 0);
        lemma_near(st, a, k, 1);
        lemma_near(st, a, k, 2);
        lemma_near(st, a, k, 3);
        lemma_near(st, a, k, 4);
        lemma_near(st, a, k, 5);
        lemma_near(st, a, k, 6);
        lemma_near(st, a, k, 7);
    }
}

/// Whether the samples are moderate enough for one more stage of any filter.
spec fn bounded(a: Seq<i64>) -> bool {
    forall|k: int| 0 <= k < a.len() ==> -0x8000_0000_0000 <= #[trigger] a[k] <= 0x8000_0000_0000
}

/// Whether a stage has the shape of those of the filters.
spec fn regular(st: Stage) -> bool {
    &&& st.s <= 12
    &&& forall|j: int| 0 <= j < st.taps.len() ==> -6497 <= #[trigger] st.taps[j] <= 6497
    &&& {
        ||| centred(st) && (st.taps.len() == 2 || st.taps.len() == 4 || st.taps.len() == 8)
        ||| st.taps.len() == 1 && st.d == if st.kind.changes_even() {
            1int
        } else {
            0
        }
    }
}

proof fn lemma_product_bound(t: int, x: int)
    requires
        -6497 <= t <= 6497,
        -0x8000_0000_0000 <= x <= 0x8000_0000_0000,
    ensures
        -6497 * 0x8000_0000_0000 <= t * x <= 6497 * 0x8000_0000_0000,
{
    assert(-6497 * 0x8000_0000_0000 <= t * x <= 6497 * 0x8000_0000_0000) by (nonlinear_arith)
        requires
            -6497 <= t <= 6497,
            -0x8000_0000_0000 <= x <= 0x8000_0000_0000,
    ;
}

/// The sample at position `k` after a stage, where nothing wraps.
proof fn lemma_lifted(st: Stage, a: Seq<i64>, k: int)
    requires
        a.len() % 2 == 0,
        bounded(a),
        0 <= k < a.len(),
        st.changes(k),
        regular(st),
    ensures
        ({
            let delta = (taps_around(st, a, k) + st.rounding()) / (power2::pow2(st.s) as int);
            st.lifted(a)[k] == if st.kind.adds() {
                a[k] + delta
            } else {
                a[k] - delta
            }
        }),
{
    let t = st.taps;
    lemma_taps_around(st, a, k);
    let sum = taps_around(st, a, k);
    assert(-8 * 6497 * 0x8000_0000_0000 <= sum <= 8 * 6497 * 0x8000_0000_0000) by {
        if t.len() == 1 {
            lemma_product_bound(
                t[0],
                near(
                    a,
                    if k % 2 == 0 {
                        k + 1
                    } else {
                        k - 1
                    },
                ),
            );
        } else if t.len() == 2 {
            lemma_product_bound(t[0], near(a, k - 1));
            lemma_product_bound(t[1], near(a, k + 1));
        } else if t.len() == 4 {
            lemma_product_bound(t[0], near(a, k - 3));
            lemma_product_bound(t[1], near(a, k - 1));
            lemma_product_bound(t[2], near(a, k + 1));
            lemma_product_bound(t[3], near(a, k + 3));
        } else {
            lemma_product_bound(t[0], near(a, k - 7));
            lemma_product_bound(t[1], near(a, k - 5));
            lemma_product_bound(t[2], near(a, k - 3));
            lemma_product_bound(t[3], near(a, k - 1));
            lemma_product_bound(t[4], near(a, k + 1));
            lemma_product_bound(t[5], near(a, k + 3));
            lemma_product_bound(t[6], near(a, k + 5));
            lemma_product_bound(t[7], near(a, k + 7));
        }
    }
    power2::lemma2_to64();
    power2::lemma_pow2_pos(st.s);
    if st.s > 0 {
        power2::lemma_pow2_unfold(st.s);
        power2::lemma_pow2_pos((st.s - 1) as nat);
    }
    if st.s < 12 {
        power2::lemma_pow2_strictly_increases(st.s, 12);
    }
    let (whole, d) = (sum + st.rounding(), power2::pow2(st.s) as int);
    let delta = whole / d;
    assert(-0x7000_0000_0000_0000 <= delta <= 0x7000_0000_0000_0000) by (nonlinear_arith)
        requires
            delta == whole / d,
            d >= 1,
            -0x7000_0000_0000_0000 <= whole <= 0x7000_0000_0000_0000,
    ;
    reconstruction::lemma_sample(st, a, k, delta);
}

/// How the samples of a signal come out at the even positions `even`, and how at
/// the odd ones, in terms of the signal and of what came out beside them.
pub open spec fn comes_out(
    a: Seq<i64>,
    out: Seq<i64>,
    even: spec_fn(int) -> int,
    odd: spec_fn(int) -> int,
) -> bool {
    &&& out.len() == a.len()
    &&& forall|k: int|
        0 <= k < a.len() ==> #[trigger] out[k] == if k % 2 == 0 {
            even(k)
        } else {
            odd(k)
        }
}

/// Whether all samples leave room for the arithmetic of every filter.
pub open spec fn modest(a: Seq<i64>) -> bool {
    forall|k: int| 0 <= k < a.len() ==> -0x1000_0000_0000 <= #[trigger] a[k] <= 0x1000_0000_0000
}

/// A sample after a stage with one tap, on the other sample of the pair.
proof fn lemma_one(st: Stage, a: Seq<i64>, k: int)
    requires
        a.len() % 2 == 0,
        bounded(a),
        0 <= k < a.len(),
        st.changes(k),
        st.taps == seq![1int],
        st.d == if st.kind.changes_even() {
            1int
        } else {
            0
        },
        st.s <= 12,
    ensures
        ({
            let other = if k % 2 == 0 {
                a[k + 1]
            } else {
                a[k - 1]
            };
            let delta = (other + st.rounding()) / (power2::pow2(st.s) as int);
            st.lifted(a)[k] == if st.kind.adds() {
                a[k] + delta
            } else {
                a[k] - delta
            }
        }),
{
    lemma_lifted(st, a, k);
    assert(st.taps[0] == 1);
}

/// A sample after a stage with two equal taps.
proof fn lemma_two(st: Stage, a: Seq<i64>, k: int, t: int)
    requires
        a.len() % 2 == 0,
        bounded(a),
        0 <= k < a.len(),
        st.changes(k),
        st.taps == seq![t, t],
        st.d == 0,
        st.s <= 12,
        -6497 <= t <= 6497,
    ensures
        ({
            let delta = (t * around(a, k, 1) + st.rounding()) / (power2::pow2(st.s) as int);
            st.lifted(a)[k] == if st.kind.adds() {
                a[k] + delta
            } else {
                a[k] - delta
            }
        }),
{
    lemma_lifted(st, a, k);
    let (x, y) = (near(a, k - 1), near(a, k + 1));
    assert(t * x + t * y == t * (x + y)) by (nonlinear_arith);
}

/// A sample after a stage with the four taps that interpolate cubics.
proof fn lemma_four(st: Stage, a: Seq<i64>, k: int)
    requires
        a.len() % 2 == 0,
        bounded(a),
        0 <= k < a.len(),
        st.changes(k),
        st.taps == seq![-1int, 9, 9, -1],
        st.d == -1,
        st.s <= 12,
    ensures
        ({
            let delta = (cubic_around(a, k) + st.rounding()) / (power2::pow2(st.s) as int);
            st.lifted(a)[k] == if st.kind.adds() {
                a[k] + delta
            } else {
                a[k] - delta
            }
        }),
{
    lemma_lifted(st, a, k);
    lemma_shared(9, near(a, k - 1), near(a, k + 1));
    lemma_shared(-1, near(a, k - 3), near(a, k + 3));
    let t = st.taps;
    assert(t[0] == -1 && t[1] == 9 && t[2] == 9 && t[3] == -1);
    assert(taps_around(st, a, k) == cubic_around(a, k));
}

/// A sample after a stage with eight taps, the same on both sides.
proof fn lemma_eight(st: Stage, a: Seq<i64>, k: int, p: int, q: int, r: int, s: int)
    requires
        a.len() % 2 == 0,
        bounded(a),
        0 <= k < a.len(),
        st.changes(k),
        st.taps == seq![s, r, q, p, p, q, r, s],
        st.d == -3,
        st.s <= 12,
        -6497 <= p <= 6497,
        -6497 <= q <= 6497,
        -6497 <= r <= 6497,
        -6497 <= s <= 6497,
    ensures
        ({
            let delta = (p * around(a, k, 1) + q * around(a, k, 3) + r * around(a, k, 5) + s
                * around(a, k, 7) + st.rounding()) / (power2::pow2(st.s) as int);
            st.lifted(a)[k] == if st.kind.adds() {
                a[k] + delta
            } else {
                a[k] - delta
            }
        }),
{
    lemma_lifted(st, a, k);
    lemma_shared(p, near(a, k - 1), near(a, k + 1));
    lemma_shared(q, near(a, k - 3), near(a, k + 3));
    lemma_shared(r, near(a, k - 5), near(a, k + 5));
    lemma_shared(s, near(a, k - 7), near(a, k + 7));
}

proof fn lemma_shared(t: int, x: int, y: int)
    ensures
        t * x + t * y == t * (x + y),
{
    assert(t * x + t * y == t * (x + y)) by (nonlinear_arith);
}

/// Signals with equal samples at one parity look alike from the other.
proof fn lemma_alike_around(a: Seq<i64>, b: Seq<i64>, k: int)
    requires
        a.len() == b.len(),
        a.len() % 2 == 0,
        0 <= k < a.len(),
        forall|i: int| 0 <= i < a.len() && i % 2 != k % 2 ==> #[trigger] a[i] == b[i],
    ensures
        around(a, k, 1) == around(b, k, 1),
        around(a, k, 3) == around(b, k, 3),
        around(a, k, 5) == around(b, k, 5),
        around(a, k, 7) == around(b, k, 7),
        cubic_around(a, k) == cubic_around(b, k),
{
}

proof fn lemma_around_bound(a: Seq<i64>, k: int, b: int)
    requires
        a.len() % 2 == 0,
        0 <= k < a.len(),
        forall|i: int| 0 <= i < a.len() && i % 2 != k % 2 ==> -b <= #[trigger] a[i] <= b,
    ensures
        -2 * b <= around(a, k, 1) <= 2 * b,
        -2 * b <= around(a, k, 3) <= 2 * b,
        -2 * b <= around(a, k, 5) <= 2 * b,
        -2 * b <= around(a, k, 7) <= 2 * b,
        -20 * b <= cubic_around(a, k) <= 20 * b,
{
}

proof fn lemma_come_out_0(a: Seq<i64>)
    requires
        a.len() % 2 == 0,
        modest(a),
    ensures
        ({
            let out = wavelet::spec_wavelet_filter(0).synthesis(a);
            comes_out(
                a,
                out,
                |k: int| a[k] - (around(a, k, 1) + 2) / 4,
                |k: int| a[k] + (cubic_around(out, k) + 8) / 16,
            )
        }),
{
    let f = wavelet::spec_wavelet_filter(0);
    let (s1, s2) = (f.stages[0], f.stages[1]);
    reveal_with_fuel(wavelet::lifted_by, 3);
    power2::lemma2_to64();
    let mid = s1.lifted(a);
    let out = f.synthesis(a);
    assert(out == s2.lifted(mid));
    assert forall|k: int| 0 <= k < a.len() && k % 2 == 0 implies #[trigger] mid[k] == a[k] - (around(a, k, 1) + 2) / 4 by {
        lemma_two(s1, a, k, 1);
    }
    assert forall|k: int| 0 <= k < a.len() && k % 2 == 1 implies #[trigger] mid[k] == a[k] by {
        assert(!s1.changes(k));
    }
    assert forall|k: int| 0 <= k < a.len() implies -0x8000_0000_0000 <= #[trigger] mid[k]
        <= 0x8000_0000_0000 by {
        if k % 2 == 0 {
            lemma_around_bound(a, k, 0x1000_0000_0000);
        }
    }
    assert forall|k: int| 0 <= k < a.len() && k % 2 == 0 implies #[trigger] out[k] == mid[k] by {
        assert(!s2.changes(k));
    }
    assert forall|k: int| 0 <= k < a.len() && k % 2 == 1 implies #[trigger] out[k] == a[k] + (cubic_around(out, k) + 8) / 16 by {
        lemma_four(s2, mid, k);
        lemma_alike_around(mid, out, k);
    }
}

proof fn lemma_come_out_1(a: Seq<i64>)
    requires
        a.len() % 2 == 0,
        modest(a),
    ensures
        ({
            let out = wavelet::spec_wavelet_filter(1).synthesis(a);
            comes_out(
                a,
                out,
                |k: int| a[k] - (around(a, k, 1) + 2) / 4,
                |k: int| a[k] + (around(out, k, 1) + 1) / 2,
            )
        }),
{
    let f = wavelet::spec_wavelet_filter(1);
    let (s1, s2) = (f.stages[0], f.stages[1]);
    reveal_with_fuel(wavelet::lifted_by, 3);
    power2::lemma2_to64();
    let mid = s1.lifted(a);
    let out = f.synthesis(a);
    assert(out == s2.lifted(mid));
    assert forall|k: int| 0 <= k < a.len() && k % 2 == 0 implies #[trigger] mid[k] == a[k] - (around(a, k, 1) + 2) / 4 by {
        lemma_two(s1, a, k, 1);
    }
    assert forall|k: int| 0 <= k < a.len() && k % 2 == 1 implies #[trigger] mid[k] == a[k] by {
        assert(!s1.changes(k));
    }
    assert forall|k: int| 0 <= k < a.len() implies -0x8000_0000_0000 <= #[trigger] mid[k]
        <= 0x8000_0000_0000 by {
        if k % 2 == 0 {
            lemma_around_bound(a, k, 0x1000_0000_0000);
        }
    }
    assert forall|k: int| 0 <= k < a.len() && k % 2 == 0 implies #[trigger] out[k] == mid[k] by {
        assert(!s2.changes(k));
    }
    assert forall|k: int| 0 <= k < a.len() && k % 2 == 1 implies #[trigger] out[k] == a[k] + (around(out, k, 1) + 1) / 2 by {
        lemma_two(s2, mid, k, 1);
        lemma_alike_around(mid, out, k);
    }
}

proof fn lemma_come_out_2(a: Seq<i64>)
    requires
        a.len() % 2 == 0,
        modest(a),
    ensures
        ({
            let out = wavelet::spec_wavelet_filter(2).synthesis(a);
            comes_out(
                a,
                out,
                |k: int| a[k] - (cubic_around(a, k) + 16) / 32,
                |k: int| a[k] + (cubic_around(out, k) + 8) / 16,
            )
        }),
{
    let f = wavelet::spec_wavelet_filter(2);
    let (s1, s2) = (f.stages[0], f.stages[1]);
    reveal_with_fuel(wavelet::lifted_by, 3);
    power2::lemma2_to64();
    let mid = s1.lifted(a);
    let out = f.synthesis(a);
    assert(out == s2.lifted(mid));
    assert forall|k: int| 0 <= k < a.len() && k % 2 == 0 implies #[trigger] mid[k] == a[k] - (cubic_around(a, k) + 16) / 32 by {
        lemma_four(s1, a, k);
    }
    assert forall|k: int| 0 <= k < a.len() && k % 2 == 1 implies #[trigger] mid[k] == a[k] by {
        assert(!s1.changes(k));
    }
    assert forall|k: int| 0 <= k < a.len() implies -0x8000_0000_0000 <= #[trigger] mid[k]
        <= 0x8000_0000_0000 by {
        if k % 2 == 0 {
            lemma_around_bound(a, k, 0x1000_0000_0000);
        }
    }
    assert forall|k: int| 0 <= k < a.len() && k % 2 == 0 implies #[trigger] out[k] == mid[k] by {
        assert(!s2.changes(k));
    }
    assert forall|k: int| 0 <= k < a.len() && k % 2 == 1 implies #[trigger] out[k] == a[k] + (cubic_around(out, k) + 8) / 16 by {
        lemma_four(s2, mid, k);
        lemma_alike_around(mid, out, k);
    }
}

proof fn lemma_come_out_haar(index: u64, a: Seq<i64>)
    requires
        index == 3 || index == 4,
        a.len() % 2 == 0,
        modest(a),
    ensures
        ({
            let out = wavelet::spec_wavelet_filter(index).synthesis(a);
            comes_out(
                a,
                out,
                |k: int| a[k] - (a[k + 1] + 1) / 2,
                |k: int| a[k] + out[k - 1],
            )
        }),
{
    let f = wavelet::spec_wavelet_filter(index);
    let (s1, s2) = (f.stages[0], f.stages[1]);
    reveal_with_fuel(wavelet::lifted_by, 3);
    power2::lemma2_to64();
    let mid = s1.lifted(a);
    let out = f.synthesis(a);
    assert(out == s2.lifted(mid));
    assert forall|k: int| 0 <= k < a.len() && k % 2 == 0 implies #[trigger] mid[k] == a[k] - (a[k + 1] + 1) / 2 by {
        lemma_one(s1, a, k);
    }
    assert forall|k: int| 0 <= k < a.len() && k % 2 == 1 implies #[trigger] mid[k] == a[k] by {
        assert(!s1.changes(k));
    }
    assert forall|k: int| 0 <= k < a.len() implies -0x8000_0000_0000 <= #[trigger] mid[k]
        <= 0x8000_0000_0000 by {
        if k % 2 == 0 {
            assert(a[k + 1] <= 0x1000_0000_0000 && a[k + 1] >= -0x1000_0000_0000);
        }
    }
    assert forall|k: int| 0 <= k < a.len() && k % 2 == 0 implies #[trigger] out[k] == mid[k] by {
        assert(!s2.changes(k));
    }
    assert forall|k: int| 0 <= k < a.len() && k % 2 == 1 implies #[trigger] out[k] == a[k] + out[k - 1] by {
        lemma_one(s2, mid, k);
    }
}

proof fn lemma_come_out_5(a: Seq<i64>)
    requires
        a.len() % 2 == 0,
        modest(a),
    ensures
        ({
            let out = wavelet::spec_wavelet_filter(5).synthesis(a);
            comes_out(
                a,
                out,
                |k: int| a[k] - (161 * around(out, k, 1) - 46 * around(out, k, 3) + 21 * around(out, k, 5) - 8
        * around(out, k, 7) + 128) / 256,
                |k: int| a[k] + (81 * around(a, k, 1) - 25 * around(a, k, 3) + 10 * around(a, k, 5) - 2 * around(
        a,
        k,
        7,
    ) + 128) / 256,
            )
        }),
{
    let f = wavelet::spec_wavelet_filter(5);
    let (s1, s2) = (f.stages[0], f.stages[1]);
    reveal_with_fuel(wavelet::lifted_by, 3);
    power2::lemma2_to64();
    let mid = s1.lifted(a);
    let out = f.synthesis(a);
    assert(out == s2.lifted(mid));
    assert forall|k: int| 0 <= k < a.len() && k % 2 == 1 implies #[trigger] mid[k] == a[k] + (81 * around(a, k, 1) - 25 * around(a, k, 3) + 10 * around(a, k, 5) - 2 * around(
        a,
        k,
        7,
    ) + 128) / 256 by {
        lemma_eight(s1, a, k, 81, -25, 10, -2);
    }
    assert forall|k: int| 0 <= k < a.len() && k % 2 == 0 implies #[trigger] mid[k] == a[k] by {
        assert(!s1.changes(k));
    }
    assert forall|k: int| 0 <= k < a.len() implies -0x8000_0000_0000 <= #[trigger] mid[k]
        <= 0x8000_0000_0000 by {
        if k % 2 == 1 {
            lemma_around_bound(a, k, 0x1000_0000_0000);
        }
    }
    assert forall|k: int| 0 <= k < a.len() && k % 2 == 1 implies #[trigger] out[k] == mid[k] by {
        assert(!s2.changes(k));
    }
    assert forall|k: int| 0 <= k < a.len() && k % 2 == 0 implies #[trigger] out[k] == a[k] - (161 * around(out, k, 1) - 46 * around(out, k, 3) + 21 * around(out, k, 5) - 8
        * around(out, k, 7) + 128) / 256 by {
        lemma_eight(s2, mid, k, 161, -46, 21, -8);
        lemma_alike_around(mid, out, k);
    }
}

/// The filters on any signal, edges included. What comes out at an even position
/// of the filters of indices 0 to 4 is the low-band sample less a mean of the
/// high-band samples about it; what comes out at an odd position is the high-band
/// sample plus a mean of what came out about it. Index 5 does the odd positions
/// first, with means over eight.
pub proof fn law_samples_come_out(index: u64, a: Seq<i64>)
    requires
        index <= 5,
        a.len() % 2 == 0,
        modest(a),
    ensures
        ({
            let out = wavelet::spec_wavelet_filter(index).synthesis(a);
            &&& index == 0 ==> comes_out(
                a,
                out,
                |k: int| a[k] - (around(a, k, 1) + 2) / 4,
                |k: int| a[k] + (cubic_around(out, k) + 8) / 16,
            )
            &&& index == 1 ==> comes_out(
                a,
                out,
                |k: int| a[k] - (around(a, k, 1) + 2) / 4,
                |k: int| a[k] + (around(out, k, 1) + 1) / 2,
            )
            &&& index == 2 ==> comes_out(
                a,
                out,
                |k: int| a[k] - (cubic_around(a, k) + 16) / 32,
                |k: int| a[k] + (cubic_around(out, k) + 8) / 16,
            )
            &&& index == 3 || index == 4 ==> comes_out(
                a,
                out,
                |k: int| a[k] - (a[k + 1] + 1) / 2,
                |k: int| a[k] + out[k - 1],
            )
            &&& index == 5 ==> comes_out(
                a,
                out,
                |k: int|
                    a[k] - (161 * around(out, k, 1) - 46 * around(out, k, 3) + 21 * around(
                        out,
                        k,
                        5,
                    ) - 8 * around(out, k, 7) + 128) / 256,
                |k: int|
                    a[k] + (81 * around(a, k, 1) - 25 * around(a, k, 3) + 10 * around(a, k, 5)
                        - 2 * around(a, k, 7) + 128) / 256,
            )
        }),
{
    if index == 0 {
        lemma_come_out_0(a);
    } else if index == 1 {
        lemma_come_out_1(a);
    } else if index == 2 {
        lemma_come_out_2(a);
    } else if index == 5 {
        lemma_come_out_5(a);
    } else {
        lemma_come_out_haar(index, a);
    }
}

/// The filter of index 6 on any signal, edges included, in four steps: the even
/// positions and the odd ones, with numbers that make it Daubechies' filter, and
/// both once more. The signal after the first two steps is what is returned.
pub proof fn law_samples_come_out_6(a: Seq<i64>) -> (mid: Seq<i64>)
    requires
        a.len() % 2 == 0,
        modest(a),
    ensures
        ({
            let out = wavelet::spec_wavelet_filter(6).synthesis(a);
            &&& comes_out(
                a,
                mid,
                |k: int| a[k] - (1817 * around(a, k, 1) + 2048) / 4096,
                |k: int| a[k] - (3616 * around(mid, k, 1) + 2048) / 4096,
            )
            &&& comes_out(
                mid,
                out,
                |k: int| mid[k] + (217 * around(mid, k, 1) + 2048) / 4096,
                |k: int| mid[k] + (6497 * around(out, k, 1) + 2048) / 4096,
            )
        }),
{
    let f = wavelet::spec_wavelet_filter(6);
    let (s1, s2, s3, s4) = (f.stages[0], f.stages[1], f.stages[2], f.stages[3]);
    reveal_with_fuel(wavelet::lifted_by, 5);
    power2::lemma2_to64();
    let first = s1.lifted(a);
    let mid = s2.lifted(first);
    let third = s3.lifted(mid);
    let out = f.synthesis(a);
    assert(out == s4.lifted(third));
    assert forall|k: int| 0 <= k < a.len() && k % 2 == 0 implies #[trigger] first[k] == a[k] - (1817
        * around(a, k, 1) + 2048) / 4096 && -0x2000_0000_0000 <= first[k] <= 0x2000_0000_0000 by {
        lemma_two(s1, a, k, 1817);
        lemma_around_bound(a, k, 0x1000_0000_0000);
    }
    assert forall|k: int| 0 <= k < a.len() && k % 2 == 1 implies #[trigger] first[k] == a[k] by {
        assert(!s1.changes(k));
    }
    assert forall|k: int| 0 <= k < a.len() && k % 2 == 0 implies #[trigger] mid[k] == first[k] by {
        assert(!s2.changes(k));
    }
    assert forall|k: int| 0 <= k < a.len() && k % 2 == 1 implies #[trigger] mid[k] == a[k] - (3616
        * around(mid, k, 1) + 2048) / 4096 && -0x5000_0000_0000 <= mid[k] <= 0x5000_0000_0000 by {
        lemma_two(s2, first, k, 3616);
        lemma_alike_around(first, mid, k);
        lemma_around_bound(first, k, 0x2000_0000_0000);
    }
    assert forall|k: int| 0 <= k < a.len() && k % 2 == 0 implies #[trigger] third[k] == mid[k] + (217
        * around(mid, k, 1) + 2048) / 4096 && -0x8000_0000_0000 <= third[k] <= 0x8000_0000_0000 by {
        lemma_two(s3, mid, k, 217);
        lemma_around_bound(mid, k, 0x5000_0000_0000);
    }
    assert forall|k: int| 0 <= k < a.len() && k % 2 == 1 implies #[trigger] third[k] == mid[k] by {
        assert(!s3.changes(k));
    }
    assert forall|k: int| 0 <= k < a.len() && k % 2 == 0 implies #[trigger] out[k] == third[k] by {
        assert(!s4.changes(k));
    }
    assert forall|k: int| 0 <= k < a.len() && k % 2 == 1 implies #[trigger] out[k] == mid[k] + (6497
        * around(out, k, 1) + 2048) / 4096 by {
        lemma_two(s4, third, k, 6497);
        lemma_alike_around(third, out, k);
    }
    mid
}

} // verus!
