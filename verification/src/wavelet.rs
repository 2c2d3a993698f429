//! The inverse wavelet transform: integer lifting filters, one-dimensional
//! synthesis, and the horizontal and the vertical-then-horizontal synthesis of
//! subband planes.
//!
//! The lifting arithmetic wraps: a well-formed stream stays far inside `i64`,
//! and for any other the result is still determined and bounded by the final
//! clip.
use crate::grid;
use crate::grid::Grid;
use crate::num;
use vstd::arithmetic::power2;
use vstd::prelude::*;

verus! {

/// The four integer lifting operations.
#[derive(Debug, Clone, Copy, PartialEq, Eq, Structural)]
pub enum LiftType {
    /// `A[2n] += (sum + rounding) >> S`
    Type1,
    /// `A[2n] -= (sum + rounding) >> S`
    Type2,
    /// `A[2n+1] += (sum + rounding) >> S`
    Type3,
    /// `A[2n+1] -= (sum + rounding) >> S`
    Type4,
}

/// One lifting stage: its kind, scale `s`, offset `d` and taps.
#[derive(Debug, Clone, Copy)]
pub struct LiftStage {
    pub kind: LiftType,
    pub s: u32,
    pub d: i32,
    pub taps: &'static [i64],
}

/// A complete wavelet filter: its ordered lifting stages and the number of
/// accuracy bits to remove behind them.
#[derive(Debug, Clone, Copy)]
pub struct WaveletFilter {
    pub stages: &'static [LiftStage],
    pub bit_shift: u32,
}

/// A lifting stage over mathematical values.
pub struct Stage {
    pub kind: LiftType,
    pub s: nat,
    pub d: int,
    pub taps: Seq<int>,
}

/// A filter over mathematical values.
pub struct Filter {
    pub stages: Seq<Stage>,
    pub bit_shift: nat,
}

impl View for LiftStage {
    type V = Stage;

    open spec fn view(&self) -> Stage {
        Stage {
            kind: self.kind,
            s: self.s as nat,
            d: self.d as int,
            taps: Seq::new(self.taps@.len(), |k: int| self.taps@[k] as int),
        }
    }
}

impl View for WaveletFilter {
    type V = Filter;

    open spec fn view(&self) -> Filter {
        Filter {
            stages: Seq::new(self.stages@.len(), |k: int| self.stages@[k]@),
            bit_shift: self.bit_shift as nat,
        }
    }
}

impl Filter {
    /// Whether every shift is one that an `i64` has.
    pub open spec fn wf(self) -> bool {
        &&& self.bit_shift < 64
        &&& forall|k: int| 0 <= k < self.stages.len() ==> (#[trigger] self.stages[k]).s < 64
    }
}

/// Deslauriers-Dubuc (9,7).
pub open spec fn dd_9_7() -> Filter {
    Filter {
        stages: seq![
            Stage { kind: LiftType::Type2, s: 2, d: 0, taps: seq![1, 1] },
            Stage { kind: LiftType::Type3, s: 4, d: -1, taps: seq![-1, 9, 9, -1] },
        ],
        bit_shift: 1,
    }
}

/// LeGall (5,3).
pub open spec fn legall_5_3() -> Filter {
    Filter {
        stages: seq![
            Stage { kind: LiftType::Type2, s: 2, d: 0, taps: seq![1, 1] },
            Stage { kind: LiftType::Type3, s: 1, d: 0, taps: seq![1, 1] },
        ],
        bit_shift: 1,
    }
}

/// Deslauriers-Dubuc (13,7).
pub open spec fn dd_13_7() -> Filter {
    Filter {
        stages: seq![
            Stage { kind: LiftType::Type2, s: 5, d: -1, taps: seq![-1, 9, 9, -1] },
            Stage { kind: LiftType::Type3, s: 4, d: -1, taps: seq![-1, 9, 9, -1] },
        ],
        bit_shift: 1,
    }
}

/// Haar, with `bit_shift` accuracy bits.
pub open spec fn haar(bit_shift: nat) -> Filter {
    Filter {
        stages: seq![
            Stage { kind: LiftType::Type2, s: 1, d: 1, taps: seq![1] },
            Stage { kind: LiftType::Type3, s: 0, d: 0, taps: seq![1] },
        ],
        bit_shift,
    }
}

/// Fidelity.
pub open spec fn fidelity() -> Filter {
    Filter {
        stages: seq![
            Stage {
                kind: LiftType::Type3,
                s: 8,
                d: -3,
                taps: seq![-2, 10, -25, 81, 81, -25, 10, -2],
            },
            Stage {
                kind: LiftType::Type2,
                s: 8,
                d: -3,
                taps: seq![-8, 21, -46, 161, 161, -46, 21, -8],
            },
        ],
        bit_shift: 0,
    }
}

/// Daubechies (9,7), integer approximation.
pub open spec fn daubechies_9_7() -> Filter {
    Filter {
        stages: seq![
            Stage { kind: LiftType::Type2, s: 12, d: 0, taps: seq![1817, 1817] },
            Stage { kind: LiftType::Type4, s: 12, d: 0, taps: seq![3616, 3616] },
            Stage { kind: LiftType::Type1, s: 12, d: 0, taps: seq![217, 217] },
            Stage { kind: LiftType::Type3, s: 12, d: 0, taps: seq![6497, 6497] },
        ],
        bit_shift: 1,
    }
}

/// The filter of each wavelet index from 0 to 6.
pub open spec fn spec_wavelet_filter(index: u64) -> Filter {
    if index == 0 {
        dd_9_7()
    } else if index == 1 {
        legall_5_3()
    } else if index == 2 {
        dd_13_7()
    } else if index == 3 {
        haar(0)
    } else if index == 4 {
        haar(1)
    } else if index == 5 {
        fidelity()
    } else {
        daubechies_9_7()
    }
}

/// The [`WaveletFilter`] of a wavelet index; `None` for indices outside 0..=6.
pub fn wavelet_filter(index: u64) -> (r: Option<WaveletFilter>)
    ensures
        r is Some <==> index <= 6,
        r matches Some(f) ==> f@ == spec_wavelet_filter(index) && f@.wf(),
{
    let f: WaveletFilter = match index {
        0 => WaveletFilter {
            stages: &[
                LiftStage { kind: LiftType::Type2, s: 2, d: 0, taps: &[1, 1] },
                LiftStage { kind: LiftType::Type3, s: 4, d: -1, taps: &[-1, 9, 9, -1] },
            ],
            bit_shift: 1,
        },
        1 => WaveletFilter {
            stages: &[
                LiftStage { kind: LiftType::Type2, s: 2, d: 0, taps: &[1, 1] },
                LiftStage { kind: LiftType::Type3, s: 1, d: 0, taps: &[1, 1] },
            ],
            bit_shift: 1,
        },
        2 => WaveletFilter {
            stages: &[
                LiftStage { kind: LiftType::Type2, s: 5, d: -1, taps: &[-1, 9, 9, -1] },
                LiftStage { kind: LiftType::Type3, s: 4, d: -1, taps: &[-1, 9, 9, -1] },
            ],
            bit_shift: 1,
        },
        3 => WaveletFilter {
            stages: &[
                LiftStage { kind: LiftType::Type2, s: 1, d: 1, taps: &[1] },
                LiftStage { kind: LiftType::Type3, s: 0, d: 0, taps: &[1] },
            ],
            bit_shift: 0,
        },
        4 => WaveletFilter {
            stages: &[
                LiftStage { kind: LiftType::Type2, s: 1, d: 1, taps: &[1] },
                LiftStage { kind: LiftType::Type3, s: 0, d: 0, taps: &[1] },
            ],
            bit_shift: 1,
        },
        5 => WaveletFilter {
            stages: &[
                LiftStage {
                    kind: LiftType::Type3,
                    s: 8,
                    d: -3,
                    taps: &[-2, 10, -25, 81, 81, -25, 10, -2],
                },
                LiftStage {
                    kind: LiftType::Type2,
                    s: 8,
                    d: -3,
                    taps: &[-8, 21, -46, 161, 161, -46, 21, -8],
                },
            ],
            bit_shift: 0,
        },
        6 => WaveletFilter {
            stages: &[
                LiftStage { kind: LiftType::Type2, s: 12, d: 0, taps: &[1817, 1817] },
                LiftStage { kind: LiftType::Type4, s: 12, d: 0, taps: &[3616, 3616] },
                LiftStage { kind: LiftType::Type1, s: 12, d: 0, taps: &[217, 217] },
                LiftStage { kind: LiftType::Type3, s: 12, d: 0, taps: &[6497, 6497] },
            ],
            bit_shift: 1,
        },
        _ => {
            return None;
        },
    };
    proof {
        let want = spec_wavelet_filter(index);
        assert(f@.stages.len() == want.stages.len());
        assert forall|k: int| 0 <= k < want.stages.len() implies f@.stages[k] == want.stages[k] by {
            assert(f@.stages[k].taps =~= want.stages[k].taps);
        }
        assert(f@.stages =~= want.stages);
    }
    Some(f)
}

/// `x` brought into `lo..=hi`.
pub open spec fn clamped(x: int, lo: int, hi: int) -> int {
    if x > hi {
        if hi < lo {
            lo
        } else {
            hi
        }
    } else if x < lo {
        lo
    } else {
        x
    }
}

impl LiftType {
    /// Whether the operation changes the samples at even positions.
    pub open spec fn changes_even(self) -> bool {
        self == LiftType::Type1 || self == LiftType::Type2
    }

    /// Whether the operation adds.
    pub open spec fn adds(self) -> bool {
        self == LiftType::Type1 || self == LiftType::Type3
    }

    /// The operation that takes back what this one does.
    pub open spec fn opposite(self) -> LiftType {
        match self {
            LiftType::Type1 => LiftType::Type2,
            LiftType::Type2 => LiftType::Type1,
            LiftType::Type3 => LiftType::Type4,
            LiftType::Type4 => LiftType::Type3,
        }
    }
}

impl Stage {
    /// Whether position `k` is one that the stage changes.
    pub open spec fn changes(self, k: int) -> bool {
        self.kind.changes_even() == (k % 2 == 0)
    }

    /// The position that tap `j` reads for sample pair `n` of a signal of
    /// length `len`: one of the parity that the stage leaves alone, held
    /// inside the signal at its edges.
    pub open spec fn tap_position(self, len: int, n: int, j: int) -> int {
        if self.kind.changes_even() {
            clamped(2 * (n + self.d + j) - 1, 1, len - 1)
        } else {
            clamped(2 * (n + self.d + j), 0, len - 2)
        }
    }

    /// The weighted sum that the first `count` taps give for pair `n`.
    pub open spec fn tap_sum(self, a: Seq<i64>, n: int, count: int) -> int
        decreases count,
    {
        if count <= 0 {
            0
        } else {
            self.tap_sum(a, n, count - 1) + self.taps[count - 1] * a[self.tap_position(
                a.len() as int,
                n,
                count - 1,
            )]
        }
    }

    /// Half of the divisor, which rounds the division to nearest.
    pub open spec fn rounding(self) -> int {
        if self.s == 0 {
            0
        } else {
            power2::pow2((self.s - 1) as nat) as int
        }
    }

    /// What the stage adds to or takes from pair `n`.
    pub open spec fn delta(self, a: Seq<i64>, n: int) -> int {
        num::wrap(self.tap_sum(a, n, self.taps.len() as int) + self.rounding()) / (power2::pow2(
            self.s,
        ) as int)
    }

    /// The sample at position `k` after the stage.
    pub open spec fn lifted_sample(self, a: Seq<i64>, k: int) -> i64 {
        if !self.changes(k) {
            a[k]
        } else if self.kind.adds() {
            num::wrap(a[k] + self.delta(a, k / 2)) as i64
        } else {
            num::wrap(a[k] - self.delta(a, k / 2)) as i64
        }
    }

    /// The signal after the stage.
    pub open spec fn lifted(self, a: Seq<i64>) -> Seq<i64> {
        Seq::new(a.len(), |k: int| self.lifted_sample(a, k))
    }

    /// The stage that takes back what this one does.
    pub open spec fn opposite(self) -> Stage {
        Stage { kind: self.kind.opposite(), ..self }
    }
}

/// Applies one lifting stage to a signal of even length.
fn apply_lift(a: &mut [i64], stage: &LiftStage)
    requires
        old(a)@.len() % 2 == 0,
        stage.s < 64,
    ensures
        final(a)@ == stage@.lifted(old(a)@),
{
    let ghost a0 = a@;
    let len: usize = a.len();
    let taps: &[i64] = stage.taps;
    let s: u32 = stage.s;
    let rounding: i64 = if s > 0 {
        1i64 << (s - 1)
    } else {
        0
    };
    let ghost st = stage@;
    proof {
        if 0 < s < 64 {
            lemma_rounding(s);
        }
    }
    let changes_even: bool = match stage.kind {
        LiftType::Type1 | LiftType::Type2 => true,
        _ => false,
    };
    let half: usize = len / 2;
    let mut n: usize = 0;
    while n < half
        invariant
            len == a0.len(),
            len % 2 == 0,
            half == len / 2,
            n <= half,
            taps@ == stage.taps@,
            s == stage.s,
            s < 64,
            st == stage@,
            changes_even == st.kind.changes_even(),
            num::wrap(rounding as int) == num::wrap(st.rounding()),
            a@.len() == len,
            forall|k: int|
                0 <= k < len ==> #[trigger] a@[k] == if k / 2 < n {
                    st.lifted_sample(a0, k)
                } else {
                    a0[k]
                },
        decreases half - n,
    {
        let mut sum: i64 = 0;
        let mut j: usize = 0;
        proof {
            num::lemma_wrap(0);
        }
        while j < taps.len()
            invariant
                len == a0.len(),
                len % 2 == 0,
                half == len / 2,
                n < half,
                j <= taps@.len(),
                taps@ == stage.taps@,
                st == stage@,
                changes_even == st.kind.changes_even(),
                a@.len() == len,
                forall|k: int|
                    0 <= k < len ==> #[trigger] a@[k] == if k / 2 < n {
                        st.lifted_sample(a0, k)
                    } else {
                        a0[k]
                    },
                sum == num::wrap(st.tap_sum(a0, n as int, j as int)),
            decreases taps@.len() - j,
        {
            let at: usize = tap_position(changes_even, len, n, stage.d, j);
            assert(at == st.tap_position(len as int, n as int, j as int));
            assert(!st.changes(at as int));
            assert(a@[at as int] == a0[at as int]);
            let product: i64 = taps[j].wrapping_mul(a[at]);
            proof {
                num::lemma_wrapping_ops(taps@[j as int], a0[at as int]);
                num::lemma_wrapping_ops(sum, product);
                num::lemma_wrap_add(
                    st.tap_sum(a0, n as int, j as int),
                    taps@[j as int] * a0[at as int],
                );
            }
            sum = sum.wrapping_add(product);
            j = j + 1;
        }
        let total: i64 = sum.wrapping_add(rounding);
        let delta: i64 = total >> s;
        proof {
            num::lemma_wrapping_ops(sum, rounding);
            let full = st.tap_sum(a0, n as int, taps@.len() as int);
            num::lemma_wrap_add(full, rounding as int);
            num::lemma_wrap_add(full, st.rounding());
            assert(total == num::wrap(full + st.rounding()));
            num::lemma_shr_is_floor_div(total, s);
            assert(delta == st.delta(a0, n as int));
        }
        let at: usize = if changes_even {
            2 * n
        } else {
            2 * n + 1
        };
        assert(at as int / 2 == n);
        assert(st.changes(at as int));
        let before: i64 = a[at];
        proof {
            num::lemma_wrapping_ops(before, delta);
        }
        let after: i64 = match stage.kind {
            LiftType::Type1 | LiftType::Type3 => before.wrapping_add(delta),
            _ => before.wrapping_sub(delta),
        };
        let ghost prev = a@;
        a[at] = after;
        n = n + 1;
        proof {
            assert(after == st.lifted_sample(a0, at as int));
            assert forall|k: int| 0 <= k < len implies #[trigger] a@[k] == if k / 2 < n {
                st.lifted_sample(a0, k)
            } else {
                a0[k]
            } by {
                if k != at {
                    assert(a@[k] == prev[k]);
                    if k / 2 == n - 1 {
                        assert(!st.changes(k));
                    }
                }
            }
        }
    }
    assert(a@ =~= st.lifted(a0));
}

proof fn lemma_rounding(s: u32)
    requires
        0 < s < 64,
    ensures
        num::wrap((1i64 << ((s - 1) as u32)) as int) == num::wrap(
            power2::pow2((s - 1) as nat) as int,
        ),
{
    let p = (s - 1) as u32;
    if p < 63 {
        num::lemma_one_shl(p);
    } else {
        assert(1i64 << 63u32 == -0x8000_0000_0000_0000i64) by (bit_vector);
        power2::lemma2_to64_rest();
        num::lemma_wrap(0x8000_0000_0000_0000);
        num::lemma_wrap(-0x8000_0000_0000_0000);
    }
}

/// The position that tap `j` reads; see [`Stage::tap_position`].
fn tap_position(changes_even: bool, len: usize, n: usize, d: i32, j: usize) -> (at: usize)
    requires
        len >= 2,
        len % 2 == 0,
        n < len,
    ensures
        changes_even ==> at == clamped(2 * (n + d + j) - 1, 1, len - 1),
        !changes_even ==> at == clamped(2 * (n + d + j), 0, len - 2),
        at < len,
        changes_even == (at % 2 == 1),
{
    let centre: i128 = 2 * (n as i128 + d as i128 + j as i128);
    let (p, lo, hi): (i128, i128, i128) = if changes_even {
        (centre - 1, 1, len as i128 - 1)
    } else {
        (centre, 0, len as i128 - 2)
    };
    let held: i128 = if p > hi {
        hi
    } else if p < lo {
        lo
    } else {
        p
    };
    held as usize
}

/// The signal after the first `count` stages.
pub open spec fn lifted_by(a: Seq<i64>, stages: Seq<Stage>, count: int) -> Seq<i64>
    decreases count,
{
    if count <= 0 {
        a
    } else {
        stages[count - 1].lifted(lifted_by(a, stages, count - 1))
    }
}

impl Filter {
    /// One-dimensional synthesis: every lifting stage in order.
    pub open spec fn synthesis(self, a: Seq<i64>) -> Seq<i64> {
        lifted_by(a, self.stages, self.stages.len() as int)
    }

    /// One-dimensional analysis: every stage taken back, last one first.
    pub open spec fn analysis(self, a: Seq<i64>) -> Seq<i64> {
        let n = self.stages.len();
        lifted_by(
            a,
            Seq::new(n, |k: int| self.stages[n - 1 - k].opposite()),
            n as int,
        )
    }
}

/// One-dimensional synthesis of a signal of even length, in place.
pub fn oned_synthesis(a: &mut [i64], filter: &WaveletFilter)
    requires
        old(a)@.len() % 2 == 0,
        filter@.wf(),
    ensures
        final(a)@ == filter@.synthesis(old(a)@),
        final(a)@.len() == old(a)@.len(),
{
    let mut k: usize = 0;
    while k < filter.stages.len()
        invariant
            k <= filter.stages@.len(),
            filter@.wf(),
            a@.len() == old(a)@.len(),
            a@.len() % 2 == 0,
            a@ == lifted_by(old(a)@, filter@.stages, k as int),
        decreases filter.stages@.len() - k,
    {
        assert(filter@.stages[k as int].s < 64);
        apply_lift(a, &filter.stages[k]);
        k = k + 1;
    }
}

/// The taps of a stage only read samples that the stage leaves alone.
proof fn lemma_tap_sum_of_lifted(st: Stage, a: Seq<i64>, n: int, count: int)
    requires
        a.len() % 2 == 0,
        0 <= n,
        2 * n + 1 < a.len(),
    ensures
        st.opposite().tap_sum(st.lifted(a), n, count) == st.tap_sum(a, n, count),
    decreases count,
{
    if count > 0 {
        lemma_tap_sum_of_lifted(st, a, n, count - 1);
        let at = st.tap_position(a.len() as int, n, count - 1);
        assert(0 <= at < a.len());
        assert(!st.changes(at));
        assert(st.lifted(a)[at] == a[at]);
        assert(st.opposite().tap_position(a.len() as int, n, count - 1) == at);
    }
}

/// A lifting stage is undone by the stage of the opposite kind, also where the
/// arithmetic wraps.
pub proof fn law_lift_is_reversible(st: Stage, a: Seq<i64>)
    requires
        a.len() % 2 == 0,
    ensures
        st.opposite().lifted(st.lifted(a)) == a,
{
    let b = st.lifted(a);
    let back = st.opposite();
    assert forall|k: int| 0 <= k < a.len() implies back.lifted_sample(b, k) == a[k] by {
        assert(b[k] == st.lifted_sample(a, k));
        assert(back.changes(k) == st.changes(k));
        if st.changes(k) {
            let n = k / 2;
            lemma_tap_sum_of_lifted(st, a, n, st.taps.len() as int);
            let delta = st.delta(a, n);
            assert(back.delta(b, n) == delta);
            num::lemma_wrap(a[k] + delta);
            num::lemma_wrap(a[k] - delta);
            num::lemma_wrap_undo(a[k] as int, delta);
        }
    }
    assert(back.lifted(b) =~= a);
}

proof fn lemma_lifted_by_len(a: Seq<i64>, stages: Seq<Stage>, count: int)
    ensures
        lifted_by(a, stages, count).len() == a.len(),
    decreases count,
{
    if count > 0 {
        lemma_lifted_by_len(a, stages, count - 1);
    }
}

/// Taking back the stages of `there`, last one first, leads back to `a`.
proof fn lemma_lifted_back(a: Seq<i64>, there: Seq<Stage>, back: Seq<Stage>, j: int)
    requires
        a.len() % 2 == 0,
        there.len() == back.len(),
        0 <= j <= there.len(),
        forall|k: int|
            0 <= k < there.len() ==> #[trigger] back[k] == there[there.len() - 1 - k].opposite(),
    ensures
        lifted_by(lifted_by(a, there, there.len() as int), back, j) == lifted_by(
            a,
            there,
            there.len() - j,
        ),
    decreases j,
{
    if j > 0 {
        lemma_lifted_back(a, there, back, j - 1);
        let n = there.len() as int;
        let mid = lifted_by(a, there, n - j);
        lemma_lifted_by_len(a, there, n - j);
        assert(back[j - 1] == there[n - j].opposite());
        law_lift_is_reversible(there[n - j], mid);
    }
}

/// Synthesis recovers every signal of even length from its analysis, and
/// analysis every signal from its synthesis: each filter is a reversible
/// integer transform.
pub proof fn law_synthesis_is_reversible(f: Filter, a: Seq<i64>)
    requires
        a.len() % 2 == 0,
    ensures
        f.synthesis(f.analysis(a)) == a,
        f.analysis(f.synthesis(a)) == a,
{
    let n = f.stages.len();
    let back = Seq::new(n, |k: int| f.stages[n - 1 - k].opposite());
    lemma_lifted_back(a, f.stages, back, n as int);
    assert forall|k: int| 0 <= k < n implies #[trigger] f.stages[k] == back[n - 1
        - k].opposite() by {
        assert(back[n - 1 - k] == f.stages[k].opposite());
    }
    lemma_lifted_back(a, back, f.stages, n as int);
}

/// Analysis keeps the length of a signal.
pub proof fn lemma_analysis_len(f: Filter, a: Seq<i64>)
    ensures
        f.analysis(a).len() == a.len(),
{
    let n = f.stages.len();
    lemma_lifted_by_len(a, Seq::new(n, |k: int| f.stages[n - 1 - k].opposite()), n as int);
}

/// A plane of subband or picture samples, row-major.
#[derive(Debug)]
pub struct Plane {
    pub width: usize,
    pub height: usize,
    pub data: Vec<i64>,
}

impl View for Plane {
    type V = Grid;

    open spec fn view(&self) -> Grid {
        Grid { width: self.width as int, height: self.height as int, data: self.data@ }
    }
}

impl Clone for Plane {
    fn clone(&self) -> (r: Self)
        ensures
            r@ == self@,
    {
        let data: Vec<i64> = self.data.clone();
        assert(data@ =~= self.data@);
        Plane { width: self.width, height: self.height, data }
    }
}

impl Default for Plane {
    fn default() -> (r: Self)
        ensures
            r@ == Grid::zero(0, 0),
    {
        let r = Plane { width: 0, height: 0, data: Vec::new() };
        assert(r@.data =~= Grid::zero(0, 0).data);
        r
    }
}

impl Plane {
    /// A plane of zeros.
    pub fn new(width: usize, height: usize) -> (r: Self)
        requires
            width * height <= usize::MAX,
        ensures
            r@ == Grid::zero(width as int, height as int),
            r@.wf(),
    {
        let data: Vec<i64> = vec![0; width * height];
        let r = Plane { width, height, data };
        proof {
            grid::lemma_zero(width as int, height as int);
        }
        assert(r@.data =~= Grid::zero(width as int, height as int).data);
        r
    }

    /// The sample in row `y` and column `x`.
    pub fn get(&self, y: usize, x: usize) -> (v: i64)
        requires
            self@.holds(y as int, x as int),
        ensures
            v == self@.at(y as int, x as int),
    {
        proof {
            assert(0 <= y * self.width) by (nonlinear_arith);
            assert(self.data.len() <= usize::MAX);
        }
        self.data[y * self.width + x]
    }

    /// Changes the sample in row `y` and column `x`.
    pub fn set(&mut self, y: usize, x: usize, v: i64)
        requires
            old(self)@.holds(y as int, x as int),
        ensures
            final(self)@ == old(self)@.with(y as int, x as int, v),
    {
        proof {
            assert(0 <= y * self.width) by (nonlinear_arith);
            assert(self.data.len() <= usize::MAX);
        }
        let at: usize = y * self.width + x;
        self.data.set(at, v);
    }
}

/// Low and high band side by side: even columns from `l`, odd ones from `h`.
pub open spec fn interleaved_columns(l: Grid, h: Grid) -> Grid {
    Grid::tabulate(
        2 * l.width,
        l.height,
        |y: int, x: int|
            if x % 2 == 0 {
                l.at(y, x / 2)
            } else {
                h.at(y, x / 2)
            },
    )
}

/// Four bands in a quincunx: even rows from `ll` and `hl`, odd ones from `lh`
/// and `hh`.
pub open spec fn interleaved_quadrants(ll: Grid, hl: Grid, lh: Grid, hh: Grid) -> Grid {
    Grid::tabulate(
        2 * ll.width,
        2 * ll.height,
        |y: int, x: int|
            if y % 2 == 0 {
                if x % 2 == 0 {
                    ll.at(y / 2, x / 2)
                } else {
                    hl.at(y / 2, x / 2)
                }
            } else if x % 2 == 0 {
                lh.at(y / 2, x / 2)
            } else {
                hh.at(y / 2, x / 2)
            },
    )
}

/// Every row synthesized.
pub open spec fn rows_synthesized(g: Grid, f: Filter) -> Grid {
    Grid::tabulate(g.width, g.height, |y: int, x: int| f.synthesis(g.row(y))[x])
}

/// Every column synthesized.
pub open spec fn columns_synthesized(g: Grid, f: Filter) -> Grid {
    Grid::tabulate(g.width, g.height, |y: int, x: int| f.synthesis(g.column(x))[y])
}

/// A sample without its accuracy bits, rounded.
pub open spec fn descaled_sample(v: i64, shift: nat) -> i64 {
    if shift == 0 {
        v
    } else {
        (num::wrap(v + power2::pow2((shift - 1) as nat)) / (power2::pow2(shift) as int)) as i64
    }
}

/// Every sample without its accuracy bits.
pub open spec fn descaled(g: Grid, shift: nat) -> Grid {
    Grid { data: Seq::new(g.data.len(), |i: int| descaled_sample(g.data[i], shift)), ..g }
}

/// Horizontal synthesis: a grid of twice the width.
pub open spec fn spec_h_synthesis(l: Grid, h: Grid, f: Filter) -> Grid {
    descaled(rows_synthesized(interleaved_columns(l, h), f), f.bit_shift)
}

/// Vertical, then horizontal synthesis: a grid of twice the dimensions. The
/// accuracy bits are those of the horizontal filter.
pub open spec fn spec_vh_synthesis(
    ll: Grid,
    hl: Grid,
    lh: Grid,
    hh: Grid,
    v: Filter,
    ho: Filter,
) -> Grid {
    descaled(
        rows_synthesized(columns_synthesized(interleaved_quadrants(ll, hl, lh, hh), v), ho),
        ho.bit_shift,
    )
}

/// Row `y` replaced by its synthesis.
fn synthesize_row(synth: &mut Plane, y: usize, filter: &WaveletFilter)
    requires
        old(synth)@.wf(),
        old(synth)@.width % 2 == 0,
        y < old(synth).height,
        filter@.wf(),
    ensures
        final(synth)@.wf(),
        final(synth)@.width == old(synth)@.width,
        final(synth)@.height == old(synth)@.height,
        forall|yy: int, xx: int|
            0 <= yy < old(synth)@.height && 0 <= xx < old(synth)@.width ==> #[trigger] final(synth)@.at(yy, xx) == if yy == y {
                filter@.synthesis(old(synth)@.row(y as int))[xx]
            } else {
                old(synth)@.at(yy, xx)
            },
{
    let ghost g0 = synth@;
    let width: usize = synth.width;
    let mut row: Vec<i64> = Vec::with_capacity(width);
    let mut x: usize = 0;
    while x < width
        invariant
            x <= width,
            width == synth.width,
            y < synth.height,
            synth@ == g0,
            g0.wf(),
            row@.len() == x,
            forall|k: int| 0 <= k < x ==> #[trigger] row@[k] == g0.at(y as int, k),
        decreases width - x,
    {
        proof {
            grid::lemma_place(g0.width, g0.height, y as int, x as int);
        }
        row.push(synth.get(y, x));
        x = x + 1;
    }
    assert(row@ =~= g0.row(y as int));
    oned_synthesis(row.as_mut_slice(), filter);
    let mut x: usize = 0;
    while x < width
        invariant
            x <= width,
            y < g0.height,
            g0.wf(),
            synth@.wf(),
            synth@.width == g0.width,
            synth@.height == g0.height,
            width == g0.width,
            row@.len() == width,
            forall|yy: int, xx: int|
                0 <= yy < g0.height && 0 <= xx < g0.width ==> #[trigger] synth@.at(yy, xx) == if yy
                    == y && xx < x {
                    row@[xx]
                } else {
                    g0.at(yy, xx)
                },
        decreases width - x,
    {
        proof {
            grid::lemma_place(g0.width, g0.height, y as int, x as int);
            grid::lemma_with(synth@, y as int, x as int, row@[x as int]);
        }
        synth.set(y, x, row[x]);
        x = x + 1;
    }
}

/// Column `x` replaced by its synthesis.
fn synthesize_column(synth: &mut Plane, x: usize, filter: &WaveletFilter)
    requires
        old(synth)@.wf(),
        old(synth)@.height % 2 == 0,
        x < old(synth).width,
        filter@.wf(),
    ensures
        final(synth)@.wf(),
        final(synth)@.width == old(synth)@.width,
        final(synth)@.height == old(synth)@.height,
        forall|yy: int, xx: int|
            0 <= yy < old(synth)@.height && 0 <= xx < old(synth)@.width ==> #[trigger] final(synth)@.at(yy, xx) == if xx == x {
                filter@.synthesis(old(synth)@.column(x as int))[yy]
            } else {
                old(synth)@.at(yy, xx)
            },
{
    let ghost g0 = synth@;
    let height: usize = synth.height;
    let mut col: Vec<i64> = Vec::with_capacity(height);
    let mut y: usize = 0;
    while y < height
        invariant
            y <= height,
            height == synth.height,
            x < synth.width,
            synth@ == g0,
            g0.wf(),
            col@.len() == y,
            forall|k: int| 0 <= k < y ==> #[trigger] col@[k] == g0.at(k, x as int),
        decreases height - y,
    {
        proof {
            grid::lemma_place(g0.width, g0.height, y as int, x as int);
        }
        col.push(synth.get(y, x));
        y = y + 1;
    }
    assert(col@ =~= g0.column(x as int));
    oned_synthesis(col.as_mut_slice(), filter);
    let mut y: usize = 0;
    while y < height
        invariant
            y <= height,
            x < g0.width,
            g0.wf(),
            synth@.wf(),
            synth@.width == g0.width,
            synth@.height == g0.height,
            height == g0.height,
            col@.len() == height,
            forall|yy: int, xx: int|
                0 <= yy < g0.height && 0 <= xx < g0.width ==> #[trigger] synth@.at(yy, xx) == if xx
                    == x && yy < y {
                    col@[yy]
                } else {
                    g0.at(yy, xx)
                },
        decreases height - y,
    {
        proof {
            grid::lemma_place(g0.width, g0.height, y as int, x as int);
            grid::lemma_with(synth@, y as int, x as int, col@[y as int]);
        }
        synth.set(y, x, col[y]);
        y = y + 1;
    }
}

/// Horizontal one-dimensional synthesis of every row.
fn synthesize_rows(synth: &mut Plane, filter: &WaveletFilter)
    requires
        old(synth)@.wf(),
        old(synth)@.width % 2 == 0,
        filter@.wf(),
    ensures
        final(synth)@ == rows_synthesized(old(synth)@, filter@),
        final(synth)@.wf(),
{
    let ghost g0 = synth@;
    let ghost want = rows_synthesized(g0, filter@);
    proof {
        grid::lemma_tabulate(
            g0.width,
            g0.height,
            |y: int, x: int| filter@.synthesis(g0.row(y))[x],
        );
    }
    let height: usize = synth.height;
    let mut y: usize = 0;
    while y < height
        invariant
            y <= height,
            filter@.wf(),
            g0.wf(),
            g0.width % 2 == 0,
            height == g0.height,
            synth@.wf(),
            synth@.width == g0.width,
            synth@.height == g0.height,
            want == rows_synthesized(g0, filter@),
            forall|yy: int, xx: int|
                0 <= yy < g0.height && 0 <= xx < g0.width ==> #[trigger] want.at(yy, xx)
                    == filter@.synthesis(g0.row(yy))[xx],
            forall|yy: int, xx: int|
                0 <= yy < g0.height && 0 <= xx < g0.width ==> #[trigger] synth@.at(yy, xx) == if yy
                    < y {
                    want.at(yy, xx)
                } else {
                    g0.at(yy, xx)
                },
        decreases height - y,
    {
        assert(synth@.row(y as int) =~= g0.row(y as int));
        synthesize_row(synth, y, filter);
        y = y + 1;
    }
    proof {
        grid::lemma_grid_equal(synth@, want);
    }
}

/// Vertical one-dimensional synthesis of every column.
fn synthesize_columns(synth: &mut Plane, filter: &WaveletFilter)
    requires
        old(synth)@.wf(),
        old(synth)@.height % 2 == 0,
        filter@.wf(),
    ensures
        final(synth)@ == columns_synthesized(old(synth)@, filter@),
        final(synth)@.wf(),
{
    let ghost g0 = synth@;
    let ghost want = columns_synthesized(g0, filter@);
    proof {
        grid::lemma_tabulate(
            g0.width,
            g0.height,
            |y: int, x: int| filter@.synthesis(g0.column(x))[y],
        );
    }
    // A plane without rows may be very wide: there is nothing to visit in it.
    let width: usize = if synth.height == 0 {
        0
    } else {
        synth.width
    };
    let mut x: usize = 0;
    while x < width
        invariant
            x <= width,
            filter@.wf(),
            g0.wf(),
            g0.height % 2 == 0,
            width <= g0.width,
            synth@.wf(),
            synth@.width == g0.width,
            synth@.height == g0.height,
            want == columns_synthesized(g0, filter@),
            forall|yy: int, xx: int|
                0 <= yy < g0.height && 0 <= xx < g0.width ==> #[trigger] want.at(yy, xx)
                    == filter@.synthesis(g0.column(xx))[yy],
            forall|yy: int, xx: int|
                0 <= yy < g0.height && 0 <= xx < g0.width ==> #[trigger] synth@.at(yy, xx) == if xx
                    < x {
                    want.at(yy, xx)
                } else {
                    g0.at(yy, xx)
                },
        decreases width - x,
    {
        assert(synth@.column(x as int) =~= g0.column(x as int));
        synthesize_column(synth, x, filter);
        x = x + 1;
    }
    proof {
        grid::lemma_grid_equal(synth@, want);
    }
}

/// Removes the accuracy bits of every sample.
fn apply_bit_shift(synth: &mut Plane, shift: u32)
    requires
        shift < 64,
    ensures
        final(synth)@ == descaled(old(synth)@, shift as nat),
{
    let ghost g0 = synth@;
    if shift > 0 {
        let add: i64 = 1i64 << (shift - 1);
        proof {
            num::lemma_one_shl((shift - 1) as u32);
        }
        let mut i: usize = 0;
        while i < synth.data.len()
            invariant
                0 < shift < 64,
                add == power2::pow2((shift - 1) as nat),
                i <= synth.data@.len(),
                synth.data@.len() == g0.data.len(),
                synth@.width == g0.width,
                synth@.height == g0.height,
                forall|k: int|
                    0 <= k < g0.data.len() ==> #[trigger] synth.data@[k] == if k < i {
                        descaled_sample(g0.data[k], shift as nat)
                    } else {
                        g0.data[k]
                    },
            decreases synth.data@.len() - i,
        {
            let v: i64 = synth.data[i];
            let sum: i64 = v.wrapping_add(add);
            proof {
                num::lemma_wrapping_ops(v, add);
                num::lemma_shr_is_floor_div(sum, shift);
            }
            synth.data.set(i, sum >> shift);
            i = i + 1;
        }
    }
    assert(synth@.data =~= descaled(g0, shift as nat).data);
}

/// Horizontal synthesis of a low and a high band into a plane of twice the
/// width.
pub fn h_synthesis(l_data: &Plane, h_data: &Plane, filter_ho: &WaveletFilter) -> (r: Plane)
    requires
        l_data@.covers(l_data@.height, l_data@.width),
        h_data@.covers(l_data@.height, l_data@.width),
        2 * l_data.width <= usize::MAX,
        2 * l_data.width * l_data.height <= usize::MAX,
        filter_ho@.wf(),
    ensures
        r@ == spec_h_synthesis(l_data@, h_data@, filter_ho@),
        r@.wf(),
        r@.width == 2 * l_data@.width,
        r@.height == l_data@.height,
{
    let ghost l = l_data@;
    let ghost h = h_data@;
    let width: usize = l_data.width * 2;
    let height: usize = l_data.height;
    assert(width * height == 2 * l_data.width * l_data.height);
    let mut synth: Plane = Plane::new(width, height);
    let ghost want = interleaved_columns(l, h);
    proof {
        grid::lemma_tabulate(
            2 * l.width,
            l.height,
            |y: int, x: int|
                if x % 2 == 0 {
                    l.at(y, x / 2)
                } else {
                    h.at(y, x / 2)
                },
        );
    }
    let mut y: usize = 0;
    while y < height
        invariant
            y <= height,
            height == l_data.height,
            width == 2 * l_data.width,
            l == l_data@,
            h == h_data@,
            l.covers(l.height, l.width),
            h.covers(l.height, l.width),
            synth@.wf(),
            synth@.width == width,
            synth@.height == height,
            want.wf(),
            want.width == width,
            want.height == height,
            forall|yy: int, xx: int|
                0 <= yy < height && 0 <= xx < width ==> #[trigger] want.at(yy, xx) == if xx % 2
                    == 0 {
                    l.at(yy, xx / 2)
                } else {
                    h.at(yy, xx / 2)
                },
            forall|yy: int, xx: int|
                0 <= yy < y && 0 <= xx < width ==> #[trigger] synth@.at(yy, xx) == want.at(yy, xx),
        decreases height - y,
    {
        let mut x: usize = 0;
        while x < l_data.width
            invariant
                y < height,
                x <= l_data.width,
                height == l_data.height,
                width == 2 * l_data.width,
                l == l_data@,
                h == h_data@,
                l.covers(l.height, l.width),
                h.covers(l.height, l.width),
                synth@.wf(),
                synth@.width == width,
                synth@.height == height,
                want.width == width,
                want.height == height,
                forall|yy: int, xx: int|
                    0 <= yy < height && 0 <= xx < width ==> #[trigger] want.at(yy, xx) == if xx % 2
                        == 0 {
                        l.at(yy, xx / 2)
                    } else {
                        h.at(yy, xx / 2)
                    },
                forall|yy: int, xx: int|
                    0 <= xx < width && (0 <= yy < y || (yy == y && xx < 2 * x))
                        ==> #[trigger] synth@.at(yy, xx) == want.at(yy, xx),
            decreases l_data.width - x,
        {
            assert(l.holds(y as int, x as int));
            assert(h.holds(y as int, x as int));
            let low: i64 = l_data.get(y, x);
            let high: i64 = h_data.get(y, x);
            proof {
                grid::lemma_place(synth@.width, synth@.height, y as int, 2 * x as int);
                grid::lemma_with(synth@, y as int, 2 * x as int, low);
                assert(want.at(y as int, 2 * x as int) == low);
            }
            synth.set(y, 2 * x, low);
            proof {
                grid::lemma_place(synth@.width, synth@.height, y as int, 2 * x + 1);
                grid::lemma_with(synth@, y as int, 2 * x + 1, high);
                assert(want.at(y as int, 2 * x + 1) == high);
            }
            synth.set(y, 2 * x + 1, high);
            x = x + 1;
        }
        y = y + 1;
    }
    proof {
        grid::lemma_grid_equal(synth@, want);
    }
    synthesize_rows(&mut synth, filter_ho);
    apply_bit_shift(&mut synth, filter_ho.bit_shift);
    synth
}

/// Vertical, then horizontal synthesis of four bands into a plane of twice the
/// dimensions.
pub fn vh_synthesis(
    ll: &Plane,
    hl: &Plane,
    lh: &Plane,
    hh: &Plane,
    filter_v: &WaveletFilter,
    filter_ho: &WaveletFilter,
) -> (r: Plane)
    requires
        ll@.covers(ll@.height, ll@.width),
        hl@.covers(ll@.height, ll@.width),
        lh@.covers(ll@.height, ll@.width),
        hh@.covers(ll@.height, ll@.width),
        2 * ll.width <= usize::MAX,
        2 * ll.height <= usize::MAX,
        (2 * ll.width) * (2 * ll.height) <= usize::MAX,
        filter_v@.wf(),
        filter_ho@.wf(),
    ensures
        r@ == spec_vh_synthesis(ll@, hl@, lh@, hh@, filter_v@, filter_ho@),
        r@.wf(),
        r@.width == 2 * ll@.width,
        r@.height == 2 * ll@.height,
{
    let ghost gll = ll@;
    let ghost ghl = hl@;
    let ghost glh = lh@;
    let ghost ghh = hh@;
    let width: usize = ll.width * 2;
    let height: usize = ll.height * 2;
    let mut synth: Plane = Plane::new(width, height);
    let ghost want = interleaved_quadrants(gll, ghl, glh, ghh);
    proof {
        grid::lemma_tabulate(
            2 * gll.width,
            2 * gll.height,
            |y: int, x: int|
                if y % 2 == 0 {
                    if x % 2 == 0 {
                        gll.at(y / 2, x / 2)
                    } else {
                        ghl.at(y / 2, x / 2)
                    }
                } else if x % 2 == 0 {
                    glh.at(y / 2, x / 2)
                } else {
                    ghh.at(y / 2, x / 2)
                },
        );
    }
    let mut y: usize = 0;
    while y < ll.height
        invariant
            y <= ll.height,
            height == 2 * ll.height,
            width == 2 * ll.width,
            gll == ll@,
            ghl == hl@,
            glh == lh@,
            ghh == hh@,
            gll.covers(gll.height, gll.width),
            ghl.covers(gll.height, gll.width),
            glh.covers(gll.height, gll.width),
            ghh.covers(gll.height, gll.width),
            synth@.wf(),
            synth@.width == width,
            synth@.height == height,
            want.wf(),
            want.width == width,
            want.height == height,
            forall|yy: int, xx: int|
                0 <= yy < height && 0 <= xx < width ==> #[trigger] want.at(yy, xx) == if yy % 2
                    == 0 {
                    if xx % 2 == 0 {
                        gll.at(yy / 2, xx / 2)
                    } else {
                        ghl.at(yy / 2, xx / 2)
                    }
                } else if xx % 2 == 0 {
                    glh.at(yy / 2, xx / 2)
                } else {
                    ghh.at(yy / 2, xx / 2)
                },
            forall|yy: int, xx: int|
                0 <= yy < 2 * y && 0 <= xx < width ==> #[trigger] synth@.at(yy, xx) == want.at(
                    yy,
                    xx,
                ),
        decreases ll.height - y,
    {
        let mut x: usize = 0;
        while x < ll.width
            invariant
                y < ll.height,
                x <= ll.width,
                height == 2 * ll.height,
                width == 2 * ll.width,
                gll == ll@,
                ghl == hl@,
                glh == lh@,
                ghh == hh@,
                gll.covers(gll.height, gll.width),
                ghl.covers(gll.height, gll.width),
                glh.covers(gll.height, gll.width),
                ghh.covers(gll.height, gll.width),
                synth@.wf(),
                synth@.width == width,
                synth@.height == height,
                want.width == width,
                want.height == height,
                forall|yy: int, xx: int|
                    0 <= yy < height && 0 <= xx < width ==> #[trigger] want.at(yy, xx) == if yy % 2
                        == 0 {
                        if xx % 2 == 0 {
                            gll.at(yy / 2, xx / 2)
                        } else {
                            ghl.at(yy / 2, xx / 2)
                        }
                    } else if xx % 2 == 0 {
                        glh.at(yy / 2, xx / 2)
                    } else {
                        ghh.at(yy / 2, xx / 2)
                    },
                forall|yy: int, xx: int|
                    0 <= xx < width && (0 <= yy < 2 * y || (2 * y <= yy < 2 * y + 2 && xx < 2 * x))
                        ==> #[trigger] synth@.at(yy, xx) == want.at(yy, xx),
            decreases ll.width - x,
        {
            assert(gll.holds(y as int, x as int));
            assert(ghl.holds(y as int, x as int));
            assert(glh.holds(y as int, x as int));
            assert(ghh.holds(y as int, x as int));
            let (a, b): (i64, i64) = (ll.get(y, x), hl.get(y, x));
            let (c, d): (i64, i64) = (lh.get(y, x), hh.get(y, x));
            let ghost (yi, xi) = (2 * y as int, 2 * x as int);
            proof {
                assert(want.at(yi, xi) == a);
                assert(want.at(yi, xi + 1) == b);
                assert(want.at(yi + 1, xi) == c);
                assert(want.at(yi + 1, xi + 1) == d);
                grid::lemma_place(synth@.width, synth@.height, yi, xi);
                grid::lemma_with(synth@, yi, xi, a);
            }
            synth.set(2 * y, 2 * x, a);
            proof {
                grid::lemma_place(synth@.width, synth@.height, yi, xi + 1);
                grid::lemma_with(synth@, yi, xi + 1, b);
            }
            synth.set(2 * y, 2 * x + 1, b);
            proof {
                grid::lemma_place(synth@.width, synth@.height, yi + 1, xi);
                grid::lemma_with(synth@, yi + 1, xi, c);
            }
            synth.set(2 * y + 1, 2 * x, c);
            proof {
                grid::lemma_place(synth@.width, synth@.height, yi + 1, xi + 1);
                grid::lemma_with(synth@, yi + 1, xi + 1, d);
            }
            synth.set(2 * y + 1, 2 * x + 1, d);
            x = x + 1;
        }
        y = y + 1;
    }
    proof {
        grid::lemma_grid_equal(synth@, want);
    }
    synthesize_columns(&mut synth, filter_v);
    synthesize_rows(&mut synth, filter_ho);
    apply_bit_shift(&mut synth, filter_ho.bit_shift);
    synth
}

} // verus!
