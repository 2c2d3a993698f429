//! How reading depends on the data: a reader never moves back, and a reader
//! over truncated data either gives what a reader over all of the data gives
//! or has latched its overrun flag.
use crate::bitio::Input;
use vstd::arithmetic::power2;
use vstd::prelude::*;

verus! {

impl Input {
    /// Whether `to` can be what is left of `self` after some reads: no less
    /// was there before, an overrun stays, and a bounded block that has been
    /// used up stays used up.
    pub open spec fn moved_on(self, to: Input) -> bool {
        &&& to.wf()
        &&& to.rest.len() <= self.rest.len()
        &&& self.overrun ==> to.overrun
        &&& to.overrun || to.bits_ahead() <= self.bits_ahead()
        &&& self.bits_left == 0 ==> to.bits_left == 0
    }

    /// Whether `self` is `whole` with some of its last bytes cut off, neither
    /// of them having been read past its end.
    pub open spec fn begins(self, whole: Input) -> bool {
        &&& self.wf()
        &&& self.bit == whole.bit
        &&& self.bits_left == whole.bits_left
        &&& !self.overrun
        &&& !whole.overrun
        &&& self.rest.len() <= whole.rest.len()
        &&& forall|j: int| 0 <= j < self.rest.len() ==> self.rest[j] == whole.rest[j]
    }

    /// The bytes by which `whole` is longer.
    pub open spec fn cut_off(self, whole: Input) -> Seq<u8> {
        whole.rest.skip(self.rest.len() as int)
    }

    /// Whether a bit of the last `n` bytes, or one beyond them, has been
    /// consumed.
    pub open spec fn into_last(self, n: nat) -> bool {
        self.overrun || self.bits_ahead() < 8 * n
    }

    /// Where `self` is `whole` cut short: whether a read of `self`, with outcome
    /// `cut`, went as the read of `whole`, with outcome `full`, both leaving the
    /// bytes that were cut off untouched; or else the one ran past the end and
    /// the other went on to the bytes that were cut off.
    pub open spec fn alike<T>(self, whole: Input, cut: (Input, T), full: (Input, T)) -> bool {
        &&& whole.wf() ==> whole.moved_on(full.0)
        &&& self.begins(whole) ==> {
            ||| cut.0.overrun && full.0.into_last(self.cut_off(whole).len())
            ||| {
                &&& cut.0.begins(full.0)
                &&& cut.0.cut_off(full.0) == self.cut_off(whole)
                &&& cut.1 == full.1
            }
        }
    }
}

/// Whether a parse that ran past the end and failed says that it ran past the
/// end.
pub open spec fn owns_up<T>(x: (Input, crate::error::Result<T>)) -> bool {
    x.0.overrun && x.1 is Err ==> x.1->Err_0 == crate::error::Error::UnexpectedEof
}

/// The first `k` bytes of some data begin the data.
pub proof fn lemma_take_begins(data: Seq<u8>, k: int)
    requires
        0 <= k <= data.len(),
    ensures
        Input::start(data.take(k)).begins(Input::start(data)),
{
}

/// One bit of truncated data.
pub proof fn lemma_bit(a: Input, b: Input)
    requires
        a.wf(),
    ensures
        a.moved_on(a.after_bit()),
        a.bit_value() == 0 || a.bit_value() == 1,
        a.after_bit().bits_left == a.bits_left,
        a.alike(b, (a.after_bit(), a.bit_value()), (b.after_bit(), b.bit_value())),
{
    if a.begins(b) && a.rest.len() > 0 {
        assert(a.rest[0] == b.rest[0]);
        let a1 = a.after_bit();
        let b1 = b.after_bit();
        assert(a1.cut_off(b1) =~= a.cut_off(b));
        assert forall|j: int| 0 <= j < a1.rest.len() implies a1.rest[j] == b1.rest[j] by {
            if a.bit == 7 {
                assert(a.rest[j + 1] == b.rest[j + 1]);
            }
        }
    }
}

/// One flag of truncated data.
pub proof fn lemma_flag(a: Input, b: Input)
    requires
        a.wf(),
    ensures
        a.moved_on(a.flag().0),
        a.alike(b, a.flag(), b.flag()),
{
    lemma_bit(a, b);
}

/// Alignment of truncated data.
pub proof fn lemma_aligned(a: Input, b: Input)
    requires
        a.wf(),
    ensures
        a.moved_on(a.aligned()),
        a.aligned().overrun == a.overrun,
        a.begins(b) ==> a.aligned().begins(b.aligned()) && a.aligned().cut_off(b.aligned())
            == a.cut_off(b),
{
    if a.begins(b) && a.bit != 0 {
        let a1 = a.aligned();
        let b1 = b.aligned();
        assert(a1.cut_off(b1) =~= a.cut_off(b));
        assert forall|j: int| 0 <= j < a1.rest.len() implies a1.rest[j] == b1.rest[j] by {
            assert(a.rest[j + 1] == b.rest[j + 1]);
        }
    }
}

/// A fixed-length literal of truncated data.
pub proof fn lemma_nbits(a: Input, b: Input, n: nat)
    requires
        a.wf(),
    ensures
        a.moved_on(a.nbits(n).0),
        a.nbits(n).0.bits_left == a.bits_left,
        a.alike(b, a.nbits(n), b.nbits(n)),
    decreases n,
{
    if n > 0 {
        let m = (n - 1) as nat;
        lemma_nbits(a, b, m);
        lemma_bit(a.nbits(m).0, b.nbits(m).0);
    }
}

/// A literal that does not run past the end uses up as many bits as it has.
pub proof fn lemma_nbits_progress(a: Input, n: nat)
    requires
        a.wf(),
        !a.nbits(n).0.overrun,
    ensures
        a.nbits(n).0.bits_ahead() == a.bits_ahead() - n,
        !a.overrun,
    decreases n,
{
    if n > 0 {
        let m = (n - 1) as nat;
        lemma_nbits(a, a, m);
        lemma_bit(a.nbits(m).0, a);
        lemma_nbits_progress(a, m);
    }
}

/// A literal is below the power of two of its length.
pub proof fn lemma_nbits_bound(a: Input, n: nat)
    requires
        a.wf(),
    ensures
        0 <= a.nbits(n).1 < power2::pow2(n),
    decreases n,
{
    if n == 0 {
        power2::lemma2_to64();
    } else {
        let m = (n - 1) as nat;
        lemma_nbits_bound(a, m);
        lemma_nbits(a, a, m);
        lemma_bit(a.nbits(m).0, a);
        power2::lemma_pow2_unfold(n);
    }
}

/// An exp-Golomb code moves on.
proof fn lemma_golomb_moves(a: Input, acc: nat)
    requires
        a.wf(),
    ensures
        a.moved_on(a.golomb(acc).0),
        a.golomb(acc).1 is None ==> a.golomb(acc).0.overrun,
    decreases a.bits_ahead() + 8,
{
    lemma_bit(a, a);
    let a1 = a.after_bit();
    if a.bit_value() != 1 && !a1.overrun {
        lemma_bit(a1, a1);
        lemma_golomb_moves(a1.after_bit(), (2 * acc + a1.bit_value()) as nat);
    }
}

/// An exp-Golomb code of truncated data.
pub proof fn lemma_golomb(a: Input, b: Input, acc: nat)
    requires
        a.wf(),
    ensures
        a.moved_on(a.golomb(acc).0),
        a.golomb(acc).1 is None ==> a.golomb(acc).0.overrun,
        a.alike(b, a.golomb(acc), b.golomb(acc)),
    decreases a.bits_ahead() + 8,
{
    lemma_bit(a, b);
    let a1 = a.after_bit();
    let b1 = b.after_bit();
    if a.bit_value() != 1 && !a1.overrun {
        lemma_bit(a1, b1);
        let next = (2 * acc + a1.bit_value()) as nat;
        lemma_golomb(a1.after_bit(), b1.after_bit(), next);
    }
    if b.wf() {
        lemma_bit(b, b);
        if b.bit_value() != 1 && !b1.overrun {
            lemma_bit(b1, b1);
            lemma_golomb_moves(b1.after_bit(), (2 * acc + b1.bit_value()) as nat);
        }
    }
}

/// An unsigned code of truncated data.
pub proof fn lemma_uint(a: Input, b: Input)
    requires
        a.wf(),
    ensures
        a.moved_on(a.uint().0),
        0 <= a.uint().1 <= crate::bitio::u64_max(),
        a.alike(b, a.uint(), b.uint()),
{
    lemma_golomb(a, b, 1);
    lemma_golomb_positive(a, 1);
}

/// An unsigned code of truncated data, as a machine integer.
pub proof fn lemma_number(a: Input, b: Input)
    requires
        a.wf(),
    ensures
        a.moved_on(a.number().0),
        a.alike(b, a.number(), b.number()),
{
    lemma_uint(a, b);
}

/// The bits of a code only ever add to its value.
proof fn lemma_golomb_positive(a: Input, acc: nat)
    requires
        a.wf(),
        acc >= 1,
    ensures
        a.golomb(acc).1 matches Some(v) ==> v >= 1,
    decreases a.bits_ahead() + 8,
{
    lemma_bit(a, a);
    let a1 = a.after_bit();
    if a.bit_value() != 1 && !a1.overrun {
        lemma_bit(a1, a1);
        lemma_golomb_positive(a1.after_bit(), (2 * acc + a1.bit_value()) as nat);
    }
}

/// One bounded bit of truncated data.
pub proof fn lemma_bitb(a: Input, b: Input)
    requires
        a.wf(),
    ensures
        a.moved_on(a.after_bitb()),
        a.bitb_value() == 0 || a.bitb_value() == 1,
        a.alike(b, (a.after_bitb(), a.bitb_value()), (b.after_bitb(), b.bitb_value())),
{
    lemma_bit(a, b);
}

/// A bounded code moves on.
proof fn lemma_golombb_moves(a: Input, acc: nat)
    requires
        a.wf(),
    ensures
        a.moved_on(a.golombb(acc).0),
    decreases a.bits_left,
{
    lemma_bitb(a, a);
    let a1 = a.after_bitb();
    if a.bitb_value() != 1 && !a1.overrun {
        lemma_bitb(a1, a1);
        lemma_golombb_moves(a1.after_bitb(), (2 * acc + a1.bitb_value()) as nat);
    }
}

/// A bounded code of truncated data.
pub proof fn lemma_golombb(a: Input, b: Input, acc: nat)
    requires
        a.wf(),
        acc >= 1,
    ensures
        a.moved_on(a.golombb(acc).0),
        a.golombb(acc).1 is None ==> a.golombb(acc).0.overrun,
        a.golombb(acc).1 matches Some(v) ==> v >= 1,
        a.alike(b, a.golombb(acc), b.golombb(acc)),
    decreases a.bits_left,
{
    lemma_bitb(a, b);
    let a1 = a.after_bitb();
    let b1 = b.after_bitb();
    if a.bitb_value() != 1 && !a1.overrun {
        lemma_bitb(a1, b1);
        lemma_golombb(
            a1.after_bitb(),
            b1.after_bitb(),
            (2 * acc + a1.bitb_value()) as nat,
        );
    }
    if b.wf() {
        lemma_bitb(b, b);
        if b.bitb_value() != 1 && !b1.overrun {
            lemma_bitb(b1, b1);
            lemma_golombb_moves(b1.after_bitb(), (2 * acc + b1.bitb_value()) as nat);
        }
    }
}

/// A bounded signed code of truncated data.
pub proof fn lemma_sintb(a: Input, b: Input)
    requires
        a.wf(),
    ensures
        a.moved_on(a.sintb().0),
        -crate::bitio::i64_max() <= a.sintb().1 <= crate::bitio::i64_max(),
        a.alike(b, a.sintb(), b.sintb()),
{
    lemma_golombb(a, b, 1);
    lemma_bitb(a.uintb().0, b.uintb().0);
}

/// Flushing a bounded block moves on.
proof fn lemma_flushed_moves(a: Input)
    requires
        a.wf(),
    ensures
        a.moved_on(a.flushed()),
    decreases a.bits_left,
{
    if a.bits_left > 0 && !a.overrun {
        lemma_bit(a, a);
        lemma_flushed_moves(a.after_bit().with_bits_left(a.bits_left - 1));
    }
}

/// Flushing a bounded block of truncated data.
pub proof fn lemma_flushed(a: Input, b: Input)
    requires
        a.wf(),
    ensures
        a.moved_on(a.flushed()),
        a.flushed().bits_left == 0,
        a.alike(b, (a.flushed(), ()), (b.flushed(), ())),
    decreases a.bits_left,
{
    if a.bits_left > 0 && !a.overrun {
        lemma_bit(a, b);
        lemma_flushed(
            a.after_bit().with_bits_left(a.bits_left - 1),
            b.after_bit().with_bits_left(a.bits_left - 1),
        );
    }
    if b.wf() {
        lemma_bit(b, b);
        lemma_flushed_moves(b);
        if b.bits_left > 0 && !b.overrun {
            lemma_flushed_moves(b.after_bit().with_bits_left(b.bits_left - 1));
        }
    }
}

/// A skip moves on.
proof fn lemma_skipped_moves(a: Input, n: nat)
    requires
        a.wf(),
    ensures
        a.moved_on(a.skipped(n).0),
    decreases n,
{
    if n > 0 {
        lemma_nbits(a, a, 8);
        if !a.uint_lit(1).0.overrun {
            lemma_skipped_moves(a.uint_lit(1).0, (n - 1) as nat);
        }
    }
}

/// A skip over truncated data.
pub proof fn lemma_skipped(a: Input, b: Input, n: nat)
    requires
        a.wf(),
    ensures
        a.moved_on(a.skipped(n).0),
        a.skipped(n).0.bits_left == a.bits_left,
        !a.overrun && a.skipped(n).0.overrun ==> a.skipped(n).1 == Err::<(), crate::error::Error>(
            crate::error::Error::UnexpectedEof,
        ),
        a.skipped(n).1 is Err ==> a.skipped(n).0.overrun && a.skipped(n).1->Err_0
            == crate::error::Error::UnexpectedEof,
        a.alike(b, a.skipped(n), b.skipped(n)),
    decreases n,
{
    if n > 0 {
        lemma_nbits(a, b, 8);
        let a1 = a.uint_lit(1).0;
        let b1 = b.uint_lit(1).0;
        if !a1.overrun {
            lemma_skipped(a1, b1, (n - 1) as nat);
        }
        if b.wf() {
            lemma_nbits(b, b, 8);
            lemma_skipped_moves(b1, (n - 1) as nat);
        }
    }
}

} // verus!
