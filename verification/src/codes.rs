//! The interleaved exp-Golomb codes as bit strings: what a writer puts down,
//! and that a reader gets it back.
use crate::bitio;
use crate::bitio::Input;
use crate::grid::Grid;
use crate::quant;
use crate::slices;
use crate::slices::Position;
use vstd::prelude::*;

verus! {

impl Input {
    /// The input behind `n` bits.
    pub open spec fn after_bits(self, n: nat) -> Input
        decreases n,
    {
        if n == 0 {
            self
        } else {
            self.after_bit().after_bits((n - 1) as nat)
        }
    }

    /// Whether the data go on with `bits`.
    pub open spec fn offers(self, bits: Seq<int>) -> bool
        decreases bits.len(),
    {
        bits.len() == 0 || {
            &&& self.rest.len() > 0
            &&& self.bit_value() == bits[0]
            &&& self.after_bit().offers(bits.skip(1))
        }
    }
}

/// The binary digits of `n` behind its leading one, each with a follow bit of 0
/// in front.
pub open spec fn follow_pairs(n: nat) -> Seq<int>
    decreases n,
{
    if n <= 1 {
        seq![]
    } else {
        follow_pairs(n / 2) + seq![0, (n % 2) as int]
    }
}

/// The unsigned code of `v`: the digits of `v + 1`, and the follow bit of 1 that
/// ends them.
pub open spec fn unsigned_code(v: nat) -> Seq<int> {
    follow_pairs(v + 1) + seq![1]
}

/// The magnitude of `v`.
pub open spec fn magnitude(v: int) -> nat {
    if v < 0 {
        (-v) as nat
    } else {
        v as nat
    }
}

/// The signed code of `v`: the code of its magnitude, and a sign bit where it is
/// not zero.
pub open spec fn signed_code(v: int) -> Seq<int> {
    unsigned_code(magnitude(v)) + if v == 0 {
        seq![]
    } else if v < 0 {
        seq![1int]
    } else {
        seq![0int]
    }
}

pub proof fn lemma_after_bits(i: Input, m: nat, n: nat)
    ensures
        i.after_bits(m).after_bits(n) == i.after_bits(m + n),
    decreases m,
{
    if m > 0 {
        lemma_after_bits(i.after_bit(), (m - 1) as nat, n);
    }
}

/// What goes on with two bit strings goes on with the first, and behind it with
/// the second.
pub proof fn lemma_offers(i: Input, x: Seq<int>, y: Seq<int>)
    requires
        i.wf(),
        !i.overrun,
        i.offers(x + y),
    ensures
        i.after_bits(x.len()).offers(y),
        i.after_bits(x.len()).wf(),
        !i.after_bits(x.len()).overrun,
        i.after_bits(x.len()).bits_left == i.bits_left,
    decreases x.len(),
{
    if x.len() == 0 {
        assert(x + y =~= y);
    } else {
        assert((x + y).skip(1) =~= x.skip(1) + y);
        lemma_offers(i.after_bit(), x.skip(1), y);
    }
}

pub proof fn lemma_golomb_pairs(i: Input, n: nat, tail: Seq<int>)
    requires
        i.wf(),
        !i.overrun,
        n >= 1,
        i.offers(follow_pairs(n) + tail),
    ensures
        i.golomb(1) == i.after_bits(follow_pairs(n).len()).golomb(n),
    decreases n,
{
    if n > 1 {
        let (m, d) = (n / 2, (n % 2) as int);
        let pair = seq![0, d];
        let before = follow_pairs(m);
        assert(follow_pairs(n) + tail =~= before + (pair + tail));
        lemma_golomb_pairs(i, m, pair + tail);
        lemma_offers(i, before, pair + tail);
        let j = i.after_bits(before.len());
        assert((pair + tail).skip(1) =~= seq![d] + tail);
        let k = j.after_bit();
        assert(k.offers(seq![d] + tail));
        assert(j.golomb(m) == k.after_bit().golomb(n));
        lemma_after_bits(i, before.len(), 2);
        reveal_with_fuel(Input::after_bits, 3);
    }
}

/// An unsigned code reads back as the value that was written, and the reader
/// stands right behind it.
pub proof fn law_unsigned_codes_read_back(i: Input, v: nat)
    requires
        i.wf(),
        !i.overrun,
        v < bitio::u64_max(),
        i.offers(unsigned_code(v)),
    ensures
        i.uint() == (i.after_bits(unsigned_code(v).len()), v as int),
{
    let before = follow_pairs(v + 1);
    lemma_golomb_pairs(i, v + 1, seq![1]);
    lemma_offers(i, before, seq![1]);
    lemma_after_bits(i, before.len(), 1);
    reveal_with_fuel(Input::after_bits, 2);
}

/// A signed code reads back as the value that was written, and the reader
/// stands right behind it.
pub proof fn law_signed_codes_read_back(i: Input, v: int)
    requires
        i.wf(),
        !i.overrun,
        -bitio::i64_max() <= v <= bitio::i64_max(),
        i.offers(signed_code(v)),
    ensures
        i.sint() == (i.after_bits(signed_code(v).len()), v),
{
    let m = magnitude(v);
    let before = unsigned_code(m);
    let sign = signed_code(v).skip(before.len() as int);
    assert(signed_code(v) =~= before + sign);
    lemma_offers(i, before, sign);
    lemma_offers_first(i, before, sign);
    law_unsigned_codes_read_back(i, m);
    lemma_after_bits(i, before.len(), 1);
    reveal_with_fuel(Input::after_bits, 2);
}

pub proof fn lemma_offers_first(i: Input, x: Seq<int>, y: Seq<int>)
    requires
        i.offers(x + y),
    ensures
        i.offers(x),
    decreases x.len(),
{
    if x.len() > 0 {
        assert((x + y).skip(1) =~= x.skip(1) + y);
        lemma_offers_first(i.after_bit(), x.skip(1), y);
    }
}

proof fn lemma_golombb_pairs(i: Input, n: nat, tail: Seq<int>)
    requires
        i.wf(),
        !i.overrun,
        n >= 1,
        i.offers(follow_pairs(n) + tail),
        i.bits_left >= follow_pairs(n).len(),
    ensures
        i.golombb(1) == i.after_bits(follow_pairs(n).len()).with_bits_left(
            i.bits_left - follow_pairs(n).len(),
        ).golombb(n),
    decreases n,
{
    if n > 1 {
        let (m, d) = (n / 2, (n % 2) as int);
        let pair = seq![0, d];
        let before = follow_pairs(m);
        assert(follow_pairs(n) + tail =~= before + (pair + tail));
        lemma_golombb_pairs(i, m, pair + tail);
        lemma_offers(i, before, pair + tail);
        let left = i.bits_left - before.len();
        let plain = i.after_bits(before.len());
        assert((pair + tail).skip(1) =~= seq![d] + tail);
        assert(plain.after_bit().offers(seq![d] + tail));
        let j = plain.with_bits_left(left);
        let k = j.after_bitb();
        assert(k == plain.after_bit().with_bits_left(left - 1));
        assert(k.after_bitb() == plain.after_bit().after_bit().with_bits_left(left - 2));
        assert(j.golombb(m) == k.after_bitb().golombb(n));
        lemma_after_bits(i, before.len(), 2);
        reveal_with_fuel(Input::after_bits, 3);
    } else {
        assert(i.with_bits_left(i.bits_left) == i);
    }
}

/// A signed code that lies inside its bounded block reads back as the value
/// that was written, using up as many bits of the block as it has.
pub proof fn law_bounded_codes_read_back(i: Input, v: int)
    requires
        i.wf(),
        !i.overrun,
        -bitio::i64_max() <= v <= bitio::i64_max(),
        i.offers(signed_code(v)),
        i.bits_left >= signed_code(v).len(),
    ensures
        i.sintb() == (
            i.after_bits(signed_code(v).len()).with_bits_left(
                i.bits_left - signed_code(v).len(),
            ),
            v,
        ),
{
    let n = magnitude(v) + 1;
    let before = follow_pairs(n);
    let rest = signed_code(v).skip(before.len() as int);
    assert(signed_code(v) =~= before + rest);
    assert(rest[0] == 1);
    lemma_golombb_pairs(i, n, rest);
    lemma_offers(i, before, rest);
    let plain = i.after_bits(before.len());
    let j = plain.with_bits_left(i.bits_left - before.len());
    assert(j.golombb(n) == (j.after_bitb(), Some(n)));
    lemma_after_bits(i, before.len(), 1);
    lemma_after_bits(i, before.len(), 2);
    reveal_with_fuel(Input::after_bits, 3);
    if v != 0 {
        assert(plain.after_bit().offers(rest.skip(1)));
        assert(rest.skip(1)[0] == rest[1]);
    }
}

/// Behind its bounded block a reader finds nothing but zeros, and stays where it
/// is.
pub proof fn law_used_up_blocks_read_zero(i: Input)
    requires
        i.wf(),
        i.bits_left == 0,
    ensures
        i.uintb() == (i, 0int),
        i.sintb() == (i, 0int),
{
}

/// The codes of some values, one behind the other.
pub open spec fn signed_codes(values: Seq<i64>) -> Seq<int>
    decreases values.len(),
{
    if values.len() == 0 {
        seq![]
    } else {
        signed_codes(values.drop_last()) + signed_code(values.last() as int)
    }
}

pub proof fn lemma_after_bits_bounded(i: Input, bits: int, n: nat)
    ensures
        i.with_bits_left(bits).after_bits(n) == i.after_bits(n).with_bits_left(bits),
    decreases n,
{
    if n > 0 {
        assert(i.with_bits_left(bits).after_bit() == i.after_bit().with_bits_left(bits));
        lemma_after_bits_bounded(i.after_bit(), bits, (n - 1) as nat);
    }
}

pub proof fn lemma_offers_bounded(i: Input, bits: int, x: Seq<int>)
    requires
        i.offers(x),
    ensures
        i.with_bits_left(bits).offers(x),
    decreases x.len(),
{
    if x.len() > 0 {
        assert(i.with_bits_left(bits).after_bit() == i.after_bit().with_bits_left(bits));
        lemma_offers_bounded(i.after_bit(), bits, x.skip(1));
    }
}

/// The codes of some values that lie inside their bounded block read back as the
/// values that were written. (The least `i64` has no code: its magnitude is out
/// of reach.)
pub proof fn law_code_runs_read_back(i: Input, values: Seq<i64>)
    requires
        i.wf(),
        !i.overrun,
        forall|k: int| 0 <= k < values.len() ==> (#[trigger] values[k]) > i64::MIN,
        i.offers(signed_codes(values)),
        i.bits_left >= signed_codes(values).len(),
    ensures
        slices::sints(i, values.len()) == (
            i.after_bits(signed_codes(values).len()).with_bits_left(
                i.bits_left - signed_codes(values).len(),
            ),
            values,
        ),
    decreases values.len(),
{
    if values.len() == 0 {
        assert(i.with_bits_left(i.bits_left) == i);
        assert(values =~= seq![]);
    } else {
        let (front, v) = (values.drop_last(), values.last() as int);
        let (x, y) = (signed_codes(front), signed_code(v));
        assert forall|k: int| 0 <= k < front.len() implies (#[trigger] front[k]) > i64::MIN by {
            assert(front[k] == values[k]);
        }
        assert(values[values.len() - 1] > i64::MIN);
        lemma_offers_first(i, x, y);
        lemma_offers(i, x, y);
        law_code_runs_read_back(i, front);
        let left = i.bits_left - x.len();
        let plain = i.after_bits(x.len());
        let j = plain.with_bits_left(left);
        lemma_offers_bounded(plain, left, y);
        law_bounded_codes_read_back(j, v);
        lemma_after_bits_bounded(plain, left, y.len());
        lemma_after_bits(i, x.len(), y.len());
        assert(front.push(v as i64) =~= values);
    }
}

/// What a slice writes of a band at quantization index 0 is what the band then
/// holds: the values in raster order, inside the block of the slice, and what it
/// held before elsewhere.
pub proof fn law_lossless_bands_read_back(i: Input, g: Grid, p: Position, values: Seq<i64>)
    requires
        i.wf(),
        !i.overrun,
        g.wf(),
        p.wf(),
        values.len() == p.block(g).area(),
        forall|k: int| 0 <= k < values.len() ==> (#[trigger] values[k]) > i64::MIN,
        i.offers(signed_codes(values)),
        i.bits_left >= signed_codes(values).len(),
    ensures
        slices::spec_band(i, g, p, 0).1 == slices::painted(g, p.block(g), |k: int| values[k]),
{
    law_code_runs_read_back(i, values);
    let block = p.block(g);
    let got = slices::spec_band(i, g, p, 0).1;
    let want = slices::painted(g, block, |k: int| values[k]);
    assert forall|n: int| 0 <= n < got.data.len() implies got.data[n] == want.data[n] by {
        let (y, x) = (n / g.width, n % g.width);
        if block.contains(y, x) {
            slices::lemma_rank_inside(block, y, x);
            quant::law_index_zero_is_lossless(values[block.rank(y, x)] as int);
        }
    }
    assert(got.data =~= want.data);
}

} // verus!
