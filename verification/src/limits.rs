//! Codes at the limits: beyond 64 bits, past the end of their block, and past the end
//! of the data.
use crate::bitio;
use crate::bitio::Input;
use crate::codes;
use crate::writing;
use vstd::prelude::*;

verus! {

/// A number that is too large for 64 bits reads as one less than the maximum, which
/// stands for a code that the end of the data cuts off; the reader stands right
/// behind its code.
pub proof fn law_large_codes_saturate(i: Input, v: nat)
    requires
        i.wf(),
        !i.overrun,
        v >= u64::MAX,
        i.offers(codes::unsigned_code(v)),
    ensures
        i.number() == (i.after_bits(codes::unsigned_code(v).len()), (u64::MAX - 1) as u64),
        i.uint().1 == u64::MAX - 1,
{
    let before = codes::follow_pairs(v + 1);
    codes::lemma_golomb_pairs(i, v + 1, seq![1]);
    codes::lemma_offers(i, before, seq![1]);
    codes::lemma_after_bits(i, before.len(), 1);
    reveal_with_fuel(Input::after_bits, 2);
}

/// A signed value that is too large for an `i64` reads as the greatest magnitude
/// under its sign.
pub proof fn law_large_values_saturate(i: Input, v: int)
    requires
        i.wf(),
        !i.overrun,
        v > i64::MAX || v < -i64::MAX,
        i.offers(codes::signed_code(v)),
    ensures
        i.sint() == (
            i.after_bits(codes::signed_code(v).len()),
            if v > 0 {
                i64::MAX as int
            } else {
                -(i64::MAX as int)
            },
        ),
{
    let m = codes::magnitude(v);
    let before = codes::unsigned_code(m);
    let sign = codes::signed_code(v).skip(before.len() as int);
    assert(codes::signed_code(v) =~= before + sign);
    codes::lemma_offers(i, before, sign);
    codes::lemma_offers_first(i, before, sign);
    if m >= u64::MAX {
        law_large_codes_saturate(i, m);
    } else {
        codes::law_unsigned_codes_read_back(i, m);
    }
    codes::lemma_after_bits(i, before.len(), 1);
    reveal_with_fuel(Input::after_bits, 2);
}

/// A code that the end of the data cuts off is told from all others.
pub proof fn law_cut_off_codes_are_told(i: Input, n: nat)
    requires
        i.wf(),
        !i.overrun,
        n >= 1,
        i.rest.len() * 8 - i.bit == codes::follow_pairs(n).len(),
        i.offers(codes::follow_pairs(n)),
    ensures
        i.number().1 == u64::MAX,
        i.number().0.overrun,
{
    let x = codes::follow_pairs(n);
    assert(x + seq![] =~= x);
    codes::lemma_golomb_pairs(i, n, seq![]);
    writing::lemma_behind(i, x);
    lemma_bits_spent(i, x);
    let j = i.after_bits(x.len());
    assert(j.rest.len() == 0);
    assert(j.golomb(n).1 is None);
}

proof fn lemma_bits_spent(i: Input, x: Seq<int>)
    requires
        i.wf(),
        !i.overrun,
        i.offers(x),
    ensures
        i.after_bits(x.len()).bits_ahead() == i.bits_ahead() - x.len(),
        i.after_bits(x.len()).wf(),
    decreases x.len(),
{
    if x.len() > 0 {
        lemma_bits_spent(i.after_bit(), x.skip(1));
    }
}

/// Reading on in two inputs, of which one is out of bits where the other offers ones.
proof fn lemma_ones_behind(i: Input, k: Input, acc: nat, x: Seq<int>)
    requires
        i.wf(),
        !i.overrun,
        k.wf(),
        !k.overrun,
        i.bits_left == x.len(),
        i.offers(x),
        k.offers(x + seq![1, 1, 1]),
    ensures
        i.golombb(acc).1 is Some,
        i.golombb(acc).1 == k.golomb(acc).1,
        i.golombb(acc).0.bitb_value() == k.golomb(acc).0.bit_value(),
    decreases x.len(),
{
    let ones = seq![1int, 1, 1];
    let all = x + ones;
    if x.len() == 0 {
        assert(all =~= ones);
        assert(k.after_bit().offers(all.skip(1)));
        assert(all.skip(1).len() == 2 && all.skip(1)[0] == 1);
        assert(k.after_bit().bit_value() == 1);
    } else if x[0] == 1 {
        assert(all[0] == 1);
        let i1 = i.after_bitb();
        let k1 = k.after_bit();
        assert(all.skip(1) =~= x.skip(1) + ones);
        assert(k1.offers(x.skip(1) + ones));
        assert(i1 == i.after_bit().with_bits_left(i.bits_left - 1));
        assert(i.after_bit().offers(x.skip(1)));
        if x.len() > 1 {
            assert(i.after_bit().bit_value() == x.skip(1)[0]);
            assert(k1.bit_value() == (x.skip(1) + ones)[0]);
        } else {
            assert(k1.bit_value() == (x.skip(1) + ones)[0]);
        }
    } else {
        let i1 = i.after_bitb();
        let k1 = k.after_bit();
        assert(all.skip(1) =~= x.skip(1) + ones);
        assert(i1 == i.after_bit().with_bits_left(i.bits_left - 1));
        assert(k.bit_value() == all[0] && all[0] == x[0]);
        assert(k1.offers(x.skip(1) + ones));
        if x.len() == 1 {
            assert(x.skip(1) + ones =~= ones);
            let k2 = k1.after_bit();
            assert(ones.skip(1)[0] == 1);
            assert(k2.offers(ones.skip(1)));
            assert(k2.bit_value() == 1);
            assert(ones.skip(1).skip(1)[0] == 1);
            assert(k2.after_bit().offers(ones.skip(1).skip(1)));
            assert(i1.bitb_value() == 1 && i1.after_bitb() == i1);
            reveal_with_fuel(Input::golombb, 3);
            reveal_with_fuel(Input::golomb, 3);
        } else {
            let y = x.skip(2);
            let i2 = i1.after_bitb();
            let k2 = k1.after_bit();
            assert(x.skip(1).skip(1) =~= y);
            assert((x.skip(1) + ones).skip(1) =~= y + ones);
            assert(i.after_bit().offers(x.skip(1)));
            let plain = i.after_bit().after_bit();
            assert(plain.offers(y));
            codes::lemma_offers_bounded(plain, i.bits_left - 2, y);
            assert(i2 == plain.with_bits_left(i.bits_left - 2));
            let d = x[1];
            assert(i1.bitb_value() == x.skip(1)[0] && k1.bit_value() == (x.skip(1) + ones)[0]);
            lemma_ones_behind(i2, k2, (2 * acc + d) as nat, y);
        }
    }
}

/// Bits that a block does not have are ones: a value whose code the end of its block
/// cuts off is what an unbounded reader finds where ones follow.
pub proof fn law_missing_bits_are_ones(i: Input, k: Input, x: Seq<int>)
    requires
        i.wf(),
        !i.overrun,
        k.wf(),
        !k.overrun,
        i.bits_left == x.len(),
        i.offers(x),
        k.offers(x + seq![1, 1, 1]),
    ensures
        i.uintb().1 == k.uint().1,
        i.sintb().1 == k.sint().1,
{
    lemma_ones_behind(i, k, 1, x);
}

} // verus!
