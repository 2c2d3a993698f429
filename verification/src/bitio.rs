//! Bit and byte input, and the variable-length code readers.
//!
//! Bits are consumed most significant first. Reads past the end of the data
//! give zero bits and latch the [`BitReader::overrun`] flag, so that a
//! truncated stream is told apart from one that holds zeros, and so that the
//! variable-length readers cannot spin on the endless zeros.
//!
//! [`Input`] is the mathematical model of a reader: what is left to be read,
//! and nothing about where it came from. Every reader operation is a function
//! from one `Input` to the next.
use crate::error::Error;
use vstd::prelude::*;

verus! {

/// What a reader still has in front of it.
pub struct Input {
    /// The bytes from the one being consumed on.
    pub rest: Seq<u8>,
    /// How many bits of `rest[0]` have been consumed, 0 to 7.
    pub bit: int,
    /// The bits that remain of the current bounded block.
    pub bits_left: int,
    /// Whether a bit has been asked for beyond the end.
    pub overrun: bool,
}

/// The place value, within its byte, of the bit that `i` bits precede.
pub open spec fn bit_weight(i: int) -> int {
    if i == 0 {
        128
    } else if i == 1 {
        64
    } else if i == 2 {
        32
    } else if i == 3 {
        16
    } else if i == 4 {
        8
    } else if i == 5 {
        4
    } else if i == 6 {
        2
    } else {
        1
    }
}

/// Bit number `i` of `b`, counted from the most significant one.
pub open spec fn bit_of(b: u8, i: int) -> int {
    (b as int / bit_weight(i)) % 2
}

/// The largest `u64`.
pub open spec fn u64_max() -> int {
    0xffff_ffff_ffff_ffff
}

/// The largest `i64`.
pub open spec fn i64_max() -> int {
    0x7fff_ffff_ffff_ffff
}

/// The smaller of two integers.
pub open spec fn least(a: int, b: int) -> int {
    if a <= b {
        a
    } else {
        b
    }
}

impl Input {
    /// A fresh input over `data`.
    pub open spec fn start(data: Seq<u8>) -> Input {
        Input { rest: data, bit: 0, bits_left: 0, overrun: false }
    }

    /// Whether the bit position is one inside a byte, of the data unless the
    /// reader has run past its end.
    pub open spec fn wf(self) -> bool {
        &&& 0 <= self.bit < 8
        &&& 0 <= self.bits_left <= u64_max()
        &&& self.bit != 0 && self.rest.len() == 0 ==> self.overrun
    }

    /// The value of the next bit; zero beyond the end.
    pub open spec fn bit_value(self) -> int {
        if self.rest.len() == 0 {
            0
        } else {
            bit_of(self.rest[0], self.bit)
        }
    }

    /// The bytes from the next one on; nothing follows the end.
    pub open spec fn next_byte(self) -> Seq<u8> {
        if self.rest.len() == 0 {
            self.rest
        } else {
            self.rest.skip(1)
        }
    }

    /// The input behind the next bit.
    pub open spec fn after_bit(self) -> Input {
        Input {
            rest: if self.bit == 7 {
                self.next_byte()
            } else {
                self.rest
            },
            bit: if self.bit == 7 {
                0
            } else {
                self.bit + 1
            },
            bits_left: self.bits_left,
            overrun: self.overrun || self.rest.len() == 0,
        }
    }

    /// The input from the next byte boundary on.
    pub open spec fn aligned(self) -> Input {
        if self.bit == 0 {
            self
        } else {
            Input { rest: self.next_byte(), bit: 0, ..self }
        }
    }

    /// Whether there are no more bytes, and every bit of the last one has been
    /// consumed.
    pub open spec fn at_end(self) -> bool {
        self.rest.len() == 0 && self.bit == 0
    }

    /// An `n`-bit unsigned literal, most significant bit first.
    pub open spec fn nbits(self, n: nat) -> (Input, int)
        decreases n,
    {
        if n == 0 {
            (self, 0)
        } else {
            let (i, v) = self.nbits((n - 1) as nat);
            (i.after_bit(), 2 * v + i.bit_value())
        }
    }

    /// An `n`-byte unsigned literal.
    pub open spec fn uint_lit(self, n: nat) -> (Input, int) {
        self.nbits(8 * n)
    }

    /// A flag.
    pub open spec fn flag(self) -> (Input, bool) {
        (self.after_bit(), self.bit_value() == 1)
    }

    /// How many bits are left before the end.
    pub open spec fn bits_ahead(self) -> int {
        8 * self.rest.len() - self.bit
    }

    /// An interleaved exp-Golomb code whose leading one bits have given `acc`
    /// so far: a follow bit of 1 ends it, a follow bit of 0 announces one more
    /// data bit. `None` where the end comes first.
    pub open spec fn golomb(self, acc: nat) -> (Input, Option<nat>)
        decreases self.bits_ahead() + 8,
        when self.wf()
    {
        let i = self.after_bit();
        if self.bit_value() == 1 {
            (i, Some(acc))
        } else if i.overrun {
            (i, None)
        } else {
            i.after_bit().golomb((2 * acc + i.bit_value()) as nat)
        }
    }

    /// An unsigned interleaved exp-Golomb code. Values beyond 64 bits saturate
    /// one below the maximum; the maximum stands for a code cut off by the end.
    pub open spec fn uint(self) -> (Input, int) {
        match self.golomb(1) {
            (i, Some(v)) => (i, least(v as int, u64_max()) - 1),
            (i, None) => (i, u64_max()),
        }
    }

    /// [`Self::uint`] as a machine integer.
    pub open spec fn number(self) -> (Input, u64) {
        (self.uint().0, self.uint().1 as u64)
    }

    /// A signed interleaved exp-Golomb code: a magnitude, and a sign bit where
    /// the magnitude is not zero.
    pub open spec fn sint(self) -> (Input, int) {
        let (i, v) = self.uint();
        let m = least(v, i64_max());
        if m == 0 {
            (i, 0)
        } else if i.bit_value() == 1 {
            (i.after_bit(), -m)
        } else {
            (i.after_bit(), m)
        }
    }

    /// The input with `bits` bits in its bounded block.
    pub open spec fn with_bits_left(self, bits: int) -> Input {
        Input { bits_left: bits, ..self }
    }

    /// The next bit of the bounded block; one where the block is used up.
    pub open spec fn bitb_value(self) -> int {
        if self.bits_left <= 0 {
            1
        } else {
            self.bit_value()
        }
    }

    /// The input behind the next bit of the bounded block.
    pub open spec fn after_bitb(self) -> Input {
        if self.bits_left <= 0 {
            self
        } else {
            self.after_bit().with_bits_left(self.bits_left - 1)
        }
    }

    /// [`Self::golomb`] inside the bounded block.
    pub open spec fn golombb(self, acc: nat) -> (Input, Option<nat>)
        decreases self.bits_left,
    {
        let i = self.after_bitb();
        if self.bitb_value() == 1 {
            (i, Some(acc))
        } else if i.overrun {
            (i, None)
        } else {
            i.after_bitb().golombb((2 * acc + i.bitb_value()) as nat)
        }
    }

    /// [`Self::uint`] inside the bounded block.
    pub open spec fn uintb(self) -> (Input, int) {
        match self.golombb(1) {
            (i, Some(v)) => (i, least(v as int, u64_max()) - 1),
            (i, None) => (i, u64_max()),
        }
    }

    /// [`Self::sint`] inside the bounded block.
    pub open spec fn sintb(self) -> (Input, int) {
        let (i, v) = self.uintb();
        let m = least(v, i64_max());
        if m == 0 {
            (i, 0)
        } else if i.bitb_value() == 1 {
            (i.after_bitb(), -m)
        } else {
            (i.after_bitb(), m)
        }
    }

    /// The input behind the bounded block; the end of the data ends the block.
    pub open spec fn flushed(self) -> Input
        decreases self.bits_left,
    {
        if self.bits_left <= 0 {
            self
        } else if self.overrun {
            self.with_bits_left(0)
        } else {
            self.after_bit().with_bits_left(self.bits_left - 1).flushed()
        }
    }

    /// The input behind `n` whole bytes, or an error where the end comes first.
    pub open spec fn skipped(self, n: nat) -> (Input, Result<(), Error>)
        decreases n,
    {
        if n == 0 {
            (self, Ok(()))
        } else {
            let i = self.uint_lit(1).0;
            if i.overrun {
                (i, Err(Error::UnexpectedEof))
            } else {
                i.skipped((n - 1) as nat)
            }
        }
    }
}

/// Bit reader over a byte slice.
#[derive(Debug)]
pub struct BitReader<'a> {
    data: &'a [u8],
    /// Index of the byte being consumed; `data.len()` past the end.
    byte: usize,
    /// How many bits of that byte have been consumed.
    bit: u8,
    /// Remaining bits of the bounded block.
    bits_left: u64,
    /// Latched once a bit is consumed from beyond the end of `data`.
    overrun: bool,
}

impl View for BitReader<'_> {
    type V = Input;

    closed spec fn view(&self) -> Input {
        Input {
            rest: self.data@.skip(self.byte as int),
            bit: self.bit as int,
            bits_left: self.bits_left as int,
            overrun: self.overrun,
        }
    }
}

impl Clone for BitReader<'_> {
    fn clone(&self) -> (r: Self)
        ensures
            r@ == self@,
            r.source() == self.source(),
    {
        proof {
            use_type_invariant(self);
        }
        BitReader {
            data: self.data,
            byte: self.byte,
            bit: self.bit,
            bits_left: self.bits_left,
            overrun: self.overrun,
        }
    }
}

impl<'a> BitReader<'a> {
    /// The position lies in the data or right behind it.
    #[verifier::type_invariant]
    pub closed spec fn inv(self) -> bool {
        &&& self.byte <= self.data@.len()
        &&& self.bit < 8
        &&& self.bit != 0 && self.byte == self.data@.len() ==> self.overrun
    }

    /// What the invariant says of the model.
    pub proof fn lemma_inv(self)
        requires
            self.inv(),
        ensures
            self@.wf(),
    {
    }

    /// The bytes that the reader was made over.
    pub closed spec fn source(&self) -> Seq<u8> {
        self.data@
    }

    /// A reader positioned at the start of `data`.
    pub fn new(data: &'a [u8]) -> (r: Self)
        ensures
            r@ == Input::start(data@),
            r.source() == data@,
    {
        let r = BitReader { data, byte: 0, bit: 0, bits_left: 0, overrun: false };
        assert(r@.rest =~= data@);
        r
    }

    /// True once any bit has been consumed from beyond the end of the input.
    pub fn overrun(&self) -> (b: bool)
        ensures
            b == self@.overrun,
    {
        self.overrun
    }

    /// Offset, from the start of the slice, of the byte being consumed.
    pub fn byte_pos(&self) -> (p: usize)
        ensures
            p == self.source().len() - self@.rest.len(),
            p <= self.source().len(),
            self@.rest == self.source().skip(p as int),
            self@.wf(),
    {
        proof {
            use_type_invariant(self);
        }
        self.byte
    }

    /// Moves on to the next byte.
    fn read_byte(&mut self)
        ensures
            final(self)@ == (Input { rest: old(self)@.next_byte(), bit: 0, ..old(self)@ }),
            final(self).source() == old(self).source(),
    {
        proof {
            use_type_invariant(&*self);
        }
        self.bit = 0;
        if self.byte < self.data.len() {
            self.byte = self.byte + 1;
        }
        assert(self@.rest =~= old(self)@.next_byte());
    }

    /// Reads one bit.
    pub fn read_bit(&mut self) -> (b: u32)
        ensures
            b == old(self)@.bit_value(),
            final(self)@ == old(self)@.after_bit(),
            final(self).source() == old(self).source(),
            b == 0 || b == 1,
            old(self)@.wf(),
            final(self)@.wf(),
    {
        proof {
            use_type_invariant(&*self);
        }
        let cur: u8 = if self.byte < self.data.len() {
            self.data[self.byte]
        } else {
            self.overrun = true;
            0
        };
        let shift: u8 = 7 - self.bit;
        let b: u8 = (cur >> shift) & 1;
        assert(b == bit_of(cur, self.bit as int)) by {
            assert(shift < 8 ==> ((shift == 0 ==> (cur >> shift) & 1 == cur % 2) && (shift == 1 ==> (
            cur >> shift) & 1 == (cur / 2) % 2) && (shift == 2 ==> (cur >> shift) & 1 == (cur / 4)
                % 2) && (shift == 3 ==> (cur >> shift) & 1 == (cur / 8) % 2) && (shift == 4 ==> (cur
                >> shift) & 1 == (cur / 16) % 2) && (shift == 5 ==> (cur >> shift) & 1 == (cur / 32)
                % 2) && (shift == 6 ==> (cur >> shift) & 1 == (cur / 64) % 2) && (shift == 7 ==> (
            cur >> shift) & 1 == (cur / 128) % 2))) by (bit_vector);
        }
        if self.bit == 7 {
            self.read_byte();
        } else {
            self.bit = self.bit + 1;
        }
        b as u32
    }

    /// Discards the rest of the current byte unless already on a boundary.
    pub fn byte_align(&mut self)
        ensures
            final(self)@ == old(self)@.aligned(),
            final(self).source() == old(self).source(),
            final(self)@.wf(),
    {
        proof {
            use_type_invariant(&*self);
        }
        if self.bit != 0 {
            self.read_byte();
        }
    }

    /// Whether there are no more bytes, and every bit of the last one has been
    /// consumed.
    pub fn is_end_of_stream(&self) -> (b: bool)
        ensures
            b == self@.at_end(),
    {
        proof {
            use_type_invariant(self);
        }
        self.byte == self.data.len() && self.bit == 0
    }

    /// Reads a flag.
    pub fn read_bool(&mut self) -> (b: bool)
        ensures
            (final(self)@, b) == old(self)@.flag(),
            final(self).source() == old(self).source(),
            final(self)@.wf(),
    {
        self.read_bit() == 1
    }

    /// Reads an `n`-bit unsigned literal, most significant bit first. Only the
    /// low 64 bits of longer literals are kept.
    pub fn read_nbits(&mut self, n: u32) -> (v: u64)
        ensures
            final(self)@ == old(self)@.nbits(n as nat).0,
            v == old(self)@.nbits(n as nat).1 % 0x1_0000_0000_0000_0000,
            final(self).source() == old(self).source(),
            final(self)@.wf(),
    {
        proof {
            use_type_invariant(&*self);
        }
        let mut val: u64 = 0;
        let mut k: u32 = 0;
        while k < n
            invariant
                k <= n,
                self@ == old(self)@.nbits(k as nat).0,
                val == old(self)@.nbits(k as nat).1 % 0x1_0000_0000_0000_0000,
                self.source() == old(self).source(),
                self@.wf(),
            decreases n - k,
        {
            let ghost full = old(self)@.nbits(k as nat).1;
            let b: u64 = self.read_bit() as u64;
            let twice: u64 = val << 1;
            assert(twice == (2 * val) % 0x1_0000_0000_0000_0000 && twice < 0xffff_ffff_ffff_ffff)
                by (bit_vector)
                requires
                    twice == val << 1,
            ;
            val = twice + b;
            assert((2 * full + b) % 0x1_0000_0000_0000_0000 == val) by {
                lemma_append_bit(full, b as int);
            }
            k = k + 1;
        }
        val
    }

    /// Reads an `n`-byte unsigned literal; see [`Self::read_nbits`].
    pub fn read_uint_lit(&mut self, n: u32) -> (v: u64)
        requires
            8 * n <= u32::MAX,
        ensures
            final(self)@ == old(self)@.uint_lit(n as nat).0,
            v == old(self)@.uint_lit(n as nat).1 % 0x1_0000_0000_0000_0000,
            final(self).source() == old(self).source(),
            final(self)@.wf(),
    {
        self.read_nbits(8 * n)
    }

    /// Reads an unsigned interleaved exp-Golomb code.
    ///
    /// Past the end of the data the zero bits look like an unterminated code:
    /// the value is then `u64::MAX`, with [`Self::overrun`] latched. Codes for
    /// values beyond 64 bits saturate at `u64::MAX - 1`.
    pub fn read_uint(&mut self) -> (v: u64)
        ensures
            (final(self)@, v as int) == old(self)@.uint(),
            final(self).source() == old(self).source(),
            final(self)@.wf(),
    {
        proof {
            use_type_invariant(&*self);
        }
        let mut value: u64 = 1;
        let ghost mut acc: nat = 1;
        assert(self@.wf());
        loop
            invariant
                self@.wf(),
                acc >= 1,
                value == least(acc as int, u64_max()),
                old(self)@.golomb(1) == self@.golomb(acc),
                self.source() == old(self).source(),
            decreases self@.bits_ahead() + 8,
        {
            let ghost at = self@;
            if self.read_bit() != 0 {
                return value - 1;
            }
            if self.overrun() {
                return u64::MAX;
            }
            value = doubled(value);
            if self.read_bit() == 1 {
                value = value.saturating_add(1);
            }
            proof {
                acc = (2 * acc + at.after_bit().bit_value()) as nat;
            }
        }
    }

    /// Reads a signed interleaved exp-Golomb code.
    pub fn read_sint(&mut self) -> (v: i64)
        ensures
            (final(self)@, v as int) == old(self)@.sint(),
            final(self).source() == old(self).source(),
            final(self)@.wf(),
    {
        let magnitude: u64 = self.read_uint();
        let value: i64 = signed_magnitude(magnitude);
        if value != 0 && self.read_bit() == 1 {
            -value
        } else {
            value
        }
    }

    /// Sets the size of the bounded block that the next reads draw from.
    pub fn set_bits_left(&mut self, bits: u64)
        ensures
            final(self)@ == old(self)@.with_bits_left(bits as int),
            final(self).source() == old(self).source(),
            final(self)@.wf(),
    {
        proof {
            use_type_invariant(&*self);
        }
        self.bits_left = bits;
    }

    /// Reads one bit of the bounded block; 1 once the block is empty.
    pub fn read_bitb(&mut self) -> (b: u32)
        ensures
            b == old(self)@.bitb_value(),
            final(self)@ == old(self)@.after_bitb(),
            final(self).source() == old(self).source(),
            b == 0 || b == 1,
            old(self)@.wf(),
            final(self)@.wf(),
    {
        proof {
            use_type_invariant(&*self);
        }
        if self.bits_left == 0 {
            1
        } else {
            let b: u32 = self.read_bit();
            proof {
                use_type_invariant(&*self);
            }
            self.bits_left = self.bits_left - 1;
            b
        }
    }

    /// [`Self::read_uint`] inside the bounded block.
    pub fn read_uintb(&mut self) -> (v: u64)
        ensures
            (final(self)@, v as int) == old(self)@.uintb(),
            final(self).source() == old(self).source(),
            final(self)@.wf(),
    {
        proof {
            use_type_invariant(&*self);
        }
        let mut value: u64 = 1;
        let ghost mut acc: nat = 1;
        assert(self@.wf());
        loop
            invariant
                self@.wf(),
                acc >= 1,
                value == least(acc as int, u64_max()),
                old(self)@.golombb(1) == self@.golombb(acc),
                self.source() == old(self).source(),
            decreases self@.bits_left,
        {
            let ghost at = self@;
            if self.read_bitb() != 0 {
                return value - 1;
            }
            if self.overrun() {
                return u64::MAX;
            }
            value = doubled(value);
            if self.read_bitb() == 1 {
                value = value.saturating_add(1);
            }
            proof {
                acc = (2 * acc + at.after_bitb().bitb_value()) as nat;
            }
        }
    }

    /// [`Self::read_sint`] inside the bounded block.
    pub fn read_sintb(&mut self) -> (v: i64)
        ensures
            (final(self)@, v as int) == old(self)@.sintb(),
            final(self).source() == old(self).source(),
            final(self)@.wf(),
    {
        let magnitude: u64 = self.read_uintb();
        let value: i64 = signed_magnitude(magnitude);
        if value != 0 && self.read_bitb() == 1 {
            -value
        } else {
            value
        }
    }

    /// Discards what is left of the bounded block. The end of the data ends
    /// the block too.
    pub fn flush_inputb(&mut self)
        ensures
            final(self)@ == old(self)@.flushed(),
            final(self).source() == old(self).source(),
            final(self)@.wf(),
    {
        proof {
            use_type_invariant(&*self);
        }
        assert(self@.wf());
        while self.bits_left > 0
            invariant
                self@.wf(),
                old(self)@.flushed() == self@.flushed(),
                self.source() == old(self).source(),
            decreases self.bits_left,
        {
            proof {
                use_type_invariant(&*self);
            }
            if self.overrun {
                self.bits_left = 0;
                return;
            }
            self.read_bit();
            proof {
                use_type_invariant(&*self);
            }
            self.bits_left = self.bits_left - 1;
        }
    }

    /// Skips `n` whole bytes. Errors once the skip runs past the end.
    pub fn skip_bytes(&mut self, n: u64) -> (r: Result<(), Error>)
        ensures
            (final(self)@, r) == old(self)@.skipped(n as nat),
            final(self).source() == old(self).source(),
            final(self)@.wf(),
    {
        proof {
            use_type_invariant(&*self);
        }
        assert(self@.wf());
        let mut left: u64 = n;
        while left > 0
            invariant
                self@.wf(),
                old(self)@.skipped(n as nat) == self@.skipped(left as nat),
                self.source() == old(self).source(),
            decreases left,
        {
            self.read_uint_lit(1);
            if self.overrun() {
                return Err(Error::UnexpectedEof);
            }
            left = left - 1;
        }
        Ok(())
    }
}

/// Twice `value`, saturating.
fn doubled(value: u64) -> (r: u64)
    ensures
        r == least(2 * value, u64_max()),
{
    if value >= 0x8000_0000_0000_0000 {
        u64::MAX
    } else {
        2 * value
    }
}

/// A magnitude as a signed value, saturating.
fn signed_magnitude(magnitude: u64) -> (r: i64)
    ensures
        r == least(magnitude as int, i64_max()),
        r >= 0,
{
    if magnitude > 0x7fff_ffff_ffff_ffff {
        0x7fff_ffff_ffff_ffff
    } else {
        magnitude as i64
    }
}

/// Appending a bit to a number commutes with keeping its low 64 bits.
proof fn lemma_append_bit(full: int, b: int)
    requires
        b == 0 || b == 1,
    ensures
        (2 * full + b) % 0x1_0000_0000_0000_0000 == (2 * (full % 0x1_0000_0000_0000_0000))
            % 0x1_0000_0000_0000_0000 + b,
{
    let m: int = 0x1_0000_0000_0000_0000;
    let q = full / m;
    let r = full % m;
    assert(full == q * m + r);
    if 2 * r < m {
        assert((2 * full + b) % m == 2 * r + b) by (nonlinear_arith)
            requires
                m == 0x1_0000_0000_0000_0000,
                full == q * m + r,
                0 <= r,
                2 * r < m,
                0 <= b <= 1,
                2 * r + b < m,
        ;
    } else {
        assert((2 * full + b) % m == 2 * r - m + b) by (nonlinear_arith)
            requires
                m == 0x1_0000_0000_0000_0000,
                full == q * m + r,
                m <= 2 * r,
                r < m,
                0 <= b <= 1,
                2 * r - m + b < m,
        ;
    }
}

} // verus!
