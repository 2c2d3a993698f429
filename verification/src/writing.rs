//! What an encoder writes, bit by bit, and that the decoder gets it back:
//! literals, slices, transform parameters and headers.
use crate::bitio;
use crate::bitio::Input;
use crate::codes;
use crate::error::Error;
use crate::grid;
use crate::grid::Grid;
use crate::params;
use crate::quant;
use crate::quant::MatrixLevel;
use crate::slices;
use crate::subband;
use crate::subband::{Coefficients, Coeffs};
use crate::transform;
use crate::transform::{Orient, PictureKind, Transform};
use vstd::arithmetic::power2;
use vstd::prelude::*;

verus! {

/// The `n` binary digits of `v`, the most significant one first.
pub open spec fn literal(v: nat, n: nat) -> Seq<int>
    decreases n,
{
    if n == 0 {
        seq![]
    } else {
        literal(v / 2, (n - 1) as nat) + seq![(v % 2) as int]
    }
}

/// The bits of some bytes, each with its most significant bit first.
pub open spec fn bits_of(data: Seq<u8>) -> Seq<int>
    decreases data.len(),
{
    if data.len() == 0 {
        seq![]
    } else {
        literal(data[0] as nat, 8) + bits_of(data.skip(1))
    }
}

pub proof fn lemma_literal_len(v: nat, n: nat)
    ensures
        literal(v, n).len() == n,
    decreases n,
{
    if n > 0 {
        lemma_literal_len(v / 2, (n - 1) as nat);
    }
}

proof fn lemma_byte(i: Input, rest: Seq<int>)
    requires
        i.bit == 0,
        i.rest.len() > 0,
        (Input { rest: i.rest.skip(1), ..i }).offers(rest),
    ensures
        i.offers(literal(i.rest[0] as nat, 8) + rest),
        i.after_bits(8) == (Input { rest: i.rest.skip(1), ..i }),
{
    let b = i.rest[0] as nat;
    let bits = literal(b, 8);
    reveal_with_fuel(literal, 9);
    assert(bits =~= seq![
        (b / 128 % 2) as int,
        (b / 64 % 2) as int,
        (b / 32 % 2) as int,
        (b / 16 % 2) as int,
        (b / 8 % 2) as int,
        (b / 4 % 2) as int,
        (b / 2 % 2) as int,
        (b % 2) as int,
    ]);
    let all = bits + rest;
    reveal_with_fuel(Input::after_bits, 9);
    reveal_with_fuel(Input::offers, 9);
    let i1 = i.after_bit();
    let i2 = i1.after_bit();
    let i3 = i2.after_bit();
    let i4 = i3.after_bit();
    let i5 = i4.after_bit();
    let i6 = i5.after_bit();
    let i7 = i6.after_bit();
    let i8 = i7.after_bit();
    assert(i8 == (Input { rest: i.rest.skip(1), ..i }));
    assert(all.skip(1).skip(1).skip(1).skip(1).skip(1).skip(1).skip(1).skip(1) =~= rest);
    assert(i7.offers(all.skip(1).skip(1).skip(1).skip(1).skip(1).skip(1).skip(1)));
    assert(i6.offers(all.skip(1).skip(1).skip(1).skip(1).skip(1).skip(1)));
    assert(i5.offers(all.skip(1).skip(1).skip(1).skip(1).skip(1)));
    assert(i4.offers(all.skip(1).skip(1).skip(1).skip(1)));
    assert(i3.offers(all.skip(1).skip(1).skip(1)));
    assert(i2.offers(all.skip(1).skip(1)));
    assert(i1.offers(all.skip(1)));
}

/// A reader over bytes meets their bits, the most significant bit of each byte
/// first, and has used up the bytes behind them.
pub proof fn law_bytes_offer_their_bits(i: Input)
    requires
        i.bit == 0,
    ensures
        i.offers(bits_of(i.rest)),
        bits_of(i.rest).len() == 8 * i.rest.len(),
        i.after_bits(8 * i.rest.len()) == (Input { rest: seq![], ..i }),
    decreases i.rest.len(),
{
    if i.rest.len() == 0 {
        assert(i.rest =~= seq![]);
    } else {
        let next = Input { rest: i.rest.skip(1), ..i };
        law_bytes_offer_their_bits(next);
        lemma_byte(i, bits_of(next.rest));
        lemma_literal_len(i.rest[0] as nat, 8);
        codes::lemma_after_bits(i, 8, 8 * next.rest.len());
    }
}

/// What goes on with two bit strings: the first, and behind it the second.
pub proof fn lemma_split(i: Input, x: Seq<int>, y: Seq<int>)
    requires
        i.wf(),
        !i.overrun,
        i.offers(x + y),
    ensures
        i.offers(x),
        i.after_bits(x.len()).offers(y),
        i.after_bits(x.len()).wf(),
        !i.after_bits(x.len()).overrun,
        i.after_bits(x.len()).bits_left == i.bits_left,
        i.after_bits((x + y).len()) == i.after_bits(x.len()).after_bits(y.len()),
{
    codes::lemma_offers_first(i, x, y);
    codes::lemma_offers(i, x, y);
    codes::lemma_after_bits(i, x.len(), y.len());
}

/// Behind what was offered the reader is still inside the data.
pub proof fn lemma_behind(i: Input, x: Seq<int>)
    requires
        i.wf(),
        !i.overrun,
        i.offers(x),
    ensures
        i.after_bits(x.len()).wf(),
        !i.after_bits(x.len()).overrun,
        i.after_bits(x.len()).bits_left == i.bits_left,
{
    assert(x + seq![] =~= x);
    lemma_split(i, x, seq![]);
}

proof fn lemma_nbits_moves(i: Input, n: nat)
    ensures
        i.nbits(n).0 == i.after_bits(n),
    decreases n,
{
    if n > 0 {
        lemma_nbits_moves(i, (n - 1) as nat);
        codes::lemma_after_bits(i, (n - 1) as nat, 1);
        reveal_with_fuel(Input::after_bits, 2);
    }
}

/// A literal reads back as the value that was written.
pub proof fn law_literals_read_back(i: Input, v: nat, n: nat)
    requires
        i.wf(),
        !i.overrun,
        v < power2::pow2(n),
        i.offers(literal(v, n)),
    ensures
        i.nbits(n) == (i.after_bits(n), v as int),
    decreases n,
{
    power2::lemma2_to64();
    lemma_nbits_moves(i, n);
    if n > 0 {
        let m = (n - 1) as nat;
        let (x, y) = (literal(v / 2, m), seq![(v % 2) as int]);
        power2::lemma_pow2_unfold(n);
        lemma_literal_len(v / 2, m);
        lemma_split(i, x, y);
        law_literals_read_back(i, v / 2, m);
    }
}

/// A flag, as a bit.
pub open spec fn flag_bit(b: bool) -> Seq<int> {
    if b {
        seq![1int]
    } else {
        seq![0int]
    }
}

/// A flag reads back.
pub proof fn lemma_flag_back(i: Input, b: bool)
    requires
        i.offers(flag_bit(b)),
    ensures
        i.flag() == (i.after_bits(1), b),
{
    reveal_with_fuel(Input::after_bits, 2);
}

/// An unsigned code reads back as a machine integer.
pub proof fn lemma_number_back(i: Input, v: u64)
    requires
        i.wf(),
        !i.overrun,
        v < u64::MAX,
        i.offers(codes::unsigned_code(v as nat)),
    ensures
        i.number() == (i.after_bits(codes::unsigned_code(v as nat).len()), v),
{
    codes::law_unsigned_codes_read_back(i, v as nat);
}

/// Bits that are not looked at, to the end of their bounded block.
proof fn lemma_flush_back(i: Input, padding: Seq<int>)
    requires
        i.wf(),
        !i.overrun,
        i.bits_left == padding.len(),
        i.offers(padding),
    ensures
        i.flushed() == i.after_bits(padding.len()).with_bits_left(0),
    decreases padding.len(),
{
    if padding.len() == 0 {
        assert(i.with_bits_left(0) == i);
    } else {
        let rest = padding.skip(1);
        let next = i.after_bit().with_bits_left(i.bits_left - 1);
        codes::lemma_offers_bounded(i.after_bit(), i.bits_left - 1, rest);
        lemma_flush_back(next, rest);
        codes::lemma_after_bits_bounded(i.after_bit(), i.bits_left - 1, rest.len());
    }
}

/// Whole bytes that are not looked at.
pub proof fn lemma_skip_back(i: Input, skipped: Seq<int>, n: nat)
    requires
        i.wf(),
        !i.overrun,
        skipped.len() == 8 * n,
        i.offers(skipped),
    ensures
        i.skipped(n) == (i.after_bits(8 * n), Ok::<(), Error>(())),
    decreases n,
{
    if n > 0 {
        let (x, y) = (skipped.take(8), skipped.skip(8));
        assert(skipped =~= x + y);
        lemma_split(i, x, y);
        lemma_nbits_moves(i, 8);
        lemma_skip_back(i.after_bits(8), y, (n - 1) as nat);
    }
}

/// Where slice `s` of `count` begins in an extent.
pub open spec fn edge(extent: int, count: int, s: int) -> int {
    extent * s / count
}

/// A slice among the slices of a picture.
pub struct Place {
    pub slices_x: int,
    pub slices_y: int,
    pub sx: int,
    pub sy: int,
}

impl Place {
    /// How many coefficients the slice holds of a band.
    pub open spec fn share(self, g: Grid) -> int {
        (edge(g.width, self.slices_x, self.sx + 1) - edge(g.width, self.slices_x, self.sx)) * (edge(
            g.height,
            self.slices_y,
            self.sy + 1,
        ) - edge(g.height, self.slices_y, self.sy))
    }
}

/// Whether `new` is `old` with these values in the part that belongs to the slice,
/// row by row and from left to right.
pub open spec fn received(new: Grid, old: Grid, at: Place, values: Seq<i64>) -> bool {
    let left = edge(old.width, at.slices_x, at.sx);
    let right = edge(old.width, at.slices_x, at.sx + 1);
    let top = edge(old.height, at.slices_y, at.sy);
    let bottom = edge(old.height, at.slices_y, at.sy + 1);
    &&& new.wf()
    &&& new.width == old.width
    &&& new.height == old.height
    &&& forall|y: int, x: int|
        0 <= y < old.height && 0 <= x < old.width ==> #[trigger] new.at(y, x) == if top <= y
            < bottom && left <= x < right {
            values[(y - top) * (right - left) + (x - left)]
        } else {
            old.at(y, x)
        }
}

/// The coefficients that quantized values stand for.
pub open spec fn dequantized(values: Seq<i64>, q: u64) -> Seq<i64> {
    Seq::new(values.len(), |k: int| quant::spec_inverse_quant(values[k] as int, q as nat) as i64)
}

/// Whether every value has a code.
pub open spec fn codable(values: Seq<i64>) -> bool {
    forall|k: int| 0 <= k < values.len() ==> (#[trigger] values[k]) > i64::MIN
}

/// At index 0 every value stands for itself.
proof fn lemma_undequantized(values: Seq<i64>)
    requires
        codable(values),
    ensures
        dequantized(values, 0) == values,
{
    assert forall|k: int| 0 <= k < values.len() implies dequantized(values, 0)[k] == values[k] by {
        quant::law_index_zero_is_lossless(values[k] as int);
    }
    assert(dequantized(values, 0) =~= values);
}

spec fn position_of(at: Place) -> slices::Position {
    slices::Position { slices_x: at.slices_x, slices_y: at.slices_y, sx: at.sx, sy: at.sy }
}

spec fn place_wf(at: Place) -> bool {
    0 <= at.sx < at.slices_x && 0 <= at.sy < at.slices_y
}

proof fn lemma_painted_received(
    g: Grid,
    at: Place,
    value: spec_fn(int) -> i64,
    values: Seq<i64>,
)
    requires
        g.wf(),
        place_wf(at),
        values.len() == at.share(g),
        forall|k: int| 0 <= k < values.len() ==> #[trigger] value(k) == values[k],
    ensures
        received(slices::painted(g, position_of(at).block(g), value), g, at, values),
{
    let b = position_of(at).block(g);
    let new = slices::painted(g, b, value);
    grid::lemma_tabulate(
        g.width,
        g.height,
        |y: int, x: int|
            if b.contains(y, x) {
                value(b.rank(y, x))
            } else {
                g.at(y, x)
            },
    );
    assert forall|y: int, x: int| 0 <= y < g.height && 0 <= x < g.width implies #[trigger] new.at(
        y,
        x,
    ) == if b.contains(y, x) {
        values[b.rank(y, x)]
    } else {
        g.at(y, x)
    } by {
        if b.contains(y, x) {
            slices::lemma_rank_inside(b, y, x);
        }
    }
}

proof fn lemma_band_back(i: Input, g: Grid, at: Place, q: u64, values: Seq<i64>)
    requires
        i.wf(),
        !i.overrun,
        g.wf(),
        place_wf(at),
        values.len() == at.share(g),
        codable(values),
        i.offers(codes::signed_codes(values)),
        i.bits_left >= codes::signed_codes(values).len(),
    ensures
        ({
            let n = codes::signed_codes(values).len();
            let (j, new) = slices::spec_band(i, g, position_of(at), q);
            &&& j == i.after_bits(n).with_bits_left(i.bits_left - n)
            &&& received(new, g, at, dequantized(values, q))
        }),
{
    codes::law_code_runs_read_back(i, values);
    let value = |k: int| quant::spec_inverse_quant(values[k] as int, q as nat) as i64;
    lemma_painted_received(g, at, value, dequantized(values, q));
}

/// The codes of the values of some bands, one band behind the other.
pub open spec fn codes_of_bands(values: Seq<Seq<i64>>, n: nat) -> Seq<int>
    decreases n,
{
    if n == 0 {
        seq![]
    } else {
        codes_of_bands(values, (n - 1) as nat) + codes::signed_codes(values[n - 1])
    }
}

/// Whether there is a codable value for every coefficient that the slice holds of
/// each band.
pub open spec fn fills(values: Seq<Seq<i64>>, bands: Seq<Grid>, at: Place) -> bool {
    &&& values.len() == bands.len()
    &&& forall|k: int|
        0 <= k < bands.len() ==> (#[trigger] values[k]).len() == at.share(bands[k]) && codable(
            values[k],
        )
}

/// Whether each band has received its values, dequantized with its quantizer.
pub open spec fn all_received(
    new: Seq<Grid>,
    old: Seq<Grid>,
    at: Place,
    values: Seq<Seq<i64>>,
    quantizers: Seq<u64>,
) -> bool {
    &&& new.len() == old.len()
    &&& forall|k: int|
        0 <= k < old.len() ==> received(
            #[trigger] new[k],
            old[k],
            at,
            dequantized(values[k], quantizers[k]),
        )
}

proof fn lemma_bands_back(
    i: Input,
    bands: Seq<Grid>,
    at: Place,
    quantizers: Seq<u64>,
    values: Seq<Seq<i64>>,
    n: nat,
)
    requires
        i.wf(),
        !i.overrun,
        forall|k: int| 0 <= k < bands.len() ==> (#[trigger] bands[k]).wf(),
        place_wf(at),
        fills(values, bands, at),
        n <= bands.len(),
        i.offers(codes_of_bands(values, n)),
        i.bits_left >= codes_of_bands(values, n).len(),
    ensures
        ({
            let len = codes_of_bands(values, n).len();
            let (j, new) = slices::spec_bands(i, bands, quantizers, position_of(at), n);
            &&& j == i.after_bits(len).with_bits_left(i.bits_left - len)
            &&& new.len() == bands.len()
            &&& forall|k: int|
                0 <= k < n ==> received(
                    #[trigger] new[k],
                    bands[k],
                    at,
                    dequantized(values[k], quantizers[k]),
                )
            &&& forall|k: int| n <= k < bands.len() ==> #[trigger] new[k] == bands[k]
        }),
    decreases n,
{
    if n == 0 {
        assert(i.with_bits_left(i.bits_left) == i);
    } else {
        let m = (n - 1) as nat;
        let (x, y) = (codes_of_bands(values, m), codes::signed_codes(values[n - 1]));
        lemma_split(i, x, y);
        lemma_bands_back(i, bands, at, quantizers, values, m);
        let left = i.bits_left - x.len();
        let plain = i.after_bits(x.len());
        let j = plain.with_bits_left(left);
        codes::lemma_offers_bounded(plain, left, y);
        assert(values[n - 1].len() == at.share(bands[n - 1]));
        lemma_band_back(j, bands[n - 1], at, quantizers[n - 1], values[n - 1]);
        codes::lemma_after_bits_bounded(plain, left, y.len());
    }
}

/// One component of a high-quality slice: the code of its length, its values, and
/// what fills up the length.
pub struct HqPart {
    pub length: nat,
    pub values: Seq<Seq<i64>>,
    pub padding: Seq<int>,
}

impl HqPart {
    /// The codes and the padding.
    pub open spec fn body(self) -> Seq<int> {
        codes_of_bands(self.values, self.values.len()) + self.padding
    }

    /// The component as bits.
    pub open spec fn bits(self) -> Seq<int> {
        literal(self.length, 8) + self.body()
    }

    /// Whether the component takes as many bytes as its length code says in units
    /// of `scaler` bytes.
    pub open spec fn measures(self, scaler: int) -> bool {
        &&& self.length <= 255
        &&& self.body().len() == 8 * (scaler * self.length)
    }
}

proof fn lemma_hq_part_back(
    i: Input,
    c: Coeffs,
    at: Place,
    t: Transform,
    quantizers: Seq<u64>,
    part: HqPart,
)
    requires
        i.wf(),
        !i.overrun,
        t.slices_valid(),
        forall|k: int| 0 <= k < c.bands.len() ==> (#[trigger] c.bands[k]).wf(),
        place_wf(at),
        fills(part.values, c.bands, at),
        part.measures(t.slice_size_scaler as int),
        i.offers(part.bits()),
    ensures
        ({
            let (j, done) = slices::spec_hq_component(i, c, t, quantizers, position_of(at));
            &&& j == i.after_bits(part.bits().len()).with_bits_left(0)
            &&& done.width == c.width && done.height == c.height
            &&& all_received(done.bands, c.bands, at, part.values, quantizers)
        }),
{
    power2::lemma2_to64();
    let bits = 8 * (t.slice_size_scaler * part.length);
    let (head, body) = (literal(part.length, 8), part.body());
    let (x, y) = (codes_of_bands(part.values, part.values.len()), part.padding);
    lemma_literal_len(part.length, 8);
    lemma_split(i, head, body);
    law_literals_read_back(i, part.length, 8);
    let plain = i.after_bits(8);
    let i1 = plain.with_bits_left(bits);
    assert(i1.wf()) by {
        assert(t.slice_size_scaler * part.length <= 0x1_0000 * 255) by (nonlinear_arith)
            requires
                0 <= t.slice_size_scaler <= 0x1_0000,
                part.length <= 255,
        ;
    }
    codes::lemma_offers_bounded(plain, bits, body);
    lemma_split(i1, x, y);
    lemma_bands_back(i1, c.bands, at, quantizers, part.values, c.bands.len());
    let left = bits - x.len();
    let i2 = i1.after_bits(x.len()).with_bits_left(left);
    codes::lemma_offers_bounded(i1.after_bits(x.len()), left, y);
    lemma_flush_back(i2, y);
    codes::lemma_after_bits_bounded(i1.after_bits(x.len()), left, y.len());
    codes::lemma_after_bits(i1, x.len(), y.len());
    codes::lemma_after_bits_bounded(plain, bits, body.len());
    assert(i2.flushed() == i.after_bits(part.bits().len()).with_bits_left(0));
}

/// A high-quality slice: prefix bytes, the quantization index, and the components.
pub struct HqSlice {
    pub prefix: Seq<int>,
    pub qindex: nat,
    pub y: HqPart,
    pub c1: HqPart,
    pub c2: HqPart,
}

impl HqSlice {
    /// The slice as bits.
    pub open spec fn bits(self) -> Seq<int> {
        self.prefix + (literal(self.qindex, 8) + (self.y.bits() + (self.c1.bits()
            + self.c2.bits())))
    }

    /// Whether this is a slice of these components, at this place.
    pub open spec fn fits(self, td: Coefficients, t: Transform, at: Place) -> bool {
        &&& self.prefix.len() == 8 * t.slice_prefix_bytes
        &&& self.qindex <= 255
        &&& self.y.measures(t.slice_size_scaler as int)
        &&& self.c1.measures(t.slice_size_scaler as int)
        &&& self.c2.measures(t.slice_size_scaler as int)
        &&& fills(self.y.values, td.y.bands, at)
        &&& fills(self.c1.values, td.c1.bands, at)
        &&& fills(self.c2.values, td.c2.bands, at)
    }
}

/// Whether `new` is `old` with the values of a slice put in, and its sizes kept.
pub open spec fn slice_received(
    new: Coefficients,
    old: Coefficients,
    at: Place,
    y: Seq<Seq<i64>>,
    c1: Seq<Seq<i64>>,
    c2: Seq<Seq<i64>>,
    quantizers: Seq<u64>,
) -> bool {
    &&& all_received(new.y.bands, old.y.bands, at, y, quantizers)
    &&& all_received(new.c1.bands, old.c1.bands, at, c1, quantizers)
    &&& all_received(new.c2.bands, old.c2.bands, at, c2, quantizers)
    &&& new.y.width == old.y.width && new.y.height == old.y.height
    &&& new.c1.width == old.c1.width && new.c1.height == old.c1.height
    &&& new.c2.width == old.c2.width && new.c2.height == old.c2.height
}

/// The place of slice `(sx, sy)`.
pub open spec fn place(t: Transform, sx: int, sy: int) -> Place {
    Place { slices_x: t.slices_x as int, slices_y: t.slices_y as int, sx, sy }
}

/// A high-quality slice unpacks to what was written: whatever the unit of the length
/// codes and the number of prefix bytes, each value lands at its place in its band
/// of its component, dequantized with the quantizer of the band, and the reader
/// stands right behind the last byte of the slice.
pub proof fn law_hq_slices_read_back(
    i: Input,
    td: Coefficients,
    t: Transform,
    sx: int,
    sy: int,
    s: HqSlice,
)
    requires
        i.wf(),
        !i.overrun,
        t.slices_valid(),
        td.shaped(t),
        0 <= sx < t.slices_x,
        0 <= sy < t.slices_y,
        s.fits(td, t, place(t, sx, sy)),
        i.offers(s.bits()),
    ensures
        ({
            let (j, new, done) = slices::spec_unpack_slice(
                i,
                td,
                t,
                sx,
                sy,
                PictureKind::HighQuality,
            );
            &&& done is Ok
            &&& j == i.after_bits(s.bits().len()).with_bits_left(0)
            &&& slice_received(
                new,
                td,
                place(t, sx, sy),
                s.y.values,
                s.c1.values,
                s.c2.values,
                slices::spec_slice_quantizers(s.qindex as int, t),
            )
        }),
{
    power2::lemma2_to64();
    let at = place(t, sx, sy);
    let quantizers = slices::spec_slice_quantizers(s.qindex as int, t);
    let tail = s.c1.bits() + s.c2.bits();
    let parts = s.y.bits() + tail;
    let indexed = literal(s.qindex, 8) + parts;
    lemma_split(i, s.prefix, indexed);
    lemma_skip_back(i, s.prefix, t.slice_prefix_bytes as nat);
    let i1 = i.after_bits(s.prefix.len());
    lemma_literal_len(s.qindex, 8);
    lemma_split(i1, literal(s.qindex, 8), parts);
    law_literals_read_back(i1, s.qindex, 8);
    let i2 = i1.after_bits(8);
    lemma_split(i2, s.y.bits(), tail);
    lemma_hq_part_back(i2, td.y, at, t, quantizers, s.y);
    let p3 = i2.after_bits(s.y.bits().len());
    let i3 = p3.with_bits_left(0);
    codes::lemma_offers_bounded(p3, 0, tail);
    lemma_split(i3, s.c1.bits(), s.c2.bits());
    lemma_hq_part_back(i3, td.c1, at, t, quantizers, s.c1);
    let i4 = i3.after_bits(s.c1.bits().len()).with_bits_left(0);
    assert(i4 == i3.after_bits(s.c1.bits().len()));
    lemma_hq_part_back(i4, td.c2, at, t, quantizers, s.c2);
    codes::lemma_after_bits_bounded(p3, 0, tail.len());
    assert(position_of(at) == slices::position(t, sx, sy));
}

/// Two sequences in turns: a value of the first, a value of the second.
pub open spec fn in_turns(a: Seq<i64>, b: Seq<i64>) -> Seq<i64> {
    Seq::new(
        2 * a.len(),
        |k: int|
            if k % 2 == 0 {
                a[k / 2]
            } else {
                b[k / 2]
            },
    )
}

/// The codes of the values of the bands of two components, one band behind the
/// other, those of either component in turns.
pub open spec fn codes_in_turns(a: Seq<Seq<i64>>, b: Seq<Seq<i64>>, n: nat) -> Seq<int>
    decreases n,
{
    if n == 0 {
        seq![]
    } else {
        codes_in_turns(a, b, (n - 1) as nat) + codes::signed_codes(in_turns(a[n - 1], b[n - 1]))
    }
}

proof fn lemma_color_diff_band_back(
    i: Input,
    g1: Grid,
    g2: Grid,
    at: Place,
    q: u64,
    a: Seq<i64>,
    b: Seq<i64>,
)
    requires
        i.wf(),
        !i.overrun,
        g1.wf(),
        g2.wf(),
        g1.width == g2.width,
        g1.height == g2.height,
        place_wf(at),
        a.len() == at.share(g1),
        b.len() == a.len(),
        codable(a),
        codable(b),
        i.offers(codes::signed_codes(in_turns(a, b))),
        i.bits_left >= codes::signed_codes(in_turns(a, b)).len(),
    ensures
        ({
            let n = codes::signed_codes(in_turns(a, b)).len();
            let (j, new1, new2) = slices::spec_color_diff_band(i, g1, g2, position_of(at), q);
            &&& j == i.after_bits(n).with_bits_left(i.bits_left - n)
            &&& received(new1, g1, at, dequantized(a, q))
            &&& received(new2, g2, at, dequantized(b, q))
        }),
{
    let both = in_turns(a, b);
    assert forall|k: int| 0 <= k < both.len() implies (#[trigger] both[k]) > i64::MIN by {
        assert(a[k / 2] > i64::MIN && b[k / 2] > i64::MIN);
    }
    codes::law_code_runs_read_back(i, both);
    let value1 = |k: int| quant::spec_inverse_quant(both[2 * k] as int, q as nat) as i64;
    let value2 = |k: int| quant::spec_inverse_quant(both[2 * k + 1] as int, q as nat) as i64;
    lemma_painted_received(g1, at, value1, dequantized(a, q));
    lemma_painted_received(g2, at, value2, dequantized(b, q));
}

proof fn lemma_color_diff_bands_back(
    i: Input,
    bands1: Seq<Grid>,
    bands2: Seq<Grid>,
    at: Place,
    quantizers: Seq<u64>,
    a: Seq<Seq<i64>>,
    b: Seq<Seq<i64>>,
    n: nat,
)
    requires
        i.wf(),
        !i.overrun,
        bands1.len() == bands2.len(),
        forall|k: int|
            0 <= k < bands1.len() ==> (#[trigger] bands1[k]).wf() && bands2[k].wf()
                && bands1[k].width == bands2[k].width && bands1[k].height == bands2[k].height,
        place_wf(at),
        fills(a, bands1, at),
        fills(b, bands2, at),
        n <= bands1.len(),
        i.offers(codes_in_turns(a, b, n)),
        i.bits_left >= codes_in_turns(a, b, n).len(),
    ensures
        ({
            let len = codes_in_turns(a, b, n).len();
            let (j, new1, new2) = slices::spec_color_diff_bands(
                i,
                bands1,
                bands2,
                quantizers,
                position_of(at),
                n,
            );
            &&& j == i.after_bits(len).with_bits_left(i.bits_left - len)
            &&& new1.len() == bands1.len()
            &&& new2.len() == bands2.len()
            &&& forall|k: int|
                0 <= k < n ==> received(
                    #[trigger] new1[k],
                    bands1[k],
                    at,
                    dequantized(a[k], quantizers[k]),
                )
            &&& forall|k: int|
                0 <= k < n ==> received(
                    #[trigger] new2[k],
                    bands2[k],
                    at,
                    dequantized(b[k], quantizers[k]),
                )
            &&& forall|k: int| n <= k < bands1.len() ==> #[trigger] new1[k] == bands1[k]
            &&& forall|k: int| n <= k < bands2.len() ==> #[trigger] new2[k] == bands2[k]
        }),
    decreases n,
{
    if n == 0 {
        assert(i.with_bits_left(i.bits_left) == i);
    } else {
        let m = (n - 1) as nat;
        let k = n - 1;
        let (x, y) = (codes_in_turns(a, b, m), codes::signed_codes(in_turns(a[k], b[k])));
        lemma_split(i, x, y);
        lemma_color_diff_bands_back(i, bands1, bands2, at, quantizers, a, b, m);
        let left = i.bits_left - x.len();
        let plain = i.after_bits(x.len());
        let j = plain.with_bits_left(left);
        codes::lemma_offers_bounded(plain, left, y);
        assert(bands1[k].wf() && a[k].len() == at.share(bands1[k]) && b[k].len() == at.share(
            bands2[k],
        ));
        lemma_color_diff_band_back(j, bands1[k], bands2[k], at, quantizers[k], a[k], b[k]);
        codes::lemma_after_bits_bounded(plain, left, y.len());
    }
}

/// A low-delay slice: the quantization index, the luma values and what fills up the
/// luma part, and the colour-difference values and what fills up the slice.
pub struct LdSlice {
    pub qindex: nat,
    pub y: Seq<Seq<i64>>,
    pub y_padding: Seq<int>,
    pub c1: Seq<Seq<i64>>,
    pub c2: Seq<Seq<i64>>,
    pub padding: Seq<int>,
}

impl LdSlice {
    /// The luma part.
    pub open spec fn luma(self) -> Seq<int> {
        codes_of_bands(self.y, self.y.len()) + self.y_padding
    }

    /// The colour-difference part.
    pub open spec fn chroma(self) -> Seq<int> {
        codes_in_turns(self.c1, self.c2, self.c1.len()) + self.padding
    }

    /// The slice as bits, the length of the luma part being written with
    /// `length_bits` bits.
    pub open spec fn bits(self, length_bits: nat) -> Seq<int> {
        literal(self.qindex, 7) + (literal(self.luma().len(), length_bits) + (self.luma()
            + self.chroma()))
    }

    /// Whether this is a slice of these components, at this place, of `size` bytes.
    pub open spec fn fits(
        self,
        td: Coefficients,
        at: Place,
        size: int,
        length_bits: nat,
    ) -> bool {
        &&& self.qindex <= 127
        &&& self.luma().len() < power2::pow2(length_bits)
        &&& self.bits(length_bits).len() == 8 * size
        &&& fills(self.y, td.y.bands, at)
        &&& fills(self.c1, td.c1.bands, at)
        &&& fills(self.c2, td.c2.bands, at)
    }
}

/// How many bytes of a low-delay picture come before slice number `n`.
pub open spec fn bytes_before(t: Transform, n: int) -> int {
    n * t.slice_bytes_numerator / (t.slice_bytes_denominator as int)
}

/// Whether `n` bits are as many as it takes to tell `values` values apart.
pub open spec fn tells_apart(n: nat, values: int) -> bool {
    &&& values <= power2::pow2(n)
    &&& n > 0 ==> power2::pow2((n - 1) as nat) < values
}

/// A low-delay slice unpacks to what was written: each value lands at its place in
/// its band of its component, the colour-difference values having been written in
/// turns, C1 first, and the reader stands right behind the last byte of the slice.
pub proof fn law_ld_slices_read_back(
    i: Input,
    td: Coefficients,
    t: Transform,
    sx: int,
    sy: int,
    s: LdSlice,
    length_bits: nat,
)
    requires
        i.wf(),
        !i.overrun,
        t.slices_valid(),
        td.shaped(t),
        0 <= sx < t.slices_x,
        0 <= sy < t.slices_y,
        ({
            let n = sy * t.slices_x + sx;
            let size = bytes_before(t, n + 1) - bytes_before(t, n);
            &&& size >= 1
            &&& tells_apart(length_bits, 8 * size - 7)
            &&& s.fits(td, place(t, sx, sy), size, length_bits)
        }),
        i.offers(s.bits(length_bits)),
    ensures
        ({
            let (j, new, done) = slices::spec_unpack_slice(
                i,
                td,
                t,
                sx,
                sy,
                PictureKind::LowDelay,
            );
            &&& done is Ok
            &&& j == i.after_bits(s.bits(length_bits).len()).with_bits_left(0)
            &&& slice_received(
                new,
                td,
                place(t, sx, sy),
                s.y,
                s.c1,
                s.c2,
                slices::spec_slice_quantizers(s.qindex as int, t),
            )
        }),
{
    power2::lemma2_to64();
    let at = place(t, sx, sy);
    let quantizers = slices::spec_slice_quantizers(s.qindex as int, t);
    let n = sy * t.slices_x + sx;
    let size = bytes_before(t, n + 1) - bytes_before(t, n);
    assert(size == slices::spec_slice_bytes(t, slices::slice_number(t, sx, sy)));
    lemma_ceiling(length_bits, 8 * size - 7);
    let (luma, chroma) = (s.luma(), s.chroma());
    let parts = luma + chroma;
    let (head, lengths) = (literal(s.qindex, 7), literal(luma.len(), length_bits));
    lemma_literal_len(s.qindex, 7);
    lemma_literal_len(luma.len(), length_bits);
    lemma_split(i, head, lengths + parts);
    law_literals_read_back(i, s.qindex, 7);
    let i1 = i.after_bits(7);
    lemma_split(i1, lengths, parts);
    law_literals_read_back(i1, luma.len(), length_bits);
    let i2 = i1.after_bits(length_bits);
    lemma_split(i2, luma, chroma);
    slices::lemma_slice_size(t, sx, sy);
    lemma_luma_back(i2, td.y, at, quantizers, s);
    let p3 = i2.after_bits(luma.len());
    let i3 = p3.with_bits_left(0);
    codes::lemma_offers_bounded(p3, 0, chroma);
    assert(i3.with_bits_left(chroma.len() as int).with_bits_left(0) == i3);
    lemma_chroma_back(i3, td, t, at, quantizers, s);
    codes::lemma_after_bits_bounded(p3, 0, chroma.len());
    let left_over = 8 * size - (7 + length_bits + luma.len());
    assert(left_over == chroma.len());
    assert(position_of(at) == slices::position(t, sx, sy));
}

/// Telling values apart takes the ceiling of their logarithm.
proof fn lemma_ceiling(n: nat, values: int)
    requires
        values >= 1,
        tells_apart(n, values),
    ensures
        n == params::spec_intlog2(values),
{
    params::law_intlog2_is_the_ceiling_logarithm(values);
    let m = params::spec_intlog2(values);
    if m < n {
        if m < n - 1 {
            power2::lemma_pow2_strictly_increases(m, (n - 1) as nat);
        }
    }
}

proof fn lemma_luma_back(i: Input, c: Coeffs, at: Place, quantizers: Seq<u64>, s: LdSlice)
    requires
        i.wf(),
        !i.overrun,
        forall|k: int| 0 <= k < c.bands.len() ==> (#[trigger] c.bands[k]).wf(),
        place_wf(at),
        fills(s.y, c.bands, at),
        s.luma().len() <= bitio::u64_max(),
        i.offers(s.luma()),
    ensures
        ({
            let n = s.luma().len();
            let (j, done) = slices::spec_component(
                i.with_bits_left(n as int),
                c,
                quantizers,
                position_of(at),
            );
            &&& j.flushed() == i.after_bits(n).with_bits_left(0)
            &&& done.width == c.width && done.height == c.height
            &&& all_received(done.bands, c.bands, at, s.y, quantizers)
        }),
{
    let (x, y) = (codes_of_bands(s.y, s.y.len()), s.y_padding);
    let bits = s.luma().len() as int;
    let i1 = i.with_bits_left(bits);
    codes::lemma_offers_bounded(i, bits, s.luma());
    lemma_split(i1, x, y);
    lemma_bands_back(i1, c.bands, at, quantizers, s.y, c.bands.len());
    let left = bits - x.len();
    let i2 = i1.after_bits(x.len()).with_bits_left(left);
    codes::lemma_offers_bounded(i1.after_bits(x.len()), left, y);
    lemma_flush_back(i2, y);
    codes::lemma_after_bits_bounded(i1.after_bits(x.len()), left, y.len());
    codes::lemma_after_bits(i1, x.len(), y.len());
    codes::lemma_after_bits_bounded(i, bits, s.luma().len());
}

proof fn lemma_chroma_back(
    i: Input,
    td: Coefficients,
    t: Transform,
    at: Place,
    quantizers: Seq<u64>,
    s: LdSlice,
)
    requires
        i.wf(),
        !i.overrun,
        td.shaped(t),
        place_wf(at),
        fills(s.c1, td.c1.bands, at),
        fills(s.c2, td.c2.bands, at),
        s.chroma().len() <= bitio::u64_max(),
        i.offers(s.chroma()),
    ensures
        ({
            let n = s.chroma().len();
            let (j, new1, new2) = slices::spec_color_diff_bands(
                i.with_bits_left(n as int),
                td.c1.bands,
                td.c2.bands,
                quantizers,
                position_of(at),
                td.c1.bands.len(),
            );
            &&& j.flushed() == i.after_bits(n).with_bits_left(0)
            &&& all_received(new1, td.c1.bands, at, s.c1, quantizers)
            &&& all_received(new2, td.c2.bands, at, s.c2, quantizers)
        }),
{
    let (x, y) = (codes_in_turns(s.c1, s.c2, s.c1.len()), s.padding);
    let bits = s.chroma().len() as int;
    let i1 = i.with_bits_left(bits);
    let (b1, b2) = (td.c1.bands, td.c2.bands);
    assert forall|k: int| 0 <= k < b1.len() implies (#[trigger] b1[k]).wf() && b2[k].wf()
        && b1[k].width == b2[k].width && b1[k].height == b2[k].height by {
        assert(b2[k].wf());
    }
    codes::lemma_offers_bounded(i, bits, s.chroma());
    lemma_split(i1, x, y);
    lemma_color_diff_bands_back(i1, b1, b2, at, quantizers, s.c1, s.c2, b1.len());
    let left = bits - x.len();
    let i2 = i1.after_bits(x.len()).with_bits_left(left);
    codes::lemma_offers_bounded(i1.after_bits(x.len()), left, y);
    lemma_flush_back(i2, y);
    codes::lemma_after_bits_bounded(i1.after_bits(x.len()), left, y.len());
    codes::lemma_after_bits(i1, x.len(), y.len());
    codes::lemma_after_bits_bounded(i, bits, s.chroma().len());
}

/// The quantizer of a band: the index of the slice less the matrix value of the
/// band, but not below zero.
pub open spec fn quantizer(qindex: int, value: int) -> int {
    if qindex > value {
        qindex - value
    } else {
        0
    }
}

/// Which quantizer a band gets: that of the DC value, those of the horizontal-only
/// levels in order, and for each two-dimensional level those of HL, LH and HH in
/// that order.
pub proof fn law_bands_take_their_quantizers(
    t: Transform,
    qindex: int,
    dc: i64,
    h: Seq<i64>,
    ac: Seq<(i64, i64, i64)>,
)
    requires
        0 <= qindex <= 255,
        h.len() == t.dwt_depth_ho,
        ac.len() == t.dwt_depth,
        t.dwt_depth_ho + t.dwt_depth <= u64::MAX,
        t.quant_matrix == matrix_of(dc, h, ac),
    ensures
        ({
            let got = slices::spec_slice_quantizers(qindex, t);
            &&& got.len() == 1 + h.len() + 3 * ac.len()
            &&& got[0] == quantizer(qindex, dc as int)
            &&& forall|n: int|
                0 <= n < h.len() ==> #[trigger] got[1 + n] == quantizer(qindex, h[n] as int)
            &&& forall|n: int|
                0 <= n < ac.len() ==> {
                    let first = 1 + h.len() + 3 * n;
                    let (hl, lh, hh) = #[trigger] ac[n];
                    &&& got[first] == quantizer(qindex, hl as int)
                    &&& got[first + 1] == quantizer(qindex, lh as int)
                    &&& got[first + 2] == quantizer(qindex, hh as int)
                }
        }),
{
    let ho = h.len() as int;
    let got = slices::spec_slice_quantizers(qindex, t);
    let layout = subband::spec_subband_layout(ho, ac.len() as int);
    assert forall|n: int| 0 <= n < h.len() implies #[trigger] got[1 + n] == quantizer(
        qindex,
        h[n] as int,
    ) by {
        assert(layout[1 + n].0 == 1 + n);
        assert(t.quant_matrix[1 + n] == MatrixLevel::H(h[n]));
    }
    assert forall|n: int| 0 <= n < ac.len() implies ({
        let first = 1 + h.len() + 3 * n;
        let (hl, lh, hh) = #[trigger] ac[n];
        &&& got[first] == quantizer(qindex, hl as int)
        &&& got[first + 1] == quantizer(qindex, lh as int)
        &&& got[first + 2] == quantizer(qindex, hh as int)
    }) by {
        let first = 1 + h.len() + 3 * n;
        let (hl, lh, hh) = ac[n];
        let level = ho + 1 + n;
        assert(t.quant_matrix[level] == MatrixLevel::Ac { hl, lh, hh });
        assert(layout[first] == (level as u64, Orient::HL));
        assert(layout[first + 1] == (level as u64, Orient::LH));
        assert(layout[first + 2] == (level as u64, Orient::HH));
    }
}

/// The matrix with these values: that of the DC band, those of the horizontal-only
/// levels, and HL, LH and HH of the two-dimensional levels.
pub open spec fn matrix_of(dc: i64, h: Seq<i64>, ac: Seq<(i64, i64, i64)>) -> Seq<MatrixLevel> {
    Seq::new(
        1 + h.len() + ac.len(),
        |l: int|
            if l == 0 {
                MatrixLevel::Ll(dc)
            } else if l <= h.len() {
                MatrixLevel::H(h[l - 1])
            } else {
                let (hl, lh, hh) = ac[l - 1 - h.len()];
                MatrixLevel::Ac { hl, lh, hh }
            },
    )
}

/// The codes of some values, unsigned, one behind the other.
pub open spec fn unsigned_codes(values: Seq<i64>) -> Seq<int>
    decreases values.len(),
{
    if values.len() == 0 {
        seq![]
    } else {
        unsigned_codes(values.drop_last()) + codes::unsigned_code(values.last() as nat)
    }
}

/// The codes of HL, LH and HH of each two-dimensional level, one level behind the
/// other.
pub open spec fn codes_of_triples(values: Seq<(i64, i64, i64)>) -> Seq<int>
    decreases values.len(),
{
    if values.len() == 0 {
        seq![]
    } else {
        let (hl, lh, hh) = values.last();
        codes_of_triples(values.drop_last()) + (codes::unsigned_code(hl as nat) + (
        codes::unsigned_code(lh as nat) + codes::unsigned_code(hh as nat)))
    }
}

/// A custom matrix as bits: the set flag, the DC value, the values of the
/// horizontal-only levels, and HL, LH and HH of each two-dimensional level.
pub open spec fn matrix_bits(dc: i64, h: Seq<i64>, ac: Seq<(i64, i64, i64)>) -> Seq<int> {
    flag_bit(true) + (codes::unsigned_code(dc as nat) + (unsigned_codes(h) + codes_of_triples(ac)))
}

/// Whether no value of a matrix is negative.
pub open spec fn matrix_values_ok(dc: i64, h: Seq<i64>, ac: Seq<(i64, i64, i64)>) -> bool {
    &&& dc >= 0
    &&& forall|k: int| 0 <= k < h.len() ==> (#[trigger] h[k]) >= 0
    &&& forall|k: int|
        0 <= k < ac.len() ==> (#[trigger] ac[k]).0 >= 0 && ac[k].1 >= 0 && ac[k].2 >= 0
}

proof fn lemma_h_back(i: Input, h: Seq<i64>)
    requires
        i.wf(),
        !i.overrun,
        forall|k: int| 0 <= k < h.len() ==> (#[trigger] h[k]) >= 0,
        i.offers(unsigned_codes(h)),
    ensures
        transform::spec_custom_h(i, h.len()) == (
            i.after_bits(unsigned_codes(h).len()),
            Seq::new(h.len(), |k: int| MatrixLevel::H(h[k])),
        ),
    decreases h.len(),
{
    if h.len() == 0 {
        assert(Seq::new(0, |k: int| MatrixLevel::H(h[k])) =~= seq![]);
    } else {
        let (front, v) = (h.drop_last(), h.last());
        let (x, y) = (unsigned_codes(front), codes::unsigned_code(v as nat));
        assert forall|k: int| 0 <= k < front.len() implies (#[trigger] front[k]) >= 0 by {
            assert(front[k] == h[k]);
        }
        assert(h[h.len() - 1] >= 0);
        lemma_split(i, x, y);
        lemma_h_back(i, front);
        lemma_number_back(i.after_bits(x.len()), v as u64);
        assert(Seq::new(front.len(), |k: int| MatrixLevel::H(front[k])).push(MatrixLevel::H(v))
            =~= Seq::new(h.len(), |k: int| MatrixLevel::H(h[k])));
    }
}

proof fn lemma_ac_back(i: Input, ac: Seq<(i64, i64, i64)>)
    requires
        i.wf(),
        !i.overrun,
        forall|k: int|
            0 <= k < ac.len() ==> (#[trigger] ac[k]).0 >= 0 && ac[k].1 >= 0 && ac[k].2 >= 0,
        i.offers(codes_of_triples(ac)),
    ensures
        transform::spec_custom_ac(i, ac.len()) == (
            i.after_bits(codes_of_triples(ac).len()),
            Seq::new(
                ac.len(),
                |k: int| MatrixLevel::Ac { hl: ac[k].0, lh: ac[k].1, hh: ac[k].2 },
            ),
        ),
    decreases ac.len(),
{
    let want = Seq::new(
        ac.len(),
        |k: int| MatrixLevel::Ac { hl: ac[k].0, lh: ac[k].1, hh: ac[k].2 },
    );
    if ac.len() == 0 {
        assert(want =~= seq![]);
    } else {
        let (front, (hl, lh, hh)) = (ac.drop_last(), ac.last());
        let x = codes_of_triples(front);
        let (y1, y2, y3) = (
            codes::unsigned_code(hl as nat),
            codes::unsigned_code(lh as nat),
            codes::unsigned_code(hh as nat),
        );
        assert forall|k: int| 0 <= k < front.len() implies (#[trigger] front[k]).0 >= 0
            && front[k].1 >= 0 && front[k].2 >= 0 by {
            assert(front[k] == ac[k]);
        }
        assert(ac[ac.len() - 1].0 >= 0);
        lemma_split(i, x, y1 + (y2 + y3));
        lemma_ac_back(i, front);
        let i1 = i.after_bits(x.len());
        lemma_split(i1, y1, y2 + y3);
        lemma_number_back(i1, hl as u64);
        let i2 = i1.after_bits(y1.len());
        lemma_split(i2, y2, y3);
        lemma_number_back(i2, lh as u64);
        lemma_number_back(i2.after_bits(y2.len()), hh as u64);
        let before = Seq::new(
            front.len(),
            |k: int| MatrixLevel::Ac { hl: front[k].0, lh: front[k].1, hh: front[k].2 },
        );
        assert(before.push(MatrixLevel::Ac { hl, lh, hh }) =~= want);
    }
}

/// A custom matrix reads back with each value in its field.
pub proof fn law_custom_matrices_read_back(
    i: Input,
    d: transform::Depths,
    dc: i64,
    h: Seq<i64>,
    ac: Seq<(i64, i64, i64)>,
)
    requires
        i.wf(),
        !i.overrun,
        h.len() == d.dwt_depth_ho,
        ac.len() == d.dwt_depth,
        matrix_values_ok(dc, h, ac),
        i.offers(matrix_bits(dc, h, ac)),
    ensures
        transform::spec_quant_matrix(i, d) == (
            i.after_bits(matrix_bits(dc, h, ac).len()),
            Ok::<Seq<MatrixLevel>, Error>(matrix_of(dc, h, ac)),
        ),
{
    let (x1, x2, x3, x4) = (
        flag_bit(true),
        codes::unsigned_code(dc as nat),
        unsigned_codes(h),
        codes_of_triples(ac),
    );
    lemma_split(i, x1, x2 + (x3 + x4));
    lemma_flag_back(i, true);
    let i1 = i.after_bits(1);
    lemma_split(i1, x2, x3 + x4);
    lemma_number_back(i1, dc as u64);
    let i2 = i1.after_bits(x2.len());
    lemma_split(i2, x3, x4);
    lemma_h_back(i2, h);
    let i3 = i2.after_bits(x3.len());
    lemma_ac_back(i3, ac);
    lemma_behind(i3, x4);
    let parts = seq![MatrixLevel::Ll(dc)] + transform::spec_custom_h(i2, h.len()).1
        + transform::spec_custom_ac(i3, ac.len()).1;
    assert(parts =~= matrix_of(dc, h, ac));
}

/// At quantization index 0, and with a matrix that holds no negative value, a
/// high-quality slice unpacks to the very values that were written.
pub proof fn law_lossless_hq_slices_read_back(
    i: Input,
    td: Coefficients,
    t: Transform,
    sx: int,
    sy: int,
    s: HqSlice,
    dc: i64,
    h: Seq<i64>,
    ac: Seq<(i64, i64, i64)>,
)
    requires
        i.wf(),
        !i.overrun,
        t.slices_valid(),
        td.shaped(t),
        0 <= sx < t.slices_x,
        0 <= sy < t.slices_y,
        h.len() == t.dwt_depth_ho,
        ac.len() == t.dwt_depth,
        t.dwt_depth_ho + t.dwt_depth <= u64::MAX,
        matrix_values_ok(dc, h, ac),
        t.quant_matrix == matrix_of(dc, h, ac),
        s.qindex == 0,
        s.fits(td, t, place(t, sx, sy)),
        i.offers(s.bits()),
    ensures
        ({
            let (j, new, done) = slices::spec_unpack_slice(
                i,
                td,
                t,
                sx,
                sy,
                PictureKind::HighQuality,
            );
            &&& done is Ok
            &&& j == i.after_bits(s.bits().len()).with_bits_left(0)
            &&& verbatim(new, td, place(t, sx, sy), s.y.values, s.c1.values, s.c2.values)
        }),
{
    law_hq_slices_read_back(i, td, t, sx, sy, s);
    let new = slices::spec_unpack_slice(i, td, t, sx, sy, PictureKind::HighQuality).1;
    lemma_verbatim(new, td, t, sx, sy, s.y.values, s.c1.values, s.c2.values, dc, h, ac);
}

/// At quantization index 0, and with a matrix that holds no negative value, a
/// low-delay slice unpacks to the very values that were written.
pub proof fn law_lossless_ld_slices_read_back(
    i: Input,
    td: Coefficients,
    t: Transform,
    sx: int,
    sy: int,
    s: LdSlice,
    length_bits: nat,
    dc: i64,
    h: Seq<i64>,
    ac: Seq<(i64, i64, i64)>,
)
    requires
        i.wf(),
        !i.overrun,
        t.slices_valid(),
        td.shaped(t),
        0 <= sx < t.slices_x,
        0 <= sy < t.slices_y,
        h.len() == t.dwt_depth_ho,
        ac.len() == t.dwt_depth,
        t.dwt_depth_ho + t.dwt_depth <= u64::MAX,
        matrix_values_ok(dc, h, ac),
        t.quant_matrix == matrix_of(dc, h, ac),
        s.qindex == 0,
        ({
            let n = sy * t.slices_x + sx;
            let size = bytes_before(t, n + 1) - bytes_before(t, n);
            &&& size >= 1
            &&& tells_apart(length_bits, 8 * size - 7)
            &&& s.fits(td, place(t, sx, sy), size, length_bits)
        }),
        i.offers(s.bits(length_bits)),
    ensures
        ({
            let (j, new, done) = slices::spec_unpack_slice(
                i,
                td,
                t,
                sx,
                sy,
                PictureKind::LowDelay,
            );
            &&& done is Ok
            &&& j == i.after_bits(s.bits(length_bits).len()).with_bits_left(0)
            &&& verbatim(new, td, place(t, sx, sy), s.y, s.c1, s.c2)
        }),
{
    law_ld_slices_read_back(i, td, t, sx, sy, s, length_bits);
    let new = slices::spec_unpack_slice(i, td, t, sx, sy, PictureKind::LowDelay).1;
    lemma_verbatim(new, td, t, sx, sy, s.y, s.c1, s.c2, dc, h, ac);
}

/// Whether each band has received its values as they are.
pub open spec fn bands_verbatim(
    new: Seq<Grid>,
    old: Seq<Grid>,
    at: Place,
    values: Seq<Seq<i64>>,
) -> bool {
    &&& new.len() == old.len()
    &&& forall|k: int| 0 <= k < old.len() ==> received(#[trigger] new[k], old[k], at, values[k])
}

/// Whether `new` is `old` with the values of a slice put in as they are.
pub open spec fn verbatim(
    new: Coefficients,
    old: Coefficients,
    at: Place,
    y: Seq<Seq<i64>>,
    c1: Seq<Seq<i64>>,
    c2: Seq<Seq<i64>>,
) -> bool {
    &&& bands_verbatim(new.y.bands, old.y.bands, at, y)
    &&& bands_verbatim(new.c1.bands, old.c1.bands, at, c1)
    &&& bands_verbatim(new.c2.bands, old.c2.bands, at, c2)
}

proof fn lemma_bands_verbatim(
    new: Seq<Grid>,
    old: Seq<Grid>,
    at: Place,
    values: Seq<Seq<i64>>,
    quantizers: Seq<u64>,
)
    requires
        all_received(new, old, at, values, quantizers),
        fills(values, old, at),
        forall|k: int| 0 <= k < old.len() ==> #[trigger] quantizers[k] == 0,
    ensures
        bands_verbatim(new, old, at, values),
{
    assert forall|k: int| 0 <= k < old.len() implies received(
        #[trigger] new[k],
        old[k],
        at,
        values[k],
    ) by {
        assert(codable(values[k]) && quantizers[k] == 0);
        lemma_undequantized(values[k]);
    }
}

proof fn lemma_verbatim(
    new: Coefficients,
    td: Coefficients,
    t: Transform,
    sx: int,
    sy: int,
    y: Seq<Seq<i64>>,
    c1: Seq<Seq<i64>>,
    c2: Seq<Seq<i64>>,
    dc: i64,
    h: Seq<i64>,
    ac: Seq<(i64, i64, i64)>,
)
    requires
        td.shaped(t),
        h.len() == t.dwt_depth_ho,
        ac.len() == t.dwt_depth,
        t.dwt_depth_ho + t.dwt_depth <= u64::MAX,
        matrix_values_ok(dc, h, ac),
        t.quant_matrix == matrix_of(dc, h, ac),
        fills(y, td.y.bands, place(t, sx, sy)),
        fills(c1, td.c1.bands, place(t, sx, sy)),
        fills(c2, td.c2.bands, place(t, sx, sy)),
        slice_received(
            new,
            td,
            place(t, sx, sy),
            y,
            c1,
            c2,
            slices::spec_slice_quantizers(0, t),
        ),
    ensures
        verbatim(new, td, place(t, sx, sy), y, c1, c2),
{
    let at = place(t, sx, sy);
    let quantizers = slices::spec_slice_quantizers(0, t);
    law_bands_take_their_quantizers(t, 0, dc, h, ac);
    assert forall|k: int| 0 <= k < quantizers.len() implies #[trigger] quantizers[k] == 0 by {
        if 1 <= k <= h.len() {
            assert(quantizers[1 + (k - 1)] == quantizer(0, h[k - 1] as int));
        } else if k > h.len() {
            let n = (k - 1 - h.len()) / 3;
            assert(ac[n].0 >= 0);
        }
    }
    lemma_bands_verbatim(new.y.bands, td.y.bands, at, y, quantizers);
    lemma_bands_verbatim(new.c1.bands, td.c1.bands, at, c1, quantizers);
    lemma_bands_verbatim(new.c2.bands, td.c2.bands, at, c2, quantizers);
}

} // verus!
