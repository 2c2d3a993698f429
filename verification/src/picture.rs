//! Picture parsing and decoding: from a picture data unit to clipped, unsigned
//! component planes.
use crate::bitio::{BitReader, Input};
use crate::error::{Error, Result};
use crate::grid;
use crate::grid::Grid;
use crate::num;
use crate::params;
use crate::params::{CodingParameters, SequenceHeader};
use crate::reading;
use crate::subband;
use crate::subband::Coefficients;
use crate::transform;
use crate::transform::{PictureKind, Transform, TransformData, TransformParameters};
use crate::wavelet::Plane;
use vstd::arithmetic::power2;
use vstd::prelude::*;

verus! {

/// A decoded picture: three planes of unsigned samples and the picture number.
#[derive(Debug, Clone)]
pub struct DecodedPicture {
    pub picture_number: u32,
    pub luma_width: usize,
    pub luma_height: usize,
    pub color_diff_width: usize,
    pub color_diff_height: usize,
    /// Bits per luma sample.
    pub luma_depth: u32,
    /// Bits per colour-difference sample.
    pub color_diff_depth: u32,
    /// Luma plane (Y), row-major.
    pub y: Vec<u16>,
    /// First colour-difference plane (C1), row-major.
    pub c1: Vec<u16>,
    /// Second colour-difference plane (C2), row-major.
    pub c2: Vec<u16>,
}

/// [`DecodedPicture`] over mathematical values.
#[verifier::ext_equal]
pub struct Picture {
    pub picture_number: u32,
    pub luma_width: usize,
    pub luma_height: usize,
    pub color_diff_width: usize,
    pub color_diff_height: usize,
    pub luma_depth: u32,
    pub color_diff_depth: u32,
    pub y: Seq<u16>,
    pub c1: Seq<u16>,
    pub c2: Seq<u16>,
}

impl View for DecodedPicture {
    type V = Picture;

    open spec fn view(&self) -> Picture {
        Picture {
            picture_number: self.picture_number,
            luma_width: self.luma_width,
            luma_height: self.luma_height,
            color_diff_width: self.color_diff_width,
            color_diff_height: self.color_diff_height,
            luma_depth: self.luma_depth,
            color_diff_depth: self.color_diff_depth,
            y: self.y@,
            c1: self.c1@,
            c2: self.c2@,
        }
    }
}

/// Whether samples are in the range of a depth.
pub open spec fn in_range(samples: Seq<u16>, depth: u32) -> bool {
    forall|k: int|
        0 <= k < samples.len() ==> (#[trigger] samples[k]) < power2::pow2(depth as nat)
}

impl Picture {
    /// Whether the colour-difference planes are sampled 4:4:4, 4:2:2 or 4:2:0.
    pub open spec fn sampled(self) -> bool {
        let (w, h) = (self.color_diff_width, self.color_diff_height);
        ||| w == self.luma_width && h == self.luma_height
        ||| w == self.luma_width / 2 && h == self.luma_height
        ||| w == self.luma_width / 2 && h == self.luma_height / 2
    }

    /// Whether the planes are full of samples of their depths, the rows of planes
    /// that have any being of a size that can be held.
    pub open spec fn well_formed(self) -> bool {
        &&& self.y.len() == self.luma_width * self.luma_height
        &&& self.c1.len() == self.color_diff_width * self.color_diff_height
        &&& self.c2.len() == self.color_diff_width * self.color_diff_height
        &&& 1 <= self.luma_depth <= 16
        &&& 1 <= self.color_diff_depth <= 16
        &&& in_range(self.y, self.luma_depth)
        &&& in_range(self.c1, self.color_diff_depth)
        &&& in_range(self.c2, self.color_diff_depth)
        &&& self.sampled()
        &&& self.luma_height > 0 ==> self.luma_width <= transform::MAX_PADDED_AREA
        &&& self.color_diff_height > 0 ==> self.color_diff_width <= transform::MAX_PADDED_AREA
    }
}

/// A parsed picture, ready for [`picture_decode`].
pub struct ParsedPicture {
    pub picture_number: u32,
    pub kind: PictureKind,
    pub transform_parameters: TransformParameters,
    pub transform_data: TransformData,
}

/// [`ParsedPicture`] over mathematical values.
#[verifier::ext_equal]
pub struct Parsed {
    pub picture_number: u32,
    pub kind: PictureKind,
    pub transform: Transform,
    pub data: Coefficients,
}

impl View for ParsedPicture {
    type V = Parsed;

    open spec fn view(&self) -> Parsed {
        Parsed {
            picture_number: self.picture_number,
            kind: self.kind,
            transform: self.transform_parameters@,
            data: self.transform_data@,
        }
    }
}

impl Parsed {
    /// Whether the coefficients are those of a picture of this size.
    pub open spec fn ready(self, cp: CodingParameters) -> bool {
        &&& self.data.shaped(self.transform)
        &&& self.data.sized(cp)
        &&& subband::all_allocatable(cp, self.transform)
    }
}

/// A picture data unit: the picture number, the transform parameters and the
/// transform data, each on a byte boundary.
pub open spec fn spec_picture_parse(i: Input, seq: SequenceHeader, kind: PictureKind) -> (
    Input,
    Result<Parsed>,
) {
    let (i1, number) = i.aligned().uint_lit(4);
    match transform::spec_transform_parameters(i1.aligned(), seq, kind) {
        (i2, Err(e)) => (i2, Err(e)),
        (i2, Ok(t)) => match transform::spec_transform_data(
            i2.aligned(),
            seq.coding_parameters,
            t,
            kind,
        ) {
            (i3, Err(e)) => (i3, Err(e)),
            (i3, Ok(data)) => (
                i3,
                Ok(Parsed { picture_number: number as u32, kind, transform: t, data }),
            ),
        },
    }
}

/// A literal of four bytes is a `u32`.
pub proof fn lemma_four_bytes(i: Input)
    requires
        i.wf(),
    ensures
        0 <= i.uint_lit(4).1 <= u32::MAX,
        0 <= i.uint_lit(2).1 <= u16::MAX,
        0 <= i.uint_lit(1).1 <= u8::MAX,
{
    reading::lemma_nbits_bound(i, 32);
    reading::lemma_nbits_bound(i, 16);
    reading::lemma_nbits_bound(i, 8);
    power2::lemma2_to64();
}

/// Parses a picture data unit.
pub fn picture_parse(r: &mut BitReader, seq: &SequenceHeader, kind: PictureKind) -> (res: Result<
    ParsedPicture,
>)
    requires
        seq.coding_parameters.color_diff_width <= seq.coding_parameters.luma_width,
        seq.coding_parameters.color_diff_height <= seq.coding_parameters.luma_height,
    ensures
        (final(r)@, transform::viewed(res)) == spec_picture_parse(old(r)@, *seq, kind),
        res matches Ok(p) ==> p@.ready(seq.coding_parameters),
        final(r).source() == old(r).source(),
{
    r.byte_align();
    proof {
        lemma_four_bytes(r@);
    }
    let picture_number: u32 = r.read_uint_lit(4) as u32;
    r.byte_align();
    let ghost i1 = r@;
    let transform_parameters: TransformParameters = transform::transform_parameters(r, seq, kind)?;
    proof {
        transform::law_transform_parameters_read_soundly(i1, i1, *seq, kind);
        subband::law_valid_parameters_bound_memory(seq.coding_parameters, transform_parameters@);
    }
    r.byte_align();
    let transform_data: TransformData = transform::transform_data(
        r,
        seq,
        &transform_parameters,
        kind,
    )?;
    Ok(ParsedPicture { picture_number, kind, transform_parameters, transform_data })
}

/// A picture of truncated data: the same, or an unexpected end of file.
pub proof fn law_picture_reads_soundly(a: Input, b: Input, seq: SequenceHeader, kind: PictureKind)
    requires
        a.wf(),
    ensures
        a.moved_on(spec_picture_parse(a, seq, kind).0),
        spec_picture_parse(a, seq, kind).0.overrun ==> spec_picture_parse(a, seq, kind).1 == Err::<
            Parsed,
            Error,
        >(Error::UnexpectedEof),
        a.alike(b, spec_picture_parse(a, seq, kind), spec_picture_parse(b, seq, kind)),
{
    reading::lemma_aligned(a, b);
    let (a0, b0) = (a.aligned(), b.aligned());
    reading::lemma_nbits(a0, b0, 32);
    let (a1, b1) = (a0.uint_lit(4).0, b0.uint_lit(4).0);
    reading::lemma_aligned(a1, b1);
    let (a2, b2) = (a1.aligned(), b1.aligned());
    transform::law_transform_parameters_read_soundly(a2, b2, seq, kind);
    let x = transform::spec_transform_parameters(a2, seq, kind);
    let y = transform::spec_transform_parameters(b2, seq, kind);
    if x.1 is Ok {
        reading::lemma_aligned(x.0, y.0);
        transform::law_transform_data_reads_soundly(
            x.0.aligned(),
            y.0.aligned(),
            seq.coding_parameters,
            x.1->Ok_0,
            kind,
        );
    }
    if b.wf() {
        reading::lemma_aligned(b, b);
        reading::lemma_aligned(b1, b1);
        transform::law_transform_parameters_read_soundly(b2, b2, seq, kind);
        if y.1 is Ok {
            let b3 = y.0.aligned();
            reading::lemma_aligned(y.0, y.0);
            transform::law_transform_data_reads_soundly(
                b3,
                b3,
                seq.coding_parameters,
                y.1->Ok_0,
                kind,
            );
        }
    }
}

/// Half of the sample range.
pub open spec fn half_range(depth: nat) -> int {
    power2::pow2(
        if depth == 0 {
            0
        } else {
            (depth - 1) as nat
        },
    ) as int
}

/// The unsigned sample of a transform output: clipped to the range of the depth
/// and offset by half of it.
pub open spec fn sample_of(v: i64, depth: nat) -> u16 {
    let half = half_range(depth);
    let clipped = if v < -half {
        -half
    } else if v > half - 1 {
        half - 1
    } else {
        v as int
    };
    if clipped + half > 65535 {
        65535
    } else {
        (clipped + half) as u16
    }
}

/// The samples of the top left `width` by `height` of a grid.
pub open spec fn spec_finalize_component(g: Grid, width: int, height: int, depth: nat) -> Seq<u16> {
    Seq::new((width * height) as nat, |i: int| sample_of(g.at(i / width, i % width), depth))
}

/// Every sample lies in the range of its depth.
pub proof fn law_samples_are_in_range(v: i64, depth: nat)
    requires
        1 <= depth <= 16,
    ensures
        0 <= sample_of(v, depth) < power2::pow2(depth),
        -half_range(depth) <= v < half_range(depth) ==> sample_of(v, depth) == v + half_range(
            depth,
        ),
{
    let half = half_range(depth);
    power2::lemma_pow2_unfold(depth);
    power2::lemma_pow2_pos((depth - 1) as nat);
    power2::lemma2_to64();
    if depth < 16 {
        power2::lemma_pow2_strictly_increases(depth, 16);
    }
    assert(power2::pow2(depth) == 2 * half);
}

/// Pad removal, clip and offset of one component.
pub fn finalize_component(plane: &Plane, width: usize, height: usize, depth: u32) -> (r: Vec<u16>)
    requires
        plane@.covers(height as int, width as int),
        width * height <= usize::MAX,
        depth <= 63,
    ensures
        r@ == spec_finalize_component(plane@, width as int, height as int, depth as nat),
{
    let ghost g = plane@;
    let shift: u32 = if depth == 0 {
        0
    } else {
        depth - 1
    };
    let half: i64 = 1i64 << shift;
    proof {
        num::lemma_one_shl(shift);
        lemma_half_fits(shift as nat);
    }
    let mut out: Vec<u16> = Vec::with_capacity(width * height);
    let ghost want = spec_finalize_component(g, width as int, height as int, depth as nat);
    let mut y: usize = 0;
    while y < height
        invariant
            y <= height,
            g == plane@,
            g.covers(height as int, width as int),
            width * height <= usize::MAX,
            0 < half <= 0x4000_0000_0000_0000,
            half == half_range(depth as nat),
            want == spec_finalize_component(g, width as int, height as int, depth as nat),
            out@.len() == y * width,
            forall|k: int| 0 <= k < out@.len() ==> #[trigger] out@[k] == want[k],
        decreases height - y,
    {
        let mut x: usize = 0;
        while x < width
            invariant
                y < height,
                x <= width,
                g == plane@,
                g.covers(height as int, width as int),
                width * height <= usize::MAX,
                0 < half <= 0x4000_0000_0000_0000,
                half == half_range(depth as nat),
                want == spec_finalize_component(g, width as int, height as int, depth as nat),
                out@.len() == y * width + x,
                forall|k: int| 0 <= k < out@.len() ==> #[trigger] out@[k] == want[k],
            decreases width - x,
        {
            assert(g.holds(y as int, x as int));
            let v: i64 = plane.get(y, x);
            let clipped: i64 = if v < -half {
                -half
            } else if v > half - 1 {
                half - 1
            } else {
                v
            };
            let offset: i64 = clipped + half;
            let sample: u16 = if offset > 65535 {
                65535
            } else {
                offset as u16
            };
            proof {
                grid::lemma_place(width as int, height as int, y as int, x as int);
                assert(want[y * width + x] == sample);
            }
            out.push(sample);
            x = x + 1;
        }
        assert((y + 1) * width == y * width + width) by (nonlinear_arith);
        y = y + 1;
    }
    assert(height * width == width * height) by (nonlinear_arith);
    assert(out@ =~= want);
    out
}

proof fn lemma_half_fits(shift: nat)
    requires
        shift <= 62,
    ensures
        power2::pow2(shift) <= 0x4000_0000_0000_0000,
{
    power2::lemma2_to64_rest();
    if shift < 62 {
        power2::lemma_pow2_strictly_increases(shift, 62);
    }
}

/// A decoded picture: the inverse transform of each component without its
/// padding, clipped and offset.
pub open spec fn spec_picture_decode(p: Parsed, cp: CodingParameters) -> Result<Picture> {
    match (
        transform::spec_idwt(p.data.y, p.transform),
        transform::spec_idwt(p.data.c1, p.transform),
        transform::spec_idwt(p.data.c2, p.transform),
    ) {
        (Ok(y), Ok(c1), Ok(c2)) => {
            let (lw, lh) = (cp.luma_width as int, cp.luma_height as int);
            let (cw, ch) = (cp.color_diff_width as int, cp.color_diff_height as int);
            Ok(
                Picture {
                    picture_number: p.picture_number,
                    luma_width: cp.luma_width as usize,
                    luma_height: cp.luma_height as usize,
                    color_diff_width: cp.color_diff_width as usize,
                    color_diff_height: cp.color_diff_height as usize,
                    luma_depth: cp.luma_depth,
                    color_diff_depth: cp.color_diff_depth,
                    y: spec_finalize_component(y, lw, lh, cp.luma_depth as nat),
                    c1: spec_finalize_component(c1, cw, ch, cp.color_diff_depth as nat),
                    c2: spec_finalize_component(c2, cw, ch, cp.color_diff_depth as nat),
                },
            )
        },
        (Err(e), _, _) => Err(e),
        (_, Err(e), _) => Err(e),
        (_, _, Err(e)) => Err(e),
    }
}

/// A component fits inside its padded plane, and in memory.
proof fn lemma_component_fits(w: int, h: int, ho: int, depth: int)
    requires
        0 <= w,
        0 <= h,
        0 <= ho,
        0 <= depth,
        subband::allocatable(w, h, ho, depth),
    ensures
        w <= transform::padded(w, (ho + depth) as nat),
        h <= transform::padded(h, depth as nat),
        w <= usize::MAX,
        h <= usize::MAX,
        w * h <= usize::MAX,
{
    transform::lemma_padded(w, (ho + depth) as nat);
    transform::lemma_padded(h, depth as nat);
    let (pw, ph) = (transform::padded(w, (ho + depth) as nat), transform::padded(h, depth as nat));
    assert(w * h <= pw * ph) by (nonlinear_arith)
        requires
            0 <= w <= pw,
            0 <= h <= ph,
    ;
}

/// Decodes a parsed picture.
pub fn picture_decode(parsed: &ParsedPicture, seq: &SequenceHeader) -> (res: Result<DecodedPicture>)
    requires
        parsed@.transform.wavelet_index <= 6 && parsed@.transform.wavelet_index_ho <= 6
            ==> parsed@.ready(seq.coding_parameters),
        seq.coding_parameters.luma_depth <= 63,
        seq.coding_parameters.color_diff_depth <= 63,
    ensures
        transform::viewed(res) == spec_picture_decode(parsed@, seq.coding_parameters),
        res is Ok <==> parsed@.transform.wavelet_index <= 6 && parsed@.transform.wavelet_index_ho
            <= 6,
{
    let cp: &CodingParameters = &seq.coding_parameters;
    let tp: &TransformParameters = &parsed.transform_parameters;
    let td: &TransformData = &parsed.transform_data;
    let y_plane: Plane = transform::idwt(&td.y, tp)?;
    let c1_plane: Plane = transform::idwt(&td.c1, tp)?;
    let c2_plane: Plane = transform::idwt(&td.c2, tp)?;
    proof {
        let (ho, depth) = (tp.dwt_depth_ho as int, tp.dwt_depth as int);
        let (lw, lh) = (cp.luma_width as int, cp.luma_height as int);
        let (cw, ch) = (cp.color_diff_width as int, cp.color_diff_height as int);
        lemma_component_fits(lw, lh, ho, depth);
        lemma_component_fits(cw, ch, ho, depth);
        grid::lemma_wf_covers(y_plane@, lh, lw);
        grid::lemma_wf_covers(c1_plane@, ch, cw);
        grid::lemma_wf_covers(c2_plane@, ch, cw);
    }
    let luma_width: usize = cp.luma_width as usize;
    let luma_height: usize = cp.luma_height as usize;
    let color_diff_width: usize = cp.color_diff_width as usize;
    let color_diff_height: usize = cp.color_diff_height as usize;
    let y: Vec<u16> = finalize_component(&y_plane, luma_width, luma_height, cp.luma_depth);
    let c1: Vec<u16> = finalize_component(
        &c1_plane,
        color_diff_width,
        color_diff_height,
        cp.color_diff_depth,
    );
    let c2: Vec<u16> = finalize_component(
        &c2_plane,
        color_diff_width,
        color_diff_height,
        cp.color_diff_depth,
    );
    Ok(
        DecodedPicture {
            picture_number: parsed.picture_number,
            luma_width,
            luma_height,
            color_diff_width,
            color_diff_height,
            luma_depth: cp.luma_depth,
            color_diff_depth: cp.color_diff_depth,
            y,
            c1,
            c2,
        },
    )
}

/// Every decoded picture of a valid sequence is well formed.
pub proof fn law_decoded_picture_is_well_formed(p: Parsed, seq: SequenceHeader)
    requires
        seq.valid(),
        p.transform.valid(seq.coding_parameters),
        spec_picture_decode(p, seq.coding_parameters) is Ok,
    ensures
        (spec_picture_decode(p, seq.coding_parameters)->Ok_0).well_formed(),
{
    lemma_row_bound(seq, p.transform);
    params::law_valid_header_depths(seq);
    let cp = seq.coding_parameters;
    let (y, c1, c2) = (
        transform::spec_idwt(p.data.y, p.transform)->Ok_0,
        transform::spec_idwt(p.data.c1, p.transform)->Ok_0,
        transform::spec_idwt(p.data.c2, p.transform)->Ok_0,
    );
    lemma_finalized_range(
        y,
        cp.luma_width as int,
        cp.luma_height as int,
        cp.luma_depth as nat,
    );
    lemma_finalized_range(
        c1,
        cp.color_diff_width as int,
        cp.color_diff_height as int,
        cp.color_diff_depth as nat,
    );
    lemma_finalized_range(
        c2,
        cp.color_diff_width as int,
        cp.color_diff_height as int,
        cp.color_diff_depth as nat,
    );
}

/// The rows of planes that have any are within the area cap.
proof fn lemma_row_bound(seq: SequenceHeader, t: Transform)
    requires
        seq.valid(),
        t.valid(seq.coding_parameters),
    ensures
        ({
            let cp = seq.coding_parameters;
            &&& cp.luma_width <= usize::MAX
            &&& cp.luma_height <= usize::MAX
            &&& cp.color_diff_width <= usize::MAX
            &&& cp.color_diff_height <= usize::MAX
            &&& cp.luma_height > 0 ==> cp.luma_width <= transform::MAX_PADDED_AREA
            &&& cp.color_diff_height > 0 ==> cp.color_diff_width <= transform::MAX_PADDED_AREA
        }),
{
    let cp = seq.coding_parameters;
    params::law_valid_header_depths(seq);
    subband::law_valid_parameters_bound_memory(cp, t);
    lemma_component_row(cp.luma_width as int, cp.luma_height as int, t);
    lemma_component_row(cp.color_diff_width as int, cp.color_diff_height as int, t);
}

proof fn lemma_component_row(w: int, h: int, t: Transform)
    requires
        0 <= w,
        0 <= h,
        subband::allocatable(w, h, t.dwt_depth_ho as int, t.dwt_depth as int),
        transform::padded(w, (t.dwt_depth_ho + t.dwt_depth) as nat) * transform::padded(
            h,
            t.dwt_depth as nat,
        ) <= transform::MAX_PADDED_AREA,
    ensures
        w <= usize::MAX,
        h <= usize::MAX,
        h > 0 ==> w <= transform::MAX_PADDED_AREA,
{
    lemma_component_fits(w, h, t.dwt_depth_ho as int, t.dwt_depth as int);
    let pw = transform::padded(w, (t.dwt_depth_ho + t.dwt_depth) as nat);
    let ph = transform::padded(h, t.dwt_depth as nat);
    if h > 0 {
        assert(pw <= pw * ph) by (nonlinear_arith)
            requires
                0 <= pw,
                1 <= ph,
        ;
    }
}

proof fn lemma_finalized_range(g: Grid, width: int, height: int, depth: nat)
    requires
        1 <= depth <= 16,
        0 <= width,
        0 <= height,
    ensures
        spec_finalize_component(g, width, height, depth).len() == width * height,
        forall|k: int|
            0 <= k < width * height ==> (#[trigger] spec_finalize_component(
                g,
                width,
                height,
                depth,
            )[k]) < power2::pow2(depth),
{
    assert(0 <= width * height) by (nonlinear_arith)
        requires
            0 <= width,
            0 <= height,
    ;
    assert forall|k: int| 0 <= k < width * height implies (#[trigger] spec_finalize_component(
        g,
        width,
        height,
        depth,
    )[k]) < power2::pow2(depth) by {
        law_samples_are_in_range(g.at(k / width, k % width), depth);
    }
}

} // verus!
