//! The headers that an encoder writes, bit by bit, and that the decoder gets them
//! back: parse-info and fragment headers, transform parameters and sequence
//! headers.
use crate::bitio::Input;
use crate::codes;
use crate::error::{Error, Result};
use crate::params;
use crate::params::{
    CodingParameters, ColorDiffFormat, ParseParameters, SequenceHeader, Source, SourceOverrides,
    VideoParameters,
};
use crate::quant;
use crate::sequence;
use crate::sequence::{FragmentHeader, ParseInfo};
use crate::transform;
use crate::transform::{PictureKind, Transform};
use crate::writing;
use vstd::arithmetic::power2;
use vstd::prelude::*;

verus! {

/// The unsigned code of a number.
pub open spec fn code(v: u64) -> Seq<int> {
    codes::unsigned_code(v as nat)
}

/// Whether a reader stands inside the data.
pub open spec fn inside(i: Input) -> bool {
    i.wf() && !i.overrun
}

/// A number, and what follows it.
proof fn take_number(i: Input, v: u64, rest: Seq<int>) -> (j: Input)
    requires
        inside(i),
        v < u64::MAX,
        i.offers(code(v) + rest),
    ensures
        i.number() == (j, v),
        inside(j),
        j.offers(rest),
        j.bits_left == i.bits_left,
        i.after_bits((code(v) + rest).len()) == j.after_bits(rest.len()),
{
    writing::lemma_split(i, code(v), rest);
    writing::lemma_number_back(i, v);
    i.after_bits(code(v).len())
}

/// A flag, and what follows it.
proof fn take_flag(i: Input, b: bool, rest: Seq<int>) -> (j: Input)
    requires
        inside(i),
        i.offers(writing::flag_bit(b) + rest),
    ensures
        i.flag() == (j, b),
        inside(j),
        j.offers(rest),
        j.bits_left == i.bits_left,
        i.after_bits((writing::flag_bit(b) + rest).len()) == j.after_bits(rest.len()),
{
    writing::lemma_split(i, writing::flag_bit(b), rest);
    writing::lemma_flag_back(i, b);
    i.after_bits(1)
}

/// A literal, and what follows it.
proof fn take_literal(i: Input, v: nat, n: nat, rest: Seq<int>) -> (j: Input)
    requires
        inside(i),
        v < power2::pow2(n),
        i.offers(writing::literal(v, n) + rest),
    ensures
        i.nbits(n) == (j, v as int),
        inside(j),
        j.offers(rest),
        j.bits_left == i.bits_left,
        i.after_bits((writing::literal(v, n) + rest).len()) == j.after_bits(rest.len()),
{
    writing::lemma_split(i, writing::literal(v, n), rest);
    writing::lemma_literal_len(v, n);
    writing::law_literals_read_back(i, v, n);
    i.after_bits(n)
}

/// A parse-info header as bits: the four bytes "BBCD", the parse code, the distance
/// to the next header and that to the previous one.
pub open spec fn parse_info_bits(pi: ParseInfo) -> Seq<int> {
    writing::literal(0x42, 8) + (writing::literal(0x42, 8) + (writing::literal(0x43, 8) + (
    writing::literal(0x44, 8) + (writing::literal(pi.parse_code as nat, 8) + (writing::literal(
        pi.next_parse_offset as nat,
        32,
    ) + writing::literal(pi.previous_parse_offset as nat, 32))))))
}

pub proof fn lemma_parse_info_size(pi: ParseInfo)
    ensures
        parse_info_bits(pi).len() == 104,
{
    writing::lemma_literal_len(0x42, 8);
    writing::lemma_literal_len(0x43, 8);
    writing::lemma_literal_len(0x44, 8);
    writing::lemma_literal_len(pi.parse_code as nat, 8);
    writing::lemma_literal_len(pi.next_parse_offset as nat, 32);
    writing::lemma_literal_len(pi.previous_parse_offset as nat, 32);
}

/// A parse-info header reads back.
pub proof fn law_parse_infos_read_back(i: Input, pi: ParseInfo)
    requires
        i.wf(),
        !i.overrun,
        i.bit == 0,
        i.offers(parse_info_bits(pi)),
    ensures
        sequence::spec_parse_info(i) == (
            i.after_bits(parse_info_bits(pi).len()),
            Ok::<ParseInfo, Error>(pi),
        ),
        parse_info_bits(pi).len() == 104,
{
    power2::lemma2_to64();
    let previous = writing::literal(pi.previous_parse_offset as nat, 32);
    let next = writing::literal(pi.next_parse_offset as nat, 32) + previous;
    let coded = writing::literal(pi.parse_code as nat, 8) + next;
    let d = writing::literal(0x44, 8) + coded;
    let c = writing::literal(0x43, 8) + d;
    let b = writing::literal(0x42, 8) + c;
    let i1 = take_literal(i, 0x42, 8, b);
    let i2 = take_literal(i1, 0x42, 8, c);
    let i3 = take_literal(i2, 0x43, 8, d);
    let i4 = take_literal(i3, 0x44, 8, coded);
    let i5 = take_literal(i4, pi.parse_code as nat, 8, next);
    let i6 = take_literal(i5, pi.next_parse_offset as nat, 32, previous);
    assert(previous + seq![] =~= previous);
    let i7 = take_literal(i6, pi.previous_parse_offset as nat, 32, seq![]);
    writing::lemma_literal_len(0x42, 8);
    writing::lemma_literal_len(0x43, 8);
    writing::lemma_literal_len(0x44, 8);
    writing::lemma_literal_len(pi.parse_code as nat, 8);
    writing::lemma_literal_len(pi.next_parse_offset as nat, 32);
    writing::lemma_literal_len(pi.previous_parse_offset as nat, 32);
}

/// A fragment header as bits: picture number, data length and slice count, and with
/// slices the column and the row of the first of them.
pub open spec fn fragment_header_bits(fh: FragmentHeader) -> Seq<int> {
    writing::literal(fh.picture_number as nat, 32) + (writing::literal(
        fh.fragment_data_length as nat,
        16,
    ) + (writing::literal(fh.fragment_slice_count as nat, 16) + if fh.fragment_slice_count == 0 {
        seq![]
    } else {
        writing::literal(fh.fragment_x_offset as nat, 16) + writing::literal(
            fh.fragment_y_offset as nat,
            16,
        )
    }))
}

/// A fragment header reads back.
pub proof fn law_fragment_headers_read_back(i: Input, fh: FragmentHeader)
    requires
        i.wf(),
        !i.overrun,
        fh.fragment_slice_count == 0 ==> fh.fragment_x_offset == 0 && fh.fragment_y_offset == 0,
        i.offers(fragment_header_bits(fh)),
    ensures
        sequence::spec_fragment_header(i) == (
            i.after_bits(fragment_header_bits(fh).len()),
            Ok::<FragmentHeader, Error>(fh),
        ),
{
    power2::lemma2_to64();
    let y = writing::literal(fh.fragment_y_offset as nat, 16);
    let x = writing::literal(fh.fragment_x_offset as nat, 16) + y;
    let tail = if fh.fragment_slice_count == 0 {
        seq![]
    } else {
        x
    };
    let count = writing::literal(fh.fragment_slice_count as nat, 16) + tail;
    let length = writing::literal(fh.fragment_data_length as nat, 16) + count;
    let i1 = take_literal(i, fh.picture_number as nat, 32, length);
    let i2 = take_literal(i1, fh.fragment_data_length as nat, 16, count);
    let i3 = take_literal(i2, fh.fragment_slice_count as nat, 16, tail);
    if fh.fragment_slice_count != 0 {
        let i4 = take_literal(i3, fh.fragment_x_offset as nat, 16, y);
        assert(y + seq![] =~= y);
        let i5 = take_literal(i4, fh.fragment_y_offset as nat, 16, seq![]);
    }
}

/// The filters and depths as bits. From major version 3 on, a flag says whether the
/// horizontal filter is given apart, and another whether there are horizontal-only
/// levels.
pub open spec fn depths_bits(t: Transform, major_version: u64) -> Seq<int> {
    code(t.wavelet_index) + (code(t.dwt_depth) + if major_version < 3 {
        seq![]
    } else {
        writing::flag_bit(t.asym_transform_index_flag) + ((if t.asym_transform_index_flag {
            code(t.wavelet_index_ho)
        } else {
            seq![]
        }) + (writing::flag_bit(t.asym_transform_flag) + if t.asym_transform_flag {
            code(t.dwt_depth_ho)
        } else {
            seq![]
        }))
    })
}

/// The slice parameters as bits: the slice counts, and the size of the slices as a
/// fraction for low delay, the prefix bytes and the unit of length for high quality.
pub open spec fn slice_parameters_bits(t: Transform, kind: PictureKind) -> Seq<int> {
    code(t.slices_x) + (code(t.slices_y) + match kind {
        PictureKind::LowDelay => code(t.slice_bytes_numerator) + code(t.slice_bytes_denominator),
        PictureKind::HighQuality => code(t.slice_prefix_bytes) + code(t.slice_size_scaler),
    })
}

/// A quantization matrix: the default one, or custom values.
pub enum MatrixChoice {
    Default,
    Custom { dc: i64, h: Seq<i64>, ac: Seq<(i64, i64, i64)> },
}

/// The choice of a matrix as bits.
pub open spec fn matrix_choice_bits(m: MatrixChoice) -> Seq<int> {
    match m {
        MatrixChoice::Default => writing::flag_bit(false),
        MatrixChoice::Custom { dc, h, ac } => writing::matrix_bits(dc, h, ac),
    }
}

/// The transform parameters as bits.
pub open spec fn transform_parameters_bits(
    t: Transform,
    major_version: u64,
    kind: PictureKind,
    m: MatrixChoice,
) -> Seq<int> {
    depths_bits(t, major_version) + (slice_parameters_bits(t, kind) + matrix_choice_bits(m))
}

/// `n` rounded up to a multiple of `m`.
pub open spec fn round_up(n: int, m: int) -> int {
    (n + m - 1) / m * m
}

/// Whether these parameters can be written for pictures of this size.
pub open spec fn writable(
    t: Transform,
    cp: CodingParameters,
    major_version: u64,
    kind: PictureKind,
    m: MatrixChoice,
) -> bool {
    let total = t.dwt_depth_ho + t.dwt_depth;
    let width = round_up(cp.luma_width as int, power2::pow2(total as nat) as int);
    let height = round_up(cp.luma_height as int, power2::pow2(t.dwt_depth as nat) as int);
    &&& t.wavelet_index <= 6
    &&& t.wavelet_index_ho <= 6
    &&& total <= 16
    &&& width <= usize::MAX
    &&& height <= usize::MAX
    &&& width * height <= 0x400_0000
    &&& major_version < 3 ==> !t.asym_transform_index_flag && !t.asym_transform_flag
    &&& !t.asym_transform_index_flag ==> t.wavelet_index_ho == t.wavelet_index
    &&& !t.asym_transform_flag ==> t.dwt_depth_ho == 0
    &&& t.slices_x >= 1
    &&& t.slices_y >= 1
    &&& t.slices_x * t.slices_y <= 0x40_0000
    &&& match kind {
        PictureKind::LowDelay => {
            &&& t.slice_bytes_numerator <= 0x1_0000_0000
            &&& 1 <= t.slice_bytes_denominator < u64::MAX
            &&& t.slice_prefix_bytes == 0
            &&& t.slice_size_scaler == 1
        },
        PictureKind::HighQuality => {
            &&& t.slice_prefix_bytes <= 0x1_0000
            &&& 1 <= t.slice_size_scaler <= 0x1_0000
            &&& t.slice_bytes_numerator == 0
            &&& t.slice_bytes_denominator == 1
        },
    }
    &&& match m {
        MatrixChoice::Default => {
            &&& quant::has_default(
                t.wavelet_index,
                t.wavelet_index_ho,
                t.dwt_depth,
                t.dwt_depth_ho,
            )
            &&& t.quant_matrix == quant::default_matrix(
                t.wavelet_index,
                t.wavelet_index_ho,
                t.dwt_depth,
                t.dwt_depth_ho,
            )
        },
        MatrixChoice::Custom { dc, h, ac } => {
            &&& h.len() == t.dwt_depth_ho
            &&& ac.len() == t.dwt_depth
            &&& writing::matrix_values_ok(dc, h, ac)
            &&& t.quant_matrix == writing::matrix_of(dc, h, ac)
        },
    }
}

proof fn lemma_depths_back(i: Input, t: Transform, major_version: u64, rest: Seq<int>) -> (j: Input)
    requires
        inside(i),
        coded(t.wavelet_index) && coded(t.wavelet_index_ho),
        coded(t.dwt_depth) && coded(t.dwt_depth_ho),
        major_version < 3 ==> !t.asym_transform_index_flag && !t.asym_transform_flag,
        !t.asym_transform_index_flag ==> t.wavelet_index_ho == t.wavelet_index,
        !t.asym_transform_flag ==> t.dwt_depth_ho == 0,
        i.offers(depths_bits(t, major_version) + rest),
    ensures
        transform::spec_depths(i, major_version) == (j, t.depths()),
        inside(j),
        j.offers(rest),
        i.after_bits((depths_bits(t, major_version) + rest).len()) == j.after_bits(rest.len()),
{
    let all = depths_bits(t, major_version) + rest;
    if major_version < 3 {
        assert(all =~= code(t.wavelet_index) + (code(t.dwt_depth) + rest));
        let i1 = take_number(i, t.wavelet_index, code(t.dwt_depth) + rest);
        take_number(i1, t.dwt_depth, rest)
    } else {
        let x4 = if t.asym_transform_flag {
            code(t.dwt_depth_ho) + rest
        } else {
            rest
        };
        let x3 = writing::flag_bit(t.asym_transform_flag) + x4;
        let x2 = if t.asym_transform_index_flag {
            code(t.wavelet_index_ho) + x3
        } else {
            x3
        };
        let x1 = writing::flag_bit(t.asym_transform_index_flag) + x2;
        assert(all =~= code(t.wavelet_index) + (code(t.dwt_depth) + x1));
        let i1 = take_number(i, t.wavelet_index, code(t.dwt_depth) + x1);
        let i2 = take_number(i1, t.dwt_depth, x1);
        let i3 = take_flag(i2, t.asym_transform_index_flag, x2);
        let i4 = if t.asym_transform_index_flag {
            take_number(i3, t.wavelet_index_ho, x3)
        } else {
            i3
        };
        let i5 = take_flag(i4, t.asym_transform_flag, x4);
        if t.asym_transform_flag {
            take_number(i5, t.dwt_depth_ho, rest)
        } else {
            i5
        }
    }
}

proof fn lemma_slice_parameters_back(
    i: Input,
    t: Transform,
    kind: PictureKind,
    rest: Seq<int>,
) -> (j: Input)
    requires
        inside(i),
        t.slices_valid(),
        t.slice_bytes_denominator < u64::MAX,
        kind == PictureKind::LowDelay ==> t.slice_prefix_bytes == 0 && t.slice_size_scaler == 1,
        kind == PictureKind::HighQuality ==> t.slice_bytes_numerator == 0
            && t.slice_bytes_denominator == 1,
        t.slices_x <= 0x40_0000,
        t.slices_y <= 0x40_0000,
        i.offers(slice_parameters_bits(t, kind) + rest),
    ensures
        transform::spec_slice_parameters(i, kind) == (
            j,
            Ok::<transform::SliceLayout, Error>(
                transform::SliceLayout {
                    slices_x: t.slices_x,
                    slices_y: t.slices_y,
                    slice_bytes_numerator: t.slice_bytes_numerator,
                    slice_bytes_denominator: t.slice_bytes_denominator,
                    slice_prefix_bytes: t.slice_prefix_bytes,
                    slice_size_scaler: t.slice_size_scaler,
                },
            ),
        ),
        inside(j),
        j.offers(rest),
        i.after_bits((slice_parameters_bits(t, kind) + rest).len()) == j.after_bits(rest.len()),
{
    let (first, second) = match kind {
        PictureKind::LowDelay => (t.slice_bytes_numerator, t.slice_bytes_denominator),
        PictureKind::HighQuality => (t.slice_prefix_bytes, t.slice_size_scaler),
    };
    let x3 = code(second) + rest;
    let x2 = code(first) + x3;
    let x1 = code(t.slices_y) + x2;
    assert(slice_parameters_bits(t, kind) + rest =~= code(t.slices_x) + x1);
    let i1 = take_number(i, t.slices_x, x1);
    let i2 = take_number(i1, t.slices_y, x2);
    let i3 = take_number(i2, first, x3);
    take_number(i3, second, rest)
}

/// Transform parameters within the caps read back, each value in its field, with a
/// custom quantization matrix or with the default one.
pub proof fn law_transform_parameters_read_back(
    i: Input,
    t: Transform,
    seq: SequenceHeader,
    kind: PictureKind,
    m: MatrixChoice,
)
    requires
        i.wf(),
        !i.overrun,
        writable(t, seq.coding_parameters, seq.parse_parameters.major_version, kind, m),
        i.offers(transform_parameters_bits(t, seq.parse_parameters.major_version, kind, m)),
    ensures
        transform::spec_transform_parameters(i, seq, kind) == (
            i.after_bits(
                transform_parameters_bits(t, seq.parse_parameters.major_version, kind, m).len(),
            ),
            Ok::<Transform, Error>(t),
        ),
{
    let version = seq.parse_parameters.major_version;
    let x2 = matrix_choice_bits(m);
    let x1 = slice_parameters_bits(t, kind) + x2;
    let (nx, ny) = (t.slices_x as int, t.slices_y as int);
    assert(nx <= nx * ny && ny <= nx * ny) by (nonlinear_arith)
        requires
            nx >= 1,
            ny >= 1,
    ;
    let i1 = lemma_depths_back(i, t, version, x1);
    let i2 = lemma_slice_parameters_back(i1, t, kind, x2);
    assert(transform::depths_fault(t.depths(), seq.coding_parameters) is None);
    match m {
        MatrixChoice::Default => {
            assert(x2 + seq![] =~= x2);
            let i3 = take_flag(i2, false, seq![]);
        },
        MatrixChoice::Custom { dc, h, ac } => {
            writing::law_custom_matrices_read_back(i2, t.depths(), dc, h, ac);
        },
    }
    let got = transform::spec_transform_parameters(i, seq, kind).1->Ok_0;
    assert(got =~= t);
}

/// A ratio as a header gives it: one of the presets, or both of its terms.
pub enum RatioChoice {
    Preset(u64),
    Terms(u64, u64),
}

/// A signal range as a header gives it: one of the presets, or its four values.
pub enum RangeChoice {
    Preset(u64),
    Values { luma_offset: u64, luma_excursion: u64, color_diff_offset: u64, color_diff_excursion: u64 },
}

/// A colour specification as a header gives it: one of the presets, or any of its
/// parts.
pub enum ColorChoice {
    Preset(u64),
    Parts { primaries: Option<u64>, matrix: Option<u64>, transfer: Option<u64> },
}

/// What a header overrides.
pub struct Overrides {
    pub frame_size: Option<(u64, u64)>,
    pub color_diff_format: Option<ColorDiffFormat>,
    pub source_sampling: Option<u64>,
    pub frame_rate: Option<RatioChoice>,
    pub pixel_aspect_ratio: Option<RatioChoice>,
    /// Width and height, left and top offset.
    pub clean_area: Option<(u64, u64, u64, u64)>,
    pub signal_range: Option<RangeChoice>,
    pub color_spec: Option<ColorChoice>,
}

/// A ratio as bits: its preset index, or zero and its terms.
pub open spec fn ratio_bits(r: RatioChoice) -> Seq<int> {
    match r {
        RatioChoice::Preset(index) => code(index),
        RatioChoice::Terms(numer, denom) => code(0) + (code(numer) + code(denom)),
    }
}

/// A signal range as bits: its preset index, or zero and its values, luma first.
pub open spec fn range_bits(r: RangeChoice) -> Seq<int> {
    match r {
        RangeChoice::Preset(index) => code(index),
        RangeChoice::Values {
            luma_offset,
            luma_excursion,
            color_diff_offset,
            color_diff_excursion,
        } => code(0) + (code(luma_offset) + (code(luma_excursion) + (code(color_diff_offset) + code(
            color_diff_excursion,
        )))),
    }
}

/// A part of a colour specification as bits.
pub open spec fn part_bits(p: Option<u64>) -> Seq<int> {
    match p {
        Some(index) => writing::flag_bit(true) + code(index),
        None => writing::flag_bit(false),
    }
}

/// A colour specification as bits: its preset index, or zero and its parts.
pub open spec fn color_bits(c: ColorChoice) -> Seq<int> {
    match c {
        ColorChoice::Preset(index) => code(index),
        ColorChoice::Parts { primaries, matrix, transfer } => code(0) + (part_bits(primaries) + (
        part_bits(matrix) + part_bits(transfer))),
    }
}

/// The index of a colour-difference format.
pub open spec fn format_index(f: ColorDiffFormat) -> u64 {
    match f {
        ColorDiffFormat::Yuv444 => 0,
        ColorDiffFormat::Yuv422 => 1,
        ColorDiffFormat::Yuv420 => 2,
    }
}

pub open spec fn frame_size_bits(o: Overrides) -> Seq<int> {
    match o.frame_size {
        Some((width, height)) => writing::flag_bit(true) + (code(width) + code(height)),
        None => writing::flag_bit(false),
    }
}

pub open spec fn format_bits(o: Overrides) -> Seq<int> {
    match o.color_diff_format {
        Some(f) => writing::flag_bit(true) + code(format_index(f)),
        None => writing::flag_bit(false),
    }
}

pub open spec fn sampling_bits(o: Overrides) -> Seq<int> {
    match o.source_sampling {
        Some(v) => writing::flag_bit(true) + code(v),
        None => writing::flag_bit(false),
    }
}

pub open spec fn frame_rate_bits(o: Overrides) -> Seq<int> {
    match o.frame_rate {
        Some(r) => writing::flag_bit(true) + ratio_bits(r),
        None => writing::flag_bit(false),
    }
}

pub open spec fn aspect_ratio_bits(o: Overrides) -> Seq<int> {
    match o.pixel_aspect_ratio {
        Some(r) => writing::flag_bit(true) + ratio_bits(r),
        None => writing::flag_bit(false),
    }
}

pub open spec fn clean_area_bits(o: Overrides) -> Seq<int> {
    match o.clean_area {
        Some((width, height, left, top)) => writing::flag_bit(true) + (code(width) + (code(height)
            + (code(left) + code(top)))),
        None => writing::flag_bit(false),
    }
}

pub open spec fn signal_range_bits(o: Overrides) -> Seq<int> {
    match o.signal_range {
        Some(r) => writing::flag_bit(true) + range_bits(r),
        None => writing::flag_bit(false),
    }
}

pub open spec fn color_spec_bits(o: Overrides) -> Seq<int> {
    match o.color_spec {
        Some(c) => writing::flag_bit(true) + color_bits(c),
        None => writing::flag_bit(false),
    }
}

/// The overrides from the frame rate on, as bits.
pub open spec fn later_bits(o: Overrides) -> Seq<int> {
    frame_rate_bits(o) + (aspect_ratio_bits(o) + (clean_area_bits(o) + (signal_range_bits(o)
        + color_spec_bits(o))))
}

/// The overrides as bits, in the order of the header.
pub open spec fn overrides_bits(o: Overrides) -> Seq<int> {
    frame_size_bits(o) + (format_bits(o) + (sampling_bits(o) + later_bits(o)))
}

/// Whether a number has a code that does not saturate.
pub open spec fn coded(v: u64) -> bool {
    v < u64::MAX
}

/// Whether the overrides can be written, and mean something.
pub open spec fn meaningful(o: Overrides) -> bool {
    &&& o.frame_size matches Some((w, h)) ==> coded(w) && coded(h)
    &&& o.source_sampling matches Some(v) ==> coded(v)
    &&& match o.frame_rate {
        None => true,
        Some(RatioChoice::Preset(index)) => 1 <= index <= 16,
        Some(RatioChoice::Terms(n, d)) => 1 <= n && 1 <= d && coded(n) && coded(d),
    }
    &&& match o.pixel_aspect_ratio {
        None => true,
        Some(RatioChoice::Preset(index)) => 1 <= index <= 6,
        Some(RatioChoice::Terms(n, d)) => 1 <= n && 1 <= d && coded(n) && coded(d),
    }
    &&& o.clean_area matches Some((w, h, l, t)) ==> coded(w) && coded(h) && coded(l) && coded(t)
    &&& match o.signal_range {
        None => true,
        Some(RangeChoice::Preset(index)) => 1 <= index <= 8,
        Some(
            RangeChoice::Values {
                luma_offset,
                luma_excursion,
                color_diff_offset,
                color_diff_excursion,
            },
        ) => coded(luma_offset) && coded(luma_excursion) && coded(color_diff_offset) && coded(
            color_diff_excursion,
        ),
    }
    &&& match o.color_spec {
        None => true,
        Some(ColorChoice::Preset(index)) => 1 <= index <= 7,
        Some(ColorChoice::Parts { primaries, matrix, transfer }) => {
            &&& primaries matches Some(v) ==> v <= 4
            &&& matrix matches Some(v) ==> v <= 4
            &&& transfer matches Some(v) ==> v <= 5
        },
    }
}

/// A value that may be overridden.
pub open spec fn either<T>(given: Option<T>, else_: T) -> T {
    match given {
        Some(v) => v,
        None => else_,
    }
}

/// The terms of a ratio.
pub open spec fn ratio_terms(
    r: Option<RatioChoice>,
    presets: spec_fn(u64) -> Result<(u64, u64)>,
    else_: (u64, u64),
) -> (u64, u64) {
    match r {
        None => else_,
        Some(RatioChoice::Preset(index)) => presets(index)->Ok_0,
        Some(RatioChoice::Terms(n, d)) => (n, d),
    }
}

/// The index that stands in front of a ratio.
pub open spec fn ratio_index(r: Option<RatioChoice>) -> Option<u64> {
    match r {
        None => None,
        Some(RatioChoice::Preset(index)) => Some(index),
        Some(RatioChoice::Terms(_, _)) => Some(0),
    }
}

/// The frame with its size.
pub open spec fn with_frame_size(vp: VideoParameters, o: Overrides) -> VideoParameters {
    match o.frame_size {
        None => vp,
        Some((frame_width, frame_height)) => VideoParameters { frame_width, frame_height, ..vp },
    }
}

/// The frame with its colour-difference format and its sampling.
pub open spec fn with_formats(vp: VideoParameters, o: Overrides) -> VideoParameters {
    VideoParameters {
        color_diff_format: either(o.color_diff_format, vp.color_diff_format),
        source_sampling: either(o.source_sampling, vp.source_sampling),
        ..vp
    }
}

/// The frame with its frame rate and its pixel aspect ratio.
pub open spec fn with_ratios(vp: VideoParameters, o: Overrides) -> VideoParameters {
    let (frame_rate_numer, frame_rate_denom) = ratio_terms(
        o.frame_rate,
        |k: u64| params::spec_preset_frame_rate(k),
        (vp.frame_rate_numer, vp.frame_rate_denom),
    );
    let (pixel_aspect_ratio_numer, pixel_aspect_ratio_denom) = ratio_terms(
        o.pixel_aspect_ratio,
        |k: u64| params::spec_preset_pixel_aspect_ratio(k),
        (vp.pixel_aspect_ratio_numer, vp.pixel_aspect_ratio_denom),
    );
    VideoParameters {
        frame_rate_numer,
        frame_rate_denom,
        pixel_aspect_ratio_numer,
        pixel_aspect_ratio_denom,
        ..vp
    }
}

/// The frame with its clean area.
pub open spec fn with_clean_area(vp: VideoParameters, o: Overrides) -> VideoParameters {
    match o.clean_area {
        None => vp,
        Some((clean_width, clean_height, left_offset, top_offset)) => VideoParameters {
            clean_width,
            clean_height,
            left_offset,
            top_offset,
            ..vp
        },
    }
}

/// The frame with its signal range.
pub open spec fn with_signal_range(vp: VideoParameters, o: Overrides) -> VideoParameters {
    match o.signal_range {
        None => vp,
        Some(RangeChoice::Preset(index)) => {
            let (luma_offset, luma_excursion, color_diff_offset, color_diff_excursion) =
                params::spec_preset_signal_range(index)->Ok_0;
            VideoParameters {
                luma_offset,
                luma_excursion,
                color_diff_offset,
                color_diff_excursion,
                ..vp
            }
        },
        Some(
            RangeChoice::Values {
                luma_offset,
                luma_excursion,
                color_diff_offset,
                color_diff_excursion,
            },
        ) => VideoParameters {
            luma_offset,
            luma_excursion,
            color_diff_offset,
            color_diff_excursion,
            ..vp
        },
    }
}

/// The frame with its colour specification; parts that are not given are those of
/// high-definition television.
pub open spec fn with_color_spec(vp: VideoParameters, o: Overrides) -> VideoParameters {
    match o.color_spec {
        None => vp,
        Some(ColorChoice::Preset(index)) => {
            let (color_primaries_index, color_matrix_index, transfer_function_index) =
                params::spec_preset_color_spec(index)->Ok_0;
            VideoParameters {
                color_primaries_index,
                color_matrix_index,
                transfer_function_index,
                ..vp
            }
        },
        Some(ColorChoice::Parts { primaries, matrix, transfer }) => VideoParameters {
            color_primaries_index: either(primaries, 0),
            color_matrix_index: either(matrix, 0),
            transfer_function_index: either(transfer, 0),
            ..vp
        },
    }
}

/// The parameters of a source: those of its base format, with the overrides.
pub open spec fn overridden(vp: VideoParameters, o: Overrides) -> VideoParameters {
    with_color_spec(
        with_signal_range(
            with_clean_area(with_ratios(with_formats(with_frame_size(vp, o), o), o), o),
            o,
        ),
        o,
    )
}

/// The record of the overrides: which there are, and the indices that were given.
pub open spec fn recorded(o: Overrides) -> SourceOverrides {
    SourceOverrides {
        custom_dimensions_flag: o.frame_size is Some,
        custom_chroma_format_flag: o.color_diff_format is Some,
        custom_scan_format_flag: o.source_sampling is Some,
        custom_frame_rate_flag: o.frame_rate is Some,
        frame_rate_index: ratio_index(o.frame_rate),
        custom_pixel_aspect_ratio_flag: o.pixel_aspect_ratio is Some,
        pixel_aspect_ratio_index: ratio_index(o.pixel_aspect_ratio),
        custom_clean_area_flag: o.clean_area is Some,
        custom_signal_range_flag: o.signal_range is Some,
        signal_range_index: match o.signal_range {
            None => None,
            Some(RangeChoice::Preset(index)) => Some(index),
            Some(RangeChoice::Values { .. }) => Some(0),
        },
        custom_color_spec_flag: o.color_spec is Some,
        color_spec_index: match o.color_spec {
            None => None,
            Some(ColorChoice::Preset(index)) => Some(index),
            Some(ColorChoice::Parts { .. }) => Some(0),
        },
    }
}

proof fn lemma_frame_size_back(i: Input, s: Source, o: Overrides, rest: Seq<int>) -> (j: Input)
    requires
        inside(i),
        meaningful(o),
        i.offers(frame_size_bits(o) + rest),
    ensures
        params::spec_frame_size(i, s) == (
            j,
            (
                with_frame_size(s.0, o),
                SourceOverrides {
                    custom_dimensions_flag: o.frame_size is Some || s.1.custom_dimensions_flag,
                    ..s.1
                },
            ),
        ),
        inside(j),
        j.offers(rest),
        i.after_bits((frame_size_bits(o) + rest).len()) == j.after_bits(rest.len()),
{
    match o.frame_size {
        None => take_flag(i, false, rest),
        Some((width, height)) => {
            let x2 = code(height) + rest;
            let x1 = code(width) + x2;
            assert(frame_size_bits(o) + rest =~= writing::flag_bit(true) + x1);
            let i1 = take_flag(i, true, x1);
            let i2 = take_number(i1, width, x2);
            take_number(i2, height, rest)
        },
    }
}

proof fn lemma_format_back(i: Input, s: Source, o: Overrides, rest: Seq<int>) -> (j: Input)
    requires
        inside(i),
        i.offers(format_bits(o) + rest),
    ensures
        params::spec_color_diff_sampling_format(i, s) == (
            j,
            Ok::<Source, Error>(
                (
                    VideoParameters {
                        color_diff_format: either(o.color_diff_format, s.0.color_diff_format),
                        ..s.0
                    },
                    SourceOverrides {
                        custom_chroma_format_flag: o.color_diff_format is Some
                            || s.1.custom_chroma_format_flag,
                        ..s.1
                    },
                ),
            ),
        ),
        inside(j),
        j.offers(rest),
        i.after_bits((format_bits(o) + rest).len()) == j.after_bits(rest.len()),
{
    match o.color_diff_format {
        None => take_flag(i, false, rest),
        Some(f) => {
            let x1 = code(format_index(f)) + rest;
            assert(format_bits(o) + rest =~= writing::flag_bit(true) + x1);
            let i1 = take_flag(i, true, x1);
            take_number(i1, format_index(f), rest)
        },
    }
}

proof fn lemma_sampling_back(i: Input, s: Source, o: Overrides, rest: Seq<int>) -> (j: Input)
    requires
        inside(i),
        meaningful(o),
        i.offers(sampling_bits(o) + rest),
    ensures
        params::spec_scan_format(i, s) == (
            j,
            (
                VideoParameters {
                    source_sampling: either(o.source_sampling, s.0.source_sampling),
                    ..s.0
                },
                SourceOverrides {
                    custom_scan_format_flag: o.source_sampling is Some
                        || s.1.custom_scan_format_flag,
                    ..s.1
                },
            ),
        ),
        inside(j),
        j.offers(rest),
        i.after_bits((sampling_bits(o) + rest).len()) == j.after_bits(rest.len()),
{
    match o.source_sampling {
        None => take_flag(i, false, rest),
        Some(v) => {
            let x1 = code(v) + rest;
            assert(sampling_bits(o) + rest =~= writing::flag_bit(true) + x1);
            let i1 = take_flag(i, true, x1);
            take_number(i1, v, rest)
        },
    }
}

proof fn lemma_frame_rate_back(i: Input, s: Source, o: Overrides, rest: Seq<int>) -> (j: Input)
    requires
        inside(i),
        meaningful(o),
        s.1.frame_rate_index is None,
        i.offers(frame_rate_bits(o) + rest),
    ensures
        ({
            let (frame_rate_numer, frame_rate_denom) = ratio_terms(
                o.frame_rate,
                |k: u64| params::spec_preset_frame_rate(k),
                (s.0.frame_rate_numer, s.0.frame_rate_denom),
            );
            params::spec_frame_rate(i, s) == (
                j,
                Ok::<Source, Error>(
                    (
                        VideoParameters { frame_rate_numer, frame_rate_denom, ..s.0 },
                        SourceOverrides {
                            custom_frame_rate_flag: o.frame_rate is Some
                                || s.1.custom_frame_rate_flag,
                            frame_rate_index: ratio_index(o.frame_rate),
                            ..s.1
                        },
                    ),
                ),
            )
        }),
        inside(j),
        j.offers(rest),
        i.after_bits((frame_rate_bits(o) + rest).len()) == j.after_bits(rest.len()),
{
    match o.frame_rate {
        None => take_flag(i, false, rest),
        Some(RatioChoice::Preset(index)) => {
            let x1 = code(index) + rest;
            assert(frame_rate_bits(o) + rest =~= writing::flag_bit(true) + x1);
            let i1 = take_flag(i, true, x1);
            take_number(i1, index, rest)
        },
        Some(RatioChoice::Terms(n, d)) => {
            let x3 = code(d) + rest;
            let x2 = code(n) + x3;
            let x1 = code(0) + x2;
            assert(frame_rate_bits(o) + rest =~= writing::flag_bit(true) + x1);
            let i1 = take_flag(i, true, x1);
            let i2 = take_number(i1, 0, x2);
            let i3 = take_number(i2, n, x3);
            take_number(i3, d, rest)
        },
    }
}

proof fn lemma_aspect_ratio_back(i: Input, s: Source, o: Overrides, rest: Seq<int>) -> (j: Input)
    requires
        inside(i),
        meaningful(o),
        s.1.pixel_aspect_ratio_index is None,
        i.offers(aspect_ratio_bits(o) + rest),
    ensures
        ({
            let (pixel_aspect_ratio_numer, pixel_aspect_ratio_denom) = ratio_terms(
                o.pixel_aspect_ratio,
                |k: u64| params::spec_preset_pixel_aspect_ratio(k),
                (s.0.pixel_aspect_ratio_numer, s.0.pixel_aspect_ratio_denom),
            );
            params::spec_pixel_aspect_ratio(i, s) == (
                j,
                Ok::<Source, Error>(
                    (
                        VideoParameters {
                            pixel_aspect_ratio_numer,
                            pixel_aspect_ratio_denom,
                            ..s.0
                        },
                        SourceOverrides {
                            custom_pixel_aspect_ratio_flag: o.pixel_aspect_ratio is Some
                                || s.1.custom_pixel_aspect_ratio_flag,
                            pixel_aspect_ratio_index: ratio_index(o.pixel_aspect_ratio),
                            ..s.1
                        },
                    ),
                ),
            )
        }),
        inside(j),
        j.offers(rest),
        i.after_bits((aspect_ratio_bits(o) + rest).len()) == j.after_bits(rest.len()),
{
    match o.pixel_aspect_ratio {
        None => take_flag(i, false, rest),
        Some(RatioChoice::Preset(index)) => {
            let x1 = code(index) + rest;
            assert(aspect_ratio_bits(o) + rest =~= writing::flag_bit(true) + x1);
            let i1 = take_flag(i, true, x1);
            take_number(i1, index, rest)
        },
        Some(RatioChoice::Terms(n, d)) => {
            let x3 = code(d) + rest;
            let x2 = code(n) + x3;
            let x1 = code(0) + x2;
            assert(aspect_ratio_bits(o) + rest =~= writing::flag_bit(true) + x1);
            let i1 = take_flag(i, true, x1);
            let i2 = take_number(i1, 0, x2);
            let i3 = take_number(i2, n, x3);
            take_number(i3, d, rest)
        },
    }
}

proof fn lemma_clean_area_back(i: Input, s: Source, o: Overrides, rest: Seq<int>) -> (j: Input)
    requires
        inside(i),
        meaningful(o),
        i.offers(clean_area_bits(o) + rest),
    ensures
        params::spec_clean_area(i, s) == (
            j,
            (
                with_clean_area(s.0, o),
                SourceOverrides {
                    custom_clean_area_flag: o.clean_area is Some || s.1.custom_clean_area_flag,
                    ..s.1
                },
            ),
        ),
        inside(j),
        j.offers(rest),
        i.after_bits((clean_area_bits(o) + rest).len()) == j.after_bits(rest.len()),
{
    match o.clean_area {
        None => take_flag(i, false, rest),
        Some((width, height, left, top)) => {
            let x4 = code(top) + rest;
            let x3 = code(left) + x4;
            let x2 = code(height) + x3;
            let x1 = code(width) + x2;
            assert(clean_area_bits(o) + rest =~= writing::flag_bit(true) + x1);
            let i1 = take_flag(i, true, x1);
            let i2 = take_number(i1, width, x2);
            let i3 = take_number(i2, height, x3);
            let i4 = take_number(i3, left, x4);
            take_number(i4, top, rest)
        },
    }
}

proof fn lemma_signal_range_back(i: Input, s: Source, o: Overrides, rest: Seq<int>) -> (j: Input)
    requires
        inside(i),
        meaningful(o),
        s.1.signal_range_index is None,
        i.offers(signal_range_bits(o) + rest),
    ensures
        params::spec_signal_range(i, s) == (
            j,
            Ok::<Source, Error>(
                (
                    with_signal_range(s.0, o),
                    SourceOverrides {
                        custom_signal_range_flag: o.signal_range is Some
                            || s.1.custom_signal_range_flag,
                        signal_range_index: recorded(o).signal_range_index,
                        ..s.1
                    },
                ),
            ),
        ),
        inside(j),
        j.offers(rest),
        i.after_bits((signal_range_bits(o) + rest).len()) == j.after_bits(rest.len()),
{
    match o.signal_range {
        None => take_flag(i, false, rest),
        Some(RangeChoice::Preset(index)) => {
            let x1 = code(index) + rest;
            assert(signal_range_bits(o) + rest =~= writing::flag_bit(true) + x1);
            let i1 = take_flag(i, true, x1);
            take_number(i1, index, rest)
        },
        Some(
            RangeChoice::Values {
                luma_offset,
                luma_excursion,
                color_diff_offset,
                color_diff_excursion,
            },
        ) => {
            let x5 = code(color_diff_excursion) + rest;
            let x4 = code(color_diff_offset) + x5;
            let x3 = code(luma_excursion) + x4;
            let x2 = code(luma_offset) + x3;
            let x1 = code(0) + x2;
            assert(signal_range_bits(o) + rest =~= writing::flag_bit(true) + x1);
            let i1 = take_flag(i, true, x1);
            let i2 = take_number(i1, 0, x2);
            let i3 = take_number(i2, luma_offset, x3);
            let i4 = take_number(i3, luma_excursion, x4);
            let i5 = take_number(i4, color_diff_offset, x5);
            take_number(i5, color_diff_excursion, rest)
        },
    }
}

proof fn lemma_part_back(
    i: Input,
    p: Option<u64>,
    max: u64,
    complaint: &'static str,
    rest: Seq<int>,
) -> (j: Input)
    requires
        inside(i),
        max < u64::MAX,
        p matches Some(v) ==> v <= max,
        i.offers(part_bits(p) + rest),
    ensures
        params::spec_color_part(i, 0, max, complaint) == (j, Ok::<u64, Error>(either(p, 0))),
        inside(j),
        j.offers(rest),
        i.after_bits((part_bits(p) + rest).len()) == j.after_bits(rest.len()),
{
    match p {
        None => take_flag(i, false, rest),
        Some(v) => {
            assert(part_bits(p) + rest =~= writing::flag_bit(true) + (code(v) + rest));
            let i1 = take_flag(i, true, code(v) + rest);
            take_number(i1, v, rest)
        },
    }
}

proof fn lemma_color_spec_back(i: Input, s: Source, o: Overrides, rest: Seq<int>) -> (j: Input)
    requires
        inside(i),
        meaningful(o),
        s.1.color_spec_index is None,
        i.offers(color_spec_bits(o) + rest),
    ensures
        params::spec_color_spec(i, s) == (
            j,
            Ok::<Source, Error>(
                (
                    with_color_spec(s.0, o),
                    SourceOverrides {
                        custom_color_spec_flag: o.color_spec is Some
                            || s.1.custom_color_spec_flag,
                        color_spec_index: recorded(o).color_spec_index,
                        ..s.1
                    },
                ),
            ),
        ),
        inside(j),
        j.offers(rest),
        i.after_bits((color_spec_bits(o) + rest).len()) == j.after_bits(rest.len()),
{
    match o.color_spec {
        None => take_flag(i, false, rest),
        Some(ColorChoice::Preset(index)) => {
            let x1 = code(index) + rest;
            assert(color_spec_bits(o) + rest =~= writing::flag_bit(true) + x1);
            let i1 = take_flag(i, true, x1);
            take_number(i1, index, rest)
        },
        Some(ColorChoice::Parts { primaries, matrix, transfer }) => {
            let x4 = part_bits(transfer) + rest;
            let x3 = part_bits(matrix) + x4;
            let x2 = part_bits(primaries) + x3;
            let x1 = code(0) + x2;
            assert(color_spec_bits(o) + rest =~= writing::flag_bit(true) + x1);
            let i1 = take_flag(i, true, x1);
            let i2 = take_number(i1, 0, x2);
            let i3 = lemma_part_back(
                i2,
                primaries,
                4,
                "color primaries preset index out of 0..=4",
                x3,
            );
            let i4 = lemma_part_back(i3, matrix, 4, "color matrix preset index out of 0..=4", x4);
            lemma_part_back(
                i4,
                transfer,
                5,
                "transfer function preset index out of 0..=5",
                rest,
            )
        },
    }
}

proof fn lemma_later_overrides_back(i: Input, s: Source, o: Overrides, rest: Seq<int>) -> (j:
    Input)
    requires
        inside(i),
        meaningful(o),
        s.1.frame_rate_index is None,
        s.1.pixel_aspect_ratio_index is None,
        s.1.signal_range_index is None,
        s.1.color_spec_index is None,
        !s.1.custom_frame_rate_flag && !s.1.custom_pixel_aspect_ratio_flag,
        !s.1.custom_clean_area_flag && !s.1.custom_signal_range_flag,
        !s.1.custom_color_spec_flag,
        i.offers(later_bits(o) + rest),
    ensures
        params::spec_later_overrides(i, s) == (
            j,
            Ok::<Source, Error>(
                (
                    with_color_spec(
                        with_signal_range(with_clean_area(with_ratios(s.0, o), o), o),
                        o,
                    ),
                    SourceOverrides {
                        custom_dimensions_flag: s.1.custom_dimensions_flag,
                        custom_chroma_format_flag: s.1.custom_chroma_format_flag,
                        custom_scan_format_flag: s.1.custom_scan_format_flag,
                        ..recorded(o)
                    },
                ),
            ),
        ),
        inside(j),
        j.offers(rest),
        i.after_bits((later_bits(o) + rest).len()) == j.after_bits(rest.len()),
{
    let x8 = color_spec_bits(o) + rest;
    let x7 = signal_range_bits(o) + x8;
    let x6 = clean_area_bits(o) + x7;
    let x5 = aspect_ratio_bits(o) + x6;
    lemma_regroup(
        frame_rate_bits(o),
        aspect_ratio_bits(o),
        clean_area_bits(o),
        signal_range_bits(o),
        color_spec_bits(o),
        rest,
    );
    let i4 = lemma_frame_rate_back(i, s, o, x5);
    let s4 = params::spec_frame_rate(i, s).1->Ok_0;
    let i5 = lemma_aspect_ratio_back(i4, s4, o, x6);
    let s5 = params::spec_pixel_aspect_ratio(i4, s4).1->Ok_0;
    let i6 = lemma_clean_area_back(i5, s5, o, x7);
    let s6 = params::spec_clean_area(i5, s5).1;
    let i7 = lemma_signal_range_back(i6, s6, o, x8);
    let s7 = params::spec_signal_range(i6, s6).1->Ok_0;
    lemma_color_spec_back(i7, s7, o, rest)
}

/// Five parts in front of what follows, one after the other.
proof fn lemma_regroup(
    a: Seq<int>,
    b: Seq<int>,
    c: Seq<int>,
    d: Seq<int>,
    e: Seq<int>,
    rest: Seq<int>,
)
    ensures
        (a + (b + (c + (d + e)))) + rest == a + (b + (c + (d + (e + rest)))),
{
    assert((d + e) + rest =~= d + (e + rest));
    assert((c + (d + e)) + rest =~= c + ((d + e) + rest));
    assert((b + (c + (d + e))) + rest =~= b + ((c + (d + e)) + rest));
    assert((a + (b + (c + (d + e)))) + rest =~= a + ((b + (c + (d + e))) + rest));
}

proof fn lemma_overrides_back(i: Input, vp: VideoParameters, o: Overrides, rest: Seq<int>) -> (j:
    Input)
    requires
        inside(i),
        meaningful(o),
        i.offers(overrides_bits(o) + rest),
    ensures
        params::spec_overrides(i, (vp, params::no_overrides())) == (
            j,
            Ok::<Source, Error>((overridden(vp, o), recorded(o))),
        ),
        inside(j),
        j.offers(rest),
        i.after_bits((overrides_bits(o) + rest).len()) == j.after_bits(rest.len()),
{
    let x4 = later_bits(o) + rest;
    let x3 = sampling_bits(o) + x4;
    let x2 = format_bits(o) + x3;
    assert(overrides_bits(o) + rest == frame_size_bits(o) + x2) by {
        lemma_regroup(
            frame_size_bits(o),
            format_bits(o),
            sampling_bits(o),
            later_bits(o),
            seq![],
            rest,
        );
        assert(later_bits(o) + seq![] =~= later_bits(o));
        assert(seq![] + rest =~= rest);
    }
    let s0 = (vp, params::no_overrides());
    let i1 = lemma_frame_size_back(i, s0, o, x2);
    let s1 = params::spec_frame_size(i, s0).1;
    let i2 = lemma_format_back(i1, s1, o, x3);
    let s2 = params::spec_color_diff_sampling_format(i1, s1).1->Ok_0;
    let i3 = lemma_sampling_back(i2, s2, o, x4);
    let s3 = params::spec_scan_format(i2, s2).1;
    lemma_later_overrides_back(i3, s3, o, rest)
}

/// A sequence header as bits: version, profile and level, the base video format, the
/// overrides, and the picture coding mode.
pub open spec fn sequence_header_bits(
    p: ParseParameters,
    base_video_format: u64,
    o: Overrides,
    picture_coding_mode: u64,
) -> Seq<int> {
    code(p.major_version) + (code(p.minor_version) + (code(p.profile) + (code(p.level) + (code(
        base_video_format,
    ) + (overrides_bits(o) + code(picture_coding_mode))))))
}

/// Whether a source can be coded: its frame is not empty, a clean area that it gives
/// lies inside the frame, and 16 bits hold its samples.
pub open spec fn codable_source(vp: VideoParameters, o: Overrides) -> bool {
    &&& vp.frame_width > 0
    &&& vp.frame_height > 0
    &&& o.clean_area matches Some((w, h, l, t)) ==> w + l <= vp.frame_width && h + t
        <= vp.frame_height
    &&& 1 <= vp.luma_excursion <= 65535
    &&& 1 <= vp.color_diff_excursion <= 65535
    &&& vp.luma_offset <= 65535
    &&& vp.color_diff_offset <= 65535
}

/// A sequence header reads back: the version, profile and level as written, the
/// parameters of the base format with every override in its place, and the record
/// of what was overridden.
pub proof fn law_sequence_headers_read_back(
    i: Input,
    p: ParseParameters,
    base_video_format: u64,
    o: Overrides,
    picture_coding_mode: u64,
)
    requires
        i.wf(),
        !i.overrun,
        coded(p.major_version) && coded(p.minor_version) && coded(p.profile) && coded(p.level),
        base_video_format <= 22,
        picture_coding_mode <= 1,
        meaningful(o),
        codable_source(
            overridden(params::spec_set_source_defaults(base_video_format)->Ok_0, o),
            o,
        ),
        i.offers(sequence_header_bits(p, base_video_format, o, picture_coding_mode)),
    ensures
        ({
            let (j, h) = params::spec_sequence_header(i);
            let vp = overridden(params::spec_set_source_defaults(base_video_format)->Ok_0, o);
            &&& j == i.after_bits(
                sequence_header_bits(p, base_video_format, o, picture_coding_mode).len(),
            )
            &&& h matches Ok(h) && {
                &&& h.parse_parameters == p
                &&& h.base_video_format == base_video_format
                &&& h.video_parameters == vp
                &&& h.source_overrides == recorded(o)
                &&& h.picture_coding_mode == picture_coding_mode
                &&& derived(h.coding_parameters, vp, picture_coding_mode)
            }
        }),
{
    let x7 = code(picture_coding_mode);
    let x6 = overrides_bits(o) + x7;
    let x5 = code(base_video_format) + x6;
    let x4 = code(p.level) + x5;
    let x3 = code(p.profile) + x4;
    let x2 = code(p.minor_version) + x3;
    let i1 = take_number(i, p.major_version, x2);
    let i2 = take_number(i1, p.minor_version, x3);
    let i3 = take_number(i2, p.profile, x4);
    let i4 = take_number(i3, p.level, x5);
    let i5 = take_number(i4, base_video_format, x6);
    let vp = params::spec_set_source_defaults(base_video_format)->Ok_0;
    let i6 = lemma_overrides_back(i5, vp, o, x7);
    assert(x7 + seq![] =~= x7);
    let i7 = take_number(i6, picture_coding_mode, seq![]);
    law_coding_parameters_follow(overridden(vp, o), picture_coding_mode);
}

/// A sequence header is refused where the source that it describes cannot be coded,
/// or where the pictures are neither frames nor fields.
pub proof fn law_uncodable_sources_are_refused(
    i: Input,
    p: ParseParameters,
    base_video_format: u64,
    o: Overrides,
    picture_coding_mode: u64,
)
    requires
        i.wf(),
        !i.overrun,
        coded(p.major_version) && coded(p.minor_version) && coded(p.profile) && coded(p.level),
        base_video_format <= 22,
        coded(picture_coding_mode),
        meaningful(o),
        picture_coding_mode > 1 || !codable_source(
            overridden(params::spec_set_source_defaults(base_video_format)->Ok_0, o),
            o,
        ),
        i.offers(sequence_header_bits(p, base_video_format, o, picture_coding_mode)),
    ensures
        params::spec_sequence_header(i).1 is Err,
{
    let x7 = code(picture_coding_mode);
    let x6 = overrides_bits(o) + x7;
    let x5 = code(base_video_format) + x6;
    let x4 = code(p.level) + x5;
    let x3 = code(p.profile) + x4;
    let x2 = code(p.minor_version) + x3;
    let i1 = take_number(i, p.major_version, x2);
    let i2 = take_number(i1, p.minor_version, x3);
    let i3 = take_number(i2, p.profile, x4);
    let i4 = take_number(i3, p.level, x5);
    let i5 = take_number(i4, base_video_format, x6);
    let vp = params::spec_set_source_defaults(base_video_format)->Ok_0;
    let i6 = lemma_overrides_back(i5, vp, o, x7);
    assert(x7 + seq![] =~= x7);
    let i7 = take_number(i6, picture_coding_mode, seq![]);
}

/// Whether the flags of a transform say what its values are.
pub open spec fn flagged(t: Transform, major_version: u64) -> bool {
    &&& coded(t.wavelet_index) && coded(t.wavelet_index_ho)
    &&& coded(t.dwt_depth) && coded(t.dwt_depth_ho)
    &&& major_version < 3 ==> !t.asym_transform_index_flag && !t.asym_transform_flag
    &&& !t.asym_transform_index_flag ==> t.wavelet_index_ho == t.wavelet_index
    &&& !t.asym_transform_flag ==> t.dwt_depth_ho == 0
}

/// Whether a transform is one that the decoder takes on: filters that there are, no
/// more than 16 levels, and padded planes of no more than 2^26 samples.
pub open spec fn within_reach(t: Transform, cp: CodingParameters) -> bool {
    let total = t.dwt_depth_ho + t.dwt_depth;
    let width = round_up(cp.luma_width as int, power2::pow2(total as nat) as int);
    let height = round_up(cp.luma_height as int, power2::pow2(t.dwt_depth as nat) as int);
    &&& t.wavelet_index <= 6
    &&& t.wavelet_index_ho <= 6
    &&& total <= 16
    &&& width <= usize::MAX
    &&& height <= usize::MAX
    &&& width * height <= 0x400_0000
}

/// Transform parameters are refused where the transform is out of reach, before any of
/// their values is put to use.
pub proof fn law_transforms_out_of_reach_are_refused(
    i: Input,
    t: Transform,
    seq: SequenceHeader,
    kind: PictureKind,
    rest: Seq<int>,
)
    requires
        i.wf(),
        !i.overrun,
        flagged(t, seq.parse_parameters.major_version),
        !within_reach(t, seq.coding_parameters),
        i.offers(depths_bits(t, seq.parse_parameters.major_version) + rest),
    ensures
        transform::spec_transform_parameters(i, seq, kind).1 is Err,
{
    let j = lemma_depths_back(i, t, seq.parse_parameters.major_version, rest);
    assert(transform::depths_fault(t.depths(), seq.coding_parameters) is Some);
}

/// So are numbers of slices that are zero or come to more than 2^22.
pub proof fn law_slice_counts_out_of_reach_are_refused(
    i: Input,
    t: Transform,
    seq: SequenceHeader,
    kind: PictureKind,
    rest: Seq<int>,
)
    requires
        i.wf(),
        !i.overrun,
        flagged(t, seq.parse_parameters.major_version),
        coded(t.slices_x) && coded(t.slices_y),
        t.slices_x == 0 || t.slices_y == 0 || t.slices_x * t.slices_y > 0x40_0000,
        i.offers(
            depths_bits(t, seq.parse_parameters.major_version) + (code(t.slices_x) + (code(
                t.slices_y,
            ) + rest)),
        ),
    ensures
        transform::spec_transform_parameters(i, seq, kind).1 is Err,
{
    let x = code(t.slices_y) + rest;
    let j = lemma_depths_back(
        i,
        t,
        seq.parse_parameters.major_version,
        code(t.slices_x) + x,
    );
    let j1 = take_number(j, t.slices_x, x);
    let j2 = take_number(j1, t.slices_y, rest);
}

/// Whether `half` is half of `n`, rounded down.
pub open spec fn halves(half: u64, n: u64) -> bool {
    n - 1 <= 2 * half <= n
}

/// Whether the coding parameters are those of a source: luma as large as the frame,
/// chroma half as wide in 4:2:2 and 4:2:0 and half as high in 4:2:0, a field half as
/// high as a frame, and as many bits as it takes to tell the samples of an excursion
/// apart.
pub open spec fn derived(cp: CodingParameters, vp: VideoParameters, mode: u64) -> bool {
    &&& cp.luma_width == vp.frame_width
    &&& if mode == 1 {
        halves(cp.luma_height, vp.frame_height)
    } else {
        cp.luma_height == vp.frame_height
    }
    &&& match vp.color_diff_format {
        ColorDiffFormat::Yuv444 => cp.color_diff_width == cp.luma_width && cp.color_diff_height
            == cp.luma_height,
        ColorDiffFormat::Yuv422 => halves(cp.color_diff_width, cp.luma_width)
            && cp.color_diff_height == cp.luma_height,
        ColorDiffFormat::Yuv420 => halves(cp.color_diff_width, cp.luma_width) && halves(
            cp.color_diff_height,
            cp.luma_height,
        ),
    }
    &&& writing::tells_apart(cp.luma_depth as nat, vp.luma_excursion + 1)
    &&& writing::tells_apart(cp.color_diff_depth as nat, vp.color_diff_excursion + 1)
}

/// The coding parameters follow from the source.
pub proof fn law_coding_parameters_follow(vp: VideoParameters, mode: u64)
    requires
        vp.luma_excursion < 0x8000_0000_0000_0000,
        vp.color_diff_excursion < 0x8000_0000_0000_0000,
    ensures
        derived(params::spec_set_coding_parameters(vp, mode), vp, mode),
{
    params::law_intlog2_is_the_ceiling_logarithm(vp.luma_excursion + 1);
    params::law_intlog2_is_the_ceiling_logarithm(vp.color_diff_excursion + 1);
    power2::lemma2_to64_rest();
    assert(vp.luma_excursion + 1 <= power2::pow2(63));
    assert(vp.color_diff_excursion + 1 <= power2::pow2(63));
}

} // verus!
