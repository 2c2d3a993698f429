//! Mapping a VC-2 stream into the MXF generic container: the identifying labels
//! (essence container and compression labels, picture-element key, VC-2
//! sub-descriptor), the descriptor values that follow from a sequence header,
//! and a scanner that derives the sub-descriptor values from a wrapped stream.
use crate::bitio::{BitReader, Input};
use crate::error::{Error, Result};
use crate::params;
use crate::params::{ColorDiffFormat, SequenceHeader};
use crate::sequence;
use crate::sequence::{DataUnit, FragmentHeader, ParseInfo};
use crate::transform;
use crate::transform::{PictureKind, TransformParameters};
use vstd::prelude::*;

verus! {

/// How VC-2 pictures are wrapped in the container.
#[derive(Debug, Clone, Copy, PartialEq, Eq)]
pub enum Wrapping {
    /// Frame wrapping: each picture element is one edit unit.
    Frame,
    /// Clip wrapping: one picture element holds the whole wrapped stream.
    Clip,
}

/// The key of a picture element; see [`picture_element_key`].
pub open spec fn picture_element_key_bytes(count: u8, wrapping: Wrapping, number: u8) -> Seq<u8> {
    seq![
        0x06u8,
        0x0E,
        0x2B,
        0x34,
        0x01,
        0x02,
        0x01,
        0x01,
        0x0D,
        0x01,
        0x03,
        0x01,
        0x15,
        count,
        match wrapping {
            Wrapping::Frame => 0x10u8,
            Wrapping::Clip => 0x11u8,
        },
        number,
    ]
}

/// The key of a picture element. Byte 14 is the number of picture elements in
/// the picture item, byte 15 tells the wrapping (`10h` by frames, `11h` by
/// clips), and byte 16 is the number of this element.
pub fn picture_element_key(element_count: u8, wrapping: Wrapping, element_number: u8) -> (key:
    [u8; 16])
    ensures
        key@ == picture_element_key_bytes(element_count, wrapping, element_number),
{
    let wrap: u8 = match wrapping {
        Wrapping::Frame => 0x10,
        Wrapping::Clip => 0x11,
    };
    let key: [u8; 16] = [
        0x06,
        0x0E,
        0x2B,
        0x34,
        0x01,
        0x02,
        0x01,
        0x01,
        0x0D,
        0x01,
        0x03,
        0x01,
        0x15,
        element_count,
        wrap,
        element_number,
    ];
    assert(key@ =~= picture_element_key_bytes(element_count, wrapping, element_number));
    key
}

/// The essence container label; see [`essence_container_label`].
pub open spec fn essence_container_label_bytes(wrapping: Wrapping) -> Seq<u8> {
    seq![
        0x06u8,
        0x0E,
        0x2B,
        0x34,
        0x04,
        0x01,
        0x01,
        0x0D,
        0x0D,
        0x01,
        0x03,
        0x01,
        0x02,
        0x15,
        match wrapping {
            Wrapping::Frame => 0x01u8,
            Wrapping::Clip => 0x02u8,
        },
        0x00,
    ]
}

/// The label of the VC-2 essence container. Byte 15 tells the wrapping (`01h` by
/// frames, `02h` by clips).
pub fn essence_container_label(wrapping: Wrapping) -> (label: [u8; 16])
    ensures
        label@ == essence_container_label_bytes(wrapping),
{
    let wrap: u8 = match wrapping {
        Wrapping::Frame => 0x01,
        Wrapping::Clip => 0x02,
    };
    let label: [u8; 16] = [
        0x06,
        0x0E,
        0x2B,
        0x34,
        0x04,
        0x01,
        0x01,
        0x0D,
        0x0D,
        0x01,
        0x03,
        0x01,
        0x02,
        0x15,
        wrap,
        0x00,
    ];
    assert(label@ =~= essence_container_label_bytes(wrapping));
    label
}

/// The label that names VC-2 as the picture essence compression.
pub const PICTURE_ESSENCE_COMPRESSION_LABEL: [u8; 16] = [
    0x06,
    0x0E,
    0x2B,
    0x34,
    0x04,
    0x01,
    0x01,
    0x0D,
    0x04,
    0x01,
    0x02,
    0x02,
    0x03,
    0x03,
    0x01,
    0x00,
];

/// The key of the VC-2 sub-descriptor set.
pub const SUB_DESCRIPTOR_KEY: [u8; 16] = [
    0x06,
    0x0E,
    0x2B,
    0x34,
    0x02,
    0x53,
    0x01,
    0x01,
    0x0D,
    0x01,
    0x01,
    0x01,
    0x01,
    0x01,
    0x74,
    0x00,
];

/// The elements of the VC-2 sub-descriptor.
#[derive(Debug, Clone, Copy, PartialEq, Eq)]
pub enum SubDescriptorItem {
    /// UInt8, required.
    MajorVersion,
    /// UInt8, required.
    MinorVersion,
    /// UInt8, required.
    Profile,
    /// UInt8, required.
    Level,
    /// Array of UInt8, optional: the distinct `wavelet_index` values used
    /// anywhere in the wrapped stream, each once.
    WaveletFilters,
    /// Boolean, optional: all sequence headers in the wrapped stream are
    /// byte-for-byte identical.
    SequenceHeadersIdentical,
    /// Boolean, optional: every edit unit is a single complete VC-2 sequence.
    EditUnitsAreCompleteSequences,
}

/// The byte that tells the elements of the sub-descriptor apart.
pub open spec fn item_number(item: SubDescriptorItem) -> u8 {
    match item {
        SubDescriptorItem::MajorVersion => 0x01,
        SubDescriptorItem::MinorVersion => 0x02,
        SubDescriptorItem::Profile => 0x03,
        SubDescriptorItem::Level => 0x04,
        SubDescriptorItem::WaveletFilters => 0x05,
        SubDescriptorItem::SequenceHeadersIdentical => 0x06,
        SubDescriptorItem::EditUnitsAreCompleteSequences => 0x07,
    }
}

/// The label of a sub-descriptor element.
pub fn sub_descriptor_item_ul(item: SubDescriptorItem) -> (label: [u8; 16])
    ensures
        label@ == seq![
            0x06u8,
            0x0E,
            0x2B,
            0x34,
            0x01,
            0x01,
            0x01,
            0x0E,
            0x04,
            0x01,
            0x06,
            0x07,
            item_number(item),
            0x00,
            0x00,
            0x00,
        ],
{
    let nn: u8 = match item {
        SubDescriptorItem::MajorVersion => 0x01,
        SubDescriptorItem::MinorVersion => 0x02,
        SubDescriptorItem::Profile => 0x03,
        SubDescriptorItem::Level => 0x04,
        SubDescriptorItem::WaveletFilters => 0x05,
        SubDescriptorItem::SequenceHeadersIdentical => 0x06,
        SubDescriptorItem::EditUnitsAreCompleteSequences => 0x07,
    };
    [
        0x06,
        0x0E,
        0x2B,
        0x34,
        0x01,
        0x01,
        0x01,
        0x0E,
        0x04,
        0x01,
        0x06,
        0x07,
        nn,
        0x00,
        0x00,
        0x00,
    ]
}

/// How the lines of a frame are laid out.
#[derive(Debug, Clone, Copy, PartialEq, Eq)]
pub enum FrameLayout {
    /// Progressive source coded as frames.
    FullFrame,
    /// Interlaced source coded as frames.
    MixedFields,
    /// Progressive source coded as fields.
    SegmentedFrame,
    /// Interlaced source coded as fields.
    SeparateFields,
}

/// The frame layout of a sequence.
pub open spec fn spec_frame_layout(seq: SequenceHeader) -> FrameLayout {
    let progressive = seq.video_parameters.source_sampling == 0;
    let frames = seq.picture_coding_mode == 0;
    if progressive && frames {
        FrameLayout::FullFrame
    } else if frames {
        FrameLayout::MixedFields
    } else if progressive {
        FrameLayout::SegmentedFrame
    } else {
        FrameLayout::SeparateFields
    }
}

/// The frame layout of a sequence.
pub fn frame_layout(seq: &SequenceHeader) -> (l: FrameLayout)
    ensures
        l == spec_frame_layout(*seq),
{
    match (seq.video_parameters.source_sampling, seq.picture_coding_mode) {
        (0, 0) => FrameLayout::FullFrame,
        (_, 0) => FrameLayout::MixedFields,
        (0, _) => FrameLayout::SegmentedFrame,
        _ => FrameLayout::SeparateFields,
    }
}

/// The stored width and height of a sequence.
pub open spec fn spec_stored_dimensions(seq: SequenceHeader) -> (u64, u64) {
    (
        seq.video_parameters.frame_width,
        if seq.picture_coding_mode == 1 {
            seq.video_parameters.frame_height / 2
        } else {
            seq.video_parameters.frame_height
        },
    )
}

/// Stored width and height: those of the frame, the height halved where the
/// pictures are fields, segmented frames included.
pub fn stored_dimensions(seq: &SequenceHeader) -> (d: (u64, u64))
    ensures
        d == spec_stored_dimensions(*seq),
        d.0 == seq.video_parameters.frame_width,
        d.1 == if seq.picture_coding_mode == 1 {
            seq.video_parameters.frame_height / 2
        } else {
            seq.video_parameters.frame_height
        },
{
    let vp = &seq.video_parameters;
    let height: u64 = if seq.picture_coding_mode == 1 {
        vp.frame_height / 2
    } else {
        vp.frame_height
    };
    (vp.frame_width, height)
}

/// Field dominance: 1 where the top field comes first, else 2.
pub fn field_dominance(seq: &SequenceHeader) -> (d: u8)
    ensures
        d == if seq.video_parameters.top_field_first {
            1u8
        } else {
            2u8
        },
{
    if seq.video_parameters.top_field_first {
        1
    } else {
        2
    }
}

/// Sample rate: the frame rate as a fraction.
pub fn sample_rate(seq: &SequenceHeader) -> (r: (u64, u64))
    ensures
        r.0 == seq.video_parameters.frame_rate_numer,
        r.1 == seq.video_parameters.frame_rate_denom,
{
    (seq.video_parameters.frame_rate_numer, seq.video_parameters.frame_rate_denom)
}

/// Component depth: always the luma depth, even where the colour-difference
/// depth differs.
pub fn component_depth(seq: &SequenceHeader) -> (d: u32)
    ensures
        d == seq.coding_parameters.luma_depth,
{
    seq.coding_parameters.luma_depth
}

/// How many luma samples share a colour-difference sample, across and down.
pub open spec fn spec_subsampling(seq: SequenceHeader) -> (u64, u64) {
    match seq.video_parameters.color_diff_format {
        ColorDiffFormat::Yuv444 => (1, 1),
        ColorDiffFormat::Yuv422 => (2, 1),
        ColorDiffFormat::Yuv420 => (2, 2),
    }
}

/// Horizontal subsampling: 1 for 4:4:4, else 2.
pub fn horizontal_subsampling(seq: &SequenceHeader) -> (n: u64)
    ensures
        n == spec_subsampling(*seq).0,
        n == if seq.video_parameters.color_diff_format == ColorDiffFormat::Yuv444 {
            1u64
        } else {
            2u64
        },
{
    match seq.video_parameters.color_diff_format.index() {
        0 => 1,
        _ => 2,
    }
}

/// Vertical subsampling: 2 for 4:2:0, else 1.
pub fn vertical_subsampling(seq: &SequenceHeader) -> (n: u64)
    ensures
        n == spec_subsampling(*seq).1,
        n == if seq.video_parameters.color_diff_format == ColorDiffFormat::Yuv420 {
            2u64
        } else {
            1u64
        },
{
    match seq.video_parameters.color_diff_format.index() {
        2 => 2,
        _ => 1,
    }
}

/// Black reference level: the luma offset.
pub fn black_ref_level(seq: &SequenceHeader) -> (n: u64)
    ensures
        n == seq.video_parameters.luma_offset,
{
    seq.video_parameters.luma_offset
}

/// White reference level: the luma offset and excursion together.
pub fn white_ref_level(seq: &SequenceHeader) -> (n: u64)
    requires
        seq.video_parameters.luma_offset + seq.video_parameters.luma_excursion <= u64::MAX,
    ensures
        n == seq.video_parameters.luma_offset + seq.video_parameters.luma_excursion,
{
    seq.video_parameters.luma_offset + seq.video_parameters.luma_excursion
}

/// Colour range: one more than the colour-difference excursion.
pub fn color_range(seq: &SequenceHeader) -> (n: u64)
    requires
        seq.video_parameters.color_diff_excursion < u64::MAX,
    ensures
        n == seq.video_parameters.color_diff_excursion + 1,
{
    seq.video_parameters.color_diff_excursion + 1
}

/// The reference levels and the colour range of a header that parsed are
/// always small enough for [`white_ref_level`] and [`color_range`], and black is
/// below white.
pub proof fn law_reference_levels_fit(seq: SequenceHeader)
    requires
        seq.valid(),
    ensures
        seq.video_parameters.luma_offset < seq.video_parameters.luma_offset
            + seq.video_parameters.luma_excursion <= 131070,
        2 <= seq.video_parameters.color_diff_excursion + 1 <= 65536,
{
}

/// The lines that the two fields begin at.
pub open spec fn spec_video_line_map(seq: SequenceHeader) -> Seq<u64> {
    seq![
        1u64,
        if spec_frame_layout(seq) == FrameLayout::FullFrame {
            0u64
        } else {
            (seq.video_parameters.frame_height / 2 + 1) as u64
        },
    ]
}

/// What is stored is what is coded: the planes have the sizes of the pictures, fields
/// where the pictures are fields, and the subsampling is how much smaller the
/// colour-difference planes are. The second field begins where the first one, which
/// begins at line 1, is over; where there are no fields there is no such line.
pub proof fn law_stored_pictures_are_the_coded_ones(seq: SequenceHeader)
    requires
        seq.valid(),
    ensures
        ({
            let cp = seq.coding_parameters;
            let (across, down) = spec_subsampling(seq);
            let map = spec_video_line_map(seq);
            &&& spec_stored_dimensions(seq) == (cp.luma_width, cp.luma_height)
            &&& across * cp.color_diff_width <= cp.luma_width < across * (cp.color_diff_width + 1)
            &&& down * cp.color_diff_height <= cp.luma_height < down * (cp.color_diff_height + 1)
            &&& map.len() == 2 && map[0] == 1
            &&& map[1] == 0 <==> seq.picture_coding_mode == 0
                && seq.video_parameters.source_sampling == 0
            &&& seq.picture_coding_mode == 1 ==> map[1] == map[0] + cp.luma_height
            &&& seq.picture_coding_mode == 0 && map[1] != 0 ==> cp.luma_height - 1 <= 2 * (map[1]
                - map[0]) <= cp.luma_height
        }),
{
    let cp = seq.coding_parameters;
    let (across, down) = spec_subsampling(seq);
    match seq.video_parameters.color_diff_format {
        ColorDiffFormat::Yuv444 => {
            assert(across == 1 && down == 1);
            assert(1 * cp.color_diff_width == cp.luma_width);
        },
        ColorDiffFormat::Yuv422 => {
            assert(across == 2 && down == 1);
        },
        ColorDiffFormat::Yuv420 => {
            assert(across == 2 && down == 2);
        },
    }
}

/// The recommended video line map, where the video signal standard is not
/// known: `{1, 0}` for full frames, else `{1, frame_height / 2 + 1}`.
pub fn recommended_video_line_map(seq: &SequenceHeader) -> (m: [u64; 2])
    ensures
        m@ == spec_video_line_map(*seq),
        m@ == seq![
            1u64,
            if spec_frame_layout(*seq) == FrameLayout::FullFrame {
                0u64
            } else {
                (seq.video_parameters.frame_height / 2 + 1) as u64
            },
        ],
{
    match frame_layout(seq) {
        FrameLayout::FullFrame => [1, 0],
        _ => [1, seq.video_parameters.frame_height / 2 + 1],
    }
}

/// A colour label: its kind, and the two bytes that tell its values apart.
pub open spec fn color_label(kind: u8, values: (u8, u8)) -> Seq<u8> {
    seq![
        0x06u8,
        0x0E,
        0x2B,
        0x34,
        0x04,
        0x01,
        0x01,
        values.0,
        0x04,
        0x01,
        0x01,
        0x01,
        kind,
        values.1,
        0x00,
        0x00,
    ]
}

/// The bytes that tell transfer characteristics apart.
pub open spec fn transfer_characteristic_values(index: u64) -> Option<(u8, u8)> {
    if index == 0 {
        Some((0x0Eu8, 0x09u8))
    } else if index == 1 {
        Some((0x06u8, 0x05u8))
    } else if index == 2 {
        Some((0x06u8, 0x06u8))
    } else if index == 3 {
        Some((0x08u8, 0x07u8))
    } else if index == 4 {
        Some((0x0Du8, 0x0Au8))
    } else if index == 5 {
        Some((0x0Du8, 0x0Bu8))
    } else {
        None
    }
}

/// The bytes that tell coding equations apart.
pub open spec fn coding_equations_values(index: u64) -> Option<(u8, u8)> {
    if index == 0 {
        Some((0x01u8, 0x02u8))
    } else if index == 1 {
        Some((0x01u8, 0x01u8))
    } else if index == 2 {
        Some((0x0Du8, 0x04u8))
    } else if index == 3 {
        Some((0x0Du8, 0x05u8))
    } else if index == 4 {
        Some((0x0Du8, 0x06u8))
    } else {
        None
    }
}

/// The bytes that tell colour primaries apart.
pub open spec fn color_primaries_values(index: u64) -> Option<(u8, u8)> {
    if index == 0 {
        Some((0x06u8, 0x03u8))
    } else if index == 1 {
        Some((0x06u8, 0x01u8))
    } else if index == 2 {
        Some((0x06u8, 0x02u8))
    } else if index == 3 {
        Some((0x0Du8, 0x05u8))
    } else if index == 4 {
        Some((0x0Du8, 0x04u8))
    } else {
        None
    }
}

/// See [`color_label`].
fn make_color_label(kind: u8, b8: u8, b14: u8) -> (label: [u8; 16])
    ensures
        label@ == color_label(kind, (b8, b14)),
{
    [
        0x06,
        0x0E,
        0x2B,
        0x34,
        0x04,
        0x01,
        0x01,
        b8,
        0x04,
        0x01,
        0x01,
        0x01,
        kind,
        b14,
        0x00,
        0x00,
    ]
}

/// The transfer characteristic label for a `transfer_function_index` (0..=5).
pub fn transfer_characteristic_label(transfer_function_index: u64) -> (label: Option<[u8; 16]>)
    ensures
        match transfer_characteristic_values(transfer_function_index) {
            Some(v) => label matches Some(l) && l@ == color_label(0x01, v),
            None => label is None,
        },
{
    let (b8, b14): (u8, u8) = match transfer_function_index {
        0 => (0x0E, 0x09),
        1 => (0x06, 0x05),
        2 => (0x06, 0x06),
        3 => (0x08, 0x07),
        4 => (0x0D, 0x0A),
        5 => (0x0D, 0x0B),
        _ => {
            return None;
        },
    };
    Some(make_color_label(0x01, b8, b14))
}

/// The coding equations label for a `color_matrix_index` (0..=4).
pub fn coding_equations_label(color_matrix_index: u64) -> (label: Option<[u8; 16]>)
    ensures
        match coding_equations_values(color_matrix_index) {
            Some(v) => label matches Some(l) && l@ == color_label(0x02, v),
            None => label is None,
        },
{
    let (b8, b14): (u8, u8) = match color_matrix_index {
        0 => (0x01, 0x02),
        1 => (0x01, 0x01),
        2 => (0x0D, 0x04),
        3 => (0x0D, 0x05),
        4 => (0x0D, 0x06),
        _ => {
            return None;
        },
    };
    Some(make_color_label(0x02, b8, b14))
}

/// The colour primaries label for a `color_primaries_index` (0..=4).
pub fn color_primaries_label(color_primaries_index: u64) -> (label: Option<[u8; 16]>)
    ensures
        match color_primaries_values(color_primaries_index) {
            Some(v) => label matches Some(l) && l@ == color_label(0x03, v),
            None => label is None,
        },
{
    let (b8, b14): (u8, u8) = match color_primaries_index {
        0 => (0x06, 0x03),
        1 => (0x06, 0x01),
        2 => (0x06, 0x02),
        3 => (0x0D, 0x05),
        4 => (0x0D, 0x04),
        _ => {
            return None;
        },
    };
    Some(make_color_label(0x03, b8, b14))
}

/// VC-2 sub-descriptor values derived by scanning a wrapped VC-2 stream.
///
/// Whether the edit units are complete sequences takes the edit unit boundaries,
/// which the stream does not carry; see [`edit_units_are_complete_sequences`].
#[derive(Debug, Clone, PartialEq, Eq)]
pub struct SubDescriptorValues {
    pub major_version: u64,
    pub minor_version: u64,
    pub profile: u64,
    pub level: u64,
    /// Distinct `wavelet_index` values used anywhere in the stream, ascending,
    /// each once.
    pub wavelet_filters: Vec<u8>,
    /// Whether every sequence header in the stream is byte-for-byte identical.
    pub sequence_headers_identical: bool,
}

/// Version, profile and level.
pub type Scalars = (u64, u64, u64, u64);

/// The version, profile and level of a header.
pub open spec fn scalars_of(seq: SequenceHeader) -> Scalars {
    let pp = seq.parse_parameters;
    (pp.major_version, pp.minor_version, pp.profile, pp.level)
}

/// What a scan has found so far.
#[verifier::ext_equal]
pub struct Scan {
    /// The header of the current sequence.
    pub header: Option<SequenceHeader>,
    /// Version, profile and level of the stream.
    pub scalars: Option<Scalars>,
    /// The body of the first sequence header of known length.
    pub first_body: Option<Seq<u8>>,
    /// Whether every body of known length is the same.
    pub identical: bool,
    /// The wavelet filters that were used.
    pub filters: Set<u8>,
}

impl Scan {
    /// In front of the stream.
    pub open spec fn fresh() -> Scan {
        Scan {
            header: None,
            scalars: None,
            first_body: None,
            identical: true,
            filters: Set::empty(),
        }
    }

    /// With the filter of a picture's transform parameters.
    pub open spec fn with_filter_of(self, i: Input, seq: SequenceHeader, kind: PictureKind) -> Result<
        Scan,
    > {
        match transform::spec_transform_parameters(i, seq, kind).1 {
            Ok(t) => Ok(Scan { filters: self.filters.insert(t.wavelet_index as u8), ..self }),
            Err(e) => Err(e),
        }
    }

    /// With the body of a sequence header.
    pub open spec fn with_body(self, body: Seq<u8>) -> Scan {
        match self.first_body {
            None => Scan { first_body: Some(body), ..self },
            Some(first) => Scan { identical: self.identical && first == body, ..self },
        }
    }

    /// With a sequence header, which may not vary version, profile or level.
    pub open spec fn with_header(self, seq: SequenceHeader) -> Result<Scan> {
        if self.scalars is Some && self.scalars != Some(scalars_of(seq)) {
            Err(
                Error::InvalidValue(
                    "wrapped stream varies version/profile/level across sequence headers",
                ),
            )
        } else {
            Ok(Scan { header: Some(seq), scalars: Some(scalars_of(seq)), ..self })
        }
    }
}

/// The body of the data unit at the start of `data`, as far as there is one.
pub open spec fn body_of(data: Seq<u8>, next_parse_offset: u32) -> Seq<u8> {
    data.subrange(
        13,
        if next_parse_offset <= data.len() {
            next_parse_offset as int
        } else {
            data.len() as int
        },
    )
}

/// The data unit at the start of `data`.
#[verifier::opaque]
pub open spec fn scan_unit(s: Scan, data: Seq<u8>) -> Result<(Scan, ParseInfo)> {
    match sequence::spec_parse_info(Input::start(data)) {
        (_, Err(e)) => Err(e),
        (i, Ok(pi)) => {
            let after = match sequence::spec_classify(pi.parse_code) {
                DataUnit::SequenceHeader => match params::spec_sequence_header(i).1 {
                    Err(e) => Err(e),
                    Ok(seq) => match s.with_header(seq) {
                        Err(e) => Err(e),
                        Ok(s1) => Ok(
                            if pi.next_parse_offset >= 13 {
                                s1.with_body(body_of(data, pi.next_parse_offset))
                            } else {
                                s1
                            },
                        ),
                    },
                },
                DataUnit::EndOfSequence => Ok(Scan { header: None, ..s }),
                DataUnit::Picture(kind) => match s.header {
                    None => Err(Error::MissingSequenceHeader),
                    Some(seq) => s.with_filter_of(
                        i.aligned().uint_lit(4).0.aligned(),
                        seq,
                        kind,
                    ),
                },
                DataUnit::Fragment(kind) => match s.header {
                    None => Err(Error::MissingSequenceHeader),
                    Some(seq) => match sequence::spec_fragment_header(i) {
                        (_, Err(e)) => Err(e),
                        (i1, Ok(fh)) => if fh.fragment_slice_count == 0 {
                            s.with_filter_of(i1, seq, kind)
                        } else {
                            Ok(s)
                        },
                    },
                },
                _ => Ok(s),
            };
            match after {
                Ok(s1) => Ok((s1, pi)),
                Err(e) => Err(e),
            }
        },
    }
}

/// The data units in `data`, as far as they can be told apart.
pub open spec fn scan(s: Scan, data: Seq<u8>) -> Result<Scan>
    decreases data.len(),
{
    if data.len() == 0 {
        Ok(s)
    } else {
        match scan_unit(s, data) {
            Err(e) => Err(e),
            Ok((s1, pi)) => match sequence::distance(pi) {
                Some(d) => if 0 < d < data.len() {
                    scan(s1, data.skip(d))
                } else {
                    Ok(s1)
                },
                None => Ok(s1),
            },
        }
    }
}

/// Whether values ascend, each coming once.
pub open spec fn ascending(v: Seq<u8>) -> bool {
    forall|j: int, k: int| 0 <= j < k < v.len() ==> v[j] < v[k]
}

/// Whether two byte strings are the same.
fn same_bytes(a: &[u8], b: &[u8]) -> (r: bool)
    ensures
        r == (a@ == b@),
{
    if a.len() != b.len() {
        return false;
    }
    let mut k: usize = 0;
    while k < a.len()
        invariant
            k <= a.len(),
            a.len() == b.len(),
            forall|j: int| 0 <= j < k ==> a@[j] == b@[j],
        decreases a.len() - k,
    {
        if a[k] != b[k] {
            assert(a@[k as int] != b@[k as int]);
            return false;
        }
        k = k + 1;
    }
    assert(a@ =~= b@);
    true
}

/// Puts a value where it belongs, unless it is there.
fn insert_sorted(v: &mut Vec<u8>, x: u8)
    requires
        ascending(old(v)@),
    ensures
        ascending(final(v)@),
        final(v)@.to_set() == old(v)@.to_set().insert(x),
{
    let mut at: usize = 0;
    while at < v.len() && v[at] < x
        invariant
            at <= v.len(),
            v@ == old(v)@,
            ascending(v@),
            forall|j: int| 0 <= j < at ==> v@[j] < x,
        decreases v.len() - at,
    {
        at = at + 1;
    }
    let ghost before = v@;
    if at < v.len() && v[at] == x {
        assert(before.contains(x)) by {
            assert(before[at as int] == x);
        }
        assert(before.to_set() =~= before.to_set().insert(x));
        return ;
    }
    v.insert(at, x);
    proof {
        let now = v@;
        assert forall|y: u8| #![auto] now.contains(y) <==> before.contains(y) || y == x by {
            if before.contains(y) {
                let k = choose|k: int| 0 <= k < before.len() && before[k] == y;
                if k < at {
                    assert(now[k] == y);
                } else {
                    assert(now[k + 1] == y);
                }
            }
            if now.contains(y) && y != x {
                let k = choose|k: int| 0 <= k < now.len() && now[k] == y;
                if k < at {
                    assert(before[k] == y);
                } else {
                    assert(before[k - 1] == y);
                }
            }
            assert(now[at as int] == x);
        }
        assert(now.to_set() =~= before.to_set().insert(x));
    }
}

/// [`Scan`] at run time.
struct Scanner<'a> {
    header: Option<SequenceHeader>,
    scalars: Option<Scalars>,
    first_body: Option<&'a [u8]>,
    identical: bool,
    filters: Vec<u8>,
}

impl<'a> View for Scanner<'a> {
    type V = Scan;

    closed spec fn view(&self) -> Scan {
        Scan {
            header: self.header,
            scalars: self.scalars,
            first_body: match self.first_body {
                Some(b) => Some(b@),
                None => None,
            },
            identical: self.identical,
            filters: self.filters@.to_set(),
        }
    }
}

impl<'a> Scanner<'a> {
    /// The current header is valid, and the filters are in order.
    spec fn wf(self) -> bool {
        &&& self.header matches Some(h) ==> h.valid()
        &&& ascending(self.filters@)
    }

    /// See [`Scan::with_filter_of`].
    fn record(&mut self, r: &mut BitReader, seq: &SequenceHeader, kind: PictureKind) -> (res:
        Result<()>)
        requires
            old(self).wf(),
            old(r)@.wf(),
            seq.valid(),
        ensures
            match old(self)@.with_filter_of(old(r)@, *seq, kind) {
                Ok(s) => res is Ok && final(self)@ == s && final(self).wf(),
                Err(e) => res == Err::<(), Error>(e),
            },
    {
        let ghost i = r@;
        let tp: TransformParameters = transform::transform_parameters(r, seq, kind)?;
        proof {
            transform::law_transform_parameters_read_soundly(i, i, *seq, kind);
        }
        insert_sorted(&mut self.filters, tp.wavelet_index as u8);
        Ok(())
    }

    /// See [`Scan::with_header`].
    fn take_header(&mut self, seq: SequenceHeader) -> (res: Result<()>)
        requires
            old(self).wf(),
            seq.valid(),
        ensures
            match old(self)@.with_header(seq) {
                Ok(s) => res is Ok && final(self)@ == s && final(self).wf(),
                Err(e) => res == Err::<(), Error>(e),
            },
    {
        let pp = &seq.parse_parameters;
        let varies: bool = match &self.scalars {
            Some(prev) => prev.0 != pp.major_version || prev.1 != pp.minor_version || prev.2
                != pp.profile || prev.3 != pp.level,
            None => false,
        };
        if varies {
            return Err(
                Error::InvalidValue(
                    "wrapped stream varies version/profile/level across sequence headers",
                ),
            );
        }
        self.scalars = Some((pp.major_version, pp.minor_version, pp.profile, pp.level));
        self.header = Some(seq);
        Ok(())
    }

    /// See [`Scan::with_body`].
    fn take_body(&mut self, body: &'a [u8])
        requires
            old(self).wf(),
        ensures
            final(self)@ == old(self)@.with_body(body@),
            final(self).wf(),
    {
        match self.first_body {
            None => {
                self.first_body = Some(body);
            },
            Some(first) => if !same_bytes(first, body) {
                self.identical = false;
            },
        }
    }

    /// See [`scan_unit`].
    fn unit(&mut self, data: &'a [u8]) -> (res: Result<ParseInfo>)
        requires
            old(self).wf(),
        ensures
            match scan_unit(old(self)@, data@) {
                Ok((s, pi)) => {
                    &&& res == Ok::<ParseInfo, Error>(pi)
                    &&& final(self)@ == s
                    &&& final(self).wf()
                },
                Err(e) => res == Err::<ParseInfo, Error>(e),
            },
    {
        proof {
            reveal(scan_unit);
        }
        let mut r = BitReader::new(data);
        let ghost start = r@;
        let pi: ParseInfo = sequence::parse_info(&mut r)?;
        let ghost i = r@;
        proof {
            sequence::law_parse_info_reads_soundly(start, start);
        }
        match sequence::classify(pi.parse_code) {
            DataUnit::SequenceHeader => {
                let seq: SequenceHeader = params::sequence_header(&mut r)?;
                proof {
                    params::law_sequence_header_reads_soundly(i, i);
                }
                self.take_header(seq)?;
                if pi.next_parse_offset >= 13 {
                    let end: usize = if pi.next_parse_offset as u64 <= data.len() as u64 {
                        pi.next_parse_offset as usize
                    } else {
                        data.len()
                    };
                    let body: &'a [u8] = &data[13..end];
                    assert(body@ =~= body_of(data@, pi.next_parse_offset));
                    self.take_body(body);
                }
            },
            DataUnit::EndOfSequence => {
                self.header = None;
            },
            DataUnit::Picture(kind) => match self.header {
                None => {
                    return Err(Error::MissingSequenceHeader);
                },
                Some(seq) => {
                    r.byte_align();
                    let _picture_number: u64 = r.read_uint_lit(4);
                    r.byte_align();
                    self.record(&mut r, &seq, kind)?;
                },
            },
            DataUnit::Fragment(kind) => match self.header {
                None => {
                    return Err(Error::MissingSequenceHeader);
                },
                Some(seq) => {
                    let fh: FragmentHeader = sequence::fragment_header(&mut r)?;
                    if fh.fragment_slice_count == 0 {
                        proof {
                            sequence::law_fragment_header_reads_soundly(i, i);
                        }
                        self.record(&mut r, &seq, kind)?;
                    }
                },
            },
            _ => {},
        }
        Ok(pi)
    }
}

/// What a scan of a stream amounts to.
pub open spec fn describes(s: Scan, v: SubDescriptorValues) -> bool {
    &&& s.scalars == Some((v.major_version, v.minor_version, v.profile, v.level))
    &&& ascending(v.wavelet_filters@)
    &&& v.wavelet_filters@.to_set() == s.filters
    &&& v.sequence_headers_identical == s.identical
}

/// Scans a wrapped VC-2 stream (a concatenation of edit units, which is itself a
/// VC-2 stream) and derives the sub-descriptor values.
///
/// A single sub-descriptor describes the whole stream, so a stream whose
/// sequence headers disagree on version, profile or level is rejected. The
/// transform parameters of every picture and setup fragment are visited, and
/// coefficients are skipped by means of `next_parse_offset`. The scan stops at a
/// data unit with no offset other than an end of sequence, and judges the stream
/// on what came before.
pub fn sub_descriptor_values(data: &[u8]) -> (res: Result<SubDescriptorValues>)
    ensures
        match scan(Scan::fresh(), data@) {
            Err(e) => res == Err::<SubDescriptorValues, Error>(e),
            Ok(s) => if s.scalars is Some {
                res matches Ok(v) && describes(s, v)
            } else {
                res == Err::<SubDescriptorValues, Error>(Error::MissingSequenceHeader)
            },
        },
{
    let mut scanner = Scanner {
        header: None,
        scalars: None,
        first_body: None,
        identical: true,
        filters: Vec::new(),
    };
    let mut pos: usize = 0;
    let mut more: bool = data.len() > 0;
    proof {
        assert(data@.skip(0) =~= data@);
        assert(scanner.filters@.to_set() =~= Set::<u8>::empty());
        assert(scanner@ =~= Scan::fresh());
    }
    while more
        invariant
            pos <= data.len(),
            more ==> pos < data.len(),
            scanner.wf(),
            scan(Scan::fresh(), data@) == if more {
                scan(scanner@, data@.skip(pos as int))
            } else {
                Ok(scanner@)
            },
        decreases data.len() - pos, more as int,
    {
        let rest: &[u8] = &data[pos..data.len()];
        let ghost here = data@.skip(pos as int);
        assert(rest@ =~= here);
        let pi: ParseInfo = scanner.unit(rest)?;
        match sequence::next_unit(&pi) {
            Some(next) => {
                if (next as u64) < (data.len() - pos) as u64 {
                    assert(here.skip(next as int) =~= data@.skip(pos + next));
                    pos = pos + next as usize;
                } else {
                    more = false;
                }
            },
            None => {
                more = false;
            },
        }
    }
    match scanner.scalars {
        None => Err(Error::MissingSequenceHeader),
        Some((major_version, minor_version, profile, level)) => Ok(
            SubDescriptorValues {
                major_version,
                minor_version,
                profile,
                level,
                wavelet_filters: scanner.filters,
                sequence_headers_identical: scanner.identical,
            },
        ),
    }
}

/// Whether `data` are intact data units, of known lengths, up to an end of
/// sequence that comes last; and whether the first is a sequence header, where
/// `first` asks for it.
pub open spec fn complete_from(data: Seq<u8>, first: bool) -> bool
    decreases data.len(),
{
    match sequence::spec_parse_info(Input::start(data)).1 {
        Err(_) => false,
        Ok(pi) => {
            let unit = sequence::spec_classify(pi.parse_code);
            if first && unit != DataUnit::SequenceHeader {
                false
            } else if unit == DataUnit::EndOfSequence {
                data.len() == 13
            } else if 13 <= pi.next_parse_offset < data.len() {
                complete_from(data.skip(pi.next_parse_offset as int), false)
            } else {
                false
            }
        },
    }
}

/// A complete edit unit ends with an end of sequence, in its last 13 bytes.
pub proof fn law_complete_units_end_their_sequence(data: Seq<u8>, first: bool)
    requires
        complete_from(data, first),
    ensures
        data.len() >= 13,
        sequence::spec_parse_info(Input::start(data.skip(data.len() - 13))).1 matches Ok(pi)
            && sequence::spec_classify(pi.parse_code) == DataUnit::EndOfSequence,
    decreases data.len(),
{
    let pi = sequence::spec_parse_info(Input::start(data)).1->Ok_0;
    if sequence::spec_classify(pi.parse_code) == DataUnit::EndOfSequence {
        assert(data.skip(0) =~= data);
    } else {
        let d = pi.next_parse_offset as int;
        let rest = data.skip(d);
        law_complete_units_end_their_sequence(rest, false);
        assert(rest.skip(rest.len() - 13) =~= data.skip(data.len() - 13));
    }
}

/// A complete edit unit stops being complete when it is extended or cut, by
/// however little.
pub proof fn law_complete_units_are_exact(data: Seq<u8>, more: Seq<u8>, k: int, first: bool)
    requires
        complete_from(data, first),
        more.len() > 0,
        0 <= k < data.len(),
    ensures
        !complete_from(data + more, first),
        !complete_from(data.take(k), first),
{
    lemma_not_extensible(data, more, first);
    if complete_from(data.take(k), first) {
        lemma_not_extensible(data.take(k), data.skip(k), first);
        assert(data.take(k) + data.skip(k) =~= data);
    }
}

proof fn lemma_not_extensible(data: Seq<u8>, more: Seq<u8>, first: bool)
    requires
        complete_from(data, first),
        more.len() > 0,
    ensures
        !complete_from(data + more, first),
    decreases data.len(),
{
    let (a, b) = (Input::start(data), Input::start(data + more));
    assert forall|j: int| 0 <= j < a.rest.len() implies a.rest[j] == b.rest[j] by {}
    sequence::law_parse_info_reads_soundly(a, b);
    let pi = sequence::spec_parse_info(a).1->Ok_0;
    let d = pi.next_parse_offset as int;
    if sequence::spec_classify(pi.parse_code) != DataUnit::EndOfSequence {
        lemma_not_extensible(data.skip(d), more, false);
        assert((data + more).skip(d) =~= data.skip(d) + more);
    }
}

/// Structural check that one edit unit is a single complete VC-2 sequence.
///
/// Pictures are not decoded. The unit has to open with a sequence header, every
/// parse-info header has to be intact, exactly one end of sequence may appear,
/// and it has to be the last 13 bytes. A unit with a data unit that cannot be
/// skipped cannot be verified and reports `false`.
pub fn edit_unit_is_complete_sequence(unit: &[u8]) -> (b: bool)
    ensures
        b == complete_from(unit@, true),
{
    let mut pos: usize = 0;
    let mut first: bool = true;
    assert(unit@.skip(0) =~= unit@);
    loop
        invariant
            pos <= unit.len(),
            complete_from(unit@, true) == complete_from(unit@.skip(pos as int), first),
        decreases unit.len() - pos,
    {
        let rest: &[u8] = &unit[pos..unit.len()];
        let ghost here = unit@.skip(pos as int);
        assert(rest@ =~= here);
        let mut r = BitReader::new(rest);
        let pi: ParseInfo = match sequence::parse_info(&mut r) {
            Ok(pi) => pi,
            Err(_) => {
                return false;
            },
        };
        let kind: DataUnit = sequence::classify(pi.parse_code);
        if first && kind != DataUnit::SequenceHeader {
            return false;
        }
        first = false;
        if kind == DataUnit::EndOfSequence {
            return rest.len() == 13;
        }
        if pi.next_parse_offset < 13 || pi.next_parse_offset as u64 >= rest.len() as u64 {
            return false;
        }
        assert(here.skip(pi.next_parse_offset as int) =~= unit@.skip(pos + pi.next_parse_offset));
        pos = pos + pi.next_parse_offset as usize;
    }
}

/// Whether every edit unit of a wrapped stream is a single complete VC-2
/// sequence. With no edit unit there is nothing to assert completeness of, and
/// the answer is `false`.
pub fn edit_units_are_complete_sequences(units: &[&[u8]]) -> (b: bool)
    ensures
        b == (units.len() > 0 && forall|k: int|
            0 <= k < units.len() ==> complete_from((#[trigger] units@[k])@, true)),
{
    let mut k: usize = 0;
    while k < units.len()
        invariant
            k <= units.len(),
            forall|j: int| 0 <= j < k ==> complete_from((#[trigger] units@[j])@, true),
        decreases units.len() - k,
    {
        if !edit_unit_is_complete_sequence(units[k]) {
            assert(!complete_from(units@[k as int]@, true));
            return false;
        }
        k = k + 1;
    }
    units.len() > 0
}

/// Labels tell things apart: those of two colour values of one kind, of two kinds, of
/// two wrappings, and of two elements are different, and all belong to one registry.
pub proof fn law_labels_tell_things_apart(a: u64, b: u64, v: Wrapping, w: Wrapping, n: u8, m: u8)
    ensures
        a != b && transfer_characteristic_values(a) is Some ==> transfer_characteristic_values(a)
            != transfer_characteristic_values(b),
        a != b && coding_equations_values(a) is Some ==> coding_equations_values(a)
            != coding_equations_values(b),
        a != b && color_primaries_values(a) is Some ==> color_primaries_values(a)
            != color_primaries_values(b),
        transfer_characteristic_values(a) is Some <==> a <= 5,
        coding_equations_values(a) is Some <==> a <= 4,
        color_primaries_values(a) is Some <==> a <= 4,
        essence_container_label_bytes(v) == essence_container_label_bytes(w) ==> v == w,
        picture_element_key_bytes(n, v, m).len() == 16,
        essence_container_label_bytes(v).len() == 16,
        picture_element_key_bytes(n, v, m).take(4) == essence_container_label_bytes(w).take(4),
        picture_element_key_bytes(n, v, m)[13] == n && picture_element_key_bytes(n, v, m)[15] == m,
        picture_element_key_bytes(n, v, m) == picture_element_key_bytes(n, w, m) ==> v == w,
        forall|x: SubDescriptorItem, y: SubDescriptorItem|
            #[trigger] item_number(x) == #[trigger] item_number(y) ==> x == y,
{
    assert(essence_container_label_bytes(v)[14] == if v == Wrapping::Frame {
        1u8
    } else {
        2u8
    });
    assert(essence_container_label_bytes(w)[14] == if w == Wrapping::Frame {
        1u8
    } else {
        2u8
    });
    assert(picture_element_key_bytes(n, v, m)[14] == if v == Wrapping::Frame {
        0x10u8
    } else {
        0x11u8
    });
    assert(picture_element_key_bytes(n, w, m)[14] == if w == Wrapping::Frame {
        0x10u8
    } else {
        0x11u8
    });
    assert(picture_element_key_bytes(n, v, m).take(4) =~= essence_container_label_bytes(w).take(4));
}

} // verus!
