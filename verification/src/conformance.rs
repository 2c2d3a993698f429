//! Profile and level conformance checking.
//!
//! The decode path stays permissive: a stream whose profile or level signalling
//! is wrong may still decode fine. So these checks are opt-in:
//! [`check_sequence_header`] and [`check_transform_parameters`] grade parsed
//! structures, and [`check_stream`] walks a whole stream, skipping the
//! coefficients, and collects every [`Violation`].
//!
//! Levels 0..=63 are generalized: level 0 conforms to no other level and carries
//! no constraints, levels 1..=7 are defined, and the rest are reserved. Values
//! of 64 and above name specialized application levels with rules of their own,
//! so nothing can be checked here and they are reported violation-free.
use crate::bitio::{BitReader, Input};
use crate::error::{Error, Result};
use crate::params;
use crate::params::SequenceHeader;
use crate::picture;
use crate::quant::MatrixLevel;
use crate::sequence;
use crate::sequence::{DataUnit, FragmentHeader, ParseInfo};
use crate::text;
use crate::transform;
use crate::transform::{PictureKind, Transform, TransformParameters};
use vstd::arithmetic::power2;
use vstd::prelude::*;

verus! {

/// A profile or level conformance violation. [`Violation::message`] spells out
/// the rule that it breaks.
#[derive(Debug, Clone, PartialEq, Eq)]
pub enum Violation {
    /// The profile value is not defined (0 = low delay, 3 = high quality).
    /// Values 1 and 2 name earlier profiles and are tolerated only below major
    /// version 3; everything else is reserved.
    ReservedProfile { profile: u64, major_version: u64 },
    /// A data unit whose parse code the signalled profile does not list.
    ProfileParseCode { profile: u64, parse_code: u8 },
    /// Generalized level values 8..=63 are reserved.
    ReservedLevel { level: u64 },
    /// The base video format is outside the set the claimed level covers.
    LevelBaseFormat { level: u64, base_video_format: u64 },
    /// A custom flag that must be false for levels 1..=7 was set, outside its
    /// exception where it has one.
    CustomFlagForbidden { level: u64, flag: &'static str },
    /// A frame size for base format 7 outside 720 x 480..=486.
    DimensionsOutsideFormat7Envelope { width: u64, height: u64 },
    /// A scan-format override that is not the progressive relabelling permitted
    /// for base formats 7, 8, 11, 12 and 22.
    ScanFormatOverrideOutsideCarveOut { base_video_format: u64 },
    /// A frame-rate override that is not the level 4 exception, base format 15
    /// at 48 frames per second.
    FrameRateOverrideOutsideLevel4Exception { level: u64 },
    /// `picture_coding_mode` does not correspond to the signalled source
    /// sampling: progressive as frames, interlaced as fields.
    PictureCodingModeMismatch { source_sampling: u64, picture_coding_mode: u64 },
    /// `wavelet_index` above 4.
    WaveletIndexAboveLevelBound { wavelet_index: u64 },
    /// `dwt_depth` above 4.
    TransformDepthAboveLevelBound { dwt_depth: u64 },
    /// An asymmetric-transform flag set in a major-version-3 sequence.
    AsymmetricTransformSignalled,
    /// The slices do not all have the same number of DC coefficients, for some
    /// component.
    UnevenDcCoefficientsPerSlice { slices_x: u64, slices_y: u64 },
    /// A quantization-matrix value outside 0..=127.
    QuantMatrixValueOutOfRange { value: i64 },
    /// The sequence mixes picture data units and picture fragment data units.
    MixedPictureAndFragmentUnits { level: u64 },
    /// Picture numbers within a sequence increment by one for each successive
    /// picture, wrapping past 2^32 - 1 back to zero.
    PictureNumberDiscontinuity { expected: u32, found: u32 },
    /// With field coding the earliest field of each frame has an even picture
    /// number, so a field-coded sequence must not open on an odd one.
    FirstFieldOddPictureNumber { picture_number: u32 },
}

/// The text that spells out a violation.
pub open spec fn violation_text(v: Violation) -> Seq<char> {
    match v {
        Violation::ReservedProfile { profile, major_version } => "profile "@ + text::decimal(
            profile as nat,
        )
            + " is not defined by this version (Annex C.2.1 defines 0 = low delay and 3 = high quality; 1 and 2 are earlier-version profiles, not permitted at major version "@
            + text::decimal(major_version as nat) + ")"@,
        Violation::ProfileParseCode { profile, parse_code } => "parse code 0x"@ + text::hex_byte(
            parse_code,
            true,
        ) + " is not permitted in a profile-"@ + text::decimal(profile as nat)
            + " sequence (ST 2042-1 Tables C.1/C.2)"@,
        Violation::ReservedLevel { level } => "generalized level "@ + text::decimal(level as nat)
            + " is reserved (ST 2042-2 clause 4)"@,
        Violation::LevelBaseFormat { level, base_video_format } => "base video format "@
            + text::decimal(base_video_format as nat) + " is outside level "@ + text::decimal(
            level as nat,
        ) + "'s coverage (ST 2042-2 clause 5.2.2)"@,
        Violation::CustomFlagForbidden { level, flag } => flag@ + " must be False for level "@
            + text::decimal(level as nat) + " (ST 2042-2 clause 5.3)"@,
        Violation::DimensionsOutsideFormat7Envelope { width, height } =>
            "base-format-7 dimension override "@ + text::decimal(width as nat) + "x"@
            + text::decimal(height as nat)
            + " is outside the permitted 720 x 480..=486 envelope (ST 2042-2 clause 5.3)"@,
        Violation::ScanFormatOverrideOutsideCarveOut { base_video_format } =>
            "scan-format override on base format "@ + text::decimal(base_video_format as nat)
            + " is not the progressive relabelling permitted for formats 7/8/11/12/22 (ST 2042-2 clause 5.3)"@,
        Violation::FrameRateOverrideOutsideLevel4Exception { level } =>
            "frame-rate override at level "@ + text::decimal(level as nat)
            + " is not the Level 4 exception (base format 15 at 48 fps; ST 2042-2 clauses 5.2.2/5.3)"@,
        Violation::PictureCodingModeMismatch { source_sampling, picture_coding_mode } =>
            "picture_coding_mode "@ + text::decimal(picture_coding_mode as nat)
            + " does not correspond to source_sampling "@ + text::decimal(source_sampling as nat)
            + " (ST 2042-2 clause 5.3)"@,
        Violation::WaveletIndexAboveLevelBound { wavelet_index } => "wavelet_index "@
            + text::decimal(wavelet_index as nat)
            + " exceeds the level bound of 4 (ST 2042-2 clause 5.4)"@,
        Violation::TransformDepthAboveLevelBound { dwt_depth } => "dwt_depth "@ + text::decimal(
            dwt_depth as nat,
        ) + " exceeds the level bound of 4 (ST 2042-2 clause 5.4)"@,
        Violation::AsymmetricTransformSignalled =>
            "asymmetric-transform flags must be False in major-version-3 sequences at levels 1..=7 (ST 2042-2 clause 5.4)"@,
        Violation::UnevenDcCoefficientsPerSlice { slices_x, slices_y } => "slices_x/slices_y "@
            + text::decimal(slices_x as nat) + "x"@ + text::decimal(slices_y as nat)
            + " give unequal DC-coefficient counts per slice (ST 2042-2 clause 5.4)"@,
        Violation::QuantMatrixValueOutOfRange { value } => "quantization-matrix value "@
            + text::signed_decimal(value as int) + " is outside 0..=127 (ST 2042-2 clause 5.4)"@,
        Violation::MixedPictureAndFragmentUnits { level } => "level-"@ + text::decimal(
            level as nat,
        )
            + " sequence contains both picture and picture-fragment data units (ST 2042-2 clause 5.5)"@,
        Violation::PictureNumberDiscontinuity { expected, found } => "picture number "@
            + text::decimal(found as nat) + " where "@ + text::decimal(expected as nat)
            + " was expected — numbers increment by one within a sequence, wrapping at 2^32 - 1 (ST 2042-1 clause 12.2)"@,
        Violation::FirstFieldOddPictureNumber { picture_number } =>
            "field-coded sequence opens on odd picture number "@ + text::decimal(
            picture_number as nat,
        )
            + " — the earliest field of each frame has an even picture number (ST 2042-1 clauses 11.5/12.2)"@,
    }
}

impl Violation {
    /// The message that spells out this violation.
    pub fn message(&self) -> (s: String)
        ensures
            s@ == violation_text(*self),
    {
        let mut s = String::new();
        match self {
            Violation::ReservedProfile { profile, major_version } => {
                s.append("profile ");
                text::push_decimal(&mut s, *profile);
                s.append(
                    " is not defined by this version (Annex C.2.1 defines 0 = low delay and 3 = high quality; 1 and 2 are earlier-version profiles, not permitted at major version ",
                );
                text::push_decimal(&mut s, *major_version);
                s.append(")");
            },
            Violation::ProfileParseCode { profile, parse_code } => {
                s.append("parse code 0x");
                text::push_hex_byte(&mut s, *parse_code, true);
                s.append(" is not permitted in a profile-");
                text::push_decimal(&mut s, *profile);
                s.append(" sequence (ST 2042-1 Tables C.1/C.2)");
            },
            Violation::ReservedLevel { level } => {
                s.append("generalized level ");
                text::push_decimal(&mut s, *level);
                s.append(" is reserved (ST 2042-2 clause 4)");
            },
            Violation::LevelBaseFormat { level, base_video_format } => {
                s.append("base video format ");
                text::push_decimal(&mut s, *base_video_format);
                s.append(" is outside level ");
                text::push_decimal(&mut s, *level);
                s.append("'s coverage (ST 2042-2 clause 5.2.2)");
            },
            Violation::CustomFlagForbidden { level, flag } => {
                s.append(flag);
                s.append(" must be False for level ");
                text::push_decimal(&mut s, *level);
                s.append(" (ST 2042-2 clause 5.3)");
            },
            Violation::DimensionsOutsideFormat7Envelope { width, height } => {
                s.append("base-format-7 dimension override ");
                text::push_decimal(&mut s, *width);
                s.append("x");
                text::push_decimal(&mut s, *height);
                s.append(
                    " is outside the permitted 720 x 480..=486 envelope (ST 2042-2 clause 5.3)",
                );
            },
            Violation::ScanFormatOverrideOutsideCarveOut { base_video_format } => {
                s.append("scan-format override on base format ");
                text::push_decimal(&mut s, *base_video_format);
                s.append(
                    " is not the progressive relabelling permitted for formats 7/8/11/12/22 (ST 2042-2 clause 5.3)",
                );
            },
            Violation::FrameRateOverrideOutsideLevel4Exception { level } => {
                s.append("frame-rate override at level ");
                text::push_decimal(&mut s, *level);
                s.append(
                    " is not the Level 4 exception (base format 15 at 48 fps; ST 2042-2 clauses 5.2.2/5.3)",
                );
            },
            Violation::PictureCodingModeMismatch { source_sampling, picture_coding_mode } => {
                s.append("picture_coding_mode ");
                text::push_decimal(&mut s, *picture_coding_mode);
                s.append(" does not correspond to source_sampling ");
                text::push_decimal(&mut s, *source_sampling);
                s.append(" (ST 2042-2 clause 5.3)");
            },
            Violation::WaveletIndexAboveLevelBound { wavelet_index } => {
                s.append("wavelet_index ");
                text::push_decimal(&mut s, *wavelet_index);
                s.append(" exceeds the level bound of 4 (ST 2042-2 clause 5.4)");
            },
            Violation::TransformDepthAboveLevelBound { dwt_depth } => {
                s.append("dwt_depth ");
                text::push_decimal(&mut s, *dwt_depth);
                s.append(" exceeds the level bound of 4 (ST 2042-2 clause 5.4)");
            },
            Violation::AsymmetricTransformSignalled => s.append(
                "asymmetric-transform flags must be False in major-version-3 sequences at levels 1..=7 (ST 2042-2 clause 5.4)",
            ),
            Violation::UnevenDcCoefficientsPerSlice { slices_x, slices_y } => {
                s.append("slices_x/slices_y ");
                text::push_decimal(&mut s, *slices_x);
                s.append("x");
                text::push_decimal(&mut s, *slices_y);
                s.append(" give unequal DC-coefficient counts per slice (ST 2042-2 clause 5.4)");
            },
            Violation::QuantMatrixValueOutOfRange { value } => {
                s.append("quantization-matrix value ");
                text::push_signed_decimal(&mut s, *value);
                s.append(" is outside 0..=127 (ST 2042-2 clause 5.4)");
            },
            Violation::MixedPictureAndFragmentUnits { level } => {
                s.append("level-");
                text::push_decimal(&mut s, *level);
                s.append(
                    " sequence contains both picture and picture-fragment data units (ST 2042-2 clause 5.5)",
                );
            },
            Violation::PictureNumberDiscontinuity { expected, found } => {
                s.append("picture number ");
                text::push_decimal(&mut s, *found as u64);
                s.append(" where ");
                text::push_decimal(&mut s, *expected as u64);
                s.append(
                    " was expected — numbers increment by one within a sequence, wrapping at 2^32 - 1 (ST 2042-1 clause 12.2)",
                );
            },
            Violation::FirstFieldOddPictureNumber { picture_number } => {
                s.append("field-coded sequence opens on odd picture number ");
                text::push_decimal(&mut s, *picture_number as u64);
                s.append(
                    " — the earliest field of each frame has an even picture number (ST 2042-1 clauses 11.5/12.2)",
                );
            },
        }
        assert(s@ =~= violation_text(*self));
        s
    }
}

/// The base video formats that a level covers.
pub open spec fn level_formats(level: u64) -> Option<Seq<u64>> {
    if level == 1 {
        Some(seq![1u64, 2, 3, 4, 5, 6])
    } else if level == 2 {
        Some(seq![7u64, 8, 22])
    } else if level == 3 {
        Some(seq![9u64, 10, 11, 12, 13, 14, 21])
    } else if level == 4 {
        Some(seq![15u64])
    } else if level == 5 {
        Some(seq![16u64])
    } else if level == 6 {
        Some(seq![17u64, 18])
    } else if level == 7 {
        Some(seq![19u64, 20])
    } else {
        None
    }
}

/// The base video formats that a generalized level covers. `None` for level
/// values that carry no format set: 0 (no constraints), 8..=63 (reserved) and 64
/// and above (specialized).
pub fn level_base_video_formats(level: u64) -> (r: Option<&'static [u64]>)
    ensures
        r is Some <==> level_formats(level) is Some,
        r matches Some(f) ==> f@ == level_formats(level)->Some_0,
{
    let formats: &'static [u64] = match level {
        1 => &[1, 2, 3, 4, 5, 6],
        2 => &[7, 8, 22],
        3 => &[9, 10, 11, 12, 13, 14, 21],
        4 => &[15],
        5 => &[16],
        6 => &[17, 18],
        7 => &[19, 20],
        _ => {
            return None;
        },
    };
    assert(formats@ =~= level_formats(level)->Some_0);
    Some(formats)
}

/// Whether a profile lists a parse code; `None` where the profile has no list.
pub open spec fn spec_profile_allows(profile: u64, parse_code: u8) -> Option<bool> {
    let shared = parse_code == 0x00 || parse_code == 0x10 || parse_code == 0x20 || parse_code
        == 0x30;
    if profile == 0 {
        Some(shared || parse_code == 0xC8 || parse_code == 0xCC)
    } else if profile == 3 {
        Some(shared || parse_code == 0xE8 || parse_code == 0xEC)
    } else {
        None
    }
}

/// Whether a profile lists a parse code; `None` where the profile has no list.
fn profile_allows(profile: u64, parse_code: u8) -> (r: Option<bool>)
    ensures
        r == spec_profile_allows(profile, parse_code),
{
    let own: bool = match profile {
        0 => parse_code == 0xC8 || parse_code == 0xCC,
        3 => parse_code == 0xE8 || parse_code == 0xEC,
        _ => {
            return None;
        },
    };
    Some(
        own || parse_code == 0x00 || parse_code == 0x10 || parse_code == 0x20 || parse_code == 0x30,
    )
}

/// A violation where `broken`, none otherwise.
pub open spec fn only_if(broken: bool, v: Violation) -> Seq<Violation> {
    if broken {
        seq![v]
    } else {
        seq![]
    }
}

/// A custom flag that is set although the level forbids it.
pub open spec fn forbidden_flag(set: bool, level: u64, flag: &'static str) -> Seq<Violation> {
    only_if(set, Violation::CustomFlagForbidden { level, flag })
}

/// What is wrong with a frame-size override.
pub open spec fn dimension_violations(seq: SequenceHeader, level: u64) -> Seq<Violation> {
    let (w, h) = (seq.video_parameters.frame_width, seq.video_parameters.frame_height);
    if !seq.source_overrides.custom_dimensions_flag {
        seq![]
    } else if seq.base_video_format != 7 {
        forbidden_flag(true, level, "custom_dimensions_flag")
    } else {
        only_if(
            w != 720 || !(480 <= h <= 486),
            Violation::DimensionsOutsideFormat7Envelope { width: w, height: h },
        )
    }
}

/// Whether a base format may be relabelled as progressive.
pub open spec fn may_be_progressive(format: u64) -> bool {
    format == 7 || format == 8 || format == 11 || format == 12 || format == 22
}

/// What the header of a sequence at one of the levels 1..=7 does wrong.
pub open spec fn level_violations(seq: SequenceHeader, level: u64) -> Seq<Violation> {
    let ov = seq.source_overrides;
    let format = seq.base_video_format;
    let sampling = seq.video_parameters.source_sampling;
    only_if(
        !(level_formats(level) matches Some(f) && f.contains(format)),
        Violation::LevelBaseFormat { level, base_video_format: format },
    ) + dimension_violations(seq, level) + forbidden_flag(
        ov.custom_chroma_format_flag,
        level,
        "custom_chroma_format_flag",
    ) + only_if(
        ov.custom_scan_format_flag && !(may_be_progressive(format) && sampling == 0),
        Violation::ScanFormatOverrideOutsideCarveOut { base_video_format: format },
    ) + only_if(
        ov.custom_frame_rate_flag && !(level == 4 && format == 15 && ov.frame_rate_index == Some(
            11u64,
        )),
        Violation::FrameRateOverrideOutsideLevel4Exception { level },
    ) + forbidden_flag(
        ov.custom_pixel_aspect_ratio_flag,
        level,
        "custom_pixel_aspect_ratio_flag",
    ) + forbidden_flag(ov.custom_clean_area_flag, level, "custom_clean_area_flag") + forbidden_flag(
        ov.custom_signal_range_flag,
        level,
        "custom_signal_range_flag",
    ) + forbidden_flag(ov.custom_color_spec_flag, level, "custom_color_spec_flag") + only_if(
        seq.picture_coding_mode != sampling,
        Violation::PictureCodingModeMismatch {
            source_sampling: sampling,
            picture_coding_mode: seq.picture_coding_mode,
        },
    )
}

/// Whether a profile value is defined at a major version.
pub open spec fn profile_defined(profile: u64, major_version: u64) -> bool {
    profile == 0 || profile == 3 || (major_version < 3 && (profile == 1 || profile == 2))
}

/// What a sequence header does wrong.
pub open spec fn header_violations(seq: SequenceHeader) -> Seq<Violation> {
    let profile = seq.parse_parameters.profile;
    let major_version = seq.parse_parameters.major_version;
    let level = seq.parse_parameters.level;
    only_if(
        !profile_defined(profile, major_version),
        Violation::ReservedProfile { profile, major_version },
    ) + if 1 <= level <= 7 {
        level_violations(seq, level)
    } else {
        only_if(8 <= level <= 63, Violation::ReservedLevel { level })
    }
}

/// Grades a parsed sequence header: its profile value, and what its claimed
/// level asks of it.
pub fn check_sequence_header(seq: &SequenceHeader) -> (v: Vec<Violation>)
    ensures
        v@ == header_violations(*seq),
{
    let mut v: Vec<Violation> = Vec::new();
    let profile: u64 = seq.parse_parameters.profile;
    let major_version: u64 = seq.parse_parameters.major_version;
    let defined: bool = match profile {
        0 | 3 => true,
        1 | 2 => major_version < 3,
        _ => false,
    };
    if !defined {
        v.push(Violation::ReservedProfile { profile, major_version });
    }
    let level: u64 = seq.parse_parameters.level;
    if 1 <= level && level <= 7 {
        check_level_header(seq, level, &mut v);
    } else if 8 <= level && level <= 63 {
        v.push(Violation::ReservedLevel { level });
    }
    assert(v@ =~= header_violations(*seq));
    v
}

/// Whether a list of formats holds `format`.
fn lists(formats: &[u64], format: u64) -> (b: bool)
    ensures
        b == formats@.contains(format),
{
    let mut k: usize = 0;
    while k < formats.len()
        invariant
            k <= formats.len(),
            forall|j: int| 0 <= j < k ==> formats@[j] != format,
        decreases formats.len() - k,
    {
        if formats[k] == format {
            assert(formats@[k as int] == format);
            return true;
        }
        k = k + 1;
    }
    false
}

/// Adds a violation where `broken`.
fn report(broken: bool, violation: Violation, v: &mut Vec<Violation>)
    ensures
        final(v)@ == old(v)@ + only_if(broken, violation),
{
    if broken {
        v.push(violation);
    }
    assert(v@ =~= old(v)@ + only_if(broken, violation));
}

/// Adds a violation for a flag that the level forbids.
fn forbid(set: bool, level: u64, flag: &'static str, v: &mut Vec<Violation>)
    ensures
        final(v)@ == old(v)@ + forbidden_flag(set, level, flag),
{
    report(set, Violation::CustomFlagForbidden { level, flag }, v);
}

/// Adds what is wrong with a frame-size override.
fn check_dimensions(seq: &SequenceHeader, level: u64, v: &mut Vec<Violation>)
    ensures
        final(v)@ == old(v)@ + dimension_violations(*seq, level),
{
    let width: u64 = seq.video_parameters.frame_width;
    let height: u64 = seq.video_parameters.frame_height;
    if !seq.source_overrides.custom_dimensions_flag {
        assert(v@ =~= old(v)@ + dimension_violations(*seq, level));
    } else if seq.base_video_format != 7 {
        forbid(true, level, "custom_dimensions_flag", v);
    } else {
        report(
            width != 720 || height < 480 || height > 486,
            Violation::DimensionsOutsideFormat7Envelope { width, height },
            v,
        );
    }
}

/// Adds what a header does wrong at one of the levels 1..=7.
fn check_level_header(seq: &SequenceHeader, level: u64, v: &mut Vec<Violation>)
    requires
        1 <= level <= 7,
    ensures
        final(v)@ == old(v)@ + level_violations(*seq, level),
{
    let format: u64 = seq.base_video_format;
    let ov = &seq.source_overrides;
    let sampling: u64 = seq.video_parameters.source_sampling;
    let covered: bool = match level_base_video_formats(level) {
        Some(formats) => lists(formats, format),
        None => false,
    };
    let relabels: bool = match format {
        7 | 8 | 11 | 12 | 22 => sampling == 0,
        _ => false,
    };
    let excepted: bool = match ov.frame_rate_index {
        Some(index) => level == 4 && format == 15 && index == 11,
        None => false,
    };
    let mut own: Vec<Violation> = Vec::new();
    report(!covered, Violation::LevelBaseFormat { level, base_video_format: format }, &mut own);
    assert(own@ =~= only_if(
        !covered,
        Violation::LevelBaseFormat { level, base_video_format: format },
    ));
    check_dimensions(seq, level, &mut own);
    forbid(ov.custom_chroma_format_flag, level, "custom_chroma_format_flag", &mut own);
    report(
        ov.custom_scan_format_flag && !relabels,
        Violation::ScanFormatOverrideOutsideCarveOut { base_video_format: format },
        &mut own,
    );
    report(
        ov.custom_frame_rate_flag && !excepted,
        Violation::FrameRateOverrideOutsideLevel4Exception { level },
        &mut own,
    );
    forbid(ov.custom_pixel_aspect_ratio_flag, level, "custom_pixel_aspect_ratio_flag", &mut own);
    forbid(ov.custom_clean_area_flag, level, "custom_clean_area_flag", &mut own);
    forbid(ov.custom_signal_range_flag, level, "custom_signal_range_flag", &mut own);
    forbid(ov.custom_color_spec_flag, level, "custom_color_spec_flag", &mut own);
    report(
        seq.picture_coding_mode != sampling,
        Violation::PictureCodingModeMismatch {
            source_sampling: sampling,
            picture_coding_mode: seq.picture_coding_mode,
        },
        &mut own,
    );
    v.append(&mut own);
}

/// Whether the DC band of a component of the given size divides evenly into the
/// slices.
pub open spec fn divides_evenly(w: u64, h: u64, t: Transform) -> bool {
    let dc_w = transform::ceil_div(
        w as int,
        power2::pow2((t.dwt_depth_ho + t.dwt_depth) as nat) as int,
    );
    let dc_h = transform::ceil_div(h as int, power2::pow2(t.dwt_depth as nat) as int);
    dc_w % (t.slices_x as int) == 0 && dc_h % (t.slices_y as int) == 0
}

/// Whether a quantization-matrix value is one that levels 1..=7 forbid.
pub open spec fn outside_matrix_range(v: i64) -> bool {
    !(0 <= v <= 127)
}

/// The first forbidden value of one level of a quantization matrix.
pub open spec fn level_outlier(m: MatrixLevel) -> Option<i64> {
    match m {
        MatrixLevel::Ll(v) => if outside_matrix_range(v) {
            Some(v)
        } else {
            None
        },
        MatrixLevel::H(v) => if outside_matrix_range(v) {
            Some(v)
        } else {
            None
        },
        MatrixLevel::Ac { hl, lh, hh } => if outside_matrix_range(hl) {
            Some(hl)
        } else if outside_matrix_range(lh) {
            Some(lh)
        } else if outside_matrix_range(hh) {
            Some(hh)
        } else {
            None
        },
    }
}

/// The first forbidden value of a quantization matrix from level `from` on.
pub open spec fn matrix_outlier(m: Seq<MatrixLevel>, from: int) -> Option<i64>
    decreases m.len() - from,
{
    if from < 0 || from >= m.len() {
        None
    } else if level_outlier(m[from]) is Some {
        level_outlier(m[from])
    } else {
        matrix_outlier(m, from + 1)
    }
}

/// What the transform parameters of a picture do wrong.
pub open spec fn transform_violations(seq: SequenceHeader, t: Transform) -> Seq<Violation> {
    let level = seq.parse_parameters.level;
    let cp = seq.coding_parameters;
    if !(1 <= level <= 7) {
        seq![]
    } else {
        only_if(
            t.wavelet_index > 4,
            Violation::WaveletIndexAboveLevelBound { wavelet_index: t.wavelet_index },
        ) + only_if(
            t.dwt_depth > 4,
            Violation::TransformDepthAboveLevelBound { dwt_depth: t.dwt_depth },
        ) + only_if(
            seq.parse_parameters.major_version >= 3 && (t.asym_transform_index_flag
                || t.asym_transform_flag),
            Violation::AsymmetricTransformSignalled,
        ) + only_if(
            !divides_evenly(cp.luma_width, cp.luma_height, t) || !divides_evenly(
                cp.color_diff_width,
                cp.color_diff_height,
                t,
            ),
            Violation::UnevenDcCoefficientsPerSlice { slices_x: t.slices_x, slices_y: t.slices_y },
        ) + match matrix_outlier(t.quant_matrix, 0) {
            Some(value) => seq![Violation::QuantMatrixValueOutOfRange { value }],
            None => seq![],
        }
    }
}

/// See [`level_outlier`].
fn find_level_outlier(m: &MatrixLevel) -> (r: Option<i64>)
    ensures
        r == level_outlier(*m),
{
    match m {
        MatrixLevel::Ll(v) | MatrixLevel::H(v) => if *v < 0 || *v > 127 {
            Some(*v)
        } else {
            None
        },
        MatrixLevel::Ac { hl, lh, hh } => if *hl < 0 || *hl > 127 {
            Some(*hl)
        } else if *lh < 0 || *lh > 127 {
            Some(*lh)
        } else if *hh < 0 || *hh > 127 {
            Some(*hh)
        } else {
            None
        },
    }
}

/// See [`divides_evenly`].
fn is_even(w: u64, h: u64, tp: &TransformParameters) -> (b: bool)
    requires
        tp.dwt_depth_ho + tp.dwt_depth < 64,
        tp.slices_x > 0,
        tp.slices_y > 0,
    ensures
        b == divides_evenly(w, h, tp@),
{
    let dc_w: u64 = transform::div_ceil(
        w,
        transform::pow2_u64(tp.dwt_depth_ho + tp.dwt_depth),
    );
    let dc_h: u64 = transform::div_ceil(h, transform::pow2_u64(tp.dwt_depth));
    dc_w % tp.slices_x == 0 && dc_h % tp.slices_y == 0
}

/// Grades the transform parameters of a picture against the claimed level of
/// the sequence. Levels without picture constraints (0, reserved, specialized)
/// grade violation-free.
///
/// Slices split a band into floor-spaced pieces, which are all equal exactly
/// when the number of slices divides the extent of the band.
pub fn check_transform_parameters(seq: &SequenceHeader, tp: &TransformParameters) -> (v: Vec<
    Violation,
>)
    requires
        1 <= seq.parse_parameters.level <= 7 ==> {
            &&& tp.dwt_depth_ho + tp.dwt_depth < 64
            &&& tp.slices_x > 0
            &&& tp.slices_y > 0
        },
    ensures
        v@ == transform_violations(*seq, tp@),
{
    let level: u64 = seq.parse_parameters.level;
    let mut v: Vec<Violation> = Vec::new();
    if level < 1 || level > 7 {
        return v;
    }
    if tp.wavelet_index > 4 {
        v.push(Violation::WaveletIndexAboveLevelBound { wavelet_index: tp.wavelet_index });
    }
    if tp.dwt_depth > 4 {
        v.push(Violation::TransformDepthAboveLevelBound { dwt_depth: tp.dwt_depth });
    }
    if seq.parse_parameters.major_version >= 3 && (tp.asym_transform_index_flag
        || tp.asym_transform_flag) {
        v.push(Violation::AsymmetricTransformSignalled);
    }
    let cp = &seq.coding_parameters;
    if !is_even(cp.luma_width, cp.luma_height, tp) || !is_even(
        cp.color_diff_width,
        cp.color_diff_height,
        tp,
    ) {
        v.push(
            Violation::UnevenDcCoefficientsPerSlice {
                slices_x: tp.slices_x,
                slices_y: tp.slices_y,
            },
        );
    }
    let mut k: usize = 0;
    let mut outlier: Option<i64> = None;
    while k < tp.quant_matrix.len() && outlier.is_none()
        invariant
            k <= tp.quant_matrix.len(),
            matrix_outlier(tp.quant_matrix@, 0) == if outlier is Some {
                outlier
            } else {
                matrix_outlier(tp.quant_matrix@, k as int)
            },
        decreases tp.quant_matrix.len() - k,
    {
        outlier = find_level_outlier(&tp.quant_matrix[k]);
        k = k + 1;
    }
    if let Some(value) = outlier {
        v.push(Violation::QuantMatrixValueOutOfRange { value });
    }
    assert(v@ =~= transform_violations(*seq, tp@));
    v
}

/// What a walk over a stream keeps track of, from one data unit of a sequence to
/// the next.
pub struct Grading {
    /// The header of the sequence.
    pub header: Option<SequenceHeader>,
    pub saw_picture: bool,
    pub saw_fragment: bool,
    /// Whether the mixing of pictures and fragments has been reported.
    pub mixed_flagged: bool,
    /// The number of the next picture.
    pub expected_number: Option<u32>,
}

impl Grading {
    /// In front of a sequence.
    pub open spec fn fresh() -> Grading {
        Grading {
            header: None,
            saw_picture: false,
            saw_fragment: false,
            mixed_flagged: false,
            expected_number: None,
        }
    }
}

/// The picture number that follows `number`.
pub open spec fn successor(number: u32) -> u32 {
    if number == u32::MAX {
        0
    } else {
        (number + 1) as u32
    }
}

/// What is wrong with a picture number: the first of a field-coded sequence is
/// even, and each of the others follows the one before it.
pub open spec fn number_violations(
    seq: SequenceHeader,
    found: u32,
    expected: Option<u32>,
) -> Seq<Violation> {
    match expected {
        None => only_if(
            seq.picture_coding_mode == 1 && found % 2 == 1,
            Violation::FirstFieldOddPictureNumber { picture_number: found },
        ),
        Some(want) => only_if(
            want != found,
            Violation::PictureNumberDiscontinuity { expected: want, found },
        ),
    }
}

/// Adds what is wrong with a picture number. After a discontinuity the numbers
/// are expected to go on from the one that was found.
fn track_picture_number(
    seq: &SequenceHeader,
    found: u32,
    expected: &mut Option<u32>,
    violations: &mut Vec<Violation>,
)
    ensures
        final(violations)@ == old(violations)@ + number_violations(*seq, found, *old(expected)),
        *final(expected) == Some(successor(found)),
{
    match *expected {
        None => report(
            seq.picture_coding_mode == 1 && found % 2 == 1,
            Violation::FirstFieldOddPictureNumber { picture_number: found },
            violations,
        ),
        Some(want) => report(
            want != found,
            Violation::PictureNumberDiscontinuity { expected: want, found },
            violations,
        ),
    }
    *expected = Some(
        if found == u32::MAX {
            0
        } else {
            found + 1
        },
    );
}

/// A picture that opens: its number, and the transform parameters in front of
/// `i`.
pub open spec fn grade_picture(
    g: Grading,
    seq: SequenceHeader,
    number: u32,
    i: Input,
    kind: PictureKind,
) -> Result<(Grading, Seq<Violation>)> {
    match transform::spec_transform_parameters(i, seq, kind).1 {
        Err(e) => Err(e),
        Ok(t) => Ok(
            (
                Grading { expected_number: Some(successor(number)), ..g },
                number_violations(seq, number, g.expected_number) + transform_violations(seq, t),
            ),
        ),
    }
}

/// A data unit, with `i` behind its parse-info header.
pub open spec fn grade_body(g: Grading, i: Input, unit: DataUnit) -> Result<
    (Grading, Seq<Violation>),
> {
    match unit {
        DataUnit::SequenceHeader => match params::spec_sequence_header(i).1 {
            Err(e) => Err(e),
            Ok(h) => Ok((Grading { header: Some(h), ..g }, header_violations(h))),
        },
        DataUnit::EndOfSequence => Ok((Grading::fresh(), seq![])),
        DataUnit::Picture(kind) => match g.header {
            None => Err(Error::MissingSequenceHeader),
            Some(seq) => {
                let (i1, number) = i.aligned().uint_lit(4);
                grade_picture(
                    Grading { saw_picture: true, ..g },
                    seq,
                    number as u32,
                    i1.aligned(),
                    kind,
                )
            },
        },
        DataUnit::Fragment(kind) => match g.header {
            None => Err(Error::MissingSequenceHeader),
            Some(seq) => match sequence::spec_fragment_header(i) {
                (_, Err(e)) => Err(e),
                (i1, Ok(fh)) => if fh.fragment_slice_count == 0 {
                    grade_picture(
                        Grading { saw_fragment: true, ..g },
                        seq,
                        fh.picture_number,
                        i1,
                        kind,
                    )
                } else {
                    Ok((Grading { saw_fragment: true, ..g }, seq![]))
                },
            },
        },
        _ => Ok((g, seq![])),
    }
}

/// What is wrong with the parse code of a data unit, once the sequence header
/// has named the profile.
pub open spec fn code_violations(g: Grading, parse_code: u8) -> Seq<Violation> {
    match g.header {
        Some(seq) => only_if(
            spec_profile_allows(seq.parse_parameters.profile, parse_code) == Some(false),
            Violation::ProfileParseCode { profile: seq.parse_parameters.profile, parse_code },
        ),
        None => seq![],
    }
}

/// Whether the mixing of pictures and fragments is to be reported now.
pub open spec fn mixes(g: Grading) -> bool {
    !g.mixed_flagged && g.saw_picture && g.saw_fragment && (g.header matches Some(seq) && 1
        <= seq.parse_parameters.level <= 7)
}

/// A whole data unit at the start of `data`.
#[verifier::opaque]
pub open spec fn grade_unit(g: Grading, data: Seq<u8>) -> Result<
    (Grading, Seq<Violation>, ParseInfo),
> {
    match sequence::spec_parse_info(Input::start(data)) {
        (_, Err(e)) => Err(e),
        (i, Ok(pi)) => match grade_body(g, i, sequence::spec_classify(pi.parse_code)) {
            Err(e) => Err(e),
            Ok((g1, v)) => Ok(
                (
                    Grading { mixed_flagged: g1.mixed_flagged || mixes(g1), ..g1 },
                    code_violations(g, pi.parse_code) + v + only_if(
                        mixes(g1),
                        Violation::MixedPictureAndFragmentUnits {
                            level: g1.header->Some_0.parse_parameters.level,
                        },
                    ),
                    pi,
                ),
            ),
        },
    }
}

/// Every violation of the data units in `data`, in stream order, as far as the
/// data units can be told apart.
pub open spec fn stream_violations(g: Grading, data: Seq<u8>) -> Result<Seq<Violation>>
    decreases data.len(),
{
    if data.len() == 0 {
        Ok(seq![])
    } else {
        match grade_unit(g, data) {
            Err(e) => Err(e),
            Ok((g1, v, pi)) => match sequence::distance(pi) {
                Some(d) => if 0 < d < data.len() {
                    after(v, stream_violations(g1, data.skip(d)))
                } else {
                    Ok(v)
                },
                None => Ok(v),
            },
        }
    }
}

/// Violations with some put in front of them.
pub open spec fn after(v: Seq<Violation>, more: Result<Seq<Violation>>) -> Result<Seq<Violation>> {
    match more {
        Ok(more) => Ok(v + more),
        Err(e) => Err(e),
    }
}

/// [`Grading`] at run time.
struct Progress {
    header: Option<SequenceHeader>,
    saw_picture: bool,
    saw_fragment: bool,
    mixed_flagged: bool,
    expected_number: Option<u32>,
}

impl View for Progress {
    type V = Grading;

    closed spec fn view(&self) -> Grading {
        Grading {
            header: self.header,
            saw_picture: self.saw_picture,
            saw_fragment: self.saw_fragment,
            mixed_flagged: self.mixed_flagged,
            expected_number: self.expected_number,
        }
    }
}

impl Progress {
    fn new() -> (p: Self)
        ensures
            p@ == Grading::fresh(),
    {
        Progress {
            header: None,
            saw_picture: false,
            saw_fragment: false,
            mixed_flagged: false,
            expected_number: None,
        }
    }

    /// See [`grade_picture`].
    fn picture(
        &mut self,
        seq: &SequenceHeader,
        number: u32,
        r: &mut BitReader,
        kind: PictureKind,
        violations: &mut Vec<Violation>,
    ) -> (res: Result<()>)
        requires
            seq.valid(),
            old(r)@.wf(),
        ensures
            match grade_picture(old(self)@, *seq, number, old(r)@, kind) {
                Err(e) => res == Err::<(), Error>(e),
                Ok((g, v)) => res is Ok && final(self)@ == g && final(violations)@ == old(
                    violations,
                )@ + v,
            },
    {
        let ghost i = r@;
        let ghost before = violations@;
        track_picture_number(seq, number, &mut self.expected_number, violations);
        let tp: TransformParameters = transform::transform_parameters(r, seq, kind)?;
        proof {
            params::law_valid_header_depths(*seq);
            transform::law_transform_parameters_read_soundly(i, i, *seq, kind);
        }
        let mut more: Vec<Violation> = check_transform_parameters(seq, &tp);
        violations.append(&mut more);
        assert(violations@ =~= before + (number_violations(*seq, number, old(self)@.expected_number)
            + transform_violations(*seq, tp@)));
        Ok(())
    }

    /// See [`grade_body`].
    fn body(&mut self, r: &mut BitReader, unit: DataUnit, violations: &mut Vec<Violation>) -> (res:
        Result<()>)
        requires
            old(self)@.header matches Some(h) ==> h.valid(),
            old(r)@.wf(),
        ensures
            match grade_body(old(self)@, old(r)@, unit) {
                Err(e) => res == Err::<(), Error>(e),
                Ok((g, v)) => {
                    &&& res is Ok
                    &&& final(self)@ == g
                    &&& final(violations)@ == old(violations)@ + v
                    &&& g.header matches Some(h) ==> h.valid()
                },
            },
    {
        let ghost i = r@;
        let ghost before = violations@;
        match unit {
            DataUnit::SequenceHeader => {
                let h: SequenceHeader = params::sequence_header(r)?;
                proof {
                    params::law_sequence_header_reads_soundly(i, i);
                }
                let mut more: Vec<Violation> = check_sequence_header(&h);
                violations.append(&mut more);
                self.header = Some(h);
                Ok(())
            },
            DataUnit::EndOfSequence => {
                *self = Progress::new();
                assert(violations@ =~= before + seq![]);
                Ok(())
            },
            DataUnit::Picture(kind) => {
                self.saw_picture = true;
                match self.header {
                    None => Err(Error::MissingSequenceHeader),
                    Some(seq) => {
                        r.byte_align();
                        proof {
                            picture::lemma_four_bytes(r@);
                        }
                        let number: u32 = r.read_uint_lit(4) as u32;
                        r.byte_align();
                        self.picture(&seq, number, r, kind, violations)
                    },
                }
            },
            DataUnit::Fragment(kind) => {
                self.saw_fragment = true;
                match self.header {
                    None => Err(Error::MissingSequenceHeader),
                    Some(seq) => {
                        let fh: FragmentHeader = sequence::fragment_header(r)?;
                        if fh.fragment_slice_count == 0 {
                            proof {
                                sequence::law_fragment_header_reads_soundly(i, i);
                            }
                            self.picture(&seq, fh.picture_number, r, kind, violations)
                        } else {
                            assert(violations@ =~= before + seq![]);
                            Ok(())
                        }
                    },
                }
            },
            _ => {
                assert(violations@ =~= before + seq![]);
                Ok(())
            },
        }
    }

    /// See [`grade_unit`].
    #[verifier::rlimit(40)]
    fn unit(&mut self, data: &[u8], violations: &mut Vec<Violation>) -> (res: Result<ParseInfo>)
        requires
            old(self)@.header matches Some(h) ==> h.valid(),
        ensures
            match grade_unit(old(self)@, data@) {
                Err(e) => res == Err::<ParseInfo, Error>(e),
                Ok((g, v, pi)) => {
                    &&& res == Ok::<ParseInfo, Error>(pi)
                    &&& final(self)@ == g
                    &&& final(violations)@ == old(violations)@ + v
                    &&& g.header matches Some(h) ==> h.valid()
                },
            },
    {
        proof {
            reveal(grade_unit);
        }
        let ghost before = violations@;
        let ghost g = self@;
        let mut r = BitReader::new(data);
        let ghost i = r@;
        let pi: ParseInfo = sequence::parse_info(&mut r)?;
        proof {
            sequence::law_parse_info_reads_soundly(i, i);
        }
        let mut code: Vec<Violation> = Vec::new();
        if let Some(seq) = &self.header {
            let profile: u64 = seq.parse_parameters.profile;
            let refused: bool = match profile_allows(profile, pi.parse_code) {
                Some(allowed) => !allowed,
                None => false,
            };
            report(
                refused,
                Violation::ProfileParseCode { profile, parse_code: pi.parse_code },
                &mut code,
            );
        }
        assert(code@ =~= code_violations(g, pi.parse_code));
        violations.append(&mut code);
        self.body(&mut r, sequence::classify(pi.parse_code), violations)?;
        let level: u64 = match &self.header {
            Some(seq) => seq.parse_parameters.level,
            None => 0,
        };
        if !self.mixed_flagged && self.saw_picture && self.saw_fragment && 1 <= level && level <= 7 {
            violations.push(Violation::MixedPictureAndFragmentUnits { level });
            self.mixed_flagged = true;
        }
        proof {
            let own = grade_body(
                g,
                sequence::spec_parse_info(i).0,
                sequence::spec_classify(pi.parse_code),
            )->Ok_0;
            assert(violations@ =~= before + (code_violations(g, pi.parse_code) + own.1 + only_if(
                mixes(own.0),
                Violation::MixedPictureAndFragmentUnits { level },
            )));
        }
        Ok(pi)
    }
}

/// Walks a whole stream collecting profile and level violations.
///
/// Data-unit headers, sequence headers and the transform parameters of pictures
/// and setup fragments are parsed; coefficients are skipped by means of
/// `next_parse_offset`. The walk stops, and returns what it has, at a data unit
/// with no offset other than an end of sequence, since its body cannot be
/// skipped without decoding it. Structural errors (bad prefix, truncated header,
/// picture before any sequence header) surface as `Err`.
pub fn check_stream(data: &[u8]) -> (res: Result<Vec<Violation>>)
    ensures
        match stream_violations(Grading::fresh(), data@) {
            Ok(v) => res matches Ok(r) && r@ == v,
            Err(e) => res == Err::<Vec<Violation>, Error>(e),
        },
{
    let mut violations: Vec<Violation> = Vec::new();
    let mut progress = Progress::new();
    let mut pos: usize = 0;
    let ghost all = stream_violations(Grading::fresh(), data@);
    proof {
        assert(data@.skip(0) =~= data@);
        lemma_after_none(all);
    }
    while pos < data.len()
        invariant
            pos <= data.len(),
            progress@.header matches Some(h) ==> h.valid(),
            all == stream_violations(Grading::fresh(), data@),
            all == after(violations@, stream_violations(progress@, data@.skip(pos as int))),
        decreases data.len() - pos,
    {
        let rest: &[u8] = &data[pos..data.len()];
        let ghost here = data@.skip(pos as int);
        assert(rest@ =~= here);
        let ghost before = violations@;
        let ghost g = progress@;
        let pi: ParseInfo = progress.unit(rest, &mut violations)?;
        let ghost own = grade_unit(g, here)->Ok_0.1;
        assert(after(before, Ok(own)) == Ok::<Seq<Violation>, Error>(violations@));
        let next: u32 = match sequence::next_unit(&pi) {
            Some(next) => next,
            None => {
                return Ok(violations);
            },
        };
        if next as u64 >= (data.len() - pos) as u64 {
            return Ok(violations);
        }
        proof {
            assert(here.skip(next as int) =~= data@.skip(pos + next));
            lemma_after_twice(
                before,
                own,
                stream_violations(progress@, data@.skip(pos + next)),
            );
        }
        pos = pos + next as usize;
    }
    assert(violations@ + seq![] =~= violations@);
    Ok(violations)
}

proof fn lemma_after_none(more: Result<Seq<Violation>>)
    ensures
        after(seq![], more) == more,
{
    if let Ok(v) = more {
        assert(seq![] + v =~= v);
    }
}

proof fn lemma_after_twice(a: Seq<Violation>, b: Seq<Violation>, more: Result<Seq<Violation>>)
    ensures
        after(a, after(b, more)) == after(a + b, more),
{
    if let Ok(v) = more {
        assert(a + (b + v) =~= (a + b) + v);
    }
}

/// Levels that constrain nothing here, level 0 and the specialized ones, find
/// nothing wrong with any transform parameters, and with a header no more than
/// its profile.
pub proof fn law_unconstrained_levels_pass(seq: SequenceHeader, t: Transform)
    requires
        seq.parse_parameters.level == 0 || seq.parse_parameters.level >= 64,
    ensures
        transform_violations(seq, t).len() == 0,
        profile_defined(seq.parse_parameters.profile, seq.parse_parameters.major_version)
            ==> header_violations(seq).len() == 0,
{
}

} // verus!
