//! The rules of profiles and levels: which violations a header, the parameters of a
//! picture, and the numbers of pictures give.
use crate::conformance;
use crate::conformance::Violation;
use crate::params;
use crate::params::SequenceHeader;
use crate::presets;
use crate::quant::MatrixLevel;
use crate::sequence;
use crate::sequence::DataUnit;
use crate::subband;
use crate::transform;
use crate::transform::{PictureKind, Transform};
use vstd::arithmetic::power2;
use vstd::prelude::*;

verus! {

/// Whether a level is for a base format.
#[verifier::opaque]
pub open spec fn level_has(level: u64, format: u64) -> bool {
    format <= 22 && presets::wide_for(level, presets::base(format).frame_width)
}

/// Whether a base format is interlaced.
#[verifier::opaque]
pub open spec fn interlaced(format: u64) -> bool {
    format <= 22 && presets::base(format).source_sampling == 1
}

/// Whether a base format is that of 2K cinema, and a frame-rate index that of 48
/// frames a second.
#[verifier::opaque]
pub open spec fn cinema_at_48(format: u64, index: Option<u64>) -> bool {
    &&& format <= 22 && presets::base(format).frame_width == 2048
    &&& index matches Some(k) && 1 <= k <= 16 && presets::rate(k) == (48u64, 1u64)
}

/// Whether a frame has the size of base format 7, but for up to 6 more lines.
#[verifier::opaque]
pub open spec fn like_format_7(width: u64, height: u64) -> bool {
    let base = presets::base(7);
    width == base.frame_width && base.frame_height <= height <= base.frame_height + 6
}

/// Whether a header breaks a rule, in the way that the violation tells.
///
/// The levels 1 to 7 are for the base formats of certain widths, and allow few
/// overrides: base format 7 may be up to 6 lines higher, interlaced base formats may
/// be progressive, and 2K cinema may run at 48 frames a second. Frames are for
/// progressive pictures, fields for interlaced ones.
pub open spec fn header_breaks(v: Violation, seq: SequenceHeader) -> bool {
    let pp = seq.parse_parameters;
    let ov = seq.source_overrides;
    let vp = seq.video_parameters;
    let format = seq.base_video_format;
    let levelled = 1 <= pp.level && pp.level <= 7;
    match v {
        Violation::ReservedProfile { profile, major_version } => {
            &&& profile == pp.profile && major_version == pp.major_version
            &&& profile != 0 && profile != 3
            &&& profile > 2 || major_version >= 3
        },
        Violation::ReservedLevel { level } => level == pp.level && 8 <= level < 64,
        Violation::LevelBaseFormat { level, base_video_format } => {
            &&& levelled
            &&& level == pp.level && base_video_format == format
            &&& !level_has(level, format)
        },
        Violation::CustomFlagForbidden { level, flag } => {
            &&& levelled
            &&& level == pp.level
            &&& {
                ||| ov.custom_dimensions_flag && format != 7 && flag == "custom_dimensions_flag"
                ||| ov.custom_chroma_format_flag && flag == "custom_chroma_format_flag"
                ||| ov.custom_pixel_aspect_ratio_flag && flag == "custom_pixel_aspect_ratio_flag"
                ||| ov.custom_clean_area_flag && flag == "custom_clean_area_flag"
                ||| ov.custom_signal_range_flag && flag == "custom_signal_range_flag"
                ||| ov.custom_color_spec_flag && flag == "custom_color_spec_flag"
            }
        },
        Violation::DimensionsOutsideFormat7Envelope { width, height } => {
            &&& levelled
            &&& width == vp.frame_width && height == vp.frame_height
            &&& ov.custom_dimensions_flag && format == 7
            &&& !like_format_7(width, height)
        },
        Violation::ScanFormatOverrideOutsideCarveOut { base_video_format } => {
            &&& levelled
            &&& base_video_format == format
            &&& ov.custom_scan_format_flag
            &&& !(interlaced(format) && vp.source_sampling == 0)
        },
        Violation::FrameRateOverrideOutsideLevel4Exception { level } => {
            &&& levelled
            &&& level == pp.level
            &&& ov.custom_frame_rate_flag
            &&& !(level == 4 && cinema_at_48(format, ov.frame_rate_index))
        },
        Violation::PictureCodingModeMismatch { source_sampling, picture_coding_mode } => {
            &&& levelled
            &&& source_sampling == vp.source_sampling
            &&& picture_coding_mode == seq.picture_coding_mode
            &&& source_sampling != picture_coding_mode
        },
        _ => false,
    }
}

proof fn lemma_contains(a: Seq<Violation>, b: Seq<Violation>, v: Violation)
    ensures
        (a + b).contains(v) <==> a.contains(v) || b.contains(v),
{
    if a.contains(v) {
        let k = a.index_of(v);
        assert((a + b)[k] == v);
    }
    if b.contains(v) {
        let k = b.index_of(v);
        assert((a + b)[a.len() + k] == v);
    }
}

proof fn lemma_only_if(broken: bool, w: Violation, v: Violation)
    ensures
        conformance::only_if(broken, w).contains(v) <==> broken && v == w,
{
    if broken {
        assert(conformance::only_if(broken, w)[0] == w);
    }
}

/// The list of ten lists.
proof fn lemma_ten(
    p1: Seq<Violation>,
    p2: Seq<Violation>,
    p3: Seq<Violation>,
    p4: Seq<Violation>,
    p5: Seq<Violation>,
    p6: Seq<Violation>,
    p7: Seq<Violation>,
    p8: Seq<Violation>,
    p9: Seq<Violation>,
    p10: Seq<Violation>,
    v: Violation,
)
    ensures
        (p1 + p2 + p3 + p4 + p5 + p6 + p7 + p8 + p9 + p10).contains(v) <==> {
            ||| p1.contains(v) || p2.contains(v) || p3.contains(v) || p4.contains(v)
            ||| p5.contains(v) || p6.contains(v) || p7.contains(v) || p8.contains(v)
            ||| p9.contains(v) || p10.contains(v)
        },
{
    lemma_contains(p1, p2, v);
    lemma_contains(p1 + p2, p3, v);
    lemma_contains(p1 + p2 + p3, p4, v);
    lemma_contains(p1 + p2 + p3 + p4, p5, v);
    lemma_contains(p1 + p2 + p3 + p4 + p5, p6, v);
    lemma_contains(p1 + p2 + p3 + p4 + p5 + p6, p7, v);
    lemma_contains(p1 + p2 + p3 + p4 + p5 + p6 + p7, p8, v);
    lemma_contains(p1 + p2 + p3 + p4 + p5 + p6 + p7 + p8, p9, v);
    lemma_contains(p1 + p2 + p3 + p4 + p5 + p6 + p7 + p8 + p9, p10, v);
}

/// Whether a base format belongs to a level.
spec fn listed(level: u64, format: u64) -> bool {
    conformance::level_formats(level) matches Some(f) && f.contains(format)
}

proof fn lemma_listed(level: u64, format: u64)
    requires
        1 <= level <= 7,
    ensures
        listed(level, format) <==> level_has(level, format),
{
    reveal(level_has);
    if format <= 22 {
        presets::law_levels_go_by_width(level, format);
    } else if let Some(f) = conformance::level_formats(level) {
        assert(forall|k: int| 0 <= k < f.len() ==> #[trigger] f[k] <= 22);
    }
}

proof fn lemma_exceptions(format: u64, index: Option<u64>, width: u64, height: u64)
    ensures
        conformance::may_be_progressive(format) <==> interlaced(format),
        format == 15 && index == Some(11u64) <==> cinema_at_48(format, index),
        like_format_7(width, height) <==> width == 720 && 480 <= height <= 486,
{
    reveal(interlaced);
    reveal(cinema_at_48);
    reveal(like_format_7);
}

proof fn lemma_dimensions(seq: SequenceHeader, level: u64, v: Violation)
    ensures
        ({
            let set = seq.source_overrides.custom_dimensions_flag;
            let (w, h) = (seq.video_parameters.frame_width, seq.video_parameters.frame_height);
            conformance::dimension_violations(seq, level).contains(v) <==> {
                ||| set && seq.base_video_format != 7 && v == (Violation::CustomFlagForbidden {
                    level,
                    flag: "custom_dimensions_flag",
                })
                ||| set && seq.base_video_format == 7 && (w != 720 || h < 480 || h > 486) && v == (
                Violation::DimensionsOutsideFormat7Envelope { width: w, height: h })
            }
        }),
{
    let (w, h) = (seq.video_parameters.frame_width, seq.video_parameters.frame_height);
    lemma_only_if(
        true,
        Violation::CustomFlagForbidden { level, flag: "custom_dimensions_flag" },
        v,
    );
    lemma_only_if(
        w != 720 || !(480 <= h <= 486),
        Violation::DimensionsOutsideFormat7Envelope { width: w, height: h },
        v,
    );
}

proof fn lemma_flag(set: bool, level: u64, name: &'static str, v: Violation)
    ensures
        conformance::forbidden_flag(set, level, name).contains(v) <==> set && v == (
        Violation::CustomFlagForbidden { level, flag: name }),
{
    lemma_only_if(set, Violation::CustomFlagForbidden { level, flag: name }, v);
}

/// The rules one by one.
spec fn level_breaks(v: Violation, seq: SequenceHeader, level: u64) -> bool {
    let ov = seq.source_overrides;
    let format = seq.base_video_format;
    let sampling = seq.video_parameters.source_sampling;
    let (w, h) = (seq.video_parameters.frame_width, seq.video_parameters.frame_height);
    let flag = |set: bool, name: &'static str|
        set && v == (Violation::CustomFlagForbidden { level, flag: name });
    ||| !listed(level, format) && v == (Violation::LevelBaseFormat {
        level,
        base_video_format: format,
    })
    ||| format != 7 && flag(ov.custom_dimensions_flag, "custom_dimensions_flag")
    ||| ov.custom_dimensions_flag && format == 7 && (w != 720 || h < 480 || h > 486) && v == (
    Violation::DimensionsOutsideFormat7Envelope { width: w, height: h })
    ||| flag(ov.custom_chroma_format_flag, "custom_chroma_format_flag")
    ||| ov.custom_scan_format_flag && !(conformance::may_be_progressive(format) && sampling == 0)
        && v == (Violation::ScanFormatOverrideOutsideCarveOut { base_video_format: format })
    ||| ov.custom_frame_rate_flag && !(level == 4 && format == 15 && ov.frame_rate_index == Some(
        11u64,
    )) && v == (Violation::FrameRateOverrideOutsideLevel4Exception { level })
    ||| flag(ov.custom_pixel_aspect_ratio_flag, "custom_pixel_aspect_ratio_flag")
    ||| flag(ov.custom_clean_area_flag, "custom_clean_area_flag")
    ||| flag(ov.custom_signal_range_flag, "custom_signal_range_flag")
    ||| flag(ov.custom_color_spec_flag, "custom_color_spec_flag")
    ||| seq.picture_coding_mode != sampling && v == (Violation::PictureCodingModeMismatch {
        source_sampling: sampling,
        picture_coding_mode: seq.picture_coding_mode,
    })
}

#[verifier::rlimit(40)]
proof fn lemma_level_list(seq: SequenceHeader, level: u64, v: Violation)
    ensures
        conformance::level_violations(seq, level).contains(v) <==> level_breaks(v, seq, level),
{
    let ov = seq.source_overrides;
    let format = seq.base_video_format;
    let sampling = seq.video_parameters.source_sampling;
    let (b1, w1) = (
        !listed(level, format),
        Violation::LevelBaseFormat { level, base_video_format: format },
    );
    let (b4, w4) = (
        ov.custom_scan_format_flag && !(conformance::may_be_progressive(format) && sampling == 0),
        Violation::ScanFormatOverrideOutsideCarveOut { base_video_format: format },
    );
    let (b5, w5) = (
        ov.custom_frame_rate_flag && !(level == 4 && format == 15 && ov.frame_rate_index == Some(
            11u64,
        )),
        Violation::FrameRateOverrideOutsideLevel4Exception { level },
    );
    let (b10, w10) = (
        seq.picture_coding_mode != sampling,
        Violation::PictureCodingModeMismatch {
            source_sampling: sampling,
            picture_coding_mode: seq.picture_coding_mode,
        },
    );
    lemma_only_if(b1, w1, v);
    lemma_dimensions(seq, level, v);
    lemma_flag(ov.custom_chroma_format_flag, level, "custom_chroma_format_flag", v);
    lemma_only_if(b4, w4, v);
    lemma_only_if(b5, w5, v);
    lemma_flag(ov.custom_pixel_aspect_ratio_flag, level, "custom_pixel_aspect_ratio_flag", v);
    lemma_flag(ov.custom_clean_area_flag, level, "custom_clean_area_flag", v);
    lemma_flag(ov.custom_signal_range_flag, level, "custom_signal_range_flag", v);
    lemma_flag(ov.custom_color_spec_flag, level, "custom_color_spec_flag", v);
    lemma_only_if(b10, w10, v);
    lemma_ten(
        conformance::only_if(b1, w1),
        conformance::dimension_violations(seq, level),
        conformance::forbidden_flag(
            ov.custom_chroma_format_flag,
            level,
            "custom_chroma_format_flag",
        ),
        conformance::only_if(b4, w4),
        conformance::only_if(b5, w5),
        conformance::forbidden_flag(
            ov.custom_pixel_aspect_ratio_flag,
            level,
            "custom_pixel_aspect_ratio_flag",
        ),
        conformance::forbidden_flag(ov.custom_clean_area_flag, level, "custom_clean_area_flag"),
        conformance::forbidden_flag(
            ov.custom_signal_range_flag,
            level,
            "custom_signal_range_flag",
        ),
        conformance::forbidden_flag(ov.custom_color_spec_flag, level, "custom_color_spec_flag"),
        conformance::only_if(b10, w10),
        v,
    );
}

proof fn lemma_level_contains(seq: SequenceHeader, level: u64, v: Violation)
    requires
        level == seq.parse_parameters.level,
        1 <= level <= 7,
    ensures
        conformance::level_violations(seq, level).contains(v) <==> header_breaks(v, seq) && !(
        v is ReservedProfile) && !(v is ReservedLevel),
{
    let vp = seq.video_parameters;
    lemma_listed(level, seq.base_video_format);
    lemma_exceptions(
        seq.base_video_format,
        seq.source_overrides.frame_rate_index,
        vp.frame_width,
        vp.frame_height,
    );
    lemma_level_list(seq, level, v);
}

/// A header gives exactly the violations of the rules that it breaks.
pub proof fn law_headers_are_graded(seq: SequenceHeader, v: Violation)
    ensures
        conformance::header_violations(seq).contains(v) <==> header_breaks(v, seq),
{
    let pp = seq.parse_parameters;
    let broken = !conformance::profile_defined(pp.profile, pp.major_version);
    let w = Violation::ReservedProfile { profile: pp.profile, major_version: pp.major_version };
    lemma_only_if(broken, w, v);
    if 1 <= pp.level <= 7 {
        lemma_level_contains(seq, pp.level, v);
        lemma_contains(
            conformance::only_if(broken, w),
            conformance::level_violations(seq, pp.level),
            v,
        );
    } else {
        let reserved = 8 <= pp.level <= 63;
        let wl = Violation::ReservedLevel { level: pp.level };
        lemma_only_if(reserved, wl, v);
        lemma_contains(conformance::only_if(broken, w), conformance::only_if(reserved, wl), v);
    }
}

/// A base video format as it is, with frames or fields as it has them, passes at the
/// level that it belongs to.
pub proof fn law_base_formats_pass(seq: SequenceHeader)
    requires
        seq.base_video_format <= 22,
        seq.video_parameters == presets::base(seq.base_video_format),
        seq.source_overrides == params::no_overrides(),
        seq.picture_coding_mode == seq.video_parameters.source_sampling,
        presets::wide_for(seq.parse_parameters.level, seq.video_parameters.frame_width),
        seq.parse_parameters.profile == 0 || seq.parse_parameters.profile == 3,
    ensures
        conformance::header_violations(seq).len() == 0,
{
    let all = conformance::header_violations(seq);
    if all.len() > 0 {
        let v = all[0];
        assert(all.contains(v));
        law_headers_are_graded(seq, v);
        reveal(level_has);
        assert(false);
    }
}

/// The profiles: each lists what holds no picture of the other kind, under the codes
/// that name no references.
pub proof fn law_profiles_are_for_their_kinds(code: u8)
    ensures
        conformance::spec_profile_allows(0, code) == Some(true) <==> {
            &&& code % 8 == 0 || code % 8 == 4
            &&& match sequence::spec_classify(code) {
                DataUnit::Picture(kind) => kind == PictureKind::LowDelay,
                DataUnit::Fragment(kind) => kind == PictureKind::LowDelay,
                DataUnit::Reserved => false,
                DataUnit::AuxiliaryData => code == 0x20,
                _ => true,
            }
        },
        conformance::spec_profile_allows(3, code) == Some(true) <==> {
            &&& code % 8 == 0 || code % 8 == 4
            &&& match sequence::spec_classify(code) {
                DataUnit::Picture(kind) => kind == PictureKind::HighQuality,
                DataUnit::Fragment(kind) => kind == PictureKind::HighQuality,
                DataUnit::Reserved => false,
                DataUnit::AuxiliaryData => code == 0x20,
                _ => true,
            }
        },
        forall|profile: u64|
            profile != 0 && profile != 3 ==> #[trigger] conformance::spec_profile_allows(
                profile,
                code,
            ) is None,
        conformance::spec_profile_allows(0, code) is Some,
        conformance::spec_profile_allows(3, code) is Some,
{
}

/// Whether every slice has as many DC coefficients of a component as every other.
pub open spec fn even_shares(w: u64, h: u64, t: Transform) -> bool {
    let (ho, depth) = (t.dwt_depth_ho as int, t.dwt_depth as int);
    &&& subband::spec_subband_width(w as int, ho, depth, 0) % (t.slices_x as int) == 0
    &&& subband::spec_subband_height(h as int, ho, depth, 0) % (t.slices_y as int) == 0
}

/// Whether a value is in a quantization matrix.
pub open spec fn in_matrix(m: Seq<MatrixLevel>, value: i64) -> bool {
    exists|l: int| 0 <= l < m.len() && presets::values_of(#[trigger] m[l]).contains(value)
}

proof fn lemma_outlier(m: Seq<MatrixLevel>, from: int)
    requires
        0 <= from,
    ensures
        conformance::matrix_outlier(m, from) matches Some(value) ==> !(0 <= value <= 127)
            && in_matrix(m, value),
        conformance::matrix_outlier(m, from) is None ==> forall|l: int, k: int|
            from <= l < m.len() && 0 <= k < presets::values_of(m[l]).len() ==> 0
                <= #[trigger] presets::values_of(m[l])[k] <= 127,
    decreases m.len() - from,
{
    if from < m.len() {
        lemma_outlier(m, from + 1);
        let level = m[from];
        let values = presets::values_of(level);
        if let Some(value) = conformance::level_outlier(level) {
            match level {
                MatrixLevel::Ll(v) => {
                    assert(values[0] == value);
                },
                MatrixLevel::H(v) => {
                    assert(values[0] == value);
                },
                MatrixLevel::Ac { hl, lh, hh } => {
                    assert(values[0] == value || values[1] == value || values[2] == value);
                },
            }
            assert(values.contains(value));
        } else {
            assert forall|l: int, k: int|
                from <= l < m.len() && 0 <= k < presets::values_of(m[l]).len() && conformance::matrix_outlier(
                    m,
                    from,
                ) is None implies 0 <= #[trigger] presets::values_of(m[l])[k] <= 127 by {
                if l == from {
                    match level {
                        MatrixLevel::Ll(v) => {},
                        MatrixLevel::H(v) => {},
                        MatrixLevel::Ac { hl, lh, hh } => {
                            assert(k == 0 || k == 1 || k == 2);
                        },
                    }
                }
            }
        }
    }
}

/// The parameters of a picture at the levels 1 to 7: wavelet filters up to the fourth
/// and no more than four levels, no asymmetric transform, slices with equal shares of
/// the DC bands, and a matrix of values from 0 to 127. Other levels ask nothing.
pub proof fn law_transforms_are_graded(seq: SequenceHeader, t: Transform, v: Violation)
    requires
        t.slices_x >= 1,
        t.slices_y >= 1,
    ensures
        ({
            let all = conformance::transform_violations(seq, t);
            let level = seq.parse_parameters.level;
            let cp = seq.coding_parameters;
            &&& !(1 <= level <= 7) ==> all.len() == 0
            &&& 1 <= level <= 7 ==> (all.contains(v) ==> match v {
                Violation::WaveletIndexAboveLevelBound { wavelet_index } => wavelet_index
                    == t.wavelet_index && wavelet_index > 4,
                Violation::TransformDepthAboveLevelBound { dwt_depth } => dwt_depth == t.dwt_depth
                    && dwt_depth > 4,
                Violation::AsymmetricTransformSignalled => seq.parse_parameters.major_version > 2
                    && (t.asym_transform_index_flag || t.asym_transform_flag),
                Violation::UnevenDcCoefficientsPerSlice { slices_x, slices_y } => slices_x
                    == t.slices_x && slices_y == t.slices_y && !(even_shares(
                    cp.luma_width,
                    cp.luma_height,
                    t,
                ) && even_shares(cp.color_diff_width, cp.color_diff_height, t)),
                Violation::QuantMatrixValueOutOfRange { value } => !(0 <= value <= 127)
                    && in_matrix(t.quant_matrix, value),
                _ => false,
            })
            &&& 1 <= level <= 7 && all.len() == 0 ==> {
                &&& t.wavelet_index <= 4
                &&& t.dwt_depth <= 4
                &&& seq.parse_parameters.major_version > 2 ==> !t.asym_transform_index_flag
                    && !t.asym_transform_flag
                &&& even_shares(cp.luma_width, cp.luma_height, t)
                &&& even_shares(cp.color_diff_width, cp.color_diff_height, t)
                &&& forall|l: int, k: int|
                    0 <= l < t.quant_matrix.len() && 0 <= k < presets::values_of(
                        t.quant_matrix[l],
                    ).len() ==> 0 <= #[trigger] presets::values_of(t.quant_matrix[l])[k] <= 127
            }
        }),
{
    let cp = seq.coding_parameters;
    let level = seq.parse_parameters.level;
    if 1 <= level <= 7 {
        power2::lemma2_to64();
        lemma_outlier(t.quant_matrix, 0);
        let (b1, w1) = (
            t.wavelet_index > 4,
            Violation::WaveletIndexAboveLevelBound { wavelet_index: t.wavelet_index },
        );
        let (b2, w2) = (
            t.dwt_depth > 4,
            Violation::TransformDepthAboveLevelBound { dwt_depth: t.dwt_depth },
        );
        let (b3, w3) = (
            seq.parse_parameters.major_version >= 3 && (t.asym_transform_index_flag
                || t.asym_transform_flag),
            Violation::AsymmetricTransformSignalled,
        );
        let (b4, w4) = (
            !conformance::divides_evenly(cp.luma_width, cp.luma_height, t)
                || !conformance::divides_evenly(cp.color_diff_width, cp.color_diff_height, t),
            Violation::UnevenDcCoefficientsPerSlice { slices_x: t.slices_x, slices_y: t.slices_y },
        );
        let p1 = conformance::only_if(b1, w1);
        let p2 = conformance::only_if(b2, w2);
        let p3 = conformance::only_if(b3, w3);
        let p4 = conformance::only_if(b4, w4);
        let p5 = match conformance::matrix_outlier(t.quant_matrix, 0) {
            Some(value) => seq![Violation::QuantMatrixValueOutOfRange { value }],
            None => seq![],
        };
        lemma_only_if(b1, w1, v);
        lemma_only_if(b2, w2, v);
        lemma_only_if(b3, w3, v);
        lemma_only_if(b4, w4, v);
        lemma_contains(p1, p2, v);
        lemma_contains(p1 + p2, p3, v);
        lemma_contains(p1 + p2 + p3, p4, v);
        lemma_contains(p1 + p2 + p3 + p4, p5, v);
        assert(conformance::transform_violations(seq, t) == p1 + p2 + p3 + p4 + p5);
        lemma_dc_shares(cp.luma_width, cp.luma_height, t);
        lemma_dc_shares(cp.color_diff_width, cp.color_diff_height, t);
    }
}

proof fn lemma_dc_shares(w: u64, h: u64, t: Transform)
    ensures
        conformance::divides_evenly(w, h, t) == even_shares(w, h, t),
{
    power2::lemma2_to64();
    let (a, b) = (
        transform::ceil_div(
            w as int,
            power2::pow2((t.dwt_depth_ho + t.dwt_depth) as nat) as int,
        ),
        transform::ceil_div(
            h as int,
            power2::pow2(t.dwt_depth as nat) as int,
        ),
    );
    assert(a * 1 == a && b * 1 == b);
}

/// Picture numbers count up, from the greatest to zero: the number of a picture is
/// without fault exactly where it is one more than that before, and that of the
/// first exactly where it is even or the pictures are frames.
pub proof fn law_picture_numbers_count_up(seq: SequenceHeader, before: Option<u32>, number: u32)
    requires
        seq.picture_coding_mode <= 1,
    ensures
        ({
            let expected = match before {
                Some(n) => Some(conformance::successor(n)),
                None => None,
            };
            conformance::number_violations(seq, number, expected).len() == 0 <==> match before {
                Some(n) => (n + 1 - number) % 0x1_0000_0000 == 0,
                None => number % 2 == 0 || seq.picture_coding_mode == 0,
            }
        }),
{
}

} // verus!
