//! How the presets and the base video formats hang together.
use crate::conformance;
use crate::params;
use crate::params::VideoParameters;
use crate::quant;
use crate::quant::MatrixLevel;
use vstd::arithmetic::power2;
use vstd::prelude::*;

verus! {

/// Whether ratio `b` is `by.0 / by.1` times ratio `a`.
pub open spec fn times(a: (u64, u64), b: (u64, u64), by: (int, int)) -> bool {
    b.0 * a.1 * by.1 == a.0 * b.1 * by.0
}

/// The preset frame rate of an index.
pub open spec fn rate(index: u64) -> (u64, u64) {
    params::spec_preset_frame_rate(index)->Ok_0
}

/// The index of the frame rate that is twice as high, if there is one.
pub open spec fn doubled(index: u64) -> Option<u64> {
    match index {
        1 => Some(12),
        2 => Some(11),
        3 => Some(6),
        4 => Some(7),
        5 => Some(8),
        6 => Some(14),
        7 => Some(15),
        8 => Some(16),
        9 => Some(4),
        10 => Some(3),
        11 => Some(13),
        _ => None,
    }
}

/// The index of the frame rate that is slower by 1000 to 1001, if there is one.
pub open spec fn slowed(index: u64) -> Option<u64> {
    match index {
        2 => Some(1),
        5 => Some(4),
        8 => Some(7),
        11 => Some(12),
        16 => Some(15),
        _ => None,
    }
}

/// The preset frame rates are 24, 25 and 30 frames a second, their doubles and
/// halves, and those of 24 and 30 slowed by 1000 to 1001, all in lowest terms.
pub proof fn law_frame_rates_hang_together(index: u64)
    ensures
        params::spec_preset_frame_rate(index) is Ok <==> 1 <= index <= 16,
        1 <= index <= 16 ==> rate(index).1 == 1 || (rate(index).1 == 2 && rate(index).0 % 2 == 1)
            || (rate(index).1 == 1001 && rate(index).0 % 1000 == 0),
        rate(2) == (24u64, 1u64) && rate(3) == (25u64, 1u64) && rate(5) == (30u64, 1u64),
        doubled(index) matches Some(k) ==> times(rate(index), rate(k), (2, 1)),
        slowed(index) matches Some(k) ==> times(rate(index), rate(k), (1000, 1001)),
{
}

/// The preset pixel aspect ratio of an index.
pub open spec fn aspect(index: u64) -> (u64, u64) {
    params::spec_preset_pixel_aspect_ratio(index)->Ok_0
}

/// The preset pixel aspect ratios: square ones, those of 704 samples by 480 or 576
/// lines shown at 4:3, and all of these widened to 16:9.
pub proof fn law_aspect_ratios_hang_together(index: u64)
    ensures
        params::spec_preset_pixel_aspect_ratio(index) is Ok <==> 1 <= index <= 6,
        aspect(1).0 == aspect(1).1,
        aspect(2).0 * 704 * 3 == aspect(2).1 * 480 * 4,
        aspect(3).0 * 704 * 3 == aspect(3).1 * 576 * 4,
        times(aspect(2), aspect(4), (4, 3)),
        times(aspect(3), aspect(5), (4, 3)),
        times(aspect(1), aspect(6), (4, 3)),
        1 <= index <= 6 ==> aspect(index).0 <= 40 && 1 <= aspect(index).1 <= 33,
{
}

/// The preset signal range of an index.
pub open spec fn range(index: u64) -> (u64, u64, u64, u64) {
    params::spec_preset_signal_range(index)->Ok_0
}

/// Whether `b` is the signal range `a` at `by` times the precision.
pub open spec fn finer(a: (u64, u64, u64, u64), b: (u64, u64, u64, u64), by: int) -> bool {
    b.0 == by * a.0 && b.1 == by * a.1 && b.2 == by * a.2 && b.3 == by * a.3
}

/// Whether a signal range takes in every value of `bits` bits.
pub open spec fn full(r: (u64, u64, u64, u64), bits: nat) -> bool {
    &&& r.0 == 0
    &&& r.1 == power2::pow2(bits) - 1
    &&& 2 * r.2 == power2::pow2(bits)
    &&& r.3 == power2::pow2(bits) - 1
}

/// The preset signal ranges: that of 8-bit video, from 16 to 235, and from 16 to 240
/// about 128, the same with 2, 4 and 8 bits more, and the full ranges of as many
/// bits.
pub proof fn law_signal_ranges_hang_together(index: u64)
    ensures
        params::spec_preset_signal_range(index) is Ok <==> 1 <= index <= 8,
        range(2).0 == 16 && range(2).0 + range(2).1 == 235,
        range(2).2 == 128 && 2 * range(2).2 - range(2).3 == 32,
        finer(range(2), range(3), 4),
        finer(range(3), range(4), 4),
        finer(range(4), range(7), 16),
        full(range(1), 8),
        full(range(5), 10),
        full(range(6), 12),
        full(range(8), 16),
{
    power2::lemma2_to64();
}

/// The defaults of a base video format.
pub open spec fn base(format: u64) -> VideoParameters {
    params::spec_set_source_defaults(format)->Ok_0
}

/// Whether the ratios, the signal range and the colours are those of presets.
pub open spec fn made_of_presets(v: VideoParameters) -> bool {
    &&& exists|k: u64|
        1 <= k <= 16 && #[trigger] rate(k) == (v.frame_rate_numer, v.frame_rate_denom)
    &&& exists|k: u64|
        1 <= k <= 6 && #[trigger] aspect(k) == (
            v.pixel_aspect_ratio_numer,
            v.pixel_aspect_ratio_denom,
        )
    &&& exists|k: u64|
        1 <= k <= 8 && #[trigger] range(k) == (
            v.luma_offset,
            v.luma_excursion,
            v.color_diff_offset,
            v.color_diff_excursion,
        )
    &&& exists|k: u64|
        1 <= k <= 7 && #[trigger] params::spec_preset_color_spec(k)->Ok_0 == (
            v.color_primaries_index,
            v.color_matrix_index,
            v.transfer_function_index,
        )
}

/// Every base video format is made of presets, and there are no others than 0 to 22.
pub proof fn law_base_formats_are_made_of_presets(format: u64)
    ensures
        params::spec_set_source_defaults(format) is Ok <==> format <= 22,
        format <= 22 ==> made_of_presets(base(format)),
{
    if format <= 22 {
        let v = base(format);
        let r: u64 = if format == 0 || format == 21 {
            1
        } else if format == 1 || format == 3 || format == 5 {
            9
        } else if format == 2 || format == 4 || format == 6 {
            10
        } else if format == 7 || format == 11 || format == 22 {
            4
        } else if format == 8 || format == 12 {
            3
        } else if format == 9 || format == 13 || format == 17 || format == 19 {
            7
        } else if format == 15 || format == 16 {
            2
        } else {
            6
        };
        assert(rate(r) == (v.frame_rate_numer, v.frame_rate_denom));
        let a: u64 = if v.pixel_aspect_ratio_numer == 10 {
            2
        } else if v.pixel_aspect_ratio_numer == 12 {
            3
        } else {
            1
        };
        assert(aspect(a) == (v.pixel_aspect_ratio_numer, v.pixel_aspect_ratio_denom));
        assert(range(params::base_signal_range_index(format)) == (
            v.luma_offset,
            v.luma_excursion,
            v.color_diff_offset,
            v.color_diff_excursion,
        ));
        assert(params::spec_preset_color_spec(params::base_color_spec_index(format))->Ok_0 == (
            v.color_primaries_index,
            v.color_matrix_index,
            v.transfer_function_index,
        ));
    }
}

/// Whether a format is the 60-Hz one of a pair, its 50-Hz counterpart being the next.
pub open spec fn paired(format: u64) -> bool {
    format == 1 || format == 3 || format == 5 || format == 7 || format == 9 || format == 11
        || format == 13 || format == 17 || format == 19
}

/// The base video formats for countries of 60 and of 50 Hz come in pairs: the frame
/// rates are as 60000/1001 to 50, and all else but the lines of standard-definition
/// television and what goes with them is the same. Five lines of one are six of the
/// other there, and the pixels are as 10/11 to 12/11.
pub proof fn law_base_formats_come_in_pairs(format: u64)
    requires
        paired(format),
    ensures
        ({
            let (a, b) = (base(format), base((format + 1) as u64));
            &&& times(
                (b.frame_rate_numer, b.frame_rate_denom),
                (a.frame_rate_numer, a.frame_rate_denom),
                (1200, 1001),
            )
            &&& a.frame_width == b.frame_width
            &&& a.color_diff_format == b.color_diff_format
            &&& a.source_sampling == b.source_sampling
            &&& a.luma_offset == b.luma_offset && a.luma_excursion == b.luma_excursion
            &&& a.color_diff_offset == b.color_diff_offset
            &&& a.color_diff_excursion == b.color_diff_excursion
            &&& a.color_matrix_index == b.color_matrix_index
            &&& a.transfer_function_index == b.transfer_function_index
            &&& a.left_offset == b.left_offset && a.clean_width == b.clean_width
            &&& if format <= 8 {
                &&& 6 * a.frame_height == 5 * b.frame_height
                &&& times(
                    (a.pixel_aspect_ratio_numer, a.pixel_aspect_ratio_denom),
                    (b.pixel_aspect_ratio_numer, b.pixel_aspect_ratio_denom),
                    (6, 5),
                )
                &&& !a.top_field_first && b.top_field_first
                &&& a.color_primaries_index + 1 == b.color_primaries_index
            } else {
                &&& a.frame_height == b.frame_height
                &&& a.pixel_aspect_ratio_numer == a.pixel_aspect_ratio_denom
                &&& b.pixel_aspect_ratio_numer == b.pixel_aspect_ratio_denom
                &&& a.top_field_first && b.top_field_first
                &&& a.color_primaries_index == b.color_primaries_index
            }
        }),
{
    assert(times((25, 2), (15000, 1001), (1200, 1001)));
    assert(times((25, 1), (30000, 1001), (1200, 1001)));
    assert(times((50, 1), (60000, 1001), (1200, 1001)));
    assert(times((10, 11), (12, 11), (6, 5)));
    let (a, b) = (base(format), base((format + 1) as u64));
    let (x, y) = ((a.frame_rate_numer, a.frame_rate_denom), (b.frame_rate_numer, b.frame_rate_denom));
    if format <= 5 {
        assert(x == (15000u64, 1001u64) && y == (25u64, 2u64));
    } else if format == 7 || format == 11 {
        assert(x == (30000u64, 1001u64) && y == (25u64, 1u64));
    } else {
        assert(x == (60000u64, 1001u64) && y == (50u64, 1u64));
    }
}

/// The base video format with frames twice as wide and twice as high, if there is
/// one.
pub open spec fn enlarged(format: u64) -> Option<u64> {
    match format {
        1 => Some(3),
        2 => Some(4),
        3 => Some(5),
        4 => Some(6),
        13 => Some(17),
        14 => Some(18),
        15 => Some(16),
        17 => Some(19),
        18 => Some(20),
        _ => None,
    }
}

/// The frame sizes: 176 samples across 144 lines, 720 across 576, high definition at
/// 16:9, cinema at 2048 across 1080, and sizes that double one another. Square pixels
/// and clean areas of the whole frame go with all but standard definition, where the
/// clean area is 704 samples wide.
pub proof fn law_base_sizes_hang_together(format: u64)
    requires
        format <= 22,
    ensures
        ({
            let v = base(format);
            &&& enlarged(format) matches Some(k) ==> {
                &&& base(k).frame_width == 2 * v.frame_width
                &&& base(k).frame_height == 2 * v.frame_height
                &&& base(k).color_diff_format == v.color_diff_format || format == 13 || format
                    == 14
            }
            &&& format == 0 ==> v.frame_width == 640 && v.frame_height == 480
            &&& format == 2 ==> v.frame_width == 176 && v.frame_height == 144
            &&& format == 8 ==> v.frame_width == 720 && v.frame_height == 576
            &&& format == 15 ==> v.frame_width == 2048 && v.frame_height == 1080
            &&& format == 22 ==> v.frame_width == 720 && v.frame_height == 486
            &&& (9 <= format <= 14 || 17 <= format <= 21) ==> 9 * v.frame_width == 16
                * v.frame_height
            &&& format == 9 || format == 10 ==> v.frame_height == 720
            &&& 11 <= format <= 14 || format == 21 ==> v.frame_height == 1080
            &&& v.top_offset == 0 && v.clean_height == v.frame_height
            &&& v.clean_width + 2 * v.left_offset == v.frame_width
            &&& format == 7 || format == 8 ==> v.clean_width == 704
            &&& format != 7 && format != 8 ==> v.left_offset == 0
        }),
{
}

/// How wide the frames of a level are.
pub open spec fn wide_for(level: u64, width: u64) -> bool {
    match level {
        1 => width < 720 && width != 640,
        2 => width == 720,
        3 => 1280 <= width <= 1920,
        4 => width == 2048,
        5 => width == 4096,
        6 => width == 3840,
        7 => width == 7680,
        _ => false,
    }
}

/// Every base video format but the custom one belongs to one level, that for frames
/// of its width.
pub proof fn law_levels_go_by_width(level: u64, format: u64)
    requires
        format <= 22,
    ensures
        (conformance::level_formats(level) matches Some(f) && f.contains(format)) <==> wide_for(
            level,
            base(format).frame_width,
        ),
        conformance::level_formats(level) is Some <==> 1 <= level <= 7,
{
    if let Some(f) = conformance::level_formats(level) {
        if wide_for(level, base(format).frame_width) {
            let k = if level == 1 {
                format - 1
            } else if level == 2 {
                if format == 22 {
                    2
                } else {
                    format - 7
                }
            } else if level == 3 {
                if format == 21 {
                    6
                } else {
                    format - 9
                }
            } else if level == 4 || level == 5 {
                0
            } else if level == 6 {
                format - 17
            } else {
                format - 19
            };
            assert(f[k] == format);
        }
    }
}

/// The values of a level of a quantization matrix.
pub open spec fn values_of(m: MatrixLevel) -> Seq<i64> {
    match m {
        MatrixLevel::Ll(v) => seq![v],
        MatrixLevel::H(v) => seq![v],
        MatrixLevel::Ac { hl, lh, hh } => seq![hl, lh, hh],
    }
}

/// Default quantization matrices are made for a given filter: no value is negative,
/// some value is zero, and where both filters are the same, the horizontal and the
/// vertical band of a level have the same value.
pub proof fn law_default_matrices_are_normal(v: u64, ho: u64, depth: u64, depth_ho: u64)
    requires
        quant::has_default(v, ho, depth, depth_ho),
    ensures
        ({
            let m = quant::default_matrix(v, ho, depth, depth_ho);
            &&& forall|l: int, k: int|
                0 <= l < m.len() && 0 <= k < values_of(m[l]).len() ==> #[trigger] values_of(m[l])[k]
                    >= 0
            &&& exists|l: int, k: int|
                0 <= l < m.len() && 0 <= k < values_of(m[l]).len() && #[trigger] values_of(m[l])[k]
                    == 0
            &&& v == ho ==> forall|l: int|
                depth_ho < l < m.len() ==> values_of(#[trigger] m[l])[0] == values_of(m[l])[1]
        }),
{
    let m = quant::default_matrix(v, ho, depth, depth_ho);
    let table = quant::table_of(v, ho);
    let (d, h) = (depth as int, depth_ho as int);
    if d == 0 && h == 0 {
        assert(values_of(m[0])[0] == 0);
    } else if table == 6 {
        assert(values_of(m[0])[0] == 0);
    } else if table == 4 {
        if d > 0 {
            assert(values_of(m[h + d])[2] == 0);
        } else {
            assert(values_of(m[h])[0] == 0);
        }
    } else if h == 0 || (h == 1 && d > 0 && (table == 5 || table == 8)) {
        assert(values_of(m[h + 1])[2] == 0);
    } else {
        assert(values_of(m[1])[0] == 0);
    }
}

/// One more two-dimensional level only adds a level to a default matrix; for the Haar
/// filter without shift it also raises all others by four, as much as the gain of a
/// level is.
pub proof fn law_default_matrices_nest(v: u64, ho: u64, depth: u64, depth_ho: u64)
    requires
        1 <= depth < 4,
        quant::has_default(v, ho, (depth + 1) as u64, depth_ho),
    ensures
        ({
            let m = quant::default_matrix(v, ho, depth, depth_ho);
            let n = quant::default_matrix(v, ho, (depth + 1) as u64, depth_ho);
            let raised = if v == 3 && ho == 3 {
                4int
            } else {
                0
            };
            &&& n.len() == m.len() + 1
            &&& forall|l: int, k: int|
                0 <= l < m.len() && 0 <= k < values_of(m[l]).len() ==> values_of(n[l])[k]
                    == #[trigger] values_of(m[l])[k] + raised
        }),
{
    let m = quant::default_matrix(v, ho, depth, depth_ho);
    let n = quant::default_matrix(v, ho, (depth + 1) as u64, depth_ho);
    assert forall|l: int, k: int|
        0 <= l < m.len() && 0 <= k < values_of(m[l]).len() implies values_of(n[l])[k]
        == #[trigger] values_of(m[l])[k] + if v == 3 && ho == 3 {
        4int
    } else {
        0
    } by {
        if l > depth_ho {
            let table = quant::table_of(v, ho);
            let a = quant::column_ac(table, depth_ho as int, depth as int)[l - 1 - depth_ho];
            let b = quant::column_ac(table, depth_ho as int, depth + 1)[l - 1 - depth_ho];
            assert(table != 4 ==> a == b);
        }
    }
}

} // verus!
