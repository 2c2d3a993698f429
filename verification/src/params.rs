//! Sequence headers: parse parameters, the base-video-format defaults, the
//! source-parameter overrides with their preset tables, and the coding
//! parameters derived from them.
use crate::bitio::{BitReader, Input};
use crate::error::{Error, Result};
use crate::reading;
use vstd::arithmetic::power2;
use vstd::prelude::*;

verus! {

/// Colour-difference subsampling.
#[derive(Debug, Clone, Copy, PartialEq, Eq, Structural)]
pub enum ColorDiffFormat {
    /// 4:4:4, chroma at full resolution.
    Yuv444,
    /// 4:2:2, chroma horizontally halved.
    Yuv422,
    /// 4:2:0, chroma halved in both dimensions.
    Yuv420,
}

impl ColorDiffFormat {
    /// The format of a signalled index.
    pub open spec fn spec_from_index(idx: u64) -> Result<ColorDiffFormat> {
        if idx == 0 {
            Ok(ColorDiffFormat::Yuv444)
        } else if idx == 1 {
            Ok(ColorDiffFormat::Yuv422)
        } else if idx == 2 {
            Ok(ColorDiffFormat::Yuv420)
        } else {
            Err(Error::InvalidValue("color_diff_format_index out of 0..=2"))
        }
    }

    fn from_index(idx: u64) -> (r: Result<Self>)
        ensures
            r == Self::spec_from_index(idx),
    {
        match idx {
            0 => Ok(ColorDiffFormat::Yuv444),
            1 => Ok(ColorDiffFormat::Yuv422),
            2 => Ok(ColorDiffFormat::Yuv420),
            _ => Err(Error::InvalidValue("color_diff_format_index out of 0..=2")),
        }
    }

    /// The index that signals this format.
    pub fn index(self) -> (idx: u64)
        ensures
            Self::spec_from_index(idx) == Ok::<ColorDiffFormat, Error>(self),
            idx <= 2,
    {
        match self {
            ColorDiffFormat::Yuv444 => 0,
            ColorDiffFormat::Yuv422 => 1,
            ColorDiffFormat::Yuv420 => 2,
        }
    }
}

/// Source video parameters: the fields that decoding needs and the display
/// metadata that a container needs to describe the essence.
#[derive(Debug, Clone, Copy)]
pub struct VideoParameters {
    pub frame_width: u64,
    pub frame_height: u64,
    pub color_diff_format: ColorDiffFormat,
    /// 0 = progressive, 1 = interlaced.
    pub source_sampling: u64,
    pub top_field_first: bool,
    /// Frames per second are `frame_rate_numer / frame_rate_denom`, also where
    /// the pictures are fields.
    pub frame_rate_numer: u64,
    /// See [`Self::frame_rate_numer`].
    pub frame_rate_denom: u64,
    /// The ratio of horizontal to vertical sample spacing is
    /// `pixel_aspect_ratio_numer : pixel_aspect_ratio_denom`.
    pub pixel_aspect_ratio_numer: u64,
    /// See [`Self::pixel_aspect_ratio_numer`].
    pub pixel_aspect_ratio_denom: u64,
    /// Width of the clean area, the region meant for display.
    pub clean_width: u64,
    /// Height of the clean area.
    pub clean_height: u64,
    /// Left offset of the clean area.
    pub left_offset: u64,
    /// Top offset of the clean area.
    pub top_offset: u64,
    pub luma_offset: u64,
    pub luma_excursion: u64,
    pub color_diff_offset: u64,
    pub color_diff_excursion: u64,
    /// Colour-primaries index.
    pub color_primaries_index: u64,
    /// Colour-matrix index.
    pub color_matrix_index: u64,
    /// Transfer-function index.
    pub transfer_function_index: u64,
}

/// Which custom flags a sequence header set, and the indices it signalled.
#[derive(Debug, Clone, Copy, PartialEq, Eq)]
pub struct SourceOverrides {
    /// Frame-size override flag.
    pub custom_dimensions_flag: bool,
    /// Colour-difference sampling override flag.
    pub custom_chroma_format_flag: bool,
    /// Scan-format override flag.
    pub custom_scan_format_flag: bool,
    /// Frame-rate override flag.
    pub custom_frame_rate_flag: bool,
    /// Frame-rate index signalled when the flag is set (0 = explicit
    /// values follow, 1..=16 = preset).
    pub frame_rate_index: Option<u64>,
    /// Pixel-aspect-ratio override flag.
    pub custom_pixel_aspect_ratio_flag: bool,
    /// Aspect-ratio index signalled when the flag is set (0 = explicit,
    /// 1..=6 = preset).
    pub pixel_aspect_ratio_index: Option<u64>,
    /// Clean-area override flag.
    pub custom_clean_area_flag: bool,
    /// Signal-range override flag.
    pub custom_signal_range_flag: bool,
    /// Signal-range index signalled when the flag is set (0 = explicit,
    /// 1..=8 = preset).
    pub signal_range_index: Option<u64>,
    /// Colour-specification override flag.
    pub custom_color_spec_flag: bool,
    /// Colour-specification index signalled when the flag is set (0 = custom,
    /// with optional per-part overrides; 1..=7 = preset).
    pub color_spec_index: Option<u64>,
}

/// The overrides of a header that sets no custom flag.
pub open spec fn no_overrides() -> SourceOverrides {
    SourceOverrides {
        custom_dimensions_flag: false,
        custom_chroma_format_flag: false,
        custom_scan_format_flag: false,
        custom_frame_rate_flag: false,
        frame_rate_index: None,
        custom_pixel_aspect_ratio_flag: false,
        pixel_aspect_ratio_index: None,
        custom_clean_area_flag: false,
        custom_signal_range_flag: false,
        signal_range_index: None,
        custom_color_spec_flag: false,
        color_spec_index: None,
    }
}

impl Default for SourceOverrides {
    fn default() -> (r: Self)
        ensures
            r == no_overrides(),
    {
        SourceOverrides {
            custom_dimensions_flag: false,
            custom_chroma_format_flag: false,
            custom_scan_format_flag: false,
            custom_frame_rate_flag: false,
            frame_rate_index: None,
            custom_pixel_aspect_ratio_flag: false,
            pixel_aspect_ratio_index: None,
            custom_clean_area_flag: false,
            custom_signal_range_flag: false,
            signal_range_index: None,
            custom_color_spec_flag: false,
            color_spec_index: None,
        }
    }
}

/// The preset signal ranges: luma offset and excursion, then
/// colour-difference offset and excursion.
pub open spec fn spec_preset_signal_range(index: u64) -> Result<(u64, u64, u64, u64)> {
    if index == 1 {
        Ok((0, 255, 128, 255))
    } else if index == 2 {
        Ok((16, 219, 128, 224))
    } else if index == 3 {
        Ok((64, 876, 512, 896))
    } else if index == 4 {
        Ok((256, 3504, 2048, 3584))
    } else if index == 5 {
        Ok((0, 1023, 512, 1023))
    } else if index == 6 {
        Ok((0, 4095, 2048, 4095))
    } else if index == 7 {
        Ok((4096, 56064, 32768, 57344))
    } else if index == 8 {
        Ok((0, 65535, 32768, 65535))
    } else {
        Err(Error::InvalidValue("signal range preset index out of 1..=8"))
    }
}

/// Looks up a preset signal range. Index 0 is the explicitly coded
/// range, which has no row here.
pub fn preset_signal_range(index: u64) -> (r: Result<(u64, u64, u64, u64)>)
    ensures
        r == spec_preset_signal_range(index),
{
    match index {
        1 => Ok((0, 255, 128, 255)),
        2 => Ok((16, 219, 128, 224)),
        3 => Ok((64, 876, 512, 896)),
        4 => Ok((256, 3504, 2048, 3584)),
        5 => Ok((0, 1023, 512, 1023)),
        6 => Ok((0, 4095, 2048, 4095)),
        7 => Ok((4096, 56064, 32768, 57344)),
        8 => Ok((0, 65535, 32768, 65535)),
        _ => Err(Error::InvalidValue("signal range preset index out of 1..=8")),
    }
}

/// The preset frame rates: numerator and denominator.
pub open spec fn spec_preset_frame_rate(index: u64) -> Result<(u64, u64)> {
    if index == 1 {
        Ok((24000, 1001))
    } else if index == 2 {
        Ok((24, 1))
    } else if index == 3 {
        Ok((25, 1))
    } else if index == 4 {
        Ok((30000, 1001))
    } else if index == 5 {
        Ok((30, 1))
    } else if index == 6 {
        Ok((50, 1))
    } else if index == 7 {
        Ok((60000, 1001))
    } else if index == 8 {
        Ok((60, 1))
    } else if index == 9 {
        Ok((15000, 1001))
    } else if index == 10 {
        Ok((25, 2))
    } else if index == 11 {
        Ok((48, 1))
    } else if index == 12 {
        Ok((48000, 1001))
    } else if index == 13 {
        Ok((96, 1))
    } else if index == 14 {
        Ok((100, 1))
    } else if index == 15 {
        Ok((120000, 1001))
    } else if index == 16 {
        Ok((120, 1))
    } else {
        Err(Error::InvalidValue("frame rate preset index out of 1..=16"))
    }
}

/// Looks up a preset frame rate.
pub fn preset_frame_rate(index: u64) -> (r: Result<(u64, u64)>)
    ensures
        r == spec_preset_frame_rate(index),
{
    match index {
        1 => Ok((24000, 1001)),
        2 => Ok((24, 1)),
        3 => Ok((25, 1)),
        4 => Ok((30000, 1001)),
        5 => Ok((30, 1)),
        6 => Ok((50, 1)),
        7 => Ok((60000, 1001)),
        8 => Ok((60, 1)),
        9 => Ok((15000, 1001)),
        10 => Ok((25, 2)),
        11 => Ok((48, 1)),
        12 => Ok((48000, 1001)),
        13 => Ok((96, 1)),
        14 => Ok((100, 1)),
        15 => Ok((120000, 1001)),
        16 => Ok((120, 1)),
        _ => Err(Error::InvalidValue("frame rate preset index out of 1..=16")),
    }
}

/// The preset pixel aspect ratios: numerator and denominator.
pub open spec fn spec_preset_pixel_aspect_ratio(index: u64) -> Result<(u64, u64)> {
    if index == 1 {
        Ok((1, 1))
    } else if index == 2 {
        Ok((10, 11))
    } else if index == 3 {
        Ok((12, 11))
    } else if index == 4 {
        Ok((40, 33))
    } else if index == 5 {
        Ok((16, 11))
    } else if index == 6 {
        Ok((4, 3))
    } else {
        Err(Error::InvalidValue("pixel aspect ratio preset index out of 1..=6"))
    }
}

/// Looks up a preset pixel aspect ratio.
pub fn preset_pixel_aspect_ratio(index: u64) -> (r: Result<(u64, u64)>)
    ensures
        r == spec_preset_pixel_aspect_ratio(index),
{
    match index {
        1 => Ok((1, 1)),  // square sampling
        2 => Ok((10, 11)),  // 4:3 525-line systems
        3 => Ok((12, 11)),  // 4:3 625-line systems
        4 => Ok((40, 33)),  // 16:9 525-line systems
        5 => Ok((16, 11)),  // 16:9 625-line systems
        6 => Ok((4, 3)),  // reduced horizontal resolution systems
        _ => Err(Error::InvalidValue("pixel aspect ratio preset index out of 1..=6")),
    }
}

/// The preset colour specifications: primaries, matrix and transfer
/// function indices.
pub open spec fn spec_preset_color_spec(index: u64) -> Result<(u64, u64, u64)> {
    if index == 0 || index == 3 {
        Ok((0, 0, 0))
    } else if index == 1 {
        Ok((1, 1, 0))
    } else if index == 2 {
        Ok((2, 1, 0))
    } else if index == 4 {
        Ok((3, 2, 3))
    } else if index == 5 {
        Ok((4, 4, 0))
    } else if index == 6 {
        Ok((4, 4, 4))
    } else if index == 7 {
        Ok((4, 4, 5))
    } else {
        Err(Error::InvalidValue("color specification preset index out of 0..=7"))
    }
}

/// Looks up a preset colour specification. Index 0 is the custom
/// one: its row is where the optional per-part overrides start from.
pub fn preset_color_spec(index: u64) -> (r: Result<(u64, u64, u64)>)
    ensures
        r == spec_preset_color_spec(index),
{
    match index {
        0 => Ok((0, 0, 0)),  // custom
        1 => Ok((1, 1, 0)),  // SDTV 525
        2 => Ok((2, 1, 0)),  // SDTV 625
        3 => Ok((0, 0, 0)),  // HDTV
        4 => Ok((3, 2, 3)),  // D-Cinema
        5 => Ok((4, 4, 0)),  // UHDTV
        6 => Ok((4, 4, 4)),  // HDR-TV PQ
        7 => Ok((4, 4, 5)),  // HDR-TV HLG
        _ => Err(Error::InvalidValue("color specification preset index out of 0..=7")),
    }
}

/// Frame width and height of a base video format.
pub open spec fn base_frame_size(format: u64) -> (u64, u64) {
    if format == 0 {
        (640, 480)
    } else if format == 1 {
        (176, 120)
    } else if format == 2 {
        (176, 144)
    } else if format == 3 {
        (352, 240)
    } else if format == 4 {
        (352, 288)
    } else if format == 5 {
        (704, 480)
    } else if format == 6 {
        (704, 576)
    } else if format == 7 {
        (720, 480)
    } else if format == 8 {
        (720, 576)
    } else if format == 9 || format == 10 {
        (1280, 720)
    } else if format == 15 {
        (2048, 1080)
    } else if format == 16 {
        (4096, 2160)
    } else if format == 17 || format == 18 {
        (3840, 2160)
    } else if format == 19 || format == 20 {
        (7680, 4320)
    } else if format == 22 {
        (720, 486)
    } else {
        (1920, 1080)
    }
}

/// Frame rate of a base video format.
pub open spec fn base_frame_rate(format: u64) -> (u64, u64) {
    if format == 0 || format == 21 {
        (24000, 1001)
    } else if format == 1 || format == 3 || format == 5 {
        (15000, 1001)
    } else if format == 2 || format == 4 || format == 6 {
        (25, 2)
    } else if format == 7 || format == 11 || format == 22 {
        (30000, 1001)
    } else if format == 8 || format == 12 {
        (25, 1)
    } else if format == 9 || format == 13 || format == 17 || format == 19 {
        (60000, 1001)
    } else if format == 15 || format == 16 {
        (24, 1)
    } else {
        (50, 1)
    }
}

/// Pixel aspect ratio of a base video format: that of a 525-line system, of a
/// 625-line system, or square.
pub open spec fn base_pixel_aspect_ratio(format: u64) -> (u64, u64) {
    if format == 1 || format == 3 || format == 5 || format == 7 || format == 22 {
        (10, 11)
    } else if format == 2 || format == 4 || format == 6 || format == 8 {
        (12, 11)
    } else {
        (1, 1)
    }
}

/// The preset that a base video format takes its signal range from.
pub open spec fn base_signal_range_index(format: u64) -> u64 {
    if format <= 6 {
        1
    } else if format == 15 || format == 16 {
        4
    } else {
        3
    }
}

/// The preset that a base video format takes its colours from.
pub open spec fn base_color_spec_index(format: u64) -> u64 {
    if format == 1 || format == 3 || format == 5 || format == 7 {
        1
    } else if format == 2 || format == 4 || format == 6 || format == 8 {
        2
    } else if format == 15 || format == 16 {
        4
    } else if 17 <= format <= 20 {
        5
    } else {
        3
    }
}

/// The default parameters of a base video format: its frame size, sampling,
/// rates, the clean area (the whole frame but for the two formats whose sides
/// are trimmed by 8 samples), the signal range and the colours.
pub open spec fn spec_set_source_defaults(format: u64) -> Result<VideoParameters> {
    if format > 22 {
        Err(Error::InvalidValue("base_video_format out of 0..=22"))
    } else {
        let (width, height) = base_frame_size(format);
        let (rate_numer, rate_denom) = base_frame_rate(format);
        let (aspect_numer, aspect_denom) = base_pixel_aspect_ratio(format);
        let trim: u64 = if format == 7 || format == 8 {
            8
        } else {
            0
        };
        let (lo, le, co, ce) = spec_preset_signal_range(base_signal_range_index(format))->Ok_0;
        let (primaries, matrix, transfer) = spec_preset_color_spec(
            base_color_spec_index(format),
        )->Ok_0;
        Ok(
            VideoParameters {
                frame_width: width,
                frame_height: height,
                color_diff_format: if format <= 6 {
                    ColorDiffFormat::Yuv420
                } else if format == 15 || format == 16 {
                    ColorDiffFormat::Yuv444
                } else {
                    ColorDiffFormat::Yuv422
                },
                source_sampling: if format == 7 || format == 8 || format == 11 || format == 12
                    || format == 22 {
                    1
                } else {
                    0
                },
                top_field_first: !(format == 0 || format == 1 || format == 3 || format == 5
                    || format == 7 || format == 22),
                frame_rate_numer: rate_numer,
                frame_rate_denom: rate_denom,
                pixel_aspect_ratio_numer: aspect_numer,
                pixel_aspect_ratio_denom: aspect_denom,
                clean_width: (width - 2 * trim) as u64,
                clean_height: height,
                left_offset: trim,
                top_offset: 0,
                luma_offset: lo,
                luma_excursion: le,
                color_diff_offset: co,
                color_diff_excursion: ce,
                color_primaries_index: primaries,
                color_matrix_index: matrix,
                transfer_function_index: transfer,
            },
        )
    }
}

/// One row of the base-video-format table: frame size, chroma format, source
/// sampling, field order, frame rate, pixel aspect ratio, clean area (width,
/// height, left and top offset), signal range (luma offset and excursion,
/// colour-difference offset and excursion) and colour indices.
fn base_row(
    size: (u64, u64),
    chroma: ColorDiffFormat,
    source_sampling: u64,
    top_field_first: bool,
    rate: (u64, u64),
    aspect: (u64, u64),
    clean: (u64, u64, u64, u64),
    range: (u64, u64, u64, u64),
    colors: (u64, u64, u64),
) -> (r: VideoParameters)
    ensures
        r == (VideoParameters {
            frame_width: size.0,
            frame_height: size.1,
            color_diff_format: chroma,
            source_sampling,
            top_field_first,
            frame_rate_numer: rate.0,
            frame_rate_denom: rate.1,
            pixel_aspect_ratio_numer: aspect.0,
            pixel_aspect_ratio_denom: aspect.1,
            clean_width: clean.0,
            clean_height: clean.1,
            left_offset: clean.2,
            top_offset: clean.3,
            luma_offset: range.0,
            luma_excursion: range.1,
            color_diff_offset: range.2,
            color_diff_excursion: range.3,
            color_primaries_index: colors.0,
            color_matrix_index: colors.1,
            transfer_function_index: colors.2,
        }),
{
    VideoParameters {
        frame_width: size.0,
        frame_height: size.1,
        color_diff_format: chroma,
        source_sampling,
        top_field_first,
        frame_rate_numer: rate.0,
        frame_rate_denom: rate.1,
        pixel_aspect_ratio_numer: aspect.0,
        pixel_aspect_ratio_denom: aspect.1,
        clean_width: clean.0,
        clean_height: clean.1,
        left_offset: clean.2,
        top_offset: clean.3,
        luma_offset: range.0,
        luma_excursion: range.1,
        color_diff_offset: range.2,
        color_diff_excursion: range.3,
        color_primaries_index: colors.0,
        color_matrix_index: colors.1,
        transfer_function_index: colors.2,
    }
}

/// The default parameters of a base video format.
pub fn set_source_defaults(base_video_format: u64) -> (r: Result<VideoParameters>)
    ensures
        r == spec_set_source_defaults(base_video_format),
{
    match base_video_format {
        // Custom Format
        0 => Ok(base_row((640, 480), ColorDiffFormat::Yuv420, 0, false, (24000, 1001), (1, 1), (640, 480, 0, 0), (0, 255, 128, 255), (0, 0, 0))),
        // QSIF525
        1 => Ok(base_row((176, 120), ColorDiffFormat::Yuv420, 0, false, (15000, 1001), (10, 11), (176, 120, 0, 0), (0, 255, 128, 255), (1, 1, 0))),
        // QCIF
        2 => Ok(base_row((176, 144), ColorDiffFormat::Yuv420, 0, true, (25, 2), (12, 11), (176, 144, 0, 0), (0, 255, 128, 255), (2, 1, 0))),
        // SIF525
        3 => Ok(base_row((352, 240), ColorDiffFormat::Yuv420, 0, false, (15000, 1001), (10, 11), (352, 240, 0, 0), (0, 255, 128, 255), (1, 1, 0))),
        // CIF
        4 => Ok(base_row((352, 288), ColorDiffFormat::Yuv420, 0, true, (25, 2), (12, 11), (352, 288, 0, 0), (0, 255, 128, 255), (2, 1, 0))),
        // 4SIF525
        5 => Ok(base_row((704, 480), ColorDiffFormat::Yuv420, 0, false, (15000, 1001), (10, 11), (704, 480, 0, 0), (0, 255, 128, 255), (1, 1, 0))),
        // 4CIF
        6 => Ok(base_row((704, 576), ColorDiffFormat::Yuv420, 0, true, (25, 2), (12, 11), (704, 576, 0, 0), (0, 255, 128, 255), (2, 1, 0))),
        // SD 480i-60
        7 => Ok(base_row((720, 480), ColorDiffFormat::Yuv422, 1, false, (30000, 1001), (10, 11), (704, 480, 8, 0), (64, 876, 512, 896), (1, 1, 0))),
        // SD 576i-50
        8 => Ok(base_row((720, 576), ColorDiffFormat::Yuv422, 1, true, (25, 1), (12, 11), (704, 576, 8, 0), (64, 876, 512, 896), (2, 1, 0))),
        // HD 720p-60
        9 => Ok(base_row((1280, 720), ColorDiffFormat::Yuv422, 0, true, (60000, 1001), (1, 1), (1280, 720, 0, 0), (64, 876, 512, 896), (0, 0, 0))),
        // HD 720p-50
        10 => Ok(base_row((1280, 720), ColorDiffFormat::Yuv422, 0, true, (50, 1), (1, 1), (1280, 720, 0, 0), (64, 876, 512, 896), (0, 0, 0))),
        // HD 1080i-60
        11 => Ok(base_row((1920, 1080), ColorDiffFormat::Yuv422, 1, true, (30000, 1001), (1, 1), (1920, 1080, 0, 0), (64, 876, 512, 896), (0, 0, 0))),
        // HD 1080i-50
        12 => Ok(base_row((1920, 1080), ColorDiffFormat::Yuv422, 1, true, (25, 1), (1, 1), (1920, 1080, 0, 0), (64, 876, 512, 896), (0, 0, 0))),
        // HD 1080p-60
        13 => Ok(base_row((1920, 1080), ColorDiffFormat::Yuv422, 0, true, (60000, 1001), (1, 1), (1920, 1080, 0, 0), (64, 876, 512, 896), (0, 0, 0))),
        // HD 1080p-50
        14 => Ok(base_row((1920, 1080), ColorDiffFormat::Yuv422, 0, true, (50, 1), (1, 1), (1920, 1080, 0, 0), (64, 876, 512, 896), (0, 0, 0))),
        // DC 2K-24
        15 => Ok(base_row((2048, 1080), ColorDiffFormat::Yuv444, 0, true, (24, 1), (1, 1), (2048, 1080, 0, 0), (256, 3504, 2048, 3584), (3, 2, 3))),
        // DC 4K-24
        16 => Ok(base_row((4096, 2160), ColorDiffFormat::Yuv444, 0, true, (24, 1), (1, 1), (4096, 2160, 0, 0), (256, 3504, 2048, 3584), (3, 2, 3))),
        // UHDTV 4K-60
        17 => Ok(base_row((3840, 2160), ColorDiffFormat::Yuv422, 0, true, (60000, 1001), (1, 1), (3840, 2160, 0, 0), (64, 876, 512, 896), (4, 4, 0))),
        // UHDTV 4K-50
        18 => Ok(base_row((3840, 2160), ColorDiffFormat::Yuv422, 0, true, (50, 1), (1, 1), (3840, 2160, 0, 0), (64, 876, 512, 896), (4, 4, 0))),
        // UHDTV 8K-60
        19 => Ok(base_row((7680, 4320), ColorDiffFormat::Yuv422, 0, true, (60000, 1001), (1, 1), (7680, 4320, 0, 0), (64, 876, 512, 896), (4, 4, 0))),
        // UHDTV 8K-50
        20 => Ok(base_row((7680, 4320), ColorDiffFormat::Yuv422, 0, true, (50, 1), (1, 1), (7680, 4320, 0, 0), (64, 876, 512, 896), (4, 4, 0))),
        // HD 1080p-24
        21 => Ok(base_row((1920, 1080), ColorDiffFormat::Yuv422, 0, true, (24000, 1001), (1, 1), (1920, 1080, 0, 0), (64, 876, 512, 896), (0, 0, 0))),
        // SD Pro486
        22 => Ok(base_row((720, 486), ColorDiffFormat::Yuv422, 1, false, (30000, 1001), (10, 11), (720, 486, 0, 0), (64, 876, 512, 896), (0, 0, 0))),
        _ => Err(Error::InvalidValue("base_video_format out of 0..=22")),
    }
}

/// Parse-parameters block of a sequence header.
#[derive(Debug, Clone, Copy)]
pub struct ParseParameters {
    pub major_version: u64,
    pub minor_version: u64,
    pub profile: u64,
    pub level: u64,
}

impl Default for ParseParameters {
    fn default() -> (r: Self)
        ensures
            r.major_version == 0,
            r.minor_version == 0,
            r.profile == 0,
            r.level == 0,
    {
        ParseParameters { major_version: 0, minor_version: 0, profile: 0, level: 0 }
    }
}

/// The four version, profile and level codes.
pub open spec fn spec_parse_parameters(i: Input) -> (Input, ParseParameters) {
    let (i1, major_version) = i.number();
    let (i2, minor_version) = i1.number();
    let (i3, profile) = i2.number();
    let (i4, level) = i3.number();
    (i4, ParseParameters { major_version, minor_version, profile, level })
}

fn parse_parameters(r: &mut BitReader) -> (res: ParseParameters)
    ensures
        (final(r)@, res) == spec_parse_parameters(old(r)@),
        final(r)@.wf(),
        final(r).source() == old(r).source(),
{
    let major_version: u64 = r.read_uint();
    let minor_version: u64 = r.read_uint();
    let profile: u64 = r.read_uint();
    let level: u64 = r.read_uint();
    ParseParameters { major_version, minor_version, profile, level }
}

/// The parameters and overrides that a header has set so far.
pub type Source = (VideoParameters, SourceOverrides);

/// Frame size: a flag, and the two dimensions where it is set.
pub open spec fn spec_frame_size(i: Input, s: Source) -> (Input, Source) {
    let (i1, custom) = i.flag();
    if custom {
        let (i2, frame_width) = i1.number();
        let (i3, frame_height) = i2.number();
        (
            i3,
            (
                VideoParameters { frame_width, frame_height, ..s.0 },
                SourceOverrides { custom_dimensions_flag: true, ..s.1 },
            ),
        )
    } else {
        (i1, s)
    }
}

fn frame_size(r: &mut BitReader, s: Source) -> (res: Source)
    ensures
        (final(r)@, res) == spec_frame_size(old(r)@, s),
        final(r)@.wf(),
        final(r).source() == old(r).source(),
{
    let (mut vp, mut ov) = s;
    if r.read_bool() {
        ov.custom_dimensions_flag = true;
        vp.frame_width = r.read_uint();
        vp.frame_height = r.read_uint();
    }
    (vp, ov)
}

/// Colour-difference format: a flag, and an index where it is set.
pub open spec fn spec_color_diff_sampling_format(i: Input, s: Source) -> (Input, Result<Source>) {
    let (i1, custom) = i.flag();
    if custom {
        let (i2, index) = i1.number();
        if i2.overrun {
            (i2, Err(Error::UnexpectedEof))
        } else {
            match ColorDiffFormat::spec_from_index(index) {
                Ok(color_diff_format) => (
                    i2,
                    Ok(
                        (
                            VideoParameters { color_diff_format, ..s.0 },
                            SourceOverrides { custom_chroma_format_flag: true, ..s.1 },
                        ),
                    ),
                ),
                Err(e) => (i2, Err(e)),
            }
        }
    } else {
        (i1, Ok(s))
    }
}

fn color_diff_sampling_format(r: &mut BitReader, s: Source) -> (res: Result<Source>)
    ensures
        (final(r)@, res) == spec_color_diff_sampling_format(old(r)@, s),
        final(r)@.wf(),
        final(r).source() == old(r).source(),
{
    let (mut vp, mut ov) = s;
    if r.read_bool() {
        ov.custom_chroma_format_flag = true;
        let index: u64 = r.read_uint();
        if r.overrun() {
            return Err(Error::UnexpectedEof);
        }
        vp.color_diff_format = ColorDiffFormat::from_index(index)?;
    }
    Ok((vp, ov))
}

/// Scan format: a flag, and the source sampling where it is set. The field
/// order is never overridden.
pub open spec fn spec_scan_format(i: Input, s: Source) -> (Input, Source) {
    let (i1, custom) = i.flag();
    if custom {
        let (i2, source_sampling) = i1.number();
        (
            i2,
            (
                VideoParameters { source_sampling, ..s.0 },
                SourceOverrides { custom_scan_format_flag: true, ..s.1 },
            ),
        )
    } else {
        (i1, s)
    }
}

fn scan_format(r: &mut BitReader, s: Source) -> (res: Source)
    ensures
        (final(r)@, res) == spec_scan_format(old(r)@, s),
        final(r)@.wf(),
        final(r).source() == old(r).source(),
{
    let (mut vp, mut ov) = s;
    if r.read_bool() {
        ov.custom_scan_format_flag = true;
        vp.source_sampling = r.read_uint();
    }
    (vp, ov)
}

/// Frame rate: a flag; where it is set an index; for index 0 a numerator and a
/// denominator, neither of them zero.
pub open spec fn spec_frame_rate(i: Input, s: Source) -> (Input, Result<Source>) {
    let (i1, custom) = i.flag();
    if custom {
        let (i2, index) = i1.number();
        let ov = SourceOverrides {
            custom_frame_rate_flag: true,
            frame_rate_index: Some(index),
            ..s.1
        };
        if i2.overrun {
            (i2, Err(Error::UnexpectedEof))
        } else if index == 0 {
            let (i3, frame_rate_numer) = i2.number();
            let (i4, frame_rate_denom) = i3.number();
            if i4.overrun {
                (i4, Err(Error::UnexpectedEof))
            } else if frame_rate_numer == 0 || frame_rate_denom == 0 {
                (
                    i4,
                    Err(
                        Error::InvalidValue(
                            "custom frame rate numerator / denominator must be >= 1",
                        ),
                    ),
                )
            } else {
                (i4, Ok((VideoParameters { frame_rate_numer, frame_rate_denom, ..s.0 }, ov)))
            }
        } else {
            match spec_preset_frame_rate(index) {
                Ok((frame_rate_numer, frame_rate_denom)) => (
                    i2,
                    Ok((VideoParameters { frame_rate_numer, frame_rate_denom, ..s.0 }, ov)),
                ),
                Err(e) => (i2, Err(e)),
            }
        }
    } else {
        (i1, Ok(s))
    }
}

fn frame_rate(r: &mut BitReader, s: Source) -> (res: Result<Source>)
    ensures
        (final(r)@, res) == spec_frame_rate(old(r)@, s),
        final(r)@.wf(),
        final(r).source() == old(r).source(),
{
    let (mut vp, mut ov) = s;
    if r.read_bool() {
        ov.custom_frame_rate_flag = true;
        let index: u64 = r.read_uint();
        if r.overrun() {
            return Err(Error::UnexpectedEof);
        }
        ov.frame_rate_index = Some(index);
        if index == 0 {
            vp.frame_rate_numer = r.read_uint();
            vp.frame_rate_denom = r.read_uint();
            if r.overrun() {
                return Err(Error::UnexpectedEof);
            }
            if vp.frame_rate_numer == 0 || vp.frame_rate_denom == 0 {
                return Err(
                    Error::InvalidValue("custom frame rate numerator / denominator must be >= 1"),
                );
            }
        } else {
            let (numer, denom) = preset_frame_rate(index)?;
            vp.frame_rate_numer = numer;
            vp.frame_rate_denom = denom;
        }
    }
    Ok((vp, ov))
}

/// Pixel aspect ratio: laid out as the frame rate.
pub open spec fn spec_pixel_aspect_ratio(i: Input, s: Source) -> (Input, Result<Source>) {
    let (i1, custom) = i.flag();
    if custom {
        let (i2, index) = i1.number();
        let ov = SourceOverrides {
            custom_pixel_aspect_ratio_flag: true,
            pixel_aspect_ratio_index: Some(index),
            ..s.1
        };
        if i2.overrun {
            (i2, Err(Error::UnexpectedEof))
        } else if index == 0 {
            let (i3, pixel_aspect_ratio_numer) = i2.number();
            let (i4, pixel_aspect_ratio_denom) = i3.number();
            if i4.overrun {
                (i4, Err(Error::UnexpectedEof))
            } else if pixel_aspect_ratio_numer == 0 || pixel_aspect_ratio_denom == 0 {
                (
                    i4,
                    Err(
                        Error::InvalidValue(
                            "custom pixel aspect ratio numerator / denominator must be >= 1",
                        ),
                    ),
                )
            } else {
                (
                    i4,
                    Ok(
                        (
                            VideoParameters {
                                pixel_aspect_ratio_numer,
                                pixel_aspect_ratio_denom,
                                ..s.0
                            },
                            ov,
                        ),
                    ),
                )
            }
        } else {
            match spec_preset_pixel_aspect_ratio(index) {
                Ok((pixel_aspect_ratio_numer, pixel_aspect_ratio_denom)) => (
                    i2,
                    Ok(
                        (
                            VideoParameters {
                                pixel_aspect_ratio_numer,
                                pixel_aspect_ratio_denom,
                                ..s.0
                            },
                            ov,
                        ),
                    ),
                ),
                Err(e) => (i2, Err(e)),
            }
        }
    } else {
        (i1, Ok(s))
    }
}

fn pixel_aspect_ratio(r: &mut BitReader, s: Source) -> (res: Result<Source>)
    ensures
        (final(r)@, res) == spec_pixel_aspect_ratio(old(r)@, s),
        final(r)@.wf(),
        final(r).source() == old(r).source(),
{
    let (mut vp, mut ov) = s;
    if r.read_bool() {
        ov.custom_pixel_aspect_ratio_flag = true;
        let index: u64 = r.read_uint();
        if r.overrun() {
            return Err(Error::UnexpectedEof);
        }
        ov.pixel_aspect_ratio_index = Some(index);
        if index == 0 {
            vp.pixel_aspect_ratio_numer = r.read_uint();
            vp.pixel_aspect_ratio_denom = r.read_uint();
            if r.overrun() {
                return Err(Error::UnexpectedEof);
            }
            if vp.pixel_aspect_ratio_numer == 0 || vp.pixel_aspect_ratio_denom == 0 {
                return Err(
                    Error::InvalidValue(
                        "custom pixel aspect ratio numerator / denominator must be >= 1",
                    ),
                );
            }
        } else {
            let (numer, denom) = preset_pixel_aspect_ratio(index)?;
            vp.pixel_aspect_ratio_numer = numer;
            vp.pixel_aspect_ratio_denom = denom;
        }
    }
    Ok((vp, ov))
}

/// Clean area: a flag, and the four extents where it is set.
pub open spec fn spec_clean_area(i: Input, s: Source) -> (Input, Source) {
    let (i1, custom) = i.flag();
    if custom {
        let (i2, clean_width) = i1.number();
        let (i3, clean_height) = i2.number();
        let (i4, left_offset) = i3.number();
        let (i5, top_offset) = i4.number();
        (
            i5,
            (
                VideoParameters { clean_width, clean_height, left_offset, top_offset, ..s.0 },
                SourceOverrides { custom_clean_area_flag: true, ..s.1 },
            ),
        )
    } else {
        (i1, s)
    }
}

fn clean_area(r: &mut BitReader, s: Source) -> (res: Source)
    ensures
        (final(r)@, res) == spec_clean_area(old(r)@, s),
        final(r)@.wf(),
        final(r).source() == old(r).source(),
{
    let (mut vp, mut ov) = s;
    if r.read_bool() {
        ov.custom_clean_area_flag = true;
        vp.clean_width = r.read_uint();
        vp.clean_height = r.read_uint();
        vp.left_offset = r.read_uint();
        vp.top_offset = r.read_uint();
    }
    (vp, ov)
}

/// Signal range: a flag; where it is set an index; for index 0 the four values.
pub open spec fn spec_signal_range(i: Input, s: Source) -> (Input, Result<Source>) {
    let (i1, custom) = i.flag();
    if custom {
        let (i2, index) = i1.number();
        let ov = SourceOverrides {
            custom_signal_range_flag: true,
            signal_range_index: Some(index),
            ..s.1
        };
        if i2.overrun {
            (i2, Err(Error::UnexpectedEof))
        } else if index == 0 {
            let (i3, luma_offset) = i2.number();
            let (i4, luma_excursion) = i3.number();
            let (i5, color_diff_offset) = i4.number();
            let (i6, color_diff_excursion) = i5.number();
            (
                i6,
                Ok(
                    (
                        VideoParameters {
                            luma_offset,
                            luma_excursion,
                            color_diff_offset,
                            color_diff_excursion,
                            ..s.0
                        },
                        ov,
                    ),
                ),
            )
        } else {
            match spec_preset_signal_range(index) {
                Ok((luma_offset, luma_excursion, color_diff_offset, color_diff_excursion)) => (
                    i2,
                    Ok(
                        (
                            VideoParameters {
                                luma_offset,
                                luma_excursion,
                                color_diff_offset,
                                color_diff_excursion,
                                ..s.0
                            },
                            ov,
                        ),
                    ),
                ),
                Err(e) => (i2, Err(e)),
            }
        }
    } else {
        (i1, Ok(s))
    }
}

fn signal_range(r: &mut BitReader, s: Source) -> (res: Result<Source>)
    ensures
        (final(r)@, res) == spec_signal_range(old(r)@, s),
        final(r)@.wf(),
        final(r).source() == old(r).source(),
{
    let (mut vp, mut ov) = s;
    if r.read_bool() {
        ov.custom_signal_range_flag = true;
        let index: u64 = r.read_uint();
        if r.overrun() {
            return Err(Error::UnexpectedEof);
        }
        ov.signal_range_index = Some(index);
        if index == 0 {
            vp.luma_offset = r.read_uint();
            vp.luma_excursion = r.read_uint();
            vp.color_diff_offset = r.read_uint();
            vp.color_diff_excursion = r.read_uint();
        } else {
            let (lo, le, co, ce) = preset_signal_range(index)?;
            vp.luma_offset = lo;
            vp.luma_excursion = le;
            vp.color_diff_offset = co;
            vp.color_diff_excursion = ce;
        }
    }
    Ok((vp, ov))
}

/// One part of a custom colour specification: a flag, and an index of at most
/// `max` where it is set; `current` where it is not.
pub open spec fn spec_color_part(
    i: Input,
    current: u64,
    max: u64,
    complaint: &'static str,
) -> (Input, Result<u64>) {
    let (i1, custom) = i.flag();
    if custom {
        let (i2, index) = i1.number();
        if i2.overrun {
            (i2, Err(Error::UnexpectedEof))
        } else if index > max {
            (i2, Err(Error::InvalidValue(complaint)))
        } else {
            (i2, Ok(index))
        }
    } else {
        (i1, Ok(current))
    }
}

fn color_part(r: &mut BitReader, current: u64, max: u64, complaint: &'static str) -> (res: Result<
    u64,
>)
    ensures
        (final(r)@, res) == spec_color_part(old(r)@, current, max, complaint),
        final(r)@.wf(),
        final(r).source() == old(r).source(),
{
    if r.read_bool() {
        let index: u64 = r.read_uint();
        if r.overrun() {
            return Err(Error::UnexpectedEof);
        }
        if index > max {
            return Err(Error::InvalidValue(complaint));
        }
        return Ok(index);
    }
    Ok(current)
}

/// The parts of a custom colour specification: primaries, matrix and transfer
/// function, those of `preset` where they are not given.
pub open spec fn spec_color_parts(i: Input, preset: (u64, u64, u64)) -> (Input, Result<
    (u64, u64, u64),
>) {
    match spec_color_part(i, preset.0, 4, "color primaries preset index out of 0..=4") {
        (i1, Err(e)) => (i1, Err(e)),
        (i1, Ok(primaries)) => match spec_color_part(
            i1,
            preset.1,
            4,
            "color matrix preset index out of 0..=4",
        ) {
            (i2, Err(e)) => (i2, Err(e)),
            (i2, Ok(matrix)) => match spec_color_part(
                i2,
                preset.2,
                5,
                "transfer function preset index out of 0..=5",
            ) {
                (i3, Err(e)) => (i3, Err(e)),
                (i3, Ok(transfer)) => (i3, Ok((primaries, matrix, transfer))),
            },
        },
    }
}

/// Colour specification: a flag; where it is set an index, whose preset is
/// taken; for index 0 the optional primaries, matrix and transfer function.
pub open spec fn spec_color_spec(i: Input, s: Source) -> (Input, Result<Source>) {
    let (i1, custom) = i.flag();
    if custom {
        let (i2, index) = i1.number();
        let ov = SourceOverrides {
            custom_color_spec_flag: true,
            color_spec_index: Some(index),
            ..s.1
        };
        if i2.overrun {
            (i2, Err(Error::UnexpectedEof))
        } else {
            match spec_preset_color_spec(index) {
                Err(e) => (i2, Err(e)),
                Ok((primaries, matrix, transfer)) => if index != 0 {
                    (
                        i2,
                        Ok(
                            (
                                VideoParameters {
                                    color_primaries_index: primaries,
                                    color_matrix_index: matrix,
                                    transfer_function_index: transfer,
                                    ..s.0
                                },
                                ov,
                            ),
                        ),
                    )
                } else {
                    match spec_color_parts(i2, (primaries, matrix, transfer)) {
                        (i3, Err(e)) => (i3, Err(e)),
                        (
                            i3,
                            Ok(
                                (
                                    color_primaries_index,
                                    color_matrix_index,
                                    transfer_function_index,
                                ),
                            ),
                        ) => (
                            i3,
                            Ok(
                                (
                                    VideoParameters {
                                        color_primaries_index,
                                        color_matrix_index,
                                        transfer_function_index,
                                        ..s.0
                                    },
                                    ov,
                                ),
                            ),
                        ),
                    }
                },
            }
        }
    } else {
        (i1, Ok(s))
    }
}

fn color_spec(r: &mut BitReader, s: Source) -> (res: Result<Source>)
    ensures
        (final(r)@, res) == spec_color_spec(old(r)@, s),
        final(r)@.wf(),
        final(r).source() == old(r).source(),
{
    let (mut vp, mut ov) = s;
    if r.read_bool() {
        ov.custom_color_spec_flag = true;
        let index: u64 = r.read_uint();
        if r.overrun() {
            return Err(Error::UnexpectedEof);
        }
        ov.color_spec_index = Some(index);
        let (primaries, matrix, transfer) = preset_color_spec(index)?;
        vp.color_primaries_index = primaries;
        vp.color_matrix_index = matrix;
        vp.transfer_function_index = transfer;
        if index == 0 {
            vp.color_primaries_index = color_part(
                r,
                primaries,
                4,
                "color primaries preset index out of 0..=4",
            )?;
            vp.color_matrix_index = color_part(
                r,
                matrix,
                4,
                "color matrix preset index out of 0..=4",
            )?;
            vp.transfer_function_index = color_part(
                r,
                transfer,
                5,
                "transfer function preset index out of 0..=5",
            )?;
        }
    }
    Ok((vp, ov))
}

/// The overrides of the signal: its range and its colour specification.
pub open spec fn spec_signal_overrides(i: Input, s: Source) -> (Input, Result<Source>) {
    match spec_signal_range(i, s) {
        (i1, Err(e)) => (i1, Err(e)),
        (i1, Ok(s1)) => spec_color_spec(i1, s1),
    }
}

/// The overrides from the frame rate on: frame rate, pixel aspect ratio and
/// clean area, then those of the signal.
pub open spec fn spec_later_overrides(i: Input, s: Source) -> (Input, Result<Source>) {
    match spec_frame_rate(i, s) {
        (i1, Err(e)) => (i1, Err(e)),
        (i1, Ok(s1)) => match spec_pixel_aspect_ratio(i1, s1) {
            (i2, Err(e)) => (i2, Err(e)),
            (i2, Ok(s2)) => {
                let (i3, s3) = spec_clean_area(i2, s2);
                spec_signal_overrides(i3, s3)
            },
        },
    }
}

/// Every override in turn: frame size, colour-difference format and scan format,
/// then those from the frame rate on.
pub open spec fn spec_overrides(i: Input, s: Source) -> (Input, Result<Source>) {
    let (i1, s1) = spec_frame_size(i, s);
    match spec_color_diff_sampling_format(i1, s1) {
        (i2, Err(e)) => (i2, Err(e)),
        (i2, Ok(s2)) => {
            let (i3, s3) = spec_scan_format(i2, s2);
            spec_later_overrides(i3, s3)
        },
    }
}

/// The source parameters: the defaults of the base video format, then each
/// override in turn.
pub open spec fn spec_source_parameters(i: Input, base_video_format: u64) -> (Input, Result<
    Source,
>) {
    match spec_set_source_defaults(base_video_format) {
        Err(e) => (i, Err(e)),
        Ok(vp) => spec_overrides(i, (vp, no_overrides())),
    }
}

fn source_parameters(r: &mut BitReader, base_video_format: u64) -> (res: Result<Source>)
    ensures
        (final(r)@, res) == spec_source_parameters(old(r)@, base_video_format),
        final(r).source() == old(r).source(),
{
    let vp: VideoParameters = set_source_defaults(base_video_format)?;
    let s: Source = (vp, SourceOverrides::default());
    let s: Source = frame_size(r, s);
    let s: Source = color_diff_sampling_format(r, s)?;
    let s: Source = scan_format(r, s);
    let s: Source = frame_rate(r, s)?;
    let s: Source = pixel_aspect_ratio(r, s)?;
    let s: Source = clean_area(r, s);
    let s: Source = signal_range(r, s)?;
    color_spec(r, s)
}

/// Coding parameters: the picture dimensions and sample depths.
#[derive(Debug, Clone, Copy)]
pub struct CodingParameters {
    pub luma_width: u64,
    pub luma_height: u64,
    pub color_diff_width: u64,
    pub color_diff_height: u64,
    pub luma_depth: u32,
    pub color_diff_depth: u32,
}

/// How often `n` has to be halved, rounding up, to come down to 1.
pub open spec fn spec_intlog2(n: int) -> nat
    decreases n,
{
    if n <= 1 {
        0
    } else {
        1 + spec_intlog2((n + 1) / 2)
    }
}

/// `intlog2(n)` is the exponent of the least power of two that is not below `n`.
pub proof fn law_intlog2_is_the_ceiling_logarithm(n: int)
    requires
        n >= 1,
    ensures
        n <= power2::pow2(spec_intlog2(n)),
        spec_intlog2(n) > 0 ==> power2::pow2((spec_intlog2(n) - 1) as nat) < n,
        forall|m: nat| n <= #[trigger] power2::pow2(m) ==> spec_intlog2(n) <= m,
    decreases n,
{
    let m = spec_intlog2(n);
    if n == 1 {
        power2::lemma2_to64();
    } else {
        let half = (n + 1) / 2;
        law_intlog2_is_the_ceiling_logarithm(half);
        power2::lemma_pow2_unfold(m);
        if m >= 2 {
            power2::lemma_pow2_unfold((m - 1) as nat);
        } else {
            power2::lemma2_to64();
        }
    }
    assert forall|k: nat| n <= #[trigger] power2::pow2(k) implies m <= k by {
        if k < m {
            if k < m - 1 {
                power2::lemma_pow2_strictly_increases(k, (m - 1) as nat);
            }
        }
    }
}

/// The number of bits that tell `n` values apart: the least `m` with
/// `n <= 2^m`.
pub fn intlog2(n: u64) -> (m: u32)
    requires
        n <= 0x8000_0000_0000_0000,
    ensures
        m == spec_intlog2(n as int),
        m <= 63,
{
    if n <= 1 {
        return 0;
    }
    let mut m: u32 = 0;
    let mut p: u64 = 1;
    proof {
        power2::lemma2_to64();
        law_intlog2_is_the_ceiling_logarithm(n as int);
    }
    while p < n
        invariant
            1 < n <= 0x8000_0000_0000_0000,
            p == power2::pow2(m as nat),
            m <= 63,
            m <= spec_intlog2(n as int),
            forall|k: nat| n <= #[trigger] power2::pow2(k) ==> spec_intlog2(n as int) <= k,
            n <= power2::pow2(spec_intlog2(n as int)),
        decreases 64 - m,
    {
        proof {
            power2::lemma_pow2_unfold((m + 1) as nat);
            power2::lemma2_to64_rest();
            if m >= 63 {
                if m > 63 {
                    power2::lemma_pow2_strictly_increases(63, m as nat);
                }
                assert(false);
            }
            if spec_intlog2(n as int) <= m {
                if spec_intlog2(n as int) < m {
                    power2::lemma_pow2_strictly_increases(spec_intlog2(n as int), m as nat);
                }
                assert(false);
            }
        }
        p = 2 * p;
        m = m + 1;
    }
    m
}

/// Chroma is halved as the format says; a picture that is a field has half the
/// lines. A depth is the number of bits that the excursion takes.
pub open spec fn spec_set_coding_parameters(
    vp: VideoParameters,
    picture_coding_mode: u64,
) -> CodingParameters {
    let field_lines: u64 = if picture_coding_mode == 1 {
        2
    } else {
        1
    };
    CodingParameters {
        luma_width: vp.frame_width,
        luma_height: (vp.frame_height / field_lines) as u64,
        color_diff_width: match vp.color_diff_format {
            ColorDiffFormat::Yuv444 => vp.frame_width,
            _ => vp.frame_width / 2,
        },
        color_diff_height: match vp.color_diff_format {
            ColorDiffFormat::Yuv420 => (vp.frame_height / 2) / field_lines,
            _ => vp.frame_height / field_lines,
        },
        luma_depth: spec_intlog2(vp.luma_excursion + 1) as u32,
        color_diff_depth: spec_intlog2(vp.color_diff_excursion + 1) as u32,
    }
}

/// Derives the coding parameters. `picture_coding_mode` 1 codes fields.
pub fn set_coding_parameters(vp: &VideoParameters, picture_coding_mode: u64) -> (r:
    CodingParameters)
    requires
        vp.luma_excursion < 0x8000_0000_0000_0000,
        vp.color_diff_excursion < 0x8000_0000_0000_0000,
    ensures
        r == spec_set_coding_parameters(*vp, picture_coding_mode),
        r.luma_depth == spec_intlog2(vp.luma_excursion + 1),
        r.color_diff_depth == spec_intlog2(vp.color_diff_excursion + 1),
{
    let luma_width: u64 = vp.frame_width;
    let mut luma_height: u64 = vp.frame_height;
    let mut color_diff_width: u64 = luma_width;
    let mut color_diff_height: u64 = luma_height;
    match vp.color_diff_format {
        ColorDiffFormat::Yuv444 => {},
        ColorDiffFormat::Yuv422 => {
            color_diff_width = color_diff_width / 2;
        },
        ColorDiffFormat::Yuv420 => {
            color_diff_width = color_diff_width / 2;
            color_diff_height = color_diff_height / 2;
        },
    }
    if picture_coding_mode == 1 {
        luma_height = luma_height / 2;
        color_diff_height = color_diff_height / 2;
    }
    CodingParameters {
        luma_width,
        luma_height,
        color_diff_width,
        color_diff_height,
        luma_depth: intlog2(vp.luma_excursion + 1),
        color_diff_depth: intlog2(vp.color_diff_excursion + 1),
    }
}

/// A parsed sequence header.
#[derive(Debug, Clone, Copy)]
pub struct SequenceHeader {
    pub parse_parameters: ParseParameters,
    pub base_video_format: u64,
    pub video_parameters: VideoParameters,
    /// Which custom flags the header set, and the indices it signalled.
    pub source_overrides: SourceOverrides,
    pub picture_coding_mode: u64,
    pub coding_parameters: CodingParameters,
}

/// What is wrong with the values of a completely read header, if anything: a
/// reserved coding mode, an empty frame, a signalled clean area outside the
/// frame, or a signal range that 16-bit samples cannot represent.
///
/// A clean area that was not signalled is not held against the frame: the
/// default of the base format goes stale where only the frame size is
/// overridden.
pub open spec fn header_fault(vp: VideoParameters, ov: SourceOverrides, mode: u64) -> Option<
    Error,
> {
    if mode > 1 {
        Some(Error::InvalidValue("picture_coding_mode above 1 is reserved"))
    } else if vp.frame_width == 0 || vp.frame_height == 0 {
        Some(Error::InvalidValue("zero frame dimensions"))
    } else if ov.custom_clean_area_flag && !(vp.clean_width + vp.left_offset <= vp.frame_width
        && vp.clean_height + vp.top_offset <= vp.frame_height) {
        Some(Error::InvalidValue("clean area extends outside the frame"))
    } else if !(1 <= vp.luma_excursion <= 65535 && 1 <= vp.color_diff_excursion <= 65535) {
        Some(Error::InvalidValue("signal excursion outside the representable 1..=65535 range"))
    } else if vp.luma_offset > 65535 || vp.color_diff_offset > 65535 {
        Some(Error::InvalidValue("signal offset outside the representable 0..=65535 range"))
    } else {
        None
    }
}

/// A sequence header: parse parameters, base video format, source parameters
/// and picture coding mode. Running past the end comes before every other
/// complaint.
pub open spec fn spec_sequence_header(i: Input) -> (Input, Result<SequenceHeader>) {
    let (i1, parse_parameters) = spec_parse_parameters(i);
    let (i2, base_video_format) = i1.number();
    if i2.overrun {
        (i2, Err(Error::UnexpectedEof))
    } else {
        match spec_source_parameters(i2, base_video_format) {
            (i3, Err(e)) => (i3, Err(e)),
            (i3, Ok((video_parameters, source_overrides))) => {
                let (i4, picture_coding_mode) = i3.number();
                if i4.overrun {
                    (i4, Err(Error::UnexpectedEof))
                } else {
                    match header_fault(video_parameters, source_overrides, picture_coding_mode) {
                        Some(e) => (i4, Err(e)),
                        None => (
                            i4,
                            Ok(
                                SequenceHeader {
                                    parse_parameters,
                                    base_video_format,
                                    video_parameters,
                                    source_overrides,
                                    picture_coding_mode,
                                    coding_parameters: spec_set_coding_parameters(
                                        video_parameters,
                                        picture_coding_mode,
                                    ),
                                },
                            ),
                        ),
                    }
                }
            },
        }
    }
}

/// Whether `extent` from `offset` on stays inside `frame`.
fn fits(extent: u64, offset: u64, frame: u64) -> (b: bool)
    ensures
        b == (extent + offset <= frame),
{
    match extent.checked_add(offset) {
        Some(total) => total <= frame,
        None => false,
    }
}

/// Parses a sequence header and derives its coding parameters.
pub fn sequence_header(r: &mut BitReader) -> (res: Result<SequenceHeader>)
    ensures
        (final(r)@, res) == spec_sequence_header(old(r)@),
        final(r).source() == old(r).source(),
{
    let parse_parameters: ParseParameters = parse_parameters(r);
    let base_video_format: u64 = r.read_uint();
    if r.overrun() {
        return Err(Error::UnexpectedEof);
    }
    let (video_parameters, source_overrides) = source_parameters(r, base_video_format)?;
    let picture_coding_mode: u64 = r.read_uint();
    if r.overrun() {
        return Err(Error::UnexpectedEof);
    }
    if picture_coding_mode > 1 {
        return Err(Error::InvalidValue("picture_coding_mode above 1 is reserved"));
    }
    if video_parameters.frame_width == 0 || video_parameters.frame_height == 0 {
        return Err(Error::InvalidValue("zero frame dimensions"));
    }
    if source_overrides.custom_clean_area_flag && !(fits(
        video_parameters.clean_width,
        video_parameters.left_offset,
        video_parameters.frame_width,
    ) && fits(
        video_parameters.clean_height,
        video_parameters.top_offset,
        video_parameters.frame_height,
    )) {
        return Err(Error::InvalidValue("clean area extends outside the frame"));
    }
    if video_parameters.luma_excursion == 0 || video_parameters.luma_excursion > 65535
        || video_parameters.color_diff_excursion == 0 || video_parameters.color_diff_excursion
        > 65535 {
        return Err(
            Error::InvalidValue("signal excursion outside the representable 1..=65535 range"),
        );
    }
    if video_parameters.luma_offset > 65535 || video_parameters.color_diff_offset > 65535 {
        return Err(Error::InvalidValue("signal offset outside the representable 0..=65535 range"));
    }
    let coding_parameters: CodingParameters = set_coding_parameters(
        &video_parameters,
        picture_coding_mode,
    );
    Ok(
        SequenceHeader {
            parse_parameters,
            base_video_format,
            video_parameters,
            source_overrides,
            picture_coding_mode,
            coding_parameters,
        },
    )
}

impl VideoParameters {
    /// Whether the terms of the frame rate and of the pixel aspect ratio are at
    /// least 1.
    pub open spec fn positive_ratios(self) -> bool {
        &&& self.frame_rate_numer >= 1
        &&& self.frame_rate_denom >= 1
        &&& self.pixel_aspect_ratio_numer >= 1
        &&& self.pixel_aspect_ratio_denom >= 1
    }
}

impl SequenceHeader {
    /// What holds of every header that parses: its base video format is defined,
    /// the terms of its frame rate and pixel aspect ratio are positive, its
    /// values are representable, and its coding parameters are the derived ones.
    pub open spec fn valid(self) -> bool {
        &&& self.base_video_format <= 22
        &&& self.video_parameters.positive_ratios()
        &&& header_fault(self.video_parameters, self.source_overrides, self.picture_coding_mode)
            is None
        &&& self.coding_parameters == spec_set_coding_parameters(
            self.video_parameters,
            self.picture_coding_mode,
        )
    }

    /// Whether the colour-difference components are no larger than luma, and
    /// the depths are small enough for the sample arithmetic.
    pub open spec fn decodable(self) -> bool {
        let cp = self.coding_parameters;
        &&& cp.color_diff_width <= cp.luma_width
        &&& cp.color_diff_height <= cp.luma_height
        &&& cp.luma_depth <= 63
        &&& cp.color_diff_depth <= 63
    }
}

/// The samples of a valid sequence are 1 to 16 bits deep, and its chroma is
/// never larger than its luma.
pub proof fn law_valid_header_depths(h: SequenceHeader)
    requires
        h.valid(),
    ensures
        1 <= h.coding_parameters.luma_depth <= 16,
        1 <= h.coding_parameters.color_diff_depth <= 16,
        h.coding_parameters.luma_depth == spec_intlog2(h.video_parameters.luma_excursion + 1),
        h.coding_parameters.color_diff_depth == spec_intlog2(
            h.video_parameters.color_diff_excursion + 1,
        ),
        h.decodable(),
{
    lemma_depth_range(h.video_parameters.luma_excursion as int);
    lemma_depth_range(h.video_parameters.color_diff_excursion as int);
}

proof fn lemma_depth_range(excursion: int)
    requires
        1 <= excursion <= 65535,
    ensures
        1 <= spec_intlog2(excursion + 1) <= 16,
{
    power2::lemma2_to64();
    law_intlog2_is_the_ceiling_logarithm(excursion + 1);
    assert(excursion + 1 <= power2::pow2(16));
}

/// The default clean area of every base video format lies inside its frame.
pub proof fn law_default_clean_area_fits(format: u64)
    requires
        format <= 22,
    ensures
        spec_set_source_defaults(format) matches Ok(vp) && vp.clean_width + vp.left_offset
            <= vp.frame_width && vp.clean_height + vp.top_offset <= vp.frame_height,
{
}

/// The full-range preset signal ranges have no luma offset and put the chroma zero
/// point at half scale.
pub proof fn law_full_range_presets_are_centred(index: u64)
    requires
        index == 1 || index == 5 || index == 6 || index == 8,
    ensures
        spec_preset_signal_range(index) matches Ok((lo, le, co, ce)) && lo == 0 && 2 * co == le + 1
            && ce == le,
{
}

proof fn lemma_parse_parameters(a: Input, b: Input)
    requires
        a.wf(),
    ensures
        a.moved_on(spec_parse_parameters(a).0),
        a.alike(b, spec_parse_parameters(a), spec_parse_parameters(b)),
{
    let a1 = a.number().0;
    let b1 = b.number().0;
    let a2 = a1.number().0;
    let b2 = b1.number().0;
    let a3 = a2.number().0;
    let b3 = b2.number().0;
    reading::lemma_number(a, b);
    reading::lemma_number(a1, b1);
    reading::lemma_number(a2, b2);
    reading::lemma_number(a3, b3);
}

proof fn lemma_frame_size(a: Input, b: Input, s: Source)
    requires
        a.wf(),
    ensures
        a.moved_on(spec_frame_size(a, s).0),
        a.alike(b, spec_frame_size(a, s), spec_frame_size(b, s)),
{
    reading::lemma_flag(a, b);
    let a1 = a.flag().0;
    let b1 = b.flag().0;
    reading::lemma_number(a1, b1);
    let a2 = a1.number().0;
    let b2 = b1.number().0;
    reading::lemma_number(a2, b2);
}

proof fn lemma_scan_format(a: Input, b: Input, s: Source)
    requires
        a.wf(),
    ensures
        a.moved_on(spec_scan_format(a, s).0),
        a.alike(b, spec_scan_format(a, s), spec_scan_format(b, s)),
{
    reading::lemma_flag(a, b);
    let a1 = a.flag().0;
    let b1 = b.flag().0;
    reading::lemma_number(a1, b1);
}

proof fn lemma_clean_area(a: Input, b: Input, s: Source)
    requires
        a.wf(),
    ensures
        a.moved_on(spec_clean_area(a, s).0),
        a.alike(b, spec_clean_area(a, s), spec_clean_area(b, s)),
{
    reading::lemma_flag(a, b);
    let a1 = a.flag().0;
    let b1 = b.flag().0;
    reading::lemma_number(a1, b1);
    let a2 = a1.number().0;
    let b2 = b1.number().0;
    reading::lemma_number(a2, b2);
    let a3 = a2.number().0;
    let b3 = b2.number().0;
    reading::lemma_number(a3, b3);
    let a4 = a3.number().0;
    let b4 = b3.number().0;
    reading::lemma_number(a4, b4);
}

proof fn lemma_color_diff_sampling_format(a: Input, b: Input, s: Source)
    requires
        a.wf(),
    ensures
        a.moved_on(spec_color_diff_sampling_format(a, s).0),
        reading::owns_up(spec_color_diff_sampling_format(a, s)),
        a.alike(b, spec_color_diff_sampling_format(a, s), spec_color_diff_sampling_format(b, s)),
{
    reading::lemma_flag(a, b);
    let a1 = a.flag().0;
    let b1 = b.flag().0;
    reading::lemma_number(a1, b1);
}

proof fn lemma_frame_rate(a: Input, b: Input, s: Source)
    requires
        a.wf(),
    ensures
        a.moved_on(spec_frame_rate(a, s).0),
        reading::owns_up(spec_frame_rate(a, s)),
        a.alike(b, spec_frame_rate(a, s), spec_frame_rate(b, s)),
{
    reading::lemma_flag(a, b);
    let a1 = a.flag().0;
    let b1 = b.flag().0;
    reading::lemma_number(a1, b1);
    let a2 = a1.number().0;
    let b2 = b1.number().0;
    reading::lemma_number(a2, b2);
    let a3 = a2.number().0;
    let b3 = b2.number().0;
    reading::lemma_number(a3, b3);
}

proof fn lemma_pixel_aspect_ratio(a: Input, b: Input, s: Source)
    requires
        a.wf(),
    ensures
        a.moved_on(spec_pixel_aspect_ratio(a, s).0),
        reading::owns_up(spec_pixel_aspect_ratio(a, s)),
        a.alike(b, spec_pixel_aspect_ratio(a, s), spec_pixel_aspect_ratio(b, s)),
{
    reading::lemma_flag(a, b);
    let a1 = a.flag().0;
    let b1 = b.flag().0;
    reading::lemma_number(a1, b1);
    let a2 = a1.number().0;
    let b2 = b1.number().0;
    reading::lemma_number(a2, b2);
    let a3 = a2.number().0;
    let b3 = b2.number().0;
    reading::lemma_number(a3, b3);
}

proof fn lemma_signal_range(a: Input, b: Input, s: Source)
    requires
        a.wf(),
    ensures
        a.moved_on(spec_signal_range(a, s).0),
        reading::owns_up(spec_signal_range(a, s)),
        a.alike(b, spec_signal_range(a, s), spec_signal_range(b, s)),
{
    reading::lemma_flag(a, b);
    let a1 = a.flag().0;
    let b1 = b.flag().0;
    reading::lemma_number(a1, b1);
    let a2 = a1.number().0;
    let b2 = b1.number().0;
    reading::lemma_number(a2, b2);
    let a3 = a2.number().0;
    let b3 = b2.number().0;
    reading::lemma_number(a3, b3);
    let a4 = a3.number().0;
    let b4 = b3.number().0;
    reading::lemma_number(a4, b4);
    let a5 = a4.number().0;
    let b5 = b4.number().0;
    reading::lemma_number(a5, b5);
}

proof fn lemma_color_part(a: Input, b: Input, current: u64, max: u64, complaint: &'static str)
    requires
        a.wf(),
    ensures
        a.moved_on(spec_color_part(a, current, max, complaint).0),
        reading::owns_up(spec_color_part(a, current, max, complaint)),
        a.alike(
            b,
            spec_color_part(a, current, max, complaint),
            spec_color_part(b, current, max, complaint),
        ),
{
    reading::lemma_flag(a, b);
    reading::lemma_number(a.flag().0, b.flag().0);
}

proof fn lemma_color_parts(a: Input, b: Input, preset: (u64, u64, u64))
    requires
        a.wf(),
    ensures
        a.moved_on(spec_color_parts(a, preset).0),
        reading::owns_up(spec_color_parts(a, preset)),
        a.alike(b, spec_color_parts(a, preset), spec_color_parts(b, preset)),
{
    let (primaries, matrix, transfer) = preset;
    let say_p = "color primaries preset index out of 0..=4";
    let say_m = "color matrix preset index out of 0..=4";
    let say_t = "transfer function preset index out of 0..=5";
    lemma_color_part(a, b, primaries, 4, say_p);
    let a1 = spec_color_part(a, primaries, 4, say_p).0;
    let b1 = spec_color_part(b, primaries, 4, say_p).0;
    lemma_color_part(a1, b1, matrix, 4, say_m);
    let a2 = spec_color_part(a1, matrix, 4, say_m).0;
    let b2 = spec_color_part(b1, matrix, 4, say_m).0;
    lemma_color_part(a2, b2, transfer, 5, say_t);
}

proof fn lemma_color_spec(a: Input, b: Input, s: Source)
    requires
        a.wf(),
    ensures
        a.moved_on(spec_color_spec(a, s).0),
        reading::owns_up(spec_color_spec(a, s)),
        a.alike(b, spec_color_spec(a, s), spec_color_spec(b, s)),
{
    reading::lemma_flag(a, b);
    let a1 = a.flag().0;
    let b1 = b.flag().0;
    reading::lemma_number(a1, b1);
    let a2 = a1.number().0;
    let b2 = b1.number().0;
    lemma_color_parts(a2, b2, spec_preset_color_spec(0)->Ok_0);
}

proof fn lemma_signal_overrides(a: Input, b: Input, s: Source)
    requires
        a.wf(),
    ensures
        a.moved_on(spec_signal_overrides(a, s).0),
        reading::owns_up(spec_signal_overrides(a, s)),
        a.alike(b, spec_signal_overrides(a, s), spec_signal_overrides(b, s)),
{
    lemma_signal_range(a, b, s);
    let (a1, a_set) = spec_signal_range(a, s);
    let (b1, b_set) = spec_signal_range(b, s);
    lemma_color_spec(a1, b1, a_set->Ok_0);
    if b1.wf() {
        lemma_color_spec(b1, b1, b_set->Ok_0);
    }
}

proof fn lemma_later_overrides(a: Input, b: Input, s: Source)
    requires
        a.wf(),
    ensures
        a.moved_on(spec_later_overrides(a, s).0),
        reading::owns_up(spec_later_overrides(a, s)),
        a.alike(b, spec_later_overrides(a, s), spec_later_overrides(b, s)),
{
    lemma_frame_rate(a, b, s);
    let (a1, a_rate) = spec_frame_rate(a, s);
    let (b1, b_rate) = spec_frame_rate(b, s);
    lemma_after_frame_rate(a1, b1, a_rate->Ok_0);
    if b1.wf() {
        lemma_after_frame_rate(b1, b1, b_rate->Ok_0);
    }
}

/// The overrides behind the frame rate.
spec fn after_frame_rate(i: Input, s: Source) -> (Input, Result<Source>) {
    match spec_pixel_aspect_ratio(i, s) {
        (i1, Err(e)) => (i1, Err(e)),
        (i1, Ok(s1)) => {
            let (i2, s2) = spec_clean_area(i1, s1);
            spec_signal_overrides(i2, s2)
        },
    }
}

proof fn lemma_after_frame_rate(a: Input, b: Input, s: Source)
    requires
        a.wf(),
    ensures
        a.moved_on(after_frame_rate(a, s).0),
        reading::owns_up(after_frame_rate(a, s)),
        a.alike(b, after_frame_rate(a, s), after_frame_rate(b, s)),
{
    lemma_pixel_aspect_ratio(a, b, s);
    let (a1, a_ratio) = spec_pixel_aspect_ratio(a, s);
    let (b1, b_ratio) = spec_pixel_aspect_ratio(b, s);
    lemma_after_aspect_ratio(a1, b1, a_ratio->Ok_0);
    if b1.wf() {
        lemma_after_aspect_ratio(b1, b1, b_ratio->Ok_0);
    }
}

/// The overrides behind the pixel aspect ratio.
spec fn after_aspect_ratio(i: Input, s: Source) -> (Input, Result<Source>) {
    let (i1, s1) = spec_clean_area(i, s);
    spec_signal_overrides(i1, s1)
}

proof fn lemma_after_aspect_ratio(a: Input, b: Input, s: Source)
    requires
        a.wf(),
    ensures
        a.moved_on(after_aspect_ratio(a, s).0),
        reading::owns_up(after_aspect_ratio(a, s)),
        a.alike(b, after_aspect_ratio(a, s), after_aspect_ratio(b, s)),
{
    lemma_clean_area(a, b, s);
    let (a1, a_area) = spec_clean_area(a, s);
    let (b1, b_area) = spec_clean_area(b, s);
    lemma_signal_overrides(a1, b1, a_area);
    if b1.wf() {
        lemma_signal_overrides(b1, b1, b_area);
    }
}

/// The overrides behind the colour-difference format.
spec fn after_chroma_format(i: Input, s: Source) -> (Input, Result<Source>) {
    let (i1, s1) = spec_scan_format(i, s);
    spec_later_overrides(i1, s1)
}

proof fn lemma_after_chroma_format(a: Input, b: Input, s: Source)
    requires
        a.wf(),
    ensures
        a.moved_on(after_chroma_format(a, s).0),
        reading::owns_up(after_chroma_format(a, s)),
        a.alike(b, after_chroma_format(a, s), after_chroma_format(b, s)),
{
    lemma_scan_format(a, b, s);
    let (a1, a_scan) = spec_scan_format(a, s);
    let (b1, b_scan) = spec_scan_format(b, s);
    lemma_later_overrides(a1, b1, a_scan);
    if b1.wf() {
        lemma_later_overrides(b1, b1, b_scan);
    }
}

/// The overrides behind the frame size.
spec fn after_frame_size(i: Input, s: Source) -> (Input, Result<Source>) {
    match spec_color_diff_sampling_format(i, s) {
        (i1, Err(e)) => (i1, Err(e)),
        (i1, Ok(s1)) => after_chroma_format(i1, s1),
    }
}

proof fn lemma_after_frame_size(a: Input, b: Input, s: Source)
    requires
        a.wf(),
    ensures
        a.moved_on(after_frame_size(a, s).0),
        reading::owns_up(after_frame_size(a, s)),
        a.alike(b, after_frame_size(a, s), after_frame_size(b, s)),
{
    lemma_color_diff_sampling_format(a, b, s);
    let (a1, a_format) = spec_color_diff_sampling_format(a, s);
    let (b1, b_format) = spec_color_diff_sampling_format(b, s);
    lemma_after_chroma_format(a1, b1, a_format->Ok_0);
    if b1.wf() {
        lemma_after_chroma_format(b1, b1, b_format->Ok_0);
    }
}

proof fn lemma_overrides(a: Input, b: Input, s: Source)
    requires
        a.wf(),
    ensures
        a.moved_on(spec_overrides(a, s).0),
        reading::owns_up(spec_overrides(a, s)),
        a.alike(b, spec_overrides(a, s), spec_overrides(b, s)),
{
    lemma_frame_size(a, b, s);
    let (a1, a_size) = spec_frame_size(a, s);
    let (b1, b_size) = spec_frame_size(b, s);
    lemma_after_frame_size(a1, b1, a_size);
    if b1.wf() {
        lemma_after_frame_size(b1, b1, b_size);
    }
}

proof fn lemma_source_parameters(a: Input, b: Input, format: u64)
    requires
        a.wf(),
        !a.overrun,
    ensures
        a.moved_on(spec_source_parameters(a, format).0),
        reading::owns_up(spec_source_parameters(a, format)),
        a.alike(b, spec_source_parameters(a, format), spec_source_parameters(b, format)),
{
    if spec_set_source_defaults(format) is Ok {
        lemma_overrides(a, b, (spec_set_source_defaults(format)->Ok_0, no_overrides()));
    }
}

proof fn lemma_positive_signal(i: Input, s: Source)
    requires
        s.0.positive_ratios(),
    ensures
        spec_signal_overrides(i, s).1 matches Ok(r) ==> r.0.positive_ratios(),
{
    let (i1, set) = spec_signal_range(i, s);
    assert(set matches Ok(s1) ==> s1.0.positive_ratios());
    if let Ok(s1) = set {
        assert(spec_color_spec(i1, s1).1 matches Ok(r) ==> r.0.positive_ratios());
    }
}

proof fn lemma_positive_rates(i: Input, s: Source)
    requires
        s.0.positive_ratios(),
    ensures
        spec_frame_rate(i, s).1 matches Ok(r) ==> r.0.positive_ratios(),
        spec_pixel_aspect_ratio(i, s).1 matches Ok(r) ==> r.0.positive_ratios(),
        spec_clean_area(i, s).1.0.positive_ratios(),
{
}

proof fn lemma_positive_later(i: Input, s: Source)
    requires
        s.0.positive_ratios(),
    ensures
        spec_later_overrides(i, s).1 matches Ok(r) ==> r.0.positive_ratios(),
{
    lemma_positive_rates(i, s);
    if let (i1, Ok(s1)) = spec_frame_rate(i, s) {
        lemma_positive_rates(i1, s1);
        if let (i2, Ok(s2)) = spec_pixel_aspect_ratio(i1, s1) {
            lemma_positive_rates(i2, s2);
            let (i3, s3) = spec_clean_area(i2, s2);
            lemma_positive_signal(i3, s3);
        }
    }
}

/// The base video format of source parameters that parse is defined, and the
/// terms of their ratios are positive.
proof fn lemma_positive_ratios(i: Input, format: u64)
    ensures
        spec_source_parameters(i, format).1 matches Ok(r) ==> r.0.positive_ratios() && format <= 22,
{
    if let Ok(vp) = spec_set_source_defaults(format) {
        assert(vp.positive_ratios());
        let (i1, s1) = spec_frame_size(i, (vp, no_overrides()));
        assert(s1.0.positive_ratios());
        let (i2, set) = spec_color_diff_sampling_format(i1, s1);
        assert(set matches Ok(s2) ==> s2.0.positive_ratios());
        if let Ok(s2) = set {
            let (i3, s3) = spec_scan_format(i2, s2);
            assert(s3.0.positive_ratios());
            lemma_positive_later(i3, s3);
        }
    }
}

/// A sequence header that parses is valid, and was read without running past
/// the end; one that runs past the end is an unexpected end of file. Over
/// truncated data the header is the same or the end is unexpected.
#[verifier::rlimit(40)]
pub proof fn law_sequence_header_reads_soundly(a: Input, b: Input)
    requires
        a.wf(),
    ensures
        a.moved_on(spec_sequence_header(a).0),
        spec_sequence_header(a).0.overrun ==> spec_sequence_header(a).1 == Err::<
            SequenceHeader,
            Error,
        >(Error::UnexpectedEof),
        spec_sequence_header(a).1 matches Ok(h) ==> h.valid(),
        a.alike(b, spec_sequence_header(a), spec_sequence_header(b)),
{
    lemma_parse_parameters(a, b);
    let a1 = spec_parse_parameters(a).0;
    let b1 = spec_parse_parameters(b).0;
    reading::lemma_number(a1, b1);
    let (a2, format) = a1.number();
    let b2 = b1.number().0;
    if !a2.overrun {
        lemma_positive_ratios(a2, format);
        lemma_source_parameters(a2, b2, format);
        let a3 = spec_source_parameters(a2, format).0;
        let b3 = spec_source_parameters(b2, format).0;
        reading::lemma_number(a3, b3);
    }
    let (_, format) = b1.number();
    if b2.wf() && !b2.overrun {
        lemma_source_parameters(b2, b2, format);
        let b3 = spec_source_parameters(b2, format).0;
        reading::lemma_number(b3, b3);
    }
}

} // verus!
