//! Every base video format, field by field.
use oxideav_vc2::params::{set_source_defaults, ColorDiffFormat};

/// Frame size, chroma format, sampling, field order, frame rate, pixel aspect
/// ratio, clean area, signal range and colour specification.
type Row = (
    (u64, u64),
    u64,
    u64,
    bool,
    (u64, u64),
    (u64, u64),
    (u64, u64, u64, u64),
    (u64, u64, u64, u64),
    (u64, u64, u64),
);

fn row_of(format: u64) -> Row {
    let vp = set_source_defaults(format).unwrap();
    (
        (vp.frame_width, vp.frame_height),
        match vp.color_diff_format {
            ColorDiffFormat::Yuv444 => 0,
            ColorDiffFormat::Yuv422 => 1,
            ColorDiffFormat::Yuv420 => 2,
        },
        vp.source_sampling,
        vp.top_field_first,
        (vp.frame_rate_numer, vp.frame_rate_denom),
        (vp.pixel_aspect_ratio_numer, vp.pixel_aspect_ratio_denom),
        (vp.clean_width, vp.clean_height, vp.left_offset, vp.top_offset),
        (vp.luma_offset, vp.luma_excursion, vp.color_diff_offset, vp.color_diff_excursion),
        (vp.color_primaries_index, vp.color_matrix_index, vp.transfer_function_index),
    )
}

#[test]
fn every_base_video_format_has_its_row() {
    let rows: [Row; 23] = [
        // Custom Format
        ((640, 480), 2, 0, false, (24000, 1001), (1, 1), (640, 480, 0, 0), (0, 255, 128, 255), (0, 0, 0)),
        // QSIF525
        ((176, 120), 2, 0, false, (15000, 1001), (10, 11), (176, 120, 0, 0), (0, 255, 128, 255), (1, 1, 0)),
        // QCIF
        ((176, 144), 2, 0, true, (25, 2), (12, 11), (176, 144, 0, 0), (0, 255, 128, 255), (2, 1, 0)),
        // SIF525
        ((352, 240), 2, 0, false, (15000, 1001), (10, 11), (352, 240, 0, 0), (0, 255, 128, 255), (1, 1, 0)),
        // CIF
        ((352, 288), 2, 0, true, (25, 2), (12, 11), (352, 288, 0, 0), (0, 255, 128, 255), (2, 1, 0)),
        // 4SIF525
        ((704, 480), 2, 0, false, (15000, 1001), (10, 11), (704, 480, 0, 0), (0, 255, 128, 255), (1, 1, 0)),
        // 4CIF
        ((704, 576), 2, 0, true, (25, 2), (12, 11), (704, 576, 0, 0), (0, 255, 128, 255), (2, 1, 0)),
        // SD 480i-60
        ((720, 480), 1, 1, false, (30000, 1001), (10, 11), (704, 480, 8, 0), (64, 876, 512, 896), (1, 1, 0)),
        // SD 576i-50
        ((720, 576), 1, 1, true, (25, 1), (12, 11), (704, 576, 8, 0), (64, 876, 512, 896), (2, 1, 0)),
        // HD 720p-60
        ((1280, 720), 1, 0, true, (60000, 1001), (1, 1), (1280, 720, 0, 0), (64, 876, 512, 896), (0, 0, 0)),
        // HD 720p-50
        ((1280, 720), 1, 0, true, (50, 1), (1, 1), (1280, 720, 0, 0), (64, 876, 512, 896), (0, 0, 0)),
        // HD 1080i-60
        ((1920, 1080), 1, 1, true, (30000, 1001), (1, 1), (1920, 1080, 0, 0), (64, 876, 512, 896), (0, 0, 0)),
        // HD 1080i-50
        ((1920, 1080), 1, 1, true, (25, 1), (1, 1), (1920, 1080, 0, 0), (64, 876, 512, 896), (0, 0, 0)),
        // HD 1080p-60
        ((1920, 1080), 1, 0, true, (60000, 1001), (1, 1), (1920, 1080, 0, 0), (64, 876, 512, 896), (0, 0, 0)),
        // HD 1080p-50
        ((1920, 1080), 1, 0, true, (50, 1), (1, 1), (1920, 1080, 0, 0), (64, 876, 512, 896), (0, 0, 0)),
        // DC 2K-24
        ((2048, 1080), 0, 0, true, (24, 1), (1, 1), (2048, 1080, 0, 0), (256, 3504, 2048, 3584), (3, 2, 3)),
        // DC 4K-24
        ((4096, 2160), 0, 0, true, (24, 1), (1, 1), (4096, 2160, 0, 0), (256, 3504, 2048, 3584), (3, 2, 3)),
        // UHDTV 4K-60
        ((3840, 2160), 1, 0, true, (60000, 1001), (1, 1), (3840, 2160, 0, 0), (64, 876, 512, 896), (4, 4, 0)),
        // UHDTV 4K-50
        ((3840, 2160), 1, 0, true, (50, 1), (1, 1), (3840, 2160, 0, 0), (64, 876, 512, 896), (4, 4, 0)),
        // UHDTV 8K-60
        ((7680, 4320), 1, 0, true, (60000, 1001), (1, 1), (7680, 4320, 0, 0), (64, 876, 512, 896), (4, 4, 0)),
        // UHDTV 8K-50
        ((7680, 4320), 1, 0, true, (50, 1), (1, 1), (7680, 4320, 0, 0), (64, 876, 512, 896), (4, 4, 0)),
        // HD 1080p-24
        ((1920, 1080), 1, 0, true, (24000, 1001), (1, 1), (1920, 1080, 0, 0), (64, 876, 512, 896), (0, 0, 0)),
        // SD Pro486
        ((720, 486), 1, 1, false, (30000, 1001), (10, 11), (720, 486, 0, 0), (64, 876, 512, 896), (0, 0, 0)),
    ];
    for (format, row) in rows.iter().enumerate() {
        assert_eq!(row_of(format as u64), *row, "format {}", format);
    }
    assert!(set_source_defaults(23).is_err());
}
