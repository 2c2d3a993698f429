//! Presets, base video formats and derived coding parameters.
use oxideav_vc2::params::{
    intlog2, preset_color_spec, preset_frame_rate, preset_pixel_aspect_ratio, preset_signal_range,
    set_coding_parameters, set_source_defaults, ColorDiffFormat,
};

#[test]
fn intlog2_examples() {
    assert_eq!(intlog2(25), 5);
    assert_eq!(intlog2(32), 5);
    assert_eq!(intlog2(256), 8);
    assert_eq!(intlog2(255 + 1), 8);
}

#[test]
fn table10_preset_signal_ranges_match_the_staged_transcription() {
    let table_10: [(u64, u64, u64, u64, u64); 8] = [
        (1, 0, 255, 128, 255),
        (2, 16, 219, 128, 224),
        (3, 64, 876, 512, 896),
        (4, 256, 3504, 2048, 3584),
        (5, 0, 1023, 512, 1023),
        (6, 0, 4095, 2048, 4095),
        (7, 4096, 56064, 32768, 57344),
        (8, 0, 65535, 32768, 65535),
    ];
    for &(index, lo, le, co, ce) in &table_10 {
        assert_eq!(
            preset_signal_range(index).unwrap(),
            (lo, le, co, ce),
            "row {index}"
        );
    }
    assert!(preset_signal_range(0).is_err());
    assert!(preset_signal_range(9).is_err());
    assert!(preset_signal_range(u64::MAX).is_err());
}

#[test]
fn table10_presets_derive_the_documented_depths() {
    let depths: [(u64, u32, u32); 8] = [
        (1, 8, 8),
        (2, 8, 8),
        (3, 10, 10),
        (4, 12, 12),
        (5, 10, 10),
        (6, 12, 12),
        (7, 16, 16),
        (8, 16, 16),
    ];
    for &(index, luma_depth, color_diff_depth) in &depths {
        let (_, le, _, ce) = preset_signal_range(index).unwrap();
        assert_eq!(intlog2(le + 1), luma_depth, "preset {index} luma depth");
        assert_eq!(
            intlog2(ce + 1),
            color_diff_depth,
            "preset {index} color-diff depth"
        );
    }
    let p2 = preset_signal_range(2).unwrap();
    let p3 = preset_signal_range(3).unwrap();
    let p4 = preset_signal_range(4).unwrap();
    let p7 = preset_signal_range(7).unwrap();
    assert_eq!((p2.0 * 4, p2.1 * 4, p2.2 * 4, p2.3 * 4), p3);
    assert_eq!((p3.0 * 4, p3.1 * 4, p3.2 * 4, p3.3 * 4), p4);
    assert_eq!((p4.0 * 16, p4.1 * 16, p4.2 * 16, p4.3 * 16), p7);
    assert_eq!((p2.1 * 256, p2.3 * 256), (p7.1, p7.3));
}

#[test]
fn table10_full_range_presets_are_zero_offset_mid_chroma() {
    for index in [1u64, 5, 6, 8] {
        let (lo, le, co, _) = preset_signal_range(index).unwrap();
        assert_eq!(lo, 0, "preset {index} luma offset");
        let depth = intlog2(le + 1);
        assert_eq!(co, 1 << (depth - 1), "preset {index} chroma offset");
    }
}

#[test]
fn table8_preset_frame_rates_transcription() {
    let table_8: [(u64, u64, u64); 16] = [
        (1, 24000, 1001),
        (2, 24, 1),
        (3, 25, 1),
        (4, 30000, 1001),
        (5, 30, 1),
        (6, 50, 1),
        (7, 60000, 1001),
        (8, 60, 1),
        (9, 15000, 1001),
        (10, 25, 2),
        (11, 48, 1),
        (12, 48000, 1001),
        (13, 96, 1),
        (14, 100, 1),
        (15, 120000, 1001),
        (16, 120, 1),
    ];
    for &(index, numer, denom) in &table_8 {
        assert_eq!(
            preset_frame_rate(index).unwrap(),
            (numer, denom),
            "row {index}"
        );
    }
    assert!(preset_frame_rate(0).is_err());
    assert!(preset_frame_rate(17).is_err());
}

#[test]
fn table9_preset_pixel_aspect_ratios_transcription() {
    let table_9: [(u64, u64, u64); 6] = [
        (1, 1, 1),
        (2, 10, 11),
        (3, 12, 11),
        (4, 40, 33),
        (5, 16, 11),
        (6, 4, 3),
    ];
    for &(index, numer, denom) in &table_9 {
        assert_eq!(
            preset_pixel_aspect_ratio(index).unwrap(),
            (numer, denom),
            "row {index}"
        );
    }
    assert!(preset_pixel_aspect_ratio(0).is_err());
    assert!(preset_pixel_aspect_ratio(7).is_err());
}

#[test]
fn table11_preset_color_specs_transcription() {
    let table_11: [(u64, u64, u64, u64); 8] = [
        (0, 0, 0, 0),
        (1, 1, 1, 0),
        (2, 2, 1, 0),
        (3, 0, 0, 0),
        (4, 3, 2, 3),
        (5, 4, 4, 0),
        (6, 4, 4, 4),
        (7, 4, 4, 5),
    ];
    for &(index, primaries, matrix, transfer) in &table_11 {
        assert_eq!(
            preset_color_spec(index).unwrap(),
            (primaries, matrix, transfer),
            "row {index}"
        );
    }
    assert!(preset_color_spec(8).is_err());
}

#[test]
fn annex_b_rows_carry_the_full_parameter_map() {
    let vp = set_source_defaults(0).unwrap();
    assert_eq!(
        (vp.frame_rate_numer, vp.frame_rate_denom),
        (24000, 1001),
        "custom format is 24/1.001"
    );
    assert_eq!(
        (vp.pixel_aspect_ratio_numer, vp.pixel_aspect_ratio_denom),
        (1, 1)
    );
    assert_eq!(
        (
            vp.clean_width,
            vp.clean_height,
            vp.left_offset,
            vp.top_offset
        ),
        (640, 480, 0, 0)
    );
    assert_eq!(
        (
            vp.color_primaries_index,
            vp.color_matrix_index,
            vp.transfer_function_index
        ),
        (0, 0, 0)
    );

    let vp = set_source_defaults(7).unwrap();
    assert_eq!((vp.frame_rate_numer, vp.frame_rate_denom), (30000, 1001));
    assert_eq!(
        (vp.pixel_aspect_ratio_numer, vp.pixel_aspect_ratio_denom),
        (10, 11)
    );
    assert_eq!(
        (
            vp.clean_width,
            vp.clean_height,
            vp.left_offset,
            vp.top_offset
        ),
        (704, 480, 8, 0)
    );
    assert_eq!(
        (vp.color_primaries_index, vp.color_matrix_index),
        (1, 1),
        "SDTV 525 primaries / SDTV matrix"
    );

    let vp = set_source_defaults(15).unwrap();
    assert_eq!((vp.frame_rate_numer, vp.frame_rate_denom), (24, 1));
    assert_eq!(
        (
            vp.color_primaries_index,
            vp.color_matrix_index,
            vp.transfer_function_index
        ),
        (3, 2, 3)
    );

    let vp = set_source_defaults(17).unwrap();
    assert_eq!((vp.frame_rate_numer, vp.frame_rate_denom), (60000, 1001));
    assert_eq!(
        (
            vp.color_primaries_index,
            vp.color_matrix_index,
            vp.transfer_function_index
        ),
        (4, 4, 0)
    );

    let vp = set_source_defaults(22).unwrap();
    assert_eq!((vp.frame_rate_numer, vp.frame_rate_denom), (30000, 1001));
    assert_eq!(
        (vp.pixel_aspect_ratio_numer, vp.pixel_aspect_ratio_denom),
        (10, 11)
    );
    assert_eq!(
        (
            vp.clean_width,
            vp.clean_height,
            vp.left_offset,
            vp.top_offset
        ),
        (720, 486, 0, 0)
    );
    assert_eq!(
        (
            vp.color_primaries_index,
            vp.color_matrix_index,
            vp.transfer_function_index
        ),
        (0, 0, 0)
    );
}

#[test]
fn annex_b_default_clean_areas_fit_their_frames() {
    for format in 0..=22u64 {
        let vp = set_source_defaults(format).unwrap();
        assert!(
            vp.clean_width + vp.left_offset <= vp.frame_width
                && vp.clean_height + vp.top_offset <= vp.frame_height,
            "format {format} default clean area exceeds its frame"
        );
    }
}

#[test]
fn hd_defaults_420_to_422() {
    let vp = set_source_defaults(13).unwrap();
    assert_eq!(vp.frame_width, 1920);
    assert_eq!(vp.frame_height, 1080);
    assert_eq!(vp.color_diff_format, ColorDiffFormat::Yuv422);
    assert_eq!(vp.luma_excursion, 876);
    assert_eq!((vp.frame_rate_numer, vp.frame_rate_denom), (60000, 1001));
}

#[test]
fn coding_params_422_progressive() {
    let vp = set_source_defaults(13).unwrap();
    let cp = set_coding_parameters(&vp, 0);
    assert_eq!(cp.luma_width, 1920);
    assert_eq!(cp.luma_height, 1080);
    assert_eq!(cp.color_diff_width, 960);
    assert_eq!(cp.color_diff_height, 1080);
    assert_eq!(cp.luma_depth, 10);
}

#[test]
fn coding_params_fields_halve_height() {
    let vp = set_source_defaults(11).unwrap();
    let cp = set_coding_parameters(&vp, 1);
    assert_eq!(cp.luma_height, 540);
    assert_eq!(cp.color_diff_height, 540);
}
