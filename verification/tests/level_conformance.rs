//! Profile and level conformance.
#![allow(dead_code)]

use oxideav_vc2::bitio::BitReader;
use oxideav_vc2::conformance::{
    check_sequence_header, check_stream, check_transform_parameters, level_base_video_formats,
    Violation,
};
use oxideav_vc2::params::sequence_header;

#[derive(Default)]
struct BitWriter {
    bytes: Vec<u8>,
    cur: u8,
    nbits: u8,
}

impl BitWriter {
    fn put_bit(&mut self, bit: u32) {
        self.cur = (self.cur << 1) | (bit as u8 & 1);
        self.nbits += 1;
        if self.nbits == 8 {
            self.bytes.push(self.cur);
            self.cur = 0;
            self.nbits = 0;
        }
    }

    fn put_bool(&mut self, b: bool) {
        self.put_bit(b as u32);
    }

    fn put_nbits(&mut self, val: u64, n: u32) {
        for i in (0..n).rev() {
            self.put_bit(((val >> i) & 1) as u32);
        }
    }

    fn byte_align(&mut self) {
        while self.nbits != 0 {
            self.put_bit(0);
        }
    }

    fn bit_len(&self) -> u64 {
        self.bytes.len() as u64 * 8 + self.nbits as u64
    }

    fn append(&mut self, other: &BitWriter) {
        for &b in &other.bytes {
            self.put_nbits(b as u64, 8);
        }
        for i in (0..other.nbits).rev() {
            self.put_bit(((other.cur >> i) & 1) as u32);
        }
    }

    fn put_uint(&mut self, value: u64) {
        let n = value + 1;
        let bits = 64 - n.leading_zeros();
        for i in (0..bits - 1).rev() {
            self.put_bit(0);
            self.put_bit(((n >> i) & 1) as u32);
        }
        self.put_bit(1);
    }

    fn put_sint(&mut self, value: i64) {
        self.put_uint(value.unsigned_abs());
        if value != 0 {
            self.put_bit((value < 0) as u32);
        }
    }

    fn into_bytes(mut self) -> Vec<u8> {
        self.byte_align();
        self.bytes
    }
}

fn parse_info(out: &mut Vec<u8>, parse_code: u8, next_offset: u32, prev_offset: u32) {
    out.extend_from_slice(&[0x42, 0x42, 0x43, 0x44]);
    out.push(parse_code);
    out.extend_from_slice(&next_offset.to_be_bytes());
    out.extend_from_slice(&prev_offset.to_be_bytes());
}

fn build_units(units: &[(u8, Vec<u8>)]) -> Vec<u8> {
    let mut out = Vec::new();
    let mut prev_offset = 0u32;
    for (code, body) in units {
        let next_offset = (13 + body.len()) as u32;
        parse_info(&mut out, *code, next_offset, prev_offset);
        out.extend_from_slice(body);
        prev_offset = next_offset;
    }
    parse_info(&mut out, 0x10, 0, prev_offset);
    out
}

fn sequence_header_body(width: u64, height: u64, major_version: u64) -> Vec<u8> {
    let mut w = BitWriter::default();
    w.put_uint(major_version);
    w.put_uint(0);
    w.put_uint(0);
    w.put_uint(0);
    w.put_uint(0);
    w.put_bool(true);
    w.put_uint(width);
    w.put_uint(height);
    w.put_bool(true);
    w.put_uint(0);
    w.put_bool(false);
    w.put_bool(false);
    w.put_bool(false);
    w.put_bool(false);
    w.put_bool(true);
    w.put_uint(1);
    w.put_bool(false);
    w.put_uint(0);
    w.into_bytes()
}

#[derive(Clone, Copy)]
struct PicParams {
    major_version: u64,
    wavelet_index: u64,
    dwt_depth: u64,
    ho: Option<(u64, u64)>,
    qindex: u64,
    slices_x: u64,
    slices_y: u64,
    low_delay: bool,
    slice_bytes_numerator: u64,
    slice_bytes_denominator: u64,
}

impl PicParams {
    fn hq_depth0() -> Self {
        PicParams {
            major_version: 2,
            wavelet_index: 3,
            dwt_depth: 0,
            ho: None,
            qindex: 0,
            slices_x: 1,
            slices_y: 1,
            low_delay: false,
            slice_bytes_numerator: 0,
            slice_bytes_denominator: 1,
        }
    }

    fn ld_slice_bytes_len(&self, slice_index: u64) -> u64 {
        let a = ((slice_index + 1) * self.slice_bytes_numerator) / self.slice_bytes_denominator;
        let b = (slice_index * self.slice_bytes_numerator) / self.slice_bytes_denominator;
        a - b
    }
}

fn write_transform_parameters(w: &mut BitWriter, p: &PicParams) {
    w.put_uint(p.wavelet_index);
    w.put_uint(p.dwt_depth);
    if p.major_version >= 3 {
        match p.ho {
            Some((wavelet_index_ho, dwt_depth_ho)) => {
                w.put_bool(true);
                w.put_uint(wavelet_index_ho);
                w.put_bool(true);
                w.put_uint(dwt_depth_ho);
            }
            None => {
                w.put_bool(false);
                w.put_bool(false);
            }
        }
    } else {
        assert!(p.ho.is_none(), "asymmetric params need major_version >= 3");
    }
    w.put_uint(p.slices_x);
    w.put_uint(p.slices_y);
    if p.low_delay {
        w.put_uint(p.slice_bytes_numerator);
        w.put_uint(p.slice_bytes_denominator);
    } else {
        w.put_uint(0);
        w.put_uint(1);
    }
    w.put_bool(false);
}

fn hq_slice_bytes(qindex: u64, y: &[i64], c1: &[i64], c2: &[i64]) -> Vec<u8> {
    let mut w = BitWriter::default();
    w.put_nbits(qindex, 8);
    for comp in [y, c1, c2] {
        let mut cw = BitWriter::default();
        for &v in comp {
            cw.put_sint(v);
        }
        let payload = cw.into_bytes();
        assert!(payload.len() <= 255, "test payload fits a 1-byte length");
        w.put_nbits(payload.len() as u64, 8);
        for b in payload {
            w.put_nbits(b as u64, 8);
        }
    }
    w.into_bytes()
}

fn ld_slice_bytes(qindex: u64, slice_len: u64, y: &[i64], c1: &[i64], c2: &[i64]) -> Vec<u8> {
    assert_eq!(c1.len(), c2.len());
    let total_bits = 8 * slice_len;
    let length_bits = oxideav_vc2::params::intlog2(total_bits - 7);

    let mut yw = BitWriter::default();
    for &v in y {
        yw.put_sint(v);
    }
    let mut cw = BitWriter::default();
    for (&a, &b) in c1.iter().zip(c2) {
        cw.put_sint(a);
        cw.put_sint(b);
    }

    let mut w = BitWriter::default();
    w.put_nbits(qindex, 7);
    w.put_nbits(yw.bit_len(), length_bits);
    w.append(&yw);
    w.append(&cw);
    assert!(
        w.bit_len() <= total_bits,
        "coefficients overflow the fixed LD slice size"
    );
    while w.bit_len() < total_bits {
        w.put_bit(0);
    }
    w.into_bytes()
}

fn picture_body(p: &PicParams, picture_number: u32, slices: &[Vec<u8>]) -> Vec<u8> {
    let mut w = BitWriter::default();
    w.put_nbits(picture_number as u64, 32);
    w.byte_align();
    write_transform_parameters(&mut w, p);
    w.byte_align();
    let mut out = w.into_bytes();
    for s in slices {
        out.extend_from_slice(s);
    }
    out
}

fn fragment_setup_body(p: &PicParams, picture_number: u32) -> Vec<u8> {
    let mut w = BitWriter::default();
    w.put_nbits(picture_number as u64, 32);
    w.put_nbits(0, 16);
    w.put_nbits(0, 16);
    write_transform_parameters(&mut w, p);
    w.into_bytes()
}

fn fragment_data_body(
    picture_number: u32,
    x_offset: u16,
    y_offset: u16,
    slices: &[Vec<u8>],
) -> Vec<u8> {
    let mut w = BitWriter::default();
    w.put_nbits(picture_number as u64, 32);
    w.put_nbits(0, 16);
    w.put_nbits(slices.len() as u64, 16);
    w.put_nbits(x_offset as u64, 16);
    w.put_nbits(y_offset as u64, 16);
    let mut out = w.into_bytes();
    for s in slices {
        out.extend_from_slice(s);
    }
    out
}

#[derive(Clone, Copy)]
enum SignalRange {
    Preset(u64),
    Custom { luma_offset: u64, luma_excursion: u64, color_diff_offset: u64, color_diff_excursion: u64 },
}

fn put_signal_range(w: &mut BitWriter, range: SignalRange) {
    w.put_bool(true);
    match range {
        SignalRange::Preset(index) => w.put_uint(index),
        SignalRange::Custom {
            luma_offset,
            luma_excursion,
            color_diff_offset,
            color_diff_excursion,
        } => {
            w.put_uint(0);
            w.put_uint(luma_offset);
            w.put_uint(luma_excursion);
            w.put_uint(color_diff_offset);
            w.put_uint(color_diff_excursion);
        }
    }
}

fn sequence_header_body_full(
    width: u64,
    height: u64,
    major_version: u64,
    color_diff_index: u64,
    range: SignalRange,
) -> Vec<u8> {
    let mut w = BitWriter::default();
    w.put_uint(major_version);
    w.put_uint(0);
    w.put_uint(0);
    w.put_uint(0);
    w.put_uint(0);
    w.put_bool(true);
    w.put_uint(width);
    w.put_uint(height);
    w.put_bool(true);
    w.put_uint(color_diff_index);
    w.put_bool(false);
    w.put_bool(false);
    w.put_bool(false);
    w.put_bool(false);
    put_signal_range(&mut w, range);
    w.put_bool(false);
    w.put_uint(0);
    w.into_bytes()
}

#[derive(Clone, Copy)]
struct HeaderSpec {
    major_version: u64,
    profile: u64,
    level: u64,
    base_video_format: u64,
    frame_size: Option<(u64, u64)>,
    color_diff_index: Option<u64>,
    scan_format: Option<u64>,
    frame_rate_preset: Option<u64>,
    pixel_aspect_preset: Option<u64>,
    clean_area: Option<(u64, u64, u64, u64)>,
    signal_range_preset: Option<u64>,
    color_spec_preset: Option<u64>,
    picture_coding_mode: u64,
}

impl Default for HeaderSpec {
    fn default() -> Self {
        HeaderSpec {
            major_version: 2,
            profile: 0,
            level: 0,
            base_video_format: 0,
            frame_size: None,
            color_diff_index: None,
            scan_format: None,
            frame_rate_preset: None,
            pixel_aspect_preset: None,
            clean_area: None,
            signal_range_preset: None,
            color_spec_preset: None,
            picture_coding_mode: 0,
        }
    }
}

fn put_optional(w: &mut BitWriter, index: Option<u64>) {
    match index {
        Some(index) => {
            w.put_bool(true);
            w.put_uint(index);
        }
        None => w.put_bool(false),
    }
}

fn header_body(spec: &HeaderSpec) -> Vec<u8> {
    let mut w = BitWriter::default();
    w.put_uint(spec.major_version);
    w.put_uint(0);
    w.put_uint(spec.profile);
    w.put_uint(spec.level);
    w.put_uint(spec.base_video_format);
    match spec.frame_size {
        Some((width, height)) => {
            w.put_bool(true);
            w.put_uint(width);
            w.put_uint(height);
        }
        None => w.put_bool(false),
    }
    put_optional(&mut w, spec.color_diff_index);
    put_optional(&mut w, spec.scan_format);
    put_optional(&mut w, spec.frame_rate_preset);
    put_optional(&mut w, spec.pixel_aspect_preset);
    match spec.clean_area {
        Some((width, height, left, top)) => {
            w.put_bool(true);
            w.put_uint(width);
            w.put_uint(height);
            w.put_uint(left);
            w.put_uint(top);
        }
        None => w.put_bool(false),
    }
    put_optional(&mut w, spec.signal_range_preset);
    put_optional(&mut w, spec.color_spec_preset);
    w.put_uint(spec.picture_coding_mode);
    w.into_bytes()
}

fn parse(spec: &HeaderSpec) -> oxideav_vc2::params::SequenceHeader {
    let body = header_body(spec);
    sequence_header(&mut BitReader::new(&body)).expect("header parses")
}

#[test]
fn level_format_sets_match_clause_5_2_2() {
    assert_eq!(level_base_video_formats(1), Some(&[1, 2, 3, 4, 5, 6][..]));
    assert_eq!(level_base_video_formats(2), Some(&[7, 8, 22][..]));
    assert_eq!(
        level_base_video_formats(3),
        Some(&[9, 10, 11, 12, 13, 14, 21][..])
    );
    assert_eq!(level_base_video_formats(4), Some(&[15][..]));
    assert_eq!(level_base_video_formats(5), Some(&[16][..]));
    assert_eq!(level_base_video_formats(6), Some(&[17, 18][..]));
    assert_eq!(level_base_video_formats(7), Some(&[19, 20][..]));
    for level in [0, 8, 63, 64, 65] {
        assert_eq!(level_base_video_formats(level), None);
    }
}

#[test]
fn conforming_default_headers_grade_clean() {
    for (level, format, mode) in [
        (1, 4, 0),
        (2, 7, 1),
        (2, 22, 1),
        (3, 13, 0),
        (3, 11, 1),
        (4, 15, 0),
        (5, 16, 0),
        (6, 17, 0),
        (7, 19, 0),
    ] {
        let seq = parse(&HeaderSpec {
            level,
            base_video_format: format,
            picture_coding_mode: mode,
            ..Default::default()
        });
        assert_eq!(
            check_sequence_header(&seq),
            vec![],
            "level {level} format {format}"
        );
    }
    let seq = parse(&HeaderSpec {
        level: 0,
        base_video_format: 0,
        frame_size: Some((64, 48)),
        signal_range_preset: Some(8),
        ..Default::default()
    });
    assert_eq!(check_sequence_header(&seq), vec![]);
    let seq = parse(&HeaderSpec {
        level: 65,
        base_video_format: 13,
        ..Default::default()
    });
    assert_eq!(check_sequence_header(&seq), vec![]);
}

#[test]
fn reserved_levels_and_profiles_are_flagged() {
    let seq = parse(&HeaderSpec {
        level: 8,
        base_video_format: 13,
        ..Default::default()
    });
    assert_eq!(
        check_sequence_header(&seq),
        vec![Violation::ReservedLevel { level: 8 }]
    );

    for (profile, major, ok) in [(3, 2, true), (1, 2, true), (1, 3, false), (5, 2, false)] {
        let seq = parse(&HeaderSpec {
            major_version: major,
            profile,
            ..Default::default()
        });
        let violations = check_sequence_header(&seq);
        assert_eq!(
            violations.is_empty(),
            ok,
            "profile {profile} major {major}: {violations:?}"
        );
    }
}

#[test]
fn level_base_format_coverage_is_enforced() {
    let seq = parse(&HeaderSpec {
        level: 3,
        base_video_format: 7,
        picture_coding_mode: 1,
        ..Default::default()
    });
    assert_eq!(
        check_sequence_header(&seq),
        vec![Violation::LevelBaseFormat {
            level: 3,
            base_video_format: 7
        }]
    );
}

#[test]
fn custom_flags_forbidden_outside_carve_outs() {
    let seq = parse(&HeaderSpec {
        level: 3,
        base_video_format: 13,
        signal_range_preset: Some(3),
        ..Default::default()
    });
    assert_eq!(
        check_sequence_header(&seq),
        vec![Violation::CustomFlagForbidden {
            level: 3,
            flag: "custom_signal_range_flag"
        }]
    );
    let seq = parse(&HeaderSpec {
        level: 3,
        base_video_format: 13,
        color_diff_index: Some(2),
        pixel_aspect_preset: Some(1),
        clean_area: Some((1920, 1080, 0, 0)),
        color_spec_preset: Some(3),
        ..Default::default()
    });
    let v = check_sequence_header(&seq);
    for flag in [
        "custom_chroma_format_flag",
        "custom_pixel_aspect_ratio_flag",
        "custom_clean_area_flag",
        "custom_color_spec_flag",
    ] {
        assert!(
            v.contains(&Violation::CustomFlagForbidden { level: 3, flag }),
            "missing {flag} in {v:?}"
        );
    }
}

#[test]
fn format7_dimension_carve_out() {
    let seq = parse(&HeaderSpec {
        level: 2,
        base_video_format: 7,
        frame_size: Some((720, 486)),
        picture_coding_mode: 1,
        ..Default::default()
    });
    assert_eq!(check_sequence_header(&seq), vec![]);
    let seq = parse(&HeaderSpec {
        level: 2,
        base_video_format: 7,
        frame_size: Some((704, 480)),
        picture_coding_mode: 1,
        ..Default::default()
    });
    assert_eq!(
        check_sequence_header(&seq),
        vec![Violation::DimensionsOutsideFormat7Envelope {
            width: 704,
            height: 480
        }]
    );
    let seq = parse(&HeaderSpec {
        level: 3,
        base_video_format: 13,
        frame_size: Some((1920, 1080)),
        ..Default::default()
    });
    assert_eq!(
        check_sequence_header(&seq),
        vec![Violation::CustomFlagForbidden {
            level: 3,
            flag: "custom_dimensions_flag"
        }]
    );
}

#[test]
fn progressive_relabel_carve_out() {
    let seq = parse(&HeaderSpec {
        level: 3,
        base_video_format: 11,
        scan_format: Some(0),
        picture_coding_mode: 0,
        ..Default::default()
    });
    assert_eq!(check_sequence_header(&seq), vec![]);
    let seq = parse(&HeaderSpec {
        level: 3,
        base_video_format: 13,
        scan_format: Some(0),
        ..Default::default()
    });
    assert_eq!(
        check_sequence_header(&seq),
        vec![Violation::ScanFormatOverrideOutsideCarveOut {
            base_video_format: 13
        }]
    );
}

#[test]
fn level4_frame_rate_carve_out() {
    let seq = parse(&HeaderSpec {
        level: 4,
        base_video_format: 15,
        frame_rate_preset: Some(11),
        ..Default::default()
    });
    assert_eq!(check_sequence_header(&seq), vec![]);
    let seq = parse(&HeaderSpec {
        level: 5,
        base_video_format: 16,
        frame_rate_preset: Some(11),
        ..Default::default()
    });
    assert_eq!(
        check_sequence_header(&seq),
        vec![Violation::FrameRateOverrideOutsideLevel4Exception { level: 5 }]
    );
    let seq = parse(&HeaderSpec {
        level: 4,
        base_video_format: 15,
        frame_rate_preset: Some(3),
        ..Default::default()
    });
    assert_eq!(
        check_sequence_header(&seq),
        vec![Violation::FrameRateOverrideOutsideLevel4Exception { level: 4 }]
    );
}

#[test]
fn picture_coding_mode_must_track_source_sampling() {
    let seq = parse(&HeaderSpec {
        level: 3,
        base_video_format: 11,
        picture_coding_mode: 0,
        ..Default::default()
    });
    assert_eq!(
        check_sequence_header(&seq),
        vec![Violation::PictureCodingModeMismatch {
            source_sampling: 1,
            picture_coding_mode: 0
        }]
    );
}

#[test]
fn picture_constraints_of_clause_5_4() {
    let seq = parse(&HeaderSpec {
        level: 3,
        base_video_format: 13,
        ..Default::default()
    });
    let base_tp = {
        let body = picture_body(
            &PicParams {
                wavelet_index: 1,
                dwt_depth: 2,
                slices_x: 120,
                slices_y: 27,
                ..PicParams::hq_depth0()
            },
            0,
            &[],
        );
        let mut r = BitReader::new(&body[4..]);
        oxideav_vc2::transform::transform_parameters(
            &mut r,
            &seq,
            oxideav_vc2::PictureKind::HighQuality,
        )
        .expect("params parse")
    };
    assert_eq!(check_transform_parameters(&seq, &base_tp), vec![]);

    let mut tp = base_tp.clone();
    tp.wavelet_index = 5;
    assert_eq!(
        check_transform_parameters(&seq, &tp),
        vec![Violation::WaveletIndexAboveLevelBound { wavelet_index: 5 }]
    );

    let mut tp = base_tp.clone();
    tp.dwt_depth = 5;
    let v = check_transform_parameters(&seq, &tp);
    assert!(v.contains(&Violation::TransformDepthAboveLevelBound { dwt_depth: 5 }));

    let mut tp = base_tp.clone();
    tp.slices_x = 7;
    assert_eq!(
        check_transform_parameters(&seq, &tp),
        vec![Violation::UnevenDcCoefficientsPerSlice {
            slices_x: 7,
            slices_y: 27
        }]
    );

    let mut tp = base_tp.clone();
    tp.quant_matrix = vec![oxideav_vc2::quant::MatrixLevel::Ll(128)];
    assert_eq!(
        check_transform_parameters(&seq, &tp),
        vec![Violation::QuantMatrixValueOutOfRange { value: 128 }]
    );

    let seq3 = parse(&HeaderSpec {
        major_version: 3,
        level: 3,
        base_video_format: 13,
        ..Default::default()
    });
    let mut tp = base_tp.clone();
    tp.asym_transform_flag = true;
    assert_eq!(
        check_transform_parameters(&seq3, &tp),
        vec![Violation::AsymmetricTransformSignalled]
    );

    let seq0 = parse(&HeaderSpec {
        level: 0,
        ..Default::default()
    });
    let mut tp = base_tp.clone();
    tp.wavelet_index = 6;
    tp.dwt_depth = 6;
    assert_eq!(check_transform_parameters(&seq0, &tp), vec![]);
}

#[test]
fn stream_checks_profiles_and_structure() {
    let p = PicParams::hq_depth0();
    let c = [0i64; 4];
    let seq_body = header_body(&HeaderSpec {
        profile: 0,
        base_video_format: 0,
        frame_size: Some((2, 2)),
        ..Default::default()
    });
    let pic = picture_body(&p, 0, &[hq_slice_bytes(p.qindex, &c, &c, &c)]);
    let stream = build_units(&[(0x00, seq_body), (0xE8, pic.clone())]);
    assert_eq!(
        check_stream(&stream).expect("walk"),
        vec![Violation::ProfileParseCode {
            profile: 0,
            parse_code: 0xE8
        }]
    );

    let seq_body = header_body(&HeaderSpec {
        profile: 3,
        base_video_format: 0,
        frame_size: Some((2, 2)),
        ..Default::default()
    });
    let stream = build_units(&[(0x00, seq_body.clone()), (0xE8, pic.clone())]);
    assert_eq!(check_stream(&stream).expect("walk"), vec![]);

    let p3 = PicParams {
        major_version: 3,
        ..PicParams::hq_depth0()
    };
    let seq_body = header_body(&HeaderSpec {
        major_version: 3,
        profile: 3,
        level: 2,
        base_video_format: 7,
        picture_coding_mode: 1,
        ..Default::default()
    });
    let pic3 = picture_body(&p3, 0, &[hq_slice_bytes(p3.qindex, &[0], &[0], &[0])]);
    let setup = fragment_setup_body(&p3, 1);
    let stream = build_units(&[(0x00, seq_body), (0xE8, pic3), (0xEC, setup)]);
    let violations = check_stream(&stream).expect("walk");
    assert!(
        violations.contains(&Violation::MixedPictureAndFragmentUnits { level: 2 }),
        "{violations:?}"
    );
}
