//! Source parameters of sequence headers.
#![allow(dead_code)]

use oxideav_vc2::bitio::BitReader;
use oxideav_vc2::params::{sequence_header, SequenceHeader};
use oxideav_vc2::Error;
use oxideav_vc2::SequenceDecoder;

#[derive(Default)]
struct BitWriter {
    bytes: Vec<u8>,
    cur: u8,
    nbits: u8,
}

impl BitWriter {
    fn put_bit(&mut self, bit: u32) {
        self.cur = (self.cur << 1) | (bit as u8 & 1);
        self.nbits += 1;
        if self.nbits == 8 {
            self.bytes.push(self.cur);
            self.cur = 0;
            self.nbits = 0;
        }
    }

    fn put_bool(&mut self, b: bool) {
        self.put_bit(b as u32);
    }

    fn put_nbits(&mut self, val: u64, n: u32) {
        for i in (0..n).rev() {
            self.put_bit(((val >> i) & 1) as u32);
        }
    }

    fn byte_align(&mut self) {
        while self.nbits != 0 {
            self.put_bit(0);
        }
    }

    fn bit_len(&self) -> u64 {
        self.bytes.len() as u64 * 8 + self.nbits as u64
    }

    fn append(&mut self, other: &BitWriter) {
        for &b in &other.bytes {
            self.put_nbits(b as u64, 8);
        }
        for i in (0..other.nbits).rev() {
            self.put_bit(((other.cur >> i) & 1) as u32);
        }
    }

    fn put_uint(&mut self, value: u64) {
        let n = value + 1;
        let bits = 64 - n.leading_zeros();
        for i in (0..bits - 1).rev() {
            self.put_bit(0);
            self.put_bit(((n >> i) & 1) as u32);
        }
        self.put_bit(1);
    }

    fn put_sint(&mut self, value: i64) {
        self.put_uint(value.unsigned_abs());
        if value != 0 {
            self.put_bit((value < 0) as u32);
        }
    }

    fn into_bytes(mut self) -> Vec<u8> {
        self.byte_align();
        self.bytes
    }
}

fn parse_info(out: &mut Vec<u8>, parse_code: u8, next_offset: u32, prev_offset: u32) {
    out.extend_from_slice(&[0x42, 0x42, 0x43, 0x44]);
    out.push(parse_code);
    out.extend_from_slice(&next_offset.to_be_bytes());
    out.extend_from_slice(&prev_offset.to_be_bytes());
}

fn build_units(units: &[(u8, Vec<u8>)]) -> Vec<u8> {
    let mut out = Vec::new();
    let mut prev_offset = 0u32;
    for (code, body) in units {
        let next_offset = (13 + body.len()) as u32;
        parse_info(&mut out, *code, next_offset, prev_offset);
        out.extend_from_slice(body);
        prev_offset = next_offset;
    }
    parse_info(&mut out, 0x10, 0, prev_offset);
    out
}

fn sequence_header_body(width: u64, height: u64, major_version: u64) -> Vec<u8> {
    let mut w = BitWriter::default();
    w.put_uint(major_version);
    w.put_uint(0);
    w.put_uint(0);
    w.put_uint(0);
    w.put_uint(0);
    w.put_bool(true);
    w.put_uint(width);
    w.put_uint(height);
    w.put_bool(true);
    w.put_uint(0);
    w.put_bool(false);
    w.put_bool(false);
    w.put_bool(false);
    w.put_bool(false);
    w.put_bool(true);
    w.put_uint(1);
    w.put_bool(false);
    w.put_uint(0);
    w.into_bytes()
}

#[derive(Clone, Copy)]
struct PicParams {
    major_version: u64,
    wavelet_index: u64,
    dwt_depth: u64,
    ho: Option<(u64, u64)>,
    qindex: u64,
    slices_x: u64,
    slices_y: u64,
    low_delay: bool,
    slice_bytes_numerator: u64,
    slice_bytes_denominator: u64,
}

impl PicParams {
    fn hq_depth0() -> Self {
        PicParams {
            major_version: 2,
            wavelet_index: 3,
            dwt_depth: 0,
            ho: None,
            qindex: 0,
            slices_x: 1,
            slices_y: 1,
            low_delay: false,
            slice_bytes_numerator: 0,
            slice_bytes_denominator: 1,
        }
    }

    fn ld_slice_bytes_len(&self, slice_index: u64) -> u64 {
        let a = ((slice_index + 1) * self.slice_bytes_numerator) / self.slice_bytes_denominator;
        let b = (slice_index * self.slice_bytes_numerator) / self.slice_bytes_denominator;
        a - b
    }
}

fn write_transform_parameters(w: &mut BitWriter, p: &PicParams) {
    w.put_uint(p.wavelet_index);
    w.put_uint(p.dwt_depth);
    if p.major_version >= 3 {
        match p.ho {
            Some((wavelet_index_ho, dwt_depth_ho)) => {
                w.put_bool(true);
                w.put_uint(wavelet_index_ho);
                w.put_bool(true);
                w.put_uint(dwt_depth_ho);
            }
            None => {
                w.put_bool(false);
                w.put_bool(false);
            }
        }
    } else {
        assert!(p.ho.is_none(), "asymmetric params need major_version >= 3");
    }
    w.put_uint(p.slices_x);
    w.put_uint(p.slices_y);
    if p.low_delay {
        w.put_uint(p.slice_bytes_numerator);
        w.put_uint(p.slice_bytes_denominator);
    } else {
        w.put_uint(0);
        w.put_uint(1);
    }
    w.put_bool(false);
}

fn hq_slice_bytes(qindex: u64, y: &[i64], c1: &[i64], c2: &[i64]) -> Vec<u8> {
    let mut w = BitWriter::default();
    w.put_nbits(qindex, 8);
    for comp in [y, c1, c2] {
        let mut cw = BitWriter::default();
        for &v in comp {
            cw.put_sint(v);
        }
        let payload = cw.into_bytes();
        assert!(payload.len() <= 255, "test payload fits a 1-byte length");
        w.put_nbits(payload.len() as u64, 8);
        for b in payload {
            w.put_nbits(b as u64, 8);
        }
    }
    w.into_bytes()
}

fn ld_slice_bytes(qindex: u64, slice_len: u64, y: &[i64], c1: &[i64], c2: &[i64]) -> Vec<u8> {
    assert_eq!(c1.len(), c2.len());
    let total_bits = 8 * slice_len;
    let length_bits = oxideav_vc2::params::intlog2(total_bits - 7);

    let mut yw = BitWriter::default();
    for &v in y {
        yw.put_sint(v);
    }
    let mut cw = BitWriter::default();
    for (&a, &b) in c1.iter().zip(c2) {
        cw.put_sint(a);
        cw.put_sint(b);
    }

    let mut w = BitWriter::default();
    w.put_nbits(qindex, 7);
    w.put_nbits(yw.bit_len(), length_bits);
    w.append(&yw);
    w.append(&cw);
    assert!(
        w.bit_len() <= total_bits,
        "coefficients overflow the fixed LD slice size"
    );
    while w.bit_len() < total_bits {
        w.put_bit(0);
    }
    w.into_bytes()
}

fn picture_body(p: &PicParams, picture_number: u32, slices: &[Vec<u8>]) -> Vec<u8> {
    let mut w = BitWriter::default();
    w.put_nbits(picture_number as u64, 32);
    w.byte_align();
    write_transform_parameters(&mut w, p);
    w.byte_align();
    let mut out = w.into_bytes();
    for s in slices {
        out.extend_from_slice(s);
    }
    out
}

fn fragment_setup_body(p: &PicParams, picture_number: u32) -> Vec<u8> {
    let mut w = BitWriter::default();
    w.put_nbits(picture_number as u64, 32);
    w.put_nbits(0, 16);
    w.put_nbits(0, 16);
    write_transform_parameters(&mut w, p);
    w.into_bytes()
}

fn fragment_data_body(
    picture_number: u32,
    x_offset: u16,
    y_offset: u16,
    slices: &[Vec<u8>],
) -> Vec<u8> {
    let mut w = BitWriter::default();
    w.put_nbits(picture_number as u64, 32);
    w.put_nbits(0, 16);
    w.put_nbits(slices.len() as u64, 16);
    w.put_nbits(x_offset as u64, 16);
    w.put_nbits(y_offset as u64, 16);
    let mut out = w.into_bytes();
    for s in slices {
        out.extend_from_slice(s);
    }
    out
}

#[derive(Clone, Copy)]
enum SignalRange {
    Preset(u64),
    Custom { luma_offset: u64, luma_excursion: u64, color_diff_offset: u64, color_diff_excursion: u64 },
}

fn put_signal_range(w: &mut BitWriter, range: SignalRange) {
    w.put_bool(true);
    match range {
        SignalRange::Preset(index) => w.put_uint(index),
        SignalRange::Custom {
            luma_offset,
            luma_excursion,
            color_diff_offset,
            color_diff_excursion,
        } => {
            w.put_uint(0);
            w.put_uint(luma_offset);
            w.put_uint(luma_excursion);
            w.put_uint(color_diff_offset);
            w.put_uint(color_diff_excursion);
        }
    }
}

fn sequence_header_body_full(
    width: u64,
    height: u64,
    major_version: u64,
    color_diff_index: u64,
    range: SignalRange,
) -> Vec<u8> {
    let mut w = BitWriter::default();
    w.put_uint(major_version);
    w.put_uint(0);
    w.put_uint(0);
    w.put_uint(0);
    w.put_uint(0);
    w.put_bool(true);
    w.put_uint(width);
    w.put_uint(height);
    w.put_bool(true);
    w.put_uint(color_diff_index);
    w.put_bool(false);
    w.put_bool(false);
    w.put_bool(false);
    w.put_bool(false);
    put_signal_range(&mut w, range);
    w.put_bool(false);
    w.put_uint(0);
    w.into_bytes()
}

#[derive(Clone, Copy, Default)]
struct HeaderSpec {
    base_video_format: u64,
    frame_size: Option<(u64, u64)>,
    frame_rate_preset: Option<u64>,
    frame_rate_custom: Option<(u64, u64)>,
    pixel_aspect_preset: Option<u64>,
    pixel_aspect_custom: Option<(u64, u64)>,
    clean_area: Option<(u64, u64, u64, u64)>,
    color_spec_preset: Option<u64>,
    color_spec_custom: Option<(Option<u64>, Option<u64>, Option<u64>)>,
    picture_coding_mode: u64,
}

fn header_body(spec: &HeaderSpec) -> Vec<u8> {
    let mut w = BitWriter::default();
    w.put_uint(2);
    w.put_uint(0);
    w.put_uint(0);
    w.put_uint(0);
    w.put_uint(spec.base_video_format);
    match spec.frame_size {
        Some((width, height)) => {
            w.put_bool(true);
            w.put_uint(width);
            w.put_uint(height);
        }
        None => w.put_bool(false),
    }
    w.put_bool(false);
    w.put_bool(false);
    match (spec.frame_rate_preset, spec.frame_rate_custom) {
        (Some(index), _) => {
            w.put_bool(true);
            w.put_uint(index);
        }
        (None, Some((numer, denom))) => {
            w.put_bool(true);
            w.put_uint(0);
            w.put_uint(numer);
            w.put_uint(denom);
        }
        (None, None) => w.put_bool(false),
    }
    match (spec.pixel_aspect_preset, spec.pixel_aspect_custom) {
        (Some(index), _) => {
            w.put_bool(true);
            w.put_uint(index);
        }
        (None, Some((numer, denom))) => {
            w.put_bool(true);
            w.put_uint(0);
            w.put_uint(numer);
            w.put_uint(denom);
        }
        (None, None) => w.put_bool(false),
    }
    match spec.clean_area {
        Some((cw, ch, left, top)) => {
            w.put_bool(true);
            w.put_uint(cw);
            w.put_uint(ch);
            w.put_uint(left);
            w.put_uint(top);
        }
        None => w.put_bool(false),
    }
    w.put_bool(false);
    match (spec.color_spec_preset, spec.color_spec_custom) {
        (Some(index), _) => {
            w.put_bool(true);
            w.put_uint(index);
            if index == 0 {
                w.put_bool(false);
                w.put_bool(false);
                w.put_bool(false);
            }
        }
        (None, Some((primaries, matrix, transfer))) => {
            w.put_bool(true);
            w.put_uint(0);
            for part in [primaries, matrix, transfer] {
                match part {
                    Some(idx) => {
                        w.put_bool(true);
                        w.put_uint(idx);
                    }
                    None => w.put_bool(false),
                }
            }
        }
        (None, None) => w.put_bool(false),
    }
    w.put_uint(spec.picture_coding_mode);
    w.into_bytes()
}

fn parse(spec: &HeaderSpec) -> Result<SequenceHeader, Error> {
    let body = header_body(spec);
    sequence_header(&mut BitReader::new(&body))
}

#[test]
fn all_defaults_header_retains_the_annex_b_row() {
    let seq = parse(&HeaderSpec {
        base_video_format: 13,
        ..Default::default()
    })
    .expect("parse");
    let vp = &seq.video_parameters;
    assert_eq!((vp.frame_rate_numer, vp.frame_rate_denom), (60000, 1001));
    assert_eq!(
        (vp.pixel_aspect_ratio_numer, vp.pixel_aspect_ratio_denom),
        (1, 1)
    );
    assert_eq!(
        (
            vp.clean_width,
            vp.clean_height,
            vp.left_offset,
            vp.top_offset
        ),
        (1920, 1080, 0, 0)
    );
    assert_eq!(
        (
            vp.color_primaries_index,
            vp.color_matrix_index,
            vp.transfer_function_index
        ),
        (0, 0, 0)
    );
    assert_eq!(seq.source_overrides, Default::default());
}

#[test]
fn preset_overrides_are_retained_with_their_indices() {
    let seq = parse(&HeaderSpec {
        base_video_format: 13,
        frame_rate_preset: Some(11),
        pixel_aspect_preset: Some(1),
        color_spec_preset: Some(7),
        ..Default::default()
    })
    .expect("parse");
    let vp = &seq.video_parameters;
    assert_eq!((vp.frame_rate_numer, vp.frame_rate_denom), (48, 1));
    assert_eq!(
        (vp.pixel_aspect_ratio_numer, vp.pixel_aspect_ratio_denom),
        (1, 1)
    );
    assert_eq!(
        (
            vp.color_primaries_index,
            vp.color_matrix_index,
            vp.transfer_function_index
        ),
        (4, 4, 5)
    );
    let ov = &seq.source_overrides;
    assert!(ov.custom_frame_rate_flag);
    assert_eq!(ov.frame_rate_index, Some(11));
    assert!(ov.custom_pixel_aspect_ratio_flag);
    assert_eq!(ov.pixel_aspect_ratio_index, Some(1));
    assert!(ov.custom_color_spec_flag);
    assert_eq!(ov.color_spec_index, Some(7));
    assert!(!ov.custom_dimensions_flag);
    assert!(!ov.custom_clean_area_flag);
    assert!(!ov.custom_signal_range_flag);
}

#[test]
fn fully_custom_values_are_retained() {
    let seq = parse(&HeaderSpec {
        base_video_format: 0,
        frame_size: Some((64, 48)),
        frame_rate_custom: Some((17, 3)),
        pixel_aspect_custom: Some((59, 54)),
        clean_area: Some((60, 40, 4, 8)),
        color_spec_custom: Some((Some(4), Some(4), Some(5))),
        ..Default::default()
    })
    .expect("parse");
    let vp = &seq.video_parameters;
    assert_eq!((vp.frame_width, vp.frame_height), (64, 48));
    assert_eq!((vp.frame_rate_numer, vp.frame_rate_denom), (17, 3));
    assert_eq!(
        (vp.pixel_aspect_ratio_numer, vp.pixel_aspect_ratio_denom),
        (59, 54)
    );
    assert_eq!(
        (
            vp.clean_width,
            vp.clean_height,
            vp.left_offset,
            vp.top_offset
        ),
        (60, 40, 4, 8)
    );
    assert_eq!(
        (
            vp.color_primaries_index,
            vp.color_matrix_index,
            vp.transfer_function_index
        ),
        (4, 4, 5)
    );
    let ov = &seq.source_overrides;
    assert!(ov.custom_dimensions_flag);
    assert_eq!(ov.frame_rate_index, Some(0));
    assert_eq!(ov.pixel_aspect_ratio_index, Some(0));
    assert!(ov.custom_clean_area_flag);
    assert_eq!(ov.color_spec_index, Some(0));
}

#[test]
fn color_spec_index0_starts_from_the_custom_row() {
    let seq = parse(&HeaderSpec {
        base_video_format: 15,
        color_spec_preset: Some(0),
        ..Default::default()
    })
    .expect("parse");
    let vp = &seq.video_parameters;
    assert_eq!(
        (
            vp.color_primaries_index,
            vp.color_matrix_index,
            vp.transfer_function_index
        ),
        (0, 0, 0)
    );
    let seq = parse(&HeaderSpec {
        base_video_format: 15,
        color_spec_custom: Some((None, Some(3), None)),
        ..Default::default()
    })
    .expect("parse");
    let vp = &seq.video_parameters;
    assert_eq!(
        (
            vp.color_primaries_index,
            vp.color_matrix_index,
            vp.transfer_function_index
        ),
        (0, 3, 0)
    );
}

#[test]
fn out_of_range_indices_and_degenerate_values_are_rejected() {
    let base = HeaderSpec {
        base_video_format: 0,
        ..Default::default()
    };
    for spec in [
        HeaderSpec {
            frame_rate_preset: Some(17),
            ..base
        },
        HeaderSpec {
            frame_rate_custom: Some((0, 1)),
            ..base
        },
        HeaderSpec {
            frame_rate_custom: Some((30, 0)),
            ..base
        },
        HeaderSpec {
            pixel_aspect_preset: Some(7),
            ..base
        },
        HeaderSpec {
            pixel_aspect_custom: Some((0, 1)),
            ..base
        },
        HeaderSpec {
            color_spec_preset: Some(8),
            ..base
        },
        HeaderSpec {
            color_spec_custom: Some((Some(5), None, None)),
            ..base
        },
        HeaderSpec {
            color_spec_custom: Some((None, Some(5), None)),
            ..base
        },
        HeaderSpec {
            color_spec_custom: Some((None, None, Some(6))),
            ..base
        },
        HeaderSpec {
            picture_coding_mode: 2,
            ..base
        },
    ] {
        assert!(
            matches!(parse(&spec), Err(Error::InvalidValue(_))),
            "spec unexpectedly parsed"
        );
    }
    assert!(parse(&HeaderSpec {
        color_spec_custom: Some((None, None, Some(5))),
        ..base
    })
    .is_ok());
}

#[test]
fn signalled_clean_area_must_fit_the_frame() {
    let bad = HeaderSpec {
        base_video_format: 0,
        frame_size: Some((64, 48)),
        clean_area: Some((60, 40, 8, 0)),
        ..Default::default()
    };
    assert!(matches!(parse(&bad), Err(Error::InvalidValue(_))));
    let stale = HeaderSpec {
        base_video_format: 0,
        frame_size: Some((8, 8)),
        ..Default::default()
    };
    let seq = parse(&stale).expect("stale default clean area decodes");
    assert_eq!(seq.video_parameters.clean_width, 640);
    assert!(!seq.source_overrides.custom_clean_area_flag);
}

#[test]
fn sequence_decoder_exposes_the_header_mid_sequence() {

    let p = PicParams::hq_depth0();
    let seq_body = sequence_header_body(2, 2, p.major_version);
    let c = [0i64; 4];
    let pic = picture_body(&p, 0, &[hq_slice_bytes(p.qindex, &c, &c, &c)]);

    let mut units = Vec::new();
    parse_info(&mut units, 0x00, (13 + seq_body.len()) as u32, 0);
    units.extend_from_slice(&seq_body);
    parse_info(&mut units, 0xE8, 0, (13 + seq_body.len()) as u32);
    units.extend_from_slice(&pic);

    let mut dec = SequenceDecoder::new();
    let pics = dec.push(&units).expect("push");
    assert_eq!(pics.len(), 1);
    let header = dec.sequence_header().expect("header retained");
    assert_eq!(header.video_parameters.frame_width, 2);
    assert_eq!(header.video_parameters.frame_rate_numer, 24000);

    let full = build_units(&[]);
    dec.push(&full).expect("eos");
    assert!(dec.sequence_header().is_none());
}
