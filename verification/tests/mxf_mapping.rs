//! Mapping of streams into MXF.
#![allow(dead_code)]

use oxideav_vc2::bitio::BitReader;
use oxideav_vc2::mxf::{
    self, frame_layout, recommended_video_line_map, stored_dimensions, FrameLayout,
};
use oxideav_vc2::params::sequence_header;
use oxideav_vc2::mxf::{edit_unit_is_complete_sequence, edit_units_are_complete_sequences};

#[derive(Default)]
struct BitWriter {
    bytes: Vec<u8>,
    cur: u8,
    nbits: u8,
}

impl BitWriter {
    fn put_bit(&mut self, bit: u32) {
        self.cur = (self.cur << 1) | (bit as u8 & 1);
        self.nbits += 1;
        if self.nbits == 8 {
            self.bytes.push(self.cur);
            self.cur = 0;
            self.nbits = 0;
        }
    }

    fn put_bool(&mut self, b: bool) {
        self.put_bit(b as u32);
    }

    fn put_nbits(&mut self, val: u64, n: u32) {
        for i in (0..n).rev() {
            self.put_bit(((val >> i) & 1) as u32);
        }
    }

    fn byte_align(&mut self) {
        while self.nbits != 0 {
            self.put_bit(0);
        }
    }

    fn bit_len(&self) -> u64 {
        self.bytes.len() as u64 * 8 + self.nbits as u64
    }

    fn append(&mut self, other: &BitWriter) {
        for &b in &other.bytes {
            self.put_nbits(b as u64, 8);
        }
        for i in (0..other.nbits).rev() {
            self.put_bit(((other.cur >> i) & 1) as u32);
        }
    }

    fn put_uint(&mut self, value: u64) {
        let n = value + 1;
        let bits = 64 - n.leading_zeros();
        for i in (0..bits - 1).rev() {
            self.put_bit(0);
            self.put_bit(((n >> i) & 1) as u32);
        }
        self.put_bit(1);
    }

    fn put_sint(&mut self, value: i64) {
        self.put_uint(value.unsigned_abs());
        if value != 0 {
            self.put_bit((value < 0) as u32);
        }
    }

    fn into_bytes(mut self) -> Vec<u8> {
        self.byte_align();
        self.bytes
    }
}

fn parse_info(out: &mut Vec<u8>, parse_code: u8, next_offset: u32, prev_offset: u32) {
    out.extend_from_slice(&[0x42, 0x42, 0x43, 0x44]);
    out.push(parse_code);
    out.extend_from_slice(&next_offset.to_be_bytes());
    out.extend_from_slice(&prev_offset.to_be_bytes());
}

fn build_units(units: &[(u8, Vec<u8>)]) -> Vec<u8> {
    let mut out = Vec::new();
    let mut prev_offset = 0u32;
    for (code, body) in units {
        let next_offset = (13 + body.len()) as u32;
        parse_info(&mut out, *code, next_offset, prev_offset);
        out.extend_from_slice(body);
        prev_offset = next_offset;
    }
    parse_info(&mut out, 0x10, 0, prev_offset);
    out
}

fn sequence_header_body(width: u64, height: u64, major_version: u64) -> Vec<u8> {
    let mut w = BitWriter::default();
    w.put_uint(major_version);
    w.put_uint(0);
    w.put_uint(0);
    w.put_uint(0);
    w.put_uint(0);
    w.put_bool(true);
    w.put_uint(width);
    w.put_uint(height);
    w.put_bool(true);
    w.put_uint(0);
    w.put_bool(false);
    w.put_bool(false);
    w.put_bool(false);
    w.put_bool(false);
    w.put_bool(true);
    w.put_uint(1);
    w.put_bool(false);
    w.put_uint(0);
    w.into_bytes()
}

#[derive(Clone, Copy)]
struct PicParams {
    major_version: u64,
    wavelet_index: u64,
    dwt_depth: u64,
    ho: Option<(u64, u64)>,
    qindex: u64,
    slices_x: u64,
    slices_y: u64,
    low_delay: bool,
    slice_bytes_numerator: u64,
    slice_bytes_denominator: u64,
}

impl PicParams {
    fn hq_depth0() -> Self {
        PicParams {
            major_version: 2,
            wavelet_index: 3,
            dwt_depth: 0,
            ho: None,
            qindex: 0,
            slices_x: 1,
            slices_y: 1,
            low_delay: false,
            slice_bytes_numerator: 0,
            slice_bytes_denominator: 1,
        }
    }

    fn ld_slice_bytes_len(&self, slice_index: u64) -> u64 {
        let a = ((slice_index + 1) * self.slice_bytes_numerator) / self.slice_bytes_denominator;
        let b = (slice_index * self.slice_bytes_numerator) / self.slice_bytes_denominator;
        a - b
    }
}

fn write_transform_parameters(w: &mut BitWriter, p: &PicParams) {
    w.put_uint(p.wavelet_index);
    w.put_uint(p.dwt_depth);
    if p.major_version >= 3 {
        match p.ho {
            Some((wavelet_index_ho, dwt_depth_ho)) => {
                w.put_bool(true);
                w.put_uint(wavelet_index_ho);
                w.put_bool(true);
                w.put_uint(dwt_depth_ho);
            }
            None => {
                w.put_bool(false);
                w.put_bool(false);
            }
        }
    } else {
        assert!(p.ho.is_none(), "asymmetric params need major_version >= 3");
    }
    w.put_uint(p.slices_x);
    w.put_uint(p.slices_y);
    if p.low_delay {
        w.put_uint(p.slice_bytes_numerator);
        w.put_uint(p.slice_bytes_denominator);
    } else {
        w.put_uint(0);
        w.put_uint(1);
    }
    w.put_bool(false);
}

fn hq_slice_bytes(qindex: u64, y: &[i64], c1: &[i64], c2: &[i64]) -> Vec<u8> {
    let mut w = BitWriter::default();
    w.put_nbits(qindex, 8);
    for comp in [y, c1, c2] {
        let mut cw = BitWriter::default();
        for &v in comp {
            cw.put_sint(v);
        }
        let payload = cw.into_bytes();
        assert!(payload.len() <= 255, "test payload fits a 1-byte length");
        w.put_nbits(payload.len() as u64, 8);
        for b in payload {
            w.put_nbits(b as u64, 8);
        }
    }
    w.into_bytes()
}

fn ld_slice_bytes(qindex: u64, slice_len: u64, y: &[i64], c1: &[i64], c2: &[i64]) -> Vec<u8> {
    assert_eq!(c1.len(), c2.len());
    let total_bits = 8 * slice_len;
    let length_bits = oxideav_vc2::params::intlog2(total_bits - 7);

    let mut yw = BitWriter::default();
    for &v in y {
        yw.put_sint(v);
    }
    let mut cw = BitWriter::default();
    for (&a, &b) in c1.iter().zip(c2) {
        cw.put_sint(a);
        cw.put_sint(b);
    }

    let mut w = BitWriter::default();
    w.put_nbits(qindex, 7);
    w.put_nbits(yw.bit_len(), length_bits);
    w.append(&yw);
    w.append(&cw);
    assert!(
        w.bit_len() <= total_bits,
        "coefficients overflow the fixed LD slice size"
    );
    while w.bit_len() < total_bits {
        w.put_bit(0);
    }
    w.into_bytes()
}

fn picture_body(p: &PicParams, picture_number: u32, slices: &[Vec<u8>]) -> Vec<u8> {
    let mut w = BitWriter::default();
    w.put_nbits(picture_number as u64, 32);
    w.byte_align();
    write_transform_parameters(&mut w, p);
    w.byte_align();
    let mut out = w.into_bytes();
    for s in slices {
        out.extend_from_slice(s);
    }
    out
}

fn fragment_setup_body(p: &PicParams, picture_number: u32) -> Vec<u8> {
    let mut w = BitWriter::default();
    w.put_nbits(picture_number as u64, 32);
    w.put_nbits(0, 16);
    w.put_nbits(0, 16);
    write_transform_parameters(&mut w, p);
    w.into_bytes()
}

fn fragment_data_body(
    picture_number: u32,
    x_offset: u16,
    y_offset: u16,
    slices: &[Vec<u8>],
) -> Vec<u8> {
    let mut w = BitWriter::default();
    w.put_nbits(picture_number as u64, 32);
    w.put_nbits(0, 16);
    w.put_nbits(slices.len() as u64, 16);
    w.put_nbits(x_offset as u64, 16);
    w.put_nbits(y_offset as u64, 16);
    let mut out = w.into_bytes();
    for s in slices {
        out.extend_from_slice(s);
    }
    out
}

#[derive(Clone, Copy)]
enum SignalRange {
    Preset(u64),
    Custom { luma_offset: u64, luma_excursion: u64, color_diff_offset: u64, color_diff_excursion: u64 },
}

fn put_signal_range(w: &mut BitWriter, range: SignalRange) {
    w.put_bool(true);
    match range {
        SignalRange::Preset(index) => w.put_uint(index),
        SignalRange::Custom {
            luma_offset,
            luma_excursion,
            color_diff_offset,
            color_diff_excursion,
        } => {
            w.put_uint(0);
            w.put_uint(luma_offset);
            w.put_uint(luma_excursion);
            w.put_uint(color_diff_offset);
            w.put_uint(color_diff_excursion);
        }
    }
}

fn sequence_header_body_full(
    width: u64,
    height: u64,
    major_version: u64,
    color_diff_index: u64,
    range: SignalRange,
) -> Vec<u8> {
    let mut w = BitWriter::default();
    w.put_uint(major_version);
    w.put_uint(0);
    w.put_uint(0);
    w.put_uint(0);
    w.put_uint(0);
    w.put_bool(true);
    w.put_uint(width);
    w.put_uint(height);
    w.put_bool(true);
    w.put_uint(color_diff_index);
    w.put_bool(false);
    w.put_bool(false);
    w.put_bool(false);
    w.put_bool(false);
    put_signal_range(&mut w, range);
    w.put_bool(false);
    w.put_uint(0);
    w.into_bytes()
}

#[derive(Clone, Copy)]
struct HeaderSpec {
    major_version: u64,
    profile: u64,
    level: u64,
    base_video_format: u64,
    frame_size: Option<(u64, u64)>,
    color_diff_index: Option<u64>,
    scan_format: Option<u64>,
    frame_rate_preset: Option<u64>,
    pixel_aspect_preset: Option<u64>,
    clean_area: Option<(u64, u64, u64, u64)>,
    signal_range_preset: Option<u64>,
    color_spec_preset: Option<u64>,
    picture_coding_mode: u64,
}

impl Default for HeaderSpec {
    fn default() -> Self {
        HeaderSpec {
            major_version: 2,
            profile: 0,
            level: 0,
            base_video_format: 0,
            frame_size: None,
            color_diff_index: None,
            scan_format: None,
            frame_rate_preset: None,
            pixel_aspect_preset: None,
            clean_area: None,
            signal_range_preset: None,
            color_spec_preset: None,
            picture_coding_mode: 0,
        }
    }
}

fn put_optional(w: &mut BitWriter, index: Option<u64>) {
    match index {
        Some(index) => {
            w.put_bool(true);
            w.put_uint(index);
        }
        None => w.put_bool(false),
    }
}

fn header_body(spec: &HeaderSpec) -> Vec<u8> {
    let mut w = BitWriter::default();
    w.put_uint(spec.major_version);
    w.put_uint(0);
    w.put_uint(spec.profile);
    w.put_uint(spec.level);
    w.put_uint(spec.base_video_format);
    match spec.frame_size {
        Some((width, height)) => {
            w.put_bool(true);
            w.put_uint(width);
            w.put_uint(height);
        }
        None => w.put_bool(false),
    }
    put_optional(&mut w, spec.color_diff_index);
    put_optional(&mut w, spec.scan_format);
    put_optional(&mut w, spec.frame_rate_preset);
    put_optional(&mut w, spec.pixel_aspect_preset);
    match spec.clean_area {
        Some((width, height, left, top)) => {
            w.put_bool(true);
            w.put_uint(width);
            w.put_uint(height);
            w.put_uint(left);
            w.put_uint(top);
        }
        None => w.put_bool(false),
    }
    put_optional(&mut w, spec.signal_range_preset);
    put_optional(&mut w, spec.color_spec_preset);
    w.put_uint(spec.picture_coding_mode);
    w.into_bytes()
}

fn parse(spec: &HeaderSpec) -> oxideav_vc2::params::SequenceHeader {
    let body = header_body(spec);
    sequence_header(&mut BitReader::new(&body)).expect("header parses")
}

#[test]
fn annex_b_descriptor_mappings() {
    let seq = parse(&HeaderSpec {
        base_video_format: 11,
        picture_coding_mode: 1,
        ..Default::default()
    });
    assert_eq!(frame_layout(&seq), FrameLayout::SeparateFields);
    assert_eq!(stored_dimensions(&seq), (1920, 540));
    assert_eq!(mxf::field_dominance(&seq), 1);
    assert_eq!(mxf::sample_rate(&seq), (30000, 1001));
    assert_eq!(mxf::component_depth(&seq), 10);
    assert_eq!(mxf::horizontal_subsampling(&seq), 2);
    assert_eq!(mxf::vertical_subsampling(&seq), 1);
    assert_eq!(mxf::black_ref_level(&seq), 64);
    assert_eq!(mxf::white_ref_level(&seq), 64 + 876);
    assert_eq!(mxf::color_range(&seq), 897);
    assert_eq!(recommended_video_line_map(&seq), [1, 541]);

    let seq = parse(&HeaderSpec {
        base_video_format: 11,
        picture_coding_mode: 0,
        ..Default::default()
    });
    assert_eq!(frame_layout(&seq), FrameLayout::MixedFields);
    assert_eq!(stored_dimensions(&seq), (1920, 1080));

    let seq = parse(&HeaderSpec {
        base_video_format: 13,
        ..Default::default()
    });
    assert_eq!(frame_layout(&seq), FrameLayout::FullFrame);
    assert_eq!(recommended_video_line_map(&seq), [1, 0]);

    let seq = parse(&HeaderSpec {
        base_video_format: 13,
        picture_coding_mode: 1,
        ..Default::default()
    });
    assert_eq!(frame_layout(&seq), FrameLayout::SegmentedFrame);
    assert_eq!(stored_dimensions(&seq), (1920, 540));

    let seq = parse(&HeaderSpec {
        base_video_format: 7,
        picture_coding_mode: 1,
        ..Default::default()
    });
    assert_eq!(mxf::field_dominance(&seq), 2);
    let seq = parse(&HeaderSpec {
        base_video_format: 16,
        ..Default::default()
    });
    assert_eq!(mxf::horizontal_subsampling(&seq), 1);
    assert_eq!(mxf::vertical_subsampling(&seq), 1);
    assert_eq!(mxf::component_depth(&seq), 12);

    let seq = parse(&HeaderSpec {
        base_video_format: 1,
        ..Default::default()
    });
    assert_eq!(mxf::horizontal_subsampling(&seq), 2);
    assert_eq!(mxf::vertical_subsampling(&seq), 2);
}

fn one_sequence(wavelet_index: u64, range: SignalRange) -> Vec<(u8, Vec<u8>)> {
    let p = PicParams {
        wavelet_index,
        dwt_depth: if wavelet_index == 0 { 2 } else { 1 },
        ..PicParams::hq_depth0()
    };
    let seq = sequence_header_body_full(8, 8, p.major_version, 0, range);
    let y = [0i64; 64];
    let c = [0i64; 64];
    let pic = picture_body(&p, 0, &[hq_slice_bytes(p.qindex, &y, &c, &c)]);
    vec![(0x00, seq), (0xE8, pic)]
}

#[test]
fn sub_descriptor_scan_collects_filters_and_header_identity() {
    let mut units = one_sequence(4, SignalRange::Preset(3));
    units.extend(one_sequence(1, SignalRange::Preset(3)));
    let stream: Vec<u8> = units.chunks(2).flat_map(build_units).collect();
    let values = mxf::sub_descriptor_values(&stream).expect("scan");
    assert_eq!(values.major_version, 2);
    assert_eq!(values.minor_version, 0);
    assert_eq!(values.profile, 0);
    assert_eq!(values.level, 0);
    assert_eq!(values.wavelet_filters, vec![1, 4]);
    assert!(values.sequence_headers_identical);

    let mut units = one_sequence(4, SignalRange::Preset(3));
    units.extend(one_sequence(4, SignalRange::Preset(1)));
    let stream: Vec<u8> = units.chunks(2).flat_map(build_units).collect();
    let values = mxf::sub_descriptor_values(&stream).expect("scan");
    assert_eq!(values.wavelet_filters, vec![4]);
    assert!(!values.sequence_headers_identical);
}

#[test]
fn sub_descriptor_scan_rejects_varying_scalars() {
    let p = PicParams::hq_depth0();
    let y = [0i64; 4];
    let seq_a = header_body(&HeaderSpec {
        level: 0,
        base_video_format: 0,
        frame_size: Some((2, 2)),
        ..Default::default()
    });
    let seq_b = header_body(&HeaderSpec {
        level: 1,
        base_video_format: 0,
        frame_size: Some((2, 2)),
        ..Default::default()
    });
    let pic = picture_body(&p, 0, &[hq_slice_bytes(p.qindex, &y, &y, &y)]);
    let mut stream = build_units(&[(0x00, seq_a), (0xE8, pic.clone())]);
    stream.extend(build_units(&[(0x00, seq_b), (0xE8, pic)]));
    assert!(mxf::sub_descriptor_values(&stream).is_err());
}

#[test]
fn edit_unit_completeness_is_structural() {

    let units = one_sequence(4, SignalRange::Preset(3));
    let complete = build_units(&units);
    assert!(edit_unit_is_complete_sequence(&complete));

    let mut no_eos = complete.clone();
    no_eos.truncate(no_eos.len() - 13);
    assert!(!edit_unit_is_complete_sequence(&no_eos));

    let mut trailing = complete.clone();
    trailing.extend_from_slice(&complete);
    assert!(!edit_unit_is_complete_sequence(
        &trailing[..complete.len() + 4]
    ));
    assert!(!edit_unit_is_complete_sequence(&trailing));

    let p = PicParams::hq_depth0();
    let y = [0i64; 64];
    let pic = picture_body(&p, 0, &[hq_slice_bytes(p.qindex, &y, &y, &y)]);
    let headerless = build_units(&[(0xE8, pic)]);
    assert!(!edit_unit_is_complete_sequence(&headerless));

    assert!(edit_units_are_complete_sequences(&[complete.as_slice(), complete.as_slice()]));
    assert!(!edit_units_are_complete_sequences(&[complete.as_slice(), no_eos.as_slice()]));
    assert!(!edit_units_are_complete_sequences(&[]));
}

#[test]
fn complete_edit_units_are_exact() {
    let complete = build_units(&one_sequence(4, SignalRange::Preset(3)));
    let twice = [complete.clone(), complete.clone()].concat();
    for k in 0..=twice.len() {
        assert_eq!(edit_unit_is_complete_sequence(&twice[..k]), k == complete.len(), "cut at {k}");
    }
}
