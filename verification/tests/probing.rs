//! How data bear out a container tag, and walks over whole streams.
#![allow(dead_code)]

use oxideav_vc2::conformance::{check_stream, Violation};
use oxideav_vc2::mxf::sub_descriptor_values;
use oxideav_vc2::probe::{
    grade, grade_units, Evidence, MATROSKA_CODEC_ID, MP4_OBJECT_TYPE, MP4_SAMPLE_ENTRY,
};
use oxideav_vc2::{Error, CODEC_ID};

#[derive(Default)]
struct BitWriter {
    bytes: Vec<u8>,
    cur: u8,
    nbits: u8,
}

impl BitWriter {
    fn put_bit(&mut self, bit: u32) {
        self.cur = (self.cur << 1) | (bit as u8 & 1);
        self.nbits += 1;
        if self.nbits == 8 {
            self.bytes.push(self.cur);
            self.cur = 0;
            self.nbits = 0;
        }
    }

    fn put_bool(&mut self, b: bool) {
        self.put_bit(b as u32);
    }

    fn put_nbits(&mut self, val: u64, n: u32) {
        for i in (0..n).rev() {
            self.put_bit(((val >> i) & 1) as u32);
        }
    }

    fn byte_align(&mut self) {
        while self.nbits != 0 {
            self.put_bit(0);
        }
    }

    fn bit_len(&self) -> u64 {
        self.bytes.len() as u64 * 8 + self.nbits as u64
    }

    fn append(&mut self, other: &BitWriter) {
        for &b in &other.bytes {
            self.put_nbits(b as u64, 8);
        }
        for i in (0..other.nbits).rev() {
            self.put_bit(((other.cur >> i) & 1) as u32);
        }
    }

    fn put_uint(&mut self, value: u64) {
        let n = value + 1;
        let bits = 64 - n.leading_zeros();
        for i in (0..bits - 1).rev() {
            self.put_bit(0);
            self.put_bit(((n >> i) & 1) as u32);
        }
        self.put_bit(1);
    }

    fn put_sint(&mut self, value: i64) {
        self.put_uint(value.unsigned_abs());
        if value != 0 {
            self.put_bit((value < 0) as u32);
        }
    }

    fn into_bytes(mut self) -> Vec<u8> {
        self.byte_align();
        self.bytes
    }
}

fn parse_info(out: &mut Vec<u8>, parse_code: u8, next_offset: u32, prev_offset: u32) {
    out.extend_from_slice(&[0x42, 0x42, 0x43, 0x44]);
    out.push(parse_code);
    out.extend_from_slice(&next_offset.to_be_bytes());
    out.extend_from_slice(&prev_offset.to_be_bytes());
}

fn build_units(units: &[(u8, Vec<u8>)]) -> Vec<u8> {
    let mut out = Vec::new();
    let mut prev_offset = 0u32;
    for (code, body) in units {
        let next_offset = (13 + body.len()) as u32;
        parse_info(&mut out, *code, next_offset, prev_offset);
        out.extend_from_slice(body);
        prev_offset = next_offset;
    }
    parse_info(&mut out, 0x10, 0, prev_offset);
    out
}

fn sequence_header_body(width: u64, height: u64, major_version: u64) -> Vec<u8> {
    let mut w = BitWriter::default();
    w.put_uint(major_version);
    w.put_uint(0);
    w.put_uint(0);
    w.put_uint(0);
    w.put_uint(0);
    w.put_bool(true);
    w.put_uint(width);
    w.put_uint(height);
    w.put_bool(true);
    w.put_uint(0);
    w.put_bool(false);
    w.put_bool(false);
    w.put_bool(false);
    w.put_bool(false);
    w.put_bool(true);
    w.put_uint(1);
    w.put_bool(false);
    w.put_uint(0);
    w.into_bytes()
}

#[derive(Clone, Copy)]
struct PicParams {
    major_version: u64,
    wavelet_index: u64,
    dwt_depth: u64,
    ho: Option<(u64, u64)>,
    qindex: u64,
    slices_x: u64,
    slices_y: u64,
    low_delay: bool,
    slice_bytes_numerator: u64,
    slice_bytes_denominator: u64,
}

impl PicParams {
    fn hq_depth0() -> Self {
        PicParams {
            major_version: 2,
            wavelet_index: 3,
            dwt_depth: 0,
            ho: None,
            qindex: 0,
            slices_x: 1,
            slices_y: 1,
            low_delay: false,
            slice_bytes_numerator: 0,
            slice_bytes_denominator: 1,
        }
    }

    fn ld_slice_bytes_len(&self, slice_index: u64) -> u64 {
        let a = ((slice_index + 1) * self.slice_bytes_numerator) / self.slice_bytes_denominator;
        let b = (slice_index * self.slice_bytes_numerator) / self.slice_bytes_denominator;
        a - b
    }
}

fn write_transform_parameters(w: &mut BitWriter, p: &PicParams) {
    w.put_uint(p.wavelet_index);
    w.put_uint(p.dwt_depth);
    if p.major_version >= 3 {
        match p.ho {
            Some((wavelet_index_ho, dwt_depth_ho)) => {
                w.put_bool(true);
                w.put_uint(wavelet_index_ho);
                w.put_bool(true);
                w.put_uint(dwt_depth_ho);
            }
            None => {
                w.put_bool(false);
                w.put_bool(false);
            }
        }
    } else {
        assert!(p.ho.is_none(), "asymmetric params need major_version >= 3");
    }
    w.put_uint(p.slices_x);
    w.put_uint(p.slices_y);
    if p.low_delay {
        w.put_uint(p.slice_bytes_numerator);
        w.put_uint(p.slice_bytes_denominator);
    } else {
        w.put_uint(0);
        w.put_uint(1);
    }
    w.put_bool(false);
}

fn hq_slice_bytes(qindex: u64, y: &[i64], c1: &[i64], c2: &[i64]) -> Vec<u8> {
    let mut w = BitWriter::default();
    w.put_nbits(qindex, 8);
    for comp in [y, c1, c2] {
        let mut cw = BitWriter::default();
        for &v in comp {
            cw.put_sint(v);
        }
        let payload = cw.into_bytes();
        assert!(payload.len() <= 255, "test payload fits a 1-byte length");
        w.put_nbits(payload.len() as u64, 8);
        for b in payload {
            w.put_nbits(b as u64, 8);
        }
    }
    w.into_bytes()
}

fn ld_slice_bytes(qindex: u64, slice_len: u64, y: &[i64], c1: &[i64], c2: &[i64]) -> Vec<u8> {
    assert_eq!(c1.len(), c2.len());
    let total_bits = 8 * slice_len;
    let length_bits = oxideav_vc2::params::intlog2(total_bits - 7);

    let mut yw = BitWriter::default();
    for &v in y {
        yw.put_sint(v);
    }
    let mut cw = BitWriter::default();
    for (&a, &b) in c1.iter().zip(c2) {
        cw.put_sint(a);
        cw.put_sint(b);
    }

    let mut w = BitWriter::default();
    w.put_nbits(qindex, 7);
    w.put_nbits(yw.bit_len(), length_bits);
    w.append(&yw);
    w.append(&cw);
    assert!(
        w.bit_len() <= total_bits,
        "coefficients overflow the fixed LD slice size"
    );
    while w.bit_len() < total_bits {
        w.put_bit(0);
    }
    w.into_bytes()
}

fn picture_body(p: &PicParams, picture_number: u32, slices: &[Vec<u8>]) -> Vec<u8> {
    let mut w = BitWriter::default();
    w.put_nbits(picture_number as u64, 32);
    w.byte_align();
    write_transform_parameters(&mut w, p);
    w.byte_align();
    let mut out = w.into_bytes();
    for s in slices {
        out.extend_from_slice(s);
    }
    out
}

fn fragment_setup_body(p: &PicParams, picture_number: u32) -> Vec<u8> {
    let mut w = BitWriter::default();
    w.put_nbits(picture_number as u64, 32);
    w.put_nbits(0, 16);
    w.put_nbits(0, 16);
    write_transform_parameters(&mut w, p);
    w.into_bytes()
}

fn fragment_data_body(
    picture_number: u32,
    x_offset: u16,
    y_offset: u16,
    slices: &[Vec<u8>],
) -> Vec<u8> {
    let mut w = BitWriter::default();
    w.put_nbits(picture_number as u64, 32);
    w.put_nbits(0, 16);
    w.put_nbits(slices.len() as u64, 16);
    w.put_nbits(x_offset as u64, 16);
    w.put_nbits(y_offset as u64, 16);
    let mut out = w.into_bytes();
    for s in slices {
        out.extend_from_slice(s);
    }
    out
}

#[derive(Clone, Copy)]
enum SignalRange {
    Preset(u64),
    Custom { luma_offset: u64, luma_excursion: u64, color_diff_offset: u64, color_diff_excursion: u64 },
}

fn put_signal_range(w: &mut BitWriter, range: SignalRange) {
    w.put_bool(true);
    match range {
        SignalRange::Preset(index) => w.put_uint(index),
        SignalRange::Custom {
            luma_offset,
            luma_excursion,
            color_diff_offset,
            color_diff_excursion,
        } => {
            w.put_uint(0);
            w.put_uint(luma_offset);
            w.put_uint(luma_excursion);
            w.put_uint(color_diff_offset);
            w.put_uint(color_diff_excursion);
        }
    }
}

fn sequence_header_body_full(
    width: u64,
    height: u64,
    major_version: u64,
    color_diff_index: u64,
    range: SignalRange,
) -> Vec<u8> {
    let mut w = BitWriter::default();
    w.put_uint(major_version);
    w.put_uint(0);
    w.put_uint(0);
    w.put_uint(0);
    w.put_uint(0);
    w.put_bool(true);
    w.put_uint(width);
    w.put_uint(height);
    w.put_bool(true);
    w.put_uint(color_diff_index);
    w.put_bool(false);
    w.put_bool(false);
    w.put_bool(false);
    w.put_bool(false);
    put_signal_range(&mut w, range);
    w.put_bool(false);
    w.put_uint(0);
    w.into_bytes()
}

#[derive(Clone, Copy)]
struct HeaderSpec {
    major_version: u64,
    profile: u64,
    level: u64,
    base_video_format: u64,
    frame_size: Option<(u64, u64)>,
    color_diff_index: Option<u64>,
    scan_format: Option<u64>,
    frame_rate_preset: Option<u64>,
    pixel_aspect_preset: Option<u64>,
    clean_area: Option<(u64, u64, u64, u64)>,
    signal_range_preset: Option<u64>,
    color_spec_preset: Option<u64>,
    picture_coding_mode: u64,
}

impl Default for HeaderSpec {
    fn default() -> Self {
        HeaderSpec {
            major_version: 2,
            profile: 0,
            level: 0,
            base_video_format: 0,
            frame_size: None,
            color_diff_index: None,
            scan_format: None,
            frame_rate_preset: None,
            pixel_aspect_preset: None,
            clean_area: None,
            signal_range_preset: None,
            color_spec_preset: None,
            picture_coding_mode: 0,
        }
    }
}

fn put_optional(w: &mut BitWriter, index: Option<u64>) {
    match index {
        Some(index) => {
            w.put_bool(true);
            w.put_uint(index);
        }
        None => w.put_bool(false),
    }
}

fn header_body(spec: &HeaderSpec) -> Vec<u8> {
    let mut w = BitWriter::default();
    w.put_uint(spec.major_version);
    w.put_uint(0);
    w.put_uint(spec.profile);
    w.put_uint(spec.level);
    w.put_uint(spec.base_video_format);
    match spec.frame_size {
        Some((width, height)) => {
            w.put_bool(true);
            w.put_uint(width);
            w.put_uint(height);
        }
        None => w.put_bool(false),
    }
    put_optional(&mut w, spec.color_diff_index);
    put_optional(&mut w, spec.scan_format);
    put_optional(&mut w, spec.frame_rate_preset);
    put_optional(&mut w, spec.pixel_aspect_preset);
    match spec.clean_area {
        Some((width, height, left, top)) => {
            w.put_bool(true);
            w.put_uint(width);
            w.put_uint(height);
            w.put_uint(left);
            w.put_uint(top);
        }
        None => w.put_bool(false),
    }
    put_optional(&mut w, spec.signal_range_preset);
    put_optional(&mut w, spec.color_spec_preset);
    w.put_uint(spec.picture_coding_mode);
    w.into_bytes()
}

fn stream(codes: &[u8]) -> Vec<u8> {
    build_units(&codes.iter().map(|&c| (c, vec![0x55; 5])).collect::<Vec<_>>())
}

#[test]
fn tags() {
    assert_eq!(CODEC_ID, "vc2");
    assert_eq!(MATROSKA_CODEC_ID, "V_DIRAC");
    assert_eq!(&MP4_SAMPLE_ENTRY, b"drac");
    assert_eq!(MP4_OBJECT_TYPE, 0xA4);
}

#[test]
fn defined_data_units_confirm() {
    assert_eq!(grade_units(&stream(&[0x00, 0xE8, 0x30, 0xCC])), Evidence::Confirmed);
    let whole = stream(&[0x00]);
    assert_eq!(grade_units(&whole[..13]), Evidence::Confirmed);
    assert_eq!(grade(Some(&whole), Some(&[1, 2, 3])), Evidence::Confirmed);
    assert_eq!(grade(None, Some(&whole)), Evidence::Confirmed);
}

#[test]
fn unknown_codes_and_bare_tags_are_weak() {
    assert_eq!(grade_units(&stream(&[0x00, 0x08])), Evidence::Weak);
    assert_eq!(grade_units(&stream(&[0x09, 0x00])), Evidence::Weak);
    assert_eq!(grade(None, None), Evidence::Weak);
    assert_eq!(grade(None, Some(&[0; 20])), Evidence::Weak);
}

#[test]
fn broken_framing_vetoes() {
    assert_eq!(grade_units(&[0; 16]), Evidence::Vetoed);
    assert_eq!(grade_units(&[]), Evidence::Vetoed);
    assert_eq!(grade_units(b"BBCD"), Evidence::Vetoed);
    let mut torn = stream(&[0x00, 0xE8]);
    torn[18] = b'X';
    assert_eq!(grade_units(&torn), Evidence::Vetoed);
    assert_eq!(grade(None, Some(&torn)), Evidence::Vetoed);
    let mut short = Vec::new();
    parse_info(&mut short, 0x30, 12, 0);
    assert_eq!(grade_units(&short), Evidence::Vetoed);
}

#[test]
fn a_last_header_may_be_cut_short() {
    let whole = stream(&[0x00, 0x08]);
    for k in 18..31 {
        assert_eq!(grade_units(&whole[..k]), Evidence::Confirmed, "cut at {k}");
    }
    assert_eq!(grade_units(&whole[..31]), Evidence::Weak);
    let mut torn = whole[..22].to_vec();
    torn[21] = 0;
    assert_eq!(grade_units(&torn), Evidence::Vetoed);
}

fn numbered(mode: u64, numbers: &[u32]) -> Vec<u8> {
    let p = PicParams::hq_depth0();
    let c = [0i64; 4];
    let mut units = vec![(
        0x00,
        header_body(&HeaderSpec {
            profile: 3,
            frame_size: Some((2, 2)),
            picture_coding_mode: mode,
            ..Default::default()
        }),
    )];
    for &n in numbers {
        units.push((0xE8, picture_body(&p, n, &[hq_slice_bytes(0, &c, &c, &c)])));
    }
    build_units(&units)
}

#[test]
fn picture_numbers_follow_each_other() {
    assert_eq!(check_stream(&numbered(0, &[5, 6, 7])).unwrap(), vec![]);
    assert_eq!(check_stream(&numbered(0, &[u32::MAX, 0, 1])).unwrap(), vec![]);
    assert_eq!(
        check_stream(&numbered(0, &[5, 7, 8, 8])).unwrap(),
        vec![
            Violation::PictureNumberDiscontinuity { expected: 6, found: 7 },
            Violation::PictureNumberDiscontinuity { expected: 9, found: 8 },
        ]
    );
    assert_eq!(check_stream(&numbered(1, &[4, 5])).unwrap(), vec![]);
    assert_eq!(
        check_stream(&numbered(1, &[3, 4])).unwrap(),
        vec![Violation::FirstFieldOddPictureNumber { picture_number: 3 }]
    );
}

#[test]
fn stream_checks_start_over_with_each_sequence() {
    let mut s = numbered(0, &[5, 6]);
    s.extend_from_slice(&numbered(0, &[1]));
    assert_eq!(check_stream(&s).unwrap(), vec![]);
    assert_eq!(check_stream(&[]).unwrap(), vec![]);
}

#[test]
fn stream_checks_report_structural_errors() {
    let good = numbered(0, &[1]);
    assert_eq!(check_stream(&good[..5]).unwrap_err(), Error::UnexpectedEof);
    let mut bad = good.clone();
    bad[0] = 0;
    assert_eq!(check_stream(&bad).unwrap_err(), Error::BadParseInfoPrefix([0, 0x42, 0x43, 0x44]));
    let headerless = build_units(&[(0xE8, vec![0; 20])]);
    assert_eq!(check_stream(&headerless).unwrap_err(), Error::MissingSequenceHeader);
    assert_eq!(sub_descriptor_values(&headerless).unwrap_err(), Error::MissingSequenceHeader);
    assert_eq!(
        sub_descriptor_values(&build_units(&[])).unwrap_err(),
        Error::MissingSequenceHeader
    );
}

#[test]
fn walks_stop_at_a_body_of_unknown_length() {
    let mut s = Vec::new();
    let header = header_body(&HeaderSpec { profile: 5, ..Default::default() });
    parse_info(&mut s, 0x00, 0, 0);
    s.extend_from_slice(&header);
    s.extend_from_slice(&[0xFF; 40]);
    assert_eq!(
        check_stream(&s).unwrap(),
        vec![Violation::ReservedProfile { profile: 5, major_version: 2 }]
    );
    let values = sub_descriptor_values(&s).unwrap();
    assert_eq!((values.profile, values.level), (5, 0));
    assert_eq!(values.wavelet_filters, Vec::<u8>::new());
    assert!(values.sequence_headers_identical);
}
