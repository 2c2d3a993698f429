//! Hand-assembled streams decoded end to end.
#![allow(dead_code)]

use oxideav_vc2::quant::inverse_quant;
use oxideav_vc2::wavelet::{h_synthesis, wavelet_filter, Plane};

#[derive(Default)]
struct BitWriter {
    bytes: Vec<u8>,
    cur: u8,
    nbits: u8,
}

impl BitWriter {
    fn put_bit(&mut self, bit: u32) {
        self.cur = (self.cur << 1) | (bit as u8 & 1);
        self.nbits += 1;
        if self.nbits == 8 {
            self.bytes.push(self.cur);
            self.cur = 0;
            self.nbits = 0;
        }
    }

    fn put_bool(&mut self, b: bool) {
        self.put_bit(b as u32);
    }

    fn put_nbits(&mut self, val: u64, n: u32) {
        for i in (0..n).rev() {
            self.put_bit(((val >> i) & 1) as u32);
        }
    }

    fn byte_align(&mut self) {
        while self.nbits != 0 {
            self.put_bit(0);
        }
    }

    fn bit_len(&self) -> u64 {
        self.bytes.len() as u64 * 8 + self.nbits as u64
    }

    fn append(&mut self, other: &BitWriter) {
        for &b in &other.bytes {
            self.put_nbits(b as u64, 8);
        }
        for i in (0..other.nbits).rev() {
            self.put_bit(((other.cur >> i) & 1) as u32);
        }
    }

    fn put_uint(&mut self, value: u64) {
        let n = value + 1;
        let bits = 64 - n.leading_zeros();
        for i in (0..bits - 1).rev() {
            self.put_bit(0);
            self.put_bit(((n >> i) & 1) as u32);
        }
        self.put_bit(1);
    }

    fn put_sint(&mut self, value: i64) {
        self.put_uint(value.unsigned_abs());
        if value != 0 {
            self.put_bit((value < 0) as u32);
        }
    }

    fn into_bytes(mut self) -> Vec<u8> {
        self.byte_align();
        self.bytes
    }
}

fn parse_info(out: &mut Vec<u8>, parse_code: u8, next_offset: u32, prev_offset: u32) {
    out.extend_from_slice(&[0x42, 0x42, 0x43, 0x44]);
    out.push(parse_code);
    out.extend_from_slice(&next_offset.to_be_bytes());
    out.extend_from_slice(&prev_offset.to_be_bytes());
}

fn build_units(units: &[(u8, Vec<u8>)]) -> Vec<u8> {
    let mut out = Vec::new();
    let mut prev_offset = 0u32;
    for (code, body) in units {
        let next_offset = (13 + body.len()) as u32;
        parse_info(&mut out, *code, next_offset, prev_offset);
        out.extend_from_slice(body);
        prev_offset = next_offset;
    }
    parse_info(&mut out, 0x10, 0, prev_offset);
    out
}

fn sequence_header_body(width: u64, height: u64, major_version: u64) -> Vec<u8> {
    let mut w = BitWriter::default();
    w.put_uint(major_version);
    w.put_uint(0);
    w.put_uint(0);
    w.put_uint(0);
    w.put_uint(0);
    w.put_bool(true);
    w.put_uint(width);
    w.put_uint(height);
    w.put_bool(true);
    w.put_uint(0);
    w.put_bool(false);
    w.put_bool(false);
    w.put_bool(false);
    w.put_bool(false);
    w.put_bool(true);
    w.put_uint(1);
    w.put_bool(false);
    w.put_uint(0);
    w.into_bytes()
}

#[derive(Clone, Copy)]
struct PicParams {
    major_version: u64,
    wavelet_index: u64,
    dwt_depth: u64,
    ho: Option<(u64, u64)>,
    qindex: u64,
    slices_x: u64,
    slices_y: u64,
    low_delay: bool,
    slice_bytes_numerator: u64,
    slice_bytes_denominator: u64,
}

impl PicParams {
    fn hq_depth0() -> Self {
        PicParams {
            major_version: 2,
            wavelet_index: 3,
            dwt_depth: 0,
            ho: None,
            qindex: 0,
            slices_x: 1,
            slices_y: 1,
            low_delay: false,
            slice_bytes_numerator: 0,
            slice_bytes_denominator: 1,
        }
    }

    fn ld_slice_bytes_len(&self, slice_index: u64) -> u64 {
        let a = ((slice_index + 1) * self.slice_bytes_numerator) / self.slice_bytes_denominator;
        let b = (slice_index * self.slice_bytes_numerator) / self.slice_bytes_denominator;
        a - b
    }
}

fn write_transform_parameters(w: &mut BitWriter, p: &PicParams) {
    w.put_uint(p.wavelet_index);
    w.put_uint(p.dwt_depth);
    if p.major_version >= 3 {
        match p.ho {
            Some((wavelet_index_ho, dwt_depth_ho)) => {
                w.put_bool(true);
                w.put_uint(wavelet_index_ho);
                w.put_bool(true);
                w.put_uint(dwt_depth_ho);
            }
            None => {
                w.put_bool(false);
                w.put_bool(false);
            }
        }
    } else {
        assert!(p.ho.is_none(), "asymmetric params need major_version >= 3");
    }
    w.put_uint(p.slices_x);
    w.put_uint(p.slices_y);
    if p.low_delay {
        w.put_uint(p.slice_bytes_numerator);
        w.put_uint(p.slice_bytes_denominator);
    } else {
        w.put_uint(0);
        w.put_uint(1);
    }
    w.put_bool(false);
}

fn hq_slice_bytes(qindex: u64, y: &[i64], c1: &[i64], c2: &[i64]) -> Vec<u8> {
    let mut w = BitWriter::default();
    w.put_nbits(qindex, 8);
    for comp in [y, c1, c2] {
        let mut cw = BitWriter::default();
        for &v in comp {
            cw.put_sint(v);
        }
        let payload = cw.into_bytes();
        assert!(payload.len() <= 255, "test payload fits a 1-byte length");
        w.put_nbits(payload.len() as u64, 8);
        for b in payload {
            w.put_nbits(b as u64, 8);
        }
    }
    w.into_bytes()
}

fn ld_slice_bytes(qindex: u64, slice_len: u64, y: &[i64], c1: &[i64], c2: &[i64]) -> Vec<u8> {
    assert_eq!(c1.len(), c2.len());
    let total_bits = 8 * slice_len;
    let length_bits = oxideav_vc2::params::intlog2(total_bits - 7);

    let mut yw = BitWriter::default();
    for &v in y {
        yw.put_sint(v);
    }
    let mut cw = BitWriter::default();
    for (&a, &b) in c1.iter().zip(c2) {
        cw.put_sint(a);
        cw.put_sint(b);
    }

    let mut w = BitWriter::default();
    w.put_nbits(qindex, 7);
    w.put_nbits(yw.bit_len(), length_bits);
    w.append(&yw);
    w.append(&cw);
    assert!(
        w.bit_len() <= total_bits,
        "coefficients overflow the fixed LD slice size"
    );
    while w.bit_len() < total_bits {
        w.put_bit(0);
    }
    w.into_bytes()
}

fn picture_body(p: &PicParams, picture_number: u32, slices: &[Vec<u8>]) -> Vec<u8> {
    let mut w = BitWriter::default();
    w.put_nbits(picture_number as u64, 32);
    w.byte_align();
    write_transform_parameters(&mut w, p);
    w.byte_align();
    let mut out = w.into_bytes();
    for s in slices {
        out.extend_from_slice(s);
    }
    out
}

fn fragment_setup_body(p: &PicParams, picture_number: u32) -> Vec<u8> {
    let mut w = BitWriter::default();
    w.put_nbits(picture_number as u64, 32);
    w.put_nbits(0, 16);
    w.put_nbits(0, 16);
    write_transform_parameters(&mut w, p);
    w.into_bytes()
}

fn fragment_data_body(
    picture_number: u32,
    x_offset: u16,
    y_offset: u16,
    slices: &[Vec<u8>],
) -> Vec<u8> {
    let mut w = BitWriter::default();
    w.put_nbits(picture_number as u64, 32);
    w.put_nbits(0, 16);
    w.put_nbits(slices.len() as u64, 16);
    w.put_nbits(x_offset as u64, 16);
    w.put_nbits(y_offset as u64, 16);
    let mut out = w.into_bytes();
    for s in slices {
        out.extend_from_slice(s);
    }
    out
}

#[derive(Clone, Copy)]
enum SignalRange {
    Preset(u64),
    Custom { luma_offset: u64, luma_excursion: u64, color_diff_offset: u64, color_diff_excursion: u64 },
}

fn put_signal_range(w: &mut BitWriter, range: SignalRange) {
    w.put_bool(true);
    match range {
        SignalRange::Preset(index) => w.put_uint(index),
        SignalRange::Custom {
            luma_offset,
            luma_excursion,
            color_diff_offset,
            color_diff_excursion,
        } => {
            w.put_uint(0);
            w.put_uint(luma_offset);
            w.put_uint(luma_excursion);
            w.put_uint(color_diff_offset);
            w.put_uint(color_diff_excursion);
        }
    }
}

fn sequence_header_body_full(
    width: u64,
    height: u64,
    major_version: u64,
    color_diff_index: u64,
    range: SignalRange,
) -> Vec<u8> {
    let mut w = BitWriter::default();
    w.put_uint(major_version);
    w.put_uint(0);
    w.put_uint(0);
    w.put_uint(0);
    w.put_uint(0);
    w.put_bool(true);
    w.put_uint(width);
    w.put_uint(height);
    w.put_bool(true);
    w.put_uint(color_diff_index);
    w.put_bool(false);
    w.put_bool(false);
    w.put_bool(false);
    w.put_bool(false);
    put_signal_range(&mut w, range);
    w.put_bool(false);
    w.put_uint(0);
    w.into_bytes()
}

fn build_stream_with(
    p: PicParams,
    width: u64,
    height: u64,
    y: &[i64],
    c1: &[i64],
    c2: &[i64],
) -> Vec<u8> {
    let seq_body = sequence_header_body(width, height, p.major_version);
    let pic_body = picture_body(&p, 7, &[hq_slice_bytes(p.qindex, y, c1, c2)]);
    build_units(&[(0x00, seq_body), (0xE8, pic_body)])
}

fn build_stream(width: u64, height: u64, y: &[i64], c1: &[i64], c2: &[i64]) -> Vec<u8> {
    build_stream_with(PicParams::hq_depth0(), width, height, y, c1, c2)
}

#[test]
fn hq_depth0_haar_roundtrips_samples() {
    let width = 2;
    let height = 2;
    let y = [10i64, -20, 30, -40];
    let c1 = [1i64, 2, 3, 4];
    let c2 = [-1i64, -2, -3, -4];

    let stream = build_stream(width, height, &y, &c1, &c2);
    let pics = oxideav_vc2::decode_sequence(&stream).expect("decode");
    assert_eq!(pics.len(), 1);
    let p = &pics[0];
    assert_eq!(p.picture_number, 7);
    assert_eq!(p.luma_width, 2);
    assert_eq!(p.luma_height, 2);

    let expect = |c: &[i64]| -> Vec<u16> { c.iter().map(|&v| (v + 128) as u16).collect() };
    assert_eq!(p.y, expect(&y));
    assert_eq!(p.c1, expect(&c1));
    assert_eq!(p.c2, expect(&c2));
}

#[test]
fn hq_asymmetric_mixed_pair_uses_table_d8_defaults() {

    let p = PicParams {
        major_version: 3,
        wavelet_index: 3,
        ho: Some((1, 1)),
        qindex: 2,
        ..PicParams::hq_depth0()
    };
    let y = [12i64, -6, 2, -3];
    let c = [0i64, 0, 0, 0];
    let stream = build_stream_with(p, 4, 1, &y, &c, &c);
    let pics = oxideav_vc2::decode_sequence(&stream).expect("decode");
    assert_eq!(pics.len(), 1);
    assert_eq!(pics[0].luma_width, 4);
    assert_eq!(pics[0].luma_height, 1);

    let legall = wavelet_filter(1).unwrap();
    let l_band = Plane {
        width: 2,
        height: 1,
        data: vec![inverse_quant(y[0], 0), inverse_quant(y[1], 0)],
    };
    let h_band = Plane {
        width: 2,
        height: 1,
        data: vec![inverse_quant(y[2], 2), inverse_quant(y[3], 2)],
    };
    let synth = h_synthesis(&l_band, &h_band, &legall);
    let expect: Vec<u16> = (0..4)
        .map(|x| (synth.get(0, x).clamp(-128, 127) + 128) as u16)
        .collect();
    assert_eq!(pics[0].y, expect);
    let h_identity = Plane {
        width: 2,
        height: 1,
        data: vec![y[2], y[3]],
    };
    let synth_id = h_synthesis(&l_band, &h_identity, &legall);
    let expect_id: Vec<u16> = (0..4)
        .map(|x| (synth_id.get(0, x).clamp(-128, 127) + 128) as u16)
        .collect();
    assert_ne!(pics[0].y, expect_id, "H-band quantizer must differ from L");
    assert!(pics[0].c1.iter().all(|&v| v == 128));
}

#[test]
fn asymmetric_depths_without_default_require_custom_matrix() {
    let p = PicParams {
        major_version: 3,
        wavelet_index: 1,
        dwt_depth: 4,
        ho: Some((1, 2)),
        ..PicParams::hq_depth0()
    };
    let coeffs = [0i64; 64];
    let stream = build_stream_with(p, 64, 16, &coeffs, &coeffs, &coeffs);
    assert!(matches!(
        oxideav_vc2::decode_sequence(&stream),
        Err(oxideav_vc2::Error::MissingQuantMatrix)
    ));
}

#[test]
fn writer_uint_matches_reader() {
    let y = [255i64; 4];
    let c = [0i64; 4];
    let stream = build_stream(2, 2, &y, &c, &c);
    let pics = oxideav_vc2::decode_sequence(&stream).unwrap();
    assert!(pics[0].y.iter().all(|&v| v == 255));
}

#[test]
fn trailing_sequence_after_eos_also_decodes() {
    let y1 = [1i64, 2, 3, 4];
    let y2 = [5i64, 6, 7, 8];
    let c = [0i64; 4];
    let mut stream = build_stream(2, 2, &y1, &c, &c);
    stream.extend_from_slice(&build_stream(2, 2, &y2, &c, &c));
    let pics = oxideav_vc2::decode_sequence(&stream).unwrap();
    assert_eq!(pics.len(), 2);
    assert_eq!(pics[0].y, vec![129, 130, 131, 132]);
    assert_eq!(pics[1].y, vec![133, 134, 135, 136]);
}

#[test]
fn picture_after_eos_without_new_header_is_rejected() {
    let y = [1i64, 2, 3, 4];
    let c = [0i64; 4];
    let mut stream = build_stream(2, 2, &y, &c, &c);
    let p = PicParams::hq_depth0();
    let orphan = picture_body(&p, 9, &[hq_slice_bytes(0, &y, &c, &c)]);
    stream.extend_from_slice(&build_units(&[(0xE8, orphan)]));
    assert!(matches!(
        oxideav_vc2::decode_sequence(&stream),
        Err(oxideav_vc2::Error::MissingSequenceHeader)
    ));
}

#[test]
fn fragment_data_unit_without_setup_is_rejected() {
    let seq_body = sequence_header_body(2, 2, 3);
    let frag = fragment_data_body(7, 0, 0, &[hq_slice_bytes(0, &[0; 4], &[0; 4], &[0; 4])]);
    let stream = build_units(&[(0x00, seq_body), (0xEC, frag)]);
    assert!(matches!(
        oxideav_vc2::decode_sequence(&stream),
        Err(oxideav_vc2::Error::InvalidValue(_))
    ));
}
