//! Truncated, hostile and garbage streams.
#![allow(dead_code)]

use oxideav_vc2::{decode_sequence, Error};

#[derive(Default)]
struct BitWriter {
    bytes: Vec<u8>,
    cur: u8,
    nbits: u8,
}

impl BitWriter {
    fn put_bit(&mut self, bit: u32) {
        self.cur = (self.cur << 1) | (bit as u8 & 1);
        self.nbits += 1;
        if self.nbits == 8 {
            self.bytes.push(self.cur);
            self.cur = 0;
            self.nbits = 0;
        }
    }

    fn put_bool(&mut self, b: bool) {
        self.put_bit(b as u32);
    }

    fn put_nbits(&mut self, val: u64, n: u32) {
        for i in (0..n).rev() {
            self.put_bit(((val >> i) & 1) as u32);
        }
    }

    fn byte_align(&mut self) {
        while self.nbits != 0 {
            self.put_bit(0);
        }
    }

    fn bit_len(&self) -> u64 {
        self.bytes.len() as u64 * 8 + self.nbits as u64
    }

    fn append(&mut self, other: &BitWriter) {
        for &b in &other.bytes {
            self.put_nbits(b as u64, 8);
        }
        for i in (0..other.nbits).rev() {
            self.put_bit(((other.cur >> i) & 1) as u32);
        }
    }

    fn put_uint(&mut self, value: u64) {
        let n = value + 1;
        let bits = 64 - n.leading_zeros();
        for i in (0..bits - 1).rev() {
            self.put_bit(0);
            self.put_bit(((n >> i) & 1) as u32);
        }
        self.put_bit(1);
    }

    fn put_sint(&mut self, value: i64) {
        self.put_uint(value.unsigned_abs());
        if value != 0 {
            self.put_bit((value < 0) as u32);
        }
    }

    fn into_bytes(mut self) -> Vec<u8> {
        self.byte_align();
        self.bytes
    }
}

fn parse_info(out: &mut Vec<u8>, parse_code: u8, next_offset: u32, prev_offset: u32) {
    out.extend_from_slice(&[0x42, 0x42, 0x43, 0x44]);
    out.push(parse_code);
    out.extend_from_slice(&next_offset.to_be_bytes());
    out.extend_from_slice(&prev_offset.to_be_bytes());
}

fn build_units(units: &[(u8, Vec<u8>)]) -> Vec<u8> {
    let mut out = Vec::new();
    let mut prev_offset = 0u32;
    for (code, body) in units {
        let next_offset = (13 + body.len()) as u32;
        parse_info(&mut out, *code, next_offset, prev_offset);
        out.extend_from_slice(body);
        prev_offset = next_offset;
    }
    parse_info(&mut out, 0x10, 0, prev_offset);
    out
}

fn sequence_header_body(width: u64, height: u64, major_version: u64) -> Vec<u8> {
    let mut w = BitWriter::default();
    w.put_uint(major_version);
    w.put_uint(0);
    w.put_uint(0);
    w.put_uint(0);
    w.put_uint(0);
    w.put_bool(true);
    w.put_uint(width);
    w.put_uint(height);
    w.put_bool(true);
    w.put_uint(0);
    w.put_bool(false);
    w.put_bool(false);
    w.put_bool(false);
    w.put_bool(false);
    w.put_bool(true);
    w.put_uint(1);
    w.put_bool(false);
    w.put_uint(0);
    w.into_bytes()
}

#[derive(Clone, Copy)]
struct PicParams {
    major_version: u64,
    wavelet_index: u64,
    dwt_depth: u64,
    ho: Option<(u64, u64)>,
    qindex: u64,
    slices_x: u64,
    slices_y: u64,
    low_delay: bool,
    slice_bytes_numerator: u64,
    slice_bytes_denominator: u64,
}

impl PicParams {
    fn hq_depth0() -> Self {
        PicParams {
            major_version: 2,
            wavelet_index: 3,
            dwt_depth: 0,
            ho: None,
            qindex: 0,
            slices_x: 1,
            slices_y: 1,
            low_delay: false,
            slice_bytes_numerator: 0,
            slice_bytes_denominator: 1,
        }
    }

    fn ld_slice_bytes_len(&self, slice_index: u64) -> u64 {
        let a = ((slice_index + 1) * self.slice_bytes_numerator) / self.slice_bytes_denominator;
        let b = (slice_index * self.slice_bytes_numerator) / self.slice_bytes_denominator;
        a - b
    }
}

fn write_transform_parameters(w: &mut BitWriter, p: &PicParams) {
    w.put_uint(p.wavelet_index);
    w.put_uint(p.dwt_depth);
    if p.major_version >= 3 {
        match p.ho {
            Some((wavelet_index_ho, dwt_depth_ho)) => {
                w.put_bool(true);
                w.put_uint(wavelet_index_ho);
                w.put_bool(true);
                w.put_uint(dwt_depth_ho);
            }
            None => {
                w.put_bool(false);
                w.put_bool(false);
            }
        }
    } else {
        assert!(p.ho.is_none(), "asymmetric params need major_version >= 3");
    }
    w.put_uint(p.slices_x);
    w.put_uint(p.slices_y);
    if p.low_delay {
        w.put_uint(p.slice_bytes_numerator);
        w.put_uint(p.slice_bytes_denominator);
    } else {
        w.put_uint(0);
        w.put_uint(1);
    }
    w.put_bool(false);
}

fn hq_slice_bytes(qindex: u64, y: &[i64], c1: &[i64], c2: &[i64]) -> Vec<u8> {
    let mut w = BitWriter::default();
    w.put_nbits(qindex, 8);
    for comp in [y, c1, c2] {
        let mut cw = BitWriter::default();
        for &v in comp {
            cw.put_sint(v);
        }
        let payload = cw.into_bytes();
        assert!(payload.len() <= 255, "test payload fits a 1-byte length");
        w.put_nbits(payload.len() as u64, 8);
        for b in payload {
            w.put_nbits(b as u64, 8);
        }
    }
    w.into_bytes()
}

fn ld_slice_bytes(qindex: u64, slice_len: u64, y: &[i64], c1: &[i64], c2: &[i64]) -> Vec<u8> {
    assert_eq!(c1.len(), c2.len());
    let total_bits = 8 * slice_len;
    let length_bits = oxideav_vc2::params::intlog2(total_bits - 7);

    let mut yw = BitWriter::default();
    for &v in y {
        yw.put_sint(v);
    }
    let mut cw = BitWriter::default();
    for (&a, &b) in c1.iter().zip(c2) {
        cw.put_sint(a);
        cw.put_sint(b);
    }

    let mut w = BitWriter::default();
    w.put_nbits(qindex, 7);
    w.put_nbits(yw.bit_len(), length_bits);
    w.append(&yw);
    w.append(&cw);
    assert!(
        w.bit_len() <= total_bits,
        "coefficients overflow the fixed LD slice size"
    );
    while w.bit_len() < total_bits {
        w.put_bit(0);
    }
    w.into_bytes()
}

fn picture_body(p: &PicParams, picture_number: u32, slices: &[Vec<u8>]) -> Vec<u8> {
    let mut w = BitWriter::default();
    w.put_nbits(picture_number as u64, 32);
    w.byte_align();
    write_transform_parameters(&mut w, p);
    w.byte_align();
    let mut out = w.into_bytes();
    for s in slices {
        out.extend_from_slice(s);
    }
    out
}

fn fragment_setup_body(p: &PicParams, picture_number: u32) -> Vec<u8> {
    let mut w = BitWriter::default();
    w.put_nbits(picture_number as u64, 32);
    w.put_nbits(0, 16);
    w.put_nbits(0, 16);
    write_transform_parameters(&mut w, p);
    w.into_bytes()
}

fn fragment_data_body(
    picture_number: u32,
    x_offset: u16,
    y_offset: u16,
    slices: &[Vec<u8>],
) -> Vec<u8> {
    let mut w = BitWriter::default();
    w.put_nbits(picture_number as u64, 32);
    w.put_nbits(0, 16);
    w.put_nbits(slices.len() as u64, 16);
    w.put_nbits(x_offset as u64, 16);
    w.put_nbits(y_offset as u64, 16);
    let mut out = w.into_bytes();
    for s in slices {
        out.extend_from_slice(s);
    }
    out
}

#[derive(Clone, Copy)]
enum SignalRange {
    Preset(u64),
    Custom { luma_offset: u64, luma_excursion: u64, color_diff_offset: u64, color_diff_excursion: u64 },
}

fn put_signal_range(w: &mut BitWriter, range: SignalRange) {
    w.put_bool(true);
    match range {
        SignalRange::Preset(index) => w.put_uint(index),
        SignalRange::Custom {
            luma_offset,
            luma_excursion,
            color_diff_offset,
            color_diff_excursion,
        } => {
            w.put_uint(0);
            w.put_uint(luma_offset);
            w.put_uint(luma_excursion);
            w.put_uint(color_diff_offset);
            w.put_uint(color_diff_excursion);
        }
    }
}

fn sequence_header_body_full(
    width: u64,
    height: u64,
    major_version: u64,
    color_diff_index: u64,
    range: SignalRange,
) -> Vec<u8> {
    let mut w = BitWriter::default();
    w.put_uint(major_version);
    w.put_uint(0);
    w.put_uint(0);
    w.put_uint(0);
    w.put_uint(0);
    w.put_bool(true);
    w.put_uint(width);
    w.put_uint(height);
    w.put_bool(true);
    w.put_uint(color_diff_index);
    w.put_bool(false);
    w.put_bool(false);
    w.put_bool(false);
    w.put_bool(false);
    put_signal_range(&mut w, range);
    w.put_bool(false);
    w.put_uint(0);
    w.into_bytes()
}

fn good_stream() -> Vec<u8> {
    let p = PicParams::hq_depth0();
    let y = [10i64, -20, 30, -40];
    let c = [1i64, 2, 3, 4];
    let seq = sequence_header_body(2, 2, p.major_version);
    let pic = picture_body(&p, 7, &[hq_slice_bytes(p.qindex, &y, &c, &c)]);
    build_units(&[(0x00, seq), (0xE8, pic)])
}

#[test]
fn every_truncation_point_errors_cleanly() {
    let stream = good_stream();
    assert!(decode_sequence(&stream).is_ok());
    for len in 0..stream.len() {
        let cut = &stream[..len];
        assert!(
            decode_sequence(cut).is_err(),
            "truncation at {len} of {} unexpectedly decoded",
            stream.len()
        );
    }
}

#[test]
fn truncated_sequence_header_is_unexpected_eof() {
    let stream = good_stream();
    assert!(matches!(
        decode_sequence(&stream[..20]),
        Err(Error::UnexpectedEof)
    ));
}

#[test]
fn absurd_transform_depth_is_rejected() {
    let p = PicParams {
        dwt_depth: 60,
        ..PicParams::hq_depth0()
    };
    let seq = sequence_header_body(2, 2, p.major_version);
    let pic = picture_body(&p, 1, &[hq_slice_bytes(0, &[0; 4], &[0; 4], &[0; 4])]);
    let stream = build_units(&[(0x00, seq), (0xE8, pic)]);
    assert!(matches!(
        decode_sequence(&stream),
        Err(Error::InvalidValue(_))
    ));
}

#[test]
fn deep_transform_on_tiny_picture_is_area_capped() {
    let p = PicParams {
        dwt_depth: 16,
        ..PicParams::hq_depth0()
    };
    let seq = sequence_header_body(2, 2, p.major_version);
    let pic = picture_body(&p, 1, &[hq_slice_bytes(0, &[0; 4], &[0; 4], &[0; 4])]);
    let stream = build_units(&[(0x00, seq), (0xE8, pic)]);
    assert!(matches!(
        decode_sequence(&stream),
        Err(Error::InvalidValue(_))
    ));
}

#[test]
fn huge_frame_dimensions_are_rejected() {
    let p = PicParams::hq_depth0();
    let seq = sequence_header_body(1 << 20, 1 << 20, p.major_version);
    let pic = picture_body(&p, 1, &[hq_slice_bytes(0, &[0; 4], &[0; 4], &[0; 4])]);
    let stream = build_units(&[(0x00, seq), (0xE8, pic)]);
    assert!(matches!(
        decode_sequence(&stream),
        Err(Error::InvalidValue(_))
    ));
}

#[test]
fn zero_frame_dimensions_are_rejected() {
    let seq = sequence_header_body(0, 2, 2);
    let stream = build_units(&[(0x00, seq)]);
    assert!(matches!(
        decode_sequence(&stream),
        Err(Error::InvalidValue(_))
    ));
}

#[test]
fn huge_slice_count_is_rejected() {
    let p = PicParams {
        slices_x: 1 << 32,
        slices_y: 1 << 32,
        ..PicParams::hq_depth0()
    };
    let seq = sequence_header_body(2, 2, p.major_version);
    let pic = picture_body(&p, 1, &[]);
    let stream = build_units(&[(0x00, seq), (0xE8, pic)]);
    assert!(matches!(
        decode_sequence(&stream),
        Err(Error::InvalidValue(_))
    ));
}

#[test]
fn oversized_excursion_is_rejected() {
    let mut w = BitWriter::default();
    w.put_uint(2);
    w.put_uint(0);
    w.put_uint(0);
    w.put_uint(0);
    w.put_uint(0);
    w.put_bool(true);
    w.put_uint(2);
    w.put_uint(2);
    w.put_bool(true);
    w.put_uint(0);
    w.put_bool(false);
    w.put_bool(false);
    w.put_bool(false);
    w.put_bool(false);
    w.put_bool(true);
    w.put_uint(0);
    w.put_uint(0);
    w.put_uint(1 << 40);
    w.put_uint(0);
    w.put_uint(255);
    w.put_bool(false);
    w.put_uint(0);
    let stream = build_units(&[(0x00, w.into_bytes())]);
    assert!(matches!(
        decode_sequence(&stream),
        Err(Error::InvalidValue(_))
    ));
}

#[test]
fn ld_slice_smaller_than_header_is_rejected() {
    let p = PicParams {
        slices_x: 2,
        slices_y: 2,
        low_delay: true,
        slice_bytes_numerator: 5,
        slice_bytes_denominator: 8,
        ..PicParams::hq_depth0()
    };
    let seq = sequence_header_body(4, 4, p.major_version);
    let pic = picture_body(&p, 1, &[]);
    let stream = build_units(&[(0x00, seq), (0xC8, pic)]);
    assert!(matches!(
        decode_sequence(&stream),
        Err(Error::InvalidValue(_))
    ));
}

#[test]
fn max_qindex_with_coefficients_does_not_panic() {
    let p = PicParams {
        qindex: 255,
        ..PicParams::hq_depth0()
    };
    let y = [3i64, -3, 7, -7];
    let c = [1i64; 4];
    let seq = sequence_header_body(2, 2, p.major_version);
    let pic = picture_body(&p, 1, &[hq_slice_bytes(p.qindex, &y, &c, &c)]);
    let stream = build_units(&[(0x00, seq), (0xE8, pic)]);
    let pics = decode_sequence(&stream).expect("decode");
    assert_eq!(pics[0].y, vec![255, 0, 255, 0]);
}

#[test]
fn hq_length_overrunning_stream_is_unexpected_eof() {
    let p = PicParams::hq_depth0();
    let seq = sequence_header_body(2, 2, p.major_version);
    let mut slice = hq_slice_bytes(0, &[1, 2, 3, 4], &[0; 4], &[0; 4]);
    slice[1] = 0xFF;
    let pic = picture_body(&p, 1, &[slice]);
    let mut stream = Vec::new();
    let seq_next = (13 + seq.len()) as u32;
    parse_info(&mut stream, 0x00, seq_next, 0);
    stream.extend_from_slice(&seq);
    parse_info(&mut stream, 0xE8, (13 + pic.len()) as u32, seq_next);
    stream.extend_from_slice(&pic);
    assert!(matches!(
        decode_sequence(&stream),
        Err(Error::UnexpectedEof)
    ));
}

#[test]
fn pseudo_random_garbage_never_panics() {
    let mut state: u64 = 0x243F_6A88_85A3_08D3;
    let mut next = move || {
        state = state
            .wrapping_mul(6364136223846793005)
            .wrapping_add(1442695040888963407);
        (state >> 33) as u8
    };
    for case in 0..48 {
        let len = 16 + (case * 5) % 160;
        let mut buf: Vec<u8> = (0..len).map(|_| next()).collect();
        if case % 2 == 0 {
            buf[..4].copy_from_slice(&oxideav_vc2::PARSE_INFO_PREFIX);
            buf[4] = [0x00, 0x10, 0xE8, 0xC8, 0xEC, 0xCC, 0x30][case % 7];
        }
        let _ = decode_sequence(&buf);
    }
}
