//! Fragmented pictures over hand-assembled streams.
#![allow(dead_code)]

use oxideav_vc2::{decode_sequence, DecodedPicture, Error, SequenceDecoder};

#[derive(Default)]
struct BitWriter {
    bytes: Vec<u8>,
    cur: u8,
    nbits: u8,
}

impl BitWriter {
    fn put_bit(&mut self, bit: u32) {
        self.cur = (self.cur << 1) | (bit as u8 & 1);
        self.nbits += 1;
        if self.nbits == 8 {
            self.bytes.push(self.cur);
            self.cur = 0;
            self.nbits = 0;
        }
    }

    fn put_bool(&mut self, b: bool) {
        self.put_bit(b as u32);
    }

    fn put_nbits(&mut self, val: u64, n: u32) {
        for i in (0..n).rev() {
            self.put_bit(((val >> i) & 1) as u32);
        }
    }

    fn byte_align(&mut self) {
        while self.nbits != 0 {
            self.put_bit(0);
        }
    }

    fn bit_len(&self) -> u64 {
        self.bytes.len() as u64 * 8 + self.nbits as u64
    }

    fn append(&mut self, other: &BitWriter) {
        for &b in &other.bytes {
            self.put_nbits(b as u64, 8);
        }
        for i in (0..other.nbits).rev() {
            self.put_bit(((other.cur >> i) & 1) as u32);
        }
    }

    fn put_uint(&mut self, value: u64) {
        let n = value + 1;
        let bits = 64 - n.leading_zeros();
        for i in (0..bits - 1).rev() {
            self.put_bit(0);
            self.put_bit(((n >> i) & 1) as u32);
        }
        self.put_bit(1);
    }

    fn put_sint(&mut self, value: i64) {
        self.put_uint(value.unsigned_abs());
        if value != 0 {
            self.put_bit((value < 0) as u32);
        }
    }

    fn into_bytes(mut self) -> Vec<u8> {
        self.byte_align();
        self.bytes
    }
}

fn parse_info(out: &mut Vec<u8>, parse_code: u8, next_offset: u32, prev_offset: u32) {
    out.extend_from_slice(&[0x42, 0x42, 0x43, 0x44]);
    out.push(parse_code);
    out.extend_from_slice(&next_offset.to_be_bytes());
    out.extend_from_slice(&prev_offset.to_be_bytes());
}

fn build_units(units: &[(u8, Vec<u8>)]) -> Vec<u8> {
    let mut out = Vec::new();
    let mut prev_offset = 0u32;
    for (code, body) in units {
        let next_offset = (13 + body.len()) as u32;
        parse_info(&mut out, *code, next_offset, prev_offset);
        out.extend_from_slice(body);
        prev_offset = next_offset;
    }
    parse_info(&mut out, 0x10, 0, prev_offset);
    out
}

fn sequence_header_body(width: u64, height: u64, major_version: u64) -> Vec<u8> {
    let mut w = BitWriter::default();
    w.put_uint(major_version);
    w.put_uint(0);
    w.put_uint(0);
    w.put_uint(0);
    w.put_uint(0);
    w.put_bool(true);
    w.put_uint(width);
    w.put_uint(height);
    w.put_bool(true);
    w.put_uint(0);
    w.put_bool(false);
    w.put_bool(false);
    w.put_bool(false);
    w.put_bool(false);
    w.put_bool(true);
    w.put_uint(1);
    w.put_bool(false);
    w.put_uint(0);
    w.into_bytes()
}

#[derive(Clone, Copy)]
struct PicParams {
    major_version: u64,
    wavelet_index: u64,
    dwt_depth: u64,
    ho: Option<(u64, u64)>,
    qindex: u64,
    slices_x: u64,
    slices_y: u64,
    low_delay: bool,
    slice_bytes_numerator: u64,
    slice_bytes_denominator: u64,
}

impl PicParams {
    fn hq_depth0() -> Self {
        PicParams {
            major_version: 2,
            wavelet_index: 3,
            dwt_depth: 0,
            ho: None,
            qindex: 0,
            slices_x: 1,
            slices_y: 1,
            low_delay: false,
            slice_bytes_numerator: 0,
            slice_bytes_denominator: 1,
        }
    }

    fn ld_slice_bytes_len(&self, slice_index: u64) -> u64 {
        let a = ((slice_index + 1) * self.slice_bytes_numerator) / self.slice_bytes_denominator;
        let b = (slice_index * self.slice_bytes_numerator) / self.slice_bytes_denominator;
        a - b
    }
}

fn write_transform_parameters(w: &mut BitWriter, p: &PicParams) {
    w.put_uint(p.wavelet_index);
    w.put_uint(p.dwt_depth);
    if p.major_version >= 3 {
        match p.ho {
            Some((wavelet_index_ho, dwt_depth_ho)) => {
                w.put_bool(true);
                w.put_uint(wavelet_index_ho);
                w.put_bool(true);
                w.put_uint(dwt_depth_ho);
            }
            None => {
                w.put_bool(false);
                w.put_bool(false);
            }
        }
    } else {
        assert!(p.ho.is_none(), "asymmetric params need major_version >= 3");
    }
    w.put_uint(p.slices_x);
    w.put_uint(p.slices_y);
    if p.low_delay {
        w.put_uint(p.slice_bytes_numerator);
        w.put_uint(p.slice_bytes_denominator);
    } else {
        w.put_uint(0);
        w.put_uint(1);
    }
    w.put_bool(false);
}

fn hq_slice_bytes(qindex: u64, y: &[i64], c1: &[i64], c2: &[i64]) -> Vec<u8> {
    let mut w = BitWriter::default();
    w.put_nbits(qindex, 8);
    for comp in [y, c1, c2] {
        let mut cw = BitWriter::default();
        for &v in comp {
            cw.put_sint(v);
        }
        let payload = cw.into_bytes();
        assert!(payload.len() <= 255, "test payload fits a 1-byte length");
        w.put_nbits(payload.len() as u64, 8);
        for b in payload {
            w.put_nbits(b as u64, 8);
        }
    }
    w.into_bytes()
}

fn ld_slice_bytes(qindex: u64, slice_len: u64, y: &[i64], c1: &[i64], c2: &[i64]) -> Vec<u8> {
    assert_eq!(c1.len(), c2.len());
    let total_bits = 8 * slice_len;
    let length_bits = oxideav_vc2::params::intlog2(total_bits - 7);

    let mut yw = BitWriter::default();
    for &v in y {
        yw.put_sint(v);
    }
    let mut cw = BitWriter::default();
    for (&a, &b) in c1.iter().zip(c2) {
        cw.put_sint(a);
        cw.put_sint(b);
    }

    let mut w = BitWriter::default();
    w.put_nbits(qindex, 7);
    w.put_nbits(yw.bit_len(), length_bits);
    w.append(&yw);
    w.append(&cw);
    assert!(
        w.bit_len() <= total_bits,
        "coefficients overflow the fixed LD slice size"
    );
    while w.bit_len() < total_bits {
        w.put_bit(0);
    }
    w.into_bytes()
}

fn picture_body(p: &PicParams, picture_number: u32, slices: &[Vec<u8>]) -> Vec<u8> {
    let mut w = BitWriter::default();
    w.put_nbits(picture_number as u64, 32);
    w.byte_align();
    write_transform_parameters(&mut w, p);
    w.byte_align();
    let mut out = w.into_bytes();
    for s in slices {
        out.extend_from_slice(s);
    }
    out
}

fn fragment_setup_body(p: &PicParams, picture_number: u32) -> Vec<u8> {
    let mut w = BitWriter::default();
    w.put_nbits(picture_number as u64, 32);
    w.put_nbits(0, 16);
    w.put_nbits(0, 16);
    write_transform_parameters(&mut w, p);
    w.into_bytes()
}

fn fragment_data_body(
    picture_number: u32,
    x_offset: u16,
    y_offset: u16,
    slices: &[Vec<u8>],
) -> Vec<u8> {
    let mut w = BitWriter::default();
    w.put_nbits(picture_number as u64, 32);
    w.put_nbits(0, 16);
    w.put_nbits(slices.len() as u64, 16);
    w.put_nbits(x_offset as u64, 16);
    w.put_nbits(y_offset as u64, 16);
    let mut out = w.into_bytes();
    for s in slices {
        out.extend_from_slice(s);
    }
    out
}

#[derive(Clone, Copy)]
enum SignalRange {
    Preset(u64),
    Custom { luma_offset: u64, luma_excursion: u64, color_diff_offset: u64, color_diff_excursion: u64 },
}

fn put_signal_range(w: &mut BitWriter, range: SignalRange) {
    w.put_bool(true);
    match range {
        SignalRange::Preset(index) => w.put_uint(index),
        SignalRange::Custom {
            luma_offset,
            luma_excursion,
            color_diff_offset,
            color_diff_excursion,
        } => {
            w.put_uint(0);
            w.put_uint(luma_offset);
            w.put_uint(luma_excursion);
            w.put_uint(color_diff_offset);
            w.put_uint(color_diff_excursion);
        }
    }
}

fn sequence_header_body_full(
    width: u64,
    height: u64,
    major_version: u64,
    color_diff_index: u64,
    range: SignalRange,
) -> Vec<u8> {
    let mut w = BitWriter::default();
    w.put_uint(major_version);
    w.put_uint(0);
    w.put_uint(0);
    w.put_uint(0);
    w.put_uint(0);
    w.put_bool(true);
    w.put_uint(width);
    w.put_uint(height);
    w.put_bool(true);
    w.put_uint(color_diff_index);
    w.put_bool(false);
    w.put_bool(false);
    w.put_bool(false);
    w.put_bool(false);
    put_signal_range(&mut w, range);
    w.put_bool(false);
    w.put_uint(0);
    w.into_bytes()
}

fn hq_4x4_quadrants() -> (PicParams, Vec<Vec<u8>>, Vec<u16>) {
    let p = PicParams {
        major_version: 3,
        slices_x: 2,
        slices_y: 2,
        ..PicParams::hq_depth0()
    };
    let luma: Vec<i64> = (1..=16).collect();
    let quadrant = |sx: usize, sy: usize| -> Vec<i64> {
        let mut v = Vec::new();
        for row in 2 * sy..2 * sy + 2 {
            for col in 2 * sx..2 * sx + 2 {
                v.push(luma[row * 4 + col]);
            }
        }
        v
    };
    let c = [0i64; 4];
    let mut slices = Vec::new();
    for sy in 0..2 {
        for sx in 0..2 {
            slices.push(hq_slice_bytes(p.qindex, &quadrant(sx, sy), &c, &c));
        }
    }
    let expect: Vec<u16> = luma.iter().map(|&v| (v + 128) as u16).collect();
    (p, slices, expect)
}

fn assert_pic(pic: &DecodedPicture, picture_number: u32, y: &[u16]) {
    assert_eq!(pic.picture_number, picture_number);
    assert_eq!(pic.y, y);
    assert!(pic.c1.iter().all(|&v| v == 128));
    assert!(pic.c2.iter().all(|&v| v == 128));
}

#[test]
fn hq_fragmented_matches_unfragmented() {
    let (p, slices, expect) = hq_4x4_quadrants();
    let seq = sequence_header_body(4, 4, p.major_version);

    let plain = build_units(&[(0x00, seq.clone()), (0xE8, picture_body(&p, 7, &slices))]);
    let plain_pics = decode_sequence(&plain).expect("plain decode");
    assert_eq!(plain_pics.len(), 1);
    assert_pic(&plain_pics[0], 7, &expect);

    let fragmented = build_units(&[
        (0x00, seq),
        (0xEC, fragment_setup_body(&p, 7)),
        (0xEC, fragment_data_body(7, 0, 0, &slices[0..2])),
        (0xEC, fragment_data_body(7, 0, 1, &slices[2..4])),
    ]);
    let frag_pics = decode_sequence(&fragmented).expect("fragmented decode");
    assert_eq!(frag_pics.len(), 1);
    assert_eq!(frag_pics[0].y, plain_pics[0].y);
    assert_eq!(frag_pics[0].c1, plain_pics[0].c1);
    assert_eq!(frag_pics[0].picture_number, plain_pics[0].picture_number);
}

#[test]
fn hq_fragmented_one_slice_per_fragment() {
    let (p, slices, expect) = hq_4x4_quadrants();
    let seq = sequence_header_body(4, 4, p.major_version);
    let stream = build_units(&[
        (0x00, seq),
        (0xEC, fragment_setup_body(&p, 3)),
        (0xEC, fragment_data_body(3, 0, 0, &slices[0..1])),
        (0xEC, fragment_data_body(3, 1, 0, &slices[1..2])),
        (0xEC, fragment_data_body(3, 0, 1, &slices[2..3])),
        (0xEC, fragment_data_body(3, 1, 1, &slices[3..4])),
    ]);
    let pics = decode_sequence(&stream).expect("decode");
    assert_eq!(pics.len(), 1);
    assert_pic(&pics[0], 3, &expect);
}

#[test]
fn ld_fragmented_matches_unfragmented_with_dc_prediction() {
    let p = PicParams {
        major_version: 3,
        slices_x: 2,
        slices_y: 1,
        low_delay: true,
        slice_bytes_numerator: 12,
        slice_bytes_denominator: 1,
        ..PicParams::hq_depth0()
    };
    let c = [0i64; 4];
    let left = [1i64, 1, 1, 1];
    let right = [2i64, -1, 0, 3];
    let slices = vec![
        ld_slice_bytes(p.qindex, p.ld_slice_bytes_len(0), &left, &c, &c),
        ld_slice_bytes(p.qindex, p.ld_slice_bytes_len(1), &right, &c, &c),
    ];
    let seq = sequence_header_body(4, 2, p.major_version);

    let plain = build_units(&[(0x00, seq.clone()), (0xC8, picture_body(&p, 5, &slices))]);
    let plain_pics = decode_sequence(&plain).expect("plain LD decode");
    assert_eq!(plain_pics.len(), 1);
    assert_eq!(plain_pics[0].y[0], 128 + 1);
    assert_eq!(plain_pics[0].y[1], 128 + 2);

    let fragmented = build_units(&[
        (0x00, seq),
        (0xCC, fragment_setup_body(&p, 5)),
        (0xCC, fragment_data_body(5, 0, 0, &slices[0..1])),
        (0xCC, fragment_data_body(5, 1, 0, &slices[1..2])),
    ]);
    let frag_pics = decode_sequence(&fragmented).expect("fragmented LD decode");
    assert_eq!(frag_pics.len(), 1);
    assert_eq!(frag_pics[0].y, plain_pics[0].y);
    assert_eq!(frag_pics[0].c1, plain_pics[0].c1);
    assert_eq!(frag_pics[0].c2, plain_pics[0].c2);
}

#[test]
fn padding_and_repeated_header_interleave_with_fragments() {
    let (p, slices, expect) = hq_4x4_quadrants();
    let seq = sequence_header_body(4, 4, p.major_version);
    let stream = build_units(&[
        (0x00, seq.clone()),
        (0xEC, fragment_setup_body(&p, 11)),
        (0x30, vec![0xAA; 5]),
        (0xEC, fragment_data_body(11, 0, 0, &slices[0..2])),
        (0x00, seq),
        (0x20, vec![0xBB; 3]),
        (0xEC, fragment_data_body(11, 0, 1, &slices[2..4])),
    ]);
    let pics = decode_sequence(&stream).expect("decode");
    assert_eq!(pics.len(), 1);
    assert_pic(&pics[0], 11, &expect);
}

#[test]
fn fragments_reassemble_across_chunked_pushes() {
    let (p, slices, expect) = hq_4x4_quadrants();
    let seq = sequence_header_body(4, 4, p.major_version);

    let mut dec = SequenceDecoder::new();
    let mut chunk1 = Vec::new();
    parse_info(&mut chunk1, 0x00, (13 + seq.len()) as u32, 0);
    chunk1.extend_from_slice(&seq);
    let setup = fragment_setup_body(&p, 21);
    parse_info(
        &mut chunk1,
        0xEC,
        (13 + setup.len()) as u32,
        (13 + seq.len()) as u32,
    );
    chunk1.extend_from_slice(&setup);
    assert!(dec.push(&chunk1).unwrap().is_empty());
    assert!(dec.has_incomplete_picture());

    let mut chunk2 = Vec::new();
    let d1 = fragment_data_body(21, 0, 0, &slices[0..2]);
    parse_info(&mut chunk2, 0xEC, (13 + d1.len()) as u32, 0);
    chunk2.extend_from_slice(&d1);
    assert!(dec.push(&chunk2).unwrap().is_empty());
    assert!(dec.has_incomplete_picture());

    let mut chunk3 = Vec::new();
    let d2 = fragment_data_body(21, 0, 1, &slices[2..4]);
    parse_info(&mut chunk3, 0xEC, (13 + d2.len()) as u32, 0);
    chunk3.extend_from_slice(&d2);
    let pics = dec.push(&chunk3).unwrap();
    assert_eq!(pics.len(), 1);
    assert!(!dec.has_incomplete_picture());
    assert_pic(&pics[0], 21, &expect);
}

#[test]
fn eos_mid_picture_is_rejected() {
    let (p, slices, _) = hq_4x4_quadrants();
    let seq = sequence_header_body(4, 4, p.major_version);
    let stream = build_units(&[
        (0x00, seq),
        (0xEC, fragment_setup_body(&p, 7)),
        (0xEC, fragment_data_body(7, 0, 0, &slices[0..2])),
    ]);
    assert!(matches!(
        decode_sequence(&stream),
        Err(Error::InvalidValue(_))
    ));
}

#[test]
fn second_setup_mid_picture_is_rejected() {
    let (p, slices, _) = hq_4x4_quadrants();
    let seq = sequence_header_body(4, 4, p.major_version);
    let stream = build_units(&[
        (0x00, seq),
        (0xEC, fragment_setup_body(&p, 7)),
        (0xEC, fragment_data_body(7, 0, 0, &slices[0..2])),
        (0xEC, fragment_setup_body(&p, 8)),
    ]);
    assert!(matches!(
        decode_sequence(&stream),
        Err(Error::InvalidValue(_))
    ));
}

#[test]
fn plain_picture_mid_fragmented_picture_is_rejected() {
    let (p, slices, _) = hq_4x4_quadrants();
    let seq = sequence_header_body(4, 4, p.major_version);
    let stream = build_units(&[
        (0x00, seq),
        (0xEC, fragment_setup_body(&p, 7)),
        (0xE8, picture_body(&p, 8, &slices)),
    ]);
    assert!(matches!(
        decode_sequence(&stream),
        Err(Error::InvalidValue(_))
    ));
}

#[test]
fn mismatched_picture_number_is_rejected() {
    let (p, slices, _) = hq_4x4_quadrants();
    let seq = sequence_header_body(4, 4, p.major_version);
    let stream = build_units(&[
        (0x00, seq),
        (0xEC, fragment_setup_body(&p, 7)),
        (0xEC, fragment_data_body(9, 0, 0, &slices[0..2])),
    ]);
    assert!(matches!(
        decode_sequence(&stream),
        Err(Error::InvalidValue(_))
    ));
}

#[test]
fn out_of_raster_order_slices_are_rejected() {
    let (p, slices, _) = hq_4x4_quadrants();
    let seq = sequence_header_body(4, 4, p.major_version);
    let stream = build_units(&[
        (0x00, seq),
        (0xEC, fragment_setup_body(&p, 7)),
        (0xEC, fragment_data_body(7, 0, 0, &slices[0..2])),
        (0xEC, fragment_data_body(7, 0, 0, &slices[0..2])),
    ]);
    assert!(matches!(
        decode_sequence(&stream),
        Err(Error::InvalidValue(_))
    ));
}

#[test]
fn slice_count_overflowing_picture_is_rejected() {
    let (p, slices, _) = hq_4x4_quadrants();
    let seq = sequence_header_body(4, 4, p.major_version);
    let mut six = slices.clone();
    six.extend_from_slice(&slices[0..2]);
    let stream = build_units(&[
        (0x00, seq),
        (0xEC, fragment_setup_body(&p, 7)),
        (0xEC, fragment_data_body(7, 0, 0, &six)),
    ]);
    assert!(matches!(
        decode_sequence(&stream),
        Err(Error::InvalidValue(_))
    ));
}

#[test]
fn data_fragment_kind_must_match_setup() {
    let (p, slices, _) = hq_4x4_quadrants();
    let seq = sequence_header_body(4, 4, p.major_version);
    let stream = build_units(&[
        (0x00, seq),
        (0xEC, fragment_setup_body(&p, 7)),
        (0xCC, fragment_data_body(7, 0, 0, &slices[0..2])),
    ]);
    assert!(matches!(
        decode_sequence(&stream),
        Err(Error::InvalidValue(_))
    ));
}

#[test]
fn setup_fragment_requires_sequence_header() {
    let (p, _, _) = hq_4x4_quadrants();
    let stream = build_units(&[(0xEC, fragment_setup_body(&p, 7))]);
    assert!(matches!(
        decode_sequence(&stream),
        Err(Error::MissingSequenceHeader)
    ));
}
