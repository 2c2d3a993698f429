//! What a writer puts down, a reader gets back.
#![allow(dead_code)]

use oxideav_vc2::bitio::BitReader;
use oxideav_vc2::params::{intlog2, set_coding_parameters, set_source_defaults, ColorDiffFormat};
use oxideav_vc2::picture::finalize_component;
use oxideav_vc2::prediction::{floor_div, mean3};
use oxideav_vc2::quant::{inverse_quant, quant_factor, quant_offset};
use oxideav_vc2::subband::slice_bounds;
use oxideav_vc2::surface::{pack_plane_words, surface_mapping, to_frame, PixelFormat};
use oxideav_vc2::transform::slice_bytes;
use oxideav_vc2::wavelet::{
    h_synthesis, oned_synthesis, vh_synthesis, wavelet_filter, LiftStage, LiftType,
    Plane, WaveletFilter,
};
use oxideav_vc2::{decode_sequence, DecodedPicture};

#[derive(Default)]
struct BitWriter {
    bytes: Vec<u8>,
    cur: u8,
    nbits: u8,
}

impl BitWriter {
    fn put_bit(&mut self, bit: u32) {
        self.cur = (self.cur << 1) | (bit as u8 & 1);
        self.nbits += 1;
        if self.nbits == 8 {
            self.bytes.push(self.cur);
            self.cur = 0;
            self.nbits = 0;
        }
    }

    fn put_bool(&mut self, b: bool) {
        self.put_bit(b as u32);
    }

    fn put_nbits(&mut self, val: u64, n: u32) {
        for i in (0..n).rev() {
            self.put_bit(((val >> i) & 1) as u32);
        }
    }

    fn byte_align(&mut self) {
        while self.nbits != 0 {
            self.put_bit(0);
        }
    }

    fn bit_len(&self) -> u64 {
        self.bytes.len() as u64 * 8 + self.nbits as u64
    }

    fn append(&mut self, other: &BitWriter) {
        for &b in &other.bytes {
            self.put_nbits(b as u64, 8);
        }
        for i in (0..other.nbits).rev() {
            self.put_bit(((other.cur >> i) & 1) as u32);
        }
    }

    fn put_uint(&mut self, value: u64) {
        let n = value + 1;
        let bits = 64 - n.leading_zeros();
        for i in (0..bits - 1).rev() {
            self.put_bit(0);
            self.put_bit(((n >> i) & 1) as u32);
        }
        self.put_bit(1);
    }

    fn put_sint(&mut self, value: i64) {
        self.put_uint(value.unsigned_abs());
        if value != 0 {
            self.put_bit((value < 0) as u32);
        }
    }

    fn into_bytes(mut self) -> Vec<u8> {
        self.byte_align();
        self.bytes
    }
}

fn parse_info(out: &mut Vec<u8>, parse_code: u8, next_offset: u32, prev_offset: u32) {
    out.extend_from_slice(&[0x42, 0x42, 0x43, 0x44]);
    out.push(parse_code);
    out.extend_from_slice(&next_offset.to_be_bytes());
    out.extend_from_slice(&prev_offset.to_be_bytes());
}

fn build_units(units: &[(u8, Vec<u8>)]) -> Vec<u8> {
    let mut out = Vec::new();
    let mut prev_offset = 0u32;
    for (code, body) in units {
        let next_offset = (13 + body.len()) as u32;
        parse_info(&mut out, *code, next_offset, prev_offset);
        out.extend_from_slice(body);
        prev_offset = next_offset;
    }
    parse_info(&mut out, 0x10, 0, prev_offset);
    out
}

fn sequence_header_body(width: u64, height: u64, major_version: u64) -> Vec<u8> {
    let mut w = BitWriter::default();
    w.put_uint(major_version);
    w.put_uint(0);
    w.put_uint(0);
    w.put_uint(0);
    w.put_uint(0);
    w.put_bool(true);
    w.put_uint(width);
    w.put_uint(height);
    w.put_bool(true);
    w.put_uint(0);
    w.put_bool(false);
    w.put_bool(false);
    w.put_bool(false);
    w.put_bool(false);
    w.put_bool(true);
    w.put_uint(1);
    w.put_bool(false);
    w.put_uint(0);
    w.into_bytes()
}

#[derive(Clone, Copy)]
struct PicParams {
    major_version: u64,
    wavelet_index: u64,
    dwt_depth: u64,
    ho: Option<(u64, u64)>,
    qindex: u64,
    slices_x: u64,
    slices_y: u64,
    low_delay: bool,
    slice_bytes_numerator: u64,
    slice_bytes_denominator: u64,
}

impl PicParams {
    fn hq_depth0() -> Self {
        PicParams {
            major_version: 2,
            wavelet_index: 3,
            dwt_depth: 0,
            ho: None,
            qindex: 0,
            slices_x: 1,
            slices_y: 1,
            low_delay: false,
            slice_bytes_numerator: 0,
            slice_bytes_denominator: 1,
        }
    }

    fn ld_slice_bytes_len(&self, slice_index: u64) -> u64 {
        let a = ((slice_index + 1) * self.slice_bytes_numerator) / self.slice_bytes_denominator;
        let b = (slice_index * self.slice_bytes_numerator) / self.slice_bytes_denominator;
        a - b
    }
}

fn write_transform_parameters(w: &mut BitWriter, p: &PicParams) {
    w.put_uint(p.wavelet_index);
    w.put_uint(p.dwt_depth);
    if p.major_version >= 3 {
        match p.ho {
            Some((wavelet_index_ho, dwt_depth_ho)) => {
                w.put_bool(true);
                w.put_uint(wavelet_index_ho);
                w.put_bool(true);
                w.put_uint(dwt_depth_ho);
            }
            None => {
                w.put_bool(false);
                w.put_bool(false);
            }
        }
    } else {
        assert!(p.ho.is_none(), "asymmetric params need major_version >= 3");
    }
    w.put_uint(p.slices_x);
    w.put_uint(p.slices_y);
    if p.low_delay {
        w.put_uint(p.slice_bytes_numerator);
        w.put_uint(p.slice_bytes_denominator);
    } else {
        w.put_uint(0);
        w.put_uint(1);
    }
    w.put_bool(false);
}

fn hq_slice_bytes(qindex: u64, y: &[i64], c1: &[i64], c2: &[i64]) -> Vec<u8> {
    let mut w = BitWriter::default();
    w.put_nbits(qindex, 8);
    for comp in [y, c1, c2] {
        let mut cw = BitWriter::default();
        for &v in comp {
            cw.put_sint(v);
        }
        let payload = cw.into_bytes();
        assert!(payload.len() <= 255, "test payload fits a 1-byte length");
        w.put_nbits(payload.len() as u64, 8);
        for b in payload {
            w.put_nbits(b as u64, 8);
        }
    }
    w.into_bytes()
}

fn ld_slice_bytes(qindex: u64, slice_len: u64, y: &[i64], c1: &[i64], c2: &[i64]) -> Vec<u8> {
    assert_eq!(c1.len(), c2.len());
    let total_bits = 8 * slice_len;
    let length_bits = oxideav_vc2::params::intlog2(total_bits - 7);

    let mut yw = BitWriter::default();
    for &v in y {
        yw.put_sint(v);
    }
    let mut cw = BitWriter::default();
    for (&a, &b) in c1.iter().zip(c2) {
        cw.put_sint(a);
        cw.put_sint(b);
    }

    let mut w = BitWriter::default();
    w.put_nbits(qindex, 7);
    w.put_nbits(yw.bit_len(), length_bits);
    w.append(&yw);
    w.append(&cw);
    assert!(
        w.bit_len() <= total_bits,
        "coefficients overflow the fixed LD slice size"
    );
    while w.bit_len() < total_bits {
        w.put_bit(0);
    }
    w.into_bytes()
}

fn picture_body(p: &PicParams, picture_number: u32, slices: &[Vec<u8>]) -> Vec<u8> {
    let mut w = BitWriter::default();
    w.put_nbits(picture_number as u64, 32);
    w.byte_align();
    write_transform_parameters(&mut w, p);
    w.byte_align();
    let mut out = w.into_bytes();
    for s in slices {
        out.extend_from_slice(s);
    }
    out
}

fn fragment_setup_body(p: &PicParams, picture_number: u32) -> Vec<u8> {
    let mut w = BitWriter::default();
    w.put_nbits(picture_number as u64, 32);
    w.put_nbits(0, 16);
    w.put_nbits(0, 16);
    write_transform_parameters(&mut w, p);
    w.into_bytes()
}

fn fragment_data_body(
    picture_number: u32,
    x_offset: u16,
    y_offset: u16,
    slices: &[Vec<u8>],
) -> Vec<u8> {
    let mut w = BitWriter::default();
    w.put_nbits(picture_number as u64, 32);
    w.put_nbits(0, 16);
    w.put_nbits(slices.len() as u64, 16);
    w.put_nbits(x_offset as u64, 16);
    w.put_nbits(y_offset as u64, 16);
    let mut out = w.into_bytes();
    for s in slices {
        out.extend_from_slice(s);
    }
    out
}

#[derive(Clone, Copy)]
enum SignalRange {
    Preset(u64),
    Custom { luma_offset: u64, luma_excursion: u64, color_diff_offset: u64, color_diff_excursion: u64 },
}

fn put_signal_range(w: &mut BitWriter, range: SignalRange) {
    w.put_bool(true);
    match range {
        SignalRange::Preset(index) => w.put_uint(index),
        SignalRange::Custom {
            luma_offset,
            luma_excursion,
            color_diff_offset,
            color_diff_excursion,
        } => {
            w.put_uint(0);
            w.put_uint(luma_offset);
            w.put_uint(luma_excursion);
            w.put_uint(color_diff_offset);
            w.put_uint(color_diff_excursion);
        }
    }
}

fn sequence_header_body_full(
    width: u64,
    height: u64,
    major_version: u64,
    color_diff_index: u64,
    range: SignalRange,
) -> Vec<u8> {
    let mut w = BitWriter::default();
    w.put_uint(major_version);
    w.put_uint(0);
    w.put_uint(0);
    w.put_uint(0);
    w.put_uint(0);
    w.put_bool(true);
    w.put_uint(width);
    w.put_uint(height);
    w.put_bool(true);
    w.put_uint(color_diff_index);
    w.put_bool(false);
    w.put_bool(false);
    w.put_bool(false);
    w.put_bool(false);
    put_signal_range(&mut w, range);
    w.put_bool(false);
    w.put_uint(0);
    w.into_bytes()
}

const SAMPLES: [i64; 16] =
    [0, 1, -1, 2, -2, 7, -8, 100, -255, 4096, -65535, 1 << 31, -(1 << 40), 3, 5, -9];

#[test]
fn codes_read_back() {
    let mut w = BitWriter::default();
    for v in SAMPLES {
        w.put_uint(v.unsigned_abs());
        w.put_sint(v);
    }
    w.put_uint(u64::MAX - 1);
    w.put_sint(i64::MAX);
    w.put_sint(-i64::MAX);
    let bytes = w.into_bytes();
    let mut r = BitReader::new(&bytes);
    for v in SAMPLES {
        assert_eq!(r.read_uint(), v.unsigned_abs());
        assert_eq!(r.read_sint(), v);
    }
    assert_eq!(r.read_uint(), u64::MAX - 1);
    assert_eq!(r.read_sint(), i64::MAX);
    assert_eq!(r.read_sint(), -i64::MAX);
    assert!(!r.overrun());
}

#[test]
fn bounded_codes_read_back_and_then_zero() {
    let mut w = BitWriter::default();
    for v in SAMPLES {
        w.put_sint(v);
    }
    let bits = w.bit_len();
    let mut bytes = w.into_bytes();
    bytes.push(0x00);
    let mut r = BitReader::new(&bytes);
    r.set_bits_left(bits);
    for v in SAMPLES {
        assert_eq!(r.read_sintb(), v);
    }
    assert_eq!(r.read_sintb(), 0);
    assert_eq!(r.read_uintb(), 0);
    r.flush_inputb();
    assert!(!r.overrun());
    assert_eq!(r.byte_pos(), (bits / 8) as usize);
}

fn undo(stage: &LiftStage) -> LiftStage {
    let kind = match stage.kind {
        LiftType::Type1 => LiftType::Type2,
        LiftType::Type2 => LiftType::Type1,
        LiftType::Type3 => LiftType::Type4,
        LiftType::Type4 => LiftType::Type3,
    };
    LiftStage { kind, s: stage.s, d: stage.d, taps: stage.taps }
}

fn analysis(a: &mut [i64], f: &WaveletFilter) {
    let stages: Vec<LiftStage> = f.stages.iter().rev().map(undo).collect();
    oned_synthesis(a, &WaveletFilter { stages: stages.leak(), bit_shift: f.bit_shift });
}

#[test]
fn every_filter_is_reversible() {
    for index in 0..=6 {
        let f = wavelet_filter(index).unwrap();
        for extreme in [0, i64::MAX, i64::MIN] {
            let mut original = SAMPLES;
            original[6] = extreme;
            let mut a = original;
            analysis(&mut a, &f);
            oned_synthesis(&mut a, &f);
            assert_eq!(a, original, "filter {index}");
            oned_synthesis(&mut a, &f);
            analysis(&mut a, &f);
            assert_eq!(a, original, "filter {index}");
        }
    }
}

fn plane(width: usize, height: usize, data: Vec<i64>) -> Plane {
    Plane { width, height, data }
}

#[test]
fn horizontal_synthesis_is_lossless() {
    for index in 0..=6 {
        let f = wavelet_filter(index).unwrap();
        let mut rows: Vec<Vec<i64>> = vec![SAMPLES[..8].to_vec(), SAMPLES[8..].to_vec()];
        for row in rows.iter_mut() {
            for v in row.iter_mut() {
                *v <<= f.bit_shift;
            }
            analysis(row, &f);
        }
        let pick = |dx: usize| {
            plane(4, 2, rows.iter().flat_map(|r| r.iter().skip(dx).step_by(2).copied()).collect())
        };
        assert_eq!(h_synthesis(&pick(0), &pick(1), &f).data, SAMPLES.to_vec(), "filter {index}");
    }
}

#[test]
fn two_dimensional_synthesis_is_lossless() {
    for v_index in 0..=6 {
        for h_index in 0..=6 {
            let v = wavelet_filter(v_index).unwrap();
            let h = wavelet_filter(h_index).unwrap();
            let mut g: Vec<i64> = SAMPLES.iter().map(|s| s << h.bit_shift).collect();
            for row in g.chunks_mut(4) {
                analysis(row, &h);
            }
            for x in 0..4 {
                let mut column: Vec<i64> = (0..4).map(|y| g[4 * y + x]).collect();
                analysis(&mut column, &v);
                for y in 0..4 {
                    g[4 * y + x] = column[y];
                }
            }
            let quadrant = |dy: usize, dx: usize| {
                let mut data = Vec::new();
                for y in 0..2 {
                    for x in 0..2 {
                        data.push(g[4 * (2 * y + dy) + 2 * x + dx]);
                    }
                }
                plane(2, 2, data)
            };
            let out = vh_synthesis(
                &quadrant(0, 0),
                &quadrant(0, 1),
                &quadrant(1, 0),
                &quadrant(1, 1),
                &v,
                &h,
            );
            assert_eq!((out.width, out.height), (4, 4));
            assert_eq!(out.data, SAMPLES.to_vec(), "filters {v_index} {h_index}");
        }
    }
}

/// The rows of `g` analyzed and, with `v`, its columns; then the bands that
/// start at each of the offsets.
fn split(g: &Plane, v: Option<&WaveletFilter>, h: &WaveletFilter) -> Vec<Plane> {
    let (width, height) = (g.width, g.height);
    let mut data: Vec<i64> = g.data.iter().map(|s| s << h.bit_shift).collect();
    for row in data.chunks_mut(width) {
        analysis(row, h);
    }
    if let Some(v) = v {
        for x in 0..width {
            let mut column: Vec<i64> = (0..height).map(|y| data[width * y + x]).collect();
            analysis(&mut column, v);
            for y in 0..height {
                data[width * y + x] = column[y];
            }
        }
    }
    let (step, offsets) = match v {
        Some(_) => (2, vec![(0, 0), (0, 1), (1, 0), (1, 1)]),
        None => (1, vec![(0, 0), (0, 1)]),
    };
    let band = |&(dy, dx): &(usize, usize)| {
        let mut samples = Vec::new();
        for y in (dy..height).step_by(step) {
            for x in (dx..width).step_by(2) {
                samples.push(data[width * y + x]);
            }
        }
        plane(width / 2, height / step, samples)
    };
    offsets.iter().map(band).collect()
}

#[test]
fn components_decode_losslessly_at_mixed_depths() {
    let (width, height, depth) = (13, 7, 10);
    let samples: Vec<u16> = (0..width * height).map(|i| ((i * 389 + 17) % 1024) as u16).collect();
    for v_index in 0..=6 {
        for h_index in 0..=6 {
            let v = wavelet_filter(v_index).unwrap();
            let h = wavelet_filter(h_index).unwrap();
            // Padded to multiples of eight by four.
            let mut g = plane(16, 8, vec![-3; 128]);
            for y in 0..height {
                for x in 0..width {
                    g.data[16 * y + x] = samples[width * y + x] as i64 - 512;
                }
            }
            let mut bands: Vec<Plane> = Vec::new();
            for filter in [Some(&v), Some(&v), None] {
                let mut parts = split(&g, filter, &h);
                g = parts.remove(0);
                parts.append(&mut bands);
                bands = parts;
            }
            bands.insert(0, g);
            let coeffs = oxideav_vc2::subband::ComponentCoeffs {
                width: width as u64,
                height: height as u64,
                bands,
            };
            let tp = oxideav_vc2::transform::TransformParameters {
                wavelet_index: v_index,
                dwt_depth: 2,
                wavelet_index_ho: h_index,
                dwt_depth_ho: 1,
                asym_transform_index_flag: true,
                asym_transform_flag: true,
                slices_x: 1,
                slices_y: 1,
                slice_bytes_numerator: 0,
                slice_bytes_denominator: 1,
                slice_prefix_bytes: 0,
                slice_size_scaler: 1,
                quant_matrix: Vec::new(),
            };
            let out = oxideav_vc2::transform::idwt(&coeffs, &tp).unwrap();
            assert_eq!((out.width, out.height), (16, 8));
            assert_eq!(finalize_component(&out, width, height, depth), samples);
        }
    }
}

#[test]
fn index_zero_is_lossless_and_quantization_keeps_signs() {
    for v in SAMPLES {
        assert_eq!(inverse_quant(v, 0), v);
        for q in [1, 2, 3, 17, 100, 255] {
            assert_eq!(inverse_quant(-v, q), -inverse_quant(v, q));
            assert_eq!(inverse_quant(v, q).signum(), v.signum());
        }
    }
    assert_eq!(inverse_quant(i64::MAX, 0), i64::MAX);
    assert_eq!(inverse_quant(1, 255), 3_458_764_513_820_540_928);
    assert_eq!(inverse_quant(4, 255), i64::MAX);
    assert_eq!(inverse_quant(-4, 255), -i64::MAX);
}

#[test]
fn quantization_factors() {
    let factors: Vec<i64> = (0..9).map(quant_factor).collect();
    assert_eq!(factors, vec![4, 5, 6, 7, 8, 10, 11, 13, 16]);
    assert_eq!(quant_offset(2), 3);
    assert_eq!(quant_offset(8), 8);
    assert_eq!(quant_factor(243), 7_755_900_482_361_686_354);
    assert_eq!(quant_factor(244), i64::MAX);
    assert_eq!(quant_factor(u64::MAX), i64::MAX);
    for index in 0..300 {
        assert!(quant_factor(index) <= quant_factor(index + 1), "index {index}");
    }
    assert_eq!(inverse_quant(10, 8), (10 * 16 + 8 + 2) / 4);
}

#[test]
fn means_round_towards_minus_infinity() {
    for a in -7..8i64 {
        assert_eq!(floor_div(a, 3), a.div_euclid(3));
        assert_eq!(mean3(a, 2, -4), (a - 1).div_euclid(3));
    }
    assert_eq!(floor_div(i64::MIN, 1), i64::MIN);
}

#[test]
fn low_delay_pictures_recover_what_was_predicted() {
    let want = [[10i64, 12, 9, -3], [11, 13, 14, -5]];
    let mut residual = [[0i64; 4]; 2];
    for y in 0..2 {
        for x in 0..4 {
            let guess = if x > 0 && y > 0 {
                mean3(want[y][x - 1], want[y - 1][x - 1], want[y - 1][x])
            } else if x > 0 {
                want[y][x - 1]
            } else if y > 0 {
                want[y - 1][x]
            } else {
                0
            };
            residual[y][x] = want[y][x] - guess;
        }
    }
    let p = PicParams {
        low_delay: true,
        slices_x: 2,
        slice_bytes_numerator: 14,
        ..PicParams::hq_depth0()
    };
    let c = [0i64; 4];
    let slices: Vec<Vec<u8>> = (0..2usize)
        .map(|s| {
            let y = [
                residual[0][2 * s],
                residual[0][2 * s + 1],
                residual[1][2 * s],
                residual[1][2 * s + 1],
            ];
            ld_slice_bytes(0, 14, &y, &c, &c)
        })
        .collect();
    let stream =
        build_units(&[(0x00, sequence_header_body(4, 2, 2)), (0xC8, picture_body(&p, 1, &slices))]);
    let pictures = decode_sequence(&stream).unwrap();
    let expect: Vec<u16> = want.iter().flatten().map(|v| (v + 128) as u16).collect();
    assert_eq!(pictures[0].y, expect);
}

#[test]
fn slices_tile_and_their_bytes_add_up() {
    let (mut area, mut row) = (0, 0);
    for sy in 0..3 {
        let mut column = 0;
        for sx in 0..4 {
            let (left, right, top, bottom) = slice_bounds(10, 7, 4, 3, sx, sy);
            assert_eq!((left, top), (column, row));
            area += (right - left) * (bottom - top);
            column = right;
        }
        assert_eq!(column, 10);
        row = slice_bounds(10, 7, 4, 3, 0, sy).3;
    }
    assert_eq!((area, row), (70, 7));

    let body = {
        let mut w = BitWriter::default();
        let p = PicParams {
            low_delay: true,
            slices_x: 3,
            slices_y: 2,
            slice_bytes_numerator: 31,
            slice_bytes_denominator: 4,
            ..PicParams::hq_depth0()
        };
        write_transform_parameters(&mut w, &p);
        w.into_bytes()
    };
    let header = sequence_header_body(6, 4, 2);
    let seq = oxideav_vc2::params::sequence_header(&mut BitReader::new(&header)).unwrap();
    let tp = oxideav_vc2::transform::transform_parameters(
        &mut BitReader::new(&body),
        &seq,
        oxideav_vc2::PictureKind::LowDelay,
    )
    .unwrap();
    let mut total = 0;
    for sy in 0..2 {
        for sx in 0..3 {
            total += slice_bytes(&tp, sx, sy);
        }
    }
    assert_eq!(total, 6 * 31 / 4);
}

#[test]
fn depths_are_ceiling_logarithms() {
    for (n, m) in [(1u64, 0u32), (2, 1), (3, 2), (4, 2), (5, 3), (877, 10), (65535, 16), (65536, 16)] {
        assert_eq!(intlog2(n), m);
    }
    assert_eq!(intlog2(1 << 63), 63);
}

#[test]
fn coding_parameters_follow_the_sampling() {
    let mut vp = set_source_defaults(0).unwrap();
    vp.frame_width = 7;
    vp.frame_height = 9;
    for (format, fields, expect) in [
        (ColorDiffFormat::Yuv444, 0, (7, 9, 7, 9)),
        (ColorDiffFormat::Yuv422, 0, (7, 9, 3, 9)),
        (ColorDiffFormat::Yuv420, 0, (7, 9, 3, 4)),
        (ColorDiffFormat::Yuv420, 1, (7, 4, 3, 2)),
    ] {
        vp.color_diff_format = format;
        let cp = set_coding_parameters(&vp, fields);
        assert_eq!(
            (cp.luma_width, cp.luma_height, cp.color_diff_width, cp.color_diff_height),
            expect
        );
    }
}

#[test]
fn samples_are_clipped_and_centred() {
    let p = plane(2, 2, vec![-600, -512, 511, 600]);
    assert_eq!(finalize_component(&p, 2, 2, 10), vec![0, 0, 1023, 1023]);
    assert_eq!(finalize_component(&p, 1, 2, 16), vec![32168, 33279]);
}

fn picture_of(depths: (u32, u32), samples: [u16; 2]) -> DecodedPicture {
    DecodedPicture {
        picture_number: 0,
        luma_width: 2,
        luma_height: 1,
        color_diff_width: 1,
        color_diff_height: 1,
        luma_depth: depths.0,
        color_diff_depth: depths.1,
        y: samples.to_vec(),
        c1: vec![samples[0]],
        c2: vec![samples[1]],
    }
}

#[test]
fn every_pair_of_depths_has_a_surface() {
    for y in 1..=16u32 {
        for c in 1..=16u32 {
            let m = surface_mapping(&picture_of((y, c), [0, 0])).unwrap();
            let depth = match m.format {
                PixelFormat::Yuv422P => 8,
                PixelFormat::Yuv422P10Le => 10,
                PixelFormat::Yuv422P12Le => 12,
                PixelFormat::Yuv422P16Le => 16,
                other => panic!("{other:?}"),
            };
            assert!(y <= depth && c <= depth);
            if depth == 16 {
                assert_eq!((y + m.luma_shift, c + m.chroma_shift), (16, 16));
                assert_eq!(m.significant_bits, None);
            } else {
                assert_eq!((m.luma_shift, m.chroma_shift), (0, 0));
                assert_eq!(m.significant_bits.is_some(), y != depth || c != depth);
            }
        }
    }
}

#[test]
fn promotion_is_exact() {
    for depth in 1..=16u32 {
        let top = ((1u32 << depth) - 1) as u16;
        let p = pack_plane_words(&[0, 1, top], 3, 16 - depth);
        let words: Vec<u32> =
            p.data.chunks_exact(2).map(|b| u16::from_le_bytes([b[0], b[1]]) as u32).collect();
        let shift = 16 - depth;
        assert_eq!(words, vec![0, 1 << shift, 65536 - (1 << shift)]);
    }
}

#[test]
fn records_are_attached_behind_the_planes() {
    let frame = to_frame(&picture_of((9, 12), [1, 511]), Some(-4)).unwrap();
    assert_eq!(frame.pts, Some(-4));
    assert_eq!(frame.planes.len(), 4);
    assert_eq!(frame.planes[0].stride, 4);
    assert_eq!(frame.planes[0].data, vec![1, 0, 0xFF, 1]);
    assert_eq!(frame.planes[2].data, vec![0xFF, 1]);
    assert_eq!(frame.planes[3].data, vec![9, 12, 12]);
    let outside = oxideav_core::VideoFrame {
        pts: frame.pts,
        planes: frame
            .planes
            .iter()
            .map(|p| oxideav_core::VideoPlane { stride: p.stride, data: p.data.clone() })
            .collect(),
    };
    assert_eq!(outside.significant_bits(), Some(&[9u8, 12, 12][..]));
    assert_eq!(outside.image_planes().len(), 3);
    let plain = to_frame(&picture_of((8, 8), [1, 255]), None).unwrap();
    assert_eq!(plain.planes.len(), 3);
    assert_eq!(plain.planes[0].data, vec![1, 255]);
}
