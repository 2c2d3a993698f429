//! Packets in, frames out.
#![allow(dead_code)]

use oxideav_core::VideoFrame;
use oxideav_vc2::surface::PacketErrorKind;
use oxideav_vc2::Vc2Decoder;

#[derive(Default)]
struct BitWriter {
    bytes: Vec<u8>,
    cur: u8,
    nbits: u8,
}

impl BitWriter {
    fn put_bit(&mut self, bit: u32) {
        self.cur = (self.cur << 1) | (bit as u8 & 1);
        self.nbits += 1;
        if self.nbits == 8 {
            self.bytes.push(self.cur);
            self.cur = 0;
            self.nbits = 0;
        }
    }

    fn put_bool(&mut self, b: bool) {
        self.put_bit(b as u32);
    }

    fn put_nbits(&mut self, val: u64, n: u32) {
        for i in (0..n).rev() {
            self.put_bit(((val >> i) & 1) as u32);
        }
    }

    fn byte_align(&mut self) {
        while self.nbits != 0 {
            self.put_bit(0);
        }
    }

    fn bit_len(&self) -> u64 {
        self.bytes.len() as u64 * 8 + self.nbits as u64
    }

    fn append(&mut self, other: &BitWriter) {
        for &b in &other.bytes {
            self.put_nbits(b as u64, 8);
        }
        for i in (0..other.nbits).rev() {
            self.put_bit(((other.cur >> i) & 1) as u32);
        }
    }

    fn put_uint(&mut self, value: u64) {
        let n = value + 1;
        let bits = 64 - n.leading_zeros();
        for i in (0..bits - 1).rev() {
            self.put_bit(0);
            self.put_bit(((n >> i) & 1) as u32);
        }
        self.put_bit(1);
    }

    fn put_sint(&mut self, value: i64) {
        self.put_uint(value.unsigned_abs());
        if value != 0 {
            self.put_bit((value < 0) as u32);
        }
    }

    fn into_bytes(mut self) -> Vec<u8> {
        self.byte_align();
        self.bytes
    }
}

fn parse_info(out: &mut Vec<u8>, parse_code: u8, next_offset: u32, prev_offset: u32) {
    out.extend_from_slice(&[0x42, 0x42, 0x43, 0x44]);
    out.push(parse_code);
    out.extend_from_slice(&next_offset.to_be_bytes());
    out.extend_from_slice(&prev_offset.to_be_bytes());
}

fn build_units(units: &[(u8, Vec<u8>)]) -> Vec<u8> {
    let mut out = Vec::new();
    let mut prev_offset = 0u32;
    for (code, body) in units {
        let next_offset = (13 + body.len()) as u32;
        parse_info(&mut out, *code, next_offset, prev_offset);
        out.extend_from_slice(body);
        prev_offset = next_offset;
    }
    parse_info(&mut out, 0x10, 0, prev_offset);
    out
}

fn sequence_header_body(width: u64, height: u64, major_version: u64) -> Vec<u8> {
    let mut w = BitWriter::default();
    w.put_uint(major_version);
    w.put_uint(0);
    w.put_uint(0);
    w.put_uint(0);
    w.put_uint(0);
    w.put_bool(true);
    w.put_uint(width);
    w.put_uint(height);
    w.put_bool(true);
    w.put_uint(0);
    w.put_bool(false);
    w.put_bool(false);
    w.put_bool(false);
    w.put_bool(false);
    w.put_bool(true);
    w.put_uint(1);
    w.put_bool(false);
    w.put_uint(0);
    w.into_bytes()
}

#[derive(Clone, Copy)]
struct PicParams {
    major_version: u64,
    wavelet_index: u64,
    dwt_depth: u64,
    ho: Option<(u64, u64)>,
    qindex: u64,
    slices_x: u64,
    slices_y: u64,
    low_delay: bool,
    slice_bytes_numerator: u64,
    slice_bytes_denominator: u64,
}

impl PicParams {
    fn hq_depth0() -> Self {
        PicParams {
            major_version: 2,
            wavelet_index: 3,
            dwt_depth: 0,
            ho: None,
            qindex: 0,
            slices_x: 1,
            slices_y: 1,
            low_delay: false,
            slice_bytes_numerator: 0,
            slice_bytes_denominator: 1,
        }
    }

    fn ld_slice_bytes_len(&self, slice_index: u64) -> u64 {
        let a = ((slice_index + 1) * self.slice_bytes_numerator) / self.slice_bytes_denominator;
        let b = (slice_index * self.slice_bytes_numerator) / self.slice_bytes_denominator;
        a - b
    }
}

fn write_transform_parameters(w: &mut BitWriter, p: &PicParams) {
    w.put_uint(p.wavelet_index);
    w.put_uint(p.dwt_depth);
    if p.major_version >= 3 {
        match p.ho {
            Some((wavelet_index_ho, dwt_depth_ho)) => {
                w.put_bool(true);
                w.put_uint(wavelet_index_ho);
                w.put_bool(true);
                w.put_uint(dwt_depth_ho);
            }
            None => {
                w.put_bool(false);
                w.put_bool(false);
            }
        }
    } else {
        assert!(p.ho.is_none(), "asymmetric params need major_version >= 3");
    }
    w.put_uint(p.slices_x);
    w.put_uint(p.slices_y);
    if p.low_delay {
        w.put_uint(p.slice_bytes_numerator);
        w.put_uint(p.slice_bytes_denominator);
    } else {
        w.put_uint(0);
        w.put_uint(1);
    }
    w.put_bool(false);
}

fn hq_slice_bytes(qindex: u64, y: &[i64], c1: &[i64], c2: &[i64]) -> Vec<u8> {
    let mut w = BitWriter::default();
    w.put_nbits(qindex, 8);
    for comp in [y, c1, c2] {
        let mut cw = BitWriter::default();
        for &v in comp {
            cw.put_sint(v);
        }
        let payload = cw.into_bytes();
        assert!(payload.len() <= 255, "test payload fits a 1-byte length");
        w.put_nbits(payload.len() as u64, 8);
        for b in payload {
            w.put_nbits(b as u64, 8);
        }
    }
    w.into_bytes()
}

fn ld_slice_bytes(qindex: u64, slice_len: u64, y: &[i64], c1: &[i64], c2: &[i64]) -> Vec<u8> {
    assert_eq!(c1.len(), c2.len());
    let total_bits = 8 * slice_len;
    let length_bits = oxideav_vc2::params::intlog2(total_bits - 7);

    let mut yw = BitWriter::default();
    for &v in y {
        yw.put_sint(v);
    }
    let mut cw = BitWriter::default();
    for (&a, &b) in c1.iter().zip(c2) {
        cw.put_sint(a);
        cw.put_sint(b);
    }

    let mut w = BitWriter::default();
    w.put_nbits(qindex, 7);
    w.put_nbits(yw.bit_len(), length_bits);
    w.append(&yw);
    w.append(&cw);
    assert!(
        w.bit_len() <= total_bits,
        "coefficients overflow the fixed LD slice size"
    );
    while w.bit_len() < total_bits {
        w.put_bit(0);
    }
    w.into_bytes()
}

fn picture_body(p: &PicParams, picture_number: u32, slices: &[Vec<u8>]) -> Vec<u8> {
    let mut w = BitWriter::default();
    w.put_nbits(picture_number as u64, 32);
    w.byte_align();
    write_transform_parameters(&mut w, p);
    w.byte_align();
    let mut out = w.into_bytes();
    for s in slices {
        out.extend_from_slice(s);
    }
    out
}

fn fragment_setup_body(p: &PicParams, picture_number: u32) -> Vec<u8> {
    let mut w = BitWriter::default();
    w.put_nbits(picture_number as u64, 32);
    w.put_nbits(0, 16);
    w.put_nbits(0, 16);
    write_transform_parameters(&mut w, p);
    w.into_bytes()
}

fn fragment_data_body(
    picture_number: u32,
    x_offset: u16,
    y_offset: u16,
    slices: &[Vec<u8>],
) -> Vec<u8> {
    let mut w = BitWriter::default();
    w.put_nbits(picture_number as u64, 32);
    w.put_nbits(0, 16);
    w.put_nbits(slices.len() as u64, 16);
    w.put_nbits(x_offset as u64, 16);
    w.put_nbits(y_offset as u64, 16);
    let mut out = w.into_bytes();
    for s in slices {
        out.extend_from_slice(s);
    }
    out
}

#[derive(Clone, Copy)]
enum SignalRange {
    Preset(u64),
    Custom { luma_offset: u64, luma_excursion: u64, color_diff_offset: u64, color_diff_excursion: u64 },
}

fn put_signal_range(w: &mut BitWriter, range: SignalRange) {
    w.put_bool(true);
    match range {
        SignalRange::Preset(index) => w.put_uint(index),
        SignalRange::Custom {
            luma_offset,
            luma_excursion,
            color_diff_offset,
            color_diff_excursion,
        } => {
            w.put_uint(0);
            w.put_uint(luma_offset);
            w.put_uint(luma_excursion);
            w.put_uint(color_diff_offset);
            w.put_uint(color_diff_excursion);
        }
    }
}

fn sequence_header_body_full(
    width: u64,
    height: u64,
    major_version: u64,
    color_diff_index: u64,
    range: SignalRange,
) -> Vec<u8> {
    let mut w = BitWriter::default();
    w.put_uint(major_version);
    w.put_uint(0);
    w.put_uint(0);
    w.put_uint(0);
    w.put_uint(0);
    w.put_bool(true);
    w.put_uint(width);
    w.put_uint(height);
    w.put_bool(true);
    w.put_uint(color_diff_index);
    w.put_bool(false);
    w.put_bool(false);
    w.put_bool(false);
    w.put_bool(false);
    put_signal_range(&mut w, range);
    w.put_bool(false);
    w.put_uint(0);
    w.into_bytes()
}

/// A packet decoder whose frames come out as those of the multimedia framework.
struct Decoder(Vc2Decoder);

impl Decoder {
    fn new(extradata: &[u8]) -> Self {
        Decoder(Vc2Decoder::new(extradata).expect("factory"))
    }

    fn send_packet(&mut self, packet: &(Vec<u8>, i64)) -> Result<(), PacketErrorKind> {
        self.0.send_packet(&packet.0, Some(packet.1)).map_err(|e| e.kind())
    }

    fn receive_frame(&mut self) -> Result<VideoFrame, PacketErrorKind> {
        let frame = self.0.receive_frame().map_err(|e| e.kind())?;
        Ok(VideoFrame {
            pts: frame.pts,
            planes: frame
                .planes
                .into_iter()
                .map(|p| oxideav_core::VideoPlane { stride: p.stride, data: p.data })
                .collect(),
        })
    }

    fn flush(&mut self) -> Result<(), PacketErrorKind> {
        self.0.flush().map_err(|e| e.kind())
    }

    fn reset(&mut self) {
        self.0.reset();
    }
}

fn packet(data: Vec<u8>, pts: i64) -> (Vec<u8>, i64) {
    (data, pts)
}

fn simple_stream() -> (Vec<u8>, Vec<u8>) {
    let p = PicParams::hq_depth0();
    let y = [10i64, -20, 30, -40];
    let c = [0i64; 4];
    let seq = sequence_header_body(2, 2, p.major_version);
    let pic = picture_body(&p, 7, &[hq_slice_bytes(p.qindex, &y, &c, &c)]);
    let stream = build_units(&[(0x00, seq), (0xE8, pic)]);
    let expect: Vec<u8> = y.iter().map(|&v| (v + 128) as u8).collect();
    (stream, expect)
}

#[test]
fn direct_make_decoder_factory() {
    let mut dec = Decoder::new(&[]);
    let (stream, expect_y) = simple_stream();
    dec.send_packet(&packet(stream, 0)).expect("send");
    let v = dec.receive_frame().expect("frame");
    assert_eq!(v.planes[0].data, expect_y);
}

#[test]
fn fragmented_picture_spans_packets() {
    let p = PicParams {
        major_version: 3,
        slices_x: 2,
        slices_y: 2,
        ..PicParams::hq_depth0()
    };
    let c = [0i64; 4];
    let slices: Vec<Vec<u8>> = (0..4)
        .map(|i| hq_slice_bytes(p.qindex, &[i as i64 + 1; 4], &c, &c))
        .collect();

    let unit = |code: u8, body: Vec<u8>| -> Vec<u8> {
        let mut out = Vec::new();
        parse_info(&mut out, code, (13 + body.len()) as u32, 0);
        out.extend_from_slice(&body);
        out
    };

    let mut dec = Decoder::new(&[]);
    dec.send_packet(&packet(unit(0x00, sequence_header_body(4, 4, 3)), 1))
        .unwrap();
    dec.send_packet(&packet(unit(0xEC, fragment_setup_body(&p, 9)), 2))
        .unwrap();
    assert!(matches!(dec.receive_frame(), Err(PacketErrorKind::NeedMore)));
    dec.send_packet(&packet(
        unit(0xEC, fragment_data_body(9, 0, 0, &slices[0..2])),
        3,
    ))
    .unwrap();
    assert!(matches!(dec.receive_frame(), Err(PacketErrorKind::NeedMore)));
    dec.send_packet(&packet(
        unit(0xEC, fragment_data_body(9, 0, 1, &slices[2..4])),
        4,
    ))
    .unwrap();
    let v = dec.receive_frame().expect("frame");
    assert_eq!(v.pts, Some(4));
    assert_eq!(
        v.planes[0].data,
        vec![
            129, 129, 130, 130,
            129, 129, 130, 130,
            131, 131, 132, 132,
            131, 131, 132, 132,
        ]
    );

    dec.reset();
    let (stream, expect_y) = simple_stream();
    dec.send_packet(&packet(stream, 5)).unwrap();
    let v = dec.receive_frame().expect("frame");
    assert_eq!(v.planes[0].data, expect_y);
}

#[test]
fn fragmented_16bit_picture_spans_packets() {
    let p = PicParams {
        major_version: 3,
        slices_x: 2,
        slices_y: 2,
        ..PicParams::hq_depth0()
    };
    let c = [0i64; 4];
    let values: [i64; 4] = [-30000, 30000, -1, 1];
    let slices: Vec<Vec<u8>> = values
        .iter()
        .map(|&v| hq_slice_bytes(p.qindex, &[v; 4], &c, &c))
        .collect();

    let unit = |code: u8, body: Vec<u8>| -> Vec<u8> {
        let mut out = Vec::new();
        parse_info(&mut out, code, (13 + body.len()) as u32, 0);
        out.extend_from_slice(&body);
        out
    };

    let mut dec = Decoder::new(&[]);
    let seq = sequence_header_body_full(4, 4, p.major_version, 0, SignalRange::Preset(8));
    dec.send_packet(&packet(unit(0x00, seq), 1)).unwrap();
    dec.send_packet(&packet(unit(0xEC, fragment_setup_body(&p, 9)), 2))
        .unwrap();
    dec.send_packet(&packet(
        unit(0xEC, fragment_data_body(9, 0, 0, &slices[0..2])),
        3,
    ))
    .unwrap();
    assert!(matches!(dec.receive_frame(), Err(PacketErrorKind::NeedMore)));
    dec.send_packet(&packet(
        unit(0xEC, fragment_data_body(9, 0, 1, &slices[2..4])),
        4,
    ))
    .unwrap();
    let v = dec.receive_frame().expect("frame");
    assert_eq!(v.planes[0].stride, 8);
    let words: Vec<u16> = v.planes[0]
        .data
        .chunks_exact(2)
        .map(|b| u16::from_le_bytes([b[0], b[1]]))
        .collect();
    let q = values.map(|v| (v + 32768) as u16);
    let expect = vec![
        q[0], q[0], q[1], q[1],
        q[0], q[0], q[1], q[1],
        q[2], q[2], q[3], q[3],
        q[2], q[2], q[3], q[3],
    ];
    assert_eq!(words, expect);
    assert!(v.planes[1]
        .data
        .chunks_exact(2)
        .all(|b| u16::from_le_bytes([b[0], b[1]]) == 32768));
}

#[test]
fn flush_mid_fragmented_picture_errors() {
    let p = PicParams {
        major_version: 3,
        slices_x: 2,
        slices_y: 2,
        ..PicParams::hq_depth0()
    };
    let mut unit = Vec::new();
    let seq = sequence_header_body(4, 4, 3);
    parse_info(&mut unit, 0x00, (13 + seq.len()) as u32, 0);
    unit.extend_from_slice(&seq);
    let setup = fragment_setup_body(&p, 9);
    parse_info(&mut unit, 0xEC, (13 + setup.len()) as u32, 0);
    unit.extend_from_slice(&setup);

    let mut dec = Decoder::new(&[]);
    dec.send_packet(&packet(unit, 0)).unwrap();
    assert!(matches!(dec.flush(), Err(PacketErrorKind::InvalidData)));
    dec.reset();
    let (stream, _) = simple_stream();
    dec.send_packet(&packet(stream, 0)).unwrap();
    assert!(dec.receive_frame().is_ok());
}

fn decode_words(range: SignalRange, y: &[i64; 4], c1: &[i64; 4], c2: &[i64; 4]) -> Vec<Vec<u16>> {
    let p = PicParams::hq_depth0();
    let seq = sequence_header_body_full(2, 2, p.major_version, 0, range);
    let pic = picture_body(&p, 1, &[hq_slice_bytes(p.qindex, y, c1, c2)]);
    let stream = build_units(&[(0x00, seq), (0xE8, pic)]);
    let mut dec = Decoder::new(&[]);
    dec.send_packet(&packet(stream, 0)).unwrap();
    let v = dec.receive_frame().expect("frame");
    assert_eq!(v.planes.len(), 3);
    v.planes
        .iter()
        .map(|p| {
            assert_eq!(p.stride, 4);
            p.data
                .chunks_exact(2)
                .map(|b| u16::from_le_bytes([b[0], b[1]]))
                .collect()
        })
        .collect()
}

#[test]
fn ten_bit_stream_packs_little_endian_words() {
    let y = [100i64, -100, 0, 511];
    let c = [0i64; 4];
    let planes = decode_words(SignalRange::Preset(3), &y, &c, &c);
    let expect: Vec<u16> = y.iter().map(|&s| (s + 512) as u16).collect();
    assert_eq!(planes[0], expect);
    assert!(planes[1].iter().all(|&w| w == 512));
    assert!(planes[2].iter().all(|&w| w == 512));
}

#[test]
fn preset7_16bit_video_stream_decodes_verbatim_words() {
    let y = [1000i64, -1000, 0, 27392];
    let c1 = [-32768i64, 32767, 0, 1];
    let c2 = [24576i64, -24576, 0, -1];
    let planes = decode_words(SignalRange::Preset(7), &y, &c1, &c2);
    let off = |v: i64| (v + 32768) as u16;
    assert_eq!(planes[0], y.map(off).to_vec());
    assert_eq!(planes[1], c1.map(off).to_vec());
    assert_eq!(planes[2], c2.map(off).to_vec());
    assert_eq!(planes[0][3], 60160);
}

#[test]
fn preset8_16bit_full_range_reaches_both_extremes() {
    let y = [-32768i64, 32767, -40000, 40000];
    let c = [0i64; 4];
    let planes = decode_words(SignalRange::Preset(8), &y, &c, &c);
    assert_eq!(planes[0], vec![0, 65535, 0, 65535]);
    assert!(planes[1].iter().all(|&w| w == 32768));
}

#[test]
fn custom_13bit_range_promotes_by_shift_3() {
    let range = SignalRange::Custom {
        luma_offset: 512,
        luma_excursion: 8191,
        color_diff_offset: 4096,
        color_diff_excursion: 8191,
    };
    let y = [100i64, -100, 0, 4095];
    let c = [7i64, -7, 4095, -4096];
    let planes = decode_words(range, &y, &c, &c);
    let promote = |v: i64| ((v + 4096) as u16) << 3;
    assert_eq!(planes[0], y.map(promote).to_vec());
    assert_eq!(planes[1], c.map(promote).to_vec());
    assert_eq!(planes[1][2], 65528);
    assert_eq!(planes[1][3], 0);
}

#[test]
fn mixed_deep_depths_promote_per_plane() {
    let range = SignalRange::Custom {
        luma_offset: 0,
        luma_excursion: 65535,
        color_diff_offset: 2048,
        color_diff_excursion: 4095,
    };
    let y = [-32768i64, 32767, 5, -5];
    let c = [100i64, -100, 2047, -2048];
    let planes = decode_words(range, &y, &c, &c);
    assert_eq!(planes[0], y.map(|v| (v + 32768) as u16).to_vec());
    assert_eq!(planes[1], c.map(|v| ((v + 2048) as u16) << 4).to_vec());
    assert_eq!(planes[1][2], 65520);
}

#[test]
fn depth_derivation_boundary_15_vs_16() {
    let mk = |excursion: u64, offset: u64| SignalRange::Custom {
        luma_offset: offset,
        luma_excursion: excursion,
        color_diff_offset: offset,
        color_diff_excursion: excursion,
    };
    let y = [100i64, -100, 16383, -16384];
    let c = [0i64; 4];
    let planes = decode_words(mk(32767, 16384), &y, &c, &c);
    assert_eq!(
        planes[0],
        y.map(|v| ((v + 16384) as u16) << 1).to_vec(),
        "depth 15 must promote by << 1"
    );
    assert_eq!(planes[0][2], 65534);
    let planes = decode_words(mk(32768, 16384), &y, &c, &c);
    assert_eq!(
        planes[0],
        y.map(|v| (v + 32768) as u16).to_vec(),
        "depth 16 must pass words verbatim"
    );
}

fn decode_frame(range: SignalRange, y: &[i64; 4], c1: &[i64; 4], c2: &[i64; 4]) -> VideoFrame {
    let p = PicParams::hq_depth0();
    let seq = sequence_header_body_full(2, 2, p.major_version, 0, range);
    let pic = picture_body(&p, 1, &[hq_slice_bytes(p.qindex, y, c1, c2)]);
    let stream = build_units(&[(0x00, seq), (0xE8, pic)]);
    let mut dec = Decoder::new(&[]);
    dec.send_packet(&packet(stream, 0)).unwrap();
    let v = dec.receive_frame().expect("frame");
    v
}

fn le_words(p: &oxideav_core::VideoPlane) -> Vec<u16> {
    p.data
        .chunks_exact(2)
        .map(|b| u16::from_le_bytes([b[0], b[1]]))
        .collect()
}

#[test]
fn mixed_12bit_luma_10bit_chroma_carries_a_significant_bits_record() {
    let range = SignalRange::Custom {
        luma_offset: 256,
        luma_excursion: 4095,
        color_diff_offset: 512,
        color_diff_excursion: 1023,
    };
    let y = [100i64, -100, 2047, -2048];
    let c1 = [7i64, -7, 511, -512];
    let c2 = [1i64, -1, 0, 300];
    let v = decode_frame(range, &y, &c1, &c2);

    assert_eq!(v.planes.len(), 4);
    assert_eq!(v.image_planes().len(), 3);
    assert_eq!(v.significant_bits(), Some(&[12u8, 10, 10][..]));
    assert_eq!(v.plane_significant_bits(0), Some(12));
    assert_eq!(v.plane_significant_bits(1), Some(10));
    assert_eq!(v.plane_significant_bits(2), Some(10));

    assert_eq!(
        le_words(&v.image_planes()[0]),
        y.map(|s| (s + 2048) as u16).to_vec()
    );
    assert_eq!(
        le_words(&v.image_planes()[1]),
        c1.map(|s| (s + 512) as u16).to_vec()
    );
    assert_eq!(
        le_words(&v.image_planes()[2]),
        c2.map(|s| (s + 512) as u16).to_vec()
    );
    assert_eq!(le_words(&v.image_planes()[0])[2], 4095);
    assert_eq!(le_words(&v.image_planes()[1])[2], 1023);
}

#[test]
fn mixed_sub_byte_depths_ride_byte_planes_with_a_record() {
    let range = SignalRange::Custom {
        luma_offset: 0,
        luma_excursion: 255,
        color_diff_offset: 32,
        color_diff_excursion: 63,
    };
    let y = [10i64, -10, 127, -128];
    let c = [5i64, -5, 31, -32];
    let v = decode_frame(range, &y, &c, &c);
    assert_eq!(v.image_planes().len(), 3);
    assert_eq!(v.significant_bits(), Some(&[8u8, 6, 6][..]));
    assert_eq!(v.image_planes()[0].stride, 2);
    assert_eq!(
        v.image_planes()[0].data,
        y.map(|s| (s + 128) as u8).to_vec()
    );
    assert_eq!(v.image_planes()[1].data, c.map(|s| (s + 32) as u8).to_vec());
    assert_eq!(v.image_planes()[1].data[2], 63);
}

#[test]
fn uniform_9bit_stream_is_represented_on_p10_words() {
    let range = SignalRange::Custom {
        luma_offset: 256,
        luma_excursion: 511,
        color_diff_offset: 256,
        color_diff_excursion: 511,
    };
    let y = [100i64, -100, 255, -256];
    let c = [0i64; 4];
    let v = decode_frame(range, &y, &c, &c);
    assert_eq!(v.significant_bits(), Some(&[9u8, 9, 9][..]));
    assert_eq!(
        le_words(&v.image_planes()[0]),
        y.map(|s| (s + 256) as u16).to_vec()
    );
    assert_eq!(le_words(&v.image_planes()[0])[2], 511);
    assert!(le_words(&v.image_planes()[1]).iter().all(|&w| w == 256));
}

#[test]
fn hostile_boundary_depths_still_decode_with_faithful_records() {
    let range = SignalRange::Custom {
        luma_offset: 0,
        luma_excursion: 1,
        color_diff_offset: 1,
        color_diff_excursion: 1,
    };
    let y = [0i64, 1, -1, 2];
    let c = [0i64; 4];
    let v = decode_frame(range, &y, &c, &c);
    assert_eq!(v.significant_bits(), Some(&[1u8, 1, 1][..]));
    assert!(v.image_planes()[0].data.iter().all(|&b| b <= 1));

    let range = SignalRange::Custom {
        luma_offset: 2048,
        luma_excursion: 4095,
        color_diff_offset: 0,
        color_diff_excursion: 1,
    };
    let v = decode_frame(range, &y, &c, &c);
    assert_eq!(v.significant_bits(), Some(&[12u8, 1, 1][..]));
    assert!(le_words(&v.image_planes()[1]).iter().all(|&w| w <= 1));
}

#[test]
fn uniform_and_promoted_streams_attach_no_record() {
    let y = [100i64, -100, 0, 511];
    let c = [0i64; 4];
    let v = decode_frame(SignalRange::Preset(3), &y, &c, &c);
    assert_eq!(v.planes.len(), 3);
    assert_eq!(v.significant_bits(), None);

    let range = SignalRange::Custom {
        luma_offset: 0,
        luma_excursion: 65535,
        color_diff_offset: 2048,
        color_diff_excursion: 4095,
    };
    let yd = [-32768i64, 32767, 5, -5];
    let cd = [100i64, -100, 2047, -2048];
    let v = decode_frame(range, &yd, &cd, &cd);
    assert_eq!(v.planes.len(), 3);
    assert_eq!(v.significant_bits(), None);
    assert_eq!(
        le_words(&v.planes[0]),
        yd.map(|s| (s + 32768) as u16).to_vec()
    );
    assert_eq!(
        le_words(&v.planes[1]),
        cd.map(|s| ((s + 2048) as u16) << 4).to_vec()
    );
}

#[test]
fn record_presence_switches_across_concatenated_sequences() {
    let p = PicParams::hq_depth0();
    let mixed = SignalRange::Custom {
        luma_offset: 256,
        luma_excursion: 4095,
        color_diff_offset: 512,
        color_diff_excursion: 1023,
    };
    let y = [1i64, -1, 2, -2];
    let c = [0i64; 4];
    let mut stream = build_units(&[
        (
            0x00,
            sequence_header_body_full(2, 2, p.major_version, 0, mixed),
        ),
        (
            0xE8,
            picture_body(&p, 1, &[hq_slice_bytes(p.qindex, &y, &c, &c)]),
        ),
    ]);
    stream.extend_from_slice(&build_units(&[
        (0x00, sequence_header_body(2, 2, p.major_version)),
        (
            0xE8,
            picture_body(&p, 2, &[hq_slice_bytes(p.qindex, &y, &c, &c)]),
        ),
    ]));

    let mut dec = Decoder::new(&[]);
    dec.send_packet(&packet(stream, 0)).unwrap();
    let first = dec.receive_frame().expect("first frame");
    assert_eq!(first.significant_bits(), Some(&[12u8, 10, 10][..]));
    assert_eq!(first.image_planes().len(), 3);
    let second = dec.receive_frame().expect("second frame");
    assert_eq!(second.significant_bits(), None);
    assert_eq!(second.planes.len(), 3);
    assert_eq!(second.planes[0].stride, 2);
}

#[test]
fn fragmented_mixed_depth_picture_carries_the_record_once_complete() {
    let p = PicParams {
        major_version: 3,
        slices_x: 2,
        slices_y: 2,
        ..PicParams::hq_depth0()
    };
    let c = [0i64; 4];
    let slices: Vec<Vec<u8>> = (0..4)
        .map(|i| hq_slice_bytes(p.qindex, &[i as i64; 4], &c, &c))
        .collect();
    let mixed = SignalRange::Custom {
        luma_offset: 256,
        luma_excursion: 4095,
        color_diff_offset: 512,
        color_diff_excursion: 1023,
    };
    let unit = |code: u8, body: Vec<u8>| -> Vec<u8> {
        let mut out = Vec::new();
        parse_info(&mut out, code, (13 + body.len()) as u32, 0);
        out.extend_from_slice(&body);
        out
    };
    let mut dec = Decoder::new(&[]);
    let seq = sequence_header_body_full(4, 4, p.major_version, 0, mixed);
    dec.send_packet(&packet(unit(0x00, seq), 1)).unwrap();
    dec.send_packet(&packet(unit(0xEC, fragment_setup_body(&p, 9)), 2))
        .unwrap();
    dec.send_packet(&packet(
        unit(0xEC, fragment_data_body(9, 0, 0, &slices[0..2])),
        3,
    ))
    .unwrap();
    assert!(matches!(dec.receive_frame(), Err(PacketErrorKind::NeedMore)));
    dec.send_packet(&packet(
        unit(0xEC, fragment_data_body(9, 0, 1, &slices[2..4])),
        4,
    ))
    .unwrap();
    let v = dec.receive_frame().expect("frame");
    assert_eq!(v.significant_bits(), Some(&[12u8, 10, 10][..]));
    assert_eq!(v.image_planes().len(), 3);
    assert_eq!(v.image_planes()[0].stride, 8);
    assert!(matches!(dec.receive_frame(), Err(PacketErrorKind::NeedMore)));
}

#[test]
fn preset7_422_subsampling_maps_to_yuv422p16() {
    let p = PicParams::hq_depth0();
    let seq = sequence_header_body_full(2, 2, p.major_version, 1, SignalRange::Preset(7));
    let y = [10i64, -10, 20, -20];
    let c1 = [300i64, -300];
    let c2 = [1i64, -1];
    let pic = picture_body(&p, 1, &[hq_slice_bytes(p.qindex, &y, &c1, &c2)]);
    let stream = build_units(&[(0x00, seq), (0xE8, pic)]);
    let mut dec = Decoder::new(&[]);
    dec.send_packet(&packet(stream, 0)).unwrap();
    let v = dec.receive_frame().expect("frame");
    assert_eq!(v.planes[0].stride, 4);
    assert_eq!(v.planes[1].stride, 2);
    assert_eq!(v.planes[1].data.len(), 4);
    let words = |p: &oxideav_core::VideoPlane| -> Vec<u16> {
        p.data
            .chunks_exact(2)
            .map(|b| u16::from_le_bytes([b[0], b[1]]))
            .collect()
    };
    assert_eq!(words(&v.planes[1]), vec![300 + 32768, 32768 - 300]);
    assert_eq!(words(&v.planes[2]), vec![32769, 32767]);
}

#[test]
fn depth_switch_across_sequences_repacks_frames() {
    let p = PicParams::hq_depth0();
    let y8 = [10i64, -20, 30, -40];
    let y16 = [-30000i64, 30000, 0, 1];
    let c = [0i64; 4];
    let mut stream = build_units(&[
        (0x00, sequence_header_body(2, 2, p.major_version)),
        (
            0xE8,
            picture_body(&p, 1, &[hq_slice_bytes(p.qindex, &y8, &c, &c)]),
        ),
    ]);
    stream.extend_from_slice(&build_units(&[
        (
            0x00,
            sequence_header_body_full(2, 2, p.major_version, 0, SignalRange::Preset(8)),
        ),
        (
            0xE8,
            picture_body(&p, 2, &[hq_slice_bytes(p.qindex, &y16, &c, &c)]),
        ),
    ]));

    let mut dec = Decoder::new(&[]);
    dec.send_packet(&packet(stream, 0)).unwrap();

    let first = dec.receive_frame().expect("first frame");
    assert_eq!(first.planes[0].stride, 2);
    let expect8: Vec<u8> = y8.iter().map(|&v| (v + 128) as u8).collect();
    assert_eq!(first.planes[0].data, expect8);

    let second = dec.receive_frame().expect("second frame");
    assert_eq!(second.planes[0].stride, 4);
    let words: Vec<u16> = second.planes[0]
        .data
        .chunks_exact(2)
        .map(|b| u16::from_le_bytes([b[0], b[1]]))
        .collect();
    assert_eq!(words, y16.map(|v| (v + 32768) as u16).to_vec());
}

#[test]
fn extradata_16bit_sequence_header_primes_the_decoder() {
    let p = PicParams::hq_depth0();
    let seq = sequence_header_body_full(2, 2, p.major_version, 0, SignalRange::Preset(7));
    let mut extradata = Vec::new();
    parse_info(&mut extradata, 0x00, (13 + seq.len()) as u32, 0);
    extradata.extend_from_slice(&seq);

    let mut dec = Decoder::new(&extradata);

    let y = [4096i64, -4096, 0, 27392];
    let c = [0i64; 4];
    let pic = picture_body(&p, 1, &[hq_slice_bytes(p.qindex, &y, &c, &c)]);
    let mut pkt = Vec::new();
    parse_info(&mut pkt, 0xE8, (13 + pic.len()) as u32, 0);
    pkt.extend_from_slice(&pic);
    dec.send_packet(&packet(pkt, 0)).unwrap();
    let v = dec.receive_frame().expect("frame");
    let words: Vec<u16> = v.planes[0]
        .data
        .chunks_exact(2)
        .map(|b| u16::from_le_bytes([b[0], b[1]]))
        .collect();
    assert_eq!(words, y.map(|v| (v + 32768) as u16).to_vec());
}

#[test]
fn extradata_sequence_header_primes_the_decoder() {
    let p = PicParams::hq_depth0();
    let y = [1i64, 2, 3, 4];
    let c = [0i64; 4];
    let seq = sequence_header_body(2, 2, p.major_version);
    let mut extradata = Vec::new();
    parse_info(&mut extradata, 0x00, (13 + seq.len()) as u32, 0);
    extradata.extend_from_slice(&seq);

    let mut dec = Decoder::new(&extradata);

    let pic = picture_body(&p, 1, &[hq_slice_bytes(p.qindex, &y, &c, &c)]);
    let mut pkt = Vec::new();
    parse_info(&mut pkt, 0xE8, (13 + pic.len()) as u32, 0);
    pkt.extend_from_slice(&pic);
    dec.send_packet(&packet(pkt, 0)).unwrap();
    let v = dec.receive_frame().expect("frame");
    assert_eq!(v.planes[0].data, vec![129, 130, 131, 132]);
}

#[test]
fn low_delay_mixed_depth_picture_carries_the_record() {
    let p = PicParams {
        slices_x: 2,
        slices_y: 1,
        low_delay: true,
        slice_bytes_numerator: 16,
        slice_bytes_denominator: 1,
        ..PicParams::hq_depth0()
    };
    let range = SignalRange::Custom {
        luma_offset: 256,
        luma_excursion: 3504,
        color_diff_offset: 512,
        color_diff_excursion: 896,
    };
    let c = [5i64, -5, 7, -7];
    let left = [300i64, 150, -100, 20];
    let right = [1200i64, -1300, 3, -3];
    let slices = vec![
        ld_slice_bytes(p.qindex, p.ld_slice_bytes_len(0), &left, &c, &c),
        ld_slice_bytes(p.qindex, p.ld_slice_bytes_len(1), &right, &c, &c),
    ];
    let seq = sequence_header_body_full(4, 2, p.major_version, 0, range);
    let stream = build_units(&[(0x00, seq), (0xC8, picture_body(&p, 5, &slices))]);

    let pics = oxideav_vc2::decode_sequence(&stream).expect("standalone decode");
    assert_eq!(pics[0].luma_depth, 12);
    assert_eq!(pics[0].color_diff_depth, 10);

    let mut dec = Decoder::new(&[]);
    dec.send_packet(&packet(stream, 0)).unwrap();
    let v = dec.receive_frame().expect("frame");
    assert_eq!(v.significant_bits(), Some(&[12u8, 10, 10][..]));
    assert_eq!(v.image_planes().len(), 3);
    for (plane, samples) in v
        .image_planes()
        .iter()
        .zip([&pics[0].y, &pics[0].c1, &pics[0].c2])
    {
        assert_eq!(le_words(plane), *samples);
    }
}

#[test]
fn corrupted_mixed_depth_streams_yield_well_formed_frames_or_errors() {
    let p = PicParams::hq_depth0();
    let range = SignalRange::Custom {
        luma_offset: 256,
        luma_excursion: 3504,
        color_diff_offset: 512,
        color_diff_excursion: 896,
    };
    let seq = sequence_header_body_full(2, 2, p.major_version, 0, range);
    let y = [100i64, -100, 1200, -256];
    let c = [200i64, -200, 1, -1];
    let pic = picture_body(&p, 7, &[hq_slice_bytes(p.qindex, &y, &c, &c)]);
    let stream = build_units(&[(0x00, seq), (0xE8, pic)]);

    for byte in 0..stream.len() {
        for bit in 0..8u8 {
            let mut corrupt = stream.clone();
            corrupt[byte] ^= 1 << bit;
            let mut dec = Decoder::new(&[]);
            if dec.send_packet(&packet(corrupt, 0)).is_err() {
                continue;
            }
            while let Ok(v) = dec.receive_frame() {
                assert_eq!(
                    v.image_planes().len(),
                    3,
                    "byte {byte} bit {bit}: wrong image-plane count"
                );
                if let Some(bits) = v.significant_bits() {
                    assert_eq!(bits.len(), 3, "byte {byte} bit {bit}: record length");
                    assert!(
                        bits.iter().all(|&b| (1..=16).contains(&b)),
                        "byte {byte} bit {bit}: out-of-contract record {bits:?}"
                    );
                }
            }
        }
    }
}
