//! Whole streams: truncation, chunks, concatenation, errors.
#![allow(dead_code)]

use oxideav_vc2::sequence::parse_sequence;
use oxideav_vc2::{decode_sequence, DecodedPicture, Error, SequenceDecoder, Vc2Decoder};

#[derive(Default)]
struct BitWriter {
    bytes: Vec<u8>,
    cur: u8,
    nbits: u8,
}

impl BitWriter {
    fn put_bit(&mut self, bit: u32) {
        self.cur = (self.cur << 1) | (bit as u8 & 1);
        self.nbits += 1;
        if self.nbits == 8 {
            self.bytes.push(self.cur);
            self.cur = 0;
            self.nbits = 0;
        }
    }

    fn put_bool(&mut self, b: bool) {
        self.put_bit(b as u32);
    }

    fn put_nbits(&mut self, val: u64, n: u32) {
        for i in (0..n).rev() {
            self.put_bit(((val >> i) & 1) as u32);
        }
    }

    fn byte_align(&mut self) {
        while self.nbits != 0 {
            self.put_bit(0);
        }
    }

    fn bit_len(&self) -> u64 {
        self.bytes.len() as u64 * 8 + self.nbits as u64
    }

    fn append(&mut self, other: &BitWriter) {
        for &b in &other.bytes {
            self.put_nbits(b as u64, 8);
        }
        for i in (0..other.nbits).rev() {
            self.put_bit(((other.cur >> i) & 1) as u32);
        }
    }

    fn put_uint(&mut self, value: u64) {
        let n = value + 1;
        let bits = 64 - n.leading_zeros();
        for i in (0..bits - 1).rev() {
            self.put_bit(0);
            self.put_bit(((n >> i) & 1) as u32);
        }
        self.put_bit(1);
    }

    fn put_sint(&mut self, value: i64) {
        self.put_uint(value.unsigned_abs());
        if value != 0 {
            self.put_bit((value < 0) as u32);
        }
    }

    fn into_bytes(mut self) -> Vec<u8> {
        self.byte_align();
        self.bytes
    }
}

fn parse_info(out: &mut Vec<u8>, parse_code: u8, next_offset: u32, prev_offset: u32) {
    out.extend_from_slice(&[0x42, 0x42, 0x43, 0x44]);
    out.push(parse_code);
    out.extend_from_slice(&next_offset.to_be_bytes());
    out.extend_from_slice(&prev_offset.to_be_bytes());
}

fn build_units(units: &[(u8, Vec<u8>)]) -> Vec<u8> {
    let mut out = Vec::new();
    let mut prev_offset = 0u32;
    for (code, body) in units {
        let next_offset = (13 + body.len()) as u32;
        parse_info(&mut out, *code, next_offset, prev_offset);
        out.extend_from_slice(body);
        prev_offset = next_offset;
    }
    parse_info(&mut out, 0x10, 0, prev_offset);
    out
}

fn sequence_header_body(width: u64, height: u64, major_version: u64) -> Vec<u8> {
    let mut w = BitWriter::default();
    w.put_uint(major_version);
    w.put_uint(0);
    w.put_uint(0);
    w.put_uint(0);
    w.put_uint(0);
    w.put_bool(true);
    w.put_uint(width);
    w.put_uint(height);
    w.put_bool(true);
    w.put_uint(0);
    w.put_bool(false);
    w.put_bool(false);
    w.put_bool(false);
    w.put_bool(false);
    w.put_bool(true);
    w.put_uint(1);
    w.put_bool(false);
    w.put_uint(0);
    w.into_bytes()
}

#[derive(Clone, Copy)]
struct PicParams {
    major_version: u64,
    wavelet_index: u64,
    dwt_depth: u64,
    ho: Option<(u64, u64)>,
    qindex: u64,
    slices_x: u64,
    slices_y: u64,
    low_delay: bool,
    slice_bytes_numerator: u64,
    slice_bytes_denominator: u64,
}

impl PicParams {
    fn hq_depth0() -> Self {
        PicParams {
            major_version: 2,
            wavelet_index: 3,
            dwt_depth: 0,
            ho: None,
            qindex: 0,
            slices_x: 1,
            slices_y: 1,
            low_delay: false,
            slice_bytes_numerator: 0,
            slice_bytes_denominator: 1,
        }
    }

    fn ld_slice_bytes_len(&self, slice_index: u64) -> u64 {
        let a = ((slice_index + 1) * self.slice_bytes_numerator) / self.slice_bytes_denominator;
        let b = (slice_index * self.slice_bytes_numerator) / self.slice_bytes_denominator;
        a - b
    }
}

fn write_transform_parameters(w: &mut BitWriter, p: &PicParams) {
    w.put_uint(p.wavelet_index);
    w.put_uint(p.dwt_depth);
    if p.major_version >= 3 {
        match p.ho {
            Some((wavelet_index_ho, dwt_depth_ho)) => {
                w.put_bool(true);
                w.put_uint(wavelet_index_ho);
                w.put_bool(true);
                w.put_uint(dwt_depth_ho);
            }
            None => {
                w.put_bool(false);
                w.put_bool(false);
            }
        }
    } else {
        assert!(p.ho.is_none(), "asymmetric params need major_version >= 3");
    }
    w.put_uint(p.slices_x);
    w.put_uint(p.slices_y);
    if p.low_delay {
        w.put_uint(p.slice_bytes_numerator);
        w.put_uint(p.slice_bytes_denominator);
    } else {
        w.put_uint(0);
        w.put_uint(1);
    }
    w.put_bool(false);
}

fn hq_slice_bytes(qindex: u64, y: &[i64], c1: &[i64], c2: &[i64]) -> Vec<u8> {
    let mut w = BitWriter::default();
    w.put_nbits(qindex, 8);
    for comp in [y, c1, c2] {
        let mut cw = BitWriter::default();
        for &v in comp {
            cw.put_sint(v);
        }
        let payload = cw.into_bytes();
        assert!(payload.len() <= 255, "test payload fits a 1-byte length");
        w.put_nbits(payload.len() as u64, 8);
        for b in payload {
            w.put_nbits(b as u64, 8);
        }
    }
    w.into_bytes()
}

fn ld_slice_bytes(qindex: u64, slice_len: u64, y: &[i64], c1: &[i64], c2: &[i64]) -> Vec<u8> {
    assert_eq!(c1.len(), c2.len());
    let total_bits = 8 * slice_len;
    let length_bits = oxideav_vc2::params::intlog2(total_bits - 7);

    let mut yw = BitWriter::default();
    for &v in y {
        yw.put_sint(v);
    }
    let mut cw = BitWriter::default();
    for (&a, &b) in c1.iter().zip(c2) {
        cw.put_sint(a);
        cw.put_sint(b);
    }

    let mut w = BitWriter::default();
    w.put_nbits(qindex, 7);
    w.put_nbits(yw.bit_len(), length_bits);
    w.append(&yw);
    w.append(&cw);
    assert!(
        w.bit_len() <= total_bits,
        "coefficients overflow the fixed LD slice size"
    );
    while w.bit_len() < total_bits {
        w.put_bit(0);
    }
    w.into_bytes()
}

fn picture_body(p: &PicParams, picture_number: u32, slices: &[Vec<u8>]) -> Vec<u8> {
    let mut w = BitWriter::default();
    w.put_nbits(picture_number as u64, 32);
    w.byte_align();
    write_transform_parameters(&mut w, p);
    w.byte_align();
    let mut out = w.into_bytes();
    for s in slices {
        out.extend_from_slice(s);
    }
    out
}

fn fragment_setup_body(p: &PicParams, picture_number: u32) -> Vec<u8> {
    let mut w = BitWriter::default();
    w.put_nbits(picture_number as u64, 32);
    w.put_nbits(0, 16);
    w.put_nbits(0, 16);
    write_transform_parameters(&mut w, p);
    w.into_bytes()
}

fn fragment_data_body(
    picture_number: u32,
    x_offset: u16,
    y_offset: u16,
    slices: &[Vec<u8>],
) -> Vec<u8> {
    let mut w = BitWriter::default();
    w.put_nbits(picture_number as u64, 32);
    w.put_nbits(0, 16);
    w.put_nbits(slices.len() as u64, 16);
    w.put_nbits(x_offset as u64, 16);
    w.put_nbits(y_offset as u64, 16);
    let mut out = w.into_bytes();
    for s in slices {
        out.extend_from_slice(s);
    }
    out
}

#[derive(Clone, Copy)]
enum SignalRange {
    Preset(u64),
    Custom { luma_offset: u64, luma_excursion: u64, color_diff_offset: u64, color_diff_excursion: u64 },
}

fn put_signal_range(w: &mut BitWriter, range: SignalRange) {
    w.put_bool(true);
    match range {
        SignalRange::Preset(index) => w.put_uint(index),
        SignalRange::Custom {
            luma_offset,
            luma_excursion,
            color_diff_offset,
            color_diff_excursion,
        } => {
            w.put_uint(0);
            w.put_uint(luma_offset);
            w.put_uint(luma_excursion);
            w.put_uint(color_diff_offset);
            w.put_uint(color_diff_excursion);
        }
    }
}

fn sequence_header_body_full(
    width: u64,
    height: u64,
    major_version: u64,
    color_diff_index: u64,
    range: SignalRange,
) -> Vec<u8> {
    let mut w = BitWriter::default();
    w.put_uint(major_version);
    w.put_uint(0);
    w.put_uint(0);
    w.put_uint(0);
    w.put_uint(0);
    w.put_bool(true);
    w.put_uint(width);
    w.put_uint(height);
    w.put_bool(true);
    w.put_uint(color_diff_index);
    w.put_bool(false);
    w.put_bool(false);
    w.put_bool(false);
    w.put_bool(false);
    put_signal_range(&mut w, range);
    w.put_bool(false);
    w.put_uint(0);
    w.into_bytes()
}

fn unit(code: u8, body: &[u8]) -> Vec<u8> {
    let mut out = Vec::new();
    parse_info(&mut out, code, (13 + body.len()) as u32, 0);
    out.extend_from_slice(body);
    out
}

fn picture(number: u32, y: [i64; 4]) -> Vec<u8> {
    let p = PicParams::hq_depth0();
    let c = [0i64; 4];
    picture_body(&p, number, &[hq_slice_bytes(p.qindex, &y, &c, &c)])
}

fn numbers(pictures: &[DecodedPicture]) -> Vec<u32> {
    pictures.iter().map(|p| p.picture_number).collect()
}

fn two_pictures() -> Vec<u8> {
    build_units(&[
        (0x00, sequence_header_body(2, 2, 2)),
        (0xE8, picture(1, [1, 2, 3, 4])),
        (0xE8, picture(2, [5, 6, 7, 8])),
    ])
}

#[test]
fn truncated_sequences_end_unexpectedly() {
    let stream = two_pictures();
    assert_eq!(numbers(&decode_sequence(&stream).unwrap()), vec![1, 2]);
    for k in 0..stream.len() {
        assert_eq!(decode_sequence(&stream[..k]).unwrap_err(), Error::UnexpectedEof, "cut at {k}");
    }
}

#[test]
fn truncated_chunks_give_the_first_pictures() {
    let stream = two_pictures();
    for k in 0..=stream.len() {
        let mut dec = SequenceDecoder::new();
        match dec.push(&stream[..k]) {
            Ok(pictures) => {
                let got = numbers(&pictures);
                assert_eq!(got[..], [1, 2][..got.len()], "cut at {k}");
            }
            Err(e) => assert_eq!(e, Error::UnexpectedEof, "cut at {k}"),
        }
    }
}

#[test]
fn a_truncated_last_sequence_leaves_the_first() {
    let mut stream = two_pictures();
    let first = stream.len();
    stream.extend_from_slice(&two_pictures());
    assert_eq!(numbers(&decode_sequence(&stream).unwrap()), vec![1, 2, 1, 2]);
    assert_eq!(numbers(&decode_sequence(&stream[..first]).unwrap()), vec![1, 2]);
    assert_eq!(decode_sequence(&stream[..first + 13]).unwrap_err(), Error::UnexpectedEof);
}

#[test]
fn pictures_decode_independently() {
    let header = sequence_header_body(2, 2, 2);
    let (first, second) = (picture(1, [1, 2, 3, 4]), picture(2, [5, 6, 7, 8]));
    let decode = |bodies: &[&Vec<u8>]| {
        let mut units = vec![(0x00, header.clone())];
        units.extend(bodies.iter().map(|body| (0xE8, body.to_vec())));
        decode_sequence(&build_units(&units)).unwrap()
    };
    let alone = decode(&[&second]);
    for others in [decode(&[&first, &second]), decode(&[&second, &first])] {
        let again = others.iter().find(|p| p.picture_number == 2).unwrap();
        assert_eq!((&again.y, &again.c1, &again.c2), (&alone[0].y, &alone[0].c1, &alone[0].c2));
    }
}

#[test]
fn chunks_join() {
    let units = [
        unit(0x00, &sequence_header_body(2, 2, 2)),
        unit(0xE8, &picture(1, [1, 2, 3, 4])),
        unit(0x30, &[0xAA; 3]),
        unit(0xE8, &picture(2, [5, 6, 7, 8])),
        unit(0x10, &[]),
    ];
    let whole: Vec<u8> = units.concat();
    let mut at_once = SequenceDecoder::new();
    let expect = at_once.push(&whole).unwrap();
    assert!(!at_once.mid_sequence());
    for cut in 1..units.len() {
        let mut dec = SequenceDecoder::new();
        let mut pictures = dec.push(&units[..cut].concat()).unwrap();
        assert!(dec.mid_sequence());
        pictures.extend(dec.push(&units[cut..].concat()).unwrap());
        assert!(!dec.mid_sequence());
        assert_eq!(numbers(&pictures), numbers(&expect));
        for (a, b) in pictures.iter().zip(&expect) {
            assert_eq!((&a.y, &a.c1, &a.c2), (&b.y, &b.c1, &b.c2));
        }
    }
}

#[test]
fn packets_join() {
    let head = unit(0x00, &sequence_header_body(2, 2, 2));
    let first = unit(0xE8, &picture(1, [1, 2, 3, 4]));
    let second = unit(0xE8, &picture(2, [5, 6, 7, 8]));
    let mut together = Vc2Decoder::new(&[]).unwrap();
    together.send_packet(&[head.clone(), first.clone(), second.clone()].concat(), Some(9)).unwrap();
    let mut apart = Vc2Decoder::new(&head).unwrap();
    apart.send_packet(&first, Some(9)).unwrap();
    apart.send_packet(&[], Some(10)).unwrap();
    apart.send_packet(&second, Some(9)).unwrap();
    for _ in 0..2 {
        assert_eq!(together.receive_frame().unwrap(), apart.receive_frame().unwrap());
    }
    assert!(together.receive_frame().is_err());
    assert!(apart.receive_frame().is_err());
}

#[test]
fn flushed_decoders_take_no_packets_until_reset() {
    let stream = two_pictures();
    let mut dec = Vc2Decoder::new(&[]).unwrap();
    dec.send_packet(&stream, None).unwrap();
    dec.flush().unwrap();
    assert!(dec.send_packet(&stream, None).is_err());
    assert_eq!(dec.receive_frame().unwrap().pts, None);
    dec.reset();
    assert!(dec.receive_frame().is_err());
    dec.send_packet(&stream, Some(3)).unwrap();
    assert_eq!(dec.receive_frame().unwrap().pts, Some(3));
}

#[test]
fn extradata_of_other_shapes_are_ignored() {
    assert!(Vc2Decoder::new(&[1, 2, 3]).is_ok());
    assert!(Vc2Decoder::new(b"BBC").is_ok());
    assert_eq!(Vc2Decoder::new(b"BBCD").err(), Some(Error::UnexpectedEof));
}

#[test]
fn stray_bytes_behind_a_sequence_end_unexpectedly() {
    for stray in 1..13 {
        let mut stream = two_pictures();
        stream.extend_from_slice(&unit(0x00, &[])[..stray]);
        assert_eq!(decode_sequence(&stream).unwrap_err(), Error::UnexpectedEof, "{stray} bytes");
        let mut dec = SequenceDecoder::new();
        assert_eq!(dec.push(&stream).unwrap_err(), Error::UnexpectedEof, "{stray} bytes");
        assert!(Vc2Decoder::new(&[]).unwrap().send_packet(&stream, None).is_err());
    }
    let mut stream = two_pictures();
    stream.push(0xAB);
    assert_eq!(parse_sequence(&stream).unwrap_err(), Error::UnexpectedEof);
}

#[test]
fn streams_are_cut_between_sequences() {
    let one = two_pictures();
    let stream = [one.clone(), one.clone(), one.clone()].concat();
    for k in 0..=stream.len() {
        let res = decode_sequence(&stream[..k]);
        if k > 0 && k % one.len() == 0 {
            assert_eq!(numbers(&res.unwrap()), [1, 2].repeat(k / one.len()));
        } else {
            assert_eq!(res.unwrap_err(), Error::UnexpectedEof, "cut at {k}");
        }
    }
}

/// A picture of two by two slices: its parameters and its encoded slices.
fn four_slices(low_delay: bool) -> (PicParams, Vec<Vec<u8>>) {
    let p = PicParams {
        major_version: 3,
        slices_x: 2,
        slices_y: 2,
        low_delay,
        slice_bytes_numerator: 25,
        slice_bytes_denominator: 2,
        ..PicParams::hq_depth0()
    };
    let slices = (0..4)
        .map(|k| {
            let (y, c) = ([k, 1 - k, 2, 3 * k], [k, 0, -1, 1]);
            if low_delay {
                ld_slice_bytes(0, p.ld_slice_bytes_len(k as u64), &y, &c, &c)
            } else {
                hq_slice_bytes(0, &y, &c, &c)
            }
        })
        .collect();
    (p, slices)
}

#[test]
fn framings_decode_alike_whatever_stands_in_between() {
    for low_delay in [false, true] {
        let (p, slices) = four_slices(low_delay);
        let (whole_code, fragment_code) = if low_delay { (0xC8, 0xCC) } else { (0xE8, 0xEC) };
        let head = unit(0x00, &sequence_header_body(4, 4, 3));
        let end = unit(0x10, &[]);
        let between = [unit(0x20, &[0xAA; 5]), unit(0x30, &[0; 2]), head.clone()].concat();
        let whole = [
            head.clone(),
            between.clone(),
            unit(whole_code, &picture_body(&p, 9, &slices)),
            between.clone(),
            end.clone(),
        ]
        .concat();
        let expect = decode_sequence(&whole).unwrap();
        assert_eq!(numbers(&expect), vec![9]);
        for split in [vec![4], vec![1, 3], vec![2, 2], vec![1, 2, 1], vec![1, 1, 1, 1]] {
            let mut stream = [
                head.clone(),
                unit(fragment_code, &fragment_setup_body(&p, 9)),
            ]
            .concat();
            let mut from = 0;
            for count in split {
                stream.extend_from_slice(&between);
                let body = fragment_data_body(
                    9,
                    (from % 2) as u16,
                    (from / 2) as u16,
                    &slices[from..from + count],
                );
                stream.extend_from_slice(&unit(fragment_code, &body));
                from += count;
            }
            stream.extend_from_slice(&between);
            stream.extend_from_slice(&end);
            let got = decode_sequence(&stream).unwrap();
            assert_eq!(numbers(&got), vec![9]);
            assert_eq!(
                (&got[0].y, &got[0].c1, &got[0].c2),
                (&expect[0].y, &expect[0].c1, &expect[0].c2)
            );
        }
    }
}

#[test]
fn fragments_may_be_pushed_one_by_one() {
    let (p, slices) = four_slices(false);
    let units = [
        unit(0x00, &sequence_header_body(4, 4, 3)),
        unit(0xEC, &fragment_setup_body(&p, 5)),
        unit(0xEC, &fragment_data_body(5, 0, 0, &slices[..3])),
        unit(0xEC, &fragment_data_body(5, 1, 1, &slices[3..])),
        unit(0x10, &[]),
    ];
    let expect = SequenceDecoder::new().push(&units.concat()).unwrap();
    for cut in 1..units.len() {
        let mut dec = SequenceDecoder::new();
        let mut pictures = dec.push(&units[..cut].concat()).unwrap();
        assert_eq!(dec.has_incomplete_picture(), cut == 2 || cut == 3);
        pictures.extend(dec.push(&units[cut..].concat()).unwrap());
        assert!(!dec.has_incomplete_picture());
        assert_eq!(numbers(&pictures), vec![5]);
        assert_eq!(pictures[0].y, expect[0].y);
    }
}

#[test]
fn streams_may_not_end_inside_a_fragmented_picture() {
    let p = PicParams { major_version: 3, ..PicParams::hq_depth0() };
    let mut stream = unit(0x00, &sequence_header_body(2, 2, 3));
    stream.extend_from_slice(&unit(0xEC, &fragment_setup_body(&p, 7)));
    assert_eq!(
        decode_sequence(&stream).unwrap_err(),
        Error::InvalidValue("stream ended while a fragmented picture is incomplete")
    );
}

#[test]
fn refused_fragments_say_why() {
    let p = PicParams { major_version: 3, slices_x: 2, ..PicParams::hq_depth0() };
    let head = (0x00u8, sequence_header_body(4, 2, 3));
    let setup = (0xECu8, fragment_setup_body(&p, 7));
    let c = [0i64; 4];
    let s = hq_slice_bytes(0, &c, &c, &c);
    let cases: Vec<(Vec<(u8, Vec<u8>)>, &str)> = vec![
        (
            vec![(0xEC, fragment_data_body(7, 0, 0, &[s.clone()]))],
            "data fragment without a preceding setup fragment",
        ),
        (
            vec![setup.clone(), setup.clone()],
            "setup fragment while a fragmented picture is incomplete",
        ),
        (
            vec![setup.clone(), (0xE8, picture_body(&p, 8, &[s.clone(), s.clone()]))],
            "picture data unit while a fragmented picture is incomplete",
        ),
        (
            vec![setup.clone(), (0xCC, fragment_data_body(7, 0, 0, &[s.clone()]))],
            "data fragment parse code disagrees with its setup fragment",
        ),
        (
            vec![setup.clone(), (0xEC, fragment_data_body(8, 0, 0, &[s.clone()]))],
            "data fragment picture number disagrees with its setup fragment",
        ),
        (
            vec![setup.clone(), (0xEC, fragment_data_body(7, 1, 0, &[s.clone()]))],
            "data fragment slice offset out of raster order",
        ),
        (
            vec![setup.clone(), (0xEC, fragment_data_body(7, 0, 0, &[s.clone(), s.clone(), s.clone()]))],
            "data fragment carries more slices than the picture holds",
        ),
        (vec![setup.clone()], "end of sequence while a fragmented picture is incomplete"),
    ];
    for (units, text) in cases {
        let mut all = vec![head.clone()];
        all.extend(units);
        assert_eq!(decode_sequence(&build_units(&all)).unwrap_err(), Error::InvalidValue(text));
    }
}

#[test]
fn unknown_data_units_are_skipped_by_their_offset() {
    let stream = build_units(&[
        (0x00, sequence_header_body(2, 2, 2)),
        (0x08, vec![0x42; 30]),
        (0x27, vec![]),
        (0xE8, picture(5, [0, 0, 0, 0])),
    ]);
    assert_eq!(numbers(&decode_sequence(&stream).unwrap()), vec![5]);
}
