//! Bit-level reads.
use oxideav_vc2::bitio::BitReader;

#[test]
fn nbits_msb_first() {
    let mut r = BitReader::new(&[0xB2]);
    assert_eq!(r.read_nbits(4), 0b1011);
    assert_eq!(r.read_nbits(4), 0b0010);
}

#[test]
fn uint_table_a1() {
    let cases: &[(&[u32], u64)] = &[
        (&[1], 0),
        (&[0, 0, 1], 1),
        (&[0, 1, 1], 2),
        (&[0, 0, 0, 0, 1], 3),
        (&[0, 0, 0, 1, 1], 4),
        (&[0, 1, 0, 0, 1], 5),
        (&[0, 1, 0, 1, 1], 6),
        (&[0, 0, 0, 0, 0, 0, 1], 7),
        (&[0, 0, 0, 0, 0, 1, 1], 8),
        (&[0, 0, 0, 1, 0, 0, 1], 9),
    ];
    for (bits, expected) in cases {
        let bytes = pack_bits(bits);
        let mut r = BitReader::new(&bytes);
        assert_eq!(r.read_uint(), *expected, "bits {bits:?}");
    }
}

#[test]
fn sint_table_a2() {
    let cases: &[(&[u32], i64)] = &[
        (&[0, 0, 0, 1, 1, 1], -4),
        (&[0, 0, 0, 0, 1, 1], -3),
        (&[0, 1, 1, 1], -2),
        (&[0, 0, 1, 1], -1),
        (&[1], 0),
        (&[0, 0, 1, 0], 1),
        (&[0, 1, 1, 0], 2),
        (&[0, 0, 0, 0, 1, 0], 3),
        (&[0, 0, 0, 1, 1, 0], 4),
    ];
    for (bits, expected) in cases {
        let bytes = pack_bits(bits);
        let mut r = BitReader::new(&bytes);
        assert_eq!(r.read_sint(), *expected, "bits {bits:?}");
    }
}

#[test]
fn read_uint_terminates_at_eof() {
    let mut r = BitReader::new(&[0x00, 0x00]);
    assert_eq!(r.read_uint(), u64::MAX);
    assert!(r.overrun());
    let mut r = BitReader::new(&[0x00]);
    r.set_bits_left(u64::MAX);
    assert_eq!(r.read_uintb(), u64::MAX);
    assert!(r.overrun());
}

#[test]
fn read_uint_saturates_absurd_in_band_prefix() {
    let mut data = vec![0u8; 40];
    data.push(0x80);
    let mut r = BitReader::new(&data);
    assert_eq!(r.read_uint(), u64::MAX - 1);
    assert!(!r.overrun());
}

#[test]
fn exact_final_byte_is_not_overrun() {
    let mut r = BitReader::new(&[0xAB]);
    assert_eq!(r.read_uint_lit(1), 0xAB);
    assert!(!r.overrun());
    assert!(r.is_end_of_stream());
    r.read_bit();
    assert!(r.overrun());
}

#[test]
fn empty_input_overruns_immediately() {
    let mut r = BitReader::new(&[]);
    assert!(r.is_end_of_stream());
    r.read_bit();
    assert!(r.overrun());
}

#[test]
fn skip_bytes_errors_past_end() {
    let mut r = BitReader::new(&[1, 2, 3]);
    assert!(r.skip_bytes(3).is_ok());
    assert!(!r.overrun());
    assert!(r.skip_bytes(1).is_err());
}

#[test]
fn flush_inputb_stops_at_eof() {
    let mut r = BitReader::new(&[0xFF]);
    r.set_bits_left(u64::MAX);
    r.flush_inputb();
    assert!(r.overrun());
}

#[test]
fn bounded_block_returns_default_one() {
    let mut r = BitReader::new(&[0x00]);
    r.set_bits_left(0);
    assert_eq!(r.read_uintb(), 0);
    assert_eq!(r.read_sintb(), 0);
}

fn pack_bits(bits: &[u32]) -> Vec<u8> {
    let mut out = Vec::new();
    let mut cur = 0u8;
    let mut n = 0u32;
    for &b in bits {
        cur = (cur << 1) | (b as u8 & 1);
        n += 1;
        if n == 8 {
            out.push(cur);
            cur = 0;
            n = 0;
        }
    }
    if n > 0 {
        cur <<= 8 - n;
        out.push(cur);
    }
    out
}

#[test]
fn an_unread_byte_is_not_the_end() {
    let mut r = BitReader::new(&[0xAB]);
    assert!(!r.is_end_of_stream());
    r.read_nbits(7);
    assert!(!r.is_end_of_stream());
    r.read_bit();
    assert!(r.is_end_of_stream());
    assert!(!r.overrun());

    let mut r = BitReader::new(&[0xAB]);
    r.read_bit();
    r.byte_align();
    assert!(r.is_end_of_stream());
}
