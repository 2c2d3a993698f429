//! Data units.
use oxideav_vc2::bitio::BitReader;
use oxideav_vc2::sequence::{
    classify, fragment_header, parse_sequence, DataUnit, PARSE_INFO_PREFIX,
};
use oxideav_vc2::transform::PictureKind;
use oxideav_vc2::Error;

#[test]
fn classify_table4_codes() {
    assert_eq!(classify(0x00), DataUnit::SequenceHeader);
    assert_eq!(classify(0x10), DataUnit::EndOfSequence);
    assert_eq!(classify(0x20), DataUnit::AuxiliaryData);
    assert_eq!(classify(0x30), DataUnit::Padding);
    assert_eq!(classify(0xC8), DataUnit::Picture(PictureKind::LowDelay));
    assert_eq!(classify(0xE8), DataUnit::Picture(PictureKind::HighQuality));
    assert_eq!(classify(0xCC), DataUnit::Fragment(PictureKind::LowDelay));
    assert_eq!(classify(0xEC), DataUnit::Fragment(PictureKind::HighQuality));
}

#[test]
fn end_of_sequence_only_stream() {
    let mut buf = Vec::new();
    buf.extend_from_slice(&PARSE_INFO_PREFIX);
    buf.push(0x10);
    buf.extend_from_slice(&0u32.to_be_bytes());
    buf.extend_from_slice(&0u32.to_be_bytes());
    let pics = parse_sequence(&buf).unwrap();
    assert!(pics.is_empty());
}

#[test]
fn bad_prefix_rejected() {
    let buf = [0, 0, 0, 0, 0x10, 0, 0, 0, 0, 0, 0, 0, 0];
    assert!(matches!(
        parse_sequence(&buf),
        Err(Error::BadParseInfoPrefix(_))
    ));
}

#[test]
fn fragment_header_setup_omits_offsets() {
    let bytes = [0, 0, 0, 5, 0x01, 0x02, 0, 0];
    let mut r = BitReader::new(&bytes);
    let fh = fragment_header(&mut r).unwrap();
    assert_eq!(fh.picture_number, 5);
    assert_eq!(fh.fragment_data_length, 0x0102);
    assert_eq!(fh.fragment_slice_count, 0);
    assert_eq!(fh.fragment_x_offset, 0);
    assert_eq!(fh.fragment_y_offset, 0);
    assert!(r.is_end_of_stream());
}

#[test]
fn fragment_header_data_reads_offsets() {
    let bytes = [0, 0, 0, 7, 0, 0, 0, 3, 0, 2, 0, 1];
    let mut r = BitReader::new(&bytes);
    let fh = fragment_header(&mut r).unwrap();
    assert_eq!(fh.picture_number, 7);
    assert_eq!(fh.fragment_slice_count, 3);
    assert_eq!(fh.fragment_x_offset, 2);
    assert_eq!(fh.fragment_y_offset, 1);
    assert!(r.is_end_of_stream());
}
