//! The texts of errors and violations.
#![allow(dead_code)]

use oxideav_vc2::conformance::Violation;
use oxideav_vc2::surface::{PacketError, PacketErrorKind};
use oxideav_vc2::text::{push_decimal, push_hex_byte, push_signed_decimal};
use oxideav_vc2::Error;

#[test]
fn numbers_are_rendered_without_leading_zeros() {
    let mut s = String::new();
    push_decimal(&mut s, 0);
    s.push(' ');
    push_decimal(&mut s, u64::MAX);
    s.push(' ');
    push_signed_decimal(&mut s, i64::MIN);
    s.push(' ');
    push_signed_decimal(&mut s, 7);
    s.push(' ');
    push_hex_byte(&mut s, 0x0a, false);
    push_hex_byte(&mut s, 0xef, true);
    assert_eq!(s, "0 18446744073709551615 -9223372036854775808 7 0aEF");
}

#[test]
fn error_messages() {
    let cases = [
        (Error::UnexpectedEof, "unexpected end of VC-2 stream"),
        (
            Error::BadParseInfoPrefix([0x42, 0x00, 0x0d, 0xff]),
            "bad parse info prefix [42, 00, 0d, ff] (expected BBCD)",
        ),
        (Error::UnknownParseCode(0x0b), "unknown VC-2 parse code 0x0b"),
        (Error::UnsupportedWaveletIndex(7), "unsupported wavelet index 7 (valid 0..=6)"),
        (
            Error::MissingQuantMatrix,
            "default quantization matrix undefined; custom matrix required",
        ),
        (Error::MissingSequenceHeader, "picture data unit before any sequence header"),
        (Error::InvalidValue("zero frame dimensions"), "invalid VC-2 value: zero frame dimensions"),
        (Error::Unsupported("x"), "unsupported VC-2 feature: x"),
    ];
    for (e, text) in cases {
        assert_eq!(e.message(), text);
    }
}

#[test]
fn violation_messages() {
    let cases = [
        (
            Violation::ReservedProfile { profile: 5, major_version: 3 },
            "profile 5 is not defined by this version (Annex C.2.1 defines 0 = low delay and 3 = high quality; 1 and 2 are earlier-version profiles, not permitted at major version 3)",
        ),
        (
            Violation::ProfileParseCode { profile: 0, parse_code: 0xe8 },
            "parse code 0xE8 is not permitted in a profile-0 sequence (ST 2042-1 Tables C.1/C.2)",
        ),
        (
            Violation::ReservedLevel { level: 8 },
            "generalized level 8 is reserved (ST 2042-2 clause 4)",
        ),
        (
            Violation::LevelBaseFormat { level: 3, base_video_format: 7 },
            "base video format 7 is outside level 3's coverage (ST 2042-2 clause 5.2.2)",
        ),
        (
            Violation::CustomFlagForbidden { level: 3, flag: "custom_clean_area_flag" },
            "custom_clean_area_flag must be False for level 3 (ST 2042-2 clause 5.3)",
        ),
        (
            Violation::DimensionsOutsideFormat7Envelope { width: 704, height: 480 },
            "base-format-7 dimension override 704x480 is outside the permitted 720 x 480..=486 envelope (ST 2042-2 clause 5.3)",
        ),
        (
            Violation::ScanFormatOverrideOutsideCarveOut { base_video_format: 13 },
            "scan-format override on base format 13 is not the progressive relabelling permitted for formats 7/8/11/12/22 (ST 2042-2 clause 5.3)",
        ),
        (
            Violation::FrameRateOverrideOutsideLevel4Exception { level: 5 },
            "frame-rate override at level 5 is not the Level 4 exception (base format 15 at 48 fps; ST 2042-2 clauses 5.2.2/5.3)",
        ),
        (
            Violation::PictureCodingModeMismatch { source_sampling: 1, picture_coding_mode: 0 },
            "picture_coding_mode 0 does not correspond to source_sampling 1 (ST 2042-2 clause 5.3)",
        ),
        (
            Violation::WaveletIndexAboveLevelBound { wavelet_index: 5 },
            "wavelet_index 5 exceeds the level bound of 4 (ST 2042-2 clause 5.4)",
        ),
        (
            Violation::TransformDepthAboveLevelBound { dwt_depth: 6 },
            "dwt_depth 6 exceeds the level bound of 4 (ST 2042-2 clause 5.4)",
        ),
        (
            Violation::AsymmetricTransformSignalled,
            "asymmetric-transform flags must be False in major-version-3 sequences at levels 1..=7 (ST 2042-2 clause 5.4)",
        ),
        (
            Violation::UnevenDcCoefficientsPerSlice { slices_x: 7, slices_y: 27 },
            "slices_x/slices_y 7x27 give unequal DC-coefficient counts per slice (ST 2042-2 clause 5.4)",
        ),
        (
            Violation::QuantMatrixValueOutOfRange { value: -3 },
            "quantization-matrix value -3 is outside 0..=127 (ST 2042-2 clause 5.4)",
        ),
        (
            Violation::MixedPictureAndFragmentUnits { level: 2 },
            "level-2 sequence contains both picture and picture-fragment data units (ST 2042-2 clause 5.5)",
        ),
        (
            Violation::PictureNumberDiscontinuity { expected: 4, found: 9 },
            "picture number 9 where 4 was expected \u{2014} numbers increment by one within a sequence, wrapping at 2^32 - 1 (ST 2042-1 clause 12.2)",
        ),
        (
            Violation::FirstFieldOddPictureNumber { picture_number: 3 },
            "field-coded sequence opens on odd picture number 3 \u{2014} the earliest field of each frame has an even picture number (ST 2042-1 clauses 11.5/12.2)",
        ),
    ];
    for (v, text) in cases {
        assert_eq!(v.message(), text);
    }
}

#[test]
fn packet_error_messages_and_kinds() {
    let cases = [
        (
            PacketError::AfterFlush,
            PacketErrorKind::InvalidData,
            "vc2: send_packet after flush; reset first",
        ),
        (
            PacketError::Stream(Error::UnexpectedEof),
            PacketErrorKind::InvalidData,
            "unexpected end of VC-2 stream",
        ),
        (
            PacketError::Stream(Error::Unsupported("x")),
            PacketErrorKind::Unsupported,
            "unsupported VC-2 feature: x",
        ),
        (
            PacketError::ChromaGeometry {
                color_diff_width: 3,
                color_diff_height: 2,
                luma_width: 4,
                luma_height: 2,
            },
            PacketErrorKind::Unsupported,
            "vc2: no planar pixel format for 3x2 chroma on 4x2 luma",
        ),
        (
            PacketError::Depths { luma_depth: 17, color_diff_depth: 0 },
            PacketErrorKind::Unsupported,
            "vc2: no planar pixel format for luma/chroma bit depths 17/0",
        ),
        (
            PacketError::IncompletePicture,
            PacketErrorKind::InvalidData,
            "vc2: stream ended while a fragmented picture is incomplete",
        ),
        (PacketError::NeedMore, PacketErrorKind::NeedMore, "need more data"),
        (PacketError::Eof, PacketErrorKind::Eof, "end of stream"),
    ];
    for (e, kind, text) in cases {
        assert_eq!(e.kind(), kind);
        assert_eq!(e.message(), text);
    }
}
