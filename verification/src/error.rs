//! The error type shared by the parsers and the decoder.
use crate::text;
use vstd::prelude::*;

verus! {

/// Errors surfaced while parsing or decoding a VC-2 stream.
#[derive(Debug, Clone, PartialEq, Eq)]
pub enum Error {
    /// The stream ended before a structure was fully read.
    UnexpectedEof,
    /// A parse-info prefix did not equal `0x42 0x42 0x43 0x44` ("BBCD").
    BadParseInfoPrefix([u8; 4]),
    /// A parse code outside the defined set was encountered.
    UnknownParseCode(u8),
    /// `wavelet_index` or `wavelet_index_ho` outside 0..=6.
    UnsupportedWaveletIndex(u64),
    /// A default quantization matrix is required but none is defined for the
    /// combination of filters and depths, and no custom matrix was signalled.
    MissingQuantMatrix,
    /// No sequence header was parsed before a picture data unit.
    MissingSequenceHeader,
    /// A structural value violated a constraint (e.g. zero slices).
    InvalidValue(&'static str),
    /// A feature that is recognised but not implemented.
    Unsupported(&'static str),
}

/// Result alias of the crate.
pub type Result<T> = core::result::Result<T, Error>;

/// The text that describes an error.
pub open spec fn error_text(e: Error) -> Seq<char> {
    match e {
        Error::UnexpectedEof => "unexpected end of VC-2 stream"@,
        Error::BadParseInfoPrefix(p) => "bad parse info prefix ["@ + text::hex_byte(p@[0], false) + ", "@
            + text::hex_byte(p@[1], false) + ", "@ + text::hex_byte(p@[2], false) + ", "@ + text::hex_byte(
            p@[3],
            false,
        ) + "] (expected BBCD)"@,
        Error::UnknownParseCode(c) => "unknown VC-2 parse code 0x"@ + text::hex_byte(c, false),
        Error::UnsupportedWaveletIndex(i) => "unsupported wavelet index "@ + text::decimal(i as nat)
            + " (valid 0..=6)"@,
        Error::MissingQuantMatrix =>
            "default quantization matrix undefined; custom matrix required"@,
        Error::MissingSequenceHeader => "picture data unit before any sequence header"@,
        Error::InvalidValue(m) => "invalid VC-2 value: "@ + m@,
        Error::Unsupported(m) => "unsupported VC-2 feature: "@ + m@,
    }
}

impl Error {
    /// The message that describes this error.
    pub fn message(&self) -> (s: String)
        ensures
            s@ == error_text(*self),
    {
        let mut s = String::new();
        match self {
            Error::UnexpectedEof => s.append("unexpected end of VC-2 stream"),
            Error::BadParseInfoPrefix(p) => {
                s.append("bad parse info prefix [");
                text::push_hex_byte(&mut s, p[0], false);
                s.append(", ");
                text::push_hex_byte(&mut s, p[1], false);
                s.append(", ");
                text::push_hex_byte(&mut s, p[2], false);
                s.append(", ");
                text::push_hex_byte(&mut s, p[3], false);
                s.append("] (expected BBCD)");
            },
            Error::UnknownParseCode(c) => {
                s.append("unknown VC-2 parse code 0x");
                text::push_hex_byte(&mut s, *c, false);
            },
            Error::UnsupportedWaveletIndex(i) => {
                s.append("unsupported wavelet index ");
                text::push_decimal(&mut s, *i);
                s.append(" (valid 0..=6)");
            },
            Error::MissingQuantMatrix => s.append(
                "default quantization matrix undefined; custom matrix required",
            ),
            Error::MissingSequenceHeader => s.append(
                "picture data unit before any sequence header",
            ),
            Error::InvalidValue(m) => {
                s.append("invalid VC-2 value: ");
                s.append(m);
            },
            Error::Unsupported(m) => {
                s.append("unsupported VC-2 feature: ");
                s.append(m);
            },
        }
        assert(s@ =~= error_text(*self));
        s
    }
}

} // verus!
