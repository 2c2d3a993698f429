//! Decoder for VC-2, an intra-frame wavelet video compression system. Each
//! picture is wavelet-transformed, the subbands are quantised and entropy-coded,
//! and every picture decodes independently.
//!
//! * [`bitio`]: bit and byte input, fixed-length literals and exp-Golomb codes;
//!   [`codes`] has the codes as bit strings, [`limits`] what becomes of those that
//!   are too large or cut off, and [`reading`] how reading depends on the data.
//! * [`params`]: sequence headers, base video formats and their overrides.
//! * [`transform`], [`subband`], [`slices`], [`prediction`], [`quant`],
//!   [`wavelet`]: transform parameters, slice unpacking, DC prediction, inverse
//!   quantization and the inverse wavelet transform; [`analysis`] has the forward
//!   transform, which synthesis takes back.
//! * [`picture`]: picture parsing and decoding.
//! * [`sequence`]: data units, picture fragments and the stream walker;
//!   [`streams`] has the laws of whole streams, [`framing`] those of the two ways
//!   to frame a picture.
//! * [`writing`], [`headers`], [`coding`], [`units`]: what an encoder writes, bit by
//!   bit, from slices and headers to pictures and whole streams, and that it decodes
//!   to what was written; [`surveys`] is the same for walks over headers alone.
//! * [`lifting`], [`reconstruction`], [`quantizing`], [`geometry`], [`presets`],
//!   [`frames`]: what filters, quantizers, sizes, tables and output planes mean.
//! * [`conformance`] and [`mxf`]: opt-in level checks, and the mapping into MXF;
//!   [`grading`] has the rules that the checks stand for.
//! * [`decoder`], [`surface`], [`probe`]: packets in, frames out, and how a
//!   container finds the decoder; [`packets`] has what comes out, and when.
//!
//! [`decode_sequence`] decodes a whole stream. For input in chunks there is
//! [`SequenceDecoder`], for packets [`Vc2Decoder`].
use vstd::prelude::*;

pub mod analysis;
pub mod bitio;
pub mod codes;
pub mod coding;
pub mod conformance;
pub mod decoder;
pub mod error;
pub mod frames;
pub mod framing;
pub mod geometry;
pub mod grading;
pub mod grid;
pub mod headers;
pub mod lifting;
pub mod limits;
pub mod mxf;
pub mod num;
pub mod packets;
pub mod params;
pub mod picture;
pub mod prediction;
pub mod presets;
pub mod probe;
pub mod quant;
pub mod quantizing;
pub mod reading;
pub mod reconstruction;
pub mod sequence;
pub mod slices;
pub mod streams;
pub mod subband;
pub mod surface;
pub mod surveys;
pub mod text;
pub mod transform;
pub mod units;
pub mod wavelet;
pub mod writing;

pub use decoder::{Vc2Decoder, CODEC_ID};
pub use error::{Error, Result};
pub use picture::DecodedPicture;
pub use sequence::{
    classify, DataUnit, FragmentHeader, ParseInfo, SequenceDecoder, PARSE_INFO_PREFIX,
};
pub use transform::PictureKind;

verus! {

/// Decodes a whole VC-2 stream into its pictures.
///
/// The stream begins with a parse-info header ("BBCD") and holds one or more
/// complete sequences, each ending with an end-of-sequence data unit. Fragmented
/// pictures are reassembled. The planes of the pictures hold clipped, unsigned
/// samples.
pub fn decode_sequence(data: &[u8]) -> (res: Result<Vec<DecodedPicture>>)
    ensures
        sequence::viewed_pictures(res) == sequence::spec_parse_sequence(data@),
{
    sequence::parse_sequence(data)
}

} // verus!
