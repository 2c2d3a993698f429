//! Sequence structure: parse-info headers, data-unit dispatch, reassembly of
//! fragmented pictures, and the stream walkers that yield decoded pictures.
//!
//! [`SequenceDecoder`] is the stateful walker: it keeps the current sequence
//! header and any partially assembled fragmented picture from one
//! [`SequenceDecoder::push`] to the next, so that a stream can be fed in chunks
//! of whole data units. [`parse_sequence`] takes a whole stream at once.
use crate::bitio::{BitReader, Input};
use crate::error::{Error, Result};
use crate::params;
use crate::params::SequenceHeader;
use crate::picture;
use crate::picture::{DecodedPicture, Parsed, ParsedPicture, Picture};
use crate::prediction;
use crate::reading;
use crate::slices;
use crate::subband;
use crate::subband::{Coefficients, TransformData};
use crate::transform;
use crate::transform::{PictureKind, Transform, TransformParameters};
use vstd::prelude::*;

verus! {

/// The parse-info prefix "BBCD".
pub const PARSE_INFO_PREFIX: [u8; 4] = [0x42, 0x42, 0x43, 0x44];

/// A parsed parse-info header.
#[derive(Debug, Clone, Copy)]
pub struct ParseInfo {
    pub parse_code: u8,
    pub next_parse_offset: u32,
    pub previous_parse_offset: u32,
}

/// What a parse code announces.
#[derive(Debug, Clone, Copy, PartialEq, Eq, Structural)]
pub enum DataUnit {
    SequenceHeader,
    EndOfSequence,
    AuxiliaryData,
    Padding,
    Picture(PictureKind),
    /// A picture fragment: a setup fragment carrying transform parameters or a
    /// data fragment carrying consecutive slices.
    Fragment(PictureKind),
    /// A parse code that is not defined: the data unit is to be discarded.
    Reserved,
}

/// The four bytes of a parse-info prefix.
pub open spec fn spec_prefix(i: Input) -> (Input, [u8; 4]) {
    let (i1, a) = i.uint_lit(1);
    let (i2, b) = i1.uint_lit(1);
    let (i3, c) = i2.uint_lit(1);
    let (i4, d) = i3.uint_lit(1);
    (i4, [a as u8, b as u8, c as u8, d as u8])
}

/// Whether four bytes are "BBCD".
pub open spec fn is_prefix(p: [u8; 4]) -> bool {
    p@[0] == 0x42 && p@[1] == 0x42 && p@[2] == 0x43 && p@[3] == 0x44
}

/// A parse-info header, on a byte boundary: the prefix, the parse code, and the
/// distances to the next and previous header. Running past the end comes before
/// every other complaint.
pub open spec fn spec_parse_info(i: Input) -> (Input, Result<ParseInfo>) {
    let (i1, prefix) = spec_prefix(i.aligned());
    if i1.overrun {
        (i1, Err(Error::UnexpectedEof))
    } else if !is_prefix(prefix) {
        (i1, Err(Error::BadParseInfoPrefix(prefix)))
    } else {
        let (i2, code) = i1.uint_lit(1);
        let (i3, next) = i2.uint_lit(4);
        let (i4, previous) = i3.uint_lit(4);
        if i4.overrun {
            (i4, Err(Error::UnexpectedEof))
        } else {
            (
                i4,
                Ok(
                    ParseInfo {
                        parse_code: code as u8,
                        next_parse_offset: next as u32,
                        previous_parse_offset: previous as u32,
                    },
                ),
            )
        }
    }
}

/// Reads one byte.
fn read_u8(r: &mut BitReader) -> (v: u8)
    ensures
        final(r)@ == old(r)@.uint_lit(1).0,
        v == old(r)@.uint_lit(1).1,
        final(r)@.wf(),
        final(r).source() == old(r).source(),
{
    proof {
        use_type_invariant(&*r);
        r.lemma_inv();
        picture::lemma_four_bytes(r@);
    }
    r.read_uint_lit(1) as u8
}

/// Reads two bytes.
fn read_u16(r: &mut BitReader) -> (v: u16)
    ensures
        final(r)@ == old(r)@.uint_lit(2).0,
        v == old(r)@.uint_lit(2).1,
        final(r)@.wf(),
        final(r).source() == old(r).source(),
{
    proof {
        use_type_invariant(&*r);
        r.lemma_inv();
        picture::lemma_four_bytes(r@);
    }
    r.read_uint_lit(2) as u16
}

/// Reads four bytes.
pub(crate) fn read_u32(r: &mut BitReader) -> (v: u32)
    ensures
        final(r)@ == old(r)@.uint_lit(4).0,
        v == old(r)@.uint_lit(4).1,
        final(r)@.wf(),
        final(r).source() == old(r).source(),
{
    proof {
        use_type_invariant(&*r);
        r.lemma_inv();
        picture::lemma_four_bytes(r@);
    }
    r.read_uint_lit(4) as u32
}

/// Parses a parse-info header: aligns, checks the prefix and reads the parse
/// code and the offsets.
pub fn parse_info(r: &mut BitReader) -> (res: Result<ParseInfo>)
    ensures
        (final(r)@, res) == spec_parse_info(old(r)@),
        final(r)@.wf(),
        final(r).source() == old(r).source(),
{
    r.byte_align();
    let a: u8 = read_u8(r);
    let b: u8 = read_u8(r);
    let c: u8 = read_u8(r);
    let d: u8 = read_u8(r);
    if r.overrun() {
        return Err(Error::UnexpectedEof);
    }
    let prefix: [u8; 4] = [a, b, c, d];
    if prefix[0] != PARSE_INFO_PREFIX[0] || prefix[1] != PARSE_INFO_PREFIX[1] || prefix[2]
        != PARSE_INFO_PREFIX[2] || prefix[3] != PARSE_INFO_PREFIX[3] {
        return Err(Error::BadParseInfoPrefix(prefix));
    }
    let parse_code: u8 = read_u8(r);
    let next_parse_offset: u32 = read_u32(r);
    let previous_parse_offset: u32 = read_u32(r);
    if r.overrun() {
        return Err(Error::UnexpectedEof);
    }
    Ok(ParseInfo { parse_code, next_parse_offset, previous_parse_offset })
}

/// The data unit of each parse code.
pub open spec fn spec_classify(parse_code: u8) -> DataUnit {
    if parse_code == 0x00 {
        DataUnit::SequenceHeader
    } else if parse_code == 0x10 {
        DataUnit::EndOfSequence
    } else if 0x20 <= parse_code <= 0x27 {
        DataUnit::AuxiliaryData
    } else if parse_code == 0x30 {
        DataUnit::Padding
    } else if 0xC8 <= parse_code <= 0xCB {
        DataUnit::Picture(PictureKind::LowDelay)
    } else if 0xCC <= parse_code <= 0xCF {
        DataUnit::Fragment(PictureKind::LowDelay)
    } else if 0xE8 <= parse_code <= 0xEB {
        DataUnit::Picture(PictureKind::HighQuality)
    } else if 0xEC <= parse_code <= 0xEF {
        DataUnit::Fragment(PictureKind::HighQuality)
    } else {
        DataUnit::Reserved
    }
}

/// Maps a parse code to the data unit that it announces.
pub fn classify(parse_code: u8) -> (r: DataUnit)
    ensures
        r == spec_classify(parse_code),
{
    proof {
        assert(((parse_code & 0xF8) == 0x20 <==> 0x20 <= parse_code <= 0x27) && ((parse_code & 0xF8)
            == 0xC8 <==> 0xC8 <= parse_code <= 0xCF) && ((parse_code & 0xF8) == 0xE8 <==> 0xE8
            <= parse_code <= 0xEF) && ((parse_code & 0x0C) == 0x0C <==> (parse_code / 4) % 4 == 3)
            && ((parse_code & 0x8C) == 0x88 <==> parse_code >= 128 && (parse_code / 4) % 4 == 2))
            by (bit_vector);
    }
    if parse_code == 0x00 {
        return DataUnit::SequenceHeader;
    }
    if parse_code == 0x10 {
        return DataUnit::EndOfSequence;
    }
    if (parse_code & 0xF8) == 0x20 {
        return DataUnit::AuxiliaryData;
    }
    if parse_code == 0x30 {
        return DataUnit::Padding;
    }
    let is_fragment: bool = (parse_code & 0x0C) == 0x0C;
    let is_picture: bool = (parse_code & 0x8C) == 0x88;
    let is_ld: bool = (parse_code & 0xF8) == 0xC8;
    let is_hq: bool = (parse_code & 0xF8) == 0xE8;
    if is_fragment {
        if is_ld {
            return DataUnit::Fragment(PictureKind::LowDelay);
        }
        if is_hq {
            return DataUnit::Fragment(PictureKind::HighQuality);
        }
        return DataUnit::Reserved;
    }
    if is_picture {
        if is_ld {
            return DataUnit::Picture(PictureKind::LowDelay);
        }
        if is_hq {
            return DataUnit::Picture(PictureKind::HighQuality);
        }
    }
    DataUnit::Reserved
}

/// A parsed fragment header.
///
/// A slice count of zero marks a setup fragment: transform parameters follow.
/// Any other marks a data fragment with that many consecutive slices, the first
/// of them at the offset coordinates.
#[derive(Debug, Clone, Copy)]
pub struct FragmentHeader {
    pub picture_number: u32,
    /// Does not contribute to decoding.
    pub fragment_data_length: u16,
    pub fragment_slice_count: u16,
    /// In the stream only where the slice count is not zero; else zero.
    pub fragment_x_offset: u16,
    /// See [`Self::fragment_x_offset`].
    pub fragment_y_offset: u16,
}

/// A fragment header: picture number, data length and slice count, and for data
/// fragments the coordinates of the first slice.
pub open spec fn spec_fragment_header(i: Input) -> (Input, Result<FragmentHeader>) {
    let (i1, number) = i.uint_lit(4);
    let (i2, length) = i1.uint_lit(2);
    let (i3, count) = i2.uint_lit(2);
    let (i4, x) = if count != 0 {
        i3.uint_lit(2)
    } else {
        (i3, 0int)
    };
    let (i5, y) = if count != 0 {
        i4.uint_lit(2)
    } else {
        (i4, 0int)
    };
    if i5.overrun {
        (i5, Err(Error::UnexpectedEof))
    } else {
        (
            i5,
            Ok(
                FragmentHeader {
                    picture_number: number as u32,
                    fragment_data_length: length as u16,
                    fragment_slice_count: count as u16,
                    fragment_x_offset: x as u16,
                    fragment_y_offset: y as u16,
                },
            ),
        )
    }
}

/// Parses a fragment header, which directly follows a parse-info header.
pub fn fragment_header(r: &mut BitReader) -> (res: Result<FragmentHeader>)
    ensures
        (final(r)@, res) == spec_fragment_header(old(r)@),
        final(r)@.wf(),
        final(r).source() == old(r).source(),
{
    let picture_number: u32 = read_u32(r);
    let fragment_data_length: u16 = read_u16(r);
    let fragment_slice_count: u16 = read_u16(r);
    let mut fragment_x_offset: u16 = 0;
    let mut fragment_y_offset: u16 = 0;
    if fragment_slice_count != 0 {
        fragment_x_offset = read_u16(r);
        fragment_y_offset = read_u16(r);
    }
    if r.overrun() {
        return Err(Error::UnexpectedEof);
    }
    Ok(
        FragmentHeader {
            picture_number,
            fragment_data_length,
            fragment_slice_count,
            fragment_x_offset,
            fragment_y_offset,
        },
    )
}

/// A fragmented picture being reassembled.
struct FragmentState {
    picture_number: u32,
    kind: PictureKind,
    /// The sequence header that was current at the setup fragment.
    seq: SequenceHeader,
    tp: TransformParameters,
    td: TransformData,
    slices_received: u64,
}

/// A fragmented picture being reassembled, over mathematical values.
#[verifier::ext_equal]
pub struct Assembly {
    pub picture_number: u32,
    pub kind: PictureKind,
    pub seq: SequenceHeader,
    pub transform: Transform,
    pub data: Coefficients,
    pub slices_received: int,
}

impl Assembly {
    /// How many slices the picture has.
    pub open spec fn total_slices(self) -> int {
        self.transform.slices_x * self.transform.slices_y
    }

    /// A picture in assembly has received no more slices than it holds, and has
    /// a coefficient store of the right shape.
    pub open spec fn wf(self) -> bool {
        &&& self.seq.valid()
        &&& self.transform.valid(self.seq.coding_parameters)
        &&& self.data.shaped(self.transform)
        &&& self.data.sized(self.seq.coding_parameters)
        &&& 0 <= self.slices_received <= self.total_slices()
    }
}

impl View for FragmentState {
    type V = Assembly;

    closed spec fn view(&self) -> Assembly {
        Assembly {
            picture_number: self.picture_number,
            kind: self.kind,
            seq: self.seq,
            transform: self.tp@,
            data: self.td@,
            slices_received: self.slices_received as int,
        }
    }
}

/// The state of a stream walker.
#[verifier::ext_equal]
pub struct Walker {
    /// The current sequence header.
    pub header: Option<SequenceHeader>,
    /// The picture in assembly.
    pub fragment: Option<Assembly>,
    /// Whether a sequence has begun and not ended.
    pub mid_sequence: bool,
}

impl Walker {
    /// The state in front of a sequence.
    pub open spec fn fresh() -> Walker {
        Walker { header: None, fragment: None, mid_sequence: false }
    }

    /// What a walker keeps hold of is valid.
    pub open spec fn wf(self) -> bool {
        &&& self.header matches Some(h) ==> h.valid()
        &&& self.fragment matches Some(st) ==> st.wf()
    }

    /// The same walker inside a sequence.
    pub open spec fn begun(self) -> Walker {
        Walker { mid_sequence: true, ..self }
    }
}

/// What a data unit leaves behind: the walker, the input, and the picture that
/// it completed, if any.
pub type Step = (Walker, Input, Result<Option<Picture>>);

/// A setup fragment: transform parameters, for which an empty picture is set
/// up.
pub open spec fn spec_setup_fragment(
    w: Walker,
    i: Input,
    fh: FragmentHeader,
    kind: PictureKind,
) -> Step {
    if w.fragment is Some {
        (
            w,
            i,
            Err(Error::InvalidValue("setup fragment while a fragmented picture is incomplete")),
        )
    } else {
        match w.header {
            None => (w, i, Err(Error::MissingSequenceHeader)),
            Some(seq) => match transform::spec_transform_parameters(i, seq, kind) {
                (i1, Err(e)) => (w, i1, Err(e)),
                (i1, Ok(t)) => (
                    Walker {
                        fragment: Some(
                            Assembly {
                                picture_number: fh.picture_number,
                                kind,
                                seq,
                                transform: t,
                                data: subband::spec_init_transform_data(seq.coding_parameters, t),
                                slices_received: 0,
                            },
                        ),
                        ..w
                    },
                    i1,
                    Ok(None),
                ),
            },
        }
    }
}

/// What is wrong with a data fragment for the picture in assembly, if anything:
/// it has to be of the same kind and picture, to take up the raster order where
/// the fragment before it stopped, and to stay inside the picture.
pub open spec fn data_fragment_fault(
    st: Assembly,
    fh: FragmentHeader,
    kind: PictureKind,
) -> Option<Error> {
    let start = fh.fragment_y_offset * st.transform.slices_x + fh.fragment_x_offset;
    if st.kind != kind {
        Some(
            Error::InvalidValue("data fragment parse code disagrees with its setup fragment"),
        )
    } else if st.picture_number != fh.picture_number {
        Some(
            Error::InvalidValue("data fragment picture number disagrees with its setup fragment"),
        )
    } else if start != st.slices_received {
        Some(Error::InvalidValue("data fragment slice offset out of raster order"))
    } else if start + fh.fragment_slice_count > st.total_slices() {
        Some(Error::InvalidValue("data fragment carries more slices than the picture holds"))
    } else {
        None
    }
}

/// The picture that an assembly with all of its slices stands for.
pub open spec fn assembled(st: Assembly) -> Parsed {
    Parsed {
        picture_number: st.picture_number,
        kind: st.kind,
        transform: st.transform,
        data: if st.kind == PictureKind::LowDelay {
            prediction::spec_apply_dc_prediction(st.data)
        } else {
            st.data
        },
    }
}

/// A data fragment: consecutive slices of the picture in assembly. With the
/// last of them the DC bands are predicted and the picture decoded.
pub open spec fn spec_data_fragment(
    w: Walker,
    i: Input,
    fh: FragmentHeader,
    kind: PictureKind,
) -> Step {
    match w.fragment {
        None => (
            w,
            i,
            Err(Error::InvalidValue("data fragment without a preceding setup fragment")),
        ),
        Some(st) => match data_fragment_fault(st, fh, kind) {
            Some(e) => (w, i, Err(e)),
            None => {
                let (i1, data, reached, done) = slices::spec_unpack_slices(
                    i,
                    st.data,
                    st.transform,
                    kind,
                    st.slices_received,
                    st.slices_received + fh.fragment_slice_count,
                );
                let after = Assembly { data, slices_received: reached, ..st };
                let kept = Walker { fragment: Some(after), ..w };
                match done {
                    Err(e) => (kept, i1, Err(e)),
                    Ok(_) => if i1.overrun {
                        (kept, i1, Err(Error::UnexpectedEof))
                    } else if reached < st.total_slices() {
                        (kept, i1, Ok(None))
                    } else {
                        (
                            Walker { fragment: None, ..w },
                            i1,
                            match picture::spec_picture_decode(
                                assembled(after),
                                st.seq.coding_parameters,
                            ) {
                                Ok(p) => Ok(Some(p)),
                                Err(e) => Err(e),
                            },
                        )
                    },
                }
            },
        },
    }
}

/// A fragment data unit.
pub open spec fn spec_fragment_parse(w: Walker, i: Input, kind: PictureKind) -> Step {
    match spec_fragment_header(i) {
        (i1, Err(e)) => (w, i1, Err(e)),
        (i1, Ok(fh)) => if fh.fragment_slice_count == 0 {
            spec_setup_fragment(w, i1, fh, kind)
        } else {
            spec_data_fragment(w, i1, fh, kind)
        },
    }
}

/// A picture data unit.
pub open spec fn spec_picture_unit(w: Walker, i: Input, kind: PictureKind) -> Step {
    if w.fragment is Some {
        (
            w,
            i,
            Err(Error::InvalidValue("picture data unit while a fragmented picture is incomplete")),
        )
    } else {
        match w.header {
            None => (w, i, Err(Error::MissingSequenceHeader)),
            Some(seq) => match picture::spec_picture_parse(i, seq, kind) {
                (i1, Err(e)) => (w, i1, Err(e)),
                (i1, Ok(p)) => (
                    w,
                    i1,
                    match picture::spec_picture_decode(p, seq.coding_parameters) {
                        Ok(p) => Ok(Some(p)),
                        Err(e) => Err(e),
                    },
                ),
            },
        }
    }
}

/// The body of a data unit that is not looked into: what lies between its
/// 13-byte header and the next one, where the distance is known.
pub open spec fn spec_skip(i: Input, next_parse_offset: u32) -> (Input, Result<()>) {
    if next_parse_offset > 13 {
        i.aligned().skipped((next_parse_offset - 13) as nat)
    } else {
        (i.aligned(), Ok(()))
    }
}

/// What a data unit does behind its parse-info header.
pub open spec fn spec_body(w: Walker, i: Input, pi: ParseInfo) -> Step {
    match spec_classify(pi.parse_code) {
        DataUnit::EndOfSequence => if w.fragment is Some {
            (
                w,
                i,
                Err(
                    Error::InvalidValue("end of sequence while a fragmented picture is incomplete"),
                ),
            )
        } else {
            (Walker::fresh(), i, Ok(None))
        },
        DataUnit::SequenceHeader => match params::spec_sequence_header(i) {
            (i1, Err(e)) => (w.begun(), i1, Err(e)),
            (i1, Ok(h)) => (Walker { header: Some(h), ..w.begun() }, i1, Ok(None)),
        },
        DataUnit::Picture(kind) => spec_picture_unit(w.begun(), i, kind),
        DataUnit::Fragment(kind) => spec_fragment_parse(w.begun(), i, kind),
        _ => match spec_skip(i, pi.next_parse_offset) {
            (i1, Err(e)) => (w.begun(), i1, Err(e)),
            (i1, Ok(_)) => (w.begun(), i1, Ok(None)),
        },
    }
}

/// One data unit, from its parse-info header on.
#[verifier::opaque]
pub open spec fn spec_unit(w: Walker, i: Input) -> Step {
    match spec_parse_info(i) {
        (i1, Err(e)) => (w, i1, Err(e)),
        (i1, Ok(pi)) => spec_body(w, i1, pi),
    }
}

proof fn lemma_prefix(a: Input, b: Input)
    requires
        a.wf(),
    ensures
        a.moved_on(spec_prefix(a).0),
        a.alike(b, spec_prefix(a), spec_prefix(b)),
        !spec_prefix(a).0.overrun ==> spec_prefix(a).0.bits_ahead() == a.bits_ahead() - 32,
{
    let (a1, b1) = (a.uint_lit(1).0, b.uint_lit(1).0);
    let (a2, b2) = (a1.uint_lit(1).0, b1.uint_lit(1).0);
    let (a3, b3) = (a2.uint_lit(1).0, b2.uint_lit(1).0);
    let a4 = a3.uint_lit(1).0;
    reading::lemma_nbits(a, b, 8);
    reading::lemma_nbits(a1, b1, 8);
    reading::lemma_nbits(a2, b2, 8);
    reading::lemma_nbits(a3, b3, 8);
    if !a4.overrun {
        reading::lemma_nbits_progress(a3, 8);
        reading::lemma_nbits_progress(a2, 8);
        reading::lemma_nbits_progress(a1, 8);
        reading::lemma_nbits_progress(a, 8);
    }
}

/// A parse-info header takes 13 bytes; where the end comes first it is an
/// unexpected end of file. Over truncated data the header is the same or the
/// end is unexpected.
pub proof fn law_parse_info_reads_soundly(a: Input, b: Input)
    requires
        a.wf(),
    ensures
        a.moved_on(spec_parse_info(a).0),
        spec_parse_info(a).0.overrun ==> spec_parse_info(a).1 == Err::<ParseInfo, Error>(
            Error::UnexpectedEof,
        ),
        spec_parse_info(a).1 is Ok ==> spec_parse_info(a).0.bit == 0 && spec_parse_info(
            a,
        ).0.rest.len() == a.aligned().rest.len() - 13,
        a.alike(b, spec_parse_info(a), spec_parse_info(b)),
{
    reading::lemma_aligned(a, b);
    let (a0, b0) = (a.aligned(), b.aligned());
    lemma_prefix(a0, b0);
    let (a1, b1) = (spec_prefix(a0).0, spec_prefix(b0).0);
    let (a2, b2) = (a1.uint_lit(1).0, b1.uint_lit(1).0);
    let (a3, b3) = (a2.uint_lit(4).0, b2.uint_lit(4).0);
    let a4 = a3.uint_lit(4).0;
    reading::lemma_nbits(a1, b1, 8);
    reading::lemma_nbits(a2, b2, 32);
    reading::lemma_nbits(a3, b3, 32);
    if spec_parse_info(a).1 is Ok {
        reading::lemma_nbits_progress(a3, 32);
        reading::lemma_nbits_progress(a2, 32);
        reading::lemma_nbits_progress(a1, 8);
    }
}

/// A fragment header of truncated data: the same, or an unexpected end of file.
pub proof fn law_fragment_header_reads_soundly(a: Input, b: Input)
    requires
        a.wf(),
    ensures
        a.moved_on(spec_fragment_header(a).0),
        spec_fragment_header(a).0.overrun ==> spec_fragment_header(a).1 == Err::<
            FragmentHeader,
            Error,
        >(Error::UnexpectedEof),
        a.alike(b, spec_fragment_header(a), spec_fragment_header(b)),
{
    let (a1, b1) = (a.uint_lit(4).0, b.uint_lit(4).0);
    let (a2, b2) = (a1.uint_lit(2).0, b1.uint_lit(2).0);
    let (a3, b3) = (a2.uint_lit(2).0, b2.uint_lit(2).0);
    let (a4, b4) = (a3.uint_lit(2).0, b3.uint_lit(2).0);
    reading::lemma_nbits(a, b, 32);
    reading::lemma_nbits(a1, b1, 16);
    reading::lemma_nbits(a2, b2, 16);
    reading::lemma_nbits(a3, b3, 16);
    reading::lemma_nbits(a4, b4, 16);
}

/// What the parts of a data unit have in common, with `i` in front of the part:
/// the walker stays well formed, the reader never moves back, a failure past
/// the end is an unexpected end of file, success leaves the reader inside the
/// data, and over truncated data the outcome is the same or the reader has run
/// past the end.
pub open spec fn sound(i: Input, cut: Step, b: Input, full: Step) -> bool {
    &&& cut.0.wf()
    &&& i.moved_on(cut.1)
    &&& cut.1.overrun && !i.overrun ==> cut.2 == Err::<Option<Picture>, Error>(Error::UnexpectedEof)
    &&& i.alike(b, (cut.1, (cut.0, cut.2)), (full.1, (full.0, full.2)))
}

proof fn lemma_setup_fragment(
    w: Walker,
    a: Input,
    b: Input,
    fh: FragmentHeader,
    kind: PictureKind,
)
    requires
        w.wf(),
        a.wf(),
    ensures
        sound(
            a,
            spec_setup_fragment(w, a, fh, kind),
            b,
            spec_setup_fragment(w, b, fh, kind),
        ),
{
    if let Some(seq) = w.header {
        transform::law_transform_parameters_read_soundly(a, b, seq, kind);
        if let (_, Ok(t)) = transform::spec_transform_parameters(a, seq, kind) {
            let cp = seq.coding_parameters;
            subband::lemma_init_shaped(cp.luma_width, cp.luma_height, t);
            subband::lemma_init_shaped(cp.color_diff_width, cp.color_diff_height, t);
            lemma_slice_count_positive(t);
        }
    }
}

pub proof fn lemma_slice_count_positive(t: Transform)
    requires
        t.slices_valid(),
    ensures
        t.slices_x * t.slices_y >= 1,
{
    assert(t.slices_x * t.slices_y >= 1) by (nonlinear_arith)
        requires
            t.slices_x >= 1,
            t.slices_y >= 1,
    ;
}

proof fn lemma_data_fragment(w: Walker, a: Input, b: Input, fh: FragmentHeader, kind: PictureKind)
    requires
        w.wf(),
        a.wf(),
        fh.fragment_slice_count > 0,
    ensures
        sound(a, spec_data_fragment(w, a, fh, kind), b, spec_data_fragment(w, b, fh, kind)),
{
    if let Some(st) = w.fragment {
        if data_fragment_fault(st, fh, kind) is None {
            let from = st.slices_received;
            let to = from + fh.fragment_slice_count;
            slices::lemma_unpack_slices(a, b, st.data, st.transform, kind, from, to);
            slices::lemma_unpack_slices_shape(a, st.data, st.transform, kind, from, to);
        }
    }
}

proof fn lemma_fragment_parse(w: Walker, a: Input, b: Input, kind: PictureKind)
    requires
        w.wf(),
        a.wf(),
    ensures
        sound(a, spec_fragment_parse(w, a, kind), b, spec_fragment_parse(w, b, kind)),
{
    law_fragment_header_reads_soundly(a, b);
    let (a1, a_header) = spec_fragment_header(a);
    let (b1, b_header) = spec_fragment_header(b);
    if let Ok(fh) = a_header {
        if fh.fragment_slice_count == 0 {
            lemma_setup_fragment(w, a1, b1, fh, kind);
        } else {
            lemma_data_fragment(w, a1, b1, fh, kind);
        }
    }
    if b.wf() {
        if let Ok(fh) = b_header {
            if fh.fragment_slice_count == 0 {
                lemma_setup_fragment(w, b1, b1, fh, kind);
            } else {
                lemma_data_fragment(w, b1, b1, fh, kind);
            }
        }
    }
}

proof fn lemma_body(w: Walker, a: Input, b: Input, pi: ParseInfo)
    requires
        w.wf(),
        a.wf(),
    ensures
        sound(a, spec_body(w, a, pi), b, spec_body(w, b, pi)),
{
    match spec_classify(pi.parse_code) {
        DataUnit::EndOfSequence => {},
        DataUnit::SequenceHeader => {
            params::law_sequence_header_reads_soundly(a, b);
        },
        DataUnit::Picture(kind) => {
            if let Some(seq) = w.header {
                picture::law_picture_reads_soundly(a, b, seq, kind);
            }
        },
        DataUnit::Fragment(kind) => {
            lemma_fragment_parse(w.begun(), a, b, kind);
        },
        _ => {
            reading::lemma_aligned(a, b);
            if b.wf() {
                reading::lemma_aligned(b, b);
            }
            if pi.next_parse_offset > 13 {
                reading::lemma_skipped(
                    a.aligned(),
                    b.aligned(),
                    (pi.next_parse_offset - 13) as nat,
                );
            }
        },
    }
}

/// One data unit: it takes at least the 13 bytes of its header. See [`sound`].
pub proof fn law_unit_reads_soundly(w: Walker, a: Input, b: Input)
    requires
        w.wf(),
        a.wf(),
    ensures
        sound(a, spec_unit(w, a), b, spec_unit(w, b)),
        spec_unit(w, a).2 is Ok ==> spec_unit(w, a).1.rest.len() <= a.rest.len() - 13,
        spec_unit(w, a).1.overrun ==> spec_unit(w, a).2 == Err::<Option<Picture>, Error>(
            Error::UnexpectedEof,
        ),
{
    reveal(spec_unit);
    law_parse_info_reads_soundly(a, b);
    reading::lemma_aligned(a, b);
    let (a1, a_info) = spec_parse_info(a);
    let (b1, b_info) = spec_parse_info(b);
    if let Ok(pi) = a_info {
        lemma_body(w, a1, b1, pi);
    }
    if b.wf() {
        if let Ok(pi) = b_info {
            lemma_body(w, b1, b1, pi);
        }
    }
}

/// A data unit ends the sequence and leaves nothing of it, or lies in a
/// sequence, or has no header that can be read.
pub proof fn lemma_unit_in_sequence(w: Walker, i: Input)
    requires
        w.wf(),
    ensures
        ({
            let after = spec_unit(w, i).0;
            after == Walker::fresh() || after.mid_sequence || after == w
        }),
{
    reveal(spec_unit);
    if let (i1, Ok(pi)) = spec_parse_info(i) {
        if let DataUnit::Fragment(kind) = spec_classify(pi.parse_code) {
            assert(spec_fragment_parse(w.begun(), i1, kind).0.mid_sequence);
        }
    }
}

/// Every picture that a data unit completes is well formed.
pub proof fn law_unit_pictures_are_well_formed(w: Walker, i: Input)
    requires
        w.wf(),
        i.wf(),
        spec_unit(w, i).2 matches Ok(Some(_)),
    ensures
        (spec_unit(w, i).2->Ok_0->Some_0).well_formed(),
{
    reveal(spec_unit);
    law_parse_info_reads_soundly(i, i);
    let (i1, pi) = spec_parse_info(i);
    match spec_classify(pi->Ok_0.parse_code) {
        DataUnit::Picture(kind) => {
            let seq = w.header->Some_0;
            let p = picture::spec_picture_parse(i1, seq, kind).1->Ok_0;
            reading::lemma_aligned(i1, i1);
            let i2 = i1.aligned().uint_lit(4).0;
            reading::lemma_nbits(i1.aligned(), i1, 32);
            reading::lemma_aligned(i2, i2);
            transform::law_transform_parameters_read_soundly(
                i2.aligned(),
                i2.aligned(),
                seq,
                kind,
            );
            picture::law_decoded_picture_is_well_formed(p, seq);
        },
        DataUnit::Fragment(kind) => {
            law_fragment_header_reads_soundly(i1, i1);
            let (i2, fh) = spec_fragment_header(i1);
            let st = w.fragment->Some_0;
            let to = st.slices_received + fh->Ok_0.fragment_slice_count;
            let unpacked = slices::spec_unpack_slices(
                i2,
                st.data,
                st.transform,
                kind,
                st.slices_received,
                to,
            );
            let after = Assembly { data: unpacked.1, slices_received: unpacked.2, ..st };
            picture::law_decoded_picture_is_well_formed(assembled(after), st.seq);
        },
        _ => {},
    }
}

/// What a walk over data units leaves behind: the walker, the input, and the
/// pictures that it completed.
pub type Walk = (Walker, Input, Result<Seq<Picture>>);

/// A walk with some pictures put in front of its own.
pub open spec fn preceded(pictures: Seq<Picture>, walk: Walk) -> Walk {
    match walk.2 {
        Ok(more) => (walk.0, walk.1, Ok(pictures + more)),
        Err(e) => (walk.0, walk.1, Err(e)),
    }
}

/// The pictures of a data unit.
pub open spec fn pictures_of(p: Option<Picture>) -> Seq<Picture> {
    match p {
        Some(p) => seq![p],
        None => seq![],
    }
}

/// Data units one after another, up to the end of the data or the first error.
pub open spec fn spec_walk(w: Walker, i: Input) -> Walk
    decreases i.rest.len(),
    when w.wf() && i.wf()
    via spec_walk_decreases
{
    match spec_unit(w, i) {
        (w1, i1, Err(e)) => (w1, i1, Err(e)),
        (w1, i1, Ok(p)) => if i1.aligned().at_end() {
            (w1, i1.aligned(), Ok(pictures_of(p)))
        } else {
            preceded(pictures_of(p), spec_walk(w1, i1.aligned()))
        },
    }
}

#[via_fn]
proof fn spec_walk_decreases(w: Walker, i: Input) {
    law_unit_reads_soundly(w, i, i);
    let i1 = spec_unit(w, i).1;
    if spec_unit(w, i).2 is Ok {
        reading::lemma_aligned(i1, i1);
    }
}

/// How far the next data unit is, if that can be told without decoding: an end
/// of sequence has no body, and that of any other data unit with no offset
/// cannot be skipped.
pub open spec fn distance(pi: ParseInfo) -> Option<int> {
    if pi.next_parse_offset > 0 {
        Some(pi.next_parse_offset as int)
    } else if spec_classify(pi.parse_code) == DataUnit::EndOfSequence {
        Some(13)
    } else {
        None
    }
}

/// See [`distance`].
pub(crate) fn next_unit(pi: &ParseInfo) -> (d: Option<u32>)
    ensures
        d matches Some(n) ==> distance(*pi) == Some(n as int) && n > 0,
        d is None ==> distance(*pi) is None,
{
    if pi.next_parse_offset > 0 {
        Some(pi.next_parse_offset)
    } else if classify(pi.parse_code) == DataUnit::EndOfSequence {
        Some(13)
    } else {
        None
    }
}

/// Stateful stream walker.
///
/// Feed it byte chunks of whole data units, each beginning with a parse-info
/// header, via [`Self::push`]; completed pictures come back in stream order. The
/// sequence header and any partially assembled fragmented picture persist from
/// call to call, so a picture may be fragmented over several of them. An
/// end-of-sequence data unit ends the sequence: what follows starts afresh.
pub struct SequenceDecoder {
    seq_header: Option<SequenceHeader>,
    fragment: Option<FragmentState>,
    in_sequence: bool,
}

impl View for SequenceDecoder {
    type V = Walker;

    closed spec fn view(&self) -> Walker {
        Walker {
            header: self.seq_header,
            fragment: match self.fragment {
                Some(st) => Some(st@),
                None => None,
            },
            mid_sequence: self.in_sequence,
        }
    }
}

impl Default for SequenceDecoder {
    fn default() -> (r: Self)
        ensures
            r@ == Walker::fresh(),
    {
        SequenceDecoder { seq_header: None, fragment: None, in_sequence: false }
    }
}

/// The pictures of some decoded pictures.
pub open spec fn picture_views(v: Seq<DecodedPicture>) -> Seq<Picture> {
    Seq::new(v.len(), |k: int| v[k]@)
}

/// A result over the pictures that it holds.
pub open spec fn viewed_pictures(r: Result<Vec<DecodedPicture>>) -> Result<Seq<Picture>> {
    match r {
        Ok(v) => Ok(picture_views(v@)),
        Err(e) => Err(e),
    }
}

/// A result over the picture that it may hold.
pub open spec fn viewed_picture(r: Result<Option<DecodedPicture>>) -> Result<Option<Picture>> {
    match r {
        Ok(Some(p)) => Ok(Some(p@)),
        Ok(None) => Ok(None),
        Err(e) => Err(e),
    }
}

impl SequenceDecoder {
    /// What the walker keeps hold of is valid.
    #[verifier::type_invariant]
    pub closed spec fn inv(self) -> bool {
        &&& self.seq_header matches Some(h) ==> h.valid()
        &&& self.fragment matches Some(st) ==> st@.wf()
    }

    /// What the invariant says of the model.
    pub proof fn lemma_inv(self)
        requires
            self.inv(),
        ensures
            self@.wf(),
    {
    }

    /// A walker with no sequence header and no picture in assembly.
    pub fn new() -> (r: Self)
        ensures
            r@ == Walker::fresh(),
    {
        Self::default()
    }

    /// True while a fragmented picture is partially assembled, which a stream
    /// may not end on.
    pub fn has_incomplete_picture(&self) -> (b: bool)
        ensures
            b == self@.fragment is Some,
    {
        self.fragment.is_some()
    }

    /// True while a sequence has begun and its end-of-sequence data unit has not
    /// been seen.
    pub fn mid_sequence(&self) -> (b: bool)
        ensures
            b == self@.mid_sequence,
    {
        self.in_sequence
    }

    /// The header of the sequence being walked, once it has been seen.
    pub fn sequence_header(&self) -> (h: Option<&SequenceHeader>)
        ensures
            h matches Some(x) ==> self@.header == Some(*x),
            h is None ==> self@.header is None,
    {
        self.seq_header.as_ref()
    }

    /// Drops all per-sequence state.
    pub fn reset(&mut self)
        ensures
            final(self)@ == Walker::fresh(),
    {
        proof {
            use_type_invariant(&*self);
        }
        self.seq_header = None;
        self.fragment = None;
        self.in_sequence = false;
    }

    /// Walks every data unit in `data`, returning the pictures completed within
    /// it. `data` must begin with a parse-info header and hold whole data
    /// units.
    pub fn push(&mut self, data: &[u8]) -> (res: Result<Vec<DecodedPicture>>)
        ensures
            (final(self)@, viewed_pictures(res)) == ({
                let walk = spec_walk(old(self)@, Input::start(data@));
                (walk.0, walk.2)
            }),
    {
        let mut r = BitReader::new(data);
        let mut pictures: Vec<DecodedPicture> = Vec::new();
        proof {
            use_type_invariant(&*self);
            self.lemma_inv();
        }
        let ghost w0 = self@;
        let ghost i0 = r@;
        assert(picture_views(pictures@) =~= seq![]);
        proof {
            lemma_preceded_empty(spec_walk(w0, i0));
        }
        loop
            invariant
                self@.wf(),
                r@.wf(),
                w0 == old(self)@,
                i0 == Input::start(data@),
                spec_walk(w0, i0) == preceded(picture_views(pictures@), spec_walk(self@, r@)),
            decreases r@.rest.len(),
        {
            let ghost w = self@;
            let ghost i = r@;
            let ghost before = picture_views(pictures@);
            proof {
                law_unit_reads_soundly(w, i, i);
            }
            let unit: Result<Option<DecodedPicture>> = self.unit(&mut r);
            let ghost i1 = r@;
            match unit {
                Err(e) => {
                    return Err(e);
                },
                Ok(None) => {
                    assert(before =~= before + pictures_of(None));
                },
                Ok(Some(p)) => {
                    pictures.push(p);
                    assert(picture_views(pictures@) =~= before + pictures_of(Some(p@)));
                },
            }
            proof {
                reading::lemma_aligned(i1, i1);
                use_type_invariant(&*self);
                self.lemma_inv();
            }
            r.byte_align();
            if r.is_end_of_stream() {
                return Ok(pictures);
            }
            proof {
                lemma_preceded_twice(
                    before,
                    pictures_of(viewed_picture(unit)->Ok_0),
                    spec_walk(self@, r@),
                );
            }
        }
    }

    /// Walks one data unit.
    fn unit(&mut self, r: &mut BitReader) -> (res: Result<Option<DecodedPicture>>)
        requires
            old(self)@.wf(),
            old(r)@.wf(),
        ensures
            (final(self)@, final(r)@, viewed_picture(res)) == spec_unit(old(self)@, old(r)@),
            final(r).source() == old(r).source(),
    {
        proof {
            reveal(spec_unit);
        }
        let pi: ParseInfo = parse_info(r)?;
        match classify(pi.parse_code) {
            DataUnit::EndOfSequence => {
                if self.fragment.is_some() {
                    return Err(
                        Error::InvalidValue(
                            "end of sequence while a fragmented picture is incomplete",
                        ),
                    );
                }
                self.reset();
                Ok(None)
            },
            DataUnit::SequenceHeader => {
                self.in_sequence = true;
                let ghost i1 = r@;
                let h: SequenceHeader = params::sequence_header(r)?;
                proof {
                    params::law_sequence_header_reads_soundly(i1, i1);
                }
                self.seq_header = Some(h);
                Ok(None)
            },
            DataUnit::Picture(kind) => {
                self.in_sequence = true;
                if self.fragment.is_some() {
                    return Err(
                        Error::InvalidValue(
                            "picture data unit while a fragmented picture is incomplete",
                        ),
                    );
                }
                match self.seq_header {
                    None => Err(Error::MissingSequenceHeader),
                    Some(seq) => {
                        proof {
                            params::law_valid_header_depths(seq);
                        }
                        let parsed: ParsedPicture = picture::picture_parse(r, &seq, kind)?;
                        let pic: DecodedPicture = picture::picture_decode(&parsed, &seq)?;
                        Ok(Some(pic))
                    },
                }
            },
            DataUnit::Fragment(kind) => {
                self.in_sequence = true;
                self.fragment_parse(r, kind)
            },
            _ => {
                self.in_sequence = true;
                skip_to_next(r, &pi)?;
                Ok(None)
            },
        }
    }

    /// Walks a fragment; when it completes its picture, decodes and returns it.
    fn fragment_parse(&mut self, r: &mut BitReader, kind: PictureKind) -> (res: Result<
        Option<DecodedPicture>,
    >)
        requires
            old(self)@.wf(),
            old(r)@.wf(),
        ensures
            (final(self)@, final(r)@, viewed_picture(res)) == spec_fragment_parse(
                old(self)@,
                old(r)@,
                kind,
            ),
            final(r).source() == old(r).source(),
    {
        let fh: FragmentHeader = fragment_header(r)?;
        if fh.fragment_slice_count == 0 {
            self.setup_fragment(r, &fh, kind)
        } else {
            self.data_fragment(r, &fh, kind)
        }
    }

    /// Walks a setup fragment.
    fn setup_fragment(&mut self, r: &mut BitReader, fh: &FragmentHeader, kind: PictureKind) -> (res:
        Result<Option<DecodedPicture>>)
        requires
            old(self)@.wf(),
            old(r)@.wf(),
        ensures
            (final(self)@, final(r)@, viewed_picture(res)) == spec_setup_fragment(
                old(self)@,
                old(r)@,
                *fh,
                kind,
            ),
            final(r).source() == old(r).source(),
    {
        if self.fragment.is_some() {
            return Err(
                Error::InvalidValue("setup fragment while a fragmented picture is incomplete"),
            );
        }
        match self.seq_header {
            None => Err(Error::MissingSequenceHeader),
            Some(seq) => {
                let ghost i = r@;
                let tp: TransformParameters = transform::transform_parameters(r, &seq, kind)?;
                proof {
                    params::law_valid_header_depths(seq);
                    transform::law_transform_parameters_read_soundly(i, i, seq, kind);
                    subband::law_valid_parameters_bound_memory(seq.coding_parameters, tp@);
                    lemma_slice_count_positive(tp@);
                }
                let td: TransformData = subband::init_transform_data(&seq, &tp);
                let st = FragmentState {
                    picture_number: fh.picture_number,
                    kind,
                    seq,
                    tp,
                    td,
                    slices_received: 0,
                };
                self.fragment = Some(st);
                Ok(None)
            },
        }
    }

    /// Walks a data fragment.
    fn data_fragment(&mut self, r: &mut BitReader, fh: &FragmentHeader, kind: PictureKind) -> (res:
        Result<Option<DecodedPicture>>)
        requires
            old(self)@.wf(),
            old(r)@.wf(),
            fh.fragment_slice_count > 0,
        ensures
            (final(self)@, final(r)@, viewed_picture(res)) == spec_data_fragment(
                old(self)@,
                old(r)@,
                *fh,
                kind,
            ),
            final(r).source() == old(r).source(),
    {
        proof {
            lemma_data_fragment(self@, r@, r@, *fh, kind);
        }
        let mut held: Option<FragmentState> = None;
        std::mem::swap(&mut held, &mut self.fragment);
        let mut st: FragmentState = match held {
            None => {
                return Err(
                    Error::InvalidValue("data fragment without a preceding setup fragment"),
                );
            },
            Some(st) => st,
        };
        let ghost st0 = st@;
        if let Some(e) = check_data_fragment(&st, fh, kind) {
            self.fragment = Some(st);
            return Err(e);
        }
        let from: u64 = st.slices_received;
        let to: u64 = from + fh.fragment_slice_count as u64;
        let total_slices: u64 = st.tp.slices_x * st.tp.slices_y;
        let mut reached: u64 = from;
        let done: Result<()> = slices::unpack_slices(
            r,
            &st.tp,
            &mut st.td,
            kind,
            from,
            to,
            &mut reached,
        );
        st.slices_received = reached;
        match done {
            Err(e) => {
                self.fragment = Some(st);
                return Err(e);
            },
            Ok(_) => {},
        }
        if r.overrun() {
            self.fragment = Some(st);
            return Err(Error::UnexpectedEof);
        }
        if st.slices_received < total_slices {
            self.fragment = Some(st);
            return Ok(None);
        }
        let FragmentState { picture_number, kind: own_kind, seq, tp, td: mut data, slices_received: _ } =
            st;
        proof {
            params::law_valid_header_depths(seq);
            subband::law_valid_parameters_bound_memory(seq.coding_parameters, tp@);
        }
        if own_kind.uses_dc_prediction() {
            proof {
                assert(data@.y.bands[0].wf());
                assert(data@.c1.bands[0].wf());
                assert(data@.c2.bands[0].wf());
                prediction::lemma_prediction_shape(data@, tp@);
            }
            prediction::apply_dc_prediction(&mut data);
        }
        let parsed = ParsedPicture {
            picture_number,
            kind: own_kind,
            transform_parameters: tp,
            transform_data: data,
        };
        let pic: DecodedPicture = picture::picture_decode(&parsed, &seq)?;
        Ok(Some(pic))
    }
}

/// Skips the body of a data unit, behind its header; see [`spec_skip`].
fn skip_to_next(r: &mut BitReader, pi: &ParseInfo) -> (res: Result<()>)
    ensures
        (final(r)@, res) == spec_skip(old(r)@, pi.next_parse_offset),
        final(r).source() == old(r).source(),
{
    r.byte_align();
    if pi.next_parse_offset > 13 {
        r.skip_bytes((pi.next_parse_offset - 13) as u64)?;
    }
    Ok(())
}

/// What is wrong with a data fragment; see [`data_fragment_fault`].
fn check_data_fragment(st: &FragmentState, fh: &FragmentHeader, kind: PictureKind) -> (r: Option<
    Error,
>)
    requires
        st@.wf(),
    ensures
        r == data_fragment_fault(st@, *fh, kind),
{
    if st.kind != kind {
        return Some(
            Error::InvalidValue("data fragment parse code disagrees with its setup fragment"),
        );
    }
    if st.picture_number != fh.picture_number {
        return Some(
            Error::InvalidValue("data fragment picture number disagrees with its setup fragment"),
        );
    }
    proof {
        lemma_slices_x_bound(st.tp@);
        assert(0 <= fh.fragment_y_offset * st.tp.slices_x <= 0xffff * 0x40_0000)
            by (nonlinear_arith)
            requires
                0 <= fh.fragment_y_offset <= 0xffff,
                0 <= st.tp.slices_x <= 0x40_0000,
        ;
    }
    let total_slices: u64 = st.tp.slices_x * st.tp.slices_y;
    let start: u64 = fh.fragment_y_offset as u64 * st.tp.slices_x + fh.fragment_x_offset as u64;
    if start != st.slices_received {
        return Some(Error::InvalidValue("data fragment slice offset out of raster order"));
    }
    if start + fh.fragment_slice_count as u64 > total_slices {
        return Some(
            Error::InvalidValue("data fragment carries more slices than the picture holds"),
        );
    }
    None
}

proof fn lemma_slices_x_bound(t: Transform)
    requires
        t.slices_valid(),
    ensures
        t.slices_x <= transform::MAX_SLICES,
{
    assert(t.slices_x <= t.slices_x * t.slices_y) by (nonlinear_arith)
        requires
            t.slices_y >= 1,
            t.slices_x >= 0,
    ;
}

pub proof fn lemma_preceded_empty(walk: Walk)
    ensures
        preceded(seq![], walk) == walk,
{
    if let Ok(p) = walk.2 {
        assert(seq![] + p =~= p);
    }
}

pub proof fn lemma_preceded_twice(a: Seq<Picture>, b: Seq<Picture>, walk: Walk)
    ensures
        preceded(a, preceded(b, walk)) == preceded(a + b, walk),
{
    if let Ok(p) = walk.2 {
        assert(a + (b + p) =~= (a + b) + p);
    }
}

/// A whole stream: every data unit decodes, no fragmented picture is left
/// incomplete, and the last sequence is ended.
pub open spec fn spec_parse_sequence(data: Seq<u8>) -> Result<Seq<Picture>> {
    let (w, _i, pictures) = spec_walk(Walker::fresh(), Input::start(data));
    match pictures {
        Err(e) => Err(e),
        Ok(pictures) => if w.fragment is Some {
            Err(Error::InvalidValue("stream ended while a fragmented picture is incomplete"))
        } else if w.mid_sequence {
            Err(Error::UnexpectedEof)
        } else {
            Ok(pictures)
        },
    }
}

/// Decodes every picture, fragmented or not, of a whole stream.
///
/// Auxiliary and padding data units and those with unknown parse codes are
/// skipped by means of their `next_parse_offset`. The stream may hold several
/// sequences; each has to end with an end-of-sequence data unit, so that a
/// stream cut off between two data units does not pass for a whole one.
pub fn parse_sequence(data: &[u8]) -> (res: Result<Vec<DecodedPicture>>)
    ensures
        viewed_pictures(res) == spec_parse_sequence(data@),
{
    let mut decoder = SequenceDecoder::new();
    let pictures: Vec<DecodedPicture> = decoder.push(data)?;
    if decoder.has_incomplete_picture() {
        return Err(
            Error::InvalidValue("stream ended while a fragmented picture is incomplete"),
        );
    }
    if decoder.mid_sequence() {
        return Err(Error::UnexpectedEof);
    }
    Ok(pictures)
}

} // verus!
