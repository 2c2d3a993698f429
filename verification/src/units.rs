//! Data units and whole streams, written and decoded.
use crate::bitio::Input;
use crate::codes;
use crate::coding;
use crate::error::Error;
use crate::grid::Grid;
use crate::headers;
use crate::headers::{MatrixChoice, Overrides};
use crate::params;
use crate::params::{ParseParameters, SequenceHeader, VideoParameters};
use crate::picture::Picture;
use crate::sequence;
use crate::sequence::{DataUnit, ParseInfo, Walker};
use crate::subband::Coefficients;
use crate::transform::{PictureKind, Transform};
use crate::writing;
use crate::writing::{HqSlice, LdSlice};
use vstd::arithmetic::power2;
use vstd::prelude::*;

verus! {

/// The codes of pictures and fragments are made of parts: fragments have the codes
/// of pictures with the bit of value 4 set, high quality those of low delay with the
/// bit of value 32 set, and the two lowest bits do not matter.
pub proof fn law_parse_codes_have_parts(code: u8)
    ensures
        forall|kind: PictureKind|
            code <= 251 && code % 8 < 4 ==> (#[trigger] sequence::spec_classify(code)
                == DataUnit::Picture(kind) <==> sequence::spec_classify((code + 4) as u8)
                == DataUnit::Fragment(kind)),
        (code / 32) % 2 == 0 ==> (sequence::spec_classify(code) == DataUnit::Picture(
            PictureKind::LowDelay,
        ) <==> sequence::spec_classify((code + 32) as u8) == DataUnit::Picture(
            PictureKind::HighQuality,
        )),
        code >= 128 ==> sequence::spec_classify(code) == sequence::spec_classify(
            (code - code % 4) as u8,
        ),
        code < 128 ==> !(sequence::spec_classify(code) is Picture) && !(sequence::spec_classify(
            code,
        ) is Fragment),
{
}

proof fn lemma_unit_front(w: Walker, i: Input, pi: ParseInfo, body: Seq<int>) -> (j: Input)
    requires
        i.wf(),
        !i.overrun,
        i.bit == 0,
        i.offers(headers::parse_info_bits(pi) + body),
    ensures
        sequence::spec_unit(w, i) == sequence::spec_body(w, j, pi),
        j.wf(),
        !j.overrun,
        j.bit == 0,
        j.offers(body),
        i.after_bits((headers::parse_info_bits(pi) + body).len()) == j.after_bits(body.len()),
{
    let head = headers::parse_info_bits(pi);
    writing::lemma_split(i, head, body);
    headers::law_parse_infos_read_back(i, pi);
    coding::lemma_bit_position(i, head);
    reveal(sequence::spec_unit);
    i.after_bits(head.len())
}

/// A data unit that is passed over: auxiliary data, padding, and what has no defined
/// code. Its header says how far the next one is, and the walk goes on right there.
pub proof fn law_units_are_passed_over(w: Walker, i: Input, pi: ParseInfo, body: Seq<int>)
    requires
        i.wf(),
        !i.overrun,
        i.bit == 0,
        pi.parse_code == 0x20 || pi.parse_code == 0x30 || sequence::spec_classify(pi.parse_code)
            == DataUnit::Reserved,
        pi.next_parse_offset >= 13,
        body.len() == 8 * (pi.next_parse_offset - 13),
        i.offers(headers::parse_info_bits(pi) + body),
    ensures
        sequence::spec_unit(w, i) == (
            Walker { mid_sequence: true, ..w },
            i.after_bits((headers::parse_info_bits(pi) + body).len()),
            Ok::<Option<Picture>, Error>(None),
        ),
        (headers::parse_info_bits(pi) + body).len() == 8 * pi.next_parse_offset,
{
    let j = lemma_unit_front(w, i, pi, body);
    writing::lemma_split(i, headers::parse_info_bits(pi), body);
    headers::law_parse_infos_read_back(i, pi);
    writing::lemma_skip_back(j, body, (pi.next_parse_offset - 13) as nat);
}

/// The end of a sequence, whatever distance its header gives: nothing of the
/// sequence is kept.
pub proof fn law_sequences_end(w: Walker, i: Input, pi: ParseInfo)
    requires
        i.wf(),
        !i.overrun,
        i.bit == 0,
        w.fragment is None,
        pi.parse_code == 0x10,
        i.offers(headers::parse_info_bits(pi)),
    ensures
        sequence::spec_unit(w, i) == (
            Walker { header: None, fragment: None, mid_sequence: false },
            i.after_bits(headers::parse_info_bits(pi).len()),
            Ok::<Option<Picture>, Error>(None),
        ),
{
    let body = Seq::<int>::empty();
    assert(headers::parse_info_bits(pi) + body =~= headers::parse_info_bits(pi));
    let j = lemma_unit_front(w, i, pi, body);
}

/// A sequence header as an encoder gives it.
pub struct WrittenHeader {
    pub parse_parameters: ParseParameters,
    pub base_video_format: u64,
    pub overrides: Overrides,
    pub picture_coding_mode: u64,
}

impl WrittenHeader {
    /// The source that it describes.
    pub open spec fn source(self) -> VideoParameters {
        headers::overridden(
            params::spec_set_source_defaults(self.base_video_format)->Ok_0,
            self.overrides,
        )
    }

    /// The header as bits.
    pub open spec fn bits(self) -> Seq<int> {
        headers::sequence_header_bits(
            self.parse_parameters,
            self.base_video_format,
            self.overrides,
            self.picture_coding_mode,
        )
    }

    /// Whether the header can be written.
    pub open spec fn writable(self) -> bool {
        let p = self.parse_parameters;
        &&& headers::coded(p.major_version) && headers::coded(p.minor_version)
        &&& headers::coded(p.profile) && headers::coded(p.level)
        &&& self.base_video_format <= 22
        &&& self.picture_coding_mode <= 1
        &&& headers::meaningful(self.overrides)
        &&& headers::codable_source(self.source(), self.overrides)
    }

    /// Whether `h` is what the header says.
    pub open spec fn says(self, h: SequenceHeader) -> bool {
        &&& h.parse_parameters == self.parse_parameters
        &&& h.base_video_format == self.base_video_format
        &&& h.video_parameters == self.source()
        &&& h.source_overrides == headers::recorded(self.overrides)
        &&& h.picture_coding_mode == self.picture_coding_mode
        &&& headers::derived(h.coding_parameters, self.source(), self.picture_coding_mode)
    }
}

proof fn lemma_one_width(m: nat, n: nat, values: int)
    requires
        writing::tells_apart(m, values),
        writing::tells_apart(n, values),
    ensures
        m == n,
{
    if m < n {
        if m < n - 1 {
            power2::lemma_pow2_strictly_increases(m, (n - 1) as nat);
        }
    } else if n < m {
        if n < m - 1 {
            power2::lemma_pow2_strictly_increases(n, (m - 1) as nat);
        }
    }
}

/// A header says one thing.
pub proof fn lemma_says_one(w: WrittenHeader, a: SequenceHeader, b: SequenceHeader)
    requires
        w.says(a),
        w.says(b),
    ensures
        a == b,
{
    let vp = w.source();
    let (x, y) = (a.coding_parameters, b.coding_parameters);
    lemma_one_width(x.luma_depth as nat, y.luma_depth as nat, vp.luma_excursion + 1);
    lemma_one_width(x.color_diff_depth as nat, y.color_diff_depth as nat, vp.color_diff_excursion + 1);
    assert(x == y);
}

/// A sequence header that stands in a stream is the one that counts from there on.
pub proof fn law_headers_are_kept(
    w: Walker,
    i: Input,
    pi: ParseInfo,
    written: WrittenHeader,
    h: SequenceHeader,
)
    requires
        i.wf(),
        !i.overrun,
        i.bit == 0,
        pi.parse_code == 0x00,
        written.writable(),
        written.says(h),
        i.offers(headers::parse_info_bits(pi) + written.bits()),
    ensures
        sequence::spec_unit(w, i) == (
            Walker { header: Some(h), fragment: w.fragment, mid_sequence: true },
            i.after_bits((headers::parse_info_bits(pi) + written.bits()).len()),
            Ok::<Option<Picture>, Error>(None),
        ),
{
    let j = lemma_unit_front(w, i, pi, written.bits());
    headers::law_sequence_headers_read_back(
        j,
        written.parse_parameters,
        written.base_video_format,
        written.overrides,
        written.picture_coding_mode,
    );
    let read = params::spec_sequence_header(j).1->Ok_0;
    lemma_says_one(written, read, h);
}

/// A picture as an encoder codes it, losslessly, in high-quality slices.
pub struct HqPicture {
    pub transform: Transform,
    pub matrix: MatrixChoice,
    pub padding: Seq<int>,
    pub slices: Seq<HqSlice>,
    pub coefficients: Coefficients,
    /// The three planes with what was put beyond their edges.
    pub planes: (Grid, Grid, Grid),
    /// The quantization matrix: the values of the level-0 band, of the
    /// horizontal-only levels and of the two-dimensional ones.
    pub values: (i64, Seq<i64>, Seq<(i64, i64, i64)>),
}

impl HqPicture {
    /// The transform parameters as bits.
    pub open spec fn parameters(self, seq: SequenceHeader) -> Seq<int> {
        headers::transform_parameters_bits(
            self.transform,
            seq.parse_parameters.major_version,
            PictureKind::HighQuality,
            self.matrix,
        )
    }

    /// The picture as bits.
    pub open spec fn bits(self, seq: SequenceHeader, p: Picture) -> Seq<int> {
        coding::picture_bits(
            p.picture_number,
            self.parameters(seq),
            self.padding,
            coding::hq_bits(self.slices, 0),
        )
    }

    /// Whether this codes a picture.
    pub open spec fn codes(self, seq: SequenceHeader, p: Picture) -> bool {
        let t = self.transform;
        let cp = seq.coding_parameters;
        let (dc, h, ac) = self.values;
        &&& headers::writable(
            t,
            cp,
            seq.parse_parameters.major_version,
            PictureKind::HighQuality,
            self.matrix,
        )
        &&& h.len() == t.dwt_depth_ho
        &&& ac.len() == t.dwt_depth
        &&& writing::matrix_values_ok(dc, h, ac)
        &&& t.quant_matrix == writing::matrix_of(dc, h, ac)
        &&& self.coefficients.shaped(t)
        &&& self.coefficients.sized(cp)
        &&& self.slices.len() == t.slices_x * t.slices_y
        &&& forall|k: int|
            0 <= k < self.slices.len() ==> coding::hq_holds(
                #[trigger] self.slices[k],
                self.coefficients,
                t,
                writing::place(t, k % (t.slices_x as int), k / (t.slices_x as int)),
            )
        &&& coding::coefficients_of(
            self.coefficients,
            t,
            cp,
            p,
            self.planes.0,
            self.planes.1,
            self.planes.2,
        )
        &&& coding::fills_up(self.parameters(seq).len(), self.padding)
    }
}

/// A high-quality picture in a stream decodes to its samples.
pub proof fn law_hq_pictures_are_delivered(
    w: Walker,
    i: Input,
    pi: ParseInfo,
    seq: SequenceHeader,
    coded: HqPicture,
    p: Picture,
)
    requires
        i.wf(),
        !i.overrun,
        i.bit == 0,
        w.header == Some(seq),
        w.fragment is None,
        pi.parse_code == 0xE8,
        coded.codes(seq, p),
        i.offers(headers::parse_info_bits(pi) + coded.bits(seq, p)),
    ensures
        sequence::spec_unit(w, i) == (
            Walker { mid_sequence: true, ..w },
            i.after_bits(
                (headers::parse_info_bits(pi) + coded.bits(seq, p)).len(),
            ).with_bits_left(0),
            Ok::<Option<Picture>, Error>(Some(p)),
        ),
{
    let j = lemma_unit_front(w, i, pi, coded.bits(seq, p));
    coding::law_hq_pictures_decode(
        j,
        seq,
        coded.transform,
        coded.matrix,
        coded.padding,
        coded.slices,
        coded.coefficients,
        p,
        coded.planes.0,
        coded.planes.1,
        coded.planes.2,
        coded.values.0,
        coded.values.1,
        coded.values.2,
    );
}

/// A picture as an encoder codes it, losslessly, in low-delay slices.
pub struct LdPicture {
    pub transform: Transform,
    pub matrix: MatrixChoice,
    pub padding: Seq<int>,
    pub slices: Seq<LdSlice>,
    /// How many bits the length of the luma part takes, by slice.
    pub length_bits: Seq<nat>,
    pub coefficients: Coefficients,
    /// The three planes with what was put beyond their edges.
    pub planes: (Grid, Grid, Grid),
    /// The quantization matrix: the values of the level-0 band, of the
    /// horizontal-only levels and of the two-dimensional ones.
    pub values: (i64, Seq<i64>, Seq<(i64, i64, i64)>),
}

impl LdPicture {
    /// The transform parameters as bits.
    pub open spec fn parameters(self, seq: SequenceHeader) -> Seq<int> {
        headers::transform_parameters_bits(
            self.transform,
            seq.parse_parameters.major_version,
            PictureKind::LowDelay,
            self.matrix,
        )
    }

    /// The picture as bits.
    pub open spec fn bits(self, seq: SequenceHeader, p: Picture) -> Seq<int> {
        coding::picture_bits(
            p.picture_number,
            self.parameters(seq),
            self.padding,
            coding::ld_bits(self.slices, self.length_bits, 0),
        )
    }

    /// Whether this codes a picture.
    pub open spec fn codes(self, seq: SequenceHeader, p: Picture) -> bool {
        let t = self.transform;
        let cp = seq.coding_parameters;
        let (dc, h, ac) = self.values;
        &&& headers::writable(
            t,
            cp,
            seq.parse_parameters.major_version,
            PictureKind::LowDelay,
            self.matrix,
        )
        &&& h.len() == t.dwt_depth_ho
        &&& ac.len() == t.dwt_depth
        &&& writing::matrix_values_ok(dc, h, ac)
        &&& t.quant_matrix == writing::matrix_of(dc, h, ac)
        &&& self.coefficients.shaped(t)
        &&& self.coefficients.sized(cp)
        &&& coding::ld_slices_hold(
            self.slices,
            self.length_bits,
            coding::all_residuals(self.coefficients),
            t,
        )
        &&& coding::coefficients_of(
            self.coefficients,
            t,
            cp,
            p,
            self.planes.0,
            self.planes.1,
            self.planes.2,
        )
        &&& coding::fills_up(self.parameters(seq).len(), self.padding)
    }
}

/// A low-delay picture in a stream decodes to its samples.
pub proof fn law_ld_pictures_are_delivered(
    w: Walker,
    i: Input,
    pi: ParseInfo,
    seq: SequenceHeader,
    coded: LdPicture,
    p: Picture,
)
    requires
        i.wf(),
        !i.overrun,
        i.bit == 0,
        w.header == Some(seq),
        w.fragment is None,
        pi.parse_code == 0xC8,
        coded.codes(seq, p),
        i.offers(headers::parse_info_bits(pi) + coded.bits(seq, p)),
    ensures
        sequence::spec_unit(w, i) == (
            Walker { mid_sequence: true, ..w },
            i.after_bits(
                (headers::parse_info_bits(pi) + coded.bits(seq, p)).len(),
            ).with_bits_left(0),
            Ok::<Option<Picture>, Error>(Some(p)),
        ),
{
    let j = lemma_unit_front(w, i, pi, coded.bits(seq, p));
    coding::law_ld_pictures_decode(
        j,
        seq,
        coded.transform,
        coded.matrix,
        coded.padding,
        coded.slices,
        coded.length_bits,
        coded.coefficients,
        p,
        coded.planes.0,
        coded.planes.1,
        coded.planes.2,
        coded.values.0,
        coded.values.1,
        coded.values.2,
    );
}

/// A data unit between the header and the end of a sequence.
pub enum WrittenUnit {
    Hq(ParseInfo, HqPicture, Picture),
    Ld(ParseInfo, LdPicture, Picture),
    /// One that is passed over.
    Other(ParseInfo, Seq<int>),
}

impl WrittenUnit {
    /// The data unit as bits.
    pub open spec fn bits(self, seq: SequenceHeader) -> Seq<int> {
        match self {
            WrittenUnit::Hq(pi, coded, p) => headers::parse_info_bits(pi) + coded.bits(seq, p),
            WrittenUnit::Ld(pi, coded, p) => headers::parse_info_bits(pi) + coded.bits(seq, p),
            WrittenUnit::Other(pi, body) => headers::parse_info_bits(pi) + body,
        }
    }

    /// Whether the data unit can stand in a sequence.
    pub open spec fn stands(self, seq: SequenceHeader) -> bool {
        match self {
            WrittenUnit::Hq(pi, coded, p) => pi.parse_code == 0xE8 && coded.codes(seq, p),
            WrittenUnit::Ld(pi, coded, p) => pi.parse_code == 0xC8 && coded.codes(seq, p),
            WrittenUnit::Other(pi, body) => {
                &&& pi.parse_code == 0x20 || pi.parse_code == 0x30
                &&& pi.next_parse_offset >= 13
                &&& body.len() == 8 * (pi.next_parse_offset - 13)
            },
        }
    }

    /// The pictures in the data unit.
    pub open spec fn pictures(self) -> Seq<Picture> {
        match self {
            WrittenUnit::Hq(_, _, p) => seq![p],
            WrittenUnit::Ld(_, _, p) => seq![p],
            WrittenUnit::Other(_, _) => seq![],
        }
    }
}

/// Data units one after another, from number `from` on.
pub open spec fn units_bits(units: Seq<WrittenUnit>, seq: SequenceHeader, from: int) -> Seq<int>
    decreases units.len() - from,
{
    if from < 0 || from >= units.len() {
        seq![]
    } else {
        units[from].bits(seq) + units_bits(units, seq, from + 1)
    }
}

/// The pictures in data units, from number `from` on.
pub open spec fn pictures_in(units: Seq<WrittenUnit>, from: int) -> Seq<Picture>
    decreases units.len() - from,
{
    if from < 0 || from >= units.len() {
        seq![]
    } else {
        units[from].pictures() + pictures_in(units, from + 1)
    }
}

/// A picture is made of whole bytes.
proof fn lemma_picture_size(number: u32, parameters: Seq<int>, padding: Seq<int>, data: Seq<int>)
    requires
        coding::fills_up(parameters.len(), padding),
        data.len() % 8 == 0,
    ensures
        coding::picture_bits(number, parameters, padding, data).len() % 8 == 0,
{
    writing::lemma_literal_len(number as nat, 32);
}

proof fn lemma_hq_picture_size(coded: HqPicture, seq: SequenceHeader, p: Picture)
    requires
        coded.codes(seq, p),
    ensures
        coded.bits(seq, p).len() % 8 == 0,
{
    coding::lemma_hq_size(coded.slices, coded.coefficients, coded.transform, 0);
    lemma_picture_size(
        p.picture_number,
        coded.parameters(seq),
        coded.padding,
        coding::hq_bits(coded.slices, 0),
    );
}

proof fn lemma_ld_picture_size(coded: LdPicture, seq: SequenceHeader, p: Picture)
    requires
        coded.codes(seq, p),
    ensures
        coded.bits(seq, p).len() % 8 == 0,
{
    coding::lemma_ld_size(
        coded.slices,
        coded.length_bits,
        coding::all_residuals(coded.coefficients),
        coded.transform,
        0,
    );
    lemma_picture_size(
        p.picture_number,
        coded.parameters(seq),
        coded.padding,
        coding::ld_bits(coded.slices, coded.length_bits, 0),
    );
}

proof fn lemma_behind_header(pi: ParseInfo, body: Seq<int>)
    requires
        body.len() % 8 == 0,
    ensures
        (headers::parse_info_bits(pi) + body).len() % 8 == 0,
        (headers::parse_info_bits(pi) + body).len() >= 104,
{
    headers::lemma_parse_info_size(pi);
}

/// A data unit is made of whole bytes, and at least of its header.
proof fn lemma_unit_size(unit: WrittenUnit, seq: SequenceHeader)
    requires
        unit.stands(seq),
    ensures
        unit.bits(seq).len() % 8 == 0,
        unit.bits(seq).len() >= 104,
{
    match unit {
        WrittenUnit::Hq(pi, coded, p) => {
            lemma_hq_picture_size(coded, seq, p);
            lemma_behind_header(pi, coded.bits(seq, p));
        },
        WrittenUnit::Ld(pi, coded, p) => {
            lemma_ld_picture_size(coded, seq, p);
            lemma_behind_header(pi, coded.bits(seq, p));
        },
        WrittenUnit::Other(pi, body) => {
            lemma_behind_header(pi, body);
        },
    }
}

/// A data unit without a picture, padding, and what follows.
proof fn lemma_walk_on(
    w: Walker,
    w1: Walker,
    i: Input,
    x: Seq<int>,
    padding: Seq<int>,
    y: Seq<int>,
) -> (j: Input)
    requires
        w.wf(),
        i.wf(),
        !i.overrun,
        i.bit == 0,
        i.offers(x + (padding + y)),
        coding::fills_up(x.len(), padding),
        y.len() > 0,
        sequence::spec_unit(w, i) == (
            w1,
            i.after_bits(x.len()),
            Ok::<Option<Picture>, Error>(None),
        ),
    ensures
        sequence::spec_walk(w, i) == sequence::preceded(seq![], sequence::spec_walk(w1, j)),
        w1.wf(),
        j.wf(),
        !j.overrun,
        j.bit == 0,
        j.offers(y),
        i.after_bits((x + (padding + y)).len()) == j.after_bits(y.len()),
{
    sequence::law_unit_reads_soundly(w, i, i);
    writing::lemma_split(i, x, padding + y);
    coding::lemma_bit_position(i, x);
    let i1 = i.after_bits(x.len());
    writing::lemma_split(i1, padding, y);
    coding::lemma_padded(i1, padding);
    coding::lemma_bit_position(i1, padding);
    let i2 = i1.after_bits(padding.len());
    assert(!i2.at_end());
    i2
}

/// One data unit of a sequence.
proof fn lemma_unit_step(w: Walker, i: Input, seq: SequenceHeader, unit: WrittenUnit) -> (j: Input)
    requires
        i.wf(),
        !i.overrun,
        i.bit == 0,
        w.header == Some(seq),
        w.fragment is None,
        w.mid_sequence,
        unit.stands(seq),
        i.offers(unit.bits(seq)),
    ensures
        ({
            let (w1, i1, done) = sequence::spec_unit(w, i);
            &&& w1 == w
            &&& i1 == j
            &&& done is Ok
            &&& sequence::pictures_of(done->Ok_0) == unit.pictures()
        }),
        j == i.after_bits(unit.bits(seq).len()) || j == i.after_bits(
            unit.bits(seq).len(),
        ).with_bits_left(0),
{
    match unit {
        WrittenUnit::Hq(pi, coded, p) => law_hq_pictures_are_delivered(w, i, pi, seq, coded, p),
        WrittenUnit::Ld(pi, coded, p) => law_ld_pictures_are_delivered(w, i, pi, seq, coded, p),
        WrittenUnit::Other(pi, body) => law_units_are_passed_over(w, i, pi, body),
    }
    assert(Walker { mid_sequence: true, ..w } == w);
    sequence::spec_unit(w, i).1
}

proof fn lemma_units_walk(
    w: Walker,
    i: Input,
    seq: SequenceHeader,
    units: Seq<WrittenUnit>,
    from: int,
    end: ParseInfo,
)
    requires
        i.wf(),
        !i.overrun,
        i.bit == 0,
        w.wf(),
        w.header == Some(seq),
        w.fragment is None,
        w.mid_sequence,
        0 <= from <= units.len(),
        forall|k: int| 0 <= k < units.len() ==> (#[trigger] units[k]).stands(seq),
        end.parse_code == 0x10,
        i.offers(units_bits(units, seq, from) + headers::parse_info_bits(end)),
        i.after_bits(
            (units_bits(units, seq, from) + headers::parse_info_bits(end)).len(),
        ).at_end(),
    ensures
        sequence::spec_walk(w, i).0 == Walker::fresh(),
        sequence::spec_walk(w, i).2 == Ok::<Seq<Picture>, Error>(pictures_in(units, from)),
    decreases units.len() - from,
{
    let last = headers::parse_info_bits(end);
    if from == units.len() {
        assert(units_bits(units, seq, from) + last =~= last);
        law_sequences_end(w, i, end);
        headers::lemma_parse_info_size(end);
        coding::lemma_bit_position(i, last);
    } else {
        let x = units[from].bits(seq);
        let y = units_bits(units, seq, from + 1) + last;
        assert(units_bits(units, seq, from) + last =~= x + y);
        assert(units[from].stands(seq));
        lemma_unit_size(units[from], seq);
        writing::lemma_split(i, x, y);
        coding::lemma_bit_position(i, x);
        let plain = i.after_bits(x.len());
        let j = lemma_unit_step(w, i, seq, units[from]);
        codes::lemma_offers_bounded(plain, 0, y);
        codes::lemma_after_bits_bounded(plain, 0, y.len());
        headers::lemma_parse_info_size(end);
        assert(y.len() > 0);
        assert(!j.aligned().at_end());
        lemma_units_walk(w, j, seq, units, from + 1, end);
    }
}

/// A stream decodes to the pictures that were written, in their order: a sequence
/// header, padded to whole bytes, any number of pictures of either kind and of data
/// units that are passed over, and the end of the sequence.
pub proof fn law_written_streams_decode(
    data: Seq<u8>,
    head: ParseInfo,
    written: WrittenHeader,
    seq: SequenceHeader,
    padding: Seq<int>,
    units: Seq<WrittenUnit>,
    end: ParseInfo,
)
    requires
        head.parse_code == 0x00,
        written.writable(),
        written.says(seq),
        coding::fills_up(written.bits().len(), padding),
        forall|k: int| 0 <= k < units.len() ==> (#[trigger] units[k]).stands(seq),
        end.parse_code == 0x10,
        writing::bits_of(data) == (headers::parse_info_bits(head) + written.bits()) + (padding + (
        units_bits(units, seq, 0) + headers::parse_info_bits(end))),
    ensures
        sequence::spec_parse_sequence(data) == Ok::<Seq<Picture>, Error>(pictures_in(units, 0)),
        sequence::spec_walk(Walker::fresh(), Input::start(data)).0 == Walker::fresh(),
        sequence::spec_walk(Walker::fresh(), Input::start(data)).2 == Ok::<Seq<Picture>, Error>(
            pictures_in(units, 0),
        ),
{
    let i = Input::start(data);
    let w = Walker::fresh();
    let x = headers::parse_info_bits(head) + written.bits();
    let y = units_bits(units, seq, 0) + headers::parse_info_bits(end);
    writing::law_bytes_offer_their_bits(i);
    writing::lemma_split(i, x, padding + y);
    law_headers_are_kept(w, i, head, written, seq);
    let w1 = Walker { header: Some(seq), fragment: None, mid_sequence: true };
    headers::lemma_parse_info_size(head);
    headers::lemma_parse_info_size(end);
    let j = lemma_walk_on(w, w1, i, x, padding, y);
    lemma_units_walk(w1, j, seq, units, 0, end);
    assert(Seq::<Picture>::empty() + pictures_in(units, 0) =~= pictures_in(units, 0));
}

} // verus!
