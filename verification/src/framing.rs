//! How pictures are framed: the same encoded slices in one picture data unit,
//! or spread over picture fragments, make streams that decode alike.
use crate::bitio::Input;
use crate::error::Error;
use crate::params;
use crate::params::SequenceHeader;
use crate::picture;
use crate::picture::Picture;
use crate::reading;
use crate::sequence;
use crate::sequence::{Assembly, DataUnit, FragmentHeader, Walker};
use crate::slices;
use crate::subband;
use crate::subband::Coefficients;
use crate::transform;
use crate::transform::{PictureKind, Transform};
use vstd::prelude::*;

verus! {

/// Whether a read ended in the last byte or right behind it, and has not run
/// past the end.
pub open spec fn used_up(i: Input) -> bool {
    !i.overrun && i.aligned().at_end()
}

/// Whether a read ended right behind the last byte, and has not run past the
/// end.
pub open spec fn spent(i: Input) -> bool {
    !i.overrun && i.at_end()
}

/// What uses up some bytes reads the same, and as far, with more behind them.
proof fn lemma_read_on<T>(x: Seq<u8>, rest: Seq<u8>, cut: (Input, T), full: (Input, T))
    requires
        Input::start(x).moved_on(cut.0),
        Input::start(x).alike(Input::start(x + rest), cut, full),
        used_up(cut.0),
    ensures
        full.1 == cut.1,
        full.0.aligned() == Input::start(rest),
        spent(cut.0) ==> full.0 == Input::start(rest),
{
    let (a, b) = (Input::start(x), Input::start(x + rest));
    assert forall|k: int| 0 <= k < a.rest.len() implies a.rest[k] == b.rest[k] by {}
    assert(a.cut_off(b) =~= rest);
    reading::lemma_aligned(cut.0, full.0);
    let (a1, b1) = (cut.0.aligned(), full.0.aligned());
    assert(a1.cut_off(b1) =~= b1.rest);
}

/// Byte strings one behind the other.
pub open spec fn joined(parts: Seq<Seq<u8>>) -> Seq<u8>
    decreases parts.len(),
{
    if parts.len() == 0 {
        seq![]
    } else {
        parts[0] + joined(parts.skip(1))
    }
}

/// Whether `info` is a parse-info header for this kind of data unit.
#[verifier::opaque]
pub open spec fn announces(info: Seq<u8>, unit: DataUnit) -> bool {
    let (i, pi) = sequence::spec_parse_info(Input::start(info));
    &&& spent(i)
    &&& pi matches Ok(pi) && sequence::spec_classify(pi.parse_code) == unit
}

/// Whether `unit` is a data unit with this sequence header.
#[verifier::opaque]
pub open spec fn states_header(unit: Seq<u8>, seq: SequenceHeader) -> bool {
    let (i, pi) = sequence::spec_parse_info(Input::start(unit));
    let (i1, h) = params::spec_sequence_header(i);
    &&& pi matches Ok(pi) && sequence::spec_classify(pi.parse_code) == DataUnit::SequenceHeader
    &&& h == Ok::<SequenceHeader, Error>(seq)
    &&& used_up(i1)
}

/// Whether `unit` is a data unit that is skipped: auxiliary data, padding, or one
/// with an unknown parse code.
pub open spec fn skippable(unit: Seq<u8>) -> bool {
    let (i, pi) = sequence::spec_parse_info(Input::start(unit));
    pi matches Ok(pi) && {
        let (i1, skipped) = sequence::spec_skip(i, pi.next_parse_offset);
        &&& match sequence::spec_classify(pi.parse_code) {
            DataUnit::AuxiliaryData | DataUnit::Padding | DataUnit::Reserved => true,
            _ => false,
        }
        &&& skipped is Ok
        &&& used_up(i1)
    }
}

/// Whether `unit` may stand between the data units of a picture: one that is
/// skipped, or the sequence header once more.
#[verifier::opaque]
pub open spec fn filler(unit: Seq<u8>, seq: SequenceHeader) -> bool {
    skippable(unit) || states_header(unit, seq)
}

/// Whether every data unit is a [`filler`].
pub open spec fn fillers(units: Seq<Seq<u8>>, seq: SequenceHeader) -> bool {
    forall|k: int| 0 <= k < units.len() ==> filler(#[trigger] units[k], seq)
}

/// Whether each byte string encodes one slice, the first of them slice `from`.
pub open spec fn encode_slices(
    encoded: Seq<Seq<u8>>,
    td: Coefficients,
    t: Transform,
    kind: PictureKind,
    from: int,
) -> bool
    decreases encoded.len(),
{
    encoded.len() > 0 ==> {
        let (i, td1, _, done) = slices::spec_unpack_slices(
            Input::start(encoded[0]),
            td,
            t,
            kind,
            from,
            from + 1,
        );
        &&& done is Ok
        &&& spent(i)
        &&& encode_slices(encoded.skip(1), td1, t, kind, from + 1)
    }
}

/// The coefficients with those of the encoded slices put in.
pub open spec fn stored(
    encoded: Seq<Seq<u8>>,
    td: Coefficients,
    t: Transform,
    kind: PictureKind,
    from: int,
) -> Coefficients
    decreases encoded.len(),
{
    if encoded.len() == 0 {
        td
    } else {
        stored(
            encoded.skip(1),
            slices::spec_unpack_slices(
                Input::start(encoded[0]),
                td,
                t,
                kind,
                from,
                from + 1,
            ).1,
            t,
            kind,
            from + 1,
        )
    }
}

/// Encoded slices unpack one after the other, whatever follows them.
proof fn lemma_slices_on(
    encoded: Seq<Seq<u8>>,
    rest: Seq<u8>,
    td: Coefficients,
    t: Transform,
    kind: PictureKind,
    from: int,
)
    requires
        t.slices_valid(),
        0 <= from,
        from + encoded.len() <= t.slices_x * t.slices_y,
        encode_slices(encoded, td, t, kind, from),
    ensures
        slices::spec_unpack_slices(
            Input::start(joined(encoded) + rest),
            td,
            t,
            kind,
            from,
            from + encoded.len(),
        ) == (
            Input::start(rest),
            stored(encoded, td, t, kind, from),
            from + encoded.len(),
            Ok::<(), Error>(()),
        ),
    decreases encoded.len(),
{
    if encoded.len() == 0 {
        assert(joined(encoded) + rest =~= rest);
    } else {
        let first = encoded[0];
        let others = encoded.skip(1);
        let more = joined(others) + rest;
        let whole = Input::start(joined(encoded) + rest);
        assert(joined(encoded) + rest =~= first + more);
        slices::lemma_unpack_slices(Input::start(first), whole, td, t, kind, from, from + 1);
        let x = slices::spec_unpack_slices(Input::start(first), td, t, kind, from, from + 1);
        let y = slices::spec_unpack_slices(whole, td, t, kind, from, from + 1);
        lemma_read_on(first, more, (x.0, (x.1, x.2, x.3)), (y.0, (y.1, y.2, y.3)));
        lemma_slices_on(others, rest, x.1, t, kind, from + 1);
        slices::law_slices_unpack_in_pieces(
            whole,
            td,
            t,
            kind,
            from,
            from + 1,
            from + encoded.len(),
        );
    }
}

/// Encoded slices may be parted anywhere.
proof fn lemma_parted(
    encoded: Seq<Seq<u8>>,
    k: int,
    td: Coefficients,
    t: Transform,
    kind: PictureKind,
    from: int,
)
    requires
        0 <= k <= encoded.len(),
        encode_slices(encoded, td, t, kind, from),
    ensures
        encode_slices(encoded.take(k), td, t, kind, from),
        encode_slices(
            encoded.skip(k),
            stored(encoded.take(k), td, t, kind, from),
            t,
            kind,
            from + k,
        ),
        stored(encoded, td, t, kind, from) == stored(
            encoded.skip(k),
            stored(encoded.take(k), td, t, kind, from),
            t,
            kind,
            from + k,
        ),
    decreases k,
{
    if k == 0 {
        assert(encoded.skip(0) =~= encoded);
    } else {
        let td1 = slices::spec_unpack_slices(
            Input::start(encoded[0]),
            td,
            t,
            kind,
            from,
            from + 1,
        ).1;
        lemma_parted(encoded.skip(1), k - 1, td1, t, kind, from + 1);
        assert(encoded.take(k).skip(1) =~= encoded.skip(1).take(k - 1));
        assert(encoded.skip(1).skip(k - 1) =~= encoded.skip(k));
    }
}

/// An encoded picture: what is to be framed.
pub struct Coded {
    /// The header of the sequence.
    pub seq: SequenceHeader,
    pub kind: PictureKind,
    pub number: u32,
    /// The transform parameters, and their encoding.
    pub transform: Transform,
    pub parameters: Seq<u8>,
    /// The encoding of each slice, in raster order.
    pub encoded: Seq<Seq<u8>>,
}

impl Coded {
    /// The empty coefficient store.
    pub open spec fn store(self) -> Coefficients {
        subband::spec_init_transform_data(self.seq.coding_parameters, self.transform)
    }

    /// Whether the encodings are those of one picture of the sequence.
    pub open spec fn valid(self) -> bool {
        let (i, t) = transform::spec_transform_parameters(
            Input::start(self.parameters),
            self.seq,
            self.kind,
        );
        &&& self.seq.valid()
        &&& t == Ok::<Transform, Error>(self.transform)
        &&& used_up(i)
        &&& self.encoded.len() == self.transform.slices_x * self.transform.slices_y
        &&& encode_slices(self.encoded, self.store(), self.transform, self.kind, 0)
    }

    /// The picture in assembly with these coefficients, `todo` slices still to
    /// come.
    pub open spec fn assembly(self, td: Coefficients, todo: int) -> Assembly {
        Assembly {
            picture_number: self.number,
            kind: self.kind,
            seq: self.seq,
            transform: self.transform,
            data: td,
            slices_received: self.encoded.len() - todo,
        }
    }

    /// The picture that all of the slices, put into the empty store, decode to.
    pub open spec fn picture(self) -> Picture {
        picture::spec_picture_decode(
            sequence::assembled(
                self.assembly(
                    stored(self.encoded, self.store(), self.transform, self.kind, 0),
                    0,
                ),
            ),
            self.seq.coding_parameters,
        )->Ok_0
    }

    /// The walker inside the sequence, with this picture in assembly.
    pub open spec fn walker(self, fragment: Option<Assembly>) -> Walker {
        Walker { header: Some(self.seq), fragment, mid_sequence: true }
    }
}

/// A picture in one data unit, with the data units around it.
pub struct WholeFraming {
    /// The sequence header.
    pub head: Seq<u8>,
    /// What stands in front of the picture.
    pub before: Seq<Seq<u8>>,
    /// The parse-info header of the picture.
    pub info: Seq<u8>,
    /// The picture number.
    pub number: Seq<u8>,
    /// What stands behind the picture.
    pub after: Seq<Seq<u8>>,
    /// The end of the sequence.
    pub end: Seq<u8>,
}

impl WholeFraming {
    /// Whether this frames picture `c`.
    pub open spec fn frames(self, c: Coded) -> bool {
        let (i, number) = Input::start(self.number).uint_lit(4);
        &&& states_header(self.head, c.seq)
        &&& fillers(self.before, c.seq)
        &&& announces(self.info, DataUnit::Picture(c.kind))
        &&& number == c.number
        &&& spent(i)
        &&& fillers(self.after, c.seq)
        &&& announces(self.end, DataUnit::EndOfSequence)
    }

    /// The stream.
    pub open spec fn stream(self, c: Coded) -> Seq<u8> {
        self.head + (joined(self.before) + (self.info + (self.number + (c.parameters + (joined(
            c.encoded,
        ) + (joined(self.after) + self.end))))))
    }
}

/// A data unit of a fragmented picture behind its setup fragment: one in
/// between, or a data fragment with so many slices.
pub enum Piece {
    Between(Seq<u8>),
    Data { info: Seq<u8>, header: Seq<u8>, count: nat },
}

/// Whether `header` is the header of a fragment of picture `c` that carries
/// `count` slices, slice `from` being the first.
#[verifier::opaque]
pub open spec fn heads_fragment(header: Seq<u8>, c: Coded, from: int, count: nat) -> bool {
    let (i, fh) = sequence::spec_fragment_header(Input::start(header));
    &&& spent(i)
    &&& fh matches Ok(fh) && {
        &&& fh.picture_number == c.number
        &&& fh.fragment_slice_count == count
        &&& count > 0 ==> fh.fragment_y_offset * c.transform.slices_x + fh.fragment_x_offset
            == from
    }
}

/// Whether the pieces carry the slices `todo` of picture `c`, up to the last,
/// in raster order, each in one of the data fragments.
pub open spec fn carried(pieces: Seq<Piece>, c: Coded, todo: Seq<Seq<u8>>) -> bool
    decreases pieces.len(),
{
    if pieces.len() == 0 {
        todo.len() == 0
    } else {
        let others = pieces.skip(1);
        match pieces[0] {
            Piece::Between(unit) => filler(unit, c.seq) && carried(others, c, todo),
            Piece::Data { info, header, count } => {
                &&& announces(info, DataUnit::Fragment(c.kind))
                &&& heads_fragment(header, c, c.encoded.len() - todo.len(), count)
                &&& 0 < count <= todo.len()
                &&& carried(others, c, todo.skip(count as int))
            },
        }
    }
}

/// The pieces as bytes.
pub open spec fn laid_out(pieces: Seq<Piece>, todo: Seq<Seq<u8>>) -> Seq<u8>
    decreases pieces.len(),
{
    if pieces.len() == 0 {
        seq![]
    } else {
        let others = pieces.skip(1);
        match pieces[0] {
            Piece::Between(unit) => unit + laid_out(others, todo),
            Piece::Data { info, header, count } => info + (header + (joined(
                todo.take(count as int),
            ) + laid_out(others, todo.skip(count as int)))),
        }
    }
}

/// A picture in fragments, with the data units around them.
pub struct FragmentFraming {
    /// The sequence header.
    pub head: Seq<u8>,
    /// What stands in front of the setup fragment.
    pub before: Seq<Seq<u8>>,
    /// The parse-info and the fragment header of the setup fragment.
    pub info: Seq<u8>,
    pub header: Seq<u8>,
    /// The data fragments, and what stands between and behind them.
    pub pieces: Seq<Piece>,
    /// The end of the sequence.
    pub end: Seq<u8>,
}

impl FragmentFraming {
    /// Whether this frames picture `c`.
    pub open spec fn frames(self, c: Coded) -> bool {
        &&& states_header(self.head, c.seq)
        &&& fillers(self.before, c.seq)
        &&& announces(self.info, DataUnit::Fragment(c.kind))
        &&& heads_fragment(self.header, c, 0, 0)
        &&& carried(self.pieces, c, c.encoded)
        &&& announces(self.end, DataUnit::EndOfSequence)
    }

    /// The stream.
    pub open spec fn stream(self, c: Coded) -> Seq<u8> {
        self.head + (joined(self.before) + (self.info + (self.header + (c.parameters + (laid_out(
            self.pieces,
            c.encoded,
        ) + self.end)))))
    }
}

/// A parse-info header with more behind it.
proof fn lemma_info_on(info: Seq<u8>, unit: DataUnit, rest: Seq<u8>)
    requires
        announces(info, unit),
    ensures
        ({
            let (i, pi) = sequence::spec_parse_info(Input::start(info + rest));
            &&& i == Input::start(rest)
            &&& pi matches Ok(pi) && sequence::spec_classify(pi.parse_code) == unit
        }),
        info.len() > 0,
{
    reveal(announces);
    let (a, b) = (Input::start(info), Input::start(info + rest));
    sequence::law_parse_info_reads_soundly(a, b);
    lemma_read_on(info, rest, sequence::spec_parse_info(a), sequence::spec_parse_info(b));
}

/// A walk over a data unit with more behind it goes on behind the data unit.
proof fn lemma_walk_step(w: Walker, i: Input, rest: Seq<u8>)
    requires
        w.wf(),
        i.wf(),
        sequence::spec_unit(w, i).2 is Ok,
        sequence::spec_unit(w, i).1.aligned() == Input::start(rest),
        rest.len() > 0,
    ensures
        sequence::spec_unit(w, i).0.wf(),
        sequence::spec_walk(w, i) == sequence::preceded(
            sequence::pictures_of(sequence::spec_unit(w, i).2->Ok_0),
            sequence::spec_walk(sequence::spec_unit(w, i).0, Input::start(rest)),
        ),
{
    sequence::law_unit_reads_soundly(w, i, i);
}

/// A data unit that is used up by itself, with more behind it.
proof fn lemma_unit_on(w: Walker, unit: Seq<u8>, rest: Seq<u8>)
    requires
        w.wf(),
        sequence::spec_unit(w, Input::start(unit)).2 is Ok,
        used_up(sequence::spec_unit(w, Input::start(unit)).1),
    ensures
        ({
            let alone = sequence::spec_unit(w, Input::start(unit));
            let step = sequence::spec_unit(w, Input::start(unit + rest));
            step.0 == alone.0 && step.1.aligned() == Input::start(rest) && step.2 == alone.2
        }),
{
    let (a, b) = (Input::start(unit), Input::start(unit + rest));
    sequence::law_unit_reads_soundly(w, a, b);
    let (x, y) = (sequence::spec_unit(w, a), sequence::spec_unit(w, b));
    lemma_read_on(unit, rest, (x.1, (x.0, x.2)), (y.1, (y.0, y.2)));
}

/// Fillers leave a walk as it is.
proof fn lemma_fillers(c: Coded, fragment: Option<Assembly>, units: Seq<Seq<u8>>, rest: Seq<u8>)
    requires
        c.walker(fragment).wf(),
        fillers(units, c.seq),
        rest.len() > 0,
    ensures
        sequence::spec_walk(c.walker(fragment), Input::start(joined(units) + rest))
            == sequence::spec_walk(c.walker(fragment), Input::start(rest)),
    decreases units.len(),
{
    if units.len() == 0 {
        assert(joined(units) + rest =~= rest);
    } else {
        let others = units.skip(1);
        let more = joined(others) + rest;
        assert(joined(units) + rest =~= units[0] + more);
        assert(filler(units[0], c.seq));
        assert forall|k: int| 0 <= k < others.len() implies filler(#[trigger] others[k], c.seq) by {
            assert(others[k] == units[k + 1]);
        }
        lemma_filler(c, fragment, units[0], more);
        lemma_fillers(c, fragment, others, rest);
    }
}

proof fn lemma_filler(c: Coded, fragment: Option<Assembly>, unit: Seq<u8>, rest: Seq<u8>)
    requires
        c.walker(fragment).wf(),
        filler(unit, c.seq),
        rest.len() > 0,
    ensures
        sequence::spec_walk(c.walker(fragment), Input::start(unit + rest)) == sequence::spec_walk(
            c.walker(fragment),
            Input::start(rest),
        ),
{
    let w = c.walker(fragment);
    let step = sequence::spec_unit(w, Input::start(unit));
    assert(step.0 == w && step.2 == Ok::<Option<Picture>, Error>(None) && used_up(step.1)) by {
        reveal(filler);
        reveal(states_header);
        reveal(sequence::spec_unit);
    }
    lemma_unit_on(w, unit, rest);
    lemma_walk_step(w, Input::start(unit + rest), rest);
    sequence::lemma_preceded_empty(sequence::spec_walk(w, Input::start(rest)));
}

/// The sequence header in front of a stream.
proof fn lemma_head(c: Coded, head: Seq<u8>, rest: Seq<u8>)
    requires
        states_header(head, c.seq),
        rest.len() > 0,
    ensures
        c.walker(None).wf(),
        sequence::spec_walk(Walker::fresh(), Input::start(head + rest)) == sequence::spec_walk(
            c.walker(None),
            Input::start(rest),
        ),
{
    let w = Walker::fresh();
    let step = sequence::spec_unit(w, Input::start(head));
    assert(step.0 == c.walker(None) && step.2 == Ok::<Option<Picture>, Error>(None) && used_up(
        step.1,
    )) by {
        reveal(states_header);
        reveal(sequence::spec_unit);
    }
    lemma_unit_on(w, head, rest);
    lemma_walk_step(w, Input::start(head + rest), rest);
    sequence::lemma_preceded_empty(sequence::spec_walk(c.walker(None), Input::start(rest)));
}

/// The end of the sequence.
proof fn lemma_end(c: Coded, end: Seq<u8>)
    requires
        c.walker(None).wf(),
        announces(end, DataUnit::EndOfSequence),
    ensures
        end.len() > 0,
        sequence::spec_walk(c.walker(None), Input::start(end)) == (
            Walker::fresh(),
            Input::start(seq![]),
            Ok::<Seq<Picture>, Error>(seq![]),
        ),
{
    let w = c.walker(None);
    let i = Input::start(end);
    assert(end + seq![] =~= end);
    lemma_info_on(end, DataUnit::EndOfSequence, seq![]);
    assert(sequence::spec_unit(w, i) == (
        Walker::fresh(),
        Input::start(seq![]),
        Ok::<Option<Picture>, Error>(None),
    )) by {
        reveal(sequence::spec_unit);
    }
}

/// Encoded parameters with more behind them.
proof fn lemma_parameters_on(c: Coded, rest: Seq<u8>)
    requires
        c.valid(),
    ensures
        c.transform.valid(c.seq.coding_parameters),
        c.encoded.len() > 0,
        ({
            let (i, t) = transform::spec_transform_parameters(
                Input::start(c.parameters + rest),
                c.seq,
                c.kind,
            );
            &&& t == Ok::<Transform, Error>(c.transform)
            &&& i.aligned() == Input::start(rest)
            &&& i.wf()
        }),
{
    let (a, b) = (Input::start(c.parameters), Input::start(c.parameters + rest));
    transform::law_transform_parameters_read_soundly(a, b, c.seq, c.kind);
    lemma_read_on(
        c.parameters,
        rest,
        transform::spec_transform_parameters(a, c.seq, c.kind),
        transform::spec_transform_parameters(b, c.seq, c.kind),
    );
    sequence::lemma_slice_count_positive(c.transform);
}

/// The picture of a valid encoding can be decoded.
proof fn lemma_decodes(c: Coded)
    requires
        c.valid(),
    ensures
        ({
            let all = stored(c.encoded, c.store(), c.transform, c.kind, 0);
            picture::spec_picture_decode(
                sequence::assembled(c.assembly(all, 0)),
                c.seq.coding_parameters,
            ) == Ok::<Picture, Error>(c.picture())
        }),
        c.picture().picture_number == c.number,
{
    lemma_parameters_on(c, seq![]);
}

/// The data unit of a whole picture.
proof fn lemma_whole_unit(c: Coded, info: Seq<u8>, number: Seq<u8>, rest: Seq<u8>)
    requires
        c.valid(),
        announces(info, DataUnit::Picture(c.kind)),
        Input::start(number).uint_lit(4).1 == c.number,
        spent(Input::start(number).uint_lit(4).0),
    ensures
        sequence::spec_unit(
            c.walker(None),
            Input::start(info + (number + (c.parameters + (joined(c.encoded) + rest)))),
        ) == (c.walker(None), Input::start(rest), Ok::<Option<Picture>, Error>(Some(c.picture()))),
{
    let slices_on = joined(c.encoded) + rest;
    let parameters_on = c.parameters + slices_on;
    let body = number + parameters_on;
    let (a, b) = (Input::start(number), Input::start(body));
    lemma_info_on(info, DataUnit::Picture(c.kind), body);
    reading::lemma_nbits(a, b, 32);
    lemma_read_on(number, parameters_on, a.uint_lit(4), b.uint_lit(4));
    lemma_parameters_on(c, slices_on);
    lemma_slices_on(c.encoded, rest, c.store(), c.transform, c.kind, 0);
    lemma_decodes(c);
    assert(sequence::spec_picture_unit(c.walker(None), b, c.kind) == (
        c.walker(None),
        Input::start(rest),
        Ok::<Option<Picture>, Error>(Some(c.picture())),
    ));
    reveal(sequence::spec_unit);
}

/// A stream with a whole picture decodes to the picture.
pub proof fn law_whole_picture_decodes(c: Coded, f: WholeFraming)
    requires
        c.valid(),
        f.frames(c),
    ensures
        sequence::spec_parse_sequence(f.stream(c)) == Ok::<Seq<Picture>, Error>(
            seq![c.picture()],
        ),
        c.picture().picture_number == c.number,
{
    let w = c.walker(None);
    let tail = joined(f.after) + f.end;
    let unit = f.info + (f.number + (c.parameters + (joined(c.encoded) + tail)));
    lemma_decodes(c);
    lemma_info_on(f.end, DataUnit::EndOfSequence, seq![]);
    lemma_head(c, f.head, joined(f.before) + unit);
    lemma_fillers(c, None, f.before, unit);
    lemma_whole_unit(c, f.info, f.number, tail);
    lemma_walk_step(w, Input::start(unit), tail);
    lemma_fillers(c, None, f.after, f.end);
    lemma_end(c, f.end);
    assert(seq![c.picture()] + seq![] =~= seq![c.picture()]);
}

/// A fragment header with more behind it.
proof fn lemma_fragment_header_on(header: Seq<u8>, c: Coded, from: int, count: nat, rest: Seq<u8>)
    requires
        heads_fragment(header, c, from, count),
    ensures
        ({
            let (i, fh) = sequence::spec_fragment_header(Input::start(header + rest));
            &&& i == Input::start(rest)
            &&& fh matches Ok(fh) && {
                &&& fh.picture_number == c.number
                &&& fh.fragment_slice_count == count
                &&& count > 0 ==> fh.fragment_y_offset * c.transform.slices_x
                    + fh.fragment_x_offset == from
            }
        }),
{
    reveal(heads_fragment);
    let (a, b) = (Input::start(header), Input::start(header + rest));
    sequence::law_fragment_header_reads_soundly(a, b);
    lemma_read_on(
        header,
        rest,
        sequence::spec_fragment_header(a),
        sequence::spec_fragment_header(b),
    );
}

/// The setup fragment.
proof fn lemma_setup_unit(c: Coded, info: Seq<u8>, header: Seq<u8>, rest: Seq<u8>)
    requires
        c.valid(),
        announces(info, DataUnit::Fragment(c.kind)),
        heads_fragment(header, c, 0, 0),
    ensures
        ({
            let step = sequence::spec_unit(
                c.walker(None),
                Input::start(info + (header + (c.parameters + rest))),
            );
            &&& step.0 == c.walker(Some(c.assembly(c.store(), c.encoded.len() as int)))
            &&& step.1.aligned() == Input::start(rest)
            &&& step.2 == Ok::<Option<Picture>, Error>(None)
        }),
{
    let parameters_on = c.parameters + rest;
    lemma_info_on(info, DataUnit::Fragment(c.kind), header + parameters_on);
    lemma_fragment_header_on(header, c, 0, 0, parameters_on);
    lemma_parameters_on(c, rest);
    reveal(sequence::spec_unit);
}

/// What the walker makes of the slices of a data fragment, the first `count` of
/// those that are still to come.
spec fn after_slices(
    c: Coded,
    td: Coefficients,
    todo: Seq<Seq<u8>>,
    count: nat,
    rest: Seq<u8>,
) -> sequence::Step {
    let from = c.encoded.len() - todo.len();
    if count < todo.len() {
        let td1 = stored(todo.take(count as int), td, c.transform, c.kind, from);
        (c.walker(Some(c.assembly(td1, todo.len() - count))), Input::start(rest), Ok(None))
    } else {
        (c.walker(None), Input::start(rest), Ok(Some(c.picture())))
    }
}

/// Whether `todo` are the last slices of the picture, `td` holding the others.
spec fn remaining(c: Coded, td: Coefficients, todo: Seq<Seq<u8>>) -> bool {
    let from = c.encoded.len() - todo.len();
    &&& todo.len() <= c.encoded.len()
    &&& encode_slices(todo, td, c.transform, c.kind, from)
    &&& stored(todo, td, c.transform, c.kind, from) == stored(
        c.encoded,
        c.store(),
        c.transform,
        c.kind,
        0,
    )
}

/// The slices of a data fragment.
proof fn lemma_data_fragment(
    c: Coded,
    td: Coefficients,
    todo: Seq<Seq<u8>>,
    fh: FragmentHeader,
    rest: Seq<u8>,
)
    requires
        c.valid(),
        fh.picture_number == c.number,
        fh.fragment_y_offset * c.transform.slices_x + fh.fragment_x_offset == c.encoded.len()
            - todo.len(),
        0 < fh.fragment_slice_count <= todo.len(),
        remaining(c, td, todo),
    ensures
        sequence::spec_data_fragment(
            c.walker(Some(c.assembly(td, todo.len() as int))),
            Input::start(joined(todo.take(fh.fragment_slice_count as int)) + rest),
            fh,
            c.kind,
        ) == after_slices(c, td, todo, fh.fragment_slice_count as nat, rest),
{
    let from = c.encoded.len() - todo.len();
    let count = fh.fragment_slice_count as int;
    let now = todo.take(count);
    let st = c.assembly(td, todo.len() as int);
    lemma_parameters_on(c, seq![]);
    lemma_parted(todo, count, td, c.transform, c.kind, from);
    lemma_slices_on(now, rest, td, c.transform, c.kind, from);
    assert(sequence::data_fragment_fault(st, fh, c.kind) is None);
    if count == todo.len() {
        assert(now =~= todo);
        lemma_decodes(c);
        let all = stored(c.encoded, c.store(), c.transform, c.kind, 0);
        assert(Assembly { data: all, slices_received: from + count, ..st } == c.assembly(all, 0));
    }
}

/// A data fragment.
proof fn lemma_data_unit(
    c: Coded,
    td: Coefficients,
    todo: Seq<Seq<u8>>,
    info: Seq<u8>,
    header: Seq<u8>,
    count: nat,
    rest: Seq<u8>,
)
    requires
        c.valid(),
        announces(info, DataUnit::Fragment(c.kind)),
        heads_fragment(header, c, c.encoded.len() - todo.len(), count),
        0 < count <= todo.len(),
        remaining(c, td, todo),
    ensures
        sequence::spec_unit(
            c.walker(Some(c.assembly(td, todo.len() as int))),
            Input::start(info + (header + (joined(todo.take(count as int)) + rest))),
        ) == after_slices(c, td, todo, count, rest),
{
    let from = c.encoded.len() - todo.len();
    let w = c.walker(Some(c.assembly(td, todo.len() as int)));
    let slices_on = joined(todo.take(count as int)) + rest;
    lemma_info_on(info, DataUnit::Fragment(c.kind), header + slices_on);
    lemma_fragment_header_on(header, c, from, count, slices_on);
    let fh = sequence::spec_fragment_header(Input::start(header + slices_on)).1->Ok_0;
    lemma_data_fragment(c, td, todo, fh, rest);
    let step = after_slices(c, td, todo, count, rest);
    assert(sequence::spec_fragment_parse(w, Input::start(header + slices_on), c.kind) == step);
    assert(w.begun() == w);
    reveal(sequence::spec_unit);
}

/// The coefficients behind a data fragment.
spec fn after_data(c: Coded, td: Coefficients, todo: Seq<Seq<u8>>, count: nat) -> Coefficients {
    stored(todo.take(count as int), td, c.transform, c.kind, c.encoded.len() - todo.len())
}

/// A walk over a data fragment.
proof fn lemma_data_step(
    c: Coded,
    td: Coefficients,
    todo: Seq<Seq<u8>>,
    info: Seq<u8>,
    header: Seq<u8>,
    count: nat,
    rest: Seq<u8>,
)
    requires
        c.valid(),
        c.walker(Some(c.assembly(td, todo.len() as int))).wf(),
        announces(info, DataUnit::Fragment(c.kind)),
        heads_fragment(header, c, c.encoded.len() - todo.len(), count),
        0 < count <= todo.len(),
        remaining(c, td, todo),
        rest.len() > 0,
    ensures
        ({
            let later = todo.skip(count as int);
            let td1 = after_data(c, td, todo, count);
            let after = if later.len() > 0 {
                c.walker(Some(c.assembly(td1, later.len() as int)))
            } else {
                c.walker(None)
            };
            &&& remaining(c, td1, later)
            &&& after.wf()
            &&& sequence::spec_walk(
                c.walker(Some(c.assembly(td, todo.len() as int))),
                Input::start(info + (header + (joined(todo.take(count as int)) + rest))),
            ) == sequence::preceded(
                if later.len() > 0 {
                    seq![]
                } else {
                    seq![c.picture()]
                },
                sequence::spec_walk(after, Input::start(rest)),
            )
        }),
{
    let from = c.encoded.len() - todo.len();
    let unit = info + (header + (joined(todo.take(count as int)) + rest));
    lemma_parted(todo, count as int, td, c.transform, c.kind, from);
    lemma_data_unit(c, td, todo, info, header, count, rest);
    lemma_walk_step(
        c.walker(Some(c.assembly(td, todo.len() as int))),
        Input::start(unit),
        rest,
    );
}

/// The data units behind a setup fragment complete the picture, and end the
/// sequence.
proof fn lemma_pieces(
    c: Coded,
    pieces: Seq<Piece>,
    td: Coefficients,
    todo: Seq<Seq<u8>>,
    fragment: Option<Assembly>,
    end: Seq<u8>,
)
    requires
        c.valid(),
        c.walker(fragment).wf(),
        fragment == if todo.len() > 0 {
            Some(c.assembly(td, todo.len() as int))
        } else {
            None
        },
        remaining(c, td, todo),
        carried(pieces, c, todo),
        announces(end, DataUnit::EndOfSequence),
    ensures
        sequence::spec_walk(c.walker(fragment), Input::start(laid_out(pieces, todo) + end)) == (
            Walker::fresh(),
            Input::start(seq![]),
            Ok::<Seq<Picture>, Error>(
                if todo.len() > 0 {
                    seq![c.picture()]
                } else {
                    seq![]
                },
            ),
        ),
    decreases pieces.len(),
{
    lemma_info_on(end, DataUnit::EndOfSequence, seq![]);
    if pieces.len() == 0 {
        assert(laid_out(pieces, todo) + end =~= end);
        lemma_end(c, end);
    } else {
        let others = pieces.skip(1);
        match pieces[0] {
            Piece::Between(unit) => {
                let rest = laid_out(others, todo) + end;
                assert(laid_out(pieces, todo) + end =~= unit + rest);
                lemma_filler(c, fragment, unit, rest);
                lemma_pieces(c, others, td, todo, fragment, end);
            },
            Piece::Data { info, header, count } => {
                let later = todo.skip(count as int);
                let rest = laid_out(others, later) + end;
                let td1 = after_data(c, td, todo, count);
                let after = if later.len() > 0 {
                    Some(c.assembly(td1, later.len() as int))
                } else {
                    None
                };
                assert(laid_out(pieces, todo) + end =~= info + (header + (joined(
                    todo.take(count as int),
                ) + rest)));
                lemma_data_step(c, td, todo, info, header, count, rest);
                lemma_pieces(c, others, td1, later, after, end);
                let picture = seq![c.picture()];
                assert(seq![] + picture =~= picture);
                assert(picture + seq![] =~= picture);
            },
        }
    }
}

/// A stream with a fragmented picture decodes to the picture.
pub proof fn law_fragmented_picture_decodes(c: Coded, f: FragmentFraming)
    requires
        c.valid(),
        f.frames(c),
    ensures
        sequence::spec_parse_sequence(f.stream(c)) == Ok::<Seq<Picture>, Error>(
            seq![c.picture()],
        ),
        c.picture().picture_number == c.number,
{
    let w = c.walker(None);
    let tail = laid_out(f.pieces, c.encoded) + f.end;
    let unit = f.info + (f.header + (c.parameters + tail));
    lemma_decodes(c);
    lemma_info_on(f.end, DataUnit::EndOfSequence, seq![]);
    lemma_head(c, f.head, joined(f.before) + unit);
    lemma_fillers(c, None, f.before, unit);
    lemma_setup_unit(c, f.info, f.header, tail);
    lemma_walk_step(w, Input::start(unit), tail);
    lemma_parameters_on(c, seq![]);
    let st = c.assembly(c.store(), c.encoded.len() as int);
    lemma_pieces(c, f.pieces, c.store(), c.encoded, Some(st), f.end);
    assert(seq![] + seq![c.picture()] =~= seq![c.picture()]);
}

/// A picture comes out the same whether it is fragmented or not: for any split
/// of its slices over data fragments, and with any data units to be skipped or
/// repeated sequence headers around and in between, both streams decode to the
/// same single picture. For low delay that is the picture whose DC bands were
/// predicted once, with all of the slices there.
pub proof fn law_framings_decode_alike(c: Coded, whole: WholeFraming, fragments: FragmentFraming)
    requires
        c.valid(),
        whole.frames(c),
        fragments.frames(c),
    ensures
        sequence::spec_parse_sequence(whole.stream(c)) is Ok,
        sequence::spec_parse_sequence(whole.stream(c))->Ok_0.len() == 1,
        sequence::spec_parse_sequence(fragments.stream(c)) == sequence::spec_parse_sequence(
            whole.stream(c),
        ),
{
    law_whole_picture_decodes(c, whole);
    law_fragmented_picture_decodes(c, fragments);
}

} // verus!
