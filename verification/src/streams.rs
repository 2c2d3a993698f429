//! What holds of whole streams: how truncated streams, streams in chunks and
//! concatenated sequences decode.
use crate::bitio::Input;
use crate::error::{Error, Result};
use crate::params::SequenceHeader;
use crate::picture;
use crate::picture::Picture;
use crate::reading;
use crate::sequence;
use crate::sequence::{Assembly, FragmentHeader, Walk, Walker};
use crate::slices;
use crate::subband;
use crate::subband::Coefficients;
use crate::transform;
use crate::transform::{PictureKind, Transform};
use vstd::prelude::*;

verus! {

/// A walk over truncated data fails as the walk over all of the data does, or
/// with an unexpected end of file, or completes no picture but those that the
/// walk over all of the data completes first.
pub proof fn law_truncated_walk(w: Walker, a: Input, b: Input)
    requires
        w.wf(),
        a.begins(b),
    ensures
        match sequence::spec_walk(w, a).2 {
            Ok(p) => sequence::spec_walk(w, b).2 matches Ok(q) ==> p.is_prefix_of(q),
            Err(e) => e == Error::UnexpectedEof || sequence::spec_walk(w, b).2 == Err::<
                Seq<Picture>,
                Error,
            >(e),
        },
    decreases a.rest.len(),
{
    sequence::law_unit_reads_soundly(w, a, b);
    sequence::law_unit_reads_soundly(w, b, b);
    let (w1, a1, res) = sequence::spec_unit(w, a);
    let b1 = sequence::spec_unit(w, b).1;
    if let Ok(p) = res {
        reading::lemma_aligned(a1, b1);
        reading::lemma_aligned(b1, b1);
        if !a1.aligned().at_end() {
            law_truncated_walk(w1, a1.aligned(), b1.aligned());
        }
    }
}

/// A truncated stream decodes to the first pictures of the stream, or fails as
/// the stream does, or because it ends too early.
pub proof fn law_truncated_stream(data: Seq<u8>, k: int)
    requires
        0 <= k <= data.len(),
    ensures
        match sequence::spec_parse_sequence(data.take(k)) {
            Ok(p) => sequence::spec_parse_sequence(data) matches Ok(q) ==> p.is_prefix_of(q),
            Err(e) => {
                ||| e == Error::UnexpectedEof
                ||| e == Error::InvalidValue(
                    "stream ended while a fragmented picture is incomplete",
                )
                ||| sequence::spec_parse_sequence(data) == Err::<
                    Seq<Picture>,
                    Error,
                >(e)
            },
        },
{
    reading::lemma_take_begins(data, k);
    law_truncated_walk(Walker::fresh(), Input::start(data.take(k)), Input::start(data));
}

/// Whether the data are data units that all decode, the sequence ending with
/// the last byte and not before.
pub open spec fn single_sequence(w: Walker, i: Input) -> bool
    decreases i.rest.len(),
    when w.wf() && i.wf()
    via single_sequence_decreases
{
    match sequence::spec_unit(w, i) {
        (_, _, Err(_)) => false,
        (w1, i1, Ok(_)) => if i1.aligned().rest.len() == 0 {
            !w1.mid_sequence
        } else {
            w1.mid_sequence && single_sequence(w1, i1.aligned())
        },
    }
}

#[via_fn]
proof fn single_sequence_decreases(w: Walker, i: Input) {
    sequence::law_unit_reads_soundly(w, i, i);
    reading::lemma_aligned(sequence::spec_unit(w, i).1, i);
}

proof fn lemma_truncated_sequence(w: Walker, a: Input, b: Input)
    requires
        w.wf(),
        a.begins(b),
        a.rest.len() < b.rest.len(),
        single_sequence(w, b),
    ensures
        match sequence::spec_walk(w, a).2 {
            Ok(_) => sequence::spec_walk(w, a).0.mid_sequence,
            Err(e) => e == Error::UnexpectedEof,
        },
    decreases a.rest.len(),
{
    sequence::law_unit_reads_soundly(w, a, b);
    sequence::law_unit_reads_soundly(w, b, b);
    let (w1, a1, res) = sequence::spec_unit(w, a);
    let b1 = sequence::spec_unit(w, b).1;
    if res is Ok {
        reading::lemma_aligned(a1, b1);
        reading::lemma_aligned(b1, b1);
        let (a2, b2) = (a1.aligned(), b1.aligned());
        assert(a2.cut_off(b2).len() == a.cut_off(b).len());
        if !a2.at_end() {
            lemma_truncated_sequence(w1, a2, b2);
        }
    }
}

/// No truncation of a sequence passes for the sequence: it always fails, and
/// for the reason that it ends too early.
pub proof fn law_no_truncated_sequence_decodes(data: Seq<u8>, k: int)
    requires
        0 <= k < data.len(),
        single_sequence(Walker::fresh(), Input::start(data)),
    ensures
        ({
            let res = sequence::spec_parse_sequence(data.take(k));
            res matches Err(e) && (e == Error::UnexpectedEof || e == Error::InvalidValue(
                "stream ended while a fragmented picture is incomplete",
            ))
        }),
{
    reading::lemma_take_begins(data, k);
    lemma_truncated_sequence(
        Walker::fresh(),
        Input::start(data.take(k)),
        Input::start(data),
    );
}

/// Where a walk comes to stand between two data units, or behind the last of
/// them, with `left` bytes to go: the walker at that point.
pub open spec fn standing(w: Walker, i: Input, left: nat) -> Option<Walker>
    decreases i.rest.len(),
    when w.wf() && i.wf()
    via standing_decreases
{
    match sequence::spec_unit(w, i) {
        (_, _, Err(_)) => None,
        (w1, i1, Ok(_)) => if i1.aligned().rest.len() == left {
            Some(w1)
        } else if i1.aligned().rest.len() < left {
            None
        } else {
            standing(w1, i1.aligned(), left)
        },
    }
}

#[via_fn]
proof fn standing_decreases(w: Walker, i: Input, left: nat) {
    sequence::law_unit_reads_soundly(w, i, i);
    reading::lemma_aligned(sequence::spec_unit(w, i).1, i);
}

proof fn lemma_standing(w: Walker, a: Input, b: Input)
    requires
        w.wf(),
        a.begins(b),
    ensures
        standing(w, b, a.cut_off(b).len()) == match sequence::spec_walk(w, a).2 {
            Ok(_) => Some(sequence::spec_walk(w, a).0),
            Err(_) => None,
        },
    decreases a.rest.len(),
{
    sequence::law_unit_reads_soundly(w, a, b);
    sequence::law_unit_reads_soundly(w, b, b);
    let (w1, a1, res) = sequence::spec_unit(w, a);
    let b1 = sequence::spec_unit(w, b).1;
    reading::lemma_aligned(a1, b1);
    reading::lemma_aligned(b1, b1);
    if res is Ok {
        let (a2, b2) = (a1.aligned(), b1.aligned());
        assert(a2.cut_off(b2).len() == a.cut_off(b).len());
        if !a2.at_end() {
            lemma_standing(w1, a2, b2);
        }
    }
}

/// A chunk decodes exactly if it consists of whole data units: a walk over the
/// chunk alone goes well if and only if the walk over the chunk and what follows
/// comes to stand behind the chunk; and both leave the walker the same there.
pub proof fn law_whole_units_decode(w: Walker, a: Seq<u8>, b: Seq<u8>)
    requires
        w.wf(),
    ensures
        standing(w, Input::start(a + b), b.len()) == match sequence::spec_walk(
            w,
            Input::start(a),
        ).2 {
            Ok(_) => Some(sequence::spec_walk(w, Input::start(a)).0),
            Err(_) => None,
        },
{
    let (i, j) = (Input::start(a), Input::start(a + b));
    assert forall|k: int| 0 <= k < i.rest.len() implies i.rest[k] == j.rest[k] by {}
    assert(i.cut_off(j) =~= b);
    lemma_standing(w, i, j);
}

proof fn lemma_walk_on(w: Walker, a: Input, b: Input)
    requires
        w.wf(),
        a.begins(b),
        a.bits_left == 0,
        b.rest.len() > a.rest.len(),
        sequence::spec_walk(w, a).2 is Ok,
    ensures
        sequence::spec_walk(w, a).0.wf(),
        sequence::spec_walk(w, b) == sequence::preceded(
            sequence::spec_walk(w, a).2->Ok_0,
            sequence::spec_walk(sequence::spec_walk(w, a).0, Input::start(a.cut_off(b))),
        ),
    decreases a.rest.len(),
{
    sequence::law_unit_reads_soundly(w, a, b);
    sequence::law_unit_reads_soundly(w, b, b);
    let (w1, a1, res) = sequence::spec_unit(w, a);
    let b1 = sequence::spec_unit(w, b).1;
    let p = sequence::pictures_of(res->Ok_0);
    reading::lemma_aligned(a1, b1);
    reading::lemma_aligned(b1, b1);
    let (a2, b2) = (a1.aligned(), b1.aligned());
    assert(a2.cut_off(b2).len() == a.cut_off(b).len());
    if a2.at_end() {
        assert(b2.rest.skip(0) =~= b2.rest);
        assert(b2 =~= Input::start(a.cut_off(b)));
    } else {
        lemma_walk_on(w1, a2, b2);
        let more = sequence::spec_walk(w1, a2).2->Ok_0;
        let rest = sequence::spec_walk(sequence::spec_walk(w, a).0, Input::start(a.cut_off(b)));
        sequence::lemma_preceded_twice(p, more, rest);
    }
}

/// Where a stream is cut into chunks does not matter, as long as it is cut
/// between data units: the walk over the first chunk goes well, the walk over
/// the second then goes as the walk over both goes from there on, and together
/// they complete the same pictures, in the same order, and leave the walker the
/// same. If the walk over both goes well, so does each of the two.
pub proof fn law_chunks_join(w: Walker, a: Seq<u8>, b: Seq<u8>)
    requires
        w.wf(),
        b.len() > 0,
        standing(w, Input::start(a + b), b.len()) is Some,
    ensures
        ({
            let first: Walk = sequence::spec_walk(w, Input::start(a));
            let second: Walk = sequence::spec_walk(first.0, Input::start(b));
            let both: Walk = sequence::spec_walk(w, Input::start(a + b));
            &&& first.2 is Ok
            &&& first.0.wf()
            &&& both == sequence::preceded(first.2->Ok_0, second)
            &&& both.2 is Ok ==> second.2 is Ok && both.2->Ok_0 == first.2->Ok_0 + second.2->Ok_0
        }),
{
    law_whole_units_decode(w, a, b);
    let (i, j) = (Input::start(a), Input::start(a + b));
    assert forall|k: int| 0 <= k < i.rest.len() implies i.rest[k] == j.rest[k] by {}
    assert(i.cut_off(j) =~= b);
    lemma_walk_on(w, i, j);
}

/// Whatever the data, every picture that comes out of a walk is well formed.
pub proof fn law_decoded_pictures_are_well_formed(w: Walker, i: Input)
    requires
        w.wf(),
        i.wf(),
        sequence::spec_walk(w, i).2 is Ok,
    ensures
        forall|k: int|
            0 <= k < sequence::spec_walk(w, i).2->Ok_0.len() ==> (
            #[trigger] sequence::spec_walk(w, i).2->Ok_0[k]).well_formed(),
    decreases i.rest.len(),
{
    sequence::law_unit_reads_soundly(w, i, i);
    let (w1, i1, res) = sequence::spec_unit(w, i);
    if res->Ok_0 is Some {
        sequence::law_unit_pictures_are_well_formed(w, i);
    }
    reading::lemma_aligned(i1, i1);
    if !i1.aligned().at_end() {
        law_decoded_pictures_are_well_formed(w1, i1.aligned());
    }
}

/// Between sequences a walker keeps nothing.
pub proof fn law_sequences_are_independent(w: Walker, i: Input)
    requires
        w.wf(),
        i.wf(),
        w.mid_sequence || w == Walker::fresh(),
    ensures
        ({
            let end = sequence::spec_walk(w, i).0;
            end.mid_sequence || end == Walker::fresh()
        }),
    decreases i.rest.len(),
{
    sequence::law_unit_reads_soundly(w, i, i);
    let (w1, i1, res) = sequence::spec_unit(w, i);
    sequence::lemma_unit_in_sequence(w, i);
    if res is Ok {
        reading::lemma_aligned(i1, i1);
        if !i1.aligned().at_end() {
            law_sequences_are_independent(w1, i1.aligned());
        }
    }
}

/// Every picture decodes independently: what a picture data unit decodes to,
/// and how far it reaches, depends on its own data and the sequence header
/// alone, and it leaves nothing behind for the pictures after it.
pub proof fn law_pictures_are_independent(v: Walker, w: Walker, i: Input)
    requires
        sequence::spec_parse_info(i).1 is Ok,
        sequence::spec_classify(sequence::spec_parse_info(i).1->Ok_0.parse_code) is Picture,
        v.header == w.header,
        v.fragment is None,
        w.fragment is None,
    ensures
        sequence::spec_unit(v, i).1 == sequence::spec_unit(w, i).1,
        sequence::spec_unit(v, i).2 == sequence::spec_unit(w, i).2,
        sequence::spec_unit(v, i).0.header == v.header,
        sequence::spec_unit(v, i).0.fragment is None,
{
    reveal(sequence::spec_unit);
}

/// Two streams one behind the other decode to the pictures of the first
/// followed by those of the second.
pub proof fn law_streams_concatenate(a: Seq<u8>, b: Seq<u8>)
    requires
        sequence::spec_parse_sequence(a) is Ok,
        sequence::spec_parse_sequence(b) is Ok,
    ensures
        sequence::spec_parse_sequence(a + b) == Ok::<Seq<Picture>, Error>(
            sequence::spec_parse_sequence(a)->Ok_0 + sequence::spec_parse_sequence(b)->Ok_0,
        ),
{
    let w = Walker::fresh();
    sequence::law_unit_reads_soundly(w, Input::start(b), Input::start(b));
    law_sequences_are_independent(w, Input::start(a));
    law_whole_units_decode(w, a, b);
    law_chunks_join(w, a, b);
}

/// Whether a sequence ends `k` bytes into a stream.
pub open spec fn ends_sequence(data: Seq<u8>, k: int) -> bool {
    standing(Walker::fresh(), Input::start(data), (data.len() - k) as nat) matches Some(w)
        && !w.mid_sequence
}

/// A stream of any number of sequences may be cut where a sequence ends, and
/// nowhere else: cut there it decodes to the first of its pictures, and cut
/// anywhere else it fails, for the reason that it ends too early.
pub proof fn law_streams_are_cut_between_sequences(data: Seq<u8>, k: int)
    requires
        0 <= k <= data.len(),
        sequence::spec_parse_sequence(data) is Ok,
    ensures
        match sequence::spec_parse_sequence(data.take(k)) {
            Ok(p) => ends_sequence(data, k) && p.is_prefix_of(
                sequence::spec_parse_sequence(data)->Ok_0,
            ),
            Err(e) => !ends_sequence(data, k) && (e == Error::UnexpectedEof || e
                == Error::InvalidValue("stream ended while a fragmented picture is incomplete")),
        },
{
    let w = Walker::fresh();
    let (a, b) = (data.take(k), data.skip(k));
    assert(a + b =~= data);
    law_whole_units_decode(w, a, b);
    law_truncated_stream(data, k);
    law_sequences_are_independent(w, Input::start(a));
}

/// A data fragment: what its header says, and the input at its slices.
pub type DataFragment = (FragmentHeader, Input);

/// Data fragments one after another, up to the first error: the walker, and
/// what the last of them completed.
pub open spec fn spec_data_fragments(
    w: Walker,
    fragments: Seq<DataFragment>,
    kind: PictureKind,
) -> (Walker, Result<Option<Picture>>)
    decreases fragments.len(),
{
    if fragments.len() == 0 {
        (w, Ok(None))
    } else {
        let (fh, i) = fragments[0];
        match sequence::spec_data_fragment(w, i, fh, kind) {
            (w1, _, Err(e)) => (w1, Err(e)),
            (w1, _, Ok(p)) => if fragments.len() == 1 {
                (w1, Ok(p))
            } else {
                spec_data_fragments(w1, fragments.skip(1), kind)
            },
        }
    }
}

/// Whether slices `from` to `to` are the same bytes in front of `i` and in front
/// of `j`, `common` being no more than those bytes.
pub open spec fn same_slices(
    common: Input,
    i: Input,
    j: Input,
    td: Coefficients,
    t: Transform,
    kind: PictureKind,
    from: int,
    to: int,
) -> bool {
    &&& common.begins(i)
    &&& common.begins(j)
    &&& !slices::spec_unpack_slices(common, td, t, kind, from, to).0.overrun
}

/// Whether data fragments carry the slices of picture `number` from slice `from`
/// to the last, in raster order, the slices being those in front of `whole`.
pub open spec fn carry(
    fragments: Seq<DataFragment>,
    number: u32,
    whole: Input,
    td: Coefficients,
    t: Transform,
    kind: PictureKind,
    from: int,
) -> bool
    decreases fragments.len(),
{
    let total = t.slices_x * t.slices_y;
    if fragments.len() == 0 {
        from == total
    } else {
        let (fh, i) = fragments[0];
        let to = from + fh.fragment_slice_count;
        let next = slices::spec_unpack_slices(whole, td, t, kind, from, to);
        &&& fh.picture_number == number
        &&& fh.fragment_slice_count > 0
        &&& fh.fragment_y_offset * t.slices_x + fh.fragment_x_offset == from
        &&& to <= total
        &&& exists|common: Input| same_slices(common, i, whole, td, t, kind, from, to)
        &&& carry(fragments.skip(1), number, next.0, next.1, t, kind, to)
    }
}

proof fn lemma_carry(w: Walker, st: Assembly, fragments: Seq<DataFragment>, whole: Input)
    requires
        w.wf(),
        w.fragment == Some(st),
        whole.wf(),
        st.slices_received < st.total_slices(),
        carry(
            fragments,
            st.picture_number,
            whole,
            st.data,
            st.transform,
            st.kind,
            st.slices_received,
        ),
        slices::spec_unpack_slices(
            whole,
            st.data,
            st.transform,
            st.kind,
            st.slices_received,
            st.total_slices(),
        ).3 is Ok,
    ensures
        spec_data_fragments(w, fragments, st.kind) == (
            Walker { fragment: None, ..w },
            match picture::spec_picture_decode(
                sequence::assembled(
                    Assembly {
                        data: slices::spec_unpack_slices(
                            whole,
                            st.data,
                            st.transform,
                            st.kind,
                            st.slices_received,
                            st.total_slices(),
                        ).1,
                        slices_received: st.total_slices(),
                        ..st
                    },
                ),
                st.seq.coding_parameters,
            ) {
                Ok(p) => Ok(Some(p)),
                Err(e) => Err(e),
            },
        ),
    decreases fragments.len(),
{
    let (t, kind, from) = (st.transform, st.kind, st.slices_received);
    let (fh, i) = fragments[0];
    let to = from + fh.fragment_slice_count;
    let common = choose|common: Input|
        same_slices(common, i, whole, st.data, t, kind, from, to);
    slices::lemma_unpack_slices(common, i, st.data, t, kind, from, to);
    slices::lemma_unpack_slices(common, whole, st.data, t, kind, from, to);
    slices::lemma_unpack_slices(whole, whole, st.data, t, kind, from, to);
    slices::lemma_unpack_slices_shape(whole, st.data, t, kind, from, to);
    slices::law_slices_unpack_in_pieces(
        whole,
        st.data,
        t,
        kind,
        from,
        to,
        st.total_slices(),
    );
    let next = slices::spec_unpack_slices(whole, st.data, t, kind, from, to);
    let after = Assembly { data: next.1, slices_received: to, ..st };
    if to < st.total_slices() {
        let w1 = Walker { fragment: Some(after), ..w };
        assert(sequence::spec_data_fragment(w, i, fh, kind).0 == w1);
        lemma_carry(w1, after, fragments.skip(1), next.0);
    } else {
        assert(fragments.skip(1).len() == 0) by {
            if fragments.len() > 1 {
                let (more, _) = fragments.skip(1)[0];
                assert(carry(fragments.skip(1), st.picture_number, next.0, next.1, t, kind, to));
                assert(more.fragment_slice_count > 0);
            }
        }
    }
}

/// A picture comes out the same whether it is fragmented or not: with `whole`
/// in front of the body of a picture data unit, a setup fragment that holds its
/// transform parameters and data fragments that hold its slices decode to what
/// the data unit decodes to, and leave the walker as it was.
pub proof fn law_fragmented_picture(
    w: Walker,
    whole: Input,
    kind: PictureKind,
    seq: SequenceHeader,
    setup: DataFragment,
    common: Input,
    fragments: Seq<DataFragment>,
)
    requires
        w.wf(),
        whole.wf(),
        w.header == Some(seq),
        w.fragment is None,
        picture::spec_picture_parse(whole, seq, kind).1 is Ok,
        ({
            let (i1, number) = whole.aligned().uint_lit(4);
            let (i2, t) = transform::spec_transform_parameters(i1.aligned(), seq, kind);
            &&& setup.0.picture_number == number
            &&& common.begins(setup.1)
            &&& common.begins(i1.aligned())
            &&& !transform::spec_transform_parameters(common, seq, kind).0.overrun
            &&& t matches Ok(t) && carry(
                fragments,
                setup.0.picture_number,
                i2.aligned(),
                subband::spec_init_transform_data(seq.coding_parameters, t),
                t,
                kind,
                0,
            )
        }),
    ensures
        ({
            let (w1, _, set_up) = sequence::spec_setup_fragment(w, setup.1, setup.0, kind);
            &&& set_up == Ok::<Option<Picture>, Error>(None)
            &&& spec_data_fragments(w1, fragments, kind) == (
                w,
                sequence::spec_picture_unit(w, whole, kind).2,
            )
        }),
{
    let (i1, _) = whole.aligned().uint_lit(4);
    reading::lemma_aligned(whole, whole);
    reading::lemma_nbits(whole.aligned(), whole.aligned(), 32);
    reading::lemma_aligned(i1, i1);
    transform::law_transform_parameters_read_soundly(common, setup.1, seq, kind);
    transform::law_transform_parameters_read_soundly(common, i1.aligned(), seq, kind);
    transform::law_transform_parameters_read_soundly(i1.aligned(), i1.aligned(), seq, kind);
    let (i2, parameters) = transform::spec_transform_parameters(i1.aligned(), seq, kind);
    reading::lemma_aligned(i2, i2);
    let t = parameters->Ok_0;
    let cp = seq.coding_parameters;
    subband::lemma_init_shaped(cp.luma_width, cp.luma_height, t);
    subband::lemma_init_shaped(cp.color_diff_width, cp.color_diff_height, t);
    sequence::lemma_slice_count_positive(t);
    let w1 = sequence::spec_setup_fragment(w, setup.1, setup.0, kind).0;
    lemma_carry(w1, w1.fragment->Some_0, fragments, i2.aligned());
    assert(Walker { fragment: None, ..w1 } == w);
}

} // verus!
