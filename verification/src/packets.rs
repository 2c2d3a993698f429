//! Packets in, frames out: what a packet decoder hands out, and when.
use crate::bitio::Input;
use crate::coding;
use crate::decoder;
use crate::decoder::PacketState;
use crate::error::Error;
use crate::frames;
use crate::headers;
use crate::params::SequenceHeader;
use crate::picture::Picture;
use crate::sequence;
use crate::sequence::{ParseInfo, Walker};
use crate::streams;
use crate::surface;
use crate::surface::{FrameBytes, PacketError};
use crate::units;
use crate::units::{WrittenHeader, WrittenUnit};
use crate::writing;
use vstd::prelude::*;

verus! {

/// The decoder after a frame was asked for `n` times.
pub open spec fn asked(s: PacketState, n: nat) -> PacketState
    decreases n,
{
    if n == 0 {
        s
    } else {
        asked(s, (n - 1) as nat).at_receive().0
    }
}

/// Frames come out one by one, in the order in which they became ready. When there
/// are no more, the decoder asks for packets, or tells the end of the stream if that
/// was announced.
pub proof fn law_frames_come_out_in_order(s: PacketState, n: nat)
    requires
        n <= s.pending.len(),
    ensures
        asked(s, n) == (PacketState { pending: s.pending.skip(n as int), ..s }),
        n < s.pending.len() ==> asked(s, n).at_receive().1 == Ok::<FrameBytes, PacketError>(
            s.pending[n as int],
        ),
        n == s.pending.len() ==> asked(s, n).at_receive() == (
            asked(s, n),
            Err::<FrameBytes, PacketError>(
                if s.flushed {
                    PacketError::Eof
                } else {
                    PacketError::NeedMore
                },
            ),
        ),
    decreases n,
{
    if n == 0 {
        assert(s.pending.skip(0) =~= s.pending);
    } else {
        law_frames_come_out_in_order(s, (n - 1) as nat);
        assert(s.pending.skip(n - 1).skip(1) =~= s.pending.skip(n as int));
    }
}

/// The end of a stream, once announced, stays: frames that are ready are still handed
/// out, packets are refused and change nothing, and only a picture of which fragments
/// are missing is complained of.
pub proof fn law_the_end_is_final(s: PacketState, data: Seq<u8>, pts: Option<i64>)
    ensures
        ({
            let (ended, told) = s.at_flush();
            &&& ended.flushed
            &&& ended.pending == s.pending
            &&& ended.walker.fragment is None
            &&& told is Err <==> s.walker.fragment is Some
            &&& told is Err ==> told == Err::<(), PacketError>(PacketError::IncompletePicture)
            &&& ended.at_packet(data, pts) == (
                ended,
                Err::<(), PacketError>(PacketError::AfterFlush),
            )
            &&& ended.at_flush() == (ended, Ok::<(), PacketError>(()))
        }),
{
}

/// Whether a frame holds the samples of a picture, plane by plane.
pub open spec fn shows(f: FrameBytes, p: Picture, pts: Option<i64>) -> bool {
    &&& f.pts == pts
    &&& f.planes.len() >= 3
    &&& frames::plane_holds(
        f.planes[0],
        p.y,
        p.luma_width,
        frames::sample_bytes(p),
        frames::gain(p, p.luma_depth),
    )
    &&& frames::plane_holds(
        f.planes[1],
        p.c1,
        p.color_diff_width,
        frames::sample_bytes(p),
        frames::gain(p, p.color_diff_depth),
    )
    &&& frames::plane_holds(
        f.planes[2],
        p.c2,
        p.color_diff_width,
        frames::sample_bytes(p),
        frames::gain(p, p.color_diff_depth),
    )
}

/// A packet with a written sequence in it: the decoder hands out as many frames as
/// there are pictures in it, in their order, each with the samples of its picture and
/// the time of the packet.
pub proof fn law_written_packets_are_shown(
    data: Seq<u8>,
    pts: Option<i64>,
    head: ParseInfo,
    written: WrittenHeader,
    seq: SequenceHeader,
    padding: Seq<int>,
    units: Seq<WrittenUnit>,
    end: ParseInfo,
    n: nat,
)
    requires
        head.parse_code == 0x00,
        written.writable(),
        written.says(seq),
        coding::fills_up(written.bits().len(), padding),
        forall|k: int| 0 <= k < units.len() ==> (#[trigger] units[k]).stands(seq),
        end.parse_code == 0x10,
        writing::bits_of(data) == (headers::parse_info_bits(head) + written.bits()) + (padding + (
        units::units_bits(units, seq, 0) + headers::parse_info_bits(end))),
        n < units::pictures_in(units, 0).len(),
        2 * units::pictures_in(units, 0)[n as int].luma_width <= usize::MAX,
        2 * units::pictures_in(units, 0)[n as int].color_diff_width <= usize::MAX,
    ensures
        ({
            let (after, told) = PacketState::fresh().at_packet(data, pts);
            let pictures = units::pictures_in(units, 0);
            &&& told is Ok
            &&& after.pending.len() == pictures.len()
            &&& asked(after, n).at_receive().1 matches Ok(f) && shows(f, pictures[n as int], pts)
        }),
{
    let s = PacketState::fresh();
    let pictures = units::pictures_in(units, 0);
    units::law_written_streams_decode(data, head, written, seq, padding, units, end);
    assert(data.len() > 0) by {
        if data.len() == 0 {
            headers::lemma_parse_info_size(head);
            assert(writing::bits_of(data).len() == 0);
        }
    }
    decoder::law_every_picture_becomes_a_frame(s, data, pts);
    let after = s.at_packet(data, pts).0;
    law_frames_come_out_in_order(after, n);
    streams::law_decoded_pictures_are_well_formed(s.walker, Input::start(data));
    frames::law_frames_hold_the_samples(pictures[n as int], pts);
    assert(surface::spec_frame(pictures[n as int], pts) == Ok::<FrameBytes, PacketError>(
        after.pending[s.pending.len() + n as int],
    ));
}

/// A sequence header that is handed to a new decoder ahead of the packets counts for
/// them.
pub proof fn law_headers_ahead_count(
    extradata: Seq<u8>,
    head: ParseInfo,
    written: WrittenHeader,
    seq: SequenceHeader,
    padding: Seq<int>,
)
    requires
        head.parse_code == 0x00,
        written.writable(),
        written.says(seq),
        coding::fills_up(written.bits().len(), padding),
        decoder::starts_with_prefix(extradata),
        writing::bits_of(extradata) == (headers::parse_info_bits(head) + written.bits()) + padding,
    ensures
        decoder::primed(extradata) == Ok::<PacketState, Error>(
            (PacketState {
                walker: Walker { header: Some(seq), fragment: None, mid_sequence: true },
                pending: seq![],
                flushed: false,
            }),
        ),
{
    let i = Input::start(extradata);
    let w = Walker::fresh();
    let x = headers::parse_info_bits(head) + written.bits();
    writing::law_bytes_offer_their_bits(i);
    writing::lemma_split(i, x, padding);
    units::law_headers_are_kept(w, i, head, written, seq);
    headers::lemma_parse_info_size(head);
    coding::lemma_bit_position(i, x);
    let i1 = i.after_bits(x.len());
    coding::lemma_padded(i1, padding);
    assert(i1.aligned() == i.after_bits(8 * extradata.len()));
    assert(i1.aligned().at_end());
}

} // verus!
