//! Packet decoding: packets of data units in, video frames out.
//!
//! The parse-info headers of the stream are the framing: each packet carries
//! whole data units. Any split between data units works, one packet per picture,
//! per fragment or per sequence, because the decoder keeps the sequence header
//! and any partially assembled fragmented picture from packet to packet.
use crate::bitio::Input;
use crate::error::{Error, Result};
use crate::picture::{DecodedPicture, Picture};
use crate::sequence;
use crate::sequence::{SequenceDecoder, Walker};
use crate::streams;
use crate::surface;
use crate::surface::{FrameBytes, PacketError, VideoFrame};
use std::collections::VecDeque;
use vstd::prelude::*;

verus! {

/// The name that the decoder is registered under.
pub const CODEC_ID: &'static str = "vc2";

/// The outcome of a call on a packet decoder.
pub type PacketResult<T> = core::result::Result<T, PacketError>;

/// The state of a packet decoder.
#[verifier::ext_equal]
pub struct PacketState {
    pub walker: Walker,
    /// Frames that are ready, in the order in which they come out.
    pub pending: Seq<FrameBytes>,
    /// Whether the end of the stream was announced.
    pub flushed: bool,
}

impl PacketState {
    /// In front of a stream.
    pub open spec fn fresh() -> PacketState {
        PacketState { walker: Walker::fresh(), pending: seq![], flushed: false }
    }

    /// After the end of the stream was announced, which may not come inside a
    /// fragmented picture; such a picture is dropped.
    pub open spec fn at_flush(self) -> (PacketState, PacketResult<()>) {
        let ended = PacketState { flushed: true, ..self };
        if self.walker.fragment is Some {
            (
                PacketState { walker: Walker::fresh(), ..ended },
                Err(PacketError::IncompletePicture),
            )
        } else {
            (ended, Ok(()))
        }
    }

    /// After a packet.
    pub open spec fn at_packet(self, data: Seq<u8>, pts: Option<i64>) -> (
        PacketState,
        PacketResult<()>,
    ) {
        if self.flushed {
            (self, Err(PacketError::AfterFlush))
        } else if data.len() == 0 {
            (self, Ok(()))
        } else {
            let (walker, _, pictures) = sequence::spec_walk(self.walker, Input::start(data));
            match pictures {
                Err(e) => (PacketState { walker, ..self }, Err(PacketError::Stream(e))),
                Ok(pictures) => {
                    let (frames, res) = spec_frames(pictures, pts);
                    (PacketState { walker, pending: self.pending + frames, ..self }, res)
                },
            }
        }
    }

    /// After a frame was asked for.
    pub open spec fn at_receive(self) -> (PacketState, PacketResult<FrameBytes>) {
        if self.pending.len() > 0 {
            (PacketState { pending: self.pending.skip(1), ..self }, Ok(self.pending[0]))
        } else if self.flushed {
            (self, Err(PacketError::Eof))
        } else {
            (self, Err(PacketError::NeedMore))
        }
    }
}

/// The frames of pictures, up to the first that has no surface.
pub open spec fn spec_frames(pictures: Seq<Picture>, pts: Option<i64>) -> (
    Seq<FrameBytes>,
    PacketResult<()>,
)
    decreases pictures.len(),
{
    if pictures.len() == 0 {
        (seq![], Ok(()))
    } else {
        match surface::spec_frame(pictures[0], pts) {
            Err(e) => (seq![], Err(e)),
            Ok(frame) => {
                let (more, res) = spec_frames(pictures.skip(1), pts);
                (seq![frame] + more, res)
            },
        }
    }
}

/// The parse-info prefix at the start of some data.
pub open spec fn starts_with_prefix(data: Seq<u8>) -> bool {
    data.len() >= 4 && data.take(4) == sequence::PARSE_INFO_PREFIX@
}

/// What the extradata of a stream prime a decoder with: a sequence header in
/// them is taken in, extradata of any other shape are ignored.
pub open spec fn primed(extradata: Seq<u8>) -> Result<PacketState> {
    if starts_with_prefix(extradata) {
        let (walker, _, pictures) = sequence::spec_walk(
            Walker::fresh(),
            Input::start(extradata),
        );
        match pictures {
            Err(e) => Err(e),
            Ok(_) => Ok(PacketState { walker, ..PacketState::fresh() }),
        }
    } else {
        Ok(PacketState::fresh())
    }
}

/// VC-2 decoder from packets to frames.
pub struct Vc2Decoder {
    walker: SequenceDecoder,
    pending: VecDeque<VideoFrame>,
    flushed: bool,
}

impl View for Vc2Decoder {
    type V = PacketState;

    closed spec fn view(&self) -> PacketState {
        PacketState {
            walker: self.walker@,
            pending: frame_views(self.pending@),
            flushed: self.flushed,
        }
    }
}

/// The bytes of some frames.
pub open spec fn frame_views(frames: Seq<VideoFrame>) -> Seq<FrameBytes> {
    Seq::new(frames.len(), |k: int| frames[k]@)
}

/// A result over the frame that it holds.
pub open spec fn viewed_frame(res: PacketResult<VideoFrame>) -> PacketResult<FrameBytes> {
    match res {
        Ok(f) => Ok(f@),
        Err(e) => Err(e),
    }
}

/// See [`starts_with_prefix`].
pub(crate) fn has_prefix(data: &[u8]) -> (b: bool)
    ensures
        b == starts_with_prefix(data@),
{
    if data.len() < 4 {
        return false;
    }
    let prefix: [u8; 4] = sequence::PARSE_INFO_PREFIX;
    let same: bool = data[0] == prefix[0] && data[1] == prefix[1] && data[2] == prefix[2] && data[3]
        == prefix[3];
    proof {
        let start = data@.take(4);
        if same {
            assert(start =~= prefix@);
        } else {
            assert(start[0] == data@[0] && start[1] == data@[1] && start[2] == data@[2] && start[3]
                == data@[3]);
        }
    }
    same
}

impl Vc2Decoder {
    /// Builds a decoder. Where `extradata` start with a parse-info prefix they
    /// are walked first (containers may stage the sequence header there); other
    /// shapes are ignored, and the sequence header is expected in the packets.
    pub fn new(extradata: &[u8]) -> (res: Result<Self>)
        ensures
            match primed(extradata@) {
                Ok(s) => res matches Ok(d) && d@ == s,
                Err(e) => res matches Err(r) && r == e,
            },
    {
        let mut walker = SequenceDecoder::new();
        if has_prefix(extradata) {
            let _pictures: Vec<DecodedPicture> = walker.push(extradata)?;
        }
        let pending: VecDeque<VideoFrame> = VecDeque::new();
        assert(frame_views(pending@) =~= seq![]);
        Ok(Vc2Decoder { walker, pending, flushed: false })
    }

    /// Takes a packet. The frames that it completes carry its time.
    pub fn send_packet(&mut self, data: &[u8], pts: Option<i64>) -> (res: PacketResult<()>)
        ensures
            (final(self)@, res) == old(self)@.at_packet(data@, pts),
    {
        if self.flushed {
            return Err(PacketError::AfterFlush);
        }
        if data.len() == 0 {
            return Ok(());
        }
        let ghost w = self.walker@;
        proof {
            use_type_invariant(&self.walker);
            self.walker.lemma_inv();
        }
        let pictures: Vec<DecodedPicture> = match self.walker.push(data) {
            Ok(pictures) => pictures,
            Err(e) => {
                return Err(PacketError::Stream(e));
            },
        };
        let ghost all = sequence::picture_views(pictures@);
        proof {
            streams::law_decoded_pictures_are_well_formed(w, Input::start(data@));
        }
        let ghost before = frame_views(self.pending@);
        let ghost walker = self.walker@;
        let mut k: usize = 0;
        assert(all.skip(0) =~= all);
        while k < pictures.len()
            invariant
                k <= pictures.len(),
                all == sequence::picture_views(pictures@),
                forall|j: int| 0 <= j < all.len() ==> (#[trigger] all[j]).well_formed(),
                self.walker@ == walker,
                !self.flushed,
                before + spec_frames(all, pts).0 == frame_views(self.pending@) + spec_frames(
                    all.skip(k as int),
                    pts,
                ).0,
                spec_frames(all, pts).1 == spec_frames(all.skip(k as int), pts).1,
            decreases pictures.len() - k,
        {
            let ghost rest = all.skip(k as int);
            let ghost held = frame_views(self.pending@);
            proof {
                assert(rest[0] == all[k as int]);
                assert(all[k as int] == pictures@[k as int]@);
                surface::lemma_presentable(all[k as int]);
                assert(rest.skip(1) =~= all.skip(k + 1));
            }
            let frame: VideoFrame = match surface::to_frame(&pictures[k], pts) {
                Ok(frame) => frame,
                Err(e) => {
                    assert(held + seq![] =~= held);
                    return Err(e);
                },
            };
            let ghost bytes = frame@;
            self.pending.push_back(frame);
            proof {
                let more = spec_frames(all.skip(k + 1), pts).0;
                assert(frame_views(self.pending@) =~= held.push(bytes));
                assert(held + (seq![bytes] + more) =~= held.push(bytes) + more);
            }
            k = k + 1;
        }
        proof {
            assert(all.skip(k as int).len() == 0);
            assert(frame_views(self.pending@) + seq![] =~= frame_views(self.pending@));
        }
        Ok(())
    }

    /// Hands out the next frame.
    pub fn receive_frame(&mut self) -> (res: PacketResult<VideoFrame>)
        ensures
            (final(self)@, viewed_frame(res)) == old(self)@.at_receive(),
    {
        match self.pending.pop_front() {
            Some(frame) => {
                assert(self@.pending =~= old(self)@.pending.skip(1));
                Ok(frame)
            },
            None => if self.flushed {
                Err(PacketError::Eof)
            } else {
                Err(PacketError::NeedMore)
            },
        }
    }

    /// Announces the end of the stream. It may not come while a fragmented
    /// picture is incomplete: such a picture is dropped, and the truncation
    /// reported.
    pub fn flush(&mut self) -> (res: PacketResult<()>)
        ensures
            (final(self)@, res) == old(self)@.at_flush(),
    {
        self.flushed = true;
        if self.walker.has_incomplete_picture() {
            self.walker.reset();
            return Err(PacketError::IncompletePicture);
        }
        Ok(())
    }

    /// Drops all state, ready for another stream.
    pub fn reset(&mut self)
        ensures
            final(self)@ == PacketState::fresh(),
    {
        self.walker.reset();
        self.pending.clear();
        self.flushed = false;
        assert(frame_views(self.pending@) =~= seq![]);
    }
}

/// Well-formed pictures all become frames.
proof fn lemma_frames(pictures: Seq<Picture>, pts: Option<i64>)
    requires
        forall|k: int| 0 <= k < pictures.len() ==> (#[trigger] pictures[k]).well_formed(),
    ensures
        spec_frames(pictures, pts).1 is Ok,
        spec_frames(pictures, pts).0.len() == pictures.len(),
        forall|k: int|
            0 <= k < pictures.len() ==> surface::spec_frame(pictures[k], pts) == Ok::<
                FrameBytes,
                PacketError,
            >(#[trigger] spec_frames(pictures, pts).0[k]),
    decreases pictures.len(),
{
    if pictures.len() > 0 {
        surface::law_every_picture_has_a_surface(pictures[0]);
        let rest = pictures.skip(1);
        assert forall|k: int| 0 <= k < rest.len() implies (#[trigger] rest[k]).well_formed() by {
            assert(rest[k] == pictures[k + 1]);
        }
        lemma_frames(rest, pts);
        assert forall|k: int| 0 <= k < pictures.len() implies surface::spec_frame(pictures[k], pts)
            == Ok::<FrameBytes, PacketError>(#[trigger] spec_frames(pictures, pts).0[k]) by {
            if k > 0 {
                assert(pictures[k] == rest[k - 1]);
                assert(spec_frames(pictures, pts).0[k] == spec_frames(rest, pts).0[k - 1]);
            }
        }
    }
}

/// Every picture of a packet becomes a frame, with the time of the packet and in
/// stream order. Only the stream itself, or the announced end, can make a packet
/// fail.
pub proof fn law_every_picture_becomes_a_frame(s: PacketState, data: Seq<u8>, pts: Option<i64>)
    requires
        s.walker.wf(),
        !s.flushed,
        data.len() > 0,
    ensures
        match sequence::spec_walk(s.walker, Input::start(data)).2 {
            Err(e) => s.at_packet(data, pts).1 == Err::<(), PacketError>(PacketError::Stream(e)),
            Ok(pictures) => {
                let (after, res) = s.at_packet(data, pts);
                &&& res is Ok
                &&& after.pending.len() == s.pending.len() + pictures.len()
                &&& after.pending.take(s.pending.len() as int) == s.pending
                &&& forall|k: int|
                    0 <= k < pictures.len() ==> surface::spec_frame(pictures[k], pts) == Ok::<
                        FrameBytes,
                        PacketError,
                    >(#[trigger] after.pending[s.pending.len() + k])
            },
        },
{
    if let Ok(pictures) = sequence::spec_walk(s.walker, Input::start(data)).2 {
        streams::law_decoded_pictures_are_well_formed(s.walker, Input::start(data));
        lemma_frames(pictures, pts);
        let after = s.at_packet(data, pts).0;
        assert(after.pending.take(s.pending.len() as int) =~= s.pending);
        assert forall|k: int| 0 <= k < pictures.len() implies surface::spec_frame(pictures[k], pts)
            == Ok::<FrameBytes, PacketError>(#[trigger] after.pending[s.pending.len() + k]) by {
            assert(after.pending[s.pending.len() + k] == spec_frames(pictures, pts).0[k]);
        }
    }
}

proof fn lemma_frames_join(a: Seq<Picture>, b: Seq<Picture>, pts: Option<i64>)
    requires
        spec_frames(a, pts).1 is Ok,
    ensures
        spec_frames(a + b, pts) == (
            spec_frames(a, pts).0 + spec_frames(b, pts).0,
            spec_frames(b, pts).1,
        ),
    decreases a.len(),
{
    if a.len() == 0 {
        assert(a + b =~= b);
        assert(seq![] + spec_frames(b, pts).0 =~= spec_frames(b, pts).0);
    } else {
        let rest = a.skip(1);
        assert((a + b).skip(1) =~= rest + b);
        assert((a + b)[0] == a[0]);
        lemma_frames_join(rest, b, pts);
        let first = seq![surface::spec_frame(a[0], pts)->Ok_0];
        let (x, y) = (spec_frames(rest, pts).0, spec_frames(b, pts).0);
        assert(first + (x + y) =~= (first + x) + y);
    }
}

/// Where a stream is cut into packets does not matter, as long as it is cut
/// between data units: two packets with the same time do what one packet with
/// all of their data units does.
pub proof fn law_packets_join(s: PacketState, a: Seq<u8>, b: Seq<u8>, pts: Option<i64>)
    requires
        s.walker.wf(),
        !s.flushed,
        b.len() > 0,
        streams::standing(s.walker, Input::start(a + b), b.len()) is Some,
        sequence::spec_walk(s.walker, Input::start(a + b)).2 is Ok,
    ensures
        s.at_packet(a, pts).1 is Ok,
        s.at_packet(a, pts).0.at_packet(b, pts) == s.at_packet(a + b, pts),
{
    let first = sequence::spec_walk(s.walker, Input::start(a));
    let second = sequence::spec_walk(first.0, Input::start(b));
    streams::law_chunks_join(s.walker, a, b);
    sequence::law_unit_reads_soundly(s.walker, Input::start(a), Input::start(a));
    law_every_picture_becomes_a_frame(s, a, pts);
    streams::law_decoded_pictures_are_well_formed(s.walker, Input::start(a));
    let (p, q) = (first.2->Ok_0, second.2->Ok_0);
    lemma_frames(p, pts);
    lemma_frames_join(p, q, pts);
    let (x, y) = (spec_frames(p, pts).0, spec_frames(q, pts).0);
    assert(s.pending + (x + y) =~= (s.pending + x) + y);
}

} // verus!
