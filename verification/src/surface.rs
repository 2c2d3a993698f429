//! Output surfaces: which pixel format a decoded picture rides on, and how its
//! samples are packed into the planes of a video frame.
use crate::bitio;
use crate::error::Error;
use crate::picture::{DecodedPicture, Picture};
use crate::text;
use vstd::arithmetic::power2;
use vstd::prelude::*;

verus! {

/// The planar formats that pictures come out in: 8-bit samples in bytes, and
/// 10-, 12- or 16-bit samples in the low end of little-endian 16-bit words.
#[derive(Debug, Clone, Copy, PartialEq, Eq)]
pub enum PixelFormat {
    Yuv444P,
    Yuv422P,
    Yuv420P,
    Yuv444P10Le,
    Yuv422P10Le,
    Yuv420P10Le,
    Yuv444P12Le,
    Yuv422P12Le,
    Yuv420P12Le,
    Yuv444P16Le,
    Yuv422P16Le,
    Yuv420P16Le,
}

/// How many bits of its words a format uses.
pub open spec fn format_depth(format: PixelFormat) -> u32 {
    match format {
        PixelFormat::Yuv444P | PixelFormat::Yuv422P | PixelFormat::Yuv420P => 8,
        PixelFormat::Yuv444P10Le | PixelFormat::Yuv422P10Le | PixelFormat::Yuv420P10Le => 10,
        PixelFormat::Yuv444P12Le | PixelFormat::Yuv422P12Le | PixelFormat::Yuv420P12Le => 12,
        PixelFormat::Yuv444P16Le | PixelFormat::Yuv422P16Le | PixelFormat::Yuv420P16Le => 16,
    }
}

/// What a packet decoder refuses, or has to wait for.
#[derive(Debug, Clone, PartialEq, Eq)]
pub enum PacketError {
    /// A packet came after the end of the stream was announced.
    AfterFlush,
    /// The packet does not decode.
    Stream(Error),
    /// No format has colour-difference planes of this size beside such luma.
    ChromaGeometry {
        color_diff_width: usize,
        color_diff_height: usize,
        luma_width: usize,
        luma_height: usize,
    },
    /// No format holds samples of these depths.
    Depths { luma_depth: u32, color_diff_depth: u32 },
    /// The stream ended inside a fragmented picture.
    IncompletePicture,
    /// No frame is ready; more packets are needed.
    NeedMore,
    /// The stream has ended, and every frame has been handed out.
    Eof,
}

/// The classes of [`PacketError`].
#[derive(Debug, Clone, Copy, PartialEq, Eq)]
pub enum PacketErrorKind {
    InvalidData,
    Unsupported,
    NeedMore,
    Eof,
}

/// The class of a packet error.
pub open spec fn packet_error_kind(e: PacketError) -> PacketErrorKind {
    match e {
        PacketError::AfterFlush | PacketError::IncompletePicture => PacketErrorKind::InvalidData,
        PacketError::Stream(e) => if e is Unsupported {
            PacketErrorKind::Unsupported
        } else {
            PacketErrorKind::InvalidData
        },
        PacketError::ChromaGeometry { .. } | PacketError::Depths { .. } =>
            PacketErrorKind::Unsupported,
        PacketError::NeedMore => PacketErrorKind::NeedMore,
        PacketError::Eof => PacketErrorKind::Eof,
    }
}

/// The text that describes a packet error.
pub open spec fn packet_error_text(e: PacketError) -> Seq<char> {
    match e {
        PacketError::AfterFlush => "vc2: send_packet after flush; reset first"@,
        PacketError::Stream(e) => crate::error::error_text(e),
        PacketError::ChromaGeometry {
            color_diff_width,
            color_diff_height,
            luma_width,
            luma_height,
        } => "vc2: no planar pixel format for "@ + text::decimal(color_diff_width as nat) + "x"@
            + text::decimal(color_diff_height as nat) + " chroma on "@ + text::decimal(
            luma_width as nat,
        ) + "x"@ + text::decimal(luma_height as nat) + " luma"@,
        PacketError::Depths { luma_depth, color_diff_depth } =>
            "vc2: no planar pixel format for luma/chroma bit depths "@ + text::decimal(
            luma_depth as nat,
        ) + "/"@ + text::decimal(color_diff_depth as nat),
        PacketError::IncompletePicture =>
            "vc2: stream ended while a fragmented picture is incomplete"@,
        PacketError::NeedMore => "need more data"@,
        PacketError::Eof => "end of stream"@,
    }
}

impl PacketError {
    /// The class of this error.
    pub fn kind(&self) -> (k: PacketErrorKind)
        ensures
            k == packet_error_kind(*self),
    {
        match self {
            PacketError::AfterFlush | PacketError::IncompletePicture =>
                PacketErrorKind::InvalidData,
            PacketError::Stream(Error::Unsupported(_)) => PacketErrorKind::Unsupported,
            PacketError::Stream(_) => PacketErrorKind::InvalidData,
            PacketError::ChromaGeometry { .. } | PacketError::Depths { .. } =>
                PacketErrorKind::Unsupported,
            PacketError::NeedMore => PacketErrorKind::NeedMore,
            PacketError::Eof => PacketErrorKind::Eof,
        }
    }

    /// The message that describes this error.
    pub fn message(&self) -> (s: String)
        ensures
            s@ == packet_error_text(*self),
    {
        let mut s = String::new();
        match self {
            PacketError::AfterFlush => s.append("vc2: send_packet after flush; reset first"),
            PacketError::Stream(e) => {
                return e.message();
            },
            PacketError::ChromaGeometry {
                color_diff_width,
                color_diff_height,
                luma_width,
                luma_height,
            } => {
                s.append("vc2: no planar pixel format for ");
                text::push_decimal(&mut s, *color_diff_width as u64);
                s.append("x");
                text::push_decimal(&mut s, *color_diff_height as u64);
                s.append(" chroma on ");
                text::push_decimal(&mut s, *luma_width as u64);
                s.append("x");
                text::push_decimal(&mut s, *luma_height as u64);
                s.append(" luma");
            },
            PacketError::Depths { luma_depth, color_diff_depth } => {
                s.append("vc2: no planar pixel format for luma/chroma bit depths ");
                text::push_decimal(&mut s, *luma_depth as u64);
                s.append("/");
                text::push_decimal(&mut s, *color_diff_depth as u64);
            },
            PacketError::IncompletePicture => s.append(
                "vc2: stream ended while a fragmented picture is incomplete",
            ),
            PacketError::NeedMore => s.append("need more data"),
            PacketError::Eof => s.append("end of stream"),
        }
        assert(s@ =~= packet_error_text(*self));
        s
    }
}

/// How a decoded picture maps onto a [`PixelFormat`] surface.
///
/// Pictures whose two component depths are equal and one of 8, 10 and 12 are
/// carried verbatim on the format of that depth, with no side-channel.
///
/// Every other pair of depths up to 12 bits is represented, not promoted: the
/// picture rides the surface of its deepest component, each plane keeps its
/// samples verbatim in the low bits of the words, and the frame carries a
/// per-plane record of significant bits. Consumers that ignore the record see
/// the documented depth of the surface, which never understates a plane.
///
/// Deeper pictures ride the 16-bit formats, each plane promoted by a left shift
/// of 16 less its depth, so that its full scale lands at the top of the word. No
/// record is attached: it would misdescribe where the values sit.
#[derive(Debug, Clone, Copy, PartialEq, Eq)]
pub struct SurfaceMapping {
    pub format: PixelFormat,
    /// Left shift that promotes luma samples onto the output words.
    pub luma_shift: u32,
    /// Left shift that promotes colour-difference samples onto the output words.
    pub chroma_shift: u32,
    /// Per-plane significant bits (`[y, c1, c2]`) to attach to the frame.
    pub significant_bits: Option<[u8; 3]>,
}

/// How the colour-difference planes are sampled.
#[derive(Debug, Clone, Copy, PartialEq, Eq)]
pub enum Sampling {
    /// 4:4:4.
    Full,
    /// 4:2:2.
    HalfWidth,
    /// 4:2:0.
    HalfBoth,
}

/// How the colour-difference planes of a picture are sampled, if in a way that
/// formats provide for.
pub open spec fn spec_sampling(p: Picture) -> Option<Sampling> {
    let (w, h) = (p.color_diff_width, p.color_diff_height);
    if w == p.luma_width && h == p.luma_height {
        Some(Sampling::Full)
    } else if w == p.luma_width / 2 && h == p.luma_height {
        Some(Sampling::HalfWidth)
    } else if w == p.luma_width / 2 && h == p.luma_height / 2 {
        Some(Sampling::HalfBoth)
    } else {
        None
    }
}

/// The shallowest format for a depth.
pub open spec fn spec_format(depth: u32, sampling: Sampling) -> PixelFormat {
    if depth <= 8 {
        match sampling {
            Sampling::Full => PixelFormat::Yuv444P,
            Sampling::HalfWidth => PixelFormat::Yuv422P,
            Sampling::HalfBoth => PixelFormat::Yuv420P,
        }
    } else if depth <= 10 {
        match sampling {
            Sampling::Full => PixelFormat::Yuv444P10Le,
            Sampling::HalfWidth => PixelFormat::Yuv422P10Le,
            Sampling::HalfBoth => PixelFormat::Yuv420P10Le,
        }
    } else if depth <= 12 {
        match sampling {
            Sampling::Full => PixelFormat::Yuv444P12Le,
            Sampling::HalfWidth => PixelFormat::Yuv422P12Le,
            Sampling::HalfBoth => PixelFormat::Yuv420P12Le,
        }
    } else {
        match sampling {
            Sampling::Full => PixelFormat::Yuv444P16Le,
            Sampling::HalfWidth => PixelFormat::Yuv422P16Le,
            Sampling::HalfBoth => PixelFormat::Yuv420P16Le,
        }
    }
}

/// The greater of two depths.
pub open spec fn deepest(p: Picture) -> u32 {
    if p.luma_depth >= p.color_diff_depth {
        p.luma_depth
    } else {
        p.color_diff_depth
    }
}

/// A mapping over mathematical values.
#[verifier::ext_equal]
pub struct Mapping {
    pub format: PixelFormat,
    pub luma_shift: u32,
    pub chroma_shift: u32,
    pub significant_bits: Option<Seq<u8>>,
}

impl View for SurfaceMapping {
    type V = Mapping;

    open spec fn view(&self) -> Mapping {
        Mapping {
            format: self.format,
            luma_shift: self.luma_shift,
            chroma_shift: self.chroma_shift,
            significant_bits: match self.significant_bits {
                Some(b) => Some(b@),
                None => None,
            },
        }
    }
}

/// The surface of a picture; see [`SurfaceMapping`].
pub open spec fn spec_surface(p: Picture) -> core::result::Result<Mapping, PacketError> {
    match spec_sampling(p) {
        None => Err(
            PacketError::ChromaGeometry {
                color_diff_width: p.color_diff_width,
                color_diff_height: p.color_diff_height,
                luma_width: p.luma_width,
                luma_height: p.luma_height,
            },
        ),
        Some(sampling) => {
            let (y, c) = (p.luma_depth, p.color_diff_depth);
            if y == c && (y == 8 || y == 10 || y == 12) {
                Ok(
                    Mapping {
                        format: spec_format(y, sampling),
                        luma_shift: 0,
                        chroma_shift: 0,
                        significant_bits: None,
                    },
                )
            } else if 1 <= deepest(p) <= 12 {
                Ok(
                    Mapping {
                        format: spec_format(deepest(p), sampling),
                        luma_shift: 0,
                        chroma_shift: 0,
                        significant_bits: Some(seq![y as u8, c as u8, c as u8]),
                    },
                )
            } else if 13 <= deepest(p) <= 16 {
                Ok(
                    Mapping {
                        format: spec_format(16, sampling),
                        luma_shift: (16 - y) as u32,
                        chroma_shift: (16 - c) as u32,
                        significant_bits: None,
                    },
                )
            } else {
                Err(PacketError::Depths { luma_depth: y, color_diff_depth: c })
            }
        },
    }
}

/// Every well-formed picture has a surface. The format never understates the
/// depth of a plane. Either no plane is shifted, and a record of the depths is
/// there exactly where one of them is not that of the format; or the shifts make
/// up the difference, and there is no record.
pub proof fn law_every_picture_has_a_surface(p: Picture)
    requires
        p.well_formed(),
    ensures
        spec_surface(p) matches Ok(m) && {
            let depth = format_depth(m.format);
            &&& p.luma_depth <= depth
            &&& p.color_diff_depth <= depth
            &&& depth <= 12 ==> m.luma_shift == 0 && m.chroma_shift == 0
            &&& depth <= 12 ==> (m.significant_bits is Some <==> p.luma_depth != depth
                || p.color_diff_depth != depth)
            &&& depth == 16 ==> p.luma_depth + m.luma_shift == 16 && p.color_diff_depth
                + m.chroma_shift == 16 && m.significant_bits is None
        },
{
}

fn sampling_of(pic: &DecodedPicture) -> (s: Option<Sampling>)
    ensures
        s == spec_sampling(pic@),
{
    let (w, h): (usize, usize) = (pic.color_diff_width, pic.color_diff_height);
    if w == pic.luma_width && h == pic.luma_height {
        Some(Sampling::Full)
    } else if w == pic.luma_width / 2 && h == pic.luma_height {
        Some(Sampling::HalfWidth)
    } else if w == pic.luma_width / 2 && h == pic.luma_height / 2 {
        Some(Sampling::HalfBoth)
    } else {
        None
    }
}

fn format_for(depth: u32, sampling: Sampling) -> (f: PixelFormat)
    ensures
        f == spec_format(depth, sampling),
{
    let class: u32 = if depth <= 8 {
        0
    } else if depth <= 10 {
        1
    } else if depth <= 12 {
        2
    } else {
        3
    };
    match (class, sampling) {
        (0, Sampling::Full) => PixelFormat::Yuv444P,
        (0, Sampling::HalfWidth) => PixelFormat::Yuv422P,
        (0, Sampling::HalfBoth) => PixelFormat::Yuv420P,
        (1, Sampling::Full) => PixelFormat::Yuv444P10Le,
        (1, Sampling::HalfWidth) => PixelFormat::Yuv422P10Le,
        (1, Sampling::HalfBoth) => PixelFormat::Yuv420P10Le,
        (2, Sampling::Full) => PixelFormat::Yuv444P12Le,
        (2, Sampling::HalfWidth) => PixelFormat::Yuv422P12Le,
        (2, Sampling::HalfBoth) => PixelFormat::Yuv420P12Le,
        (_, Sampling::Full) => PixelFormat::Yuv444P16Le,
        (_, Sampling::HalfWidth) => PixelFormat::Yuv422P16Le,
        (_, Sampling::HalfBoth) => PixelFormat::Yuv420P16Le,
    }
}

/// Picks the output surface of a decoded picture, or explains why no format
/// fits.
pub fn surface_mapping(pic: &DecodedPicture) -> (res: core::result::Result<
    SurfaceMapping,
    PacketError,
>)
    ensures
        match spec_surface(pic@) {
            Ok(m) => res matches Ok(r) && r@ == m,
            Err(e) => res == Err::<SurfaceMapping, PacketError>(e),
        },
{
    let sampling: Sampling = match sampling_of(pic) {
        Some(s) => s,
        None => {
            return Err(
                PacketError::ChromaGeometry {
                    color_diff_width: pic.color_diff_width,
                    color_diff_height: pic.color_diff_height,
                    luma_width: pic.luma_width,
                    luma_height: pic.luma_height,
                },
            );
        },
    };
    let (y, c): (u32, u32) = (pic.luma_depth, pic.color_diff_depth);
    let deepest: u32 = if y >= c {
        y
    } else {
        c
    };
    if y == c && (y == 8 || y == 10 || y == 12) {
        Ok(
            SurfaceMapping {
                format: format_for(y, sampling),
                luma_shift: 0,
                chroma_shift: 0,
                significant_bits: None,
            },
        )
    } else if 1 <= deepest && deepest <= 12 {
        let bits: [u8; 3] = [y as u8, c as u8, c as u8];
        assert(bits@ =~= seq![y as u8, c as u8, c as u8]);
        Ok(
            SurfaceMapping {
                format: format_for(deepest, sampling),
                luma_shift: 0,
                chroma_shift: 0,
                significant_bits: Some(bits),
            },
        )
    } else if 13 <= deepest && deepest <= 16 {
        Ok(
            SurfaceMapping {
                format: format_for(16, sampling),
                luma_shift: 16 - y,
                chroma_shift: 16 - c,
                significant_bits: None,
            },
        )
    } else {
        Err(PacketError::Depths { luma_depth: y, color_diff_depth: c })
    }
}

/// One plane of a video frame.
#[derive(Debug, Clone, PartialEq, Eq)]
pub struct VideoPlane {
    /// Bytes per row in `data`.
    pub stride: usize,
    /// The bytes of the rows.
    pub data: Vec<u8>,
}

/// A video frame: its planes, and behind them its side-channel records, which
/// are tagged by their stride.
#[derive(Debug, Clone, PartialEq, Eq)]
pub struct VideoFrame {
    /// Presentation time, if known.
    pub pts: Option<i64>,
    pub planes: Vec<VideoPlane>,
}

/// [`VideoPlane`] over mathematical values.
#[verifier::ext_equal]
pub struct PlaneBytes {
    pub stride: usize,
    pub data: Seq<u8>,
}

/// [`VideoFrame`] over mathematical values.
#[verifier::ext_equal]
pub struct FrameBytes {
    pub pts: Option<i64>,
    pub planes: Seq<PlaneBytes>,
}

impl View for VideoPlane {
    type V = PlaneBytes;

    open spec fn view(&self) -> PlaneBytes {
        PlaneBytes { stride: self.stride, data: self.data@ }
    }
}

impl View for VideoFrame {
    type V = FrameBytes;

    open spec fn view(&self) -> FrameBytes {
        FrameBytes {
            pts: self.pts,
            planes: Seq::new(self.planes@.len(), |k: int| self.planes@[k]@),
        }
    }
}

/// A plane of one byte per sample.
pub open spec fn byte_plane(samples: Seq<u16>, width: usize) -> PlaneBytes {
    PlaneBytes {
        stride: width,
        data: Seq::new(samples.len(), |k: int| (samples[k] % 256) as u8),
    }
}

/// A sample on its output word: shifted in 32 bits, and clamped to 16.
pub open spec fn promoted(v: u16, shift: u32) -> int {
    bitio::least((v * power2::pow2(shift as nat)) % 0x1_0000_0000, 0xffff)
}

/// A plane of one little-endian word per sample. The stride is twice the width,
/// as far as a stride can be.
pub open spec fn word_plane(samples: Seq<u16>, width: usize, shift: u32) -> PlaneBytes {
    PlaneBytes {
        stride: bitio::least(2 * width, usize::MAX as int) as usize,
        data: Seq::new(
            2 * samples.len(),
            |k: int|
                if k % 2 == 0 {
                    (promoted(samples[k / 2], shift) % 256) as u8
                } else {
                    (promoted(samples[k / 2], shift) / 256) as u8
                },
        ),
    }
}

/// Packs one component into a byte-per-sample plane, for the 8-bit formats.
pub fn pack_plane_bytes(samples: &[u16], width: usize) -> (p: VideoPlane)
    ensures
        p@ == byte_plane(samples@, width),
{
    let mut data: Vec<u8> = Vec::new();
    let mut k: usize = 0;
    while k < samples.len()
        invariant
            k <= samples.len(),
            data@ == byte_plane(samples@, width).data.take(k as int),
        decreases samples.len() - k,
    {
        let low: u16 = samples[k] % 256;
        data.push(low as u8);
        k = k + 1;
        assert(data@ =~= byte_plane(samples@, width).data.take(k as int));
    }
    assert(data@ =~= byte_plane(samples@, width).data);
    VideoPlane { stride: width, data }
}

/// See [`promoted`].
fn promote(v: u16, shift: u32) -> (w: u16)
    requires
        shift < 32,
    ensures
        w == promoted(v, shift),
{
    proof {
        power2::lemma2_to64();
        if shift < 31 {
            power2::lemma_pow2_strictly_increases(shift as nat, 31);
        }
        assert(v * power2::pow2(shift as nat) <= 0xffff * 0x8000_0000) by (nonlinear_arith)
            requires
                v <= 0xffff,
                power2::pow2(shift as nat) <= 0x8000_0000,
        ;
        vstd::bits::lemma_u64_shl_is_mul(v as u64, shift as u64);
    }
    let wide: u64 = (v as u64) << (shift as u64);
    let word: u64 = wide % 0x1_0000_0000;
    if word > 0xffff {
        0xffff
    } else {
        word as u16
    }
}

/// Packs one component into little-endian 16-bit words, promoting each sample by
/// `shift` (0 for the verbatim formats). Samples of the depth that the shift
/// belongs to stay within 16 bits; any others are clamped.
pub fn pack_plane_words(samples: &[u16], width: usize, shift: u32) -> (p: VideoPlane)
    requires
        shift < 32,
    ensures
        p@ == word_plane(samples@, width, shift),
{
    let mut data: Vec<u8> = Vec::new();
    let mut k: usize = 0;
    let ghost all = word_plane(samples@, width, shift).data;
    while k < samples.len()
        invariant
            k <= samples.len(),
            shift < 32,
            all == word_plane(samples@, width, shift).data,
            data@ == all.take(2 * k),
        decreases samples.len() - k,
    {
        let word: u16 = promote(samples[k], shift);
        let low: u16 = word % 256;
        let high: u16 = word / 256;
        data.push(low as u8);
        data.push(high as u8);
        proof {
            assert(all[2 * k] == low as u8);
            assert(all[2 * k + 1] == high as u8);
            assert(data@ =~= all.take(2 * k + 2));
        }
        k = k + 1;
    }
    assert(data@ =~= all);
    let stride: usize = match width.checked_mul(2) {
        Some(stride) => stride,
        None => usize::MAX,
    };
    VideoPlane { stride, data }
}

/// The samples of a depth are promoted to the top of 16-bit words without loss:
/// the shift multiplies them by a power of two, and nothing is clamped.
pub proof fn law_promotion_is_exact(v: u16, depth: u32)
    requires
        depth <= 16,
        v < power2::pow2(depth as nat),
    ensures
        promoted(v, (16 - depth) as u32) == v * power2::pow2((16 - depth) as nat),
        promoted(v, (16 - depth) as u32) <= 0x1_0000 - power2::pow2((16 - depth) as nat),
{
    let (d, s) = (power2::pow2(depth as nat) as int, power2::pow2((16 - depth) as nat) as int);
    power2::lemma2_to64();
    power2::lemma_pow2_adds(depth as nat, (16 - depth) as nat);
    power2::lemma_pow2_pos((16 - depth) as nat);
    assert(v * s <= 0x1_0000 - s) by (nonlinear_arith)
        requires
            v <= d - 1,
            d * s == 0x1_0000,
            s > 0,
    ;
    assert(0 <= v * s) by (nonlinear_arith)
        requires
            0 <= v,
            s > 0,
    ;
}

/// Without a shift a sample is its own word.
pub proof fn law_verbatim_words(v: u16)
    ensures
        promoted(v, 0) == v,
{
    power2::lemma2_to64();
}

impl FrameBytes {
    /// The frame with a record of significant bits behind its planes.
    pub open spec fn with_record(self, bits: Seq<u8>) -> FrameBytes {
        FrameBytes {
            planes: self.planes.push(PlaneBytes { stride: usize::MAX, data: bits }),
            ..self
        }
    }
}

/// Attaches a per-plane significant-bits record to a frame, by
/// `oxideav_core::VideoFrame::with_significant_bits`.
///
/// Relied on without proof: where no record of this kind is attached yet, it
/// leaves the time and the planes as they are and adds one plane behind them,
/// tagged with the greatest stride, that holds the bits. (A plane with that
/// stride counts as a record only if it holds bytes; no bits at all would attach
/// nothing.)
#[verifier::external_body]
fn with_significant_bits(frame: VideoFrame, bits: Vec<u8>) -> (r: VideoFrame)
    requires
        bits@.len() > 0,
        forall|k: int|
            0 <= k < frame.planes@.len() && (#[trigger] frame.planes@[k]).stride == usize::MAX
                ==> frame.planes@[k].data@.len() == 0,
    ensures
        r@ == frame@.with_record(bits@),
{
    let planes = frame.planes.into_iter().map(
        |p| oxideav_core::VideoPlane { stride: p.stride, data: p.data },
    ).collect();
    let full = oxideav_core::VideoFrame { pts: frame.pts, planes }.with_significant_bits(bits);
    let planes = full.planes.into_iter().map(
        |p| VideoPlane { stride: p.stride, data: p.data },
    ).collect();
    VideoFrame { pts: full.pts, planes }
}

/// One component on a surface.
pub open spec fn spec_pack(
    format: PixelFormat,
    samples: Seq<u16>,
    width: usize,
    shift: u32,
) -> PlaneBytes {
    if format_depth(format) == 8 {
        byte_plane(samples, width)
    } else {
        word_plane(samples, width, shift)
    }
}

/// The frame of a picture: its three planes on their surface, and the record of
/// significant bits where there is one.
pub open spec fn spec_frame(p: Picture, pts: Option<i64>) -> core::result::Result<
    FrameBytes,
    PacketError,
> {
    match spec_surface(p) {
        Err(e) => Err(e),
        Ok(m) => {
            let frame = FrameBytes {
                pts,
                planes: seq![
                    spec_pack(m.format, p.y, p.luma_width, m.luma_shift),
                    spec_pack(m.format, p.c1, p.color_diff_width, m.chroma_shift),
                    spec_pack(m.format, p.c2, p.color_diff_width, m.chroma_shift),
                ],
            };
            match m.significant_bits {
                Some(bits) => Ok(frame.with_record(bits)),
                None => Ok(frame),
            }
        },
    }
}

/// Whether rows that hold anything are of a width that leaves the greatest
/// strides free.
pub open spec fn presentable(p: Picture) -> bool {
    &&& 2 * p.luma_width >= usize::MAX ==> p.y.len() == 0
    &&& 2 * p.color_diff_width >= usize::MAX ==> p.c1.len() == 0 && p.c2.len() == 0
}

/// Every well-formed picture is presentable.
pub proof fn lemma_presentable(p: Picture)
    requires
        p.well_formed(),
    ensures
        presentable(p),
{
    assert(p.luma_width * 0 == 0);
    assert(p.color_diff_width * 0 == 0);
}

fn pack(format: PixelFormat, samples: &[u16], width: usize, shift: u32) -> (p: VideoPlane)
    requires
        shift < 32,
    ensures
        p@ == spec_pack(format, samples@, width, shift),
{
    match format {
        PixelFormat::Yuv444P | PixelFormat::Yuv422P | PixelFormat::Yuv420P => pack_plane_bytes(
            samples,
            width,
        ),
        _ => pack_plane_words(samples, width, shift),
    }
}

/// Converts a decoded picture into a video frame.
///
/// The format itself is not carried on the frame: it is a property of the
/// stream.
pub fn to_frame(pic: &DecodedPicture, pts: Option<i64>) -> (res: core::result::Result<
    VideoFrame,
    PacketError,
>)
    requires
        presentable(pic@),
    ensures
        match spec_frame(pic@, pts) {
            Ok(f) => res matches Ok(r) && r@ == f,
            Err(e) => res == Err::<VideoFrame, PacketError>(e),
        },
{
    let m: SurfaceMapping = surface_mapping(pic)?;
    let mut planes: Vec<VideoPlane> = Vec::new();
    planes.push(pack(m.format, pic.y.as_slice(), pic.luma_width, m.luma_shift));
    planes.push(pack(m.format, pic.c1.as_slice(), pic.color_diff_width, m.chroma_shift));
    planes.push(pack(m.format, pic.c2.as_slice(), pic.color_diff_width, m.chroma_shift));
    let frame = VideoFrame { pts, planes };
    assert(frame@.planes =~= seq![planes@[0]@, planes@[1]@, planes@[2]@]);
    match m.significant_bits {
        Some(bits) => {
            let mut record: Vec<u8> = Vec::new();
            record.push(bits[0]);
            record.push(bits[1]);
            record.push(bits[2]);
            assert(record@ =~= bits@);
            Ok(with_significant_bits(frame, record))
        },
        None => Ok(frame),
    }
}

} // verus!
