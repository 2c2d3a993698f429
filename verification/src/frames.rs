//! Frames, looked at from outside: the samples can be read off their planes.
use crate::picture::Picture;
use crate::surface;
use crate::surface::{PixelFormat, PlaneBytes};
use vstd::arithmetic::power2;
use vstd::prelude::*;

verus! {

/// The greater of the two depths of a picture.
pub open spec fn depth_of(p: Picture) -> int {
    if p.luma_depth < p.color_diff_depth {
        p.color_diff_depth as int
    } else {
        p.luma_depth as int
    }
}

/// How many bytes a sample takes.
pub open spec fn sample_bytes(p: Picture) -> int {
    if depth_of(p) <= 8 {
        1
    } else {
        2
    }
}

/// What the samples of a plane are multiplied by: pictures deeper than 12 bits are
/// spread over the whole word.
pub open spec fn gain(p: Picture, depth: u32) -> int {
    if depth_of(p) <= 12 {
        1
    } else {
        power2::pow2((16 - depth) as nat) as int
    }
}

/// The number in the bytes of sample `n`, the low byte first.
pub open spec fn sample_at(data: Seq<u8>, bytes: int, n: int) -> int {
    if bytes == 1 {
        data[n] as int
    } else {
        data[2 * n] + 256 * data[2 * n + 1]
    }
}

/// Whether a plane holds samples, row by row and without gaps.
pub open spec fn plane_holds(
    plane: PlaneBytes,
    samples: Seq<u16>,
    width: usize,
    bytes: int,
    gain: int,
) -> bool {
    &&& plane.stride == bytes * width
    &&& plane.data.len() == bytes * samples.len()
    &&& forall|n: int|
        0 <= n < samples.len() ==> sample_at(plane.data, bytes, n) == gain * #[trigger] samples[n]
}

proof fn lemma_bytes_hold(samples: Seq<u16>, width: usize)
    requires
        forall|n: int| 0 <= n < samples.len() ==> #[trigger] samples[n] < 256,
    ensures
        plane_holds(surface::byte_plane(samples, width), samples, width, 1, 1),
{
    let plane = surface::byte_plane(samples, width);
    assert forall|n: int| 0 <= n < samples.len() implies sample_at(plane.data, 1, n) == 1
        * #[trigger] samples[n] by {}
}

proof fn lemma_words_hold(samples: Seq<u16>, width: usize, shift: u32)
    requires
        2 * width <= usize::MAX,
        shift < 16,
        forall|n: int|
            0 <= n < samples.len() ==> #[trigger] samples[n] * power2::pow2(shift as nat) < 0x1_0000,
    ensures
        plane_holds(
            surface::word_plane(samples, width, shift),
            samples,
            width,
            2,
            power2::pow2(shift as nat) as int,
        ),
{
    let plane = surface::word_plane(samples, width, shift);
    let g = power2::pow2(shift as nat) as int;
    power2::lemma_pow2_pos(shift as nat);
    assert forall|n: int| 0 <= n < samples.len() implies sample_at(plane.data, 2, n) == g
        * #[trigger] samples[n] by {
        let v = samples[n] as int;
        assert(0 <= v * g < 0x1_0000 && v * g == g * v) by (nonlinear_arith)
            requires
                v >= 0,
                g > 0,
                v * g < 0x1_0000,
        ;
        assert(surface::promoted(samples[n], shift) == v * g);
        assert((2 * n) / 2 == n && (2 * n + 1) / 2 == n);
    }
}

proof fn lemma_words_of_depth(samples: Seq<u16>, width: usize, depth: u32)
    requires
        2 * width <= usize::MAX,
        1 <= depth <= 16,
        forall|n: int|
            0 <= n < samples.len() ==> #[trigger] samples[n] < power2::pow2(depth as nat),
    ensures
        plane_holds(
            surface::word_plane(samples, width, (16 - depth) as u32),
            samples,
            width,
            2,
            power2::pow2((16 - depth) as nat) as int,
        ),
        plane_holds(surface::word_plane(samples, width, 0), samples, width, 2, 1),
{
    let g = power2::pow2((16 - depth) as nat) as int;
    power2::lemma2_to64();
    power2::lemma_pow2_adds(depth as nat, (16 - depth) as nat);
    power2::lemma_pow2_pos((16 - depth) as nat);
    assert forall|n: int| 0 <= n < samples.len() implies #[trigger] samples[n] * g < 0x1_0000 by {
        let (v, d) = (samples[n] as int, power2::pow2(depth as nat) as int);
        assert(v * g < d * g) by (nonlinear_arith)
            requires
                v < d,
                g > 0,
        ;
    }
    lemma_words_hold(samples, width, (16 - depth) as u32);
    assert forall|n: int| 0 <= n < samples.len() implies #[trigger] samples[n] * power2::pow2(0)
        < 0x1_0000 by {
        assert(power2::pow2(0) == 1);
    }
    lemma_words_hold(samples, width, 0);
}

proof fn lemma_plane(p: Picture, samples: Seq<u16>, width: usize, depth: u32, format: PixelFormat)
    requires
        2 * width <= usize::MAX,
        1 <= depth <= depth_of(p) <= 16,
        forall|n: int|
            0 <= n < samples.len() ==> #[trigger] samples[n] < power2::pow2(depth as nat),
        surface::format_depth(format) == 8 <==> depth_of(p) <= 8,
    ensures
        plane_holds(
            surface::spec_pack(
                format,
                samples,
                width,
                if depth_of(p) <= 12 {
                    0
                } else {
                    (16 - depth) as u32
                },
            ),
            samples,
            width,
            sample_bytes(p),
            gain(p, depth),
        ),
{
    power2::lemma2_to64();
    if depth_of(p) <= 8 {
        if depth < 8 {
            power2::lemma_pow2_strictly_increases(depth as nat, 8);
        }
        lemma_bytes_hold(samples, width);
    } else {
        lemma_words_of_depth(samples, width, depth);
    }
}

/// Whether all planes of a picture have the depths of a format of their own.
pub open spec fn plain(p: Picture) -> bool {
    p.luma_depth == p.color_diff_depth && (p.luma_depth == 8 || p.luma_depth == 10 || p.luma_depth
        == 12)
}

/// The frame of a picture holds its time and, plane by plane, its samples: luma, then
/// the two colour-difference components. Behind them stands a record of the depths
/// where the samples are not those of a format, and are not spread over the word.
pub proof fn law_frames_hold_the_samples(p: Picture, pts: Option<i64>)
    requires
        p.well_formed(),
        2 * p.luma_width <= usize::MAX,
        2 * p.color_diff_width <= usize::MAX,
    ensures
        surface::spec_frame(p, pts) matches Ok(f) && {
            let recorded = depth_of(p) <= 12 && !plain(p);
            &&& f.pts == pts
            &&& f.planes.len() == if recorded {
                4int
            } else {
                3
            }
            &&& plane_holds(
                f.planes[0],
                p.y,
                p.luma_width,
                sample_bytes(p),
                gain(p, p.luma_depth),
            )
            &&& plane_holds(
                f.planes[1],
                p.c1,
                p.color_diff_width,
                sample_bytes(p),
                gain(p, p.color_diff_depth),
            )
            &&& plane_holds(
                f.planes[2],
                p.c2,
                p.color_diff_width,
                sample_bytes(p),
                gain(p, p.color_diff_depth),
            )
            &&& recorded ==> f.planes[3].data == seq![
                p.luma_depth as u8,
                p.color_diff_depth as u8,
                p.color_diff_depth as u8,
            ]
        },
{
    surface::law_every_picture_has_a_surface(p);
    let m = surface::spec_surface(p)->Ok_0;
    lemma_plane(p, p.y, p.luma_width, p.luma_depth, m.format);
    lemma_plane(p, p.c1, p.color_diff_width, p.color_diff_depth, m.format);
    lemma_plane(p, p.c2, p.color_diff_width, p.color_diff_depth, m.format);
}

/// Whether a format is for colour-difference planes as wide as luma.
pub open spec fn full_width(f: PixelFormat) -> bool {
    f == PixelFormat::Yuv444P || f == PixelFormat::Yuv444P10Le || f == PixelFormat::Yuv444P12Le || f
        == PixelFormat::Yuv444P16Le
}

/// Whether a format is for colour-difference planes as high as luma.
pub open spec fn full_height(f: PixelFormat) -> bool {
    full_width(f) || f == PixelFormat::Yuv422P || f == PixelFormat::Yuv422P10Le || f
        == PixelFormat::Yuv422P12Le || f == PixelFormat::Yuv422P16Le
}

/// The format of a picture is the one for its sampling: the colour-difference planes
/// are as wide and as high as it says.
pub proof fn law_formats_tell_the_sampling(p: Picture)
    requires
        surface::spec_surface(p) is Ok,
    ensures
        ({
            let f = surface::spec_surface(p)->Ok_0.format;
            &&& full_width(f) ==> p.color_diff_width == p.luma_width
            &&& !full_width(f) ==> p.luma_width - 1 <= 2 * p.color_diff_width <= p.luma_width
            &&& full_height(f) ==> p.color_diff_height == p.luma_height
            &&& !full_height(f) ==> p.luma_height - 1 <= 2 * p.color_diff_height <= p.luma_height
        }),
{
}

} // verus!
