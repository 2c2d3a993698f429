//! Output surfaces and plane packing.
use oxideav_vc2::picture::DecodedPicture;
use oxideav_vc2::surface::{pack_plane_bytes, pack_plane_words, surface_mapping, PixelFormat};

fn pic(luma: (usize, usize, u32), chroma: (usize, usize, u32)) -> DecodedPicture {
    DecodedPicture {
        picture_number: 0,
        luma_width: luma.0,
        luma_height: luma.1,
        color_diff_width: chroma.0,
        color_diff_height: chroma.1,
        luma_depth: luma.2,
        color_diff_depth: chroma.2,
        y: vec![0; luma.0 * luma.1],
        c1: vec![0; chroma.0 * chroma.1],
        c2: vec![0; chroma.0 * chroma.1],
    }
}

#[test]
fn pixel_format_mapping() {
    let f = |l, c| surface_mapping(&pic(l, c)).map(|m| m.format);
    assert!(matches!(f((4, 2, 8), (4, 2, 8)), Ok(PixelFormat::Yuv444P)));
    assert!(matches!(f((4, 2, 8), (2, 2, 8)), Ok(PixelFormat::Yuv422P)));
    assert!(matches!(f((4, 2, 8), (2, 1, 8)), Ok(PixelFormat::Yuv420P)));
    assert!(matches!(
        f((4, 2, 10), (2, 2, 10)),
        Ok(PixelFormat::Yuv422P10Le)
    ));
    assert!(matches!(
        f((4, 2, 12), (4, 2, 12)),
        Ok(PixelFormat::Yuv444P12Le)
    ));
    assert!(matches!(
        f((4, 2, 16), (4, 2, 16)),
        Ok(PixelFormat::Yuv444P16Le)
    ));
    assert!(matches!(
        f((4, 2, 16), (2, 2, 16)),
        Ok(PixelFormat::Yuv422P16Le)
    ));
    assert!(matches!(
        f((4, 2, 16), (2, 1, 16)),
        Ok(PixelFormat::Yuv420P16Le)
    ));
    assert!(f((4, 2, 16), (3, 2, 16)).is_err());
    assert!(f((4, 2, 10), (3, 2, 8)).is_err());
    assert!(f((4, 2, 0), (4, 2, 0)).is_err());
    assert!(f((4, 2, 17), (4, 2, 17)).is_err());
}

#[test]
fn mixed_shallow_depths_ride_the_deepest_surface_with_a_record() {
    let f = |l, c| surface_mapping(&pic(l, c)).unwrap();
    let m = f((4, 2, 12), (2, 2, 10));
    assert_eq!(m.format, PixelFormat::Yuv422P12Le);
    assert_eq!((m.luma_shift, m.chroma_shift), (0, 0));
    assert_eq!(m.significant_bits, Some([12, 10, 10]));
    let m = f((4, 2, 10), (4, 2, 8));
    assert_eq!(m.format, PixelFormat::Yuv444P10Le);
    assert_eq!(m.significant_bits, Some([10, 8, 8]));
    let m = f((4, 2, 8), (2, 1, 6));
    assert_eq!(m.format, PixelFormat::Yuv420P);
    assert_eq!(m.significant_bits, Some([8, 6, 6]));
    let m = f((4, 2, 10), (4, 2, 12));
    assert_eq!(m.format, PixelFormat::Yuv444P12Le);
    assert_eq!(m.significant_bits, Some([10, 12, 12]));
    let m = f((4, 2, 12), (2, 2, 1));
    assert_eq!(m.format, PixelFormat::Yuv422P12Le);
    assert_eq!(m.significant_bits, Some([12, 1, 1]));
}

#[test]
fn uniform_off_format_depths_are_represented_not_refused() {
    let f = |l, c| surface_mapping(&pic(l, c)).unwrap();
    let m = f((4, 2, 9), (4, 2, 9));
    assert_eq!(m.format, PixelFormat::Yuv444P10Le);
    assert_eq!((m.luma_shift, m.chroma_shift), (0, 0));
    assert_eq!(m.significant_bits, Some([9, 9, 9]));
    let m = f((4, 2, 11), (2, 1, 11));
    assert_eq!(m.format, PixelFormat::Yuv420P12Le);
    assert_eq!(m.significant_bits, Some([11, 11, 11]));
    let m = f((4, 2, 1), (4, 2, 1));
    assert_eq!(m.format, PixelFormat::Yuv444P);
    assert_eq!(m.significant_bits, Some([1, 1, 1]));
}

#[test]
fn exact_and_promoted_surfaces_attach_no_record() {
    let f = |l, c| surface_mapping(&pic(l, c)).unwrap();
    assert_eq!(f((4, 2, 8), (2, 1, 8)).significant_bits, None);
    assert_eq!(f((4, 2, 10), (2, 2, 10)).significant_bits, None);
    assert_eq!(f((4, 2, 12), (4, 2, 12)).significant_bits, None);
    assert_eq!(f((4, 2, 16), (2, 2, 16)).significant_bits, None);
    assert_eq!(f((4, 2, 13), (4, 2, 13)).significant_bits, None);
    assert_eq!(f((4, 2, 16), (2, 2, 12)).significant_bits, None);
    assert_eq!(f((4, 2, 14), (2, 1, 10)).significant_bits, None);
}

#[test]
fn deep_custom_ranges_promote_onto_the_16bit_surface() {
    let m = surface_mapping(&pic((4, 2, 13), (4, 2, 13))).unwrap();
    assert_eq!(m.format, PixelFormat::Yuv444P16Le);
    assert_eq!(m.luma_shift, 3);
    assert_eq!(m.chroma_shift, 3);
    let m = surface_mapping(&pic((4, 2, 16), (2, 2, 12))).unwrap();
    assert_eq!(m.format, PixelFormat::Yuv422P16Le);
    assert_eq!(m.luma_shift, 0);
    assert_eq!(m.chroma_shift, 4);
    let m = surface_mapping(&pic((4, 2, 16), (2, 1, 16))).unwrap();
    assert_eq!(m.luma_shift, 0);
    assert_eq!(m.chroma_shift, 0);
}

#[test]
fn plane_packing_widths() {
    let p8 = pack_plane_bytes(&[1, 2, 3, 4], 2);
    assert_eq!(p8.stride, 2);
    assert_eq!(p8.data, vec![1, 2, 3, 4]);
    let p10 = pack_plane_words(&[0x0102, 0x0304], 2, 0);
    assert_eq!(p10.stride, 4);
    assert_eq!(p10.data, vec![0x02, 0x01, 0x04, 0x03]);
}

#[test]
fn word_packing_applies_promotion_shift() {
    let p = pack_plane_words(&[0, 1, 4096, 8191], 4, 3);
    assert_eq!(p.stride, 8);
    let words: Vec<u16> = p
        .data
        .chunks_exact(2)
        .map(|b| u16::from_le_bytes([b[0], b[1]]))
        .collect();
    assert_eq!(words, vec![0, 8, 32768, 65528]);
    let p = pack_plane_words(&[u16::MAX], 1, 3);
    assert_eq!(p.data, u16::MAX.to_le_bytes().to_vec());
}
