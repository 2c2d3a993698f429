//! Subband layout, means and slice sizes.
use oxideav_vc2::quant::default_quant_matrix;
use oxideav_vc2::transform::{
    mean3, slice_bytes, subband_height, subband_layout, subband_width, Orient, TransformParameters,
};

#[test]
fn subband_dims_symmetric_depth2() {
    assert_eq!(subband_width(8, 0, 2, 0), 2);
    assert_eq!(subband_width(8, 0, 2, 1), 2);
    assert_eq!(subband_width(8, 0, 2, 2), 4);
    assert_eq!(subband_height(8, 0, 2, 0), 2);
    assert_eq!(subband_height(8, 0, 2, 2), 4);
}

#[test]
fn layout_symmetric_depth2() {
    let l = subband_layout(0, 2);
    assert_eq!(l.len(), 1 + 2 * 3);
    assert_eq!(l[0], (0, Orient::LL));
    assert_eq!(l[1], (1, Orient::HL));
    assert_eq!(l[6], (2, Orient::HH));
}

#[test]
fn mean3_matches_spec() {
    assert_eq!(mean3(1, 2, 3), 2);
    assert_eq!(mean3(-1, -2, -3), -2);
}

#[test]
fn slice_bytes_distributes_remainder() {
    let tp = test_tp(0, 1, 5, 2);
    assert_eq!(slice_bytes(&tp, 0, 0), 2);
    assert_eq!(slice_bytes(&tp, 1, 0), 3);
}

fn test_tp(dwt_depth_ho: u64, dwt_depth: u64, num: u64, den: u64) -> TransformParameters {
    TransformParameters {
        wavelet_index: 1,
        dwt_depth,
        wavelet_index_ho: 1,
        dwt_depth_ho,
        asym_transform_index_flag: false,
        asym_transform_flag: false,
        slices_x: 2,
        slices_y: 2,
        slice_bytes_numerator: num,
        slice_bytes_denominator: den,
        slice_prefix_bytes: 0,
        slice_size_scaler: 1,
        quant_matrix: default_quant_matrix(1, dwt_depth).unwrap(),
    }
}

#[test]
fn total_levels_count_both_kinds() {
    assert_eq!(test_tp(0, 3, 1, 1).total_levels(), 3);
    assert_eq!(test_tp(2, 3, 1, 1).total_levels(), 5);
}
