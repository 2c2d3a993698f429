//! Quantizers and default quantization matrices.
use oxideav_vc2::quant::{
    default_quant_matrix, default_quant_matrix_full, inverse_quant, quant_factor, quant_offset,
    MatrixLevel,
};

#[test]
fn quant_factor_index_zero() {
    assert_eq!(quant_factor(0), 4);
}

#[test]
fn quant_offset_specials() {
    assert_eq!(quant_offset(0), 1);
    assert_eq!(quant_offset(1), 2);
    assert_eq!(quant_offset(4), 4);
}

#[test]
fn inverse_quant_zero_passthrough() {
    assert_eq!(inverse_quant(0, 5), 0);
}

#[test]
fn inverse_quant_index_zero_is_near_identity() {
    assert_eq!(inverse_quant(7, 0), 7);
    assert_eq!(inverse_quant(-7, 0), -7);
}

#[test]
fn legall_default_depth2() {
    let m = default_quant_matrix(1, 2).unwrap();
    assert_eq!(m[0], MatrixLevel::Ll(4));
    assert_eq!(
        m[1],
        MatrixLevel::Ac {
            hl: 2,
            lh: 2,
            hh: 0
        }
    );
    assert_eq!(
        m[2],
        MatrixLevel::Ac {
            hl: 4,
            lh: 4,
            hh: 2
        }
    );
}

#[test]
fn haar_no_shift_default_depth3() {
    let m = default_quant_matrix(3, 3).unwrap();
    assert_eq!(m[0], MatrixLevel::Ll(16));
    assert_eq!(
        m[1],
        MatrixLevel::Ac {
            hl: 12,
            lh: 12,
            hh: 8
        }
    );
    assert_eq!(
        m[2],
        MatrixLevel::Ac {
            hl: 8,
            lh: 8,
            hh: 4
        }
    );
    assert_eq!(
        m[3],
        MatrixLevel::Ac {
            hl: 4,
            lh: 4,
            hh: 0
        }
    );
}

#[test]
fn depth_beyond_four_has_no_default() {
    assert!(default_quant_matrix(1, 5).is_none());
}

#[test]
fn every_table_has_all_nineteen_cells() {
    for (wi, wi_ho) in [
        (0, 0),
        (1, 1),
        (2, 2),
        (3, 3),
        (4, 4),
        (5, 5),
        (6, 6),
        (3, 1),
    ] {
        for ho in 0..=5u64 {
            for depth in 0..=5u64 {
                let m = default_quant_matrix_full(wi, wi_ho, depth, ho);
                let in_annex = ho <= 4 && depth <= 4 && ho + depth <= 5;
                assert_eq!(
                    m.is_some(),
                    in_annex,
                    "pair ({wi},{wi_ho}) ho {ho} depth {depth}"
                );
                if let Some(m) = m {
                    assert_eq!(m.len() as u64, 1 + ho + depth);
                    assert!(matches!(m[0], MatrixLevel::Ll(_)));
                    for l in 1..=ho {
                        assert!(matches!(m[l as usize], MatrixLevel::H(_)));
                    }
                    for l in (ho + 1)..=(ho + depth) {
                        assert!(matches!(m[l as usize], MatrixLevel::Ac { .. }));
                    }
                }
            }
        }
    }
}

#[test]
fn legall_asymmetric_ho2_depth1() {
    let m = default_quant_matrix_full(1, 1, 1, 2).unwrap();
    assert_eq!(m[0], MatrixLevel::Ll(2));
    assert_eq!(m[1], MatrixLevel::H(0));
    assert_eq!(m[2], MatrixLevel::H(3));
    assert_eq!(
        m[3],
        MatrixLevel::Ac {
            hl: 6,
            lh: 6,
            hh: 4
        }
    );
}

#[test]
fn haar_no_shift_asymmetric_grows_with_depth() {
    let d0 = default_quant_matrix_full(3, 3, 0, 1).unwrap();
    assert_eq!(d0[0], MatrixLevel::Ll(4));
    assert_eq!(d0[1], MatrixLevel::H(0));
    let d2 = default_quant_matrix_full(3, 3, 2, 1).unwrap();
    assert_eq!(d2[0], MatrixLevel::Ll(14));
    assert_eq!(d2[1], MatrixLevel::H(10));
    assert_eq!(
        d2[2],
        MatrixLevel::Ac {
            hl: 8,
            lh: 8,
            hh: 4
        }
    );
    assert_eq!(
        d2[3],
        MatrixLevel::Ac {
            hl: 4,
            lh: 4,
            hh: 0
        }
    );
}

#[test]
fn mixed_haar_legall_pair_table_d8() {
    let m = default_quant_matrix_full(3, 1, 2, 1).unwrap();
    assert_eq!(m[0], MatrixLevel::Ll(3));
    assert_eq!(m[1], MatrixLevel::H(1));
    assert_eq!(
        m[2],
        MatrixLevel::Ac {
            hl: 4,
            lh: 2,
            hh: 0
        }
    );
    assert_eq!(
        m[3],
        MatrixLevel::Ac {
            hl: 5,
            lh: 3,
            hh: 1
        }
    );
    assert!(default_quant_matrix_full(1, 3, 2, 1).is_none());
    assert!(default_quant_matrix_full(3, 4, 1, 1).is_none());
}

#[test]
fn total_depth_over_five_has_no_default() {
    assert!(default_quant_matrix_full(1, 1, 4, 2).is_none());
    assert!(default_quant_matrix_full(1, 1, 4, 1).is_some());
}
