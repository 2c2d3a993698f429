//! Wavelet filters and synthesis.
use oxideav_vc2::wavelet::{h_synthesis, oned_synthesis, vh_synthesis, wavelet_filter, Plane};

#[test]
fn all_filter_indices_present() {
    for idx in 0..=6 {
        assert!(wavelet_filter(idx).is_some(), "index {idx}");
    }
    assert!(wavelet_filter(7).is_none());
}

#[test]
fn legall_stage_count() {
    let f = wavelet_filter(1).unwrap();
    assert_eq!(f.stages.len(), 2);
    assert_eq!(f.bit_shift, 1);
}

#[test]
fn daubechies_has_four_stages() {
    let f = wavelet_filter(6).unwrap();
    assert_eq!(f.stages.len(), 4);
}

#[test]
fn haar_no_shift_dc_only_roundtrips_constant() {
    let l = Plane {
        width: 1,
        height: 1,
        data: vec![10],
    };
    let h = Plane {
        width: 1,
        height: 1,
        data: vec![0],
    };
    let f = wavelet_filter(3).unwrap();
    let out = h_synthesis(&l, &h, &f);
    assert_eq!(out.width, 2);
    assert_eq!(out.height, 1);
    assert_eq!(out.data, vec![10, 10]);
}

#[test]
fn legall_vh_synthesis_dc_only_is_constant() {
    let ll = Plane {
        width: 1,
        height: 1,
        data: vec![20],
    };
    let zero = Plane {
        width: 1,
        height: 1,
        data: vec![0],
    };
    let f = wavelet_filter(1).unwrap();
    let out = vh_synthesis(&ll, &zero, &zero, &zero, &f, &f);
    assert_eq!((out.width, out.height), (2, 2));
    let first = out.data[0];
    assert!(out.data.iter().all(|&v| v == first), "got {:?}", out.data);
}

#[test]
fn legall_oned_inverts_forward_on_known_signal() {
    let original = [3i64, 9, 1, 7, 5, 2, 8, 4];
    let mut a = original;
    forward_legall(&mut a);
    oned_synthesis(&mut a, &wavelet_filter(1).unwrap());
    assert_eq!(a, original);
}

fn forward_legall(a: &mut [i64]) {
    let len = a.len() as i32;
    let half = a.len() / 2;
    for n in 0..half as i32 {
        let p0 = (2 * n).clamp(0, len - 2) as usize;
        let p2 = (2 * (n + 1)).clamp(0, len - 2) as usize;
        let sum = a[p0] + a[p2] + 1;
        a[(2 * n + 1) as usize] -= sum >> 1;
    }
    for n in 0..half as i32 {
        let p_lo = (2 * n - 1).clamp(1, len - 1) as usize;
        let p_hi = (2 * n + 1).clamp(1, len - 1) as usize;
        let sum = a[p_lo] + a[p_hi] + 2;
        a[(2 * n) as usize] += sum >> 2;
    }
}
