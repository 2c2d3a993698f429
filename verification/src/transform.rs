//! Transform parameters, subband structure, slice unpacking and the inverse
//! transform of a component.
use crate::bitio::{BitReader, Input};
use crate::error::{Error, Result};
use crate::params::{CodingParameters, SequenceHeader};
use crate::quant;
use crate::quant::MatrixLevel;
use crate::prediction;
use crate::reading;
use crate::slices;
use crate::subband;
use crate::wavelet;
use crate::grid::Grid;
use crate::wavelet::{Filter, Plane, WaveletFilter};
use vstd::arithmetic::power2;
use vstd::prelude::*;

pub use crate::prediction::{apply_dc_prediction, mean3};
pub use crate::slices::{slice_bytes, unpack_slice};
pub use crate::subband::{
    init_transform_data, subband_height, subband_layout, subband_width, ComponentCoeffs,
    TransformData,
};

verus! {

/// Picture kind, as told by the parse code.
#[derive(Debug, Clone, Copy, PartialEq, Eq, Structural)]
pub enum PictureKind {
    /// Low delay picture: fixed-size slices.
    LowDelay,
    /// High quality picture: per-component length codes.
    HighQuality,
}

impl PictureKind {
    /// Whether the pictures of this kind predict their DC bands.
    pub fn uses_dc_prediction(self) -> (b: bool)
        ensures
            b == (self == PictureKind::LowDelay),
    {
        matches!(self, PictureKind::LowDelay)
    }
}

/// Orientation of a subband.
#[derive(Debug, Clone, Copy, PartialEq, Eq, Structural)]
pub enum Orient {
    /// DC band of a symmetric transform (level 0).
    LL,
    /// DC band of an asymmetric transform (level 0).
    L,
    /// Horizontal-only AC band.
    H,
    HL,
    LH,
    HH,
}

/// Wavelet transform parameters.
#[derive(Debug, Clone)]
pub struct TransformParameters {
    pub wavelet_index: u64,
    pub dwt_depth: u64,
    pub wavelet_index_ho: u64,
    pub dwt_depth_ho: u64,
    /// Whether a horizontal-only filter was signalled.
    pub asym_transform_index_flag: bool,
    /// Whether a horizontal-only depth was signalled.
    pub asym_transform_flag: bool,
    pub slices_x: u64,
    pub slices_y: u64,
    /// Low delay: bytes per slice, as a fraction.
    pub slice_bytes_numerator: u64,
    /// See [`Self::slice_bytes_numerator`].
    pub slice_bytes_denominator: u64,
    /// High quality: bytes to skip in front of each slice.
    pub slice_prefix_bytes: u64,
    /// High quality: unit of the component length codes, in bytes.
    pub slice_size_scaler: u64,
    /// Quantization matrix per level; index 0 is DC, 1.. are AC levels.
    pub quant_matrix: Vec<MatrixLevel>,
}

/// [`TransformParameters`] over mathematical values.
#[verifier::ext_equal]
pub struct Transform {
    pub wavelet_index: u64,
    pub dwt_depth: u64,
    pub wavelet_index_ho: u64,
    pub dwt_depth_ho: u64,
    pub asym_transform_index_flag: bool,
    pub asym_transform_flag: bool,
    pub slices_x: u64,
    pub slices_y: u64,
    pub slice_bytes_numerator: u64,
    pub slice_bytes_denominator: u64,
    pub slice_prefix_bytes: u64,
    pub slice_size_scaler: u64,
    pub quant_matrix: Seq<MatrixLevel>,
}

impl View for TransformParameters {
    type V = Transform;

    open spec fn view(&self) -> Transform {
        Transform {
            wavelet_index: self.wavelet_index,
            dwt_depth: self.dwt_depth,
            wavelet_index_ho: self.wavelet_index_ho,
            dwt_depth_ho: self.dwt_depth_ho,
            asym_transform_index_flag: self.asym_transform_index_flag,
            asym_transform_flag: self.asym_transform_flag,
            slices_x: self.slices_x,
            slices_y: self.slices_y,
            slice_bytes_numerator: self.slice_bytes_numerator,
            slice_bytes_denominator: self.slice_bytes_denominator,
            slice_prefix_bytes: self.slice_prefix_bytes,
            slice_size_scaler: self.slice_size_scaler,
            quant_matrix: self.quant_matrix@,
        }
    }
}

impl TransformParameters {
    /// Total number of transform levels.
    pub fn total_levels(&self) -> (n: u64)
        requires
            self.dwt_depth_ho + self.dwt_depth <= u64::MAX,
        ensures
            n == self.dwt_depth_ho + self.dwt_depth,
    {
        self.dwt_depth_ho + self.dwt_depth
    }
}

/// Cap on `dwt_depth_ho + dwt_depth`. Each level doubles the pad granularity;
/// beyond this even the largest frames would be pure padding.
pub const MAX_TOTAL_TRANSFORM_DEPTH: u64 = 16;

/// Cap on the padded luma area, in samples: twice the largest base video
/// format.
pub const MAX_PADDED_AREA: u64 = 0x400_0000;

/// Cap on `slices_x * slices_y`.
pub const MAX_SLICES: u64 = 0x40_0000;

/// Cap on the numerator of the low-delay slice size.
pub const MAX_SLICE_BYTES_NUMERATOR: u64 = 0x1_0000_0000;

/// Cap on the high-quality slice prefix.
pub const MAX_SLICE_PREFIX_BYTES: u64 = 0x1_0000;

/// Cap on the unit of the high-quality length codes.
pub const MAX_SLICE_SIZE_SCALER: u64 = 0x1_0000;

/// `n / d`, rounded up.
pub open spec fn ceil_div(n: int, d: int) -> int {
    (n + d - 1) / d
}

/// `n`, rounded up to a multiple of `2^levels`.
pub open spec fn padded(n: int, levels: nat) -> int {
    ceil_div(n, power2::pow2(levels) as int) * power2::pow2(levels)
}

/// `n / d`, rounded up, for a power of two `d`.
pub(crate) fn div_ceil(n: u64, d: u64) -> (q: u64)
    requires
        d > 0,
    ensures
        q == ceil_div(n as int, d as int),
{
    let q: u64 = n / d;
    let r: u64 = n % d;
    proof {
        vstd::arithmetic::div_mod::lemma_fundamental_div_mod(n as int, d as int);
        let (qi, ri, di) = (q as int, r as int, d as int);
        assert(n == di * qi + ri);
        if r == 0 {
            assert(n + di - 1 == qi * di + (di - 1)) by (nonlinear_arith)
                requires
                    n == di * qi,
            ;
            vstd::arithmetic::div_mod::lemma_fundamental_div_mod_converse(
                n + di - 1,
                di,
                qi,
                di - 1,
            );
        } else {
            assert(n + di - 1 == (qi + 1) * di + (ri - 1)) by (nonlinear_arith)
                requires
                    n == di * qi + ri,
            ;
            vstd::arithmetic::div_mod::lemma_fundamental_div_mod_converse(
                n + di - 1,
                di,
                qi + 1,
                ri - 1,
            );
            assert(qi + 1 <= n) by (nonlinear_arith)
                requires
                    n == di * qi + ri,
                    ri >= 1,
                    di >= 1,
                    qi >= 0,
            ;
        }
    }
    if r == 0 {
        q
    } else {
        q + 1
    }
}

/// `2^levels`.
pub(crate) fn pow2_u64(levels: u64) -> (p: u64)
    requires
        levels < 64,
    ensures
        p == power2::pow2(levels as nat),
        p > 0,
{
    proof {
        lemma_pow2_fits(levels as nat);
        vstd::bits::lemma_u64_shl_is_mul(1, levels);
    }
    1u64 << levels
}

proof fn lemma_pow2_fits(levels: nat)
    requires
        levels < 64,
    ensures
        0 < power2::pow2(levels) <= 0x8000_0000_0000_0000,
{
    power2::lemma2_to64_rest();
    power2::lemma_pow2_pos(levels);
    if levels < 63 {
        power2::lemma_pow2_strictly_increases(levels, 63);
    }
}

/// Padding never shrinks, and what is padded is a whole number of blocks.
pub proof fn lemma_padded(n: int, levels: nat)
    requires
        n >= 0,
    ensures
        padded(n, levels) >= n,
        padded(n, levels) >= 0,
        ceil_div(n, power2::pow2(levels) as int) >= 0,
{
    let d = power2::pow2(levels) as int;
    power2::lemma_pow2_pos(levels);
    let q = ceil_div(n, d);
    vstd::arithmetic::div_mod::lemma_fundamental_div_mod(n + d - 1, d);
    let r = (n + d - 1) % d;
    assert(q * d >= n) by (nonlinear_arith)
        requires
            n + d - 1 == d * q + r,
            r <= d - 1,
    ;
    assert(q >= 0) by (nonlinear_arith)
        requires
            q * d >= n,
            n >= 0,
            d > 0,
    ;
}

/// Filters and depths, and whether the asymmetric ones were signalled.
pub struct Depths {
    pub wavelet_index: u64,
    pub dwt_depth: u64,
    pub wavelet_index_ho: u64,
    pub dwt_depth_ho: u64,
    pub asym_transform_index_flag: bool,
    pub asym_transform_flag: bool,
}

/// Filter and depth codes; from major version 3 on, optional codes for the
/// horizontal-only filter and depth follow.
pub open spec fn spec_depths(i: Input, major_version: u64) -> (Input, Depths) {
    let (i1, wavelet_index) = i.number();
    let (i2, dwt_depth) = i1.number();
    if major_version < 3 {
        (
            i2,
            Depths {
                wavelet_index,
                dwt_depth,
                wavelet_index_ho: wavelet_index,
                dwt_depth_ho: 0,
                asym_transform_index_flag: false,
                asym_transform_flag: false,
            },
        )
    } else {
        let (i3, asym_transform_index_flag) = i2.flag();
        let (i4, wavelet_index_ho) = if asym_transform_index_flag {
            i3.number()
        } else {
            (i3, wavelet_index)
        };
        let (i5, asym_transform_flag) = i4.flag();
        let (i6, dwt_depth_ho) = if asym_transform_flag {
            i5.number()
        } else {
            (i5, 0u64)
        };
        (
            i6,
            Depths {
                wavelet_index,
                dwt_depth,
                wavelet_index_ho,
                dwt_depth_ho,
                asym_transform_index_flag,
                asym_transform_flag,
            },
        )
    }
}

fn read_depths(r: &mut BitReader, major_version: u64) -> (res: Depths)
    ensures
        (final(r)@, res) == spec_depths(old(r)@, major_version),
        final(r)@.wf(),
        final(r).source() == old(r).source(),
{
    let wavelet_index: u64 = r.read_uint();
    let dwt_depth: u64 = r.read_uint();
    let mut d = Depths {
        wavelet_index,
        dwt_depth,
        wavelet_index_ho: wavelet_index,
        dwt_depth_ho: 0,
        asym_transform_index_flag: false,
        asym_transform_flag: false,
    };
    if major_version >= 3 {
        d.asym_transform_index_flag = r.read_bool();
        if d.asym_transform_index_flag {
            d.wavelet_index_ho = r.read_uint();
        }
        d.asym_transform_flag = r.read_bool();
        if d.asym_transform_flag {
            d.dwt_depth_ho = r.read_uint();
        }
    }
    d
}

/// What is wrong with the filters and depths for pictures of this size, if
/// anything: an unknown filter, too deep a transform, or too large an area
/// once each dimension is padded to a whole number of blocks. Chroma is never
/// larger than luma, so luma alone is held against the caps.
pub open spec fn depths_fault(d: Depths, cp: CodingParameters) -> Option<Error> {
    let total = d.dwt_depth + d.dwt_depth_ho;
    let pw = padded(cp.luma_width as int, total as nat);
    let ph = padded(cp.luma_height as int, d.dwt_depth as nat);
    if d.wavelet_index > 6 {
        Some(Error::UnsupportedWaveletIndex(d.wavelet_index))
    } else if d.wavelet_index_ho > 6 {
        Some(Error::UnsupportedWaveletIndex(d.wavelet_index_ho))
    } else if total > MAX_TOTAL_TRANSFORM_DEPTH {
        Some(Error::InvalidValue("total transform depth exceeds the implementation cap"))
    } else if pw > u64::MAX {
        Some(Error::InvalidValue("padded luma width overflows"))
    } else if ph > u64::MAX {
        Some(Error::InvalidValue("padded luma height overflows"))
    } else if pw * ph > MAX_PADDED_AREA {
        Some(Error::InvalidValue("padded picture area exceeds the implementation cap"))
    } else if pw > usize::MAX {
        Some(Error::InvalidValue("padded luma width overflows"))
    } else if ph > usize::MAX {
        Some(Error::InvalidValue("padded luma height overflows"))
    } else {
        None
    }
}

/// `n` padded to a multiple of `2^levels`, where that fits.
fn padded_extent(n: u64, levels: u64) -> (r: Option<u64>)
    requires
        levels < 64,
    ensures
        r matches Some(p) ==> p == padded(n as int, levels as nat),
        r is None ==> padded(n as int, levels as nat) > u64::MAX,
{
    let scale: u64 = pow2_u64(levels);
    div_ceil(n, scale).checked_mul(scale)
}

fn check_depths(d: &Depths, cp: &CodingParameters) -> (r: Option<Error>)
    ensures
        r == depths_fault(*d, *cp),
{
    if d.wavelet_index > 6 {
        return Some(Error::UnsupportedWaveletIndex(d.wavelet_index));
    }
    if d.wavelet_index_ho > 6 {
        return Some(Error::UnsupportedWaveletIndex(d.wavelet_index_ho));
    }
    if d.dwt_depth.saturating_add(d.dwt_depth_ho) > MAX_TOTAL_TRANSFORM_DEPTH {
        return Some(Error::InvalidValue("total transform depth exceeds the implementation cap"));
    }
    let pw: u64 = match padded_extent(cp.luma_width, d.dwt_depth + d.dwt_depth_ho) {
        Some(pw) => pw,
        None => {
            return Some(Error::InvalidValue("padded luma width overflows"));
        },
    };
    let ph: u64 = match padded_extent(cp.luma_height, d.dwt_depth) {
        Some(ph) => ph,
        None => {
            return Some(Error::InvalidValue("padded luma height overflows"));
        },
    };
    match pw.checked_mul(ph) {
        Some(area) if area <= MAX_PADDED_AREA => {},
        _ => {
            return Some(Error::InvalidValue("padded picture area exceeds the implementation cap"));
        },
    }
    // An empty picture has no area, however wide or high it is.
    if pw > usize::MAX as u64 {
        return Some(Error::InvalidValue("padded luma width overflows"));
    }
    if ph > usize::MAX as u64 {
        return Some(Error::InvalidValue("padded luma height overflows"));
    }
    None
}

/// Slice counts and sizes.
pub struct SliceLayout {
    pub slices_x: u64,
    pub slices_y: u64,
    pub slice_bytes_numerator: u64,
    pub slice_bytes_denominator: u64,
    pub slice_prefix_bytes: u64,
    pub slice_size_scaler: u64,
}

/// The slice counts, then for low delay the slice size as a fraction of bytes,
/// for high quality the prefix bytes and the unit of the length codes.
pub open spec fn spec_slice_parameters(i: Input, kind: PictureKind) -> (Input, Result<SliceLayout>) {
    let (i1, slices_x) = i.number();
    let (i2, slices_y) = i1.number();
    if i2.overrun {
        (i2, Err(Error::UnexpectedEof))
    } else if slices_x == 0 || slices_y == 0 {
        (i2, Err(Error::InvalidValue("slices_x / slices_y must be >= 1")))
    } else if slices_x * slices_y > MAX_SLICES {
        (i2, Err(Error::InvalidValue("slice count exceeds the implementation cap")))
    } else {
        let (i3, first) = i2.number();
        let (i4, second) = i3.number();
        if i4.overrun {
            (i4, Err(Error::UnexpectedEof))
        } else {
            match kind {
                PictureKind::LowDelay => if second == 0 {
                    (i4, Err(Error::InvalidValue("slice_bytes_denominator must be >= 1")))
                } else if first > MAX_SLICE_BYTES_NUMERATOR {
                    (
                        i4,
                        Err(
                            Error::InvalidValue(
                                "slice_bytes_numerator exceeds the implementation cap",
                            ),
                        ),
                    )
                } else {
                    (
                        i4,
                        Ok(
                            SliceLayout {
                                slices_x,
                                slices_y,
                                slice_bytes_numerator: first,
                                slice_bytes_denominator: second,
                                slice_prefix_bytes: 0,
                                slice_size_scaler: 1,
                            },
                        ),
                    )
                },
                PictureKind::HighQuality => if second == 0 {
                    (i4, Err(Error::InvalidValue("slice_size_scaler must be >= 1")))
                } else if first > MAX_SLICE_PREFIX_BYTES {
                    (
                        i4,
                        Err(
                            Error::InvalidValue("slice_prefix_bytes exceeds the implementation cap"),
                        ),
                    )
                } else if second > MAX_SLICE_SIZE_SCALER {
                    (
                        i4,
                        Err(Error::InvalidValue("slice_size_scaler exceeds the implementation cap")),
                    )
                } else {
                    (
                        i4,
                        Ok(
                            SliceLayout {
                                slices_x,
                                slices_y,
                                slice_bytes_numerator: 0,
                                slice_bytes_denominator: 1,
                                slice_prefix_bytes: first,
                                slice_size_scaler: second,
                            },
                        ),
                    )
                },
            }
        }
    }
}

fn slice_parameters(r: &mut BitReader, kind: PictureKind) -> (res: Result<SliceLayout>)
    ensures
        (final(r)@, res) == spec_slice_parameters(old(r)@, kind),
        final(r)@.wf(),
        final(r).source() == old(r).source(),
{
    let slices_x: u64 = r.read_uint();
    let slices_y: u64 = r.read_uint();
    if r.overrun() {
        return Err(Error::UnexpectedEof);
    }
    if slices_x == 0 || slices_y == 0 {
        return Err(Error::InvalidValue("slices_x / slices_y must be >= 1"));
    }
    let count: u64 = match slices_x.checked_mul(slices_y) {
        Some(n) => n,
        None => u64::MAX,
    };
    if count > MAX_SLICES {
        return Err(Error::InvalidValue("slice count exceeds the implementation cap"));
    }
    let first: u64 = r.read_uint();
    let second: u64 = r.read_uint();
    if r.overrun() {
        return Err(Error::UnexpectedEof);
    }
    match kind {
        PictureKind::LowDelay => {
            if second == 0 {
                return Err(Error::InvalidValue("slice_bytes_denominator must be >= 1"));
            }
            if first > MAX_SLICE_BYTES_NUMERATOR {
                return Err(
                    Error::InvalidValue("slice_bytes_numerator exceeds the implementation cap"),
                );
            }
            Ok(
                SliceLayout {
                    slices_x,
                    slices_y,
                    slice_bytes_numerator: first,
                    slice_bytes_denominator: second,
                    slice_prefix_bytes: 0,
                    slice_size_scaler: 1,
                },
            )
        },
        PictureKind::HighQuality => {
            if second == 0 {
                return Err(Error::InvalidValue("slice_size_scaler must be >= 1"));
            }
            if first > MAX_SLICE_PREFIX_BYTES {
                return Err(
                    Error::InvalidValue("slice_prefix_bytes exceeds the implementation cap"),
                );
            }
            if second > MAX_SLICE_SIZE_SCALER {
                return Err(Error::InvalidValue("slice_size_scaler exceeds the implementation cap"));
            }
            Ok(
                SliceLayout {
                    slices_x,
                    slices_y,
                    slice_bytes_numerator: 0,
                    slice_bytes_denominator: 1,
                    slice_prefix_bytes: first,
                    slice_size_scaler: second,
                },
            )
        },
    }
}

/// The next `n` codes, as horizontal-only matrix values.
pub open spec fn spec_custom_h(i: Input, n: nat) -> (Input, Seq<MatrixLevel>)
    decreases n,
{
    if n == 0 {
        (i, seq![])
    } else {
        let (i1, levels) = spec_custom_h(i, (n - 1) as nat);
        let (i2, v) = i1.number();
        (i2, levels.push(MatrixLevel::H(v as i64)))
    }
}

/// The next `3 n` codes, as two-dimensional matrix values.
pub open spec fn spec_custom_ac(i: Input, n: nat) -> (Input, Seq<MatrixLevel>)
    decreases n,
{
    if n == 0 {
        (i, seq![])
    } else {
        let (i1, levels) = spec_custom_ac(i, (n - 1) as nat);
        let (i2, hl) = i1.number();
        let (i3, lh) = i2.number();
        let (i4, hh) = i3.number();
        (i4, levels.push(MatrixLevel::Ac { hl: hl as i64, lh: lh as i64, hh: hh as i64 }))
    }
}

/// A quantization matrix: a flag; where it is set a code per matrix value, level
/// by level; where it is not, the default.
pub open spec fn spec_quant_matrix(i: Input, d: Depths) -> (Input, Result<Seq<MatrixLevel>>) {
    let (i1, custom) = i.flag();
    if i1.overrun {
        (i1, Err(Error::UnexpectedEof))
    } else if custom {
        let (i2, dc) = i1.number();
        let (i3, h) = spec_custom_h(i2, d.dwt_depth_ho as nat);
        let (i4, ac) = spec_custom_ac(i3, d.dwt_depth as nat);
        if i4.overrun {
            (i4, Err(Error::UnexpectedEof))
        } else {
            (i4, Ok(seq![MatrixLevel::Ll(dc as i64)] + h + ac))
        }
    } else if quant::has_default(
        d.wavelet_index,
        d.wavelet_index_ho,
        d.dwt_depth,
        d.dwt_depth_ho,
    ) {
        (
            i1,
            Ok(
                quant::default_matrix(
                    d.wavelet_index,
                    d.wavelet_index_ho,
                    d.dwt_depth,
                    d.dwt_depth_ho,
                ),
            ),
        )
    } else {
        (i1, Err(Error::MissingQuantMatrix))
    }
}

/// Reads a custom quantization matrix, or takes the default one.
fn read_quant_matrix(r: &mut BitReader, d: &Depths) -> (res: Result<Vec<MatrixLevel>>)
    ensures
        final(r)@ == spec_quant_matrix(old(r)@, *d).0,
        match res {
            Ok(m) => spec_quant_matrix(old(r)@, *d).1 == Ok::<Seq<MatrixLevel>, Error>(m@),
            Err(e) => spec_quant_matrix(old(r)@, *d).1 == Err::<Seq<MatrixLevel>, Error>(e),
        },
        final(r)@.wf(),
        final(r).source() == old(r).source(),
{
    let custom: bool = r.read_bool();
    if r.overrun() {
        return Err(Error::UnexpectedEof);
    }
    if custom {
        let mut matrix: Vec<MatrixLevel> = Vec::new();
        let dc: u64 = r.read_uint();
        matrix.push(MatrixLevel::Ll(dc as i64));
        let ghost first = matrix@;
        let ghost i2 = r@;
        let mut k: u64 = 0;
        while k < d.dwt_depth_ho
            invariant
                r.source() == old(r).source(),
                k <= d.dwt_depth_ho,
                r@.wf(),
                r@ == spec_custom_h(i2, k as nat).0,
                matrix@ == first + spec_custom_h(i2, k as nat).1,
            decreases d.dwt_depth_ho - k,
        {
            let v: u64 = r.read_uint();
            matrix.push(MatrixLevel::H(v as i64));
            k = k + 1;
            assert(matrix@ =~= first + spec_custom_h(i2, k as nat).1);
        }
        let ghost upper = matrix@;
        let ghost i3 = r@;
        let mut k: u64 = 0;
        assert(matrix@ =~= upper + spec_custom_ac(i3, 0).1);
        while k < d.dwt_depth
            invariant
                r.source() == old(r).source(),
                k <= d.dwt_depth,
                r@.wf(),
                r@ == spec_custom_ac(i3, k as nat).0,
                matrix@ == upper + spec_custom_ac(i3, k as nat).1,
            decreases d.dwt_depth - k,
        {
            let hl: u64 = r.read_uint();
            let lh: u64 = r.read_uint();
            let hh: u64 = r.read_uint();
            matrix.push(MatrixLevel::Ac { hl: hl as i64, lh: lh as i64, hh: hh as i64 });
            k = k + 1;
            assert(matrix@ =~= upper + spec_custom_ac(i3, k as nat).1);
        }
        if r.overrun() {
            return Err(Error::UnexpectedEof);
        }
        assert(first =~= seq![MatrixLevel::Ll(dc as i64)]);
        Ok(matrix)
    } else {
        match quant::default_quant_matrix_full(
            d.wavelet_index,
            d.wavelet_index_ho,
            d.dwt_depth,
            d.dwt_depth_ho,
        ) {
            Some(m) => Ok(m),
            None => Err(Error::MissingQuantMatrix),
        }
    }
}

/// The transform parameters of a picture: filters and depths, slice parameters
/// and quantization matrix. Running past the end comes before every other
/// complaint.
pub open spec fn spec_transform_parameters(
    i: Input,
    seq: SequenceHeader,
    kind: PictureKind,
) -> (Input, Result<Transform>) {
    let (i1, d) = spec_depths(i, seq.parse_parameters.major_version);
    if i1.overrun {
        (i1, Err(Error::UnexpectedEof))
    } else {
        match depths_fault(d, seq.coding_parameters) {
            Some(e) => (i1, Err(e)),
            None => match spec_slice_parameters(i1, kind) {
                (i2, Err(e)) => (i2, Err(e)),
                (i2, Ok(s)) => match spec_quant_matrix(i2, d) {
                    (i3, Err(e)) => (i3, Err(e)),
                    (i3, Ok(quant_matrix)) => (
                        i3,
                        Ok(
                            Transform {
                                wavelet_index: d.wavelet_index,
                                dwt_depth: d.dwt_depth,
                                wavelet_index_ho: d.wavelet_index_ho,
                                dwt_depth_ho: d.dwt_depth_ho,
                                asym_transform_index_flag: d.asym_transform_index_flag,
                                asym_transform_flag: d.asym_transform_flag,
                                slices_x: s.slices_x,
                                slices_y: s.slices_y,
                                slice_bytes_numerator: s.slice_bytes_numerator,
                                slice_bytes_denominator: s.slice_bytes_denominator,
                                slice_prefix_bytes: s.slice_prefix_bytes,
                                slice_size_scaler: s.slice_size_scaler,
                                quant_matrix,
                            },
                        ),
                    ),
                },
            },
        }
    }
}

/// A result over the views of the values that it holds.
pub open spec fn viewed<T: View>(r: Result<T>) -> Result<T::V> {
    match r {
        Ok(v) => Ok(v@),
        Err(e) => Err(e),
    }
}

/// Parses the transform parameters of a picture.
pub fn transform_parameters(r: &mut BitReader, seq: &SequenceHeader, kind: PictureKind) -> (res:
    Result<TransformParameters>)
    ensures
        (final(r)@, viewed(res)) == spec_transform_parameters(old(r)@, *seq, kind),
        final(r)@.wf(),
        final(r).source() == old(r).source(),
{
    let d: Depths = read_depths(r, seq.parse_parameters.major_version);
    if r.overrun() {
        return Err(Error::UnexpectedEof);
    }
    if let Some(e) = check_depths(&d, &seq.coding_parameters) {
        return Err(e);
    }
    let s: SliceLayout = slice_parameters(r, kind)?;
    let quant_matrix: Vec<MatrixLevel> = read_quant_matrix(r, &d)?;
    Ok(
        TransformParameters {
            wavelet_index: d.wavelet_index,
            dwt_depth: d.dwt_depth,
            wavelet_index_ho: d.wavelet_index_ho,
            dwt_depth_ho: d.dwt_depth_ho,
            asym_transform_index_flag: d.asym_transform_index_flag,
            asym_transform_flag: d.asym_transform_flag,
            slices_x: s.slices_x,
            slices_y: s.slices_y,
            slice_bytes_numerator: s.slice_bytes_numerator,
            slice_bytes_denominator: s.slice_bytes_denominator,
            slice_prefix_bytes: s.slice_prefix_bytes,
            slice_size_scaler: s.slice_size_scaler,
            quant_matrix,
        },
    )
}

impl Transform {
    /// The filters and depths.
    pub open spec fn depths(self) -> Depths {
        Depths {
            wavelet_index: self.wavelet_index,
            dwt_depth: self.dwt_depth,
            wavelet_index_ho: self.wavelet_index_ho,
            dwt_depth_ho: self.dwt_depth_ho,
            asym_transform_index_flag: self.asym_transform_index_flag,
            asym_transform_flag: self.asym_transform_flag,
        }
    }

    /// Whether the slice parameters respect their caps.
    pub open spec fn slices_valid(self) -> bool {
        &&& self.slices_x >= 1
        &&& self.slices_y >= 1
        &&& self.slices_x * self.slices_y <= MAX_SLICES
        &&& self.slice_bytes_numerator <= MAX_SLICE_BYTES_NUMERATOR
        &&& self.slice_bytes_denominator >= 1
        &&& self.slice_prefix_bytes <= MAX_SLICE_PREFIX_BYTES
        &&& 1 <= self.slice_size_scaler <= MAX_SLICE_SIZE_SCALER
    }

    /// What holds of all parameters that parse for pictures of this size: every
    /// cap is respected, and the quantization matrix has one entry per level.
    pub open spec fn valid(self, cp: CodingParameters) -> bool {
        &&& depths_fault(self.depths(), cp) is None
        &&& self.slices_valid()
        &&& self.quant_matrix.len() == 1 + self.dwt_depth_ho + self.dwt_depth
    }
}

proof fn lemma_depths(a: Input, b: Input, major_version: u64)
    requires
        a.wf(),
    ensures
        a.moved_on(spec_depths(a, major_version).0),
        a.alike(b, spec_depths(a, major_version), spec_depths(b, major_version)),
{
    reading::lemma_number(a, b);
    let a1 = a.number().0;
    let b1 = b.number().0;
    reading::lemma_number(a1, b1);
    let a2 = a1.number().0;
    let b2 = b1.number().0;
    reading::lemma_flag(a2, b2);
    let (a3, more_a) = a2.flag();
    let (b3, more_b) = b2.flag();
    reading::lemma_number(a3, b3);
    let a4 = if more_a {
        a3.number().0
    } else {
        a3
    };
    let b4 = if more_b {
        b3.number().0
    } else {
        b3
    };
    reading::lemma_flag(a4, b4);
    reading::lemma_number(a4.flag().0, b4.flag().0);
}

proof fn lemma_slice_parameters(a: Input, b: Input, kind: PictureKind)
    requires
        a.wf(),
    ensures
        a.moved_on(spec_slice_parameters(a, kind).0),
        spec_slice_parameters(a, kind).0.overrun ==> spec_slice_parameters(a, kind).1 == Err::<
            SliceLayout,
            Error,
        >(Error::UnexpectedEof),
        a.alike(b, spec_slice_parameters(a, kind), spec_slice_parameters(b, kind)),
{
    reading::lemma_number(a, b);
    let a1 = a.number().0;
    let b1 = b.number().0;
    reading::lemma_number(a1, b1);
    let a2 = a1.number().0;
    let b2 = b1.number().0;
    reading::lemma_number(a2, b2);
    let a3 = a2.number().0;
    let b3 = b2.number().0;
    reading::lemma_number(a3, b3);
}

proof fn lemma_custom_h(a: Input, b: Input, n: nat)
    requires
        a.wf(),
    ensures
        a.moved_on(spec_custom_h(a, n).0),
        spec_custom_h(a, n).1.len() == n,
        a.alike(b, spec_custom_h(a, n), spec_custom_h(b, n)),
    decreases n,
{
    if n > 0 {
        let m = (n - 1) as nat;
        lemma_custom_h(a, b, m);
        reading::lemma_number(spec_custom_h(a, m).0, spec_custom_h(b, m).0);
    }
}

proof fn lemma_custom_ac(a: Input, b: Input, n: nat)
    requires
        a.wf(),
    ensures
        a.moved_on(spec_custom_ac(a, n).0),
        spec_custom_ac(a, n).1.len() == n,
        a.alike(b, spec_custom_ac(a, n), spec_custom_ac(b, n)),
    decreases n,
{
    if n > 0 {
        let m = (n - 1) as nat;
        lemma_custom_ac(a, b, m);
        let a1 = spec_custom_ac(a, m).0;
        let b1 = spec_custom_ac(b, m).0;
        reading::lemma_number(a1, b1);
        let a2 = a1.number().0;
        let b2 = b1.number().0;
        reading::lemma_number(a2, b2);
        let a3 = a2.number().0;
        let b3 = b2.number().0;
        reading::lemma_number(a3, b3);
    }
}

proof fn lemma_quant_matrix(a: Input, b: Input, d: Depths)
    requires
        a.wf(),
    ensures
        a.moved_on(spec_quant_matrix(a, d).0),
        spec_quant_matrix(a, d).0.overrun ==> spec_quant_matrix(a, d).1 == Err::<
            Seq<MatrixLevel>,
            Error,
        >(Error::UnexpectedEof),
        spec_quant_matrix(a, d).1 matches Ok(m) ==> m.len() == 1 + d.dwt_depth_ho + d.dwt_depth,
        a.alike(b, spec_quant_matrix(a, d), spec_quant_matrix(b, d)),
{
    reading::lemma_flag(a, b);
    let a1 = a.flag().0;
    let b1 = b.flag().0;
    reading::lemma_number(a1, b1);
    let a2 = a1.number().0;
    let b2 = b1.number().0;
    lemma_custom_h(a2, b2, d.dwt_depth_ho as nat);
    let a3 = spec_custom_h(a2, d.dwt_depth_ho as nat).0;
    let b3 = spec_custom_h(b2, d.dwt_depth_ho as nat).0;
    lemma_custom_ac(a3, b3, d.dwt_depth as nat);
}

/// Transform parameters that parse are valid, and were read without running
/// past the end; where the end comes first it is an unexpected end of file.
/// Over truncated data the parameters are the same or the end is unexpected.
pub proof fn law_transform_parameters_read_soundly(
    a: Input,
    b: Input,
    seq: SequenceHeader,
    kind: PictureKind,
)
    requires
        a.wf(),
    ensures
        a.moved_on(spec_transform_parameters(a, seq, kind).0),
        spec_transform_parameters(a, seq, kind).0.overrun ==> spec_transform_parameters(
            a,
            seq,
            kind,
        ).1 == Err::<Transform, Error>(Error::UnexpectedEof),
        spec_transform_parameters(a, seq, kind).1 matches Ok(t) ==> t.valid(seq.coding_parameters),
        a.alike(
            b,
            spec_transform_parameters(a, seq, kind),
            spec_transform_parameters(b, seq, kind),
        ),
{
    let major_version = seq.parse_parameters.major_version;
    lemma_depths(a, b, major_version);
    let (a1, d) = spec_depths(a, major_version);
    let b1 = spec_depths(b, major_version).0;
    lemma_slice_parameters(a1, b1, kind);
    let a2 = spec_slice_parameters(a1, kind).0;
    let b2 = spec_slice_parameters(b1, kind).0;
    lemma_quant_matrix(a2, b2, d);
    if b2.wf() {
        lemma_quant_matrix(b2, b2, spec_depths(b, major_version).1);
    }
}

/// The coefficients of a picture: every slice in raster order, and for low
/// delay the prediction of the DC bands. The end of the data may not come
/// before the end of the last slice.
pub open spec fn spec_transform_data(
    i: Input,
    cp: CodingParameters,
    t: Transform,
    kind: PictureKind,
) -> (Input, Result<subband::Coefficients>) {
    let (i1, td, _reached, done) = slices::spec_unpack_slices(
        i,
        subband::spec_init_transform_data(cp, t),
        t,
        kind,
        0,
        t.slices_x * t.slices_y,
    );
    match done {
        Err(e) => (i1, Err(e)),
        Ok(_) => if i1.overrun {
            (i1, Err(Error::UnexpectedEof))
        } else if kind == PictureKind::LowDelay {
            (i1, Ok(prediction::spec_apply_dc_prediction(td)))
        } else {
            (i1, Ok(td))
        },
    }
}

/// Unpacks every slice of a picture and predicts the DC bands of a low-delay
/// one.
pub fn transform_data(
    r: &mut BitReader,
    seq: &SequenceHeader,
    tp: &TransformParameters,
    kind: PictureKind,
) -> (res: Result<TransformData>)
    requires
        subband::all_allocatable(seq.coding_parameters, tp@),
        tp@.slices_valid(),
    ensures
        (final(r)@, viewed(res)) == spec_transform_data(
            old(r)@,
            seq.coding_parameters,
            tp@,
            kind,
        ),
        res matches Ok(td) ==> td@.shaped(tp@) && td@.sized(seq.coding_parameters),
        final(r).source() == old(r).source(),
{
    let mut td: TransformData = subband::init_transform_data(seq, tp);
    let mut reached: u64 = 0;
    let total: u64 = tp.slices_x * tp.slices_y;
    slices::unpack_slices(r, tp, &mut td, kind, 0, total, &mut reached)?;
    if r.overrun() {
        return Err(Error::UnexpectedEof);
    }
    if kind.uses_dc_prediction() {
        proof {
            assert(td@.y.bands[0].wf());
            assert(td@.c1.bands[0].wf());
            assert(td@.c2.bands[0].wf());
            prediction::lemma_prediction_shape(td@, tp@);
        }
        prediction::apply_dc_prediction(&mut td);
    }
    Ok(td)
}

/// Transform data of truncated data: the same, or an unexpected end of file.
pub proof fn law_transform_data_reads_soundly(
    a: Input,
    b: Input,
    cp: CodingParameters,
    t: Transform,
    kind: PictureKind,
)
    requires
        a.wf(),
        t.slices_valid(),
    ensures
        a.moved_on(spec_transform_data(a, cp, t, kind).0),
        spec_transform_data(a, cp, t, kind).0.overrun ==> spec_transform_data(a, cp, t, kind).1
            == Err::<subband::Coefficients, Error>(Error::UnexpectedEof),
        a.alike(b, spec_transform_data(a, cp, t, kind), spec_transform_data(b, cp, t, kind)),
{
    slices::lemma_unpack_slices(
        a,
        b,
        subband::spec_init_transform_data(cp, t),
        t,
        kind,
        0,
        t.slices_x * t.slices_y,
    );
}

/// The DC band and the first `n` horizontal-only levels of a component.
pub open spec fn horizontal_levels(c: subband::Coeffs, f: Filter, n: nat) -> Grid
    decreases n,
{
    if n == 0 {
        c.bands[0]
    } else {
        wavelet::spec_h_synthesis(horizontal_levels(c, f, (n - 1) as nat), c.bands[n as int], f)
    }
}

/// The horizontal-only levels and the first `n` two-dimensional levels of a
/// component.
pub open spec fn square_levels(
    c: subband::Coeffs,
    ho: nat,
    filter_v: Filter,
    filter_ho: Filter,
    n: nat,
) -> Grid
    decreases n,
{
    if n == 0 {
        horizontal_levels(c, filter_ho, ho)
    } else {
        let first = ho + 3 * n - 2;
        wavelet::spec_vh_synthesis(
            square_levels(c, ho, filter_v, filter_ho, (n - 1) as nat),
            c.bands[first],
            c.bands[first + 1],
            c.bands[first + 2],
            filter_v,
            filter_ho,
        )
    }
}

/// The inverse transform of a component.
pub open spec fn spec_idwt(c: subband::Coeffs, t: Transform) -> Result<Grid> {
    if t.wavelet_index > 6 {
        Err(Error::UnsupportedWaveletIndex(t.wavelet_index))
    } else if t.wavelet_index_ho > 6 {
        Err(Error::UnsupportedWaveletIndex(t.wavelet_index_ho))
    } else {
        Ok(
            square_levels(
                c,
                t.dwt_depth_ho as nat,
                wavelet::spec_wavelet_filter(t.wavelet_index),
                wavelet::spec_wavelet_filter(t.wavelet_index_ho),
                t.dwt_depth as nat,
            ),
        )
    }
}

/// Without any level the transform leaves a component as it is.
pub proof fn law_no_levels_is_identity(c: subband::Coeffs, t: Transform)
    requires
        t.wavelet_index <= 6,
        t.wavelet_index_ho <= 6,
        t.dwt_depth == 0,
        t.dwt_depth_ho == 0,
    ensures
        spec_idwt(c, t) == Ok::<Grid, Error>(c.bands[0]),
{
}

/// Doubling `n` blocks once more.
proof fn lemma_doubled(blocks: int, k: nat)
    ensures
        2 * (blocks * power2::pow2(k)) == blocks * power2::pow2(k + 1),
{
    power2::lemma_pow2_unfold((k + 1) as nat);
    let p = power2::pow2(k) as int;
    assert(2 * (blocks * p) == blocks * (2 * p)) by (nonlinear_arith);
}

/// A level is no larger than the padded component.
proof fn lemma_level_fits(w: int, h: int, bw: int, bh: int, i: nat, total: nat, j: nat, depth: nat)
    requires
        0 <= bw,
        0 <= bh,
        i <= total,
        j <= depth,
        w == bw * power2::pow2(i),
        h == bh * power2::pow2(j),
    ensures
        0 <= w <= bw * power2::pow2(total),
        0 <= h <= bh * power2::pow2(depth),
        w * h <= (bw * power2::pow2(total)) * (bh * power2::pow2(depth)),
{
    subband::lemma_scaled(bw, i, total);
    subband::lemma_scaled(bh, j, depth);
    let (pw, ph) = (bw * power2::pow2(total), bh * power2::pow2(depth));
    assert(w * h <= pw * ph) by (nonlinear_arith)
        requires
            0 <= w <= pw,
            0 <= h <= ph,
    ;
}

/// Inverse transform of one component. The plane has the padded size of the
/// component.
pub fn idwt(coeffs: &ComponentCoeffs, tp: &TransformParameters) -> (res: Result<Plane>)
    requires
        tp.wavelet_index <= 6 && tp.wavelet_index_ho <= 6 ==> {
            &&& coeffs@.shaped(tp.dwt_depth_ho as int, tp.dwt_depth as int)
            &&& subband::allocatable(
                coeffs.width as int,
                coeffs.height as int,
                tp.dwt_depth_ho as int,
                tp.dwt_depth as int,
            )
        },
    ensures
        viewed(res) == spec_idwt(coeffs@, tp@),
        res matches Ok(plane) ==> {
            &&& plane@.wf()
            &&& plane@.width == padded(
                coeffs.width as int,
                (tp.dwt_depth_ho + tp.dwt_depth) as nat,
            )
            &&& plane@.height == padded(coeffs.height as int, tp.dwt_depth as nat)
        },
{
    let filter_v: WaveletFilter = match wavelet::wavelet_filter(tp.wavelet_index) {
        Some(f) => f,
        None => {
            return Err(Error::UnsupportedWaveletIndex(tp.wavelet_index));
        },
    };
    let filter_ho: WaveletFilter = match wavelet::wavelet_filter(tp.wavelet_index_ho) {
        Some(f) => f,
        None => {
            return Err(Error::UnsupportedWaveletIndex(tp.wavelet_index_ho));
        },
    };
    let ghost c = coeffs@;
    let ghost ho = tp.dwt_depth_ho as nat;
    let ghost depth = tp.dwt_depth as nat;
    let ghost bw = ceil_div(coeffs.width as int, power2::pow2(ho + depth) as int);
    let ghost bh = ceil_div(coeffs.height as int, power2::pow2(depth) as int);
    proof {
        lemma_padded(coeffs.width as int, ho + depth);
        lemma_padded(coeffs.height as int, depth);
        power2::lemma2_to64();
        assert(c.bands[0].wf());
    }
    let mut dc: Plane = coeffs.bands[0].clone();
    let mut n: u64 = 0;
    while n < tp.dwt_depth_ho
        invariant
            n <= tp.dwt_depth_ho,
            ho == tp.dwt_depth_ho,
            depth == tp.dwt_depth,
            c == coeffs@,
            c.shaped(ho as int, depth as int),
            ho + depth < 64,
            filter_ho@.wf(),
            bw == ceil_div(coeffs.width as int, power2::pow2(ho + depth) as int),
            bh == ceil_div(coeffs.height as int, power2::pow2(depth) as int),
            0 <= bw,
            0 <= bh,
            bw * power2::pow2(ho + depth) <= usize::MAX,
            (bw * power2::pow2(ho + depth)) * (bh * power2::pow2(depth)) <= usize::MAX,
            power2::pow2(0) == 1,
            dc@ == horizontal_levels(c, filter_ho@, n as nat),
            dc@.wf(),
            dc@.width == bw * power2::pow2(n as nat),
            dc@.height == bh * power2::pow2(0),
        decreases tp.dwt_depth_ho - n,
    {
        proof {
            lemma_doubled(bw, n as nat);
            lemma_level_fits(
                2 * dc@.width,
                dc@.height,
                bw,
                bh,
                (n + 1) as nat,
                ho + depth,
                0,
                depth,
            );
            let h = c.bands[n + 1];
            assert(h.wf());
            crate::grid::lemma_wf_covers(dc@, dc@.height, dc@.width);
            crate::grid::lemma_wf_covers(h, dc@.height, dc@.width);
            assert(2 * dc.width * dc.height == (2 * dc.width) * dc.height);
        }
        dc = wavelet::h_synthesis(&dc, &coeffs.bands[n as usize + 1], &filter_ho);
        n = n + 1;
    }
    let mut m: u64 = 0;
    while m < tp.dwt_depth
        invariant
            m <= tp.dwt_depth,
            ho == tp.dwt_depth_ho,
            depth == tp.dwt_depth,
            c == coeffs@,
            c.shaped(ho as int, depth as int),
            ho + depth < 64,
            filter_v@.wf(),
            filter_ho@.wf(),
            bw == ceil_div(coeffs.width as int, power2::pow2(ho + depth) as int),
            bh == ceil_div(coeffs.height as int, power2::pow2(depth) as int),
            0 <= bw,
            0 <= bh,
            bw * power2::pow2(ho + depth) <= usize::MAX,
            bh * power2::pow2(depth) <= usize::MAX,
            (bw * power2::pow2(ho + depth)) * (bh * power2::pow2(depth)) <= usize::MAX,
            power2::pow2(0) == 1,
            dc@ == square_levels(c, ho, filter_v@, filter_ho@, m as nat),
            dc@.wf(),
            dc@.width == bw * power2::pow2((ho + m) as nat),
            dc@.height == bh * power2::pow2(m as nat),
        decreases tp.dwt_depth - m,
    {
        let first: usize = tp.dwt_depth_ho as usize + 3 * (m as usize) + 1;
        proof {
            lemma_doubled(bw, (ho + m) as nat);
            lemma_doubled(bh, m as nat);
            lemma_level_fits(
                2 * dc@.width,
                2 * dc@.height,
                bw,
                bh,
                (ho + m + 1) as nat,
                ho + depth,
                (m + 1) as nat,
                depth,
            );
            let k = first as int;
            assert(c.bands[k].wf());
            assert(c.bands[k + 1].wf());
            assert(c.bands[k + 2].wf());
            assert(subband::band_level(ho as int, k) == ho + m + 1);
            assert(subband::band_level(ho as int, k + 1) == ho + m + 1);
            assert(subband::band_level(ho as int, k + 2) == ho + m + 1);
            crate::grid::lemma_wf_covers(dc@, dc@.height, dc@.width);
            crate::grid::lemma_wf_covers(c.bands[k], dc@.height, dc@.width);
            crate::grid::lemma_wf_covers(c.bands[k + 1], dc@.height, dc@.width);
            crate::grid::lemma_wf_covers(c.bands[k + 2], dc@.height, dc@.width);
        }
        dc = wavelet::vh_synthesis(
            &dc,
            &coeffs.bands[first],
            &coeffs.bands[first + 1],
            &coeffs.bands[first + 2],
            &filter_v,
            &filter_ho,
        );
        m = m + 1;
    }
    Ok(dc)
}

} // verus!
