//! Two's-complement wrapping and arithmetic shifts over the integers.
use vstd::arithmetic::div_mod;
use vstd::arithmetic::power2;
use vstd::prelude::*;

verus! {

/// The number of values of an `i64`.
pub open spec fn modulus() -> int {
    0x1_0000_0000_0000_0000
}

/// The `i64` that is congruent to `x` modulo 2^64.
pub open spec fn wrap(x: int) -> int {
    (x + 0x8000_0000_0000_0000) % modulus() - 0x8000_0000_0000_0000
}

/// Wrapping gives an `i64`, keeps what is one already, and does not see
/// multiples of 2^64.
pub proof fn lemma_wrap(x: int)
    ensures
        -0x8000_0000_0000_0000 <= wrap(x) <= 0x7fff_ffff_ffff_ffff,
        -0x8000_0000_0000_0000 <= x <= 0x7fff_ffff_ffff_ffff ==> wrap(x) == x,
        (x - wrap(x)) % modulus() == 0,
        wrap(x + modulus()) == wrap(x),
        wrap(x - modulus()) == wrap(x),
{
    let t = x + 0x8000_0000_0000_0000;
    let m = modulus();
    div_mod::lemma_mod_add_multiples_vanish(t, m);
    div_mod::lemma_mod_add_multiples_vanish(t - m, m);
    assert(x - wrap(x) == t - t % m);
    assert((t - t % m) % m == 0) by {
        div_mod::lemma_fundamental_div_mod(t, m);
        assert(t - t % m == m * (t / m));
        div_mod::lemma_mod_multiples_basic(t / m, m);
        assert((t / m) * m == m * (t / m)) by (nonlinear_arith);
    }
}

/// Congruent integers wrap to the same value.
pub proof fn lemma_wrap_congruent(x: int, y: int)
    requires
        (x - y) % modulus() == 0,
    ensures
        wrap(x) == wrap(y),
{
    let m = modulus();
    let k = (x - y) / m;
    div_mod::lemma_fundamental_div_mod(x - y, m);
    assert(x == y + k * m) by {
        assert(m * k == k * m) by (nonlinear_arith);
    }
    let t = y + 0x8000_0000_0000_0000;
    div_mod::lemma_mod_multiples_vanish(k, t, m);
    assert(m * k + t == x + 0x8000_0000_0000_0000) by {
        assert(m * k == k * m) by (nonlinear_arith);
    }
}

/// A sum may be wrapped early.
pub proof fn lemma_wrap_add(x: int, y: int)
    ensures
        wrap(wrap(x) + y) == wrap(x + y),
        wrap(x + wrap(y)) == wrap(x + y),
        wrap(x - wrap(y)) == wrap(x - y),
        wrap(wrap(x) + wrap(y)) == wrap(x + y),
{
    lemma_wrap(x);
    lemma_wrap(y);
    let m = modulus();
    let dx = wrap(x) - x;
    let dy = wrap(y) - y;
    assert((-dx) % m == 0);
    assert((-dy) % m == 0);
    lemma_wrap_congruent(x + y, wrap(x) + y);
    lemma_wrap_congruent(x + y, x + wrap(y));
    assert((wrap(y) - y) % m == 0) by {
        assert(dy == m * (dy / m) + dy % m) by {
            div_mod::lemma_fundamental_div_mod(dy, m);
        }
        div_mod::lemma_fundamental_div_mod(-dy, m);
        let q = (-dy) / m;
        assert(-dy == m * q);
        assert(dy == (-q) * m) by (nonlinear_arith)
            requires
                -dy == m * q,
        ;
        div_mod::lemma_mod_multiples_basic(-q, m);
    }
    lemma_wrap_congruent(x - y, x - wrap(y));
    lemma_wrap_congruent(x + wrap(y), wrap(x) + wrap(y));
}

/// What was added can be taken away again, whatever wrapped in between.
pub proof fn lemma_wrap_undo(x: int, delta: int)
    requires
        -0x8000_0000_0000_0000 <= x <= 0x7fff_ffff_ffff_ffff,
    ensures
        wrap(wrap(x + delta) - delta) == x,
        wrap(wrap(x - delta) + delta) == x,
{
    lemma_wrap_add(x + delta, -delta);
    lemma_wrap_add(x - delta, delta);
    lemma_wrap(x);
}

/// The wrapping operations of `i64` in terms of [`wrap`].
pub proof fn lemma_wrapping_ops(x: i64, y: i64)
    ensures
        x.wrapping_add(y) == wrap(x + y),
        x.wrapping_sub(y) == wrap(x - y),
        x.wrapping_mul(y) == wrap(x * y),
{
    lemma_wrap(x + y);
    lemma_wrap(x + y - modulus());
    lemma_wrap(x + y + modulus());
    lemma_wrap(x - y);
    lemma_wrap(x - y - modulus());
    lemma_wrap(x - y + modulus());
    let p = x * y;
    let m = modulus();
    let r = p % m;
    assert(wrap(p) == wrap(r)) by {
        div_mod::lemma_fundamental_div_mod(p, m);
        assert(p - r == m * (p / m));
        assert(m * (p / m) == (p / m) * m) by (nonlinear_arith);
        div_mod::lemma_mod_multiples_basic(p / m, m);
        lemma_wrap_congruent(p, r);
    }
    lemma_wrap(r);
    lemma_wrap(r - m);
}

/// An arithmetic right shift is a division by a power of two, rounded down.
pub proof fn lemma_shr_is_floor_div(x: i64, s: u32)
    requires
        s < 64,
    ensures
        (x >> s) == x as int / power2::pow2(s as nat) as int,
    decreases s,
{
    if s == 0 {
        assert(x >> 0u32 == x) by (bit_vector);
        power2::lemma2_to64();
        assert(x as int / 1 == x);
    } else {
        let p = (s - 1) as u32;
        lemma_shr_is_floor_div(x, p);
        let y: i64 = x >> p;
        assert((x >> s) == (y >> 1u32)) by (bit_vector)
            requires
                0 < s < 64,
                p == s - 1,
                y == x >> p,
        ;
        assert(y == 2 * (y >> 1u32) + (y & 1) && 0 <= (y & 1) <= 1) by (bit_vector);
        assert((y >> 1u32) == y as int / 2);
        let d = power2::pow2(p as nat) as int;
        power2::lemma_pow2_pos(p as nat);
        power2::lemma_pow2_unfold(s as nat);
        let z = (y >> 1u32) as int;
        let e = (y & 1) as int;
        let r = x as int % d;
        div_mod::lemma_fundamental_div_mod(x as int, d);
        assert(x as int == z * (2 * d) + (d * e + r)) by (nonlinear_arith)
            requires
                x as int == d * (y as int) + r,
                y as int == 2 * z + e,
        ;
        assert(0 <= d * e + r < 2 * d) by (nonlinear_arith)
            requires
                0 <= e <= 1,
                0 <= r < d,
        ;
        div_mod::lemma_fundamental_div_mod_converse(x as int, 2 * d, z, d * e + r);
        assert(power2::pow2(s as nat) as int == 2 * d);
        assert(z == x as int / (2 * d));
    }
}

/// A left shift of one is a power of two.
pub proof fn lemma_one_shl(s: u32)
    requires
        s < 63,
    ensures
        (1i64 << s) == power2::pow2(s as nat),
        (1i64 << s) > 0,
    decreases s,
{
    if s == 0 {
        assert(1i64 << 0u32 == 1) by (bit_vector);
        power2::lemma2_to64();
    } else {
        let p = (s - 1) as u32;
        lemma_one_shl(p);
        assert((1i64 << s) == 2 * (1i64 << p) && (1i64 << s) > 0) by (bit_vector)
            requires
                0 < s < 63,
                p == s - 1,
        ;
        power2::lemma_pow2_unfold(s as nat);
    }
}

} // verus!
