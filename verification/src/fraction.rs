//! Numbers that are exact fractions, or the nearest to one.
use vstd::arithmetic::power2::{lemma_pow2_adds, lemma_pow2_pos, lemma_pow2_unfold, pow2};
use vstd::prelude::*;

use crate::scalar::{scaled_magnitude, Scalar, INFINITY_BITS, ONE_BITS, SIGN_BIT};

verus! {

/// A number with significand `m` and exponent field `e` has that magnitude.
proof fn lemma_assembled(bits: u32, e: u32, m: u32)
    requires
        1 <= e <= 254,
        0x80_0000 <= m < 0x100_0000,
        bits == e * 0x80_0000 + (m - 0x80_0000),
    ensures
        scaled_magnitude(bits) == m * pow2((e - 1) as nat),
        (Scalar { bits }).scaled() == m * pow2((e - 1) as nat),
        !(Scalar { bits }).is_nan_spec(),
        bits < INFINITY_BITS,
{
    assert(bits / 0x80_0000 == e);
    assert(bits % 0x80_0000 == m - 0x80_0000);
    assert(bits < SIGN_BIT);
    assert((Scalar { bits }).magnitude() == bits);
}

/// The number `n / 2^24`, exactly.
pub fn fraction_of_24_bits(n: u32) -> (r: Scalar)
    requires
        n < 0x100_0000,
    ensures
        r.scaled() == n * pow2(125),
        !r.is_nan_spec(),
        r.bits < ONE_BITS,
{
    if n == 0 {
        assert(0 * pow2(125) == 0);
        return Scalar::zero();
    }
    let mut m: u32 = n;
    let mut k: u32 = 0;
    proof {
        vstd::arithmetic::power2::lemma2_to64();
    }
    while m < 0x80_0000
        invariant
            1 <= n,
            1 <= m < 0x100_0000,
            k <= 23,
            m == n * pow2(k as nat),
            pow2(23) == 0x80_0000,
        decreases 0x100_0000 - m,
    {
        proof {
            lemma_pow2_unfold((k + 1) as nat);
            assert(n * pow2((k + 1) as nat) == 2 * (n * pow2(k as nat))) by (nonlinear_arith)
                requires
                    pow2((k + 1) as nat) == 2 * pow2(k as nat),
            ;
            if k == 23 {
                assert(n * pow2(23) >= 0x80_0000) by (nonlinear_arith)
                    requires
                        n >= 1,
                        pow2(23) == 0x80_0000,
                ;
            }
        }
        m = 2 * m;
        k = k + 1;
    }
    let e: u32 = 126 - k;
    let bits: u32 = e * 0x80_0000 + (m - 0x80_0000);
    proof {
        lemma_assembled(bits, e, m);
        lemma_pow2_adds(k as nat, (125 - k) as nat);
        let (p, q) = (pow2(k as nat) as int, pow2((125 - k) as nat) as int);
        assert((n * p) * q == n * (p * q)) by (nonlinear_arith);
    }
    Scalar::from_bits(bits)
}

/// A unit in the last place of a number with that magnitude, on the scale of
/// [`Scalar::scaled`].
pub open spec fn last_place(magnitude: u32) -> nat {
    let exponent = magnitude / 0x80_0000;
    if exponent == 0 {
        1
    } else {
        pow2((exponent - 1) as nat)
    }
}

/// `r` is the number nearest to `b / 255`: off by at most half a unit in the
/// last place.
pub open spec fn is_unorm(b: u8, r: Scalar) -> bool {
    &&& !r.is_nan_spec()
    &&& r.bits < SIGN_BIT
    &&& -(255 * last_place(r.bits) as int) <= 2 * (255 * r.scaled() - b * pow2(149)) <= 255
        * last_place(r.bits)
    &&& b == 0 ==> r == Scalar::zero()
    &&& b == 255 ==> r == Scalar::one()
}

/// The number nearest to `b / 255`, as a sampler reads a byte.
pub fn unorm_of_byte(b: u8) -> (r: Scalar)
    ensures
        is_unorm(b, r),
{
    proof {
        vstd::arithmetic::power2::lemma2_to64();
    }
    if b == 0 {
        assert(0 * pow2(149) == 0);
        return Scalar::zero();
    }
    if b == 255 {
        let r = Scalar::one();
        proof {
            lemma_assembled(r.bits, 127, 0x80_0000);
            lemma_pow2_adds(23, 126);
            assert(last_place(r.bits) == pow2(126));
        }
        return r;
    }
    let mut k: u32 = 0;
    let mut v: u64 = b as u64;
    while v < 255
        invariant
            1 <= b < 255,
            k <= 8,
            b <= v < 510,
            k == 0 ==> v == b,
            v == b * pow2(k as nat),
            pow2(8) == 256,
        decreases 510 - v,
    {
        proof {
            lemma_pow2_unfold((k + 1) as nat);
            assert(b * pow2((k + 1) as nat) == 2 * (b * pow2(k as nat))) by (nonlinear_arith)
                requires
                    pow2((k + 1) as nat) == 2 * pow2(k as nat),
            ;
            if k == 8 {
                assert(b * pow2(8) >= 256) by (nonlinear_arith)
                    requires
                        b >= 1,
                        pow2(8) == 256,
                ;
            }
        }
        v = 2 * v;
        k = k + 1;
    }
    assert(255 <= v < 510);
    let m: u64 = (v * 0x100_0000 + 255) / 510;
    assert(-255 <= 2 * (255 * m - v * 0x80_0000) <= 255);
    assert(0x80_0000 <= m < 0x100_0000);
    let e: u32 = 127 - k;
    let bits: u32 = e * 0x80_0000 + (m as u32 - 0x80_0000);
    proof {
        lemma_assembled(bits, e, m as u32);
        assert(bits / 0x80_0000 == e);
        let p = pow2(k as nat) as int;
        let q = pow2((126 - k) as nat) as int;
        assert(last_place(bits) == q);
        lemma_pow2_adds(k as nat, (126 - k) as nat);
        lemma_pow2_adds(23, 126);
        lemma_pow2_pos((126 - k) as nat);
        let d = 255 * m - v * 0x80_0000;
        let bb = b as int;
        let mm = m as int;
        assert(255 * (mm * q) - bb * (0x80_0000 * (p * q)) == (255 * mm - (bb * p) * 0x80_0000) * q)
            by (nonlinear_arith);
        assert(255 * (Scalar { bits }).scaled() - b * pow2(149) == d * q);
        assert(-(255 * q) <= 2 * (d * q) <= 255 * q) by (nonlinear_arith)
            requires
                -255 <= 2 * d <= 255,
                q > 0,
        ;
    }
    Scalar::from_bits(bits)
}

/// The number that half-precision bits stand for, without its sign, times 2 to
/// the 24th: every finite half-precision number is a whole multiple of that
/// step.
pub open spec fn half_magnitude(h: u16) -> nat {
    let exponent = (h / 0x400) % 0x20;
    let fraction = h % 0x400;
    if exponent == 0 {
        fraction as nat
    } else {
        ((0x400 + fraction) * pow2((exponent - 1) as nat)) as nat
    }
}

/// The half-precision number, times 2 to the 24th.
pub open spec fn half_scaled(h: u16) -> int {
    if h < 0x8000 {
        half_magnitude(h) as int
    } else {
        -(half_magnitude(h) as int)
    }
}

/// True of the half-precision patterns that stand for no number.
pub open spec fn half_is_nan(h: u16) -> bool {
    h % 0x8000 > 0x7c00
}

/// `r` is the number that half-precision bits stand for. The infinities and
/// what is no number stay what they are.
pub open spec fn is_half(h: u16, r: Scalar) -> bool {
    &&& (r.bits < SIGN_BIT) == (h < 0x8000)
    &&& h % 0x8000 < 0x7c00 ==> !r.is_nan_spec() && r.magnitude() < INFINITY_BITS && r.scaled()
        == half_scaled(h) * pow2(125)
    &&& h % 0x8000 == 0x7c00 ==> r.magnitude() == INFINITY_BITS
    &&& r.is_nan_spec() == half_is_nan(h)
    &&& half_is_nan(h) ==> r.magnitude() == INFINITY_BITS + (h % 0x400) * 0x2000
}

/// Half precision to single.
pub fn f16_to_f32(h: u16) -> (r: Scalar)
    ensures
        is_half(h, r),
{
    let exponent: u32 = ((h / 0x400) % 0x20) as u32;
    let fraction: u32 = (h % 0x400) as u32;
    let magnitude: u32 = if exponent == 0 {
        fraction_of_24_bits(fraction).bits
    } else if exponent == 0x1f {
        INFINITY_BITS + fraction * 0x2000
    } else {
        (exponent + 112) * 0x80_0000 + fraction * 0x2000
    };
    proof {
        assert(h % 0x8000 == exponent * 0x400 + fraction) by {
            assert(h as int == (h as int / 0x400) * 0x400 + (h as int % 0x400));
            let top = (h / 0x400) as int;
            assert(top < 0x40);
            assert(exponent == if top < 0x20 {
                top
            } else {
                top - 0x20
            });
        }
        if 0 < exponent && exponent < 0x1f {
            let m = (0x80_0000 + fraction * 0x2000) as u32;
            lemma_assembled(magnitude, (exponent + 112) as u32, m);
            vstd::arithmetic::power2::lemma2_to64();
            lemma_pow2_adds((exponent - 1) as nat, 125);
            lemma_pow2_adds(13, (exponent + 111) as nat);
            let (p, q, s) = (
                pow2((exponent - 1) as nat) as int,
                pow2(125) as int,
                pow2((exponent + 111) as nat) as int,
            );
            let n = 0x400 + fraction as int;
            assert((n * p) * q == n * (p * q)) by (nonlinear_arith);
            assert((n * 0x2000) * s == n * (0x2000 * s)) by (nonlinear_arith);
            assert(pow2(13) == 0x2000);
            assert(scaled_magnitude(magnitude) == half_magnitude(h) * pow2(125));
        }
        if exponent == 0 {
            let f = Scalar { bits: magnitude };
            assert(magnitude < SIGN_BIT);
            assert(f.magnitude() == magnitude);
            assert(scaled_magnitude(magnitude) == half_magnitude(h) * pow2(125));
        }
        let x = half_magnitude(h) as int;
        let q = pow2(125) as int;
        assert((-x) * q == -(x * q)) by (nonlinear_arith);
    }
    let r = if h < 0x8000 {
        Scalar { bits: magnitude }
    } else {
        Scalar { bits: magnitude + SIGN_BIT }
    };
    assert(r.magnitude() == magnitude);
    r
}

/// The half-precision numbers without a sign: up to the second power of two
/// they count in steps, from there on a larger exponent doubles the number, and
/// the sign bit turns it round.
pub proof fn law_half_precision_doubles_by_exponent(h: u16)
    requires
        h < 0x8000,
    ensures
        h < 0x800 ==> half_scaled(h) == h,
        0x400 <= h < 0x7c00 ==> half_scaled((h + 0x400) as u16) == 2 * half_scaled(h),
        half_scaled((h + 0x8000) as u16) == -half_scaled(h),
        half_scaled(0x3c00) == 0x100_0000,
{
    vstd::arithmetic::power2::lemma2_to64();
    let e = (h / 0x400) % 0x20;
    let f = h % 0x400;
    assert(h / 0x400 < 0x20);
    if h < 0x800 {
        assert(e == 0 || e == 1);
        assert(pow2(0) == 1);
        assert((0x400 + f) * 1 == 0x400 + f);
    }
    if 0x400 <= h && h < 0x7c00 {
        let g = (h + 0x400) as u16;
        assert(g / 0x400 == h / 0x400 + 1);
        assert(g % 0x400 == f);
        let k = (e - 1) as nat;
        lemma_pow2_unfold((k + 1) as nat);
        assert((0x400 + f) * (2 * pow2(k)) == 2 * ((0x400 + f) * pow2(k))) by (nonlinear_arith);
        assert(half_magnitude(g) == 2 * half_magnitude(h));
    }
    let m = (h + 0x8000) as u16;
    assert(m / 0x400 == h / 0x400 + 0x20);
    assert(m % 0x400 == f);
    assert(half_magnitude(m) == half_magnitude(h));
    assert(0x3c00u16 / 0x400 == 15);
    assert(pow2(14) == 0x4000);
    assert(half_magnitude(0x3c00) == 0x400 * pow2(14));
}

} // verus!
