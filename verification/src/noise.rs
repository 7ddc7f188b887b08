//! Noise fields: what they are made of, and the integer part of sampling them.
//!
//! Simplex noise has no permutation table to reseed, so its seed is hashed to
//! offsets that are added to the sample position. The value kernel puts the
//! seed into the lattice hash instead: a fractional offset would move the
//! lattice off the integers and break tiling.
use vstd::arithmetic::power2::pow2;
use vstd::prelude::*;

use crate::fraction::fraction_of_24_bits;
use crate::hash::{
    law_wang_hash_keeps_seeds_apart, lemma_multiply_apart, lemma_shift_13_apart,
    lemma_shift_15_apart, lemma_shift_16_apart,
};
use crate::kind::{self, Noise, NoiseDims, NoiseKernel, NoiseRange};
use crate::scalar::{lemma_magnitudes_keep_order, Scalar, ONE_BITS};

pub use crate::hash::wang_hash;

verus! {

/// Mirrors [`NoiseDims`].
#[derive(Clone, Copy, Debug, PartialEq, Eq, Structural)]
pub enum Dims {
    D1,
    D2,
    D3,
}

/// Mirrors [`NoiseKernel`].
#[derive(Clone, Copy, Debug, PartialEq, Eq, Structural)]
pub enum Kernel {
    Simplex,
    Value,
}

/// Mirrors [`kind::FractalMode`].
#[derive(Clone, Copy, Debug, PartialEq, Eq, Structural)]
pub enum FractalMode {
    Standard,
    Turbulence,
    Ridged,
}

/// Mirrors [`kind::Fractal`].
#[derive(Clone, Copy, Debug, PartialEq)]
pub struct Fractal {
    pub octaves: u32,
    pub lacunarity: Scalar,
    pub gain: Scalar,
    pub mode: FractalMode,
    pub normalize: bool,
}

/// A noise field, apart from sample position and seed.
#[derive(Clone, Copy, Debug, PartialEq)]
pub struct Spec {
    pub dims: Dims,
    pub kernel: Kernel,
    /// Cycles per unit of sample space, at the first octave.
    pub frequency: Scalar,
    /// Lattice period in cells per axis; `0` is unbounded. [`Kernel::Value`]
    /// only.
    pub period: [u32; 3],
    pub fractal: Fractal,
    /// `true` = `[-1, 1]`, `false` = `[0, 1]`.
    pub signed: bool,
}

/// Upper bound on the octaves of a fractal sum, so a mistyped count cannot
/// cost thousands of samples a pixel.
pub const MAX_OCTAVES: u32 = 8;

/// How far apart the seeds of successive octaves are. Large and odd, so octave
/// seeds of one channel never collide with the next channel's, which is only
/// one seed apart.
pub const OCTAVE_SEED_STRIDE: u32 = 0x9E37_79B9;

/// The octaves that are summed.
#[verifier::allow_in_spec]
pub fn clamp_octaves(octaves: u32) -> u32
    returns
        (if octaves < 1 {
            1u32
        } else if octaves > MAX_OCTAVES {
            MAX_OCTAVES
        } else {
            octaves
        }),
{
    if octaves < 1 {
        1
    } else if octaves > MAX_OCTAVES {
        MAX_OCTAVES
    } else {
        octaves
    }
}

/// The field that a noise layer samples.
#[verifier::allow_in_spec]
pub fn noise_spec(n: &Noise) -> Spec
    returns
        (Spec {
            dims: match n.dims {
                NoiseDims::D1 => Dims::D1,
                NoiseDims::D2 => Dims::D2,
                NoiseDims::D3 => Dims::D3,
            },
            kernel: match n.kernel {
                NoiseKernel::Simplex => Kernel::Simplex,
                NoiseKernel::Value => Kernel::Value,
            },
            frequency: n.frequency,
            period: n.period,
            fractal: (Fractal {
                octaves: n.fractal.octaves,
                lacunarity: n.fractal.lacunarity,
                gain: n.fractal.gain,
                mode: match n.fractal.mode {
                    kind::FractalMode::Standard => FractalMode::Standard,
                    kind::FractalMode::Turbulence => FractalMode::Turbulence,
                    kind::FractalMode::Ridged => FractalMode::Ridged,
                },
                normalize: n.fractal.normalize,
            }),
            signed: n.range == NoiseRange::Signed,
        }),
{
    Spec {
        dims: match n.dims {
            NoiseDims::D1 => Dims::D1,
            NoiseDims::D2 => Dims::D2,
            NoiseDims::D3 => Dims::D3,
        },
        kernel: match n.kernel {
            NoiseKernel::Simplex => Kernel::Simplex,
            NoiseKernel::Value => Kernel::Value,
        },
        frequency: n.frequency,
        period: n.period,
        fractal: Fractal {
            octaves: n.fractal.octaves,
            lacunarity: n.fractal.lacunarity,
            gain: n.fractal.gain,
            mode: match n.fractal.mode {
                kind::FractalMode::Standard => FractalMode::Standard,
                kind::FractalMode::Turbulence => FractalMode::Turbulence,
                kind::FractalMode::Ridged => FractalMode::Ridged,
            },
            normalize: n.fractal.normalize,
        },
        signed: n.range == NoiseRange::Signed,
    }
}

/// The seed of a noise layer's channel. A gray has one channel; a color has one
/// each for lightness, chroma and hue.
#[verifier::allow_in_spec]
pub fn channel_seed(seed: u32, n: &Noise, channel: u32) -> u32
    returns
        seed.wrapping_add(n.seed_offset).wrapping_add(channel),
{
    seed.wrapping_add(n.seed_offset).wrapping_add(channel)
}

/// The seed of an octave of a channel.
#[verifier::allow_in_spec]
pub fn octave_seed(seed: u32, octave: u32) -> u32
    returns
        seed.wrapping_add(octave.wrapping_mul(OCTAVE_SEED_STRIDE)),
{
    seed.wrapping_add(octave.wrapping_mul(OCTAVE_SEED_STRIDE))
}

/// The octaves of a color's three channels all have different seeds. A
/// collision would visibly correlate two channels.
pub proof fn law_octave_seeds_differ(
    seed: u32,
    n: Noise,
    channel_a: u32,
    octave_a: u32,
    channel_b: u32,
    octave_b: u32,
)
    requires
        channel_a < 3,
        channel_b < 3,
        octave_a < MAX_OCTAVES,
        octave_b < MAX_OCTAVES,
        channel_a != channel_b || octave_a != octave_b,
    ensures
        octave_seed(channel_seed(seed, &n, channel_a), octave_a) != octave_seed(
            channel_seed(seed, &n, channel_b),
            octave_b,
        ),
{
    lemma_octave_steps(octave_a);
    lemma_octave_steps(octave_b);
}

/// The steps of the octaves, one by one.
proof fn lemma_octave_steps(octave: u32)
    requires
        octave < MAX_OCTAVES,
    ensures
        octave.wrapping_mul(OCTAVE_SEED_STRIDE) == (if octave == 0 {
            0u32
        } else if octave == 1 {
            0x9E37_79B9u32
        } else if octave == 2 {
            0x3C6E_F372u32
        } else if octave == 3 {
            0xDAA6_6D2Bu32
        } else if octave == 4 {
            0x78DD_E6E4u32
        } else if octave == 5 {
            0x1715_609Du32
        } else if octave == 6 {
            0xB54C_DA56u32
        } else {
            0x5384_540Fu32
        }),
{
    let n = octave as nat * OCTAVE_SEED_STRIDE as nat;
    assert(n == octave * 0x9E37_79B9) by (nonlinear_arith)
        requires
            n == octave as nat * OCTAVE_SEED_STRIDE as nat,
            OCTAVE_SEED_STRIDE == 0x9E37_79B9,
    ;
}

/// Wraps a cell into `[0, period)`; a period of 0 passes it through.
pub fn wrap_cell(i: i32, period: u32) -> (r: i32)
    requires
        period <= i32::MAX,
    ensures
        period == 0 ==> r == i,
        period > 0 ==> r == i as int % period as int,
{
    if period == 0 {
        return i;
    }
    let shifted: u64 = (i as i64 + 0x8000_0000) as u64;
    let offset: u64 = 0x8000_0000 % period as u64;
    let sum: u64 = shifted + (period as u64 - offset);
    let r: u64 = sum % period as u64;
    proof {
        let m = period as int;
        let q = 0x8000_0000int / m;
        assert(0x8000_0000 == q * m + 0x8000_0000int % m) by {
            vstd::arithmetic::div_mod::lemma_fundamental_div_mod(0x8000_0000, m);
            assert(m * q == q * m) by (nonlinear_arith);
        }
        assert(sum == i + (q + 1) * m) by (nonlinear_arith)
            requires
                sum == i + 0x8000_0000 + (m - offset),
                0x8000_0000 == q * m + offset,
        ;
        vstd::arithmetic::div_mod::lemma_mod_multiples_vanish(q + 1, i as int, m);
        assert((q + 1) * m == m * (q + 1)) by (nonlinear_arith);
    }
    r as i32
}

/// A wrapped lattice repeats at its period: cells a period apart are one cell.
pub proof fn law_wrapped_cells_tile(i: int, period: u32, times: int)
    requires
        period > 0,
    ensures
        (i + times * period) % period as int == i % period as int,
        0 <= i % (period as int) < period,
{
    vstd::arithmetic::div_mod::lemma_mod_multiples_vanish(times, i, period as int);
    assert(times * period == period * times) by (nonlinear_arith);
}

/// The hash of a lattice cell.
pub open spec fn lattice_hash_spec(x: u32, y: u32, z: u32, seed: u32) -> u32 {
    let a = x.wrapping_mul(1_597_334_677) ^ y.wrapping_mul(3_812_015_801) ^ z.wrapping_mul(
        2_654_435_761,
    ) ^ wang_hash(seed);
    let b = (a ^ (a >> 15)).wrapping_mul(2_246_822_519);
    let c = (b ^ (b >> 13)).wrapping_mul(3_266_489_917);
    c ^ (c >> 16)
}

/// The hash of a lattice cell. Integers only, so a periodic field matches
/// itself exactly across a tile boundary.
pub fn lattice_hash(cell: [i32; 3], seed: u32) -> (r: u32)
    ensures
        r == lattice_hash_spec(cell@[0] as u32, cell@[1] as u32, cell@[2] as u32, seed),
{
    let (x, y, z) = (cell[0] as u32, cell[1] as u32, cell[2] as u32);
    let a: u32 = x.wrapping_mul(1_597_334_677) ^ y.wrapping_mul(3_812_015_801) ^ z.wrapping_mul(
        2_654_435_761,
    ) ^ wang_hash(seed);
    let b: u32 = (a ^ (a >> 15)).wrapping_mul(2_246_822_519);
    let c: u32 = (b ^ (b >> 13)).wrapping_mul(3_266_489_917);
    c ^ (c >> 16)
}

/// The last mixing of a lattice hash takes different numbers to different ones.
proof fn lemma_lattice_mix_apart(a: u32, b: u32)
    requires
        ({
            let (ma, mb) = (
                (a ^ (a >> 15)).wrapping_mul(2_246_822_519),
                (b ^ (b >> 15)).wrapping_mul(2_246_822_519),
            );
            let (na, nb) = (
                (ma ^ (ma >> 13)).wrapping_mul(3_266_489_917),
                (mb ^ (mb >> 13)).wrapping_mul(3_266_489_917),
            );
            na ^ (na >> 16) == nb ^ (nb >> 16)
        }),
    ensures
        a == b,
{
    let (sa, sb) = (a ^ (a >> 15), b ^ (b >> 15));
    let (ma, mb) = (sa.wrapping_mul(2_246_822_519), sb.wrapping_mul(2_246_822_519));
    let (ta, tb) = (ma ^ (ma >> 13), mb ^ (mb >> 13));
    let (na, nb) = (ta.wrapping_mul(3_266_489_917), tb.wrapping_mul(3_266_489_917));
    lemma_shift_16_apart(na, nb);
    lemma_multiply_apart(ta, tb, 3_266_489_917, 2828982549);
    lemma_shift_13_apart(ma, mb);
    lemma_multiply_apart(sa, sb, 2_246_822_519, 3066638151);
    lemma_shift_15_apart(a, b);
}

/// A term of an exclusive sum that alone differs makes the sums differ.
proof fn lemma_sums_apart(x: u32, y: u32, z: u32, s: u32, t: u32)
    by (bit_vector)
    ensures
        t ^ y ^ z ^ s == x ^ y ^ z ^ s ==> t == x,
        x ^ t ^ z ^ s == x ^ y ^ z ^ s ==> t == y,
        x ^ y ^ t ^ s == x ^ y ^ z ^ s ==> t == z,
        x ^ y ^ z ^ t == x ^ y ^ z ^ s ==> t == s,
{
}

/// Lattice cells that differ along one axis alone hash apart, whichever side of
/// zero they are on; and so does one cell under different seeds.
pub proof fn law_lattice_cells_hash_apart(cell: Seq<i32>, axis: int, other: i32, seed: u32, own: u32)
    requires
        cell.len() == 3,
        0 <= axis < 3,
    ensures
        ({
            let d = cell.update(axis, other);
            let hash = lattice_hash_spec(cell[0] as u32, cell[1] as u32, cell[2] as u32, seed);
            &&& cell[axis] != other ==> lattice_hash_spec(
                d[0] as u32,
                d[1] as u32,
                d[2] as u32,
                seed,
            ) != hash
            &&& own != seed ==> lattice_hash_spec(
                cell[0] as u32,
                cell[1] as u32,
                cell[2] as u32,
                own,
            ) != hash
        }),
{
    let d = cell.update(axis, other);
    let (x, y, z) = (
        (cell[0] as u32).wrapping_mul(1_597_334_677),
        (cell[1] as u32).wrapping_mul(3_812_015_801),
        (cell[2] as u32).wrapping_mul(2_654_435_761),
    );
    let (dx, dy, dz) = (
        (d[0] as u32).wrapping_mul(1_597_334_677),
        (d[1] as u32).wrapping_mul(3_812_015_801),
        (d[2] as u32).wrapping_mul(2_654_435_761),
    );
    let s = wang_hash(seed);
    let hash = lattice_hash_spec(cell[0] as u32, cell[1] as u32, cell[2] as u32, seed);
    if cell[axis] != other {
        let (c, o) = (cell[axis], other);
        assert(c != o ==> c as u32 != o as u32) by (bit_vector);
        if lattice_hash_spec(d[0] as u32, d[1] as u32, d[2] as u32, seed) == hash {
            lemma_lattice_mix_apart(dx ^ dy ^ dz ^ s, x ^ y ^ z ^ s);
            if axis == 0 {
                lemma_sums_apart(x, y, z, s, dx);
                lemma_multiply_apart(d[0] as u32, cell[0] as u32, 1_597_334_677, 851723965);
            } else if axis == 1 {
                lemma_sums_apart(x, y, z, s, dy);
                lemma_multiply_apart(d[1] as u32, cell[1] as u32, 3_812_015_801, 3102992265);
            } else {
                lemma_sums_apart(x, y, z, s, dz);
                lemma_multiply_apart(d[2] as u32, cell[2] as u32, 2_654_435_761, 244002641);
            }
        }
    }
    if own != seed {
        law_wang_hash_keeps_seeds_apart(own, seed);
        let t = wang_hash(own);
        if lattice_hash_spec(cell[0] as u32, cell[1] as u32, cell[2] as u32, own) == hash {
            lemma_lattice_mix_apart(x ^ y ^ z ^ t, x ^ y ^ z ^ s);
            lemma_sums_apart(x, y, z, s, t);
        }
    }
}

/// The cell at a corner of a wrapped lattice.
pub open spec fn is_wrapped(cell: int, period: u32, r: int) -> bool {
    r == if period == 0 {
        cell
    } else {
        cell % period as int
    }
}

/// The hash at the corner `step` away from a base cell, on a lattice that wraps
/// at its period.
pub fn corner_hash(base: [i32; 3], step: [i32; 3], period: [u32; 3], seed: u32) -> (r: u32)
    requires
        forall|k: int|
            0 <= k < 3 ==> i32::MIN <= #[trigger] base@[k] + step@[k] <= i32::MAX && period@[k]
                <= i32::MAX,
    ensures
        exists|x: i32, y: i32, z: i32|
            {
                &&& is_wrapped(base@[0] + step@[0], period@[0], x as int)
                &&& is_wrapped(base@[1] + step@[1], period@[1], y as int)
                &&& is_wrapped(base@[2] + step@[2], period@[2], z as int)
                &&& r == #[trigger] lattice_hash_spec(x as u32, y as u32, z as u32, seed)
            },
{
    assert(i32::MIN <= base@[0] + step@[0] <= i32::MAX);
    assert(i32::MIN <= base@[1] + step@[1] <= i32::MAX);
    assert(i32::MIN <= base@[2] + step@[2] <= i32::MAX);
    let cell = [
        wrap_cell(base[0] + step[0], period[0]),
        wrap_cell(base[1] + step[1], period[1]),
        wrap_cell(base[2] + step[2], period[2]),
    ];
    lattice_hash(cell, seed)
}

/// The period of the axes that a field of that many dimensions has; an axis that
/// it lacks has none.
pub open spec fn used_period_spec(dims: Dims, period: Seq<u32>) -> Seq<u32> {
    match dims {
        Dims::D1 => seq![period[0], 0u32, 0u32],
        Dims::D2 => seq![period[0], period[1], 0u32],
        Dims::D3 => seq![period[0], period[1], period[2]],
    }
}

/// The period of the axes that a field of that many dimensions has.
pub fn used_period(dims: Dims, period: [u32; 3]) -> (r: [u32; 3])
    ensures
        r@ == used_period_spec(dims, period@),
{
    let r = match dims {
        Dims::D1 => [period[0], 0, 0],
        Dims::D2 => [period[0], period[1], 0],
        Dims::D3 => [period[0], period[1], period[2]],
    };
    assert(r@ =~= used_period_spec(dims, period@));
    r
}

/// The number in `[0, 1)` that a hash's upper 24 bits stand for, on the scale of
/// [`Scalar::scaled`].
pub open spec fn hash_fraction(x: u32) -> int {
    (x / 0x100) * pow2(125)
}

/// The top 24 bits of a hash as a number in `[0, 1)`, exactly.
pub fn hash_to_float01(x: u32) -> (r: Scalar)
    ensures
        r.scaled() == hash_fraction(x),
        r.lt_spec(Scalar::one()),
        Scalar::zero().le_spec(r),
{
    assert(x >> 8 == x / 0x100) by (bit_vector);
    let r = fraction_of_24_bits(x >> 8);
    proof {
        lemma_magnitudes_keep_order(r.bits, ONE_BITS);
        lemma_magnitudes_keep_order(0, r.bits);
        assert(r.magnitude() == r.bits);
    }
    r
}

/// The hashes behind the offsets of a simplex field, in units of 1/256.
pub open spec fn offset_hashes(seed: u32) -> Seq<u32> {
    seq![
        wang_hash(seed ^ 0xA1B2_C3D4),
        wang_hash(seed ^ 0x51F0_E7A9),
        wang_hash(seed ^ 0x0BAD_C0DE),
    ]
}

/// The offsets of a simplex field, per axis, in units of 256.
pub fn seed_offsets(seed: u32) -> (r: [Scalar; 3])
    ensures
        forall|k: int|
            0 <= k < 3 ==> (#[trigger] r@[k]).scaled() == hash_fraction(offset_hashes(seed)[k]),
{
    [
        hash_to_float01(wang_hash(seed ^ 0xA1B2_C3D4)),
        hash_to_float01(wang_hash(seed ^ 0x51F0_E7A9)),
        hash_to_float01(wang_hash(seed ^ 0x0BAD_C0DE)),
    ]
}

/// A noise layer's field has the layer's own settings: its dimensions, kernel,
/// frequency, periods and octaves, and a signed range exactly where the layer's is.
pub proof fn law_field_has_the_layers_settings(n: Noise)
    ensures
        ({
            let s = noise_spec(&n);
            &&& (s.dims is D1 <==> n.dims is D1) && (s.dims is D2 <==> n.dims is D2)
            &&& s.kernel is Value <==> n.kernel is Value
            &&& s.frequency == n.frequency
            &&& s.period == n.period
            &&& s.signed <==> n.range is Signed
            &&& s.fractal.octaves == n.fractal.octaves
            &&& s.fractal.lacunarity == n.fractal.lacunarity
            &&& s.fractal.gain == n.fractal.gain
            &&& s.fractal.normalize == n.fractal.normalize
            &&& s.fractal.mode is Turbulence <==> n.fractal.mode is Turbulence
            &&& s.fractal.mode is Ridged <==> n.fractal.mode is Ridged
        }),
{
}

/// The octaves summed are those asked for, held between one and eight.
pub proof fn law_octaves_are_one_to_eight(octaves: u32)
    ensures
        1 <= clamp_octaves(octaves) <= 8,
        1 <= octaves <= 8 ==> clamp_octaves(octaves) == octaves,
        octaves > 8 ==> clamp_octaves(octaves) == 8,
{
}

/// Seeds add up modulo 2^32: a layer's offset and the channel move the seed by as
/// much as they are, and each octave by the golden ratio's bits.
pub proof fn law_seeds_add_up(seed: u32, n: Noise, channel: u32, octave: u32)
    ensures
        channel_seed(seed, &n, channel) == (seed + n.seed_offset + channel) % 0x1_0000_0000,
        octave_seed(seed, octave) == (seed + octave * 0x9E37_79B9) % 0x1_0000_0000,
{
    let m = 0x1_0000_0000int;
    let product = octave * 0x9E37_79B9;
    vstd::arithmetic::div_mod::lemma_add_mod_noop_right(seed as int, product, m);
    vstd::arithmetic::div_mod::lemma_add_mod_noop(
        seed + n.seed_offset,
        channel as int,
        m,
    );
    vstd::arithmetic::div_mod::lemma_small_mod(channel as nat, m as nat);
}

/// A lattice hash mixes the cell's coordinates, each times its own odd number, and
/// the hash of the seed; the mixing folds the upper bits onto the lower three
/// times, with a multiplication between.
pub proof fn law_lattice_hash_mixes(x: u32, y: u32, z: u32, seed: u32)
    ensures
        ({
            let m = 0x1_0000_0000int;
            let (p, q, r) = (
                ((x * 1_597_334_677) % m) as u32,
                ((y * 3_812_015_801) % m) as u32,
                ((z * 2_654_435_761) % m) as u32,
            );
            let a = p ^ q ^ r ^ wang_hash(seed);
            let b = (((a ^ (a / 0x8000)) * 2_246_822_519) % m) as u32;
            let c = (((b ^ (b / 0x2000)) * 3_266_489_917) % m) as u32;
            lattice_hash_spec(x, y, z, seed) == c ^ (c / 0x1_0000)
        }),
{
    lemma_shifts();
}

proof fn lemma_shifts()
    ensures
        forall|v: u32| #[trigger] (v >> 13) == v / 0x2000,
        forall|v: u32| #[trigger] (v >> 15) == v / 0x8000,
        forall|v: u32| #[trigger] (v >> 16) == v / 0x1_0000,
{
    assert forall|v: u32| #[trigger] (v >> 13) == v / 0x2000 by {
        assert(v >> 13 == v / 0x2000) by (bit_vector);
    }
    assert forall|v: u32| #[trigger] (v >> 15) == v / 0x8000 by {
        assert(v >> 15 == v / 0x8000) by (bit_vector);
    }
    assert forall|v: u32| #[trigger] (v >> 16) == v / 0x1_0000 by {
        assert(v >> 16 == v / 0x1_0000) by (bit_vector);
    }
}

/// A field tiles along the axes that it has, at the layer's periods, and not along
/// the others.
pub proof fn law_periods_of_missing_axes_are_dropped(dims: Dims, period: Seq<u32>, k: int)
    requires
        period.len() == 3,
        0 <= k < 3,
    ensures
        ({
            let used = used_period_spec(dims, period);
            let axes: int = if dims is D1 {
                1
            } else if dims is D2 {
                2
            } else {
                3
            };
            &&& used.len() == 3
            &&& used[k] == if k < axes {
                period[k]
            } else {
                0u32
            }
        }),
{
}

/// Two simplex fields of different seeds are moved differently along every axis:
/// the hash behind each offset differs.
pub proof fn law_offsets_tell_seeds_apart(seed: u32, other: u32, k: int)
    requires
        seed != other,
        0 <= k < 3,
    ensures
        offset_hashes(seed).len() == 3,
        offset_hashes(seed)[k] != offset_hashes(other)[k],
        offset_hashes(seed)[0] == wang_hash(seed ^ 0xA1B2_C3D4),
        offset_hashes(seed)[1] == wang_hash(seed ^ 0x51F0_E7A9),
        offset_hashes(seed)[2] == wang_hash(seed ^ 0x0BAD_C0DE),
{
    assert(seed != other ==> (seed ^ 0xA1B2_C3D4) != (other ^ 0xA1B2_C3D4)) by (bit_vector);
    assert(seed != other ==> (seed ^ 0x51F0_E7A9) != (other ^ 0x51F0_E7A9)) by (bit_vector);
    assert(seed != other ==> (seed ^ 0x0BAD_C0DE) != (other ^ 0x0BAD_C0DE)) by (bit_vector);
    law_wang_hash_keeps_seeds_apart(seed ^ 0xA1B2_C3D4, other ^ 0xA1B2_C3D4);
    law_wang_hash_keeps_seeds_apart(seed ^ 0x51F0_E7A9, other ^ 0x51F0_E7A9);
    law_wang_hash_keeps_seeds_apart(seed ^ 0x0BAD_C0DE, other ^ 0x0BAD_C0DE);
}

/// A hash's number is its upper 24 bits over 2^24: a larger one is never the
/// smaller number, and each step of those bits is one of 2^24 in a whole.
pub proof fn law_hash_numbers_are_their_upper_bits(x: u32, y: u32)
    ensures
        0x100_0000 * hash_fraction(x) == (x / 0x100) * pow2(149),
        x <= y ==> hash_fraction(x) <= hash_fraction(y),
        0 <= hash_fraction(x) < pow2(149),
{
    vstd::arithmetic::power2::lemma2_to64();
    vstd::arithmetic::power2::lemma_pow2_adds(24, 125);
    vstd::arithmetic::power2::lemma_pow2_pos(125);
    let (p, a, b) = (pow2(125) as int, (x / 0x100) as int, (y / 0x100) as int);
    assert(0x100_0000 * (a * p) == a * (0x100_0000 * p)) by (nonlinear_arith);
    assert(0 <= a * p < 0x100_0000 * p) by (nonlinear_arith)
        requires
            0 <= a < 0x100_0000,
            p > 0,
    ;
    assert(a <= b ==> a * p <= b * p) by (nonlinear_arith)
        requires
            p > 0,
    ;
}

/// A periodic lattice tiles: the corner a whole number of periods away along an
/// axis hashes the same. Only the sum of a base and a step matters, and without
/// a period a corner hashes as its own cell.
pub proof fn law_tiled_corners_hash_the_same(
    base: [i32; 3],
    step: [i32; 3],
    far: [i32; 3],
    period: [u32; 3],
    seed: u32,
    turns: [int; 3],
    r: u32,
    s: u32,
)
    requires
        call_ensures(corner_hash, (base, step, period, seed), r),
        call_ensures(corner_hash, (far, [0, 0, 0], period, seed), s),
        far[0] == base[0] + step[0] + turns[0] * period[0],
        far[1] == base[1] + step[1] + turns[1] * period[1],
        far[2] == base[2] + step[2] + turns[2] * period[2],
    ensures
        r == s,
        period[0] == 0 && period[1] == 0 && period[2] == 0 ==> r == lattice_hash_spec(
            far[0] as u32,
            far[1] as u32,
            far[2] as u32,
            seed,
        ),
{
    let zero: [i32; 3] = [0, 0, 0];
    assert forall|k: int| 0 <= k < 3 implies #[trigger] same_cell(
        base@[k] + step@[k],
        far@[k] as int,
        period@[k],
    ) by {
        let (p, n) = (period@[k], turns@[k]);
        assert(far@[k] == base@[k] + step@[k] + n * p);
        if p > 0 {
            law_wrapped_cells_tile(base@[k] + step@[k], p, n);
        } else {
            assert(n * p == 0) by (nonlinear_arith)
                requires
                    p == 0,
            ;
        }
    }
    assert(same_cell(base@[0] + step@[0], far@[0] as int, period@[0]));
    assert(same_cell(base@[1] + step@[1], far@[1] as int, period@[1]));
    assert(same_cell(base@[2] + step@[2], far@[2] as int, period@[2]));
    assert(zero@[0] == 0 && zero@[1] == 0 && zero@[2] == 0);
}

/// The two are one cell of a lattice of that period.
pub open spec fn same_cell(a: int, b: int, period: u32) -> bool {
    if period == 0 {
        a == b
    } else {
        a % period as int == b % period as int
    }
}

/// A lattice cell hashes by its three coordinates, each in its own place.
pub proof fn law_cells_hash_in_place(x: i32, y: i32, z: i32, seed: u32, r: u32)
    requires
        call_ensures(lattice_hash, ([x, y, z], seed), r),
    ensures
        r == lattice_hash_spec(x as u32, y as u32, z as u32, seed),
{
    let cell: [i32; 3] = [x, y, z];
    assert(cell@[0] == x && cell@[1] == y && cell@[2] == z);
}

/// A simplex field is moved along each axis by the number of that axis's own
/// hash of the seed.
pub proof fn law_offsets_come_from_the_seed(seed: u32, r: [Scalar; 3])
    requires
        call_ensures(seed_offsets, (seed,), r),
    ensures
        r[0].scaled() == (wang_hash(seed ^ 0xA1B2_C3D4) / 0x100) * pow2(125),
        r[1].scaled() == (wang_hash(seed ^ 0x51F0_E7A9) / 0x100) * pow2(125),
        r[2].scaled() == (wang_hash(seed ^ 0x0BAD_C0DE) / 0x100) * pow2(125),
{
    assert(r@[0].scaled() == hash_fraction(offset_hashes(seed)[0]));
    assert(r@[1].scaled() == hash_fraction(offset_hashes(seed)[1]));
    assert(r@[2].scaled() == hash_fraction(offset_hashes(seed)[2]));
}

} // verus!
