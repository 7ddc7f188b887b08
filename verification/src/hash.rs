//! Integer hashes. Both backends compute them bit for bit.
use vstd::arithmetic::div_mod::{lemma_mul_mod_noop_left, lemma_small_mod};
use vstd::prelude::*;

verus! {

/// Wang's hash.
pub open spec fn wang_hash_spec(seed: u32) -> u32 {
    let a = (seed ^ 61) ^ (seed >> 16);
    let b = a.wrapping_add(a << 3);
    let c = b ^ (b >> 4);
    let d = c.wrapping_mul(0x27d4_eb2d);
    d ^ (d >> 15)
}

/// Wang's hash. Not cryptographic; it only has to make different seeds look
/// distinct.
#[verifier::when_used_as_spec(wang_hash_spec)]
pub fn wang_hash(seed: u32) -> (r: u32)
    ensures
        r == wang_hash_spec(seed),
{
    let a: u32 = (seed ^ 61) ^ (seed >> 16);
    let b: u32 = a.wrapping_add(a << 3);
    let c: u32 = b ^ (b >> 4);
    let d: u32 = c.wrapping_mul(0x27d4_eb2d);
    d ^ (d >> 15)
}

/// A permuted congruential step.
pub open spec fn pcg_spec(v: u32) -> u32 {
    let s = v.wrapping_mul(747_796_405).wrapping_add(2_891_336_453);
    let w = (s ^ (s >> (((s >> 28) + 4) as u32))).wrapping_mul(277_803_737);
    w ^ (w >> 22)
}

/// A permuted congruential step.
#[verifier::when_used_as_spec(pcg_spec)]
pub fn pcg(v: u32) -> (r: u32)
    ensures
        r == pcg_spec(v),
{
    let s: u32 = v.wrapping_mul(747_796_405).wrapping_add(2_891_336_453);
    assert((s >> 28) < 16) by (bit_vector);
    let shift: u32 = (s >> 28) + 4;
    let w: u32 = (s ^ (s >> shift)).wrapping_mul(277_803_737);
    w ^ (w >> 22)
}

/// Multiplying by a number that has an inverse keeps different numbers apart.
pub proof fn lemma_multiply_apart(a: u32, b: u32, m: u32, inverse: u32)
    requires
        (m * inverse) % 0x1_0000_0000 == 1,
        a.wrapping_mul(m) == b.wrapping_mul(m),
    ensures
        a == b,
{
    lemma_multiply_back(a, m, inverse);
    lemma_multiply_back(b, m, inverse);
}

proof fn lemma_multiply_back(x: u32, m: u32, inverse: u32)
    requires
        (m * inverse) % 0x1_0000_0000 == 1,
    ensures
        (x.wrapping_mul(m) * inverse) % 0x1_0000_0000 == x,
{
    let n = 0x1_0000_0000int;
    let (a, b, i) = (x as int, m as int, inverse as int);
    lemma_mul_mod_noop_left(a * b, i, n);
    assert((a * b) * i == (b * i) * a) by (nonlinear_arith);
    lemma_mul_mod_noop_left(b * i, a, n);
    lemma_small_mod(a as nat, n as nat);
}

proof fn lemma_first_mix_apart(a: u32, b: u32)
    by (bit_vector)
    requires
        (a ^ 61) ^ (a >> 16) == (b ^ 61) ^ (b >> 16),
    ensures
        a == b,
{
}

proof fn lemma_shift_4_apart(a: u32, b: u32)
    by (bit_vector)
    requires
        a ^ (a >> 4) == b ^ (b >> 4),
    ensures
        a == b,
{
}

pub proof fn lemma_shift_13_apart(a: u32, b: u32)
    by (bit_vector)
    requires
        a ^ (a >> 13) == b ^ (b >> 13),
    ensures
        a == b,
{
}

pub proof fn lemma_shift_15_apart(a: u32, b: u32)
    by (bit_vector)
    requires
        a ^ (a >> 15) == b ^ (b >> 15),
    ensures
        a == b,
{
}

pub proof fn lemma_shift_16_apart(a: u32, b: u32)
    by (bit_vector)
    requires
        a ^ (a >> 16) == b ^ (b >> 16),
    ensures
        a == b,
{
}

proof fn lemma_shift_22_apart(a: u32, b: u32)
    by (bit_vector)
    requires
        a ^ (a >> 22) == b ^ (b >> 22),
    ensures
        a == b,
{
}

proof fn lemma_own_shift_apart(a: u32, b: u32)
    by (bit_vector)
    requires
        a ^ (a >> (((a >> 28) + 4) as u32)) == b ^ (b >> (((b >> 28) + 4) as u32)),
    ensures
        a == b,
{
}

/// Adding three bits up is multiplying by nine.
proof fn lemma_nine_times(a: u32)
    ensures
        a.wrapping_add(a << 3) == a.wrapping_mul(9),
{
    assert((a << 3) == (a * 8) % 0x1_0000_0000) by (bit_vector);
}

/// Wang's hash takes different seeds to different numbers.
pub proof fn law_wang_hash_keeps_seeds_apart(x: u32, y: u32)
    requires
        x != y,
    ensures
        wang_hash(x) != wang_hash(y),
{
    if wang_hash(x) == wang_hash(y) {
        let (ax, ay) = ((x ^ 61) ^ (x >> 16), (y ^ 61) ^ (y >> 16));
        let (bx, by) = (ax.wrapping_add(ax << 3), ay.wrapping_add(ay << 3));
        let (cx, cy) = (bx ^ (bx >> 4), by ^ (by >> 4));
        let (dx, dy) = (cx.wrapping_mul(0x27d4_eb2d), cy.wrapping_mul(0x27d4_eb2d));
        lemma_shift_15_apart(dx, dy);
        lemma_multiply_apart(cx, cy, 0x27d4_eb2d, 4_218_002_597);
        lemma_shift_4_apart(bx, by);
        lemma_nine_times(ax);
        lemma_nine_times(ay);
        lemma_multiply_apart(ax, ay, 9, 954_437_177);
        lemma_first_mix_apart(x, y);
    }
}

/// A permuted congruential step takes different numbers to different numbers.
pub proof fn law_pcg_keeps_numbers_apart(x: u32, y: u32)
    requires
        x != y,
    ensures
        pcg(x) != pcg(y),
{
    if pcg(x) == pcg(y) {
        let (mx, my) = (x.wrapping_mul(747_796_405), y.wrapping_mul(747_796_405));
        let (sx, sy) = (mx.wrapping_add(2_891_336_453), my.wrapping_add(2_891_336_453));
        let (tx, ty) = (
            sx ^ (sx >> (((sx >> 28) + 4) as u32)),
            sy ^ (sy >> (((sy >> 28) + 4) as u32)),
        );
        let (wx, wy) = (tx.wrapping_mul(277_803_737), ty.wrapping_mul(277_803_737));
        lemma_shift_22_apart(wx, wy);
        lemma_multiply_apart(tx, ty, 277_803_737, 2_897_767_785);
        lemma_own_shift_apart(sx, sy);
        lemma_multiply_apart(x, y, 747_796_405, 3_425_435_293);
    }
}

/// Wang's hash step by step: fold, times nine, fold, times an odd number, fold.
pub proof fn law_wang_hash_folds_and_multiplies(seed: u32)
    ensures
        ({
            let m = 0x1_0000_0000int;
            let a = (seed ^ 61) ^ (seed / 0x1_0000);
            let b = ((a * 9) % m) as u32;
            let c = b ^ (b / 16);
            let d = ((c * 0x27d4_eb2d) % m) as u32;
            wang_hash(seed) == d ^ (d / 0x8000)
        }),
{
    let a = (seed ^ 61) ^ (seed >> 16);
    let b = a.wrapping_add(a << 3);
    let c = b ^ (b >> 4);
    let d = c.wrapping_mul(0x27d4_eb2d);
    lemma_nine_times(a);
    assert(seed >> 16 == seed / 0x1_0000) by (bit_vector);
    assert(b >> 4 == b / 16) by (bit_vector);
    assert(d >> 15 == d / 0x8000) by (bit_vector);
}

/// A permuted congruential step: a linear step, a fold by four bits and as many
/// more as its own upper four say, a multiplication, and a fold by 22.
pub proof fn law_pcg_steps_and_permutes(v: u32)
    ensures
        ({
            let m = 0x1_0000_0000int;
            let s = ((v * 747_796_405 + 2_891_336_453) % m) as u32;
            let w = (((s ^ (s >> ((s / 0x1000_0000 + 4) as u32))) * 277_803_737) % m) as u32;
            pcg(v) == w ^ (w / 0x40_0000)
        }),
{
    let m = 0x1_0000_0000int;
    let s = v.wrapping_mul(747_796_405).wrapping_add(2_891_336_453);
    let product = v * 747_796_405;
    vstd::arithmetic::div_mod::lemma_add_mod_noop(product, 2_891_336_453, m);
    vstd::arithmetic::div_mod::lemma_small_mod(2_891_336_453, m as nat);
    assert(s == (product + 2_891_336_453) % m);
    assert(s >> 28 == s / 0x1000_0000) by (bit_vector);
    let w = (s ^ (s >> (((s >> 28) + 4) as u32))).wrapping_mul(277_803_737);
    assert(w >> 22 == w / 0x40_0000) by (bit_vector);
}

} // verus!
