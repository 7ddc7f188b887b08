//! Crater fields: the integer part of scattering craters.
//!
//! Each size class is a lattice of cells, twice as fine as the class before. A
//! cell holds at most one crater, at a hashed point inside it. Every crater that
//! can reach a sample lies in the 27 cells around it.
use vstd::prelude::*;

use crate::hash::law_pcg_keeps_numbers_apart;
use crate::noise::{hash_fraction, hash_to_float01};
use crate::scalar::Scalar;

pub use crate::hash::pcg;

verus! {

/// Upper bound on the size classes.
pub const MAX_CLASSES: u32 = 6;

/// Rays per crater.
pub const RAYS: u32 = 6;

/// How far apart the seeds of successive classes are.
pub const CLASS_SEED_STRIDE: u32 = 0x9E37_79B9;

/// The classes that are scattered.
#[verifier::allow_in_spec]
pub fn clamp_classes(classes: u32) -> u32
    returns
        (if classes < 1 {
            1u32
        } else if classes > MAX_CLASSES {
            MAX_CLASSES
        } else {
            classes
        }),
{
    if classes < 1 {
        1
    } else if classes > MAX_CLASSES {
        MAX_CLASSES
    } else {
        classes
    }
}

/// A hash as a number in `[0, 1)`, exactly.
pub fn unit(h: u32) -> (r: Scalar)
    ensures
        r.scaled() == hash_fraction(h),
        r.lt_spec(Scalar::one()),
        Scalar::zero().le_spec(r),
{
    hash_to_float01(h)
}

/// The hash of a cell of a class.
pub open spec fn cell_hash_spec(seed: u32, class: u32, x: u32, y: u32, z: u32) -> u32 {
    let h = pcg(seed ^ class.wrapping_mul(CLASS_SEED_STRIDE));
    pcg(pcg(pcg(h.wrapping_add(x)).wrapping_add(y)).wrapping_add(z))
}

/// The hash of a cell of a class.
pub fn cell_hash(seed: u32, class: u32, c: [i32; 3]) -> (r: u32)
    ensures
        r == cell_hash_spec(seed, class, c@[0] as u32, c@[1] as u32, c@[2] as u32),
{
    let h: u32 = pcg(seed ^ class.wrapping_mul(CLASS_SEED_STRIDE));
    let h: u32 = pcg(h.wrapping_add(c[0] as u32));
    let h: u32 = pcg(h.wrapping_add(c[1] as u32));
    pcg(h.wrapping_add(c[2] as u32))
}

/// Different cells have different numbers along an axis.
proof fn lemma_cells_apart(a: i32, b: i32)
    ensures
        a != b ==> a as u32 != b as u32,
{
    assert(a != b ==> a as u32 != b as u32) by (bit_vector);
}

/// Cells of a class that differ along one axis alone hash apart, whichever side
/// of zero they are on.
pub proof fn law_cells_along_an_axis_hash_apart(
    seed: u32,
    class: u32,
    c: Seq<i32>,
    axis: int,
    other: i32,
)
    requires
        c.len() == 3,
        0 <= axis < 3,
        c[axis] != other,
    ensures
        ({
            let d = c.update(axis, other);
            cell_hash_spec(seed, class, c[0] as u32, c[1] as u32, c[2] as u32) != cell_hash_spec(
                seed,
                class,
                d[0] as u32,
                d[1] as u32,
                d[2] as u32,
            )
        }),
{
    let d = c.update(axis, other);
    lemma_cells_apart(c[axis], other);
    let h = pcg(seed ^ class.wrapping_mul(CLASS_SEED_STRIDE));
    let (cx, cy, cz) = (c[0] as u32, c[1] as u32, c[2] as u32);
    let (dx, dy, dz) = (d[0] as u32, d[1] as u32, d[2] as u32);
    let (cu, du) = (pcg(h.wrapping_add(cx)), pcg(h.wrapping_add(dx)));
    let (cv, dv) = (pcg(cu.wrapping_add(cy)), pcg(du.wrapping_add(dy)));
    if axis == 0 {
        law_pcg_keeps_numbers_apart(h.wrapping_add(cx), h.wrapping_add(dx));
        law_pcg_keeps_numbers_apart(cu.wrapping_add(cy), du.wrapping_add(dy));
        law_pcg_keeps_numbers_apart(cv.wrapping_add(cz), dv.wrapping_add(dz));
    } else if axis == 1 {
        law_pcg_keeps_numbers_apart(cu.wrapping_add(cy), du.wrapping_add(dy));
        law_pcg_keeps_numbers_apart(cv.wrapping_add(cz), dv.wrapping_add(dz));
    } else {
        law_pcg_keeps_numbers_apart(cv.wrapping_add(cz), dv.wrapping_add(dz));
    }
}

/// The cell at that place of the 27 around a base cell, w slowest.
pub open spec fn neighbor(base: Seq<i32>, n: int) -> Seq<int> {
    seq![base[0] + n % 3 - 1, base[1] + n / 3 % 3 - 1, base[2] + n / 9 - 1]
}

/// The 27 cells around a base cell, in the order in which their craters land.
pub fn neighbor_cells(base: [i32; 3]) -> (r: Vec<[i32; 3]>)
    requires
        forall|k: int| 0 <= k < 3 ==> i32::MIN < #[trigger] base@[k] < i32::MAX,
    ensures
        r@.len() == 27,
        forall|n: int, k: int|
            #![trigger r@[n]@[k]]
            0 <= n < 27 && 0 <= k < 3 ==> r@[n]@[k] == neighbor(base@, n)[k],
{
    assert(i32::MIN < base@[0] < i32::MAX);
    assert(i32::MIN < base@[1] < i32::MAX);
    assert(i32::MIN < base@[2] < i32::MAX);
    let mut out: Vec<[i32; 3]> = Vec::new();
    let mut n: i32 = 0;
    while n < 27
        invariant
            0 <= n <= 27,
            out@.len() == n,
            i32::MIN < base@[0] < i32::MAX,
            i32::MIN < base@[1] < i32::MAX,
            i32::MIN < base@[2] < i32::MAX,
            forall|m: int, k: int|
                #![trigger out@[m]@[k]]
                0 <= m < n && 0 <= k < 3 ==> out@[m]@[k] == neighbor(base@, m)[k],
        decreases 27 - n,
    {
        let k: u32 = n as u32;
        let (dx, dy, dz) = (k % 3, k / 3 % 3, k / 9);
        let cell = [
            base[0] - 1 + dx as i32,
            base[1] - 1 + dy as i32,
            base[2] - 1 + dz as i32,
        ];
        out.push(cell);
        n = n + 1;
    }
    out
}

/// The cells around a base cell are those at most one step away on each axis.
pub proof fn law_neighbors_are_one_step_away(base: Seq<i32>, cell: Seq<int>)
    requires
        base.len() == 3,
        cell.len() == 3,
    ensures
        (exists|n: int| 0 <= n < 27 && #[trigger] neighbor(base, n) == cell) <==> (forall|k: int|
            0 <= k < 3 ==> base[k] - 1 <= #[trigger] cell[k] <= base[k] + 1),
{
    if forall|k: int| 0 <= k < 3 ==> base[k] - 1 <= #[trigger] cell[k] <= base[k] + 1 {
        let n = (cell[0] - base[0] + 1) + 3 * (cell[1] - base[1] + 1) + 9 * (cell[2] - base[2]
            + 1);
        assert(base[0] - 1 <= cell[0] <= base[0] + 1);
        assert(base[1] - 1 <= cell[1] <= base[1] + 1);
        assert(base[2] - 1 <= cell[2] <= base[2] + 1);
        assert(neighbor(base, n) =~= cell);
    }
    if exists|n: int| 0 <= n < 27 && #[trigger] neighbor(base, n) == cell {
        let n = choose|n: int| 0 <= n < 27 && #[trigger] neighbor(base, n) == cell;
        assert(0 <= n % 3 <= 2);
        assert(0 <= n / 3 % 3 <= 2);
        assert(0 <= n / 9 <= 2);
        assert(neighbor(base, n)[0] == cell[0]);
        assert(neighbor(base, n)[1] == cell[1]);
        assert(neighbor(base, n)[2] == cell[2]);
    }
}

/// A number of steps along the chain of hashes.
pub open spec fn chained(h: u32, steps: nat) -> u32
    decreases steps,
{
    if steps == 0 {
        h
    } else {
        pcg(chained(h, (steps - 1) as nat))
    }
}

/// `v` is the number in `[0, 1)` of that step along the chain.
pub open spec fn drawn(h: u32, steps: nat, v: Scalar) -> bool {
    v.scaled() == hash_fraction(chained(h, steps)) && v.lt_spec(Scalar::one())
        && Scalar::zero().le_spec(v)
}

/// What is drawn for a cell's crater.
#[derive(Clone, Copy, Debug)]
pub struct CellDraws {
    /// Below the share of cells that are occupied, there is a crater.
    pub presence: Scalar,
    /// Where in the cell its center lies, per axis.
    pub center: [Scalar; 3],
    /// How large it is, from half the largest up.
    pub size: Scalar,
    /// Where the draws of its rays start.
    pub rays: u32,
}

/// `r` is what is drawn for the crater of a cell with that hash.
pub open spec fn are_draws(h: u32, r: CellDraws) -> bool {
    &&& drawn(h, 0, r.presence)
    &&& drawn(h, 1, r.center@[0])
    &&& drawn(h, 2, r.center@[1])
    &&& drawn(h, 3, r.center@[2])
    &&& drawn(h, 4, r.size)
    &&& r.rays == chained(h, 5)
}

/// Draws a cell's crater from the cell's hash.
pub fn cell_draws(h: u32) -> (r: CellDraws)
    ensures
        are_draws(h, r),
{
    reveal_with_fuel(chained, 6);
    let h1: u32 = pcg(h);
    let h2: u32 = pcg(h1);
    let h3: u32 = pcg(h2);
    let h4: u32 = pcg(h3);
    CellDraws {
        presence: unit(h),
        center: [unit(h1), unit(h2), unit(h3)],
        size: unit(h4),
        rays: pcg(h4),
    }
}

/// `r` is what is drawn for the rays, from where their draws start.
pub open spec fn are_ray_draws(h: u32, r: Seq<Scalar>) -> bool {
    &&& r.len() == 3 * RAYS
    &&& forall|k: int| 0 <= k < 3 * RAYS ==> drawn(h, (k + 1) as nat, #[trigger] r[k])
}

/// The three draws behind each ray's direction, one after the other.
pub fn ray_draws(h: u32) -> (r: Vec<Scalar>)
    ensures
        are_ray_draws(h, r@),
{
    let mut out: Vec<Scalar> = Vec::new();
    let mut at: u32 = h;
    let mut k: u32 = 0;
    while k < 3 * RAYS
        invariant
            k <= 3 * RAYS,
            at == chained(h, k as nat),
            out@.len() == k,
            forall|j: int| 0 <= j < k ==> drawn(h, (j + 1) as nat, #[trigger] out@[j]),
        decreases 3 * RAYS - k,
    {
        at = pcg(at);
        assert(at == chained(h, (k + 1) as nat));
        out.push(unit(at));
        k = k + 1;
    }
    out
}

/// A crater's draws follow one another along the chain of hashes: its presence
/// from the cell's hash, then its center along u, v and w, then its size, and its
/// rays start from the next.
pub proof fn law_draws_follow_the_chain(h: u32, r: CellDraws)
    requires
        are_draws(h, r),
    ensures
        r.presence.scaled() == hash_fraction(h),
        r.center@[0].scaled() == hash_fraction(pcg(h)),
        r.center@[1].scaled() == hash_fraction(pcg(pcg(h))),
        r.center@[2].scaled() == hash_fraction(pcg(pcg(pcg(h)))),
        r.size.scaled() == hash_fraction(pcg(pcg(pcg(pcg(h))))),
        r.rays == pcg(pcg(pcg(pcg(pcg(h))))),
{
    reveal_with_fuel(chained, 6);
}

/// The draws that start one step further along the chain are these, moved up by
/// one.
pub proof fn law_draws_move_along_the_chain(h: u32, r: CellDraws, next: CellDraws)
    requires
        are_draws(h, r),
        are_draws(pcg(h), next),
    ensures
        r.center@[0].scaled() == next.presence.scaled(),
        r.center@[1].scaled() == next.center@[0].scaled(),
        r.center@[2].scaled() == next.center@[1].scaled(),
        r.size.scaled() == next.center@[2].scaled(),
        next.rays == pcg(r.rays),
{
    law_draws_follow_the_chain(h, r);
    law_draws_follow_the_chain(pcg(h), next);
}

/// Six rays take three draws each, and the draws that start one step further along
/// the chain are these without the first.
pub proof fn law_ray_draws_follow_the_chain(h: u32, r: Seq<Scalar>, next: Seq<Scalar>, k: int)
    requires
        are_ray_draws(h, r),
        are_ray_draws(pcg(h), next),
        0 <= k < 17,
    ensures
        r.len() == 18,
        r[0].scaled() == hash_fraction(pcg(h)),
        r[k + 1].scaled() == next[k].scaled(),
{
    reveal_with_fuel(chained, 2);
    assert(chained(h, 1) == pcg(h));
    lemma_chain_shift(h, (k + 1) as nat);
    assert(drawn(h, (k + 1 + 1) as nat, r[k + 1]));
    assert(drawn(pcg(h), (k + 1) as nat, next[k]));
    assert(drawn(h, 1, r[0]));
}

proof fn lemma_chain_shift(h: u32, steps: nat)
    ensures
        chained(h, steps + 1) == chained(pcg(h), steps),
    decreases steps,
{
    if steps > 0 {
        lemma_chain_shift(h, (steps - 1) as nat);
    }
    reveal_with_fuel(chained, 2);
}

/// The cells around a base cell come in order: u runs fastest, then v, then w, each
/// from one below to one above.
pub proof fn law_neighbors_come_in_order(base: Seq<i32>, du: int, dv: int, dw: int)
    requires
        base.len() == 3,
        -1 <= du <= 1,
        -1 <= dv <= 1,
        -1 <= dw <= 1,
    ensures
        neighbor(base, (du + 1) + 3 * (dv + 1) + 9 * (dw + 1)) == seq![
            base[0] + du,
            base[1] + dv,
            base[2] + dw,
        ],
{
    assert(neighbor(base, (du + 1) + 3 * (dv + 1) + 9 * (dw + 1)) =~= seq![
        base[0] + du,
        base[1] + dv,
        base[2] + dw,
    ]);
}

/// A cell's hash takes in the class first, and then its coordinates one after the
/// other, each by a step of the chain. Classes hash apart by the golden ratio's
/// bits.
pub proof fn law_cell_hash_takes_in_each_coordinate(seed: u32, class: u32, x: u32, y: u32, z: u32)
    ensures
        ({
            let m = 0x1_0000_0000int;
            let start = pcg(seed ^ (((class * 0x9E37_79B9) % m) as u32));
            let on_u = pcg(((start + x) % m) as u32);
            let on_v = pcg(((on_u + y) % m) as u32);
            cell_hash_spec(seed, class, x, y, z) == pcg(((on_v + z) % m) as u32)
        }),
{
    let start = pcg(seed ^ class.wrapping_mul(CLASS_SEED_STRIDE));
    let on_u = pcg(start.wrapping_add(x));
    let on_v = pcg(on_u.wrapping_add(y));
    lemma_class_step(class);
    lemma_wraps(start, x);
    lemma_wraps(on_u, y);
    lemma_wraps(on_v, z);
}

proof fn lemma_class_step(class: u32)
    ensures
        class.wrapping_mul(CLASS_SEED_STRIDE) == ((class * 0x9E37_79B9) % 0x1_0000_0000) as u32,
{
}

proof fn lemma_wraps(a: u32, b: u32)
    ensures
        a.wrapping_add(b) == ((a + b) % 0x1_0000_0000) as u32,
{
}

/// The classes scattered are those asked for, held between one and six.
pub proof fn law_classes_are_one_to_six(classes: u32)
    ensures
        1 <= clamp_classes(classes) <= 6,
        1 <= classes <= 6 ==> clamp_classes(classes) == classes,
        classes > 6 ==> clamp_classes(classes) == 6,
{
}

/// A cell of craters hashes by its three coordinates, each in its own place,
/// and draws its numbers from that hash.
pub proof fn law_craters_hash_in_place(seed: u32, class: u32, x: i32, y: i32, z: i32, r: u32)
    requires
        call_ensures(cell_hash, (seed, class, [x, y, z]), r),
    ensures
        r == cell_hash_spec(seed, class, x as u32, y as u32, z as u32),
{
    let cell: [i32; 3] = [x, y, z];
    assert(cell@[0] == x && cell@[1] == y && cell@[2] == z);
}

} // verus!
