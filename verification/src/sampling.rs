//! What an evaluation of the graph decides by comparing, as against computing.
use vstd::arithmetic::power2::pow2;
use vstd::prelude::*;

use crate::color::Color;
use crate::kind::{Axis, ColorStop, CoordMode, EdgeMode, MinMaxMode, Transform, EXTEND_LIMIT_BITS};
use crate::scalar::{law_clamping_to_the_unit, scaled_magnitude, Scalar, ONE_BITS};

verus! {

/// How many cells the grid for unconnected inputs has along a unit.
pub const MISSING_CELLS: u32 = 16;

/// The bits of the lightness of magenta, 0.7017.
pub const MAGENTA_L_BITS: u32 = 0x3f33_a29c;

/// The bits of the chroma of magenta, 0.3223.
pub const MAGENTA_CHROMA_BITS: u32 = 0x3ea5_0481;

/// The bits of the hue of magenta, 328.36.
pub const MAGENTA_HUE_BITS: u32 = 0x43a4_2e14;

/// The bits of -7.5, the least u or v at which a radial transform may sample.
pub const EXTEND_LOW_BITS: u32 = 0xc0f0_0000;

/// The bits of 8.5, the greatest u or v at which a radial transform may sample.
pub const EXTEND_HIGH_BITS: u32 = 0x4108_0000;

/// The color of the grid for unconnected inputs at a cell: magenta and black by
/// turns along every axis.
pub open spec fn missing_color(cells: Seq<i64>) -> Color {
    if (cells[0] + cells[1] + cells[2]) % 2 == 0 {
        Color {
            l: Scalar { bits: MAGENTA_L_BITS },
            chroma: Scalar { bits: MAGENTA_CHROMA_BITS },
            hue: Scalar { bits: MAGENTA_HUE_BITS },
            alpha: Scalar::one(),
        }
    } else {
        Color::black()
    }
}

fn is_odd(c: i64) -> (r: bool)
    ensures
        r == (c as int % 2 == 1),
{
    assert(c & 1 == 0 || c & 1 == 1) by (bit_vector);
    let half: i64 = c >> 1;
    assert(c == 2 * half + (c & 1)) by (bit_vector)
        requires
            half == c >> 1,
    ;
    c & 1 == 1
}

/// The color of the grid for unconnected inputs at a cell.
pub fn missing_texture(cells: [i64; 3]) -> (r: Color)
    ensures
        r == missing_color(cells@),
{
    let mut odd: bool = is_odd(cells[0]);
    if is_odd(cells[1]) {
        odd = !odd;
    }
    if is_odd(cells[2]) {
        odd = !odd;
    }
    if odd {
        Color::black()
    } else {
        Color::new(
            Scalar::from_bits(MAGENTA_L_BITS),
            Scalar::from_bits(MAGENTA_CHROMA_BITS),
            Scalar::from_bits(MAGENTA_HUE_BITS),
            Scalar::one(),
        )
    }
}

/// Neighboring cells of the grid have different colors.
pub proof fn law_grid_alternates(cells: Seq<i64>, axis: int)
    requires
        cells.len() == 3,
        0 <= axis < 3,
        cells[axis] < i64::MAX,
    ensures
        missing_color(cells) != missing_color(cells.update(axis, (cells[axis] + 1) as i64)),
{
}

/// The stops between which a ramp is sampled at `u`, looked for from the stop
/// `i` on.
pub open spec fn bracket_from(stops: Seq<ColorStop>, u: Scalar, i: int) -> (int, int)
    decreases stops.len() - i,
{
    let n = stops.len() as int;
    if i >= n - 1 {
        (0, n - 1)
    } else {
        let (a, b) = (stops[i].t, stops[i + 1].t);
        if a.le_spec(u) && u.le_spec(b) {
            (i, i + 1)
        } else if u.lt_spec(a) && i == 0 {
            (0, 1)
        } else if b.lt_spec(u) && i == n - 2 {
            (n - 2, n - 1)
        } else {
            bracket_from(stops, u, i + 1)
        }
    }
}

/// The stops between which a ramp is sampled at `u`: the first two around it,
/// or the two at the end that it lies past.
pub fn ramp_bracket(stops: &Vec<ColorStop>, u: Scalar) -> (r: (usize, usize))
    requires
        stops@.len() >= 2,
    ensures
        (r.0 as int, r.1 as int) == bracket_from(stops@, u, 0),
        r.0 <= r.1 < stops@.len(),
{
    let n: usize = stops.len();
    let mut i: usize = 0;
    while i < n - 1
        invariant
            n == stops@.len(),
            n >= 2,
            i <= n - 1,
            bracket_from(stops@, u, 0) == bracket_from(stops@, u, i as int),
        decreases n - i,
    {
        let (a, b) = (stops[i].t, stops[i + 1].t);
        if a.le(u) && u.le(b) {
            return (i, i + 1);
        }
        if u.lt(a) && i == 0 {
            return (0, 1);
        }
        if b.lt(u) && i == n - 2 {
            return (n - 2, n - 1);
        }
        i += 1;
    }
    (0, n - 1)
}

/// The stops' places do not go back, and all are numbers.
pub open spec fn stops_ascend(stops: Seq<ColorStop>) -> bool {
    forall|i: int, j: int|
        #![trigger stops[i], stops[j]]
        0 <= i <= j < stops.len() ==> stops[i].t.le_spec(stops[j].t)
}

/// A ramp whose stops ascend is sampled between two successive stops, which lie
/// on both sides of the sample. Past either end those are the two at that end.
pub proof fn law_ramp_is_sampled_between_its_stops(stops: Seq<ColorStop>, u: Scalar)
    requires
        stops.len() >= 2,
        stops_ascend(stops),
        !u.is_nan_spec(),
    ensures
        ({
            let (lo, hi) = bracket_from(stops, u, 0);
            let n = stops.len() as int;
            &&& hi == lo + 1
            &&& 0 <= lo < n - 1
            &&& u.lt_spec(stops[0].t) ==> lo == 0
            &&& stops[n - 1].t.lt_spec(u) ==> lo == n - 2
            &&& stops[0].t.le_spec(u) && u.le_spec(stops[n - 1].t) ==> stops[lo].t.le_spec(u)
                && u.le_spec(stops[hi].t)
        }),
{
    let n = stops.len() as int;
    assert(stops[0].t.le_spec(stops[n - 1].t));
    assert(stops[0].t.le_spec(stops[1].t));
    if !u.lt_spec(stops[0].t) {
        lemma_bracket_found(stops, u, 0);
    }
}

proof fn lemma_bracket_found(stops: Seq<ColorStop>, u: Scalar, i: int)
    requires
        stops.len() >= 2,
        stops_ascend(stops),
        !u.is_nan_spec(),
        0 <= i < stops.len() - 1,
        stops[i].t.le_spec(u),
    ensures
        ({
            let (lo, hi) = bracket_from(stops, u, i);
            let n = stops.len() as int;
            &&& hi == lo + 1
            &&& i <= lo < n - 1
            &&& stops[n - 1].t.lt_spec(u) ==> lo == n - 2
            &&& u.le_spec(stops[n - 1].t) ==> stops[lo].t.le_spec(u) && u.le_spec(stops[hi].t)
        }),
    decreases stops.len() - i,
{
    let n = stops.len() as int;
    assert(stops[i + 1].t.le_spec(stops[n - 1].t));
    if !u.le_spec(stops[i + 1].t) && i < n - 2 {
        lemma_bracket_found(stops, u, i + 1);
    }
}

/// One axis of a point.
pub open spec fn component(p: Seq<Scalar>, axis: Axis) -> Scalar {
    match axis {
        Axis::U => p[0],
        Axis::V => p[1],
        Axis::W => p[2],
    }
}

/// One axis of a point, as a coordinate layer reads it.
pub fn coordinate_of(p: [Scalar; 3], axis: Axis) -> (r: Scalar)
    ensures
        r == component(p@, axis),
{
    match axis {
        Axis::U => p[0],
        Axis::V => p[1],
        Axis::W => p[2],
    }
}

/// A point after a transform's coordinate mode, `radius` being its distance from
/// the origin.
pub open spec fn arranged(mode: CoordMode, p: Seq<Scalar>, radius: Scalar) -> Seq<Scalar> {
    let zero = Scalar::zero();
    match mode {
        CoordMode::Passthrough => seq![p[0], p[1], p[2]],
        CoordMode::Permute(axes) => seq![
            component(p, axes@[0]),
            component(p, axes@[1]),
            component(p, axes@[2]),
        ],
        CoordMode::Radial { into, .. } => match into {
            Axis::U => seq![radius, zero, zero],
            Axis::V => seq![zero, radius, zero],
            Axis::W => seq![zero, zero, radius],
        },
    }
}

/// A point after a transform's coordinate mode.
pub fn arrange(mode: CoordMode, p: [Scalar; 3], radius: Scalar) -> (r: [Scalar; 3])
    ensures
        r@ == arranged(mode, p@, radius),
{
    let zero = Scalar::zero();
    let r = match mode {
        CoordMode::Passthrough => [p[0], p[1], p[2]],
        CoordMode::Permute(axes) => [
            coordinate_of(p, axes[0]),
            coordinate_of(p, axes[1]),
            coordinate_of(p, axes[2]),
        ],
        CoordMode::Radial { into, .. } => match into {
            Axis::U => [radius, zero, zero],
            Axis::V => [zero, radius, zero],
            Axis::W => [zero, zero, radius],
        },
    };
    assert(r@ =~= arranged(mode, p@, radius));
    r
}

/// `v` lies outside of what a radial transform may sample.
pub open spec fn past_limit(v: Scalar) -> bool {
    v.lt_spec(Scalar { bits: EXTEND_LOW_BITS }) || (Scalar { bits: EXTEND_HIGH_BITS }).lt_spec(v)
}

/// Where a transform that moved the sample point to `p` reads its source; none
/// where the grid for unconnected inputs shows instead.
pub open spec fn transform_reads(t: Transform, p: Seq<Scalar>) -> Option<Seq<Scalar>> {
    match t.edge_mode {
        EdgeMode::Clamp => Some(seq![p[0].clamp_unit_spec(), p[1].clamp_unit_spec(), p[2]]),
        EdgeMode::Extend => if t.coord_mode is Radial && (past_limit(p[0]) || past_limit(p[1])) {
            None
        } else {
            Some(seq![p[0], p[1], p[2]])
        },
    }
}

fn is_past_limit(v: Scalar) -> (r: bool)
    ensures
        r == past_limit(v),
{
    v.lt(Scalar::from_bits(EXTEND_LOW_BITS)) || Scalar::from_bits(EXTEND_HIGH_BITS).lt(v)
}

/// Where a transform that moved the sample point to `p` reads its source.
/// Extending is unbounded for affine modes; radial ones show the grid for
/// unconnected inputs past the limit.
pub fn transform_source_point(t: &Transform, p: [Scalar; 3]) -> (r: Option<[Scalar; 3]>)
    ensures
        match (r, transform_reads(*t, p@)) {
            (Some(q), Some(want)) => q@ == want,
            (None, None) => true,
            _ => false,
        },
{
    match t.edge_mode {
        EdgeMode::Clamp => {
            let q = [p[0].clamp_unit(), p[1].clamp_unit(), p[2]];
            assert(q@ =~= seq![p@[0].clamp_unit_spec(), p@[1].clamp_unit_spec(), p@[2]]);
            Some(q)
        },
        EdgeMode::Extend => {
            let radial = match t.coord_mode {
                CoordMode::Radial { .. } => true,
                _ => false,
            };
            if radial && (is_past_limit(p[0]) || is_past_limit(p[1])) {
                None
            } else {
                let q = [p[0], p[1], p[2]];
                assert(q@ =~= seq![p@[0], p@[1], p@[2]]);
                Some(q)
            }
        },
    }
}

/// A clamping transform reads its source within the unit square.
pub proof fn law_clamping_stays_in_the_unit_square(t: Transform, p: Seq<Scalar>)
    requires
        t.edge_mode == EdgeMode::Clamp,
        !p[0].is_nan_spec(),
        !p[1].is_nan_spec(),
    ensures
        ({
            let q = transform_reads(t, p)->0;
            &&& Scalar::zero().le_spec(q[0]) && q[0].le_spec(Scalar::one())
            &&& Scalar::zero().le_spec(q[1]) && q[1].le_spec(Scalar::one())
        }),
{
    crate::scalar::lemma_magnitudes_keep_order(0, ONE_BITS);
}

/// No coordinate of the point lies outside of the rectangle.
pub open spec fn in_rectangle(p: Seq<Scalar>, low: Seq<Scalar>, high: Seq<Scalar>) -> bool {
    !(p[0].lt_spec(low[0]) || high[0].lt_spec(p[0]) || p[1].lt_spec(low[1]) || high[1].lt_spec(
        p[1],
    ))
}

/// True where a warped point lies in the rectangle that its source covers. A
/// coordinate that is no number is not outside.
pub fn warp_in_bounds(p: [Scalar; 3], low: [Scalar; 2], high: [Scalar; 2]) -> (r: bool)
    ensures
        r == in_rectangle(p@, low@, high@),
{
    !(p[0].lt(low[0]) || high[0].lt(p[0]) || p[1].lt(low[1]) || high[1].lt(p[1]))
}

/// The first of two inputs is chosen.
pub open spec fn first_is_chosen(mode: MinMaxMode, a: Scalar, b: Scalar) -> bool {
    match mode {
        MinMaxMode::Min => a.le_spec(b),
        MinMaxMode::Max => b.le_spec(a),
    }
}

/// True where the first of two inputs is chosen. It wins ties.
pub fn first_wins(mode: MinMaxMode, a: Scalar, b: Scalar) -> (r: bool)
    ensures
        r == first_is_chosen(mode, a, b),
{
    match mode {
        MinMaxMode::Min => a.le(b),
        MinMaxMode::Max => b.le(a),
    }
}

/// A permutation gives each coordinate of the arranged point the coordinate of
/// the moved point on the axis that it names there.
pub proof fn law_permuting_takes_each_axis(
    axes: [Axis; 3],
    p: Seq<Scalar>,
    radius: Scalar,
    k: int,
)
    requires
        p.len() == 3,
        0 <= k < 3,
    ensures
        ({
            let q = arranged(CoordMode::Permute(axes), p, radius);
            &&& q.len() == 3
            &&& axes@[k] == Axis::U ==> q[k] == p[0]
            &&& axes@[k] == Axis::V ==> q[k] == p[1]
            &&& axes@[k] == Axis::W ==> q[k] == p[2]
        }),
{
}

/// A permutation is undone by the one that looks each axis up where the first
/// put it.
pub proof fn law_permuting_is_undone_by_the_inverse(
    axes: [Axis; 3],
    back: [Axis; 3],
    p: Seq<Scalar>,
    radius: Scalar,
)
    requires
        p.len() == 3,
        forall|k: int|
            0 <= k < 3 ==> match #[trigger] back@[k] {
                Axis::U => axes@[0],
                Axis::V => axes@[1],
                Axis::W => axes@[2],
            } == (if k == 0 {
                Axis::U
            } else if k == 1 {
                Axis::V
            } else {
                Axis::W
            }),
    ensures
        arranged(
            CoordMode::Permute(back),
            arranged(CoordMode::Permute(axes), p, radius),
            radius,
        ) == p,
{
    let q = arranged(CoordMode::Permute(axes), p, radius);
    let r = arranged(CoordMode::Permute(back), q, radius);
    assert forall|k: int| 0 <= k < 3 implies r[k] == p[k] by {
        assert(back@[k] == back@[k]);
        law_permuting_takes_each_axis(axes, p, radius, 0);
        law_permuting_takes_each_axis(axes, p, radius, 1);
        law_permuting_takes_each_axis(axes, p, radius, 2);
        law_permuting_takes_each_axis(back, q, radius, k);
    }
    assert(r =~= p);
}

/// Passing through leaves the point as it was moved. A radial mode puts its
/// distance on the axis that it names, and 0 on the other two.
pub proof fn law_passing_through_and_radial(
    mode: CoordMode,
    p: Seq<Scalar>,
    radius: Scalar,
)
    requires
        p.len() == 3,
    ensures
        ({
            let q = arranged(mode, p, radius);
            let zero = Scalar { bits: 0 };
            &&& q.len() == 3
            &&& mode is Passthrough ==> q == p
            &&& mode matches CoordMode::Radial { into, .. } ==> {
                &&& q[0] == if into == Axis::U { radius } else { zero }
                &&& q[1] == if into == Axis::V { radius } else { zero }
                &&& q[2] == if into == Axis::W { radius } else { zero }
            }
        }),
{
    let q = arranged(mode, p, radius);
    assert(mode is Passthrough ==> q =~= p);
}

/// A coordinate layer reads the coordinate on its axis, so a permutation's
/// coordinates are what coordinate layers on its axes read.
pub proof fn law_coordinates_read_their_axis(p: Seq<Scalar>)
    requires
        p.len() == 3,
    ensures
        component(p, Axis::U) == p[0],
        component(p, Axis::V) == p[1],
        component(p, Axis::W) == p[2],
{
}

/// A clamping transform reads each of u and v where it is, if that is within the
/// unit square, and else at the nearer edge; it never moves w. An extending one
/// reads where the point is, or nothing at all.
pub proof fn law_edges_hold_or_let_through(t: Transform, p: Seq<Scalar>)
    requires
        p.len() == 3,
    ensures
        ({
            let q = transform_reads(t, p);
            &&& t.edge_mode == EdgeMode::Extend && q is Some ==> q->0 == p
            &&& t.edge_mode == EdgeMode::Clamp ==> {
                &&& q is Some
                &&& (q->0).len() == 3
                &&& (q->0)[2] == p[2]
                &&& forall|k: int|
                    0 <= k < 2 && !p[k].is_nan_spec() ==> {
                        &&& 0 <= (#[trigger] (q->0)[k]).scaled() <= pow2(149)
                        &&& 0 <= p[k].scaled() <= pow2(149) ==> (q->0)[k] == p[k]
                        &&& p[k].scaled() < 0 ==> (q->0)[k].scaled() == 0
                        &&& p[k].scaled() > pow2(149) ==> (q->0)[k].scaled() == pow2(149)
                    }
            }
        }),
{
    law_clamping_to_the_unit(p[0]);
    law_clamping_to_the_unit(p[1]);
    let q = transform_reads(t, p);
    if t.edge_mode == EdgeMode::Extend && q is Some {
        assert(q->0 =~= p);
    }
}

/// An extending transform reads nothing exactly where it is radial and moved u or
/// v below -7.5 or above 8.5.
pub proof fn law_radial_transforms_end(t: Transform, p: Seq<Scalar>)
    requires
        p.len() == 3,
        !p[0].is_nan_spec(),
        !p[1].is_nan_spec(),
    ensures
        transform_reads(t, p) is None <==> {
            &&& t.edge_mode == EdgeMode::Extend
            &&& t.coord_mode is Radial
            &&& exists|k: int|
                0 <= k < 2 && (2 * (#[trigger] p[k]).scaled() < -15 * pow2(149) || 2 * p[k].scaled()
                    > 17 * pow2(149))
        },
{
    lemma_limits();
    if transform_reads(t, p) is None {
        if past_limit(p[0]) {
            assert(2 * p[0].scaled() < -15 * pow2(149) || 2 * p[0].scaled() > 17 * pow2(149));
        } else {
            assert(2 * p[1].scaled() < -15 * pow2(149) || 2 * p[1].scaled() > 17 * pow2(149));
        }
    }
}

/// The limits of a radial transform are -7.5 and 8.5.
pub proof fn lemma_limits()
    ensures
        2 * (Scalar { bits: EXTEND_LOW_BITS }).scaled() == -15 * pow2(149),
        2 * (Scalar { bits: EXTEND_HIGH_BITS }).scaled() == 17 * pow2(149),
        !(Scalar { bits: EXTEND_LOW_BITS }).is_nan_spec(),
        !(Scalar { bits: EXTEND_HIGH_BITS }).is_nan_spec(),
{
    vstd::arithmetic::power2::lemma2_to64();
    vstd::arithmetic::power2::lemma_pow2_adds(21, 128);
    vstd::arithmetic::power2::lemma_pow2_adds(20, 129);
    assert(scaled_magnitude(0x40f0_0000) == 0xf0_0000 * pow2(128));
    assert(scaled_magnitude(0x4108_0000) == 0x88_0000 * pow2(129));
    assert(pow2(149) == 0x20_0000 * pow2(128));
    assert(pow2(149) == 0x10_0000 * pow2(129));
}

/// A ramp is sampled before its first stop between the first two; else between
/// the first two successive stops around the sample; else past the last stop
/// between the last two; and where not even that, between the first and the last.
pub proof fn law_ramp_takes_the_first_bracket(stops: Seq<ColorStop>, u: Scalar)
    requires
        stops.len() >= 2,
    ensures
        ({
            let n = stops.len() as int;
            let r = bracket_from(stops, u, 0);
            let around = |i: int|
                0 <= i < n - 1 && stops[i].t.le_spec(u) && u.le_spec(stops[i + 1].t);
            &&& u.lt_spec(stops[0].t) ==> r == (0int, 1int)
            &&& !u.lt_spec(stops[0].t) ==> {
                &&& forall|i: int|
                    #[trigger] around(i) && (forall|j: int| 0 <= j < i ==> !#[trigger] around(j))
                        ==> r == (i, i + 1)
                &&& (forall|i: int| !#[trigger] around(i)) ==> r == if stops[n - 1].t.lt_spec(u) {
                    (n - 2, n - 1)
                } else {
                    (0int, n - 1)
                }
            }
        }),
{
    lemma_first_bracket(stops, u, 0);
}

proof fn lemma_first_bracket(stops: Seq<ColorStop>, u: Scalar, from: int)
    requires
        stops.len() >= 2,
        0 <= from <= stops.len() - 1,
    ensures
        ({
            let n = stops.len() as int;
            let r = bracket_from(stops, u, from);
            let around = |i: int|
                0 <= i < n - 1 && stops[i].t.le_spec(u) && u.le_spec(stops[i + 1].t);
            &&& from == 0 && u.lt_spec(stops[0].t) ==> r == (0int, 1int)
            &&& from > 0 || !u.lt_spec(stops[0].t) ==> {
                &&& forall|i: int|
                    from <= i && #[trigger] around(i) && (forall|j: int|
                        from <= j < i ==> !#[trigger] around(j)) ==> r == (i, i + 1)
                &&& (forall|i: int| from <= i ==> !#[trigger] around(i)) ==> r == if from < n - 1
                    && stops[n - 1].t.lt_spec(u) {
                    (n - 2, n - 1)
                } else {
                    (0int, n - 1)
                }
            }
        }),
    decreases stops.len() - from,
{
    let n = stops.len() as int;
    let around = |i: int| 0 <= i < n - 1 && stops[i].t.le_spec(u) && u.le_spec(stops[i + 1].t);
    if from < n - 1 {
        lemma_first_bracket(stops, u, from + 1);
        let here = around(from);
        assert(here == around(from));
    }
}

/// The grid's cells that lie an even number of steps from the origin are magenta,
/// opaque, and the others are black, opaque.
pub proof fn law_grid_is_magenta_and_black(cells: Seq<i64>)
    requires
        cells.len() == 3,
    ensures
        ({
            let c = missing_color(cells);
            let even = (cells[0] + cells[1] + cells[2]) % 2 == 0;
            &&& c.alpha.bits == 0x3f80_0000
            &&& even ==> c.l.bits == 0x3f33_a29c && c.chroma.bits == 0x3ea5_0481 && c.hue.bits
                == 0x43a4_2e14
            &&& !even ==> c.l.bits == 0 && c.chroma.bits == 0 && c.hue.bits == 0
        }),
{
}

/// A warped point lies in the rectangle exactly where each of u and v lies
/// between its ends, or is no number. The third coordinate plays no part.
pub proof fn law_warped_points_within_the_rectangle(
    p: Seq<Scalar>,
    low: Seq<Scalar>,
    high: Seq<Scalar>,
)
    requires
        p.len() == 3,
        low.len() == 2,
        high.len() == 2,
        forall|k: int| 0 <= k < 2 ==> !(#[trigger] low[k]).is_nan_spec(),
        forall|k: int| 0 <= k < 2 ==> !(#[trigger] high[k]).is_nan_spec(),
    ensures
        in_rectangle(p, low, high) <==> forall|k: int|
            0 <= k < 2 ==> (#[trigger] p[k]).is_nan_spec() || low[k].scaled() <= p[k].scaled()
                <= high[k].scaled(),
{
    assert(!low[0].is_nan_spec() && !low[1].is_nan_spec());
    assert(!high[0].is_nan_spec() && !high[1].is_nan_spec());
    if in_rectangle(p, low, high) {
        assert forall|k: int| 0 <= k < 2 implies (#[trigger] p[k]).is_nan_spec() || low[k].scaled()
            <= p[k].scaled() <= high[k].scaled() by {
            assert(k == 0 || k == 1);
        }
    } else {
        assert(p[0].lt_spec(low[0]) || high[0].lt_spec(p[0]) || p[1].lt_spec(low[1])
            || high[1].lt_spec(p[1]));
        assert(p[0] == p[0] && p[1] == p[1]);
    }
}

/// Of two numbers, the smaller or the larger is chosen, as the mode says, and the
/// first of equal ones; where either is no number, the second.
pub proof fn law_choice_takes_the_extreme(mode: MinMaxMode, a: Scalar, b: Scalar)
    ensures
        ({
            let first = first_is_chosen(mode, a, b);
            &&& a.is_nan_spec() || b.is_nan_spec() ==> !first
            &&& !a.is_nan_spec() && !b.is_nan_spec() ==> {
                &&& a.scaled() == b.scaled() ==> first
                &&& a.scaled() < b.scaled() ==> first == (mode == MinMaxMode::Min)
                &&& a.scaled() > b.scaled() ==> first == (mode == MinMaxMode::Max)
            }
        }),
{
}

/// The point that a permuting transform samples at has on each axis the
/// coordinate that the permutation names, a passing one leaves the point, and a
/// radial one has its distance on its axis and 0 on the others.
pub proof fn law_arranging_moves_coordinates(
    mode: CoordMode,
    p: [Scalar; 3],
    radius: Scalar,
    q: [Scalar; 3],
    axis: Axis,
    s: Scalar,
)
    requires
        call_ensures(arrange, (mode, p, radius), q),
        call_ensures(coordinate_of, (p, axis), s),
    ensures
        s == match axis {
            Axis::U => p[0],
            Axis::V => p[1],
            Axis::W => p[2],
        },
        mode matches CoordMode::Permute(axes) ==> {
            &&& axes[0] == axis ==> q[0] == s
            &&& axes[1] == axis ==> q[1] == s
            &&& axes[2] == axis ==> q[2] == s
        },
        mode is Passthrough ==> q[0] == p[0] && q[1] == p[1] && q[2] == p[2],
        mode matches CoordMode::Radial { into, .. } ==> {
            &&& q[0] == if into is U { radius } else { Scalar { bits: 0 } }
            &&& q[1] == if into is V { radius } else { Scalar { bits: 0 } }
            &&& q[2] == if into is W { radius } else { Scalar { bits: 0 } }
        },
{
    let want = arranged(mode, p@, radius);
    assert(q@[0] == want[0] && q@[1] == want[1] && q@[2] == want[2]);
    assert(p@[0] == p[0] && p@[1] == p[1] && p@[2] == p[2]);
}

/// Taking the smaller takes the first of two numbers exactly where it is no
/// larger, and taking the larger where it is no smaller; so of two different
/// numbers the two modes take different ones.
pub proof fn law_the_extreme_wins(a: Scalar, b: Scalar, least: bool, most: bool)
    requires
        call_ensures(first_wins, (MinMaxMode::Min, a, b), least),
        call_ensures(first_wins, (MinMaxMode::Max, a, b), most),
        !a.is_nan_spec(),
        !b.is_nan_spec(),
    ensures
        least <==> a.scaled() <= b.scaled(),
        most <==> a.scaled() >= b.scaled(),
{
}

/// The stand-in for an unconnected input is a checkerboard in space: its two
/// colors alternate from one cell to the next along each axis.
pub proof fn law_neighboring_cells_differ(
    cells: [i64; 3],
    next: [i64; 3],
    axis: int,
    c: Color,
    d: Color,
)
    requires
        0 <= axis < 3,
        cells@[axis] < i64::MAX,
        next@ == cells@.update(axis, (cells@[axis] + 1) as i64),
        call_ensures(missing_texture, (cells,), c),
        call_ensures(missing_texture, (next,), d),
    ensures
        c != d,
{
    law_grid_alternates(cells@, axis);
}

/// A warped point is read where it lies within both sides of the rectangle, its
/// edges included.
pub proof fn law_warped_points_are_read_within(
    p: [Scalar; 3],
    low: [Scalar; 2],
    high: [Scalar; 2],
    r: bool,
)
    requires
        call_ensures(warp_in_bounds, (p, low, high), r),
        !p[0].is_nan_spec() && !low[0].is_nan_spec() && !high[0].is_nan_spec(),
        !p[1].is_nan_spec() && !low[1].is_nan_spec() && !high[1].is_nan_spec(),
    ensures
        r <==> low[0].scaled() <= p[0].scaled() <= high[0].scaled() && low[1].scaled()
            <= p[1].scaled() <= high[1].scaled(),
{
}

/// What a radial transform may reach ends 8 away from the middle of the unit
/// square on either side, and the stand-in for an unconnected input has 16
/// cells to the unit.
pub proof fn law_limits_lie_eight_from_the_middle()
    ensures
        (Scalar { bits: EXTEND_LIMIT_BITS }).scaled() == 8 * pow2(149),
        2 * (Scalar { bits: EXTEND_HIGH_BITS }).scaled() == 2 * (Scalar {
            bits: EXTEND_LIMIT_BITS,
        }).scaled() + pow2(149),
        2 * (Scalar { bits: EXTEND_LOW_BITS }).scaled() == pow2(149) - 2 * (Scalar {
            bits: EXTEND_LIMIT_BITS,
        }).scaled(),
        MISSING_CELLS == 16,
{
    lemma_limits();
    vstd::arithmetic::power2::lemma2_to64();
    vstd::arithmetic::power2::lemma_pow2_adds(20, 129);
    assert(scaled_magnitude(0x4100_0000) == 0x80_0000 * pow2(129));
    assert(pow2(149) == 0x10_0000 * pow2(129));
}

} // verus!
