//! The part of the plane that each layer is computed over.
//!
//! Every layer starts at the unit square. A walk against the order of the
//! layers widens each layer's rectangle by what its readers sample. Most
//! layers sample at their own coordinates; an extending transform and a warp
//! sample elsewhere, and where exactly is arithmetic that the caller does
//! between two steps of a [`DomainWalk`].
use std::collections::HashMap;

use vstd::arithmetic::power2::pow2;
use vstd::prelude::*;

use crate::graph::{ids_ascend, Graph};
use crate::id::{raw_ids, LayerId};
use crate::kind::{opt_ids, Axis, CoordMode, EdgeMode, LayerKind, Transform, Warp};
use crate::reach::{dependencies_first, reads};
use crate::sampling::{
    arranged, lemma_limits, transform_reads, EXTEND_HIGH_BITS, EXTEND_LOW_BITS,
};
use crate::scalar::{
    law_named_numbers, law_numbers_are_ordered, law_smaller_and_larger,
    lemma_magnitudes_keep_order, Scalar, INFINITY_BITS, SIGN_BIT,
};

verus! {

/// UV rectangle a layer's bake covers.
#[derive(Clone, Copy, Debug, PartialEq)]
pub struct Domain {
    pub min: [Scalar; 2],
    pub max: [Scalar; 2],
}

impl Domain {
    /// The corners, least u, least v, greatest u, greatest v.
    pub open spec fn corners(self) -> Seq<Scalar> {
        self.min@ + self.max@
    }

    /// True of the unit square.
    pub open spec fn is_unit(self) -> bool {
        self.min@ == seq![Scalar::zero(), Scalar::zero()] && self.max@ == seq![
            Scalar::one(),
            Scalar::one(),
        ]
    }

    /// True where the rectangle contains the unit square.
    pub open spec fn contains_unit(self) -> bool {
        &&& self.min@[0].le_spec(Scalar::zero())
        &&& self.min@[1].le_spec(Scalar::zero())
        &&& Scalar::one().le_spec(self.max@[0])
        &&& Scalar::one().le_spec(self.max@[1])
    }

    /// `c` is the smallest rectangle around `a` and `b`.
    pub open spec fn is_union(a: Domain, b: Domain, c: Domain) -> bool {
        &&& c.min@ == seq![a.min@[0].min_spec(b.min@[0]), a.min@[1].min_spec(b.min@[1])]
        &&& c.max@ == seq![a.max@[0].max_spec(b.max@[0]), a.max@[1].max_spec(b.max@[1])]
    }

    /// The unit square.
    pub fn unit() -> (r: Domain)
        ensures
            r.is_unit(),
            r.contains_unit(),
    {
        let r = Domain {
            min: [Scalar::zero(), Scalar::zero()],
            max: [Scalar::one(), Scalar::one()],
        };
        r
    }

    /// The smallest rectangle around both.
    pub fn union(self, other: Domain) -> (r: Domain)
        ensures
            Domain::is_union(self, other, r),
            self.contains_unit() ==> r.contains_unit(),
    {
        let r = Domain {
            min: [self.min[0].min(other.min[0]), self.min[1].min(other.min[1])],
            max: [self.max[0].max(other.max[0]), self.max[1].max(other.max[1])],
        };
        r
    }
}

/// The corners of the unit square.
pub open spec fn unit_corners() -> Seq<Scalar> {
    seq![Scalar::zero(), Scalar::zero(), Scalar::one(), Scalar::one()]
}

/// The corners of the smallest rectangle around two.
pub open spec fn union_corners(a: Seq<Scalar>, b: Seq<Scalar>) -> Seq<Scalar> {
    seq![
        a[0].min_spec(b[0]),
        a[1].min_spec(b[1]),
        a[2].max_spec(b[2]),
        a[3].max_spec(b[3]),
    ]
}

/// The rectangles after each of `ids` that has one was widened by `rect`.
pub open spec fn widened(
    rects: Map<u64, Seq<Scalar>>,
    ids: Seq<LayerId>,
    rect: Seq<Scalar>,
) -> Map<u64, Seq<Scalar>>
    decreases ids.len(),
{
    if ids.len() == 0 {
        rects
    } else {
        let before = widened(rects, ids.drop_last(), rect);
        let x = ids.last().0;
        if before.dom().contains(x) {
            before.insert(x, union_corners(before[x], rect))
        } else {
            before
        }
    }
}

/// The inputs that a layer samples at its own coordinates. A gradient map's
/// palette is looked up by value, so the unit square does for it.
pub open spec fn read_in_place(kind: LayerKind) -> Seq<LayerId> {
    match kind {
        LayerKind::Transform(_) => Seq::empty(),
        LayerKind::GradientMap(m) => opt_ids(m.value),
        LayerKind::Warp(w) => opt_ids(w.by),
        _ => kind.input_ids(),
    }
}

/// A rectangle that takes arithmetic to find.
#[derive(Clone, Copy, Debug)]
pub enum DomainRequest {
    /// What an extending transform over `domain` samples `source` over. The
    /// caller leaves the source alone where that is empty or not finite.
    Transform { transform: Transform, source: LayerId, domain: Domain },
    /// `domain` grown by what a warp may displace by.
    Warp { warp: Warp, source: LayerId, domain: Domain },
}

/// What a layer of that kind over `domain` asks the caller to find.
pub open spec fn request_of(kind: LayerKind, domain: Domain) -> Option<DomainRequest> {
    match kind {
        LayerKind::Transform(t) => if t.edge_mode == EdgeMode::Extend && t.source is Some {
            Some(DomainRequest::Transform { transform: t, source: t.source->0, domain: domain })
        } else {
            None
        },
        LayerKind::Warp(w) => if w.source is Some {
            Some(DomainRequest::Warp { warp: w, source: w.source->0, domain: domain })
        } else {
            None
        },
        _ => None,
    }
}

/// The inputs that a layer of that kind samples elsewhere.
pub open spec fn read_elsewhere(kind: LayerKind) -> Seq<LayerId> {
    match kind {
        LayerKind::Transform(t) => if t.edge_mode == EdgeMode::Extend {
            opt_ids(t.source)
        } else {
            Seq::empty()
        },
        LayerKind::Warp(w) => opt_ids(w.source),
        _ => Seq::empty(),
    }
}

/// Finds the rectangle of every layer, last layer of the order first.
#[derive(Clone, Debug)]
pub struct DomainWalk {
    pub order: Vec<LayerId>,
    /// How many layers at the front of the order are still to be visited.
    pub left: usize,
    pub domains: HashMap<u64, Domain>,
}

/// `h` comes of `g` by visiting the last layer that is left, asking for `r`.
pub open spec fn visited(
    g: DomainWalk,
    h: DomainWalk,
    graph: Graph,
    r: Option<DomainRequest>,
) -> bool {
    let id = g.order@[g.left - 1];
    let domain = g.domains@[id.0];
    &&& h.order == g.order
    &&& h.left == g.left - 1
    &&& match graph.layer(id) {
        Some(layer) => {
            &&& h.rects() == widened(g.rects(), read_in_place(layer.kind), domain.corners())
            &&& r == request_of(layer.kind, domain)
        },
        None => h.domains == g.domains && r is None,
    }
}

/// `h` comes of `g` by widening the rectangle of `source`.
pub open spec fn widened_at(
    g: DomainWalk,
    h: DomainWalk,
    source: LayerId,
    request: Domain,
) -> bool {
    &&& h.order == g.order
    &&& h.left == g.left
    &&& h.rects() == (if g.domains@.dom().contains(source.0) {
        g.rects().insert(
            source.0,
            union_corners(g.domains@[source.0].corners(), request.corners()),
        )
    } else {
        g.rects()
    })
}

impl DomainWalk {
    /// The corners of every layer's rectangle.
    pub open spec fn rects(&self) -> Map<u64, Seq<Scalar>> {
        Map::new(
            |id: u64| self.domains@.dom().contains(id),
            |id: u64| self.domains@[id].corners(),
        )
    }

    /// Every layer of the order has a rectangle, which contains the unit
    /// square; no other layer has one.
    pub open spec fn well_formed(&self) -> bool {
        &&& self.left <= self.order@.len()
        &&& self.domains@.dom() == raw_ids(self.order@).to_set()
        &&& forall|id: u64| #[trigger]
            self.domains@.dom().contains(id) ==> self.domains@[id].contains_unit()
    }

    /// A walk over the layers of an order, all at the unit square.
    pub fn new(order: &Vec<LayerId>) -> (r: DomainWalk)
        ensures
            r.well_formed(),
            r.order@ == order@,
            r.left == order@.len(),
            forall|id: u64| #[trigger] r.domains@.dom().contains(id) ==> r.domains@[id].is_unit(),
    {
        let mut domains: HashMap<u64, Domain> = HashMap::new();
        let mut list: Vec<LayerId> = Vec::new();
        let mut i: usize = 0;
        assert(domains@.dom() =~= raw_ids(list@).to_set());
        while i < order.len()
            invariant
                i <= order@.len(),
                list@ == order@.take(i as int),
                domains@.dom() == raw_ids(list@).to_set(),
                forall|id: u64| #[trigger]
                    domains@.dom().contains(id) ==> domains@[id].is_unit()
                        && domains@[id].contains_unit(),
            decreases order@.len() - i,
        {
            let ghost before = raw_ids(list@);
            domains.insert(order[i].0, Domain::unit());
            list.push(order[i]);
            proof {
                let after = raw_ids(list@);
                assert(list@ =~= order@.take(i + 1));
                assert(after =~= before.push(order@[i as int].0));
                assert forall|x: u64| domains@.dom().contains(x) <==> after.to_set().contains(
                    x,
                ) by {
                    if before.contains(x) {
                        let q = choose|q: int| 0 <= q < before.len() && before[q] == x;
                        assert(after[q] == x);
                    }
                    if x == order@[i as int].0 {
                        assert(after[before.len() as int] == x);
                    }
                    if after.contains(x) && x != order@[i as int].0 {
                        let q = choose|q: int| 0 <= q < after.len() && after[q] == x;
                        assert(before[q] == x);
                    }
                }
                assert(domains@.dom() =~= after.to_set());
            }
            i += 1;
        }
        assert(order@.take(i as int) =~= order@);
        DomainWalk { order: list, left: order.len(), domains }
    }

    /// True once every layer was visited.
    pub fn is_done(&self) -> (r: bool)
        ensures
            r == (self.left == 0),
    {
        self.left == 0
    }

    /// Visits the next layer: widens the inputs that it samples in place by its
    /// own rectangle, and hands out what the caller is to find for an input
    /// that it samples elsewhere.
    pub fn step(&mut self, graph: &Graph) -> (r: Option<DomainRequest>)
        requires
            ids_ascend(graph.layers@),
            old(self).well_formed(),
            old(self).left > 0,
        ensures
            final(self).well_formed(),
            visited(*old(self), *final(self), *graph, r),
    {
        self.left = self.left - 1;
        let id = self.order[self.left];
        proof {
            assert(raw_ids(self.order@)[self.left as int] == id.0);
            assert(raw_ids(self.order@).to_set().contains(id.0));
        }
        let domain: Domain = *self.domains.get(&id.0).unwrap();
        let layer = match graph.get(id) {
            Some(layer) => layer,
            None => {
                return None;
            },
        };
        let mut same: Vec<LayerId> = Vec::new();
        let request: Option<DomainRequest> = match &layer.kind {
            LayerKind::Transform(t) => match t.source {
                Some(source) if t.edge_mode == EdgeMode::Extend => Some(
                    DomainRequest::Transform { transform: *t, source, domain },
                ),
                _ => None,
            },
            LayerKind::GradientMap(m) => {
                crate::kind::push_opt(&mut same, m.value);
                None
            },
            LayerKind::Warp(w) => {
                crate::kind::push_opt(&mut same, w.by);
                match w.source {
                    Some(source) => Some(DomainRequest::Warp { warp: *w, source, domain }),
                    None => None,
                }
            },
            kind => {
                same = kind.inputs();
                None
            },
        };
        assert(same@ =~= read_in_place(layer.kind));
        self.widen_all(&same, domain);
        request
    }

    /// Widens each of `ids` that has a rectangle.
    fn widen_all(&mut self, ids: &Vec<LayerId>, request: Domain)
        requires
            old(self).well_formed(),
        ensures
            final(self).well_formed(),
            final(self).order == old(self).order,
            final(self).left == old(self).left,
            final(self).rects() == widened(old(self).rects(), ids@, request.corners()),
    {
        let mut i: usize = 0;
        assert(ids@.take(0) =~= Seq::<LayerId>::empty());
        while i < ids.len()
            invariant
                i <= ids@.len(),
                self.well_formed(),
                self.order == old(self).order,
                self.left == old(self).left,
                self.rects() == widened(
                    old(self).rects(),
                    ids@.take(i as int),
                    request.corners(),
                ),
            decreases ids@.len() - i,
        {
            assert(ids@.take(i + 1).drop_last() =~= ids@.take(i as int));
            self.widen(ids[i], request);
            i += 1;
        }
        assert(ids@.take(i as int) =~= ids@);
    }

    /// Widens a layer's rectangle, if it has one, by what was found for it.
    pub fn widen(&mut self, source: LayerId, request: Domain)
        requires
            old(self).well_formed(),
        ensures
            final(self).well_formed(),
            widened_at(*old(self), *final(self), source, request),
    {
        let before: Domain = match self.domains.get(&source.0) {
            Some(d) => *d,
            None => {
                return;
            },
        };
        let after = before.union(request);
        self.domains.insert(source.0, after);
        proof {
            assert(self.domains@.dom() =~= old(self).domains@.dom());
            assert(after.corners() =~= union_corners(before.corners(), request.corners()));
            assert(self.rects() =~= old(self).rects().insert(
                source.0,
                union_corners(before.corners(), request.corners()),
            ));
        }
    }
}

/// What a layer asks of its inputs concerns layers earlier in the order, so a
/// layer's rectangle is final when the walk visits it.
pub proof fn law_rectangle_is_final_when_visited(
    graph: Graph,
    order: Seq<u64>,
    i: int,
    source: LayerId,
)
    requires
        ids_ascend(graph.layers@),
        dependencies_first(graph.edges(), order),
        0 <= i < order.len(),
        graph.layer(LayerId(order[i])) is Some,
        ({
            let kind = graph.layer(LayerId(order[i]))->0.kind;
            read_in_place(kind).contains(source) || read_elsewhere(kind).contains(source)
        }),
    ensures
        exists|j: int| 0 <= j < i && #[trigger] order[j] == source.0,
{
    let place = crate::graph::place_of(graph.layers@, order[i]);
    let kind = graph.layers@[place].kind;
    crate::edit::lemma_layer_reads(graph.layers@, place, source.0);
    assert(kind.input_ids().contains(source)) by {
        lemma_reads_are_inputs(kind, source);
    }
    assert(reads(graph.edges(), order[i], source.0));
}

proof fn lemma_reads_are_inputs(kind: LayerKind, source: LayerId)
    requires
        read_in_place(kind).contains(source) || read_elsewhere(kind).contains(source),
    ensures
        kind.input_ids().contains(source),
{
    match kind {
        LayerKind::GradientMap(m) => {
            assert(kind.input_ids()[0] == source);
        },
        LayerKind::Warp(w) => {
            if opt_ids(w.source).contains(source) {
                assert(kind.input_ids()[0] == source);
            } else {
                let n = opt_ids(w.source).len() as int;
                assert(kind.input_ids()[n] == source);
            }
        },
        _ => {},
    }
}

/// A layer that samples no input elsewhere leaves unit squares unit squares:
/// only extending transforms and warps widen anything.
pub proof fn law_sampling_in_place_keeps_the_unit_square(
    rects: Map<u64, Seq<Scalar>>,
    ids: Seq<LayerId>,
)
    requires
        forall|id: u64| #[trigger] rects.dom().contains(id) ==> rects[id] == unit_corners(),
    ensures
        widened(rects, ids, unit_corners()) == rects,
    decreases ids.len(),
{
    if ids.len() > 0 {
        law_sampling_in_place_keeps_the_unit_square(rects, ids.drop_last());
        let x = ids.last().0;
        if rects.dom().contains(x) {
            assert(union_corners(unit_corners(), unit_corners()) =~= unit_corners());
            assert(rects.insert(x, unit_corners()) =~= rects);
        }
    }
}

/// The least of some numbers, infinity if there are none.
pub open spec fn least(vs: Seq<Scalar>) -> Scalar
    decreases vs.len(),
{
    if vs.len() == 0 {
        Scalar { bits: INFINITY_BITS }
    } else {
        least(vs.drop_last()).min_spec(vs.last())
    }
}

/// The greatest of some numbers, minus infinity if there are none.
pub open spec fn greatest(vs: Seq<Scalar>) -> Scalar
    decreases vs.len(),
{
    if vs.len() == 0 {
        Scalar { bits: (SIGN_BIT + INFINITY_BITS) as u32 }
    } else {
        greatest(vs.drop_last()).max_spec(vs.last())
    }
}

/// The first coordinates of some points.
pub open spec fn firsts(points: Seq<[Scalar; 2]>) -> Seq<Scalar> {
    points.map_values(|p: [Scalar; 2]| p@[0])
}

/// The second coordinates of some points.
pub open spec fn seconds(points: Seq<[Scalar; 2]>) -> Seq<Scalar> {
    points.map_values(|p: [Scalar; 2]| p@[1])
}

/// The smallest rectangle around some points.
pub fn bounds_of(points: &Vec<[Scalar; 2]>) -> (r: Domain)
    ensures
        r.min@ == seq![least(firsts(points@)), least(seconds(points@))],
        r.max@ == seq![greatest(firsts(points@)), greatest(seconds(points@))],
{
    let mut low = [Scalar::from_bits(INFINITY_BITS), Scalar::from_bits(INFINITY_BITS)];
    let bottom = Scalar::from_bits(SIGN_BIT + INFINITY_BITS);
    let mut high = [bottom, bottom];
    let mut i: usize = 0;
    assert(low@ =~= seq![least(firsts(points@.take(0))), least(seconds(points@.take(0)))]);
    assert(high@ =~= seq![greatest(firsts(points@.take(0))), greatest(seconds(points@.take(0)))]);
    while i < points.len()
        invariant
            i <= points@.len(),
            low@ == seq![
                least(firsts(points@.take(i as int))),
                least(seconds(points@.take(i as int))),
            ],
            high@ == seq![
                greatest(firsts(points@.take(i as int))),
                greatest(seconds(points@.take(i as int))),
            ],
        decreases points@.len() - i,
    {
        let (u, v) = (points[i][0], points[i][1]);
        low = [low[0].min(u), low[1].min(v)];
        high = [high[0].max(u), high[1].max(v)];
        proof {
            let (before, after) = (points@.take(i as int), points@.take(i + 1));
            assert(firsts(after).drop_last() =~= firsts(before));
            assert(seconds(after).drop_last() =~= seconds(before));
            assert(low@ =~= seq![least(firsts(after)), least(seconds(after))]);
            assert(high@ =~= seq![greatest(firsts(after)), greatest(seconds(after))]);
        }
        i += 1;
    }
    assert(points@.take(i as int) =~= points@);
    Domain { min: low, max: high }
}

/// The least and the greatest u or v at which anything but an affine transform
/// may sample.
pub open spec fn limits() -> (Scalar, Scalar) {
    (Scalar { bits: EXTEND_LOW_BITS }, Scalar { bits: EXTEND_HIGH_BITS })
}

/// Where along one axis of its source an extending transform samples: `bounds`
/// holds its moved corners, `reach` how far from 0 its moved w goes, and `radius`
/// how far its moved point may lie from the origin.
pub open spec fn sampled_range(
    mode: CoordMode,
    axis: int,
    bounds: Seq<Scalar>,
    reach: Scalar,
    radius: Scalar,
) -> (Scalar, Scalar) {
    let zero = Scalar::zero();
    match mode {
        CoordMode::Passthrough => (bounds[axis], bounds[axis + 2]),
        CoordMode::Permute(axes) => match axes@[axis] {
            Axis::U => (bounds[0], bounds[2]),
            Axis::V => (bounds[1], bounds[3]),
            Axis::W => (reach.negated(), reach),
        },
        CoordMode::Radial { into, .. } => if (into is U && axis == 0) || (into is V && axis == 1) {
            (zero, radius)
        } else {
            (zero, zero)
        },
    }
}

/// A range cut off at the limits.
pub open spec fn cut_off(range: (Scalar, Scalar)) -> (Scalar, Scalar) {
    (range.0.max_spec(limits().0), range.1.min_spec(limits().1))
}

/// A range that is neither empty nor infinite.
pub open spec fn is_proper(range: (Scalar, Scalar)) -> bool {
    range.0.le_spec(range.1) && range.0.is_finite_spec() && range.1.is_finite_spec()
}

/// The rectangle that an extending transform samples its source over; none where
/// it is empty or not finite. Affine modes are exact and unbounded; radial ones
/// are cut off at the limits.
pub open spec fn requested(
    mode: CoordMode,
    bounds: Seq<Scalar>,
    reach: Scalar,
    radius: Scalar,
) -> Option<Seq<Scalar>> {
    let (u, v) = (
        sampled_range(mode, 0, bounds, reach, radius),
        sampled_range(mode, 1, bounds, reach, radius),
    );
    let (u, v) = if mode is Radial {
        (cut_off(u), cut_off(v))
    } else {
        (u, v)
    };
    if is_proper(u) && is_proper(v) {
        Some(seq![u.0, v.0, u.1, v.1])
    } else {
        None
    }
}

fn find_range(mode: CoordMode, second: bool, bounds: Domain, reach: Scalar, radius: Scalar) -> (r: (
    Scalar,
    Scalar,
))
    ensures
        r == sampled_range(
            mode,
            if second {
                1
            } else {
                0
            },
            bounds.corners(),
            reach,
            radius,
        ),
{
    let zero = Scalar::zero();
    let u = (bounds.min[0], bounds.max[0]);
    let v = (bounds.min[1], bounds.max[1]);
    match mode {
        CoordMode::Passthrough => if second {
            v
        } else {
            u
        },
        CoordMode::Permute(axes) => {
            let axis = if second {
                axes[1]
            } else {
                axes[0]
            };
            match axis {
                Axis::U => u,
                Axis::V => v,
                Axis::W => (reach.negated(), reach),
            }
        },
        CoordMode::Radial { into, .. } => match into {
            Axis::U => if second {
                (zero, zero)
            } else {
                (zero, radius)
            },
            Axis::V => if second {
                (zero, radius)
            } else {
                (zero, zero)
            },
            Axis::W => (zero, zero),
        },
    }
}

fn cut(range: (Scalar, Scalar)) -> (r: (Scalar, Scalar))
    ensures
        r == cut_off(range),
{
    (
        range.0.max(Scalar::from_bits(EXTEND_LOW_BITS)),
        range.1.min(Scalar::from_bits(EXTEND_HIGH_BITS)),
    )
}

/// The rectangle that an extending transform samples its source over.
pub fn transform_request(mode: CoordMode, bounds: Domain, reach: Scalar, radius: Scalar) -> (r:
    Option<Domain>)
    ensures
        match (r, requested(mode, bounds.corners(), reach, radius)) {
            (Some(d), Some(want)) => d.corners() == want,
            (None, None) => true,
            _ => false,
        },
{
    let mut u = find_range(mode, false, bounds, reach, radius);
    let mut v = find_range(mode, true, bounds, reach, radius);
    let radial = match mode {
        CoordMode::Radial { .. } => true,
        _ => false,
    };
    if radial {
        u = cut(u);
        v = cut(v);
    }
    if u.0.le(u.1) && v.0.le(v.1) && u.0.is_finite() && u.1.is_finite() && v.0.is_finite()
        && v.1.is_finite() {
        let d = Domain { min: [u.0, v.0], max: [u.1, v.1] };
        assert(d.corners() =~= seq![u.0, v.0, u.1, v.1]);
        Some(d)
    } else {
        None
    }
}

/// A grown rectangle cut off at the limits.
pub open spec fn warp_rect(grown: Seq<Scalar>) -> Seq<Scalar> {
    let (u, v) = (cut_off((grown[0], grown[2])), cut_off((grown[1], grown[3])));
    seq![u.0, v.0, u.1, v.1]
}

/// A grown rectangle cut off at the limits, as a warp samples its source over.
pub fn warp_request(grown: Domain) -> (r: Domain)
    ensures
        r.corners() == warp_rect(grown.corners()),
{
    let u = cut((grown.min[0], grown.max[0]));
    let v = cut((grown.min[1], grown.max[1]));
    let r = Domain { min: [u.0, v.0], max: [u.1, v.1] };
    assert(r.corners() =~= seq![u.0, v.0, u.1, v.1]);
    r
}

/// What a radial transform asks for lies within the limits.
pub proof fn law_radial_requests_stay_within_the_limits(
    mode: CoordMode,
    bounds: Seq<Scalar>,
    reach: Scalar,
    radius: Scalar,
)
    requires
        mode is Radial,
        requested(mode, bounds, reach, radius) is Some,
    ensures
        ({
            let d = requested(mode, bounds, reach, radius)->0;
            let (low, high) = limits();
            &&& low.le_spec(d[0]) && d[2].le_spec(high)
            &&& low.le_spec(d[1]) && d[3].le_spec(high)
        }),
{
}

/// The rectangle `outer`, by its corners, holds the rectangle `inner`.
pub open spec fn spans(outer: Seq<Scalar>, inner: Seq<Scalar>) -> bool {
    &&& outer[0].le_spec(inner[0])
    &&& outer[1].le_spec(inner[1])
    &&& inner[2].le_spec(outer[2])
    &&& inner[3].le_spec(outer[3])
}

/// All four corners are numbers.
pub open spec fn is_rect(r: Seq<Scalar>) -> bool {
    &&& r.len() == 4
    &&& forall|k: int| 0 <= k < 4 ==> !(#[trigger] r[k]).is_nan_spec()
}

/// The union of two rectangles holds both, and each of its sides is a side of one
/// of them.
pub proof fn law_union_holds_both_tightly(a: Seq<Scalar>, b: Seq<Scalar>)
    requires
        is_rect(a),
        is_rect(b),
    ensures
        ({
            let c = union_corners(a, b);
            &&& is_rect(c)
            &&& spans(c, a)
            &&& spans(c, b)
            &&& forall|k: int| 0 <= k < 4 ==> #[trigger] c[k] == a[k] || c[k] == b[k]
        }),
{
    assert(!a[0].is_nan_spec() && !a[1].is_nan_spec() && !a[2].is_nan_spec()
        && !a[3].is_nan_spec());
    assert(!b[0].is_nan_spec() && !b[1].is_nan_spec() && !b[2].is_nan_spec()
        && !b[3].is_nan_spec());
    law_smaller_and_larger(a[0], b[0]);
    law_smaller_and_larger(a[1], b[1]);
    law_smaller_and_larger(a[2], b[2]);
    law_smaller_and_larger(a[3], b[3]);
}

/// Widening gives every layer named a rectangle that holds the one it had and the
/// one that it is read over; it leaves every other layer's, and gives none to a
/// layer that had none.
pub proof fn law_widening_holds_what_is_read(
    rects: Map<u64, Seq<Scalar>>,
    ids: Seq<LayerId>,
    rect: Seq<Scalar>,
    x: u64,
)
    requires
        is_rect(rect),
        forall|id: u64| #[trigger] rects.dom().contains(id) ==> is_rect(rects[id]),
    ensures
        ({
            let after = widened(rects, ids, rect);
            &&& after.dom() == rects.dom()
            &&& rects.dom().contains(x) ==> is_rect(after[x]) && spans(after[x], rects[x])
            &&& rects.dom().contains(x) && ids.contains(LayerId(x)) ==> spans(after[x], rect)
            &&& rects.dom().contains(x) && !ids.contains(LayerId(x)) ==> after[x] == rects[x]
        }),
    decreases ids.len(),
{
    let after = widened(rects, ids, rect);
    if ids.len() == 0 {
        assert(rects.dom().contains(x) ==> spans(rects[x], rects[x])) by {
            if rects.dom().contains(x) {
                let r = rects[x];
                assert(!r[0].is_nan_spec() && !r[1].is_nan_spec() && !r[2].is_nan_spec()
                    && !r[3].is_nan_spec());
            }
        }
    } else {
        let rest = ids.drop_last();
        let y = ids.last().0;
        law_widening_holds_what_is_read(rects, rest, rect, x);
        law_widening_holds_what_is_read(rects, rest, rect, y);
        let before = widened(rects, rest, rect);
        assert(after.dom() =~= rects.dom());
        if rects.dom().contains(y) {
            law_union_holds_both_tightly(before[y], rect);
        }
        if ids.contains(LayerId(x)) && x != y {
            let i = ids.index_of(LayerId(x));
            assert(rest[i] == LayerId(x));
        }
        if x == y {
            assert(ids[ids.len() - 1] == LayerId(x));
        }
        if rest.contains(LayerId(x)) {
            let i = rest.index_of(LayerId(x));
            assert(ids[i] == LayerId(x));
        }
    }
}

/// Visiting a layer makes the rectangle of every input hold the layer's own,
/// but for what it does not sample at its own coordinates: a transform's source,
/// what a warp displaces, and a gradient map's palette.
pub proof fn law_inputs_cover_their_reader(
    rects: Map<u64, Seq<Scalar>>,
    kind: LayerKind,
    own: Seq<Scalar>,
    id: LayerId,
)
    requires
        is_rect(own),
        forall|x: u64| #[trigger] rects.dom().contains(x) ==> is_rect(rects[x]),
        kind.input_ids().contains(id),
        rects.dom().contains(id.0),
        kind !is Transform,
        kind matches LayerKind::Warp(w) ==> w.by == Some(id),
        kind matches LayerKind::GradientMap(m) ==> m.value == Some(id),
    ensures
        spans(widened(rects, read_in_place(kind), own)[id.0], own),
{
    let same = read_in_place(kind);
    assert(same.contains(id)) by {
        match kind {
            LayerKind::Warp(_) => assert(same[0] == id),
            LayerKind::GradientMap(_) => assert(same[0] == id),
            _ => {},
        }
    }
    assert(LayerId(id.0) == id);
    law_widening_holds_what_is_read(rects, same, own, id.0);
}

/// Visiting a layer leaves the rectangle of everything that it does not sample at
/// its own coordinates: what it does not read, and what it reads elsewhere alone.
pub proof fn law_other_rectangles_stay(
    rects: Map<u64, Seq<Scalar>>,
    kind: LayerKind,
    own: Seq<Scalar>,
    id: LayerId,
)
    requires
        is_rect(own),
        forall|x: u64| #[trigger] rects.dom().contains(x) ==> is_rect(rects[x]),
        rects.dom().contains(id.0),
        kind.input_ids().contains(id) ==> {
            ||| kind is Transform
            ||| kind matches LayerKind::Warp(w) && w.by != Some(id)
            ||| kind matches LayerKind::GradientMap(m) && m.value != Some(id)
        },
    ensures
        widened(rects, read_in_place(kind), own)[id.0] == rects[id.0],
{
    let same = read_in_place(kind);
    assert(LayerId(id.0) == id);
    if same.contains(id) {
        lemma_reads_are_inputs(kind, id);
    }
    law_widening_holds_what_is_read(rects, same, own, id.0);
}

/// The caller is asked to find a rectangle exactly for the source of an extending
/// transform and for what a warp displaces, over the reader's own rectangle.
pub proof fn law_requests_are_for_what_is_sampled_elsewhere(kind: LayerKind, domain: Domain)
    ensures
        match request_of(kind, domain) {
            Some(DomainRequest::Transform { transform, source, domain: over }) => {
                &&& kind == LayerKind::Transform(transform)
                &&& transform.source == Some(source)
                &&& transform.edge_mode == EdgeMode::Extend
                &&& over == domain
            },
            Some(DomainRequest::Warp { warp, source, domain: over }) => {
                &&& kind == LayerKind::Warp(warp)
                &&& warp.source == Some(source)
                &&& over == domain
            },
            None => {
                &&& kind matches LayerKind::Transform(t) ==> t.source is None || t.edge_mode
                    == EdgeMode::Clamp
                &&& kind matches LayerKind::Warp(w) ==> w.source is None
            },
        },
{
}

/// The bounds of some points hold every one of them, and each side touches one.
pub proof fn law_bounds_hold_every_point_tightly(vs: Seq<Scalar>, i: int)
    requires
        0 <= i < vs.len(),
        forall|k: int| 0 <= k < vs.len() ==> !(#[trigger] vs[k]).is_nan_spec(),
    ensures
        least(vs).le_spec(vs[i]),
        vs[i].le_spec(greatest(vs)),
        vs.contains(least(vs)) || least(vs).scaled() == (Scalar { bits: 0x7f80_0000 }).scaled(),
        vs.contains(greatest(vs)) || greatest(vs).scaled() == (Scalar {
            bits: 0xff80_0000,
        }).scaled(),
    decreases vs.len(),
{
    let rest = vs.drop_last();
    let (low, high) = (least(rest), greatest(rest));
    let last = vs.last();
    assert(!vs[vs.len() - 1].is_nan_spec());
    assert(vs[vs.len() - 1] == last);
    assert forall|k: int| 0 <= k < rest.len() implies !(#[trigger] rest[k]).is_nan_spec() by {
        assert(rest[k] == vs[k]);
    }
    if rest.len() > 0 {
        law_bounds_hold_every_point_tightly(rest, if i < rest.len() { i } else { 0 });
        assert(!low.is_nan_spec() && !high.is_nan_spec());
        if rest.contains(low) {
            let k = rest.index_of(low);
            assert(vs[k] == low);
        }
        if rest.contains(high) {
            let k = rest.index_of(high);
            assert(vs[k] == high);
        }
    } else {
        assert((0x8000_0000u32 + 0x7f80_0000u32) as u32 == 0xff80_0000u32);
        lemma_magnitudes_keep_order(last.magnitude(), 0x7f80_0000);
    }
    law_smaller_and_larger(low, last);
    law_smaller_and_larger(high, last);
    if i < rest.len() {
        assert(rest[i] == vs[i]);
    }
}

/// What an affine transform that extends asks for holds every point at which it
/// reads its source, and no more: for a moved point between the moved corners,
/// with w no further from 0 than it goes, the arranged point lies in the
/// rectangle; and the outermost such points touch its sides.
pub proof fn law_affine_requests_hold_what_is_read_tightly(
    mode: CoordMode,
    bounds: Seq<Scalar>,
    reach: Scalar,
    radius: Scalar,
    p: Seq<Scalar>,
)
    requires
        mode !is Radial,
        bounds.len() == 4,
        p.len() == 3,
        bounds[0].le_spec(p[0]) && p[0].le_spec(bounds[2]),
        bounds[1].le_spec(p[1]) && p[1].le_spec(bounds[3]),
        reach.negated().le_spec(p[2]) && p[2].le_spec(reach),
    ensures
        ({
            let r = requested(mode, bounds, reach, radius);
            let q = arranged(mode, p, radius);
            let low = arranged(mode, seq![bounds[0], bounds[1], reach.negated()], radius);
            let high = arranged(mode, seq![bounds[2], bounds[3], reach], radius);
            &&& r is Some ==> {
                &&& (r->0)[0].le_spec(q[0]) && q[0].le_spec((r->0)[2])
                &&& (r->0)[1].le_spec(q[1]) && q[1].le_spec((r->0)[3])
                &&& (r->0)[0] == low[0] && (r->0)[1] == low[1]
                &&& (r->0)[2] == high[0] && (r->0)[3] == high[1]
            }
            &&& bounds[0].is_finite_spec() && bounds[1].is_finite_spec()
                && bounds[2].is_finite_spec() && bounds[3].is_finite_spec()
                && reach.is_finite_spec() ==> r is Some
        }),
{
    lemma_affine_axis(mode, 0, bounds, reach, radius, p);
    lemma_affine_axis(mode, 1, bounds, reach, radius, p);
}

proof fn lemma_affine_axis(
    mode: CoordMode,
    axis: int,
    bounds: Seq<Scalar>,
    reach: Scalar,
    radius: Scalar,
    p: Seq<Scalar>,
)
    requires
        mode !is Radial,
        axis == 0 || axis == 1,
        bounds.len() == 4,
        p.len() == 3,
        bounds[0].le_spec(p[0]) && p[0].le_spec(bounds[2]),
        bounds[1].le_spec(p[1]) && p[1].le_spec(bounds[3]),
        reach.negated().le_spec(p[2]) && p[2].le_spec(reach),
    ensures
        ({
            let range = sampled_range(mode, axis, bounds, reach, radius);
            let q = arranged(mode, p, radius);
            let low = arranged(mode, seq![bounds[0], bounds[1], reach.negated()], radius);
            let high = arranged(mode, seq![bounds[2], bounds[3], reach], radius);
            &&& range.0.le_spec(q[axis])
            &&& q[axis].le_spec(range.1)
            &&& range.0 == low[axis]
            &&& range.1 == high[axis]
            &&& bounds[0].is_finite_spec() && bounds[1].is_finite_spec()
                && bounds[2].is_finite_spec() && bounds[3].is_finite_spec()
                && reach.is_finite_spec() ==> is_proper(range)
        }),
{
    let back = reach.negated();
    assert(bounds[0].le_spec(bounds[2])) by {
        law_numbers_are_ordered(bounds[0], p[0], bounds[2]);
    }
    assert(bounds[1].le_spec(bounds[3])) by {
        law_numbers_are_ordered(bounds[1], p[1], bounds[3]);
    }
    assert(back.le_spec(reach)) by {
        law_numbers_are_ordered(back, p[2], reach);
    }
    assert(back.is_finite_spec() == reach.is_finite_spec()) by {
        lemma_turned_is_finite(reach);
    }
    lemma_pick(mode, axis, bounds, reach, radius, p, back);
}

proof fn lemma_turned_is_finite(s: Scalar)
    ensures
        s.negated().is_finite_spec() == s.is_finite_spec(),
{
}

/// An affine mode picks one of three ranges, and of any point the coordinate that
/// goes with it.
proof fn lemma_pick(
    mode: CoordMode,
    axis: int,
    bounds: Seq<Scalar>,
    reach: Scalar,
    radius: Scalar,
    p: Seq<Scalar>,
    back: Scalar,
)
    requires
        mode !is Radial,
        axis == 0 || axis == 1,
        bounds.len() == 4,
        p.len() == 3,
        back == reach.negated(),
    ensures
        ({
            let range = sampled_range(mode, axis, bounds, reach, radius);
            let q = arranged(mode, p, radius);
            let low = arranged(mode, seq![bounds[0], bounds[1], back], radius);
            let high = arranged(mode, seq![bounds[2], bounds[3], reach], radius);
            &&& range.0 == low[axis] && range.1 == high[axis]
            &&& {
                ||| range == (bounds[0], bounds[2]) && q[axis] == p[0]
                ||| range == (bounds[1], bounds[3]) && q[axis] == p[1]
                ||| range == (back, reach) && q[axis] == p[2]
            }
        }),
{
    if let CoordMode::Permute(axes) = mode {
        let axis_named = axes@[axis];
        assert(axis_named is U || axis_named is V || axis_named is W);
    }
}

/// What a radial transform that extends asks for holds every point at which it
/// reads its source: a distance of at most `radius` that is not past the limit
/// lies between 0 and it on the axis that it is put on, and 0 on the other.
pub proof fn law_radial_requests_hold_what_is_read(
    t: Transform,
    bounds: Seq<Scalar>,
    reach: Scalar,
    radius: Scalar,
    p: Seq<Scalar>,
    distance: Scalar,
)
    requires
        t.coord_mode is Radial,
        t.edge_mode == EdgeMode::Extend,
        p.len() == 3,
        Scalar::zero().le_spec(distance),
        distance.le_spec(radius),
        transform_reads(t, arranged(t.coord_mode, p, distance)) is Some,
    ensures
        ({
            let r = requested(t.coord_mode, bounds, reach, radius);
            let q = transform_reads(t, arranged(t.coord_mode, p, distance))->0;
            &&& r is Some
            &&& (r->0)[0].le_spec(q[0]) && q[0].le_spec((r->0)[2])
            &&& (r->0)[1].le_spec(q[1]) && q[1].le_spec((r->0)[3])
            &&& (r->0)[0].scaled() == 0 && (r->0)[1].scaled() == 0
            &&& (r->0)[2].le_spec(radius) && (r->0)[3].le_spec(radius)
        }),
{
    lemma_limits();
    law_named_numbers();
    vstd::arithmetic::power2::lemma_pow2_pos(149);
    let (low, high) = limits();
    let zero = Scalar::zero();
    law_smaller_and_larger(zero, low);
    law_smaller_and_larger(zero, high);
    law_smaller_and_larger(radius, high);
    assert(low.scaled() < 0 < high.scaled());
    assert(zero.max_spec(low) == zero);
    assert(zero.min_spec(high) == zero);
    assert(radius.min_spec(high).is_finite_spec()) by {
        let m = radius.min_spec(high);
        assert(m.le_spec(high));
        assert(zero.le_spec(m)) by {
            law_numbers_are_ordered(zero, distance, radius);
        }
        lemma_magnitudes_keep_order(m.magnitude(), high.magnitude());
        lemma_magnitudes_keep_order(m.magnitude(), 0);
        assert(high.magnitude() == 0x4108_0000);
    }
}

/// What a warp asks for is the grown rectangle as far as it lies within the
/// limits: it holds every number there that the grown one does, and lies between
/// -7.5 and 8.5 itself.
pub proof fn law_warp_requests_end_at_the_limits(grown: Seq<Scalar>, k: int, x: Scalar)
    requires
        is_rect(grown),
        0 <= k < 2,
        !x.is_nan_spec(),
    ensures
        ({
            let r = warp_rect(grown);
            &&& is_rect(r)
            &&& 2 * r[k].scaled() >= -15 * pow2(149)
            &&& 2 * r[k + 2].scaled() <= 17 * pow2(149)
            &&& r[k].scaled() <= x.scaled() <= r[k + 2].scaled() <==> {
                &&& grown[k].scaled() <= x.scaled() <= grown[k + 2].scaled()
                &&& -15 * pow2(149) <= 2 * x.scaled() <= 17 * pow2(149)
            }
        }),
{
    lemma_limits();
    let (low, high) = limits();
    assert(!grown[0].is_nan_spec() && !grown[1].is_nan_spec() && !grown[2].is_nan_spec()
        && !grown[3].is_nan_spec());
    law_smaller_and_larger(grown[0], low);
    law_smaller_and_larger(grown[1], low);
    law_smaller_and_larger(grown[2], high);
    law_smaller_and_larger(grown[3], high);
}

/// A walk goes through its order from the back. Visiting a layer widens what it
/// samples at its own coordinates by the layer's own rectangle, and hands that
/// rectangle to the caller where the layer samples elsewhere.
pub proof fn law_a_walk_visits_from_the_back(
    g: DomainWalk,
    h: DomainWalk,
    graph: Graph,
    r: Option<DomainRequest>,
    id: LayerId,
)
    requires
        g.left > 0,
        visited(g, h, graph, r),
        forall|x: u64| #[trigger] g.domains@.dom().contains(x) ==> is_rect(g.domains@[x].corners()),
        graph.layer(g.order@[g.left - 1]) is Some,
        g.domains@.dom().contains(g.order@[g.left - 1].0),
        g.domains@.dom().contains(id.0),
    ensures
        h.order == g.order,
        h.left + 1 == g.left,
        ({
            let at = g.order@[g.left - 1];
            let kind = graph.layer(at)->Some_0.kind;
            let own = g.domains@[at.0];
            &&& spans(h.rects()[id.0], g.rects()[id.0])
            &&& kind.input_ids().contains(id) && kind !is Transform && kind !is Warp
                && kind !is GradientMap ==> spans(h.rects()[id.0], own.corners())
            &&& (kind matches LayerKind::Warp(w) && w.by == Some(id)) ==> spans(
                h.rects()[id.0],
                own.corners(),
            )
            &&& (kind matches LayerKind::GradientMap(m) && m.value == Some(id)) ==> spans(
                h.rects()[id.0],
                own.corners(),
            )
            &&& !kind.input_ids().contains(id) || kind is Transform ==> h.rects()[id.0]
                == g.rects()[id.0]
            &&& kind matches LayerKind::Transform(t) ==> (r is Some <==> t.edge_mode is Extend
                && t.source is Some)
            &&& kind matches LayerKind::Warp(w) ==> (r is Some <==> w.source is Some)
            &&& kind !is Transform && kind !is Warp ==> r is None
            &&& r matches Some(DomainRequest::Transform { transform, source, domain }) ==> kind
                == LayerKind::Transform(transform) && transform.source == Some(source) && domain
                == own
            &&& r matches Some(DomainRequest::Warp { warp, source, domain }) ==> kind
                == LayerKind::Warp(warp) && warp.source == Some(source) && domain == own
        }),
{
    let at = g.order@[g.left - 1];
    let kind = graph.layer(at)->Some_0.kind;
    let own = g.domains@[at.0].corners();
    let rects = g.rects();
    assert(is_rect(own));
    assert forall|x: u64| #[trigger] rects.dom().contains(x) implies is_rect(rects[x]) by {
        assert(g.domains@.dom().contains(x));
    }
    law_widening_holds_what_is_read(rects, read_in_place(kind), own, id.0);
    if kind.input_ids().contains(id) && kind !is Transform && kind !is Warp && kind
        !is GradientMap {
        law_inputs_cover_their_reader(rects, kind, own, id);
    }
    if let LayerKind::Warp(w) = kind {
        if w.by == Some(id) {
            assert(read_in_place(kind)[0] == id);
        }
    }
    if let LayerKind::GradientMap(m) = kind {
        if m.value == Some(id) {
            assert(read_in_place(kind)[0] == id);
        }
    }
    if !kind.input_ids().contains(id) || kind is Transform {
        law_other_rectangles_stay(rects, kind, own, id);
    }
}

/// Widening one layer's rectangle makes it hold what was asked for and what it
/// held, and leaves every other.
pub proof fn law_widening_reaches_one_layer(
    g: DomainWalk,
    h: DomainWalk,
    source: LayerId,
    request: Domain,
    x: u64,
)
    requires
        widened_at(g, h, source, request),
        g.domains@.dom().contains(source.0),
        is_rect(g.domains@[source.0].corners()),
        is_rect(request.corners()),
    ensures
        spans(h.rects()[source.0], request.corners()),
        spans(h.rects()[source.0], g.rects()[source.0]),
        x != source.0 && g.rects().dom().contains(x) ==> h.rects()[x] == g.rects()[x],
        h.left == g.left,
{
    law_union_holds_both_tightly(g.domains@[source.0].corners(), request.corners());
}

/// The bounds of points are at least and at most the points' coordinates, u and
/// v each by itself.
pub proof fn law_bounds_hold_the_points(points: Vec<[Scalar; 2]>, r: Domain, i: int)
    requires
        call_ensures(bounds_of, (&points,), r),
        0 <= i < points@.len(),
        forall|k: int|
            0 <= k < points@.len() ==> !(#[trigger] points@[k])[0].is_nan_spec()
                && !points@[k][1].is_nan_spec(),
    ensures
        r.min[0].le_spec(points@[i][0]) && points@[i][0].le_spec(r.max[0]),
        r.min[1].le_spec(points@[i][1]) && points@[i][1].le_spec(r.max[1]),
{
    let (us, vs) = (firsts(points@), seconds(points@));
    assert forall|k: int| 0 <= k < us.len() implies !(#[trigger] us[k]).is_nan_spec() by {
        assert(us[k] == points@[k][0]);
    }
    assert forall|k: int| 0 <= k < vs.len() implies !(#[trigger] vs[k]).is_nan_spec() by {
        assert(vs[k] == points@[k][1]);
    }
    law_bounds_hold_every_point_tightly(us, i);
    law_bounds_hold_every_point_tightly(vs, i);
    assert(r.min@[0] == least(us) && r.min@[1] == least(vs));
    assert(r.max@[0] == greatest(us) && r.max@[1] == greatest(vs));
    assert(us[i] == points@[i][0] && vs[i] == points@[i][1]);
}

} // verus!
