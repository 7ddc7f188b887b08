//! Where each layer of a sphere bake is evaluated.
//!
//! On a cube face a texel's (u, v) is not a position in the field, so a layer
//! that re-samples its input at another (u, v) cannot read the face its input
//! baked. Two such kinds still have a meaning on a sphere, and are planned
//! around rather than refused:
//!
//! - A gradient map's palette is looked up by value, not by position, so it
//!   bakes on a plane beside the faces.
//! - A passthrough transform moves the sample point by an affine map, so the
//!   map is pushed down to the generators beneath it, which evaluate at the
//!   moved point. The transform itself becomes a copy.
//!
//! Composing such maps is arithmetic, which the caller of a [`SpherePlan`]
//! does between two steps.
use std::collections::HashMap;

use vstd::prelude::*;

use crate::graph::{ids_ascend, Graph};
use crate::id::{raw_ids, LayerId};
use crate::kind::{opt_ids, CoordMode, EdgeMode, LayerKind, Transform};
use crate::reach::{
    closed_under, lemma_closed_keeps, lemma_reaches_self, lemma_reaches_then_reads, reaches, reads,
};
use crate::scalar::Scalar;
use crate::schedule::ScheduleError;

verus! {

/// Why a bake was refused.
#[derive(Clone, Copy, Debug)]
pub enum BakeError {
    Schedule(ScheduleError),
    Unsupported(&'static str),
}

/// Rows of an affine map of the sample point, each a linear part and an
/// offset: `p' = [row · (p, 1)]`.
#[derive(Clone, Copy, Debug, PartialEq)]
pub struct PointMap {
    pub rows: [Scalar; 12],
}

/// The words of the map that moves nothing.
pub open spec fn identity_rows() -> Seq<Scalar> {
    let (o, z) = (Scalar::one(), Scalar::zero());
    seq![o, z, z, z, z, o, z, z, z, z, o, z]
}

impl PointMap {
    /// The map that moves nothing.
    pub fn identity() -> (r: PointMap)
        ensures
            r.rows@ == identity_rows(),
    {
        let (o, z) = (Scalar::one(), Scalar::zero());
        let r = PointMap { rows: [o, z, z, z, z, o, z, z, z, z, o, z] };
        assert(r.rows@ =~= identity_rows());
        r
    }

    /// Entry by entry the same number.
    pub open spec fn same_spec(self, other: PointMap) -> bool {
        forall|i: int| 0 <= i < 12 ==> (#[trigger] self.rows@[i]).same_spec(other.rows@[i])
    }

    /// True where the maps are the same, entry by entry.
    pub fn same(self, other: PointMap) -> (r: bool)
        ensures
            r == self.same_spec(other),
    {
        let mut i: usize = 0;
        while i < 12
            invariant
                i <= 12,
                forall|j: int| 0 <= j < i ==> (#[trigger] self.rows@[j]).same_spec(other.rows@[j]),
            decreases 12 - i,
        {
            if !self.rows[i].same(other.rows[i]) {
                return false;
            }
            i += 1;
        }
        true
    }
}

/// Where a layer bakes.
#[derive(Clone, Copy, Debug, PartialEq)]
pub enum Placement {
    /// On the cube face, at the sample point moved by the map.
    Sphere(PointMap),
    /// On the plane a flat bake uses.
    Plane,
}

impl Placement {
    /// True where the placements agree.
    pub open spec fn same_spec(self, other: Placement) -> bool {
        match (self, other) {
            (Placement::Sphere(a), Placement::Sphere(b)) => a.same_spec(b),
            (Placement::Plane, Placement::Plane) => true,
            _ => false,
        }
    }

    /// True where the placements agree.
    pub fn same(self, other: Placement) -> (r: bool)
        ensures
            r == self.same_spec(other),
    {
        match (self, other) {
            (Placement::Sphere(a), Placement::Sphere(b)) => a.same(b),
            (Placement::Plane, Placement::Plane) => true,
            _ => false,
        }
    }
}

/// The refusals of a sphere bake.
pub open spec fn two_placements() -> &'static str {
    "a layer a sphere bake needs at two placements"
}

/// What a sphere bake cannot hold a layer of that kind for, on a face.
pub open spec fn refused_on_face(kind: LayerKind) -> Option<&'static str> {
    match kind {
        LayerKind::Transform(t) => if t.coord_mode !is Passthrough {
            Some("a Transform other than passthrough in a sphere bake")
        } else if t.edge_mode != EdgeMode::Extend {
            Some("a clamping Transform in a sphere bake")
        } else {
            None
        },
        LayerKind::ColorRamp(_) => Some("ColorRamp in a sphere bake, other than as a Map's palette"),
        LayerKind::HeightToNormal(_) => Some("HeightToNormal in a sphere bake"),
        LayerKind::Warp(_) => Some("Warp in a sphere bake"),
        _ => None,
    }
}

/// What has to be placed because a layer of that kind was placed `at`, last
/// first; a transform's source is left to the caller.
pub open spec fn placed_inputs(kind: LayerKind, at: Placement) -> Seq<(LayerId, Placement)> {
    match at {
        Placement::Plane => placed_all(kind.input_ids(), at),
        Placement::Sphere(_) => match kind {
            LayerKind::Transform(_) => Seq::empty(),
            LayerKind::GradientMap(m) => placed_all(opt_ids(m.value), at) + placed_all(
                opt_ids(m.palette),
                Placement::Plane,
            ),
            _ => placed_all(kind.input_ids(), at),
        },
    }
}

/// The ids, each with the same placement.
pub open spec fn placed_all(ids: Seq<LayerId>, at: Placement) -> Seq<(LayerId, Placement)> {
    ids.map_values(|id: LayerId| (id, at))
}

/// A transform on a face, whose source is to be placed at the point `map` moved
/// by it.
#[derive(Clone, Copy, Debug)]
pub struct MoveRequest {
    pub id: LayerId,
    pub transform: Transform,
    pub source: LayerId,
    pub map: PointMap,
}

/// Places every layer that a root depends on.
#[derive(Clone, Debug)]
pub struct SpherePlan {
    /// By the raw number of the layer's id.
    pub placed: HashMap<u64, Placement>,
    /// Where each transform on a face moves the point its source is read at, by
    /// the raw number of the transform's id.
    pub moved: HashMap<u64, PointMap>,
    /// What is still to be placed, and where.
    pub pending: Vec<(LayerId, Placement)>,
    /// The transform whose moved point the plan waits for.
    pub open: Option<MoveRequest>,
}

/// A layer of a constant color reads no position, so one bake of it does for
/// every placement.
pub open spec fn is_constant(graph: Graph, id: LayerId) -> bool {
    graph.layer(id) is Some && graph.layer(id)->0.kind is Color
}

/// On the faces, at the point itself.
pub open spec fn is_unmoved(at: Placement) -> bool {
    at is Sphere && at->Sphere_0.rows@ == identity_rows()
}

/// What the caller is asked because a layer was placed `at`: to move the point
/// for the source of a transform on a face.
pub open spec fn request_of(graph: Graph, id: LayerId, at: Placement) -> Option<MoveRequest> {
    match (at, graph.layer(id)) {
        (Placement::Sphere(map), Some(layer)) => match layer.kind {
            LayerKind::Transform(t) => match t.source {
                Some(source) => Some(MoveRequest { id, transform: t, source, map }),
                None => None,
            },
            _ => None,
        },
        _ => None,
    }
}

/// What a sphere bake cannot hold the layer for, placed `at`.
pub open spec fn refused_at(graph: Graph, id: LayerId, at: Placement) -> Option<&'static str> {
    match (at, graph.layer(id)) {
        (Placement::Sphere(_), Some(layer)) => refused_on_face(layer.kind),
        _ => None,
    }
}

/// What has to be placed because the layer with that number was placed `at`: its
/// inputs in place, and a transform's source at the point the transform moves.
pub open spec fn needs(
    graph: Graph,
    moved: Map<u64, PointMap>,
    x: u64,
    at: Placement,
) -> Seq<(LayerId, Placement)> {
    match graph.layer(LayerId(x)) {
        Some(layer) => placed_inputs(layer.kind, at) + match request_of(graph, LayerId(x), at) {
            Some(q) => if moved.dom().contains(x) {
                seq![(q.source, Placement::Sphere(moved[x]))]
            } else {
                Seq::empty()
            },
            None => Seq::empty(),
        },
        None => Seq::empty(),
    }
}

/// A layer is placed as it is wanted, or lined up to be.
pub open spec fn settled(
    placed: Map<u64, Placement>,
    pending: Seq<(LayerId, Placement)>,
    graph: Graph,
    want: (LayerId, Placement),
) -> bool {
    ||| pending.contains(want)
    ||| placed.dom().contains(want.0.0) && (placed[want.0.0] == want.1
        || placed[want.0.0].same_spec(want.1) || is_constant(graph, want.0))
}

/// Whatever a placed layer reads is settled.
pub open spec fn all_settled(
    placed: Map<u64, Placement>,
    moved: Map<u64, PointMap>,
    pending: Seq<(LayerId, Placement)>,
    graph: Graph,
) -> bool {
    forall|x: u64, k: int|
        placed.dom().contains(x) && 0 <= k < needs(graph, moved, x, placed[x]).len() ==> settled(
            placed,
            pending,
            graph,
            #[trigger] needs(graph, moved, x, placed[x])[k],
        )
}

/// The root lies on the faces unmoved, or is all that is lined up.
pub open spec fn root_unmoved(
    placed: Map<u64, Placement>,
    pending: Seq<(LayerId, Placement)>,
    root: LayerId,
) -> bool {
    if placed.dom().contains(root.0) {
        is_unmoved(placed[root.0])
    } else {
        &&& placed == Map::<u64, Placement>::empty()
        &&& pending.len() == 1
        &&& pending[0].0 == root
        &&& is_unmoved(pending[0].1)
    }
}

/// Whatever is placed or lined up is what the root depends on.
pub open spec fn only_reached(
    placed: Map<u64, Placement>,
    pending: Seq<(LayerId, Placement)>,
    graph: Graph,
    root: LayerId,
) -> bool {
    &&& forall|x: u64| #[trigger] placed.dom().contains(x) ==> reaches(graph.edges(), root.0, x)
    &&& forall|k: int|
        0 <= k < pending.len() ==> reaches(graph.edges(), root.0, (#[trigger] pending[k]).0.0)
}

/// No face holds a layer of a kind that has no meaning there.
pub open spec fn none_refused(placed: Map<u64, Placement>, graph: Graph) -> bool {
    forall|x: u64| #[trigger]
        placed.dom().contains(x) ==> refused_at(graph, LayerId(x), placed[x]) is None
}

/// The point of every transform on a face has been moved, but for the one that
/// the plan waits for.
pub open spec fn moves_asked(
    placed: Map<u64, Placement>,
    moved: Map<u64, PointMap>,
    open: Option<MoveRequest>,
    graph: Graph,
) -> bool {
    &&& forall|x: u64| #[trigger]
        placed.dom().contains(x) && request_of(graph, LayerId(x), placed[x]) is Some
            ==> moved.dom().contains(x) || open == request_of(graph, LayerId(x), placed[x])
    &&& forall|x: u64| #[trigger] moved.dom().contains(x) ==> placed.dom().contains(x)
    &&& open matches Some(q) ==> {
        &&& placed.dom().contains(q.id.0)
        &&& request_of(graph, q.id, placed[q.id.0]) == Some(q)
        &&& !moved.dom().contains(q.id.0)
    }
}

/// What holds of a plan for that root between two steps: whatever a placed layer
/// reads is placed where it reads it or lined up to be, a constant anywhere; the
/// root lies on the faces unmoved; nothing else is placed than what the root
/// depends on; nothing on a face is refused; and every transform on a face has
/// moved the point its source is read at, but for the one waited for.
pub open spec fn in_order(
    placed: Map<u64, Placement>,
    moved: Map<u64, PointMap>,
    pending: Seq<(LayerId, Placement)>,
    open: Option<MoveRequest>,
    graph: Graph,
    root: LayerId,
) -> bool {
    &&& all_settled(placed, moved, pending, graph)
    &&& root_unmoved(placed, pending, root)
    &&& only_reached(placed, pending, graph, root)
    &&& none_refused(placed, graph)
    &&& moves_asked(placed, moved, open, graph)
}

/// What a layer placed has to have placed is what it reads.
proof fn lemma_needs_are_read(
    graph: Graph,
    moved: Map<u64, PointMap>,
    x: u64,
    at: Placement,
    k: int,
)
    requires
        0 <= k < needs(graph, moved, x, at).len(),
    ensures
        reads(graph.edges(), x, needs(graph, moved, x, at)[k].0.0),
{
    let layer = graph.layer(LayerId(x))->0;
    let ids = layer.kind.input_ids();
    let want = needs(graph, moved, x, at)[k];
    assert(placed_all(ids, at).len() == ids.len());
    assert(ids.contains(want.0)) by {
        match layer.kind {
            LayerKind::Transform(t) => {
                assert(opt_ids(t.source).len() > 0 ==> ids[0] == t.source->0);
            },
            LayerKind::GradientMap(m) => {
                assert(ids[k] == want.0);
            },
            _ => {
                assert(ids[k] == want.0);
            },
        }
    }
    let m = ids.index_of(want.0);
    assert(raw_ids(ids)[m] == want.0.0);
}

/// Taking the last pair off the list keeps everything settled, where the pair is
/// placed by then and what it needs is lined up.
proof fn lemma_pair_taken(
    placed: Map<u64, Placement>,
    moved: Map<u64, PointMap>,
    pending: Seq<(LayerId, Placement)>,
    after: Map<u64, Placement>,
    more: Seq<(LayerId, Placement)>,
    graph: Graph,
)
    requires
        pending.len() > 0,
        all_settled(placed, moved, pending, graph),
        ({
            let (id, at) = pending.last();
            if placed.dom().contains(id.0) {
                &&& after == placed
                &&& placed[id.0].same_spec(at) || is_constant(graph, id)
            } else {
                &&& after == placed.insert(id.0, at)
                &&& more == needs(graph, moved, id.0, at)
            }
        }),
    ensures
        all_settled(after, moved, pending.drop_last() + more, graph),
{
    let (id, at) = pending.last();
    let rest = pending.drop_last();
    let now = rest + more;
    assert forall|x: u64, k: int|
        after.dom().contains(x) && 0 <= k < needs(graph, moved, x, after[x]).len() implies settled(
        after,
        now,
        graph,
        #[trigger] needs(graph, moved, x, after[x])[k],
    ) by {
        let want = needs(graph, moved, x, after[x])[k];
        if x == id.0 && !placed.dom().contains(x) {
            assert(now[rest.len() + k] == want);
        } else {
            assert(settled(placed, pending, graph, needs(graph, moved, x, placed[x])[k]));
            if pending.contains(want) {
                let m = pending.index_of(want);
                if m < rest.len() {
                    assert(now[m] == want);
                }
            }
        }
    }
}

/// Placing a layer that is not placed yet, and lining up what it needs, keeps
/// the plan in order.
proof fn lemma_layer_placed(
    placed: Map<u64, Placement>,
    moved: Map<u64, PointMap>,
    pending: Seq<(LayerId, Placement)>,
    graph: Graph,
    root: LayerId,
)
    requires
        pending.len() > 0,
        !placed.dom().contains(pending.last().0.0),
        in_order(placed, moved, pending, None, graph, root),
        refused_at(graph, pending.last().0, pending.last().1) is None,
    ensures
        ({
            let (id, at) = pending.last();
            in_order(
                placed.insert(id.0, at),
                moved,
                pending.drop_last() + needs(graph, moved, id.0, at),
                request_of(graph, id, at),
                graph,
                root,
            )
        }),
{
    let (id, at) = pending.last();
    assert(LayerId(id.0) == id);
    let after = placed.insert(id.0, at);
    let more = needs(graph, moved, id.0, at);
    let now = pending.drop_last() + more;
    lemma_pair_taken(placed, moved, pending, after, more, graph);
    assert(reaches(graph.edges(), root.0, pending[pending.len() - 1].0.0));
    assert forall|k: int| 0 <= k < now.len() implies reaches(
        graph.edges(),
        root.0,
        (#[trigger] now[k]).0.0,
    ) by {
        if k < pending.len() - 1 {
            assert(now[k] == pending[k]);
        } else {
            let m = k - (pending.len() - 1);
            assert(now[k] == more[m]);
            lemma_needs_are_read(graph, moved, id.0, at, m);
            lemma_reaches_then_reads(graph.edges(), root.0, id.0, more[m].0.0);
        }
    }
}

/// Taking a pair off the list whose layer lies where it is wanted keeps the plan
/// in order.
proof fn lemma_layer_found(
    placed: Map<u64, Placement>,
    moved: Map<u64, PointMap>,
    pending: Seq<(LayerId, Placement)>,
    graph: Graph,
    root: LayerId,
)
    requires
        pending.len() > 0,
        in_order(placed, moved, pending, None, graph, root),
        ({
            let (id, at) = pending.last();
            &&& placed.dom().contains(id.0)
            &&& placed[id.0].same_spec(at) || is_constant(graph, id)
        }),
    ensures
        in_order(placed, moved, pending.drop_last(), None, graph, root),
{
    let none = Seq::<(LayerId, Placement)>::empty();
    lemma_pair_taken(placed, moved, pending, placed, none, graph);
    assert(pending.drop_last() + none =~= pending.drop_last());
}

/// Lining up the source of the transform that the plan waits for keeps the plan
/// in order.
proof fn lemma_source_lined_up(
    placed: Map<u64, Placement>,
    moved: Map<u64, PointMap>,
    pending: Seq<(LayerId, Placement)>,
    q: MoveRequest,
    map: PointMap,
    graph: Graph,
    root: LayerId,
)
    requires
        in_order(placed, moved, pending, Some(q), graph, root),
    ensures
        in_order(
            placed,
            moved.insert(q.id.0, map),
            pending.push((q.source, Placement::Sphere(map))),
            None,
            graph,
            root,
        ),
{
    let after = moved.insert(q.id.0, map);
    let now = pending.push((q.source, Placement::Sphere(map)));
    let at = placed[q.id.0];
    assert(LayerId(q.id.0) == q.id);
    let own = needs(graph, after, q.id.0, at);
    assert(own.last() == (q.source, Placement::Sphere(map)));
    assert forall|x: u64, k: int|
        placed.dom().contains(x) && 0 <= k < needs(graph, after, x, placed[x]).len() implies settled(
        placed,
        now,
        graph,
        #[trigger] needs(graph, after, x, placed[x])[k],
    ) by {
        let want = needs(graph, after, x, placed[x])[k];
        if x == q.id.0 && k == own.len() - 1 {
            assert(now[pending.len() as int] == want);
        } else {
            assert(needs(graph, moved, x, placed[x])[k] == want);
            if pending.contains(want) {
                let m = pending.index_of(want);
                assert(now[m] == want);
            }
        }
    }
    lemma_needs_are_read(graph, after, q.id.0, at, own.len() - 1);
    lemma_reaches_then_reads(graph.edges(), root.0, q.id.0, q.source.0);
    assert forall|k: int| 0 <= k < now.len() implies reaches(
        graph.edges(),
        root.0,
        (#[trigger] now[k]).0.0,
    ) by {
        if k < pending.len() {
            assert(now[k] == pending[k]);
        }
    }
    assert forall|x: u64| #[trigger]
        placed.dom().contains(x) && request_of(graph, LayerId(x), placed[x])
            is Some implies after.dom().contains(x) by {
        if !moved.dom().contains(x) {
            assert(request_of(graph, LayerId(x), placed[x]) == Some(q));
        }
    }
}

impl SpherePlan {
    /// What holds of a plan for that root between two steps.
    pub open spec fn agrees(&self, graph: Graph, root: LayerId) -> bool {
        in_order(self.placed@, self.moved@, self.pending@, self.open, graph, root)
    }

    /// A plan with the root on the faces, unmoved.
    pub fn new(root: LayerId) -> (r: SpherePlan)
        ensures
            r.placed@ == Map::<u64, Placement>::empty(),
            r.pending@.len() == 1,
            r.pending@[0].0 == root,
            is_unmoved(r.pending@[0].1),
            r.moved@ == Map::<u64, PointMap>::empty(),
            r.open is None,
            forall|graph: Graph| #[trigger] r.agrees(graph, root),
    {
        let mut pending: Vec<(LayerId, Placement)> = Vec::new();
        pending.push((root, Placement::Sphere(PointMap::identity())));
        let r = SpherePlan { placed: HashMap::new(), moved: HashMap::new(), pending, open: None };
        proof {
            assert forall|graph: Graph| #[trigger] r.agrees(graph, root) by {
                lemma_reaches_self(graph.edges(), root.0);
            }
        }
        r
    }

    /// True once nothing is left to be placed.
    pub fn is_done(&self) -> (r: bool)
        ensures
            r == (self.pending@.len() == 0 && self.open is None),
    {
        self.pending.len() == 0 && self.open.is_none()
    }

    /// Places the next layer, and lines up its inputs. Where the layer is a
    /// transform on a face with a source, the caller is asked to move the point
    /// map and hand it back by [`SpherePlan::place_moved`].
    pub fn step(&mut self, graph: &Graph) -> (r: Result<Option<MoveRequest>, BakeError>)
        requires
            ids_ascend(graph.layers@),
            old(self).pending@.len() > 0,
            old(self).open is None,
        ensures
            final(self).moved == old(self).moved,
            ({
                let (id, at) = old(self).pending@.last();
                let rest = old(self).pending@.drop_last();
                let placed = old(self).placed@;
                if placed.dom().contains(id.0) {
                    // Placed already: the placements must agree, but for a
                    // constant.
                    &&& final(self).placed@ == placed
                    &&& final(self).pending@ == rest
                    &&& if placed[id.0].same_spec(at) || is_constant(*graph, id) {
                        r == Ok::<Option<MoveRequest>, BakeError>(None)
                    } else {
                        r == Err::<Option<MoveRequest>, BakeError>(
                            BakeError::Unsupported(two_placements()),
                        )
                    }
                } else {
                    &&& final(self).placed@ == placed.insert(id.0, at)
                    &&& match refused_at(*graph, id, at) {
                        Some(why) => {
                            &&& final(self).pending@ == rest
                            &&& r == Err::<Option<MoveRequest>, BakeError>(
                                BakeError::Unsupported(why),
                            )
                        },
                        None => {
                            &&& final(self).pending@ == match graph.layer(id) {
                                Some(layer) => rest + placed_inputs(layer.kind, at),
                                None => rest,
                            }
                            &&& r == Ok::<Option<MoveRequest>, BakeError>(
                                request_of(*graph, id, at),
                            )
                        },
                    }
                }
            }),
            final(self).open == match r {
                Ok(request) => request,
                Err(_) => None,
            },
            forall|root: LayerId|
                r is Ok && old(self).agrees(*graph, root) ==> #[trigger] final(self).agrees(
                    *graph,
                    root,
                ),
    {
        let (id, at) = self.pending.pop().unwrap();
        assert(self.pending@ =~= old(self).pending@.drop_last());
        assert(LayerId(id.0) == id);
        proof {
            let (placed, moved, pending) = (old(self).placed@, old(self).moved@, old(self).pending@);
            assert forall|root: LayerId| #[trigger] old(self).agrees(*graph, root) implies {
                &&& placed.dom().contains(id.0) && (placed[id.0].same_spec(at) || is_constant(
                    *graph,
                    id,
                )) ==> in_order(placed, moved, pending.drop_last(), None, *graph, root)
                &&& !placed.dom().contains(id.0) && refused_at(*graph, id, at) is None
                    ==> in_order(
                    placed.insert(id.0, at),
                    moved,
                    pending.drop_last() + needs(*graph, moved, id.0, at),
                    request_of(*graph, id, at),
                    *graph,
                    root,
                ) && !moved.dom().contains(id.0)
            } by {
                if placed.dom().contains(id.0) {
                    if placed[id.0].same_spec(at) || is_constant(*graph, id) {
                        lemma_layer_found(placed, moved, pending, *graph, root);
                    }
                } else if refused_at(*graph, id, at) is None {
                    lemma_layer_placed(placed, moved, pending, *graph, root);
                }
            }
            lemma_unmoved_needs(*graph, moved, id, at, pending.drop_last());
        }
        let layer = graph.get(id);
        if let Some(before) = self.placed.get(&id.0) {
            let constant = match layer {
                Some(l) => match l.kind {
                    LayerKind::Color(_) => true,
                    _ => false,
                },
                None => false,
            };
            if !before.same(at) && !constant {
                return Err(BakeError::Unsupported("a layer a sphere bake needs at two placements"));
            }
            return Ok(None);
        }
        self.placed.insert(id.0, at);
        let layer = match layer {
            Some(l) => l,
            None => {
                return Ok(None);
            },
        };
        let map = match at {
            Placement::Sphere(map) => map,
            Placement::Plane => {
                self.line_up(&layer.kind.inputs(), at);
                return Ok(None);
            },
        };
        match &layer.kind {
            LayerKind::Color(_)
            | LayerKind::Noise(_)
            | LayerKind::Coordinate(_)
            | LayerKind::Mix(_)
            | LayerKind::MinMax(_)
            | LayerKind::Wave(_)
            | LayerKind::Craters(_) => {
                self.line_up(&layer.kind.inputs(), at);
                Ok(None)
            },
            LayerKind::GradientMap(m) => {
                let ghost rest = self.pending@;
                let mut value: Vec<LayerId> = Vec::new();
                crate::kind::push_opt(&mut value, m.value);
                assert(value@ =~= opt_ids(m.value));
                self.line_up(&value, at);
                let mut palette: Vec<LayerId> = Vec::new();
                crate::kind::push_opt(&mut palette, m.palette);
                assert(palette@ =~= opt_ids(m.palette));
                self.line_up(&palette, Placement::Plane);
                assert(self.pending@ =~= rest + placed_inputs(layer.kind, at));
                Ok(None)
            },
            LayerKind::Transform(t) => {
                let passthrough = match t.coord_mode {
                    CoordMode::Passthrough => true,
                    _ => false,
                };
                if !passthrough {
                    return Err(
                        BakeError::Unsupported(
                            "a Transform other than passthrough in a sphere bake",
                        ),
                    );
                }
                if t.edge_mode != EdgeMode::Extend {
                    return Err(BakeError::Unsupported("a clamping Transform in a sphere bake"));
                }
                assert(self.pending@ =~= self.pending@ + placed_inputs(layer.kind, at));
                self.open = match t.source {
                    Some(source) => Some(MoveRequest { id, transform: *t, source, map }),
                    None => None,
                };
                Ok(self.open)
            },
            LayerKind::ColorRamp(_) => Err(
                BakeError::Unsupported("ColorRamp in a sphere bake, other than as a Map's palette"),
            ),
            LayerKind::HeightToNormal(_) => {
                Err(BakeError::Unsupported("HeightToNormal in a sphere bake"))
            },
            LayerKind::Warp(_) => Err(BakeError::Unsupported("Warp in a sphere bake")),
        }
    }

    /// Lines up the source of the transform that the plan waits for, at the
    /// moved point.
    pub fn place_moved(&mut self, map: PointMap)
        requires
            old(self).open is Some,
        ensures
            ({
                let q = old(self).open->0;
                &&& final(self).placed == old(self).placed
                &&& final(self).moved@ == old(self).moved@.insert(q.id.0, map)
                &&& final(self).pending@ == old(self).pending@.push(
                    (q.source, Placement::Sphere(map)),
                )
                &&& final(self).open is None
            }),
            forall|graph: Graph, root: LayerId|
                old(self).agrees(graph, root) ==> #[trigger] final(self).agrees(graph, root),
    {
        let q = self.open.unwrap();
        self.open = None;
        self.moved.insert(q.id.0, map);
        self.pending.push((q.source, Placement::Sphere(map)));
        proof {
            assert forall|graph: Graph, root: LayerId|
                old(self).agrees(graph, root) implies #[trigger] self.agrees(graph, root) by {
                lemma_source_lined_up(
                    old(self).placed@,
                    old(self).moved@,
                    old(self).pending@,
                    q,
                    map,
                    graph,
                    root,
                );
            }
        }
    }

    /// Appends the ids, each with the same placement.
    fn line_up(&mut self, ids: &Vec<LayerId>, at: Placement)
        ensures
            final(self).placed == old(self).placed,
            final(self).moved == old(self).moved,
            final(self).open == old(self).open,
            final(self).pending@ == old(self).pending@ + placed_all(ids@, at),
    {
        let mut i: usize = 0;
        assert(self.pending@ =~= old(self).pending@ + placed_all(ids@, at).take(0));
        while i < ids.len()
            invariant
                i <= ids@.len(),
                self.placed == old(self).placed,
                self.moved == old(self).moved,
                self.open == old(self).open,
                self.pending@ == old(self).pending@ + placed_all(ids@, at).take(i as int),
            decreases ids@.len() - i,
        {
            self.pending.push((ids[i], at));
            assert(self.pending@ =~= old(self).pending@ + placed_all(ids@, at).take(i + 1));
            i += 1;
        }
        assert(placed_all(ids@, at).take(i as int) =~= placed_all(ids@, at));
    }
}

/// Before a transform has moved its point, a layer needs its inputs in place.
proof fn lemma_unmoved_needs(
    graph: Graph,
    moved: Map<u64, PointMap>,
    id: LayerId,
    at: Placement,
    rest: Seq<(LayerId, Placement)>,
)
    ensures
        !moved.dom().contains(id.0) ==> rest + needs(graph, moved, id.0, at) == match graph.layer(
            id,
        ) {
            Some(layer) => rest + placed_inputs(layer.kind, at),
            None => rest,
        },
{
    assert(LayerId(id.0) == id);
    if !moved.dom().contains(id.0) {
        match graph.layer(id) {
            Some(layer) => {
                assert(needs(graph, moved, id.0, at) =~= placed_inputs(layer.kind, at));
            },
            None => {
                assert(rest + needs(graph, moved, id.0, at) =~= rest);
            },
        }
    }
}

/// In a finished plan every layer lies where each of its readers reads it, a
/// transform's source at the moved point; but for a constant, which reads the
/// same everywhere.
pub proof fn law_finished_plan_agrees(
    plan: SpherePlan,
    graph: Graph,
    root: LayerId,
    x: u64,
    k: int,
)
    requires
        plan.agrees(graph, root),
        plan.pending@.len() == 0,
        plan.open is None,
        plan.placed@.dom().contains(x),
        0 <= k < needs(graph, plan.moved@, x, plan.placed@[x]).len(),
    ensures
        ({
            let (id, at) = needs(graph, plan.moved@, x, plan.placed@[x])[k];
            &&& plan.placed@.dom().contains(id.0)
            &&& plan.placed@[id.0] == at || plan.placed@[id.0].same_spec(at) || is_constant(
                graph,
                id,
            )
        }),
{
    let want = needs(graph, plan.moved@, x, plan.placed@[x])[k];
    assert(settled(plan.placed@, plan.pending@, graph, want));
}

/// In a finished plan the source of a transform on a face lies where the
/// transform moves the point, but for a constant.
pub proof fn law_moved_source_lies_at_the_moved_point(
    plan: SpherePlan,
    graph: Graph,
    root: LayerId,
    x: u64,
)
    requires
        plan.agrees(graph, root),
        plan.pending@.len() == 0,
        plan.open is None,
        plan.placed@.dom().contains(x),
        request_of(graph, LayerId(x), plan.placed@[x]) is Some,
    ensures
        plan.moved@.dom().contains(x),
        ({
            let source = request_of(graph, LayerId(x), plan.placed@[x])->0.source;
            let at = Placement::Sphere(plan.moved@[x]);
            &&& plan.placed@.dom().contains(source.0)
            &&& plan.placed@[source.0] == at || plan.placed@[source.0].same_spec(at)
                || is_constant(graph, source)
        }),
{
    assert(plan.moved@.dom().contains(x));
    let wants = needs(graph, plan.moved@, x, plan.placed@[x]);
    let source = request_of(graph, LayerId(x), plan.placed@[x])->0.source;
    assert(wants[wants.len() - 1] == (source, Placement::Sphere(plan.moved@[x])));
    law_finished_plan_agrees(plan, graph, root, x, wants.len() - 1);
}

/// A finished plan places exactly what the root depends on, itself included; the
/// root on the faces and unmoved, and no layer on a face that has no meaning
/// there.
pub proof fn law_finished_plan_places_what_is_read(plan: SpherePlan, graph: Graph, root: LayerId)
    requires
        plan.agrees(graph, root),
        plan.pending@.len() == 0,
        plan.open is None,
    ensures
        forall|x: u64| #[trigger]
            plan.placed@.dom().contains(x) <==> reaches(graph.edges(), root.0, x),
        is_unmoved(plan.placed@[root.0]),
        forall|x: u64| #[trigger]
            plan.placed@.dom().contains(x) ==> refused_at(graph, LayerId(x), plan.placed@[x])
                is None,
{
    let (placed, moved) = (plan.placed@, plan.moved@);
    let g = graph.edges();
    assert forall|a: u64, b: u64| placed.dom().contains(a) && #[trigger] reads(
        g,
        a,
        b,
    ) implies placed.dom().contains(b) by {
        let layer = graph.layer(LayerId(a))->0;
        let ids = layer.kind.input_ids();
        let m = raw_ids(ids).index_of(b);
        assert(ids[m] == LayerId(b));
        let at = placed[a];
        let wants = needs(graph, moved, a, at);
        let k = match (at, layer.kind) {
            (Placement::Sphere(_), LayerKind::Transform(t)) => wants.len() - 1,
            _ => m,
        };
        if at is Sphere && layer.kind is Transform {
            law_moved_source_lies_at_the_moved_point(plan, graph, root, a);
        }
        assert(0 <= k < wants.len() && wants[k].0 == LayerId(b));
        law_finished_plan_agrees(plan, graph, root, a, k);
    }
    assert(closed_under(g, placed.dom()));
    assert forall|x: u64| #[trigger] placed.dom().contains(x) <==> reaches(g, root.0, x) by {
        if reaches(g, root.0, x) {
            lemma_closed_keeps(g, placed.dom(), root.0, x);
        }
    }
}

/// Two maps are the same, entry by entry: the same bits, or the same number.
pub open spec fn moved_alike(a: PointMap, b: PointMap) -> bool {
    forall|i: int|
        #![trigger a.rows@[i]]
        #![trigger b.rows@[i]]
        0 <= i < 12 ==> a.rows@[i] == b.rows@[i] || {
            &&& !a.rows@[i].is_nan_spec()
            &&& !b.rows@[i].is_nan_spec()
            &&& a.rows@[i].scaled() == b.rows@[i].scaled()
        }
}

/// In a finished plan every input of a layer on a face lies on the faces too, at
/// the layer's own point; but for a gradient map's palette, which lies on the
/// plane, and a transform's source, which lies at the point that the transform
/// moves. What a layer on the plane reads lies on the plane. A constant may lie
/// anywhere.
pub proof fn law_inputs_share_their_readers_placement(
    plan: SpherePlan,
    graph: Graph,
    root: LayerId,
    x: u64,
    id: LayerId,
)
    requires
        plan.agrees(graph, root),
        plan.pending@.len() == 0,
        plan.open is None,
        plan.placed@.dom().contains(x),
        graph.layer(LayerId(x)) is Some,
        (graph.layer(LayerId(x))->0).kind.input_ids().contains(id),
        graph.layer(id) is Some ==> (graph.layer(id)->0).kind !is Color,
    ensures
        plan.placed@.dom().contains(id.0),
        ({
            let kind = (graph.layer(LayerId(x))->0).kind;
            let there = plan.placed@[id.0];
            match plan.placed@[x] {
                Placement::Plane => there is Plane,
                Placement::Sphere(map) => match kind {
                    LayerKind::Transform(_) => {
                        &&& there is Sphere
                        &&& plan.moved@.dom().contains(x)
                        &&& moved_alike(there->Sphere_0, plan.moved@[x])
                    },
                    LayerKind::GradientMap(m) => {
                        &&& m.value == Some(id) ==> there is Sphere && moved_alike(
                            there->Sphere_0,
                            map,
                        )
                        &&& m.palette == Some(id) ==> there is Plane
                    },
                    _ => there is Sphere && moved_alike(there->Sphere_0, map),
                },
            }
        }),
{
    let kind = (graph.layer(LayerId(x))->0).kind;
    let ids = kind.input_ids();
    let at = plan.placed@[x];
    let wants = needs(graph, plan.moved@, x, at);
    let m = ids.index_of(id);
    match (at, kind) {
        (Placement::Sphere(_), LayerKind::Transform(t)) => {
            assert(t.source == Some(id));
            law_moved_source_lies_at_the_moved_point(plan, graph, root, x);
        },
        (Placement::Sphere(_), LayerKind::GradientMap(g)) => {
            let n = opt_ids(g.value).len() as int;
            if g.value == Some(id) {
                assert(wants[0] == (id, at));
                law_finished_plan_agrees(plan, graph, root, x, 0);
            }
            if g.palette == Some(id) {
                assert(wants[n] == (id, Placement::Plane));
                law_finished_plan_agrees(plan, graph, root, x, n);
            }
            assert(g.value == Some(id) || g.palette == Some(id));
        },
        _ => {
            assert(wants[m] == (id, at));
            law_finished_plan_agrees(plan, graph, root, x, m);
        },
    }
}

/// On a face no ramp, normal map or warp has a meaning, nor a transform that
/// rearranges the point or clamps it; every other kind has. On the plane of a flat
/// bake none is refused.
pub proof fn law_faces_refuse_what_reads_elsewhere(graph: Graph, id: LayerId, at: Placement)
    requires
        graph.layer(id) is Some,
    ensures
        refused_at(graph, id, at) is Some <==> {
            let kind = (graph.layer(id)->0).kind;
            &&& at is Sphere
            &&& {
                ||| kind is ColorRamp
                ||| kind is HeightToNormal
                ||| kind is Warp
                ||| kind matches LayerKind::Transform(t) && !(t.coord_mode is Passthrough
                    && t.edge_mode == EdgeMode::Extend)
            }
        },
{
}

/// The caller is asked for a moved point exactly where a transform with a source
/// lies on a face, and is handed that transform, its source and its own point.
pub proof fn law_requests_hand_over_the_transform(graph: Graph, id: LayerId, at: Placement)
    ensures
        match request_of(graph, id, at) {
            Some(q) => {
                &&& q.id == id
                &&& at == Placement::Sphere(q.map)
                &&& graph.layer(id) is Some
                &&& (graph.layer(id)->0).kind == LayerKind::Transform(q.transform)
                &&& q.transform.source == Some(q.source)
            },
            None => {
                ||| at is Plane
                ||| graph.layer(id) is None
                ||| (graph.layer(id)->0).kind !is Transform
                ||| ((graph.layer(id)->0).kind->Transform_0).source is None
            },
        },
{
}

/// The map that moves nothing takes each coordinate of the point from itself
/// alone, once, and shifts none: row by row a 1 at the row's own place.
pub proof fn law_identity_moves_nothing(row: int, column: int)
    requires
        0 <= row < 3,
        0 <= column < 4,
    ensures
        identity_rows().len() == 12,
        identity_rows()[4 * row + column].bits == if row == column {
            0x3f80_0000u32
        } else {
            0u32
        },
{
    assert(row == 0 || row == 1 || row == 2);
    assert(column == 0 || column == 1 || column == 2 || column == 3);
}

/// Two placements agree where both are on the plane, or both on the faces at the
/// same point: every entry of the maps is the same number. So they agree both
/// ways round, and a plane never agrees with a face.
pub proof fn law_placements_agree_as_points(a: Placement, b: Placement)
    ensures
        a.same_spec(b) <==> {
            ||| a is Plane && b is Plane
            ||| a is Sphere && b is Sphere && forall|i: int|
                #![trigger a->Sphere_0.rows@[i]]
                0 <= i < 12 ==> {
                    &&& !a->Sphere_0.rows@[i].is_nan_spec()
                    &&& !b->Sphere_0.rows@[i].is_nan_spec()
                    &&& a->Sphere_0.rows@[i].scaled() == b->Sphere_0.rows@[i].scaled()
                }
        },
        a.same_spec(b) <==> b.same_spec(a),
{
    if let (Placement::Sphere(m), Placement::Sphere(n)) = (a, b) {
        assert forall|i: int| 0 <= i < 12 implies (#[trigger] m.rows@[i]).same_spec(n.rows@[i])
            == n.rows@[i].same_spec(m.rows@[i]) by {}
        if m.same_spec(n) {
            assert forall|i: int| 0 <= i < 12 implies (#[trigger] n.rows@[i]).same_spec(
                m.rows@[i],
            ) by {
                assert(m.rows@[i].same_spec(n.rows@[i]));
            }
        }
        if n.same_spec(m) {
            assert forall|i: int| 0 <= i < 12 implies (#[trigger] m.rows@[i]).same_spec(
                n.rows@[i],
            ) by {
                assert(n.rows@[i].same_spec(m.rows@[i]));
            }
        }
    }
}

} // verus!
