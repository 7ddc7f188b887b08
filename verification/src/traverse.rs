//! Walks over the layers of a graph.
use std::collections::HashSet;

use vstd::prelude::*;

use crate::graph::{has_layer, ids_ascend, layer_edges, layer_ids, lemma_place_of, Graph, Layer};
use crate::id::{raw_ids, LayerId};
use crate::kind::{Axis, CoordMode, LayerKind, NoiseDims, RadialDim};
use crate::reach::{
    children, closed_under, cycle_from, dependencies_first, first_unknown, lemma_closed_keeps,
    lemma_order_excludes_cycles, lemma_order_is_closed, lemma_reads_then_reaches,
    lemma_reaches_self, lemma_reaches_then_reads, lemma_restrict_closed, lemma_restrict_reads,
    next_unknown, on_cycle, post_order, post_order_all, reached_from, reaches, reaches_by_edge,
    reads, restrict,
};

verus! {

/// There are finitely many layers.
pub proof fn lemma_edges_finite(layers: Seq<Layer>)
    ensures
        layer_edges(layers).dom().finite(),
{
    let ids = layer_ids(layers);
    vstd::seq_lib::seq_to_set_is_finite(ids);
    assert(layer_edges(layers).dom() =~= ids.to_set()) by {
        assert forall|id: u64| has_layer(layers, id) <==> ids.to_set().contains(id) by {
            if has_layer(layers, id) {
                let i = choose|i: int| 0 <= i < layers.len() && (#[trigger] layers[i]).id.0 == id;
                assert(ids[i] == id);
            }
            if ids.contains(id) {
                let i = choose|i: int| 0 <= i < ids.len() && ids[i] == id;
                assert(layers[i].id.0 == id);
            }
        }
    }
}

/// A known layer's edges are its inputs.
pub proof fn lemma_children_of_layer(layers: Seq<Layer>, i: int)
    requires
        ids_ascend(layers),
        0 <= i < layers.len(),
    ensures
        layer_edges(layers).dom().contains(layers[i].id.0),
        layer_edges(layers)[layers[i].id.0] == raw_ids(layers[i].kind.input_ids()),
{
    lemma_place_of(layers, i);
}

/// A layer of this kind may differ from one `w` to another on its own account.
pub open spec fn varies_along_w(kind: LayerKind) -> bool {
    match kind {
        LayerKind::Noise(n) => n.dims == NoiseDims::D3,
        LayerKind::Coordinate(c) => c.axis == Axis::W,
        LayerKind::Transform(t) => match t.coord_mode {
            CoordMode::Permute(axes) => axes@.contains(Axis::W),
            CoordMode::Radial { dim, .. } => dim == RadialDim::D3,
            CoordMode::Passthrough => false,
        },
        // Its cells are a lattice in all three coordinates.
        LayerKind::Craters(_) => true,
        _ => false,
    }
}

/// A layer of this kind may differ from one `w` to another on its own account.
fn kind_varies_along_w(kind: &LayerKind) -> (r: bool)
    ensures
        r == varies_along_w(*kind),
{
    match kind {
        LayerKind::Noise(n) => n.dims == NoiseDims::D3,
        LayerKind::Coordinate(c) => c.axis == Axis::W,
        LayerKind::Transform(t) => match t.coord_mode {
            CoordMode::Permute(axes) => {
                let r = axes[0] == Axis::W || axes[1] == Axis::W || axes[2] == Axis::W;
                assert(r == axes@.contains(Axis::W));
                r
            },
            CoordMode::Radial { dim, .. } => dim == RadialDim::D3,
            CoordMode::Passthrough => false,
        },
        // Its cells are a lattice in all three coordinates.
        LayerKind::Craters(_) => true,
        _ => false,
    }
}

impl Graph {
    /// Everything that the roots reach, themselves included, by raw id; and the
    /// first id met on the way that no layer has, if there is one.
    pub fn upstream(&self, roots: &Vec<LayerId>) -> (r: (HashSet<u64>, Option<LayerId>))
        requires
            ids_ascend(self.layers@),
        ensures
            r.0@.finite(),
            forall|x: u64| #[trigger]
                r.0@.contains(x) <==> reached_from(self.edges(), raw_ids(roots@), x),
            match r.1 {
                Some(id) => {
                    &&& r.0@.contains(id.0)
                    &&& !has_layer(self.layers@, id.0)
                    &&& first_unknown(self.edges(), raw_ids(roots@)) == Some(id.0)
                },
                None => {
                    &&& forall|x: u64| #[trigger]
                        r.0@.contains(x) ==> has_layer(self.layers@, x)
                    &&& first_unknown(self.edges(), raw_ids(roots@)) is None
                },
            },
    {
        let ghost g = self.edges();
        let ghost start = raw_ids(roots@);
        let mut stack: Vec<LayerId> = Vec::new();
        let mut k: usize = 0;
        while k < roots.len()
            invariant
                k <= roots@.len(),
                stack@ == roots@.take(k as int),
            decreases roots@.len() - k,
        {
            stack.push(roots[k]);
            assert(roots@.take(k + 1) =~= roots@.take(k as int).push(roots@[k as int]));
            k += 1;
        }
        assert(roots@.take(k as int) =~= roots@);
        let mut seen: HashSet<u64> = HashSet::new();
        let mut unknown: Option<LayerId> = None;
        proof {
            lemma_edges_finite(self.layers@);
            reveal(first_unknown);
            assert(raw_ids(stack@) =~= start);
            assert forall|i: int| 0 <= i < stack@.len() implies reached_from(
                g,
                start,
                (#[trigger] stack@[i]).0,
            ) by {
                assert(start[i] == stack@[i].0);
                lemma_reaches_self(g, start[i]);
            }
        }
        while stack.len() > 0
            invariant
                ids_ascend(self.layers@),
                g == self.edges(),
                start == raw_ids(roots@),
                g.dom().finite(),
                seen@.finite(),
                forall|x: u64| #[trigger] seen@.contains(x) ==> reached_from(g, start, x),
                forall|i: int|
                    0 <= i < stack@.len() ==> reached_from(g, start, (#[trigger] stack@[i]).0),
                forall|i: int|
                    0 <= i < roots@.len() ==> seen@.contains((#[trigger] roots@[i]).0)
                        || stack@.contains(roots@[i]),
                forall|a: u64, b: u64|
                    seen@.contains(a) && #[trigger] reads(g, a, b) ==> seen@.contains(b)
                        || stack@.contains(LayerId(b)),
                match unknown {
                    Some(id) => {
                        &&& seen@.contains(id.0)
                        &&& !has_layer(self.layers@, id.0)
                        &&& first_unknown(g, start) == Some(id.0)
                    },
                    None => {
                        &&& forall|x: u64| #[trigger]
                            seen@.contains(x) ==> has_layer(self.layers@, x)
                        &&& first_unknown(g, start) == next_unknown(g, raw_ids(stack@), seen@)
                    },
                },
            decreases g.dom().difference(seen@).len(), stack@.len(),
        {
            let ghost stack0 = stack@;
            let ghost seen0 = seen@;
            let cur: LayerId = stack.pop().unwrap();
            assert(stack0 =~= stack@.push(cur));
            assert(raw_ids(stack0).drop_last() =~= raw_ids(stack@));
            assert(raw_ids(stack0).last() == cur.0);
            assert(reached_from(g, start, cur.0)) by {
                assert(stack0[stack0.len() - 1] == cur);
            }
            assert(forall|x: LayerId| stack0.contains(x) ==> stack@.contains(x) || x == cur) by {
                assert forall|x: LayerId| stack0.contains(x) implies stack@.contains(x) || x
                    == cur by {
                    let i = choose|i: int| 0 <= i < stack0.len() && stack0[i] == x;
                    if i < stack@.len() {
                        assert(stack@[i] == x);
                    }
                }
            }
            assert forall|i: int| 0 <= i < stack@.len() implies reached_from(
                g,
                start,
                (#[trigger] stack@[i]).0,
            ) by {
                assert(stack0[i] == stack@[i]);
            }
            if seen.contains(&cur.0) {
                assert forall|i: int| 0 <= i < roots@.len() implies seen@.contains(
                    (#[trigger] roots@[i]).0,
                ) || stack@.contains(roots@[i]) by {}
                continue;
            }
            seen.insert(cur.0);
            let ghost stack1 = stack@;
            match self.get(cur) {
                Some(l) => {
                    proof {
                        assert(g.dom().difference(seen@) =~= g.dom().difference(seen0).remove(
                            cur.0,
                        ));
                        assert(g.dom().difference(seen0).contains(cur.0));
                    }
                    let mut more = l.kind.inputs();
                    let ghost inputs = more@;
                    stack.append(&mut more);
                    proof {
                        assert(g[cur.0] == raw_ids(inputs));
                        assert(raw_ids(stack@) =~= raw_ids(stack1) + raw_ids(inputs));
                        assert forall|i: int| 0 <= i < stack@.len() implies reached_from(
                            g,
                            start,
                            (#[trigger] stack@[i]).0,
                        ) by {
                            if i < stack1.len() {
                                assert(stack@[i] == stack1[i]);
                            } else {
                                let j = i - stack1.len();
                                assert(stack@[i] == inputs[j]);
                                assert(raw_ids(inputs)[j] == stack@[i].0);
                                assert(reads(g, cur.0, stack@[i].0));
                                let r = choose|r: int|
                                    0 <= r < start.len() && reaches(g, #[trigger] start[r], cur.0);
                                lemma_reaches_then_reads(g, start[r], cur.0, stack@[i].0);
                            }
                        }
                        assert forall|x: LayerId| stack1.contains(x) implies stack@.contains(x) by {
                            let i = choose|i: int| 0 <= i < stack1.len() && stack1[i] == x;
                            assert(stack@[i] == x);
                        }
                        assert forall|a: u64, b: u64|
                            seen@.contains(a) && #[trigger] reads(g, a, b) implies seen@.contains(b)
                            || stack@.contains(LayerId(b)) by {
                            if a == cur.0 {
                                let j = choose|j: int|
                                    0 <= j < raw_ids(inputs).len() && raw_ids(inputs)[j] == b;
                                assert(inputs[j] == LayerId(b));
                                assert(stack@[stack1.len() + j] == LayerId(b));
                            } else {
                                assert(seen0.contains(a));
                            }
                        }
                    }
                },
                None => {
                    if unknown.is_none() {
                        unknown = Some(cur);
                    }
                    proof {
                        assert(g.dom().difference(seen@) =~= g.dom().difference(seen0));
                        assert forall|a: u64, b: u64|
                            seen@.contains(a) && #[trigger] reads(g, a, b) implies seen@.contains(b)
                            || stack@.contains(LayerId(b)) by {
                            assert(a != cur.0);
                            assert(seen0.contains(a));
                        }
                    }
                },
            }
        }
        proof {
            assert(closed_under(g, seen@)) by {
                assert forall|a: u64, b: u64|
                    seen@.contains(a) && #[trigger] reads(g, a, b) implies seen@.contains(b) by {}
            }
            assert forall|x: u64| reached_from(g, start, x) implies #[trigger] seen@.contains(x) by {
                let i = choose|i: int| 0 <= i < start.len() && reaches(g, #[trigger] start[i], x);
                assert(start[i] == roots@[i].0);
                lemma_closed_keeps(g, seen@, start[i], x);
            }
        }
        (seen, unknown)
    }

    /// Lists `id` after everything it reads within `required` that is not
    /// listed yet. `visiting` holds the nodes that are being listed, each of
    /// which reaches `id`. True where that meets a node that depends on
    /// itself; the lists are then left as they stand.
    pub(crate) fn list_dependencies(
        &self,
        id: LayerId,
        required: &HashSet<u64>,
        visiting: &mut HashSet<u64>,
        done: &mut HashSet<u64>,
        order: &mut Vec<LayerId>,
    ) -> (cyclic: bool)
        requires
            ids_ascend(self.layers@),
            required@.finite(),
            required@.contains(id.0),
            old(visiting)@.subset_of(required@),
            old(done)@.subset_of(required@),
            old(done)@ == raw_ids(old(order)@).to_set(),
            old(done)@.disjoint(old(visiting)@),
            dependencies_first(restrict(self.edges(), required@), raw_ids(old(order)@)),
            forall|v: u64| #[trigger]
                old(visiting)@.contains(v) ==> reaches_by_edge(
                    restrict(self.edges(), required@),
                    v,
                    id.0,
                ),
        ensures
            cyclic ==> cycle_from(restrict(self.edges(), required@), id.0),
            !cyclic ==> {
                &&& final(visiting)@ == old(visiting)@
                &&& final(done)@.subset_of(required@)
                &&& final(done)@ == raw_ids(final(order)@).to_set()
                &&& final(done)@.disjoint(old(visiting)@)
                &&& final(done)@.contains(id.0)
                &&& old(done)@.subset_of(final(done)@)
                &&& dependencies_first(restrict(self.edges(), required@), raw_ids(final(order)@))
                &&& forall|x: u64| #[trigger]
                    final(done)@.contains(x) ==> old(done)@.contains(x) || reaches(
                        restrict(self.edges(), required@),
                        id.0,
                        x,
                    )
                &&& raw_ids(final(order)@) == post_order(
                    restrict(self.edges(), required@),
                    id.0,
                    raw_ids(old(order)@),
                    required@.difference(old(visiting)@).len(),
                )
            },
        decreases required@.difference(old(visiting)@).len(),
    {
        let ghost h = restrict(self.edges(), required@);
        let ghost order0 = raw_ids(order@);
        let ghost visiting0 = visiting@;
        let ghost depth = required@.difference(visiting0).len();
        if done.contains(&id.0) {
            assert(order0.contains(id.0));
            return false;
        }
        if visiting.contains(&id.0) {
            proof {
                lemma_reaches_self(h, id.0);
                assert(on_cycle(h, id.0));
            }
            return true;
        }
        visiting.insert(id.0);
        proof {
            assert(required@.difference(visiting@) =~= required@.difference(visiting0).remove(id.0));
            assert(required@.difference(visiting0).contains(id.0));
        }
        let ghost keep = |b: u64| required@.contains(b);
        let inputs: Vec<LayerId> = match self.get(id) {
            Some(l) => l.kind.inputs(),
            None => Vec::new(),
        };
        proof {
            if has_layer(self.layers@, id.0) {
                assert(h.dom().contains(id.0));
                assert(h[id.0] =~= raw_ids(inputs@).filter(keep));
            } else {
                assert(!h.dom().contains(id.0));
                assert(raw_ids(inputs@) =~= Seq::<u64>::empty());
                reveal(Seq::filter);
            }
            assert(children(h, id.0) == raw_ids(inputs@).filter(keep));
            assert(raw_ids(inputs@).take(0) =~= Seq::<u64>::empty());
            reveal(Seq::filter);
            assert(raw_ids(inputs@).take(0).filter(keep) =~= Seq::<u64>::empty());
        }
        let mut i: usize = 0;
        while i < inputs.len()
            invariant
                i <= inputs@.len(),
                ids_ascend(self.layers@),
                h == restrict(self.edges(), required@),
                keep == (|b: u64| required@.contains(b)),
                required@.finite(),
                required@.contains(id.0),
                children(h, id.0) == raw_ids(inputs@).filter(keep),
                h.dom().contains(id.0) || inputs@.len() == 0,
                order0 == raw_ids(old(order)@),
                visiting0 == old(visiting)@,
                !visiting0.contains(id.0),
                visiting@ == visiting0.insert(id.0),
                visiting@.subset_of(required@),
                depth == required@.difference(visiting0).len(),
                required@.difference(visiting@).len() == depth - 1,
                done@.subset_of(required@),
                done@ == raw_ids(order@).to_set(),
                done@.disjoint(visiting@),
                old(done)@.subset_of(done@),
                dependencies_first(h, raw_ids(order@)),
                forall|v: u64| #[trigger] visiting0.contains(v) ==> reaches_by_edge(h, v, id.0),
                forall|j: int|
                    0 <= j < i && required@.contains(inputs@[j].0) ==> done@.contains(
                        (#[trigger] inputs@[j]).0,
                    ),
                forall|x: u64| #[trigger]
                    done@.contains(x) ==> old(done)@.contains(x) || reaches(h, id.0, x),
                raw_ids(order@) == post_order_all(
                    h,
                    raw_ids(inputs@).take(i as int).filter(keep),
                    order0,
                    (depth - 1) as nat,
                ),
            decreases inputs@.len() - i,
        {
            let child: LayerId = inputs[i];
            let ghost taken = raw_ids(inputs@).take(i as int);
            let ghost next = raw_ids(inputs@).take(i + 1);
            proof {
                assert(next.drop_last() =~= taken);
                assert(next.last() == child.0);
                reveal(Seq::filter);
            }
            if required.contains(&child.0) {
                proof {
                    assert(reads(self.edges(), id.0, child.0)) by {
                        assert(raw_ids(inputs@)[i as int] == child.0);
                        lemma_filter_keeps_place(raw_ids(inputs@), keep, i as int);
                        lemma_restrict_reads(self.edges(), required@, id.0, child.0);
                        assert(h[id.0].contains(child.0));
                        assert(reads(h, id.0, child.0));
                    }
                    lemma_restrict_reads(self.edges(), required@, id.0, child.0);
                    assert(reads(h, id.0, child.0));
                    lemma_reaches_self(h, child.0);
                    assert forall|v: u64| #[trigger] visiting@.contains(v) implies reaches_by_edge(
                        h,
                        v,
                        child.0,
                    ) by {
                        if v != id.0 {
                            let m = choose|m: u64| #[trigger] reads(h, v, m) && reaches(h, m, id.0);
                            lemma_reaches_then_reads(h, m, id.0, child.0);
                            assert(reads(h, v, m));
                        }
                    }
                }
                let ghost done1 = done@;
                let cyclic = self.list_dependencies(child, required, visiting, done, order);
                if cyclic {
                    proof {
                        let x = choose|x: u64| #[trigger] reaches(h, child.0, x) && on_cycle(h, x);
                        lemma_reads_then_reaches(h, id.0, child.0, x);
                    }
                    return true;
                }
                proof {
                    assert forall|x: u64| #[trigger] done@.contains(x) implies old(done)@.contains(
                        x,
                    ) || reaches(h, id.0, x) by {
                        if !done1.contains(x) {
                            lemma_reads_then_reaches(h, id.0, child.0, x);
                        }
                    }
                    let f = next.filter(keep);
                    assert(f == taken.filter(keep).push(child.0));
                    assert(f.drop_last() =~= taken.filter(keep));
                    assert(f.last() == child.0);
                }
            } else {
                assert(next.filter(keep) =~= taken.filter(keep));
            }
            i += 1;
        }
        assert(raw_ids(inputs@).take(i as int) =~= raw_ids(inputs@));
        visiting.remove(&id.0);
        assert(visiting@ =~= visiting0);
        let ghost order1 = raw_ids(order@);
        assert(!order1.contains(id.0)) by {
            assert(!done@.contains(id.0));
        }
        done.insert(id.0);
        order.push(id);
        proof {
            let order2 = raw_ids(order@);
            assert(order2 =~= order1.push(id.0));
            assert(done@ =~= order2.to_set()) by {
                assert forall|x: u64| done@.contains(x) <==> order2.to_set().contains(x) by {
                    if order1.contains(x) {
                        let j = choose|j: int| 0 <= j < order1.len() && order1[j] == x;
                        assert(order2[j] == x);
                    }
                    if x == id.0 {
                        assert(order2[order1.len() as int] == x);
                    }
                    if order2.contains(x) && x != id.0 {
                        let j = choose|j: int| 0 <= j < order2.len() && order2[j] == x;
                        assert(order1[j] == x);
                    }
                }
            }
            assert(dependencies_first(h, order2)) by {
                assert forall|k: int, b: u64|
                    #![trigger reads(h, order2[k], b)]
                    0 <= k < order2.len() && reads(h, order2[k], b) implies exists|j: int|
                    0 <= j < k && #[trigger] order2[j] == b by {
                    if k < order1.len() {
                        assert(order1[k] == order2[k]);
                        assert(reads(h, order1[k], b));
                        let j = choose|j: int| 0 <= j < k && #[trigger] order1[j] == b;
                        assert(order2[j] == b);
                    } else {
                        lemma_restrict_reads(self.edges(), required@, id.0, b);
                        let j = choose|j: int|
                            0 <= j < raw_ids(inputs@).len() && raw_ids(inputs@)[j] == b;
                        assert(inputs@[j].0 == b);
                        assert(order1.contains(b));
                        let q = choose|q: int| 0 <= q < order1.len() && order1[q] == b;
                        assert(order2[q] == b);
                    }
                }
            }
            lemma_reaches_self(h, id.0);
        }
        false
    }

    /// True where some layer that `start` reaches depends on itself.
    pub(crate) fn has_cycle_from(&self, start: LayerId) -> (r: bool)
        requires
            ids_ascend(self.layers@),
        ensures
            r == cycle_from(self.edges(), start.0),
    {
        let mut roots: Vec<LayerId> = Vec::new();
        roots.push(start);
        let (required, _) = self.upstream(&roots);
        let mut visiting: HashSet<u64> = HashSet::new();
        let mut done: HashSet<u64> = HashSet::new();
        let mut order: Vec<LayerId> = Vec::new();
        let ghost g = self.edges();
        let ghost h = restrict(g, required@);
        proof {
            assert(raw_ids(order@) =~= Seq::<u64>::empty());
            assert(done@ =~= raw_ids(order@).to_set());
            assert(raw_ids(roots@) =~= seq![start.0]);
            lemma_reaches_self(g, start.0);
            assert(reached_from(g, raw_ids(roots@), start.0)) by {
                assert(raw_ids(roots@)[0] == start.0);
            }
            assert(closed_under(g, required@)) by {
                assert forall|a: u64, b: u64|
                    required@.contains(a) && #[trigger] reads(g, a, b) implies required@.contains(
                    b,
                ) by {
                    lemma_reaches_then_reads(g, start.0, a, b);
                    assert(raw_ids(roots@)[0] == start.0);
                }
            }
        }
        let cyclic = self.list_dependencies(start, &required, &mut visiting, &mut done, &mut order);
        proof {
            if cyclic {
                let x = choose|x: u64| #[trigger] reaches(h, start.0, x) && on_cycle(h, x);
                lemma_restrict_closed(g, required@, start.0, x);
                lemma_closed_keeps(g, required@, start.0, x);
                lemma_restrict_closed(g, required@, x, x);
                assert(on_cycle(g, x));
            } else if cycle_from(g, start.0) {
                let x = choose|x: u64| #[trigger] reaches(g, start.0, x) && on_cycle(g, x);
                lemma_restrict_closed(g, required@, start.0, x);
                lemma_closed_keeps(g, required@, start.0, x);
                lemma_restrict_closed(g, required@, x, x);
                lemma_order_is_closed(h, raw_ids(order@));
                lemma_closed_keeps(h, done@, start.0, x);
                let i = choose|i: int| 0 <= i < raw_ids(order@).len() && raw_ids(order@)[i] == x;
                lemma_order_excludes_cycles(h, raw_ids(order@), i);
            }
        }
        cyclic
    }

    /// True if `id` contributes to the output.
    pub fn is_reachable(&self, id: LayerId) -> (r: bool)
        requires
            ids_ascend(self.layers@),
        ensures
            r == reached_from(self.edges(), raw_ids(self.output.referenced_ids()), id.0),
    {
        let (seen, _) = self.upstream(&self.output.referenced());
        seen.contains(&id.0)
    }

    /// True when any layer that contributes to the output varies along `w`,
    /// so that the graph is a solid texture rather than a flat image.
    pub fn output_is_3d(&self) -> (r: bool)
        requires
            ids_ascend(self.layers@),
        ensures
            r == exists|i: int|
                0 <= i < self.layers@.len() && varies_along_w(
                    (#[trigger] self.layers@[i]).kind,
                ) && reached_from(
                    self.edges(),
                    raw_ids(self.output.referenced_ids()),
                    self.layers@[i].id.0,
                ),
    {
        let (seen, _) = self.upstream(&self.output.referenced());
        let mut i: usize = 0;
        while i < self.layers.len()
            invariant
                i <= self.layers@.len(),
                forall|x: u64| #[trigger]
                    seen@.contains(x) <==> reached_from(
                        self.edges(),
                        raw_ids(self.output.referenced_ids()),
                        x,
                    ),
                forall|j: int|
                    0 <= j < i ==> !(varies_along_w((#[trigger] self.layers@[j]).kind)
                        && seen@.contains(self.layers@[j].id.0)),
            decreases self.layers@.len() - i,
        {
            if kind_varies_along_w(&self.layers[i].kind) && seen.contains(&self.layers[i].id.0) {
                return true;
            }
            i += 1;
        }
        false
    }

    /// True if wiring `candidate_input` into `node` would create a cycle.
    /// Exact even when the wire replaces an existing input, since a cycle
    /// would have to run from the candidate to the node and cannot use the
    /// replaced edge.
    pub fn would_cycle(&self, node: LayerId, candidate_input: LayerId) -> (r: bool)
        requires
            ids_ascend(self.layers@),
        ensures
            r == reaches(self.edges(), candidate_input.0, node.0),
    {
        let mut roots: Vec<LayerId> = Vec::new();
        roots.push(candidate_input);
        let (seen, _) = self.upstream(&roots);
        proof {
            assert(raw_ids(roots@) =~= seq![candidate_input.0]);
            if reaches(self.edges(), candidate_input.0, node.0) {
                assert(raw_ids(roots@)[0] == candidate_input.0);
            }
        }
        seen.contains(&node.0)
    }
}

/// Filtering keeps an element that passes.
proof fn lemma_filter_keeps_place(s: Seq<u64>, keep: spec_fn(u64) -> bool, i: int)
    requires
        0 <= i < s.len(),
        keep(s[i]),
    ensures
        s.filter(keep).contains(s[i]),
    decreases s.len(),
{
    reveal(Seq::filter);
    let f = s.filter(keep);
    if i == s.len() - 1 {
        assert(f[f.len() - 1] == s[i]);
    } else {
        assert(s.drop_last()[i] == s[i]);
        lemma_filter_keeps_place(s.drop_last(), keep, i);
        let rest = s.drop_last().filter(keep);
        let j = choose|j: int| 0 <= j < rest.len() && rest[j] == s[i];
        assert(f[j] == s[i]);
    }
}

/// What varies along `w` on its own account: a noise of three dimensions, the
/// `w` coordinate itself, a transform that samples by `w` or by the distance
/// in space, and craters. Everything else varies only with what it reads.
pub proof fn law_kinds_that_vary_along_w(kind: LayerKind)
    ensures
        kind is Craters ==> varies_along_w(kind),
        kind matches LayerKind::Noise(n) ==> (varies_along_w(kind) <==> n.dims is D3),
        kind matches LayerKind::Coordinate(c) ==> (varies_along_w(kind) <==> c.axis is W),
        kind matches LayerKind::Transform(t) ==> {
            &&& t.coord_mode is Passthrough ==> !varies_along_w(kind)
            &&& t.coord_mode matches CoordMode::Permute(axes) ==> (varies_along_w(kind)
                <==> axes[0] is W || axes[1] is W || axes[2] is W)
            &&& t.coord_mode matches CoordMode::Radial { dim, .. } ==> (varies_along_w(kind)
                <==> dim is D3)
        },
        kind is Color || kind is ColorRamp || kind is Mix || kind is GradientMap || kind is MinMax
            || kind is HeightToNormal || kind is Wave || kind is Warp ==> !varies_along_w(kind),
{
    if let LayerKind::Transform(t) = kind {
        if let CoordMode::Permute(axes) = t.coord_mode {
            assert(axes@[0] == axes[0] && axes@[1] == axes[1] && axes@[2] == axes[2]);
            if axes@.contains(Axis::W) {
                let i = choose|i: int| 0 <= i < axes@.len() && axes@[i] == Axis::W;
                assert(i == 0 || i == 1 || i == 2);
            }
        }
    }
}

} // verus!
