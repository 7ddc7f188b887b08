//! The order in which layers are computed, and the slot each is computed into.
//!
//! A slot is one of the baker's pooled textures. Slots are given out by linear
//! scan: a layer's slot is free again after its last reader ran, and the slot
//! of a layer that the output reads is never freed. Greedy is optimal for a
//! fixed order, as interval coloring is; choosing the order that needs the
//! fewest slots is not attempted.
use std::collections::{HashMap, HashSet};

use vstd::prelude::*;

use crate::bind::resolved;
use crate::domains::{Domain, DomainWalk};
use crate::edit::lemma_known_closed;
use crate::eval::{scalar_read, EvalCtx};
use crate::graph::{has_layer, ids_are_known, ids_ascend, layer_ids, Graph, Layer, Output};
use crate::id::{raw_ids, LayerId};
use crate::kind::ScalarInput;
use crate::param::ParamValue;
use crate::reach::{
    acyclic, closed_under, cycle_from, dependencies_first, first_unknown, lemma_closed_keeps,
    lemma_fewer_edges, lemma_order_excludes_cycles, lemma_order_is_closed, lemma_reaches_last_step,
    lemma_reaches_self, lemma_reaches_then_reads, lemma_restrict_closed, lemma_restrict_post_order,
    lemma_restrict_reads, lemma_restrict_to_nodes, on_cycle, post_order_all, reached_from, reaches,
    reads, restrict,
};
use crate::scalar::Scalar;
use crate::slots::{
    all_needed, allocate, last_use, lemma_last_reader_bounds, lemma_slot_added, order_known,
    valid_allocation,
};
use crate::traverse::lemma_edges_finite;

verus! {

/// A graph built through its own edits never produces these.
#[derive(Clone, Copy, Debug, PartialEq, Eq, Structural)]
pub enum ScheduleError {
    UnknownLayer(LayerId),
    Cycle,
}

/// What the roots reach, as a set.
pub open spec fn reach_set(g: Map<u64, Seq<u64>>, roots: Seq<u64>) -> Set<u64> {
    Set::new(|x: u64| reached_from(g, roots, x))
}

/// What roots reach is closed under reading.
pub proof fn lemma_reach_set_closed(g: Map<u64, Seq<u64>>, roots: Seq<u64>)
    ensures
        closed_under(g, reach_set(g, roots)),
        forall|i: int| 0 <= i < roots.len() ==> reach_set(g, roots).contains(#[trigger] roots[i]),
{
    let s = reach_set(g, roots);
    assert forall|a: u64, b: u64| s.contains(a) && #[trigger] reads(g, a, b) implies s.contains(
        b,
    ) by {
        let i = choose|i: int| 0 <= i < roots.len() && reaches(g, #[trigger] roots[i], a);
        lemma_reaches_then_reads(g, roots[i], a, b);
    }
    assert forall|i: int| 0 <= i < roots.len() implies s.contains(#[trigger] roots[i]) by {
        lemma_reaches_self(g, roots[i]);
    }
}

/// The layers in `order` are those that the roots reach, each once and after
/// everything it reads; listed depth first from the roots in turn.
pub open spec fn ordered_from(g: Map<u64, Seq<u64>>, roots: Seq<u64>, order: Seq<u64>) -> bool {
    &&& dependencies_first(g, order)
    &&& order.to_set() == reach_set(g, roots)
    &&& order == post_order_all(g, roots, Seq::empty(), reach_set(g, roots).len())
}

/// A list of what roots reach, depth first, that holds the roots and has
/// dependencies first within it, is the order from the roots.
proof fn lemma_listed(g: Map<u64, Seq<u64>>, start: Seq<u64>, o: Seq<u64>)
    requires
        reach_set(g, start).finite(),
        o.to_set().subset_of(reach_set(g, start)),
        forall|j: int| 0 <= j < start.len() ==> o.to_set().contains(#[trigger] start[j]),
        dependencies_first(restrict(g, reach_set(g, start)), o),
        o == post_order_all(
            restrict(g, reach_set(g, start)),
            start,
            Seq::empty(),
            reach_set(g, start).len(),
        ),
    ensures
        ordered_from(g, start, o),
        forall|j: int| 0 <= j < start.len() ==> !cycle_from(g, #[trigger] start[j]),
{
    let required = reach_set(g, start);
    let h = restrict(g, required);
    let done = o.to_set();
    lemma_reach_set_closed(g, start);
    lemma_order_is_closed(h, o);
    assert(done =~= required) by {
        assert forall|x: u64| required.contains(x) implies done.contains(x) by {
            let j = choose|j: int| 0 <= j < start.len() && reaches(g, #[trigger] start[j], x);
            lemma_restrict_closed(g, required, start[j], x);
            lemma_closed_keeps(h, done, start[j], x);
        }
    }
    assert(dependencies_first(g, o)) by {
        assert forall|k: int, b: u64|
            #![trigger reads(g, o[k], b)]
            0 <= k < o.len() && reads(g, o[k], b) implies exists|j: int|
            0 <= j < k && #[trigger] o[j] == b by {
            assert(o.to_set().contains(o[k]));
            lemma_restrict_reads(g, required, o[k], b);
            assert(reads(h, o[k], b));
        }
    }
    lemma_restrict_post_order(g, required, start, Seq::empty(), required.len());
    assert forall|j: int| 0 <= j < start.len() implies !cycle_from(g, #[trigger] start[j]) by {
        if cycle_from(g, start[j]) {
            let x = choose|x: u64| #[trigger] reaches(g, start[j], x) && on_cycle(g, x);
            assert(reached_from(g, start, x));
            assert(o.to_set().contains(x));
            let k = choose|k: int| 0 <= k < o.len() && o[k] == x;
            lemma_order_excludes_cycles(g, o, k);
        }
    }
}

/// Everything the roots reach, dependencies first.
pub(crate) fn order_from(graph: &Graph, roots: &Vec<LayerId>) -> (r: Result<
    Vec<LayerId>,
    ScheduleError,
>)
    requires
        ids_ascend(graph.layers@),
    ensures
        match r {
            Ok(order) => {
                &&& ordered_from(graph.edges(), raw_ids(roots@), raw_ids(order@))
                &&& forall|x: u64| #[trigger]
                    reached_from(graph.edges(), raw_ids(roots@), x) ==> has_layer(graph.layers@, x)
                &&& forall|i: int|
                    0 <= i < roots@.len() ==> !cycle_from(
                        graph.edges(),
                        (#[trigger] roots@[i]).0,
                    )
            },
            Err(ScheduleError::UnknownLayer(id)) => {
                &&& first_unknown(graph.edges(), raw_ids(roots@)) == Some(id.0)
                &&& reached_from(graph.edges(), raw_ids(roots@), id.0)
                &&& !has_layer(graph.layers@, id.0)
            },
            Err(ScheduleError::Cycle) => {
                &&& forall|x: u64| #[trigger]
                    reached_from(graph.edges(), raw_ids(roots@), x) ==> has_layer(graph.layers@, x)
                &&& exists|i: int|
                    0 <= i < roots@.len() && cycle_from(
                        graph.edges(),
                        (#[trigger] roots@[i]).0,
                    )
            },
        },
{
    let (required, unknown) = graph.upstream(roots);
    if let Some(id) = unknown {
        return Err(ScheduleError::UnknownLayer(id));
    }
    let ghost g = graph.edges();
    let ghost start = raw_ids(roots@);
    let ghost h = restrict(g, required@);
    let mut visiting: HashSet<u64> = HashSet::new();
    let mut done: HashSet<u64> = HashSet::new();
    let mut order: Vec<LayerId> = Vec::new();
    proof {
        assert(required@ =~= reach_set(g, start));
        lemma_reach_set_closed(g, start);
        assert forall|x: u64| #[trigger] reached_from(g, start, x) implies has_layer(
            graph.layers@,
            x,
        ) by {
            assert(required@.contains(x));
        }
        assert(raw_ids(order@) =~= Seq::<u64>::empty());
        assert(done@ =~= raw_ids(order@).to_set());
        assert(required@.difference(visiting@) =~= required@);
        assert(start.take(0) =~= Seq::<u64>::empty());
    }
    let mut i: usize = 0;
    while i < roots.len()
        invariant
            i <= roots@.len(),
            ids_ascend(graph.layers@),
            g == graph.edges(),
            start == raw_ids(roots@),
            h == restrict(g, required@),
            required@ == reach_set(g, start),
            required@.finite(),
            closed_under(g, required@),
            forall|x: u64| #[trigger] reached_from(g, start, x) ==> has_layer(graph.layers@, x),
            forall|j: int| 0 <= j < start.len() ==> required@.contains(#[trigger] start[j]),
            visiting@ == Set::<u64>::empty(),
            done@ == raw_ids(order@).to_set(),
            done@.subset_of(required@),
            dependencies_first(h, raw_ids(order@)),
            forall|j: int| 0 <= j < i ==> done@.contains(#[trigger] start[j]),
            raw_ids(order@) == post_order_all(
                h,
                start.take(i as int),
                Seq::empty(),
                required@.len(),
            ),
        decreases roots@.len() - i,
    {
        proof {
            assert(start[i as int] == roots@[i as int].0);
            assert(required@.difference(visiting@) =~= required@);
            assert(start.take(i + 1).drop_last() =~= start.take(i as int));
        }
        let cyclic = graph.list_dependencies(
            roots[i],
            &required,
            &mut visiting,
            &mut done,
            &mut order,
        );
        if cyclic {
            proof {
                let root = roots@[i as int].0;
                let x = choose|x: u64| #[trigger] reaches(h, root, x) && on_cycle(h, x);
                lemma_restrict_closed(g, required@, root, x);
                lemma_closed_keeps(g, required@, root, x);
                lemma_restrict_closed(g, required@, x, x);
                assert(on_cycle(g, x));
                assert(cycle_from(g, root));
            }
            return Err(ScheduleError::Cycle);
        }
        i += 1;
    }
    proof {
        assert(start.take(i as int) =~= start);
        lemma_listed(g, start, raw_ids(order@));
        assert forall|j: int| 0 <= j < roots@.len() implies !cycle_from(
            g,
            (#[trigger] roots@[j]).0,
        ) by {
            assert(start[j] == roots@[j].0);
        }
    }
    Ok(order)
}

/// Where a scalar channel of the output comes from.
#[derive(Clone, Copy, Debug, PartialEq, Eq, Structural)]
pub enum ScalarSlot {
    Const(Scalar),
    /// Reads the slot's L.
    Slot(u32),
}

/// Where the channels of the output come from.
#[derive(Clone, Copy, Debug, PartialEq, Eq)]
pub struct OutputSlots {
    /// `None` packs the missing-texture grid.
    pub color: Option<u32>,
    pub roughness: ScalarSlot,
    pub metallic: ScalarSlot,
    pub normal: Option<u32>,
}

/// An order of layers, and the slot each is computed into.
#[derive(Clone, Debug)]
pub struct Schedule {
    pub order: Vec<LayerId>,
    /// By the raw number of the layer's id.
    pub slot_of: HashMap<u64, u32>,
    pub peak_slots: u32,
    pub output_slots: OutputSlots,
    /// The unit square for every layer of `domain_order`, until a walk over
    /// them has widened what extending transforms and warps sample.
    pub domain_of: HashMap<u64, Domain>,
    /// The layers over which rectangles are found, dependencies first. A
    /// rectangle is set by a layer's readers, so for previews these are all
    /// layers of the graph.
    pub domain_order: Vec<LayerId>,
}

impl Schedule {
    /// Every layer of `domain_order` starts at the unit square.
    pub open spec fn domains_start(&self) -> bool {
        &&& self.domain_of@.dom() == raw_ids(self.domain_order@).to_set()
        &&& forall|id: u64| #[trigger]
            self.domain_of@.dom().contains(id) ==> self.domain_of@[id].is_unit()
    }

    /// A walk that finds the rectangle of every layer.
    pub fn domain_walk(&self) -> (r: DomainWalk)
        ensures
            r.well_formed(),
            r.order@ == self.domain_order@,
            r.left == self.domain_order@.len(),
            forall|id: u64| #[trigger] r.domains@.dom().contains(id) ==> r.domains@[id].is_unit(),
    {
        DomainWalk::new(&self.domain_order)
    }
}

/// The slot of a nullable channel.
pub open spec fn layer_slot(o: Option<LayerId>, slot_of: Map<u64, u32>) -> Option<u32> {
    match o {
        Some(id) => if slot_of.dom().contains(id.0) {
            Some(slot_of[id.0])
        } else {
            None
        },
        None => None,
    }
}

/// The source of a scalar channel. A layer without a slot reads as 0.
pub open spec fn scalar_slot(
    s: ScalarInput,
    slot_of: Map<u64, u32>,
    params: Map<Seq<char>, ParamValue>,
) -> ScalarSlot {
    match s {
        ScalarInput::Layer(id) => if slot_of.dom().contains(id.0) {
            ScalarSlot::Slot(slot_of[id.0])
        } else {
            ScalarSlot::Const(Scalar::zero())
        },
        _ => ScalarSlot::Const(scalar_read(params, s)->0),
    }
}

/// Where the channels of an output come from, under resolved bindings.
pub open spec fn slots_of_output(
    output: Output,
    slot_of: Map<u64, u32>,
    params: Map<Seq<char>, ParamValue>,
) -> OutputSlots {
    OutputSlots {
        color: layer_slot(output.color, slot_of),
        roughness: scalar_slot(output.roughness, slot_of, params),
        metallic: scalar_slot(output.metallic, slot_of, params),
        normal: layer_slot(output.normal, slot_of),
    }
}

fn find_slot(o: Option<LayerId>, slot_of: &HashMap<u64, u32>) -> (r: Option<u32>)
    ensures
        r == layer_slot(o, slot_of@),
{
    match o {
        Some(id) => match slot_of.get(&id.0) {
            Some(slot) => Some(*slot),
            None => None,
        },
        None => None,
    }
}

/// Parameters are resolved to constants here.
fn scalar_to_slot(s: &ScalarInput, slot_of: &HashMap<u64, u32>, ctx: &EvalCtx) -> (r: ScalarSlot)
    ensures
        r == scalar_slot(*s, slot_of@, ctx.params@),
{
    if let ScalarInput::Layer(id) = s {
        return match slot_of.get(&id.0) {
            Some(slot) => ScalarSlot::Slot(*slot),
            None => ScalarSlot::Const(Scalar::zero()),
        };
    }
    ScalarSlot::Const(ctx.scalar_const(s).unwrap_or(Scalar::zero()))
}

fn output_to_slots(output: &Output, slot_of: &HashMap<u64, u32>, ctx: &EvalCtx) -> (r: OutputSlots)
    ensures
        r == slots_of_output(*output, slot_of@, ctx.params@),
{
    OutputSlots {
        color: find_slot(output.color, slot_of),
        roughness: scalar_to_slot(&output.roughness, slot_of, ctx),
        metallic: scalar_to_slot(&output.metallic, slot_of, ctx),
        normal: find_slot(output.normal, slot_of),
    }
}

/// An order holds no more layers than the graph.
proof fn lemma_order_fits(graph: Graph, order: Seq<LayerId>)
    requires
        raw_ids(order).no_duplicates(),
        order_known(graph, order),
    ensures
        order.len() <= graph.layers@.len(),
{
    let o = raw_ids(order);
    let ids = layer_ids(graph.layers@);
    o.unique_seq_to_set();
    assert(o.to_set().subset_of(ids.to_set())) by {
        assert forall|x: u64| o.to_set().contains(x) implies ids.to_set().contains(x) by {
            let i = choose|i: int| 0 <= i < o.len() && o[i] == x;
            assert(has_layer(graph.layers@, order[i].0));
            let j = choose|j: int|
                0 <= j < graph.layers@.len() && (#[trigger] graph.layers@[j]).id.0 == x;
            assert(ids[j] == x);
        }
    }
    vstd::seq_lib::seq_to_set_is_finite(ids);
    vstd::set_lib::lemma_len_subset(o.to_set(), ids.to_set());
    ids.lemma_cardinality_of_set();
}

/// What the roots reach is needed: it is a root, or something later in the
/// order reads it.
proof fn lemma_reached_is_needed(g: Map<u64, Seq<u64>>, roots: Seq<u64>, order: Seq<u64>)
    requires
        ordered_from(g, roots, order),
    ensures
        all_needed(g, order, roots),
{
    assert forall|i: int| 0 <= i < order.len() implies #[trigger] last_use(g, order, roots, i)
        > i by {
        let x = order[i];
        if !roots.contains(x) {
            assert(order.to_set().contains(x));
            assert(reached_from(g, roots, x));
            let r = choose|r: int| 0 <= r < roots.len() && reaches(g, #[trigger] roots[r], x);
            assert(roots[r] != x);
            let y = lemma_reaches_last_step(g, roots[r], x);
            assert(reached_from(g, roots, y));
            assert(order.to_set().contains(y));
            let j = choose|j: int| 0 <= j < order.len() && order[j] == y;
            assert(reads(g, order[j], x));
            let k = choose|k: int| 0 <= k < j && #[trigger] order[k] == x;
            assert(k == i) by {
                if k != i {
                    assert(order[k] != order[i]);
                }
            }
            lemma_last_reader_bounds(g, order, x, j);
        }
    }
}

/// A schedule without its output slots.
struct Plan {
    order: Vec<LayerId>,
    slot_of: HashMap<u64, u32>,
    peak_slots: u32,
}

/// What a plan for some roots gives: their order and an allocation.
pub open spec fn planned(
    g: Map<u64, Seq<u64>>,
    roots: Seq<u64>,
    order: Seq<u64>,
    slot_of: Map<u64, u32>,
    peak: u32,
) -> bool {
    &&& ordered_from(g, roots, order)
    &&& valid_allocation(g, order, roots, slot_of, peak)
}

/// Everything the roots reach is a layer, and none of it depends on itself.
pub open spec fn can_plan(graph: Graph, roots: Seq<u64>) -> bool {
    &&& forall|x: u64| #[trigger]
        reached_from(graph.edges(), roots, x) ==> has_layer(graph.layers@, x)
    &&& forall|i: int| 0 <= i < roots.len() ==> !cycle_from(graph.edges(), #[trigger] roots[i])
}

/// `e` says why the roots cannot be planned: the first id met on a walk from them
/// that belongs to no layer, or failing that, that there is a cycle.
pub open spec fn plan_refused(graph: Graph, roots: Seq<u64>, e: ScheduleError) -> bool {
    match e {
        ScheduleError::UnknownLayer(id) => {
            &&& first_unknown(graph.edges(), roots) == Some(id.0)
            &&& reached_from(graph.edges(), roots, id.0)
            &&& !has_layer(graph.layers@, id.0)
        },
        ScheduleError::Cycle => {
            &&& forall|x: u64| #[trigger]
                reached_from(graph.edges(), roots, x) ==> has_layer(graph.layers@, x)
            &&& exists|i: int|
                0 <= i < roots.len() && cycle_from(graph.edges(), #[trigger] roots[i])
        },
    }
}

/// A graph built through its own edits can be planned from any of its layers.
proof fn lemma_well_formed_can_plan(graph: Graph, roots: Seq<u64>)
    requires
        graph.well_formed(),
        forall|i: int| 0 <= i < roots.len() ==> has_layer(graph.layers@, #[trigger] roots[i]),
    ensures
        can_plan(graph, roots),
{
    let g = graph.edges();
    lemma_known_closed(graph);
    assert forall|x: u64| #[trigger] reached_from(g, roots, x) implies has_layer(
        graph.layers@,
        x,
    ) by {
        let i = choose|i: int| 0 <= i < roots.len() && reaches(g, #[trigger] roots[i], x);
        assert(g.dom().contains(roots[i]));
        lemma_closed_keeps(g, g.dom(), roots[i], x);
    }
}

fn plan_from(graph: &Graph, roots: &Vec<LayerId>) -> (r: Result<Plan, ScheduleError>)
    requires
        ids_ascend(graph.layers@),
        graph.layers@.len() <= u32::MAX,
    ensures
        match r {
            Ok(plan) => {
                &&& can_plan(*graph, raw_ids(roots@))
                &&& planned(
                    graph.edges(),
                    raw_ids(roots@),
                    raw_ids(plan.order@),
                    plan.slot_of@,
                    plan.peak_slots,
                )
            },
            Err(e) => {
                &&& !can_plan(*graph, raw_ids(roots@))
                &&& plan_refused(*graph, raw_ids(roots@), e)
            },
        },
{
    let ghost rs = raw_ids(roots@);
    let order = match order_from(graph, roots) {
        Ok(order) => order,
        Err(e) => {
            proof {
                if let ScheduleError::Cycle = e {
                    let i = choose|i: int|
                        0 <= i < roots@.len() && cycle_from(
                            graph.edges(),
                            (#[trigger] roots@[i]).0,
                        );
                    assert(rs[i] == roots@[i].0);
                }
            }
            return Err(e);
        },
    };
    proof {
        let o = raw_ids(order@);
        assert forall|i: int| 0 <= i < order@.len() implies has_layer(
            graph.layers@,
            (#[trigger] order@[i]).0,
        ) by {
            assert(o[i] == order@[i].0);
            assert(o.to_set().contains(o[i]));
            assert(reached_from(graph.edges(), rs, o[i]));
        }
        lemma_order_fits(*graph, order@);
        lemma_reached_is_needed(graph.edges(), rs, o);
        assert forall|i: int| 0 <= i < rs.len() implies !cycle_from(
            graph.edges(),
            #[trigger] rs[i],
        ) by {
            assert(rs[i] == roots@[i].0);
        }
    }
    let (slot_of, peak_slots) = allocate(graph, &order, roots);
    Ok(Plan { order, slot_of, peak_slots })
}

impl Plan {
    fn into_schedule(self, output_slots: OutputSlots) -> (r: Schedule)
        ensures
            r.order == self.order,
            r.slot_of == self.slot_of,
            r.peak_slots == self.peak_slots,
            r.output_slots == output_slots,
            r.domain_order@ == self.order@,
            r.domains_start(),
    {
        let walk = DomainWalk::new(&self.order);
        Schedule {
            order: self.order,
            slot_of: self.slot_of,
            peak_slots: self.peak_slots,
            output_slots,
            domain_of: walk.domains,
            domain_order: walk.order,
        }
    }
}

/// What a schedule of the output holds, under resolved bindings.
pub open spec fn scheduled(graph: Graph, params: Map<Seq<char>, ParamValue>, s: Schedule) -> bool {
    let roots = raw_ids(graph.output.referenced_ids());
    &&& planned(graph.edges(), roots, raw_ids(s.order@), s.slot_of@, s.peak_slots)
    &&& s.output_slots == slots_of_output(graph.output, s.slot_of@, params)
    &&& s.domain_order@ == s.order@
    &&& s.domains_start()
}

/// What the schedule of one layer holds.
pub open spec fn layer_scheduled(graph: Graph, root: LayerId, s: Schedule) -> bool {
    &&& planned(graph.edges(), seq![root.0], raw_ids(s.order@), s.slot_of@, s.peak_slots)
    &&& s.output_slots == (OutputSlots {
        color: Some(s.slot_of@[root.0]),
        roughness: ScalarSlot::Const(Scalar::half()),
        metallic: ScalarSlot::Const(Scalar::zero()),
        normal: None,
    })
    &&& s.domain_order@ == s.order@
    &&& s.domains_start()
}

/// Schedules the layers that the output reads, directly or through others.
pub fn schedule(graph: &Graph, ctx: &EvalCtx) -> (r: Result<Schedule, ScheduleError>)
    requires
        ids_ascend(graph.layers@),
        graph.layers@.len() <= u32::MAX,
    ensures
        ({
            let roots = raw_ids(graph.output.referenced_ids());
            match r {
                Ok(s) => {
                    &&& can_plan(*graph, roots)
                    &&& scheduled(*graph, resolved(graph.params@, ctx.params@), s)
                },
                Err(e) => !can_plan(*graph, roots) && plan_refused(*graph, roots, e),
            }
        }),
        graph.well_formed() ==> r is Ok,
{
    let ctx = graph.resolve_params(ctx);
    let roots = graph.output.referenced();
    proof {
        if graph.well_formed() {
            assert forall|i: int| 0 <= i < roots@.len() implies has_layer(
                graph.layers@,
                #[trigger] raw_ids(roots@)[i],
            ) by {
                assert(has_layer(graph.layers@, roots@[i].0));
            }
            lemma_well_formed_can_plan(*graph, raw_ids(roots@));
        }
    }
    let plan = match plan_from(graph, &roots) {
        Ok(plan) => plan,
        Err(e) => {
            return Err(e);
        },
    };
    let output_slots = output_to_slots(&graph.output, &plan.slot_of, &ctx);
    Ok(plan.into_schedule(output_slots))
}

/// A schedule for `root` and everything it reads, with the same reuse of slots
/// as [`schedule`]. The output's color slot is that of `root`; the other
/// channels are placeholders.
pub fn schedule_layer(graph: &Graph, root: LayerId) -> (r: Result<Schedule, ScheduleError>)
    requires
        ids_ascend(graph.layers@),
        graph.layers@.len() <= u32::MAX,
    ensures
        match r {
            Ok(s) => {
                &&& has_layer(graph.layers@, root.0)
                &&& can_plan(*graph, seq![root.0])
                &&& layer_scheduled(*graph, root, s)
            },
            Err(e) => if !has_layer(graph.layers@, root.0) {
                e == ScheduleError::UnknownLayer(root)
            } else {
                !can_plan(*graph, seq![root.0]) && plan_refused(*graph, seq![root.0], e)
            },
        },
        graph.well_formed() && has_layer(graph.layers@, root.0) ==> r is Ok,
{
    if !graph.contains(root) {
        return Err(ScheduleError::UnknownLayer(root));
    }
    let mut roots: Vec<LayerId> = Vec::new();
    roots.push(root);
    proof {
        assert(raw_ids(roots@) =~= seq![root.0]);
        if graph.well_formed() {
            lemma_well_formed_can_plan(*graph, raw_ids(roots@));
        }
    }
    let plan = match plan_from(graph, &roots) {
        Ok(plan) => plan,
        Err(e) => {
            return Err(e);
        },
    };
    proof {
        let rs = raw_ids(roots@);
        lemma_reaches_self(graph.edges(), root.0);
        assert(rs[0] == root.0);
        assert(reached_from(graph.edges(), rs, root.0));
        assert(reach_set(graph.edges(), rs).contains(root.0));
        assert(plan.slot_of@.dom().contains(root.0));
    }
    let output_slots = OutputSlots {
        color: find_slot(Some(root), &plan.slot_of),
        roughness: ScalarSlot::Const(Scalar::half()),
        metallic: ScalarSlot::Const(Scalar::zero()),
        normal: None,
    };
    Ok(plan.into_schedule(output_slots))
}

/// The ids in `required`, in the order of the layers.
pub open spec fn ids_within(layers: Seq<Layer>, required: Set<u64>) -> Seq<u64> {
    layer_ids(layers).filter(|x: u64| required.contains(x))
}

/// The layers in `order` are those in `required`, each once and after
/// everything in `required` that it reads; listed depth first from the smallest
/// id on.
pub open spec fn ordered_over(graph: Graph, required: Set<u64>, order: Seq<u64>) -> bool {
    let h = restrict(graph.edges(), required);
    &&& dependencies_first(h, order)
    &&& order.to_set() == required
    &&& order == post_order_all(
        h,
        ids_within(graph.layers@, required),
        Seq::empty(),
        required.len(),
    )
}

/// An order over exactly `required`, dependencies first. `None` where some of
/// it depends on itself.
fn order_over(graph: &Graph, required: &HashSet<u64>) -> (r: Option<Vec<LayerId>>)
    requires
        ids_ascend(graph.layers@),
        required@.finite(),
        forall|x: u64| #[trigger] required@.contains(x) ==> has_layer(graph.layers@, x),
    ensures
        match r {
            Some(order) => ordered_over(*graph, required@, raw_ids(order@)) && acyclic(
                restrict(graph.edges(), required@),
            ),
            None => !acyclic(restrict(graph.edges(), required@)),
        },
{
    let ghost g = graph.edges();
    let ghost h = restrict(g, required@);
    let ghost keep = |x: u64| required@.contains(x);
    let ghost ids = layer_ids(graph.layers@);
    let mut visiting: HashSet<u64> = HashSet::new();
    let mut done: HashSet<u64> = HashSet::new();
    let mut order: Vec<LayerId> = Vec::new();
    proof {
        reveal(Seq::filter);
        assert(raw_ids(order@) =~= Seq::<u64>::empty());
        assert(done@ =~= raw_ids(order@).to_set());
        assert(ids.take(0) =~= Seq::<u64>::empty());
        assert(ids.take(0).filter(keep) =~= Seq::<u64>::empty());
    }
    let mut i: usize = 0;
    while i < graph.layers.len()
        invariant
            i <= graph.layers@.len(),
            ids_ascend(graph.layers@),
            g == graph.edges(),
            h == restrict(g, required@),
            keep == (|x: u64| required@.contains(x)),
            ids == layer_ids(graph.layers@),
            required@.finite(),
            visiting@ == Set::<u64>::empty(),
            done@ == raw_ids(order@).to_set(),
            done@.subset_of(required@),
            dependencies_first(h, raw_ids(order@)),
            forall|j: int|
                0 <= j < i && required@.contains(ids[j]) ==> done@.contains(#[trigger] ids[j]),
            raw_ids(order@) == post_order_all(
                h,
                ids.take(i as int).filter(keep),
                Seq::empty(),
                required@.len(),
            ),
        decreases graph.layers@.len() - i,
    {
        let id = graph.layers[i].id;
        let ghost taken = ids.take(i as int);
        let ghost next = ids.take(i + 1);
        proof {
            reveal(Seq::filter);
            assert(next.drop_last() =~= taken);
            assert(next.last() == id.0);
            assert(required@.difference(visiting@) =~= required@);
        }
        if required.contains(&id.0) {
            let cyclic = graph.list_dependencies(
                id,
                required,
                &mut visiting,
                &mut done,
                &mut order,
            );
            if cyclic {
                proof {
                    let x = choose|x: u64| #[trigger] reaches(h, id.0, x) && on_cycle(h, x);
                    assert(on_cycle(h, x));
                }
                return None;
            }
            proof {
                let f = next.filter(keep);
                assert(f == taken.filter(keep).push(id.0));
                assert(f.drop_last() =~= taken.filter(keep));
                assert(f.last() == id.0);
            }
        } else {
            assert(next.filter(keep) =~= taken.filter(keep));
        }
        i += 1;
    }
    proof {
        let o = raw_ids(order@);
        assert(ids.take(i as int) =~= ids);
        assert(done@ =~= required@) by {
            assert forall|x: u64| required@.contains(x) implies done@.contains(x) by {
                assert(has_layer(graph.layers@, x));
                let j = choose|j: int|
                    0 <= j < graph.layers@.len() && (#[trigger] graph.layers@[j]).id.0 == x;
                assert(ids[j] == x);
            }
        }
        assert forall|x: u64| !#[trigger] on_cycle(h, x) by {
            if on_cycle(h, x) {
                let m = choose|m: u64| #[trigger] reads(h, x, m) && reaches(h, m, x);
                assert(h.dom().contains(x));
                assert(o.to_set().contains(x));
                let k = choose|k: int| 0 <= k < o.len() && o[k] == x;
                lemma_order_excludes_cycles(h, o, k);
            }
        }
    }
    Some(order)
}

/// The slot of each layer is its place in the order.
pub open spec fn slots_by_place(order: Seq<u64>, slot_of: Map<u64, u32>, peak: u32) -> bool {
    &&& slot_of.dom() == order.to_set()
    &&& forall|i: int| 0 <= i < order.len() ==> slot_of[#[trigger] order[i]] == i
    &&& peak == order.len()
}

/// Where the slot is the place, no two layers share one.
pub proof fn law_preview_slots_are_unique(
    order: Seq<u64>,
    slot_of: Map<u64, u32>,
    peak: u32,
    i: int,
    j: int,
)
    requires
        slots_by_place(order, slot_of, peak),
        0 <= i < order.len(),
        0 <= j < order.len(),
        i != j,
    ensures
        slot_of[order[i]] != slot_of[order[j]],
        slot_of[order[i]] < peak,
{
}

fn number_slots(order: &Vec<LayerId>) -> (r: HashMap<u64, u32>)
    requires
        raw_ids(order@).no_duplicates(),
        order@.len() <= u32::MAX,
    ensures
        slots_by_place(raw_ids(order@), r@, order@.len() as u32),
{
    let ghost o = raw_ids(order@);
    let mut slot_of: HashMap<u64, u32> = HashMap::new();
    let mut i: usize = 0;
    assert(slot_of@.dom() =~= o.take(0).to_set());
    while i < order.len()
        invariant
            i <= order@.len(),
            o == raw_ids(order@),
            o.no_duplicates(),
            order@.len() <= u32::MAX,
            slot_of@.dom() == o.take(i as int).to_set(),
            forall|j: int| 0 <= j < i ==> slot_of@[#[trigger] o[j]] == j,
        decreases order@.len() - i,
    {
        let ghost before = slot_of@;
        slot_of.insert(order[i].0, i as u32);
        proof {
            lemma_slot_added(o, i as int, before, slot_of@, i as u32);
            assert forall|j: int| 0 <= j < i + 1 implies slot_of@[#[trigger] o[j]] == j by {
                if j < i {
                    assert(o[j] != o[i as int]);
                }
            }
        }
        i += 1;
    }
    assert(o.take(i as int) =~= o);
    slot_of
}

/// The ids of all layers.
pub open spec fn all_ids(graph: Graph) -> Set<u64> {
    Set::new(|x: u64| has_layer(graph.layers@, x))
}

/// What a preview of `wanted` computes: those layers and what they read, or all
/// layers.
pub open spec fn preview_ids(graph: Graph, wanted: Option<Seq<LayerId>>) -> Set<u64> {
    match wanted {
        Some(w) => reach_set(graph.edges(), raw_ids(w)),
        None => all_ids(graph),
    }
}

/// A schedule of every layer, one slot per layer and no reuse, so that every
/// intermediate survives to be previewed.
pub fn schedule_no_reuse(graph: &Graph, ctx: &EvalCtx) -> (r: Result<Schedule, ScheduleError>)
    requires
        ids_ascend(graph.layers@),
        graph.layers@.len() <= u32::MAX,
    ensures
        match r {
            Ok(s) => {
                &&& acyclic(graph.edges())
                &&& previewed(*graph, None, resolved(graph.params@, ctx.params@), s)
            },
            Err(e) => e == ScheduleError::Cycle && !acyclic(graph.edges()),
        },
        graph.well_formed() ==> r is Ok,
{
    schedule_previews(graph, None, ctx)
}

/// What a preview schedule holds.
pub open spec fn previewed(
    graph: Graph,
    wanted: Option<Seq<LayerId>>,
    params: Map<Seq<char>, ParamValue>,
    s: Schedule,
) -> bool {
    &&& ordered_over(graph, preview_ids(graph, wanted), raw_ids(s.order@))
    &&& slots_by_place(raw_ids(s.order@), s.slot_of@, s.peak_slots)
    &&& s.output_slots == slots_of_output(graph.output, s.slot_of@, params)
    &&& ordered_over(graph, all_ids(graph), raw_ids(s.domain_order@))
    &&& s.domains_start()
}

/// Which layers are wanted does not change where rectangles start and over which
/// layers, in which order, they are found: two preview schedules of a graph
/// agree on it, whatever is wanted of each and bound in each.
pub proof fn law_preview_rectangles_do_not_depend_on_what_is_wanted(
    graph: Graph,
    wanted: Option<Seq<LayerId>>,
    other: Option<Seq<LayerId>>,
    params: Map<Seq<char>, ParamValue>,
    others: Map<Seq<char>, ParamValue>,
    s: Schedule,
    t: Schedule,
)
    requires
        previewed(graph, wanted, params, s),
        previewed(graph, other, others, t),
    ensures
        s.domain_order@ == t.domain_order@,
        s.domain_of@ == t.domain_of@,
{
    assert forall|i: int| 0 <= i < s.domain_order@.len() implies s.domain_order@[i]
        == t.domain_order@[i] by {
        assert(raw_ids(s.domain_order@)[i] == s.domain_order@[i].0);
        assert(raw_ids(t.domain_order@)[i] == t.domain_order@[i].0);
    }
    assert(raw_ids(s.domain_order@).len() == s.domain_order@.len());
    assert(raw_ids(t.domain_order@).len() == t.domain_order@.len());
    assert(s.domain_order@ =~= t.domain_order@);
    assert forall|x: u64| #[trigger] s.domain_of@.dom().contains(x) implies s.domain_of@[x]
        == t.domain_of@[x] by {
        let (a, b) = (s.domain_of@[x], t.domain_of@[x]);
        assert(t.domain_of@.dom().contains(x));
        assert(a.is_unit() && b.is_unit());
        assert(a.min =~= b.min);
        assert(a.max =~= b.max);
    }
    assert(s.domain_of@ =~= t.domain_of@);
}

/// A preview schedule holds each wanted layer, or every layer where none is
/// named, and each that one of them reads directly or through others, once,
/// after everything it reads; and its slots, one for each layer it holds, are
/// the places of that order.
pub proof fn law_preview_holds_what_is_wanted_and_read(
    graph: Graph,
    wanted: Option<Seq<LayerId>>,
    params: Map<Seq<char>, ParamValue>,
    s: Schedule,
)
    requires
        graph.well_formed(),
        previewed(graph, wanted, params, s),
    ensures
        raw_ids(s.order@).no_duplicates(),
        forall|x: u64|
            #![trigger raw_ids(s.order@).contains(x)]
            raw_ids(s.order@).contains(x) <==> match wanted {
                Some(w) => reached_from(graph.edges(), raw_ids(w), x),
                None => has_layer(graph.layers@, x),
            },
        dependencies_first(graph.edges(), raw_ids(s.order@)),
        s.peak_slots == s.order@.len(),
        s.slot_of@.dom() == raw_ids(s.order@).to_set(),
        forall|i: int| 0 <= i < s.order@.len() ==> s.slot_of@[(#[trigger] s.order@[i]).0] == i,
{
    let g = graph.edges();
    let o = raw_ids(s.order@);
    let held = preview_ids(graph, wanted);
    match wanted {
        Some(w) => {
            lemma_reach_set_closed(g, raw_ids(w));
        },
        None => {
            lemma_known_closed(graph);
            assert(g.dom() =~= held);
        },
    }
    assert forall|x: u64| #[trigger] o.contains(x) <==> held.contains(x) by {
        assert(o.to_set().contains(x) <==> held.contains(x));
    }
    assert forall|k: int, b: u64|
        #![trigger reads(g, o[k], b)]
        0 <= k < o.len() && reads(g, o[k], b) implies exists|j: int|
        0 <= j < k && #[trigger] o[j] == b by {
        assert(o.contains(o[k]));
        assert(held.contains(o[k]));
        lemma_restrict_reads(g, held, o[k], b);
        assert(reads(restrict(g, held), o[k], b));
    }
    assert forall|i: int| 0 <= i < s.order@.len() implies s.slot_of@[(#[trigger] s.order@[i]).0]
        == i by {
        assert(o[i] == s.order@[i].0);
    }
}

/// The preview schedule for `wanted` and everything it reads, one slot per
/// layer. `None` wants every layer.
///
/// Rectangles are found over the whole graph: one is set by a layer's readers,
/// so finding it over the subset would change a preview depending on which
/// other layers are being baked. On a subset the output's layers may not be
/// scheduled; such a channel gets no slot.
pub fn schedule_previews(graph: &Graph, wanted: Option<&Vec<LayerId>>, ctx: &EvalCtx) -> (r: Result<
    Schedule,
    ScheduleError,
>)
    requires
        ids_ascend(graph.layers@),
        graph.layers@.len() <= u32::MAX,
    ensures
        ({
            let want: Option<Seq<LayerId>> = match wanted {
                Some(w) => Some(w@),
                None => None,
            };
            match r {
                Ok(s) => {
                    &&& acyclic(graph.edges())
                    &&& forall|x: u64| #[trigger]
                        preview_ids(*graph, want).contains(x) ==> has_layer(graph.layers@, x)
                    &&& previewed(*graph, want, resolved(graph.params@, ctx.params@), s)
                },
                Err(ScheduleError::Cycle) => !acyclic(graph.edges()),
                Err(ScheduleError::UnknownLayer(id)) => {
                    &&& acyclic(graph.edges())
                    &&& want matches Some(w) && first_unknown(graph.edges(), raw_ids(w)) == Some(
                        id.0,
                    )
                    &&& preview_ids(*graph, want).contains(id.0)
                    &&& !has_layer(graph.layers@, id.0)
                },
            }
        }),
        graph.well_formed() && (match wanted {
            Some(w) => ids_are_known(w@, graph.layers@),
            None => true,
        }) ==> r is Ok,
{
    let ctx = graph.resolve_params(ctx);
    let ghost g = graph.edges();
    let mut everything: HashSet<u64> = HashSet::new();
    let mut i: usize = 0;
    while i < graph.layers.len()
        invariant
            i <= graph.layers@.len(),
            forall|x: u64| #[trigger]
                everything@.contains(x) <==> has_layer(graph.layers@.take(i as int), x),
        decreases graph.layers@.len() - i,
    {
        everything.insert(graph.layers[i].id.0);
        proof {
            let (a, b) = (graph.layers@.take(i as int), graph.layers@.take(i + 1));
            assert forall|x: u64| #[trigger] everything@.contains(x) <==> has_layer(b, x) by {
                if has_layer(a, x) {
                    let j = choose|j: int| 0 <= j < a.len() && (#[trigger] a[j]).id.0 == x;
                    assert(b[j].id.0 == x);
                }
                if x == graph.layers@[i as int].id.0 {
                    assert(b[i as int].id.0 == x);
                }
                if has_layer(b, x) && x != graph.layers@[i as int].id.0 {
                    let j = choose|j: int| 0 <= j < b.len() && (#[trigger] b[j]).id.0 == x;
                    assert(a[j].id.0 == x);
                }
            }
        }
        i += 1;
    }
    proof {
        assert(graph.layers@.take(i as int) =~= graph.layers@);
        assert(everything@ =~= all_ids(*graph));
        assert(everything@ =~= g.dom());
        lemma_edges_finite(graph.layers@);
        lemma_restrict_to_nodes(g);
    }
    let full_order = match order_over(graph, &everything) {
        Some(order) => order,
        None => {
            return Err(ScheduleError::Cycle);
        },
    };
    let walk = DomainWalk::new(&full_order);
    let order = match wanted {
        None => full_order,
        Some(w) => {
            let (required, unknown) = graph.upstream(w);
            proof {
                assert(required@ =~= reach_set(g, raw_ids(w@)));
                if graph.well_formed() && ids_are_known(w@, graph.layers@) {
                    assert forall|k: int| 0 <= k < raw_ids(w@).len() implies has_layer(
                        graph.layers@,
                        #[trigger] raw_ids(w@)[k],
                    ) by {
                        assert(has_layer(graph.layers@, w@[k].0));
                    }
                    lemma_well_formed_can_plan(*graph, raw_ids(w@));
                }
            }
            if let Some(id) = unknown {
                return Err(ScheduleError::UnknownLayer(id));
            }
            match order_over(graph, &required) {
                Some(order) => order,
                None => {
                    proof {
                        assert forall|a: u64, b: u64| #[trigger]
                            reads(restrict(g, required@), a, b) implies reads(g, a, b) by {
                            lemma_restrict_reads(g, required@, a, b);
                        }
                        lemma_fewer_edges(g, restrict(g, required@));
                    }
                    return Err(ScheduleError::Cycle);
                },
            }
        },
    };
    proof {
        let o = raw_ids(order@);
        assert forall|k: int| 0 <= k < order@.len() implies has_layer(
            graph.layers@,
            (#[trigger] order@[k]).0,
        ) by {
            assert(o[k] == order@[k].0);
            assert(o.to_set().contains(o[k]));
        }
        lemma_order_fits(*graph, order@);
    }
    let slot_of = number_slots(&order);
    let peak_slots: u32 = order.len() as u32;
    let output_slots = output_to_slots(&graph.output, &slot_of, &ctx);
    Ok(
        Schedule {
            order,
            slot_of,
            peak_slots,
            output_slots,
            domain_of: walk.domains,
            domain_order: walk.order,
        },
    )
}

/// When a layer of a plan is computed, each of its inputs was computed before
/// it and still stands in its slot: nothing computed in between, the layer
/// itself included, has the same slot. What a root holds stands to the end.
pub proof fn law_inputs_stand_until_they_are_read(
    g: Map<u64, Seq<u64>>,
    roots: Seq<u64>,
    order: Seq<u64>,
    slot_of: Map<u64, u32>,
    peak: u32,
    i: int,
    x: u64,
)
    requires
        planned(g, roots, order, slot_of, peak),
        0 <= i < order.len(),
    ensures
        reads(g, order[i], x) ==> exists|j: int|
            0 <= j < i && #[trigger] order[j] == x && forall|k: int|
                j < k <= i ==> slot_of[#[trigger] order[k]] != slot_of[x],
        roots.contains(order[i]) ==> forall|k: int|
            i < k < order.len() ==> slot_of[#[trigger] order[k]] != slot_of[order[i]],
        slot_of[order[i]] < peak,
        roots.contains(x) ==> order.contains(x),
        order.contains(x) <==> reached_from(g, roots, x),
{
    if reads(g, order[i], x) {
        let j = choose|j: int| 0 <= j < i && #[trigger] order[j] == x;
        lemma_last_reader_bounds(g, order, x, i);
        assert(last_use(g, order, roots, j) >= i);
        assert forall|k: int| j < k <= i implies slot_of[#[trigger] order[k]] != slot_of[x] by {
            assert(slot_of[order[j]] != slot_of[order[k]]);
        }
    }
    if roots.contains(order[i]) {
        assert forall|k: int| i < k < order.len() implies slot_of[#[trigger] order[k]]
            != slot_of[order[i]] by {
            assert(last_use(g, order, roots, i) >= k);
        }
    }
    if roots.contains(x) {
        let r = choose|r: int| 0 <= r < roots.len() && roots[r] == x;
        lemma_reaches_self(g, x);
        assert(reached_from(g, roots, roots[r]));
    }
    assert(order.to_set().contains(x) <==> reach_set(g, roots).contains(x));
}

/// A layer's own schedule shows the layer as the color of a rough dielectric
/// with no normal.
pub proof fn law_a_layer_is_shown_as_color(graph: Graph, root: LayerId, s: Schedule)
    requires
        layer_scheduled(graph, root, s),
    ensures
        s.output_slots.color == Some(s.slot_of@[root.0]),
        s.output_slots.roughness matches ScalarSlot::Const(v) && v.bits == 0x3f00_0000u32,
        s.output_slots.metallic matches ScalarSlot::Const(v) && v.bits == 0,
        s.output_slots.normal is None,
        s.slot_of@.dom().contains(root.0),
        s.domain_order@ == s.order@,
{
    let g = graph.edges();
    let rs = seq![root.0];
    lemma_reaches_self(g, root.0);
    assert(rs[0] == root.0);
    assert(reached_from(g, rs, root.0));
    assert(reach_set(g, rs).contains(root.0));
}

} // verus!
