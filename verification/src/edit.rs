//! Edits to the layers of a graph. A refused edit leaves the graph as it was.
use vstd::prelude::*;

use crate::color::Color;
use crate::graph::{
    has_layer, ids_are_known, ids_ascend, ids_grow, kind_is_valid, layer_edges, lemma_place_of,
    lemma_same_ids_grow, place_of, refs_are_declared, Canvas, Graph, GraphError, Layer, Output,
};
use crate::id::{raw_ids, LayerId};
use crate::kind::{refs_view, ColorRamp, LayerKind, NoiseKernel, ScalarInput};
use crate::lists::{
    lemma_filter_distinct, lemma_filter_holds, lemma_moved, lemma_raw_distinct, moved, other_than,
    without_id,
};
use crate::names::{lemma_same_names, same_name, same_names, NameMap};
use crate::param::{ParamDecl, ParamUse};
use crate::reach::{
    acyclic, agree_but_at, closed_under, cycle_from, lemma_changed_node, lemma_closed_keeps,
    lemma_fewer_edges, lemma_reaches_first_step, lemma_reaches_self, lemma_reaches_then_reads,
    lemma_reads_then_reaches, reaches, reads,
};
use crate::rewire::{kind_without, lemma_kind_without, lemma_output_without, output_without};
use crate::scalar::Scalar;
use crate::socket::same_settings;
use crate::traverse::{lemma_children_of_layer, varies_along_w};

verus! {

/// Some layer has that name.
pub open spec fn name_taken(layers: Seq<Layer>, name: Seq<char>) -> bool {
    exists|i: int| 0 <= i < layers.len() && (#[trigger] layers[i]).name@ == name
}

/// Some layer other than `id` has that name.
pub open spec fn name_taken_elsewhere(layers: Seq<Layer>, id: LayerId, name: Seq<char>) -> bool {
    exists|i: int|
        0 <= i < layers.len() && (#[trigger] layers[i]).id != id && layers[i].name@ == name
}

/// `x` is the first of `ids` that no layer has.
pub open spec fn first_unknown(ids: Seq<LayerId>, layers: Seq<Layer>, x: LayerId) -> bool {
    exists|i: int|
        0 <= i < ids.len() && #[trigger] ids[i] == x && !has_layer(layers, x.0) && ids_are_known(
            ids.take(i),
            layers,
        )
}

/// The first reference that is undeclared or of the wrong sort.
pub open spec fn first_bad_ref(
    refs: Seq<(Seq<char>, ParamUse)>,
    params: Map<Seq<char>, ParamDecl>,
    i: int,
) -> bool {
    &&& 0 <= i < refs.len()
    &&& refs_are_declared(refs.take(i), params)
    &&& !(params.dom().contains(refs[i].0) && params[refs[i].0].kind.sort() == refs[i].1)
}

/// `e` reports the first reference that is undeclared or of the wrong sort.
pub open spec fn refs_refused(
    refs: Seq<(Seq<char>, ParamUse)>,
    params: Map<Seq<char>, ParamDecl>,
    e: GraphError,
) -> bool {
    exists|i: int| #[trigger]
        first_bad_ref(refs, params, i) && match e {
            GraphError::UnknownParam(name) => {
                &&& !params.dom().contains(refs[i].0)
                &&& name@ == refs[i].0
            },
            GraphError::ParamTypeMismatch { name, declared, wanted } => {
                &&& params.dom().contains(refs[i].0)
                &&& name@ == refs[i].0
                &&& declared == params[refs[i].0].kind.label()
                &&& wanted == refs[i].1.label()
            },
            _ => false,
        }
}

/// A layer of that kind can be installed.
pub open spec fn kind_accepted(
    kind: LayerKind,
    layers: Seq<Layer>,
    params: Map<Seq<char>, ParamDecl>,
) -> bool {
    &&& ids_are_known(kind.input_ids(), layers)
    &&& kind_is_valid(kind)
    &&& refs_are_declared(kind.ref_names(), params)
}

/// `e` is the first thing wrong with a layer of that kind: an input that no
/// layer has, then a setting, then a parameter.
pub open spec fn kind_refused(
    kind: LayerKind,
    layers: Seq<Layer>,
    params: Map<Seq<char>, ParamDecl>,
    e: GraphError,
) -> bool {
    if !ids_are_known(kind.input_ids(), layers) {
        e is UnknownId && first_unknown(kind.input_ids(), layers, e->UnknownId_0)
    } else if !kind_is_valid(kind) {
        if kind is ColorRamp {
            e is RampTooFewStops
        } else {
            e is PeriodicSimplex
        }
    } else {
        refs_refused(kind.ref_names(), params, e)
    }
}

/// The first of `ids` that no layer has.
fn find_unknown(graph: &Graph, ids: &Vec<LayerId>) -> (r: Option<LayerId>)
    requires
        ids_ascend(graph.layers@),
    ensures
        match r {
            Some(x) => first_unknown(ids@, graph.layers@, x) && !ids_are_known(ids@, graph.layers@),
            None => ids_are_known(ids@, graph.layers@),
        },
{
    let mut i: usize = 0;
    while i < ids.len()
        invariant
            i <= ids@.len(),
            ids_ascend(graph.layers@),
            ids_are_known(ids@.take(i as int), graph.layers@),
        decreases ids@.len() - i,
    {
        if !graph.contains(ids[i]) {
            assert(ids@[i as int] == ids[i as int]);
            return Some(ids[i]);
        }
        assert forall|j: int| 0 <= j < i + 1 implies has_layer(
            graph.layers@,
            (#[trigger] ids@.take(i + 1)[j]).0,
        ) by {
            if j < i {
                assert(ids@.take(i as int)[j] == ids@.take(i + 1)[j]);
            }
        }
        i += 1;
    }
    assert(ids@.take(i as int) =~= ids@);
    None
}

fn validate_ramp(r: &ColorRamp) -> (res: Result<(), GraphError>)
    ensures
        match res {
            Ok(_) => r.stops@.len() >= 2,
            Err(e) => r.stops@.len() < 2 && e is RampTooFewStops,
        },
{
    if r.stops.len() < 2 {
        return Err(GraphError::RampTooFewStops);
    }
    Ok(())
}

/// Settings that the evaluator and the baker assume. Every path that installs
/// a kind checks them.
fn validate_kind(kind: &LayerKind) -> (r: Result<(), GraphError>)
    ensures
        match r {
            Ok(_) => kind_is_valid(*kind),
            Err(e) => !kind_is_valid(*kind) && if kind is ColorRamp {
                e is RampTooFewStops
            } else {
                e is PeriodicSimplex
            },
        },
{
    match kind {
        LayerKind::ColorRamp(r) => validate_ramp(r),
        LayerKind::Noise(n) => {
            // Ignoring the period would look tiled here and seam elsewhere.
            let unbounded = n.period[0] == 0 && n.period[1] == 0 && n.period[2] == 0;
            assert(unbounded <==> n.period@ == seq![0u32, 0u32, 0u32]) by {
                if unbounded {
                    assert(n.period@ =~= seq![0u32, 0u32, 0u32]);
                }
            }
            if n.kernel == NoiseKernel::Simplex && !unbounded {
                return Err(GraphError::PeriodicSimplex);
            }
            Ok(())
        },
        _ => Ok(()),
    }
}

/// Checked at edit time, so that the evaluator and the baker never meet an
/// undeclared or mistyped name.
fn validate_param_refs(params: &NameMap<ParamDecl>, refs: &Vec<(&str, ParamUse)>) -> (r: Result<
    (),
    GraphError,
>)
    ensures
        match r {
            Ok(_) => refs_are_declared(refs_view(refs@), params@),
            Err(e) => !refs_are_declared(refs_view(refs@), params@) && refs_refused(
                refs_view(refs@),
                params@,
                e,
            ),
        },
{
    let ghost all = refs_view(refs@);
    let mut i: usize = 0;
    while i < refs.len()
        invariant
            i <= refs@.len(),
            all == refs_view(refs@),
            refs_are_declared(all.take(i as int), params@),
        decreases refs@.len() - i,
    {
        let (name, sort) = refs[i];
        assert(all[i as int] == (name@, sort));
        let decl = match params.get(name) {
            Some(decl) => decl,
            None => {
                assert(first_bad_ref(all, params@, i as int));
                return Err(GraphError::UnknownParam(name.to_owned()));
            },
        };
        if !sort.accepts(&decl.kind) {
            assert(first_bad_ref(all, params@, i as int));
            return Err(
                GraphError::ParamTypeMismatch {
                    name: name.to_owned(),
                    declared: decl.kind.label(),
                    wanted: sort.label(),
                },
            );
        }
        assert forall|j: int| 0 <= j < i + 1 implies params@.dom().contains(
            (#[trigger] all.take(i + 1)[j]).0,
        ) && params@[all.take(i + 1)[j].0].kind.sort() == all.take(i + 1)[j].1 by {
            if j < i {
                assert(all.take(i as int)[j] == all.take(i + 1)[j]);
            }
        }
        i += 1;
    }
    assert(all.take(i as int) =~= all);
    Ok(())
}

/// What a layer of that kind would be refused for.
fn check_kind(graph: &Graph, kind: &LayerKind) -> (r: Result<(), GraphError>)
    requires
        ids_ascend(graph.layers@),
    ensures
        match r {
            Ok(_) => kind_accepted(*kind, graph.layers@, graph.params@),
            Err(e) => !kind_accepted(*kind, graph.layers@, graph.params@) && kind_refused(
                *kind,
                graph.layers@,
                graph.params@,
                e,
            ),
        },
{
    if let Some(x) = find_unknown(graph, &kind.inputs()) {
        return Err(GraphError::UnknownId(x));
    }
    match validate_kind(kind) {
        Ok(_) => {},
        Err(e) => {
            return Err(e);
        },
    }
    validate_param_refs(&graph.params, &kind.param_refs())
}

/// `a` reads `b` where the layer `a` has `b` among its inputs.
pub proof fn lemma_layer_reads(layers: Seq<Layer>, i: int, b: u64)
    requires
        ids_ascend(layers),
        0 <= i < layers.len(),
    ensures
        reads(layer_edges(layers), layers[i].id.0, b) <==> layers[i].kind.input_ids().contains(
            LayerId(b),
        ),
{
    lemma_children_of_layer(layers, i);
    let ids = layers[i].kind.input_ids();
    if ids.contains(LayerId(b)) {
        let k = choose|k: int| 0 <= k < ids.len() && ids[k] == LayerId(b);
        assert(raw_ids(ids)[k] == b);
    }
    if raw_ids(ids).contains(b) {
        let k = choose|k: int| 0 <= k < raw_ids(ids).len() && raw_ids(ids)[k] == b;
        assert(ids[k] == LayerId(b));
    }
}

/// Where every input is known, no edge leaves the layers.
pub proof fn lemma_known_closed(graph: Graph)
    requires
        graph.ordered(),
        graph.references_known(),
    ensures
        closed_under(graph.edges(), graph.edges().dom()),
{
    let g = graph.edges();
    assert forall|a: u64, b: u64| g.dom().contains(a) && #[trigger] reads(g, a, b) implies g.dom().contains(
        b,
    ) by {
        let i = place_of(graph.layers@, a);
        lemma_layer_reads(graph.layers@, i, b);
        let ids = graph.layers@[i].kind.input_ids();
        let k = choose|k: int| 0 <= k < ids.len() && ids[k] == LayerId(b);
        assert(has_layer(graph.layers@, ids[k].0));
    }
}

/// `h` is `g` with one layer appended, under the next id.
pub open spec fn appended(g: Graph, h: Graph, name: Seq<char>, kind: LayerKind) -> bool {
    &&& h.layers@.len() == g.layers@.len() + 1
    &&& h.layers@.drop_last() == g.layers@
    &&& h.layers@.last().id.0 == g.next_id
    &&& h.layers@.last().name@ == name
    &&& h.layers@.last().kind == kind
    &&& h.list_order@ == g.list_order@.push(LayerId(g.next_id))
    &&& h.canvases == g.canvases
    &&& h.output == g.output
    &&& h.params == g.params
    &&& h.next_id == g.next_id + 1
}

/// Known layers stay known when a layer is appended.
proof fn lemma_appended_known(g: Seq<Layer>, h: Seq<Layer>, id: u64)
    requires
        h.len() == g.len() + 1,
        h.drop_last() == g,
    ensures
        has_layer(h, id) <==> has_layer(g, id) || id == h.last().id.0,
{
    if has_layer(g, id) {
        let i = choose|i: int| 0 <= i < g.len() && (#[trigger] g[i]).id.0 == id;
        assert(h[i] == g[i]);
    }
    if id == h.last().id.0 {
        assert(h[h.len() - 1].id.0 == id);
    }
    if has_layer(h, id) && id != h.last().id.0 {
        let i = choose|i: int| 0 <= i < h.len() && (#[trigger] h[i]).id.0 == id;
        assert(g[i] == h[i]);
    }
}

/// Appending an acceptable layer under a new name keeps the graph well formed.
proof fn lemma_appended_well_formed(g: Graph, h: Graph, name: Seq<char>, kind: LayerKind)
    requires
        g.well_formed(),
        appended(g, h, name, kind),
        !name_taken(g.layers@, name),
        kind_accepted(kind, g.layers@, g.params@),
    ensures
        h.well_formed(),
{
    let n = g.layers@.len() as int;
    let new = g.next_id;
    assert forall|i: int| 0 <= i < n implies #[trigger] h.layers@[i] == g.layers@[i] by {
        assert(h.layers@.drop_last()[i] == h.layers@[i]);
    }
    assert forall|id: u64| has_layer(h.layers@, id) <==> has_layer(g.layers@, id) || id == new by {
        lemma_appended_known(g.layers@, h.layers@, id);
    }
    assert(h.ordered());
    assert(!has_layer(g.layers@, new));
    assert(h.list_is_permutation()) by {
        let a = raw_ids(g.list_order@);
        let b = raw_ids(h.list_order@);
        assert(b =~= a.push(new));
        assert(!a.contains(new));
        assert forall|id: u64| b.contains(id) <==> has_layer(h.layers@, id) by {
            if a.contains(id) {
                let k = choose|k: int| 0 <= k < a.len() && a[k] == id;
                assert(b[k] == id);
            }
            if id == new {
                assert(b[a.len() as int] == id);
            }
            if b.contains(id) && id != new {
                let k = choose|k: int| 0 <= k < b.len() && b[k] == id;
                assert(a[k] == id);
            }
            assert(has_layer(g.layers@, id) <==> a.contains(id));
        }
    }
    assert(h.names_differ());
    assert(h.references_known()) by {
        assert forall|i: int| 0 <= i < h.layers@.len() implies ids_are_known(
            (#[trigger] h.layers@[i]).kind.input_ids(),
            h.layers@,
        ) by {
            if i < n {
                assert(ids_are_known(g.layers@[i].kind.input_ids(), g.layers@));
            }
        }
    }
    assert(acyclic(h.edges())) by {
        assert(agree_but_at(g.edges(), h.edges(), new)) by {
            assert forall|a: u64, b: u64|
                #![trigger reads(g.edges(), a, b)]
                #![trigger reads(h.edges(), a, b)]
                a != new implies (reads(g.edges(), a, b) <==> reads(h.edges(), a, b)) by {
                if has_layer(g.layers@, a) {
                    let i = place_of(g.layers@, a);
                    lemma_layer_reads(g.layers@, i, b);
                    lemma_layer_reads(h.layers@, i, b);
                }
            }
        }
        lemma_changed_node(g.edges(), h.edges(), new);
        lemma_known_closed(g);
        assert forall|m: u64| #[trigger] reads(h.edges(), new, m) implies !reaches(
            g.edges(),
            m,
            new,
        ) by {
            lemma_layer_reads(h.layers@, n, m);
            let ids = kind.input_ids();
            let k = choose|k: int| 0 <= k < ids.len() && ids[k] == LayerId(m);
            assert(has_layer(g.layers@, ids[k].0));
            if reaches(g.edges(), m, new) {
                lemma_closed_keeps(g.edges(), g.edges().dom(), m, new);
            }
        }
    }
    assert(h.kinds_valid());
    assert(h.declarations_valid());
    assert(h.params_known()) by {
        assert forall|i: int| 0 <= i < h.layers@.len() implies refs_are_declared(
            (#[trigger] h.layers@[i]).kind.ref_names(),
            h.params@,
        ) by {
            if i < n {
                assert(refs_are_declared(g.layers@[i].kind.ref_names(), g.params@));
            }
        }
    }
    assert(h.canvases_valid());
}

/// What [`Graph::new`] makes.
pub open spec fn is_fresh(g: Graph) -> bool {
    &&& g.layers@.len() == 1
    &&& g.layers@[0].id == LayerId(1)
    &&& g.layers@[0].name@ == "base color"@
    &&& g.layers@[0].kind == LayerKind::Color(Color::mid_gray())
    &&& g.list_order@ == seq![LayerId(1)]
    &&& g.canvases@ == Map::<Seq<char>, Canvas>::empty()
    &&& g.output == (Output {
        color: Some(LayerId(1)),
        roughness: ScalarInput::Const(Scalar::half()),
        metallic: ScalarInput::Const(Scalar::zero()),
        normal: None,
    })
    &&& g.params@ == Map::<Seq<char>, ParamDecl>::empty()
    &&& g.next_id == 2
}

/// `h` comes of `g` by adding a layer, with the outcome `r`.
pub open spec fn layer_added(
    g: Graph,
    h: Graph,
    name: Seq<char>,
    kind: LayerKind,
    r: Result<LayerId, GraphError>,
) -> bool {
    match r {
        Ok(id) => {
            &&& !name_taken(g.layers@, name)
            &&& kind_accepted(kind, g.layers@, g.params@)
            &&& id.0 == g.next_id
            &&& appended(g, h, name, kind)
        },
        Err(e) => {
            &&& h == g
            &&& if name_taken(g.layers@, name) {
                e is DuplicateName && e->DuplicateName_0@ == name
            } else {
                &&& !kind_accepted(kind, g.layers@, g.params@)
                &&& kind_refused(kind, g.layers@, g.params@, e)
            }
        },
    }
}

impl Graph {
    /// A graph with a placeholder color layer as the output.
    pub fn new() -> (r: Graph)
        ensures
            is_fresh(r),
            r.well_formed(),
    {
        let mut g = Graph {
            layers: Vec::new(),
            list_order: Vec::new(),
            canvases: NameMap::new(),
            output: Output {
                color: None,
                roughness: ScalarInput::Const(Scalar::half()),
                metallic: ScalarInput::Const(Scalar::zero()),
                normal: None,
            },
            params: NameMap::new(),
            next_id: 1,
        };
        proof {
            assert(acyclic(g.edges())) by {
                assert forall|a: u64| !#[trigger] crate::reach::on_cycle(g.edges(), a) by {
                    assert(!g.edges().dom().contains(a));
                }
            }
            assert forall|id: u64|
                raw_ids(g.list_order@).contains(id) <==> #[trigger] has_layer(g.layers@, id) by {}
            assert(g.output.referenced_ids() =~= Seq::<LayerId>::empty());
            assert(g.output.ref_names() =~= Seq::<(Seq<char>, ParamUse)>::empty());
            assert(g.well_formed());
        }
        let ghost empty = g;
        let placeholder = LayerKind::Color(Color::mid_gray());
        let added = g.add_layer("base color", placeholder);
        match added {
            Ok(id) => {
                g.output.color = Some(id);
                proof {
                    assert(g.layers@[0] == g.layers@.last());
                    assert(g.output.referenced_ids() =~= seq![id]);
                    assert(g.output.ref_names() =~= Seq::<(Seq<char>, ParamUse)>::empty());
                    assert(g.list_order@ =~= seq![LayerId(1)]);
                    assert(has_layer(g.layers@, id.0));
                    assert(g.params_known());
                    assert(g.references_known());
                }
            },
            Err(_) => {
                proof {
                    assert(!name_taken(empty.layers@, "base color"@));
                    assert(placeholder.input_ids() =~= Seq::<LayerId>::empty());
                    assert(placeholder.ref_names() =~= Seq::<(Seq<char>, ParamUse)>::empty());
                    assert(kind_accepted(placeholder, empty.layers@, empty.params@));
                }
            },
        }
        g
    }

    /// Appends a layer. The name must be unused; the layer goes to the end of
    /// the list order and is left unplaced on every canvas.
    pub fn add_layer(&mut self, name: &str, kind: LayerKind) -> (r: Result<LayerId, GraphError>)
        requires
            old(self).ordered(),
            old(self).next_id < u64::MAX,
        ensures
            layer_added(*old(self), *final(self), name@, kind, r),
            final(self).ordered(),
            ids_grow(*old(self), *final(self)),
            old(self).well_formed() ==> final(self).well_formed(),
    {
        let mut i: usize = 0;
        while i < self.layers.len()
            invariant
                *self == *old(self),
                old(self).ordered(),
                old(self).next_id < u64::MAX,
                i <= self.layers@.len(),
                forall|j: int| 0 <= j < i ==> (#[trigger] self.layers@[j]).name@ != name@,
            decreases self.layers@.len() - i,
        {
            if same_name(self.layers[i].name.as_str(), name) {
                return Err(GraphError::DuplicateName(name.to_owned()));
            }
            i += 1;
        }
        match check_kind(self, &kind) {
            Ok(_) => {},
            Err(e) => {
                return Err(e);
            },
        }
        let id = LayerId(self.next_id);
        self.next_id = self.next_id + 1;
        self.layers.push(Layer { id, name: name.to_owned(), kind });
        self.list_order.push(id);
        proof {
            assert(self.layers@.drop_last() =~= old(self).layers@);
            assert(appended(*old(self), *self, name@, kind));
            lemma_appended_grows(*old(self), *self, name@, kind);
            if old(self).well_formed() {
                lemma_appended_well_formed(*old(self), *self, name@, kind);
            }
        }
        Ok(id)
    }
}

impl Default for Graph {
    fn default() -> (r: Self)
        ensures
            is_fresh(r),
            r.well_formed(),
    {
        Graph::new()
    }
}

/// `h` is `g` without the layer `id`, and with everything that read it
/// disconnected.
pub open spec fn removed(g: Graph, h: Graph, id: LayerId) -> bool {
    let p = place_of(g.layers@, id.0);
    &&& h.layers@.len() == g.layers@.len() - 1
    &&& forall|i: int|
        0 <= i < h.layers@.len() ==> {
            let before = g.layers@[if i < p { i } else { i + 1 }];
            &&& (#[trigger] h.layers@[i]).id == before.id
            &&& h.layers@[i].name == before.name
            &&& kind_without(before.kind, h.layers@[i].kind, id)
        }
    &&& h.list_order@ == g.list_order@.filter(other_than(id))
    &&& h.output == output_without(g.output, id)
    &&& unplaced(g.canvases, h.canvases, id)
    &&& h.params == g.params
    &&& h.next_id == g.next_id
}

/// `b` is `a` with the layer `id` placed on no canvas.
pub open spec fn unplaced(a: NameMap<Canvas>, b: NameMap<Canvas>, id: LayerId) -> bool {
    &&& same_names(a.entry_seq(), b.entry_seq())
    &&& forall|i: int|
        0 <= i < a.entry_seq().len() ==> {
            &&& (#[trigger] b.entry_seq()[i]).1.positions@ == a.entry_seq()[i].1.positions@.remove(
                id.0,
            )
            &&& b.entry_seq()[i].1.output_pos == a.entry_seq()[i].1.output_pos
        }
}

/// A run of edits: each graph comes of the one before it by an edit.
pub open spec fn run_of_edits(history: Seq<Graph>) -> bool {
    &&& history.len() > 0
    &&& forall|i: int, j: int|
        #![trigger history[i], history[j]]
        0 <= i && j == i + 1 && j < history.len() ==> ids_grow(history[i], history[j])
}

/// Over a run of edits the counter does not fall, and an id below it that no
/// layer has stays free.
proof fn lemma_ids_over_a_run(history: Seq<Graph>, id: u64, i: int, j: int)
    requires
        run_of_edits(history),
        0 <= i <= j < history.len(),
    ensures
        history[i].next_id <= history[j].next_id,
        id < history[i].next_id && !has_layer(history[i].layers@, id) ==> !has_layer(
            history[j].layers@,
            id,
        ),
    decreases j - i,
{
    if i < j {
        lemma_ids_over_a_run(history, id, i, j - 1);
        assert(ids_grow(history[j - 1], history[j]));
    }
}

/// An id is never given twice, however many edits lie between. Once a layer has
/// had it and is gone, no later graph of the run has a layer by that id; and
/// whatever is appended at the end of the run gets an id above it.
pub proof fn law_ids_are_not_given_twice(
    history: Seq<Graph>,
    id: LayerId,
    i: int,
    after: Graph,
    name: Seq<char>,
    kind: LayerKind,
)
    requires
        run_of_edits(history),
        history[0].ordered(),
        has_layer(history[0].layers@, id.0),
        0 <= i < history.len(),
        appended(history.last(), after, name, kind),
    ensures
        !has_layer(history[i].layers@, id.0) ==> forall|j: int|
            i <= j < history.len() ==> !has_layer((#[trigger] history[j]).layers@, id.0),
        id.0 < after.layers@.last().id.0,
        has_layer(after.layers@, id.0) == has_layer(history.last().layers@, id.0),
        ids_grow(history.last(), after),
{
    let g = history[0];
    let p = choose|p: int| 0 <= p < g.layers@.len() && (#[trigger] g.layers@[p]).id.0 == id.0;
    assert(g.layers@[p].id.0 < g.next_id);
    lemma_ids_over_a_run(history, id.0, 0, i);
    lemma_ids_over_a_run(history, id.0, 0, history.len() - 1);
    if !has_layer(history[i].layers@, id.0) {
        assert forall|j: int| i <= j < history.len() implies !has_layer(
            (#[trigger] history[j]).layers@,
            id.0,
        ) by {
            lemma_ids_over_a_run(history, id.0, i, j);
        }
    }
    lemma_appended_known(history.last().layers@, after.layers@, id.0);
    lemma_appended_grows(history.last(), after, name, kind);
}

/// A layer appended gets the id that the counter holds.
proof fn lemma_appended_grows(g: Graph, h: Graph, name: Seq<char>, kind: LayerKind)
    requires
        appended(g, h, name, kind),
    ensures
        ids_grow(g, h),
{
    assert forall|id: u64| #[trigger] has_layer(h.layers@, id) implies has_layer(g.layers@, id)
        || g.next_id <= id by {
        let i = choose|i: int| 0 <= i < h.layers@.len() && (#[trigger] h.layers@[i]).id.0 == id;
        if i < g.layers@.len() {
            assert(g.layers@[i] == h.layers@.drop_last()[i]);
        }
    }
}

/// Removing a layer gives no id.
proof fn lemma_removed_grows(g: Graph, h: Graph, id: LayerId)
    requires
        removed(g, h, id),
        has_layer(g.layers@, id.0),
    ensures
        ids_grow(g, h),
{
    let p = place_of(g.layers@, id.0);
    assert forall|x: u64| #[trigger] has_layer(h.layers@, x) implies has_layer(g.layers@, x) by {
        let i = choose|i: int| 0 <= i < h.layers@.len() && (#[trigger] h.layers@[i]).id.0 == x;
        let before = if i < p { i } else { i + 1 };
        assert(g.layers@[before].id.0 == x);
    }
}

/// A removed layer's name is free again.
pub proof fn law_removed_name_is_free(g: Graph, h: Graph, id: LayerId)
    requires
        g.well_formed(),
        has_layer(g.layers@, id.0),
        removed(g, h, id),
    ensures
        !name_taken(h.layers@, g.layer(id)->0.name@),
{
    let p = place_of(g.layers@, id.0);
    assert forall|i: int| 0 <= i < h.layers@.len() implies (#[trigger] h.layers@[i]).name@
        != g.layers@[p].name@ by {
        let before = if i < p { i } else { i + 1 };
        assert(g.layers@[before].name@ != g.layers@[p].name@);
    }
}

/// Removing a layer leaves every canvas and takes the layer off each.
pub proof fn law_removed_layer_is_off_every_canvas(g: Graph, h: Graph, id: LayerId)
    requires
        removed(g, h, id),
    ensures
        h.canvases@.dom() == g.canvases@.dom(),
        forall|name: Seq<char>| #[trigger]
            g.canvases@.dom().contains(name) ==> h.canvases@[name].positions@
                == g.canvases@[name].positions@.remove(id.0) && h.canvases@[name].output_pos
                == g.canvases@[name].output_pos,
{
    lemma_same_names(g.canvases, h.canvases);
}

/// What a removal means for the structure of the graph: the layer is gone, and
/// so is every reference to it; names, settings and parameters stay.
spec fn shrunk(g: Graph, h: Graph, id: LayerId) -> bool {
    let p = place_of(g.layers@, id.0);
    &&& h.layers@.len() == g.layers@.len() - 1
    &&& forall|i: int|
        0 <= i < h.layers@.len() ==> {
            let before = g.layers@[if i < p { i } else { i + 1 }];
            &&& (#[trigger] h.layers@[i]).id == before.id
            &&& h.layers@[i].name == before.name
            &&& h.layers@[i].kind.input_ids() == before.kind.input_ids().filter(other_than(id))
            &&& h.layers@[i].kind.ref_names() == before.kind.ref_names()
            &&& kind_is_valid(before.kind) ==> kind_is_valid(h.layers@[i].kind)
        }
    &&& h.list_order@ == g.list_order@.filter(other_than(id))
    &&& h.output.referenced_ids() == g.output.referenced_ids().filter(other_than(id))
    &&& h.output.ref_names() == g.output.ref_names()
    &&& unplaced(g.canvases, h.canvases, id)
    &&& h.params == g.params
    &&& h.next_id == g.next_id
}

proof fn lemma_removed_shrinks(g: Graph, h: Graph, id: LayerId)
    requires
        removed(g, h, id),
    ensures
        shrunk(g, h, id),
{
    let p = place_of(g.layers@, id.0);
    assert forall|i: int| 0 <= i < h.layers@.len() implies ({
        let before = g.layers@[if i < p { i } else { i + 1 }];
        &&& (#[trigger] h.layers@[i]).kind.input_ids() == before.kind.input_ids().filter(
            other_than(id),
        )
        &&& h.layers@[i].kind.ref_names() == before.kind.ref_names()
        &&& kind_is_valid(before.kind) ==> kind_is_valid(h.layers@[i].kind)
    }) by {
        let before = g.layers@[if i < p { i } else { i + 1 }];
        lemma_kind_without(before.kind, h.layers@[i].kind, id);
    }
    lemma_output_without(g.output, id);
}

/// Which layers are known after a removal: all but the removed one.
proof fn lemma_removed_known(g: Graph, h: Graph, id: LayerId, x: u64)
    requires
        ids_ascend(g.layers@),
        has_layer(g.layers@, id.0),
        shrunk(g, h, id),
    ensures
        has_layer(h.layers@, x) <==> has_layer(g.layers@, x) && x != id.0,
{
    let p = place_of(g.layers@, id.0);
    if has_layer(h.layers@, x) {
        let i = choose|i: int| 0 <= i < h.layers@.len() && (#[trigger] h.layers@[i]).id.0 == x;
        let j = if i < p { i } else { i + 1 };
        assert(g.layers@[j].id.0 == x);
        if j < p {
            assert(g.layers@[j].id.0 < g.layers@[p].id.0);
        } else {
            assert(g.layers@[p].id.0 < g.layers@[j].id.0);
        }
    }
    if has_layer(g.layers@, x) && x != id.0 {
        let j = choose|j: int| 0 <= j < g.layers@.len() && (#[trigger] g.layers@[j]).id.0 == x;
        let i = if j < p { j } else { j - 1 };
        assert(h.layers@[i].id == g.layers@[j].id);
    }
}

/// The list order stays a permutation when a layer is removed.
proof fn lemma_removed_permutation(g: Graph, h: Graph, id: LayerId)
    requires
        ids_ascend(g.layers@),
        g.list_is_permutation(),
        has_layer(g.layers@, id.0),
        shrunk(g, h, id),
    ensures
        h.list_is_permutation(),
{
    let keep = other_than(id);
    let a = g.list_order@;
    let b = h.list_order@;
    lemma_raw_distinct(a);
    lemma_raw_distinct(b);
    lemma_filter_distinct(a, keep);
    assert forall|x: u64|
        #![trigger has_layer(h.layers@, x)]
        raw_ids(b).contains(x) <==> has_layer(h.layers@, x) by {
        lemma_removed_known(g, h, id, x);
        lemma_filter_holds(a, keep, LayerId(x));
        assert(a.contains(LayerId(x)) <==> raw_ids(a).contains(x));
        assert(b.contains(LayerId(x)) <==> raw_ids(b).contains(x));
        assert(has_layer(g.layers@, x) <==> raw_ids(a).contains(x));
    }
}

/// Removing a layer keeps the graph well formed.
proof fn lemma_shrunk_well_formed(g: Graph, h: Graph, id: LayerId)
    requires
        g.well_formed(),
        has_layer(g.layers@, id.0),
        shrunk(g, h, id),
    ensures
        h.well_formed(),
{
    let p = place_of(g.layers@, id.0);
    let keep = other_than(id);
    assert forall|x: u64| #[trigger] has_layer(h.layers@, x) <==> has_layer(g.layers@, x) && x
        != id.0 by {
        lemma_removed_known(g, h, id, x);
    }
    assert(h.ordered()) by {
        assert forall|i: int, j: int|
            #![trigger h.layers@[i], h.layers@[j]]
            0 <= i < j < h.layers@.len() implies h.layers@[i].id.0 < h.layers@[j].id.0 by {
            let a = if i < p { i } else { i + 1 };
            let b = if j < p { j } else { j + 1 };
            assert(g.layers@[a].id.0 < g.layers@[b].id.0);
        }
        assert forall|i: int| 0 <= i < h.layers@.len() implies (#[trigger] h.layers@[i]).id.0
            < h.next_id by {
            let a = if i < p { i } else { i + 1 };
            assert(g.layers@[a].id.0 < g.next_id);
        }
    }
    lemma_removed_permutation(g, h, id);
    assert(h.names_differ()) by {
        assert forall|i: int, j: int|
            #![trigger h.layers@[i], h.layers@[j]]
            0 <= i < j < h.layers@.len() implies h.layers@[i].name@ != h.layers@[j].name@ by {
            let a = if i < p { i } else { i + 1 };
            let b = if j < p { j } else { j + 1 };
            assert(g.layers@[a].name@ != g.layers@[b].name@);
        }
    }
    assert(h.references_known()) by {
        assert forall|i: int| 0 <= i < h.layers@.len() implies ids_are_known(
            (#[trigger] h.layers@[i]).kind.input_ids(),
            h.layers@,
        ) by {
            let j = if i < p { i } else { i + 1 };
            assert(ids_are_known(g.layers@[j].kind.input_ids(), g.layers@));
            lemma_kept_ids_known(g, h, id, g.layers@[j].kind.input_ids());
        }
        lemma_kept_ids_known(g, h, id, g.output.referenced_ids());
    }
    assert(acyclic(h.edges())) by {
        assert forall|a: u64, b: u64| #[trigger] reads(h.edges(), a, b) implies reads(
            g.edges(),
            a,
            b,
        ) by {
            let i = place_of(h.layers@, a);
            let j = if i < p { i } else { i + 1 };
            lemma_layer_reads(h.layers@, i, b);
            lemma_layer_reads(g.layers@, j, b);
            lemma_filter_holds(g.layers@[j].kind.input_ids(), keep, LayerId(b));
        }
        lemma_fewer_edges(g.edges(), h.edges());
    }
    assert(h.kinds_valid()) by {
        assert forall|i: int| 0 <= i < h.layers@.len() implies kind_is_valid(
            (#[trigger] h.layers@[i]).kind,
        ) by {
            let j = if i < p { i } else { i + 1 };
            assert(kind_is_valid(g.layers@[j].kind));
        }
    }
    assert(h.params_known()) by {
        assert forall|i: int| 0 <= i < h.layers@.len() implies refs_are_declared(
            (#[trigger] h.layers@[i]).kind.ref_names(),
            h.params@,
        ) by {
            let j = if i < p { i } else { i + 1 };
            assert(refs_are_declared(g.layers@[j].kind.ref_names(), g.params@));
        }
    }
    assert(h.canvases_valid()) by {
        lemma_same_names(g.canvases, h.canvases);
        assert forall|name: Seq<char>, x: u64|
            #![trigger h.canvases@[name].positions@.dom().contains(x)]
            h.canvases@.dom().contains(name) && h.canvases@[name].positions@.dom().contains(
                x,
            ) implies has_layer(h.layers@, x) by {
            assert(g.canvases@.dom().contains(name));
            assert(g.canvases@[name].positions@.dom().contains(x));
        }
    }
}

/// Ids that were known stay known, but the removed one, which is filtered out.
proof fn lemma_kept_ids_known(g: Graph, h: Graph, id: LayerId, ids: Seq<LayerId>)
    requires
        ids_are_known(ids, g.layers@),
        forall|x: u64| #[trigger]
            has_layer(h.layers@, x) <==> has_layer(g.layers@, x) && x != id.0,
    ensures
        ids_are_known(ids.filter(other_than(id)), h.layers@),
{
    let keep = other_than(id);
    let kept = ids.filter(keep);
    assert forall|k: int| 0 <= k < kept.len() implies has_layer(
        h.layers@,
        (#[trigger] kept[k]).0,
    ) by {
        assert(kept.contains(kept[k]));
        lemma_filter_holds(ids, keep, kept[k]);
        let m = choose|m: int| 0 <= m < ids.len() && ids[m] == kept[k];
        assert(has_layer(g.layers@, ids[m].0));
    }
}

/// The layers with the kind of the layer `id` replaced.
pub open spec fn with_kind(layers: Seq<Layer>, id: LayerId, kind: LayerKind) -> Seq<Layer> {
    let p = place_of(layers, id.0);
    layers.update(p, Layer { kind: kind, ..layers[p] })
}

/// `h` is `g` but for its layers.
pub open spec fn same_but_layers(g: Graph, h: Graph) -> bool {
    &&& h.list_order == g.list_order
    &&& h.canvases == g.canvases
    &&& h.output == g.output
    &&& h.params == g.params
    &&& h.next_id == g.next_id
}

/// Replacing a kind keeps the ids, and the edges of the other layers.
proof fn lemma_with_kind(layers: Seq<Layer>, id: LayerId, kind: LayerKind)
    requires
        ids_ascend(layers),
        has_layer(layers, id.0),
    ensures
        ids_ascend(with_kind(layers, id, kind)),
        forall|x: u64| #[trigger]
            has_layer(with_kind(layers, id, kind), x) <==> has_layer(layers, x),
        agree_but_at(layer_edges(layers), layer_edges(with_kind(layers, id, kind)), id.0),
        forall|b: u64|
            #![trigger reads(layer_edges(with_kind(layers, id, kind)), id.0, b)]
            reads(layer_edges(with_kind(layers, id, kind)), id.0, b)
                <==> kind.input_ids().contains(LayerId(b)),
{
    let p = place_of(layers, id.0);
    let after = with_kind(layers, id, kind);
    assert(0 <= p < layers.len() && layers[p].id.0 == id.0);
    assert forall|i: int| 0 <= i < layers.len() implies (#[trigger] after[i]).id == layers[i].id by {}
    assert(ids_ascend(after));
    assert forall|x: u64| #[trigger] has_layer(after, x) <==> has_layer(layers, x) by {
        if has_layer(after, x) {
            let i = choose|i: int| 0 <= i < after.len() && (#[trigger] after[i]).id.0 == x;
            assert(layers[i].id.0 == x);
        }
        if has_layer(layers, x) {
            let i = choose|i: int| 0 <= i < layers.len() && (#[trigger] layers[i]).id.0 == x;
            assert(after[i].id.0 == x);
        }
    }
    let g = layer_edges(layers);
    let h = layer_edges(after);
    assert forall|a: u64, b: u64|
        #![trigger reads(g, a, b)]
        #![trigger reads(h, a, b)]
        a != id.0 implies (reads(g, a, b) <==> reads(h, a, b)) by {
        if has_layer(layers, a) {
            let i = place_of(layers, a);
            lemma_layer_reads(layers, i, b);
            lemma_layer_reads(after, i, b);
            assert(after[i] == layers[i]);
        }
    }
    assert forall|b: u64| #[trigger] reads(h, id.0, b) <==> kind.input_ids().contains(
        LayerId(b),
    ) by {
        lemma_layer_reads(after, p, b);
    }
}

/// A change of kind makes a cycle exactly where one of the new inputs reaches
/// the layer already: [`Graph::set_kind`] refuses what
/// [`Graph::would_cycle`] predicts of one of them.
pub proof fn law_set_kind_refuses_predicted_cycles(g: Graph, id: LayerId, kind: LayerKind)
    requires
        g.well_formed(),
        has_layer(g.layers@, id.0),
    ensures
        cycle_from(layer_edges(with_kind(g.layers@, id, kind)), id.0) <==> exists|i: int|
            0 <= i < kind.input_ids().len() && reaches(
                g.edges(),
                (#[trigger] kind.input_ids()[i]).0,
                id.0,
            ),
{
    let h = layer_edges(with_kind(g.layers@, id, kind));
    let ids = kind.input_ids();
    lemma_with_kind(g.layers@, id, kind);
    lemma_changed_node(g.edges(), h, id.0);
    if exists|m: u64| #[trigger] reads(h, id.0, m) && reaches(g.edges(), m, id.0) {
        let m = choose|m: u64| #[trigger] reads(h, id.0, m) && reaches(g.edges(), m, id.0);
        let i = choose|i: int| 0 <= i < ids.len() && ids[i] == LayerId(m);
        assert(reaches(g.edges(), ids[i].0, id.0));
    }
    if exists|i: int|
        0 <= i < ids.len() && reaches(g.edges(), (#[trigger] ids[i]).0, id.0) {
        let i = choose|i: int|
            0 <= i < ids.len() && reaches(g.edges(), (#[trigger] ids[i]).0, id.0);
        assert(ids.contains(LayerId(ids[i].0)));
        assert(reads(h, id.0, ids[i].0));
    }
}

/// Replacing a kind that is accepted and makes no cycle keeps the graph well
/// formed.
proof fn lemma_with_kind_well_formed(g: Graph, h: Graph, id: LayerId, kind: LayerKind)
    requires
        g.well_formed(),
        has_layer(g.layers@, id.0),
        same_but_layers(g, h),
        h.layers@ == with_kind(g.layers@, id, kind),
        kind_accepted(kind, g.layers@, g.params@),
        !cycle_from(h.edges(), id.0),
    ensures
        h.well_formed(),
{
    let p = place_of(g.layers@, id.0);
    lemma_with_kind(g.layers@, id, kind);
    lemma_changed_node(g.edges(), h.edges(), id.0);
    assert forall|i: int| 0 <= i < h.layers@.len() implies (#[trigger] h.layers@[i]).id
        == g.layers@[i].id && h.layers@[i].name == g.layers@[i].name && h.layers@[i].kind == (if i
        == p { kind } else { g.layers@[i].kind }) by {}
    assert(h.list_is_permutation()) by {
        assert forall|x: u64|
            #![trigger has_layer(h.layers@, x)]
            raw_ids(h.list_order@).contains(x) <==> has_layer(h.layers@, x) by {
            assert(has_layer(g.layers@, x) <==> raw_ids(g.list_order@).contains(x));
        }
    }
    assert(h.references_known()) by {
        assert forall|i: int| 0 <= i < h.layers@.len() implies ids_are_known(
            (#[trigger] h.layers@[i]).kind.input_ids(),
            h.layers@,
        ) by {
            assert(ids_are_known(g.layers@[i].kind.input_ids(), g.layers@));
        }
    }
    assert(h.kinds_valid()) by {
        assert forall|i: int| 0 <= i < h.layers@.len() implies kind_is_valid(
            (#[trigger] h.layers@[i]).kind,
        ) by {
            assert(kind_is_valid(g.layers@[i].kind));
        }
    }
    assert(h.params_known()) by {
        assert forall|i: int| 0 <= i < h.layers@.len() implies refs_are_declared(
            (#[trigger] h.layers@[i]).kind.ref_names(),
            h.params@,
        ) by {
            assert(refs_are_declared(g.layers@[i].kind.ref_names(), g.params@));
        }
    }
    assert(h.names_differ()) by {
        assert forall|i: int, j: int|
            #![trigger h.layers@[i], h.layers@[j]]
            0 <= i < j < h.layers@.len() implies h.layers@[i].name@ != h.layers@[j].name@ by {
            assert(g.layers@[i].name@ != g.layers@[j].name@);
        }
    }
    assert(h.canvases_valid());
    assert(h.ordered()) by {
        assert forall|i: int| 0 <= i < h.layers@.len() implies (#[trigger] h.layers@[i]).id.0
            < h.next_id by {
            assert(g.layers@[i].id.0 < g.next_id);
        }
    }
}

/// The first place of `id` in the list.
pub open spec fn is_first_at(list: Seq<LayerId>, id: LayerId, i: int) -> bool {
    0 <= i < list.len() && list[i] == id && !list.take(i).contains(id)
}

/// The smaller of a wanted place and the last one.
pub open spec fn last_or(to: usize, len: nat) -> int {
    if to < len {
        to as int
    } else {
        len - 1
    }
}

/// `h` comes of `g` by renaming a layer, with the outcome `r`.
pub open spec fn layer_renamed(
    g: Graph,
    h: Graph,
    id: LayerId,
    new_name: Seq<char>,
    r: Result<(), GraphError>,
) -> bool {
    match r {
        Ok(_) => {
            let p = place_of(g.layers@, id.0);
            &&& has_layer(g.layers@, id.0)
            &&& !name_taken_elsewhere(g.layers@, id, new_name)
            &&& same_but_layers(g, h)
            &&& h.layers@ == g.layers@.update(p, h.layers@[p])
            &&& h.layers@[p].id == id
            &&& h.layers@[p].name@ == new_name
            &&& h.layers@[p].kind == g.layers@[p].kind
        },
        Err(e) => {
            &&& h == g
            &&& if name_taken_elsewhere(g.layers@, id, new_name) {
                e is DuplicateName && e->DuplicateName_0@ == new_name
            } else {
                !has_layer(g.layers@, id.0) && e == GraphError::UnknownId(id)
            }
        },
    }
}

/// `h` comes of `g` by replacing a layer's kind, with the outcome `r`.
pub open spec fn kind_replaced(
    g: Graph,
    h: Graph,
    id: LayerId,
    kind: LayerKind,
    r: Result<(), GraphError>,
) -> bool {
    match r {
        Ok(_) => {
            &&& has_layer(g.layers@, id.0)
            &&& kind_accepted(kind, g.layers@, g.params@)
            &&& h.layers@ == with_kind(g.layers@, id, kind)
            &&& !cycle_from(h.edges(), id.0)
        },
        Err(e) => {
            &&& h.layers@ == g.layers@
            &&& if !has_layer(g.layers@, id.0) {
                e == GraphError::UnknownId(id)
            } else if !kind_accepted(kind, g.layers@, g.params@) {
                kind_refused(kind, g.layers@, g.params@, e)
            } else {
                &&& e == GraphError::Cycle(id)
                &&& cycle_from(layer_edges(with_kind(g.layers@, id, kind)), id.0)
            }
        },
    }
}

/// `h` comes of `g` by replacing the output, with the outcome `r`.
pub open spec fn output_replaced(
    g: Graph,
    h: Graph,
    output: Output,
    r: Result<(), GraphError>,
) -> bool {
    match r {
        Ok(_) => {
            &&& ids_are_known(output.referenced_ids(), g.layers@)
            &&& refs_are_declared(output.ref_names(), g.params@)
            &&& h == (Graph { output: output, ..g })
        },
        Err(e) => {
            &&& h == g
            &&& if !ids_are_known(output.referenced_ids(), g.layers@) {
                e is UnknownId && first_unknown(
                    output.referenced_ids(),
                    g.layers@,
                    e->UnknownId_0,
                )
            } else {
                &&& !refs_are_declared(output.ref_names(), g.params@)
                &&& refs_refused(output.ref_names(), g.params@, e)
            }
        },
    }
}

/// The list `after` comes of `before` by moving a layer, with the outcome `r`.
pub open spec fn list_moved(
    before: Seq<LayerId>,
    after: Seq<LayerId>,
    id: LayerId,
    to: usize,
    r: Result<(), GraphError>,
) -> bool {
    match r {
        Ok(_) => exists|from: int| #[trigger]
            is_first_at(before, id, from) && after == moved(before, from, last_or(to, before.len())),
        Err(e) => {
            &&& !before.contains(id)
            &&& e == GraphError::UnknownId(id)
            &&& after == before
        },
    }
}

impl Graph {
    /// Removes a layer. Every input that read it, in layers or the output, is
    /// disconnected.
    pub fn remove(&mut self, id: LayerId) -> (r: Result<(), GraphError>)
        requires
            old(self).ordered(),
        ensures
            match r {
                Ok(_) => has_layer(old(self).layers@, id.0) && removed(*old(self), *final(self), id),
                Err(e) => {
                    &&& !has_layer(old(self).layers@, id.0)
                    &&& *final(self) == *old(self)
                    &&& e == GraphError::UnknownId(id)
                },
            },
            final(self).ordered(),
            ids_grow(*old(self), *final(self)),
            old(self).well_formed() ==> final(self).well_formed(),
    {
        let p: usize = match self.place(id) {
            Some(p) => p,
            None => {
                return Err(GraphError::UnknownId(id));
            },
        };
        let ghost before = self.layers@;
        let mut i: usize = 0;
        while i < self.layers.len()
            invariant
                i <= self.layers@.len(),
                before == old(self).layers@,
                same_but_layers(*old(self), *self),
                self.layers@.len() == before.len(),
                forall|j: int|
                    0 <= j < i ==> {
                        &&& (#[trigger] self.layers@[j]).id == before[j].id
                        &&& self.layers@[j].name == before[j].name
                        &&& kind_without(before[j].kind, self.layers@[j].kind, id)
                    },
                forall|j: int| i <= j < before.len() ==> (#[trigger] self.layers@[j]) == before[j],
            decreases self.layers@.len() - i,
        {
            self.layers[i].kind.disconnect(id);
            i += 1;
        }
        self.output.disconnect(id);
        let ghost disconnected = self.layers@;
        self.layers.remove(p);
        self.list_order = without_id(&self.list_order, id);
        let mut c: usize = 0;
        let ghost canvases = self.canvases.entry_seq();
        while c < self.canvases.len()
            invariant
                c <= canvases.len(),
                canvases == old(self).canvases.entry_seq(),
                p < disconnected.len(),
                self.layers@ == disconnected.remove(p as int),
                self.list_order@ == old(self).list_order@.filter(other_than(id)),
                self.output == output_without(old(self).output, id),
                self.params == old(self).params,
                self.next_id == old(self).next_id,
                same_names(canvases, self.canvases.entry_seq()),
                forall|j: int|
                    0 <= j < c ==> {
                        &&& (#[trigger] self.canvases.entry_seq()[j]).1.positions@
                            == canvases[j].1.positions@.remove(id.0)
                        &&& self.canvases.entry_seq()[j].1.output_pos == canvases[j].1.output_pos
                    },
                forall|j: int|
                    c <= j < canvases.len() ==> (#[trigger] self.canvases.entry_seq()[j]).1
                        == canvases[j].1,
            decreases canvases.len() - c,
        {
            let ghost entries = self.canvases.entry_seq();
            let canvas = self.canvases.value_at_mut(c);
            canvas.positions.remove(&id.0);
            assert forall|j: int| 0 <= j < canvases.len() implies (#[trigger] canvases[j]).0@
                == self.canvases.entry_seq()[j].0@ by {
                assert(entries[j].0@ == canvases[j].0@);
            }
            c += 1;
        }
        proof {
            assert(removed(*old(self), *self, id));
            lemma_removed_grows(*old(self), *self, id);
            assert(ids_ascend(self.layers@)) by {
                assert forall|i: int, j: int|
                    #![trigger self.layers@[i], self.layers@[j]]
                    0 <= i < j < self.layers@.len() implies self.layers@[i].id.0
                    < self.layers@[j].id.0 by {
                    let a = if i < p { i } else { i + 1 };
                    let b = if j < p { j } else { j + 1 };
                    assert(before[a].id.0 < before[b].id.0);
                }
            }
            assert forall|i: int| 0 <= i < self.layers@.len() implies (#[trigger] self.layers@[i]).id.0
                < self.next_id by {
                let a = if i < p { i } else { i + 1 };
                assert(before[a].id.0 < old(self).next_id);
            }
            if old(self).well_formed() {
                lemma_removed_shrinks(*old(self), *self, id);
                lemma_shrunk_well_formed(*old(self), *self, id);
            }
        }
        Ok(())
    }

    /// Renames a layer. No other layer may have the name.
    pub fn rename(&mut self, id: LayerId, new_name: &str) -> (r: Result<(), GraphError>)
        requires
            old(self).ordered(),
        ensures
            layer_renamed(*old(self), *final(self), id, new_name@, r),
            final(self).ordered(),
            ids_grow(*old(self), *final(self)),
            old(self).well_formed() ==> final(self).well_formed(),
    {
        let mut i: usize = 0;
        while i < self.layers.len()
            invariant
                *self == *old(self),
                old(self).ordered(),
                i <= self.layers@.len(),
                forall|j: int|
                    0 <= j < i ==> (#[trigger] self.layers@[j]).id == id || self.layers@[j].name@
                        != new_name@,
            decreases self.layers@.len() - i,
        {
            if self.layers[i].id.0 != id.0 && same_name(self.layers[i].name.as_str(), new_name) {
                return Err(GraphError::DuplicateName(new_name.to_owned()));
            }
            i += 1;
        }
        let p: usize = match self.place(id) {
            Some(p) => p,
            None => {
                return Err(GraphError::UnknownId(id));
            },
        };
        self.layers[p].name = new_name.to_owned();
        proof {
            let g = *old(self);
            let h = *self;
            assert(h.layers@ =~= g.layers@.update(p as int, h.layers@[p as int]));
            assert forall|i: int| 0 <= i < h.layers@.len() implies (#[trigger] h.layers@[i]).id
                == g.layers@[i].id && h.layers@[i].kind == g.layers@[i].kind by {}
            lemma_same_ids_grow(g, h);
            if g.well_formed() {
                lemma_renamed_well_formed(g, h, p as int);
            }
        }
        Ok(())
    }

    /// Replaces a layer's kind. Rejects cycles and unknown references.
    pub fn set_kind(&mut self, id: LayerId, kind: LayerKind) -> (r: Result<(), GraphError>)
        requires
            old(self).ordered(),
        ensures
            same_but_layers(*old(self), *final(self)),
            kind_replaced(*old(self), *final(self), id, kind, r),
            final(self).ordered(),
            ids_grow(*old(self), *final(self)),
            old(self).well_formed() ==> final(self).well_formed(),
    {
        let p: usize = match self.place(id) {
            Some(p) => p,
            None => {
                return Err(GraphError::UnknownId(id));
            },
        };
        match check_kind(self, &kind) {
            Ok(_) => {},
            Err(e) => {
                return Err(e);
            },
        }
        let ghost before = self.layers@;
        let mut other = kind;
        std::mem::swap(&mut self.layers[p].kind, &mut other);
        proof {
            assert(self.layers@ =~= with_kind(before, id, kind));
            lemma_with_kind(before, id, kind);
        }
        if self.has_cycle_from(id) {
            self.layers[p].kind = other;
            assert(self.layers@ =~= before);
            return Err(GraphError::Cycle(id));
        }
        proof {
            assert forall|i: int| 0 <= i < self.layers@.len() implies (#[trigger] self.layers@[i]).id.0
                < self.next_id by {
                assert(before[i].id.0 < old(self).next_id);
            }
            lemma_same_ids_grow(*old(self), *self);
            if old(self).well_formed() {
                lemma_with_kind_well_formed(*old(self), *self, id, kind);
            }
        }
        Ok(())
    }

    /// Replaces the output. Rejects unknown references.
    pub fn set_output(&mut self, output: Output) -> (r: Result<(), GraphError>)
        requires
            old(self).ordered(),
        ensures
            output_replaced(*old(self), *final(self), output, r),
            final(self).ordered(),
            ids_grow(*old(self), *final(self)),
            old(self).well_formed() ==> final(self).well_formed(),
    {
        if let Some(x) = find_unknown(self, &output.referenced()) {
            return Err(GraphError::UnknownId(x));
        }
        match validate_param_refs(&self.params, &output.param_refs()) {
            Ok(_) => {},
            Err(e) => {
                return Err(e);
            },
        }
        self.output = output;
        Ok(())
    }

    /// Moves `id` to place `to` in the list order, or to the end where there is
    /// no such place. The layers themselves stay where they are.
    pub fn set_list_position(&mut self, id: LayerId, to: usize) -> (r: Result<(), GraphError>)
        ensures
            list_moved(old(self).list_order@, final(self).list_order@, id, to, r),
            r is Err ==> final(self).list_order == old(self).list_order,
            *final(self) == (Graph { list_order: final(self).list_order, ..*old(self) }),
            ids_grow(*old(self), *final(self)),
            old(self).well_formed() ==> final(self).well_formed(),
    {
        let ghost list = self.list_order@;
        let mut from: usize = 0;
        while from < self.list_order.len() && self.list_order[from].0 != id.0
            invariant
                from <= list.len(),
                self.list_order@ == list,
                !list.take(from as int).contains(id),
            decreases list.len() - from,
        {
            assert(list.take(from + 1) =~= list.take(from as int).push(list[from as int]));
            from += 1;
        }
        if from == self.list_order.len() {
            assert(list.take(from as int) =~= list);
            return Err(GraphError::UnknownId(id));
        }
        let last: usize = self.list_order.len() - 1;
        let place: usize = if to < last { to } else { last };
        proof {
            assert(is_first_at(list, id, from as int));
            lemma_moved(list, from as int, place as int);
        }
        if from != place {
            let v = self.list_order.remove(from);
            self.list_order.insert(place, v);
        } else {
            assert(moved(list, from as int, place as int) =~= list);
        }
        proof {
            let g = *old(self);
            let h = *self;
            if g.well_formed() {
                lemma_raw_distinct(g.list_order@);
                lemma_raw_distinct(h.list_order@);
                assert forall|x: u64|
                    #![trigger has_layer(h.layers@, x)]
                    raw_ids(h.list_order@).contains(x) <==> has_layer(h.layers@, x) by {
                    assert(has_layer(g.layers@, x) <==> raw_ids(g.list_order@).contains(x));
                    assert(h.list_order@.contains(LayerId(x)) <==> raw_ids(h.list_order@).contains(
                        x,
                    ));
                    assert(g.list_order@.contains(LayerId(x)) <==> raw_ids(g.list_order@).contains(
                        x,
                    ));
                }
                assert(h.list_is_permutation());
            }
        }
        Ok(())
    }
}

/// Renaming a layer to a name of its own keeps the graph well formed.
proof fn lemma_renamed_well_formed(g: Graph, h: Graph, p: int)
    requires
        g.well_formed(),
        0 <= p < g.layers@.len(),
        same_but_layers(g, h),
        h.layers@.len() == g.layers@.len(),
        forall|i: int|
            0 <= i < h.layers@.len() ==> (#[trigger] h.layers@[i]).id == g.layers@[i].id
                && h.layers@[i].kind == g.layers@[i].kind,
        forall|i: int|
            0 <= i < h.layers@.len() && i != p ==> (#[trigger] h.layers@[i]) == g.layers@[i],
        forall|i: int|
            0 <= i < g.layers@.len() && i != p ==> (#[trigger] g.layers@[i]).name@
                != h.layers@[p].name@,
    ensures
        h.well_formed(),
{
    lemma_same_shape(g.layers@, h.layers@);
    assert(h.list_is_permutation()) by {
        assert forall|x: u64|
            #![trigger has_layer(h.layers@, x)]
            raw_ids(h.list_order@).contains(x) <==> has_layer(h.layers@, x) by {
            assert(has_layer(g.layers@, x) <==> raw_ids(g.list_order@).contains(x));
        }
    }
    assert(h.names_differ()) by {
        assert forall|i: int, j: int|
            #![trigger h.layers@[i], h.layers@[j]]
            0 <= i < j < h.layers@.len() implies h.layers@[i].name@ != h.layers@[j].name@ by {
            assert(g.layers@[i].name@ != g.layers@[j].name@);
        }
    }
    assert(h.references_known()) by {
        assert forall|i: int| 0 <= i < h.layers@.len() implies ids_are_known(
            (#[trigger] h.layers@[i]).kind.input_ids(),
            h.layers@,
        ) by {
            assert(ids_are_known(g.layers@[i].kind.input_ids(), g.layers@));
        }
    }
    assert(h.kinds_valid()) by {
        assert forall|i: int| 0 <= i < h.layers@.len() implies kind_is_valid(
            (#[trigger] h.layers@[i]).kind,
        ) by {
            assert(kind_is_valid(g.layers@[i].kind));
        }
    }
    assert(h.params_known()) by {
        assert forall|i: int| 0 <= i < h.layers@.len() implies refs_are_declared(
            (#[trigger] h.layers@[i]).kind.ref_names(),
            h.params@,
        ) by {
            assert(refs_are_declared(g.layers@[i].kind.ref_names(), g.params@));
        }
    }
    assert(h.ordered()) by {
        assert forall|i: int| 0 <= i < h.layers@.len() implies (#[trigger] h.layers@[i]).id.0
            < h.next_id by {
            assert(g.layers@[i].id.0 < g.next_id);
        }
    }
    assert(h.canvases_valid());
}

/// Layers with the same ids and the same inputs, place by place, make the same
/// edges.
pub proof fn lemma_same_shape(a: Seq<Layer>, b: Seq<Layer>)
    requires
        ids_ascend(a),
        a.len() == b.len(),
        forall|i: int|
            0 <= i < a.len() ==> (#[trigger] b[i]).id == a[i].id && b[i].kind.input_ids()
                == a[i].kind.input_ids(),
    ensures
        ids_ascend(b),
        forall|x: u64| #[trigger] has_layer(b, x) <==> has_layer(a, x),
        layer_edges(b) == layer_edges(a),
{
    assert(ids_ascend(b)) by {
        assert forall|i: int, j: int|
            #![trigger b[i], b[j]]
            0 <= i < j < b.len() implies b[i].id.0 < b[j].id.0 by {
            assert(a[i].id.0 < a[j].id.0);
        }
    }
    assert forall|x: u64| #[trigger] has_layer(b, x) <==> has_layer(a, x) by {
        if has_layer(b, x) {
            let i = choose|i: int| 0 <= i < b.len() && (#[trigger] b[i]).id.0 == x;
            assert(a[i].id.0 == x);
        }
        if has_layer(a, x) {
            let i = choose|i: int| 0 <= i < a.len() && (#[trigger] a[i]).id.0 == x;
            assert(b[i].id.0 == x);
        }
    }
    assert forall|x: u64| has_layer(b, x) implies #[trigger] layer_edges(b)[x] == layer_edges(
        a,
    )[x] by {
        assert(has_layer(a, x));
        let i = place_of(a, x);
        assert(0 <= i < a.len() && a[i].id.0 == x);
        assert(b[i].id.0 == x);
        lemma_place_of(b, i);
        lemma_place_of(a, i);
    }
    assert(layer_edges(b) =~= layer_edges(a));
}

/// An appended layer is found under the id that came next, with its name and
/// kind, and stands last in the list. Every other layer is found as before.
pub proof fn law_appended_layer_is_found(
    g: Graph,
    h: Graph,
    name: Seq<char>,
    kind: LayerKind,
    x: LayerId,
)
    requires
        g.ordered(),
        appended(g, h, name, kind),
    ensures
        h.layer(LayerId(g.next_id)) is Some,
        h.layer(LayerId(g.next_id))->Some_0.name@ == name,
        h.layer(LayerId(g.next_id))->Some_0.kind == kind,
        g.layer(LayerId(g.next_id)) is None,
        x.0 != g.next_id ==> h.layer(x) == g.layer(x),
        h.list_order@.last() == LayerId(g.next_id),
        h.list_order@.drop_last() == g.list_order@,
{
    let n = g.layers@.len() as int;
    assert forall|i: int| 0 <= i < n implies #[trigger] h.layers@[i] == g.layers@[i] by {
        assert(h.layers@.drop_last()[i] == h.layers@[i]);
    }
    assert(h.layers@[n] == h.layers@.last());
    assert(ids_ascend(h.layers@)) by {
        assert forall|i: int, j: int|
            #![trigger h.layers@[i], h.layers@[j]]
            0 <= i < j < h.layers@.len() implies h.layers@[i].id.0 < h.layers@[j].id.0 by {
            assert(g.layers@[i].id.0 < g.next_id);
            if j < n {
                assert(g.layers@[i].id.0 < g.layers@[j].id.0);
            }
        }
    }
    lemma_place_of(h.layers@, n);
    if x.0 != g.next_id {
        if has_layer(g.layers@, x.0) {
            let p = place_of(g.layers@, x.0);
            assert(g.layers@[p].id.0 == x.0);
            lemma_place_of(h.layers@, p);
        } else if has_layer(h.layers@, x.0) {
            let p = place_of(h.layers@, x.0);
            assert(h.layers@[p].id.0 == x.0);
            assert(g.layers@[p].id.0 == x.0);
        }
    }
    assert(h.list_order@.drop_last() =~= g.list_order@);
}

/// A removed layer is found no more, nothing reads it, and it is off the list.
/// Every other layer is found as before under its name, with its settings, and
/// reads what it read but the removed layer.
#[verifier::spinoff_prover]
#[verifier::rlimit(40)]
pub proof fn law_removed_layer_is_read_nowhere(g: Graph, h: Graph, id: LayerId, x: LayerId)
    requires
        g.ordered(),
        has_layer(g.layers@, id.0),
        removed(g, h, id),
    ensures
        h.layer(id) is None,
        x != id ==> (h.layer(x) is Some <==> g.layer(x) is Some),
        h.layer(x) is Some ==> {
            let before = g.layer(x)->Some_0;
            let after = h.layer(x)->Some_0;
            &&& after.name == before.name
            &&& same_settings(before.kind, after.kind)
            &&& forall|y: LayerId| #[trigger]
                after.kind.input_ids().contains(y) <==> y != id && before.kind.input_ids().contains(
                    y,
                )
        },
        forall|y: LayerId| #[trigger]
            h.output.referenced_ids().contains(y) <==> y != id
                && g.output.referenced_ids().contains(y),
        forall|y: LayerId| #[trigger]
            h.list_order@.contains(y) <==> y != id && g.list_order@.contains(y),
{
    let p = place_of(g.layers@, id.0);
    assert(0 <= p < g.layers@.len() && g.layers@[p].id.0 == id.0);
    assert(ids_ascend(h.layers@)) by {
        assert forall|i: int, j: int|
            #![trigger h.layers@[i], h.layers@[j]]
            0 <= i < j < h.layers@.len() implies h.layers@[i].id.0 < h.layers@[j].id.0 by {
            let a = if i < p { i } else { i + 1 };
            let b = if j < p { j } else { j + 1 };
            assert(g.layers@[a].id.0 < g.layers@[b].id.0);
        }
    }
    assert forall|i: int| 0 <= i < h.layers@.len() implies (#[trigger] h.layers@[i]).id.0
        != id.0 by {
        let a = if i < p { i } else { i + 1 };
        if a < p {
            assert(g.layers@[a].id.0 < g.layers@[p].id.0);
        } else {
            assert(g.layers@[p].id.0 < g.layers@[a].id.0);
        }
    }
    if h.layer(x) is Some {
        let i = place_of(h.layers@, x.0);
        assert(0 <= i < h.layers@.len() && h.layers@[i].id.0 == x.0);
        let a = if i < p { i } else { i + 1 };
        lemma_place_of(g.layers@, a);
        let before = g.layers@[a].kind;
        let after = h.layers@[i].kind;
        assert(kind_without(before, after, id));
        lemma_kind_without(before, after, id);
        lemma_settings_stay(before, after, id);
        assert forall|y: LayerId| #[trigger] after.input_ids().contains(y) <==> y != id
            && before.input_ids().contains(y) by {
            lemma_filter_holds(before.input_ids(), other_than(id), y);
        }
    }
    if x != id && g.layer(x) is Some {
        let a = place_of(g.layers@, x.0);
        assert(0 <= a < g.layers@.len() && g.layers@[a].id.0 == x.0);
        let i = if a < p { a } else { a - 1 };
        assert(h.layers@[i].id.0 == x.0);
    }
    lemma_output_without(g.output, id);
    assert(h.output == output_without(g.output, id));
    assert forall|y: LayerId| #[trigger] h.output.referenced_ids().contains(y) <==> y != id
        && g.output.referenced_ids().contains(y) by {
        lemma_filter_holds(g.output.referenced_ids(), other_than(id), y);
    }
    assert forall|y: LayerId| #[trigger] h.list_order@.contains(y) <==> y != id
        && g.list_order@.contains(y) by {
        lemma_filter_holds(g.list_order@, other_than(id), y);
    }
}

proof fn lemma_settings_stay(a: LayerKind, b: LayerKind, id: LayerId)
    requires
        kind_without(a, b, id),
    ensures
        same_settings(a, b),
{
}

/// A change of kind gives the layer the new kind under its old name, and
/// leaves every other layer alone.
pub proof fn law_set_kind_changes_one_layer(g: Graph, h: Graph, id: LayerId, kind: LayerKind, x: LayerId)
    requires
        g.ordered(),
        has_layer(g.layers@, id.0),
        h.layers@ == with_kind(g.layers@, id, kind),
    ensures
        h.layer(id) is Some,
        h.layer(id)->Some_0.kind == kind,
        h.layer(id)->Some_0.name == g.layer(id)->Some_0.name,
        x != id ==> h.layer(x) == g.layer(x),
        h.layers@.len() == g.layers@.len(),
{
    lemma_with_kind(g.layers@, id, kind);
    let p = place_of(g.layers@, id.0);
    assert(0 <= p < g.layers@.len() && g.layers@[p].id.0 == id.0);
    lemma_place_of(h.layers@, p);
    if x != id && has_layer(g.layers@, x.0) {
        let i = place_of(g.layers@, x.0);
        assert(0 <= i < g.layers@.len() && g.layers@[i].id.0 == x.0);
        lemma_place_of(h.layers@, i);
    }
}

/// The place asked for is taken where the list is long enough, and the last
/// place otherwise.
pub proof fn law_list_places_end_at_the_last(to: usize, len: nat)
    requires
        len > 0,
    ensures
        0 <= last_or(to, len) < len,
        to < len ==> last_or(to, len) == to,
        to >= len ==> last_or(to, len) + 1 == len,
{
}

/// A layer is added exactly where its name is new and everything its kind needs
/// is there: its inputs, at least two stops of a ramp, no period of a simplex
/// noise, and its parameters. What is wrong is told in that order, and leaves
/// the graph as it was.
pub proof fn law_layers_are_added_where_nothing_is_wrong(
    g: Graph,
    h: Graph,
    name: Seq<char>,
    kind: LayerKind,
    r: Result<LayerId, GraphError>,
)
    requires
        layer_added(g, h, name, kind, r),
    ensures
        r is Ok <==> {
            &&& forall|i: int| 0 <= i < g.layers@.len() ==> (#[trigger] g.layers@[i]).name@ != name
            &&& forall|i: int|
                0 <= i < kind.input_ids().len() ==> has_layer(
                    g.layers@,
                    (#[trigger] kind.input_ids()[i]).0,
                )
            &&& kind_is_valid(kind)
            &&& refs_are_declared(kind.ref_names(), g.params@)
        },
        r is Err ==> h == g,
        (exists|i: int| 0 <= i < g.layers@.len() && (#[trigger] g.layers@[i]).name@ == name)
            ==> (r matches Err(GraphError::DuplicateName(n)) && n@ == name),
        r matches Err(GraphError::UnknownId(x)) ==> kind.input_ids().contains(x) && !has_layer(
            g.layers@,
            x.0,
        ),
        r matches Err(e) ==> !(e is DuplicateName) ==> told_in_order(g, kind, e),
{
    if r is Err && !name_taken(g.layers@, name) {
        let e = r->Err_0;
        assert(kind_refused(kind, g.layers@, g.params@, e));
        if let GraphError::UnknownId(x) = e {
            if ids_are_known(kind.input_ids(), g.layers@) && kind_is_valid(kind) {
                assert(refs_refused(kind.ref_names(), g.params@, e));
            } else {
                assert(first_unknown(kind.input_ids(), g.layers@, x));
                let i = choose|i: int|
                    0 <= i < kind.input_ids().len() && #[trigger] kind.input_ids()[i] == x
                        && !has_layer(g.layers@, x.0) && ids_are_known(
                        kind.input_ids().take(i),
                        g.layers@,
                    );
                assert(kind.input_ids()[i] == x);
            }
        }
    }
}

/// What is told of a kind that is refused: an input that is not there before a
/// setting, and a setting before a parameter.
pub open spec fn told_in_order(g: Graph, kind: LayerKind, e: GraphError) -> bool {
    if exists|i: int|
        0 <= i < kind.input_ids().len() && !has_layer(
            g.layers@,
            (#[trigger] kind.input_ids()[i]).0,
        ) {
        e is UnknownId
    } else if !kind_is_valid(kind) {
        (kind is ColorRamp && e is RampTooFewStops) || (kind is Noise && e is PeriodicSimplex)
    } else {
        e is UnknownParam || e is ParamTypeMismatch
    }
}

/// Of several unknown inputs the first is named.
pub proof fn law_the_first_unknown_input_is_named(
    ids: Seq<LayerId>,
    layers: Seq<Layer>,
    x: LayerId,
    k: int,
)
    requires
        first_unknown(ids, layers, x),
        0 <= k < ids.len(),
        forall|j: int| 0 <= j < k ==> has_layer(layers, (#[trigger] ids[j]).0),
        !has_layer(layers, ids[k].0),
    ensures
        x == ids[k],
{
    let i = choose|i: int|
        0 <= i < ids.len() && #[trigger] ids[i] == x && !has_layer(layers, x.0) && ids_are_known(
            ids.take(i),
            layers,
        );
    if k < i {
        assert(ids.take(i)[k] == ids[k]);
    }
}

/// The first parameter that is undeclared or of the wrong sort is told, with
/// the sort it was declared as and the one the socket wants.
pub proof fn law_the_first_wrong_parameter_is_named(
    refs: Seq<(Seq<char>, ParamUse)>,
    params: Map<Seq<char>, ParamDecl>,
    e: GraphError,
    k: int,
)
    requires
        refs_refused(refs, params, e),
        0 <= k < refs.len(),
        refs_are_declared(refs.take(k), params),
        params.dom().contains(refs[k].0) ==> params[refs[k].0].kind.sort() != refs[k].1,
    ensures
        match e {
            GraphError::UnknownParam(name) => {
                &&& !params.dom().contains(refs[k].0)
                &&& name@ == refs[k].0
            },
            GraphError::ParamTypeMismatch { name, declared, wanted } => {
                &&& params.dom().contains(refs[k].0)
                &&& name@ == refs[k].0
                &&& declared@ == (if params[refs[k].0].kind is Scalar {
                    "scalar"@
                } else {
                    "color"@
                })
                &&& wanted@ == (if refs[k].1 is Scalar {
                    "scalar"@
                } else {
                    "color"@
                })
            },
            _ => false,
        },
{
    let i = choose|i: int| #[trigger]
        first_bad_ref(refs, params, i) && match e {
            GraphError::UnknownParam(name) => {
                &&& !params.dom().contains(refs[i].0)
                &&& name@ == refs[i].0
            },
            GraphError::ParamTypeMismatch { name, declared, wanted } => {
                &&& params.dom().contains(refs[i].0)
                &&& name@ == refs[i].0
                &&& declared == params[refs[i].0].kind.label()
                &&& wanted == refs[i].1.label()
            },
            _ => false,
        };
    if k < i {
        assert(refs.take(i)[k] == refs[k]);
    }
    if i < k {
        assert(refs.take(k)[i] == refs[i]);
    }
}

/// A layer is renamed exactly where it exists and no other layer has the name.
/// It then has it, keeps its kind, and nothing else changes.
pub proof fn law_renaming_changes_one_name(
    g: Graph,
    h: Graph,
    id: LayerId,
    new_name: Seq<char>,
    r: Result<(), GraphError>,
    x: LayerId,
)
    requires
        g.ordered(),
        h.ordered(),
        layer_renamed(g, h, id, new_name, r),
    ensures
        r is Ok <==> {
            &&& g.layer(id) is Some
            &&& forall|i: int|
                0 <= i < g.layers@.len() && (#[trigger] g.layers@[i]).id != id
                    ==> g.layers@[i].name@ != new_name
        },
        r is Ok ==> {
            &&& h.layer(id) is Some
            &&& h.layer(id)->Some_0.name@ == new_name
            &&& h.layer(id)->Some_0.kind == g.layer(id)->Some_0.kind
            &&& x != id ==> h.layer(x) == g.layer(x)
            &&& h.output == g.output
            &&& h.list_order == g.list_order
            &&& h.params == g.params
            &&& h.canvases == g.canvases
        },
        r is Err ==> h == g,
        r matches Err(e) ==> if exists|i: int|
            0 <= i < g.layers@.len() && (#[trigger] g.layers@[i]).id != id && g.layers@[i].name@
                == new_name {
            e is DuplicateName && e->DuplicateName_0@ == new_name
        } else {
            e == GraphError::UnknownId(id)
        },
{
    if r is Ok {
        let p = place_of(g.layers@, id.0);
        assert(0 <= p < g.layers@.len() && g.layers@[p].id.0 == id.0);
        lemma_place_of(h.layers@, p);
        if x != id {
            if has_layer(g.layers@, x.0) {
                let i = place_of(g.layers@, x.0);
                assert(0 <= i < g.layers@.len() && g.layers@[i].id.0 == x.0);
                assert(i != p);
                assert(h.layers@[i] == g.layers@[i]);
                lemma_place_of(h.layers@, i);
            } else if has_layer(h.layers@, x.0) {
                let i = place_of(h.layers@, x.0);
                assert(0 <= i < h.layers@.len() && h.layers@[i].id.0 == x.0);
                assert(g.layers@[i].id.0 == x.0);
            }
        }
    }
}

/// A kind is replaced exactly where the layer exists, everything the new kind
/// needs is there, and none of its inputs reads the layer, directly or through
/// others. Otherwise the graph stays as it was; that there would be a cycle is
/// told last.
pub proof fn law_kinds_are_replaced_where_nothing_is_wrong(
    g: Graph,
    h: Graph,
    id: LayerId,
    kind: LayerKind,
    r: Result<(), GraphError>,
)
    requires
        g.well_formed(),
        kind_replaced(g, h, id, kind, r),
    ensures
        r is Ok <==> {
            &&& g.layer(id) is Some
            &&& ids_are_known(kind.input_ids(), g.layers@)
            &&& kind_is_valid(kind)
            &&& refs_are_declared(kind.ref_names(), g.params@)
            &&& forall|i: int|
                0 <= i < kind.input_ids().len() ==> !reaches(
                    g.edges(),
                    (#[trigger] kind.input_ids()[i]).0,
                    id.0,
                )
        },
        r is Err ==> h.layers@ == g.layers@,
        g.layer(id) is None ==> r == Err::<(), GraphError>(GraphError::UnknownId(id)),
        g.layer(id) is Some && !kind_accepted(kind, g.layers@, g.params@) ==> r is Err
            && told_in_order(g, kind, r->Err_0),
        g.layer(id) is Some && kind_accepted(kind, g.layers@, g.params@) && r is Err ==> r->Err_0
            == GraphError::Cycle(id),
{
    if has_layer(g.layers@, id.0) && kind_accepted(kind, g.layers@, g.params@) {
        law_set_kind_refuses_predicted_cycles(g, id, kind);
    }
}

/// The output is replaced exactly where every layer and parameter that it reads
/// is there; nothing but the output changes.
pub proof fn law_outputs_are_replaced_where_nothing_is_wrong(
    g: Graph,
    h: Graph,
    output: Output,
    r: Result<(), GraphError>,
)
    requires
        output_replaced(g, h, output, r),
    ensures
        r is Ok <==> (forall|i: int|
            0 <= i < output.referenced_ids().len() ==> has_layer(
                g.layers@,
                (#[trigger] output.referenced_ids()[i]).0,
            )) && refs_are_declared(output.ref_names(), g.params@),
        r is Ok ==> h.output == output,
        r is Err ==> h.output == g.output,
        h.layers == g.layers && h.list_order == g.list_order && h.params == g.params && h.canvases
            == g.canvases && h.next_id == g.next_id,
{
}

/// A layer that is moved in the list stands where it was asked to, or last, and
/// the others keep their order.
pub proof fn law_list_moves_one_layer(
    before: Seq<LayerId>,
    after: Seq<LayerId>,
    id: LayerId,
    to: usize,
    r: Result<(), GraphError>,
)
    requires
        list_moved(before, after, id, to, r),
        before.no_duplicates(),
    ensures
        r is Ok <==> before.contains(id),
        r is Err ==> after == before && r->Err_0 == GraphError::UnknownId(id),
        r is Ok ==> {
            let place = if to < before.len() {
                to as int
            } else {
                before.len() - 1
            };
            &&& after.len() == before.len()
            &&& after[place] == id
            &&& after.remove(place) == before.remove(before.index_of(id))
        },
{
    if r is Ok {
        let from = choose|from: int| #[trigger]
            is_first_at(before, id, from) && after == moved(before, from, last_or(to, before.len()));
        assert(before[from] == id);
        crate::lists::law_moved_item_stands_where_asked(before, from, last_or(to, before.len()));
        assert(before.contains(id));
        let i = before.index_of(id);
        assert(0 <= i < before.len() && before[i] == id);
        assert(i == from);
    }
}

/// A new graph is one opaque mid gray called "base color", shown as the color
/// of a half rough dielectric with no normal, no parameters and no canvas.
pub proof fn law_new_graphs_show_a_gray(g: Graph)
    requires
        call_ensures(Graph::new, (), g),
    ensures
        g.layers@.len() == 1,
        g.layers@[0].name@ == "base color"@,
        g.layers@[0].kind matches LayerKind::Color(c) && c.l.bits == 0x3f00_0000 && c.chroma.bits
            == 0 && c.hue.bits == 0 && c.alpha.bits == 0x3f80_0000,
        g.output.color == Some(g.layers@[0].id),
        g.output.roughness matches ScalarInput::Const(v) && v.bits == 0x3f00_0000,
        g.output.metallic matches ScalarInput::Const(v) && v.bits == 0,
        g.output.normal is None,
        g.list_order@.len() == 1 && g.list_order@[0] == g.layers@[0].id,
        g.next_id > g.layers@[0].id.0,
        forall|name: Seq<char>|
            !(#[trigger] g.params@.dom().contains(name)) && !g.canvases@.dom().contains(name),
{
}

/// Wiring a node to a layer would close a cycle where the layer is the node
/// itself, reads it, or reads a layer of which that holds; and nowhere else.
pub proof fn law_cycles_are_predicted_along_the_wiring(
    g: Graph,
    node: LayerId,
    candidate: LayerId,
    via: LayerId,
    r: bool,
    s: bool,
)
    requires
        g.ordered(),
        g.layer(candidate) is Some,
        call_ensures(Graph::would_cycle, (&g, node, candidate), r),
        call_ensures(Graph::would_cycle, (&g, node, via), s),
    ensures
        node == candidate ==> r,
        g.layer(candidate)->Some_0.kind.input_ids().contains(node) ==> r,
        g.layer(candidate)->Some_0.kind.input_ids().contains(via) && s ==> r,
        r && node != candidate ==> exists|y: LayerId| #[trigger]
            g.layer(candidate)->Some_0.kind.input_ids().contains(y) && reaches(
                g.edges(),
                y.0,
                node.0,
            ),
{
    let e = g.edges();
    let p = place_of(g.layers@, candidate.0);
    assert(0 <= p < g.layers@.len() && g.layers@[p].id.0 == candidate.0);
    lemma_layer_reads(g.layers@, p, node.0);
    lemma_layer_reads(g.layers@, p, via.0);
    lemma_reaches_self(e, node.0);
    if g.layers@[p].kind.input_ids().contains(node) {
        assert(LayerId(node.0) == node);
        lemma_reads_then_reaches(e, candidate.0, node.0, node.0);
    }
    if g.layers@[p].kind.input_ids().contains(via) && s {
        assert(LayerId(via.0) == via);
        lemma_reads_then_reaches(e, candidate.0, via.0, node.0);
    }
    if r && node != candidate {
        lemma_reaches_first_step(e, candidate.0, node.0);
        let m = choose|m: u64| #[trigger] reads(e, candidate.0, m) && reaches(e, m, node.0);
        lemma_layer_reads(g.layers@, p, m);
        assert(g.layers@[p].kind.input_ids().contains(LayerId(m)));
    }
}

/// A layer contributes to the output where a channel reads it or where a layer
/// that contributes does. The output is solid exactly where something that
/// contributes varies along `w`.
pub proof fn law_what_is_read_contributes(
    g: Graph,
    id: LayerId,
    reader: LayerId,
    r: bool,
    s: bool,
    solid: bool,
)
    requires
        g.ordered(),
        call_ensures(Graph::is_reachable, (&g, id), r),
        call_ensures(Graph::is_reachable, (&g, reader), s),
        call_ensures(Graph::output_is_3d, (&g,), solid),
    ensures
        g.output.referenced_ids().contains(id) ==> r,
        s && g.layer(reader) is Some && g.layer(reader)->Some_0.kind.input_ids().contains(id) ==> r,
        r && g.layer(id) is Some && varies_along_w(g.layer(id)->Some_0.kind) ==> solid,
        g.output.referenced_ids().len() == 0 ==> !r && !solid,
{
    let e = g.edges();
    let ids = g.output.referenced_ids();
    let roots = raw_ids(ids);
    if ids.contains(id) {
        let k = ids.index_of(id);
        assert(roots[k] == id.0);
        lemma_reaches_self(e, id.0);
    }
    if s && g.layer(reader) is Some && g.layer(reader)->Some_0.kind.input_ids().contains(id) {
        let p = place_of(g.layers@, reader.0);
        assert(0 <= p < g.layers@.len() && g.layers@[p].id.0 == reader.0);
        assert(LayerId(id.0) == id);
        lemma_layer_reads(g.layers@, p, id.0);
        let k = choose|k: int| 0 <= k < roots.len() && reaches(e, #[trigger] roots[k], reader.0);
        lemma_reaches_then_reads(e, roots[k], reader.0, id.0);
    }
    if r && g.layer(id) is Some && varies_along_w(g.layer(id)->Some_0.kind) {
        let p = place_of(g.layers@, id.0);
        assert(0 <= p < g.layers@.len() && g.layers@[p].id.0 == id.0);
    }
}

} // verus!
