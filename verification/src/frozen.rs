//! What a bake makes of a graph whose parameter was removed: what it made
//! before, where nothing binds that parameter.
use vstd::prelude::*;

use crate::bake::{
    channel_layer, channel_passes, channels, first_refusal, layer_passes, recordable, started,
    Setting,
};
use crate::bind::{law_frozen_sockets_read_the_same, param_removed, resolved};
use crate::edit::lemma_same_shape;
use crate::eval::EvalCtx;
use crate::graph::{has_layer, ids_ascend, lemma_place_of, place_of, refs_are_declared, Graph};
use crate::id::LayerId;
use crate::kind::{stop_refs, ColorInput, ColorStop, LayerKind, ScalarInput};
use crate::param::{ParamUse, ParamValue};
use crate::passes::{
    first_reads, layer_pass, layer_sources, layer_stops, layer_uniform, ramp_words, refusal,
    scalar_layer, scalar_words, slots_known, stop_words, Slice,
};
use crate::rewire::{color_frozen, lemma_kind_frozen, lemma_output_frozen, scalar_frozen};
use crate::schedule::{slots_of_output, Schedule};
use crate::volume::bump_of;

verus! {

/// `h` is `g` without the parameter `name`, which `bound` leaves to its default;
/// and `before` and `after` are the contexts that `bound` resolves to in each.
pub open spec fn frozen_alike(
    g: Graph,
    h: Graph,
    name: Seq<char>,
    bound: Map<Seq<char>, ParamValue>,
    before: EvalCtx,
    after: EvalCtx,
) -> bool {
    &&& g.well_formed()
    &&& g.params@.dom().contains(name)
    &&& param_removed(g, h, name)
    &&& !bound.dom().contains(name)
    &&& after.seed == before.seed
    &&& before.params@ == resolved(g.params@, bound)
    &&& after.params@ == resolved(h.params@, bound)
}

/// A scalar socket gives its pass the same words, and reads the same layer.
proof fn lemma_scalar_alike(
    g: Graph,
    h: Graph,
    name: Seq<char>,
    bound: Map<Seq<char>, ParamValue>,
    before: EvalCtx,
    after: EvalCtx,
    si: ScalarInput,
)
    requires
        frozen_alike(g, h, name, bound, before, after),
        refs_are_declared(si.refs(), g.params@),
    ensures
        ({
            let frozen = scalar_frozen(si, name, g.params@[name].default);
            &&& scalar_words(after.params@, frozen) == scalar_words(before.params@, si)
            &&& scalar_layer(frozen) == scalar_layer(si)
        }),
{
    let ci = ColorInput::Layer(LayerId(0));
    law_frozen_sockets_read_the_same(g, h, name, bound, si, ci);
}

/// The stops of a ramp make the same words.
proof fn lemma_stops_alike(
    g: Graph,
    h: Graph,
    name: Seq<char>,
    bound: Map<Seq<char>, ParamValue>,
    before: EvalCtx,
    after: EvalCtx,
    stops: Seq<ColorStop>,
    inputs: Seq<LayerId>,
)
    requires
        frozen_alike(g, h, name, bound, before, after),
        refs_are_declared(stop_refs(stops), g.params@),
    ensures
        ({
            let value = g.params@[name].default;
            let frozen = stops.map_values(
                |s: ColorStop| ColorStop { t: s.t, color: color_frozen(s.color, name, value) },
            );
            ramp_words(frozen, inputs, after.params@) == ramp_words(stops, inputs, before.params@)
        }),
    decreases stops.len(),
{
    let value = g.params@[name].default;
    let f = |s: ColorStop| ColorStop { t: s.t, color: color_frozen(s.color, name, value) };
    if stops.len() > 0 {
        let (rest, last) = (stops.drop_last(), stops.last());
        let (head, own) = (stop_refs(rest), last.color.refs());
        assert forall|i: int| 0 <= i < head.len() implies g.params@.dom().contains(
            (#[trigger] head[i]).0,
        ) && g.params@[head[i].0].kind.sort() == head[i].1 by {
            assert(stop_refs(stops)[i] == head[i]);
        }
        assert forall|i: int| 0 <= i < own.len() implies g.params@.dom().contains(
            (#[trigger] own[i]).0,
        ) && g.params@[own[i].0].kind.sort() == own[i].1 by {
            assert(stop_refs(stops)[head.len() + i] == own[i]);
        }
        lemma_stops_alike(g, h, name, bound, before, after, rest, inputs);
        assert(stops.map_values(f).drop_last() =~= rest.map_values(f));
        let si = ScalarInput::Layer(LayerId(0));
        law_frozen_sockets_read_the_same(g, h, name, bound, si, last.color);
        assert(stop_words(f(last), inputs, after.params@) == stop_words(
            last,
            inputs,
            before.params@,
        ));
    }
}

/// Two lists of references that are declared together are each declared.
proof fn lemma_declared_apart(
    a: Seq<(Seq<char>, ParamUse)>,
    b: Seq<(Seq<char>, ParamUse)>,
    g: Graph,
)
    requires
        refs_are_declared(a + b, g.params@),
    ensures
        refs_are_declared(a, g.params@),
        refs_are_declared(b, g.params@),
{
    assert forall|i: int| 0 <= i < a.len() implies g.params@.dom().contains((#[trigger] a[i]).0)
        && g.params@[a[i].0].kind.sort() == a[i].1 by {
        assert((a + b)[i] == a[i]);
    }
    assert forall|i: int| 0 <= i < b.len() implies g.params@.dom().contains((#[trigger] b[i]).0)
        && g.params@[b[i].0].kind.sort() == b[i].1 by {
        assert((a + b)[a.len() + i] == b[i]);
    }
}

/// Removing a parameter leaves every layer's pass as it was, in a bake that does
/// not bind it: what the pass reads and writes and every word that it is told.
pub proof fn law_removed_param_keeps_every_pass(
    g: Graph,
    h: Graph,
    name: Seq<char>,
    bound: Map<Seq<char>, ParamValue>,
    before: EvalCtx,
    after: EvalCtx,
    i: int,
    sched: Schedule,
    size: (u32, u32),
    at: Slice,
)
    requires
        frozen_alike(g, h, name, bound, before, after),
        0 <= i < g.layers@.len(),
    ensures
        refusal(h.layers@[i].kind) == refusal(g.layers@[i].kind),
        layer_pass(h.layers@[i], after, sched, size, at) == layer_pass(
            g.layers@[i],
            before,
            sched,
            size,
            at,
        ),
{
    let (a, b) = (g.layers@[i], h.layers@[i]);
    let value = g.params@[name].default;
    let (slots, domains) = (sched.slot_of@, sched.domain_of@);
    assert(refs_are_declared(a.kind.ref_names(), g.params@));
    assert(b.id == a.id);
    lemma_kind_frozen(a.kind, b.kind, name, value);
    match a.kind {
        LayerKind::Mix(m) => {
            lemma_scalar_alike(g, h, name, bound, before, after, m.factor);
        },
        LayerKind::Wave(w) => {
            lemma_scalar_alike(g, h, name, bound, before, after, w.input);
        },
        LayerKind::Craters(c) => {
            lemma_declared_apart(c.under.refs(), c.density.refs(), g);
            lemma_scalar_alike(g, h, name, bound, before, after, c.under);
            lemma_scalar_alike(g, h, name, bound, before, after, c.density);
        },
        LayerKind::ColorRamp(r) => {
            let inputs = first_reads(a.kind.input_ids());
            lemma_stops_alike(g, h, name, bound, before, after, r.stops@, inputs);
        },
        _ => {},
    }
    assert(layer_sources(b.kind, slots) =~= layer_sources(a.kind, slots));
    assert(layer_uniform(b, after, domains, size, at) =~= layer_uniform(
        a,
        before,
        domains,
        size,
        at,
    ));
    assert(layer_stops(b.kind, after.params@) =~= layer_stops(a.kind, before.params@));
}

/// The layers of a bake are found in both graphs at the same place.
proof fn lemma_same_places(g: Graph, h: Graph, name: Seq<char>, id: LayerId)
    requires
        g.well_formed(),
        param_removed(g, h, name),
    ensures
        h.layer(id) is Some <==> g.layer(id) is Some,
        g.layer(id) is Some ==> ({
            let i = place_of(g.layers@, id.0);
            &&& 0 <= i < g.layers@.len()
            &&& g.layer(id) == Some(g.layers@[i])
            &&& h.layer(id) == Some(h.layers@[i])
        }),
{
    lemma_same_graph(g, h, name);
    if g.layer(id) is Some {
        let i = place_of(g.layers@, id.0);
        assert(0 <= i < g.layers@.len() && g.layers@[i].id.0 == id.0);
        assert(h.layers@[i].id == g.layers@[i].id);
        lemma_place_of(h.layers@, i);
    }
}

/// The layers read each other as before.
proof fn lemma_same_graph(g: Graph, h: Graph, name: Seq<char>)
    requires
        g.well_formed(),
        param_removed(g, h, name),
    ensures
        ids_ascend(h.layers@),
        h.edges() == g.edges(),
        forall|x: u64| #[trigger] has_layer(h.layers@, x) <==> has_layer(g.layers@, x),
{
    let value = g.params@[name].default;
    assert forall|i: int| 0 <= i < g.layers@.len() implies (#[trigger] h.layers@[i]).id
        == g.layers@[i].id && h.layers@[i].kind.input_ids() == g.layers@[i].kind.input_ids() by {
        lemma_kind_frozen(g.layers@[i].kind, h.layers@[i].kind, name, value);
    }
    lemma_same_shape(g.layers@, h.layers@);
}

proof fn lemma_passes_alike(
    g: Graph,
    h: Graph,
    name: Seq<char>,
    bound: Map<Seq<char>, ParamValue>,
    before: EvalCtx,
    after: EvalCtx,
    sched: Schedule,
    size: (u32, u32),
    setting: Setting,
    ids: Seq<LayerId>,
    height: Option<LayerId>,
)
    requires
        frozen_alike(g, h, name, bound, before, after),
        forall|i: int| 0 <= i < ids.len() ==> g.layer(#[trigger] ids[i]) is Some,
    ensures
        first_refusal(h, ids) == first_refusal(g, ids),
        layer_passes(h, after, sched, size, setting, ids, height) == layer_passes(
            g,
            before,
            sched,
            size,
            setting,
            ids,
            height,
        ),
    decreases ids.len(),
{
    if ids.len() > 0 {
        let id = ids.last();
        assert(g.layer(ids[ids.len() - 1]) is Some);
        lemma_passes_alike(
            g,
            h,
            name,
            bound,
            before,
            after,
            sched,
            size,
            setting,
            ids.drop_last(),
            height,
        );
        lemma_same_places(g, h, name, id);
        law_removed_param_keeps_every_pass(
            g,
            h,
            name,
            bound,
            before,
            after,
            place_of(g.layers@, id.0),
            sched,
            size,
            setting.slice_spec(id),
        );
    }
}

/// A removed parameter leaves the graph rendering the same, in a bake that does
/// not bind it. What is read from where stays, and so what can be scheduled and
/// how; the output's channels come from the same slots and constants; and every
/// bake records the same passes, or is refused for the same reason.
pub proof fn law_removed_param_renders_the_same(
    g: Graph,
    h: Graph,
    name: Seq<char>,
    bound: Map<Seq<char>, ParamValue>,
    before: EvalCtx,
    after: EvalCtx,
    sched: Schedule,
    size: (u32, u32),
    setting: Setting,
    height: Option<LayerId>,
    keep_alpha: bool,
    z: u32,
)
    requires
        frozen_alike(g, h, name, bound, before, after),
        recordable(g, sched),
    ensures
        h.edges() == g.edges(),
        h.output.referenced_ids() == g.output.referenced_ids(),
        slots_of_output(h.output, sched.slot_of@, after.params@) == slots_of_output(
            g.output,
            sched.slot_of@,
            before.params@,
        ),
        recordable(h, sched),
        first_refusal(h, sched.order@) == first_refusal(g, sched.order@),
        bump_of(h) == bump_of(g),
        started(h, after, sched, size, setting, height) == started(
            g,
            before,
            sched,
            size,
            setting,
            height,
        ),
        channel_passes(h.output, sched, size, keep_alpha, z) == channel_passes(
            g.output,
            sched,
            size,
            keep_alpha,
            z,
        ),
{
    let value = g.params@[name].default;
    let ids = sched.order@;
    lemma_same_graph(g, h, name);
    lemma_output_frozen(g.output, name, value);
    lemma_declared_apart(g.output.roughness.refs(), g.output.metallic.refs(), g);
    let ci = ColorInput::Layer(LayerId(0));
    law_frozen_sockets_read_the_same(g, h, name, bound, g.output.roughness, ci);
    law_frozen_sockets_read_the_same(g, h, name, bound, g.output.metallic, ci);
    assert forall|i: int| 0 <= i < ids.len() implies g.layer(#[trigger] ids[i]) is Some by {}
    lemma_passes_alike(g, h, name, bound, before, after, sched, size, setting, ids, height);
    assert(recordable(h, sched)) by {
        assert forall|i: int| 0 <= i < ids.len() implies {
            &&& has_layer(h.layers@, (#[trigger] ids[i]).0)
            &&& slots_known(h.layer(ids[i])->0, sched.slot_of@)
        } by {
            lemma_same_places(g, h, name, ids[i]);
            let p = place_of(g.layers@, ids[i].0);
            lemma_kind_frozen(g.layers@[p].kind, h.layers@[p].kind, name, value);
        }
    }
    if let Some(id) = g.output.normal {
        lemma_same_places(g, h, name, id);
    }
    assert forall|k: int| 0 <= k < channels().len() implies channel_layer(
        h.output,
        #[trigger] channels()[k],
    ) == channel_layer(g.output, channels()[k]) by {}
    assert(channel_passes(h.output, sched, size, keep_alpha, z) =~= channel_passes(
        g.output,
        sched,
        size,
        keep_alpha,
        z,
    ));
}

} // verus!
