//! The graph and its parts.
use std::collections::BTreeMap;

use vstd::prelude::*;

use crate::id::{raw_ids, LayerId};
use crate::kind::{
    opt_ids, opt_reads, push_opt, push_scalar, push_scalar_ref, refs_view, scalar_reads, LayerKind,
    NoiseKernel, ScalarInput,
};
use crate::names::NameMap;
use crate::param::{ParamDecl, ParamUse};
use crate::reach::acyclic;
use crate::scalar::Scalar;

verus! {

/// A node in the graph. Its canvas position lives in [`Graph::canvases`].
#[derive(Clone, Debug)]
pub struct Layer {
    pub id: LayerId,
    pub name: String,
    pub kind: LayerKind,
}

/// The graph's root, producing the material channels for the renderer.
#[derive(Clone, Debug)]
pub struct Output {
    /// Base color. `None` renders as the missing-texture grid.
    pub color: Option<LayerId>,
    /// 0 = smooth, 1 = rough.
    pub roughness: ScalarInput,
    /// 0 = dielectric, 1 = metal.
    pub metallic: ScalarInput,
    /// Tangent-space normal. `None` = flat normal.
    pub normal: Option<LayerId>,
}

impl Output {
    /// Every layer the output reads, channel by channel.
    pub open spec fn referenced_ids(&self) -> Seq<LayerId> {
        opt_ids(self.color) + self.roughness.ids() + self.metallic.ids() + opt_ids(self.normal)
    }

    /// Every layer the output reads, channel by channel.
    pub fn referenced(&self) -> (r: Vec<LayerId>)
        ensures
            r@ == self.referenced_ids(),
    {
        let mut out: Vec<LayerId> = Vec::new();
        push_opt(&mut out, self.color);
        push_scalar(&mut out, &self.roughness);
        push_scalar(&mut out, &self.metallic);
        push_opt(&mut out, self.normal);
        assert(out@ =~= self.referenced_ids());
        out
    }

    /// Every parameter the output reads.
    pub open spec fn ref_names(&self) -> Seq<(Seq<char>, ParamUse)> {
        self.roughness.refs() + self.metallic.refs()
    }

    /// Every parameter the output reads, with the sort of socket reading it.
    pub fn param_refs(&self) -> (r: Vec<(&str, ParamUse)>)
        ensures
            refs_view(r@) == self.ref_names(),
    {
        let mut out: Vec<(&str, ParamUse)> = Vec::new();
        assert(refs_view(out@) =~= Seq::<(Seq<char>, ParamUse)>::empty());
        push_scalar_ref(&mut out, &self.roughness);
        push_scalar_ref(&mut out, &self.metallic);
        assert(refs_view(out@) =~= self.ref_names());
        out
    }
}

/// Layer positions on one named canvas. Edges are not stored; they come from
/// the layers' inputs.
#[derive(Clone, Debug)]
pub struct Canvas {
    /// By the raw number of the layer's id. Layers absent from the map are
    /// unplaced.
    pub positions: BTreeMap<u64, [Scalar; 2]>,
    /// The output pseudo-node. `None` is unplaced.
    pub output_pos: Option<[Scalar; 2]>,
}

impl Default for Canvas {
    fn default() -> (r: Self)
        ensures
            r.positions@ == Map::<u64, [Scalar; 2]>::empty(),
            r.output_pos is None,
    {
        Canvas { positions: BTreeMap::new(), output_pos: None }
    }
}

/// Identity (never reused), list order and canvas positions are stored
/// separately. `layers` stays id-ascending so that what is saved does not
/// change when the list is reordered for display.
#[derive(Clone, Debug)]
pub struct Graph {
    /// Id-ascending. Do not reorder for display; use `list_order` instead.
    pub layers: Vec<Layer>,
    /// Permutation of layer ids for the list view.
    pub list_order: Vec<LayerId>,
    pub canvases: NameMap<Canvas>,
    pub output: Output,
    /// Keyed by the name in the declaration.
    pub params: NameMap<ParamDecl>,
    /// The id the next layer gets. Above every id ever given out.
    pub next_id: u64,
}

/// Why an edit was refused. The graph is then as it was.
#[derive(Debug)]
pub enum GraphError {
    UnknownId(LayerId),
    DuplicateName(String),
    Cycle(LayerId),
    RampTooFewStops,
    PeriodicSimplex,
    UnknownParam(String),
    ParamTypeMismatch { name: String, declared: &'static str, wanted: &'static str },
    DuplicateParam(String),
    ParamDefaultMismatch { name: String, declared: &'static str },
    UnknownCanvas(String),
    DuplicateCanvas(String),
}

/// Ids strictly ascending.
pub open spec fn ids_ascend(layers: Seq<Layer>) -> bool {
    forall|i: int, j: int|
        #![trigger layers[i], layers[j]]
        0 <= i < j < layers.len() ==> layers[i].id.0 < layers[j].id.0
}

/// Some layer has that id.
pub open spec fn has_layer(layers: Seq<Layer>, id: u64) -> bool {
    exists|i: int| 0 <= i < layers.len() && (#[trigger] layers[i]).id.0 == id
}

/// `h` comes of `g` without an id given again: the counter has not fallen, and
/// a layer that `g` did not have has an id that `g` never gave.
pub open spec fn ids_grow(g: Graph, h: Graph) -> bool {
    &&& g.next_id <= h.next_id
    &&& forall|id: u64| #[trigger]
        has_layer(h.layers@, id) ==> has_layer(g.layers@, id) || g.next_id <= id
}

/// Layers that keep their ids place by place give none again.
pub proof fn lemma_same_ids_grow(g: Graph, h: Graph)
    requires
        h.next_id == g.next_id,
        h.layers@.len() == g.layers@.len(),
        forall|i: int| 0 <= i < h.layers@.len() ==> (#[trigger] h.layers@[i]).id == g.layers@[i].id,
    ensures
        ids_grow(g, h),
{
    assert forall|id: u64| #[trigger] has_layer(h.layers@, id) implies has_layer(g.layers@, id) by {
        let i = choose|i: int| 0 <= i < h.layers@.len() && (#[trigger] h.layers@[i]).id.0 == id;
        assert(g.layers@[i].id.0 == id);
    }
}

/// The place of the layer with that id.
pub open spec fn place_of(layers: Seq<Layer>, id: u64) -> int {
    choose|i: int| 0 <= i < layers.len() && (#[trigger] layers[i]).id.0 == id
}

/// Which layers each layer reads.
pub open spec fn layer_edges(layers: Seq<Layer>) -> Map<u64, Seq<u64>> {
    Map::new(
        |id: u64| has_layer(layers, id),
        |id: u64| raw_ids(layers[place_of(layers, id)].kind.input_ids()),
    )
}

/// The ids of the layers, in order.
pub open spec fn layer_ids(layers: Seq<Layer>) -> Seq<u64> {
    layers.map_values(|l: Layer| l.id.0)
}

/// A layer's settings are such as the evaluator and the baker assume.
pub open spec fn kind_is_valid(kind: LayerKind) -> bool {
    match kind {
        LayerKind::ColorRamp(r) => r.stops@.len() >= 2,
        LayerKind::Noise(n) => n.kernel == NoiseKernel::Simplex ==> n.period@ == seq![
            0u32,
            0u32,
            0u32,
        ],
        _ => true,
    }
}

/// Every name is declared, as something the socket can read.
pub open spec fn refs_are_declared(
    refs: Seq<(Seq<char>, ParamUse)>,
    params: Map<Seq<char>, ParamDecl>,
) -> bool {
    forall|i: int|
        0 <= i < refs.len() ==> params.dom().contains((#[trigger] refs[i]).0)
            && params[refs[i].0].kind.sort() == refs[i].1
}

/// Every id belongs to some layer.
pub open spec fn ids_are_known(ids: Seq<LayerId>, layers: Seq<Layer>) -> bool {
    forall|i: int| 0 <= i < ids.len() ==> has_layer(layers, (#[trigger] ids[i]).0)
}

/// In ascending layers an id has one place.
pub proof fn lemma_place_of(layers: Seq<Layer>, i: int)
    requires
        ids_ascend(layers),
        0 <= i < layers.len(),
    ensures
        has_layer(layers, layers[i].id.0),
        place_of(layers, layers[i].id.0) == i,
{
    let j = place_of(layers, layers[i].id.0);
    assert(0 <= j < layers.len() && layers[j].id.0 == layers[i].id.0);
    if i < j {
        assert(layers[i].id.0 < layers[j].id.0);
    } else if j < i {
        assert(layers[j].id.0 < layers[i].id.0);
    }
}

impl Graph {
    /// Which layers each layer reads.
    pub open spec fn edges(&self) -> Map<u64, Seq<u64>> {
        layer_edges(self.layers@)
    }

    /// The layer with that id.
    pub open spec fn layer(&self, id: LayerId) -> Option<Layer> {
        if has_layer(self.layers@, id.0) {
            Some(self.layers@[place_of(self.layers@, id.0)])
        } else {
            None
        }
    }

    /// What holds of the layer list and the id counter: ids ascend, and the
    /// next one is above them all.
    pub open spec fn ordered(&self) -> bool {
        &&& ids_ascend(self.layers@)
        &&& forall|i: int| 0 <= i < self.layers@.len() ==> (#[trigger] self.layers@[i]).id.0
            < self.next_id
    }

    /// The list order holds each layer once and nothing else.
    pub open spec fn list_is_permutation(&self) -> bool {
        &&& raw_ids(self.list_order@).no_duplicates()
        &&& forall|id: u64|
            #![trigger has_layer(self.layers@, id)]
            raw_ids(self.list_order@).contains(id) <==> has_layer(self.layers@, id)
    }

    /// No two layers share a name.
    pub open spec fn names_differ(&self) -> bool {
        forall|i: int, j: int|
            #![trigger self.layers@[i], self.layers@[j]]
            0 <= i < j < self.layers@.len() ==> self.layers@[i].name@ != self.layers@[j].name@
    }

    /// Every layer that a layer or the output reads exists.
    pub open spec fn references_known(&self) -> bool {
        &&& forall|i: int|
            0 <= i < self.layers@.len() ==> ids_are_known(
                (#[trigger] self.layers@[i]).kind.input_ids(),
                self.layers@,
            )
        &&& ids_are_known(self.output.referenced_ids(), self.layers@)
    }

    /// Every layer's settings are valid.
    pub open spec fn kinds_valid(&self) -> bool {
        forall|i: int|
            0 <= i < self.layers@.len() ==> kind_is_valid((#[trigger] self.layers@[i]).kind)
    }

    /// Declarations stand under their own names, and each default is of the
    /// declared kind.
    pub open spec fn declarations_valid(&self) -> bool {
        &&& self.params.sorted()
        &&& forall|name: Seq<char>| #[trigger]
            self.params@.dom().contains(name) ==> self.params@[name].name@ == name
                && self.params@[name].default.sort() == self.params@[name].kind.sort()
    }

    /// Every parameter that a layer or the output reads is declared, as
    /// something the socket can read.
    pub open spec fn params_known(&self) -> bool {
        &&& forall|i: int|
            0 <= i < self.layers@.len() ==> refs_are_declared(
                (#[trigger] self.layers@[i]).kind.ref_names(),
                self.params@,
            )
        &&& refs_are_declared(self.output.ref_names(), self.params@)
    }

    /// Canvases are kept in name order and place existing layers only.
    pub open spec fn canvases_valid(&self) -> bool {
        &&& self.canvases.sorted()
        &&& forall|name: Seq<char>, id: u64|
            #![trigger self.canvases@[name].positions@.dom().contains(id)]
            self.canvases@.dom().contains(name) && self.canvases@[name].positions@.dom().contains(
                id,
            ) ==> has_layer(self.layers@, id)
    }

    /// What every edit keeps.
    pub open spec fn well_formed(&self) -> bool {
        &&& self.ordered()
        &&& self.list_is_permutation()
        &&& self.names_differ()
        &&& self.references_known()
        &&& acyclic(self.edges())
        &&& self.kinds_valid()
        &&& self.declarations_valid()
        &&& self.params_known()
        &&& self.canvases_valid()
    }

    /// The place of the layer with that id.
    pub(crate) fn place(&self, id: LayerId) -> (r: Option<usize>)
        requires
            ids_ascend(self.layers@),
        ensures
            match r {
                Some(i) => i < self.layers@.len() && self.layers@[i as int].id == id && has_layer(
                    self.layers@,
                    id.0,
                ) && place_of(self.layers@, id.0) == i,
                None => !has_layer(self.layers@, id.0),
            },
    {
        let mut low: usize = 0;
        let mut high: usize = self.layers.len();
        while low < high
            invariant
                low <= high <= self.layers@.len(),
                ids_ascend(self.layers@),
                forall|i: int| 0 <= i < low ==> (#[trigger] self.layers@[i]).id.0 < id.0,
                forall|i: int|
                    high <= i < self.layers@.len() ==> (#[trigger] self.layers@[i]).id.0 > id.0,
            decreases high - low,
        {
            let mid: usize = low + (high - low) / 2;
            if self.layers[mid].id.0 == id.0 {
                proof {
                    lemma_place_of(self.layers@, mid as int);
                }
                return Some(mid);
            }
            if self.layers[mid].id.0 < id.0 {
                low = mid + 1;
            } else {
                high = mid;
            }
        }
        None
    }

    /// The layer with that id.
    pub fn get(&self, id: LayerId) -> (r: Option<&Layer>)
        requires
            ids_ascend(self.layers@),
        ensures
            match r {
                Some(l) => self.layer(id) == Some(*l) && l.id == id,
                None => self.layer(id) is None,
            },
    {
        match self.place(id) {
            Some(i) => Some(&self.layers[i]),
            None => None,
        }
    }

    /// The layer with that id, to be changed in place.
    pub fn get_mut(&mut self, id: LayerId) -> (r: Option<&mut Layer>)
        requires
            ids_ascend(old(self).layers@),
        ensures
            match r {
                Some(l) => {
                    &&& old(self).layer(id) == Some(*l)
                    &&& final(self).layers@ == old(self).layers@.update(
                        place_of(old(self).layers@, id.0),
                        *final(l),
                    )
                },
                None => old(self).layer(id) is None && final(self).layers@ == old(self).layers@,
            },
            final(self).list_order == old(self).list_order,
            final(self).canvases == old(self).canvases,
            final(self).output == old(self).output,
            final(self).params == old(self).params,
            final(self).next_id == old(self).next_id,
    {
        match self.place(id) {
            Some(i) => Some(&mut self.layers[i]),
            None => None,
        }
    }

    /// True where some layer has that id.
    pub fn contains(&self, id: LayerId) -> (r: bool)
        requires
            ids_ascend(self.layers@),
        ensures
            r == has_layer(self.layers@, id.0),
    {
        self.place(id).is_some()
    }
}

/// The output depends on a layer exactly where one of its four channels is
/// wired to it, and lists color, roughness, metallic and normal in that order.
pub proof fn law_output_reads_its_channels(output: Output, id: LayerId)
    ensures
        output.referenced_ids().contains(id) <==> {
            ||| opt_reads(output.normal, id)
            ||| scalar_reads(output.metallic, id)
            ||| scalar_reads(output.roughness, id)
            ||| opt_reads(output.color, id)
        },
        output.color is Some && output.roughness is Layer && output.metallic is Layer
            && output.normal is Some ==> {
            let ids = output.referenced_ids();
            &&& ids.len() == 4
            &&& ids[0] == output.color->Some_0
            &&& ids[1] == output.roughness->Layer_0
            &&& ids[2] == output.metallic->Layer_0
            &&& ids[3] == output.normal->Some_0
        },
{
    let a = opt_ids(output.color);
    let b = output.roughness.ids();
    let c = output.metallic.ids();
    let d = opt_ids(output.normal);
    let all = output.referenced_ids();
    if all.contains(id) {
        let i = choose|i: int| 0 <= i < all.len() && all[i] == id;
        assert(all[i] == id);
    }
    if opt_reads(output.color, id) {
        assert(all[0] == id);
    }
    if scalar_reads(output.roughness, id) {
        assert(all[a.len() as int] == id);
    }
    if scalar_reads(output.metallic, id) {
        assert(all[(a + b).len() as int] == id);
    }
    if opt_reads(output.normal, id) {
        assert(all[(a + b + c).len() as int] == id);
    }
}

/// A ramp of fewer than two stops is refused, and so is a simplex noise with a
/// period along any axis. Nothing else is.
pub proof fn law_refused_settings(kind: LayerKind)
    ensures
        !kind_is_valid(kind) <==> match kind {
            LayerKind::ColorRamp(r) => r.stops@.len() == 0 || r.stops@.len() == 1,
            LayerKind::Noise(n) => n.kernel is Simplex && (n.period[0] > 0 || n.period[1] > 0
                || n.period[2] > 0),
            _ => false,
        },
{
    if let LayerKind::Noise(n) = kind {
        if n.period[0] == 0 && n.period[1] == 0 && n.period[2] == 0 {
            assert(n.period@ =~= seq![0u32, 0u32, 0u32]);
        }
    }
}

} // verus!
