//! Edits that run over all sockets of a node: letting go of a layer, and
//! following a parameter that is renamed or taken away.
use vstd::prelude::*;

use crate::color::Color;
use crate::graph::Output;
use crate::id::LayerId;
use crate::kind::{
    opt_ids, stop_ids, stop_refs, ColorInput, ColorRamp, ColorStop, Craters, GradientMap,
    HeightToNormal, LayerKind, MinMax, Mix, ScalarInput, Transform, Warp, Wave,
};
use crate::lists::other_than;
use crate::names::same_name;
use crate::param::{ParamUse, ParamValue};
use crate::scalar::Scalar;
use crate::socket::{same_settings, wired_color, wired_scalar, SocketValue};

verus! {

/// A nullable socket after it let go of `id`.
pub open spec fn opt_without(o: Option<LayerId>, id: LayerId) -> Option<LayerId> {
    if o == Some(id) {
        None
    } else {
        o
    }
}

/// A scalar socket after it let go of `id`.
pub open spec fn scalar_without(s: ScalarInput, id: LayerId) -> ScalarInput {
    if s == ScalarInput::Layer(id) {
        wired_scalar(None)
    } else {
        s
    }
}

/// A color socket after it let go of `id`.
pub open spec fn color_without(c: ColorInput, id: LayerId) -> ColorInput {
    if c == ColorInput::Layer(id) {
        wired_color(None)
    } else {
        c
    }
}

/// `b` is `a` with every socket that read `id` disconnected.
pub open spec fn kind_without(a: LayerKind, b: LayerKind, id: LayerId) -> bool {
    match a {
        LayerKind::Color(_) => b == a,
        LayerKind::Noise(_) => b == a,
        LayerKind::Coordinate(_) => b == a,
        LayerKind::ColorRamp(r) => {
            &&& b is ColorRamp
            &&& b->ColorRamp_0.space == r.space
            &&& b->ColorRamp_0.stops@ == r.stops@.map_values(
                |s: ColorStop| ColorStop { t: s.t, color: color_without(s.color, id) },
            )
        },
        LayerKind::Transform(t) => {
            b == LayerKind::Transform(Transform { source: opt_without(t.source, id), ..t })
        },
        LayerKind::Mix(m) => {
            b == LayerKind::Mix(
                Mix {
                    a: opt_without(m.a, id),
                    b: opt_without(m.b, id),
                    factor: scalar_without(m.factor, id),
                    ..m
                },
            )
        },
        LayerKind::GradientMap(m) => {
            b == LayerKind::GradientMap(
                GradientMap { value: opt_without(m.value, id), palette: opt_without(m.palette, id) },
            )
        },
        LayerKind::MinMax(mm) => {
            b == LayerKind::MinMax(
                MinMax { a: opt_without(mm.a, id), b: opt_without(mm.b, id), ..mm },
            )
        },
        LayerKind::HeightToNormal(h) => {
            b == LayerKind::HeightToNormal(
                HeightToNormal { source: opt_without(h.source, id), ..h },
            )
        },
        LayerKind::Wave(w) => {
            b == LayerKind::Wave(Wave { input: scalar_without(w.input, id), ..w })
        },
        LayerKind::Warp(w) => {
            b == LayerKind::Warp(
                Warp { source: opt_without(w.source, id), by: opt_without(w.by, id), ..w },
            )
        },
        LayerKind::Craters(c) => {
            b == LayerKind::Craters(
                Craters {
                    under: scalar_without(c.under, id),
                    density: scalar_without(c.density, id),
                    ..c
                },
            )
        },
    }
}

/// `b` is `a` with every channel that read `id` disconnected.
pub open spec fn output_without(a: Output, id: LayerId) -> Output {
    Output {
        color: opt_without(a.color, id),
        roughness: scalar_without(a.roughness, id),
        metallic: scalar_without(a.metallic, id),
        normal: opt_without(a.normal, id),
    }
}

fn drop_opt(slot: &mut Option<LayerId>, id: LayerId)
    ensures
        *final(slot) == opt_without(*old(slot), id),
{
    if let Some(x) = *slot {
        if x.0 == id.0 {
            *slot = None;
        }
    }
}

fn drop_scalar(slot: &mut ScalarInput, id: LayerId)
    ensures
        *final(slot) == scalar_without(*old(slot), id),
{
    let hit = match slot {
        ScalarInput::Layer(x) => x.0 == id.0,
        _ => false,
    };
    if hit {
        *slot = ScalarInput::Const(Scalar::half());
    }
}

fn drop_color(slot: &mut ColorInput, id: LayerId)
    ensures
        *final(slot) == color_without(*old(slot), id),
{
    let hit = match slot {
        ColorInput::Layer(x) => x.0 == id.0,
        _ => false,
    };
    if hit {
        *slot = ColorInput::Const(Color::mid_gray());
    }
}

fn drop_stops(ramp: &mut ColorRamp, id: LayerId)
    ensures
        final(ramp).space == old(ramp).space,
        final(ramp).stops@ == old(ramp).stops@.map_values(
            |s: ColorStop| ColorStop { t: s.t, color: color_without(s.color, id) },
        ),
{
    let ghost before = ramp.stops@;
    let mut i: usize = 0;
    while i < ramp.stops.len()
        invariant
            before == old(ramp).stops@,
            ramp.space == old(ramp).space,
            ramp.stops@.len() == before.len(),
            i <= before.len(),
            forall|j: int|
                0 <= j < i ==> (#[trigger] ramp.stops@[j]) == (ColorStop {
                    t: before[j].t,
                    color: color_without(before[j].color, id),
                }),
            forall|j: int| i <= j < before.len() ==> (#[trigger] ramp.stops@[j]) == before[j],
        decreases before.len() - i,
    {
        drop_color(&mut ramp.stops[i].color, id);
        i += 1;
    }
    assert(ramp.stops@ =~= before.map_values(
        |s: ColorStop| ColorStop { t: s.t, color: color_without(s.color, id) },
    ));
}

impl LayerKind {
    /// Disconnects every socket that reads `id`.
    pub fn disconnect(&mut self, id: LayerId)
        ensures
            kind_without(*old(self), *final(self), id),
    {
        match self {
            LayerKind::Color(_) | LayerKind::Noise(_) | LayerKind::Coordinate(_) => {},
            LayerKind::ColorRamp(r) => drop_stops(r, id),
            LayerKind::Transform(t) => drop_opt(&mut t.source, id),
            LayerKind::Mix(m) => {
                drop_opt(&mut m.a, id);
                drop_opt(&mut m.b, id);
                drop_scalar(&mut m.factor, id);
            },
            LayerKind::GradientMap(m) => {
                drop_opt(&mut m.value, id);
                drop_opt(&mut m.palette, id);
            },
            LayerKind::MinMax(mm) => {
                drop_opt(&mut mm.a, id);
                drop_opt(&mut mm.b, id);
            },
            LayerKind::HeightToNormal(h) => drop_opt(&mut h.source, id),
            LayerKind::Wave(w) => drop_scalar(&mut w.input, id),
            LayerKind::Warp(w) => {
                drop_opt(&mut w.source, id);
                drop_opt(&mut w.by, id);
            },
            LayerKind::Craters(c) => {
                drop_scalar(&mut c.under, id);
                drop_scalar(&mut c.density, id);
            },
        }
    }
}

impl Output {
    /// Disconnects every channel that reads `id`.
    pub fn disconnect(&mut self, id: LayerId)
        ensures
            *final(self) == output_without(*old(self), id),
    {
        drop_opt(&mut self.color, id);
        drop_scalar(&mut self.roughness, id);
        drop_scalar(&mut self.metallic, id);
        drop_opt(&mut self.normal, id);
    }
}

/// What the sockets of `a` hold after the parameter `from` is called `to`: the
/// sockets that read it follow, the others stay.
pub open spec fn scalar_renamed(
    a: ScalarInput,
    b: ScalarInput,
    from: Seq<char>,
    to: Seq<char>,
) -> bool {
    if a is Param && a->Param_0@ == from {
        b is Param && b->Param_0@ == to
    } else {
        b == a
    }
}

/// As [`scalar_renamed`], for a color socket.
pub open spec fn color_renamed(
    a: ColorInput,
    b: ColorInput,
    from: Seq<char>,
    to: Seq<char>,
) -> bool {
    if a is Param && a->Param_0@ == from {
        b is Param && b->Param_0@ == to
    } else {
        b == a
    }
}

/// `b` is `a` with every socket that read the parameter `from` reading `to`.
pub open spec fn kind_renamed(a: LayerKind, b: LayerKind, from: Seq<char>, to: Seq<char>) -> bool {
    match a {
        LayerKind::ColorRamp(r) => {
            &&& b is ColorRamp
            &&& b->ColorRamp_0.space == r.space
            &&& b->ColorRamp_0.stops@.len() == r.stops@.len()
            &&& forall|i: int|
                0 <= i < r.stops@.len() ==> (#[trigger] b->ColorRamp_0.stops@[i]).t == r.stops@[i].t
                    && color_renamed(r.stops@[i].color, b->ColorRamp_0.stops@[i].color, from, to)
        },
        LayerKind::Mix(m) => {
            &&& b is Mix
            &&& b->Mix_0 == (Mix { factor: b->Mix_0.factor, ..m })
            &&& scalar_renamed(m.factor, b->Mix_0.factor, from, to)
        },
        LayerKind::Wave(w) => {
            &&& b is Wave
            &&& b->Wave_0 == (Wave { input: b->Wave_0.input, ..w })
            &&& scalar_renamed(w.input, b->Wave_0.input, from, to)
        },
        LayerKind::Craters(c) => {
            &&& b is Craters
            &&& b->Craters_0 == (Craters {
                under: b->Craters_0.under,
                density: b->Craters_0.density,
                ..c
            })
            &&& scalar_renamed(c.under, b->Craters_0.under, from, to)
            &&& scalar_renamed(c.density, b->Craters_0.density, from, to)
        },
        _ => b == a,
    }
}

/// `b` is `a` with every channel that read the parameter `from` reading `to`.
pub open spec fn output_renamed(a: Output, b: Output, from: Seq<char>, to: Seq<char>) -> bool {
    &&& b.color == a.color
    &&& b.normal == a.normal
    &&& scalar_renamed(a.roughness, b.roughness, from, to)
    &&& scalar_renamed(a.metallic, b.metallic, from, to)
}

fn rename_scalar(slot: &mut ScalarInput, from: &str, to: &str)
    ensures
        scalar_renamed(*old(slot), *final(slot), from@, to@),
{
    let hit = match slot {
        ScalarInput::Param(name) => same_name(name.as_str(), from),
        _ => false,
    };
    if hit {
        *slot = ScalarInput::Param(to.to_owned());
    }
}

fn rename_color(slot: &mut ColorInput, from: &str, to: &str)
    ensures
        color_renamed(*old(slot), *final(slot), from@, to@),
{
    let hit = match slot {
        ColorInput::Param(name) => same_name(name.as_str(), from),
        _ => false,
    };
    if hit {
        *slot = ColorInput::Param(to.to_owned());
    }
}

fn rename_stops(ramp: &mut ColorRamp, from: &str, to: &str)
    ensures
        final(ramp).space == old(ramp).space,
        final(ramp).stops@.len() == old(ramp).stops@.len(),
        forall|i: int|
            0 <= i < old(ramp).stops@.len() ==> (#[trigger] final(ramp).stops@[i]).t
                == old(ramp).stops@[i].t && color_renamed(
                old(ramp).stops@[i].color,
                final(ramp).stops@[i].color,
                from@,
                to@,
            ),
{
    let ghost before = ramp.stops@;
    let mut i: usize = 0;
    while i < ramp.stops.len()
        invariant
            before == old(ramp).stops@,
            ramp.space == old(ramp).space,
            ramp.stops@.len() == before.len(),
            i <= before.len(),
            forall|j: int|
                0 <= j < i ==> (#[trigger] ramp.stops@[j]).t == before[j].t && color_renamed(
                    before[j].color,
                    ramp.stops@[j].color,
                    from@,
                    to@,
                ),
            forall|j: int| i <= j < before.len() ==> (#[trigger] ramp.stops@[j]) == before[j],
        decreases before.len() - i,
    {
        rename_color(&mut ramp.stops[i].color, from, to);
        i += 1;
    }
}

impl LayerKind {
    /// Makes every socket that reads the parameter `from` read `to`.
    pub fn rename_param(&mut self, from: &str, to: &str)
        ensures
            kind_renamed(*old(self), *final(self), from@, to@),
    {
        match self {
            LayerKind::ColorRamp(r) => rename_stops(r, from, to),
            LayerKind::Mix(m) => rename_scalar(&mut m.factor, from, to),
            LayerKind::Wave(w) => rename_scalar(&mut w.input, from, to),
            LayerKind::Craters(c) => {
                rename_scalar(&mut c.under, from, to);
                rename_scalar(&mut c.density, from, to);
            },
            _ => {},
        }
    }
}

impl Output {
    /// Makes every channel that reads the parameter `from` read `to`.
    pub fn rename_param(&mut self, from: &str, to: &str)
        ensures
            output_renamed(*old(self), *final(self), from@, to@),
    {
        rename_scalar(&mut self.roughness, from, to);
        rename_scalar(&mut self.metallic, from, to);
    }
}

/// A scalar socket after the parameter `name` is frozen to `value`.
pub open spec fn scalar_frozen(s: ScalarInput, name: Seq<char>, value: ParamValue) -> ScalarInput {
    if s is Param && s->Param_0@ == name {
        ScalarInput::Const(
            match value {
                ParamValue::Scalar(v) => v,
                ParamValue::Color(_) => Scalar::zero(),
            },
        )
    } else {
        s
    }
}

/// A color socket after the parameter `name` is frozen to `value`.
pub open spec fn color_frozen(c: ColorInput, name: Seq<char>, value: ParamValue) -> ColorInput {
    if c is Param && c->Param_0@ == name {
        ColorInput::Const(
            match value {
                ParamValue::Color(v) => v,
                ParamValue::Scalar(_) => Color::mid_gray(),
            },
        )
    } else {
        c
    }
}

/// `b` is `a` with every socket that read the parameter `name` holding `value`.
pub open spec fn kind_frozen(
    a: LayerKind,
    b: LayerKind,
    name: Seq<char>,
    value: ParamValue,
) -> bool {
    match a {
        LayerKind::ColorRamp(r) => {
            &&& b is ColorRamp
            &&& b->ColorRamp_0.space == r.space
            &&& b->ColorRamp_0.stops@ == r.stops@.map_values(
                |s: ColorStop| ColorStop { t: s.t, color: color_frozen(s.color, name, value) },
            )
        },
        LayerKind::Mix(m) => {
            b == LayerKind::Mix(Mix { factor: scalar_frozen(m.factor, name, value), ..m })
        },
        LayerKind::Wave(w) => {
            b == LayerKind::Wave(Wave { input: scalar_frozen(w.input, name, value), ..w })
        },
        LayerKind::Craters(c) => {
            b == LayerKind::Craters(
                Craters {
                    under: scalar_frozen(c.under, name, value),
                    density: scalar_frozen(c.density, name, value),
                    ..c
                },
            )
        },
        _ => b == a,
    }
}

/// The output with every channel that read the parameter `name` holding
/// `value`.
pub open spec fn output_frozen(a: Output, name: Seq<char>, value: ParamValue) -> Output {
    Output {
        color: a.color,
        roughness: scalar_frozen(a.roughness, name, value),
        metallic: scalar_frozen(a.metallic, name, value),
        normal: a.normal,
    }
}

fn freeze_scalar(slot: &mut ScalarInput, name: &str, value: ParamValue)
    ensures
        *final(slot) == scalar_frozen(*old(slot), name@, value),
{
    let hit = match slot {
        ScalarInput::Param(n) => same_name(n.as_str(), name),
        _ => false,
    };
    if hit {
        *slot = ScalarInput::Const(value.as_scalar().unwrap_or(Scalar::zero()));
    }
}

fn freeze_color(slot: &mut ColorInput, name: &str, value: ParamValue)
    ensures
        *final(slot) == color_frozen(*old(slot), name@, value),
{
    let hit = match slot {
        ColorInput::Param(n) => same_name(n.as_str(), name),
        _ => false,
    };
    if hit {
        *slot = ColorInput::Const(value.as_color().unwrap_or(Color::mid_gray()));
    }
}

fn freeze_stops(ramp: &mut ColorRamp, name: &str, value: ParamValue)
    ensures
        final(ramp).space == old(ramp).space,
        final(ramp).stops@ == old(ramp).stops@.map_values(
            |s: ColorStop| ColorStop { t: s.t, color: color_frozen(s.color, name@, value) },
        ),
{
    let ghost before = ramp.stops@;
    let mut i: usize = 0;
    while i < ramp.stops.len()
        invariant
            before == old(ramp).stops@,
            ramp.space == old(ramp).space,
            ramp.stops@.len() == before.len(),
            i <= before.len(),
            forall|j: int|
                0 <= j < i ==> (#[trigger] ramp.stops@[j]) == (ColorStop {
                    t: before[j].t,
                    color: color_frozen(before[j].color, name@, value),
                }),
            forall|j: int| i <= j < before.len() ==> (#[trigger] ramp.stops@[j]) == before[j],
        decreases before.len() - i,
    {
        freeze_color(&mut ramp.stops[i].color, name, value);
        i += 1;
    }
    assert(ramp.stops@ =~= before.map_values(
        |s: ColorStop| ColorStop { t: s.t, color: color_frozen(s.color, name@, value) },
    ));
}

impl LayerKind {
    /// Puts `value` into every socket that reads the parameter `name`.
    pub fn freeze_param(&mut self, name: &str, value: ParamValue)
        ensures
            kind_frozen(*old(self), *final(self), name@, value),
    {
        match self {
            LayerKind::ColorRamp(r) => freeze_stops(r, name, value),
            LayerKind::Mix(m) => freeze_scalar(&mut m.factor, name, value),
            LayerKind::Wave(w) => freeze_scalar(&mut w.input, name, value),
            LayerKind::Craters(c) => {
                freeze_scalar(&mut c.under, name, value);
                freeze_scalar(&mut c.density, name, value);
            },
            _ => {},
        }
    }
}

impl Output {
    /// Puts `value` into every channel that reads the parameter `name`.
    pub fn freeze_param(&mut self, name: &str, value: ParamValue)
        ensures
            *final(self) == output_frozen(*old(self), name@, value),
    {
        freeze_scalar(&mut self.roughness, name, value);
        freeze_scalar(&mut self.metallic, name, value);
    }
}

/// A nullable socket that let go of `id` reads what it read but `id`.
proof fn lemma_opt_without(o: Option<LayerId>, id: LayerId)
    ensures
        opt_ids(opt_without(o, id)) == opt_ids(o).filter(other_than(id)),
{
    let keep = other_than(id);
    reveal(Seq::filter);
    assert(opt_ids(o).drop_last() =~= Seq::<LayerId>::empty() || o is None);
    assert(Seq::<LayerId>::empty().filter(keep) =~= Seq::<LayerId>::empty());
    assert(opt_ids(opt_without(o, id)) =~= opt_ids(o).filter(keep));
}

/// A scalar socket that let go of `id` reads what it read but `id`.
proof fn lemma_scalar_without(s: ScalarInput, id: LayerId)
    ensures
        scalar_without(s, id).ids() == s.ids().filter(other_than(id)),
        scalar_without(s, id).refs() == s.refs(),
{
    let keep = other_than(id);
    reveal(Seq::filter);
    assert(s.ids().drop_last() =~= Seq::<LayerId>::empty() || s.ids().len() == 0);
    assert(Seq::<LayerId>::empty().filter(keep) =~= Seq::<LayerId>::empty());
    assert(scalar_without(s, id).ids() =~= s.ids().filter(keep));
}

/// A color socket that let go of `id` reads what it read but `id`.
proof fn lemma_color_without(c: ColorInput, id: LayerId)
    ensures
        color_without(c, id).ids() == c.ids().filter(other_than(id)),
        color_without(c, id).refs() == c.refs(),
{
    let keep = other_than(id);
    reveal(Seq::filter);
    assert(c.ids().drop_last() =~= Seq::<LayerId>::empty() || c.ids().len() == 0);
    assert(Seq::<LayerId>::empty().filter(keep) =~= Seq::<LayerId>::empty());
    assert(color_without(c, id).ids() =~= c.ids().filter(keep));
}

proof fn lemma_stops_without(a: Seq<ColorStop>, id: LayerId)
    ensures
        ({
            let b = a.map_values(
                |s: ColorStop| ColorStop { t: s.t, color: color_without(s.color, id) },
            );
            &&& stop_ids(b) == stop_ids(a).filter(other_than(id))
            &&& stop_refs(b) == stop_refs(a)
        }),
    decreases a.len(),
{
    let keep = other_than(id);
    let f = |s: ColorStop| ColorStop { t: s.t, color: color_without(s.color, id) };
    if a.len() == 0 {
        reveal(Seq::filter);
        assert(stop_ids(a).filter(keep) =~= Seq::<LayerId>::empty());
    } else {
        lemma_stops_without(a.drop_last(), id);
        assert(a.map_values(f).drop_last() =~= a.drop_last().map_values(f));
        lemma_color_without(a.last().color, id);
        Seq::filter_distributes_over_add(stop_ids(a.drop_last()), a.last().color.ids(), keep);
    }
}

/// A node that let go of `id` reads what it read but `id`, and keeps its
/// parameters.
pub proof fn lemma_kind_without(a: LayerKind, b: LayerKind, id: LayerId)
    requires
        kind_without(a, b, id),
    ensures
        b.input_ids() == a.input_ids().filter(other_than(id)),
        b.ref_names() == a.ref_names(),
{
    let keep = other_than(id);
    match a {
        LayerKind::Color(_) | LayerKind::Noise(_) | LayerKind::Coordinate(_) => {
            reveal(Seq::filter);
            assert(a.input_ids().filter(keep) =~= b.input_ids());
        },
        LayerKind::ColorRamp(r) => {
            lemma_stops_without(r.stops@, id);
        },
        LayerKind::Transform(t) => {
            lemma_opt_without(t.source, id);
        },
        LayerKind::Mix(m) => {
            lemma_opt_without(m.a, id);
            lemma_opt_without(m.b, id);
            lemma_scalar_without(m.factor, id);
            Seq::filter_distributes_over_add(opt_ids(m.a), opt_ids(m.b), keep);
            Seq::filter_distributes_over_add(opt_ids(m.a) + opt_ids(m.b), m.factor.ids(), keep);
        },
        LayerKind::GradientMap(m) => {
            lemma_opt_without(m.value, id);
            lemma_opt_without(m.palette, id);
            Seq::filter_distributes_over_add(opt_ids(m.value), opt_ids(m.palette), keep);
        },
        LayerKind::MinMax(m) => {
            lemma_opt_without(m.a, id);
            lemma_opt_without(m.b, id);
            Seq::filter_distributes_over_add(opt_ids(m.a), opt_ids(m.b), keep);
        },
        LayerKind::HeightToNormal(h) => {
            lemma_opt_without(h.source, id);
        },
        LayerKind::Wave(w) => {
            lemma_scalar_without(w.input, id);
        },
        LayerKind::Warp(w) => {
            lemma_opt_without(w.source, id);
            lemma_opt_without(w.by, id);
            Seq::filter_distributes_over_add(opt_ids(w.source), opt_ids(w.by), keep);
        },
        LayerKind::Craters(c) => {
            lemma_scalar_without(c.under, id);
            lemma_scalar_without(c.density, id);
            Seq::filter_distributes_over_add(c.under.ids(), c.density.ids(), keep);
        },
    }
}

/// An output that let go of `id` reads what it read but `id`, and keeps its
/// parameters.
pub proof fn lemma_output_without(a: Output, id: LayerId)
    ensures
        output_without(a, id).referenced_ids() == a.referenced_ids().filter(other_than(id)),
        output_without(a, id).ref_names() == a.ref_names(),
{
    let keep = other_than(id);
    lemma_opt_without(a.color, id);
    lemma_scalar_without(a.roughness, id);
    lemma_scalar_without(a.metallic, id);
    lemma_opt_without(a.normal, id);
    let p = opt_ids(a.color);
    let q = p + a.roughness.ids();
    let r = q + a.metallic.ids();
    Seq::filter_distributes_over_add(p, a.roughness.ids(), keep);
    Seq::filter_distributes_over_add(q, a.metallic.ids(), keep);
    Seq::filter_distributes_over_add(r, opt_ids(a.normal), keep);
}

/// A reference after the parameter `from` is called `to`.
pub open spec fn ref_renamed(
    r: (Seq<char>, ParamUse),
    from: Seq<char>,
    to: Seq<char>,
) -> (Seq<char>, ParamUse) {
    if r.0 == from {
        (to, r.1)
    } else {
        r
    }
}

/// References after the parameter `from` is called `to`.
pub open spec fn refs_renamed(
    refs: Seq<(Seq<char>, ParamUse)>,
    from: Seq<char>,
    to: Seq<char>,
) -> Seq<(Seq<char>, ParamUse)> {
    refs.map_values(|r: (Seq<char>, ParamUse)| ref_renamed(r, from, to))
}

proof fn lemma_scalar_renamed(a: ScalarInput, b: ScalarInput, from: Seq<char>, to: Seq<char>)
    requires
        scalar_renamed(a, b, from, to),
    ensures
        b.ids() == a.ids(),
        b.refs() == refs_renamed(a.refs(), from, to),
{
    assert(b.refs() =~= refs_renamed(a.refs(), from, to));
}

proof fn lemma_stops_renamed(
    a: Seq<ColorStop>,
    b: Seq<ColorStop>,
    from: Seq<char>,
    to: Seq<char>,
)
    requires
        a.len() == b.len(),
        forall|i: int| 0 <= i < a.len() ==> color_renamed(a[i].color, (#[trigger] b[i]).color, from, to),
    ensures
        stop_ids(b) == stop_ids(a),
        stop_refs(b) == refs_renamed(stop_refs(a), from, to),
    decreases a.len(),
{
    if a.len() == 0 {
        assert(stop_refs(b) =~= refs_renamed(stop_refs(a), from, to));
    } else {
        lemma_stops_renamed(a.drop_last(), b.drop_last(), from, to);
        let n = a.len() - 1;
        assert(color_renamed(a[n].color, b[n].color, from, to));
        assert(b[n].color.refs() =~= refs_renamed(a[n].color.refs(), from, to));
        assert(stop_refs(b) =~= refs_renamed(stop_refs(a), from, to));
    }
}

/// A rename keeps a node's inputs and renames its references.
pub proof fn lemma_kind_renamed(a: LayerKind, b: LayerKind, from: Seq<char>, to: Seq<char>)
    requires
        kind_renamed(a, b, from, to),
    ensures
        b.input_ids() == a.input_ids(),
        b.ref_names() == refs_renamed(a.ref_names(), from, to),
{
    match a {
        LayerKind::ColorRamp(r) => {
            lemma_stops_renamed(r.stops@, b->ColorRamp_0.stops@, from, to);
        },
        LayerKind::Mix(m) => {
            lemma_scalar_renamed(m.factor, b->Mix_0.factor, from, to);
        },
        LayerKind::Wave(w) => {
            lemma_scalar_renamed(w.input, b->Wave_0.input, from, to);
        },
        LayerKind::Craters(c) => {
            lemma_scalar_renamed(c.under, b->Craters_0.under, from, to);
            lemma_scalar_renamed(c.density, b->Craters_0.density, from, to);
            assert(b.ref_names() =~= refs_renamed(a.ref_names(), from, to));
        },
        _ => {
            assert(b.ref_names() =~= refs_renamed(a.ref_names(), from, to));
        },
    }
}

/// A rename keeps what the output reads and renames its references.
pub proof fn lemma_output_renamed(a: Output, b: Output, from: Seq<char>, to: Seq<char>)
    requires
        output_renamed(a, b, from, to),
    ensures
        b.referenced_ids() == a.referenced_ids(),
        b.ref_names() == refs_renamed(a.ref_names(), from, to),
{
    lemma_scalar_renamed(a.roughness, b.roughness, from, to);
    lemma_scalar_renamed(a.metallic, b.metallic, from, to);
    assert(b.ref_names() =~= refs_renamed(a.ref_names(), from, to));
}

/// Tells the references that are not to `name`.
pub open spec fn not_named(name: Seq<char>) -> spec_fn((Seq<char>, ParamUse)) -> bool {
    |r: (Seq<char>, ParamUse)| r.0 != name
}

/// References but those to `name`.
pub open spec fn refs_without(refs: Seq<(Seq<char>, ParamUse)>, name: Seq<char>) -> Seq<
    (Seq<char>, ParamUse),
> {
    refs.filter(not_named(name))
}

proof fn lemma_scalar_frozen(s: ScalarInput, name: Seq<char>, value: ParamValue)
    ensures
        scalar_frozen(s, name, value).ids() == s.ids(),
        scalar_frozen(s, name, value).refs() == refs_without(s.refs(), name),
{
    let keep = not_named(name);
    reveal(Seq::filter);
    assert(s.refs().drop_last() =~= Seq::<(Seq<char>, ParamUse)>::empty() || s.refs().len() == 0);
    assert(Seq::<(Seq<char>, ParamUse)>::empty().filter(keep) =~= Seq::empty());
    assert(scalar_frozen(s, name, value).refs() =~= refs_without(s.refs(), name));
}

proof fn lemma_color_frozen(c: ColorInput, name: Seq<char>, value: ParamValue)
    ensures
        color_frozen(c, name, value).ids() == c.ids(),
        color_frozen(c, name, value).refs() == refs_without(c.refs(), name),
{
    let keep = not_named(name);
    reveal(Seq::filter);
    assert(c.refs().drop_last() =~= Seq::<(Seq<char>, ParamUse)>::empty() || c.refs().len() == 0);
    assert(Seq::<(Seq<char>, ParamUse)>::empty().filter(keep) =~= Seq::empty());
    assert(color_frozen(c, name, value).refs() =~= refs_without(c.refs(), name));
}

proof fn lemma_stops_frozen(a: Seq<ColorStop>, name: Seq<char>, value: ParamValue)
    ensures
        ({
            let b = a.map_values(
                |s: ColorStop| ColorStop { t: s.t, color: color_frozen(s.color, name, value) },
            );
            &&& stop_ids(b) == stop_ids(a)
            &&& stop_refs(b) == refs_without(stop_refs(a), name)
        }),
    decreases a.len(),
{
    let keep = not_named(name);
    let f = |s: ColorStop| ColorStop { t: s.t, color: color_frozen(s.color, name, value) };
    if a.len() == 0 {
        reveal(Seq::filter);
        assert(stop_refs(a).filter(keep) =~= Seq::empty());
    } else {
        lemma_stops_frozen(a.drop_last(), name, value);
        assert(a.map_values(f).drop_last() =~= a.drop_last().map_values(f));
        lemma_color_frozen(a.last().color, name, value);
        Seq::filter_distributes_over_add(stop_refs(a.drop_last()), a.last().color.refs(), keep);
    }
}

/// Freezing a parameter keeps a node's inputs and drops its references to it.
pub proof fn lemma_kind_frozen(a: LayerKind, b: LayerKind, name: Seq<char>, value: ParamValue)
    requires
        kind_frozen(a, b, name, value),
    ensures
        b.input_ids() == a.input_ids(),
        b.ref_names() == refs_without(a.ref_names(), name),
{
    let keep = not_named(name);
    match a {
        LayerKind::ColorRamp(r) => {
            lemma_stops_frozen(r.stops@, name, value);
        },
        LayerKind::Mix(m) => {
            lemma_scalar_frozen(m.factor, name, value);
        },
        LayerKind::Wave(w) => {
            lemma_scalar_frozen(w.input, name, value);
        },
        LayerKind::Craters(c) => {
            lemma_scalar_frozen(c.under, name, value);
            lemma_scalar_frozen(c.density, name, value);
            Seq::filter_distributes_over_add(c.under.refs(), c.density.refs(), keep);
        },
        _ => {
            reveal(Seq::filter);
            assert(a.ref_names().filter(keep) =~= Seq::empty());
        },
    }
}

/// Freezing a parameter keeps what the output reads and drops its references
/// to it.
pub proof fn lemma_output_frozen(a: Output, name: Seq<char>, value: ParamValue)
    ensures
        output_frozen(a, name, value).referenced_ids() == a.referenced_ids(),
        output_frozen(a, name, value).ref_names() == refs_without(a.ref_names(), name),
{
    let keep = not_named(name);
    lemma_scalar_frozen(a.roughness, name, value);
    lemma_scalar_frozen(a.metallic, name, value);
    Seq::filter_distributes_over_add(a.roughness.refs(), a.metallic.refs(), keep);
}

/// Disconnecting a layer empties exactly the sockets that were wired to it. A
/// nullable socket then holds nothing, a scalar one a half and a color one an
/// opaque mid gray. Every other socket, and every setting, stays as it was.
pub proof fn law_disconnecting_empties_the_readers(a: LayerKind, b: LayerKind, id: LayerId, i: int)
    requires
        kind_without(a, b, id),
        0 <= i < a.sockets().len(),
    ensures
        same_settings(a, b),
        b.sockets().len() == a.sockets().len(),
        b.sockets()[i].key == a.sockets()[i].key,
        emptied(a.sockets()[i].value, b.sockets()[i].value, id),
{
}

/// As [`law_disconnecting_empties_the_readers`], for the output's channels.
pub proof fn law_disconnecting_empties_the_channels(a: Output, id: LayerId)
    ensures
        ({
            let b = output_without(a, id);
            &&& emptied(SocketValue::LayerOpt(a.color), SocketValue::LayerOpt(b.color), id)
            &&& emptied(SocketValue::Scalar(a.roughness), SocketValue::Scalar(b.roughness), id)
            &&& emptied(SocketValue::Scalar(a.metallic), SocketValue::Scalar(b.metallic), id)
            &&& emptied(SocketValue::LayerOpt(a.normal), SocketValue::LayerOpt(b.normal), id)
        }),
{
}

/// `after` is the socket `before` once the layer `id` is gone.
pub open spec fn emptied(before: SocketValue, after: SocketValue, id: LayerId) -> bool {
    if before.connected_to() == Some(id) {
        match (before, after) {
            (SocketValue::LayerOpt(_), SocketValue::LayerOpt(o)) => o is None,
            (SocketValue::Scalar(_), SocketValue::Scalar(s)) => s is Const && s->Const_0.bits
                == 0x3f00_0000u32,
            (SocketValue::Color(_), SocketValue::Color(c)) => {
                &&& c is Const
                &&& c->Const_0.l.bits == 0x3f00_0000u32
                &&& c->Const_0.chroma.bits == 0u32
                &&& c->Const_0.hue.bits == 0u32
                &&& c->Const_0.alpha.bits == 0x3f80_0000u32
            },
            _ => false,
        }
    } else {
        after == before
    }
}

/// The parameter a socket reads, if any.
pub open spec fn named_by(value: SocketValue) -> Option<Seq<char>> {
    match value {
        SocketValue::Color(ColorInput::Param(name)) => Some(name@),
        SocketValue::Scalar(ScalarInput::Param(name)) => Some(name@),
        _ => None,
    }
}

/// Renaming a parameter moves exactly the sockets that read it to the new
/// name. Every other socket, and every setting, stays as it was.
pub proof fn law_renaming_moves_the_readers(
    a: LayerKind,
    b: LayerKind,
    from: Seq<char>,
    to: Seq<char>,
    i: int,
)
    requires
        kind_renamed(a, b, from, to),
        0 <= i < a.sockets().len(),
    ensures
        same_settings(a, b),
        b.sockets().len() == a.sockets().len(),
        b.sockets()[i].key == a.sockets()[i].key,
        ({
            let before = a.sockets()[i].value;
            let after = b.sockets()[i].value;
            if named_by(before) == Some(from) {
                &&& named_by(after) == Some(to)
                &&& before is Color == after is Color
            } else {
                after == before
            }
        }),
{
}

/// As [`law_renaming_moves_the_readers`], for the output's channels.
pub proof fn law_renaming_moves_the_channels(a: Output, b: Output, from: Seq<char>, to: Seq<char>)
    requires
        output_renamed(a, b, from, to),
    ensures
        b.color == a.color,
        b.normal == a.normal,
        forall|i: int|
            0 <= i < 4 ==> if named_by((#[trigger] a.sockets()[i]).value) == Some(from) {
                named_by(b.sockets()[i].value) == Some(to)
            } else {
                b.sockets()[i].value == a.sockets()[i].value
            },
{
}

/// Freezing a parameter writes its value into exactly the sockets that read
/// it; one that reads a parameter of the other sort holds nothing of the value,
/// but a zero or an opaque mid gray. Every other socket, and every setting,
/// stays as it was.
pub proof fn law_freezing_fills_the_readers(
    a: LayerKind,
    b: LayerKind,
    name: Seq<char>,
    value: ParamValue,
    i: int,
)
    requires
        kind_frozen(a, b, name, value),
        0 <= i < a.sockets().len(),
    ensures
        same_settings(a, b),
        b.sockets().len() == a.sockets().len(),
        b.sockets()[i].key == a.sockets()[i].key,
        filled(a.sockets()[i].value, b.sockets()[i].value, name, value),
{
}

/// As [`law_freezing_fills_the_readers`], for the output's channels.
pub proof fn law_freezing_fills_the_channels(a: Output, name: Seq<char>, value: ParamValue, i: int)
    requires
        0 <= i < a.sockets().len(),
    ensures
        filled(a.sockets()[i].value, output_frozen(a, name, value).sockets()[i].value, name, value),
{
}

/// `after` is the socket `before` once the parameter `name` is frozen.
pub open spec fn filled(
    before: SocketValue,
    after: SocketValue,
    name: Seq<char>,
    value: ParamValue,
) -> bool {
    if named_by(before) == Some(name) {
        match (after, value) {
            (SocketValue::Scalar(s), ParamValue::Scalar(v)) => s == ScalarInput::Const(v),
            (SocketValue::Scalar(s), ParamValue::Color(_)) => s is Const && s->Const_0.bits == 0,
            (SocketValue::Color(c), ParamValue::Color(v)) => c == ColorInput::Const(v),
            (SocketValue::Color(c), ParamValue::Scalar(_)) => {
                &&& c is Const
                &&& c->Const_0.l.bits == 0x3f00_0000u32
                &&& c->Const_0.chroma.bits == 0u32
                &&& c->Const_0.hue.bits == 0u32
                &&& c->Const_0.alpha.bits == 0x3f80_0000u32
            },
            _ => false,
        }
    } else {
        after == before
    }
}

} // verus!
