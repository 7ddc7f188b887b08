//! Socket reflection over [`LayerKind`] and [`Output`], so that an editor can
//! list and rewire inputs without matching on every kind.
//!
//! The sockets of a node, in order, are connected to exactly the layers that
//! its inputs list; see [`law_sockets_match_inputs`].
use vstd::prelude::*;

use crate::color::Color;
use crate::graph::Output;
use crate::id::LayerId;
use crate::kind::{opt_ids, stop_ids, ColorInput, ColorStop, LayerKind, ScalarInput};
use crate::scalar::Scalar;

verus! {

/// Identifies one input socket on a layer or on the graph's output.
#[derive(Clone, Copy, Debug, PartialEq, Eq, Structural, Hash)]
pub enum InputKey {
    TransformSource,
    MixA,
    MixB,
    MixFactor,
    MapValue,
    MapPalette,
    MinMaxA,
    MinMaxB,
    H2nSource,
    WaveInput,
    WarpSource,
    WarpBy,
    CratersUnder,
    CratersDensity,
    RampStop(usize),
    OutColor,
    OutRoughness,
    OutMetallic,
    OutNormal,
}

/// Current value of a socket, as read from the model.
#[derive(Clone, Debug)]
pub enum SocketValue {
    /// A nullable layer. `None` renders as the missing-texture grid.
    LayerOpt(Option<LayerId>),
    Color(ColorInput),
    Scalar(ScalarInput),
}

impl SocketValue {
    /// The layer the socket is wired to, as a list of none or one.
    pub open spec fn ids(self) -> Seq<LayerId> {
        match self {
            SocketValue::LayerOpt(o) => opt_ids(o),
            SocketValue::Color(c) => c.ids(),
            SocketValue::Scalar(s) => s.ids(),
        }
    }

    /// The layer the socket is wired to, if any.
    #[verifier::allow_in_spec]
    pub fn connected_to(&self) -> Option<LayerId>
        returns
            (match self {
                SocketValue::LayerOpt(o) => *o,
                SocketValue::Color(ColorInput::Layer(id)) => Some(*id),
                SocketValue::Scalar(ScalarInput::Layer(id)) => Some(*id),
                _ => None,
            }),
    {
        match self {
            SocketValue::LayerOpt(o) => *o,
            SocketValue::Color(ColorInput::Layer(id)) => Some(*id),
            SocketValue::Scalar(ScalarInput::Layer(id)) => Some(*id),
            _ => None,
        }
    }
}

/// One connectable input on a node.
#[derive(Clone, Debug)]
pub struct InputSocket {
    pub key: InputKey,
    pub label: &'static str,
    pub value: SocketValue,
}

/// Why a socket was not written.
#[derive(Clone, Copy, Debug, PartialEq, Eq, Structural)]
pub enum SocketError {
    NoSuchSocket,
}

/// A constant that can be written into a color or scalar socket, so that an
/// editor can restore what a connection displaced.
#[derive(Clone, Copy, Debug, PartialEq, Eq, Structural)]
pub enum ConstValue {
    Color(Color),
    Scalar(Scalar),
}

/// What a color socket holds once it is wired to `target`, or to nothing.
pub open spec fn wired_color(target: Option<LayerId>) -> ColorInput {
    match target {
        Some(id) => ColorInput::Layer(id),
        None => ColorInput::Const(Color::mid_gray()),
    }
}

/// What a scalar socket holds once it is wired to `target`, or to nothing.
pub open spec fn wired_scalar(target: Option<LayerId>) -> ScalarInput {
    match target {
        Some(id) => ScalarInput::Layer(id),
        None => ScalarInput::Const(Scalar::half()),
    }
}

/// What a socket that held `before` holds once it is wired to `target`.
pub open spec fn wired(before: SocketValue, target: Option<LayerId>) -> SocketValue {
    match before {
        SocketValue::LayerOpt(_) => SocketValue::LayerOpt(target),
        SocketValue::Color(_) => SocketValue::Color(wired_color(target)),
        SocketValue::Scalar(_) => SocketValue::Scalar(wired_scalar(target)),
    }
}

/// The sockets of a ramp, one per stop.
pub open spec fn stop_sockets(stops: Seq<ColorStop>) -> Seq<InputSocket> {
    Seq::new(
        stops.len(),
        |i: int|
            InputSocket {
                key: InputKey::RampStop(i as usize),
                label: "stop",
                value: SocketValue::Color(stops[i].color),
            },
    )
}

/// The layers that sockets are wired to, socket by socket.
pub open spec fn connected_ids(sockets: Seq<InputSocket>) -> Seq<LayerId>
    decreases sockets.len(),
{
    if sockets.len() == 0 {
        Seq::empty()
    } else {
        connected_ids(sockets.drop_last()) + sockets.last().value.ids()
    }
}

/// The same list of keys and labels, with one value replaced.
pub open spec fn with_value(sockets: Seq<InputSocket>, i: int, value: SocketValue) -> Seq<
    InputSocket,
> {
    sockets.update(i, InputSocket { value: value, ..sockets[i] })
}

/// `r` reports a write of `value` to the socket `key`: the sockets after it
/// differ from those before it in that one value, and `r` hands back what was
/// there; or there is no such socket, and nothing changed.
pub open spec fn wrote_socket(
    before: Seq<InputSocket>,
    after: Seq<InputSocket>,
    key: InputKey,
    target: Option<LayerId>,
    r: Result<SocketValue, SocketError>,
) -> bool {
    match r {
        Ok(prev) => exists|i: int|
            0 <= i < before.len() && (#[trigger] before[i]).key == key && prev == before[i].value
                && after == with_value(before, i, wired(prev, target)),
        Err(_) => after == before && forall|i: int|
            0 <= i < before.len() ==> (#[trigger] before[i]).key != key,
    }
}

/// The constant fits the socket.
pub open spec fn takes_const(socket: SocketValue, value: ConstValue) -> bool {
    match (socket, value) {
        (SocketValue::Color(_), ConstValue::Color(_)) => true,
        (SocketValue::Scalar(_), ConstValue::Scalar(_)) => true,
        _ => false,
    }
}

/// The constant as a socket holds it.
pub open spec fn const_value(value: ConstValue) -> SocketValue {
    match value {
        ConstValue::Color(c) => SocketValue::Color(ColorInput::Const(c)),
        ConstValue::Scalar(v) => SocketValue::Scalar(ScalarInput::Const(v)),
    }
}

/// `r` reports a write of a constant to the socket `key`: it went in where the
/// socket takes such a constant, and nothing else changed.
pub open spec fn wrote_const(
    before: Seq<InputSocket>,
    after: Seq<InputSocket>,
    key: InputKey,
    value: ConstValue,
    r: Result<(), SocketError>,
) -> bool {
    match r {
        Ok(_) => exists|i: int|
            0 <= i < before.len() && (#[trigger] before[i]).key == key && takes_const(
                before[i].value,
                value,
            ) && after == with_value(before, i, const_value(value)),
        Err(_) => after == before && forall|i: int|
            0 <= i < before.len() ==> (#[trigger] before[i]).key != key || !takes_const(
                before[i].value,
                value,
            ),
    }
}

/// The kinds agree in everything that is no socket.
pub open spec fn same_settings(a: LayerKind, b: LayerKind) -> bool {
    match (a, b) {
        (LayerKind::Color(c), LayerKind::Color(d)) => c == d,
        (LayerKind::Noise(m), LayerKind::Noise(n)) => m == n,
        (LayerKind::Coordinate(c), LayerKind::Coordinate(d)) => c == d,
        (LayerKind::ColorRamp(r), LayerKind::ColorRamp(s)) => {
            &&& r.space == s.space
            &&& r.stops@.len() == s.stops@.len()
            &&& forall|i: int|
                0 <= i < r.stops@.len() ==> (#[trigger] r.stops@[i]).t == s.stops@[i].t
        },
        (LayerKind::Transform(t), LayerKind::Transform(u)) => {
            u == (crate::kind::Transform { source: u.source, ..t })
        },
        (LayerKind::Mix(m), LayerKind::Mix(n)) => {
            n == (crate::kind::Mix { a: n.a, b: n.b, factor: n.factor, ..m })
        },
        (LayerKind::GradientMap(m), LayerKind::GradientMap(n)) => true,
        (LayerKind::MinMax(m), LayerKind::MinMax(n)) => {
            n == (crate::kind::MinMax { a: n.a, b: n.b, ..m })
        },
        (LayerKind::HeightToNormal(h), LayerKind::HeightToNormal(k)) => {
            k == (crate::kind::HeightToNormal { source: k.source, ..h })
        },
        (LayerKind::Wave(w), LayerKind::Wave(x)) => {
            x == (crate::kind::Wave { input: x.input, ..w })
        },
        (LayerKind::Warp(w), LayerKind::Warp(x)) => {
            x == (crate::kind::Warp { source: x.source, by: x.by, ..w })
        },
        (LayerKind::Craters(c), LayerKind::Craters(d)) => {
            d == (crate::kind::Craters { under: d.under, density: d.density, ..c })
        },
        _ => false,
    }
}

fn socket(key: InputKey, label: &'static str, value: SocketValue) -> (r: InputSocket)
    ensures
        r == (InputSocket { key, label, value }),
{
    InputSocket { key, label, value }
}

/// Wires a nullable socket, and hands back what was there.
fn set_opt(slot: &mut Option<LayerId>, target: Option<LayerId>) -> (r: SocketValue)
    ensures
        r == SocketValue::LayerOpt(*old(slot)),
        *final(slot) == target,
{
    let before = *slot;
    *slot = target;
    SocketValue::LayerOpt(before)
}

/// Wires a color socket, and hands back what was there.
fn set_color(slot: &mut ColorInput, target: Option<LayerId>) -> (r: SocketValue)
    ensures
        r == SocketValue::Color(*old(slot)),
        *final(slot) == wired_color(target),
{
    let mut new = match target {
        Some(id) => ColorInput::Layer(id),
        None => ColorInput::Const(Color::mid_gray()),
    };
    std::mem::swap(slot, &mut new);
    SocketValue::Color(new)
}

/// Wires a scalar socket, and hands back what was there.
fn set_scalar(slot: &mut ScalarInput, target: Option<LayerId>) -> (r: SocketValue)
    ensures
        r == SocketValue::Scalar(*old(slot)),
        *final(slot) == wired_scalar(target),
{
    let mut new = match target {
        Some(id) => ScalarInput::Layer(id),
        None => ScalarInput::Const(Scalar::half()),
    };
    std::mem::swap(slot, &mut new);
    SocketValue::Scalar(new)
}

impl LayerKind {
    /// The connectable input sockets, top to bottom.
    pub open spec fn sockets(&self) -> Seq<InputSocket> {
        match self {
            LayerKind::Color(_) => Seq::empty(),
            LayerKind::Noise(_) => Seq::empty(),
            LayerKind::Coordinate(_) => Seq::empty(),
            LayerKind::ColorRamp(r) => stop_sockets(r.stops@),
            LayerKind::Transform(t) => seq![
                InputSocket {
                    key: InputKey::TransformSource,
                    label: "source",
                    value: SocketValue::LayerOpt(t.source),
                },
            ],
            LayerKind::Mix(m) => seq![
                InputSocket {
                    key: InputKey::MixA,
                    label: "a",
                    value: SocketValue::LayerOpt(m.a),
                },
                InputSocket {
                    key: InputKey::MixB,
                    label: "b",
                    value: SocketValue::LayerOpt(m.b),
                },
                InputSocket {
                    key: InputKey::MixFactor,
                    label: "factor",
                    value: SocketValue::Scalar(m.factor),
                },
            ],
            LayerKind::GradientMap(m) => seq![
                InputSocket {
                    key: InputKey::MapValue,
                    label: "value",
                    value: SocketValue::LayerOpt(m.value),
                },
                InputSocket {
                    key: InputKey::MapPalette,
                    label: "palette",
                    value: SocketValue::LayerOpt(m.palette),
                },
            ],
            LayerKind::MinMax(mm) => seq![
                InputSocket {
                    key: InputKey::MinMaxA,
                    label: "a",
                    value: SocketValue::LayerOpt(mm.a),
                },
                InputSocket {
                    key: InputKey::MinMaxB,
                    label: "b",
                    value: SocketValue::LayerOpt(mm.b),
                },
            ],
            LayerKind::HeightToNormal(h) => seq![
                InputSocket {
                    key: InputKey::H2nSource,
                    label: "source",
                    value: SocketValue::LayerOpt(h.source),
                },
            ],
            LayerKind::Wave(w) => seq![
                InputSocket {
                    key: InputKey::WaveInput,
                    label: "input",
                    value: SocketValue::Scalar(w.input),
                },
            ],
            LayerKind::Warp(w) => seq![
                InputSocket {
                    key: InputKey::WarpSource,
                    label: "source",
                    value: SocketValue::LayerOpt(w.source),
                },
                InputSocket {
                    key: InputKey::WarpBy,
                    label: "by",
                    value: SocketValue::LayerOpt(w.by),
                },
            ],
            LayerKind::Craters(c) => seq![
                InputSocket {
                    key: InputKey::CratersUnder,
                    label: "under",
                    value: SocketValue::Scalar(c.under),
                },
                InputSocket {
                    key: InputKey::CratersDensity,
                    label: "density",
                    value: SocketValue::Scalar(c.density),
                },
            ],
        }
    }

    /// Ordered list of connectable input sockets (top-to-bottom node order).
    pub fn input_sockets(&self) -> (r: Vec<InputSocket>)
        ensures
            r@ == self.sockets(),
    {
        let mut out: Vec<InputSocket> = Vec::new();
        match self {
            LayerKind::Color(_) | LayerKind::Noise(_) | LayerKind::Coordinate(_) => {},
            LayerKind::ColorRamp(r) => {
                let mut i: usize = 0;
                while i < r.stops.len()
                    invariant
                        i <= r.stops@.len(),
                        out@ == stop_sockets(r.stops@).take(i as int),
                    decreases r.stops@.len() - i,
                {
                    out.push(
                        socket(
                            InputKey::RampStop(i),
                            "stop",
                            SocketValue::Color(r.stops[i].color.clone()),
                        ),
                    );
                    assert(out@ =~= stop_sockets(r.stops@).take(i + 1));
                    i += 1;
                }
            },
            LayerKind::Transform(t) => {
                out.push(
                    socket(InputKey::TransformSource, "source", SocketValue::LayerOpt(t.source)),
                );
            },
            LayerKind::Mix(m) => {
                out.push(socket(InputKey::MixA, "a", SocketValue::LayerOpt(m.a)));
                out.push(socket(InputKey::MixB, "b", SocketValue::LayerOpt(m.b)));
                out.push(
                    socket(InputKey::MixFactor, "factor", SocketValue::Scalar(m.factor.clone())),
                );
            },
            LayerKind::GradientMap(m) => {
                out.push(socket(InputKey::MapValue, "value", SocketValue::LayerOpt(m.value)));
                out.push(socket(InputKey::MapPalette, "palette", SocketValue::LayerOpt(m.palette)));
            },
            LayerKind::MinMax(mm) => {
                out.push(socket(InputKey::MinMaxA, "a", SocketValue::LayerOpt(mm.a)));
                out.push(socket(InputKey::MinMaxB, "b", SocketValue::LayerOpt(mm.b)));
            },
            LayerKind::HeightToNormal(h) => {
                out.push(socket(InputKey::H2nSource, "source", SocketValue::LayerOpt(h.source)));
            },
            LayerKind::Wave(w) => {
                out.push(socket(InputKey::WaveInput, "input", SocketValue::Scalar(w.input.clone())));
            },
            LayerKind::Warp(w) => {
                out.push(socket(InputKey::WarpSource, "source", SocketValue::LayerOpt(w.source)));
                out.push(socket(InputKey::WarpBy, "by", SocketValue::LayerOpt(w.by)));
            },
            LayerKind::Craters(c) => {
                out.push(
                    socket(InputKey::CratersUnder, "under", SocketValue::Scalar(c.under.clone())),
                );
                out.push(
                    socket(
                        InputKey::CratersDensity,
                        "density",
                        SocketValue::Scalar(c.density.clone()),
                    ),
                );
            },
        }
        assert(out@ =~= self.sockets());
        out
    }

    /// Connect or disconnect one socket. A disconnected color or scalar socket
    /// falls back to a constant; a caller that wants to restore what was there
    /// can do so from the value that is handed back.
    pub fn set_input(&mut self, key: InputKey, target: Option<LayerId>) -> (r: Result<
        SocketValue,
        SocketError,
    >)
        ensures
            wrote_socket(old(self).sockets(), final(self).sockets(), key, target, r),
            same_settings(*old(self), *final(self)),
    {
        let ghost before = self.sockets();
        let r = match (&mut *self, key) {
            (LayerKind::Transform(t), InputKey::TransformSource) => {
                Ok(set_opt(&mut t.source, target))
            },
            (LayerKind::Mix(m), InputKey::MixA) => Ok(set_opt(&mut m.a, target)),
            (LayerKind::Mix(m), InputKey::MixB) => Ok(set_opt(&mut m.b, target)),
            (LayerKind::Mix(m), InputKey::MixFactor) => Ok(set_scalar(&mut m.factor, target)),
            (LayerKind::GradientMap(m), InputKey::MapValue) => Ok(set_opt(&mut m.value, target)),
            (LayerKind::GradientMap(m), InputKey::MapPalette) => {
                Ok(set_opt(&mut m.palette, target))
            },
            (LayerKind::MinMax(mm), InputKey::MinMaxA) => Ok(set_opt(&mut mm.a, target)),
            (LayerKind::MinMax(mm), InputKey::MinMaxB) => Ok(set_opt(&mut mm.b, target)),
            (LayerKind::HeightToNormal(h), InputKey::H2nSource) => {
                Ok(set_opt(&mut h.source, target))
            },
            (LayerKind::Wave(w), InputKey::WaveInput) => Ok(set_scalar(&mut w.input, target)),
            (LayerKind::Warp(w), InputKey::WarpSource) => Ok(set_opt(&mut w.source, target)),
            (LayerKind::Warp(w), InputKey::WarpBy) => Ok(set_opt(&mut w.by, target)),
            (LayerKind::Craters(c), InputKey::CratersUnder) => Ok(set_scalar(&mut c.under, target)),
            (LayerKind::Craters(c), InputKey::CratersDensity) => {
                Ok(set_scalar(&mut c.density, target))
            },
            (LayerKind::ColorRamp(r), InputKey::RampStop(i)) => {
                // A stop can vanish between drag start and drop, so a missing
                // one is reported.
                if i < r.stops.len() {
                    Ok(set_color(&mut r.stops[i].color, target))
                } else {
                    Err(SocketError::NoSuchSocket)
                }
            },
            _ => Err(SocketError::NoSuchSocket),
        };
        proof {
            let after = self.sockets();
            if r is Ok {
                let i = key_place(key);
                assert(before[i].key == key);
                assert(after =~= with_value(before, i, wired(r->Ok_0, target)));
            } else {
                assert forall|i: int| 0 <= i < before.len() implies (#[trigger] before[i]).key
                    != key by {}
            }
        }
        r
    }

    /// Write a constant into a color or scalar socket. Refused on plain-layer
    /// sockets and where the sort of constant does not fit.
    pub fn set_const(&mut self, key: InputKey, value: ConstValue) -> (r: Result<(), SocketError>)
        ensures
            wrote_const(old(self).sockets(), final(self).sockets(), key, value, r),
            same_settings(*old(self), *final(self)),
    {
        let ghost before = self.sockets();
        let r = match (&mut *self, key, value) {
            (LayerKind::Mix(m), InputKey::MixFactor, ConstValue::Scalar(v)) => {
                m.factor = ScalarInput::Const(v);
                Ok(())
            },
            (LayerKind::Wave(w), InputKey::WaveInput, ConstValue::Scalar(v)) => {
                w.input = ScalarInput::Const(v);
                Ok(())
            },
            (LayerKind::Craters(c), InputKey::CratersUnder, ConstValue::Scalar(v)) => {
                c.under = ScalarInput::Const(v);
                Ok(())
            },
            (LayerKind::Craters(c), InputKey::CratersDensity, ConstValue::Scalar(v)) => {
                c.density = ScalarInput::Const(v);
                Ok(())
            },
            (LayerKind::ColorRamp(r), InputKey::RampStop(i), ConstValue::Color(c)) => {
                if i < r.stops.len() {
                    r.stops[i].color = ColorInput::Const(c);
                    Ok(())
                } else {
                    Err(SocketError::NoSuchSocket)
                }
            },
            _ => Err(SocketError::NoSuchSocket),
        };
        proof {
            let after = self.sockets();
            if r is Ok {
                let i = key_place(key);
                assert(before[i].key == key);
                assert(after =~= with_value(before, i, const_value(value)));
            } else {
                assert forall|i: int| 0 <= i < before.len() implies (#[trigger] before[i]).key
                    != key || !takes_const(before[i].value, value) by {}
            }
        }
        r
    }
}

impl Output {
    /// The material output's input sockets, top to bottom.
    pub open spec fn sockets(&self) -> Seq<InputSocket> {
        seq![
            InputSocket {
                key: InputKey::OutColor,
                label: "color",
                value: SocketValue::LayerOpt(self.color),
            },
            InputSocket {
                key: InputKey::OutRoughness,
                label: "roughness",
                value: SocketValue::Scalar(self.roughness),
            },
            InputSocket {
                key: InputKey::OutMetallic,
                label: "metallic",
                value: SocketValue::Scalar(self.metallic),
            },
            InputSocket {
                key: InputKey::OutNormal,
                label: "normal",
                value: SocketValue::LayerOpt(self.normal),
            },
        ]
    }

    /// The material output's input sockets, top to bottom.
    pub fn input_sockets(&self) -> (r: Vec<InputSocket>)
        ensures
            r@ == self.sockets(),
    {
        let mut out: Vec<InputSocket> = Vec::new();
        out.push(socket(InputKey::OutColor, "color", SocketValue::LayerOpt(self.color)));
        out.push(
            socket(
                InputKey::OutRoughness,
                "roughness",
                SocketValue::Scalar(self.roughness.clone()),
            ),
        );
        out.push(
            socket(InputKey::OutMetallic, "metallic", SocketValue::Scalar(self.metallic.clone())),
        );
        out.push(socket(InputKey::OutNormal, "normal", SocketValue::LayerOpt(self.normal)));
        assert(out@ =~= self.sockets());
        out
    }

    /// Connect or disconnect one output socket.
    pub fn set_input(&mut self, key: InputKey, target: Option<LayerId>) -> (r: Result<
        SocketValue,
        SocketError,
    >)
        ensures
            wrote_socket(old(self).sockets(), final(self).sockets(), key, target, r),
    {
        let ghost before = self.sockets();
        let r = match key {
            InputKey::OutColor => Ok(set_opt(&mut self.color, target)),
            InputKey::OutRoughness => Ok(set_scalar(&mut self.roughness, target)),
            InputKey::OutMetallic => Ok(set_scalar(&mut self.metallic, target)),
            InputKey::OutNormal => Ok(set_opt(&mut self.normal, target)),
            _ => Err(SocketError::NoSuchSocket),
        };
        proof {
            let after = self.sockets();
            if r is Ok {
                let i = key_place(key);
                assert(before[i].key == key);
                assert(after =~= with_value(before, i, wired(r->Ok_0, target)));
            } else {
                assert forall|i: int| 0 <= i < before.len() implies (#[trigger] before[i]).key
                    != key by {}
            }
        }
        r
    }

    /// Write a constant into `roughness` or `metallic`. Refused elsewhere.
    pub fn set_const(&mut self, key: InputKey, value: ConstValue) -> (r: Result<(), SocketError>)
        ensures
            wrote_const(old(self).sockets(), final(self).sockets(), key, value, r),
    {
        let ghost before = self.sockets();
        let r = match (key, value) {
            (InputKey::OutRoughness, ConstValue::Scalar(v)) => {
                self.roughness = ScalarInput::Const(v);
                Ok(())
            },
            (InputKey::OutMetallic, ConstValue::Scalar(v)) => {
                self.metallic = ScalarInput::Const(v);
                Ok(())
            },
            _ => Err(SocketError::NoSuchSocket),
        };
        proof {
            let after = self.sockets();
            if r is Ok {
                let i = key_place(key);
                assert(before[i].key == key);
                assert(after =~= with_value(before, i, const_value(value)));
            } else {
                assert forall|i: int| 0 <= i < before.len() implies (#[trigger] before[i]).key
                    != key || !takes_const(before[i].value, value) by {}
            }
        }
        r
    }
}

/// Where a socket stands on the node that has it.
spec fn key_place(key: InputKey) -> int {
    match key {
        InputKey::MixB => 1,
        InputKey::MixFactor => 2,
        InputKey::MapPalette => 1,
        InputKey::MinMaxB => 1,
        InputKey::WarpBy => 1,
        InputKey::CratersDensity => 1,
        InputKey::RampStop(i) => i as int,
        InputKey::OutRoughness => 1,
        InputKey::OutMetallic => 2,
        InputKey::OutNormal => 3,
        _ => 0,
    }
}

/// The sockets of a node are wired to its inputs, in the same order.
pub proof fn law_sockets_match_inputs(kind: LayerKind)
    ensures
        connected_ids(kind.sockets()) == kind.input_ids(),
{
    reveal_with_fuel(connected_ids, 4);
    let s = kind.sockets();
    match kind {
        LayerKind::ColorRamp(r) => {
            lemma_stop_sockets(r.stops@);
        },
        LayerKind::Mix(m) => {
            assert(s.drop_last().drop_last().drop_last() =~= Seq::empty());
            assert(s.drop_last().drop_last().last() == s[0]);
            assert(connected_ids(s) =~= kind.input_ids());
        },
        LayerKind::Transform(_) | LayerKind::HeightToNormal(_) | LayerKind::Wave(_) => {
            assert(s.drop_last() =~= Seq::empty());
            assert(connected_ids(s) =~= kind.input_ids());
        },
        LayerKind::GradientMap(_)
        | LayerKind::MinMax(_)
        | LayerKind::Warp(_)
        | LayerKind::Craters(_) => {
            assert(s.drop_last().drop_last() =~= Seq::empty());
            assert(s.drop_last().last() == s[0]);
            assert(connected_ids(s) =~= kind.input_ids());
        },
        _ => {},
    }
}

proof fn lemma_stop_sockets(stops: Seq<ColorStop>)
    ensures
        connected_ids(stop_sockets(stops)) == stop_ids(stops),
    decreases stops.len(),
{
    if stops.len() > 0 {
        let s = stop_sockets(stops);
        lemma_stop_sockets(stops.drop_last());
        assert(s.drop_last() =~= stop_sockets(stops.drop_last()));
    }
}

/// The output's sockets are wired to the layers it reads, in the same order.
pub proof fn law_output_sockets_match_references(output: Output)
    ensures
        connected_ids(output.sockets()) == output.referenced_ids(),
{
    reveal_with_fuel(connected_ids, 5);
    let s = output.sockets();
    assert(s.drop_last().drop_last().drop_last().drop_last() =~= Seq::empty());
    assert(s.drop_last().drop_last().drop_last().last() == s[0]);
    assert(s.drop_last().drop_last().last() == s[1]);
    assert(s.drop_last().last() == s[2]);
    assert(connected_ids(s) =~= output.referenced_ids());
}

/// A key names one socket of a node.
pub proof fn law_keys_differ(kind: LayerKind, i: int, j: int)
    requires
        0 <= i < kind.sockets().len(),
        0 <= j < kind.sockets().len(),
        kind.sockets()[i].key == kind.sockets()[j].key,
    ensures
        i == j,
{
    if let LayerKind::ColorRamp(r) = kind {
        vstd::std_specs::vec::axiom_spec_len(&r.stops);
    }
}

/// A socket that was wired to a layer reads back that layer, and one that was
/// disconnected reads back none: a color or scalar socket then holds its
/// fallback constant.
pub proof fn law_wired_reads_back(before: SocketValue, target: Option<LayerId>)
    ensures
        wired(before, target).connected_to() == target,
        target is None ==> match wired(before, target) {
            SocketValue::LayerOpt(o) => o is None,
            SocketValue::Color(c) => c == ColorInput::Const(Color::mid_gray()),
            SocketValue::Scalar(s) => s == ScalarInput::Const(Scalar::half()),
        },
{
}

/// What a write displaced can be put back: wiring the socket to the layer it
/// was connected to, or writing the constant it held, restores the sockets.
pub proof fn law_displaced_value_can_be_restored(
    sockets: Seq<InputSocket>,
    i: int,
    target: Option<LayerId>,
    constant: ConstValue,
)
    requires
        0 <= i < sockets.len(),
    ensures
        ({
            let prev = sockets[i].value;
            let after = with_value(sockets, i, wired(prev, target));
            &&& prev.connected_to() is Some ==> with_value(
                after,
                i,
                wired(after[i].value, prev.connected_to()),
            ) == sockets
            &&& prev == const_value(constant) ==> takes_const(after[i].value, constant)
                && with_value(after, i, const_value(constant)) == sockets
        }),
{
    let prev = sockets[i].value;
    let after = with_value(sockets, i, wired(prev, target));
    assert(with_value(after, i, prev) =~= sockets);
}

/// The socket at that place of those listed.
pub open spec fn shows_socket(
    sockets: Seq<InputSocket>,
    i: int,
    key: InputKey,
    label: &str,
    value: SocketValue,
) -> bool {
    &&& 0 <= i < sockets.len()
    &&& sockets[i].key == key
    &&& sockets[i].label@ == label@
    &&& sockets[i].value == value
}

/// The sockets that a node shows, from the top, each under its own key and
/// label and with what the node's own field holds.
pub proof fn law_sockets_show_their_fields(kind: LayerKind)
    ensures
        kind is Color || kind is Noise || kind is Coordinate ==> kind.sockets().len() == 0,
        kind matches LayerKind::Transform(t) ==> kind.sockets().len() == 1 && shows_socket(
            kind.sockets(),
            0,
            InputKey::TransformSource,
            "source",
            SocketValue::LayerOpt(t.source),
        ),
        kind matches LayerKind::Mix(m) ==> {
            let s = kind.sockets();
            &&& s.len() == 3
            &&& shows_socket(s, 0, InputKey::MixA, "a", SocketValue::LayerOpt(m.a))
            &&& shows_socket(s, 1, InputKey::MixB, "b", SocketValue::LayerOpt(m.b))
            &&& shows_socket(s, 2, InputKey::MixFactor, "factor", SocketValue::Scalar(m.factor))
        },
        kind matches LayerKind::GradientMap(m) ==> {
            let s = kind.sockets();
            &&& s.len() == 2
            &&& shows_socket(s, 0, InputKey::MapValue, "value", SocketValue::LayerOpt(m.value))
            &&& shows_socket(
                s,
                1,
                InputKey::MapPalette,
                "palette",
                SocketValue::LayerOpt(m.palette),
            )
        },
        kind matches LayerKind::MinMax(m) ==> {
            let s = kind.sockets();
            &&& s.len() == 2
            &&& shows_socket(s, 0, InputKey::MinMaxA, "a", SocketValue::LayerOpt(m.a))
            &&& shows_socket(s, 1, InputKey::MinMaxB, "b", SocketValue::LayerOpt(m.b))
        },
        kind matches LayerKind::HeightToNormal(h) ==> kind.sockets().len() == 1 && shows_socket(
            kind.sockets(),
            0,
            InputKey::H2nSource,
            "source",
            SocketValue::LayerOpt(h.source),
        ),
        kind matches LayerKind::Wave(w) ==> kind.sockets().len() == 1 && shows_socket(
            kind.sockets(),
            0,
            InputKey::WaveInput,
            "input",
            SocketValue::Scalar(w.input),
        ),
        kind matches LayerKind::Warp(w) ==> {
            let s = kind.sockets();
            &&& s.len() == 2
            &&& shows_socket(s, 0, InputKey::WarpSource, "source", SocketValue::LayerOpt(w.source))
            &&& shows_socket(s, 1, InputKey::WarpBy, "by", SocketValue::LayerOpt(w.by))
        },
        kind matches LayerKind::Craters(c) ==> {
            let s = kind.sockets();
            &&& s.len() == 2
            &&& shows_socket(s, 0, InputKey::CratersUnder, "under", SocketValue::Scalar(c.under))
            &&& shows_socket(
                s,
                1,
                InputKey::CratersDensity,
                "density",
                SocketValue::Scalar(c.density),
            )
        },
        kind matches LayerKind::ColorRamp(r) ==> {
            let s = kind.sockets();
            &&& s.len() == r.stops@.len()
            &&& forall|i: int|
                0 <= i < s.len() ==> {
                    &&& (#[trigger] s[i]).key == InputKey::RampStop(i as usize)
                    &&& s[i].label@ == "stop"@
                    &&& s[i].value == SocketValue::Color(r.stops@[i].color)
                }
        },
{
}

/// The sockets of the output, from the top.
pub proof fn law_output_sockets_show_the_channels(output: Output)
    ensures
        ({
            let s = output.sockets();
            &&& s.len() == 4
            &&& shows_socket(s, 0, InputKey::OutColor, "color", SocketValue::LayerOpt(output.color))
            &&& shows_socket(
                s,
                1,
                InputKey::OutRoughness,
                "roughness",
                SocketValue::Scalar(output.roughness),
            )
            &&& shows_socket(
                s,
                2,
                InputKey::OutMetallic,
                "metallic",
                SocketValue::Scalar(output.metallic),
            )
            &&& shows_socket(
                s,
                3,
                InputKey::OutNormal,
                "normal",
                SocketValue::LayerOpt(output.normal),
            )
        }),
{
}

/// A write to a socket reaches the one under that key and no other; only a key
/// that the node does not have is refused.
pub proof fn law_writes_reach_their_own_socket(
    before: LayerKind,
    after: LayerKind,
    key: InputKey,
    target: Option<LayerId>,
    r: Result<SocketValue, SocketError>,
    i: int,
)
    requires
        wrote_socket(before.sockets(), after.sockets(), key, target, r),
        0 <= i < before.sockets().len(),
    ensures
        before.sockets()[i].key == key ==> {
            &&& r is Ok
            &&& r->Ok_0 == before.sockets()[i].value
            &&& after.sockets()[i].value.connected_to() == target
        },
        before.sockets()[i].key != key ==> after.sockets()[i] == before.sockets()[i],
        after.sockets()[i].key == before.sockets()[i].key,
{
    if let Ok(prev) = r {
        let (b, a) = (before.sockets(), after.sockets());
        let j = choose|j: int|
            0 <= j < b.len() && (#[trigger] b[j]).key == key && prev == b[j].value && a
                == with_value(b, j, wired(prev, target));
        if b[i].key == key {
            law_keys_differ(before, i, j);
            law_wired_reads_back(prev, target);
        }
    }
}

/// A constant goes into the color or scalar socket under that key, where it is
/// of the socket's sort, and into no other.
pub proof fn law_constants_reach_their_own_socket(
    before: LayerKind,
    after: LayerKind,
    key: InputKey,
    value: ConstValue,
    r: Result<(), SocketError>,
    i: int,
)
    requires
        wrote_const(before.sockets(), after.sockets(), key, value, r),
        0 <= i < before.sockets().len(),
    ensures
        before.sockets()[i].key == key ==> match (before.sockets()[i].value, value) {
            (SocketValue::Color(_), ConstValue::Color(c)) => r is Ok && after.sockets()[i].value
                == SocketValue::Color(ColorInput::Const(c)),
            (SocketValue::Scalar(_), ConstValue::Scalar(v)) => r is Ok && after.sockets()[i].value
                == SocketValue::Scalar(ScalarInput::Const(v)),
            _ => r is Err && after.sockets()[i] == before.sockets()[i],
        },
        before.sockets()[i].key != key ==> after.sockets()[i] == before.sockets()[i],
{
    if r is Ok {
        let (b, a) = (before.sockets(), after.sockets());
        let j = choose|j: int|
            0 <= j < b.len() && (#[trigger] b[j]).key == key && takes_const(b[j].value, value) && a
                == with_value(b, j, const_value(value));
        if b[i].key == key {
            law_keys_differ(before, i, j);
        }
    }
}

} // verus!
