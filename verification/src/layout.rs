//! What a shader finds where: the words of each pass's uniform by their offset,
//! and the texture at each of its bindings.
//!
//! A shader declares its uniform as a struct of 32-bit words and its textures by
//! number. The laws here speak of a finished pass in those terms alone, so that
//! each can be held against the struct that the shader declares.
use vstd::prelude::*;

use crate::color::{BlendSpace, Color};
use crate::domains::Domain;
use crate::eval::EvalCtx;
use crate::graph::Layer;
use crate::id::LayerId;
use crate::kind::{
    stop_ids, Axis, BlendMode, ColorInput, ColorRamp, ColorStop, CoordMode, Coordinate,
    CraterOutput, CraterSurface, Craters, Criterion, EdgeMode, FractalMode, GradientMap,
    HeightToNormal, LayerKind, MinMax, MinMaxMode, Mix, Noise, NoiseDims, NoiseKernel, NoiseOutput,
    NoiseRange, RadialDim, ScalarInput, Transform, Warp, WarpMode, Wave, WaveShape,
};
use crate::param::ParamValue;
use crate::passes::{
    first_reads, layer_pass, lemma_first_reads, map_words, nth, ramp_words, rects_words, refusal,
    stop_words, PassView, Slice, Source, Target, Word,
};
use crate::scalar::Scalar;
use crate::schedule::Schedule;

verus! {

/// The word at `k` holds that number.
pub open spec fn holds(u: Seq<Word>, k: int, s: Scalar) -> bool {
    u[k] == Word::Bits(s.bits)
}

/// The word at `k` holds that integer.
pub open spec fn says(u: Seq<Word>, k: int, n: int) -> bool {
    u[k] matches Word::Bits(b) && b == n
}

/// The four words at `k` hold the rectangle over which the layer behind a socket
/// was computed: its least corner, and how far it extends along u and v. Where
/// the socket reads no layer, or the layer has no rectangle, that is the unit
/// square.
pub open spec fn covers(u: Seq<Word>, k: int, rects: Map<u64, Domain>, o: Option<LayerId>) -> bool {
    if o is Some && rects.dom().contains((o->0).0) {
        let d = rects[(o->0).0];
        &&& holds(u, k, d.min@[0])
        &&& holds(u, k + 1, d.min@[1])
        &&& u[k + 2] == (Word::Span { from: d.min@[0], to: d.max@[0] })
        &&& u[k + 3] == (Word::Span { from: d.min@[1], to: d.max@[1] })
    } else {
        let (zero, one) = (Scalar { bits: 0 }, Scalar { bits: 0x3f80_0000 });
        &&& says(u, k, 0)
        &&& says(u, k + 1, 0)
        &&& u[k + 2] == (Word::Span { from: zero, to: one })
        &&& u[k + 3] == (Word::Span { from: zero, to: one })
    }
}

/// The two words at `k` hold what a scalar socket reads: its number and a 0, or
/// a 0 and a 1 where a texture takes the number's place. A parameter that is
/// bound to no number reads as 0.
pub open spec fn feeds(
    u: Seq<Word>,
    k: int,
    bound: Map<Seq<char>, ParamValue>,
    socket: ScalarInput,
) -> bool {
    match socket {
        ScalarInput::Layer(_) => says(u, k, 0) && says(u, k + 1, 1),
        ScalarInput::Const(v) => holds(u, k, v) && says(u, k + 1, 0),
        ScalarInput::Param(name) => {
            &&& says(u, k + 1, 0)
            &&& if bound.dom().contains(name@) && bound[name@] is Scalar {
                holds(u, k, bound[name@]->Scalar_0)
            } else {
                says(u, k, 0)
            }
        },
    }
}

/// The twelve words at `k` hold the rows of the map of the sample point; on a
/// plane it moves nothing.
pub open spec fn moves(u: Seq<Word>, k: int, at: Slice) -> bool {
    forall|i: int|
        0 <= i < 12 ==> #[trigger] u[k + i] == match at {
            Slice::CubeFace { map, .. } => Word::Bits(map.rows@[i].bits),
            Slice::Plane { .. } => if i == 0 || i == 5 || i == 10 {
                Word::Bits(0x3f80_0000)
            } else {
                Word::Bits(0)
            },
        }
}

/// The word at `k` holds the third coordinate: a plane's own, and that of a flat
/// bake, a half, on a face.
pub open spec fn lies_at(u: Seq<Word>, k: int, at: Slice) -> bool {
    match at {
        Slice::Plane { w } => u[k] == w,
        Slice::CubeFace { .. } => u[k] == Word::Bits(0x3f00_0000),
    }
}

/// The word at `k` tells a plane from the faces of the cube, which count from 1.
pub open spec fn faces(u: Seq<Word>, k: int, at: Slice) -> bool {
    match at {
        Slice::Plane { .. } => says(u, k, 0),
        Slice::CubeFace { face, .. } => face < u32::MAX ==> says(u, k, face + 1),
    }
}

/// The word at `k` names an axis.
pub open spec fn names_axis(u: Seq<Word>, k: int, axis: Axis) -> bool {
    says(
        u,
        k,
        match axis {
            Axis::U => 0,
            Axis::V => 1,
            Axis::W => 2,
        },
    )
}

/// The word at `k` names a blend space.
pub open spec fn names_space(u: Seq<Word>, k: int, space: BlendSpace) -> bool {
    says(
        u,
        k,
        match space {
            BlendSpace::Oklch => 0,
            BlendSpace::LinearSrgb => 1,
            BlendSpace::Hsv => 2,
        },
    )
}

/// The words from `from` up to `to` are padding.
pub open spec fn pads(u: Seq<Word>, from: int, to: int) -> bool {
    forall|k: int| from <= k < to ==> #[trigger] u[k] == Word::Bits(0)
}

/// The texture at that place of those read is the one that the socket's layer
/// was computed into, or the stand-in where the socket reads no layer.
pub open spec fn binds(p: PassView, k: int, sched: Schedule, o: Option<LayerId>) -> bool {
    p.sources[k] == match o {
        Some(id) => Source::Slot(sched.slot_of@[id.0]),
        None => Source::Missing,
    }
}

/// The layer that a scalar socket reads.
pub open spec fn read_by(socket: ScalarInput) -> Option<LayerId> {
    match socket {
        ScalarInput::Layer(id) => Some(id),
        ScalarInput::Const(_) => None,
        ScalarInput::Param(_) => None,
    }
}

/// What every layer's pass has: the shader of its kind, the layer's own slot as
/// what it writes, at binding 1, and as many textures as the shader declares,
/// from binding `first` up.
pub open spec fn shaded(
    p: PassView,
    shader: &str,
    sched: Schedule,
    layer: Layer,
    sources: nat,
    first: u32,
) -> bool {
    &&& p.pipeline.shader()@ == shader@
    &&& p.target == Target::Slot(sched.slot_of@[layer.id.0])
    &&& p.pipeline.target_binding() == Some(1u32)
    &&& p.sources.len() == sources
    &&& p.pipeline.source_count() == sources
    &&& sources > 0 ==> p.pipeline.first_source_binding() == first
}

/// The first two words of a uniform hold the size in texels.
pub open spec fn sized(u: Seq<Word>, k: int, size: (u32, u32)) -> bool {
    says(u, k, size.0 as int) && says(u, k + 1, size.1 as int)
}

/// A constant color's shader reads its four channels, then the size.
pub proof fn law_color_layout(
    layer: Layer,
    c: Color,
    ctx: EvalCtx,
    sched: Schedule,
    size: (u32, u32),
    at: Slice,
)
    requires
        layer.kind == LayerKind::Color(c),
    ensures
        ({
            let p = layer_pass(layer, ctx, sched, size, at);
            let u = p.uniform;
            &&& shaded(p, "color.wgsl", sched, layer, 0, 0)
            &&& u.len() == 8
            &&& holds(u, 0, c.l)
            &&& holds(u, 1, c.chroma)
            &&& u[2] == Word::Degrees(c.hue)
            &&& holds(u, 3, c.alpha)
            &&& sized(u, 4, size)
            &&& pads(u, 6, 8)
        }),
{
}

/// A noise's shader reads its field, the rectangle, the octaves and the map of
/// the sample point. Seeds add up modulo 2^32, and the octaves are 1 to 8.
pub proof fn law_noise_layout(
    layer: Layer,
    n: Noise,
    ctx: EvalCtx,
    sched: Schedule,
    size: (u32, u32),
    at: Slice,
)
    requires
        layer.kind == LayerKind::Noise(n),
    ensures
        ({
            let p = layer_pass(layer, ctx, sched, size, at);
            let u = p.uniform;
            &&& shaded(p, "noise.wgsl", sched, layer, 0, 0)
            &&& u.len() == 36
            &&& sized(u, 0, size)
            &&& says(u, 2, match n.dims {
                NoiseDims::D1 => 0,
                NoiseDims::D2 => 1,
                NoiseDims::D3 => 2,
            })
            &&& says(u, 3, if n.range == NoiseRange::Signed { 1 } else { 0 })
            &&& says(u, 4, if n.output == NoiseOutput::Color { 1 } else { 0 })
            &&& says(u, 5, (ctx.seed + n.seed_offset) % 0x1_0000_0000)
            &&& holds(u, 6, n.frequency)
            &&& lies_at(u, 7, at)
            &&& covers(u, 8, sched.domain_of@, Some(layer.id))
            &&& says(u, 12, n.period@[0] as int)
            &&& says(u, 13, n.period@[1] as int)
            &&& says(u, 14, n.period@[2] as int)
            &&& says(u, 15, if n.fractal.octaves == 0 {
                1
            } else if n.fractal.octaves > 8 {
                8
            } else {
                n.fractal.octaves as int
            })
            &&& holds(u, 16, n.fractal.lacunarity)
            &&& holds(u, 17, n.fractal.gain)
            &&& says(u, 18, match n.fractal.mode {
                FractalMode::Standard => 0,
                FractalMode::Turbulence => 1,
                FractalMode::Ridged => 2,
            })
            &&& says(u, 19, if n.fractal.normalize { 1 } else { 0 })
            &&& says(u, 20, if n.kernel == NoiseKernel::Value { 1 } else { 0 })
            &&& faces(u, 21, at)
            &&& pads(u, 22, 24)
            &&& moves(u, 24, at)
        }),
{
    let u = layer_pass(layer, ctx, sched, size, at).uniform;
    lemma_map_tail(u, at, 24);
}

/// A coordinate's shader reads its axis, the face, the rectangle, the third
/// coordinate and the map of the sample point.
pub proof fn law_coordinate_layout(
    layer: Layer,
    c: Coordinate,
    ctx: EvalCtx,
    sched: Schedule,
    size: (u32, u32),
    at: Slice,
)
    requires
        layer.kind == LayerKind::Coordinate(c),
    ensures
        ({
            let p = layer_pass(layer, ctx, sched, size, at);
            let u = p.uniform;
            &&& shaded(p, "coordinate.wgsl", sched, layer, 0, 0)
            &&& u.len() == 24
            &&& sized(u, 0, size)
            &&& names_axis(u, 2, c.axis)
            &&& faces(u, 3, at)
            &&& covers(u, 4, sched.domain_of@, Some(layer.id))
            &&& lies_at(u, 8, at)
            &&& pads(u, 9, 12)
            &&& moves(u, 12, at)
        }),
{
    let u = layer_pass(layer, ctx, sched, size, at).uniform;
    lemma_map_tail(u, at, 12);
}

/// A mix's shader reads its mode, its space, the factor, and the rectangles of the
/// layer and of what is at each of its three bindings: `a`, `b`, and the layer
/// that is the factor. A factor that is a number leaves `a` at the third, where it
/// is not read.
pub proof fn law_mix_layout(
    layer: Layer,
    m: Mix,
    ctx: EvalCtx,
    sched: Schedule,
    size: (u32, u32),
    at: Slice,
)
    requires
        layer.kind == LayerKind::Mix(m),
    ensures
        ({
            let p = layer_pass(layer, ctx, sched, size, at);
            let u = p.uniform;
            let rects = sched.domain_of@;
            &&& shaded(p, "mix.wgsl", sched, layer, 3, 2)
            &&& u.len() == 24
            &&& sized(u, 0, size)
            &&& says(u, 2, match m.mode {
                BlendMode::Add => 0,
                BlendMode::Subtract => 1,
                BlendMode::Multiply => 2,
                BlendMode::Blend => 3,
            })
            &&& names_space(u, 3, m.space)
            &&& feeds(u, 4, ctx.params@, m.factor)
            &&& pads(u, 6, 8)
            &&& covers(u, 8, rects, Some(layer.id))
            &&& binds(p, 0, sched, m.a)
            &&& covers(u, 12, rects, m.a)
            &&& binds(p, 1, sched, m.b)
            &&& covers(u, 16, rects, m.b)
            &&& read_by(m.factor) is Some ==> binds(p, 2, sched, read_by(m.factor)) && covers(
                u,
                20,
                rects,
                read_by(m.factor),
            )
            &&& read_by(m.factor) is None ==> p.sources[2] == p.sources[0] && covers(u, 20, rects, m.a)
        }),
{
}

/// A gradient map's shader finds the value at its first binding and the palette
/// at its second, and the rectangle of each in that order.
pub proof fn law_gradient_map_layout(
    layer: Layer,
    m: GradientMap,
    ctx: EvalCtx,
    sched: Schedule,
    size: (u32, u32),
    at: Slice,
)
    requires
        layer.kind == LayerKind::GradientMap(m),
    ensures
        ({
            let p = layer_pass(layer, ctx, sched, size, at);
            let u = p.uniform;
            let rects = sched.domain_of@;
            &&& shaded(p, "map.wgsl", sched, layer, 2, 2)
            &&& u.len() == 16
            &&& sized(u, 0, size)
            &&& pads(u, 2, 4)
            &&& covers(u, 4, rects, Some(layer.id))
            &&& binds(p, 0, sched, m.value)
            &&& covers(u, 8, rects, m.value)
            &&& binds(p, 1, sched, m.palette)
            &&& covers(u, 12, rects, m.palette)
        }),
{
}

/// The shader of a choice between two inputs reads which wins and by what, and
/// finds `a` at its first binding and `b` at its second.
pub proof fn law_min_max_layout(
    layer: Layer,
    m: MinMax,
    ctx: EvalCtx,
    sched: Schedule,
    size: (u32, u32),
    at: Slice,
)
    requires
        layer.kind == LayerKind::MinMax(m),
    ensures
        ({
            let p = layer_pass(layer, ctx, sched, size, at);
            let u = p.uniform;
            let rects = sched.domain_of@;
            &&& shaded(p, "min_max.wgsl", sched, layer, 2, 2)
            &&& u.len() == 16
            &&& sized(u, 0, size)
            &&& says(u, 2, if m.mode == MinMaxMode::Max { 1 } else { 0 })
            &&& says(u, 3, match m.criterion {
                Criterion::Red => 0,
                Criterion::Green => 1,
                Criterion::Blue => 2,
                Criterion::Saturation => 3,
                Criterion::Value => 4,
                Criterion::Luma => 5,
                Criterion::Alpha => 6,
                Criterion::Chroma => 7,
            })
            &&& covers(u, 4, rects, Some(layer.id))
            &&& binds(p, 0, sched, m.a)
            &&& covers(u, 8, rects, m.a)
            &&& binds(p, 1, sched, m.b)
            &&& covers(u, 12, rects, m.b)
        }),
{
}

/// A normal map's shader reads its strength and the height.
pub proof fn law_height_to_normal_layout(
    layer: Layer,
    h: HeightToNormal,
    ctx: EvalCtx,
    sched: Schedule,
    size: (u32, u32),
    at: Slice,
)
    requires
        layer.kind == LayerKind::HeightToNormal(h),
    ensures
        ({
            let p = layer_pass(layer, ctx, sched, size, at);
            let u = p.uniform;
            let rects = sched.domain_of@;
            &&& shaded(p, "height_to_normal.wgsl", sched, layer, 1, 2)
            &&& u.len() == 12
            &&& sized(u, 0, size)
            &&& holds(u, 2, h.strength)
            &&& pads(u, 3, 4)
            &&& covers(u, 4, rects, Some(layer.id))
            &&& binds(p, 0, sched, h.source)
            &&& covers(u, 8, rects, h.source)
        }),
{
}

/// A warp's shader reads its mode and how far it displaces along each axis, and
/// finds what is displaced at its first binding and what displaces it at its
/// second.
pub proof fn law_warp_layout(
    layer: Layer,
    w: Warp,
    ctx: EvalCtx,
    sched: Schedule,
    size: (u32, u32),
    at: Slice,
)
    requires
        layer.kind == LayerKind::Warp(w),
    ensures
        ({
            let p = layer_pass(layer, ctx, sched, size, at);
            let u = p.uniform;
            let rects = sched.domain_of@;
            &&& shaded(p, "warp.wgsl", sched, layer, 2, 2)
            &&& u.len() == 20
            &&& sized(u, 0, size)
            &&& says(u, 2, if w.mode == WarpMode::Vector { 1 } else { 0 })
            &&& pads(u, 3, 4)
            &&& holds(u, 4, w.amount@[0])
            &&& holds(u, 5, w.amount@[1])
            &&& holds(u, 6, w.amount@[2])
            &&& pads(u, 7, 8)
            &&& covers(u, 8, rects, Some(layer.id))
            &&& binds(p, 0, sched, w.source)
            &&& covers(u, 12, rects, w.source)
            &&& binds(p, 1, sched, w.by)
            &&& covers(u, 16, rects, w.by)
        }),
{
}

/// A wave's shader reads its shape, range, frequency and phase, and its input.
pub proof fn law_wave_layout(
    layer: Layer,
    w: Wave,
    ctx: EvalCtx,
    sched: Schedule,
    size: (u32, u32),
    at: Slice,
)
    requires
        layer.kind == LayerKind::Wave(w),
    ensures
        ({
            let p = layer_pass(layer, ctx, sched, size, at);
            let u = p.uniform;
            let rects = sched.domain_of@;
            &&& shaded(p, "wave.wgsl", sched, layer, 1, 2)
            &&& u.len() == 16
            &&& sized(u, 0, size)
            &&& says(u, 2, match w.shape {
                WaveShape::Sine => 0,
                WaveShape::Triangle => 1,
                WaveShape::Square => 2,
                WaveShape::Sawtooth => 3,
            })
            &&& says(u, 3, if w.range == NoiseRange::Signed { 1 } else { 0 })
            &&& holds(u, 4, w.frequency)
            &&& holds(u, 5, w.phase)
            &&& feeds(u, 6, ctx.params@, w.input)
            &&& covers(u, 8, rects, Some(layer.id))
            &&& binds(p, 0, sched, read_by(w.input))
            &&& covers(u, 12, rects, read_by(w.input))
        }),
{
}

/// The shader of a scatter of craters reads its field, where and for what it is
/// sampled, what lies under it and its density, and the map of the sample point.
pub proof fn law_craters_layout(
    layer: Layer,
    c: Craters,
    ctx: EvalCtx,
    sched: Schedule,
    size: (u32, u32),
    at: Slice,
)
    requires
        layer.kind == LayerKind::Craters(c),
    ensures
        ({
            let p = layer_pass(layer, ctx, sched, size, at);
            let u = p.uniform;
            let rects = sched.domain_of@;
            &&& shaded(p, "craters.wgsl", sched, layer, 2, 2)
            &&& u.len() == 44
            &&& sized(u, 0, size)
            &&& says(u, 2, (ctx.seed + c.seed_offset) % 0x1_0000_0000)
            &&& says(u, 3, if c.classes == 0 {
                1
            } else if c.classes > 6 {
                6
            } else {
                c.classes as int
            })
            &&& holds(u, 4, c.frequency)
            &&& holds(u, 5, c.gain)
            &&& holds(u, 6, c.depth)
            &&& holds(u, 7, c.age)
            &&& holds(u, 8, c.erase)
            &&& holds(u, 9, c.peak)
            &&& holds(u, 10, c.rays)
            &&& holds(u, 11, c.relief)
            &&& says(u, 12, if c.surface == CraterSurface::Sphere { 1 } else { 0 })
            &&& says(u, 13, if c.output == CraterOutput::Ejecta { 1 } else { 0 })
            &&& lies_at(u, 14, at)
            &&& faces(u, 15, at)
            &&& feeds(u, 16, ctx.params@, c.under)
            &&& feeds(u, 18, ctx.params@, c.density)
            &&& covers(u, 20, rects, Some(layer.id))
            &&& binds(p, 0, sched, read_by(c.under))
            &&& covers(u, 24, rects, read_by(c.under))
            &&& binds(p, 1, sched, read_by(c.density))
            &&& covers(u, 28, rects, read_by(c.density))
            &&& moves(u, 32, at)
        }),
{
    let u = layer_pass(layer, ctx, sched, size, at).uniform;
    lemma_map_tail(u, at, 32);
}

/// On a plane a transform's shader reads how it turns, shifts, scales and
/// rearranges the sample point, and what it does past an edge. On a face the
/// points of its source were moved already, so that it copies: it turns and
/// shifts nothing, scales by 1 and rearranges nothing.
pub proof fn law_transform_layout(
    layer: Layer,
    t: Transform,
    ctx: EvalCtx,
    sched: Schedule,
    size: (u32, u32),
    at: Slice,
)
    requires
        layer.kind == LayerKind::Transform(t),
    ensures
        ({
            let p = layer_pass(layer, ctx, sched, size, at);
            let u = p.uniform;
            let rects = sched.domain_of@;
            &&& shaded(p, "transform.wgsl", sched, layer, 1, 2)
            &&& u.len() == 28
            &&& sized(u, 0, size)
            &&& pads(u, 7, 8)
            &&& pads(u, 11, 12)
            &&& pads(u, 15, 16)
            &&& lies_at(u, 18, at)
            &&& covers(u, 20, rects, Some(layer.id))
            &&& binds(p, 0, sched, t.source)
            &&& covers(u, 24, rects, t.source)
            &&& at is Plane ==> {
                &&& holds(u, 3, t.rotate_uv)
                &&& forall|k: int| 0 <= k < 3 ==> #[trigger] holds(u, 4 + k, t.offset@[k])
                &&& forall|k: int| 0 <= k < 3 ==> #[trigger] holds(u, 8 + k, t.scale@[k])
                &&& says(u, 19, if t.edge_mode == EdgeMode::Extend { 1 } else { 0 })
                &&& match t.coord_mode {
                    CoordMode::Passthrough => says(u, 2, 0) && pads(u, 12, 18),
                    CoordMode::Permute(axes) => {
                        &&& says(u, 2, 1)
                        &&& names_axis(u, 12, axes@[0])
                        &&& names_axis(u, 13, axes@[1])
                        &&& names_axis(u, 14, axes@[2])
                        &&& pads(u, 16, 18)
                    },
                    CoordMode::Radial { dim, into } => {
                        &&& says(u, 2, 2)
                        &&& pads(u, 12, 15)
                        &&& says(u, 16, if dim == RadialDim::D3 { 1 } else { 0 })
                        &&& names_axis(u, 17, into)
                    },
                }
            }
            &&& at is CubeFace ==> {
                &&& pads(u, 2, 8)
                &&& forall|k: int| 8 <= k < 11 ==> #[trigger] u[k] == Word::Bits(0x3f80_0000)
                &&& pads(u, 12, 18)
                &&& says(u, 19, 0)
            }
        }),
{
}

/// A ramp's shader reads how many stops there are, the space between them and,
/// for each of eight bindings, the rectangle of what is there.
///
/// A stop takes eight words: a color, its place, whether a texture takes the
/// color's place, and which. Behind the number that it names stand the texture of
/// the layer that it reads, and that layer's rectangle. A binding that no stop
/// names holds the texture of one texel.
pub proof fn law_ramp_layout(
    layer: Layer,
    r: ColorRamp,
    ctx: EvalCtx,
    sched: Schedule,
    size: (u32, u32),
    at: Slice,
)
    requires
        layer.kind == LayerKind::ColorRamp(r),
        refusal(layer.kind) is None,
    ensures
        ({
            let p = layer_pass(layer, ctx, sched, size, at);
            let u = p.uniform;
            let rects = sched.domain_of@;
            &&& shaded(p, "color_ramp.wgsl", sched, layer, 8, 3)
            &&& p.pipeline.stops_binding() == Some(2u32)
            &&& u.len() == 40
            &&& sized(u, 0, size)
            &&& says(u, 2, r.stops@.len() as int)
            &&& names_space(u, 3, r.space)
            &&& covers(u, 4, rects, Some(layer.id))
            &&& p.stops.len() == 8 * r.stops@.len()
            &&& forall|k: int|
                0 <= k < r.stops@.len() ==> #[trigger] shows_stop(
                    p,
                    k,
                    r.stops@[k].t,
                    r.stops@[k].color,
                    ctx,
                    sched,
                )
            &&& forall|i: int|
                0 <= i < 8 && #[trigger] p.sources[i] != Source::Dummy ==> exists|k: int|
                    0 <= k < r.stops@.len() && (#[trigger] r.stops@[k]).color is Layer && says(
                        p.stops,
                        8 * k + 6,
                        i,
                    )
        }),
{
    let p = layer_pass(layer, ctx, sched, size, at);
    let u = p.uniform;
    let rects = sched.domain_of@;
    let ids = stop_ids(r.stops@);
    let inputs = first_reads(ids);
    lemma_first_reads(ids);
    lemma_rect_row(u, inputs, rects, 8);
    lemma_stop_row_len(r.stops@, inputs, ctx.params@);
    assert(covers(u, 4, rects, Some(layer.id)));
    assert forall|k: int| 0 <= k < r.stops@.len() implies #[trigger] shows_stop(
        p,
        k,
        r.stops@[k].t,
        r.stops@[k].color,
        ctx,
        sched,
    ) by {
        lemma_stop_row(r.stops@, inputs, ctx.params@, k);
        let row = stop_words(r.stops@[k], inputs, ctx.params@);
        assert(p.stops[8 * k + 0] == row[0]);
        assert(p.stops[8 * k + 1] == row[1]);
        assert(p.stops[8 * k + 2] == row[2]);
        assert(p.stops[8 * k + 3] == row[3]);
        assert(p.stops[8 * k + 4] == row[4]);
        assert(p.stops[8 * k + 5] == row[5]);
        assert(p.stops[8 * k + 6] == row[6]);
        assert(p.stops[8 * k + 7] == row[7]);
        if let ColorInput::Layer(id) = r.stops@[k].color {
            lemma_stop_id(r.stops@, k);
            let place = inputs.index_of(id);
            assert(inputs.contains(id));
            assert(inputs[place] == id);
            assert(nth(inputs, place) == Some(id));
            assert(covers(u, 8 + 4 * place, rects, nth(inputs, place)));
        }
    }
    assert forall|i: int| 0 <= i < 8 && #[trigger] p.sources[i] != Source::Dummy implies exists|
        k: int,
    |
        0 <= k < r.stops@.len() && (#[trigger] r.stops@[k]).color is Layer && says(
            p.stops,
            8 * k + 6,
            i,
        ) by {
        let id = inputs[i];
        assert(inputs.contains(id));
        let k = lemma_id_has_stop(r.stops@, id);
        lemma_stop_row(r.stops@, inputs, ctx.params@, k);
        assert(inputs.index_of(id) == i);
        assert(r.stops@[k].color is Layer);
    }
}

/// The eight words of stop `k`.
pub open spec fn shows_stop(
    p: PassView,
    k: int,
    t: Scalar,
    color: ColorInput,
    ctx: EvalCtx,
    sched: Schedule,
) -> bool {
    let s = p.stops;
    let b = 8 * k;
    &&& holds(s, b + 4, t)
    &&& says(s, b + 7, 0)
    &&& match color {
        ColorInput::Const(c) => says(s, b + 5, 0) && says(s, b + 6, 0) && shows_color(s, b, c),
        ColorInput::Param(name) => {
            &&& says(s, b + 5, 0)
            &&& says(s, b + 6, 0)
            &&& if ctx.params@.dom().contains(name@) && ctx.params@[name@] is Color {
                shows_color(s, b, ctx.params@[name@]->Color_0)
            } else {
                says(s, b, 0) && says(s, b + 1, 0) && s[b + 2] == Word::Degrees(Scalar { bits: 0 })
                    && says(s, b + 3, 0x3f80_0000)
            }
        },
        ColorInput::Layer(id) => {
            &&& pads(s, b, b + 4)
            &&& says(s, b + 5, 1)
            &&& s[b + 6] matches Word::Bits(i) && {
                &&& i < 8
                &&& p.sources[i as int] == Source::Slot(sched.slot_of@[id.0])
                &&& covers(p.uniform, 8 + 4 * i, sched.domain_of@, Some(id))
            }
        },
    }
}

/// The four words at `k` hold a color.
pub open spec fn shows_color(s: Seq<Word>, k: int, c: Color) -> bool {
    &&& holds(s, k, c.l)
    &&& holds(s, k + 1, c.chroma)
    &&& s[k + 2] == Word::Degrees(c.hue)
    &&& holds(s, k + 3, c.alpha)
}

proof fn lemma_rect_row_at(inputs: Seq<LayerId>, rects: Map<u64, Domain>, n: nat, i: int)
    requires
        0 <= i < n,
    ensures
        rects_words(inputs, rects, n).len() == 4 * n,
        covers(rects_words(inputs, rects, n), 4 * i, rects, nth(inputs, i)),
    decreases n,
{
    let before = rects_words(inputs, rects, (n - 1) as nat);
    let all = rects_words(inputs, rects, n);
    if n > 1 {
        lemma_rect_row_at(inputs, rects, (n - 1) as nat, if i < n - 1 { i } else { 0 });
    }
    assert(before.len() == 4 * (n - 1));
    if i < n - 1 {
        assert forall|j: int| 4 * i <= j < 4 * i + 4 implies #[trigger] all[j] == before[j] by {}
        assert(all[4 * i] == before[4 * i]);
        assert(all[4 * i + 1] == before[4 * i + 1]);
        assert(all[4 * i + 2] == before[4 * i + 2]);
        assert(all[4 * i + 3] == before[4 * i + 3]);
    }
}

proof fn lemma_rect_row(u: Seq<Word>, inputs: Seq<LayerId>, rects: Map<u64, Domain>, n: nat)
    requires
        n > 0,
        exists|head: Seq<Word>|
            head.len() == 8 && u == #[trigger] (head + rects_words(inputs, rects, n)),
    ensures
        u.len() == 8 + 4 * n,
        forall|i: int| 0 <= i < n ==> #[trigger] covers(u, 8 + 4 * i, rects, nth(inputs, i)),
{
    let tail = rects_words(inputs, rects, n);
    let head = choose|head: Seq<Word>|
        head.len() == 8 && u == #[trigger] (head + rects_words(inputs, rects, n));
    lemma_rect_row_at(inputs, rects, n, 0);
    assert forall|i: int| 0 <= i < n implies #[trigger] covers(
        u,
        8 + 4 * i,
        rects,
        nth(inputs, i),
    ) by {
        lemma_rect_row_at(inputs, rects, n, i);
        assert(u[8 + 4 * i] == tail[4 * i]);
        assert(u[8 + 4 * i + 1] == tail[4 * i + 1]);
        assert(u[8 + 4 * i + 2] == tail[4 * i + 2]);
        assert(u[8 + 4 * i + 3] == tail[4 * i + 3]);
    }
}

proof fn lemma_stop_row_len(
    stops: Seq<ColorStop>,
    inputs: Seq<LayerId>,
    params: Map<Seq<char>, ParamValue>,
)
    ensures
        ramp_words(stops, inputs, params).len() == 8 * stops.len(),
    decreases stops.len(),
{
    if stops.len() > 0 {
        lemma_stop_row_len(stops.drop_last(), inputs, params);
    }
}

proof fn lemma_stop_row(
    stops: Seq<ColorStop>,
    inputs: Seq<LayerId>,
    params: Map<Seq<char>, ParamValue>,
    k: int,
)
    requires
        0 <= k < stops.len(),
    ensures
        forall|j: int|
            0 <= j < 8 ==> #[trigger] ramp_words(stops, inputs, params)[8 * k + j] == stop_words(
                stops[k],
                inputs,
                params,
            )[j],
    decreases stops.len(),
{
    let rest = stops.drop_last();
    lemma_stop_row_len(rest, inputs, params);
    let all = ramp_words(stops, inputs, params);
    let before = ramp_words(rest, inputs, params);
    if k < stops.len() - 1 {
        lemma_stop_row(rest, inputs, params, k);
        assert forall|j: int| 0 <= j < 8 implies #[trigger] all[8 * k + j] == stop_words(
            stops[k],
            inputs,
            params,
        )[j] by {
            assert(all[8 * k + j] == before[8 * k + j]);
        }
    }
}

proof fn lemma_stop_id(stops: Seq<ColorStop>, k: int)
    requires
        0 <= k < stops.len(),
        stops[k].color is Layer,
    ensures
        stop_ids(stops).contains(stops[k].color->Layer_0),
    decreases stops.len(),
{
    let all = stop_ids(stops);
    let id = stops[k].color->Layer_0;
    if k == stops.len() - 1 {
        assert(all.last() == id);
        assert(all[all.len() - 1] == id);
    } else {
        lemma_stop_id(stops.drop_last(), k);
        let before = stop_ids(stops.drop_last());
        let i = before.index_of(id);
        assert(all[i] == id);
    }
}

proof fn lemma_id_has_stop(stops: Seq<ColorStop>, id: LayerId) -> (k: int)
    requires
        stop_ids(stops).contains(id),
    ensures
        0 <= k < stops.len(),
        stops[k].color == ColorInput::Layer(id),
    decreases stops.len(),
{
    let all = stop_ids(stops);
    let i = all.index_of(id);
    let last = stops[stops.len() - 1];
    if last.color == ColorInput::Layer(id) {
        stops.len() - 1
    } else {
        let before = stop_ids(stops.drop_last());
        assert(before.contains(id)) by {
            assert(i < before.len());
            assert(before[i] == id);
        }
        lemma_id_has_stop(stops.drop_last(), id)
    }
}

/// The words of a map of the sample point, wherever they end a uniform.
proof fn lemma_map_tail(u: Seq<Word>, at: Slice, k: int)
    requires
        0 <= k,
        exists|head: Seq<Word>|
            head.len() == k && u == #[trigger] (head + map_words(at.rows())),
    ensures
        u.len() == k + 12,
        moves(u, k, at),
{
    let head = choose|head: Seq<Word>|
        head.len() == k && u == #[trigger] (head + map_words(at.rows()));
    let tail = map_words(at.rows());
    assert(tail.len() == 12);
    assert forall|i: int| 0 <= i < 12 implies #[trigger] u[k + i] == tail[i] by {
        assert((head + tail)[k + i] == tail[i]);
    }
}

} // verus!
