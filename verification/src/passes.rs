//! What each compute pass is told.
//!
//! A pass names its pipeline, the texture it writes, the textures it reads and
//! the words of its uniform. Where a word takes arithmetic on numbers (the
//! extent of a rectangle, say) the word says what to compute, and the caller
//! computes it.
use vstd::prelude::*;

use crate::color::{BlendSpace, Color};
use crate::crater::clamp_classes;
use crate::domains::{unit_corners, Domain};
use crate::eval::{color_read, scalar_read, EvalCtx};
use crate::graph::Layer;
use crate::id::LayerId;
use crate::kind::{
    opt_ids, stop_ids, Axis, BlendMode, ColorInput, ColorRamp, ColorStop, CoordMode, Coordinate,
    CraterOutput, CraterSurface, Craters, Criterion, EdgeMode, FractalMode, GradientMap,
    HeightToNormal, LayerKind, MinMax, MinMaxMode, Mix, Noise, NoiseDims, NoiseKernel, NoiseOutput,
    NoiseRange, RadialDim, ScalarInput, Transform, Warp, WarpMode, Wave, WaveShape,
};
use crate::noise::clamp_octaves;
use crate::param::ParamValue;
use crate::placement::{identity_rows, BakeError, PointMap};
use crate::scalar::{Scalar, HALF_BITS};
use crate::schedule::Schedule;

verus! {

/// The most stops that a ramp's pass takes.
pub const MAX_RAMP_STOPS: usize = 16;

/// The most different layers that a ramp's stops may read.
pub const MAX_RAMP_INPUTS: usize = 8;

/// One 32-bit word of a uniform.
#[derive(Clone, Copy, Debug, PartialEq)]
pub enum Word {
    /// An integer, or the bits of a number.
    Bits(u32),
    /// The number `to - from`.
    Span { from: Scalar, to: Scalar },
    /// The angle, in degrees, brought into `(-180, 180]`.
    Degrees(Scalar),
    /// The center of slice `z` of `depth`: `(z + 0.5) / depth`.
    SliceCenter { z: u32, depth: u32 },
    /// The number clamped to `[0, 1]` and encoded as an sRGB component.
    Srgb(Scalar),
}

/// A shader and its layout.
#[derive(Clone, Copy, Debug, PartialEq, Eq, Structural, Hash)]
pub enum Pipeline {
    Color,
    Noise,
    Coordinate,
    Transform,
    Mix,
    GradientMap,
    MinMax,
    HeightToNormal,
    Warp,
    Wave,
    ColorRamp,
    Craters,
    /// Fills the texture that stands in for an unconnected input.
    Missing,
    /// Encodes a layer into 8-bit sRGB.
    Pack,
    /// Fills an 8-bit texture with one color.
    Solid,
    /// Encodes a layer's scalar. A render pass; the others are dispatches.
    PackScalar,
}

impl Pipeline {
    /// The file that holds the shader.
    #[verifier::allow_in_spec]
    pub fn shader(self) -> &'static str
        returns
            (match self {
                Pipeline::Color => "color.wgsl",
                Pipeline::Noise => "noise.wgsl",
                Pipeline::Coordinate => "coordinate.wgsl",
                Pipeline::Transform => "transform.wgsl",
                Pipeline::Mix => "mix.wgsl",
                Pipeline::GradientMap => "map.wgsl",
                Pipeline::MinMax => "min_max.wgsl",
                Pipeline::HeightToNormal => "height_to_normal.wgsl",
                Pipeline::Warp => "warp.wgsl",
                Pipeline::Wave => "wave.wgsl",
                Pipeline::ColorRamp => "color_ramp.wgsl",
                Pipeline::Craters => "craters.wgsl",
                Pipeline::Missing => "missing.wgsl",
                Pipeline::Pack => "pack_srgb8.wgsl",
                Pipeline::Solid => "solid.wgsl",
                Pipeline::PackScalar => "pack_scalar.wgsl",
            }),
    {
        match self {
            Pipeline::Color => "color.wgsl",
            Pipeline::Noise => "noise.wgsl",
            Pipeline::Coordinate => "coordinate.wgsl",
            Pipeline::Transform => "transform.wgsl",
            Pipeline::Mix => "mix.wgsl",
            Pipeline::GradientMap => "map.wgsl",
            Pipeline::MinMax => "min_max.wgsl",
            Pipeline::HeightToNormal => "height_to_normal.wgsl",
            Pipeline::Warp => "warp.wgsl",
            Pipeline::Wave => "wave.wgsl",
            Pipeline::ColorRamp => "color_ramp.wgsl",
            Pipeline::Craters => "craters.wgsl",
            Pipeline::Missing => "missing.wgsl",
            Pipeline::Pack => "pack_srgb8.wgsl",
            Pipeline::Solid => "solid.wgsl",
            Pipeline::PackScalar => "pack_scalar.wgsl",
        }
    }

    /// How many textures its layout reads.
    #[verifier::allow_in_spec]
    pub fn source_count(self) -> usize
        returns
            (match self {
                Pipeline::Color
                | Pipeline::Noise
                | Pipeline::Coordinate
                | Pipeline::Missing
                | Pipeline::Solid => 0usize,
                Pipeline::Transform
                | Pipeline::HeightToNormal
                | Pipeline::Wave
                | Pipeline::Pack
                | Pipeline::PackScalar => 1usize,
                Pipeline::GradientMap
                | Pipeline::MinMax
                | Pipeline::Warp
                | Pipeline::Craters => 2usize,
                Pipeline::Mix => 3usize,
                Pipeline::ColorRamp => MAX_RAMP_INPUTS,
            }),
    {
        match self {
            Pipeline::Color
            | Pipeline::Noise
            | Pipeline::Coordinate
            | Pipeline::Missing
            | Pipeline::Solid => 0,
            Pipeline::Transform
            | Pipeline::HeightToNormal
            | Pipeline::Wave
            | Pipeline::Pack
            | Pipeline::PackScalar => 1,
            Pipeline::GradientMap | Pipeline::MinMax | Pipeline::Warp | Pipeline::Craters => 2,
            Pipeline::Mix => 3,
            Pipeline::ColorRamp => MAX_RAMP_INPUTS,
        }
    }

    /// Where its layout binds the texture that it writes. The uniform is at 0. A
    /// render pass binds none.
    #[verifier::allow_in_spec]
    pub fn target_binding(self) -> Option<u32>
        returns
            (match self {
                Pipeline::PackScalar => None::<u32>,
                Pipeline::Pack => Some(2u32),
                _ => Some(1u32),
            }),
    {
        match self {
            Pipeline::PackScalar => None,
            Pipeline::Pack => Some(2),
            _ => Some(1),
        }
    }

    /// Where a ramp's layout binds the stops; no other has any.
    #[verifier::allow_in_spec]
    pub fn stops_binding(self) -> Option<u32>
        returns
            (match self {
                Pipeline::ColorRamp => Some(2u32),
                _ => None::<u32>,
            }),
    {
        match self {
            Pipeline::ColorRamp => Some(2),
            _ => None,
        }
    }

    /// Where its layout binds the first texture that it reads; the others follow.
    #[verifier::allow_in_spec]
    pub fn first_source_binding(self) -> u32
        returns
            (match self {
                Pipeline::Pack | Pipeline::PackScalar => 1u32,
                Pipeline::ColorRamp => 3u32,
                _ => 2u32,
            }),
    {
        match self {
            Pipeline::Pack | Pipeline::PackScalar => 1,
            Pipeline::ColorRamp => 3,
            _ => 2,
        }
    }
}

/// A channel of the output.
#[derive(Clone, Copy, Debug, PartialEq, Eq, Structural, Hash)]
pub enum OutputChannel {
    Color,
    Roughness,
    Metallic,
    Normal,
}

/// A texture that a pass reads.
#[derive(Clone, Copy, Debug, PartialEq, Eq, Structural)]
pub enum Source {
    /// A slot of the pool.
    Slot(u32),
    /// The texture that stands in for an unconnected input.
    Missing,
    /// A texture of one texel, bound where a pass reads nothing, so that the
    /// binding never aliases what the pass writes.
    Dummy,
}

/// The texture that a pass writes.
#[derive(Clone, Copy, Debug, PartialEq, Eq, Structural)]
pub enum Target {
    Slot(u32),
    Missing,
    Channel(OutputChannel),
    /// The thumbnail of a layer.
    Preview(LayerId),
    /// The single-channel texture of a scalar bake.
    Scalar,
    /// The single-channel texture of a volume's height.
    Height,
}

/// One pass.
#[derive(Clone, Debug)]
pub struct Pass {
    pub pipeline: Pipeline,
    pub target: Target,
    pub sources: Vec<Source>,
    pub uniform: Vec<Word>,
    /// The stops of a ramp, eight words each.
    pub stops: Vec<Word>,
}

/// A pass by its contents.
pub struct PassView {
    pub pipeline: Pipeline,
    pub target: Target,
    pub sources: Seq<Source>,
    pub uniform: Seq<Word>,
    pub stops: Seq<Word>,
}

impl View for Pass {
    type V = PassView;

    open spec fn view(&self) -> PassView {
        PassView {
            pipeline: self.pipeline,
            target: self.target,
            sources: self.sources@,
            uniform: self.uniform@,
            stops: self.stops@,
        }
    }
}

/// Where one layer's texels lie.
#[derive(Clone, Copy, Debug)]
pub enum Slice {
    /// At that third coordinate.
    Plane { w: Word },
    /// On a face of the cube, at points moved by the map.
    CubeFace { face: u32, map: PointMap },
}

/// The third coordinate of a flat bake.
#[verifier::allow_in_spec]
pub fn flat_w() -> Word
    returns
        Word::Bits(HALF_BITS),
{
    Word::Bits(HALF_BITS)
}

impl Slice {
    /// The third coordinate; a face has that of a flat bake.
    #[verifier::allow_in_spec]
    pub fn w(self) -> Word
        returns
            (match self {
                Slice::Plane { w } => w,
                Slice::CubeFace { .. } => flat_w(),
            }),
    {
        match self {
            Slice::Plane { w } => w,
            Slice::CubeFace { .. } => flat_w(),
        }
    }

    /// The rows of the map of the sample point.
    pub open spec fn rows(self) -> Seq<Scalar> {
        match self {
            Slice::Plane { .. } => identity_rows(),
            Slice::CubeFace { map, .. } => map.rows@,
        }
    }

    /// The map of the sample point.
    pub fn point_map(self) -> (r: PointMap)
        ensures
            r.rows@ == self.rows(),
    {
        match self {
            Slice::Plane { .. } => PointMap::identity(),
            Slice::CubeFace { map, .. } => map,
        }
    }

    /// 0 for a plane, one more than its number for a face.
    pub open spec fn code(self) -> int {
        match self {
            Slice::Plane { .. } => 0,
            Slice::CubeFace { face, .. } => face + 1,
        }
    }

    /// 0 for a plane, one more than its number for a face.
    pub fn face_code(self) -> (r: u32)
        requires
            self.code() <= u32::MAX,
        ensures
            r == self.code(),
    {
        match self {
            Slice::Plane { .. } => 0,
            Slice::CubeFace { face, .. } => face + 1,
        }
    }
}

/// The number of a blend space.
#[verifier::allow_in_spec]
pub fn blend_space_code(b: BlendSpace) -> u32
    returns
        (match b {
            BlendSpace::Oklch => 0u32,
            BlendSpace::LinearSrgb => 1u32,
            BlendSpace::Hsv => 2u32,
        }),
{
    match b {
        BlendSpace::Oklch => 0,
        BlendSpace::LinearSrgb => 1,
        BlendSpace::Hsv => 2,
    }
}

/// The number of an axis.
#[verifier::allow_in_spec]
pub fn axis_code(a: Axis) -> u32
    returns
        (match a {
            Axis::U => 0u32,
            Axis::V => 1u32,
            Axis::W => 2u32,
        }),
{
    match a {
        Axis::U => 0,
        Axis::V => 1,
        Axis::W => 2,
    }
}

/// The number of a noise's dimensions.
#[verifier::allow_in_spec]
pub fn dims_code(d: NoiseDims) -> u32
    returns
        (match d {
            NoiseDims::D1 => 0u32,
            NoiseDims::D2 => 1u32,
            NoiseDims::D3 => 2u32,
        }),
{
    match d {
        NoiseDims::D1 => 0,
        NoiseDims::D2 => 1,
        NoiseDims::D3 => 2,
    }
}

/// The number of a range.
#[verifier::allow_in_spec]
pub fn range_code(r: NoiseRange) -> u32
    returns
        (match r {
            NoiseRange::Unsigned => 0u32,
            NoiseRange::Signed => 1u32,
        }),
{
    match r {
        NoiseRange::Unsigned => 0,
        NoiseRange::Signed => 1,
    }
}

/// The number of a noise's output.
#[verifier::allow_in_spec]
pub fn noise_output_code(o: NoiseOutput) -> u32
    returns
        (match o {
            NoiseOutput::Grayscale => 0u32,
            NoiseOutput::Color => 1u32,
        }),
{
    match o {
        NoiseOutput::Grayscale => 0,
        NoiseOutput::Color => 1,
    }
}

/// The number of a kernel.
#[verifier::allow_in_spec]
pub fn kernel_code(k: NoiseKernel) -> u32
    returns
        (match k {
            NoiseKernel::Simplex => 0u32,
            NoiseKernel::Value => 1u32,
        }),
{
    match k {
        NoiseKernel::Simplex => 0,
        NoiseKernel::Value => 1,
    }
}

/// The number of a way to sum octaves.
#[verifier::allow_in_spec]
pub fn fractal_mode_code(m: FractalMode) -> u32
    returns
        (match m {
            FractalMode::Standard => 0u32,
            FractalMode::Turbulence => 1u32,
            FractalMode::Ridged => 2u32,
        }),
{
    match m {
        FractalMode::Standard => 0,
        FractalMode::Turbulence => 1,
        FractalMode::Ridged => 2,
    }
}

/// The number of a blend mode.
#[verifier::allow_in_spec]
pub fn blend_mode_code(m: BlendMode) -> u32
    returns
        (match m {
            BlendMode::Add => 0u32,
            BlendMode::Subtract => 1u32,
            BlendMode::Multiply => 2u32,
            BlendMode::Blend => 3u32,
        }),
{
    match m {
        BlendMode::Add => 0,
        BlendMode::Subtract => 1,
        BlendMode::Multiply => 2,
        BlendMode::Blend => 3,
    }
}

/// The number of a choice between two inputs.
#[verifier::allow_in_spec]
pub fn min_max_code(m: MinMaxMode) -> u32
    returns
        (match m {
            MinMaxMode::Min => 0u32,
            MinMaxMode::Max => 1u32,
        }),
{
    match m {
        MinMaxMode::Min => 0,
        MinMaxMode::Max => 1,
    }
}

/// The number of a criterion.
#[verifier::allow_in_spec]
pub fn criterion_code(c: Criterion) -> u32
    returns
        (match c {
            Criterion::Red => 0u32,
            Criterion::Green => 1u32,
            Criterion::Blue => 2u32,
            Criterion::Saturation => 3u32,
            Criterion::Value => 4u32,
            Criterion::Luma => 5u32,
            Criterion::Alpha => 6u32,
            Criterion::Chroma => 7u32,
        }),
{
    match c {
        Criterion::Red => 0,
        Criterion::Green => 1,
        Criterion::Blue => 2,
        Criterion::Saturation => 3,
        Criterion::Value => 4,
        Criterion::Luma => 5,
        Criterion::Alpha => 6,
        Criterion::Chroma => 7,
    }
}

/// The number of a wave's shape.
#[verifier::allow_in_spec]
pub fn wave_shape_code(s: WaveShape) -> u32
    returns
        (match s {
            WaveShape::Sine => 0u32,
            WaveShape::Triangle => 1u32,
            WaveShape::Square => 2u32,
            WaveShape::Sawtooth => 3u32,
        }),
{
    match s {
        WaveShape::Sine => 0,
        WaveShape::Triangle => 1,
        WaveShape::Square => 2,
        WaveShape::Sawtooth => 3,
    }
}

/// The number of a warp's mode.
#[verifier::allow_in_spec]
pub fn warp_mode_code(m: WarpMode) -> u32
    returns
        (match m {
            WarpMode::Scalar => 0u32,
            WarpMode::Vector => 1u32,
        }),
{
    match m {
        WarpMode::Scalar => 0,
        WarpMode::Vector => 1,
    }
}

/// The number of an edge mode.
#[verifier::allow_in_spec]
pub fn edge_mode_code(m: EdgeMode) -> u32
    returns
        (match m {
            EdgeMode::Clamp => 0u32,
            EdgeMode::Extend => 1u32,
        }),
{
    match m {
        EdgeMode::Clamp => 0,
        EdgeMode::Extend => 1,
    }
}

/// The number of a radial distance.
#[verifier::allow_in_spec]
pub fn radial_dim_code(d: RadialDim) -> u32
    returns
        (match d {
            RadialDim::D2 => 0u32,
            RadialDim::D3 => 1u32,
        }),
{
    match d {
        RadialDim::D2 => 0,
        RadialDim::D3 => 1,
    }
}

/// The number of a surface that craters lie on.
#[verifier::allow_in_spec]
pub fn crater_surface_code(c: CraterSurface) -> u32
    returns
        (match c {
            CraterSurface::Plane => 0u32,
            CraterSurface::Sphere => 1u32,
        }),
{
    match c {
        CraterSurface::Plane => 0,
        CraterSurface::Sphere => 1,
    }
}

/// The number of what a scatter of craters gives.
#[verifier::allow_in_spec]
pub fn crater_output_code(c: CraterOutput) -> u32
    returns
        (match c {
            CraterOutput::Height => 0u32,
            CraterOutput::Ejecta => 1u32,
        }),
{
    match c {
        CraterOutput::Height => 0,
        CraterOutput::Ejecta => 1,
    }
}

/// The number of a flag.
#[verifier::allow_in_spec]
pub fn flag_code(b: bool) -> u32
    returns
        (if b {
            1u32
        } else {
            0u32
        }),
{
    if b {
        1
    } else {
        0
    }
}

/// The word of a number.
#[verifier::allow_in_spec]
pub fn number(s: Scalar) -> Word
    returns
        Word::Bits(s.bits),
{
    Word::Bits(s.bits)
}

/// The rectangle of a layer by its corners; the unit square where the socket
/// reads none or the layer has none.
pub open spec fn rect_of(domains: Map<u64, Domain>, o: Option<LayerId>) -> Seq<Scalar> {
    match o {
        Some(id) => if domains.dom().contains(id.0) {
            domains[id.0].corners()
        } else {
            unit_corners()
        },
        None => unit_corners(),
    }
}

/// The words of a rectangle: its least corner and its extent.
pub open spec fn rect_words(rect: Seq<Scalar>) -> Seq<Word> {
    seq![
        number(rect[0]),
        number(rect[1]),
        Word::Span { from: rect[0], to: rect[2] },
        Word::Span { from: rect[1], to: rect[3] },
    ]
}

/// The words of a size.
pub open spec fn size_words(size: (u32, u32)) -> Seq<Word> {
    seq![Word::Bits(size.0), Word::Bits(size.1)]
}

/// That many zero words.
pub open spec fn zero_words(n: nat) -> Seq<Word> {
    Seq::new(n, |i: int| Word::Bits(0))
}

/// The words of three numbers, and a zero.
pub open spec fn vector_words(v: Seq<Scalar>) -> Seq<Word> {
    seq![number(v[0]), number(v[1]), number(v[2]), Word::Bits(0)]
}

/// The words of a color.
pub open spec fn color_words(c: Color) -> Seq<Word> {
    seq![number(c.l), number(c.chroma), Word::Degrees(c.hue), number(c.alpha)]
}

/// The words of a map of the sample point.
pub open spec fn map_words(rows: Seq<Scalar>) -> Seq<Word> {
    rows.map_values(|s: Scalar| number(s))
}

/// What a socket's pass reads.
pub open spec fn source_of(slot_of: Map<u64, u32>, o: Option<LayerId>) -> Source {
    match o {
        Some(id) => Source::Slot(slot_of[id.0]),
        None => Source::Missing,
    }
}

/// The layer that a scalar socket reads.
pub open spec fn scalar_layer(si: ScalarInput) -> Option<LayerId> {
    match si {
        ScalarInput::Layer(id) => Some(id),
        _ => None,
    }
}

/// A scalar socket's constant, and whether a layer takes its place.
pub open spec fn scalar_words(params: Map<Seq<char>, ParamValue>, si: ScalarInput) -> Seq<Word> {
    match scalar_read(params, si) {
        Some(v) => seq![number(v), Word::Bits(0)],
        None => seq![Word::Bits(0), Word::Bits(1)],
    }
}

/// The rectangle of a layer, or the unit square.
pub fn domain_of(sched: &Schedule, o: Option<LayerId>) -> (r: Domain)
    ensures
        r.corners() == rect_of(sched.domain_of@, o),
{
    if let Some(id) = o {
        if let Some(d) = sched.domain_of.get(&id.0) {
            return *d;
        }
    }
    let r = Domain::unit();
    assert(r.corners() =~= unit_corners());
    r
}

/// The slot of a scheduled layer.
pub fn slot_of(sched: &Schedule, id: LayerId) -> (r: u32)
    requires
        sched.slot_of@.dom().contains(id.0),
    ensures
        r == sched.slot_of@[id.0],
{
    *sched.slot_of.get(&id.0).unwrap()
}

fn find_source(sched: &Schedule, o: Option<LayerId>) -> (r: Source)
    requires
        o matches Some(id) ==> sched.slot_of@.dom().contains(id.0),
    ensures
        r == source_of(sched.slot_of@, o),
{
    match o {
        Some(id) => Source::Slot(slot_of(sched, id)),
        None => Source::Missing,
    }
}

fn find_scalar_layer(si: &ScalarInput) -> (r: Option<LayerId>)
    ensures
        r == scalar_layer(*si),
{
    match si {
        ScalarInput::Layer(id) => Some(*id),
        _ => None,
    }
}

pub(crate) fn push_size(out: &mut Vec<Word>, size: (u32, u32))
    ensures
        final(out)@ == old(out)@ + size_words(size),
{
    out.push(Word::Bits(size.0));
    out.push(Word::Bits(size.1));
    assert(out@ =~= old(out)@ + size_words(size));
}

pub(crate) fn push_zeros(out: &mut Vec<Word>, n: usize)
    ensures
        final(out)@ == old(out)@ + zero_words(n as nat),
{
    let mut i: usize = 0;
    assert(out@ =~= old(out)@ + zero_words(0));
    while i < n
        invariant
            i <= n,
            out@ == old(out)@ + zero_words(i as nat),
        decreases n - i,
    {
        out.push(Word::Bits(0));
        i += 1;
        assert(out@ =~= old(out)@ + zero_words(i as nat));
    }
}

pub(crate) fn push_rect(out: &mut Vec<Word>, d: Domain)
    ensures
        final(out)@ == old(out)@ + rect_words(d.corners()),
{
    out.push(number(d.min[0]));
    out.push(number(d.min[1]));
    out.push(Word::Span { from: d.min[0], to: d.max[0] });
    out.push(Word::Span { from: d.min[1], to: d.max[1] });
    assert(out@ =~= old(out)@ + rect_words(d.corners()));
}

fn push_vector(out: &mut Vec<Word>, v: [Scalar; 3])
    ensures
        final(out)@ == old(out)@ + vector_words(v@),
{
    out.push(number(v[0]));
    out.push(number(v[1]));
    out.push(number(v[2]));
    out.push(Word::Bits(0));
    assert(out@ =~= old(out)@ + vector_words(v@));
}

fn push_color(out: &mut Vec<Word>, c: Color)
    ensures
        final(out)@ == old(out)@ + color_words(c),
{
    out.push(number(c.l));
    out.push(number(c.chroma));
    out.push(Word::Degrees(c.hue));
    out.push(number(c.alpha));
    assert(out@ =~= old(out)@ + color_words(c));
}

fn push_map(out: &mut Vec<Word>, map: PointMap)
    ensures
        final(out)@ == old(out)@ + map_words(map.rows@),
{
    let mut i: usize = 0;
    assert(out@ =~= old(out)@ + map_words(map.rows@).take(0));
    while i < 12
        invariant
            i <= 12,
            out@ == old(out)@ + map_words(map.rows@).take(i as int),
        decreases 12 - i,
    {
        out.push(number(map.rows[i]));
        assert(out@ =~= old(out)@ + map_words(map.rows@).take(i + 1));
        i += 1;
    }
    assert(map_words(map.rows@).take(12) =~= map_words(map.rows@));
}

fn push_scalar_words(out: &mut Vec<Word>, ctx: &EvalCtx, si: &ScalarInput)
    ensures
        final(out)@ == old(out)@ + scalar_words(ctx.params@, *si),
{
    match ctx.scalar_const(si) {
        Some(v) => {
            out.push(number(v));
            out.push(Word::Bits(0));
        },
        None => {
            out.push(Word::Bits(0));
            out.push(Word::Bits(1));
        },
    }
    assert(out@ =~= old(out)@ + scalar_words(ctx.params@, *si));
}

/// The uniform of a constant color's pass.
pub open spec fn color_uniform(c: Color, size: (u32, u32)) -> Seq<Word> {
    color_words(c) + size_words(size) + zero_words(2)
}

fn make_color_uniform(c: Color, size: (u32, u32)) -> (r: Vec<Word>)
    ensures
        r@ == color_uniform(c, size),
{
    let mut out: Vec<Word> = Vec::new();
    push_color(&mut out, c);
    push_size(&mut out, size);
    push_zeros(&mut out, 2);
    assert(out@ =~= color_uniform(c, size));
    out
}

/// What a noise's pass samples: dimensions, range, output, seed, frequency and
/// third coordinate.
pub open spec fn noise_field_words(n: Noise, seed: u32, at: Slice) -> Seq<Word> {
    seq![
        Word::Bits(dims_code(n.dims)),
        Word::Bits(range_code(n.range)),
        Word::Bits(noise_output_code(n.output)),
        Word::Bits(seed.wrapping_add(n.seed_offset)),
        number(n.frequency),
        at.w(),
    ]
}

/// How a noise's pass sums octaves: period, count, lacunarity, gain, mode and
/// whether the sum is normalized.
pub open spec fn noise_octave_words(n: Noise) -> Seq<Word> {
    seq![
        Word::Bits(n.period@[0]),
        Word::Bits(n.period@[1]),
        Word::Bits(n.period@[2]),
        Word::Bits(clamp_octaves(n.fractal.octaves)),
        number(n.fractal.lacunarity),
        number(n.fractal.gain),
        Word::Bits(fractal_mode_code(n.fractal.mode)),
        Word::Bits(flag_code(n.fractal.normalize)),
    ]
}

fn push_noise_field(out: &mut Vec<Word>, n: &Noise, seed: u32, at: Slice)
    ensures
        final(out)@ == old(out)@ + noise_field_words(*n, seed, at),
{
    out.push(Word::Bits(dims_code(n.dims)));
    out.push(Word::Bits(range_code(n.range)));
    out.push(Word::Bits(noise_output_code(n.output)));
    out.push(Word::Bits(seed.wrapping_add(n.seed_offset)));
    out.push(number(n.frequency));
    out.push(at.w());
    assert(out@ =~= old(out)@ + noise_field_words(*n, seed, at));
}

fn push_noise_octaves(out: &mut Vec<Word>, n: &Noise)
    ensures
        final(out)@ == old(out)@ + noise_octave_words(*n),
{
    out.push(Word::Bits(n.period[0]));
    out.push(Word::Bits(n.period[1]));
    out.push(Word::Bits(n.period[2]));
    out.push(Word::Bits(clamp_octaves(n.fractal.octaves)));
    out.push(number(n.fractal.lacunarity));
    out.push(number(n.fractal.gain));
    out.push(Word::Bits(fractal_mode_code(n.fractal.mode)));
    out.push(Word::Bits(flag_code(n.fractal.normalize)));
    assert(out@ =~= old(out)@ + noise_octave_words(*n));
}

/// The uniform of a noise's pass.
pub open spec fn noise_uniform(
    n: Noise,
    seed: u32,
    size: (u32, u32),
    at: Slice,
    rect: Seq<Scalar>,
) -> Seq<Word> {
    size_words(size) + noise_field_words(n, seed, at) + rect_words(rect) + noise_octave_words(n)
        + seq![Word::Bits(kernel_code(n.kernel)), Word::Bits(at.code() as u32)] + zero_words(2)
        + map_words(at.rows())
}

fn make_noise_uniform(n: &Noise, seed: u32, size: (u32, u32), at: Slice, dom: Domain) -> (r: Vec<
    Word,
>)
    requires
        at.code() <= u32::MAX,
    ensures
        r@ == noise_uniform(*n, seed, size, at, dom.corners()),
{
    let mut out: Vec<Word> = Vec::new();
    push_size(&mut out, size);
    push_noise_field(&mut out, n, seed, at);
    push_rect(&mut out, dom);
    push_noise_octaves(&mut out, n);
    let ghost head = out@;
    out.push(Word::Bits(kernel_code(n.kernel)));
    out.push(Word::Bits(at.face_code()));
    assert(out@ =~= head + seq![
        Word::Bits(kernel_code(n.kernel)),
        Word::Bits(at.code() as u32),
    ]);
    push_zeros(&mut out, 2);
    push_map(&mut out, at.point_map());
    assert(Seq::<Word>::empty() + size_words(size) =~= size_words(size));
    out
}

/// The uniform of a coordinate's pass.
pub open spec fn coordinate_uniform(
    c: Coordinate,
    size: (u32, u32),
    at: Slice,
    rect: Seq<Scalar>,
) -> Seq<Word> {
    size_words(size) + seq![Word::Bits(axis_code(c.axis)), Word::Bits(at.code() as u32)]
        + rect_words(rect) + seq![at.w()] + zero_words(3) + map_words(at.rows())
}

fn make_coordinate_uniform(c: &Coordinate, size: (u32, u32), at: Slice, dom: Domain) -> (r: Vec<
    Word,
>)
    requires
        at.code() <= u32::MAX,
    ensures
        r@ == coordinate_uniform(*c, size, at, dom.corners()),
{
    let mut out: Vec<Word> = Vec::new();
    push_size(&mut out, size);
    out.push(Word::Bits(axis_code(c.axis)));
    out.push(Word::Bits(at.face_code()));
    push_rect(&mut out, dom);
    out.push(at.w());
    push_zeros(&mut out, 3);
    push_map(&mut out, at.point_map());
    assert(out@ =~= coordinate_uniform(*c, size, at, dom.corners()));
    out
}

/// The number of a coordinate mode.
#[verifier::allow_in_spec]
pub fn coord_mode_code(m: CoordMode) -> u32
    returns
        (match m {
            CoordMode::Passthrough => 0u32,
            CoordMode::Permute(_) => 1u32,
            CoordMode::Radial { .. } => 2u32,
        }),
{
    match m {
        CoordMode::Passthrough => 0,
        CoordMode::Permute(_) => 1,
        CoordMode::Radial { .. } => 2,
    }
}

/// The axes of a permutation, then the distance and axis of a radial mode.
pub open spec fn coord_words(m: CoordMode) -> Seq<Word> {
    match m {
        CoordMode::Passthrough => zero_words(6),
        CoordMode::Permute(axes) => seq![
            Word::Bits(axis_code(axes@[0])),
            Word::Bits(axis_code(axes@[1])),
            Word::Bits(axis_code(axes@[2])),
        ] + zero_words(3),
        CoordMode::Radial { dim, into } => zero_words(4) + seq![
            Word::Bits(radial_dim_code(dim)),
            Word::Bits(axis_code(into)),
        ],
    }
}

fn push_coord_words(out: &mut Vec<Word>, m: CoordMode)
    ensures
        final(out)@ == old(out)@ + coord_words(m),
{
    match m {
        CoordMode::Passthrough => push_zeros(out, 6),
        CoordMode::Permute(axes) => {
            out.push(Word::Bits(axis_code(axes[0])));
            out.push(Word::Bits(axis_code(axes[1])));
            out.push(Word::Bits(axis_code(axes[2])));
            push_zeros(out, 3);
        },
        CoordMode::Radial { dim, into } => {
            push_zeros(out, 4);
            out.push(Word::Bits(radial_dim_code(dim)));
            out.push(Word::Bits(axis_code(into)));
        },
    }
    assert(out@ =~= old(out)@ + coord_words(m));
}

/// The uniform of a transform's pass. On a face the source's points were moved
/// already, so the pass copies: nothing is subtracted, turned or scaled.
pub open spec fn transform_uniform(
    t: Transform,
    size: (u32, u32),
    at: Slice,
    rect: Seq<Scalar>,
    source: Seq<Scalar>,
) -> Seq<Word> {
    let one = Scalar::one();
    match at {
        Slice::Plane { w } => size_words(size) + seq![
            Word::Bits(coord_mode_code(t.coord_mode)),
            number(t.rotate_uv),
        ] + vector_words(t.offset@) + vector_words(t.scale@) + coord_words(t.coord_mode) + seq![
            w,
            Word::Bits(edge_mode_code(t.edge_mode)),
        ] + rect_words(rect) + rect_words(source),
        Slice::CubeFace { .. } => size_words(size) + zero_words(6) + vector_words(
            seq![one, one, one],
        ) + zero_words(6) + seq![flat_w(), Word::Bits(0)] + rect_words(rect) + rect_words(source),
    }
}

fn make_transform_uniform(
    t: &Transform,
    size: (u32, u32),
    at: Slice,
    dom: Domain,
    source: Domain,
) -> (r: Vec<Word>)
    ensures
        r@ == transform_uniform(*t, size, at, dom.corners(), source.corners()),
{
    let mut out: Vec<Word> = Vec::new();
    push_size(&mut out, size);
    match at {
        Slice::Plane { w } => {
            out.push(Word::Bits(coord_mode_code(t.coord_mode)));
            out.push(number(t.rotate_uv));
            push_vector(&mut out, t.offset);
            push_vector(&mut out, t.scale);
            push_coord_words(&mut out, t.coord_mode);
            out.push(w);
            out.push(Word::Bits(edge_mode_code(t.edge_mode)));
        },
        Slice::CubeFace { .. } => {
            let one = Scalar::one();
            push_zeros(&mut out, 6);
            push_vector(&mut out, [one, one, one]);
            push_zeros(&mut out, 6);
            out.push(flat_w());
            out.push(Word::Bits(0));
        },
    }
    push_rect(&mut out, dom);
    push_rect(&mut out, source);
    assert(out@ =~= transform_uniform(*t, size, at, dom.corners(), source.corners()));
    out
}

/// The layer that stands at a mix's factor: `a` where the factor is a constant,
/// which the shader then does not read.
pub open spec fn mix_factor_layer(m: Mix) -> Option<LayerId> {
    match m.factor {
        ScalarInput::Layer(id) => Some(id),
        _ => m.a,
    }
}

/// The uniform of a mix's pass.
pub open spec fn mix_uniform(
    m: Mix,
    params: Map<Seq<char>, ParamValue>,
    size: (u32, u32),
    rect: Seq<Scalar>,
    domains: Map<u64, Domain>,
) -> Seq<Word> {
    size_words(size) + seq![
        Word::Bits(blend_mode_code(m.mode)),
        Word::Bits(blend_space_code(m.space)),
    ] + scalar_words(params, m.factor) + zero_words(2) + rect_words(rect) + rect_words(
        rect_of(domains, m.a),
    ) + rect_words(rect_of(domains, m.b)) + rect_words(rect_of(domains, mix_factor_layer(m)))
}

fn make_mix_uniform(m: &Mix, ctx: &EvalCtx, size: (u32, u32), dom: Domain, sched: &Schedule) -> (r:
    Vec<Word>)
    ensures
        r@ == mix_uniform(*m, ctx.params@, size, dom.corners(), sched.domain_of@),
{
    let mut out: Vec<Word> = Vec::new();
    push_size(&mut out, size);
    out.push(Word::Bits(blend_mode_code(m.mode)));
    out.push(Word::Bits(blend_space_code(m.space)));
    push_scalar_words(&mut out, ctx, &m.factor);
    push_zeros(&mut out, 2);
    push_rect(&mut out, dom);
    push_rect(&mut out, domain_of(sched, m.a));
    push_rect(&mut out, domain_of(sched, m.b));
    let factor = match &m.factor {
        ScalarInput::Layer(id) => Some(*id),
        _ => m.a,
    };
    push_rect(&mut out, domain_of(sched, factor));
    assert(out@ =~= mix_uniform(*m, ctx.params@, size, dom.corners(), sched.domain_of@));
    out
}

/// The uniform of a gradient map's pass.
pub open spec fn gradient_map_uniform(
    size: (u32, u32),
    rect: Seq<Scalar>,
    value: Seq<Scalar>,
    palette: Seq<Scalar>,
) -> Seq<Word> {
    size_words(size) + zero_words(2) + rect_words(rect) + rect_words(value) + rect_words(palette)
}

fn make_gradient_map_uniform(size: (u32, u32), dom: Domain, value: Domain, palette: Domain) -> (r:
    Vec<Word>)
    ensures
        r@ == gradient_map_uniform(size, dom.corners(), value.corners(), palette.corners()),
{
    let mut out: Vec<Word> = Vec::new();
    push_size(&mut out, size);
    push_zeros(&mut out, 2);
    push_rect(&mut out, dom);
    push_rect(&mut out, value);
    push_rect(&mut out, palette);
    assert(out@ =~= gradient_map_uniform(size, dom.corners(), value.corners(), palette.corners()));
    out
}

/// The uniform of a choice's pass.
pub open spec fn min_max_uniform(
    m: MinMax,
    size: (u32, u32),
    rect: Seq<Scalar>,
    a: Seq<Scalar>,
    b: Seq<Scalar>,
) -> Seq<Word> {
    size_words(size) + seq![
        Word::Bits(min_max_code(m.mode)),
        Word::Bits(criterion_code(m.criterion)),
    ] + rect_words(rect) + rect_words(a) + rect_words(b)
}

fn make_min_max_uniform(m: &MinMax, size: (u32, u32), dom: Domain, a: Domain, b: Domain) -> (r: Vec<
    Word,
>)
    ensures
        r@ == min_max_uniform(*m, size, dom.corners(), a.corners(), b.corners()),
{
    let mut out: Vec<Word> = Vec::new();
    push_size(&mut out, size);
    out.push(Word::Bits(min_max_code(m.mode)));
    out.push(Word::Bits(criterion_code(m.criterion)));
    push_rect(&mut out, dom);
    push_rect(&mut out, a);
    push_rect(&mut out, b);
    assert(out@ =~= min_max_uniform(*m, size, dom.corners(), a.corners(), b.corners()));
    out
}

/// The uniform of a normal map's pass.
pub open spec fn height_to_normal_uniform(
    h: HeightToNormal,
    size: (u32, u32),
    rect: Seq<Scalar>,
    source: Seq<Scalar>,
) -> Seq<Word> {
    size_words(size) + seq![number(h.strength)] + zero_words(1) + rect_words(rect) + rect_words(
        source,
    )
}

fn make_height_to_normal_uniform(
    h: &HeightToNormal,
    size: (u32, u32),
    dom: Domain,
    source: Domain,
) -> (r: Vec<Word>)
    ensures
        r@ == height_to_normal_uniform(*h, size, dom.corners(), source.corners()),
{
    let mut out: Vec<Word> = Vec::new();
    push_size(&mut out, size);
    out.push(number(h.strength));
    push_zeros(&mut out, 1);
    push_rect(&mut out, dom);
    push_rect(&mut out, source);
    assert(out@ =~= height_to_normal_uniform(*h, size, dom.corners(), source.corners()));
    out
}

/// The uniform of a warp's pass.
pub open spec fn warp_uniform(
    w: Warp,
    size: (u32, u32),
    rect: Seq<Scalar>,
    source: Seq<Scalar>,
    by: Seq<Scalar>,
) -> Seq<Word> {
    size_words(size) + seq![Word::Bits(warp_mode_code(w.mode))] + zero_words(1) + vector_words(
        w.amount@,
    ) + rect_words(rect) + rect_words(source) + rect_words(by)
}

fn make_warp_uniform(w: &Warp, size: (u32, u32), dom: Domain, source: Domain, by: Domain) -> (r: Vec<
    Word,
>)
    ensures
        r@ == warp_uniform(*w, size, dom.corners(), source.corners(), by.corners()),
{
    let mut out: Vec<Word> = Vec::new();
    push_size(&mut out, size);
    out.push(Word::Bits(warp_mode_code(w.mode)));
    push_zeros(&mut out, 1);
    push_vector(&mut out, w.amount);
    push_rect(&mut out, dom);
    push_rect(&mut out, source);
    push_rect(&mut out, by);
    assert(out@ =~= warp_uniform(*w, size, dom.corners(), source.corners(), by.corners()));
    out
}

/// The uniform of a wave's pass.
pub open spec fn wave_uniform(
    w: Wave,
    params: Map<Seq<char>, ParamValue>,
    size: (u32, u32),
    rect: Seq<Scalar>,
    input: Seq<Scalar>,
) -> Seq<Word> {
    size_words(size) + seq![
        Word::Bits(wave_shape_code(w.shape)),
        Word::Bits(range_code(w.range)),
        number(w.frequency),
        number(w.phase),
    ] + scalar_words(params, w.input) + rect_words(rect) + rect_words(input)
}

fn make_wave_uniform(w: &Wave, ctx: &EvalCtx, size: (u32, u32), dom: Domain, input: Domain) -> (r:
    Vec<Word>)
    ensures
        r@ == wave_uniform(*w, ctx.params@, size, dom.corners(), input.corners()),
{
    let mut out: Vec<Word> = Vec::new();
    push_size(&mut out, size);
    out.push(Word::Bits(wave_shape_code(w.shape)));
    out.push(Word::Bits(range_code(w.range)));
    out.push(number(w.frequency));
    out.push(number(w.phase));
    push_scalar_words(&mut out, ctx, &w.input);
    push_rect(&mut out, dom);
    push_rect(&mut out, input);
    assert(out@ =~= wave_uniform(*w, ctx.params@, size, dom.corners(), input.corners()));
    out
}

/// How a scatter of craters lies and looks: seed, size classes, frequency, gain,
/// depth, age, erasing, peak, rays and relief.
pub open spec fn crater_field_words(c: Craters, seed: u32) -> Seq<Word> {
    seq![
        Word::Bits(seed.wrapping_add(c.seed_offset)),
        Word::Bits(clamp_classes(c.classes)),
        number(c.frequency),
        number(c.gain),
        number(c.depth),
        number(c.age),
        number(c.erase),
        number(c.peak),
        number(c.rays),
        number(c.relief),
    ]
}

/// Where a scatter of craters is sampled, and for what: its surface, its output,
/// the third coordinate and the face.
pub open spec fn crater_place_words(c: Craters, at: Slice) -> Seq<Word> {
    seq![
        Word::Bits(crater_surface_code(c.surface)),
        Word::Bits(crater_output_code(c.output)),
        at.w(),
        Word::Bits(at.code() as u32),
    ]
}

fn push_crater_field(out: &mut Vec<Word>, c: &Craters, seed: u32)
    ensures
        final(out)@ == old(out)@ + crater_field_words(*c, seed),
{
    out.push(Word::Bits(seed.wrapping_add(c.seed_offset)));
    out.push(Word::Bits(clamp_classes(c.classes)));
    out.push(number(c.frequency));
    out.push(number(c.gain));
    out.push(number(c.depth));
    out.push(number(c.age));
    out.push(number(c.erase));
    out.push(number(c.peak));
    out.push(number(c.rays));
    out.push(number(c.relief));
    assert(out@ =~= old(out)@ + crater_field_words(*c, seed));
}

fn push_crater_place(out: &mut Vec<Word>, c: &Craters, at: Slice)
    requires
        at.code() <= u32::MAX,
    ensures
        final(out)@ == old(out)@ + crater_place_words(*c, at),
{
    out.push(Word::Bits(crater_surface_code(c.surface)));
    out.push(Word::Bits(crater_output_code(c.output)));
    out.push(at.w());
    out.push(Word::Bits(at.face_code()));
    assert(out@ =~= old(out)@ + crater_place_words(*c, at));
}

/// The uniform of the pass of a scatter of craters. Like a noise it is sampled
/// at the moved point; what lies under it and its density are read in place.
pub open spec fn craters_uniform(
    c: Craters,
    ctx: EvalCtx,
    size: (u32, u32),
    at: Slice,
    rect: Seq<Scalar>,
    domains: Map<u64, Domain>,
) -> Seq<Word> {
    size_words(size) + crater_field_words(c, ctx.seed) + crater_place_words(c, at) + scalar_words(
        ctx.params@,
        c.under,
    ) + scalar_words(ctx.params@, c.density) + rect_words(rect) + rect_words(
        rect_of(domains, scalar_layer(c.under)),
    ) + rect_words(rect_of(domains, scalar_layer(c.density))) + map_words(at.rows())
}

fn make_craters_uniform(
    c: &Craters,
    ctx: &EvalCtx,
    size: (u32, u32),
    at: Slice,
    dom: Domain,
    sched: &Schedule,
) -> (r: Vec<Word>)
    requires
        at.code() <= u32::MAX,
    ensures
        r@ == craters_uniform(*c, *ctx, size, at, dom.corners(), sched.domain_of@),
{
    let mut out: Vec<Word> = Vec::new();
    push_size(&mut out, size);
    push_crater_field(&mut out, c, ctx.seed);
    push_crater_place(&mut out, c, at);
    push_scalar_words(&mut out, ctx, &c.under);
    push_scalar_words(&mut out, ctx, &c.density);
    push_rect(&mut out, dom);
    push_rect(&mut out, domain_of(sched, find_scalar_layer(&c.under)));
    push_rect(&mut out, domain_of(sched, find_scalar_layer(&c.density)));
    push_map(&mut out, at.point_map());
    assert(Seq::<Word>::empty() + size_words(size) =~= size_words(size));
    out
}

/// The ids in the order of their first occurrence, each once.
pub open spec fn first_reads(ids: Seq<LayerId>) -> Seq<LayerId>
    decreases ids.len(),
{
    if ids.len() == 0 {
        Seq::empty()
    } else {
        let before = first_reads(ids.drop_last());
        if before.contains(ids.last()) {
            before
        } else {
            before.push(ids.last())
        }
    }
}

/// Every id is kept, and none twice.
pub proof fn lemma_first_reads(ids: Seq<LayerId>)
    ensures
        first_reads(ids).no_duplicates(),
        forall|id: LayerId| #[trigger] first_reads(ids).contains(id) <==> ids.contains(id),
    decreases ids.len(),
{
    if ids.len() > 0 {
        let before = first_reads(ids.drop_last());
        let last = ids.last();
        lemma_first_reads(ids.drop_last());
        let after = first_reads(ids);
        assert forall|id: LayerId| #[trigger] after.contains(id) <==> ids.contains(id) by {
            if ids.contains(id) {
                let i = ids.index_of(id);
                if i < ids.len() - 1 {
                    assert(ids.drop_last()[i] == id);
                    assert(before.contains(id));
                    let j = before.index_of(id);
                    assert(after[j] == id);
                } else if !before.contains(last) {
                    assert(after[before.len() as int] == last);
                }
            }
            if after.contains(id) {
                let j = after.index_of(id);
                if j < before.len() {
                    assert(before[j] == id);
                    assert(before.contains(id));
                    assert(ids.drop_last().contains(id));
                    let i = ids.drop_last().index_of(id);
                    assert(ids[i] == id);
                } else {
                    assert(ids[ids.len() - 1] == id);
                }
            }
        }
    }
}

/// More ids are no fewer first occurrences, and those there were stay in place.
proof fn lemma_first_reads_grow(ids: Seq<LayerId>, more: Seq<LayerId>)
    ensures
        first_reads(ids).is_prefix_of(first_reads(ids + more)),
    decreases more.len(),
{
    if more.len() == 0 {
        assert(ids + more =~= ids);
    } else {
        lemma_first_reads_grow(ids, more.drop_last());
        assert((ids + more).drop_last() =~= ids + more.drop_last());
    }
}

/// One stop of a ramp: its color and place, or the input that it reads.
pub open spec fn stop_words(
    stop: ColorStop,
    inputs: Seq<LayerId>,
    params: Map<Seq<char>, ParamValue>,
) -> Seq<Word> {
    match stop.color {
        ColorInput::Layer(id) => zero_words(4) + seq![
            number(stop.t),
            Word::Bits(1),
            Word::Bits(inputs.index_of(id) as u32),
            Word::Bits(0),
        ],
        _ => color_words(color_read(params, stop.color)->0) + seq![
            number(stop.t),
            Word::Bits(0),
            Word::Bits(0),
            Word::Bits(0),
        ],
    }
}

/// The stops of a ramp, one after the other.
pub open spec fn ramp_words(
    stops: Seq<ColorStop>,
    inputs: Seq<LayerId>,
    params: Map<Seq<char>, ParamValue>,
) -> Seq<Word>
    decreases stops.len(),
{
    if stops.len() == 0 {
        Seq::empty()
    } else {
        ramp_words(stops.drop_last(), inputs, params) + stop_words(stops.last(), inputs, params)
    }
}

/// The layer at a place of a list, if there is one.
pub open spec fn nth(ids: Seq<LayerId>, i: int) -> Option<LayerId> {
    if 0 <= i < ids.len() {
        Some(ids[i])
    } else {
        None
    }
}

/// The rectangles of the first `n` places of a list.
pub open spec fn rects_words(inputs: Seq<LayerId>, domains: Map<u64, Domain>, n: nat) -> Seq<Word>
    decreases n,
{
    if n == 0 {
        Seq::empty()
    } else {
        rects_words(inputs, domains, (n - 1) as nat) + rect_words(
            rect_of(domains, nth(inputs, n - 1)),
        )
    }
}

/// What a ramp's pass reads at each of its places.
pub open spec fn ramp_sources(inputs: Seq<LayerId>, slot_of: Map<u64, u32>) -> Seq<Source> {
    Seq::new(
        MAX_RAMP_INPUTS as nat,
        |i: int|
            match nth(inputs, i) {
                Some(id) => Source::Slot(slot_of[id.0]),
                None => Source::Dummy,
            },
    )
}

/// The uniform of a ramp's pass.
pub open spec fn ramp_uniform(
    r: ColorRamp,
    size: (u32, u32),
    rect: Seq<Scalar>,
    domains: Map<u64, Domain>,
) -> Seq<Word> {
    size_words(size) + seq![
        Word::Bits(r.stops@.len() as u32),
        Word::Bits(blend_space_code(r.space)),
    ] + rect_words(rect) + rects_words(
        first_reads(stop_ids(r.stops@)),
        domains,
        MAX_RAMP_INPUTS as nat,
    )
}

/// Why no pass is made for a layer of that kind.
pub open spec fn refusal(kind: LayerKind) -> Option<&'static str> {
    match kind {
        LayerKind::ColorRamp(r) => if r.stops@.len() > MAX_RAMP_STOPS {
            Some("ColorRamp (>16 stops)")
        } else if first_reads(stop_ids(r.stops@)).len() > MAX_RAMP_INPUTS {
            Some("ColorRamp (>8 unique layer-referenced stops)")
        } else {
            None
        },
        _ => None,
    }
}

/// The place of a layer in a list.
fn find_input(inputs: &Vec<LayerId>, id: LayerId) -> (r: Option<usize>)
    ensures
        match r {
            Some(i) => i < inputs@.len() && inputs@[i as int] == id,
            None => !inputs@.contains(id),
        },
{
    let mut i: usize = 0;
    while i < inputs.len()
        invariant
            i <= inputs@.len(),
            forall|j: int| 0 <= j < i ==> inputs@[j] != id,
        decreases inputs@.len() - i,
    {
        if inputs[i].0 == id.0 {
            return Some(i);
        }
        i += 1;
    }
    None
}

/// The different layers that a ramp's stops read; none where they are too many.
/// Stops that read the same layer share one input.
pub fn ramp_inputs(r: &ColorRamp) -> (res: Option<Vec<LayerId>>)
    ensures
        match res {
            Some(inputs) => inputs@ == first_reads(stop_ids(r.stops@)) && inputs@.len()
                <= MAX_RAMP_INPUTS,
            None => first_reads(stop_ids(r.stops@)).len() > MAX_RAMP_INPUTS,
        },
{
    let mut inputs: Vec<LayerId> = Vec::new();
    let mut i: usize = 0;
    while i < r.stops.len()
        invariant
            i <= r.stops@.len(),
            inputs@ == first_reads(stop_ids(r.stops@.take(i as int))),
            inputs@.len() <= MAX_RAMP_INPUTS,
        decreases r.stops@.len() - i,
    {
        let ghost before = stop_ids(r.stops@.take(i as int));
        let ghost after = stop_ids(r.stops@.take(i + 1));
        proof {
            assert(r.stops@.take(i + 1).drop_last() =~= r.stops@.take(i as int));
            lemma_first_reads(before);
        }
        if let ColorInput::Layer(id) = &r.stops[i].color {
            assert(after.drop_last() =~= before);
            assert(after.last() == *id);
            match find_input(&inputs, *id) {
                Some(k) => {
                    assert(inputs@[k as int] == *id);
                    assert(inputs@.contains(*id));
                },
                None => {
                    if inputs.len() >= MAX_RAMP_INPUTS {
                        proof {
                            let rest = stop_ids_from(r.stops@, i + 1);
                            lemma_stop_ids_split(r.stops@, i + 1);
                            lemma_first_reads_grow(after, rest);
                        }
                        return None;
                    }
                    inputs.push(*id);
                },
            }
        } else {
            assert(after =~= before);
        }
        i += 1;
    }
    assert(r.stops@.take(i as int) =~= r.stops@);
    Some(inputs)
}

/// What the stops behind the first `n` read.
spec fn stop_ids_from(stops: Seq<ColorStop>, n: int) -> Seq<LayerId> {
    stop_ids(stops.skip(n))
}

proof fn lemma_stop_ids_split(stops: Seq<ColorStop>, n: int)
    requires
        0 <= n <= stops.len(),
    ensures
        stop_ids(stops) == stop_ids(stops.take(n)) + stop_ids_from(stops, n),
    decreases stops.len(),
{
    if n == stops.len() {
        assert(stops.take(n) =~= stops);
        assert(stops.skip(n) =~= Seq::<ColorStop>::empty());
        assert(stop_ids(stops) =~= stop_ids(stops.take(n)) + stop_ids_from(stops, n));
    } else {
        lemma_stop_ids_split(stops.drop_last(), n);
        assert(stops.drop_last().take(n) =~= stops.take(n));
        assert(stops.drop_last().skip(n) =~= stops.skip(n).drop_last());
        assert(stops.skip(n).last() == stops.last());
        assert(stop_ids(stops) =~= stop_ids(stops.take(n)) + stop_ids_from(stops, n));
    }
}

fn push_stop(out: &mut Vec<Word>, stop: &ColorStop, inputs: &Vec<LayerId>, ctx: &EvalCtx)
    requires
        inputs@.no_duplicates(),
        inputs@.len() <= MAX_RAMP_INPUTS,
        stop.color matches ColorInput::Layer(id) ==> inputs@.contains(id),
    ensures
        final(out)@ == old(out)@ + stop_words(*stop, inputs@, ctx.params@),
{
    match &stop.color {
        ColorInput::Layer(id) => {
            let place = find_input(inputs, *id).unwrap();
            assert(inputs@.index_of(*id) == place);
            push_zeros(out, 4);
            out.push(number(stop.t));
            out.push(Word::Bits(1));
            out.push(Word::Bits(place as u32));
            out.push(Word::Bits(0));
            assert(out@ =~= old(out)@ + stop_words(*stop, inputs@, ctx.params@));
        },
        _ => {
            let c = ctx.color_const(&stop.color).unwrap();
            push_color(out, c);
            out.push(number(stop.t));
            out.push(Word::Bits(0));
            out.push(Word::Bits(0));
            out.push(Word::Bits(0));
            assert(out@ =~= old(out)@ + stop_words(*stop, inputs@, ctx.params@));
        },
    }
}

fn make_ramp_stops(r: &ColorRamp, inputs: &Vec<LayerId>, ctx: &EvalCtx) -> (res: Vec<Word>)
    requires
        inputs@ == first_reads(stop_ids(r.stops@)),
        inputs@.len() <= MAX_RAMP_INPUTS,
    ensures
        res@ == ramp_words(r.stops@, inputs@, ctx.params@),
{
    let mut out: Vec<Word> = Vec::new();
    let mut i: usize = 0;
    proof {
        lemma_first_reads(stop_ids(r.stops@));
    }
    while i < r.stops.len()
        invariant
            i <= r.stops@.len(),
            inputs@.no_duplicates(),
            inputs@.len() <= MAX_RAMP_INPUTS,
            forall|id: LayerId| #[trigger]
                inputs@.contains(id) <==> stop_ids(r.stops@).contains(id),
            out@ == ramp_words(r.stops@.take(i as int), inputs@, ctx.params@),
        decreases r.stops@.len() - i,
    {
        let ghost taken = r.stops@.take(i + 1);
        proof {
            assert(taken.drop_last() =~= r.stops@.take(i as int));
            lemma_stop_ids_split(r.stops@, i + 1);
            let all = stop_ids(r.stops@);
            let head = stop_ids(taken);
            if let ColorInput::Layer(id) = r.stops@[i as int].color {
                assert(head.last() == id);
                assert(all[head.len() - 1] == id);
                assert(all.contains(id));
            }
        }
        push_stop(&mut out, &r.stops[i], inputs, ctx);
        i += 1;
    }
    assert(r.stops@.take(i as int) =~= r.stops@);
    out
}

fn make_ramp_sources(inputs: &Vec<LayerId>, sched: &Schedule) -> (r: Vec<Source>)
    requires
        forall|i: int|
            0 <= i < inputs@.len() ==> sched.slot_of@.dom().contains((#[trigger] inputs@[i]).0),
    ensures
        r@ == ramp_sources(inputs@, sched.slot_of@),
{
    let mut out: Vec<Source> = Vec::new();
    let mut i: usize = 0;
    while i < MAX_RAMP_INPUTS
        invariant
            i <= MAX_RAMP_INPUTS,
            forall|i: int|
                0 <= i < inputs@.len() ==> sched.slot_of@.dom().contains((#[trigger] inputs@[i]).0),
            out@ == ramp_sources(inputs@, sched.slot_of@).take(i as int),
        decreases MAX_RAMP_INPUTS - i,
    {
        if i < inputs.len() {
            out.push(Source::Slot(slot_of(sched, inputs[i])));
        } else {
            out.push(Source::Dummy);
        }
        assert(out@ =~= ramp_sources(inputs@, sched.slot_of@).take(i + 1));
        i += 1;
    }
    assert(out@ =~= ramp_sources(inputs@, sched.slot_of@));
    out
}

fn make_ramp_uniform(
    r: &ColorRamp,
    inputs: &Vec<LayerId>,
    size: (u32, u32),
    dom: Domain,
    sched: &Schedule,
) -> (res: Vec<Word>)
    requires
        inputs@ == first_reads(stop_ids(r.stops@)),
        r.stops@.len() <= MAX_RAMP_STOPS,
    ensures
        res@ == ramp_uniform(*r, size, dom.corners(), sched.domain_of@),
{
    let mut out: Vec<Word> = Vec::new();
    push_size(&mut out, size);
    out.push(Word::Bits(r.stops.len() as u32));
    out.push(Word::Bits(blend_space_code(r.space)));
    push_rect(&mut out, dom);
    let ghost head = out@;
    let mut i: usize = 0;
    assert(out@ =~= head + rects_words(inputs@, sched.domain_of@, 0));
    while i < MAX_RAMP_INPUTS
        invariant
            i <= MAX_RAMP_INPUTS,
            out@ == head + rects_words(inputs@, sched.domain_of@, i as nat),
        decreases MAX_RAMP_INPUTS - i,
    {
        let o = if i < inputs.len() {
            Some(inputs[i])
        } else {
            None
        };
        assert(o == nth(inputs@, i as int));
        push_rect(&mut out, domain_of(sched, o));
        i += 1;
        assert(out@ =~= head + rects_words(inputs@, sched.domain_of@, i as nat));
    }
    assert(out@ =~= ramp_uniform(*r, size, dom.corners(), sched.domain_of@));
    out
}

/// The pipeline of a kind of layer.
pub open spec fn pipeline_of(kind: LayerKind) -> Pipeline {
    match kind {
        LayerKind::Color(_) => Pipeline::Color,
        LayerKind::Noise(_) => Pipeline::Noise,
        LayerKind::Coordinate(_) => Pipeline::Coordinate,
        LayerKind::Transform(_) => Pipeline::Transform,
        LayerKind::Mix(_) => Pipeline::Mix,
        LayerKind::GradientMap(_) => Pipeline::GradientMap,
        LayerKind::MinMax(_) => Pipeline::MinMax,
        LayerKind::HeightToNormal(_) => Pipeline::HeightToNormal,
        LayerKind::Warp(_) => Pipeline::Warp,
        LayerKind::Wave(_) => Pipeline::Wave,
        LayerKind::ColorRamp(_) => Pipeline::ColorRamp,
        LayerKind::Craters(_) => Pipeline::Craters,
    }
}

/// What a layer's pass reads, in the order of its bindings.
pub open spec fn layer_sources(kind: LayerKind, slots: Map<u64, u32>) -> Seq<Source> {
    match kind {
        LayerKind::Transform(t) => seq![source_of(slots, t.source)],
        LayerKind::Mix(m) => seq![
            source_of(slots, m.a),
            source_of(slots, m.b),
            source_of(slots, mix_factor_layer(m)),
        ],
        LayerKind::GradientMap(m) => seq![source_of(slots, m.value), source_of(slots, m.palette)],
        LayerKind::MinMax(m) => seq![source_of(slots, m.a), source_of(slots, m.b)],
        LayerKind::HeightToNormal(h) => seq![source_of(slots, h.source)],
        LayerKind::Warp(w) => seq![source_of(slots, w.source), source_of(slots, w.by)],
        LayerKind::Wave(w) => seq![source_of(slots, scalar_layer(w.input))],
        LayerKind::ColorRamp(r) => ramp_sources(first_reads(stop_ids(r.stops@)), slots),
        LayerKind::Craters(c) => seq![
            source_of(slots, scalar_layer(c.under)),
            source_of(slots, scalar_layer(c.density)),
        ],
        _ => Seq::empty(),
    }
}

/// The uniform of a layer's pass.
pub open spec fn layer_uniform(
    layer: Layer,
    ctx: EvalCtx,
    domains: Map<u64, Domain>,
    size: (u32, u32),
    at: Slice,
) -> Seq<Word> {
    let rect = rect_of(domains, Some(layer.id));
    match layer.kind {
        LayerKind::Color(c) => color_uniform(c, size),
        LayerKind::Noise(n) => noise_uniform(n, ctx.seed, size, at, rect),
        LayerKind::Coordinate(c) => coordinate_uniform(c, size, at, rect),
        LayerKind::Transform(t) => transform_uniform(t, size, at, rect, rect_of(domains, t.source)),
        LayerKind::Mix(m) => mix_uniform(m, ctx.params@, size, rect, domains),
        LayerKind::GradientMap(m) => gradient_map_uniform(
            size,
            rect,
            rect_of(domains, m.value),
            rect_of(domains, m.palette),
        ),
        LayerKind::MinMax(m) => min_max_uniform(
            m,
            size,
            rect,
            rect_of(domains, m.a),
            rect_of(domains, m.b),
        ),
        LayerKind::HeightToNormal(h) => height_to_normal_uniform(
            h,
            size,
            rect,
            rect_of(domains, h.source),
        ),
        LayerKind::Warp(w) => warp_uniform(
            w,
            size,
            rect,
            rect_of(domains, w.source),
            rect_of(domains, w.by),
        ),
        LayerKind::Wave(w) => wave_uniform(
            w,
            ctx.params@,
            size,
            rect,
            rect_of(domains, scalar_layer(w.input)),
        ),
        LayerKind::ColorRamp(r) => ramp_uniform(r, size, rect, domains),
        LayerKind::Craters(c) => craters_uniform(c, ctx, size, at, rect, domains),
    }
}

/// The stops of a layer's pass.
pub open spec fn layer_stops(kind: LayerKind, params: Map<Seq<char>, ParamValue>) -> Seq<Word> {
    match kind {
        LayerKind::ColorRamp(r) => ramp_words(r.stops@, first_reads(stop_ids(r.stops@)), params),
        _ => Seq::empty(),
    }
}

/// The pass that computes a layer into its slot.
pub open spec fn layer_pass(
    layer: Layer,
    ctx: EvalCtx,
    sched: Schedule,
    size: (u32, u32),
    at: Slice,
) -> PassView {
    PassView {
        pipeline: pipeline_of(layer.kind),
        target: Target::Slot(sched.slot_of@[layer.id.0]),
        sources: layer_sources(layer.kind, sched.slot_of@),
        uniform: layer_uniform(layer, ctx, sched.domain_of@, size, at),
        stops: layer_stops(layer.kind, ctx.params@),
    }
}

/// Everything that a layer of that kind reads has a slot.
pub open spec fn inputs_known(kind: LayerKind, slot_of: Map<u64, u32>) -> bool {
    forall|i: int|
        0 <= i < kind.input_ids().len() ==> slot_of.dom().contains(
            (#[trigger] kind.input_ids()[i]).0,
        )
}

/// The layer and everything it reads have slots.
pub open spec fn slots_known(layer: Layer, slot_of: Map<u64, u32>) -> bool {
    slot_of.dom().contains(layer.id.0) && inputs_known(layer.kind, slot_of)
}

/// The layer that a socket reads, if any, is an input of that kind of layer.
pub open spec fn is_read(kind: LayerKind, o: Option<LayerId>) -> bool {
    o matches Some(id) ==> kind.input_ids().contains(id)
}

/// Each socket's layer is among the inputs.
proof fn lemma_sockets_are_inputs(kind: LayerKind)
    ensures
        match kind {
            LayerKind::Transform(t) => is_read(kind, t.source),
            LayerKind::Mix(m) => is_read(kind, m.a) && is_read(kind, m.b) && is_read(
                kind,
                mix_factor_layer(m),
            ),
            LayerKind::GradientMap(m) => is_read(kind, m.value) && is_read(kind, m.palette),
            LayerKind::MinMax(m) => is_read(kind, m.a) && is_read(kind, m.b),
            LayerKind::HeightToNormal(h) => is_read(kind, h.source),
            LayerKind::Warp(w) => is_read(kind, w.source) && is_read(kind, w.by),
            LayerKind::Wave(w) => is_read(kind, scalar_layer(w.input)),
            LayerKind::Craters(c) => is_read(kind, scalar_layer(c.under)) && is_read(
                kind,
                scalar_layer(c.density),
            ),
            _ => true,
        },
{
    let ids = kind.input_ids();
    match kind {
        LayerKind::Transform(t) => lemma_socket_is_input(Seq::empty(), t.source, Seq::empty(), ids),
        LayerKind::HeightToNormal(h) => {
            lemma_socket_is_input(Seq::empty(), h.source, Seq::empty(), ids);
        },
        LayerKind::Mix(m) => {
            let (a, b) = (opt_ids(m.a), opt_ids(m.b));
            lemma_socket_is_input(Seq::empty(), m.a, b + m.factor.ids(), ids);
            lemma_socket_is_input(a, m.b, m.factor.ids(), ids);
            if let ScalarInput::Layer(id) = m.factor {
                lemma_socket_is_input(a + b, Some(id), Seq::empty(), ids);
            }
        },
        LayerKind::GradientMap(m) => {
            lemma_socket_is_input(Seq::empty(), m.value, opt_ids(m.palette), ids);
            lemma_socket_is_input(opt_ids(m.value), m.palette, Seq::empty(), ids);
        },
        LayerKind::MinMax(m) => {
            lemma_socket_is_input(Seq::empty(), m.a, opt_ids(m.b), ids);
            lemma_socket_is_input(opt_ids(m.a), m.b, Seq::empty(), ids);
        },
        LayerKind::Warp(w) => {
            lemma_socket_is_input(Seq::empty(), w.source, opt_ids(w.by), ids);
            lemma_socket_is_input(opt_ids(w.source), w.by, Seq::empty(), ids);
        },
        LayerKind::Wave(w) => {
            if let ScalarInput::Layer(id) = w.input {
                lemma_socket_is_input(Seq::empty(), Some(id), Seq::empty(), ids);
            }
        },
        LayerKind::Craters(c) => {
            if let ScalarInput::Layer(id) = c.under {
                lemma_socket_is_input(Seq::empty(), Some(id), c.density.ids(), ids);
            }
            if let ScalarInput::Layer(id) = c.density {
                lemma_socket_is_input(c.under.ids(), Some(id), Seq::empty(), ids);
            }
        },
        _ => {},
    }
}

proof fn lemma_socket_is_input(
    before: Seq<LayerId>,
    o: Option<LayerId>,
    after: Seq<LayerId>,
    ids: Seq<LayerId>,
)
    requires
        ids =~= before + opt_ids(o) + after,
    ensures
        o matches Some(id) ==> ids.contains(id),
{
    if let Some(id) = o {
        assert(ids[before.len() as int] == id);
    }
}

fn make_sources(kind: &LayerKind, sched: &Schedule) -> (r: Vec<Source>)
    requires
        kind !is ColorRamp,
        inputs_known(*kind, sched.slot_of@),
    ensures
        r@ == layer_sources(*kind, sched.slot_of@),
{
    proof {
        lemma_sockets_are_inputs(*kind);
        assert forall|id: LayerId| kind.input_ids().contains(
            id,
        ) implies #[trigger] sched.slot_of@.dom().contains(id.0) by {
            let i = kind.input_ids().index_of(id);
            assert(kind.input_ids()[i] == id);
        }
    }
    let mut out: Vec<Source> = Vec::new();
    match kind {
        LayerKind::Transform(t) => out.push(find_source(sched, t.source)),
        LayerKind::Mix(m) => {
            let factor = match &m.factor {
                ScalarInput::Layer(id) => Some(*id),
                _ => m.a,
            };
            out.push(find_source(sched, m.a));
            out.push(find_source(sched, m.b));
            out.push(find_source(sched, factor));
        },
        LayerKind::GradientMap(m) => {
            out.push(find_source(sched, m.value));
            out.push(find_source(sched, m.palette));
        },
        LayerKind::MinMax(m) => {
            out.push(find_source(sched, m.a));
            out.push(find_source(sched, m.b));
        },
        LayerKind::HeightToNormal(h) => out.push(find_source(sched, h.source)),
        LayerKind::Warp(w) => {
            out.push(find_source(sched, w.source));
            out.push(find_source(sched, w.by));
        },
        LayerKind::Wave(w) => out.push(find_source(sched, find_scalar_layer(&w.input))),
        LayerKind::Craters(c) => {
            out.push(find_source(sched, find_scalar_layer(&c.under)));
            out.push(find_source(sched, find_scalar_layer(&c.density)));
        },
        _ => {},
    }
    assert(out@ =~= layer_sources(*kind, sched.slot_of@));
    out
}

/// Makes the pass that computes a layer into its slot.
pub fn dispatch_kind(
    layer: &Layer,
    ctx: &EvalCtx,
    sched: &Schedule,
    size: (u32, u32),
    at: Slice,
) -> (res: Result<Pass, BakeError>)
    requires
        slots_known(*layer, sched.slot_of@),
        at.code() <= u32::MAX,
    ensures
        match refusal(layer.kind) {
            Some(why) => res == Err::<Pass, BakeError>(BakeError::Unsupported(why)),
            None => res is Ok && res->Ok_0@ == layer_pass(*layer, *ctx, *sched, size, at),
        },
{
    let target = Target::Slot(slot_of(sched, layer.id));
    let dom = domain_of(sched, Some(layer.id));
    let (pipeline, uniform) = match &layer.kind {
        LayerKind::Color(c) => (Pipeline::Color, make_color_uniform(*c, size)),
        LayerKind::Noise(n) => (Pipeline::Noise, make_noise_uniform(n, ctx.seed, size, at, dom)),
        LayerKind::Coordinate(c) => {
            (Pipeline::Coordinate, make_coordinate_uniform(c, size, at, dom))
        },
        LayerKind::Transform(t) => {
            let source = domain_of(sched, t.source);
            (Pipeline::Transform, make_transform_uniform(t, size, at, dom, source))
        },
        LayerKind::Mix(m) => (Pipeline::Mix, make_mix_uniform(m, ctx, size, dom, sched)),
        LayerKind::GradientMap(m) => {
            let (value, palette) = (domain_of(sched, m.value), domain_of(sched, m.palette));
            (Pipeline::GradientMap, make_gradient_map_uniform(size, dom, value, palette))
        },
        LayerKind::MinMax(m) => {
            let (a, b) = (domain_of(sched, m.a), domain_of(sched, m.b));
            (Pipeline::MinMax, make_min_max_uniform(m, size, dom, a, b))
        },
        LayerKind::HeightToNormal(h) => {
            let source = domain_of(sched, h.source);
            (Pipeline::HeightToNormal, make_height_to_normal_uniform(h, size, dom, source))
        },
        LayerKind::Warp(w) => {
            let (source, by) = (domain_of(sched, w.source), domain_of(sched, w.by));
            (Pipeline::Warp, make_warp_uniform(w, size, dom, source, by))
        },
        LayerKind::Wave(w) => {
            let input = domain_of(sched, find_scalar_layer(&w.input));
            (Pipeline::Wave, make_wave_uniform(w, ctx, size, dom, input))
        },
        LayerKind::ColorRamp(r) => {
            if r.stops.len() > MAX_RAMP_STOPS {
                return Err(BakeError::Unsupported("ColorRamp (>16 stops)"));
            }
            let inputs = match ramp_inputs(r) {
                Some(inputs) => inputs,
                None => {
                    return Err(
                        BakeError::Unsupported("ColorRamp (>8 unique layer-referenced stops)"),
                    );
                },
            };
            proof {
                let ids = layer.kind.input_ids();
                lemma_first_reads(ids);
                assert forall|i: int| 0 <= i < inputs@.len() implies sched.slot_of@.dom().contains(
                    (#[trigger] inputs@[i]).0,
                ) by {
                    assert(inputs@.contains(inputs@[i]));
                    let j = ids.index_of(inputs@[i]);
                    assert(ids[j] == inputs@[i]);
                }
            }
            let sources = make_ramp_sources(&inputs, sched);
            let stops = make_ramp_stops(r, &inputs, ctx);
            let uniform = make_ramp_uniform(r, &inputs, size, dom, sched);
            return Ok(Pass { pipeline: Pipeline::ColorRamp, target, sources, uniform, stops });
        },
        LayerKind::Craters(c) => {
            (Pipeline::Craters, make_craters_uniform(c, ctx, size, at, dom, sched))
        },
    };
    let sources = make_sources(&layer.kind, sched);
    let stops: Vec<Word> = Vec::new();
    Ok(Pass { pipeline, target, sources, uniform, stops })
}

/// A layer's pass reads as many textures as its pipeline's layout binds.
pub proof fn law_pass_fills_its_layout(kind: LayerKind, slots: Map<u64, u32>)
    ensures
        layer_sources(kind, slots).len() == pipeline_of(kind).source_count(),
{
}

/// A layout binds the uniform, the texture written, the stops and each texture
/// read at places of their own.
pub proof fn law_bindings_do_not_overlap(pipeline: Pipeline, i: int)
    requires
        0 <= i < pipeline.source_count(),
    ensures
        ({
            let source = pipeline.first_source_binding() + i;
            &&& source != 0
            &&& pipeline.target_binding() != Some(0u32)
            &&& pipeline.stops_binding() != Some(0u32)
            &&& pipeline.target_binding() matches Some(b) ==> source != b
            &&& pipeline.stops_binding() matches Some(b) ==> source != b
            &&& pipeline.target_binding() is Some && pipeline.stops_binding() is Some
                ==> pipeline.target_binding() != pipeline.stops_binding()
        }),
{
}

/// A pass reads no slot but those of its layer's inputs.
pub proof fn law_pass_reads_only_inputs(kind: LayerKind, slots: Map<u64, u32>, i: int)
    requires
        0 <= i < layer_sources(kind, slots).len(),
        layer_sources(kind, slots)[i] is Slot,
    ensures
        exists|id: LayerId| #[trigger]
            kind.input_ids().contains(id) && layer_sources(kind, slots)[i] == Source::Slot(
                slots[id.0],
            ),
{
    lemma_sockets_are_inputs(kind);
    let source = layer_sources(kind, slots)[i];
    let o: Option<LayerId> = match kind {
        LayerKind::Transform(t) => t.source,
        LayerKind::Mix(m) => if i == 0 {
            m.a
        } else if i == 1 {
            m.b
        } else {
            mix_factor_layer(m)
        },
        LayerKind::GradientMap(m) => if i == 0 {
            m.value
        } else {
            m.palette
        },
        LayerKind::MinMax(m) => if i == 0 {
            m.a
        } else {
            m.b
        },
        LayerKind::HeightToNormal(h) => h.source,
        LayerKind::Warp(w) => if i == 0 {
            w.source
        } else {
            w.by
        },
        LayerKind::Wave(w) => scalar_layer(w.input),
        LayerKind::Craters(c) => if i == 0 {
            scalar_layer(c.under)
        } else {
            scalar_layer(c.density)
        },
        LayerKind::ColorRamp(r) => nth(first_reads(stop_ids(r.stops@)), i),
        _ => None,
    };
    if let LayerKind::ColorRamp(r) = kind {
        let reads = first_reads(stop_ids(r.stops@));
        lemma_first_reads(stop_ids(r.stops@));
        assert(o is Some);
        assert(reads.contains(reads[i]));
    }
    assert(o is Some && kind.input_ids().contains(o->0) && source == Source::Slot(slots[(o->0).0]));
}

/// A stop that reads a layer is given the place at which its ramp's pass has
/// that layer's slot, whichever stops share it.
pub proof fn law_ramp_stop_reads_its_layer(r: ColorRamp, slots: Map<u64, u32>, k: int, id: LayerId)
    requires
        refusal(LayerKind::ColorRamp(r)) is None,
        0 <= k < r.stops@.len(),
        r.stops@[k].color == ColorInput::Layer(id),
    ensures
        ({
            let inputs = first_reads(stop_ids(r.stops@));
            let place = inputs.index_of(id);
            &&& 0 <= place < MAX_RAMP_INPUTS
            &&& layer_sources(LayerKind::ColorRamp(r), slots)[place] == Source::Slot(slots[id.0])
        }),
{
    let ids = stop_ids(r.stops@);
    lemma_first_reads(ids);
    lemma_stop_ids_split(r.stops@, k + 1);
    let taken = r.stops@.take(k + 1);
    assert(taken.last() == r.stops@[k]);
    let head = stop_ids(taken);
    assert(head.last() == id);
    assert(ids[head.len() - 1] == id);
    assert(ids.contains(id));
    let inputs = first_reads(ids);
    assert(inputs.contains(id));
    let place = inputs.index_of(id);
    assert(inputs[place] == id);
}

proof fn lemma_rects_words_len(inputs: Seq<LayerId>, domains: Map<u64, Domain>, n: nat)
    ensures
        rects_words(inputs, domains, n).len() == 4 * n,
    decreases n,
{
    if n > 0 {
        lemma_rects_words_len(inputs, domains, (n - 1) as nat);
    }
}

proof fn lemma_ramp_words_len(
    stops: Seq<ColorStop>,
    inputs: Seq<LayerId>,
    params: Map<Seq<char>, ParamValue>,
)
    ensures
        ramp_words(stops, inputs, params).len() == 8 * stops.len(),
    decreases stops.len(),
{
    if stops.len() > 0 {
        lemma_ramp_words_len(stops.drop_last(), inputs, params);
    }
}

proof fn lemma_noise_len(n: Noise, seed: u32, size: (u32, u32), at: Slice, rect: Seq<Scalar>)
    ensures
        noise_uniform(n, seed, size, at, rect).len() == 36,
{
    assert(map_words(at.rows()).len() == 12);
}

proof fn lemma_coordinate_len(c: Coordinate, size: (u32, u32), at: Slice, rect: Seq<Scalar>)
    ensures
        coordinate_uniform(c, size, at, rect).len() == 24,
{
    assert(map_words(at.rows()).len() == 12);
}

proof fn lemma_transform_len(
    t: Transform,
    size: (u32, u32),
    at: Slice,
    rect: Seq<Scalar>,
    source: Seq<Scalar>,
)
    ensures
        transform_uniform(t, size, at, rect, source).len() == 28,
{
    assert(coord_words(t.coord_mode).len() == 6);
}

proof fn lemma_mix_len(
    m: Mix,
    params: Map<Seq<char>, ParamValue>,
    size: (u32, u32),
    rect: Seq<Scalar>,
    domains: Map<u64, Domain>,
)
    ensures
        mix_uniform(m, params, size, rect, domains).len() == 24,
{
    assert(scalar_words(params, m.factor).len() == 2);
}

proof fn lemma_wave_len(
    w: Wave,
    params: Map<Seq<char>, ParamValue>,
    size: (u32, u32),
    rect: Seq<Scalar>,
    input: Seq<Scalar>,
)
    ensures
        wave_uniform(w, params, size, rect, input).len() == 16,
{
    assert(scalar_words(params, w.input).len() == 2);
}

proof fn lemma_craters_len(
    c: Craters,
    ctx: EvalCtx,
    size: (u32, u32),
    at: Slice,
    rect: Seq<Scalar>,
    domains: Map<u64, Domain>,
)
    ensures
        craters_uniform(c, ctx, size, at, rect, domains).len() == 44,
{
    assert(scalar_words(ctx.params@, c.under).len() == 2);
    assert(scalar_words(ctx.params@, c.density).len() == 2);
    assert(map_words(at.rows()).len() == 12);
}

/// The words of a uniform, which its shader declares.
pub open spec fn uniform_len(kind: LayerKind) -> nat {
    match kind {
        LayerKind::Color(_) => 8,
        LayerKind::Noise(_) => 36,
        LayerKind::Coordinate(_) => 24,
        LayerKind::Transform(_) => 28,
        LayerKind::Mix(_) => 24,
        LayerKind::GradientMap(_) => 16,
        LayerKind::MinMax(_) => 16,
        LayerKind::HeightToNormal(_) => 12,
        LayerKind::Warp(_) => 20,
        LayerKind::Wave(_) => 16,
        LayerKind::ColorRamp(_) => 40,
        LayerKind::Craters(_) => 44,
    }
}

/// The uniform of a kind of layer always has the same length, a whole number of
/// rows of four words, as a uniform buffer has to be; and a ramp's stops take
/// eight words each.
pub proof fn law_uniforms_fill_whole_rows(
    layer: Layer,
    ctx: EvalCtx,
    domains: Map<u64, Domain>,
    size: (u32, u32),
    at: Slice,
)
    ensures
        layer_uniform(layer, ctx, domains, size, at).len() == uniform_len(layer.kind),
        uniform_len(layer.kind) % 4 == 0,
        layer.kind matches LayerKind::ColorRamp(r) ==> layer_stops(layer.kind, ctx.params@).len()
            == 8 * r.stops@.len(),
{
    let rect = rect_of(domains, Some(layer.id));
    match layer.kind {
        LayerKind::Noise(n) => lemma_noise_len(n, ctx.seed, size, at, rect),
        LayerKind::Coordinate(c) => lemma_coordinate_len(c, size, at, rect),
        LayerKind::Transform(t) => {
            lemma_transform_len(t, size, at, rect, rect_of(domains, t.source));
        },
        LayerKind::Mix(m) => lemma_mix_len(m, ctx.params@, size, rect, domains),
        LayerKind::Wave(w) => {
            let input = rect_of(domains, scalar_layer(w.input));
            lemma_wave_len(w, ctx.params@, size, rect, input);
        },
        LayerKind::Craters(c) => lemma_craters_len(c, ctx, size, at, rect, domains),
        LayerKind::ColorRamp(r) => {
            let inputs = first_reads(stop_ids(r.stops@));
            lemma_rects_words_len(inputs, domains, MAX_RAMP_INPUTS as nat);
            lemma_ramp_words_len(r.stops@, inputs, ctx.params@);
        },
        _ => {},
    }
}

} // verus!
