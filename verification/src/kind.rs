//! The kinds of layer and their settings.
use vstd::prelude::*;

use crate::color::{BlendSpace, Color};
use crate::id::LayerId;
use crate::param::ParamUse;
use crate::scalar::Scalar;

verus! {

/// The bits of 0.1.
pub const TENTH_BITS: u32 = 0x3dcc_cccd;

/// The bits of 0.4.
pub const FOUR_TENTHS_BITS: u32 = 0x3ecc_cccd;

/// The bits of 0.6.
pub const SIX_TENTHS_BITS: u32 = 0x3f19_999a;

/// The bits of 2.0.
pub const TWO_BITS: u32 = 0x4000_0000;

/// The bits of 4.0.
pub const FOUR_BITS: u32 = 0x4080_0000;

/// The bits of 10.0.
pub const TEN_BITS: u32 = 0x4120_0000;

/// A node's type and settings.
#[derive(Clone, Debug)]
pub enum LayerKind {
    Color(Color),
    Noise(Noise),
    ColorRamp(ColorRamp),
    Transform(Transform),
    Mix(Mix),
    GradientMap(GradientMap),
    MinMax(MinMax),
    HeightToNormal(HeightToNormal),
    Wave(Wave),
    Warp(Warp),
    Coordinate(Coordinate),
    Craters(Craters),
}

/// A nullable socket as a list of none or one layer.
pub open spec fn opt_ids(o: Option<LayerId>) -> Seq<LayerId> {
    match o {
        Some(id) => seq![id],
        None => Seq::empty(),
    }
}

/// The layers that a ramp's stops read, stop by stop.
pub open spec fn stop_ids(stops: Seq<ColorStop>) -> Seq<LayerId>
    decreases stops.len(),
{
    if stops.len() == 0 {
        Seq::empty()
    } else {
        stop_ids(stops.drop_last()) + stops.last().color.ids()
    }
}

/// The parameters that a ramp's stops read, stop by stop.
pub open spec fn stop_refs(stops: Seq<ColorStop>) -> Seq<(Seq<char>, ParamUse)>
    decreases stops.len(),
{
    if stops.len() == 0 {
        Seq::empty()
    } else {
        stop_refs(stops.drop_last()) + stops.last().color.refs()
    }
}

/// A list of references, each name by its text.
pub open spec fn refs_view(refs: Seq<(&str, ParamUse)>) -> Seq<(Seq<char>, ParamUse)> {
    refs.map_values(|r: (&str, ParamUse)| (r.0@, r.1))
}

/// Appends the layer a nullable socket reads.
pub(crate) fn push_opt(out: &mut Vec<LayerId>, o: Option<LayerId>)
    ensures
        final(out)@ == old(out)@ + opt_ids(o),
{
    if let Some(id) = o {
        out.push(id);
    }
    assert(out@ =~= old(out)@ + opt_ids(o));
}

/// Appends the layer a scalar socket reads.
pub(crate) fn push_scalar(out: &mut Vec<LayerId>, si: &ScalarInput)
    ensures
        final(out)@ == old(out)@ + si.ids(),
{
    if let ScalarInput::Layer(id) = si {
        out.push(*id);
    }
    assert(out@ =~= old(out)@ + si.ids());
}

/// Appends the layer a color socket reads.
fn push_color(out: &mut Vec<LayerId>, ci: &ColorInput)
    ensures
        final(out)@ == old(out)@ + ci.ids(),
{
    if let ColorInput::Layer(id) = ci {
        out.push(*id);
    }
    assert(out@ =~= old(out)@ + ci.ids());
}

/// Appends the parameter a scalar socket reads.
pub(crate) fn push_scalar_ref<'a>(out: &mut Vec<(&'a str, ParamUse)>, si: &'a ScalarInput)
    ensures
        refs_view(final(out)@) == refs_view(old(out)@) + si.refs(),
{
    if let ScalarInput::Param(name) = si {
        out.push((name.as_str(), ParamUse::Scalar));
    }
    assert(refs_view(out@) =~= refs_view(old(out)@) + si.refs());
}

impl LayerKind {
    /// The name of the kind.
    #[verifier::allow_in_spec]
    pub fn category_label(&self) -> &'static str
        returns
            (match self {
                LayerKind::Color(_) => "Color",
                LayerKind::Noise(_) => "Noise",
                LayerKind::ColorRamp(_) => "ColorRamp",
                LayerKind::Transform(_) => "Transform",
                LayerKind::Mix(_) => "Mix",
                LayerKind::GradientMap(_) => "Map",
                LayerKind::MinMax(_) => "MinMax",
                LayerKind::HeightToNormal(_) => "HeightToNormal",
                LayerKind::Wave(_) => "Wave",
                LayerKind::Warp(_) => "Warp",
                LayerKind::Coordinate(_) => "Coordinate",
                LayerKind::Craters(_) => "Craters",
            }),
    {
        match self {
            LayerKind::Color(_) => "Color",
            LayerKind::Noise(_) => "Noise",
            LayerKind::ColorRamp(_) => "ColorRamp",
            LayerKind::Transform(_) => "Transform",
            LayerKind::Mix(_) => "Mix",
            LayerKind::GradientMap(_) => "Map",
            LayerKind::MinMax(_) => "MinMax",
            LayerKind::HeightToNormal(_) => "HeightToNormal",
            LayerKind::Wave(_) => "Wave",
            LayerKind::Warp(_) => "Warp",
            LayerKind::Coordinate(_) => "Coordinate",
            LayerKind::Craters(_) => "Craters",
        }
    }

    /// Every layer this node depends on, in the order of its sockets.
    pub open spec fn input_ids(&self) -> Seq<LayerId> {
        match self {
            LayerKind::Color(_) => Seq::empty(),
            LayerKind::Noise(_) => Seq::empty(),
            LayerKind::Coordinate(_) => Seq::empty(),
            LayerKind::ColorRamp(r) => stop_ids(r.stops@),
            LayerKind::Transform(t) => opt_ids(t.source),
            LayerKind::Mix(m) => opt_ids(m.a) + opt_ids(m.b) + m.factor.ids(),
            LayerKind::GradientMap(m) => opt_ids(m.value) + opt_ids(m.palette),
            LayerKind::MinMax(mm) => opt_ids(mm.a) + opt_ids(mm.b),
            LayerKind::HeightToNormal(h) => opt_ids(h.source),
            LayerKind::Wave(w) => w.input.ids(),
            LayerKind::Warp(w) => opt_ids(w.source) + opt_ids(w.by),
            LayerKind::Craters(c) => c.under.ids() + c.density.ids(),
        }
    }

    /// Every layer this node depends on, in the order of its sockets. A layer
    /// that two sockets read occurs twice.
    pub fn inputs(&self) -> (r: Vec<LayerId>)
        ensures
            r@ == self.input_ids(),
    {
        let mut out: Vec<LayerId> = Vec::new();
        match self {
            LayerKind::Color(_) | LayerKind::Noise(_) | LayerKind::Coordinate(_) => {},
            LayerKind::ColorRamp(r) => {
                let mut i: usize = 0;
                while i < r.stops.len()
                    invariant
                        i <= r.stops@.len(),
                        out@ == stop_ids(r.stops@.take(i as int)),
                    decreases r.stops@.len() - i,
                {
                    push_color(&mut out, &r.stops[i].color);
                    assert(r.stops@.take(i + 1).drop_last() =~= r.stops@.take(i as int));
                    i += 1;
                }
                assert(r.stops@.take(i as int) =~= r.stops@);
            },
            LayerKind::Transform(t) => push_opt(&mut out, t.source),
            LayerKind::Mix(m) => {
                push_opt(&mut out, m.a);
                push_opt(&mut out, m.b);
                push_scalar(&mut out, &m.factor);
            },
            LayerKind::GradientMap(m) => {
                push_opt(&mut out, m.value);
                push_opt(&mut out, m.palette);
            },
            LayerKind::MinMax(mm) => {
                push_opt(&mut out, mm.a);
                push_opt(&mut out, mm.b);
            },
            LayerKind::HeightToNormal(h) => push_opt(&mut out, h.source),
            LayerKind::Wave(w) => push_scalar(&mut out, &w.input),
            LayerKind::Warp(w) => {
                push_opt(&mut out, w.source);
                push_opt(&mut out, w.by);
            },
            LayerKind::Craters(c) => {
                push_scalar(&mut out, &c.under);
                push_scalar(&mut out, &c.density);
            },
        }
        assert(out@ =~= self.input_ids());
        out
    }

    /// Every parameter this node reads, with the sort of socket reading it.
    pub open spec fn ref_names(&self) -> Seq<(Seq<char>, ParamUse)> {
        match self {
            LayerKind::ColorRamp(r) => stop_refs(r.stops@),
            LayerKind::Mix(m) => m.factor.refs(),
            LayerKind::Wave(w) => w.input.refs(),
            LayerKind::Craters(c) => c.under.refs() + c.density.refs(),
            _ => Seq::empty(),
        }
    }

    /// Every parameter this node reads, with the sort of socket reading it.
    pub fn param_refs(&self) -> (r: Vec<(&str, ParamUse)>)
        ensures
            refs_view(r@) == self.ref_names(),
    {
        let mut out: Vec<(&str, ParamUse)> = Vec::new();
        assert(refs_view(out@) =~= Seq::<(Seq<char>, ParamUse)>::empty());
        match self {
            LayerKind::ColorRamp(r) => {
                let mut i: usize = 0;
                while i < r.stops.len()
                    invariant
                        i <= r.stops@.len(),
                        refs_view(out@) == stop_refs(r.stops@.take(i as int)),
                    decreases r.stops@.len() - i,
                {
                    let ghost before = out@;
                    if let ColorInput::Param(name) = &r.stops[i].color {
                        out.push((name.as_str(), ParamUse::Color));
                    }
                    assert(refs_view(out@) =~= refs_view(before)
                        + r.stops@[i as int].color.refs());
                    assert(r.stops@.take(i + 1).drop_last() =~= r.stops@.take(i as int));
                    i += 1;
                }
                assert(r.stops@.take(i as int) =~= r.stops@);
            },
            LayerKind::Mix(m) => push_scalar_ref(&mut out, &m.factor),
            LayerKind::Wave(w) => push_scalar_ref(&mut out, &w.input),
            LayerKind::Craters(c) => {
                push_scalar_ref(&mut out, &c.under);
                push_scalar_ref(&mut out, &c.density);
            },
            _ => {},
        }
        assert(refs_view(out@) =~= self.ref_names());
        out
    }
}

/// A color-valued input.
#[derive(Debug)]
pub enum ColorInput {
    Const(Color),
    Layer(LayerId),
    /// A parameter of the graph, bound per bake. Must be declared as a color.
    /// In a compute pass it becomes the same uniform a `Const` would.
    Param(String),
}

impl Clone for ColorInput {
    fn clone(&self) -> (r: Self)
        ensures
            r == *self,
    {
        match self {
            ColorInput::Const(c) => ColorInput::Const(*c),
            ColorInput::Layer(id) => ColorInput::Layer(*id),
            ColorInput::Param(name) => ColorInput::Param(name.clone()),
        }
    }
}

impl ColorInput {
    /// The layer the socket reads, as a list of none or one.
    pub open spec fn ids(self) -> Seq<LayerId> {
        match self {
            ColorInput::Layer(id) => seq![id],
            _ => Seq::empty(),
        }
    }

    /// The parameter the socket reads, as a list of none or one.
    pub open spec fn refs(self) -> Seq<(Seq<char>, ParamUse)> {
        match self {
            ColorInput::Param(name) => seq![(name@, ParamUse::Color)],
            _ => Seq::empty(),
        }
    }
}

/// A scalar-valued input. A layer is read as its Oklch L.
#[derive(Debug)]
pub enum ScalarInput {
    Const(Scalar),
    Layer(LayerId),
    /// As [`ColorInput::Param`], declared as a scalar.
    Param(String),
}

impl Clone for ScalarInput {
    fn clone(&self) -> (r: Self)
        ensures
            r == *self,
    {
        match self {
            ScalarInput::Const(v) => ScalarInput::Const(*v),
            ScalarInput::Layer(id) => ScalarInput::Layer(*id),
            ScalarInput::Param(name) => ScalarInput::Param(name.clone()),
        }
    }
}

impl ScalarInput {
    /// The layer the socket reads, as a list of none or one.
    pub open spec fn ids(self) -> Seq<LayerId> {
        match self {
            ScalarInput::Layer(id) => seq![id],
            _ => Seq::empty(),
        }
    }

    /// The parameter the socket reads, as a list of none or one.
    pub open spec fn refs(self) -> Seq<(Seq<char>, ParamUse)> {
        match self {
            ScalarInput::Param(name) => seq![(name@, ParamUse::Scalar)],
            _ => Seq::empty(),
        }
    }
}

#[derive(Clone, Copy, Debug)]
pub struct Noise {
    pub dims: NoiseDims,
    pub seed_offset: u32,
    /// Cycles per unit of sample space.
    pub frequency: Scalar,
    pub range: NoiseRange,
    pub output: NoiseOutput,
    pub kernel: NoiseKernel,
    /// Lattice period in cells per axis; `0` is unbounded. The field
    /// repeats every `period / frequency` units, so it tiles the unit cube
    /// when `period == frequency` and both are integral.
    ///
    /// [`NoiseKernel::Value`] only; the graph rejects a nonzero period on
    /// `Simplex`. Tiled 3D simplex needs a 6D kernel, which this crate lacks.
    pub period: [u32; 3],
    pub fractal: Fractal,
}

impl Default for Noise {
    fn default() -> (r: Self)
        ensures
            r.dims == NoiseDims::D2,
            r.seed_offset == 0,
            r.frequency.bits == FOUR_BITS,
            r.range == NoiseRange::Unsigned,
            r.output == NoiseOutput::Grayscale,
            r.kernel == NoiseKernel::Simplex,
            r.period@ == seq![0u32, 0u32, 0u32],
            r.fractal == Fractal::single(),
    {
        Noise {
            dims: NoiseDims::D2,
            seed_offset: 0,
            frequency: Scalar::from_bits(FOUR_BITS),
            range: NoiseRange::Unsigned,
            output: NoiseOutput::Grayscale,
            kernel: NoiseKernel::Simplex,
            period: [0, 0, 0],
            fractal: Fractal::single(),
        }
    }
}

/// The base field that a [`Noise`] samples.
#[derive(Clone, Copy, Debug, PartialEq, Eq, Structural, Hash)]
pub enum NoiseKernel {
    /// Gustavson simplex. Cannot tile.
    Simplex,
    /// Trilinear value noise on an integer lattice, smoothstep weights.
    /// Can tile.
    Value,
}

impl Default for NoiseKernel {
    fn default() -> (r: Self)
        ensures
            r == NoiseKernel::Simplex,
    {
        NoiseKernel::Simplex
    }
}

/// Octave stack. Part of [`Noise`] rather than a separate node because the
/// baker evaluates each layer once per pixel over a fixed domain, so a
/// downstream node cannot re-sample its input at another scale.
#[derive(Clone, Copy, Debug, PartialEq, Eq, Structural, Hash)]
pub struct Fractal {
    /// One to eight. 1 is exactly the bare kernel.
    pub octaves: u32,
    /// Frequency multiplier per octave. Only an integral value keeps a
    /// [`Noise::period`] tiling exactly.
    pub lacunarity: Scalar,
    /// Amplitude multiplier per octave.
    pub gain: Scalar,
    pub mode: FractalMode,
    /// Divide by the sum of amplitudes so the result stays in range.
    pub normalize: bool,
}

impl Fractal {
    /// One octave, the bare kernel.
    #[verifier::allow_in_spec]
    pub fn single() -> Fractal
        returns
            (Fractal {
                octaves: 1,
                lacunarity: Scalar { bits: TWO_BITS },
                gain: Scalar::half(),
                mode: FractalMode::Standard,
                normalize: true,
            }),
    {
        Fractal {
            octaves: 1,
            lacunarity: Scalar { bits: TWO_BITS },
            gain: Scalar::half(),
            mode: FractalMode::Standard,
            normalize: true,
        }
    }
}

impl Default for Fractal {
    fn default() -> (r: Self)
        ensures
            r == Fractal::single(),
    {
        Fractal::single()
    }
}

/// How each octave's signed sample `r ∈ [-1, 1]` is shaped before it is summed.
#[derive(Clone, Copy, Debug, PartialEq, Eq, Structural, Hash)]
pub enum FractalMode {
    /// `Σ aᵢ · r(fᵢx)`, ordinary fbm.
    Standard,
    /// `Σ aᵢ · |r|`.
    Turbulence,
    /// `Σ aᵢ · (1 - |r|)²`.
    Ridged,
}

impl Default for FractalMode {
    fn default() -> (r: Self)
        ensures
            r == FractalMode::Standard,
    {
        FractalMode::Standard
    }
}

#[derive(Clone, Copy, Debug, PartialEq, Eq, Structural, Hash)]
pub enum NoiseDims {
    D1,
    D2,
    D3,
}

#[derive(Clone, Copy, Debug, PartialEq, Eq, Structural, Hash)]
pub enum NoiseRange {
    /// `[0, 1]`.
    Unsigned,
    /// `[-1, 1]`.
    Signed,
}

#[derive(Clone, Copy, Debug, PartialEq, Eq, Structural, Hash)]
pub enum NoiseOutput {
    /// One sample drives L; C = 0.
    Grayscale,
    /// Three independent samples drive L, C and hue.
    Color,
}

/// Color ramp sampled along U. Evaluation assumes `stops` sorted by `t`; the
/// graph does not enforce it.
#[derive(Clone, Debug)]
pub struct ColorRamp {
    pub stops: Vec<ColorStop>,
    pub space: BlendSpace,
}

#[derive(Clone, Debug)]
pub struct ColorStop {
    pub t: Scalar,
    pub color: ColorInput,
}

/// Moves the sample point before evaluating `source`: subtract `offset`
/// (the center for rotation and radial modes), rotate by `rotate_uv`,
/// multiply by `scale`, then apply `coord_mode`.
#[derive(Clone, Copy, Debug)]
pub struct Transform {
    /// `None` renders as the missing-texture grid.
    pub source: Option<LayerId>,
    pub offset: [Scalar; 3],
    /// Radians, in the UV plane.
    pub rotate_uv: Scalar,
    pub scale: [Scalar; 3],
    pub coord_mode: CoordMode,
    pub edge_mode: EdgeMode,
}

/// What a [`Transform`] does when U or V leaves `[0, 1]`.
#[derive(Clone, Copy, Debug, PartialEq, Eq, Structural, Hash)]
pub enum EdgeMode {
    /// Clamp U and V to `[0, 1]`.
    Clamp,
    /// Sample beyond `[0, 1]`. Unbounded for affine modes; radial modes
    /// show the missing-texture grid past [`EXTEND_LIMIT_BITS`].
    Extend,
}

impl Default for EdgeMode {
    fn default() -> (r: Self)
        ensures
            r == EdgeMode::Clamp,
    {
        EdgeMode::Clamp
    }
}

/// How far a radial [`EdgeMode::Extend`] transform may sample from 0.5 on
/// U and V: the bits of 8.0. Outside 0.5 plus or minus that the missing-texture grid shows.
pub const EXTEND_LIMIT_BITS: u32 = 0x4100_0000;

#[derive(Clone, Copy, Debug)]
pub enum CoordMode {
    Passthrough,
    /// `[V, U, W]` swaps u and v.
    Permute([Axis; 3]),
    /// Distance from the origin, fed into axis `into`; the others are 0.
    Radial { dim: RadialDim, into: Axis },
}

#[derive(Clone, Copy, Debug, PartialEq, Eq, Structural, Hash)]
pub enum Axis {
    U,
    V,
    W,
}

impl Default for Axis {
    fn default() -> (r: Self)
        ensures
            r == Axis::U,
    {
        Axis::U
    }
}

#[derive(Clone, Copy, Debug, PartialEq, Eq, Structural, Hash)]
pub enum RadialDim {
    /// `sqrt(u² + v²)`.
    D2,
    /// `sqrt(u² + v² + w²)`.
    D3,
}

#[derive(Clone, Debug)]
pub struct Mix {
    /// `None` renders as the missing-texture grid.
    pub a: Option<LayerId>,
    pub b: Option<LayerId>,
    pub mode: BlendMode,
    /// Only used by `BlendMode::Blend`.
    pub factor: ScalarInput,
    /// Only used by `BlendMode::Blend`.
    pub space: BlendSpace,
}

#[derive(Clone, Copy, Debug, PartialEq, Eq, Structural, Hash)]
pub enum BlendMode {
    Add,
    Subtract,
    Multiply,
    Blend,
}

/// Gradient map: samples `palette` at `(L, 0, 0)`, where L is `value`'s.
#[derive(Clone, Copy, Debug)]
pub struct GradientMap {
    /// `None` renders as the missing-texture grid.
    pub value: Option<LayerId>,
    pub palette: Option<LayerId>,
}

/// Tangent-space normal map from `source`'s L as height. `strength` scales
/// the slope.
#[derive(Clone, Copy, Debug)]
pub struct HeightToNormal {
    /// `None` renders as the missing-texture grid.
    pub source: Option<LayerId>,
    pub strength: Scalar,
}

/// Domain warp: displace the sample point by `by`'s value times `amount`,
/// then read `source` there. The value is not recentered, so an unsigned
/// driver pushes in one direction only.
///
/// The driver is assumed to lie in `[-1, 1]`. The baker grows `source`'s
/// domain by `|amount|` per axis, capped at [`EXTEND_LIMIT_BITS`]; a displacement
/// beyond that shows the missing-texture grid on both backends.
///
/// `amount[2]` works on the CPU only. The GPU bakes each slice's inputs at
/// that slice's `w` and cannot re-sample them at another, so leave it at
/// zero unless the CPU evaluator is the only consumer.
#[derive(Clone, Copy, Debug)]
pub struct Warp {
    /// `None` renders as the missing-texture grid.
    pub source: Option<LayerId>,
    /// `None` displaces by the missing-texture grid's values, so the
    /// mistake is visible.
    pub by: Option<LayerId>,
    pub mode: WarpMode,
    /// Per-axis scale on the displacement, in sample-space units.
    pub amount: [Scalar; 3],
}

impl Default for Warp {
    fn default() -> (r: Self)
        ensures
            r.source is None,
            r.by is None,
            r.mode == WarpMode::Scalar,
            r.amount@ == seq![
                Scalar { bits: TENTH_BITS },
                Scalar { bits: TENTH_BITS },
                Scalar::zero(),
            ],
    {
        Warp {
            source: None,
            by: None,
            mode: WarpMode::Scalar,
            amount: [
                Scalar::from_bits(TENTH_BITS),
                Scalar::from_bits(TENTH_BITS),
                Scalar::zero(),
            ],
        }
    }
}

#[derive(Clone, Copy, Debug, PartialEq, Eq, Structural, Hash)]
pub enum WarpMode {
    /// The driver's L displaces all three axes.
    Scalar,
    /// L, C and hue / 360 drive x, y and z. They differ in scale (Color
    /// noise puts chroma in `[0, 0.15]`), which is why `amount` is per-axis.
    Vector,
}

impl Default for WarpMode {
    fn default() -> (r: Self)
        ensures
            r == WarpMode::Scalar,
    {
        WarpMode::Scalar
    }
}

/// A periodic waveform of `input * frequency + phase`, output as gray.
///
/// Not bound by the noise op-order contract: [`WaveShape::Sine`] is
/// transcendental, so CPU and GPU agree to within one sRGB step rather than
/// bit-exactly.
#[derive(Clone, Debug)]
pub struct Wave {
    pub input: ScalarInput,
    pub shape: WaveShape,
    /// Cycles per unit of `input`. A shader's `sin(x * k)` is
    /// `frequency: k / 2π`.
    pub frequency: Scalar,
    /// Offset in cycles, not radians.
    pub phase: Scalar,
    pub range: NoiseRange,
}

impl Default for Wave {
    fn default() -> (r: Self)
        ensures
            r.input == ScalarInput::Const(Scalar::half()),
            r.shape == WaveShape::Sine,
            r.frequency.bits == FOUR_BITS,
            r.phase == Scalar::zero(),
            r.range == NoiseRange::Unsigned,
    {
        Wave {
            input: ScalarInput::Const(Scalar::half()),
            shape: WaveShape::Sine,
            frequency: Scalar::from_bits(FOUR_BITS),
            phase: Scalar::zero(),
            range: NoiseRange::Unsigned,
        }
    }
}

/// One axis of the sample point as a gray: L is the coordinate, unclamped.
/// In a sphere bake `V` is the point's height, not a row of the face.
#[derive(Clone, Copy, Debug, PartialEq, Eq, Structural, Hash)]
pub struct Coordinate {
    pub axis: Axis,
}

impl Default for Coordinate {
    fn default() -> (r: Self)
        ensures
            r.axis == Axis::U,
    {
        Coordinate { axis: Axis::U }
    }
}

/// Defined over the phase `t ∈ [0, 1)`, with output in `[-1, 1]`.
#[derive(Clone, Copy, Debug, PartialEq, Eq, Structural, Hash)]
pub enum WaveShape {
    /// `sin(2πt)`.
    Sine,
    /// In phase with `Sine`: 0 at `t = 0`, peak at `t = 0.25`.
    Triangle,
    /// The sign of `Sine`.
    Square,
    /// Rises from `-1` to `+1` across the cycle. Not in phase with `Sine`.
    Sawtooth,
}

impl Default for WaveShape {
    fn default() -> (r: Self)
        ensures
            r == WaveShape::Sine,
    {
        WaveShape::Sine
    }
}

/// Per pixel, outputs whichever input wins on `criterion`, all channels
/// included.
#[derive(Clone, Copy, Debug)]
pub struct MinMax {
    /// `None` renders as the missing-texture grid.
    pub a: Option<LayerId>,
    pub b: Option<LayerId>,
    pub mode: MinMaxMode,
    pub criterion: Criterion,
}

#[derive(Clone, Copy, Debug, PartialEq, Eq, Structural, Hash)]
pub enum MinMaxMode {
    Min,
    Max,
}

/// RGB, Saturation, Value and Luma are read in gamma-encoded sRGB, so they
/// match what a monitor shows. Alpha and Chroma come from Oklcha.
#[derive(Clone, Copy, Debug, PartialEq, Eq, Structural, Hash)]
pub enum Criterion {
    Red,
    Green,
    Blue,
    Saturation,
    Value,
    /// Rec.709 weights: `0.2126R + 0.7152G + 0.0722B`.
    Luma,
    Alpha,
    Chroma,
}

/// A scatter of impact craters over `under`, as height or as the brightness
/// of their ejecta. Chain nodes through `under` for successive series of
/// impacts.
///
/// Height is `under` plus relief in sample-space units times `relief`, about
/// the level of the ground, 0.5. Two nodes that differ only in `output` place
/// the same craters.
#[derive(Clone, Debug)]
pub struct Craters {
    pub under: ScalarInput,
    /// Share of the largest class's cells holding a crater, `[0, 1]`. A layer
    /// is read where each pixel is, so it fades craters across its gradients
    /// rather than deciding them whole.
    pub density: ScalarInput,
    pub seed_offset: u32,
    /// Cells per unit of sample space in the largest class. A rim is at most a
    /// fifth of a cell in radius.
    pub frequency: Scalar,
    /// Size classes, each half the last, one to six.
    pub classes: u32,
    /// Occupancy per class relative to the class before: 1 is a `D^-2`
    /// cumulative count, more favors small craters.
    pub gain: Scalar,
    /// Bowl depth over rim radius, fresh and simple. The Moon's is about 0.4.
    pub depth: Scalar,
    /// `[0, 1]`: shallower bowls, lower rims and darker ejecta.
    pub age: Scalar,
    /// `[0, 1]`: how far a crater wipes out what was there before.
    pub erase: Scalar,
    /// Central peak in bowl depths, on the largest craters.
    pub peak: Scalar,
    /// `[0, 1]`: how much of the ejecta's brightness is in rays.
    pub rays: Scalar,
    pub relief: Scalar,
    pub surface: CraterSurface,
    pub output: CraterOutput,
}

impl Default for Craters {
    fn default() -> (r: Self)
        ensures
            r.under == ScalarInput::Const(Scalar::half()),
            r.density == ScalarInput::Const(Scalar { bits: SIX_TENTHS_BITS }),
            r.seed_offset == 0,
            r.frequency.bits == FOUR_BITS,
            r.classes == 4,
            r.gain == Scalar::one(),
            r.depth.bits == FOUR_TENTHS_BITS,
            r.age == Scalar::zero(),
            r.erase == Scalar::one(),
            r.peak == Scalar::half(),
            r.rays == Scalar::half(),
            r.relief.bits == TEN_BITS,
            r.surface == CraterSurface::Plane,
            r.output == CraterOutput::Height,
    {
        Craters {
            under: ScalarInput::Const(Scalar::half()),
            density: ScalarInput::Const(Scalar::from_bits(SIX_TENTHS_BITS)),
            seed_offset: 0,
            frequency: Scalar::from_bits(FOUR_BITS),
            classes: 4,
            gain: Scalar::one(),
            depth: Scalar::from_bits(FOUR_TENTHS_BITS),
            age: Scalar::zero(),
            erase: Scalar::one(),
            peak: Scalar::half(),
            rays: Scalar::half(),
            relief: Scalar::from_bits(TEN_BITS),
            surface: CraterSurface::Plane,
            output: CraterOutput::Height,
        }
    }
}

/// Which way is up, so a crater is round on the surface being baked.
#[derive(Clone, Copy, Debug, PartialEq, Eq, Structural, Hash)]
pub enum CraterSurface {
    /// `+w`, for a flat bake.
    Plane,
    /// Away from the unit cube's center, for a sphere bake.
    Sphere,
}

impl Default for CraterSurface {
    fn default() -> (r: Self)
        ensures
            r == CraterSurface::Plane,
    {
        CraterSurface::Plane
    }
}

#[derive(Clone, Copy, Debug, PartialEq, Eq, Structural, Hash)]
pub enum CraterOutput {
    Height,
    /// Fresh ejecta's brightness in `[0, 1]`, rays included, over `under`.
    Ejecta,
}

impl Default for CraterOutput {
    fn default() -> (r: Self)
        ensures
            r == CraterOutput::Height,
    {
        CraterOutput::Height
    }
}

/// A nullable socket reads `id`.
pub open spec fn opt_reads(o: Option<LayerId>, id: LayerId) -> bool {
    o is Some && o->Some_0 == id
}

/// A scalar socket reads `id`.
pub open spec fn scalar_reads(s: ScalarInput, id: LayerId) -> bool {
    s is Layer && s->Layer_0 == id
}

/// A color socket reads `id`.
pub open spec fn color_reads(c: ColorInput, id: LayerId) -> bool {
    c is Layer && c->Layer_0 == id
}

proof fn lemma_opt_holds(o: Option<LayerId>, id: LayerId)
    ensures
        opt_ids(o).contains(id) <==> opt_reads(o, id),
{
    if opt_reads(o, id) {
        assert(opt_ids(o)[0] == id);
    }
}

proof fn lemma_scalar_holds(s: ScalarInput, id: LayerId)
    ensures
        s.ids().contains(id) <==> scalar_reads(s, id),
{
    if scalar_reads(s, id) {
        assert(s.ids()[0] == id);
    }
}

proof fn lemma_stops_hold(stops: Seq<ColorStop>, id: LayerId)
    ensures
        stop_ids(stops).contains(id) <==> exists|i: int|
            0 <= i < stops.len() && color_reads((#[trigger] stops[i]).color, id),
    decreases stops.len(),
{
    if stops.len() > 0 {
        let front = stops.drop_last();
        let n = stops.len() - 1;
        lemma_stops_hold(front, id);
        let c = stops[n].color;
        assert(c.ids().contains(id) <==> color_reads(c, id)) by {
            if color_reads(c, id) {
                assert(c.ids()[0] == id);
            }
        }
        lemma_either_holds(stop_ids(front), c.ids(), id);
        if stop_ids(stops).contains(id) {
            if color_reads(c, id) {
                assert(color_reads(stops[n].color, id));
            } else {
                let i = choose|i: int|
                    0 <= i < front.len() && color_reads((#[trigger] front[i]).color, id);
                assert(stops[i] == front[i]);
            }
        }
        if exists|i: int| 0 <= i < stops.len() && color_reads((#[trigger] stops[i]).color, id) {
            let i = choose|i: int|
                0 <= i < stops.len() && color_reads((#[trigger] stops[i]).color, id);
            if i < n {
                assert(front[i] == stops[i]);
            }
        }
    }
}

proof fn lemma_either_holds(a: Seq<LayerId>, b: Seq<LayerId>, id: LayerId)
    ensures
        (a + b).contains(id) <==> a.contains(id) || b.contains(id),
{
    let s = a + b;
    if s.contains(id) {
        let i = choose|i: int| 0 <= i < s.len() && s[i] == id;
        if i < a.len() {
            assert(a[i] == id);
        } else {
            assert(b[i - a.len()] == id);
        }
    }
    if a.contains(id) {
        let i = choose|i: int| 0 <= i < a.len() && a[i] == id;
        assert(s[i] == id);
    }
    if b.contains(id) {
        let i = choose|i: int| 0 <= i < b.len() && b[i] == id;
        assert(s[a.len() + i] == id);
    }
}

/// A node depends on a layer exactly where one of its sockets is wired to it:
/// none of a color, a noise or a coordinate, and of every other kind each
/// socket that it has.
pub proof fn law_inputs_are_what_the_sockets_read(kind: LayerKind, id: LayerId)
    ensures
        kind.input_ids().contains(id) <==> match kind {
            LayerKind::Color(_) | LayerKind::Noise(_) | LayerKind::Coordinate(_) => false,
            LayerKind::ColorRamp(r) => exists|i: int|
                0 <= i < r.stops@.len() && color_reads((#[trigger] r.stops@[i]).color, id),
            LayerKind::Transform(t) => opt_reads(t.source, id),
            LayerKind::Mix(m) => opt_reads(m.b, id) || opt_reads(m.a, id) || scalar_reads(
                m.factor,
                id,
            ),
            LayerKind::GradientMap(m) => opt_reads(m.palette, id) || opt_reads(m.value, id),
            LayerKind::MinMax(m) => opt_reads(m.b, id) || opt_reads(m.a, id),
            LayerKind::HeightToNormal(h) => opt_reads(h.source, id),
            LayerKind::Wave(w) => scalar_reads(w.input, id),
            LayerKind::Warp(w) => opt_reads(w.by, id) || opt_reads(w.source, id),
            LayerKind::Craters(c) => scalar_reads(c.density, id) || scalar_reads(c.under, id),
        },
{
    match kind {
        LayerKind::ColorRamp(r) => {
            lemma_stops_hold(r.stops@, id);
        },
        LayerKind::Transform(t) => {
            lemma_opt_holds(t.source, id);
        },
        LayerKind::Mix(m) => {
            lemma_opt_holds(m.a, id);
            lemma_opt_holds(m.b, id);
            lemma_scalar_holds(m.factor, id);
            lemma_either_holds(opt_ids(m.a), opt_ids(m.b), id);
            lemma_either_holds(opt_ids(m.a) + opt_ids(m.b), m.factor.ids(), id);
        },
        LayerKind::GradientMap(m) => {
            lemma_opt_holds(m.value, id);
            lemma_opt_holds(m.palette, id);
            lemma_either_holds(opt_ids(m.value), opt_ids(m.palette), id);
        },
        LayerKind::MinMax(m) => {
            lemma_opt_holds(m.a, id);
            lemma_opt_holds(m.b, id);
            lemma_either_holds(opt_ids(m.a), opt_ids(m.b), id);
        },
        LayerKind::HeightToNormal(h) => {
            lemma_opt_holds(h.source, id);
        },
        LayerKind::Wave(w) => {
            lemma_scalar_holds(w.input, id);
        },
        LayerKind::Warp(w) => {
            lemma_opt_holds(w.source, id);
            lemma_opt_holds(w.by, id);
            lemma_either_holds(opt_ids(w.source), opt_ids(w.by), id);
        },
        LayerKind::Craters(c) => {
            lemma_scalar_holds(c.under, id);
            lemma_scalar_holds(c.density, id);
            lemma_either_holds(c.under.ids(), c.density.ids(), id);
        },
        _ => {},
    }
}

/// The inputs of a node whose sockets are all wired come in the order of the
/// sockets: the first operand before the second, the factor last; the value
/// before the palette; the source before what displaces it; the ground before
/// the density; and a ramp's stops as they stand.
pub proof fn law_inputs_come_in_socket_order(kind: LayerKind)
    ensures
        kind matches LayerKind::Mix(m) ==> m.a is Some && m.b is Some && m.factor is Layer ==> {
            let ids = kind.input_ids();
            ids.len() == 3 && ids[0] == m.a->Some_0 && ids[1] == m.b->Some_0 && ids[2]
                == m.factor->Layer_0
        },
        kind matches LayerKind::GradientMap(m) ==> m.value is Some && m.palette is Some ==> {
            let ids = kind.input_ids();
            ids.len() == 2 && ids[0] == m.value->Some_0 && ids[1] == m.palette->Some_0
        },
        kind matches LayerKind::MinMax(m) ==> m.a is Some && m.b is Some ==> {
            let ids = kind.input_ids();
            ids.len() == 2 && ids[0] == m.a->Some_0 && ids[1] == m.b->Some_0
        },
        kind matches LayerKind::Warp(w) ==> w.source is Some && w.by is Some ==> {
            let ids = kind.input_ids();
            ids.len() == 2 && ids[0] == w.source->Some_0 && ids[1] == w.by->Some_0
        },
        kind matches LayerKind::Craters(c) ==> c.under is Layer && c.density is Layer ==> {
            let ids = kind.input_ids();
            ids.len() == 2 && ids[0] == c.under->Layer_0 && ids[1] == c.density->Layer_0
        },
        kind matches LayerKind::ColorRamp(r) ==> (forall|i: int|
            0 <= i < r.stops@.len() ==> (#[trigger] r.stops@[i]).color is Layer) ==> {
            let ids = kind.input_ids();
            &&& ids.len() == r.stops@.len()
            &&& forall|i: int|
                0 <= i < r.stops@.len() ==> #[trigger] ids[i] == r.stops@[i].color->Layer_0
        },
{
    if let LayerKind::ColorRamp(r) = kind {
        if forall|i: int| 0 <= i < r.stops@.len() ==> (#[trigger] r.stops@[i]).color is Layer {
            lemma_wired_stops(r.stops@);
        }
    }
}

proof fn lemma_wired_stops(stops: Seq<ColorStop>)
    requires
        forall|i: int| 0 <= i < stops.len() ==> (#[trigger] stops[i]).color is Layer,
    ensures
        stop_ids(stops).len() == stops.len(),
        forall|i: int|
            0 <= i < stops.len() ==> #[trigger] stop_ids(stops)[i] == stops[i].color->Layer_0,
    decreases stops.len(),
{
    if stops.len() > 0 {
        let front = stops.drop_last();
        assert forall|i: int| 0 <= i < front.len() implies (#[trigger] front[i]).color is Layer by {
            assert(front[i] == stops[i]);
        }
        lemma_wired_stops(front);
        assert(stops[stops.len() - 1].color is Layer);
        assert forall|i: int| 0 <= i < stops.len() implies #[trigger] stop_ids(stops)[i]
            == stops[i].color->Layer_0 by {
            if i < front.len() {
                assert(stop_ids(front)[i] == front[i].color->Layer_0);
            }
        }
    }
}

/// What a new noise, wave, warp or scatter of craters is set to.
pub proof fn law_default_settings(n: Noise, wave: Wave, warp: Warp, c: Craters)
    requires
        call_ensures(Noise::default, (), n),
        call_ensures(Wave::default, (), wave),
        call_ensures(Warp::default, (), warp),
        call_ensures(Craters::default, (), c),
    ensures
        n.dims is D2 && n.seed_offset == 0 && n.frequency.bits == 0x4080_0000,
        n.range is Unsigned && n.output is Grayscale && n.kernel is Simplex,
        n.period[0] == 0 && n.period[1] == 0 && n.period[2] == 0,
        n.fractal.octaves == 1 && n.fractal.lacunarity.bits == 0x4000_0000 && n.fractal.gain.bits
            == 0x3f00_0000,
        n.fractal.mode is Standard && n.fractal.normalize,
        wave.input matches ScalarInput::Const(v) && v.bits == 0x3f00_0000,
        wave.shape is Sine && wave.frequency.bits == 0x4080_0000 && wave.phase.bits == 0,
        wave.range is Unsigned,
        warp.source is None && warp.by is None && warp.mode is Scalar,
        warp.amount[0].bits == 0x3dcc_cccd && warp.amount[1].bits == 0x3dcc_cccd
            && warp.amount[2].bits == 0,
        c.under matches ScalarInput::Const(v) && v.bits == 0x3f00_0000,
        c.density matches ScalarInput::Const(v) && v.bits == 0x3f19_999a,
        c.seed_offset == 0 && c.frequency.bits == 0x4080_0000 && c.classes == 4,
        c.gain.bits == 0x3f80_0000 && c.depth.bits == 0x3ecc_cccd && c.age.bits == 0,
        c.erase.bits == 0x3f80_0000 && c.peak.bits == 0x3f00_0000 && c.rays.bits == 0x3f00_0000,
        c.relief.bits == 0x4120_0000 && c.surface is Plane && c.output is Height,
{
}

} // verus!
