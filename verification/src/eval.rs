//! The context a graph is evaluated in.
use vstd::prelude::*;

use crate::color::Color;
use crate::kind::{ColorInput, ScalarInput};
use crate::names::NameMap;
use crate::param::ParamValue;
use crate::scalar::Scalar;

verus! {

/// The seed of a context that names none.
pub const DEFAULT_SEED: u32 = 0xC0DE_D00D;

/// The bits of 1/512, the step over which a slope is measured by default.
pub const DEFAULT_EPSILON_BITS: u32 = 0x3b00_0000;

/// What an evaluation is told beside the graph and the sample point.
#[derive(Clone, Debug)]
pub struct EvalCtx {
    pub seed: u32,
    /// Step over which a height's slope is measured.
    pub normal_epsilon: Scalar,
    /// Parameter bindings by name. A parameter without one takes its declared
    /// default.
    pub params: NameMap<ParamValue>,
}

impl Default for EvalCtx {
    fn default() -> (r: Self)
        ensures
            r.seed == DEFAULT_SEED,
            r.normal_epsilon.bits == DEFAULT_EPSILON_BITS,
            r.params@ == Map::<Seq<char>, ParamValue>::empty(),
            r.params.sorted(),
    {
        EvalCtx {
            seed: DEFAULT_SEED,
            normal_epsilon: Scalar::from_bits(DEFAULT_EPSILON_BITS),
            params: NameMap::new(),
        }
    }
}

/// The constant a scalar socket reads under these bindings; none where it reads
/// a layer. An unbound name reads as 0.
pub open spec fn scalar_read(params: Map<Seq<char>, ParamValue>, si: ScalarInput) -> Option<Scalar> {
    match si {
        ScalarInput::Const(v) => Some(v),
        ScalarInput::Layer(_) => None,
        ScalarInput::Param(name) => Some(
            if params.dom().contains(name@) && params[name@] is Scalar {
                params[name@]->Scalar_0
            } else {
                Scalar::zero()
            },
        ),
    }
}

/// The constant a color socket reads under these bindings; none where it reads
/// a layer. An unbound name reads as black.
pub open spec fn color_read(params: Map<Seq<char>, ParamValue>, ci: ColorInput) -> Option<Color> {
    match ci {
        ColorInput::Const(c) => Some(c),
        ColorInput::Layer(_) => None,
        ColorInput::Param(name) => Some(
            if params.dom().contains(name@) && params[name@] is Color {
                params[name@]->Color_0
            } else {
                Color::black()
            },
        ),
    }
}

impl EvalCtx {
    /// The constant this socket reads, or `None` when it reads a layer. The
    /// context must already be resolved against the graph.
    pub fn scalar_const(&self, si: &ScalarInput) -> (r: Option<Scalar>)
        ensures
            r == scalar_read(self.params@, *si),
    {
        match si {
            ScalarInput::Const(v) => Some(*v),
            ScalarInput::Layer(_) => None,
            ScalarInput::Param(name) => match self.params.get(name.as_str()) {
                Some(value) => Some(value.as_scalar().unwrap_or(Scalar::zero())),
                None => Some(Scalar::zero()),
            },
        }
    }

    /// As [`EvalCtx::scalar_const`], for a color socket.
    pub fn color_const(&self, ci: &ColorInput) -> (r: Option<Color>)
        ensures
            r == color_read(self.params@, *ci),
    {
        match ci {
            ColorInput::Const(c) => Some(*c),
            ColorInput::Layer(_) => None,
            ColorInput::Param(name) => match self.params.get(name.as_str()) {
                Some(value) => Some(value.as_color().unwrap_or(Color::black())),
                None => Some(Color::black()),
            },
        }
    }

    /// The context with one parameter bound.
    pub fn with_param(self, name: &str, value: ParamValue) -> (r: EvalCtx)
        ensures
            r.seed == self.seed,
            r.normal_epsilon == self.normal_epsilon,
            r.params@ == self.params@.insert(name@, value),
            self.params.sorted() ==> r.params.sorted(),
    {
        let mut params = self.params;
        params.insert(name, value);
        EvalCtx { seed: self.seed, normal_epsilon: self.normal_epsilon, params }
    }
}

/// A socket reads its constant, or the value bound to its name where that is
/// of the socket's sort. A number that is not bound reads as zero, a color as
/// opaque black, and a socket that is wired to a layer reads no constant.
pub proof fn law_sockets_read_their_binding(
    params: Map<Seq<char>, ParamValue>,
    s: ScalarInput,
    c: ColorInput,
)
    ensures
        scalar_read(params, s) is None <==> s is Layer,
        color_read(params, c) is None <==> c is Layer,
        s matches ScalarInput::Const(v) ==> scalar_read(params, s) == Some(v),
        c matches ColorInput::Const(v) ==> color_read(params, c) == Some(v),
        s matches ScalarInput::Param(name) ==> match params.get(name@) {
            Some(ParamValue::Scalar(v)) => scalar_read(params, s) == Some(v),
            _ => scalar_read(params, s)->Some_0.bits == 0,
        },
        c matches ColorInput::Param(name) ==> match params.get(name@) {
            Some(ParamValue::Color(v)) => color_read(params, c) == Some(v),
            _ => {
                let v = color_read(params, c)->Some_0;
                &&& v.l.bits == 0
                &&& v.chroma.bits == 0
                &&& v.hue.bits == 0
                &&& v.alpha.bits == 0x3f80_0000u32
            },
        },
{
}

/// A new context has its own seed, measures slopes over 1/512, and binds
/// nothing. Binding a parameter changes what that name reads and nothing else.
pub proof fn law_contexts_bind_one_name_at_a_time(
    fresh: EvalCtx,
    ctx: EvalCtx,
    name: &str,
    value: ParamValue,
    r: EvalCtx,
    other: Seq<char>,
)
    requires
        call_ensures(EvalCtx::default, (), fresh),
        call_ensures(EvalCtx::with_param, (ctx, name, value), r),
    ensures
        fresh.seed == 0xC0DE_D00D,
        fresh.normal_epsilon.bits == 0x3b00_0000,
        !fresh.params@.dom().contains(other),
        r.seed == ctx.seed,
        r.normal_epsilon == ctx.normal_epsilon,
        r.params@.get(name@) == Some(value),
        other != name@ ==> r.params@.get(other) == ctx.params@.get(other),
{
}

} // verus!
