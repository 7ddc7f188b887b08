//! Named parameters a graph exposes to whoever bakes it.
//!
//! A [`ParamDecl`] travels with the graph, a [`ParamValue`] is supplied per
//! bake, and any scalar or color socket that takes a constant can read one by
//! name. The graph checks names at edit time, so whatever runs it never meets
//! an undeclared name or one of the wrong kind.
use vstd::prelude::*;

use crate::color::Color;
use crate::scalar::Scalar;

verus! {

/// One parameter a graph exposes. `name` repeats the key under which the graph
/// keeps the declaration, so that a declaration stands on its own.
#[derive(Clone, Debug)]
pub struct ParamDecl {
    pub name: String,
    pub kind: ParamKind,
    /// Used for any bake that does not bind this parameter.
    pub default: ParamValue,
    /// Free-form, for a host that shows the parameter to a person.
    pub description: Option<String>,
}

impl ParamDecl {
    /// A scalar parameter. `min..=max` is advisory; see [`ParamKind`].
    pub fn scalar(name: &str, min: Scalar, max: Scalar, default: Scalar) -> (r: ParamDecl)
        ensures
            r.name@ == name@,
            r.kind == (ParamKind::Scalar { min, max }),
            r.default == ParamValue::Scalar(default),
            r.description is None,
    {
        ParamDecl {
            name: name.to_owned(),
            kind: ParamKind::Scalar { min, max },
            default: ParamValue::Scalar(default),
            description: None,
        }
    }

    /// A color parameter.
    pub fn color(name: &str, default: Color) -> (r: ParamDecl)
        ensures
            r.name@ == name@,
            r.kind == ParamKind::Color,
            r.default == ParamValue::Color(default),
            r.description is None,
    {
        ParamDecl {
            name: name.to_owned(),
            kind: ParamKind::Color,
            default: ParamValue::Color(default),
            description: None,
        }
    }
}

/// What a parameter is. For a scalar, the range an editor should offer;
/// nothing clamps to it.
#[derive(Clone, Copy, Debug, PartialEq, Eq, Structural)]
pub enum ParamKind {
    Scalar { min: Scalar, max: Scalar },
    Color,
}

impl ParamKind {
    /// The word for the kind.
    #[verifier::allow_in_spec]
    pub fn label(&self) -> &'static str
        returns
            (if self is Scalar { "scalar" } else { "color" }),
    {
        match self {
            ParamKind::Scalar { .. } => "scalar",
            ParamKind::Color => "color",
        }
    }

    /// The sort of value the kind describes.
    pub open spec fn sort(self) -> ParamUse {
        match self {
            ParamKind::Scalar { .. } => ParamUse::Scalar,
            ParamKind::Color => ParamUse::Color,
        }
    }

    /// True where both kinds describe the same sort of value.
    pub fn same_sort(&self, other: &ParamKind) -> (r: bool)
        ensures
            r == (self.sort() == other.sort()),
    {
        match (self, other) {
            (ParamKind::Scalar { .. }, ParamKind::Scalar { .. }) => true,
            (ParamKind::Color, ParamKind::Color) => true,
            _ => false,
        }
    }
}

/// A bound parameter value.
#[derive(Clone, Copy, Debug, PartialEq, Eq, Structural)]
pub enum ParamValue {
    Scalar(Scalar),
    Color(Color),
}

impl ParamValue {
    /// The sort of the value.
    pub open spec fn sort(self) -> ParamUse {
        match self {
            ParamValue::Scalar(_) => ParamUse::Scalar,
            ParamValue::Color(_) => ParamUse::Color,
        }
    }

    /// True where the kind describes the value. A declaration whose default
    /// fails this is rejected.
    pub fn matches(&self, kind: &ParamKind) -> (r: bool)
        ensures
            r == (self.sort() == kind.sort()),
    {
        match (self, kind) {
            (ParamValue::Scalar(_), ParamKind::Scalar { .. }) => true,
            (ParamValue::Color(_), ParamKind::Color) => true,
            _ => false,
        }
    }

    /// The number, where the value is one.
    #[verifier::allow_in_spec]
    pub fn as_scalar(&self) -> Option<Scalar>
        returns
            (match self {
                ParamValue::Scalar(v) => Some(*v),
                ParamValue::Color(_) => None,
            }),
    {
        match self {
            ParamValue::Scalar(v) => Some(*v),
            ParamValue::Color(_) => None,
        }
    }

    /// The color, where the value is one.
    #[verifier::allow_in_spec]
    pub fn as_color(&self) -> Option<Color>
        returns
            (match self {
                ParamValue::Color(c) => Some(*c),
                ParamValue::Scalar(_) => None,
            }),
    {
        match self {
            ParamValue::Color(c) => Some(*c),
            ParamValue::Scalar(_) => None,
        }
    }
}

/// Which sort of socket reads a parameter.
#[derive(Clone, Copy, Debug, PartialEq, Eq, Structural)]
pub enum ParamUse {
    Scalar,
    Color,
}

impl ParamUse {
    /// True where a socket of this sort can read a parameter of that kind.
    pub fn accepts(self, kind: &ParamKind) -> (r: bool)
        ensures
            r == (self == kind.sort()),
    {
        match (self, kind) {
            (ParamUse::Scalar, ParamKind::Scalar { .. }) => true,
            (ParamUse::Color, ParamKind::Color) => true,
            _ => false,
        }
    }

    /// The word for the sort.
    #[verifier::allow_in_spec]
    pub fn label(self) -> &'static str
        returns
            (if self is Scalar { "scalar" } else { "color" }),
    {
        match self {
            ParamUse::Scalar => "scalar",
            ParamUse::Color => "color",
        }
    }
}

/// A value fits a kind where both are numbers or both are colors.
pub proof fn law_values_fit_their_own_sort(value: ParamValue, kind: ParamKind)
    ensures
        value.sort() == kind.sort() <==> (value is Scalar && kind is Scalar) || (value is Color
            && kind is Color),
        value is Scalar <==> value.sort() is Scalar,
        kind is Scalar <==> kind.sort() is Scalar,
        value.as_scalar() == (if value is Scalar { Some(value->Scalar_0) } else { None }),
        value.as_color() == (if value is Color { Some(value->Color_0) } else { None }),
        kind.label() == kind.sort().label(),
{
}

/// A declaration is made with its name, its range or none, and its default.
pub proof fn law_declarations_hold_what_they_are_made_with(
    name: &str,
    min: Scalar,
    max: Scalar,
    number: Scalar,
    color: Color,
    s: ParamDecl,
    c: ParamDecl,
)
    requires
        call_ensures(ParamDecl::scalar, (name, min, max, number), s),
        call_ensures(ParamDecl::color, (name, color), c),
    ensures
        s.name@ == name@ && c.name@ == name@,
        s.kind matches ParamKind::Scalar { min: low, max: high } && low == min && high == max,
        c.kind is Color,
        s.default.as_scalar() == Some(number) && c.default.as_color() == Some(color),
        s.description is None && c.description is None,
{
}

} // verus!
