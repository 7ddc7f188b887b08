//! The working color type.
use vstd::prelude::*;

use crate::scalar::Scalar;

verus! {

/// Oklch plus alpha. Values are not clamped between layers: L and C may sit
/// outside their nominal ranges. `hue` is in degrees.
#[derive(Clone, Copy, Debug, PartialEq, Eq, Structural, Hash)]
pub struct Color {
    pub l: Scalar,
    pub chroma: Scalar,
    pub hue: Scalar,
    pub alpha: Scalar,
}

impl Color {
    /// A color from its four channels.
    #[verifier::allow_in_spec]
    pub fn new(l: Scalar, chroma: Scalar, hue: Scalar, alpha: Scalar) -> Color
        returns
            (Color { l: l, chroma: chroma, hue: hue, alpha: alpha }),
    {
        Color { l, chroma, hue, alpha }
    }

    /// Opaque mid gray, the color of a socket that reads nothing.
    #[verifier::allow_in_spec]
    pub fn mid_gray() -> Color
        returns
            (Color {
                l: Scalar::half(),
                chroma: Scalar::zero(),
                hue: Scalar::zero(),
                alpha: Scalar::one(),
            }),
    {
        Color { l: Scalar::half(), chroma: Scalar::zero(), hue: Scalar::zero(), alpha: Scalar::one() }
    }

    /// Opaque black.
    #[verifier::allow_in_spec]
    pub fn black() -> Color
        returns
            (Color {
                l: Scalar::zero(),
                chroma: Scalar::zero(),
                hue: Scalar::zero(),
                alpha: Scalar::one(),
            }),
    {
        Color { l: Scalar::zero(), chroma: Scalar::zero(), hue: Scalar::zero(), alpha: Scalar::one() }
    }
}

/// Builds a color from L, C, hue in degrees and alpha.
pub fn oklcha(l: Scalar, chroma: Scalar, hue_deg: Scalar, alpha: Scalar) -> (r: Color)
    ensures
        r == Color::new(l, chroma, hue_deg, alpha),
{
    Color::new(l, chroma, hue_deg, alpha)
}

/// The L of a color, which is what a scalar socket reads from a layer.
pub fn scalar_of(c: Color) -> (r: Scalar)
    ensures
        r == c.l,
{
    c.l
}

/// Space in which two colors are interpolated.
#[derive(Clone, Copy, Debug, PartialEq, Eq, Structural, Hash)]
pub enum BlendSpace {
    /// Perceptually uniform. Default.
    Oklch,
    /// Linear-light sRGB, physically correct for optical mixing.
    LinearSrgb,
    /// HSV of gamma-encoded sRGB.
    Hsv,
}

impl Default for BlendSpace {
    fn default() -> (r: Self)
        ensures
            r == BlendSpace::Oklch,
    {
        BlendSpace::Oklch
    }
}

/// A color keeps its channels as given, and a scalar socket reads its L.
pub proof fn law_channels_keep_their_places(
    l: Scalar,
    chroma: Scalar,
    hue: Scalar,
    alpha: Scalar,
    c: Color,
    s: Scalar,
)
    requires
        call_ensures(oklcha, (l, chroma, hue, alpha), c),
        call_ensures(scalar_of, (c,), s),
    ensures
        c.l == l && c.chroma == chroma && c.hue == hue && c.alpha == alpha,
        s == l,
{
}

} // verus!
