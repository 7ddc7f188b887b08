//! The faces of a cube around the sphere that a sphere bake samples.
//!
//! Faces are laid out as a cube view is sampled: in the order `+X, -X, +Y, -Y,
//! +Z, -Z`, and within a face u runs right and v runs down.
use vstd::prelude::*;

use crate::scalar::Scalar;

verus! {

/// The faces of a cube.
pub const CUBE_FACES: u32 = 6;

/// The direction that a face's point looks along.
pub open spec fn direction(face: u32, s: Scalar, t: Scalar) -> Seq<Scalar> {
    let one = Scalar::one();
    if face == 0 {
        seq![one, t.negated(), s.negated()]
    } else if face == 1 {
        seq![one.negated(), t.negated(), s]
    } else if face == 2 {
        seq![s, one, t]
    } else if face == 3 {
        seq![s, one.negated(), t.negated()]
    } else if face == 4 {
        seq![s, t.negated(), one]
    } else {
        seq![s.negated(), t.negated(), one.negated()]
    }
}

/// The unnormalized direction that a cube face's point looks along, the point
/// given by its offsets from the face's center in `[-1, 1]`, right and down. The
/// major axis has magnitude one.
pub fn cube_direction(face: u32, s: Scalar, t: Scalar) -> (r: [Scalar; 3])
    requires
        face < CUBE_FACES,
    ensures
        r@ == direction(face, s, t),
{
    let one = Scalar::one();
    let r = if face == 0 {
        [one, t.negated(), s.negated()]
    } else if face == 1 {
        [one.negated(), t.negated(), s]
    } else if face == 2 {
        [s, one, t]
    } else if face == 3 {
        [s, one.negated(), t.negated()]
    } else if face == 4 {
        [s, t.negated(), one]
    } else {
        [s.negated(), t.negated(), one.negated()]
    };
    assert(r@ =~= direction(face, s, t));
    r
}

/// The component of a face's axis: the faces look along `+X, -X, +Y, -Y, +Z,
/// -Z` in turn.
pub open spec fn axis_component(face: u32, k: int) -> int {
    if face / 2 == k {
        if face % 2 == 0 {
            1
        } else {
            -1
        }
    } else {
        0
    }
}

proof fn lemma_negated(s: Scalar)
    ensures
        s.negated().scaled() == -s.scaled(),
        s.negated().is_nan_spec() == s.is_nan_spec(),
{
}

/// Each face's center looks straight down its own axis.
pub proof fn law_face_centers_are_the_axes(face: u32, k: int)
    requires
        face < CUBE_FACES,
        0 <= k < 3,
    ensures
        direction(face, Scalar::zero(), Scalar::zero())[k].scaled() == axis_component(face, k)
            * Scalar::one().scaled(),
{
    lemma_negated(Scalar::zero());
    lemma_negated(Scalar::one());
    assert(axis_component(face, k) * Scalar::one().scaled() == if axis_component(face, k) == 0 {
        0
    } else if axis_component(face, k) == 1 {
        Scalar::one().scaled()
    } else {
        -Scalar::one().scaled()
    });
}

/// True of a point on an edge of its face.
pub open spec fn on_edge(s: Scalar, t: Scalar) -> bool {
    let one = Scalar::one();
    s == one || s == one.negated() || t == one || t == one.negated()
}

proof fn lemma_negated_twice(s: Scalar)
    ensures
        s.negated().negated() == s,
{
}

/// Every direction along a face's edge is one of another face's too: of the one
/// whose axis the edge reaches.
pub proof fn law_edges_are_shared(face: u32, s: Scalar, t: Scalar)
    requires
        face < CUBE_FACES,
        on_edge(s, t),
    ensures
        exists|other: u32, s2: Scalar, t2: Scalar|
            other < CUBE_FACES && other != face && #[trigger] direction(other, s2, t2) == direction(
                face,
                s,
                t,
            ),
{
    let one = Scalar::one();
    let d = direction(face, s, t);
    lemma_negated_twice(s);
    lemma_negated_twice(t);
    lemma_negated_twice(one);
    let along_s = s == one || s == one.negated();
    // The axis that the edge reaches, and on which side.
    let k: int = if along_s {
        if face < 2 {
            2
        } else {
            0
        }
    } else if face == 2 || face == 3 {
        2
    } else {
        1
    };
    assert(d[k] == one || d[k] == one.negated());
    let (x, y, z) = (d[0], d[1], d[2]);
    lemma_negated_twice(x);
    lemma_negated_twice(y);
    lemma_negated_twice(z);
    if k == 0 {
        if x == one {
            assert(direction(0, z.negated(), y.negated()) =~= d);
        } else {
            assert(direction(1, z, y.negated()) =~= d);
        }
    } else if k == 1 {
        if y == one {
            assert(direction(2, x, z) =~= d);
        } else {
            assert(direction(3, x, z.negated()) =~= d);
        }
    } else {
        if z == one {
            assert(direction(4, x, y.negated()) =~= d);
        } else {
            assert(direction(5, x.negated(), y.negated()) =~= d);
        }
    }
}

/// A direction is read back as a cube view reads one: the axis of its face has
/// magnitude one and tells the face, and the other two coordinates, signed as the
/// view's u and v run on that face, give the point. So a face's u runs right and
/// its v runs down.
pub proof fn law_directions_read_back(face: u32, s: Scalar, t: Scalar)
    requires
        face < 6,
    ensures
        ({
            let d = direction(face, s, t);
            let (one, minus_one) = (Scalar { bits: 0x3f80_0000 }, Scalar { bits: 0xbf80_0000 });
            &&& d.len() == 3
            &&& d[(face / 2) as int] == if face % 2 == 0 { one } else { minus_one }
            &&& face == 0 ==> s == d[2].negated() && t == d[1].negated()
            &&& face == 1 ==> s == d[2] && t == d[1].negated()
            &&& face == 2 ==> s == d[0] && t == d[2]
            &&& face == 3 ==> s == d[0] && t == d[2].negated()
            &&& face == 4 ==> s == d[0] && t == d[1].negated()
            &&& face == 5 ==> s == d[0].negated() && t == d[1].negated()
        }),
{
    lemma_negated_twice(s);
    lemma_negated_twice(t);
}

} // verus!
