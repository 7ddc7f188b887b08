//! The meshes of the 3D preview.
use vstd::prelude::*;

verus! {

/// Which mesh to display.
#[derive(Clone, Copy, Debug, PartialEq, Eq, Structural)]
pub enum SceneShape {
    Sphere,
    Cube,
    /// A 1×1 quad flat on the XZ plane, seen from a raised angle.
    Quad,
}

/// A corner of a flat face. All of its numbers are small and whole.
#[derive(Clone, Copy, Debug, PartialEq)]
pub struct Corner {
    /// In halves.
    pub pos: [i8; 3],
    pub normal: [i8; 3],
    /// The direction in which the texture's u grows.
    pub tangent: [i8; 3],
    pub uv: [u8; 2],
}

/// The normal of a cube's face; the faces are `+X, -X, +Y, -Y, +Z, -Z`.
pub open spec fn face_normal(face: int) -> Seq<int> {
    if face == 0 {
        seq![1, 0, 0]
    } else if face == 1 {
        seq![-1, 0, 0]
    } else if face == 2 {
        seq![0, 1, 0]
    } else if face == 3 {
        seq![0, -1, 0]
    } else if face == 4 {
        seq![0, 0, 1]
    } else {
        seq![0, 0, -1]
    }
}

/// The direction in which u grows on a cube's face.
pub open spec fn face_tangent(face: int) -> Seq<int> {
    if face == 0 {
        seq![0, 0, -1]
    } else if face == 1 {
        seq![0, 0, 1]
    } else if face == 5 {
        seq![-1, 0, 0]
    } else {
        seq![1, 0, 0]
    }
}

/// The direction in which a cube's face goes up, against v.
pub open spec fn face_up(face: int) -> Seq<int> {
    if face == 2 {
        seq![0, 0, -1]
    } else if face == 3 {
        seq![0, 0, 1]
    } else {
        seq![0, 1, 0]
    }
}

/// The cross product.
pub open spec fn cross(a: Seq<int>, b: Seq<int>) -> Seq<int> {
    seq![
        a[1] * b[2] - a[2] * b[1],
        a[2] * b[0] - a[0] * b[2],
        a[0] * b[1] - a[1] * b[0],
    ]
}

/// `a - b`, component by component.
pub open spec fn minus(a: Seq<int>, b: Seq<int>) -> Seq<int> {
    seq![a[0] - b[0], a[1] - b[1], a[2] - b[2]]
}

/// The texture coordinate of a corner: bottom left, bottom right, top right and
/// top left in turn, v running down.
pub open spec fn corner_uv(corner: int) -> (int, int) {
    if corner == 0 {
        (0, 1)
    } else if corner == 1 {
        (1, 1)
    } else if corner == 2 {
        (1, 0)
    } else {
        (0, 0)
    }
}

/// `n`, or its negative.
pub open spec fn toward(n: int, positive: bool) -> int {
    if positive {
        n
    } else {
        -n
    }
}

/// The position, in halves, of a corner of a cube's face: along the normal if
/// `lifted`, and to the sides by its texture coordinate.
pub open spec fn corner_pos(face: int, corner: int, lifted: bool) -> Seq<int> {
    let (u, v) = corner_uv(corner);
    let (n, t, up) = (face_normal(face), face_tangent(face), face_up(face));
    Seq::new(
        3,
        |k: int|
            (if lifted {
                n[k]
            } else {
                0
            }) + toward(t[k], u == 1) + toward(up[k], v == 0),
    )
}

/// `c` is that corner of that face.
pub open spec fn is_corner(c: Corner, face: int, corner: int, lifted: bool) -> bool {
    &&& forall|k: int| 0 <= k < 3 ==> c.pos@[k] == #[trigger] corner_pos(face, corner, lifted)[k]
    &&& forall|k: int| 0 <= k < 3 ==> c.normal@[k] == #[trigger] face_normal(face)[k]
    &&& forall|k: int| 0 <= k < 3 ==> c.tangent@[k] == #[trigger] face_tangent(face)[k]
    &&& c.uv@[0] == corner_uv(corner).0
    &&& c.uv@[1] == corner_uv(corner).1
}

fn corner_of(face: u32, corner: u32, lifted: bool) -> (r: Corner)
    requires
        face < 6,
        corner < 4,
    ensures
        is_corner(r, face as int, corner as int, lifted),
{
    let (normal, tangent, up): ([i8; 3], [i8; 3], [i8; 3]) = if face == 0 {
        ([1, 0, 0], [0, 0, -1], [0, 1, 0])
    } else if face == 1 {
        ([-1, 0, 0], [0, 0, 1], [0, 1, 0])
    } else if face == 2 {
        ([0, 1, 0], [1, 0, 0], [0, 0, -1])
    } else if face == 3 {
        ([0, -1, 0], [1, 0, 0], [0, 0, 1])
    } else if face == 4 {
        ([0, 0, 1], [1, 0, 0], [0, 1, 0])
    } else {
        ([0, 0, -1], [-1, 0, 0], [0, 1, 0])
    };
    let (u, v): (u8, u8) = if corner == 0 {
        (0, 1)
    } else if corner == 1 {
        (1, 1)
    } else if corner == 2 {
        (1, 0)
    } else {
        (0, 0)
    };
    let right: bool = u == 1;
    let top: bool = v == 0;
    let pos = [
        along(normal[0], lifted) + signed(tangent[0], right) + signed(up[0], top),
        along(normal[1], lifted) + signed(tangent[1], right) + signed(up[1], top),
        along(normal[2], lifted) + signed(tangent[2], right) + signed(up[2], top),
    ];
    Corner { pos, normal, tangent, uv: [u, v] }
}

fn along(n: i8, lifted: bool) -> (r: i8)
    requires
        -1 <= n <= 1,
    ensures
        r == (if lifted {
            n as int
        } else {
            0
        }),
        -1 <= r <= 1,
{
    if lifted {
        n
    } else {
        0
    }
}

fn signed(n: i8, positive: bool) -> (r: i8)
    requires
        -1 <= n <= 1,
    ensures
        r == toward(n as int, positive),
        -1 <= r <= 1,
{
    if positive {
        n
    } else {
        -n
    }
}

/// The two triangles of a face whose corners start at `base`.
pub open spec fn face_triangles(base: int) -> Seq<int> {
    seq![base, base + 1, base + 2, base, base + 2, base + 3]
}

/// The first triangle of every face, and likewise the second, turns
/// counterclockwise seen from outside: its normal points along the face's. The
/// tangent points where u grows.
pub proof fn law_faces_wind_outward(face: int, lifted: bool)
    requires
        0 <= face < 6,
    ensures
        ({
            let p = |c: int| corner_pos(face, c, lifted);
            let n = face_normal(face);
            &&& cross(minus(p(1), p(0)), minus(p(2), p(0))) == seq![4 * n[0], 4 * n[1], 4 * n[2]]
            &&& cross(minus(p(2), p(0)), minus(p(3), p(0))) == seq![4 * n[0], 4 * n[1], 4 * n[2]]
            &&& minus(p(1), p(0)) == seq![
                2 * face_tangent(face)[0],
                2 * face_tangent(face)[1],
                2 * face_tangent(face)[2],
            ]
        }),
{
    let (n, t, up) = (face_normal(face), face_tangent(face), face_up(face));
    let (p0, p1, p2, p3) = (
        corner_pos(face, 0, lifted),
        corner_pos(face, 1, lifted),
        corner_pos(face, 2, lifted),
        corner_pos(face, 3, lifted),
    );
    let (a, b, c) = (minus(p1, p0), minus(p2, p0), minus(p3, p0));
    assert(a =~= seq![2 * t[0], 2 * t[1], 2 * t[2]]);
    assert(b =~= seq![2 * t[0] + 2 * up[0], 2 * t[1] + 2 * up[1], 2 * t[2] + 2 * up[2]]);
    assert(c =~= seq![2 * up[0], 2 * up[1], 2 * up[2]]);
    lemma_crossed(t[0], t[1], t[2], up[0], up[1], up[2]);
    lemma_frame(face);
    assert(cross(a, b) =~= seq![4 * n[0], 4 * n[1], 4 * n[2]]);
    assert(cross(b, c) =~= seq![4 * n[0], 4 * n[1], 4 * n[2]]);
}

/// A face's normal is its tangent crossed with the way up.
proof fn lemma_frame(face: int)
    requires
        0 <= face < 6,
    ensures
        cross(face_tangent(face), face_up(face)) == face_normal(face),
{
    let (n, t, up) = (face_normal(face), face_tangent(face), face_up(face));
    let (t0, t1, t2, u0, u1, u2) = (t[0], t[1], t[2], up[0], up[1], up[2]);
    if face < 2 {
        assert(t1 * u2 - t2 * u1 == -t2 && t2 * u0 - t0 * u2 == 0 && t0 * u1 - t1 * u0 == 0)
            by (nonlinear_arith)
            requires
                t0 == 0,
                t1 == 0,
                u0 == 0,
                u1 == 1,
                u2 == 0,
        ;
    } else if face < 4 {
        assert(t1 * u2 - t2 * u1 == 0 && t2 * u0 - t0 * u2 == -u2 && t0 * u1 - t1 * u0 == 0)
            by (nonlinear_arith)
            requires
                t0 == 1,
                t1 == 0,
                t2 == 0,
                u0 == 0,
                u1 == 0,
        ;
    } else {
        assert(t1 * u2 - t2 * u1 == 0 && t2 * u0 - t0 * u2 == 0 && t0 * u1 - t1 * u0 == t0)
            by (nonlinear_arith)
            requires
                t1 == 0,
                t2 == 0,
                u0 == 0,
                u1 == 1,
                u2 == 0,
        ;
    }
    assert(cross(t, up) =~= n);
}

/// Both triangles over twice two sides have four times their cross product.
proof fn lemma_crossed(t0: int, t1: int, t2: int, u0: int, u1: int, u2: int)
    ensures
        ({
            let t = seq![t0, t1, t2];
            let u = seq![u0, u1, u2];
            let a = seq![2 * t0, 2 * t1, 2 * t2];
            let b = seq![2 * t0 + 2 * u0, 2 * t1 + 2 * u1, 2 * t2 + 2 * u2];
            let c = seq![2 * u0, 2 * u1, 2 * u2];
            let n = seq![4 * cross(t, u)[0], 4 * cross(t, u)[1], 4 * cross(t, u)[2]];
            cross(a, b) == n && cross(b, c) == n
        }),
{
    lemma_crossed_component(t1, t2, u1, u2);
    lemma_crossed_component(t2, t0, u2, u0);
    lemma_crossed_component(t0, t1, u0, u1);
    let t = seq![t0, t1, t2];
    let u = seq![u0, u1, u2];
    let a = seq![2 * t0, 2 * t1, 2 * t2];
    let b = seq![2 * t0 + 2 * u0, 2 * t1 + 2 * u1, 2 * t2 + 2 * u2];
    let c = seq![2 * u0, 2 * u1, 2 * u2];
    let n = seq![4 * cross(t, u)[0], 4 * cross(t, u)[1], 4 * cross(t, u)[2]];
    assert(cross(a, b) =~= n);
    assert(cross(b, c) =~= n);
}

proof fn lemma_crossed_component(t: int, s: int, u: int, v: int)
    by (nonlinear_arith)
    ensures
        (2 * t) * (2 * s + 2 * v) - (2 * s) * (2 * t + 2 * u) == 4 * (t * v - s * u),
        (2 * t + 2 * u) * (2 * v) - (2 * s + 2 * v) * (2 * u) == 4 * (t * v - s * u),
{
}

fn push_face(indices: &mut Vec<u32>, base: u32)
    requires
        base + 3 <= u32::MAX,
    ensures
        final(indices)@.len() == old(indices)@.len() + 6,
        forall|i: int| 0 <= i < old(indices)@.len() ==> final(indices)@[i] == old(indices)@[i],
        forall|k: int|
            0 <= k < 6 ==> #[trigger] final(indices)@[old(indices)@.len() + k] == face_triangles(
                base as int,
            )[k],
{
    indices.push(base);
    indices.push(base + 1);
    indices.push(base + 2);
    indices.push(base);
    indices.push(base + 2);
    indices.push(base + 3);
}

/// The corners and triangles of a cube, face by face.
pub open spec fn is_cube(verts: Seq<Corner>, indices: Seq<u32>) -> bool {
    &&& verts.len() == 24
    &&& indices.len() == 36
    &&& forall|face: int, corner: int|
        0 <= face < 6 && 0 <= corner < 4 ==> is_corner(
            #[trigger] verts[4 * face + corner],
            face,
            corner,
            true,
        )
    &&& forall|face: int, k: int|
        0 <= face < 6 && 0 <= k < 6 ==> #[trigger] indices[6 * face + k] == face_triangles(
            4 * face,
        )[k]
}

/// A unit cube: four corners per face, so that each face has its own normal,
/// tangent and texture coordinates.
pub fn cube_verts_indices() -> (r: (Vec<Corner>, Vec<u32>))
    ensures
        is_cube(r.0@, r.1@),
{
    let mut verts: Vec<Corner> = Vec::new();
    let mut indices: Vec<u32> = Vec::new();
    let mut face: u32 = 0;
    while face < 6
        invariant
            face <= 6,
            verts@.len() == 4 * face,
            indices@.len() == 6 * face,
            forall|f: int, c: int|
                0 <= f < face && 0 <= c < 4 ==> is_corner(
                    #[trigger] verts@[4 * f + c],
                    f,
                    c,
                    true,
                ),
            forall|f: int, k: int|
                0 <= f < face && 0 <= k < 6 ==> #[trigger] indices@[6 * f + k] == face_triangles(
                    4 * f,
                )[k],
        decreases 6 - face,
    {
        let ghost before = verts@;
        let ghost started = indices@;
        verts.push(corner_of(face, 0, true));
        verts.push(corner_of(face, 1, true));
        verts.push(corner_of(face, 2, true));
        verts.push(corner_of(face, 3, true));
        push_face(&mut indices, 4 * face);
        proof {
            assert forall|f: int, c: int| 0 <= f < face + 1 && 0 <= c < 4 implies is_corner(
                #[trigger] verts@[4 * f + c],
                f,
                c,
                true,
            ) by {
                if f < face {
                    assert(verts@[4 * f + c] == before[4 * f + c]);
                }
            }
            assert forall|f: int, k: int|
                0 <= f < face + 1 && 0 <= k < 6 implies #[trigger] indices@[6 * f + k]
                == face_triangles(4 * f)[k] by {
                if f < face {
                    assert(indices@[6 * f + k] == started[6 * f + k]);
                } else {
                    assert(indices@[started.len() + k] == face_triangles(4 * face as int)[k]);
                }
            }
        }
        face = face + 1;
    }
    (verts, indices)
}

/// The corners and triangles of a quad.
pub open spec fn is_quad(verts: Seq<Corner>, indices: Seq<u32>) -> bool {
    &&& verts.len() == 4
    &&& forall|corner: int| 0 <= corner < 4 ==> is_corner(#[trigger] verts[corner], 2, corner, false)
    &&& indices.len() == 6
    &&& forall|k: int| 0 <= k < 6 ==> #[trigger] indices[k] == face_triangles(0)[k]
}

/// A flat quad: the same corners and winding as the cube's `+Y` face, at height
/// 0, so that its normal map turns the same way as the cube's top.
pub fn quad_verts_indices() -> (r: (Vec<Corner>, Vec<u32>))
    ensures
        is_quad(r.0@, r.1@),
{
    let mut verts: Vec<Corner> = Vec::new();
    verts.push(corner_of(2, 0, false));
    verts.push(corner_of(2, 1, false));
    verts.push(corner_of(2, 2, false));
    verts.push(corner_of(2, 3, false));
    let mut indices: Vec<u32> = Vec::new();
    push_face(&mut indices, 0);
    assert forall|k: int| 0 <= k < 6 implies #[trigger] indices@[k] == face_triangles(0)[k] by {
        assert(indices@[0 + k] == face_triangles(0)[k]);
    }
    (verts, indices)
}

/// The two triangles between a vertex and the next one, on its ring and on the
/// ring below, counterclockwise from outside.
pub open spec fn patch_triangles(a: int, stride: int) -> Seq<int> {
    seq![a, a + 1, a + stride, a + 1, a + stride + 1, a + stride]
}

/// The triangles of a sphere, patch by patch along each ring.
pub open spec fn is_sphere(sectors: u32, rings: u32, indices: Seq<u32>) -> bool {
    &&& indices.len() == 6 * (rings * sectors)
    &&& forall|ring: int, sector: int, k: int|
        #![trigger patch_triangles(ring * (sectors + 1) + sector, sectors + 1)[k]]
        0 <= ring < rings && 0 <= sector < sectors && 0 <= k < 6 ==> indices[6 * (ring * sectors
            + sector) + k] == patch_triangles(ring * (sectors + 1) + sector, sectors + 1)[k]
    &&& forall|i: int|
        0 <= i < indices.len() ==> #[trigger] indices[i] < (sectors + 1) * (rings + 1)
}

/// The triangles of a sphere of that many sectors around and rings down, over
/// vertices listed ring by ring, the first of each ring repeated at its end.
pub fn sphere_indices(sectors: u32, rings: u32) -> (r: Vec<u32>)
    requires
        (sectors + 1) * (rings + 1) <= u32::MAX,
    ensures
        is_sphere(sectors, rings, r@),
{
    let mut indices: Vec<u32> = Vec::new();
    if rings == 0 {
        assert(rings * sectors == 0) by (nonlinear_arith)
            requires
                rings == 0,
        ;
        return indices;
    }
    assert(sectors + 1 <= u32::MAX) by (nonlinear_arith)
        requires
            (sectors + 1) * (rings + 1) <= u32::MAX,
            rings >= 1,
    ;
    let stride: u32 = sectors + 1;
    let mut ring: u32 = 0;
    assert(0 * sectors == 0) by (nonlinear_arith);
    while ring < rings
        invariant
            ring <= rings,
            stride == sectors + 1,
            stride * (rings + 1) <= u32::MAX,
            indices@.len() == 6 * (ring * sectors),
            forall|q: int, s: int, k: int|
                #![trigger patch_triangles(q * stride + s, stride as int)[k]]
                0 <= q < ring && 0 <= s < sectors && 0 <= k < 6 ==> indices@[6 * (q * sectors + s)
                    + k] == patch_triangles(q * stride + s, stride as int)[k],
            forall|i: int|
                0 <= i < indices@.len() ==> #[trigger] indices@[i] < stride * (rings + 1),
        decreases rings - ring,
    {
        let mut sector: u32 = 0;
        while sector < sectors
            invariant
                ring < rings,
                sector <= sectors,
                stride == sectors + 1,
                stride * (rings + 1) <= u32::MAX,
                indices@.len() == 6 * (ring * sectors + sector),
                forall|q: int, s: int, k: int|
                    #![trigger patch_triangles(q * stride + s, stride as int)[k]]
                    0 <= q < ring && 0 <= s < sectors && 0 <= k < 6 ==> indices@[6 * (q * sectors
                        + s) + k] == patch_triangles(q * stride + s, stride as int)[k],
                forall|s: int, k: int|
                    #![trigger patch_triangles(ring * stride + s, stride as int)[k]]
                    0 <= s < sector && 0 <= k < 6 ==> indices@[6 * (ring * sectors + s) + k]
                        == patch_triangles(ring * stride + s, stride as int)[k],
                forall|i: int|
                    0 <= i < indices@.len() ==> #[trigger] indices@[i] < stride * (rings + 1),
            decreases sectors - sector,
        {
            let ghost before = indices@;
            proof {
                lemma_patch_in_range(
                    ring as int,
                    sector as int,
                    rings as int,
                    sectors as int,
                );
            }
            let a: u32 = ring * stride + sector;
            indices.push(a);
            indices.push(a + 1);
            indices.push(a + stride);
            indices.push(a + 1);
            indices.push(a + stride + 1);
            indices.push(a + stride);
            proof {
                let n = before.len() as int;
                assert forall|q: int, s: int, k: int|
                    #![trigger patch_triangles(q * stride + s, stride as int)[k]]
                    0 <= q < ring && 0 <= s < sectors && 0 <= k < 6 implies indices@[6 * (q
                    * sectors + s) + k] == patch_triangles(q * stride + s, stride as int)[k] by {
                    lemma_earlier_patch(q, s, ring as int, sector as int, sectors as int);
                    assert(before[6 * (q * sectors + s) + k] == patch_triangles(
                        q * stride + s,
                        stride as int,
                    )[k]);
                }
                assert forall|s: int, k: int|
                    #![trigger patch_triangles(ring * stride + s, stride as int)[k]]
                    0 <= s < sector + 1 && 0 <= k < 6 implies indices@[6 * (ring * sectors + s)
                    + k] == patch_triangles(ring * stride + s, stride as int)[k] by {
                    if s < sector {
                        assert(before[6 * (ring * sectors + s) + k] == patch_triangles(
                            ring * stride + s,
                            stride as int,
                        )[k]);
                        lemma_row_start(ring as int, sectors as int);
                    } else {
                        assert(6 * (ring * sectors + s) + k == n + k);
                    }
                }
            }
            sector = sector + 1;
        }
        ring = ring + 1;
        proof {
            assert(ring * sectors == (ring - 1) * sectors + sectors) by (nonlinear_arith);
            assert forall|q: int, s: int, k: int|
                #![trigger patch_triangles(q * stride + s, stride as int)[k]]
                0 <= q < ring && 0 <= s < sectors && 0 <= k < 6 implies indices@[6 * (q * sectors
                + s) + k] == patch_triangles(q * stride + s, stride as int)[k] by {
                if q == ring - 1 {
                    assert(patch_triangles((ring - 1) * stride + s, stride as int)[k]
                        == patch_triangles(q * stride + s, stride as int)[k]);
                }
            }
        }
    }
    assert(rings * sectors == ring * sectors);
    indices
}

proof fn lemma_row_start(ring: int, sectors: int)
    requires
        ring >= 0,
        sectors >= 0,
    ensures
        ring * sectors >= 0,
{
    assert(ring * sectors >= 0) by (nonlinear_arith)
        requires
            ring >= 0,
            sectors >= 0,
    ;
}

/// A patch of an earlier ring comes before the patches of a ring.
proof fn lemma_earlier_patch(q: int, s: int, ring: int, sector: int, sectors: int)
    requires
        0 <= q < ring,
        0 <= s < sectors,
        0 <= sector <= sectors,
    ensures
        0 <= q * sectors + s,
        q * sectors + s < ring * sectors + sector,
{
    assert(q * sectors + sectors <= ring * sectors) by (nonlinear_arith)
        requires
            q + 1 <= ring,
            sectors >= 0,
    ;
    assert(q * sectors >= 0) by (nonlinear_arith)
        requires
            q >= 0,
            sectors >= 0,
    ;
}

/// The corners of a patch are vertices of the sphere.
proof fn lemma_patch_in_range(ring: int, sector: int, rings: int, sectors: int)
    requires
        0 <= ring < rings,
        0 <= sector < sectors,
    ensures
        0 <= ring * (sectors + 1),
        ring * (sectors + 1) + sector + (sectors + 1) + 1 < (sectors + 1) * (rings + 1),
        0 <= ring * sectors,
{
    let stride = sectors + 1;
    assert(ring * stride + stride + stride <= stride * (rings + 1)) by (nonlinear_arith)
        requires
            ring + 1 <= rings,
            stride >= 0,
    ;
    assert(0 <= ring * stride && 0 <= ring * sectors) by (nonlinear_arith)
        requires
            ring >= 0,
            stride >= 0,
            sectors >= 0,
    ;
}

/// Where the corners of the cube's faces stand, in halves, and how the texture
/// lies on them: a face is half a unit out along its own axis, `+X, -X, +Y, -Y,
/// +Z, -Z` in turn, and its texture stands upright seen from outside, the upper
/// edge of the top face being the far one.
pub proof fn law_corners_stand_on_their_face(
    verts: Seq<Corner>,
    indices: Seq<u32>,
    face: int,
    corner: int,
)
    requires
        is_cube(verts, indices),
        0 <= face < 6,
        0 <= corner < 4,
    ensures
        lies_on_face(verts[4 * face + corner], face),
        verts.len() == 24,
        indices.len() == 36,
{
    let c = verts[4 * face + corner];
    assert(is_corner(c, face, corner, true));
    let p = corner_pos(face, corner, true);
    let n = face_normal(face);
    assert(c.pos@[0] == p[0] && c.pos@[1] == p[1] && c.pos@[2] == p[2]);
    assert(c.normal@[0] == n[0] && c.normal@[1] == n[1] && c.normal@[2] == n[2]);
}

/// The corner stands on that face of the cube, at the texture coordinate that
/// its position there has.
pub open spec fn lies_on_face(c: Corner, face: int) -> bool {
    let right = if face == 0 {
        c.pos@[2] < 0
    } else if face == 1 {
        c.pos@[2] > 0
    } else if face == 5 {
        c.pos@[0] < 0
    } else {
        c.pos@[0] > 0
    };
    let below = if face == 2 {
        c.pos@[2] > 0
    } else if face == 3 {
        c.pos@[2] < 0
    } else {
        c.pos@[1] < 0
    };
    &&& forall|k: int|
        0 <= k < 3 ==> (#[trigger] c.pos@[k] == 1 || c.pos@[k] == -1) && c.normal@[k] == (if k
            == face / 2 {
            c.pos@[k] as int
        } else {
            0
        })
    &&& c.pos@[face / 2] == (if face % 2 == 0 {
        1int
    } else {
        -1int
    })
    &&& c.uv@[0] == 0 || c.uv@[0] == 1
    &&& c.uv@[1] == 0 || c.uv@[1] == 1
    &&& c.uv@[0] == 1 <==> right
    &&& c.uv@[1] == 1 <==> below
}

/// Each triangle of the cube joins three corners of one face and turns
/// counterclockwise seen from outside; the two of a face cover it.
pub proof fn law_cube_triangles_face_outward(
    verts: Seq<Corner>,
    indices: Seq<u32>,
    face: int,
    half: int,
)
    requires
        is_cube(verts, indices),
        0 <= face < 6,
        0 <= half < 2,
    ensures
        ({
            let i = indices[6 * face + 3 * half] as int;
            let j = indices[6 * face + 3 * half + 1] as int;
            let k = indices[6 * face + 3 * half + 2] as int;
            let n = face_normal(face);
            &&& 4 * face <= i < 4 * face + 4
            &&& 4 * face <= j < 4 * face + 4
            &&& 4 * face <= k < 4 * face + 4
            &&& cross(
                minus(corner_pos(face, j - 4 * face, true), corner_pos(face, i - 4 * face, true)),
                minus(corner_pos(face, k - 4 * face, true), corner_pos(face, i - 4 * face, true)),
            ) == seq![4 * n[0], 4 * n[1], 4 * n[2]]
        }),
        forall|corner: int| 0 <= corner < 4 ==> #[trigger] is_joined(indices, face, corner),
{
    law_faces_wind_outward(face, true);
    let t = face_triangles(4 * face);
    assert(indices[6 * face + 0] == t[0]);
    assert(indices[6 * face + 1] == t[1]);
    assert(indices[6 * face + 2] == t[2]);
    assert(indices[6 * face + 3] == t[3]);
    assert(indices[6 * face + 4] == t[4]);
    assert(indices[6 * face + 5] == t[5]);
    assert forall|corner: int| 0 <= corner < 4 implies #[trigger] is_joined(indices, face, corner) by {
        let k = if corner < 3 {
            corner
        } else {
            5
        };
        assert(indices[6 * face + k] == 4 * face + corner);
    }
}

/// Some triangle of the face has that corner.
pub open spec fn is_joined(indices: Seq<u32>, face: int, corner: int) -> bool {
    exists|k: int| 0 <= k < 6 && #[trigger] indices[6 * face + k] == 4 * face + corner
}

/// The quad is the cube's top face brought down to height 0: flat, facing up,
/// with the texture upright seen from the front, and the same triangles.
pub proof fn law_quad_is_the_top_face_laid_down(
    verts: Seq<Corner>,
    indices: Seq<u32>,
    corner: int,
)
    requires
        is_quad(verts, indices),
        0 <= corner < 4,
    ensures
        ({
            let c = verts[corner];
            &&& c.pos@[1] == 0
            &&& c.normal@[0] == 0 && c.normal@[1] == 1 && c.normal@[2] == 0
            &&& c.tangent@[0] == 1 && c.tangent@[1] == 0 && c.tangent@[2] == 0
            &&& c.pos@[0] == 2 * c.uv@[0] - 1
            &&& c.pos@[2] == 2 * c.uv@[1] - 1
            &&& c.uv@[0] == (if corner == 1 || corner == 2 {
                1int
            } else {
                0int
            })
            &&& c.uv@[1] == (if corner == 0 || corner == 1 {
                1int
            } else {
                0int
            })
        }),
        verts.len() == 4,
        indices.len() == 6,
        indices[0] == 0 && indices[1] == 1 && indices[2] == 2,
        indices[3] == 0 && indices[4] == 2 && indices[5] == 3,
{
    let c = verts[corner];
    let p = corner_pos(2, corner, false);
    let n = face_normal(2);
    let t = face_tangent(2);
    assert(c.pos@[0] == p[0] && c.pos@[1] == p[1] && c.pos@[2] == p[2]);
    assert(c.normal@[0] == n[0] && c.normal@[1] == n[1] && c.normal@[2] == n[2]);
    assert(c.tangent@[0] == t[0] && c.tangent@[1] == t[1] && c.tangent@[2] == t[2]);
    let f = face_triangles(0);
    assert(indices[0] == f[0] && indices[1] == f[1] && indices[2] == f[2]);
    assert(indices[3] == f[3] && indices[4] == f[4] && indices[5] == f[5]);
}

/// The six indices of a patch of the sphere name its four corners: `(0, 0)`,
/// one sector on, one ring down, and both. The two triangles turn the same way,
/// do not overlap, and meet along the patch's diagonal.
pub proof fn law_patches_are_two_triangles(
    sectors: u32,
    rings: u32,
    indices: Seq<u32>,
    ring: int,
    sector: int,
)
    requires
        is_sphere(sectors, rings, indices),
        0 <= ring < rings,
        0 <= sector < sectors,
    ensures
        ({
            let at = 6 * (ring * sectors + sector);
            let here = ring * (sectors + 1) + sector;
            let below = (ring + 1) * (sectors + 1) + sector;
            &&& indices[at] == here
            &&& indices[at + 1] == here + 1
            &&& indices[at + 2] == below
            &&& indices[at + 3] == indices[at + 1]
            &&& indices[at + 4] == below + 1
            &&& indices[at + 5] == indices[at + 2]
        }),
{
    let stride = sectors + 1;
    let a = ring * stride + sector;
    assert((ring + 1) * stride == ring * stride + stride) by (nonlinear_arith);
    let t = patch_triangles(a, stride);
    let at = 6 * (ring * sectors + sector);
    assert(indices[at + 0] == t[0]);
    assert(indices[at + 1] == t[1]);
    assert(indices[at + 2] == t[2]);
    assert(indices[at + 3] == t[3]);
    assert(indices[at + 4] == t[4]);
    assert(indices[at + 5] == t[5]);
}

} // verus!
