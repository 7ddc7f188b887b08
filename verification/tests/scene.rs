//! The meshes of the preview.
use texture_graph::scene::{
    cube_verts_indices, quad_verts_indices, sphere_indices, Corner, SceneShape,
};

fn corner(pos: [i8; 3], normal: [i8; 3], tangent: [i8; 3], uv: [u8; 2]) -> Corner {
    Corner { pos, normal, tangent, uv }
}

#[test]
fn a_cube_has_four_corners_and_two_triangles_per_face() {
    let (verts, indices) = cube_verts_indices();
    assert_eq!((verts.len(), indices.len()), (24, 36));
    assert_eq!(verts[0], corner([1, -1, 1], [1, 0, 0], [0, 0, -1], [0, 1]));
    assert_eq!(verts[2], corner([1, 1, -1], [1, 0, 0], [0, 0, -1], [1, 0]));
    assert_eq!(verts[7], corner([-1, 1, -1], [-1, 0, 0], [0, 0, 1], [0, 0]));
    assert_eq!(verts[9], corner([1, 1, 1], [0, 1, 0], [1, 0, 0], [1, 1]));
    assert_eq!(verts[14], corner([1, -1, 1], [0, -1, 0], [1, 0, 0], [1, 0]));
    assert_eq!(verts[16], corner([-1, -1, 1], [0, 0, 1], [1, 0, 0], [0, 1]));
    assert_eq!(verts[23], corner([1, 1, -1], [0, 0, -1], [-1, 0, 0], [0, 0]));
    assert_eq!(indices[30..], [20, 21, 22, 20, 22, 23]);
}

#[test]
fn every_triangle_of_a_cube_turns_outward() {
    let (verts, indices) = cube_verts_indices();
    for tri in indices.chunks(3) {
        let p: Vec<[i32; 3]> =
            tri.iter().map(|i| verts[*i as usize].pos.map(|c| c as i32)).collect();
        let a = [p[1][0] - p[0][0], p[1][1] - p[0][1], p[1][2] - p[0][2]];
        let b = [p[2][0] - p[0][0], p[2][1] - p[0][1], p[2][2] - p[0][2]];
        let cross = [
            a[1] * b[2] - a[2] * b[1],
            a[2] * b[0] - a[0] * b[2],
            a[0] * b[1] - a[1] * b[0],
        ];
        let n = verts[tri[0] as usize].normal.map(|c| 4 * c as i32);
        assert_eq!(cross, n);
    }
}

#[test]
fn a_quad_is_the_cubes_top_at_height_zero() {
    let (verts, indices) = quad_verts_indices();
    let (cube, _) = cube_verts_indices();
    for (v, c) in verts.iter().zip(&cube[8..12]) {
        assert_eq!(v.pos, [c.pos[0], 0, c.pos[2]]);
        assert_eq!((v.normal, v.tangent, v.uv), (c.normal, c.tangent, c.uv));
    }
    assert_eq!(indices, vec![0, 1, 2, 0, 2, 3]);
}

#[test]
fn a_sphere_is_covered_patch_by_patch() {
    assert_ne!(SceneShape::Sphere, SceneShape::Quad);
    let indices = sphere_indices(2, 2);
    let want = vec![
        0, 1, 3, 1, 4, 3, 1, 2, 4, 2, 5, 4, 3, 4, 6, 4, 7, 6, 4, 5, 7, 5, 8, 7,
    ];
    assert_eq!(indices, want);
    assert_eq!(sphere_indices(128, 64).len(), 128 * 64 * 6);
    assert!(sphere_indices(128, 64).iter().all(|i| *i < 129 * 65));
    assert!(sphere_indices(3, 0).is_empty() && sphere_indices(0, 3).is_empty());
}
