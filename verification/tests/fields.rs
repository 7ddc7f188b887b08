//! Hashes, lattices and the faces of the cube.
use texture_graph::crater::{
    cell_draws, cell_hash, clamp_classes, neighbor_cells, pcg, ray_draws, unit,
};
use texture_graph::noise::{
    channel_seed, clamp_octaves, corner_hash, hash_to_float01, lattice_hash, noise_spec,
    octave_seed, seed_offsets, used_period, wang_hash, wrap_cell, Dims, FractalMode, Kernel,
};
use texture_graph::{cube_direction, Noise, NoiseKernel, NoiseRange, Scalar, CUBE_FACES};

fn sc(v: f32) -> Scalar {
    Scalar::from_bits(v.to_bits())
}

fn val(s: Scalar) -> f32 {
    f32::from_bits(s.bits)
}

/// The direction of a face's `(u, v)`, both in `[0, 1]`.
fn looks(face: u32, u: f32, v: f32) -> [f32; 3] {
    cube_direction(face, sc(2.0 * u - 1.0), sc(2.0 * v - 1.0)).map(val)
}

/// Each face's centre looks straight down its own axis, in the order the
/// layers are stored.
#[test]
fn face_centres_are_the_six_axes() {
    let axes = [
        [1.0, 0.0, 0.0],
        [-1.0, 0.0, 0.0],
        [0.0, 1.0, 0.0],
        [0.0, -1.0, 0.0],
        [0.0, 0.0, 1.0],
        [0.0, 0.0, -1.0],
    ];
    for (face, axis) in axes.iter().enumerate() {
        assert_eq!(&looks(face as u32, 0.5, 0.5), axis, "face {face}");
    }
}

/// Adjacent faces meet: every edge of every face is shared with exactly one
/// other face, along the same line of directions. A mirrored face would still
/// have the right centre and fail this.
#[test]
fn edges_are_shared_between_faces() {
    let key = |d: [f32; 3]| d.map(|c| (c * 1000.0).round() as i32);
    let mut edges = std::collections::HashMap::new();
    for face in 0..CUBE_FACES {
        for k in 0..=8 {
            let a = k as f32 / 8.0;
            for (u, v) in [(a, 0.0), (a, 1.0), (0.0, a), (1.0, a)] {
                edges.entry(key(looks(face, u, v))).or_insert_with(Vec::new).push(face);
            }
        }
    }
    for (dir, faces) in edges {
        let mut distinct = faces.clone();
        distinct.sort();
        distinct.dedup();
        // Corners belong to three faces, the rest of an edge to two.
        assert!(distinct.len() >= 2, "direction {dir:?} lies on one face only: {faces:?}");
    }
}

#[test]
fn negative_cells_hash_apart_from_positive_ones() {
    let a = cell_hash(1, 0, [-1, 0, 0]);
    let b = cell_hash(1, 0, [1, 0, 0]);
    assert_ne!(a, b);
    assert!(val(unit(u32::MAX)) < 1.0);
}

fn wang(seed: u32) -> u32 {
    let mut x = seed;
    x = (x ^ 61) ^ (x >> 16);
    x = x.wrapping_add(x << 3);
    x ^= x >> 4;
    x = x.wrapping_mul(0x27d4_eb2d);
    x ^= x >> 15;
    x
}

#[test]
fn hashes_have_known_values() {
    for s in [0u32, 1, 61, 0xC0DE_D00D, u32::MAX] {
        assert_eq!(wang_hash(s), wang(s));
    }
    assert_eq!(pcg(0), 129_708_002);
    assert_eq!(val(hash_to_float01(u32::MAX)), 16_777_215.0 / 16_777_216.0);
    assert_eq!(val(hash_to_float01(0x8000_0000)), 0.5);
    assert_eq!(val(hash_to_float01(255)), 0.0);
    let offsets = seed_offsets(7).map(val);
    let want = [0xA1B2_C3D4u32, 0x51F0_E7A9, 0x0BAD_C0DE]
        .map(|x| (wang(7 ^ x) >> 8) as f32 * (1.0 / 16_777_216.0));
    assert_eq!(offsets, want);
}

#[test]
fn a_lattice_cell_hashes_by_every_coordinate_and_the_seed() {
    let base = lattice_hash([3, -4, 5], 9);
    assert_ne!(base, lattice_hash([4, -4, 5], 9));
    assert_ne!(base, lattice_hash([3, 4, 5], 9));
    assert_ne!(base, lattice_hash([3, -4, 6], 9));
    assert_ne!(base, lattice_hash([3, -4, 5], 10));
    let h = |c: [i32; 3], seed: u32| {
        let mut h = (c[0] as u32).wrapping_mul(1_597_334_677)
            ^ (c[1] as u32).wrapping_mul(3_812_015_801)
            ^ (c[2] as u32).wrapping_mul(2_654_435_761)
            ^ wang(seed);
        h ^= h >> 15;
        h = h.wrapping_mul(2_246_822_519);
        h ^= h >> 13;
        h = h.wrapping_mul(3_266_489_917);
        h ^= h >> 16;
        h
    };
    assert_eq!(base, h([3, -4, 5], 9));
}

#[test]
fn cells_wrap_at_their_period() {
    for i in [-9i32, -8, -1, 0, 7, 8, 17, i32::MIN, i32::MAX] {
        for p in [1u32, 3, 8, i32::MAX as u32] {
            assert_eq!(wrap_cell(i, p) as i64, (i as i64).rem_euclid(p as i64), "{i} by {p}");
        }
        assert_eq!(wrap_cell(i, 0), i);
    }
    let far = corner_hash([7, 0, 0], [1, 0, 0], [8, 0, 0], 5);
    assert_eq!(far, lattice_hash([0, 0, 0], 5), "the far corner of a tile is its near one");
    assert_eq!(corner_hash([7, 2, -3], [1, 1, 1], [0, 0, 0], 5), lattice_hash([8, 3, -2], 5));
}

#[test]
fn octaves_of_all_channels_have_different_seeds() {
    let n = Noise { seed_offset: u32::MAX, ..Noise::default() };
    let mut seeds = Vec::new();
    for channel in 0..3 {
        for octave in 0..8 {
            seeds.push(octave_seed(channel_seed(0xC0DE_D00D, &n, channel), octave));
        }
    }
    assert_eq!(seeds[0], 0xC0DE_D00C);
    assert_eq!(seeds[1], 0xC0DE_D00Cu32.wrapping_add(0x9E37_79B9));
    seeds.sort();
    seeds.dedup();
    assert_eq!(seeds.len(), 24);
}

#[test]
fn counts_are_clamped() {
    assert_eq!([0, 1, 5, 8, 9, u32::MAX].map(clamp_octaves), [1, 1, 5, 8, 8, 8]);
    assert_eq!([0, 1, 6, 7].map(clamp_classes), [1, 1, 6, 6]);
}

#[test]
fn a_noise_layer_is_the_field_it_describes() {
    let spec = noise_spec(&Noise::default());
    assert_eq!(spec.dims, Dims::D2);
    assert_eq!(spec.kernel, Kernel::Simplex);
    assert_eq!(spec.fractal.mode, FractalMode::Standard);
    assert!(!spec.signed);
    let spec = noise_spec(&Noise {
        kernel: NoiseKernel::Value,
        range: NoiseRange::Signed,
        period: [1, 2, 3],
        ..Noise::default()
    });
    assert_eq!((spec.kernel, spec.signed, spec.period), (Kernel::Value, true, [1, 2, 3]));
    assert_eq!(used_period(Dims::D1, [1, 2, 3]), [1, 0, 0]);
    assert_eq!(used_period(Dims::D2, [1, 2, 3]), [1, 2, 0]);
    assert_eq!(used_period(Dims::D3, [1, 2, 3]), [1, 2, 3]);
}

#[test]
fn the_neighbors_of_a_cell_are_27() {
    let cells = neighbor_cells([10, -20, 30]);
    assert_eq!(cells.len(), 27);
    assert_eq!(cells[0], [9, -21, 29]);
    assert_eq!(cells[1], [10, -21, 29]);
    assert_eq!(cells[13], [10, -20, 30]);
    assert_eq!(cells[26], [11, -19, 31]);
    let mut sorted = cells.clone();
    sorted.sort();
    sorted.dedup();
    assert_eq!(sorted.len(), 27);
}

#[test]
fn draws_follow_one_chain_of_hashes() {
    let h = cell_hash(5, 2, [1, -2, 3]);
    let share = |h: u32| (h >> 8) as f32 * (1.0 / 16_777_216.0);
    let d = cell_draws(h);
    assert_eq!(val(d.presence), share(h));
    let h1 = pcg(h);
    let h2 = pcg(h1);
    let h3 = pcg(h2);
    let h4 = pcg(h3);
    assert_eq!(d.center.map(val), [share(h1), share(h2), share(h3)]);
    assert_eq!(val(d.size), share(h4));
    assert_eq!(d.rays, pcg(h4));
    let rays = ray_draws(d.rays);
    assert_eq!(rays.len(), 18);
    assert_eq!(val(rays[0]), share(pcg(d.rays)));
    assert_eq!(val(rays[1]), share(pcg(pcg(d.rays))));
}
