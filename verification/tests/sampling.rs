//! What an evaluation decides by comparing.
use texture_graph::sampling::{
    arrange, coordinate_of, first_wins, missing_texture, ramp_bracket, transform_source_point,
    warp_in_bounds,
};
use texture_graph::scalar::INFINITY_BITS;
use texture_graph::{
    oklcha, Axis, Color, ColorInput, ColorStop, CoordMode, EdgeMode, EvalCtx, MinMaxMode,
    ParamValue, RadialDim, Scalar, ScalarInput, Transform,
};

fn sc(v: f32) -> Scalar {
    Scalar::from_bits(v.to_bits())
}

fn val(s: Scalar) -> f32 {
    f32::from_bits(s.bits)
}

const SAMPLES: [f32; 14] = [
    f32::NEG_INFINITY,
    f32::MIN,
    -1.5,
    -1.0,
    -1.0e-40,
    -0.0,
    0.0,
    1.0e-45,
    0.5,
    1.0,
    1.000_000_1,
    3.0e38,
    f32::INFINITY,
    f32::NAN,
];

#[test]
fn scalars_compare_as_their_numbers() {
    for a in SAMPLES {
        for b in SAMPLES {
            assert_eq!(sc(a).le(sc(b)), a <= b, "{a} <= {b}");
            assert_eq!(sc(a).lt(sc(b)), a < b, "{a} < {b}");
            assert_eq!(sc(a).same(sc(b)), a == b, "{a} == {b}");
            let (lo, hi) = (val(sc(a).min(sc(b))), val(sc(a).max(sc(b))));
            assert!(lo == a.min(b) || lo.is_nan() && a.min(b).is_nan(), "min {a} {b}");
            assert!(hi == a.max(b) || hi.is_nan() && a.max(b).is_nan(), "max {a} {b}");
        }
        assert_eq!(sc(a).is_nan(), a.is_nan());
        assert_eq!(sc(a).is_finite(), a.is_finite());
        assert_eq!(sc(a).negated().bits, (-a).to_bits());
        let held = val(sc(a).clamp_unit());
        assert!(held == a.clamp(0.0, 1.0) || held.is_nan() && a.is_nan(), "{a}");
    }
    assert_eq!(f32::from_bits(INFINITY_BITS), f32::INFINITY);
    assert_eq!([Scalar::zero(), Scalar::half(), Scalar::one()].map(val), [0.0, 0.5, 1.0]);
}

#[test]
fn the_grid_alternates_along_every_axis() {
    let magenta = oklcha(sc(0.7017), sc(0.3223), sc(328.36), sc(1.0));
    assert_eq!(missing_texture([0, 0, 0]), magenta);
    assert_eq!(missing_texture([1, 0, 0]), Color::black());
    assert_eq!(missing_texture([0, -1, 0]), Color::black());
    assert_eq!(missing_texture([-3, 5, 8]), magenta);
    assert_eq!(missing_texture([i64::MAX, i64::MIN, i64::MAX]), magenta);
    assert_eq!(missing_texture([i64::MIN, 0, 1]), Color::black());
}

fn stops(ts: &[f32]) -> Vec<ColorStop> {
    ts.iter()
        .map(|t| ColorStop { t: sc(*t), color: ColorInput::Const(Color::black()) })
        .collect()
}

#[test]
fn a_ramp_is_sampled_between_the_stops_around_the_point() {
    let s = stops(&[0.0, 0.25, 0.25, 1.0]);
    for (u, want) in [
        (-1.0, (0, 1)),
        (0.0, (0, 1)),
        (0.1, (0, 1)),
        (0.25, (0, 1)),
        (0.3, (2, 3)),
        (1.0, (2, 3)),
        (7.0, (2, 3)),
        (f32::NAN, (0, 3)),
    ] {
        assert_eq!(ramp_bracket(&s, sc(u)), want, "{u}");
    }
    let two = stops(&[0.5, 0.5]);
    assert_eq!(ramp_bracket(&two, sc(0.9)), (0, 1));
}

fn transform(coord_mode: CoordMode, edge_mode: EdgeMode) -> Transform {
    Transform {
        source: None,
        offset: [sc(0.0); 3],
        rotate_uv: sc(0.0),
        scale: [sc(1.0); 3],
        coord_mode,
        edge_mode,
    }
}

#[test]
fn a_clamping_transform_reads_within_the_unit_square() {
    let t = transform(CoordMode::Passthrough, EdgeMode::Clamp);
    let q = transform_source_point(&t, [sc(-2.0), sc(3.0), sc(9.0)]).unwrap();
    assert_eq!(q.map(val), [0.0, 1.0, 9.0]);
}

#[test]
fn an_extending_transform_is_capped_only_when_radial() {
    let far = [sc(8.6), sc(0.0), sc(0.0)];
    let affine = transform(CoordMode::Passthrough, EdgeMode::Extend);
    assert_eq!(transform_source_point(&affine, far).unwrap().map(val), far.map(val));
    let radial =
        transform(CoordMode::Radial { dim: RadialDim::D2, into: Axis::U }, EdgeMode::Extend);
    assert!(transform_source_point(&radial, far).is_none());
    assert!(transform_source_point(&radial, [sc(0.0), sc(-7.6), sc(0.0)]).is_none());
    assert!(transform_source_point(&radial, [sc(8.5), sc(-7.5), sc(99.0)]).is_some());
}

#[test]
fn coordinates_are_arranged_by_mode() {
    let p = [sc(1.0), sc(2.0), sc(3.0)];
    assert_eq!(arrange(CoordMode::Passthrough, p, sc(9.0)).map(val), [1.0, 2.0, 3.0]);
    let axes = [Axis::V, Axis::U, Axis::W];
    assert_eq!(arrange(CoordMode::Permute(axes), p, sc(9.0)).map(val), [2.0, 1.0, 3.0]);
    for (into, want) in
        [(Axis::U, [9.0, 0.0, 0.0]), (Axis::V, [0.0, 9.0, 0.0]), (Axis::W, [0.0, 0.0, 9.0])]
    {
        let mode = CoordMode::Radial { dim: RadialDim::D2, into };
        assert_eq!(arrange(mode, p, sc(9.0)).map(val), want);
    }
    assert_eq!([Axis::U, Axis::V, Axis::W].map(|a| val(coordinate_of(p, a))), [1.0, 2.0, 3.0]);
}

#[test]
fn a_warp_stays_within_its_rectangle() {
    let (low, high) = ([sc(-0.5), sc(-0.25)], [sc(1.5), sc(1.25)]);
    assert!(warp_in_bounds([sc(1.5), sc(-0.25), sc(50.0)], low, high));
    assert!(!warp_in_bounds([sc(1.51), sc(0.0), sc(0.0)], low, high));
    assert!(!warp_in_bounds([sc(0.0), sc(-0.26), sc(0.0)], low, high));
    assert!(warp_in_bounds([sc(f32::NAN), sc(0.0), sc(0.0)], low, high));
}

#[test]
fn ties_go_to_the_first_input() {
    for mode in [MinMaxMode::Min, MinMaxMode::Max] {
        assert!(first_wins(mode, sc(0.5), sc(0.5)));
        assert!(!first_wins(mode, sc(f32::NAN), sc(0.5)));
    }
    assert!(first_wins(MinMaxMode::Min, sc(0.1), sc(0.5)));
    assert!(!first_wins(MinMaxMode::Max, sc(0.1), sc(0.5)));
}

#[test]
fn sockets_read_constants_and_bindings() {
    let ctx = EvalCtx::default().with_param("x", ParamValue::Scalar(sc(0.25)));
    assert_eq!(ctx.scalar_const(&ScalarInput::Const(sc(3.0))), Some(sc(3.0)));
    assert_eq!(ctx.scalar_const(&ScalarInput::Param("x".into())), Some(sc(0.25)));
    assert_eq!(ctx.scalar_const(&ScalarInput::Param("y".into())), Some(sc(0.0)));
    assert_eq!(ctx.scalar_const(&ScalarInput::Layer(texture_graph::LayerId(1))), None);
    assert_eq!(ctx.color_const(&ColorInput::Param("x".into())), Some(Color::black()));
    assert_eq!(ctx.seed, 0xC0DE_D00D);
    assert_eq!(val(ctx.normal_epsilon), 1.0 / 512.0);
}
