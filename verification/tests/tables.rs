//! Codes, names, parameters and the small operations on them.
use texture_graph::bake::{pack_mode_code, PackMode};
use texture_graph::bytes::read_le_half;
use texture_graph::lists::without_id;
use texture_graph::names::{order_names, same_name, NameOrder};
use texture_graph::passes::{
    axis_code, blend_mode_code, blend_space_code, criterion_code, dims_code, edge_mode_code,
    flat_w, fractal_mode_code, kernel_code, min_max_code, noise_output_code, radial_dim_code,
    ramp_inputs, range_code, warp_mode_code, wave_shape_code,
};
use texture_graph::{
    oklcha, Axis, BlendMode, BlendSpace, Color, ColorInput, ColorRamp, ColorStop, Criterion, Domain,
    EdgeMode, Fractal, FractalMode, Graph, LayerId, LayerKind, MinMaxMode, Mix, NameMap, NoiseDims,
    NoiseKernel, NoiseOutput, NoiseRange, Output, ParamKind, ParamUse, ParamValue, Pipeline, PointMap,
    RadialDim, Scalar, ScalarInput, Slice, WarpMode, WaveShape, Word,
};

fn sc(v: f32) -> Scalar {
    Scalar::from_bits(v.to_bits())
}

#[test]
fn shaders_are_told_modes_by_number() {
    let spaces = [BlendSpace::Oklch, BlendSpace::LinearSrgb, BlendSpace::Hsv];
    assert_eq!(spaces.map(blend_space_code), [0, 1, 2]);
    assert_eq!([Axis::U, Axis::V, Axis::W].map(axis_code), [0, 1, 2]);
    assert_eq!([NoiseDims::D1, NoiseDims::D2, NoiseDims::D3].map(dims_code), [0, 1, 2]);
    assert_eq!([NoiseRange::Unsigned, NoiseRange::Signed].map(range_code), [0, 1]);
    assert_eq!([NoiseOutput::Grayscale, NoiseOutput::Color].map(noise_output_code), [0, 1]);
    assert_eq!([NoiseKernel::Simplex, NoiseKernel::Value].map(kernel_code), [0, 1]);
    let fractals = [FractalMode::Standard, FractalMode::Turbulence, FractalMode::Ridged];
    assert_eq!(fractals.map(fractal_mode_code), [0, 1, 2]);
    let blends = [BlendMode::Add, BlendMode::Subtract, BlendMode::Multiply, BlendMode::Blend];
    assert_eq!(blends.map(blend_mode_code), [0, 1, 2, 3]);
    assert_eq!([MinMaxMode::Min, MinMaxMode::Max].map(min_max_code), [0, 1]);
    let criteria = [
        Criterion::Red,
        Criterion::Green,
        Criterion::Blue,
        Criterion::Saturation,
        Criterion::Value,
        Criterion::Luma,
        Criterion::Alpha,
        Criterion::Chroma,
    ];
    assert_eq!(criteria.map(criterion_code), [0, 1, 2, 3, 4, 5, 6, 7]);
    let shapes =
        [WaveShape::Sine, WaveShape::Triangle, WaveShape::Square, WaveShape::Sawtooth];
    assert_eq!(shapes.map(wave_shape_code), [0, 1, 2, 3]);
    assert_eq!([WarpMode::Scalar, WarpMode::Vector].map(warp_mode_code), [0, 1]);
    assert_eq!([EdgeMode::Clamp, EdgeMode::Extend].map(edge_mode_code), [0, 1]);
    assert_eq!([RadialDim::D2, RadialDim::D3].map(radial_dim_code), [0, 1]);
    assert_eq!([PackMode::Color, PackMode::Gray, PackMode::Normal].map(pack_mode_code), [0, 2, 3]);
}

#[test]
fn a_slice_is_a_plane_or_a_face() {
    let plane = Slice::Plane { w: Word::SliceCenter { z: 1, depth: 4 } };
    assert_eq!(plane.w(), Word::SliceCenter { z: 1, depth: 4 });
    assert_eq!(plane.face_code(), 0);
    assert_eq!(plane.point_map(), PointMap::identity());
    let map = PointMap { rows: [sc(3.0); 12] };
    let face = Slice::CubeFace { face: 5, map };
    assert_eq!((face.w(), face.face_code(), face.point_map()), (flat_w(), 6, map));
    assert_eq!(flat_w(), Word::Bits(0.5f32.to_bits()));
}

#[test]
fn names_are_ordered_by_their_bytes() {
    let names = ["", "a", "a\u{0}", "ab", "b", "é", "中", "\u{1F600}"];
    for (i, a) in names.iter().enumerate() {
        for (j, b) in names.iter().enumerate() {
            let order = order_names(a, b);
            assert_eq!(matches!(order, NameOrder::Before), i < j && a < b);
            assert_eq!(matches!(order, NameOrder::Same), i == j);
            assert_eq!(same_name(a, b), a == b);
        }
    }
}

#[test]
fn a_name_map_keeps_its_names_in_order() {
    let mut m: NameMap<u32> = NameMap::new();
    for (k, name) in ["pear", "apple", "fig", "apple"].iter().enumerate() {
        let before = m.insert(name, k as u32);
        assert_eq!(before, if k == 3 { Some(1) } else { None });
    }
    let names: Vec<&str> = (0..m.len()).map(|i| m.name_at(i)).collect();
    assert_eq!(names, vec!["apple", "fig", "pear"]);
    assert_eq!(*m.value_at(0), 3);
    *m.value_at_mut(1) = 9;
    *m.get_mut("pear").unwrap() = 7;
    assert_eq!((m.get("fig"), m.get("pear"), m.get("plum")), (Some(&9), Some(&7), None));
    assert_eq!((m.remove("fig"), m.remove("fig")), (Some(9), None));
    assert!(m.contains_key("apple") && !m.contains_key("fig"));
    assert_eq!(m.copied().len(), 2);
}

#[test]
fn a_parameter_fits_sockets_of_its_sort() {
    let scalar = ParamKind::Scalar { min: sc(0.0), max: sc(1.0) };
    let other = ParamKind::Scalar { min: sc(-1.0), max: sc(2.0) };
    assert!(scalar.same_sort(&other) && !scalar.same_sort(&ParamKind::Color));
    assert!(ParamUse::Scalar.accepts(&scalar) && ParamUse::Color.accepts(&ParamKind::Color));
    assert!(!ParamUse::Scalar.accepts(&ParamKind::Color) && !ParamUse::Color.accepts(&scalar));
    let (number, color) = (ParamValue::Scalar(sc(2.0)), ParamValue::Color(Color::black()));
    assert_eq!((number.as_scalar(), number.as_color()), (Some(sc(2.0)), None));
    assert_eq!((color.as_scalar(), color.as_color()), (None, Some(Color::black())));
    assert!(number.matches(&scalar) && !number.matches(&ParamKind::Color));
}

#[test]
fn a_union_covers_both_rectangles() {
    let a = Domain { min: [sc(-1.0), sc(0.0)], max: [sc(0.5), sc(1.0)] };
    let b = Domain { min: [sc(0.0), sc(-2.0)], max: [sc(3.0), sc(f32::NAN)] };
    let u = a.union(b);
    assert_eq!(u.min, [sc(-1.0), sc(-2.0)]);
    assert_eq!(u.max, [sc(3.0), sc(1.0)]);
}

#[test]
fn disconnecting_drops_every_reference() {
    let (a, b) = (LayerId(1), LayerId(2));
    let mut kind = LayerKind::Mix(Mix {
        a: Some(a),
        b: Some(b),
        mode: BlendMode::Blend,
        factor: ScalarInput::Layer(a),
        space: BlendSpace::Oklch,
    });
    kind.disconnect(a);
    assert_eq!(kind.inputs(), vec![b]);
    let mut out = Output {
        color: Some(a),
        roughness: ScalarInput::Layer(a),
        metallic: ScalarInput::Layer(b),
        normal: Some(b),
    };
    out.disconnect(a);
    assert_eq!(out.referenced(), vec![b, b]);
    assert_eq!(without_id(&vec![a, b, a], a), vec![b]);
}

#[test]
fn freezing_writes_the_value_into_readers() {
    let mut out = Output {
        color: None,
        roughness: ScalarInput::Param("x".into()),
        metallic: ScalarInput::Param("y".into()),
        normal: None,
    };
    out.freeze_param("x", ParamValue::Scalar(sc(0.125)));
    assert!(matches!(out.roughness, ScalarInput::Const(v) if v == sc(0.125)));
    assert_eq!(out.param_refs(), vec![("y", ParamUse::Scalar)]);
    let c = oklcha(sc(0.1), sc(0.2), sc(30.0), sc(1.0));
    let stop = |color: ColorInput| ColorStop { t: sc(0.0), color };
    let mut ramp = LayerKind::ColorRamp(ColorRamp {
        stops: vec![stop(ColorInput::Param("c".into())), stop(ColorInput::Layer(LayerId(4)))],
        space: BlendSpace::Hsv,
    });
    ramp.freeze_param("c", ParamValue::Color(c));
    let LayerKind::ColorRamp(r) = &ramp else { panic!("still a ramp") };
    assert!(matches!(r.stops[0].color, ColorInput::Const(v) if v == c));
    assert_eq!(ramp.inputs(), vec![LayerId(4)]);
    assert_eq!(ramp_inputs(r), Some(vec![LayerId(4)]));
}

#[test]
fn upstream_is_what_a_layer_reads() {
    let mut g = Graph::new();
    let base = g.output.color.unwrap();
    let mix = g
        .add_layer(
            "m",
            LayerKind::Mix(Mix {
                a: Some(base),
                b: None,
                mode: BlendMode::Add,
                factor: ScalarInput::Const(sc(0.5)),
                space: BlendSpace::Oklch,
            }),
        )
        .unwrap();
    let (seen, unknown) = g.upstream(&vec![mix]);
    assert_eq!(seen.len(), 2);
    assert!(seen.contains(&base.0) && unknown.is_none());
    let (_, unknown) = g.upstream(&vec![LayerId(99)]);
    assert_eq!(unknown, Some(LayerId(99)));
    // The last root is walked first, and of a layer's inputs the last.
    let (seen, unknown) = g.upstream(&vec![LayerId(70), base, LayerId(80)]);
    assert_eq!((seen.len(), unknown), (3, Some(LayerId(80))));
    let LayerKind::Mix(m) = &mut g.get_mut(mix).unwrap().kind else { panic!() };
    (m.a, m.b) = (Some(LayerId(60)), Some(LayerId(61)));
    let (_, unknown) = g.upstream(&vec![LayerId(70), mix]);
    assert_eq!(unknown, Some(LayerId(61)));
}

#[test]
fn halves_are_read_least_significant_byte_first() {
    assert_eq!(read_le_half(&vec![0xAA, 0x34, 0x12], 1), 0x1234);
    assert_eq!(Fractal::single(), Fractal::default());
    assert_eq!(Fractal::single().octaves, 1);
}

#[test]
fn layouts_bind_every_texture_apart() {
    let all = [
        (Pipeline::Color, Some(1), None, vec![]),
        (Pipeline::Transform, Some(1), None, vec![2]),
        (Pipeline::Wave, Some(1), None, vec![2]),
        (Pipeline::MinMax, Some(1), None, vec![2, 3]),
        (Pipeline::Mix, Some(1), None, vec![2, 3, 4]),
        (Pipeline::ColorRamp, Some(1), Some(2), vec![3, 4, 5, 6, 7, 8, 9, 10]),
        (Pipeline::Pack, Some(2), None, vec![1]),
        (Pipeline::Solid, Some(1), None, vec![]),
        (Pipeline::PackScalar, None, None, vec![1]),
    ];
    for (pipeline, target, stops, sources) in all {
        assert_eq!((pipeline.target_binding(), pipeline.stops_binding()), (target, stops));
        let bound: Vec<u32> =
            (pipeline.first_source_binding()..).take(pipeline.source_count()).collect();
        assert_eq!(bound, sources, "{pipeline:?}");
    }
}
