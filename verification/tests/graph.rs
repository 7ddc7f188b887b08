//! Editing a graph.
use texture_graph::{
    oklcha, BlendMode, BlendSpace, Canvas, Color, ColorInput, ColorRamp, ColorStop, Coordinate,
    CoordMode, Craters, EdgeMode, EvalCtx, Fractal, GradientMap, Graph, GraphError, Layer, LayerId,
    LayerKind, Mix, Noise, NoiseDims, NoiseKernel, NoiseOutput, NoiseRange, Output, ParamDecl,
    ParamKind, ParamUse, ParamValue, Scalar, ScalarInput, Transform, Wave,
};

fn sc(v: f32) -> Scalar {
    Scalar::from_bits(v.to_bits())
}

fn val(s: Scalar) -> f32 {
    f32::from_bits(s.bits)
}

fn color(l: f32, chroma: f32, hue: f32, alpha: f32) -> Color {
    oklcha(sc(l), sc(chroma), sc(hue), sc(alpha))
}

fn scalar_param(name: &str, min: f32, max: f32, default: f32) -> ParamDecl {
    ParamDecl::scalar(name, sc(min), sc(max), sc(default))
}

/// a depends on b, b depends on c: a → b → c.
fn chain() -> (Graph, LayerId, LayerId, LayerId) {
    let mut g = Graph::new();
    let c = g.layers[0].id;
    let b = g
        .add_layer("b", LayerKind::GradientMap(GradientMap { value: Some(c), palette: None }))
        .unwrap();
    let a = g
        .add_layer("a", LayerKind::GradientMap(GradientMap { value: Some(b), palette: None }))
        .unwrap();
    (g, a, b, c)
}

#[test]
fn would_cycle_matches_dependency_direction() {
    let (g, a, b, c) = chain();
    assert!(g.would_cycle(c, a));
    assert!(g.would_cycle(c, b));
    assert!(g.would_cycle(b, a));
    assert!(!g.would_cycle(a, c));
    assert!(!g.would_cycle(a, b));
    assert!(g.would_cycle(a, a));
}

#[test]
fn would_cycle_is_exact_under_replacement() {
    let (mut g, a, _b, c) = chain();
    let x = g
        .add_layer("x", LayerKind::GradientMap(GradientMap { value: Some(c), palette: None }))
        .unwrap();
    assert!(!g.would_cycle(a, x));
}

#[test]
fn would_cycle_agrees_with_set_kind() {
    let (mut g, a, b, c) = chain();
    for (node, input) in [(c, a), (b, a), (a, a), (a, c)] {
        let predicted = g.would_cycle(node, input);
        let result = g.set_kind(
            node,
            LayerKind::Mix(Mix {
                a: Some(input),
                b: None,
                mode: BlendMode::Add,
                factor: ScalarInput::Const(sc(0.5)),
                space: BlendSpace::Oklch,
            }),
        );
        assert_eq!(
            predicted,
            matches!(result, Err(GraphError::Cycle(_))),
            "disagreement wiring {input:?} into {node:?}"
        );
        // chain() assigns the same ids each time.
        g = chain().0;
    }
}

#[test]
fn remove_disconnects_every_consumer() {
    let mut g = Graph::new();
    let victim = g.output.color.unwrap();
    let consumer = g
        .add_layer(
            "mix",
            LayerKind::Mix(Mix {
                a: Some(victim),
                b: None,
                mode: BlendMode::Blend,
                factor: ScalarInput::Layer(victim),
                space: BlendSpace::Oklch,
            }),
        )
        .unwrap();
    g.output.normal = Some(victim);
    g.output.roughness = ScalarInput::Layer(victim);

    g.remove(victim).expect("referenced layers are removable");

    assert!(!g.contains(victim));
    let LayerKind::Mix(m) = &g.get(consumer).unwrap().kind else { panic!() };
    assert_eq!(m.a, None);
    assert!(matches!(m.factor, ScalarInput::Const(_)));
    assert_eq!(g.output.color, None);
    assert_eq!(g.output.normal, None);
    assert!(matches!(g.output.roughness, ScalarInput::Const(_)));
}

fn value_noise(period: [u32; 3]) -> LayerKind {
    LayerKind::Noise(Noise {
        dims: NoiseDims::D3,
        seed_offset: 0,
        frequency: sc(8.0),
        range: NoiseRange::Unsigned,
        output: NoiseOutput::Grayscale,
        kernel: NoiseKernel::Value,
        period,
        fractal: Fractal::default(),
    })
}

#[test]
fn a_periodic_simplex_is_rejected_by_every_path() {
    let mut periodic_simplex = value_noise([8, 8, 8]);
    let LayerKind::Noise(n) = &mut periodic_simplex else { panic!() };
    n.kernel = NoiseKernel::Simplex;

    let mut g = Graph::new();
    assert!(matches!(
        g.add_layer("bad", periodic_simplex.clone()),
        Err(GraphError::PeriodicSimplex)
    ));
    let id = g.output.color.unwrap();
    assert!(matches!(g.set_kind(id, periodic_simplex), Err(GraphError::PeriodicSimplex)));
    let mut aperiodic = value_noise([0; 3]);
    let LayerKind::Noise(n) = &mut aperiodic else { panic!() };
    n.kernel = NoiseKernel::Simplex;
    assert!(g.add_layer("plain simplex", aperiodic).is_ok());
    assert!(g.add_layer("tiling value", value_noise([8, 8, 8])).is_ok());
}

#[test]
fn a_rejected_kind_leaves_the_layer_alone() {
    let mut g = Graph::new();
    let id = g.output.color.unwrap();
    let mut periodic_simplex = value_noise([4, 0, 0]);
    let LayerKind::Noise(n) = &mut periodic_simplex else { panic!() };
    n.kernel = NoiseKernel::Simplex;
    let _ = g.set_kind(id, periodic_simplex);
    assert!(matches!(g.get(id).unwrap().kind, LayerKind::Color(_)));
}

fn mix_with_factor(a: LayerId, factor: ScalarInput) -> LayerKind {
    LayerKind::Mix(Mix {
        a: Some(a),
        b: Some(a),
        mode: BlendMode::Blend,
        factor,
        space: BlendSpace::Oklch,
    })
}

fn ramp_with_stop(stop: ColorInput) -> LayerKind {
    LayerKind::ColorRamp(ColorRamp {
        stops: vec![
            ColorStop { t: sc(0.0), color: ColorInput::Const(color(0.0, 0.0, 0.0, 1.0)) },
            ColorStop { t: sc(1.0), color: stop },
        ],
        space: BlendSpace::Oklch,
    })
}

#[test]
fn an_undeclared_parameter_is_rejected_like_an_unknown_layer() {
    let mut g = Graph::new();
    let base = g.output.color.unwrap();
    assert!(matches!(
        g.add_layer("m", mix_with_factor(base, ScalarInput::Param("nope".into()))),
        Err(GraphError::UnknownParam(n)) if n == "nope"
    ));

    g.declare_param(scalar_param("contrast", 0.0, 2.0, 1.0)).unwrap();
    assert!(g
        .add_layer("m", mix_with_factor(base, ScalarInput::Param("contrast".into())))
        .is_ok());
}

/// The error names the declared and wanted kinds the right way round.
#[test]
fn a_socket_cannot_read_the_wrong_kind_of_parameter() {
    let mut g = Graph::new();
    let base = g.output.color.unwrap();
    g.declare_param(ParamDecl::color("tint", color(0.5, 0.1, 30.0, 1.0))).unwrap();
    let err = g
        .add_layer("m", mix_with_factor(base, ScalarInput::Param("tint".into())))
        .unwrap_err();
    assert!(
        matches!(&err, GraphError::ParamTypeMismatch { name, declared, wanted }
            if name == "tint" && *declared == "color" && *wanted == "scalar"),
        "unexpected error: {err:?}"
    );
    assert!(g.add_layer("r", ramp_with_stop(ColorInput::Param("tint".into()))).is_ok());
}

#[test]
fn the_output_validates_its_parameters_too() {
    let mut g = Graph::new();
    let color = g.output.color;
    let bad = Output {
        color,
        roughness: ScalarInput::Param("nope".into()),
        metallic: ScalarInput::Const(sc(0.0)),
        normal: None,
    };
    assert!(matches!(g.set_output(bad), Err(GraphError::UnknownParam(_))));
}

#[test]
fn a_declarations_default_must_match_its_own_kind() {
    let mut g = Graph::new();
    let bogus = ParamDecl {
        name: "x".into(),
        kind: ParamKind::Scalar { min: sc(0.0), max: sc(1.0) },
        default: ParamValue::Color(color(0.5, 0.0, 0.0, 1.0)),
        description: None,
    };
    assert!(matches!(g.declare_param(bogus), Err(GraphError::ParamDefaultMismatch { .. })));
    g.declare_param(scalar_param("x", 0.0, 1.0, 0.5)).unwrap();
    assert!(matches!(
        g.declare_param(scalar_param("x", 0.0, 1.0, 0.5)),
        Err(GraphError::DuplicateParam(_))
    ));
}

#[test]
fn removing_a_parameter_freezes_its_readers() {
    let mut g = Graph::new();
    let base = g.output.color.unwrap();
    g.declare_param(scalar_param("contrast", 0.0, 2.0, 0.75)).unwrap();
    g.declare_param(ParamDecl::color("tint", color(0.4, 0.2, 90.0, 1.0))).unwrap();
    let m = g
        .add_layer("m", mix_with_factor(base, ScalarInput::Param("contrast".into())))
        .unwrap();
    let r = g.add_layer("r", ramp_with_stop(ColorInput::Param("tint".into()))).unwrap();
    g.set_output(Output {
        color: g.output.color,
        roughness: ScalarInput::Param("contrast".into()),
        metallic: ScalarInput::Const(sc(0.0)),
        normal: None,
    })
    .unwrap();

    g.remove_param("contrast").unwrap();
    let LayerKind::Mix(mix) = &g.get(m).unwrap().kind else { panic!() };
    assert!(matches!(mix.factor, ScalarInput::Const(v) if val(v) == 0.75));
    assert!(matches!(g.output.roughness, ScalarInput::Const(v) if val(v) == 0.75));
    let LayerKind::ColorRamp(ramp) = &g.get(r).unwrap().kind else { panic!() };
    assert!(matches!(ramp.stops[1].color, ColorInput::Param(ref n) if n == "tint"));

    g.remove_param("tint").unwrap();
    let LayerKind::ColorRamp(ramp) = &g.get(r).unwrap().kind else { panic!() };
    let ColorInput::Const(c) = ramp.stops[1].color else { panic!("expected a const") };
    assert!((val(c.l) - 0.4).abs() < 1e-6);

    assert!(matches!(g.remove_param("tint"), Err(GraphError::UnknownParam(_))));
}

/// A reader left on the old name would make the graph fail validation.
#[test]
fn renaming_a_parameter_rewrites_its_readers() {
    let mut g = Graph::new();
    let base = g.output.color.unwrap();
    g.declare_param(scalar_param("contrast", 0.0, 2.0, 1.0)).unwrap();
    let m = g
        .add_layer("m", mix_with_factor(base, ScalarInput::Param("contrast".into())))
        .unwrap();
    g.set_output(Output {
        color: g.output.color,
        roughness: ScalarInput::Param("contrast".into()),
        metallic: ScalarInput::Const(sc(0.0)),
        normal: None,
    })
    .unwrap();

    g.rename_param("contrast", "punch").unwrap();
    assert!(g.params.contains_key("punch"));
    assert!(!g.params.contains_key("contrast"));
    assert_eq!(g.params.get("punch").unwrap().name, "punch");
    let LayerKind::Mix(mix) = &g.get(m).unwrap().kind else { panic!() };
    assert!(matches!(mix.factor, ScalarInput::Param(ref n) if n == "punch"));
    assert!(matches!(g.output.roughness, ScalarInput::Param(ref n) if n == "punch"));

    let kind = g.get(m).unwrap().kind.clone();
    assert!(g.set_kind(m, kind).is_ok());
}

#[test]
fn a_kind_change_is_refused_while_something_reads_it() {
    let mut g = Graph::new();
    let base = g.output.color.unwrap();
    g.declare_param(scalar_param("contrast", 0.0, 2.0, 1.0)).unwrap();
    g.add_layer("m", mix_with_factor(base, ScalarInput::Param("contrast".into()))).unwrap();
    let to_color = ParamDecl::color("contrast", color(0.5, 0.0, 0.0, 1.0));
    assert!(matches!(
        g.set_param_decl("contrast", to_color.clone()),
        Err(GraphError::ParamTypeMismatch { .. })
    ));
    assert!(g.set_param_decl("contrast", scalar_param("contrast", -1.0, 3.0, 2.0)).is_ok());
    assert_eq!(g.params.get("contrast").unwrap().default, ParamValue::Scalar(sc(2.0)));
}

/// A binding of the wrong kind falls back to the default.
#[test]
fn resolution_prefers_the_binding_and_falls_back_to_the_default() {
    let mut g = Graph::new();
    g.declare_param(scalar_param("contrast", 0.0, 2.0, 0.75)).unwrap();

    let bare = g.resolve_params(&EvalCtx::default());
    assert_eq!(bare.params.get("contrast"), Some(&ParamValue::Scalar(sc(0.75))));

    let bound = EvalCtx::default().with_param("contrast", ParamValue::Scalar(sc(1.5)));
    assert_eq!(
        g.resolve_params(&bound).params.get("contrast"),
        Some(&ParamValue::Scalar(sc(1.5)))
    );

    let wrong = EvalCtx::default()
        .with_param("contrast", ParamValue::Color(color(0.5, 0.0, 0.0, 1.0)));
    assert_eq!(
        g.resolve_params(&wrong).params.get("contrast"),
        Some(&ParamValue::Scalar(sc(0.75)))
    );
}

#[test]
fn output_position_round_trip_and_unknown_canvas() {
    let mut g = Graph::new();
    assert!(matches!(
        g.set_output_position("main", [sc(1.0), sc(2.0)]),
        Err(GraphError::UnknownCanvas(_))
    ));
    g.add_canvas("main").unwrap();
    g.set_output_position("main", [sc(1.0), sc(2.0)]).unwrap();
    assert_eq!(g.canvases.get("main").unwrap().output_pos, Some([sc(1.0), sc(2.0)]));
}

#[test]
fn cycle_rejected() {
    let mut g = Graph::new();
    let a = g.add_layer("a", LayerKind::Color(color(0.1, 0.0, 0.0, 1.0))).unwrap();
    let b = g
        .add_layer(
            "b",
            LayerKind::Mix(Mix {
                a: Some(a),
                b: Some(a),
                mode: BlendMode::Add,
                factor: ScalarInput::Const(sc(0.5)),
                space: BlendSpace::Oklch,
            }),
        )
        .unwrap();
    let err = g.set_kind(
        a,
        LayerKind::Mix(Mix {
            a: Some(b),
            b: Some(b),
            mode: BlendMode::Add,
            factor: ScalarInput::Const(sc(0.5)),
            space: BlendSpace::Oklch,
        }),
    );
    assert!(matches!(err, Err(GraphError::Cycle(_))));
}

/// Reordering the display list changes nothing else.
#[test]
fn diff_stable_across_display_reorder() {
    let mut g = Graph::new();
    let a = g.add_layer("a", LayerKind::Color(color(0.1, 0.0, 0.0, 1.0))).unwrap();
    let b = g.add_layer("b", LayerKind::Color(color(0.9, 0.0, 0.0, 1.0))).unwrap();
    let before = format!("{:?}", g.layers);
    let list = g.list_order.clone();
    g.set_list_position(a, 1).unwrap();
    g.set_list_position(b, 0).unwrap();
    assert_eq!(before, format!("{:?}", g.layers));
    assert_ne!(list, g.list_order);
}

#[test]
fn a_new_graph_has_one_gray_layer_and_shows_it() {
    let g = Graph::new();
    assert_eq!(g.layers.len(), 1);
    let first: &Layer = &g.layers[0];
    assert_eq!(g.output.color, Some(first.id));
    assert!(matches!(first.kind, LayerKind::Color(_)));
    assert_eq!(g.list_order, vec![first.id]);
    assert!(g.next_id > first.id.0);
}

#[test]
fn every_refusal_of_a_layer_is_named() {
    let mut g = Graph::new();
    let base = g.output.color.unwrap();
    let name = g.layers[0].name.clone();
    assert!(matches!(
        g.add_layer(&name, LayerKind::Color(color(0.1, 0.0, 0.0, 1.0))),
        Err(GraphError::DuplicateName(n)) if n == name
    ));
    assert!(matches!(
        g.add_layer("m", mix_with_factor(LayerId(77), ScalarInput::Const(sc(0.5)))),
        Err(GraphError::UnknownId(LayerId(77)))
    ));
    let short = LayerKind::ColorRamp(ColorRamp {
        stops: vec![ColorStop { t: sc(0.0), color: ColorInput::Layer(base) }],
        space: BlendSpace::Oklch,
    });
    assert!(matches!(g.add_layer("r", short), Err(GraphError::RampTooFewStops)));
    assert!(matches!(g.remove(LayerId(77)), Err(GraphError::UnknownId(LayerId(77)))));
    assert!(matches!(g.rename(LayerId(77), "x"), Err(GraphError::UnknownId(LayerId(77)))));
    let other = g.add_layer("other", LayerKind::Color(color(0.1, 0.0, 0.0, 1.0))).unwrap();
    assert!(matches!(g.rename(other, &name), Err(GraphError::DuplicateName(_))));
    assert!(g.rename(other, "other").is_ok(), "a layer may keep its name");
    assert!(matches!(g.set_list_position(LayerId(77), 0), Err(GraphError::UnknownId(_))));
}

#[test]
fn canvases_are_added_and_removed_by_name() {
    let mut g = Graph::new();
    let id = g.layers[0].id;
    g.add_canvas("main").unwrap();
    assert!(matches!(g.add_canvas("main"), Err(GraphError::DuplicateCanvas(n)) if n == "main"));
    g.set_position("main", id, [sc(3.0), sc(4.0)]).unwrap();
    let canvas: &Canvas = g.canvases.get("main").unwrap();
    assert_eq!(canvas.positions.get(&id.0), Some(&[sc(3.0), sc(4.0)]));
    assert!(matches!(
        g.set_position("main", LayerId(9), [sc(0.0), sc(0.0)]),
        Err(GraphError::UnknownId(LayerId(9)))
    ));
    assert!(matches!(
        g.set_position("side", id, [sc(0.0), sc(0.0)]),
        Err(GraphError::UnknownCanvas(n)) if n == "side"
    ));
    g.remove_canvas("main").unwrap();
    assert!(matches!(g.remove_canvas("main"), Err(GraphError::UnknownCanvas(_))));
    g.add_canvas("kept").unwrap();
    g.set_position("kept", id, [sc(1.0), sc(2.0)]).unwrap();
    assert!(matches!(g.remove_canvas("main"), Err(GraphError::UnknownCanvas(n)) if n == "main"));
    let kept: &Canvas = g.canvases.get("kept").unwrap();
    assert_eq!(kept.positions.get(&id.0), Some(&[sc(1.0), sc(2.0)]));
    assert_eq!(g.canvases.len(), 1);
}

#[test]
fn a_removed_layer_leaves_every_canvas() {
    let mut g = Graph::new();
    let id = g.layers[0].id;
    g.add_canvas("main").unwrap();
    g.set_position("main", id, [sc(3.0), sc(4.0)]).unwrap();
    g.remove(id).unwrap();
    assert!(g.canvases.get("main").unwrap().positions.is_empty());
    assert!(g.list_order.is_empty());
}

/// A crater field's sockets are disconnected and rewritten like any other's.
#[test]
fn craters_follow_removals_and_parameters() {
    let mut g = Graph::new();
    let base = g.output.color.unwrap();
    g.declare_param(scalar_param("density", 0.0, 1.0, 0.25)).unwrap();
    let c = g
        .add_layer(
            "c",
            LayerKind::Craters(Craters {
                under: ScalarInput::Layer(base),
                density: ScalarInput::Param("density".into()),
                ..Craters::default()
            }),
        )
        .unwrap();
    assert_eq!(g.get(c).unwrap().kind.inputs(), vec![base]);
    assert_eq!(g.get(c).unwrap().kind.param_refs(), vec![("density", ParamUse::Scalar)]);
    g.rename_param("density", "share").unwrap();
    g.remove(base).unwrap();
    let LayerKind::Craters(k) = &g.get(c).unwrap().kind else { panic!() };
    assert!(matches!(k.under, ScalarInput::Const(v) if val(v) == 0.5));
    assert!(matches!(k.density, ScalarInput::Param(ref n) if n == "share"));
    g.remove_param("share").unwrap();
    let LayerKind::Craters(k) = &g.get(c).unwrap().kind else { panic!() };
    assert!(matches!(k.density, ScalarInput::Const(v) if val(v) == 0.25));
}

#[test]
fn a_read_parameter_keeps_its_kind_even_without_a_color_output() {
    let mut g = Graph::new();
    g.declare_param(scalar_param("rough", 0.0, 1.0, 0.5)).unwrap();
    g.set_output(Output {
        color: None,
        roughness: ScalarInput::Param("rough".into()),
        metallic: ScalarInput::Const(sc(0.0)),
        normal: None,
    })
    .unwrap();
    assert!(g.reads_param("rough"));
    let to_color = ParamDecl::color("rough", color(0.5, 0.0, 0.0, 1.0));
    assert!(matches!(
        g.set_param_decl("rough", to_color),
        Err(GraphError::ParamTypeMismatch { .. })
    ));
    assert!(matches!(
        g.set_param_decl("smooth", scalar_param("smooth", 0.0, 1.0, 0.5)),
        Err(GraphError::UnknownParam(_))
    ));
}

#[test]
fn resolving_twice_changes_nothing() {
    let mut g = Graph::new();
    g.declare_param(scalar_param("contrast", 0.0, 2.0, 0.75)).unwrap();
    g.declare_param(ParamDecl::color("tint", color(0.4, 0.2, 90.0, 1.0))).unwrap();
    let once = g.resolve_params(&EvalCtx::default().with_param("tint", ParamValue::Scalar(sc(1.0))));
    let twice = g.resolve_params(&once);
    assert_eq!(format!("{once:?}"), format!("{twice:?}"));
    assert_eq!(once.params.get("tint"), Some(&ParamValue::Color(color(0.4, 0.2, 90.0, 1.0))));
    assert_eq!(g.param_value("contrast", &once), Some(ParamValue::Scalar(sc(0.75))));
    assert_eq!(g.param_value("nothing", &once), None);
}

#[test]
fn only_what_varies_along_w_makes_the_output_solid() {
    let mut g = Graph::new();
    assert!(!g.output_is_3d());
    let n = g.add_layer("n", value_noise([0; 3])).unwrap();
    assert!(!g.output_is_3d(), "nothing reads the noise yet");
    g.set_output(Output {
        color: Some(n),
        roughness: ScalarInput::Const(sc(0.5)),
        metallic: ScalarInput::Const(sc(0.0)),
        normal: None,
    })
    .unwrap();
    assert!(g.output_is_3d());
    assert!(g.is_reachable(n));
    assert!(!g.is_reachable(g.layers[0].id));
}

#[test]
fn a_field_of_craters_is_solid_and_a_flat_noise_is_not() {
    let mut g = Graph::new();
    let mut flat = value_noise([0; 3]);
    let LayerKind::Noise(n) = &mut flat else { panic!() };
    n.dims = NoiseDims::D2;
    let n = g.add_layer("n", flat).unwrap();
    let mut output = Output {
        color: Some(n),
        roughness: ScalarInput::Layer(n),
        metallic: ScalarInput::Const(sc(0.0)),
        normal: None,
    };
    g.set_output(output.clone()).unwrap();
    assert!(!g.output_is_3d(), "a noise in (u, v) is the same in every slice");

    let c = g.add_layer("c", LayerKind::Craters(Craters::default())).unwrap();
    assert!(!g.output_is_3d(), "nothing reads the craters yet");
    output.color = Some(c);
    g.set_output(output).unwrap();
    assert!(g.output_is_3d(), "craters lie in space");
}

#[test]
fn an_id_stays_spent_over_many_edits() {
    let mut g = Graph::new();
    let base = g.output.color.unwrap();
    let gone = g.add_layer("gone", value_noise([0; 3])).unwrap();
    g.remove(gone).unwrap();
    g.add_canvas("main").unwrap();
    g.rename(base, "renamed").unwrap();
    let next = g.add_layer("gone", value_noise([0; 3])).unwrap();
    assert!(next > gone);
    g.remove(next).unwrap();
    g.remove_canvas("main").unwrap();
    let last = g.add_layer("last", value_noise([0; 3])).unwrap();
    assert!(last > next);
    assert!(g.get(gone).is_none() && g.get(next).is_none());
}

#[test]
fn inputs_are_listed_by_socket() {
    let kinds = [
        (LayerKind::Coordinate(Coordinate::default()), vec![]),
        (
            LayerKind::Wave(Wave { input: ScalarInput::Layer(LayerId(4)), ..Wave::default() }),
            vec![LayerId(4)],
        ),
        (
            LayerKind::Transform(Transform {
                source: Some(LayerId(5)),
                offset: [sc(0.0); 3],
                rotate_uv: sc(0.0),
                scale: [sc(1.0); 3],
                coord_mode: CoordMode::Passthrough,
                edge_mode: EdgeMode::Clamp,
            }),
            vec![LayerId(5)],
        ),
        (mix_with_factor(LayerId(6), ScalarInput::Layer(LayerId(7))), vec![
            LayerId(6),
            LayerId(6),
            LayerId(7),
        ]),
    ];
    for (kind, want) in kinds {
        assert_eq!(kind.inputs(), want, "{}", kind.category_label());
    }
}

#[test]
fn names_are_kept_in_order() {
    let mut g = Graph::new();
    for name in ["pear", "apple", "zebra", "fig"] {
        g.declare_param(scalar_param(name, 0.0, 1.0, 0.5)).unwrap();
    }
    let names: Vec<&str> = (0..g.params.len()).map(|i| g.params.name_at(i)).collect();
    assert_eq!(names, vec!["apple", "fig", "pear", "zebra"]);
}

#[test]
fn the_readers_of_a_parameter_are_listed_in_layer_order() {
    let mut g = Graph::new();
    g.declare_param(scalar_param("share", 0.0, 1.0, 0.5)).unwrap();
    let base = g.output.color.unwrap();
    assert!(g.param_readers("share").is_empty());
    assert!(!g.reads_param("share"));
    let wave = |g: &mut Graph, name: &str| {
        let w = Wave { input: ScalarInput::Param("share".into()), ..Wave::default() };
        g.add_layer(name, LayerKind::Wave(w)).unwrap()
    };
    let a = wave(&mut g, "a");
    let b = wave(&mut g, "b");
    g.set_list_position(b, 0).unwrap();
    assert_eq!(g.param_readers("share"), vec![a, b]);
    g.set_output(Output {
        color: Some(base),
        roughness: ScalarInput::Param("share".into()),
        metallic: ScalarInput::Const(sc(0.0)),
        normal: None,
    })
    .unwrap();
    assert_eq!(g.param_readers("share"), vec![a, b, base]);
    assert!(g.reads_param("share"));
}

/// The id of a removed layer stays out of use.
#[test]
fn ids_are_not_given_twice() {
    let mut g = Graph::new();
    let gray = || LayerKind::Color(Color::mid_gray());
    let a = g.add_layer("a", gray()).unwrap();
    g.remove(a).unwrap();
    let b = g.add_layer("b", gray()).unwrap();
    assert_ne!(a, b);
    assert!(!g.contains(a));
    assert_eq!(b.0, a.0 + 1);
}

#[test]
fn a_color_is_read_as_its_lightness() {
    let c = texture_graph::oklcha(sc(0.25), sc(0.5), sc(10.0), sc(1.0));
    assert_eq!(texture_graph::color::scalar_of(c), sc(0.25));
}
