//! The passes of a bake.
use std::collections::HashMap;

use texture_graph::bake::{bake_color_face, color_cube_root, fit_to_faces};
use texture_graph::{
    bake_output, bake_previews, bake_scalar_slice, can_be_recorded, dispatch_kind, oklcha, schedule,
    schedule_layer, schedule_previews, workgroup_counts, Axis, BakeError, BlendMode, BlendSpace, Color, ColorInput,
    ColorRamp, ColorStop, CoordMode, Coordinate, CraterOutput, CraterSurface, Craters, Criterion, Domain, EdgeMode, EvalCtx,
    GradientMap, Graph, HeightToNormal, LayerId, LayerKind, MinMax, MinMaxMode, Mix, Noise, Output,
    OutputChannel, ParamDecl, ParamValue, Pass, Pipeline, Placement, PointMap, Pool, PoolChange,
    RadialDim, Scalar, ScalarInput, Setting, Slice, Source, SpherePlan, Target, Transform,
    VolumeJob, Warp, Wave, Word,
};

fn sc(v: f32) -> Scalar {
    Scalar::from_bits(v.to_bits())
}

fn val(s: Scalar) -> f32 {
    f32::from_bits(s.bits)
}

fn bits(v: f32) -> Word {
    Word::Bits(v.to_bits())
}

fn word(v: u32) -> Word {
    Word::Bits(v)
}

fn color(l: f32, chroma: f32, hue: f32, alpha: f32) -> Color {
    oklcha(sc(l), sc(chroma), sc(hue), sc(alpha))
}

fn flat() -> Slice {
    Slice::Plane { w: bits(0.5) }
}

fn show(g: &mut Graph, color: Option<LayerId>, normal: Option<LayerId>) {
    g.set_output(Output {
        color,
        roughness: ScalarInput::Const(sc(0.5)),
        metallic: ScalarInput::Const(sc(0.0)),
        normal,
    })
    .unwrap();
}

fn blend(g: &mut Graph, name: &str, a: LayerId, b: LayerId, factor: f32) -> LayerId {
    g.add_layer(
        name,
        LayerKind::Mix(Mix {
            a: Some(a),
            b: Some(b),
            mode: BlendMode::Blend,
            factor: ScalarInput::Const(sc(factor)),
            space: BlendSpace::Oklch,
        }),
    )
    .unwrap()
}

fn unit_rect() -> Vec<Word> {
    vec![
        bits(0.0),
        bits(0.0),
        Word::Span { from: sc(0.0), to: sc(1.0) },
        Word::Span { from: sc(0.0), to: sc(1.0) },
    ]
}

/// The pass of one layer of a graph that shows it.
fn pass_of(g: &Graph, id: LayerId, ctx: &EvalCtx, at: Slice) -> Pass {
    let ctx = g.resolve_params(ctx);
    let sched = schedule_layer(g, id).unwrap();
    dispatch_kind(g.get(id).unwrap(), &ctx, &sched, (16, 8), at).unwrap()
}

#[test]
fn ramp_rejects_more_than_eight_unique_layer_stops() {
    let mut graph = Graph::new();
    // Auto-created base color layer + 8 more colors = 9 distinct layers.
    let mut layer_ids = vec![graph.output.color];
    for i in 0..8u32 {
        layer_ids.push(Some(
            graph
                .add_layer(&format!("c{i}"), LayerKind::Color(color(0.1 * i as f32, 0.0, 0.0, 1.0)))
                .unwrap(),
        ));
    }
    let stops: Vec<_> = layer_ids
        .iter()
        .enumerate()
        .map(|(i, &id)| ColorStop { t: sc(i as f32 / 8.0), color: ColorInput::Layer(id.unwrap()) })
        .collect();
    let ramp = graph
        .add_layer("ramp", LayerKind::ColorRamp(ColorRamp { stops, space: BlendSpace::Oklch }))
        .unwrap();
    show(&mut graph, Some(ramp), None);
    let ctx = EvalCtx::default();
    let sched = schedule(&graph, &ctx).unwrap();
    match bake_output(&graph, &ctx, &sched, (8, 8), false) {
        Ok(_) => panic!("expected 9-layer ramp to be rejected"),
        Err(BakeError::Unsupported(msg)) => assert!(msg.contains(">8")),
        Err(other) => panic!("unexpected error: {other:?}"),
    }
}

#[test]
fn bake_previews_returns_one_texture_per_authored_layer() {
    // Includes unreachable layers: every authored layer is scheduled, not just
    // those wired to the output.
    let mut graph = Graph::new();
    let base = graph.output.color;
    graph.set_kind(base.unwrap(), LayerKind::Color(color(0.5, 0.0, 0.0, 1.0))).unwrap();
    let b = graph.add_layer("b", LayerKind::Color(color(0.3, 0.1, 60.0, 1.0))).unwrap();
    let _unreachable =
        graph.add_layer("dead", LayerKind::Color(color(0.9, 0.05, 200.0, 1.0))).unwrap();
    let ctx = EvalCtx::default();
    let sched = schedule_previews(&graph, None, &ctx).unwrap();
    let passes = bake_previews(&graph, &ctx, &sched, None).expect("bake previews");
    let previews: Vec<&Pass> =
        passes.iter().filter(|p| matches!(p.target, Target::Preview(_))).collect();
    assert_eq!(previews.len(), 3, "expected one preview per authored layer");
    for p in &previews {
        assert_eq!(p.pipeline, Pipeline::Pack);
        assert_eq!(p.uniform[..2], [word(128), word(128)]);
    }

    let wanted = vec![b];
    let sched = schedule_previews(&graph, Some(&wanted), &ctx).unwrap();
    let passes = bake_previews(&graph, &ctx, &sched, Some(&wanted)).unwrap();
    assert_eq!(passes.len(), 3, "the grid, the layer and its thumbnail");
    assert_eq!(passes[2].target, Target::Preview(b));
}

#[test]
fn ramp_rejects_more_than_sixteen_stops() {
    let mut g = Graph::new();
    let stop = |i: usize| ColorStop {
        t: sc(i as f32 / 16.0),
        color: ColorInput::Const(color(0.5, 0.0, 0.0, 1.0)),
    };
    let make = |n: usize| {
        LayerKind::ColorRamp(ColorRamp { stops: (0..n).map(stop).collect(), space: BlendSpace::Hsv })
    };
    let r = g.add_layer("r", make(17)).unwrap();
    let ctx = EvalCtx::default();
    let sched = schedule_layer(&g, r).unwrap();
    let refused = dispatch_kind(g.get(r).unwrap(), &ctx, &sched, (8, 8), flat()).err();
    assert!(matches!(refused, Some(BakeError::Unsupported("ColorRamp (>16 stops)"))));
    g.set_kind(r, make(16)).unwrap();
    let pass = pass_of(&g, r, &ctx, flat());
    assert_eq!(pass.uniform[2..4], [word(16), word(2)]);
    assert_eq!(pass.stops.len(), 16 * 8);
}

/// Stops that read one layer share its input, and unused inputs are dummies.
#[test]
fn ramp_stops_share_inputs() {
    let mut g = Graph::new();
    let a = g.output.color.unwrap();
    let b = g.add_layer("b", LayerKind::Color(color(0.3, 0.0, 0.0, 1.0))).unwrap();
    g.declare_param(ParamDecl::color("tint", color(0.4, 0.2, 90.0, 1.0))).unwrap();
    let stops = vec![
        ColorStop { t: sc(0.0), color: ColorInput::Layer(b) },
        ColorStop { t: sc(0.25), color: ColorInput::Layer(a) },
        ColorStop { t: sc(0.5), color: ColorInput::Param("tint".into()) },
        ColorStop { t: sc(1.0), color: ColorInput::Layer(b) },
    ];
    let r = g
        .add_layer("r", LayerKind::ColorRamp(ColorRamp { stops, space: BlendSpace::LinearSrgb }))
        .unwrap();
    let sched = schedule_layer(&g, r).unwrap();
    let pass = pass_of(&g, r, &EvalCtx::default(), flat());
    assert_eq!(pass.pipeline, Pipeline::ColorRamp);
    let mut want = vec![Source::Slot(sched.slot_of[&b.0]), Source::Slot(sched.slot_of[&a.0])];
    want.resize(8, Source::Dummy);
    assert_eq!(pass.sources, want);
    let stop = |i: usize| pass.stops[8 * i..8 * i + 8].to_vec();
    let zeros = vec![word(0); 4];
    assert_eq!(stop(0), [zeros.clone(), vec![bits(0.0), word(1), word(0), word(0)]].concat());
    assert_eq!(stop(1), [zeros.clone(), vec![bits(0.25), word(1), word(1), word(0)]].concat());
    assert_eq!(
        stop(2),
        vec![bits(0.4), bits(0.2), Word::Degrees(sc(90.0)), bits(1.0), bits(0.5), word(0), word(0), word(0)]
    );
    assert_eq!(stop(3), [zeros, vec![bits(1.0), word(1), word(0), word(0)]].concat());
    assert_eq!(pass.uniform.len(), 40);
    assert_eq!(pass.uniform[2..4], [word(4), word(1)]);
}

#[test]
fn a_noise_pass_is_told_the_whole_field() {
    let mut g = Graph::new();
    let mut n = Noise { seed_offset: 5, period: [0, 0, 0], ..Noise::default() };
    n.fractal.octaves = 99;
    let id = g.add_layer("n", LayerKind::Noise(n)).unwrap();
    let ctx = EvalCtx { seed: u32::MAX, ..EvalCtx::default() };
    let pass = pass_of(&g, id, &ctx, flat());
    assert_eq!(pass.pipeline, Pipeline::Noise);
    assert!(pass.sources.is_empty());
    assert_eq!(pass.uniform.len(), 36);
    let want = [word(16), word(8), word(1), word(0), word(0), word(4), bits(4.0), bits(0.5)];
    assert_eq!(pass.uniform[..8], want);
    assert_eq!(pass.uniform[8..12], unit_rect()[..]);
    assert_eq!(pass.uniform[12..16], [word(0), word(0), word(0), word(8)]);
    assert_eq!(pass.uniform[20..24], [word(0), word(0), word(0), word(0)]);
    let map: Vec<Word> = PointMap::identity().rows.iter().map(|s| word(s.bits)).collect();
    assert_eq!(pass.uniform[24..], map[..]);

    let map = PointMap { rows: [sc(2.0); 12] };
    let pass = pass_of(&g, id, &ctx, Slice::CubeFace { face: 3, map });
    assert_eq!(pass.uniform[7], bits(0.5));
    assert_eq!(pass.uniform[21], word(4));
    assert_eq!(pass.uniform[24..], [bits(2.0); 12]);
}

#[test]
fn a_transform_becomes_a_copy_on_a_face() {
    let mut g = Graph::new();
    let src = g.output.color.unwrap();
    let t = Transform {
        source: Some(src),
        offset: [sc(0.1), sc(0.2), sc(0.3)],
        rotate_uv: sc(0.7),
        scale: [sc(2.0), sc(3.0), sc(4.0)],
        coord_mode: CoordMode::Radial { dim: RadialDim::D3, into: Axis::V },
        edge_mode: EdgeMode::Extend,
    };
    let id = g.add_layer("t", LayerKind::Transform(t)).unwrap();
    let ctx = EvalCtx::default();
    let pass = pass_of(&g, id, &ctx, flat());
    let want = [
        vec![word(16), word(8), word(2), bits(0.7)],
        vec![bits(0.1), bits(0.2), bits(0.3), word(0)],
        vec![bits(2.0), bits(3.0), bits(4.0), word(0)],
        vec![word(0), word(0), word(0), word(0), word(1), word(1)],
        vec![bits(0.5), word(1)],
        unit_rect(),
        unit_rect(),
    ]
    .concat();
    assert_eq!(pass.uniform, want);
    let pass = pass_of(&g, id, &ctx, Slice::CubeFace { face: 0, map: PointMap::identity() });
    let want = [
        vec![word(16), word(8), word(0), bits(0.0)],
        vec![word(0); 4],
        vec![bits(1.0), bits(1.0), bits(1.0), word(0)],
        vec![word(0); 6],
        vec![bits(0.5), word(0)],
        unit_rect(),
        unit_rect(),
    ]
    .concat();
    assert_eq!(pass.uniform, want);
}

#[test]
fn a_permutation_is_sent_axis_by_axis() {
    let mut g = Graph::new();
    let src = g.output.color.unwrap();
    let id = g
        .add_layer(
            "t",
            LayerKind::Transform(Transform {
                source: Some(src),
                offset: [sc(0.0); 3],
                rotate_uv: sc(0.0),
                scale: [sc(1.0); 3],
                coord_mode: CoordMode::Permute([Axis::W, Axis::U, Axis::V]),
                edge_mode: EdgeMode::Clamp,
            }),
        )
        .unwrap();
    let pass = pass_of(&g, id, &EvalCtx::default(), flat());
    assert_eq!(pass.uniform[2], word(1));
    assert_eq!(pass.uniform[12..18], [word(2), word(0), word(1), word(0), word(0), word(0)]);
}

/// A constant factor binds `a` in the place of a layer.
#[test]
fn a_mix_is_told_its_factor() {
    let mut g = Graph::new();
    let a = g.output.color.unwrap();
    let b = g.add_layer("b", LayerKind::Color(color(0.3, 0.0, 0.0, 1.0))).unwrap();
    g.declare_param(ParamDecl::scalar("f", sc(0.0), sc(1.0), sc(0.75))).unwrap();
    let m = g
        .add_layer(
            "m",
            LayerKind::Mix(Mix {
                a: Some(a),
                b: None,
                mode: BlendMode::Multiply,
                factor: ScalarInput::Param("f".into()),
                space: BlendSpace::Hsv,
            }),
        )
        .unwrap();
    let ctx = EvalCtx::default();
    let slot = |id: LayerId, root: LayerId| {
        Source::Slot(schedule_layer(&g, root).unwrap().slot_of[&id.0])
    };
    let pass = pass_of(&g, m, &ctx, flat());
    assert_eq!(pass.sources, vec![slot(a, m), Source::Missing, slot(a, m)]);
    assert_eq!(pass.uniform[2..8], [word(2), word(2), bits(0.75), word(0), word(0), word(0)]);
    let bound = EvalCtx::default().with_param("f", ParamValue::Scalar(sc(0.125)));
    assert_eq!(pass_of(&g, m, &bound, flat()).uniform[4], bits(0.125));

    let mut h = g.clone();
    h.set_kind(
        m,
        LayerKind::Mix(Mix {
            a: Some(a),
            b: None,
            mode: BlendMode::Add,
            factor: ScalarInput::Layer(b),
            space: BlendSpace::Oklch,
        }),
    )
    .unwrap();
    let pass = pass_of(&h, m, &ctx, flat());
    let slots = schedule_layer(&h, m).unwrap().slot_of;
    assert_eq!(pass.sources[2], Source::Slot(slots[&b.0]));
    assert_eq!(pass.uniform[4..6], [word(0), word(1)]);
}

#[test]
fn the_other_kinds_name_their_pipeline_and_codes() {
    let mut g = Graph::new();
    let a = g.output.color.unwrap();
    let ctx = EvalCtx::default();
    let id = g.add_layer("x", LayerKind::Color(color(0.3, 0.0, 0.0, 1.0))).unwrap();
    let kinds = [
        (
            LayerKind::Coordinate(Coordinate { axis: Axis::W }),
            Pipeline::Coordinate,
            vec![word(2), word(0)],
            24,
        ),
        (
            LayerKind::GradientMap(GradientMap { value: Some(a), palette: None }),
            Pipeline::GradientMap,
            vec![word(0), word(0)],
            16,
        ),
        (
            LayerKind::MinMax(MinMax {
                a: Some(a),
                b: None,
                mode: MinMaxMode::Max,
                criterion: Criterion::Chroma,
            }),
            Pipeline::MinMax,
            vec![word(1), word(7)],
            16,
        ),
        (
            LayerKind::HeightToNormal(HeightToNormal { source: Some(a), strength: sc(3.0) }),
            Pipeline::HeightToNormal,
            vec![bits(3.0), word(0)],
            12,
        ),
        (
            LayerKind::Warp(Warp { source: Some(a), by: None, ..Warp::default() }),
            Pipeline::Warp,
            vec![word(0), word(0), bits(0.1), bits(0.1), bits(0.0), word(0)],
            20,
        ),
        (
            LayerKind::Wave(Wave::default()),
            Pipeline::Wave,
            vec![word(0), word(0), bits(4.0), bits(0.0), bits(0.5), word(0)],
            16,
        ),
    ];
    for (kind, pipeline, codes, len) in kinds {
        g.set_kind(id, kind).unwrap();
        let pass = pass_of(&g, id, &ctx, flat());
        assert_eq!(pass.pipeline, pipeline);
        assert_eq!(pass.uniform.len(), len, "{pipeline:?}");
        assert_eq!(pass.uniform[2..2 + codes.len()], codes[..], "{pipeline:?}");
        assert!(pass.pipeline.shader().ends_with(".wgsl"));
        assert!(!pass.sources.contains(&match pass.target {
            Target::Slot(s) => Source::Slot(s),
            other => panic!("{other:?}"),
        }));
    }
}

#[test]
fn craters_are_told_their_field_and_what_they_lie_on() {
    let mut g = Graph::new();
    let n = g.add_layer("n", LayerKind::Noise(Noise::default())).unwrap();
    let craters = Craters {
        under: ScalarInput::Layer(n),
        seed_offset: 3,
        classes: 9,
        surface: CraterSurface::Sphere,
        output: CraterOutput::Ejecta,
        ..Craters::default()
    };
    let c = g.add_layer("c", LayerKind::Craters(craters)).unwrap();
    let ctx = EvalCtx { seed: u32::MAX, ..EvalCtx::default() };
    let pass = pass_of(&g, c, &ctx, flat());
    assert_eq!(pass.pipeline, Pipeline::Craters);
    assert_eq!(pass.pipeline.shader(), "craters.wgsl");
    assert_eq!(pass.sources.len(), pass.pipeline.source_count());
    assert!(matches!(pass.sources[..], [Source::Slot(_), Source::Missing]));
    assert_eq!(pass.uniform.len(), 44);
    // The seed wraps, and no more classes are summed than there may be.
    assert_eq!(pass.uniform[2..4], [word(2), word(6)]);
    let field = [4.0, 1.0, 0.4, 0.0, 1.0, 0.5, 0.5, 10.0].map(bits);
    assert_eq!(pass.uniform[4..12], field);
    assert_eq!(pass.uniform[12..16], [word(1), word(1), bits(0.5), word(0)]);
    // A layer lies under it, and its density is a constant.
    assert_eq!(pass.uniform[16..20], [word(0), word(1), bits(0.6), word(0)]);

    let placed = plan(&g, c).unwrap();
    assert!(placed[&c.0].same(Placement::Sphere(PointMap::identity())));
    assert!(placed[&n.0].same(placed[&c.0]), "what lies under is read in place");
    let mut map = PointMap::identity();
    map.rows[3] = sc(0.25);
    let pass = pass_of(&g, c, &ctx, Slice::CubeFace { face: 4, map });
    assert_eq!(pass.uniform[15], word(5));
    assert_eq!(pass.uniform[32..36], [1.0, 0.0, 0.0, 0.25].map(bits));
}

#[test]
fn an_output_is_packed_channel_by_channel() {
    let mut g = Graph::new();
    let a = g.output.color.unwrap();
    let n = g
        .add_layer(
            "n",
            LayerKind::HeightToNormal(HeightToNormal { source: Some(a), strength: sc(1.0) }),
        )
        .unwrap();
    g.set_output(Output {
        color: None,
        roughness: ScalarInput::Layer(a),
        metallic: ScalarInput::Const(sc(0.25)),
        normal: Some(n),
    })
    .unwrap();
    let ctx = EvalCtx::default();
    let sched = schedule(&g, &ctx).unwrap();
    let passes = bake_output(&g, &ctx, &sched, (4, 4), true).unwrap();
    assert_eq!(passes.len(), 1 + 2 + 4);
    assert_eq!(passes[0].target, Target::Missing);
    assert_eq!(passes[0].uniform, vec![word(4), word(4), bits(0.5), word(0)]);
    let color = &passes[3];
    assert_eq!(color.target, Target::Channel(OutputChannel::Color));
    assert_eq!(color.sources, vec![Source::Missing]);
    assert_eq!(color.uniform[2..4], [word(0), word(1)]);
    let rough = &passes[4];
    assert_eq!(rough.sources, vec![Source::Slot(sched.slot_of[&a.0])]);
    assert_eq!(rough.uniform[2..4], [word(2), word(1)]);
    let metal = &passes[5];
    assert_eq!(metal.pipeline, Pipeline::Solid);
    let gray = Word::Srgb(sc(0.25));
    assert_eq!(metal.uniform, vec![gray, gray, gray, bits(1.0), word(4), word(4), word(0), word(0)]);
    let normal = &passes[6];
    assert_eq!(normal.sources, vec![Source::Slot(sched.slot_of[&n.0])]);
    assert_eq!(normal.uniform[2], word(3));

    show(&mut g, Some(a), None);
    let sched = schedule(&g, &ctx).unwrap();
    let passes = bake_output(&g, &ctx, &sched, (4, 4), false).unwrap();
    let normal = passes.last().unwrap();
    assert_eq!(normal.pipeline, Pipeline::Solid);
    assert_eq!(normal.uniform[..4], [bits(0.5), bits(0.5), bits(1.0), bits(1.0)]);
    assert_eq!(passes[2].uniform[3], word(0), "alpha is laid over the checker");
}

#[test]
fn a_volume_is_recorded_slice_by_slice() {
    let mut g = Graph::new();
    let a = g.output.color.unwrap();
    let n = g
        .add_layer(
            "n",
            LayerKind::HeightToNormal(HeightToNormal { source: Some(a), strength: sc(1.5) }),
        )
        .unwrap();
    show(&mut g, Some(a), Some(n));
    let ctx = EvalCtx::default();
    let sched = schedule(&g, &ctx).unwrap();
    let mut job = VolumeJob::new(g.clone(), ctx, sched, 8, 3);
    assert_eq!(job.res(), 8);
    assert_eq!(job.dispatches_per_slice(), 7);
    assert_eq!(job.stop_after(2), 2);
    assert_eq!(job.stop_after(u32::MAX), 3);
    assert_eq!(texture_graph::volume::find_bump(&g), Some((a, sc(1.5))));
    for z in 0..3u32 {
        assert!(!job.is_done());
        let passes = job.record_slice().unwrap();
        let w = Word::SliceCenter { z, depth: 3 };
        assert_eq!(passes[0].uniform[2], w);
        // The height is packed right after its layer.
        assert_eq!(passes[2].target, Target::Height);
        assert_eq!(passes[2].pipeline, Pipeline::PackScalar);
        assert_eq!(passes[1].target, match passes[2].sources[0] {
            Source::Slot(s) => Target::Slot(s),
            other => panic!("{other:?}"),
        });
        let dispatches = passes.iter().filter(|p| p.pipeline != Pipeline::PackScalar).count();
        assert_eq!(dispatches as u32, job.dispatches_per_slice());
        assert_eq!(passes.last().unwrap().uniform[8], word(z));
    }
    assert!(job.is_done());
    assert_eq!(job.stop_after(4), 3);
}

#[test]
fn a_refused_volume_stays_where_it_was() {
    let mut g = Graph::new();
    let stop = |i: usize| ColorStop {
        t: sc(i as f32),
        color: ColorInput::Const(color(0.5, 0.0, 0.0, 1.0)),
    };
    let stops = (0..17).map(stop).collect();
    let r = g
        .add_layer("r", LayerKind::ColorRamp(ColorRamp { stops, space: BlendSpace::Oklch }))
        .unwrap();
    show(&mut g, Some(r), None);
    let ctx = EvalCtx::default();
    let sched = schedule(&g, &ctx).unwrap();
    let mut job = VolumeJob::new(g, ctx, sched, 4, 2);
    assert!(job.record_slice().is_err());
    assert_eq!(job.next_z, 0);
    assert!(job.record_step(5).is_err());
    assert_eq!(job.next_z, 0);
    assert!(job.record_step(0).unwrap().is_empty(), "nothing was asked for");
}

#[test]
fn splitting_a_volume_into_steps_changes_nothing() {
    let mut g = Graph::new();
    let n = g.add_layer("n", LayerKind::Noise(Noise::default())).unwrap();
    show(&mut g, Some(n), None);
    let ctx = EvalCtx::default();
    let sched = schedule(&g, &ctx).unwrap();
    let mut whole = VolumeJob::new(g, ctx, sched, 4, 5);
    let mut split = whole.clone();
    let at_once = whole.record_step(u32::MAX).unwrap();
    assert_eq!(at_once.len(), 5);
    assert!(whole.is_done());
    let mut in_steps = Vec::new();
    for (asked, reached) in [(2, 2), (0, 2), (1, 3), (u32::MAX, 5), (7, 5)] {
        in_steps.extend(split.record_step(asked).unwrap());
        assert_eq!(split.next_z, reached);
        assert_eq!(split.is_done(), reached == 5);
    }
    assert_eq!(in_steps.len(), 5);
    for (z, (a, b)) in at_once.iter().zip(&in_steps).enumerate() {
        assert_eq!(a.len(), b.len());
        for (p, q) in a.iter().zip(b) {
            assert_eq!((p.pipeline, p.target), (q.pipeline, q.target));
            assert_eq!((&p.sources, &p.uniform, &p.stops), (&q.sources, &q.uniform, &q.stops));
        }
        let noise = a.iter().find(|p| p.pipeline == Pipeline::Noise).unwrap();
        assert_eq!(noise.uniform[7], Word::SliceCenter { z: z as u32, depth: 5 });
    }
}

/// A parameter that no binding overrides can be removed without a trace in what
/// a bake is told.
#[test]
fn a_removed_parameter_leaves_the_passes_as_they_were() {
    let mut g = Graph::new();
    let base = g.output.color.unwrap();
    let level = ParamDecl::scalar("level", sc(0.0), sc(1.0), sc(0.25));
    g.declare_param(level).unwrap();
    let m = blend(&mut g, "m", base, base, 0.5);
    let mut kind = g.get(m).unwrap().kind.clone();
    let LayerKind::Mix(mix) = &mut kind else { panic!() };
    mix.factor = ScalarInput::Param("level".to_string());
    g.set_kind(m, kind).unwrap();
    g.set_output(Output {
        color: Some(m),
        roughness: ScalarInput::Param("level".to_string()),
        metallic: ScalarInput::Const(sc(0.0)),
        normal: None,
    })
    .unwrap();
    let bake = |g: &Graph| {
        let ctx = g.resolve_params(&EvalCtx::default());
        let sched = schedule(g, &ctx).unwrap();
        bake_output(g, &ctx, &sched, (8, 8), false).unwrap()
    };
    let before = bake(&g);
    g.remove_param("level").unwrap();
    let after = bake(&g);
    assert_eq!(before.len(), after.len());
    for (p, q) in before.iter().zip(&after) {
        assert_eq!((p.pipeline, p.target), (q.pipeline, q.target));
        assert_eq!((&p.sources, &p.uniform, &p.stops), (&q.sources, &q.uniform, &q.stops));
    }
    let mixed = before.iter().find(|p| p.pipeline == Pipeline::Mix).unwrap();
    assert_eq!(mixed.uniform[4..6], [bits(0.25), word(0)]);
}

/// `outer` after `inner`.
fn compose(outer: [[f32; 4]; 3], inner: PointMap) -> PointMap {
    let cell = |j: usize, k: usize| val(inner.rows[4 * j + k]);
    let mut rows = [sc(0.0); 12];
    for r in 0..3 {
        for k in 0..4 {
            let mut sum: f32 = (0..3).map(|j| outer[r][j] * cell(j, k)).sum();
            if k == 3 {
                sum += outer[r][3];
            }
            rows[4 * r + k] = sc(sum);
        }
    }
    PointMap { rows }
}

fn transform_map(t: &Transform) -> [[f32; 4]; 3] {
    let (s, c) = val(t.rotate_uv).sin_cos();
    let [ou, ov, ow] = t.offset.map(val);
    let [su, sv, sw] = t.scale.map(val);
    [
        [su * c, -su * s, 0.0, -su * (c * ou - s * ov)],
        [sv * s, sv * c, 0.0, -sv * (s * ou + c * ov)],
        [0.0, 0.0, sw, -sw * ow],
    ]
}

fn plan(g: &Graph, root: LayerId) -> Result<HashMap<u64, Placement>, BakeError> {
    let mut plan = SpherePlan::new(root);
    while !plan.is_done() {
        if let Some(request) = plan.step(g)? {
            plan.place_moved(compose(transform_map(&request.transform), request.map));
        }
    }
    Ok(plan.placed)
}

#[test]
fn a_sphere_bake_refuses_what_has_no_meaning_on_a_sphere() {
    let mut g = Graph::new();
    let n = g.add_layer("n", LayerKind::Noise(Noise::default())).unwrap();
    let t = g
        .add_layer(
            "t",
            LayerKind::Transform(Transform {
                source: Some(n),
                offset: [sc(0.0); 3],
                rotate_uv: sc(0.0),
                scale: [sc(2.0); 3],
                coord_mode: CoordMode::Passthrough,
                edge_mode: EdgeMode::Clamp,
            }),
        )
        .unwrap();
    let refused = plan(&g, t).err();
    assert!(matches!(refused, Some(BakeError::Unsupported(_))), "got {refused:?}");
}

/// Two Transforms reaching one noise would need it baked twice.
#[test]
fn a_sphere_bake_refuses_a_layer_moved_two_ways() {
    let mut g = Graph::new();
    let n = g.add_layer("n", LayerKind::Noise(Noise::default())).unwrap();
    let moved = |g: &mut Graph, name: &str, s: f32| {
        g.add_layer(
            name,
            LayerKind::Transform(Transform {
                source: Some(n),
                offset: [sc(0.0); 3],
                rotate_uv: sc(0.0),
                scale: [sc(s); 3],
                coord_mode: CoordMode::Passthrough,
                edge_mode: EdgeMode::Extend,
            }),
        )
        .unwrap()
    };
    let a = moved(&mut g, "a", 2.0);
    let b = moved(&mut g, "b", 3.0);
    let both = blend(&mut g, "both", a, b, 0.5);
    let refused = plan(&g, both).err();
    assert!(matches!(refused, Some(BakeError::Unsupported(_))), "got {refused:?}");
}

/// A constant reads no position, so feeding a moved and an unmoved branch is
/// one bake, not two.
#[test]
fn a_constant_can_feed_moved_and_unmoved_branches() {
    let mut g = Graph::new();
    let zero = g.add_layer("zero", LayerKind::Color(color(0.0, 0.0, 0.0, 1.0))).unwrap();
    let n = g.add_layer("n", LayerKind::Noise(Noise::default())).unwrap();
    let weather = blend(&mut g, "weather", zero, n, 0.5);
    let moved = g
        .add_layer(
            "moved",
            LayerKind::Transform(Transform {
                source: Some(weather),
                offset: [sc(0.0), sc(0.5), sc(0.0)],
                rotate_uv: sc(0.0),
                scale: [sc(1.0), sc(1.8), sc(1.0)],
                coord_mode: CoordMode::Passthrough,
                edge_mode: EdgeMode::Extend,
            }),
        )
        .unwrap();
    let out = blend(&mut g, "out", zero, moved, 0.5);
    let placed = plan(&g, out).expect("one placement for the constant");
    assert_eq!(placed.len(), 5);
    assert!(placed[&out.0].same(Placement::Sphere(PointMap::identity())));
    assert!(placed[&moved.0].same(Placement::Sphere(PointMap::identity())));
    assert!(!placed[&n.0].same(Placement::Sphere(PointMap::identity())));
    assert!(placed[&n.0].same(placed[&weather.0]));
}

#[test]
fn a_plan_records_what_it_moved_and_places_only_what_is_read() {
    let mut g = Graph::new();
    let n = g.add_layer("n", LayerKind::Noise(Noise::default())).unwrap();
    let other = g.add_layer("other", LayerKind::Noise(Noise::default())).unwrap();
    let t = g
        .add_layer(
            "t",
            LayerKind::Transform(Transform {
                source: Some(n),
                offset: [sc(0.0); 3],
                rotate_uv: sc(0.0),
                scale: [sc(2.0), sc(3.0), sc(5.0)],
                coord_mode: CoordMode::Passthrough,
                edge_mode: EdgeMode::Extend,
            }),
        )
        .unwrap();
    let mut plan = SpherePlan::new(t);
    assert!(!plan.is_done());
    let request = plan.step(&g).unwrap().unwrap();
    assert_eq!((request.id, request.source), (t, n));
    assert!(plan.pending.is_empty() && !plan.is_done(), "it waits for the moved point");
    let map = compose(transform_map(&request.transform), request.map);
    plan.place_moved(map);
    assert!(plan.step(&g).unwrap().is_none());
    assert!(plan.is_done());
    assert!(plan.moved[&t.0].same(map));
    assert_eq!([0, 5, 10].map(|k| val(map.rows[k])), [2.0, 3.0, 5.0]);
    assert!(plan.placed[&t.0].same(Placement::Sphere(PointMap::identity())));
    assert!(plan.placed[&n.0].same(Placement::Sphere(map)));
    assert_eq!(plan.placed.len(), 2);
    assert!(!plan.placed.contains_key(&other.0));
}

/// Only a hand-made graph can hold an id that no layer has.
#[test]
fn previews_of_a_layer_that_reads_an_unknown_one_cannot_be_recorded() {
    let mut g = Graph::new();
    let base = g.output.color.unwrap();
    let b = blend(&mut g, "b", base, base, 0.5);
    let ctx = EvalCtx::default();
    let sched = schedule_previews(&g, None, &ctx).unwrap();
    assert!(can_be_recorded(&g, &sched));
    let LayerKind::Mix(m) = &mut g.get_mut(b).unwrap().kind else { panic!() };
    m.a = Some(LayerId(60));
    let sched = schedule_previews(&g, None, &ctx).unwrap();
    assert!(!can_be_recorded(&g, &sched));
}

#[test]
fn a_palette_bakes_on_the_plane() {
    let mut g = Graph::new();
    let n = g.add_layer("n", LayerKind::Noise(Noise::default())).unwrap();
    let base = g.output.color.unwrap();
    let stops = vec![
        ColorStop { t: sc(0.0), color: ColorInput::Layer(base) },
        ColorStop { t: sc(1.0), color: ColorInput::Const(color(1.0, 0.0, 0.0, 1.0)) },
    ];
    let ramp = g
        .add_layer("ramp", LayerKind::ColorRamp(ColorRamp { stops, space: BlendSpace::Oklch }))
        .unwrap();
    let map = g
        .add_layer("map", LayerKind::GradientMap(GradientMap { value: Some(n), palette: Some(ramp) }))
        .unwrap();
    show(&mut g, Some(map), None);
    let placed = plan(&g, map).unwrap();
    assert!(matches!(placed[&ramp.0], Placement::Plane));
    assert!(matches!(placed[&base.0], Placement::Plane));
    assert!(matches!(placed[&n.0], Placement::Sphere(_)));
    assert!(plan(&g, ramp).is_err(), "a ramp has no meaning on a face");

    let ctx = EvalCtx::default();
    let mut sched = schedule_layer(&g, map).unwrap();
    let wide = Domain { min: [sc(-1.0); 2], max: [sc(2.0); 2] };
    for id in [n, ramp] {
        sched.domain_of.insert(id.0, wide);
    }
    fit_to_faces(&mut sched, &placed);
    assert_eq!(sched.domain_of[&n.0], Domain::unit());
    assert_eq!(sched.domain_of[&ramp.0], wide);
    assert_eq!(color_cube_root(&g).ok(), Some(map));
    let passes = bake_color_face(&g, &ctx, &sched, map, 16, 5, &placed).unwrap();
    let noise = passes.iter().find(|p| p.pipeline == Pipeline::Noise).unwrap();
    assert_eq!(noise.uniform[21], word(6));
    let last = passes.last().unwrap();
    assert_eq!(last.sources, vec![Source::Slot(sched.slot_of[&map.0])]);
    assert_eq!(last.uniform[..4], [word(16), word(16), word(0), word(1)]);

    let setting = Setting::Face { face: 0, placed: &placed };
    let passes = bake_scalar_slice(&g, &ctx, &sched, map, (16, 16), setting).unwrap();
    let last = passes.last().unwrap();
    assert_eq!((last.target, last.pipeline), (Target::Scalar, Pipeline::PackScalar));

    show(&mut g, None, None);
    assert!(matches!(color_cube_root(&g), Err(BakeError::Unsupported(_))));
}

#[test]
fn every_kind_without_a_meaning_on_a_face_is_refused() {
    let mut g = Graph::new();
    let id = g.add_layer("x", LayerKind::Noise(Noise::default())).unwrap();
    let radial = Transform {
        source: None,
        offset: [sc(0.0); 3],
        rotate_uv: sc(0.0),
        scale: [sc(1.0); 3],
        coord_mode: CoordMode::Radial { dim: RadialDim::D2, into: Axis::U },
        edge_mode: EdgeMode::Extend,
    };
    let kinds = [
        (LayerKind::Transform(radial), "a Transform other than passthrough in a sphere bake"),
        (
            LayerKind::HeightToNormal(HeightToNormal { source: None, strength: sc(1.0) }),
            "HeightToNormal in a sphere bake",
        ),
        (LayerKind::Warp(Warp::default()), "Warp in a sphere bake"),
    ];
    for (kind, why) in kinds {
        g.set_kind(id, kind).unwrap();
        assert!(matches!(plan(&g, id), Err(BakeError::Unsupported(w)) if w == why), "{why}");
    }
}

#[test]
fn a_pool_keeps_what_fits() {
    let mut pool = Pool::new();
    let change = pool.ensure((8, 8), 2);
    assert_eq!(change, PoolChange { clear: true, make_missing: true, grow: 2 });
    assert_eq!(pool.ensure((8, 8), 1), PoolChange { clear: false, make_missing: false, grow: 0 });
    assert_eq!(pool.ensure((8, 8), 5), PoolChange { clear: false, make_missing: false, grow: 3 });
    assert_eq!(pool.count, 5);
    assert_eq!(pool.ensure((8, 9), 1), PoolChange { clear: true, make_missing: true, grow: 1 });
    assert_eq!(pool.count, 1);
}

#[test]
fn workgroups_cover_the_texture() {
    assert_eq!(workgroup_counts((0, 1)), (0, 1));
    assert_eq!(workgroup_counts((8, 9)), (1, 2));
    assert_eq!(workgroup_counts((1024, 1025)), (128, 129));
}
