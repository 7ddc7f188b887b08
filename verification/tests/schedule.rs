//! Orders, slots and rectangles.
use std::collections::{HashMap, HashSet};

use texture_graph::domains::{bounds_of, transform_request, warp_request};
use texture_graph::{
    oklcha, schedule, schedule_layer, schedule_no_reuse, schedule_previews, Axis, BlendMode,
    BlendSpace, Color, ColorInput, ColorRamp, ColorStop, CoordMode, Domain, DomainRequest, EdgeMode,
    EvalCtx, Graph, HeightToNormal, LayerId, LayerKind, Mix, Output, RadialDim, Scalar, ScalarInput,
    ScalarSlot, Schedule, ScheduleError, Transform, Warp, WarpMode,
};

const EXTEND_LIMIT: f32 = 8.0;

fn sc(v: f32) -> Scalar {
    Scalar::from_bits(v.to_bits())
}

fn val(s: Scalar) -> f32 {
    f32::from_bits(s.bits)
}

fn base_graph() -> Graph {
    Graph::new()
}

fn show(g: &mut Graph, color: LayerId) {
    g.set_output(Output {
        color: Some(color),
        roughness: ScalarInput::Const(sc(0.5)),
        metallic: ScalarInput::Const(sc(0.0)),
        normal: None,
    })
    .unwrap();
}

fn add_color(g: &mut Graph, name: &str) -> LayerId {
    g.add_layer(name, LayerKind::Color(oklcha(sc(0.5), sc(0.0), sc(0.0), sc(1.0)))).unwrap()
}

fn add_mix(g: &mut Graph, name: &str, a: LayerId, b: LayerId) -> LayerId {
    g.add_layer(
        name,
        LayerKind::Mix(Mix {
            a: Some(a),
            b: Some(b),
            mode: BlendMode::Add,
            factor: ScalarInput::Const(sc(0.5)),
            space: BlendSpace::Oklch,
        }),
    )
    .unwrap()
}

/// No two layers live at the same time share a slot. A layer is live from its
/// dispatch through its last consumer's, or to the end if it is an output root.
fn assert_valid_allocation(graph: &Graph, s: &Schedule) {
    let output_ids: HashSet<LayerId> = graph.output.referenced().into_iter().collect();
    let mut interval: HashMap<LayerId, (usize, usize)> = HashMap::new();
    for (i, &id) in s.order.iter().enumerate() {
        interval.insert(id, (i, i));
    }
    for (i, &id) in s.order.iter().enumerate() {
        for input in graph.get(id).unwrap().kind.inputs() {
            if let Some(v) = interval.get_mut(&input) {
                v.1 = v.1.max(i);
            }
        }
    }
    for &out_id in &output_ids {
        if let Some(v) = interval.get_mut(&out_id) {
            v.1 = s.order.len();
        }
    }
    let items: Vec<_> = interval.iter().collect();
    for i in 0..items.len() {
        let (&id_a, &(a0, a1)) = items[i];
        for j in (i + 1)..items.len() {
            let (&id_b, &(b0, b1)) = items[j];
            let overlap = a0 <= b1 && b0 <= a1;
            if overlap {
                let sa = s.slot_of[&id_a.0];
                let sb = s.slot_of[&id_b.0];
                assert_ne!(
                    sa, sb,
                    "layers {id_a:?} (live {a0}..={a1}) and {id_b:?} (live {b0}..={b1}) \
                     share slot {sa} but their live intervals overlap",
                );
            }
        }
    }
}

#[test]
fn linear_chain_peaks_at_two() {
    let mut g = base_graph();
    let a = g.output.color; // seeded by Graph::new
    let b = add_color(&mut g, "b");
    let ab = add_mix(&mut g, "ab", a.unwrap(), b);
    show(&mut g, ab);
    let s = schedule(&g, &EvalCtx::default()).unwrap();
    assert_valid_allocation(&g, &s);
    // Inputs are freed after the consumer's slot is allocated, so `a`, `b` and
    // `ab` are live together.
    assert!(s.peak_slots >= 3, "peak_slots was {}", s.peak_slots);
}

#[test]
fn diamond_needs_three_slots() {
    let mut g = base_graph();
    let a = g.output.color.unwrap();
    let b = add_mix(&mut g, "b", a, a);
    let c = add_mix(&mut g, "c", a, a);
    let bc = add_mix(&mut g, "bc", b, c);
    show(&mut g, bc);
    let s = schedule(&g, &EvalCtx::default()).unwrap();
    assert_valid_allocation(&g, &s);
    assert!(s.peak_slots >= 3, "peak_slots was {}", s.peak_slots);
}

#[test]
fn long_lived_leaf_stays_alive() {
    let mut g = base_graph();
    let leaf = g.output.color;
    let mut cur = add_color(&mut g, "seed");
    for i in 0..5 {
        let name = format!("step-{i}");
        cur = add_mix(&mut g, &name, cur, leaf.unwrap());
    }
    show(&mut g, cur);
    let s = schedule(&g, &EvalCtx::default()).unwrap();
    assert_valid_allocation(&g, &s);
    assert_eq!(s.peak_slots, 3, "a leaf, the last step and the next one");
}

#[test]
fn schedule_no_reuse_gives_unique_slots() {
    let mut g = base_graph();
    let a = g.output.color;
    let b = add_color(&mut g, "b");
    let ab = add_mix(&mut g, "ab", a.unwrap(), b);
    show(&mut g, ab);
    let s = schedule_no_reuse(&g, &EvalCtx::default()).unwrap();
    let mut slots: Vec<u32> = s.slot_of.values().copied().collect();
    slots.sort();
    slots.dedup();
    assert_eq!(slots.len(), s.slot_of.len(), "slots must be unique in no-reuse mode");
    assert_eq!(s.peak_slots as usize, s.order.len());
}

fn add_transform(
    g: &mut Graph,
    name: &str,
    src: LayerId,
    scale: [f32; 3],
    edge_mode: EdgeMode,
) -> LayerId {
    g.add_layer(
        name,
        LayerKind::Transform(Transform {
            source: Some(src),
            offset: [sc(0.0); 3],
            rotate_uv: sc(0.0),
            scale: scale.map(sc),
            coord_mode: CoordMode::Passthrough,
            edge_mode,
        }),
    )
    .unwrap()
}

/// Moves the corners of a domain and asks the library for the rectangle.
fn transform_rect(t: &Transform, d: Domain) -> Option<Domain> {
    let (u, v) = ([val(d.min[0]), val(d.max[0])], [val(d.min[1]), val(d.max[1])]);
    let mut corners: Vec<[Scalar; 2]> = Vec::new();
    for &cv in &v {
        for &cu in &u {
            let (x, y) = (cu - val(t.offset[0]), cv - val(t.offset[1]));
            let (sin, cos) = val(t.rotate_uv).sin_cos();
            let (x, y) = (x * cos - y * sin, x * sin + y * cos);
            corners.push([sc(x * val(t.scale[0])), sc(y * val(t.scale[1]))]);
        }
    }
    let bounds = bounds_of(&corners);
    let ends = [-val(t.offset[2]) * val(t.scale[2]), (1.0 - val(t.offset[2])) * val(t.scale[2])];
    let reach = ends[0].abs().max(ends[1].abs());
    let deep = match t.coord_mode {
        CoordMode::Radial { dim: RadialDim::D3, .. } => reach * reach,
        _ => 0.0,
    };
    let mut radius = 0.0f32;
    for x in [val(bounds.min[0]), val(bounds.max[0])] {
        for y in [val(bounds.min[1]), val(bounds.max[1])] {
            radius = radius.max((x * x + y * y + deep).sqrt());
        }
    }
    transform_request(t.coord_mode, bounds, sc(reach), sc(radius))
}

fn warp_rect(w: &Warp, d: Domain) -> Domain {
    let (a, b) = (val(w.amount[0]).abs(), val(w.amount[1]).abs());
    warp_request(Domain {
        min: [sc(val(d.min[0]) - a), sc(val(d.min[1]) - b)],
        max: [sc(val(d.max[0]) + a), sc(val(d.max[1]) + b)],
    })
}

/// The schedule, with every rectangle found.
fn widened(g: &Graph, mut s: Schedule) -> Schedule {
    let mut walk = s.domain_walk();
    while !walk.is_done() {
        match walk.step(g) {
            Some(DomainRequest::Transform { transform, source, domain }) => {
                if let Some(rect) = transform_rect(&transform, domain) {
                    walk.widen(source, rect);
                }
            }
            Some(DomainRequest::Warp { warp, source, domain }) => {
                let rect = warp_rect(&warp, domain);
                walk.widen(source, rect);
            }
            None => {}
        }
    }
    s.domain_of = walk.domains;
    s
}

#[test]
fn extend_transform_widens_source_domain() {
    let mut g = base_graph();
    let src = g.output.color.unwrap();
    let t = add_transform(&mut g, "t", src, [3.0, 1.0, 1.0], EdgeMode::Extend);
    show(&mut g, t);
    let s = widened(&g, schedule(&g, &EvalCtx::default()).unwrap());
    let d = s.domain_of[&src.0];
    assert_eq!(d.min.map(val), [0.0, 0.0]);
    assert!((val(d.max[0]) - 3.0).abs() < 1e-6, "u max {}", val(d.max[0]));
    assert!((val(d.max[1]) - 1.0).abs() < 1e-6);
    assert_eq!(s.domain_of[&t.0], Domain::unit());
}

#[test]
fn clamp_transform_keeps_source_at_unit() {
    let mut g = base_graph();
    let src = g.output.color.unwrap();
    let t = add_transform(&mut g, "t", src, [3.0, 1.0, 1.0], EdgeMode::Clamp);
    show(&mut g, t);
    let s = widened(&g, schedule(&g, &EvalCtx::default()).unwrap());
    assert_eq!(s.domain_of[&src.0], Domain::unit());
}

#[test]
fn extend_requests_are_exact_and_chains_compose() {
    let mut g = base_graph();
    let src = g.output.color.unwrap();
    let t1 = add_transform(&mut g, "t1", src, [2.0, 1.0, 1.0], EdgeMode::Extend);
    let t2 = add_transform(&mut g, "t2", t1, [2.0, 1.0, 1.0], EdgeMode::Extend);
    // Affine requests are not capped.
    let big = add_transform(&mut g, "big", src, [100.0, 1.0, 1.0], EdgeMode::Extend);
    let both = add_mix(&mut g, "both", t2, big);
    show(&mut g, both);
    let s = widened(&g, schedule(&g, &EvalCtx::default()).unwrap());
    assert!((val(s.domain_of[&t1.0].max[0]) - 2.0).abs() < 1e-6);
    let d = s.domain_of[&src.0];
    assert!((val(d.max[0]) - 100.0).abs() < 1e-3, "u max {}", val(d.max[0]));
    assert_eq!(val(d.min[1]), 0.0);
}

#[test]
fn radial_extend_request_caps_at_limit() {
    let mut g = base_graph();
    let src = g.output.color.unwrap();
    let t = g
        .add_layer(
            "radial",
            LayerKind::Transform(Transform {
                source: Some(src),
                offset: [sc(0.0); 3],
                rotate_uv: sc(0.0),
                scale: [sc(40.0), sc(1.0), sc(1.0)],
                coord_mode: CoordMode::Radial { dim: RadialDim::D2, into: Axis::U },
                edge_mode: EdgeMode::Extend,
            }),
        )
        .unwrap();
    show(&mut g, t);
    let s = widened(&g, schedule(&g, &EvalCtx::default()).unwrap());
    let d = s.domain_of[&src.0];
    assert!(
        (val(d.max[0]) - (0.5 + EXTEND_LIMIT)).abs() < 1e-4,
        "u max {}",
        val(d.max[0])
    );
}

#[test]
fn unreachable_layers_are_not_scheduled_for_output_pass() {
    let mut g = base_graph();
    let _dead = add_color(&mut g, "dead");
    let s = schedule(&g, &EvalCtx::default()).unwrap();
    assert_eq!(s.order.len(), 1);
}

#[test]
fn a_warp_grows_its_source_up_to_the_limit() {
    for (amount, want) in [(0.25f32, 1.25f32), (20.0, 8.5)] {
        let mut g = base_graph();
        let src = g.output.color.unwrap();
        let by = add_color(&mut g, "by");
        let w = g
            .add_layer(
                "w",
                LayerKind::Warp(Warp {
                    source: Some(src),
                    by: Some(by),
                    mode: WarpMode::Scalar,
                    amount: [sc(amount), sc(0.0), sc(0.0)],
                }),
            )
            .unwrap();
        show(&mut g, w);
        let s = widened(&g, schedule(&g, &EvalCtx::default()).unwrap());
        assert_eq!(val(s.domain_of[&src.0].max[0]), want);
        assert_eq!(val(s.domain_of[&src.0].max[1]), 1.0);
        assert_eq!(s.domain_of[&by.0], Domain::unit(), "the driver is read in place");
    }
}

#[test]
fn a_request_that_is_not_finite_is_dropped() {
    let t = Transform {
        source: Some(LayerId(1)),
        offset: [sc(0.0); 3],
        rotate_uv: sc(0.0),
        scale: [sc(f32::MAX), sc(1.0), sc(1.0)],
        coord_mode: CoordMode::Passthrough,
        edge_mode: EdgeMode::Extend,
    };
    let wide = Domain { min: [sc(0.0), sc(0.0)], max: [sc(4.0), sc(1.0)] };
    assert!(transform_rect(&t, wide).is_none());
    assert!(transform_rect(&t, Domain::unit()).is_some());
    let swapped = Transform {
        coord_mode: CoordMode::Permute([Axis::V, Axis::W, Axis::U]),
        scale: [sc(2.0), sc(3.0), sc(5.0)],
        ..t
    };
    let d = transform_rect(&swapped, Domain::unit()).unwrap();
    assert_eq!((d.min.map(val), d.max.map(val)), ([0.0, -5.0], [3.0, 5.0]));
}

#[test]
fn a_layer_is_scheduled_with_what_it_reads() {
    let mut g = base_graph();
    let a = g.output.color.unwrap();
    let b = add_mix(&mut g, "b", a, a);
    let _other = add_color(&mut g, "other");
    let s = schedule_layer(&g, b).unwrap();
    assert_eq!(s.order, vec![a, b]);
    assert_eq!(s.output_slots.color, Some(s.slot_of[&b.0]));
    assert_eq!(s.output_slots.metallic, ScalarSlot::Const(sc(0.0)));
    assert_eq!(schedule_layer(&g, LayerId(99)).err(), Some(ScheduleError::UnknownLayer(LayerId(99))));
}

/// Only a hand-made graph can hold a cycle.
#[test]
fn a_cycle_is_not_scheduled() {
    let mut g = base_graph();
    let a = g.output.color.unwrap();
    let b = add_mix(&mut g, "b", a, a);
    let a_kind = LayerKind::Mix(Mix {
        a: Some(b),
        b: None,
        mode: BlendMode::Add,
        factor: ScalarInput::Const(sc(0.5)),
        space: BlendSpace::Oklch,
    });
    g.get_mut(a).unwrap().kind = a_kind;
    let ctx = EvalCtx::default();
    assert_eq!(schedule(&g, &ctx).err(), Some(ScheduleError::Cycle));
    assert_eq!(schedule_layer(&g, b).err(), Some(ScheduleError::Cycle));
    assert_eq!(schedule_no_reuse(&g, &ctx).err(), Some(ScheduleError::Cycle));
}

#[test]
fn previews_schedule_what_is_wanted_and_find_rectangles_over_everything() {
    let mut g = base_graph();
    let src = g.output.color.unwrap();
    let t = add_transform(&mut g, "t", src, [3.0, 1.0, 1.0], EdgeMode::Extend);
    let ctx = EvalCtx::default();
    let wanted = vec![src];
    let s = widened(&g, schedule_previews(&g, Some(&wanted), &ctx).unwrap());
    assert_eq!(s.order, vec![src]);
    assert_eq!(s.domain_order, vec![src, t]);
    assert_eq!(val(s.domain_of[&src.0].max[0]), 3.0, "set by a reader that is not baked");
    let unknown = vec![LayerId(50)];
    assert_eq!(
        schedule_previews(&g, Some(&unknown), &ctx).err(),
        Some(ScheduleError::UnknownLayer(LayerId(50)))
    );
}

/// Every other allocation of the order would need as many slots.
#[test]
fn a_chain_needs_two_slots_and_a_fan_one_per_input() {
    let mut g = Graph::new();
    let mut last = g.output.color.unwrap();
    for i in 0..5 {
        last = g
            .add_layer(
                &format!("n{i}"),
                LayerKind::HeightToNormal(HeightToNormal {
                    source: Some(last),
                    strength: Scalar::one(),
                }),
            )
            .unwrap();
    }
    let s = schedule_layer(&g, last).unwrap();
    assert_eq!((s.order.len(), s.peak_slots), (6, 2));

    let mut g = Graph::new();
    let mut stops = Vec::new();
    for i in 0..4u32 {
        let id =
            g.add_layer(&format!("c{i}"), LayerKind::Color(Color::black())).unwrap();
        stops.push(ColorStop { t: Scalar::zero(), color: ColorInput::Layer(id) });
    }
    let r = g
        .add_layer("r", LayerKind::ColorRamp(ColorRamp { stops, space: BlendSpace::Oklch }))
        .unwrap();
    assert_eq!(schedule_layer(&g, r).unwrap().peak_slots, 5);
}

#[test]
fn what_is_wanted_does_not_move_the_rectangles() {
    let mut g = Graph::new();
    let a = g.output.color.unwrap();
    let n = g
        .add_layer(
            "n",
            LayerKind::HeightToNormal(HeightToNormal { source: Some(a), strength: Scalar::one() }),
        )
        .unwrap();
    let ctx = EvalCtx::default();
    let some = vec![a];
    let few = schedule_previews(&g, Some(&some), &ctx).unwrap();
    let all = schedule_previews(&g, None, &ctx).unwrap();
    assert_eq!((few.order.len(), all.order.len()), (1, 2));
    assert_eq!(few.domain_order, all.domain_order);
    assert!(few.domain_of.contains_key(&n.0));
}

/// Only a hand-made graph can hold an id that no layer has.
#[test]
fn the_first_unknown_id_on_the_way_is_reported() {
    let mut g = base_graph();
    let a = g.output.color.unwrap();
    let b = add_mix(&mut g, "b", a, a);
    let LayerKind::Mix(m) = &mut g.get_mut(b).unwrap().kind else { panic!() };
    (m.a, m.b) = (Some(LayerId(60)), Some(LayerId(61)));
    assert_eq!(schedule_layer(&g, b).err(), Some(ScheduleError::UnknownLayer(LayerId(61))));
    let ctx = EvalCtx::default();
    let wanted = vec![LayerId(70), b];
    assert_eq!(
        schedule_previews(&g, Some(&wanted), &ctx).err(),
        Some(ScheduleError::UnknownLayer(LayerId(61)))
    );
    g.output.color = Some(b);
    assert_eq!(schedule(&g, &ctx).err(), Some(ScheduleError::UnknownLayer(LayerId(61))));
}
