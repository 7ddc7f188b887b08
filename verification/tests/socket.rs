//! Reading and writing the sockets of a layer.
use texture_graph::{
    oklcha, BlendMode, BlendSpace, Color, ColorInput, ColorRamp, ColorStop, ConstValue, CoordMode,
    Craters, Criterion, EdgeMode, GradientMap, HeightToNormal, InputKey, LayerId, LayerKind, MinMax,
    MinMaxMode, Mix, Output, Scalar, ScalarInput, SocketError, SocketValue, Transform, Warp, Wave,
};

fn sc(v: f32) -> Scalar {
    Scalar::from_bits(v.to_bits())
}

fn color(l: f32, chroma: f32, hue: f32, alpha: f32) -> Color {
    oklcha(sc(l), sc(chroma), sc(hue), sc(alpha))
}

fn id(n: u64) -> LayerId {
    LayerId(n)
}

/// One fully-connected instance of every variant that has inputs.
fn connected_samples() -> Vec<LayerKind> {
    vec![
        LayerKind::ColorRamp(ColorRamp {
            stops: vec![
                ColorStop { t: sc(0.0), color: ColorInput::Layer(id(2)) },
                ColorStop { t: sc(1.0), color: ColorInput::Layer(id(3)) },
            ],
            space: BlendSpace::Oklch,
        }),
        LayerKind::Transform(Transform {
            source: Some(id(4)),
            offset: [sc(0.0); 3],
            rotate_uv: sc(0.0),
            scale: [sc(1.0); 3],
            coord_mode: CoordMode::Passthrough,
            edge_mode: EdgeMode::default(),
        }),
        LayerKind::Mix(Mix {
            a: Some(id(5)),
            b: Some(id(6)),
            mode: BlendMode::Blend,
            factor: ScalarInput::Layer(id(7)),
            space: BlendSpace::Oklch,
        }),
        LayerKind::GradientMap(GradientMap { value: Some(id(8)), palette: Some(id(9)) }),
        LayerKind::MinMax(MinMax {
            a: Some(id(10)),
            b: Some(id(11)),
            mode: MinMaxMode::Min,
            criterion: Criterion::Luma,
        }),
        LayerKind::HeightToNormal(HeightToNormal { source: Some(id(12)), strength: sc(1.0) }),
        LayerKind::Wave(Wave { input: ScalarInput::Layer(id(13)), ..Wave::default() }),
        LayerKind::Warp(Warp { source: Some(id(14)), by: Some(id(15)), ..Warp::default() }),
    ]
}

#[test]
fn input_sockets_match_inputs_for_connected_nodes() {
    for kind in connected_samples() {
        let from_sockets: Vec<LayerId> =
            kind.input_sockets().iter().filter_map(|s| s.value.connected_to()).collect();
        assert_eq!(from_sockets, kind.inputs(), "mismatch for {kind:?}");
    }
}

#[test]
fn set_input_round_trips_every_socket() {
    for mut kind in connected_samples() {
        for sock in kind.clone().input_sockets() {
            // Rewire to a fresh id.
            let prev = kind.set_input(sock.key, Some(id(99))).unwrap();
            assert_eq!(prev.connected_to(), sock.value.connected_to());
            let read = kind.input_sockets().into_iter().find(|s| s.key == sock.key).unwrap();
            assert_eq!(read.value.connected_to(), Some(id(99)));

            // Disconnect.
            kind.set_input(sock.key, None).unwrap();
            let read = kind.input_sockets().into_iter().find(|s| s.key == sock.key).unwrap();
            assert_eq!(read.value.connected_to(), None);
            match read.value {
                SocketValue::LayerOpt(v) => assert!(v.is_none()),
                SocketValue::Color(ColorInput::Const(_)) => {}
                SocketValue::Scalar(ScalarInput::Const(v)) => assert_eq!(v, sc(0.5)),
                other => panic!("unexpected disconnected value {other:?}"),
            }
        }
    }
}

#[test]
fn wrong_key_is_no_such_socket() {
    let mut kind = LayerKind::GradientMap(GradientMap { value: None, palette: None });
    assert!(matches!(
        kind.set_input(InputKey::MixA, Some(id(1))),
        Err(SocketError::NoSuchSocket)
    ));
    let mut color = LayerKind::Color(color(0.5, 0.0, 0.0, 1.0));
    assert!(matches!(
        color.set_input(InputKey::TransformSource, None),
        Err(SocketError::NoSuchSocket)
    ));
}

#[test]
fn out_of_range_ramp_stop_is_no_such_socket() {
    let mut kind = LayerKind::ColorRamp(ColorRamp {
        stops: vec![
            ColorStop { t: sc(0.0), color: ColorInput::Const(color(0.0, 0.0, 0.0, 1.0)) },
            ColorStop { t: sc(1.0), color: ColorInput::Const(color(1.0, 0.0, 0.0, 1.0)) },
        ],
        space: BlendSpace::Oklch,
    });
    assert!(matches!(
        kind.set_input(InputKey::RampStop(2), Some(id(1))),
        Err(SocketError::NoSuchSocket)
    ));
}

#[test]
fn output_sockets_round_trip() {
    let mut out = Output {
        color: Some(id(1)),
        roughness: ScalarInput::Const(sc(0.5)),
        metallic: ScalarInput::Const(sc(0.0)),
        normal: None,
    };
    // Color is nullable like any other input: `None` renders as the
    // missing-texture grid.
    out.set_input(InputKey::OutColor, None).unwrap();
    assert_eq!(out.color, None);
    out.set_input(InputKey::OutColor, Some(id(2))).unwrap();
    assert_eq!(out.color, Some(id(2)));

    out.set_input(InputKey::OutNormal, Some(id(3))).unwrap();
    assert_eq!(out.normal, Some(id(3)));
    out.set_input(InputKey::OutNormal, None).unwrap();
    assert_eq!(out.normal, None);

    assert!(matches!(
        out.set_input(InputKey::MixA, Some(id(2))),
        Err(SocketError::NoSuchSocket)
    ));
}

/// What a connection displaced can be put back.
#[test]
fn a_displaced_constant_is_restored() {
    let mut kind = LayerKind::Wave(Wave::default());
    kind.set_const(InputKey::WaveInput, ConstValue::Scalar(sc(0.125))).unwrap();
    let before = kind.set_input(InputKey::WaveInput, Some(id(3))).unwrap();
    let SocketValue::Scalar(ScalarInput::Const(v)) = before else { panic!("{before:?}") };
    kind.set_const(InputKey::WaveInput, ConstValue::Scalar(v)).unwrap();
    let LayerKind::Wave(w) = &kind else { panic!() };
    assert!(matches!(w.input, ScalarInput::Const(v) if v == sc(0.125)));
    assert!(matches!(
        kind.set_const(InputKey::WaveInput, ConstValue::Color(color(0.5, 0.0, 0.0, 1.0))),
        Err(SocketError::NoSuchSocket)
    ));
}

#[test]
fn craters_have_two_sockets() {
    let mut kind = LayerKind::Craters(Craters::default());
    kind.set_input(InputKey::CratersUnder, Some(id(8))).unwrap();
    kind.set_input(InputKey::CratersDensity, Some(id(9))).unwrap();
    assert_eq!(kind.inputs(), vec![id(8), id(9)]);
    let keys: Vec<InputKey> = kind.input_sockets().iter().map(|s| s.key).collect();
    assert_eq!(keys, vec![InputKey::CratersUnder, InputKey::CratersDensity]);
}

#[test]
fn output_constants_are_written_by_key() {
    let mut out = Output {
        color: None,
        roughness: ScalarInput::Layer(id(4)),
        metallic: ScalarInput::Const(sc(0.0)),
        normal: None,
    };
    out.set_const(InputKey::OutRoughness, ConstValue::Scalar(sc(0.25))).unwrap();
    assert!(matches!(out.roughness, ScalarInput::Const(v) if v == sc(0.25)));
    assert!(matches!(
        out.set_const(InputKey::OutColor, ConstValue::Color(color(0.5, 0.0, 0.0, 1.0))),
        Err(SocketError::NoSuchSocket)
    ));
    let labels: Vec<&str> = out.input_sockets().iter().map(|s| s.label).collect();
    assert_eq!(labels.len(), 4);
}
