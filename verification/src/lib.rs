//! Procedural texture graph: the data model, the editing rules, and the
//! planning behind a bake.
//!
//! A [`Graph`] is a set of layers that read one another and an output that
//! reads layers. The library holds what can be decided about such a graph
//! without touching a pixel: which edits are legal, in which order the layers
//! are computed and in which slots, what each compute pass is told, and how
//! the bytes that come back are read.
//!
//! A floating-point number is carried by its bit pattern, see [`Scalar`].

pub mod bake;
pub mod bind;
pub mod bytes;
pub mod canvas;
pub mod color;
pub mod crater;
pub mod domains;
pub mod edit;
pub mod eval;
pub mod file;
pub mod fraction;
pub mod frozen;
pub mod graph;
pub mod hash;
pub mod id;
pub mod kind;
pub mod layout;
pub mod lists;
pub mod names;
pub mod noise;
pub mod param;
pub mod passes;
pub mod placement;
pub mod pool;
pub mod reach;
pub mod readback;
pub mod recording;
pub mod rewire;
pub mod sampling;
pub mod scalar;
pub mod scene;
pub mod schedule;
pub mod slots;
pub mod socket;
pub mod sphere;
pub mod traverse;
pub mod volume;

pub use bake::{bake_output, bake_previews, bake_scalar_slice, can_be_recorded, Setting};
pub use bytes::buffer_bytes;
pub use color::{oklcha, BlendSpace, Color};
pub use domains::{Domain, DomainRequest, DomainWalk};
pub use eval::EvalCtx;
pub use file::{
    check_magic, check_version, FileError, FileMetadata, TextureGraphFile, CURRENT_FORMAT_VERSION,
    FILE_EXTENSION,
};
pub use graph::{Canvas, Graph, GraphError, Layer, Output};
pub use id::LayerId;
pub use kind::{
    Axis, BlendMode, ColorInput, ColorRamp, ColorStop, CoordMode, Coordinate, CraterOutput,
    CraterSurface, Craters, Criterion, EdgeMode, Fractal, FractalMode, GradientMap, HeightToNormal,
    LayerKind, MinMax, MinMaxMode, Mix, Noise, NoiseDims, NoiseKernel, NoiseOutput, NoiseRange,
    RadialDim, ScalarInput, Transform, Warp, WarpMode, Wave, WaveShape, EXTEND_LIMIT_BITS,
};
pub use names::NameMap;
pub use param::{ParamDecl, ParamKind, ParamUse, ParamValue};
pub use passes::{dispatch_kind, OutputChannel, Pass, Pipeline, Slice, Source, Target, Word};
pub use placement::{BakeError, MoveRequest, Placement, PointMap, SpherePlan};
pub use pool::{workgroup_counts, Pool, PoolChange};
pub use readback::{Image, ScalarFormat, ScalarImage};
pub use scalar::Scalar;
pub use scene::SceneShape;
pub use schedule::{
    schedule, schedule_layer, schedule_no_reuse, schedule_previews, OutputSlots, ScalarSlot,
    Schedule, ScheduleError,
};
pub use socket::{ConstValue, InputKey, InputSocket, SocketError, SocketValue};
pub use sphere::{cube_direction, CUBE_FACES};
pub use volume::VolumeJob;
