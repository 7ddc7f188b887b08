//! What each bake records, pass by pass: the texture for unconnected inputs,
//! every scheduled layer once and in order, and then what the bake is for.
//!
//! As in [`crate::layout`], the laws speak of finished passes by what a shader
//! finds in them.
use std::collections::HashMap;

use vstd::prelude::*;

use crate::bake::{
    channel_passes, face_bake, layer_passes, output_bake, preview_bake, preview_passes,
    scalar_bake, Setting,
};
use crate::domains::Domain;
use crate::eval::EvalCtx;
use crate::graph::{Graph, Output};
use crate::id::LayerId;
use crate::kind::{HeightToNormal, LayerKind, ScalarInput};
use crate::layout::{covers, pads, read_by, says, sized};
use crate::param::ParamValue;
use crate::passes::{layer_pass, OutputChannel, PassView, Slice, Source, Target, Word};
use crate::placement::Placement;
use crate::scalar::Scalar;
use crate::schedule::{slots_of_output, ScalarSlot, Schedule};
use crate::volume::{bump_of, slice_passes, VolumeJob};

verus! {

/// The pass fills the texture that stands in for unconnected inputs, at that
/// third coordinate.
pub open spec fn fills_missing(p: PassView, size: (u32, u32), w: Word) -> bool {
    &&& p.pipeline.shader()@ == "missing.wgsl"@
    &&& p.pipeline.target_binding() == Some(1u32)
    &&& p.target == Target::Missing
    &&& p.sources.len() == 0
    &&& p.uniform.len() == 4
    &&& sized(p.uniform, 0, size)
    &&& p.uniform[2] == w
    &&& pads(p.uniform, 3, 4)
}

/// The pass encodes a texture into 8 bits: the texture at binding 1 into the one
/// at binding 2, by that encoding, keeping partial alpha or laying it over a
/// checker, for that slice of a volume, over the rectangle of that layer.
pub open spec fn encodes(
    p: PassView,
    target: Target,
    source: Source,
    size: (u32, u32),
    encoding: int,
    keep_alpha: bool,
    z: u32,
    rects: Map<u64, Domain>,
    layer: Option<LayerId>,
) -> bool {
    let u = p.uniform;
    &&& p.pipeline.shader()@ == "pack_srgb8.wgsl"@
    &&& p.pipeline.source_count() == 1
    &&& p.pipeline.first_source_binding() == 1
    &&& p.pipeline.target_binding() == Some(2u32)
    &&& p.target == target
    &&& p.sources.len() == 1
    &&& p.sources[0] == source
    &&& u.len() == 16
    &&& sized(u, 0, size)
    &&& says(u, 2, encoding)
    &&& says(u, 3, if keep_alpha {
        1
    } else {
        0
    })
    &&& pads(u, 4, 8)
    &&& says(u, 8, z as int)
    &&& pads(u, 9, 12)
    &&& covers(u, 12, rects, layer)
}

/// The pass fills an 8-bit texture with one color.
pub open spec fn fills(
    p: PassView,
    target: Target,
    size: (u32, u32),
    red: Word,
    green: Word,
    blue: Word,
) -> bool {
    let u = p.uniform;
    &&& p.pipeline.shader()@ == "solid.wgsl"@
    &&& p.pipeline.target_binding() == Some(1u32)
    &&& p.target == target
    &&& p.sources.len() == 0
    &&& u.len() == 8
    &&& u[0] == red
    &&& u[1] == green
    &&& u[2] == blue
    &&& says(u, 3, 0x3f80_0000)
    &&& sized(u, 4, size)
    &&& pads(u, 6, 8)
}

/// The pass draws a layer's scalar, from binding 1.
pub open spec fn draws(
    p: PassView,
    target: Target,
    size: (u32, u32),
    sched: Schedule,
    layer: LayerId,
) -> bool {
    let u = p.uniform;
    &&& p.pipeline.shader()@ == "pack_scalar.wgsl"@
    &&& p.pipeline.source_count() == 1
    &&& p.pipeline.first_source_binding() == 1
    &&& p.pipeline.target_binding() is None
    &&& p.target == target
    &&& p.sources.len() == 1
    &&& p.sources[0] == Source::Slot(sched.slot_of@[layer.0])
    &&& u.len() == 8
    &&& sized(u, 0, size)
    &&& pads(u, 2, 4)
    &&& covers(u, 4, sched.domain_of@, Some(layer))
}

/// The pass encodes a scalar channel: a number as a gray, and a texture by the
/// encoding for grays.
pub open spec fn encodes_scalar(
    p: PassView,
    channel: OutputChannel,
    slot: ScalarSlot,
    socket: ScalarInput,
    sched: Schedule,
    size: (u32, u32),
    keep_alpha: bool,
    z: u32,
) -> bool {
    let target = Target::Channel(channel);
    match slot {
        ScalarSlot::Const(v) => {
            fills(p, target, size, Word::Srgb(v), Word::Srgb(v), Word::Srgb(v))
        },
        ScalarSlot::Slot(s) => encodes(
            p,
            target,
            Source::Slot(s),
            size,
            2,
            keep_alpha,
            z,
            sched.domain_of@,
            read_by(socket),
        ),
    }
}

/// The four passes from `k` on encode the channels of the output: the color, or
/// the stand-in where there is none; the roughness; the metallic; and the
/// normal, or the one that points straight out where there is none.
pub open spec fn encodes_output(
    passes: Seq<PassView>,
    k: int,
    output: Output,
    sched: Schedule,
    size: (u32, u32),
    keep_alpha: bool,
    z: u32,
) -> bool {
    let out = sched.output_slots;
    let rects = sched.domain_of@;
    let half = Word::Bits(0x3f00_0000);
    let one = Word::Bits(0x3f80_0000);
    let normal = Target::Channel(OutputChannel::Normal);
    &&& encodes(
        passes[k],
        Target::Channel(OutputChannel::Color),
        match out.color {
            Some(s) => Source::Slot(s),
            None => Source::Missing,
        },
        size,
        0,
        keep_alpha,
        z,
        rects,
        output.color,
    )
    &&& encodes_scalar(
        passes[k + 1],
        OutputChannel::Roughness,
        out.roughness,
        output.roughness,
        sched,
        size,
        keep_alpha,
        z,
    )
    &&& encodes_scalar(
        passes[k + 2],
        OutputChannel::Metallic,
        out.metallic,
        output.metallic,
        sched,
        size,
        keep_alpha,
        z,
    )
    &&& match out.normal {
        None => fills(passes[k + 3], normal, size, half, half, one),
        Some(s) => encodes(
            passes[k + 3],
            normal,
            Source::Slot(s),
            size,
            3,
            keep_alpha,
            z,
            rects,
            output.normal,
        ),
    }
}

/// The passes from the second on compute the scheduled layers, each once and in
/// order, on the plane at that third coordinate.
pub open spec fn computes_on_plane(
    passes: Seq<PassView>,
    graph: Graph,
    ctx: EvalCtx,
    sched: Schedule,
    size: (u32, u32),
    w: Word,
) -> bool {
    forall|i: int|
        #![trigger sched.order@[i]]
        0 <= i < sched.order@.len() ==> passes[1 + i] == layer_pass(
            graph.layer(sched.order@[i])->0,
            ctx,
            sched,
            size,
            Slice::Plane { w },
        )
}

/// A layer on the faces is computed at its moved point, and any other on the
/// plane of a flat bake.
pub open spec fn computes_on_face(
    passes: Seq<PassView>,
    graph: Graph,
    ctx: EvalCtx,
    sched: Schedule,
    size: (u32, u32),
    face: u32,
    placed: Map<u64, Placement>,
) -> bool {
    let flat = Slice::Plane { w: Word::Bits(0x3f00_0000) };
    forall|i: int|
        #![trigger sched.order@[i]]
        0 <= i < sched.order@.len() ==> passes[1 + i] == layer_pass(
            graph.layer(sched.order@[i])->0,
            ctx,
            sched,
            size,
            if placed.dom().contains(sched.order@[i].0) {
                match placed[sched.order@[i].0] {
                    Placement::Sphere(map) => Slice::CubeFace { face, map },
                    Placement::Plane => flat,
                }
            } else {
                flat
            },
        )
}

proof fn lemma_layers_in_order(
    graph: Graph,
    ctx: EvalCtx,
    sched: Schedule,
    size: (u32, u32),
    setting: Setting,
    ids: Seq<LayerId>,
    height: Option<LayerId>,
)
    requires
        height is None || !ids.contains(height->0),
    ensures
        ({
            let passes = layer_passes(graph, ctx, sched, size, setting, ids, height);
            &&& passes.len() == ids.len()
            &&& forall|i: int|
                #![trigger ids[i]]
                #![trigger passes[i]]
                0 <= i < ids.len() ==> passes[i] == layer_pass(
                    graph.layer(ids[i])->0,
                    ctx,
                    sched,
                    size,
                    setting.slice_spec(ids[i]),
                )
        }),
    decreases ids.len(),
{
    if ids.len() > 0 {
        let rest = ids.drop_last();
        if height is Some {
            assert(ids[ids.len() - 1] != height->0);
            assert(!rest.contains(height->0)) by {
                if rest.contains(height->0) {
                    let j = rest.index_of(height->0);
                    assert(ids[j] == height->0);
                }
            }
        }
        lemma_layers_in_order(graph, ctx, sched, size, setting, rest, height);
        let before = layer_passes(graph, ctx, sched, size, setting, rest, height);
        let passes = layer_passes(graph, ctx, sched, size, setting, ids, height);
        assert forall|i: int| 0 <= i < ids.len() implies #[trigger] passes[i] == layer_pass(
            graph.layer(ids[i])->0,
            ctx,
            sched,
            size,
            setting.slice_spec(ids[i]),
        ) by {
            if i < rest.len() {
                assert(rest[i] == ids[i]);
                assert(passes[i] == before[i]);
            }
        }
    }
}

proof fn lemma_layers_around_height(
    graph: Graph,
    ctx: EvalCtx,
    sched: Schedule,
    size: (u32, u32),
    setting: Setting,
    ids: Seq<LayerId>,
    h: int,
)
    requires
        ids.no_duplicates(),
        0 <= h < ids.len(),
    ensures
        ({
            let passes = layer_passes(graph, ctx, sched, size, setting, ids, Some(ids[h]));
            &&& passes.len() == ids.len() + 1
            &&& draws(passes[h + 1], Target::Height, size, sched, ids[h])
            &&& forall|i: int|
                #![trigger ids[i]]
                0 <= i < ids.len() ==> passes[if i <= h {
                    i
                } else {
                    i + 1
                }] == layer_pass(
                    graph.layer(ids[i])->0,
                    ctx,
                    sched,
                    size,
                    setting.slice_spec(ids[i]),
                )
        }),
    decreases ids.len(),
{
    let rest = ids.drop_last();
    let before = layer_passes(graph, ctx, sched, size, setting, rest, Some(ids[h]));
    let passes = layer_passes(graph, ctx, sched, size, setting, ids, Some(ids[h]));
    if h == ids.len() - 1 {
        assert(!rest.contains(ids[h])) by {
            if rest.contains(ids[h]) {
                let j = rest.index_of(ids[h]);
                assert(ids[j] == ids[h]);
            }
        }
        lemma_layers_in_order(graph, ctx, sched, size, setting, rest, Some(ids[h]));
        assert forall|i: int|
            #![trigger ids[i]]
            0 <= i < ids.len() implies passes[i] == layer_pass(
            graph.layer(ids[i])->0,
            ctx,
            sched,
            size,
            setting.slice_spec(ids[i]),
        ) by {
            if i < rest.len() {
                assert(rest[i] == ids[i]);
                assert(passes[i] == before[i]);
            }
        }
    } else {
        assert(rest[h] == ids[h]);
        lemma_layers_around_height(graph, ctx, sched, size, setting, rest, h);
        assert(ids[ids.len() - 1] != ids[h]);
        assert(passes[h + 1] == before[h + 1]);
        assert forall|i: int|
            #![trigger ids[i]]
            0 <= i < ids.len() implies passes[if i <= h {
            i
        } else {
            i + 1
        }] == layer_pass(
            graph.layer(ids[i])->0,
            ctx,
            sched,
            size,
            setting.slice_spec(ids[i]),
        ) by {
            if i < rest.len() {
                assert(rest[i] == ids[i]);
                let k = if i <= h { i } else { i + 1 };
                assert(passes[k] == before[k]);
            }
        }
    }
}

proof fn lemma_output_encoded(
    passes: Seq<PassView>,
    k: int,
    output: Output,
    sched: Schedule,
    size: (u32, u32),
    keep_alpha: bool,
    z: u32,
)
    requires
        0 <= k,
        passes.len() == k + 4,
        passes.skip(k) == channel_passes(output, sched, size, keep_alpha, z),
    ensures
        encodes_output(passes, k, output, sched, size, keep_alpha, z),
{
    let own = passes.skip(k);
    assert(own[0] == passes[k]);
    assert(own[1] == passes[k + 1]);
    assert(own[2] == passes[k + 2]);
    assert(own[3] == passes[k + 3]);
}

/// A flat bake of the output fills the stand-in, computes every scheduled layer
/// in order on the plane at a half, and encodes the four channels: five passes
/// more than there are layers.
pub proof fn law_output_bake_records(
    graph: Graph,
    ctx: EvalCtx,
    sched: Schedule,
    size: (u32, u32),
    object_alpha: bool,
)
    ensures
        ({
            let passes = output_bake(graph, ctx, sched, size, object_alpha);
            let n = sched.order@.len() as int;
            let half = Word::Bits(0x3f00_0000);
            &&& passes.len() == n + 5
            &&& fills_missing(passes[0], size, half)
            &&& computes_on_plane(passes, graph, ctx, sched, size, half)
            &&& encodes_output(passes, n + 1, graph.output, sched, size, object_alpha, 0)
        }),
{
    let passes = output_bake(graph, ctx, sched, size, object_alpha);
    let n = sched.order@.len() as int;
    let setting = Setting::Plane(Word::Bits(0x3f00_0000));
    let layers = layer_passes(graph, ctx, sched, size, setting, sched.order@, None);
    let last = channel_passes(graph.output, sched, size, object_alpha, 0);
    lemma_layers_in_order(graph, ctx, sched, size, setting, sched.order@, None);
    assert forall|i: int| 0 <= i < n implies passes[1 + i] == #[trigger] layers[i] by {}
    assert(passes.skip(n + 1) =~= last);
    lemma_output_encoded(passes, n + 1, graph.output, sched, size, object_alpha, 0);
}

/// A thumbnail is wanted of a layer where none are named, or it is among those.
pub open spec fn wanted_of(wanted: Option<Seq<LayerId>>) -> spec_fn(LayerId) -> bool {
    |id: LayerId| wanted is None || wanted->0.contains(id)
}

proof fn lemma_thumbnails(sched: Schedule, ids: Seq<LayerId>, wanted: Option<Seq<LayerId>>)
    ensures
        ({
            let passes = preview_passes(sched, ids, wanted);
            let shown = ids.filter(wanted_of(wanted));
            &&& passes.len() == shown.len()
            &&& forall|k: int|
                #![trigger shown[k]]
                #![trigger passes[k]]
                0 <= k < shown.len() ==> encodes(
                    passes[k],
                    Target::Preview(shown[k]),
                    Source::Slot(sched.slot_of@[shown[k].0]),
                    (128, 128),
                    0,
                    false,
                    0,
                    sched.domain_of@,
                    Some(shown[k]),
                )
        }),
    decreases ids.len(),
{
    reveal(Seq::filter);
    if ids.len() > 0 {
        lemma_thumbnails(sched, ids.drop_last(), wanted);
    }
}

/// A bake of thumbnails fills the stand-in, computes every scheduled layer in
/// order, and then encodes each wanted layer, in the order in which they were
/// computed, as a color over a checker, 128 texels square.
pub proof fn law_preview_bake_records(
    graph: Graph,
    ctx: EvalCtx,
    sched: Schedule,
    wanted: Option<Seq<LayerId>>,
)
    ensures
        ({
            let passes = preview_bake(graph, ctx, sched, wanted);
            let n = sched.order@.len() as int;
            let shown = sched.order@.filter(wanted_of(wanted));
            let half = Word::Bits(0x3f00_0000);
            &&& passes.len() == 1 + n + shown.len()
            &&& fills_missing(passes[0], (128, 128), half)
            &&& computes_on_plane(passes, graph, ctx, sched, (128, 128), half)
            &&& forall|k: int|
                #![trigger shown[k]]
                0 <= k < shown.len() ==> encodes(
                    passes[1 + n + k],
                    Target::Preview(shown[k]),
                    Source::Slot(sched.slot_of@[shown[k].0]),
                    (128, 128),
                    0,
                    false,
                    0,
                    sched.domain_of@,
                    Some(shown[k]),
                )
        }),
{
    let passes = preview_bake(graph, ctx, sched, wanted);
    let n = sched.order@.len() as int;
    let size = (128u32, 128u32);
    let setting = Setting::Plane(Word::Bits(0x3f00_0000));
    let layers = layer_passes(graph, ctx, sched, size, setting, sched.order@, None);
    let last = preview_passes(sched, sched.order@, wanted);
    lemma_layers_in_order(graph, ctx, sched, size, setting, sched.order@, None);
    lemma_thumbnails(sched, sched.order@, wanted);
    assert forall|i: int| 0 <= i < n implies passes[1 + i] == #[trigger] layers[i] by {}
    assert forall|k: int| 0 <= k < last.len() implies passes[1 + n + k] == #[trigger] last[k] by {}
}

/// A bake of a layer's scalar on a plane fills the stand-in, computes every
/// scheduled layer in order at that third coordinate, and draws the scalar.
pub proof fn law_scalar_bake_records_a_plane(
    graph: Graph,
    ctx: EvalCtx,
    sched: Schedule,
    layer: LayerId,
    size: (u32, u32),
    w: Word,
)
    ensures
        ({
            let passes = scalar_bake(graph, ctx, sched, layer, size, Setting::Plane(w));
            let n = sched.order@.len() as int;
            &&& passes.len() == n + 2
            &&& fills_missing(passes[0], size, w)
            &&& computes_on_plane(passes, graph, ctx, sched, size, w)
            &&& draws(passes[n + 1], Target::Scalar, size, sched, layer)
        }),
{
    let setting = Setting::Plane(w);
    let passes = scalar_bake(graph, ctx, sched, layer, size, setting);
    let n = sched.order@.len() as int;
    let layers = layer_passes(graph, ctx, sched, size, setting, sched.order@, None);
    lemma_layers_in_order(graph, ctx, sched, size, setting, sched.order@, None);
    assert forall|i: int| 0 <= i < n implies passes[1 + i] == #[trigger] layers[i] by {}
}

/// A bake of a layer's scalar on a face of the cube computes every scheduled
/// layer where it was placed, and draws the scalar.
pub proof fn law_scalar_bake_records_a_face(
    graph: Graph,
    ctx: EvalCtx,
    sched: Schedule,
    layer: LayerId,
    size: (u32, u32),
    face: u32,
    placed: &HashMap<u64, Placement>,
)
    ensures
        ({
            let setting = Setting::Face { face, placed };
            let passes = scalar_bake(graph, ctx, sched, layer, size, setting);
            let n = sched.order@.len() as int;
            &&& passes.len() == n + 2
            &&& fills_missing(passes[0], size, Word::Bits(0x3f00_0000))
            &&& computes_on_face(passes, graph, ctx, sched, size, face, placed@)
            &&& draws(passes[n + 1], Target::Scalar, size, sched, layer)
        }),
{
    let setting = Setting::Face { face, placed };
    let passes = scalar_bake(graph, ctx, sched, layer, size, setting);
    let n = sched.order@.len() as int;
    let layers = layer_passes(graph, ctx, sched, size, setting, sched.order@, None);
    lemma_layers_in_order(graph, ctx, sched, size, setting, sched.order@, None);
    assert forall|i: int| 0 <= i < n implies passes[1 + i] == #[trigger] layers[i] by {}
}

/// A bake of a layer's color on a face computes every scheduled layer where it
/// was placed, and encodes the layer as a color, alpha kept, over the unit square.
pub proof fn law_face_bake_records(
    graph: Graph,
    ctx: EvalCtx,
    sched: Schedule,
    root: LayerId,
    side: u32,
    face: u32,
    placed: &HashMap<u64, Placement>,
)
    ensures
        ({
            let passes = face_bake(graph, ctx, sched, root, side, face, placed);
            let n = sched.order@.len() as int;
            &&& passes.len() == n + 2
            &&& fills_missing(passes[0], (side, side), Word::Bits(0x3f00_0000))
            &&& computes_on_face(passes, graph, ctx, sched, (side, side), face, placed@)
            &&& encodes(
                passes[n + 1],
                Target::Channel(OutputChannel::Color),
                Source::Slot(sched.slot_of@[root.0]),
                (side, side),
                0,
                true,
                0,
                sched.domain_of@,
                None,
            )
        }),
{
    let setting = Setting::Face { face, placed };
    let size = (side, side);
    let passes = face_bake(graph, ctx, sched, root, side, face, placed);
    let n = sched.order@.len() as int;
    let layers = layer_passes(graph, ctx, sched, size, setting, sched.order@, None);
    lemma_layers_in_order(graph, ctx, sched, size, setting, sched.order@, None);
    assert forall|i: int| 0 <= i < n implies passes[1 + i] == #[trigger] layers[i] by {}
}

/// A slice of a volume fills the stand-in, computes every scheduled layer in
/// order at the center of the slice, and encodes the four channels with alpha
/// kept, for that slice.
pub proof fn law_volume_slice_records(job: VolumeJob, z: u32)
    requires
        bump_of(job.graph) is None,
    ensures
        ({
            let passes = slice_passes(job, z);
            let n = job.sched.order@.len() as int;
            let size = (job.res, job.res);
            let center = Word::SliceCenter { z, depth: job.depth };
            &&& passes.len() == n + 5
            &&& fills_missing(passes[0], size, center)
            &&& computes_on_plane(passes, job.graph, job.ctx, job.sched, size, center)
            &&& encodes_output(passes, n + 1, job.graph.output, job.sched, size, true, z)
        }),
{
    let passes = slice_passes(job, z);
    let (graph, ctx, sched) = (job.graph, job.ctx, job.sched);
    let n = sched.order@.len() as int;
    let size = (job.res, job.res);
    let setting = Setting::Plane(Word::SliceCenter { z, depth: job.depth });
    let layers = layer_passes(graph, ctx, sched, size, setting, sched.order@, None);
    let last = channel_passes(graph.output, sched, size, true, z);
    lemma_layers_in_order(graph, ctx, sched, size, setting, sched.order@, None);
    assert forall|i: int| 0 <= i < n implies passes[1 + i] == #[trigger] layers[i] by {}
    assert(passes.skip(n + 1) =~= last);
    lemma_output_encoded(passes, n + 1, graph.output, sched, size, true, z);
}

/// Where the output's normal is the normal map of a height, a slice of a volume
/// draws that height right after the layer that computes it, before another
/// layer can take its slot. The other passes are those of any slice.
pub proof fn law_volume_slice_draws_its_height(job: VolumeJob, z: u32, h: int)
    requires
        job.sched.order@.no_duplicates(),
        0 <= h < job.sched.order@.len(),
        bump_of(job.graph) is Some,
        (bump_of(job.graph)->0).0 == job.sched.order@[h],
    ensures
        ({
            let passes = slice_passes(job, z);
            let order = job.sched.order@;
            let n = order.len() as int;
            let size = (job.res, job.res);
            let center = Word::SliceCenter { z, depth: job.depth };
            &&& passes.len() == n + 6
            &&& fills_missing(passes[0], size, center)
            &&& draws(passes[h + 2], Target::Height, size, job.sched, order[h])
            &&& forall|i: int|
                #![trigger order[i]]
                0 <= i < n ==> passes[if i <= h {
                    i + 1
                } else {
                    i + 2
                }] == layer_pass(
                    job.graph.layer(order[i])->0,
                    job.ctx,
                    job.sched,
                    size,
                    Slice::Plane { w: center },
                )
            &&& encodes_output(passes, n + 2, job.graph.output, job.sched, size, true, z)
        }),
{
    let passes = slice_passes(job, z);
    let (graph, ctx, sched) = (job.graph, job.ctx, job.sched);
    let order = sched.order@;
    let n = order.len() as int;
    let size = (job.res, job.res);
    let setting = Setting::Plane(Word::SliceCenter { z, depth: job.depth });
    let layers = layer_passes(graph, ctx, sched, size, setting, order, Some(order[h]));
    let last = channel_passes(graph.output, sched, size, true, z);
    lemma_layers_around_height(graph, ctx, sched, size, setting, order, h);
    assert forall|i: int| 0 <= i < n + 1 implies passes[1 + i] == #[trigger] layers[i] by {}
    assert(passes[h + 2] == layers[h + 1]);
    assert forall|i: int|
        #![trigger order[i]]
        0 <= i < n implies passes[if i <= h {
        i + 1
    } else {
        i + 2
    }] == layer_pass(
        graph.layer(order[i])->0,
        ctx,
        sched,
        size,
        Slice::Plane { w: Word::SliceCenter { z, depth: job.depth } },
    ) by {
        let k = if i <= h { i } else { i + 1 };
        assert(passes[1 + k] == layers[k]);
    }
    assert(passes.skip(n + 2) =~= last);
    lemma_output_encoded(passes, n + 2, graph.output, sched, size, true, z);
}

/// The bump of a volume is the height behind its normal, and that normal map's
/// strength; without a connected normal map there is none.
pub proof fn law_bump_is_behind_the_normal(graph: Graph, source: LayerId, strength: Scalar)
    ensures
        bump_of(graph) == Some((source, strength)) <==> {
            &&& graph.output.normal is Some
            &&& graph.layer(graph.output.normal->0) is Some
            &&& (graph.layer(graph.output.normal->0)->0).kind == LayerKind::HeightToNormal(
                HeightToNormal { source: Some(source), strength },
            )
        },
{
}

/// Each channel of the output comes from where its socket reads: from the slot of
/// its layer, or from the number that the socket holds or is bound to. A channel
/// whose layer has no slot has none, and a scalar one reads 0.
pub proof fn law_output_slots_follow_the_sockets(
    output: Output,
    slots: Map<u64, u32>,
    bound: Map<Seq<char>, ParamValue>,
)
    ensures
        ({
            let out = slots_of_output(output, slots, bound);
            &&& comes_from(out.color, output.color, slots)
            &&& comes_from(out.normal, output.normal, slots)
            &&& scalar_comes_from(out.roughness, output.roughness, slots, bound)
            &&& scalar_comes_from(out.metallic, output.metallic, slots, bound)
        }),
{
}

/// The slot is that of the socket's layer, if it has one.
pub open spec fn comes_from(slot: Option<u32>, o: Option<LayerId>, slots: Map<u64, u32>) -> bool {
    if o is Some && slots.dom().contains((o->0).0) {
        slot == Some(slots[(o->0).0])
    } else {
        slot is None
    }
}

/// The scalar is that of the socket's layer, or the socket's number.
pub open spec fn scalar_comes_from(
    slot: ScalarSlot,
    socket: ScalarInput,
    slots: Map<u64, u32>,
    bound: Map<Seq<char>, ParamValue>,
) -> bool {
    let zero = Scalar { bits: 0 };
    slot == match socket {
        ScalarInput::Const(v) => ScalarSlot::Const(v),
        ScalarInput::Param(name) => if bound.dom().contains(name@) {
            match bound[name@] {
                ParamValue::Scalar(v) => ScalarSlot::Const(v),
                ParamValue::Color(_) => ScalarSlot::Const(zero),
            }
        } else {
            ScalarSlot::Const(zero)
        },
        ScalarInput::Layer(id) => if slots.dom().contains(id.0) {
            ScalarSlot::Slot(slots[id.0])
        } else {
            ScalarSlot::Const(zero)
        },
    }
}

} // verus!
