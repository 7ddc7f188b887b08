//! The passes of a bake, in order.
//!
//! Each function takes a schedule whose rectangles were found, and the context
//! resolved against the graph, and lists what is to be run. Running it is the
//! caller's.
use std::collections::HashMap;

use vstd::prelude::*;

use crate::domains::{unit_corners, Domain};
use crate::edit::{lemma_known_closed, lemma_layer_reads};
use crate::eval::EvalCtx;
use crate::graph::{has_layer, ids_are_known, ids_ascend, place_of, Graph, Output};
use crate::id::{raw_ids, LayerId};
use crate::kind::{stop_ids, LayerKind, ScalarInput};
use crate::param::ParamValue;
use crate::passes::{
    dispatch_kind, domain_of, first_reads, flag_code, flat_w, law_pass_reads_only_inputs,
    layer_pass, layer_sources, lemma_first_reads, push_rect, push_size, push_zeros, rect_of,
    rect_words, refusal, scalar_layer, size_words, slot_of, slots_known, zero_words, OutputChannel,
    Pass, PassView, Pipeline, Slice, Source, Target, Word,
};
use crate::placement::{BakeError, Placement};
use crate::scalar::{Scalar, HALF_BITS, ONE_BITS};
use crate::reach::{closed_under, lemma_closed_keeps, reached_from, reaches, reads};
use crate::schedule::{
    all_ids, can_plan, lemma_reach_set_closed, planned, preview_ids, previewed, OutputSlots,
    ScalarSlot, Schedule,
};
use crate::slots::{last_reader, last_use};

verus! {

/// The side of a thumbnail, in texels.
pub const PREVIEW_SIDE: u32 = 128;

/// The passes by their contents.
pub open spec fn passes_view(passes: Seq<Pass>) -> Seq<PassView> {
    passes.map_values(|p: Pass| p@)
}

/// Where the layers of one set of passes lie.
#[derive(Clone, Copy, Debug)]
pub enum Setting<'a> {
    /// All on a plane at that third coordinate.
    Plane(Word),
    /// On a face of the cube or on the plane of a flat bake, as placed.
    Face { face: u32, placed: &'a HashMap<u64, Placement> },
}

impl<'a> Setting<'a> {
    /// Where a layer lies. One that was not placed lies on the plane.
    pub open spec fn slice_spec(self, id: LayerId) -> Slice {
        match self {
            Setting::Plane(w) => Slice::Plane { w },
            Setting::Face { face, placed } => if placed@.dom().contains(id.0) {
                match placed@[id.0] {
                    Placement::Sphere(map) => Slice::CubeFace { face, map },
                    Placement::Plane => Slice::Plane { w: flat_w() },
                }
            } else {
                Slice::Plane { w: flat_w() }
            },
        }
    }

    /// Where a layer lies.
    pub fn slice(self, id: LayerId) -> (r: Slice)
        ensures
            r == self.slice_spec(id),
    {
        match self {
            Setting::Plane(w) => Slice::Plane { w },
            Setting::Face { face, placed } => match placed.get(&id.0) {
                Some(Placement::Sphere(map)) => Slice::CubeFace { face, map: *map },
                _ => Slice::Plane { w: flat_w() },
            },
        }
    }

    /// The third coordinate of the texture for unconnected inputs.
    #[verifier::allow_in_spec]
    pub fn w(self) -> Word
        returns
            (match self {
                Setting::Plane(w) => w,
                Setting::Face { .. } => flat_w(),
            }),
    {
        match self {
            Setting::Plane(w) => w,
            Setting::Face { .. } => flat_w(),
        }
    }

    /// The face's number has a successor.
    pub open spec fn face_in_range(self) -> bool {
        self matches Setting::Face { face, .. } ==> face < u32::MAX
    }
}

/// Fills the texture for unconnected inputs.
pub open spec fn missing_pass(size: (u32, u32), w: Word) -> PassView {
    PassView {
        pipeline: Pipeline::Missing,
        target: Target::Missing,
        sources: Seq::empty(),
        uniform: size_words(size) + seq![w] + zero_words(1),
        stops: Seq::empty(),
    }
}

fn dispatch_missing(size: (u32, u32), w: Word) -> (r: Pass)
    ensures
        r@ == missing_pass(size, w),
{
    let mut uniform: Vec<Word> = Vec::new();
    push_size(&mut uniform, size);
    uniform.push(w);
    push_zeros(&mut uniform, 1);
    let sources: Vec<Source> = Vec::new();
    let stops: Vec<Word> = Vec::new();
    assert(uniform@ =~= size_words(size) + seq![w] + zero_words(1));
    Pass { pipeline: Pipeline::Missing, target: Target::Missing, sources, uniform, stops }
}

/// How a texture is encoded into 8 bits.
#[derive(Clone, Copy, Debug, PartialEq, Eq, Structural)]
pub enum PackMode {
    /// As a color.
    Color,
    /// Its scalar, as a gray.
    Gray,
    /// As a normal.
    Normal,
}

/// The number of an encoding. There is no encoding 1.
#[verifier::allow_in_spec]
pub fn pack_mode_code(m: PackMode) -> u32
    returns
        (match m {
            PackMode::Color => 0u32,
            PackMode::Gray => 2u32,
            PackMode::Normal => 3u32,
        }),
{
    match m {
        PackMode::Color => 0,
        PackMode::Gray => 2,
        PackMode::Normal => 3,
    }
}

/// How a pass encodes its source: the encoding, whether partial alpha is kept
/// rather than laid over a checker, and the slice in texels.
#[derive(Clone, Copy, Debug)]
pub struct Packing {
    pub mode: PackMode,
    pub keep_alpha: bool,
    pub z: u32,
}

/// Encodes a source into 8 bits.
pub open spec fn pack_pass(
    source: Source,
    target: Target,
    size: (u32, u32),
    packing: Packing,
    rect: Seq<Scalar>,
) -> PassView {
    PassView {
        pipeline: Pipeline::Pack,
        target,
        sources: seq![source],
        uniform: size_words(size) + seq![
            Word::Bits(pack_mode_code(packing.mode)),
            Word::Bits(flag_code(packing.keep_alpha)),
        ] + zero_words(4) + seq![Word::Bits(packing.z)] + zero_words(3) + rect_words(rect),
        stops: Seq::empty(),
    }
}

fn dispatch_pack(
    source: Source,
    target: Target,
    size: (u32, u32),
    packing: Packing,
    dom: Domain,
) -> (r: Pass)
    ensures
        r@ == pack_pass(source, target, size, packing, dom.corners()),
{
    let mut sources: Vec<Source> = Vec::new();
    sources.push(source);
    let mut uniform: Vec<Word> = Vec::new();
    push_size(&mut uniform, size);
    uniform.push(Word::Bits(pack_mode_code(packing.mode)));
    uniform.push(Word::Bits(flag_code(packing.keep_alpha)));
    push_zeros(&mut uniform, 4);
    uniform.push(Word::Bits(packing.z));
    push_zeros(&mut uniform, 3);
    push_rect(&mut uniform, dom);
    let stops: Vec<Word> = Vec::new();
    let r = Pass { pipeline: Pipeline::Pack, target, sources, uniform, stops };
    proof {
        let want = pack_pass(source, target, size, packing, dom.corners());
        assert(r@.uniform =~= want.uniform);
        assert(r@.sources =~= want.sources);
    }
    r
}

/// Fills an 8-bit texture with one color.
pub open spec fn solid_pass(target: Target, size: (u32, u32), color: Seq<Word>) -> PassView {
    PassView {
        pipeline: Pipeline::Solid,
        target,
        sources: Seq::empty(),
        uniform: color + size_words(size) + zero_words(2),
        stops: Seq::empty(),
    }
}

fn dispatch_solid(target: Target, size: (u32, u32), color: [Word; 4]) -> (r: Pass)
    ensures
        r@ == solid_pass(target, size, color@),
{
    let mut uniform: Vec<Word> = Vec::new();
    uniform.push(color[0]);
    uniform.push(color[1]);
    uniform.push(color[2]);
    uniform.push(color[3]);
    push_size(&mut uniform, size);
    push_zeros(&mut uniform, 2);
    let sources: Vec<Source> = Vec::new();
    let stops: Vec<Word> = Vec::new();
    assert(uniform@ =~= color@ + size_words(size) + zero_words(2));
    Pass { pipeline: Pipeline::Solid, target, sources, uniform, stops }
}

/// Encodes a slot's scalar into one channel.
pub open spec fn scalar_pass(
    slot: u32,
    target: Target,
    size: (u32, u32),
    rect: Seq<Scalar>,
) -> PassView {
    PassView {
        pipeline: Pipeline::PackScalar,
        target,
        sources: seq![Source::Slot(slot)],
        uniform: size_words(size) + zero_words(2) + rect_words(rect),
        stops: Seq::empty(),
    }
}

fn draw_scalar_pack(slot: u32, target: Target, size: (u32, u32), dom: Domain) -> (r: Pass)
    ensures
        r@ == scalar_pass(slot, target, size, dom.corners()),
{
    let mut sources: Vec<Source> = Vec::new();
    sources.push(Source::Slot(slot));
    let mut uniform: Vec<Word> = Vec::new();
    push_size(&mut uniform, size);
    push_zeros(&mut uniform, 2);
    push_rect(&mut uniform, dom);
    let stops: Vec<Word> = Vec::new();
    let r = Pass { pipeline: Pipeline::PackScalar, target, sources, uniform, stops };
    proof {
        let want = scalar_pass(slot, target, size, dom.corners());
        assert(r@.uniform =~= want.uniform);
        assert(r@.sources =~= want.sources);
    }
    r
}

/// The gray of a constant scalar channel.
pub open spec fn gray_words(v: Scalar) -> Seq<Word> {
    seq![Word::Srgb(v), Word::Srgb(v), Word::Srgb(v), Word::Bits(ONE_BITS)]
}

/// The normal that points straight out, encoded.
pub open spec fn flat_normal_words() -> Seq<Word> {
    seq![
        Word::Bits(HALF_BITS),
        Word::Bits(HALF_BITS),
        Word::Bits(ONE_BITS),
        Word::Bits(ONE_BITS),
    ]
}

/// The layer behind a channel of the output.
pub open spec fn channel_layer(output: Output, channel: OutputChannel) -> Option<LayerId> {
    match channel {
        OutputChannel::Color => output.color,
        OutputChannel::Roughness => scalar_layer(output.roughness),
        OutputChannel::Metallic => scalar_layer(output.metallic),
        OutputChannel::Normal => output.normal,
    }
}

/// Encodes a scalar channel: a constant fills, a slot is packed as a gray.
pub open spec fn scalar_channel_pass(
    slot: ScalarSlot,
    channel: OutputChannel,
    size: (u32, u32),
    keep_alpha: bool,
    z: u32,
    rect: Seq<Scalar>,
) -> PassView {
    match slot {
        ScalarSlot::Const(v) => solid_pass(Target::Channel(channel), size, gray_words(v)),
        ScalarSlot::Slot(s) => pack_pass(
            Source::Slot(s),
            Target::Channel(channel),
            size,
            (Packing { mode: PackMode::Gray, keep_alpha, z }),
            rect,
        ),
    }
}

/// Encodes one channel of the output.
pub open spec fn channel_pass(
    channel: OutputChannel,
    out: OutputSlots,
    size: (u32, u32),
    keep_alpha: bool,
    z: u32,
    rect: Seq<Scalar>,
) -> PassView {
    match channel {
        OutputChannel::Color => pack_pass(
            match out.color {
                Some(s) => Source::Slot(s),
                None => Source::Missing,
            },
            Target::Channel(channel),
            size,
            (Packing { mode: PackMode::Color, keep_alpha, z }),
            rect,
        ),
        OutputChannel::Roughness => scalar_channel_pass(
            out.roughness,
            channel,
            size,
            keep_alpha,
            z,
            rect,
        ),
        OutputChannel::Metallic => scalar_channel_pass(
            out.metallic,
            channel,
            size,
            keep_alpha,
            z,
            rect,
        ),
        OutputChannel::Normal => match out.normal {
            None => solid_pass(Target::Channel(channel), size, flat_normal_words()),
            Some(s) => pack_pass(
                Source::Slot(s),
                Target::Channel(channel),
                size,
                (Packing { mode: PackMode::Normal, keep_alpha, z }),
                rect,
            ),
        },
    }
}

fn pack_scalar_channel(
    slot: ScalarSlot,
    channel: OutputChannel,
    size: (u32, u32),
    keep_alpha: bool,
    z: u32,
    dom: Domain,
) -> (r: Pass)
    ensures
        r@ == scalar_channel_pass(slot, channel, size, keep_alpha, z, dom.corners()),
{
    let target = Target::Channel(channel);
    match slot {
        ScalarSlot::Const(v) => {
            let gray = [Word::Srgb(v), Word::Srgb(v), Word::Srgb(v), Word::Bits(ONE_BITS)];
            assert(gray@ =~= gray_words(v));
            dispatch_solid(target, size, gray)
        },
        ScalarSlot::Slot(s) => {
            let packing = Packing { mode: PackMode::Gray, keep_alpha, z };
            dispatch_pack(Source::Slot(s), target, size, packing, dom)
        },
    }
}

fn pack_channel(
    channel: OutputChannel,
    out: OutputSlots,
    size: (u32, u32),
    keep_alpha: bool,
    z: u32,
    dom: Domain,
) -> (r: Pass)
    ensures
        r@ == channel_pass(channel, out, size, keep_alpha, z, dom.corners()),
{
    let target = Target::Channel(channel);
    match channel {
        OutputChannel::Color => {
            let source = match out.color {
                Some(s) => Source::Slot(s),
                None => Source::Missing,
            };
            let packing = Packing { mode: PackMode::Color, keep_alpha, z };
            dispatch_pack(source, target, size, packing, dom)
        },
        OutputChannel::Roughness => {
            pack_scalar_channel(out.roughness, channel, size, keep_alpha, z, dom)
        },
        OutputChannel::Metallic => {
            pack_scalar_channel(out.metallic, channel, size, keep_alpha, z, dom)
        },
        OutputChannel::Normal => match out.normal {
            None => {
                let flat = [
                    Word::Bits(HALF_BITS),
                    Word::Bits(HALF_BITS),
                    Word::Bits(ONE_BITS),
                    Word::Bits(ONE_BITS),
                ];
                assert(flat@ =~= flat_normal_words());
                dispatch_solid(target, size, flat)
            },
            Some(s) => {
                let packing = Packing { mode: PackMode::Normal, keep_alpha, z };
                dispatch_pack(Source::Slot(s), target, size, packing, dom)
            },
        },
    }
}

fn find_channel_layer(output: &Output, channel: OutputChannel) -> (r: Option<LayerId>)
    ensures
        r == channel_layer(*output, channel),
{
    match channel {
        OutputChannel::Color => output.color,
        OutputChannel::Roughness => match &output.roughness {
            ScalarInput::Layer(id) => Some(*id),
            _ => None,
        },
        OutputChannel::Metallic => match &output.metallic {
            ScalarInput::Layer(id) => Some(*id),
            _ => None,
        },
        OutputChannel::Normal => output.normal,
    }
}

/// The channels of the output, in the order in which they are packed.
pub open spec fn channels() -> Seq<OutputChannel> {
    seq![
        OutputChannel::Color,
        OutputChannel::Roughness,
        OutputChannel::Metallic,
        OutputChannel::Normal,
    ]
}

/// Encodes the four channels of the output.
pub open spec fn channel_passes(
    output: Output,
    sched: Schedule,
    size: (u32, u32),
    keep_alpha: bool,
    z: u32,
) -> Seq<PassView> {
    channels().map_values(
        |c: OutputChannel|
            channel_pass(
                c,
                sched.output_slots,
                size,
                keep_alpha,
                z,
                rect_of(sched.domain_of@, channel_layer(output, c)),
            ),
    )
}

pub(crate) fn push_channels(
    out: &mut Vec<Pass>,
    output: &Output,
    sched: &Schedule,
    size: (u32, u32),
    keep_alpha: bool,
    z: u32,
)
    ensures
        passes_view(final(out)@) == passes_view(old(out)@) + channel_passes(
            *output,
            *sched,
            size,
            keep_alpha,
            z,
        ),
{
    let all = [
        OutputChannel::Color,
        OutputChannel::Roughness,
        OutputChannel::Metallic,
        OutputChannel::Normal,
    ];
    assert(all@ =~= channels());
    let ghost want = channel_passes(*output, *sched, size, keep_alpha, z);
    let mut i: usize = 0;
    assert(passes_view(out@) =~= passes_view(old(out)@) + want.take(0));
    while i < 4
        invariant
            i <= 4,
            all@ == channels(),
            want == channel_passes(*output, *sched, size, keep_alpha, z),
            passes_view(out@) == passes_view(old(out)@) + want.take(i as int),
        decreases 4 - i,
    {
        let ghost before = out@;
        let dom = domain_of(sched, find_channel_layer(output, all[i]));
        let pass = pack_channel(all[i], sched.output_slots, size, keep_alpha, z, dom);
        out.push(pass);
        assert(passes_view(out@) =~= passes_view(before).push(pass@));
        assert(want.take(i + 1) =~= want.take(i as int).push(want[i as int]));
        assert(pass@ == want[i as int]);
        i += 1;
    }
    assert(want.take(4) =~= want);
}

/// Every scheduled layer exists, and it and what it reads have slots.
pub open spec fn recordable(graph: Graph, sched: Schedule) -> bool {
    forall|i: int|
        0 <= i < sched.order@.len() ==> {
            &&& has_layer(graph.layers@, (#[trigger] sched.order@[i]).0)
            &&& slots_known(graph.layer(sched.order@[i])->0, sched.slot_of@)
        }
}

/// True where every scheduled layer exists, and it and what it reads have slots.
/// The schedule of a layer or of an output always is so; one of previews is,
/// unless a layer reads one that the graph lacks.
pub fn can_be_recorded(graph: &Graph, sched: &Schedule) -> (r: bool)
    requires
        ids_ascend(graph.layers@),
    ensures
        r == recordable(*graph, *sched),
{
    let mut i: usize = 0;
    while i < sched.order.len()
        invariant
            i <= sched.order@.len(),
            ids_ascend(graph.layers@),
            forall|j: int|
                0 <= j < i ==> {
                    &&& has_layer(graph.layers@, (#[trigger] sched.order@[j]).0)
                    &&& slots_known(graph.layer(sched.order@[j])->0, sched.slot_of@)
                },
        decreases sched.order@.len() - i,
    {
        let ghost id = sched.order@[i as int];
        let layer = match graph.get(sched.order[i]) {
            Some(layer) => layer,
            None => {
                assert(!has_layer(graph.layers@, id.0));
                return false;
            },
        };
        assert(graph.layer(id)->0 == *layer);
        if !sched.slot_of.contains_key(&layer.id.0) {
            assert(!slots_known(graph.layer(id)->0, sched.slot_of@));
            return false;
        }
        let inputs = layer.kind.inputs();
        let mut k: usize = 0;
        while k < inputs.len()
            invariant
                k <= inputs@.len(),
                i < sched.order@.len(),
                id == sched.order@[i as int],
                graph.layer(id) == Some(*layer),
                inputs@ == layer.kind.input_ids(),
                forall|j: int|
                    0 <= j < k ==> sched.slot_of@.dom().contains((#[trigger] inputs@[j]).0),
            decreases inputs@.len() - k,
        {
            if !sched.slot_of.contains_key(&inputs[k].0) {
                assert(!slots_known(graph.layer(id)->0, sched.slot_of@));
                return false;
            }
            k += 1;
        }
        i += 1;
    }
    true
}

/// Why the first of the layers that has no pass has none.
pub open spec fn first_refusal(graph: Graph, ids: Seq<LayerId>) -> Option<&'static str>
    decreases ids.len(),
{
    if ids.len() == 0 {
        None
    } else {
        match first_refusal(graph, ids.drop_last()) {
            Some(why) => Some(why),
            None => refusal((graph.layer(ids.last())->0).kind),
        }
    }
}

/// A refusal stands whatever follows.
proof fn lemma_refusal_stands(graph: Graph, ids: Seq<LayerId>, n: int)
    requires
        0 <= n <= ids.len(),
        first_refusal(graph, ids.take(n)) is Some,
    ensures
        first_refusal(graph, ids) == first_refusal(graph, ids.take(n)),
    decreases ids.len(),
{
    if n == ids.len() {
        assert(ids.take(n) =~= ids);
    } else {
        assert(ids.drop_last().take(n) =~= ids.take(n));
        lemma_refusal_stands(graph, ids.drop_last(), n);
    }
}

/// Encodes a layer's scalar into a volume's height.
pub open spec fn height_pass(id: LayerId, sched: Schedule, size: (u32, u32)) -> PassView {
    scalar_pass(sched.slot_of@[id.0], Target::Height, size, rect_of(sched.domain_of@, Some(id)))
}

/// Computes the layers in turn. Right after `height` its scalar is encoded: a
/// later layer may take over its slot.
pub open spec fn layer_passes(
    graph: Graph,
    ctx: EvalCtx,
    sched: Schedule,
    size: (u32, u32),
    setting: Setting,
    ids: Seq<LayerId>,
    height: Option<LayerId>,
) -> Seq<PassView>
    decreases ids.len(),
{
    if ids.len() == 0 {
        Seq::empty()
    } else {
        let id = ids.last();
        let before = layer_passes(graph, ctx, sched, size, setting, ids.drop_last(), height);
        let own = layer_pass(graph.layer(id)->0, ctx, sched, size, setting.slice_spec(id));
        if height == Some(id) {
            before.push(own).push(height_pass(id, sched, size))
        } else {
            before.push(own)
        }
    }
}

/// The texture for unconnected inputs, then the layers.
pub open spec fn started(
    graph: Graph,
    ctx: EvalCtx,
    sched: Schedule,
    size: (u32, u32),
    setting: Setting,
    height: Option<LayerId>,
) -> Seq<PassView> {
    seq![missing_pass(size, setting.w())] + layer_passes(
        graph,
        ctx,
        sched,
        size,
        setting,
        sched.order@,
        height,
    )
}

/// The passes that every bake starts with: the texture for unconnected inputs,
/// then every scheduled layer, each at its own slice.
pub(crate) fn record_layers(
    graph: &Graph,
    ctx: &EvalCtx,
    sched: &Schedule,
    size: (u32, u32),
    setting: Setting,
    height: Option<LayerId>,
) -> (r: Result<Vec<Pass>, BakeError>)
    requires
        ids_ascend(graph.layers@),
        recordable(*graph, *sched),
        setting.face_in_range(),
    ensures
        match first_refusal(*graph, sched.order@) {
            Some(why) => r == Err::<Vec<Pass>, BakeError>(BakeError::Unsupported(why)),
            None => r is Ok && passes_view(r->Ok_0@) == started(
                *graph,
                *ctx,
                *sched,
                size,
                setting,
                height,
            ),
        },
{
    let mut out: Vec<Pass> = Vec::new();
    out.push(dispatch_missing(size, setting.w()));
    let ghost first = seq![missing_pass(size, setting.w())];
    assert(passes_view(out@) =~= first);
    let ghost ids = sched.order@;
    let mut i: usize = 0;
    assert(first + layer_passes(*graph, *ctx, *sched, size, setting, ids.take(0), height)
        =~= first);
    while i < sched.order.len()
        invariant
            i <= sched.order@.len(),
            ids == sched.order@,
            ids_ascend(graph.layers@),
            recordable(*graph, *sched),
            setting.face_in_range(),
            first_refusal(*graph, ids.take(i as int)) is None,
            passes_view(out@) == first + layer_passes(
                *graph,
                *ctx,
                *sched,
                size,
                setting,
                ids.take(i as int),
                height,
            ),
        decreases sched.order@.len() - i,
    {
        let id = sched.order[i];
        let layer = graph.get(id).unwrap();
        let ghost before = out@;
        assert(ids.take(i + 1).drop_last() =~= ids.take(i as int));
        assert(ids.take(i + 1).last() == id);
        match dispatch_kind(layer, ctx, sched, size, setting.slice(id)) {
            Ok(pass) => {
                out.push(pass);
                assert(passes_view(out@) =~= passes_view(before).push(pass@));
            },
            Err(e) => {
                proof {
                    lemma_refusal_stands(*graph, ids, i + 1);
                }
                return Err(e);
            },
        }
        if let Some(source) = height {
            if source.0 == id.0 {
                let ghost middle = out@;
                let dom = domain_of(sched, Some(id));
                let pass = draw_scalar_pack(slot_of(sched, id), Target::Height, size, dom);
                out.push(pass);
                assert(passes_view(out@) =~= passes_view(middle).push(pass@));
            }
        }
        assert(passes_view(out@) =~= first + layer_passes(
            *graph,
            *ctx,
            *sched,
            size,
            setting,
            ids.take(i + 1),
            height,
        ));
        i += 1;
    }
    assert(ids.take(i as int) =~= ids);
    Ok(out)
}

/// The passes of a flat bake of the output.
pub open spec fn output_bake(
    graph: Graph,
    ctx: EvalCtx,
    sched: Schedule,
    size: (u32, u32),
    object_alpha: bool,
) -> Seq<PassView> {
    started(graph, ctx, sched, size, Setting::Plane(flat_w()), None) + channel_passes(
        graph.output,
        sched,
        size,
        object_alpha,
        0,
    )
}

/// A flat bake of the output. Partial alpha is laid over a gray checker, for
/// flat previews, unless `object_alpha` keeps it.
pub fn bake_output(
    graph: &Graph,
    ctx: &EvalCtx,
    sched: &Schedule,
    size: (u32, u32),
    object_alpha: bool,
) -> (r: Result<Vec<Pass>, BakeError>)
    requires
        ids_ascend(graph.layers@),
        recordable(*graph, *sched),
    ensures
        match first_refusal(*graph, sched.order@) {
            Some(why) => r == Err::<Vec<Pass>, BakeError>(BakeError::Unsupported(why)),
            None => r is Ok && passes_view(r->Ok_0@) == output_bake(
                *graph,
                *ctx,
                *sched,
                size,
                object_alpha,
            ),
        },
{
    match record_layers(graph, ctx, sched, size, Setting::Plane(flat_w()), None) {
        Ok(mut out) => {
            push_channels(&mut out, &graph.output, sched, size, object_alpha, 0);
            Ok(out)
        },
        Err(e) => Err(e),
    }
}

/// Encodes the thumbnails of the wanted ones of the layers, or of all.
pub open spec fn preview_passes(
    sched: Schedule,
    ids: Seq<LayerId>,
    wanted: Option<Seq<LayerId>>,
) -> Seq<PassView>
    decreases ids.len(),
{
    if ids.len() == 0 {
        Seq::empty()
    } else {
        let id = ids.last();
        let before = preview_passes(sched, ids.drop_last(), wanted);
        if wanted is None || wanted->0.contains(id) {
            before.push(
                pack_pass(
                    Source::Slot(sched.slot_of@[id.0]),
                    Target::Preview(id),
                    (PREVIEW_SIDE, PREVIEW_SIDE),
                    (Packing { mode: PackMode::Color, keep_alpha: false, z: 0 }),
                    rect_of(sched.domain_of@, Some(id)),
                ),
            )
        } else {
            before
        }
    }
}

fn is_wanted(wanted: Option<&Vec<LayerId>>, id: LayerId) -> (r: bool)
    ensures
        r == (wanted is None || wanted->0@.contains(id)),
{
    match wanted {
        None => true,
        Some(ids) => {
            let mut i: usize = 0;
            while i < ids.len()
                invariant
                    i <= ids@.len(),
                    wanted == Some(ids),
                    forall|j: int| 0 <= j < i ==> ids@[j] != id,
                decreases ids@.len() - i,
            {
                if ids[i].0 == id.0 {
                    assert(ids@[i as int] == id);
                    return true;
                }
                i += 1;
            }
            false
        },
    }
}

/// The passes of a bake of thumbnails.
pub open spec fn preview_bake(
    graph: Graph,
    ctx: EvalCtx,
    sched: Schedule,
    wanted: Option<Seq<LayerId>>,
) -> Seq<PassView> {
    let size = (PREVIEW_SIDE, PREVIEW_SIDE);
    started(graph, ctx, sched, size, Setting::Plane(flat_w()), None) + preview_passes(
        sched,
        sched.order@,
        wanted,
    )
}

/// The thumbnails of the wanted layers, or of every scheduled one. They show
/// the unit square even where a layer covers more.
pub fn bake_previews(
    graph: &Graph,
    ctx: &EvalCtx,
    sched: &Schedule,
    wanted: Option<&Vec<LayerId>>,
) -> (r: Result<Vec<Pass>, BakeError>)
    requires
        ids_ascend(graph.layers@),
        recordable(*graph, *sched),
    ensures
        ({
            let want: Option<Seq<LayerId>> = match wanted {
                Some(w) => Some(w@),
                None => None,
            };
            match first_refusal(*graph, sched.order@) {
                Some(why) => r == Err::<Vec<Pass>, BakeError>(BakeError::Unsupported(why)),
                None => r is Ok && passes_view(r->Ok_0@) == preview_bake(
                    *graph,
                    *ctx,
                    *sched,
                    want,
                ),
            }
        }),
{
    let size = (PREVIEW_SIDE, PREVIEW_SIDE);
    let mut out = match record_layers(graph, ctx, sched, size, Setting::Plane(flat_w()), None) {
        Ok(out) => out,
        Err(e) => {
            return Err(e);
        },
    };
    let ghost want: Option<Seq<LayerId>> = match wanted {
        Some(w) => Some(w@),
        None => None,
    };
    let ghost ids = sched.order@;
    let ghost first = passes_view(out@);
    let mut i: usize = 0;
    assert(first + preview_passes(*sched, ids.take(0), want) =~= first);
    while i < sched.order.len()
        invariant
            i <= sched.order@.len(),
            ids == sched.order@,
            recordable(*graph, *sched),
            size == (PREVIEW_SIDE, PREVIEW_SIDE),
            want == (match wanted {
                Some(w) => Some(w@),
                None => None,
            }),
            passes_view(out@) == first + preview_passes(*sched, ids.take(i as int), want),
        decreases sched.order@.len() - i,
    {
        let id = sched.order[i];
        let ghost before = out@;
        assert(ids.take(i + 1).drop_last() =~= ids.take(i as int));
        assert(ids.take(i + 1).last() == id);
        assert(graph.layer(id) is Some && (graph.layer(id)->0).id == id);
        if is_wanted(wanted, id) {
            let packing = Packing { mode: PackMode::Color, keep_alpha: false, z: 0 };
            let source = Source::Slot(slot_of(sched, id));
            let dom = domain_of(sched, Some(id));
            let pass = dispatch_pack(source, Target::Preview(id), size, packing, dom);
            out.push(pass);
            assert(passes_view(out@) =~= passes_view(before).push(pass@));
        }
        assert(passes_view(out@) =~= first + preview_passes(*sched, ids.take(i + 1), want));
        i += 1;
    }
    assert(ids.take(i as int) =~= ids);
    Ok(out)
}

/// The passes of one slice of a bake of a layer's scalar.
pub open spec fn scalar_bake(
    graph: Graph,
    ctx: EvalCtx,
    sched: Schedule,
    layer: LayerId,
    size: (u32, u32),
    setting: Setting,
) -> Seq<PassView> {
    started(graph, ctx, sched, size, setting, None).push(
        scalar_pass(
            sched.slot_of@[layer.0],
            Target::Scalar,
            size,
            rect_of(sched.domain_of@, Some(layer)),
        ),
    )
}

/// One slice of a bake of a layer's scalar.
pub fn bake_scalar_slice(
    graph: &Graph,
    ctx: &EvalCtx,
    sched: &Schedule,
    layer: LayerId,
    size: (u32, u32),
    setting: Setting,
) -> (r: Result<Vec<Pass>, BakeError>)
    requires
        ids_ascend(graph.layers@),
        recordable(*graph, *sched),
        sched.slot_of@.dom().contains(layer.0),
        setting.face_in_range(),
    ensures
        match first_refusal(*graph, sched.order@) {
            Some(why) => r == Err::<Vec<Pass>, BakeError>(BakeError::Unsupported(why)),
            None => r is Ok && passes_view(r->Ok_0@) == scalar_bake(
                *graph,
                *ctx,
                *sched,
                layer,
                size,
                setting,
            ),
        },
{
    match record_layers(graph, ctx, sched, size, setting, None) {
        Ok(mut out) => {
            let ghost before = out@;
            let dom = domain_of(sched, Some(layer));
            let pass = draw_scalar_pack(slot_of(sched, layer), Target::Scalar, size, dom);
            out.push(pass);
            assert(passes_view(out@) =~= passes_view(before).push(pass@));
            Ok(out)
        },
        Err(e) => Err(e),
    }
}

/// The passes of one face of a bake of a layer's color on the sphere.
pub open spec fn face_bake(
    graph: Graph,
    ctx: EvalCtx,
    sched: Schedule,
    root: LayerId,
    side: u32,
    face: u32,
    placed: &HashMap<u64, Placement>,
) -> Seq<PassView> {
    started(graph, ctx, sched, (side, side), (Setting::Face { face, placed }), None).push(
        pack_pass(
            Source::Slot(sched.slot_of@[root.0]),
            Target::Channel(OutputChannel::Color),
            (side, side),
            (Packing { mode: PackMode::Color, keep_alpha: true, z: 0 }),
            unit_corners(),
        ),
    )
}

/// One face of a bake of a layer's color on the sphere, alpha kept.
pub fn bake_color_face(
    graph: &Graph,
    ctx: &EvalCtx,
    sched: &Schedule,
    root: LayerId,
    side: u32,
    face: u32,
    placed: &HashMap<u64, Placement>,
) -> (r: Result<Vec<Pass>, BakeError>)
    requires
        ids_ascend(graph.layers@),
        recordable(*graph, *sched),
        sched.slot_of@.dom().contains(root.0),
        face < u32::MAX,
    ensures
        match first_refusal(*graph, sched.order@) {
            Some(why) => r == Err::<Vec<Pass>, BakeError>(BakeError::Unsupported(why)),
            None => r is Ok && passes_view(r->Ok_0@) == face_bake(
                *graph,
                *ctx,
                *sched,
                root,
                side,
                face,
                placed,
            ),
        },
{
    let size = (side, side);
    match record_layers(graph, ctx, sched, size, Setting::Face { face, placed }, None) {
        Ok(mut out) => {
            let ghost before = out@;
            let packing = Packing { mode: PackMode::Color, keep_alpha: true, z: 0 };
            let source = Source::Slot(slot_of(sched, root));
            let target = Target::Channel(OutputChannel::Color);
            let unit = Domain::unit();
            assert(unit.corners() =~= unit_corners());
            let pass = dispatch_pack(source, target, size, packing, unit);
            out.push(pass);
            assert(passes_view(out@) =~= passes_view(before).push(pass@));
            Ok(out)
        },
        Err(e) => Err(e),
    }
}

/// The layer whose color a color cube shows; a graph with no color output has
/// none.
pub fn color_cube_root(graph: &Graph) -> (r: Result<LayerId, BakeError>)
    ensures
        r == (match graph.output.color {
            Some(id) => Ok::<LayerId, BakeError>(id),
            None => Err::<LayerId, BakeError>(
                BakeError::Unsupported("a color cube of a graph with no color output"),
            ),
        }),
{
    match graph.output.color {
        Some(id) => Ok(id),
        None => Err(BakeError::Unsupported("a color cube of a graph with no color output")),
    }
}

/// Where a layer lies on the faces, its rectangle is the unit square: a face
/// covers exactly its own (u, v), and the point map took the place of what an
/// extending transform samples over.
pub open spec fn on_faces(
    domains: Map<u64, Domain>,
    order: Seq<LayerId>,
    placed: Map<u64, Placement>,
    id: LayerId,
) -> Seq<Scalar> {
    if order.contains(id) && placed.dom().contains(id.0) && placed[id.0] is Sphere {
        unit_corners()
    } else {
        rect_of(domains, Some(id))
    }
}

/// Gives every scheduled layer on the faces the unit square.
pub fn fit_to_faces(sched: &mut Schedule, placed: &HashMap<u64, Placement>)
    ensures
        final(sched).order == old(sched).order,
        final(sched).slot_of == old(sched).slot_of,
        final(sched).peak_slots == old(sched).peak_slots,
        final(sched).output_slots == old(sched).output_slots,
        final(sched).domain_order == old(sched).domain_order,
        forall|id: LayerId| #[trigger]
            rect_of(final(sched).domain_of@, Some(id)) == on_faces(
                old(sched).domain_of@,
                old(sched).order@,
                placed@,
                id,
            ),
{
    let mut i: usize = 0;
    while i < sched.order.len()
        invariant
            i <= sched.order@.len(),
            sched.order == old(sched).order,
            sched.slot_of == old(sched).slot_of,
            sched.peak_slots == old(sched).peak_slots,
            sched.output_slots == old(sched).output_slots,
            sched.domain_order == old(sched).domain_order,
            forall|id: LayerId| #[trigger]
                rect_of(sched.domain_of@, Some(id)) == on_faces(
                    old(sched).domain_of@,
                    old(sched).order@.take(i as int),
                    placed@,
                    id,
                ),
        decreases sched.order@.len() - i,
    {
        let id = sched.order[i];
        let ghost before = sched.domain_of@;
        let sphere = match placed.get(&id.0) {
            Some(Placement::Sphere(_)) => true,
            _ => false,
        };
        if sphere {
            let unit = Domain::unit();
            assert(unit.corners() =~= unit_corners());
            sched.domain_of.insert(id.0, unit);
        }
        proof {
            let order = old(sched).order@;
            assert forall|x: LayerId| #[trigger]
                rect_of(sched.domain_of@, Some(x)) == on_faces(
                    old(sched).domain_of@,
                    order.take(i + 1),
                    placed@,
                    x,
                ) by {
                let (a, b) = (order.take(i as int), order.take(i + 1));
                assert(rect_of(before, Some(x)) == on_faces(
                    old(sched).domain_of@,
                    a,
                    placed@,
                    x,
                ));
                assert(b =~= a.push(id));
                if a.contains(x) {
                    let k = a.index_of(x);
                    assert(b[k] == x);
                }
                if x == id {
                    assert(b[i as int] == x);
                } else if b.contains(x) {
                    let k = b.index_of(x);
                    assert(a[k] == x);
                }
            }
        }
        i += 1;
    }
    assert(sched.order@.take(i as int) =~= sched.order@);
}

/// Where a set of layers is closed under reading and the slots are those of the
/// set, the set can be recorded.
proof fn lemma_closed_can_be_recorded(graph: Graph, sched: Schedule)
    requires
        ids_ascend(graph.layers@),
        sched.slot_of@.dom() == raw_ids(sched.order@).to_set(),
        closed_under(graph.edges(), raw_ids(sched.order@).to_set()),
        forall|i: int|
            0 <= i < sched.order@.len() ==> has_layer(
                graph.layers@,
                (#[trigger] sched.order@[i]).0,
            ),
    ensures
        recordable(graph, sched),
{
    let order = raw_ids(sched.order@);
    let slots = sched.slot_of@;
    assert forall|i: int| 0 <= i < sched.order@.len() implies slots_known(
        graph.layer(#[trigger] sched.order@[i])->0,
        slots,
    ) by {
        let id = sched.order@[i];
        let place = place_of(graph.layers@, id.0);
        let layer = graph.layers@[place];
        assert(layer.id.0 == id.0);
        assert(order[i] == id.0);
        assert(order.to_set().contains(id.0));
        let ids = layer.kind.input_ids();
        assert forall|k: int| 0 <= k < ids.len() implies slots.dom().contains(
            (#[trigger] ids[k]).0,
        ) by {
            lemma_layer_reads(graph.layers@, place, ids[k].0);
            assert(LayerId(ids[k].0) == ids[k]);
            assert(reads(graph.edges(), id.0, ids[k].0));
        }
    }
}

/// A schedule of what some layers reach can be recorded.
pub proof fn law_schedule_can_be_recorded(graph: Graph, roots: Seq<u64>, sched: Schedule)
    requires
        ids_ascend(graph.layers@),
        can_plan(graph, roots),
        planned(graph.edges(), roots, raw_ids(sched.order@), sched.slot_of@, sched.peak_slots),
    ensures
        recordable(graph, sched),
{
    let order = raw_ids(sched.order@);
    lemma_reach_set_closed(graph.edges(), roots);
    assert forall|i: int| 0 <= i < sched.order@.len() implies has_layer(
        graph.layers@,
        (#[trigger] sched.order@[i]).0,
    ) by {
        assert(order[i] == sched.order@[i].0);
        assert(order.to_set().contains(order[i]));
        assert(reached_from(graph.edges(), roots, order[i]));
    }
    lemma_closed_can_be_recorded(graph, sched);
}

/// A schedule of previews can be recorded, where the graph holds together and
/// the wanted layers are in it.
pub proof fn law_previews_can_be_recorded(
    graph: Graph,
    wanted: Option<Seq<LayerId>>,
    params: Map<Seq<char>, ParamValue>,
    sched: Schedule,
)
    requires
        graph.well_formed(),
        wanted matches Some(w) ==> ids_are_known(w, graph.layers@),
        previewed(graph, wanted, params, sched),
    ensures
        recordable(graph, sched),
{
    let g = graph.edges();
    let order = raw_ids(sched.order@);
    let required = preview_ids(graph, wanted);
    lemma_known_closed(graph);
    assert(g.dom() =~= all_ids(graph));
    if let Some(w) = wanted {
        let roots = raw_ids(w);
        lemma_reach_set_closed(g, roots);
        assert forall|x: u64| #[trigger] required.contains(x) implies has_layer(
            graph.layers@,
            x,
        ) by {
            let i = choose|i: int| 0 <= i < roots.len() && reaches(g, #[trigger] roots[i], x);
            assert(has_layer(graph.layers@, w[i].0));
            lemma_closed_keeps(g, g.dom(), roots[i], x);
        }
    }
    assert forall|i: int| 0 <= i < sched.order@.len() implies has_layer(
        graph.layers@,
        (#[trigger] sched.order@[i]).0,
    ) by {
        assert(order[i] == sched.order@[i].0);
        assert(order.to_set().contains(order[i]));
    }
    lemma_closed_can_be_recorded(graph, sched);
}

/// A layer's slot is its own from when it is computed until it was read: of the
/// layers computed after it, up to and with any that reads it, none has its
/// slot.
pub proof fn law_slot_keeps_its_layer_until_read(
    graph: Graph,
    roots: Seq<u64>,
    order: Seq<u64>,
    slots: Map<u64, u32>,
    peak: u32,
    i: int,
    j: int,
    k: int,
)
    requires
        planned(graph.edges(), roots, order, slots, peak),
        0 <= i < k <= j < order.len(),
        reads(graph.edges(), order[j], order[i]),
    ensures
        slots[order[k]] != slots[order[i]],
{
    lemma_last_reader_bound(graph.edges(), order, order[i], order.len() as int, j);
    assert(last_use(graph.edges(), order, roots, i) >= k);
}

/// The last reader is at or after any reader.
proof fn lemma_last_reader_bound(g: Map<u64, Seq<u64>>, order: Seq<u64>, x: u64, n: int, j: int)
    requires
        0 <= j < n <= order.len(),
        reads(g, order[j], x),
    ensures
        last_reader(g, order, x, n) >= j,
    decreases n,
{
    if n - 1 > j && !reads(g, order[n - 1], x) {
        lemma_last_reader_bound(g, order, x, n - 1, j);
    }
}

/// The slot of a layer that the output reads is not taken over.
pub proof fn law_output_slot_survives(
    graph: Graph,
    roots: Seq<u64>,
    order: Seq<u64>,
    slots: Map<u64, u32>,
    peak: u32,
    i: int,
    k: int,
)
    requires
        planned(graph.edges(), roots, order, slots, peak),
        0 <= i < k < order.len(),
        roots.contains(order[i]),
    ensures
        slots[order[k]] != slots[order[i]],
{
    assert(last_use(graph.edges(), order, roots, i) >= k);
}

/// No layer's pass reads the slot that it writes.
pub proof fn law_no_pass_reads_its_target(
    graph: Graph,
    roots: Seq<u64>,
    sched: Schedule,
    j: int,
    ctx: EvalCtx,
    size: (u32, u32),
    at: Slice,
)
    requires
        ids_ascend(graph.layers@),
        can_plan(graph, roots),
        planned(graph.edges(), roots, raw_ids(sched.order@), sched.slot_of@, sched.peak_slots),
        0 <= j < sched.order@.len(),
    ensures
        ({
            let pass = layer_pass(graph.layer(sched.order@[j])->0, ctx, sched, size, at);
            pass.target matches Target::Slot(slot) && !pass.sources.contains(Source::Slot(slot))
        }),
{
    let g = graph.edges();
    let order = raw_ids(sched.order@);
    let slots = sched.slot_of@;
    law_schedule_can_be_recorded(graph, roots, sched);
    let id = sched.order@[j];
    let place = place_of(graph.layers@, id.0);
    let layer = graph.layers@[place];
    assert(layer.id.0 == id.0);
    let sources = layer_sources(layer.kind, slots);
    if sources.contains(Source::Slot(slots[id.0])) {
        let n = sources.index_of(Source::Slot(slots[id.0]));
        law_pass_reads_only_inputs(layer.kind, slots, n);
        let input = choose|input: LayerId| #[trigger]
            layer.kind.input_ids().contains(input) && sources[n] == Source::Slot(slots[input.0]);
        lemma_layer_reads(graph.layers@, place, input.0);
        assert(LayerId(input.0) == input);
        assert(order[j] == id.0);
        assert(reads(g, order[j], input.0));
        let i = choose|i: int| 0 <= i < j && #[trigger] order[i] == input.0;
        law_slot_keeps_its_layer_until_read(
            graph,
            roots,
            order,
            slots,
            sched.peak_slots,
            i,
            j,
            j,
        );
    }
}

/// A layer on the faces covers the unit square, whatever its readers asked for;
/// any other layer covers what it did.
pub proof fn law_faces_cover_the_unit_square(
    domains: Map<u64, Domain>,
    order: Seq<LayerId>,
    placed: Map<u64, Placement>,
    id: LayerId,
)
    requires
        order.contains(id),
    ensures
        ({
            let rect = on_faces(domains, order, placed, id);
            let zero = Scalar { bits: 0 };
            let one = Scalar { bits: 0x3f80_0000 };
            let on_sphere = placed.dom().contains(id.0) && placed[id.0] is Sphere;
            &&& on_sphere ==> rect == seq![zero, zero, one, one]
            &&& !on_sphere && domains.dom().contains(id.0) ==> {
                &&& rect.len() == 4
                &&& rect[0] == domains[id.0].min@[0] && rect[1] == domains[id.0].min@[1]
                &&& rect[2] == domains[id.0].max@[0] && rect[3] == domains[id.0].max@[1]
            }
        }),
{
}

/// A layer is refused exactly for a ramp of more than sixteen stops, or one whose
/// stops read more than eight different layers.
pub proof fn law_only_long_ramps_are_refused(kind: LayerKind)
    ensures
        refusal(kind) is Some <==> (kind matches LayerKind::ColorRamp(r) && (r.stops@.len() > 16
            || stop_ids(r.stops@).to_set().len() > 8)),
{
    if let LayerKind::ColorRamp(r) = kind {
        let ids = stop_ids(r.stops@);
        let reads = first_reads(ids);
        lemma_first_reads(ids);
        assert(reads.to_set() =~= ids.to_set());
        reads.unique_seq_to_set();
    }
}

/// A bake is refused for the first layer in its order that is, and for that
/// layer's reason; and not at all where none is.
pub proof fn law_the_first_refused_layer_decides(graph: Graph, ids: Seq<LayerId>)
    ensures
        match first_refusal(graph, ids) {
            None => forall|i: int|
                0 <= i < ids.len() ==> refusal((graph.layer(#[trigger] ids[i])->0).kind) is None,
            Some(why) => exists|i: int|
                {
                    &&& 0 <= i < ids.len()
                    &&& refusal((graph.layer(#[trigger] ids[i])->0).kind) == Some(why)
                    &&& forall|j: int|
                        0 <= j < i ==> refusal((graph.layer(#[trigger] ids[j])->0).kind) is None
                },
        },
    decreases ids.len(),
{
    if ids.len() > 0 {
        let rest = ids.drop_last();
        law_the_first_refused_layer_decides(graph, rest);
        match first_refusal(graph, rest) {
            Some(why) => {
                let i = choose|i: int|
                    {
                        &&& 0 <= i < rest.len()
                        &&& refusal((graph.layer(#[trigger] rest[i])->0).kind) == Some(why)
                        &&& forall|j: int|
                            0 <= j < i ==> refusal((graph.layer(#[trigger] rest[j])->0).kind)
                                is None
                    };
                assert(ids[i] == rest[i]);
                assert forall|j: int| 0 <= j < i implies refusal(
                    (graph.layer(#[trigger] ids[j])->0).kind,
                ) is None by {
                    assert(rest[j] == ids[j]);
                }
            },
            None => {
                assert forall|j: int| 0 <= j < rest.len() implies refusal(
                    (graph.layer(#[trigger] ids[j])->0).kind,
                ) is None by {
                    assert(rest[j] == ids[j]);
                }
                let n = ids.len() - 1;
                assert(ids[n] == ids.last());
            },
        }
    }
}

/// A color cube shows the layer behind the output's color, and a graph without
/// one is refused.
pub proof fn law_color_cubes_show_the_color(graph: Graph, r: Result<LayerId, BakeError>)
    requires
        call_ensures(color_cube_root, (&graph,), r),
    ensures
        r is Ok <==> graph.output.color is Some,
        r is Ok ==> graph.output.color == Some(r->Ok_0),
{
}

/// A flat bake fails only where one of its layers is refused, and for the
/// reason of the first; else it records the same passes every time.
pub proof fn law_a_bake_depends_on_its_arguments_alone(
    graph: Graph,
    ctx: EvalCtx,
    sched: Schedule,
    size: (u32, u32),
    object_alpha: bool,
    r: Result<Vec<Pass>, BakeError>,
)
    requires
        call_ensures(bake_output, (&graph, &ctx, &sched, size, object_alpha), r),
    ensures
        r is Err <==> first_refusal(graph, sched.order@) is Some,
        r matches Err(e) ==> e == BakeError::Unsupported(first_refusal(graph, sched.order@)->0),
        r is Ok ==> passes_view(r->Ok_0@) == output_bake(graph, ctx, sched, size, object_alpha),
{
}

} // verus!
