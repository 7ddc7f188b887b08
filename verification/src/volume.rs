//! A volume bake, slice by slice.
use vstd::prelude::*;

use crate::bake::{
    channel_passes, first_refusal, height_pass, layer_passes, missing_pass, passes_view,
    push_channels, record_layers, recordable, started, Setting,
};
use crate::eval::EvalCtx;
use crate::graph::{ids_ascend, Graph};
use crate::id::LayerId;
use crate::kind::{HeightToNormal, LayerKind};
use crate::passes::{layer_pass, Pass, PassView, Pipeline, Word};
use crate::placement::BakeError;
use crate::scalar::Scalar;
use crate::schedule::Schedule;

verus! {

/// The height behind a normal output, and how much it bumps the surface.
pub open spec fn bump_of(graph: Graph) -> Option<(LayerId, Scalar)> {
    match graph.output.normal {
        Some(id) => match graph.layer(id) {
            Some(layer) => match layer.kind {
                LayerKind::HeightToNormal(HeightToNormal { source: Some(source), strength }) => {
                    Some((source, strength))
                },
                _ => None,
            },
            None => None,
        },
        None => None,
    }
}

/// The height behind a normal output, and how much it bumps the surface. None
/// where the output's normal is no normal map of a connected height.
pub fn find_bump(graph: &Graph) -> (r: Option<(LayerId, Scalar)>)
    requires
        ids_ascend(graph.layers@),
    ensures
        r == bump_of(*graph),
{
    let id = match graph.output.normal {
        Some(id) => id,
        None => {
            return None;
        },
    };
    match graph.get(id) {
        Some(layer) => match &layer.kind {
            LayerKind::HeightToNormal(h) => match h.source {
                Some(source) => Some((source, h.strength)),
                None => None,
            },
            _ => None,
        },
        None => None,
    }
}

/// A volume bake that is carried out a few slices at a time. It holds its own
/// copy of the graph, so the graph can be edited in between.
#[derive(Clone, Debug)]
pub struct VolumeJob {
    pub graph: Graph,
    pub ctx: EvalCtx,
    pub sched: Schedule,
    pub res: u32,
    pub depth: u32,
    pub next_z: u32,
}

/// The passes of one slice.
pub open spec fn slice_passes(job: VolumeJob, z: u32) -> Seq<PassView> {
    let size = (job.res, job.res);
    let height = match bump_of(job.graph) {
        Some((source, _)) => Some(source),
        None => None,
    };
    started(
        job.graph,
        job.ctx,
        job.sched,
        size,
        Setting::Plane(Word::SliceCenter { z, depth: job.depth }),
        height,
    ) + channel_passes(job.graph.output, job.sched, size, true, z)
}

/// Slices by their passes.
pub open spec fn slices_view(slices: Seq<Vec<Pass>>) -> Seq<Seq<PassView>> {
    slices.map_values(|s: Vec<Pass>| passes_view(s@))
}

/// The passes of the slices from `from` up, before `to`.
pub open spec fn slices_between(job: VolumeJob, from: u32, to: u32) -> Seq<Seq<PassView>> {
    Seq::new((to - from) as nat, |i: int| slice_passes(job, (from + i) as u32))
}

/// The job with its next slice at `z`.
pub open spec fn moved_to(job: VolumeJob, z: u32) -> VolumeJob {
    VolumeJob { next_z: z, ..job }
}

/// `h` comes of `g` by recording a slice, with the outcome `r`.
pub open spec fn slice_recorded(
    g: VolumeJob,
    h: VolumeJob,
    r: Result<Vec<Pass>, BakeError>,
) -> bool {
    match first_refusal(g.graph, g.sched.order@) {
        Some(why) => {
            &&& r == Err::<Vec<Pass>, BakeError>(BakeError::Unsupported(why))
            &&& h == g
        },
        None => {
            &&& r is Ok
            &&& passes_view(r->Ok_0@) == slice_passes(g, g.next_z)
            &&& h == (VolumeJob { next_z: (g.next_z + 1) as u32, ..g })
            &&& h.well_formed()
        },
    }
}

/// `h` comes of `g` by recording up to `max_slices` slices, with the outcome
/// `r`.
pub open spec fn step_recorded(
    g: VolumeJob,
    h: VolumeJob,
    max_slices: u32,
    r: Result<Vec<Vec<Pass>>, BakeError>,
) -> bool {
    let stop = g.stop(max_slices);
    match first_refusal(g.graph, g.sched.order@) {
        Some(why) if g.next_z < stop => {
            &&& r == Err::<Vec<Vec<Pass>>, BakeError>(BakeError::Unsupported(why))
            &&& h == g
        },
        _ => {
            &&& r is Ok
            &&& slices_view(r->Ok_0@) == slices_between(g, g.next_z, stop)
            &&& h == moved_to(g, stop)
        },
    }
}

impl VolumeJob {
    /// Its layers can be recorded, and no slice lies beyond the last.
    pub open spec fn well_formed(&self) -> bool {
        &&& ids_ascend(self.graph.layers@)
        &&& recordable(self.graph, self.sched)
        &&& self.next_z <= self.depth
    }

    /// A job of which no slice was recorded.
    pub fn new(graph: Graph, ctx: EvalCtx, sched: Schedule, res: u32, depth: u32) -> (r: VolumeJob)
        ensures
            r == (VolumeJob { graph, ctx, sched, res, depth, next_z: 0 }),
            ids_ascend(graph.layers@) && recordable(graph, sched) ==> r.well_formed(),
    {
        VolumeJob { graph, ctx, sched, res, depth, next_z: 0 }
    }

    /// Side of a slice, in texels.
    pub fn res(&self) -> (r: u32)
        ensures
            r == self.res,
    {
        self.res
    }

    /// True once every slice was recorded.
    pub fn is_done(&self) -> (r: bool)
        ensures
            r == (self.next_z >= self.depth),
    {
        self.next_z >= self.depth
    }

    /// Compute dispatches one slice costs.
    pub fn dispatches_per_slice(&self) -> (r: u32)
        requires
            self.sched.order@.len() + 5 <= u32::MAX,
        ensures
            r == self.sched.order@.len() + 5,
    {
        self.sched.order.len() as u32 + 5
    }

    /// The slice before which a step of at most `max_slices` stops.
    pub open spec fn stop(&self, max_slices: u32) -> u32 {
        if self.next_z + max_slices < self.depth {
            (self.next_z + max_slices) as u32
        } else {
            self.depth
        }
    }

    /// The slice before which a step of at most `max_slices` stops.
    pub fn stop_after(&self, max_slices: u32) -> (r: u32)
        ensures
            r == self.stop(max_slices),
    {
        let stop = self.next_z.saturating_add(max_slices);
        if stop < self.depth {
            stop
        } else {
            self.depth
        }
    }

    /// Records the next slice. Where a layer is refused, the job stays where it
    /// was.
    pub fn record_slice(&mut self) -> (r: Result<Vec<Pass>, BakeError>)
        requires
            old(self).well_formed(),
            old(self).next_z < old(self).depth,
        ensures
            slice_recorded(*old(self), *final(self), r),
    {
        let z = self.next_z;
        let size = (self.res, self.res);
        let height = match find_bump(&self.graph) {
            Some((source, _)) => Some(source),
            None => None,
        };
        // The grid of the texture for unconnected inputs alternates along w.
        let setting = Setting::Plane(Word::SliceCenter { z, depth: self.depth });
        let mut out = match record_layers(
            &self.graph,
            &self.ctx,
            &self.sched,
            size,
            setting,
            height,
        ) {
            Ok(out) => out,
            Err(e) => {
                return Err(e);
            },
        };
        push_channels(&mut out, &self.graph.output, &self.sched, size, true, z);
        self.next_z = z + 1;
        Ok(out)
    }

    /// Records up to `max_slices` more slices, from the next one up. Where a
    /// layer is refused, the job stays where it was.
    pub fn record_step(&mut self, max_slices: u32) -> (r: Result<Vec<Vec<Pass>>, BakeError>)
        requires
            old(self).well_formed(),
        ensures
            step_recorded(*old(self), *final(self), max_slices, r),
            final(self).well_formed(),
    {
        let stop = self.stop_after(max_slices);
        let ghost job = *self;
        let ghost want = slices_between(job, job.next_z, stop);
        let mut slices: Vec<Vec<Pass>> = Vec::new();
        assert(slices_view(slices@) =~= want.take(0));
        while self.next_z < stop
            invariant
                job == *old(self),
                job.well_formed(),
                stop == job.stop(max_slices),
                job.next_z <= self.next_z <= stop <= job.depth,
                *self == moved_to(job, self.next_z),
                want == slices_between(job, job.next_z, stop),
                slices_view(slices@) == want.take(self.next_z - job.next_z),
                self.next_z > job.next_z ==> first_refusal(job.graph, job.sched.order@) is None,
            decreases stop - self.next_z,
        {
            let ghost z = self.next_z;
            let ghost before = slices@;
            match self.record_slice() {
                Ok(passes) => {
                    slices.push(passes);
                    proof {
                        let n = z - job.next_z;
                        assert(slice_passes(moved_to(job, z), z) == slice_passes(job, z));
                        assert(want[n] == slice_passes(job, z));
                        assert(slices_view(slices@) =~= slices_view(before).push(want[n]));
                        assert(want.take(n + 1) =~= want.take(n).push(want[n]));
                    }
                },
                Err(e) => {
                    return Err(e);
                },
            }
        }
        assert(want.take(stop - job.next_z) =~= want);
        Ok(slices)
    }
}

/// How many slices the steps ask for in all.
pub open spec fn slices_asked(steps: Seq<u32>) -> nat
    decreases steps.len(),
{
    if steps.len() == 0 {
        0
    } else {
        slices_asked(steps.drop_last()) + steps.last() as nat
    }
}

/// The job after the steps, one after the other.
pub open spec fn after_steps(job: VolumeJob, steps: Seq<u32>) -> VolumeJob
    decreases steps.len(),
{
    if steps.len() == 0 {
        job
    } else {
        let before = after_steps(job, steps.drop_last());
        moved_to(before, before.stop(steps.last()))
    }
}

/// The slices that the steps record, in order.
pub open spec fn recorded_by(job: VolumeJob, steps: Seq<u32>) -> Seq<Seq<PassView>>
    decreases steps.len(),
{
    if steps.len() == 0 {
        Seq::empty()
    } else {
        let before = after_steps(job, steps.drop_last());
        recorded_by(job, steps.drop_last()) + slices_between(
            before,
            before.next_z,
            before.stop(steps.last()),
        )
    }
}

/// However a volume is split into steps, they record its slices in order, each
/// once: as many as were asked for, or up to the last. The job is done exactly
/// once they ask for as many as are left.
pub proof fn law_steps_record_slices_in_order(job: VolumeJob, steps: Seq<u32>)
    requires
        job.next_z <= job.depth,
    ensures
        ({
            let after = after_steps(job, steps);
            let asked = job.next_z + slices_asked(steps);
            &&& after == moved_to(job, after.next_z)
            &&& after.next_z == (if asked < job.depth {
                asked
            } else {
                job.depth as int
            })
            &&& after.next_z >= after.depth <==> asked >= job.depth
            &&& recorded_by(job, steps) == slices_between(job, job.next_z, after.next_z)
        }),
    decreases steps.len(),
{
    if steps.len() > 0 {
        let rest = steps.drop_last();
        law_steps_record_slices_in_order(job, rest);
        let before = after_steps(job, rest);
        let stop = before.stop(steps.last());
        let own = slices_between(before, before.next_z, stop);
        let all = slices_between(job, job.next_z, stop);
        assert forall|i: int| 0 <= i < own.len() implies #[trigger] own[i] == all[i
            + before.next_z - job.next_z] by {
            let z = (before.next_z + i) as u32;
            assert(slice_passes(before, z) == slice_passes(job, z));
        }
        assert(recorded_by(job, steps) =~= all);
    } else {
        assert(recorded_by(job, steps) =~= slices_between(job, job.next_z, job.next_z));
    }
}

/// Steps that ask for every slice record what one step without a bound records,
/// and leave the job where that one does.
pub proof fn law_splitting_a_volume_changes_nothing(job: VolumeJob, steps: Seq<u32>)
    requires
        job.next_z <= job.depth,
        job.next_z + slices_asked(steps) >= job.depth,
    ensures
        recorded_by(job, steps) == slices_between(job, job.next_z, job.stop(u32::MAX)),
        after_steps(job, steps) == moved_to(job, job.stop(u32::MAX)),
        job.stop(u32::MAX) == job.depth,
{
    law_steps_record_slices_in_order(job, steps);
}

/// The passes that are compute dispatches.
pub open spec fn dispatches(passes: Seq<PassView>) -> nat
    decreases passes.len(),
{
    if passes.len() == 0 {
        0
    } else {
        dispatches(passes.drop_last()) + if passes.last().pipeline == Pipeline::PackScalar {
            0nat
        } else {
            1nat
        }
    }
}

proof fn lemma_dispatches_join(a: Seq<PassView>, b: Seq<PassView>)
    ensures
        dispatches(a + b) == dispatches(a) + dispatches(b),
    decreases b.len(),
{
    if b.len() == 0 {
        assert(a + b =~= a);
    } else {
        lemma_dispatches_join(a, b.drop_last());
        assert((a + b).drop_last() =~= a + b.drop_last());
    }
}

proof fn lemma_layers_dispatch(
    graph: Graph,
    ctx: EvalCtx,
    sched: Schedule,
    size: (u32, u32),
    setting: Setting,
    ids: Seq<LayerId>,
    height: Option<LayerId>,
)
    requires
        first_refusal(graph, ids) is None,
    ensures
        dispatches(layer_passes(graph, ctx, sched, size, setting, ids, height)) == ids.len(),
    decreases ids.len(),
{
    if ids.len() > 0 {
        let id = ids.last();
        lemma_layers_dispatch(graph, ctx, sched, size, setting, ids.drop_last(), height);
        let before = layer_passes(graph, ctx, sched, size, setting, ids.drop_last(), height);
        let own = layer_pass(graph.layer(id)->0, ctx, sched, size, setting.slice_spec(id));
        assert(before.push(own).drop_last() =~= before);
        assert(own.pipeline != Pipeline::PackScalar);
        assert(dispatches(before.push(own)) == ids.len());
        let height_one = height_pass(id, sched, size);
        assert(before.push(own).push(height_one).drop_last() =~= before.push(own));
    }
}

/// One slice costs as many compute dispatches as the job says.
pub proof fn law_slice_costs_its_dispatches(job: VolumeJob, z: u32)
    requires
        first_refusal(job.graph, job.sched.order@) is None,
    ensures
        dispatches(slice_passes(job, z)) == job.sched.order@.len() + 5,
{
    let size = (job.res, job.res);
    let setting = Setting::Plane(Word::SliceCenter { z, depth: job.depth });
    let height = match bump_of(job.graph) {
        Some((source, _)) => Some(source),
        None => None,
    };
    let ids = job.sched.order@;
    let first = seq![missing_pass(size, setting.w())];
    let layers = layer_passes(job.graph, job.ctx, job.sched, size, setting, ids, height);
    let last = channel_passes(job.graph.output, job.sched, size, true, z);
    lemma_layers_dispatch(job.graph, job.ctx, job.sched, size, setting, ids, height);
    lemma_dispatches_join(first, layers);
    lemma_dispatches_join(first + layers, last);
    assert(first.drop_last() =~= Seq::<PassView>::empty());
    reveal_with_fuel(dispatches, 5);
}

/// A job starts at its first slice. A step records the slices from the next one
/// up, one for one, as many as it may or as are left, and the job goes on
/// behind them; nothing else of it changes. A refused layer stops a step that
/// has a slice to record before it has recorded any.
pub proof fn law_a_step_records_the_next_slices(
    g: VolumeJob,
    h: VolumeJob,
    max_slices: u32,
    r: Result<Vec<Vec<Pass>>, BakeError>,
    i: int,
)
    requires
        g.next_z <= g.depth,
        step_recorded(g, h, max_slices, r),
    ensures
        h.graph == g.graph && h.ctx == g.ctx && h.sched == g.sched && h.res == g.res && h.depth
            == g.depth,
        r is Err <==> g.next_z < g.depth && max_slices > 0 && first_refusal(
            g.graph,
            g.sched.order@,
        ) is Some,
        r is Err ==> h.next_z == g.next_z,
        r matches Ok(slices) ==> {
            &&& slices@.len() <= max_slices
            &&& slices@.len() < max_slices ==> h.next_z == h.depth
            &&& h.next_z == g.next_z + slices@.len()
            &&& h.next_z <= h.depth
            &&& 0 <= i < slices@.len() ==> passes_view(slices@[i]@) == slice_passes(
                g,
                (g.next_z + i) as u32,
            )
        },
{
    if let Ok(slices) = r {
        let stop = g.stop(max_slices);
        let want = slices_between(g, g.next_z, stop);
        assert(slices_view(slices@).len() == slices@.len());
        if 0 <= i < slices@.len() {
            assert(slices_view(slices@)[i] == want[i]);
        }
    }
}

/// One slice is recorded as a step of one is.
pub proof fn law_a_slice_is_a_step_of_one(
    g: VolumeJob,
    h: VolumeJob,
    r: Result<Vec<Pass>, BakeError>,
    after: VolumeJob,
    s: Result<Vec<Vec<Pass>>, BakeError>,
)
    requires
        g.next_z < g.depth,
        slice_recorded(g, h, r),
        step_recorded(g, after, 1, s),
    ensures
        after == h,
        r is Ok <==> s is Ok,
        r is Ok ==> s->Ok_0@.len() == 1 && passes_view(s->Ok_0@[0]@) == passes_view(r->Ok_0@),
        r is Err ==> s is Err && s->Err_0 == r->Err_0,
{
    if let Ok(slices) = s {
        law_a_step_records_the_next_slices(g, after, 1, s, 0);
    }
}

/// A new job has the settings it was made with and has recorded nothing; it is
/// done once the next slice would be past the last.
pub proof fn law_jobs_start_at_the_first_slice(
    graph: Graph,
    ctx: EvalCtx,
    sched: Schedule,
    res: u32,
    depth: u32,
    job: VolumeJob,
    done: bool,
)
    requires
        call_ensures(VolumeJob::new, (graph, ctx, sched, res, depth), job),
        call_ensures(VolumeJob::is_done, (&job,), done),
    ensures
        job.next_z == 0 && job.res == res && job.depth == depth,
        job.graph == graph && job.ctx == ctx && job.sched == sched,
        done <==> depth == 0,
{
}

} // verus!
