use vstd::prelude::*;
use crate::bounds::is_extrema_of;
use crate::grid::AABBGrid;
use crate::mesh::Mesh;
use crate::vector::{Vec3, V3};
use crate::vertex::{Occlusion, Vertex};

verus! {

/// The number of samples of a bake that is not told otherwise.
pub const SAMPLES: u32 = 512;

/// The full angle of the cone of rays, in degrees, of a bake that is not told
/// otherwise.
pub const ANGLE_SPREAD: u32 = 178;

/// A ray starts one part in this many of the normal away from its vertex, so
/// that it does not meet the faces around the vertex itself.
pub const BIAS_DIVISOR: i32 = 1000;

/// What a bake is asked for.
#[derive(Clone, Copy, Debug, PartialEq, Eq, Structural)]
pub struct ComputeData {
    pub samples: u32,
    pub angle_spread: u32,
}

impl ComputeData {
    /// At least one sample, and a cone strictly between 0 and 180 degrees.
    pub open spec fn wf(self) -> bool {
        self.samples > 0 && 0 < self.angle_spread < 180
    }

    /// The request for `samples` samples in a cone of `angle_spread` degrees,
    /// or nothing where either is out of range.
    pub fn new(samples: u32, angle_spread: u32) -> (c: Option<ComputeData>)
        ensures
            c == (if samples > 0 && 0 < angle_spread < 180 {
                Some(ComputeData { samples, angle_spread })
            } else {
                None
            }),
    {
        if samples > 0 && 0 < angle_spread && angle_spread < 180 {
            Some(ComputeData { samples, angle_spread })
        } else {
            None
        }
    }
}

impl Default for ComputeData {
    fn default() -> (c: ComputeData)
        ensures
            c.samples == SAMPLES,
            c.angle_spread == ANGLE_SPREAD,
            c.wf(),
    {
        ComputeData { samples: SAMPLES, angle_spread: ANGLE_SPREAD }
    }
}

/// The two flags that the requester and the worker of a bake share.
#[derive(Clone, Copy, Debug, PartialEq, Eq, Structural)]
pub struct BakeControl {
    pub in_progress: bool,
    pub cancel_requested: bool,
}

/// Why a bake was not started.
#[derive(Clone, Copy, Debug, PartialEq, Eq, Structural)]
pub enum BakeError {
    AlreadyInProgress,
}

/// Where a bake stands. A controller without a bake in progress is idle; a
/// bake runs from its start until it is complete or cancelled.
#[derive(Clone, Copy, Debug, PartialEq, Eq, Structural)]
pub enum BakeState {
    Running,
    Completed,
    Cancelled,
}

/// What the worker is to do next; each carries the number of samples that are
/// complete.
#[derive(Clone, Copy, Debug, PartialEq, Eq, Structural)]
pub enum BakeStep {
    Sample(u32),
    Cancelled(u32),
    Completed(u32),
}

/// The buffer through which the worker hands the vertices to the display.
pub struct VertexData {
    pub data: Vec<Vertex>,
    pub should_update: bool,
}

impl VertexData {
    /// Puts a new snapshot into the buffer and marks it as not yet shown.
    pub fn update(&mut self, data: Vec<Vertex>)
        ensures
            final(self).data == data,
            final(self).should_update,
    {
        self.data = data;
        self.should_update = true;
    }
}

/// Division that rounds toward zero.
pub open spec fn toward_zero(n: int, by: int) -> int {
    if n >= 0 {
        n / by
    } else {
        -((-n) / by)
    }
}

pub open spec fn held(n: int) -> int {
    if n < i32::MIN {
        i32::MIN as int
    } else if n > i32::MAX {
        i32::MAX as int
    } else {
        n
    }
}

/// Where the rays of a vertex start: the position moved along the normal by
/// one part in `BIAS_DIVISOR`, each coordinate held to the lattice.
pub open spec fn biased(pos: V3, normal: V3) -> V3 {
    V3 {
        x: held(pos.x + toward_zero(normal.x, BIAS_DIVISOR as int)),
        y: held(pos.y + toward_zero(normal.y, BIAS_DIVISOR as int)),
        z: held(pos.z + toward_zero(normal.z, BIAS_DIVISOR as int)),
    }
}

fn nudge(pos: i32, normal: i32) -> (r: i32)
    ensures
        r == held(pos + toward_zero(normal as int, BIAS_DIVISOR as int)),
{
    let n: i64 = normal as i64;
    let off: i64 = if n >= 0 {
        n / 1000
    } else {
        -((-n) / 1000)
    };
    let sum: i64 = pos as i64 + off;
    if sum < i32::MIN as i64 {
        i32::MIN
    } else if sum > i32::MAX as i64 {
        i32::MAX
    } else {
        sum as i32
    }
}

/// Where the rays of a vertex start.
pub fn ray_origin(v: &Vertex) -> (o: Vec3)
    ensures
        o@ == biased(v.pos@, v.normal@),
{
    Vec3 {
        x: nudge(v.pos.x, v.normal.x),
        y: nudge(v.pos.y, v.normal.y),
        z: nudge(v.pos.z, v.normal.z),
    }
}

/// What one step of the scheduler gives: what the worker is to do, and the
/// state and the flags after it.
pub struct Decision {
    pub step: BakeStep,
    pub state: BakeState,
    pub control: BakeControl,
}

/// The scheduler's rule. A bake that has all its samples is complete, whatever
/// the flags say. Before that, a request to cancel ends it, and is taken back
/// as it is seen. Either end clears both flags. A bake that has ended stays as
/// it is.
pub open spec fn decide(state: BakeState, completed: u32, samples: u32, control: BakeControl)
    -> Decision {
    let idle = BakeControl { in_progress: false, cancel_requested: false };
    match state {
        BakeState::Completed => Decision { step: BakeStep::Completed(completed), state, control },
        BakeState::Cancelled => Decision { step: BakeStep::Cancelled(completed), state, control },
        BakeState::Running => if completed >= samples {
            Decision {
                step: BakeStep::Completed(completed),
                state: BakeState::Completed,
                control: idle,
            }
        } else if control.cancel_requested {
            Decision {
                step: BakeStep::Cancelled(completed),
                state: BakeState::Cancelled,
                control: idle,
            }
        } else {
            Decision { step: BakeStep::Sample(completed), state, control }
        },
    }
}

impl BakeControl {
    /// The flags of a controller that has no bake.
    pub fn new() -> (c: BakeControl)
        ensures
            !c.in_progress,
            !c.cancel_requested,
    {
        BakeControl { in_progress: false, cancel_requested: false }
    }

    /// The flags after a request to cancel.
    pub open spec fn cancelling(self) -> BakeControl {
        BakeControl { in_progress: self.in_progress, cancel_requested: true }
    }

    /// Asks the running bake to stop at its next sample boundary.
    pub fn request_cancel(&mut self)
        ensures
            *final(self) == old(self).cancelling(),
    {
        self.cancel_requested = true;
    }

    /// Claims the right to bake, unless a bake is in progress: then nothing
    /// changes and the answer is `AlreadyInProgress`.
    pub fn claim(&mut self) -> (r: Result<(), BakeError>)
        ensures
            old(self).in_progress ==> r == Err::<(), BakeError>(BakeError::AlreadyInProgress)
                && *final(self) == *old(self),
            !old(self).in_progress ==> r == Ok::<(), BakeError>(()) && *final(self) == (BakeControl {
                in_progress: true,
                cancel_requested: old(self).cancel_requested,
            }),
    {
        if self.in_progress {
            return Err(BakeError::AlreadyInProgress);
        }
        self.in_progress = true;
        Ok(())
    }

    /// Starts a bake of the mesh, unless one is in progress: then nothing
    /// changes and the answer is `AlreadyInProgress`. A bake that starts has
    /// its grid built, no sample complete, and every vertex without estimate.
    pub fn start_bake(&mut self, mesh: Mesh, verts: Vec<Vertex>, config: ComputeData) -> (r: Result<
        Bake,
        BakeError,
    >)
        requires
            mesh.wf(),
            config.wf(),
        ensures
            old(self).in_progress ==> r == Err::<Bake, BakeError>(BakeError::AlreadyInProgress)
                && *final(self) == *old(self),
            !old(self).in_progress ==> {
                &&& final(self).in_progress
                &&& final(self).cancel_requested == old(self).cancel_requested
                &&& r matches Ok(b) && b.fresh(mesh, verts@, config)
            },
    {
        match self.claim() {
            Err(e) => Err(e),
            Ok(()) => Ok(Bake::new(mesh, verts, config)),
        }
    }
}

/// One bake: the mesh, its grid, the vertices with their estimates, and how
/// far the sampling has come.
pub struct Bake {
    pub mesh: Mesh,
    pub grid: AABBGrid,
    pub verts: Vec<Vertex>,
    pub config: ComputeData,
    pub completed: u32,
    pub state: BakeState,
}

/// The vertex after one sample whose ray was blocked or not.
pub open spec fn sampled(v: Vertex, hit: bool) -> Vertex {
    Vertex { pos: v.pos, normal: v.normal, occlusion: v.occlusion.after(hit) }
}

impl Bake {
    /// The bake is the one that starts on the mesh with these vertices: its
    /// grid is built around the vertices, no sample is complete, and no
    /// vertex has an estimate.
    pub open spec fn fresh(self, mesh: Mesh, verts: Seq<Vertex>, config: ComputeData) -> bool {
        &&& self.wf()
        &&& self.state == BakeState::Running
        &&& self.completed == 0
        &&& self.mesh == mesh
        &&& self.config == config
        &&& self.verts.len() == verts.len()
        &&& is_extrema_of(self.grid.bounds, verts)
        &&& self.grid.divided_for(mesh.faces.len() as int)
        &&& forall|i: int|
            0 <= i < verts.len() ==> (#[trigger] self.verts[i]) == (Vertex {
                pos: verts[i].pos,
                normal: verts[i].normal,
                occlusion: Occlusion { hits: 0, samples: 0 },
            })
    }

    /// The bake that starts on the mesh: builds the grid around the vertices
    /// and takes every estimate back to its start.
    pub fn new(mesh: Mesh, verts: Vec<Vertex>, config: ComputeData) -> (b: Bake)
        requires
            mesh.wf(),
            config.wf(),
        ensures
            b.fresh(mesh, verts@, config),
    {
        let grid = AABBGrid::new(verts.as_slice(), &mesh);
        let mut verts = verts;
        let ghost given = verts@;
        let mut i: usize = 0;
        while i < verts.len()
            invariant
                i <= verts.len(),
                verts.len() == given.len(),
                forall|j: int|
                    0 <= j < i ==> (#[trigger] verts[j]) == (Vertex {
                        pos: given[j].pos,
                        normal: given[j].normal,
                        occlusion: Occlusion { hits: 0, samples: 0 },
                    }),
                forall|j: int| i <= j < verts.len() ==> (#[trigger] verts[j]) == given[j],
            decreases verts.len() - i,
        {
            let v = verts[i];
            verts.set(i, Vertex { pos: v.pos, normal: v.normal, occlusion: Occlusion::new() });
            i += 1;
        }
        Bake { mesh, grid, verts, config, completed: 0, state: BakeState::Running }
    }

    pub open spec fn wf(self) -> bool {
        &&& self.mesh.wf()
        &&& self.grid.wf()
        &&& self.grid.lists(self.mesh)
        &&& self.config.wf()
        &&& self.completed <= self.config.samples
        &&& self.state == BakeState::Completed ==> self.completed == self.config.samples
        &&& forall|i: int|
            0 <= i < self.verts.len() ==> (#[trigger] self.verts[i]).occlusion.wf()
                && self.verts[i].occlusion.samples == self.completed
    }

    /// A sample can be taken with these directions: the bake runs, samples
    /// are left, and there is one direction for each vertex.
    pub open spec fn takes(self, dirs: Seq<Vec3>) -> bool {
        &&& self.state == BakeState::Running
        &&& self.completed < self.config.samples
        &&& dirs.len() == self.verts.len()
    }

    /// Whether the ray of vertex `i` along `dir` is blocked.
    pub open spec fn blocked(self, i: int, dir: Vec3) -> bool {
        self.grid.ray_blocked(self.mesh, biased(self.verts[i].pos@, self.verts[i].normal@), dir@)
    }

    /// The scheduler's step at a sample boundary: says what the worker is to
    /// do next, and ends the bake where it is complete or cancelled.
    pub fn step(&mut self, control: &mut BakeControl) -> (r: BakeStep)
        requires
            old(self).wf(),
        ensures
            final(self).wf(),
            final(self).mesh == old(self).mesh,
            final(self).grid == old(self).grid,
            final(self).verts == old(self).verts,
            final(self).config == old(self).config,
            final(self).completed == old(self).completed,
            (Decision { step: r, state: final(self).state, control: *final(control) }) == decide(
                old(self).state,
                old(self).completed,
                old(self).config.samples,
                *old(control),
            ),
    {
        match self.state {
            BakeState::Completed => BakeStep::Completed(self.completed),
            BakeState::Cancelled => BakeStep::Cancelled(self.completed),
            BakeState::Running => {
                if self.completed >= self.config.samples {
                    self.state = BakeState::Completed;
                    control.in_progress = false;
                    control.cancel_requested = false;
                    BakeStep::Completed(self.completed)
                } else if control.cancel_requested {
                    self.state = BakeState::Cancelled;
                    control.in_progress = false;
                    control.cancel_requested = false;
                    BakeStep::Cancelled(self.completed)
                } else {
                    BakeStep::Sample(self.completed)
                }
            },
        }
    }

    /// Takes one sample: sends one ray from each vertex, along the direction
    /// given for it, and folds into the estimate of the vertex whether the ray
    /// was blocked. Does nothing, and says so, where no sample can be taken.
    pub fn sample(&mut self, dirs: &[Vec3]) -> (taken: bool)
        requires
            old(self).wf(),
        ensures
            final(self).wf(),
            taken == old(self).takes(dirs@),
            final(self).mesh == old(self).mesh,
            final(self).grid == old(self).grid,
            final(self).config == old(self).config,
            final(self).state == old(self).state,
            !taken ==> final(self).verts == old(self).verts && final(self).completed == old(
                self,
            ).completed,
            taken ==> {
                &&& final(self).completed == old(self).completed + 1
                &&& final(self).verts.len() == old(self).verts.len()
                &&& forall|i: int|
                    0 <= i < old(self).verts.len() ==> (#[trigger] final(self).verts[i]) == sampled(
                        old(self).verts[i],
                        old(self).blocked(i, dirs[i]),
                    )
            },
    {
        let running = match self.state {
            BakeState::Running => true,
            _ => false,
        };
        if !running || self.completed >= self.config.samples || dirs.len() != self.verts.len() {
            return false;
        }
        let ghost before = *self;
        let mut i: usize = 0;
        while i < self.verts.len()
            invariant
                i <= self.verts.len(),
                before.wf(),
                before.takes(dirs@),
                self.mesh == before.mesh,
                self.grid == before.grid,
                self.config == before.config,
                self.state == before.state,
                self.completed == before.completed,
                self.verts.len() == before.verts.len(),
                forall|j: int|
                    0 <= j < i ==> (#[trigger] self.verts[j]) == sampled(
                        before.verts[j],
                        before.blocked(j, dirs[j]),
                    ),
                forall|j: int| i <= j < self.verts.len() ==> (#[trigger] self.verts[j]) == before.verts[j],
            decreases self.verts.len() - i,
        {
            let v = self.verts[i];
            assert(v == before.verts[i as int]);
            let orig = ray_origin(&v);
            let is_hit = self.grid.occluded(&self.mesh, orig, dirs[i]);
            let folded = v.occlusion.fold(is_hit);
            self.verts.set(i, Vertex { pos: v.pos, normal: v.normal, occlusion: folded });
            i += 1;
        }
        self.completed = self.completed + 1;
        true
    }

    /// A copy of the vertices as they stand, to publish.
    pub fn snapshot(&self) -> (data: Vec<Vertex>)
        ensures
            data@ == self.verts@,
    {
        let mut data: Vec<Vertex> = Vec::with_capacity(self.verts.len());
        let mut i: usize = 0;
        while i < self.verts.len()
            invariant
                i <= self.verts.len(),
                data@ == self.verts@.take(i as int),
            decreases self.verts.len() - i,
        {
            data.push(self.verts[i]);
            assert(self.verts@.take(i as int).push(self.verts[i as int]) =~= self.verts@.take(
                i as int + 1,
            ));
            i += 1;
        }
        assert(self.verts@.take(i as int) =~= self.verts@);
        data
    }
}

/// A request to cancel, seen before the last sample, ends the bake at the
/// next sample boundary: the step reports the samples that are complete, the
/// bake is cancelled, and neither flag stays set.
pub proof fn lemma_cancel_stops(completed: u32, samples: u32, control: BakeControl)
    requires
        completed < samples,
    ensures
        decide(BakeState::Running, completed, samples, control.cancelling()) == (Decision {
            step: BakeStep::Cancelled(completed),
            state: BakeState::Cancelled,
            control: BakeControl { in_progress: false, cancel_requested: false },
        }),
{
}

/// Without a request to cancel, a bake takes exactly its samples: before the
/// last the step asks for the next sample and changes nothing; after the last
/// it reports completion and clears the flags.
pub proof fn lemma_runs_to_completion(completed: u32, samples: u32, control: BakeControl)
    requires
        !control.cancel_requested,
    ensures
        completed < samples ==> decide(BakeState::Running, completed, samples, control) == (Decision {
            step: BakeStep::Sample(completed),
            state: BakeState::Running,
            control,
        }),
        completed >= samples ==> decide(BakeState::Running, completed, samples, control)
            == (Decision {
            step: BakeStep::Completed(completed),
            state: BakeState::Completed,
            control: BakeControl { in_progress: false, cancel_requested: false },
        }),
{
}

} // verus!
