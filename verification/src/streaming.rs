use std::collections::VecDeque;
use vstd::prelude::*;
use crate::chunk::Chunk;
use crate::constants::WORLD_SIZE;
use crate::world::{
    SectionMeshes, WorldData, has_chunk_at, has_meshes_at, handles_at, in_view, meshes_distinct,
    within_view,
};

verus! {

/// A request to load the chunk at chunk position `(x, z)`.
#[derive(Debug, Clone, Copy, PartialEq, Eq, Structural)]
pub struct ToLoadChunkEvent {
    pub x: i32,
    pub z: i32,
}

/// A request to unload the chunk at chunk position `(x, z)`.
#[derive(Debug, Clone, Copy, PartialEq, Eq, Structural)]
pub struct ToUnloadChunkEvent {
    pub x: i32,
    pub z: i32,
}

/// A request to make the terrain of the chunk at chunk position `(x, z)`.
#[derive(Debug, Clone, Copy, PartialEq, Eq, Structural)]
pub struct ToGenerateChunkEvent {
    pub x: i32,
    pub z: i32,
}

/// The notice that the chunk at chunk position `(x, z)` changed and its
/// geometry is to be made again.
#[derive(Debug, Clone, Copy, PartialEq, Eq, Structural)]
pub struct ChunkToUpdateEvent {
    pub x: i32,
    pub z: i32,
}

/// Where a chunk position stands between not being loaded and being
/// resident.
#[derive(Debug, Clone, Copy, PartialEq, Eq, Structural)]
pub enum ChunkState {
    Unloaded,
    Queued,
    InFlight,
    Resident,
}

/// The requests that wait, first in first out, and the chunk positions of
/// the tasks that are running, of which there are never more than `limit`.
pub struct ChunkLoadQueue {
    queue: VecDeque<ToLoadChunkEvent>,
    current_tasks: Vec<(i32, i32)>,
    limit: usize,
}

/// Whether a request for chunk position `(x, z)` waits in `queue`.
pub open spec fn pending_has(queue: Seq<ToLoadChunkEvent>, x: int, z: int) -> bool {
    exists|i: int| 0 <= i < queue.len() && (#[trigger] queue[i]).x == x && queue[i].z == z
}

/// Whether a task for chunk position `(x, z)` is among `tasks`.
pub open spec fn flight_has(tasks: Seq<(i32, i32)>, x: int, z: int) -> bool {
    exists|i: int| 0 <= i < tasks.len() && (#[trigger] tasks[i]).0 == x && tasks[i].1 == z
}

/// No chunk position is requested twice in `queue`.
pub open spec fn pending_distinct(queue: Seq<ToLoadChunkEvent>) -> bool {
    forall|i: int, j: int| 0 <= i < j < queue.len() ==> #[trigger] queue[i] != #[trigger] queue[j]
}

/// No chunk position has two tasks in `tasks`.
pub open spec fn flight_distinct(tasks: Seq<(i32, i32)>) -> bool {
    forall|i: int, j: int| 0 <= i < j < tasks.len() ==> #[trigger] tasks[i] != #[trigger] tasks[j]
}

impl ChunkLoadQueue {
    /// The requests that wait, the oldest first.
    pub closed spec fn pending(&self) -> Seq<ToLoadChunkEvent> {
        self.queue@
    }

    /// The chunk positions of the running tasks.
    pub closed spec fn in_flight(&self) -> Seq<(i32, i32)> {
        self.current_tasks@
    }

    /// The largest number of tasks that may run at the same time.
    pub closed spec fn limit(&self) -> nat {
        self.limit as nat
    }

    /// The queue's invariant: no chunk position waits twice, runs twice, or
    /// waits while it runs, and no more tasks run than the limit allows.
    pub open spec fn wf(&self) -> bool {
        &&& pending_distinct(self.pending())
        &&& flight_distinct(self.in_flight())
        &&& forall|i: int, j: int|
            0 <= i < self.pending().len() && 0 <= j < self.in_flight().len() ==> !((
            #[trigger] self.pending()[i]).x == (#[trigger] self.in_flight()[j]).0
                && self.pending()[i].z == self.in_flight()[j].1)
        &&& self.in_flight().len() <= self.limit()
    }

    /// Whether chunk position `(x, z)` waits or runs.
    pub open spec fn has(&self, x: int, z: int) -> bool {
        pending_has(self.pending(), x, z) || flight_has(self.in_flight(), x, z)
    }

    /// A queue without requests and without tasks.
    pub fn new(limit: usize) -> (q: ChunkLoadQueue)
        ensures
            q.wf(),
            q.limit() == limit,
            q.pending().len() == 0,
            q.in_flight().len() == 0,
    {
        ChunkLoadQueue { queue: VecDeque::new(), current_tasks: Vec::new(), limit }
    }

    /// Number of requests that wait.
    pub fn pending_len(&self) -> (n: usize)
        ensures
            n == self.pending().len(),
    {
        self.queue.len()
    }

    /// Number of tasks that run.
    pub fn in_flight_len(&self) -> (n: usize)
        ensures
            n == self.in_flight().len(),
    {
        self.current_tasks.len()
    }

    /// The request at position `i` of those that wait.
    pub fn pending_at(&self, i: usize) -> (r: Option<ToLoadChunkEvent>)
        ensures
            r == (if i < self.pending().len() {
                Some(self.pending()[i as int])
            } else {
                None
            }),
    {
        if i < self.queue.len() {
            Some(self.queue[i])
        } else {
            None
        }
    }

    /// Whether a request for chunk position `(x, z)` waits.
    pub fn is_pending(&self, x: i32, z: i32) -> (r: bool)
        ensures
            r == pending_has(self.pending(), x as int, z as int),
    {
        let mut i: usize = 0;
        while i < self.queue.len()
            invariant
                i <= self.queue@.len(),
                forall|k: int|
                    0 <= k < i ==> !((#[trigger] self.queue@[k]).x == x && self.queue@[k].z == z),
            decreases self.queue@.len() - i,
        {
            if self.queue[i].x == x && self.queue[i].z == z {
                return true;
            }
            i += 1;
        }
        false
    }

    /// Position among the running tasks of the one for chunk position
    /// `(x, z)`.
    pub fn find_in_flight(&self, x: i32, z: i32) -> (r: Option<usize>)
        ensures
            r is Some == flight_has(self.in_flight(), x as int, z as int),
            r is Some ==> r->0 < self.in_flight().len() && self.in_flight()[r->0 as int] == (x, z),
    {
        let mut i: usize = 0;
        while i < self.current_tasks.len()
            invariant
                i <= self.current_tasks@.len(),
                forall|k: int|
                    0 <= k < i ==> !((#[trigger] self.current_tasks@[k]).0 == x
                        && self.current_tasks@[k].1 == z),
            decreases self.current_tasks@.len() - i,
        {
            if self.current_tasks[i].0 == x && self.current_tasks[i].1 == z {
                return Some(i);
            }
            i += 1;
        }
        None
    }

    /// Whether a task for chunk position `(x, z)` runs.
    pub fn is_in_flight(&self, x: i32, z: i32) -> (r: bool)
        ensures
            r == flight_has(self.in_flight(), x as int, z as int),
    {
        self.find_in_flight(x, z).is_some()
    }

    /// Puts `event` behind the requests that wait, unless its chunk
    /// position waits or runs already; says whether it did.
    pub fn enqueue(&mut self, event: ToLoadChunkEvent) -> (added: bool)
        requires
            old(self).wf(),
        ensures
            final(self).wf(),
            final(self).limit() == old(self).limit(),
            final(self).in_flight() == old(self).in_flight(),
            added == !old(self).has(event.x as int, event.z as int),
            added ==> final(self).pending() == old(self).pending().push(event),
            !added ==> final(self).pending() == old(self).pending(),
            final(self).has(event.x as int, event.z as int),
    {
        if self.is_pending(event.x, event.z) || self.is_in_flight(event.x, event.z) {
            return false;
        }
        self.queue.push_back(event);
        proof {
            assert(self.queue@[self.queue@.len() - 1] == event);
        }
        true
    }

    /// Starts the oldest request that waits, where fewer tasks run than the
    /// limit allows: the request leaves the waiting ones and its chunk
    /// position joins the running ones. The caller starts the task.
    pub fn start_next(&mut self) -> (started: Option<ToLoadChunkEvent>)
        requires
            old(self).wf(),
        ensures
            final(self).wf(),
            final(self).limit() == old(self).limit(),
            final(self).in_flight().len() <= final(self).limit(),
            started is Some == (old(self).pending().len() > 0 && old(self).in_flight().len() < old(self).limit()),
            started is None ==> final(self).pending() == old(self).pending() && final(self).in_flight() == old(self).in_flight(),
            started is Some ==> started->0 == old(self).pending()[0] && final(self).pending() == old(self).pending().subrange(1, old(self).pending().len() as int) && final(self).in_flight()
                == old(self).in_flight().push((started->0.x, started->0.z)),
            started is Some ==> flight_has(
                final(self).in_flight(),
                started->0.x as int,
                started->0.z as int,
            ),
    {
        if self.current_tasks.len() >= self.limit {
            return None;
        }
        let ghost before = self.queue@;
        let ghost tasks = self.current_tasks@;
        match self.queue.pop_front() {
            Some(event) => {
                self.current_tasks.push((event.x, event.z));
                proof {
                    let after = self.queue@;
                    let flying = self.current_tasks@;
                    assert(flying[tasks.len() as int] == (event.x, event.z));
                    assert forall|i: int| 0 <= i < after.len() implies after[i] == before[i + 1] by {}
                    assert forall|i: int, j: int| 0 <= i < j < flying.len() implies #[trigger] flying[i]
                        != #[trigger] flying[j] by {
                        if j == tasks.len() {
                            assert(flying[i] == tasks[i]);
                            assert(!(before[0].x == tasks[i].0 && before[0].z == tasks[i].1));
                        }
                    }
                    assert forall|i: int, j: int|
                        0 <= i < after.len() && 0 <= j < flying.len() implies !((
                    #[trigger] after[i]).x == (#[trigger] flying[j]).0 && after[i].z
                        == flying[j].1) by {
                        assert(after[i] == before[i + 1]);
                        if j == tasks.len() {
                            assert(before[0] != before[i + 1]);
                        } else {
                            assert(flying[j] == tasks[j]);
                        }
                    }
                }
                Some(event)
            },
            None => None,
        }
    }

    /// Starts requests, the oldest first, until none waits or as many
    /// tasks run as the limit allows. Returns the started requests in that
    /// order; the caller starts their tasks.
    pub fn start_tasks(&mut self) -> (started: Vec<ToLoadChunkEvent>)
        requires
            old(self).wf(),
        ensures
            final(self).wf(),
            final(self).limit() == old(self).limit(),
            final(self).in_flight().len() <= final(self).limit(),
            started@.len() <= old(self).pending().len(),
            started@ == old(self).pending().subrange(0, started@.len() as int),
            final(self).pending() == old(self).pending().subrange(
                started@.len() as int,
                old(self).pending().len() as int,
            ),
            final(self).in_flight() == old(self).in_flight() + started@.map_values(
                |e: ToLoadChunkEvent| (e.x, e.z),
            ),
            final(self).pending().len() == 0 || final(self).in_flight().len() == final(self).limit(),
    {
        let mut started: Vec<ToLoadChunkEvent> = Vec::new();
        let ghost before = self.queue@;
        let ghost tasks = self.current_tasks@;
        let ghost coords = |e: ToLoadChunkEvent| (e.x, e.z);
        proof {
            assert(self.current_tasks@ =~= tasks + started@.map_values(coords));
            assert(self.queue@ =~= before.subrange(0, before.len() as int));
        }
        loop
            invariant
                self.wf(),
                self.limit() == old(self).limit(),
                before == old(self).pending(),
                tasks == old(self).in_flight(),
                coords == (|e: ToLoadChunkEvent| (e.x, e.z)),
                started@.len() <= before.len(),
                started@ == before.subrange(0, started@.len() as int),
                self.queue@ == before.subrange(started@.len() as int, before.len() as int),
                self.current_tasks@ == tasks + started@.map_values(coords),
            ensures
                self.wf(),
                self.limit() == old(self).limit(),
                started@.len() <= before.len(),
                started@ == before.subrange(0, started@.len() as int),
                self.queue@ == before.subrange(started@.len() as int, before.len() as int),
                self.current_tasks@ == tasks + started@.map_values(coords),
                self.queue@.len() == 0 || self.current_tasks@.len() == self.limit(),
            decreases self.queue@.len(),
        {
            let ghost n = started@.len() as int;
            match self.start_next() {
                Some(event) => {
                    started.push(event);
                    proof {
                        assert(event == before[n]);
                        assert(started@ =~= before.subrange(0, n + 1));
                        assert(self.queue@ =~= before.subrange(n + 1, before.len() as int));
                        assert(self.current_tasks@ =~= tasks + started@.map_values(coords));
                    }
                },
                None => {
                    break ;
                },
            }
        }
        started
    }

    /// Takes the task for chunk position `(x, z)` out of the running ones;
    /// says whether there was one.
    pub fn finish(&mut self, x: i32, z: i32) -> (done: bool)
        requires
            old(self).wf(),
        ensures
            final(self).wf(),
            final(self).limit() == old(self).limit(),
            final(self).pending() == old(self).pending(),
            done == flight_has(old(self).in_flight(), x as int, z as int),
            !flight_has(final(self).in_flight(), x as int, z as int),
            !done ==> final(self).in_flight() == old(self).in_flight(),
            done ==> final(self).in_flight().len() + 1 == old(self).in_flight().len(),
            forall|a: int, b: int|
                !(a == x && b == z) ==> flight_has(final(self).in_flight(), a, b) == flight_has(
                    old(self).in_flight(),
                    a,
                    b,
                ),
    {
        let ghost tasks = self.current_tasks@;
        match self.find_in_flight(x, z) {
            Some(i) => {
                self.current_tasks.remove(i);
                proof {
                    let after = self.current_tasks@;
                    assert forall|k: int| 0 <= k < after.len() implies #[trigger] after[k] == (if k
                        < i {
                        tasks[k]
                    } else {
                        tasks[k + 1]
                    }) by {}
                    assert forall|a: int, b: int| 0 <= a < b < after.len() implies #[trigger] after[a]
                        != #[trigger] after[b] by {
                        let a2 = if a < i {
                            a
                        } else {
                            a + 1
                        };
                        let b2 = if b < i {
                            b
                        } else {
                            b + 1
                        };
                        assert(tasks[a2] != tasks[b2]);
                    }
                    assert(!flight_has(after, x as int, z as int)) by {
                        if flight_has(after, x as int, z as int) {
                            let k = choose|k: int|
                                0 <= k < after.len() && (#[trigger] after[k]).0 == x && after[k].1
                                    == z;
                            let k2 = if k < i {
                                k
                            } else {
                                k + 1
                            };
                            assert(tasks[k2] == tasks[i as int]);
                            if k2 < i {
                                assert(tasks[k2] != tasks[i as int]);
                            } else {
                                assert(tasks[i as int] != tasks[k2]);
                            }
                        }
                    }
                    assert forall|a: int, b: int| !(a == x && b == z) implies flight_has(
                        after,
                        a,
                        b,
                    ) == flight_has(tasks, a, b) by {
                        if flight_has(after, a, b) {
                            let k = choose|k: int|
                                0 <= k < after.len() && (#[trigger] after[k]).0 == a && after[k].1
                                    == b;
                            let k2 = if k < i {
                                k
                            } else {
                                k + 1
                            };
                            assert(tasks[k2].0 == a && tasks[k2].1 == b);
                        }
                        if flight_has(tasks, a, b) {
                            let k = choose|k: int|
                                0 <= k < tasks.len() && (#[trigger] tasks[k]).0 == a && tasks[k].1
                                    == b;
                            let k2 = if k < i {
                                k
                            } else {
                                k - 1
                            };
                            assert(after[k2].0 == a && after[k2].1 == b);
                        }
                    }
                    assert forall|p: int, j: int|
                        0 <= p < self.queue@.len() && 0 <= j < after.len() implies !((
                    #[trigger] self.queue@[p]).x == (#[trigger] after[j]).0 && self.queue@[p].z
                        == after[j].1) by {
                        let j2 = if j < i {
                            j
                        } else {
                            j + 1
                        };
                        assert(after[j] == tasks[j2]);
                    }
                }
                true
            },
            None => false,
        }
    }
}

/// Decides which chunks are loaded and which are unloaded as the viewer
/// moves, and holds the requests and the running tasks.
pub struct StreamingScheduler {
    view_distance: i32,
    player_chunk: Option<(i32, i32)>,
    load_queue: ChunkLoadQueue,
}

/// What a move of the viewer asks the caller to do.
pub struct StreamingUpdate {
    /// Whether the viewer stands in another chunk than before.
    pub moved: bool,
    /// The requests that joined the waiting ones, in that order.
    pub requested: Vec<ToLoadChunkEvent>,
    /// The chunks that were unloaded.
    pub unloaded: Vec<ToUnloadChunkEvent>,
    /// The geometry handles of the chunks that were unloaded, to be
    /// destroyed.
    pub removed: Vec<SectionMeshes>,
}

/// What the result of a task asks the caller to do.
#[derive(Debug, Clone, Copy, PartialEq, Eq, Structural)]
pub enum LoadOutcome {
    /// The chunk is resident now; its geometry is to be made.
    Applied(ChunkToUpdateEvent),
    /// The task brought no chunk for its position; its terrain is still to
    /// be made.
    Generate(ToGenerateChunkEvent),
}

/// Whether an unload notice for chunk position `(x, z)` is among `events`.
pub open spec fn unload_has(events: Seq<ToUnloadChunkEvent>, x: int, z: int) -> bool {
    exists|i: int| 0 <= i < events.len() && (#[trigger] events[i]).x == x && events[i].z == z
}

/// Whether chunk position `(x, z)` lies inside the world: within half the
/// size of the world of the origin along both axes, from -500 up to, not
/// including, 500.
pub open spec fn in_world(x: int, z: int) -> bool {
    let half = WORLD_SIZE as int / 2;
    -half <= x < half && -half <= z < half
}

/// Whether chunk position `(ax, az)` is looked at before `(bx, bz)` when
/// the surroundings of the viewer are scanned: by `x`, then by `z`.
pub open spec fn scan_before(ax: int, az: int, bx: int, bz: int) -> bool {
    ax < bx || (ax == bx && az < bz)
}

/// Whether chunk position `(x, z)` is to be requested when the viewer comes
/// to stand in chunk `(cx, cz)`: it lies within the view distance and
/// inside the world, and is neither resident nor requested nor being
/// loaded.
pub open spec fn wanted(
    chunks: Seq<Chunk>,
    queue: ChunkLoadQueue,
    cx: int,
    cz: int,
    radius: int,
    x: int,
    z: int,
) -> bool {
    &&& in_view(x, z, cx, cz, radius)
    &&& in_world(x, z)
    &&& !has_chunk_at(chunks, x, z)
    &&& !queue.has(x, z)
}

/// The chunk that holds the block at world position `(x, z)`: both divided
/// by 16 and rounded down.
pub open spec fn chunk_of_block(x: int, z: int) -> (int, int) {
    (x / 16, z / 16)
}

/// The chunk that holds the block at world position `(x, z)`.
pub fn viewer_chunk(x: i32, z: i32) -> (c: (i32, i32))
    ensures
        (c.0 as int, c.1 as int) == chunk_of_block(x as int, z as int),
{
    let cx: i64 = crate::world::floor_div_16(x as i64);
    let cz: i64 = crate::world::floor_div_16(z as i64);
    (cx as i32, cz as i32)
}

impl StreamingScheduler {
    /// The distance, in chunks along either axis, up to which chunks are
    /// kept around the viewer.
    pub closed spec fn view_distance(&self) -> int {
        self.view_distance as int
    }

    /// The chunk in which the viewer was last seen.
    pub closed spec fn player_chunk(&self) -> Option<(i32, i32)> {
        self.player_chunk
    }

    /// The requests and the running tasks.
    pub closed spec fn queue(&self) -> ChunkLoadQueue {
        self.load_queue
    }

    /// The scheduler's invariant is that of its queue. It implies that no
    /// more tasks run than the limit allows.
    pub open spec fn wf(&self) -> bool {
        self.queue().wf()
    }

    /// Where chunk position `(x, z)` stands.
    pub open spec fn state(&self, world: WorldData, x: int, z: int) -> ChunkState {
        if world.has_chunk(x, z) {
            ChunkState::Resident
        } else if flight_has(self.queue().in_flight(), x, z) {
            ChunkState::InFlight
        } else if pending_has(self.queue().pending(), x, z) {
            ChunkState::Queued
        } else {
            ChunkState::Unloaded
        }
    }

    /// A scheduler that has not seen the viewer yet.
    pub fn new(view_distance: i32, max_tasks: usize) -> (s: StreamingScheduler)
        ensures
            s.wf(),
            s.view_distance() == view_distance,
            s.player_chunk() is None,
            s.queue().limit() == max_tasks,
            s.queue().pending().len() == 0,
            s.queue().in_flight().len() == 0,
    {
        StreamingScheduler {
            view_distance,
            player_chunk: None,
            load_queue: ChunkLoadQueue::new(max_tasks),
        }
    }

    /// The requests and the running tasks.
    pub fn load_queue(&self) -> (q: &ChunkLoadQueue)
        ensures
            *q == self.queue(),
    {
        &self.load_queue
    }

    /// The chunk in which the viewer was last seen.
    pub fn current_chunk(&self) -> (c: Option<(i32, i32)>)
        ensures
            c == self.player_chunk(),
    {
        self.player_chunk
    }

    /// Where chunk position `(x, z)` stands.
    pub fn state_of(&self, world: &WorldData, x: i32, z: i32) -> (s: ChunkState)
        ensures
            s == self.state(*world, x as int, z as int),
    {
        if world.contains(x, z) {
            ChunkState::Resident
        } else if self.load_queue.is_in_flight(x, z) {
            ChunkState::InFlight
        } else if self.load_queue.is_pending(x, z) {
            ChunkState::Queued
        } else {
            ChunkState::Unloaded
        }
    }

    /// Takes note of the chunk in which the viewer stands. Nothing happens
    /// while that chunk stays the same. When it changes, every chunk
    /// position within the view distance that lies inside the world and is
    /// neither resident nor requested nor being loaded is requested, in the
    /// order of the scan by `x` and then `z`; and every resident chunk
    /// beyond the view distance is unloaded with its geometry handles,
    /// which are returned.
    pub fn loading_and_unloading_chunks(&mut self, new_chunk: (i32, i32), world: &mut WorldData) -> (update:
        StreamingUpdate)
        requires
            old(self).wf(),
            old(world).wf(),
        ensures
            final(self).wf(),
            final(world).wf(),
            final(self).view_distance() == old(self).view_distance(),
            final(self).queue().limit() == old(self).queue().limit(),
            final(self).queue().in_flight() == old(self).queue().in_flight(),
            final(self).player_chunk() == Some(new_chunk),
            update.moved == (old(self).player_chunk() != Some(new_chunk)),
            final(self).queue().pending() == old(self).queue().pending() + update.requested@,
            !update.moved ==> update.requested@.len() == 0 && update.removed@.len() == 0
                && update.unloaded@.len() == 0 && final(world).chunks() == old(world).chunks()
                && final(world).meshes() == old(world).meshes(),
            update.moved ==> {
                let cx = new_chunk.0 as int;
                let cz = new_chunk.1 as int;
                let r = old(self).view_distance();
                &&& forall|i: int|
                    0 <= i < update.requested@.len() ==> wanted(
                        old(world).chunks(),
                        old(self).queue(),
                        cx,
                        cz,
                        r,
                        (#[trigger] update.requested@[i]).x as int,
                        update.requested@[i].z as int,
                    )
                &&& forall|x: int, z: int|
                    wanted(old(world).chunks(), old(self).queue(), cx, cz, r, x, z)
                        ==> #[trigger] pending_has(update.requested@, x, z)
                &&& forall|i: int, j: int|
                    0 <= i < j < update.requested@.len() ==> scan_before(
                        (#[trigger] update.requested@[i]).x as int,
                        update.requested@[i].z as int,
                        (#[trigger] update.requested@[j]).x as int,
                        update.requested@[j].z as int,
                    )
                &&& forall|x: int, z: int|
                    final(world).has_chunk(x, z) == (old(world).has_chunk(x, z) && in_view(
                        x,
                        z,
                        cx,
                        cz,
                        r,
                    ))
                &&& forall|x: int, z: int|
                    final(world).has_chunk(x, z) ==> final(world).chunk(x, z) == old(world).chunk(
                        x,
                        z,
                    )
                &&& forall|x: int, z: int, s: int|
                    final(world).has_meshes(x, z, s) == (old(world).has_meshes(x, z, s) && in_view(
                        x,
                        z,
                        cx,
                        cz,
                        r,
                    ))
                &&& forall|x: int, z: int, s: int|
                    final(world).has_meshes(x, z, s) ==> final(world).handles(x, z, s) == old(world).handles(x, z, s)
                &&& forall|x: int, z: int|
                    wanted(old(world).chunks(), old(self).queue(), cx, cz, r, x, z) ==> #[trigger] final(self).state(*final(world), x, z) == ChunkState::Queued
                &&& forall|x: int, z: int|
                    unload_has(update.unloaded@, x, z) == (old(world).has_chunk(x, z) && !in_view(
                        x,
                        z,
                        cx,
                        cz,
                        r,
                    ))
                &&& meshes_distinct(update.removed@)
                &&& forall|x: int, z: int, s: int|
                    has_meshes_at(update.removed@, x, z, s) == (old(world).has_meshes(x, z, s)
                        && !in_view(x, z, cx, cz, r))
                &&& forall|x: int, z: int, s: int|
                    has_meshes_at(update.removed@, x, z, s) ==> handles_at(update.removed@, x, z, s)
                        == old(world).handles(x, z, s)
            },
    {
        let same = match self.player_chunk {
            Some(c) => c.0 == new_chunk.0 && c.1 == new_chunk.1,
            None => false,
        };
        if same {
            proof {
                assert(self.load_queue.pending() + Seq::<ToLoadChunkEvent>::empty()
                    =~= self.load_queue.pending());
            }
            return StreamingUpdate {
                moved: false,
                requested: Vec::new(),
                unloaded: Vec::new(),
                removed: Vec::new(),
            };
        }
        self.player_chunk = Some(new_chunk);
        let ghost start = self.load_queue;
        let requested = self.request_around(new_chunk.0, new_chunk.1, world);
        let unloaded = leaving(world, new_chunk.0, new_chunk.1, self.view_distance);
        let removed = world.unload_distant(new_chunk.0, new_chunk.1, self.view_distance);
        proof {
            assert forall|x: int, z: int|
                wanted(
                    old(world).chunks(),
                    start,
                    new_chunk.0 as int,
                    new_chunk.1 as int,
                    self.view_distance as int,
                    x,
                    z,
                ) implies #[trigger] self.state(*world, x, z) == ChunkState::Queued by {
                lemma_has_grows(start, self.load_queue, requested@, x, z);
            }
        }
        StreamingUpdate { moved: true, requested, unloaded, removed }
    }

    /// Requests every wanted chunk position around `(center_x, center_z)`,
    /// in the order of the scan.
    fn request_around(&mut self, center_x: i32, center_z: i32, world: &WorldData) -> (requested: Vec<
        ToLoadChunkEvent,
    >)
        requires
            old(self).wf(),
        ensures
            final(self).wf(),
            final(self).view_distance() == old(self).view_distance(),
            final(self).player_chunk() == old(self).player_chunk(),
            final(self).queue().limit() == old(self).queue().limit(),
            final(self).queue().in_flight() == old(self).queue().in_flight(),
            final(self).queue().pending() == old(self).queue().pending() + requested@,
            forall|i: int|
                0 <= i < requested@.len() ==> wanted(
                    world.chunks(),
                    old(self).queue(),
                    center_x as int,
                    center_z as int,
                    old(self).view_distance(),
                    (#[trigger] requested@[i]).x as int,
                    requested@[i].z as int,
                ),
            forall|x: int, z: int|
                wanted(
                    world.chunks(),
                    old(self).queue(),
                    center_x as int,
                    center_z as int,
                    old(self).view_distance(),
                    x,
                    z,
                ) ==> #[trigger] pending_has(requested@, x, z),
            forall|i: int, j: int|
                0 <= i < j < requested@.len() ==> scan_before(
                    (#[trigger] requested@[i]).x as int,
                    requested@[i].z as int,
                    (#[trigger] requested@[j]).x as int,
                    requested@[j].z as int,
                ),
    {
        let mut requested: Vec<ToLoadChunkEvent> = Vec::new();
        let ghost start = self.load_queue;
        let ghost cx = center_x as int;
        let ghost cz = center_z as int;
        let ghost r = self.view_distance as int;
        let ghost chunks = world.chunks();
        proof {
            assert(self.load_queue.pending() =~= start.pending() + requested@);
        }
        if self.view_distance < 0 {
            proof {
                assert forall|x: int, z: int| wanted(chunks, start, cx, cz, r, x, z) implies #[trigger] pending_has(
                    requested@,
                    x,
                    z,
                ) by {
                    assert(!in_view(x, z, cx, cz, r));
                }
            }
            return requested;
        }
        let radius: i64 = self.view_distance as i64;
        let half_world: i64 = (WORLD_SIZE / 2) as i64;
        let first_x: i64 = center_x as i64 - radius;
        let last_x: i64 = center_x as i64 + radius;
        let first_z: i64 = center_z as i64 - radius;
        let last_z: i64 = center_z as i64 + radius;
        let mut x: i64 = first_x;
        while x <= last_x
            invariant
                self.wf(),
                r == self.view_distance as int,
                r >= 0,
                cx == center_x as int,
                cz == center_z as int,
                chunks == world.chunks(),
                radius == r,
                first_x == cx - r,
                last_x == cx + r,
                first_z == cz - r,
                last_z == cz + r,
                first_x <= x <= last_x + 1,
                half_world == 500,
                self.view_distance() == old(self).view_distance(),
                self.player_chunk() == old(self).player_chunk(),
                start == old(self).queue(),
                self.load_queue.limit() == start.limit(),
                self.load_queue.in_flight() == start.in_flight(),
                self.load_queue.pending() == start.pending() + requested@,
                forall|i: int|
                    0 <= i < requested@.len() ==> wanted(
                        chunks,
                        start,
                        cx,
                        cz,
                        r,
                        (#[trigger] requested@[i]).x as int,
                        requested@[i].z as int,
                    ) && requested@[i].x < x,
                forall|a: int, b: int|
                    wanted(chunks, start, cx, cz, r, a, b) && a < x ==> #[trigger] pending_has(
                        requested@,
                        a,
                        b,
                    ),
                forall|i: int, j: int|
                    0 <= i < j < requested@.len() ==> scan_before(
                        (#[trigger] requested@[i]).x as int,
                        requested@[i].z as int,
                        (#[trigger] requested@[j]).x as int,
                        requested@[j].z as int,
                    ),
            decreases last_x + 1 - x,
        {
            let mut z: i64 = first_z;
            while z <= last_z
                invariant
                    self.wf(),
                    r == self.view_distance as int,
                    r >= 0,
                    cx == center_x as int,
                    cz == center_z as int,
                    chunks == world.chunks(),
                    first_x == cx - r,
                    last_x == cx + r,
                    first_z == cz - r,
                    last_z == cz + r,
                    first_x <= x <= last_x,
                    first_z <= z <= last_z + 1,
                    half_world == 500,
                    self.view_distance() == old(self).view_distance(),
                    self.player_chunk() == old(self).player_chunk(),
                    start == old(self).queue(),
                    self.load_queue.limit() == start.limit(),
                    self.load_queue.in_flight() == start.in_flight(),
                    self.load_queue.pending() == start.pending() + requested@,
                    forall|i: int|
                        0 <= i < requested@.len() ==> wanted(
                            chunks,
                            start,
                            cx,
                            cz,
                            r,
                            (#[trigger] requested@[i]).x as int,
                            requested@[i].z as int,
                        ) && scan_before(
                            requested@[i].x as int,
                            requested@[i].z as int,
                            x as int,
                            z as int,
                        ),
                    forall|a: int, b: int|
                        wanted(chunks, start, cx, cz, r, a, b) && scan_before(a, b, x as int, z as int)
                            ==> #[trigger] pending_has(requested@, a, b),
                    forall|i: int, j: int|
                        0 <= i < j < requested@.len() ==> scan_before(
                            (#[trigger] requested@[i]).x as int,
                            requested@[i].z as int,
                            (#[trigger] requested@[j]).x as int,
                            requested@[j].z as int,
                        ),
                decreases last_z + 1 - z,
            {
                let ghost before = requested@;
                let ghost queue_before = self.load_queue;
                let mut added: bool = false;
                if -half_world <= x && x < half_world && -half_world <= z && z < half_world {
                    if !world.contains(x as i32, z as i32) {
                        let event = ToLoadChunkEvent { x: x as i32, z: z as i32 };
                        added = self.load_queue.enqueue(event);
                        if added {
                            requested.push(event);
                        }
                    }
                }
                proof {
                    let now = requested@;
                    assert(self.load_queue.pending() =~= start.pending() + now);
                    lemma_has_grows(start, queue_before, before, x as int, z as int);
                    assert(in_view(x as int, z as int, cx, cz, r));
                    if added {
                        assert(now[before.len() as int].x == x && now[before.len() as int].z == z);
                        assert(pending_has(now, x as int, z as int));
                    }
                    assert forall|a: int, b: int|
                        wanted(chunks, start, cx, cz, r, a, b) && scan_before(
                            a,
                            b,
                            x as int,
                            z + 1,
                        ) implies #[trigger] pending_has(now, a, b) by {
                        if a == x && b == z {
                            assert(added);
                        } else {
                            assert(scan_before(a, b, x as int, z as int));
                            assert(pending_has(before, a, b));
                            let k = choose|k: int|
                                0 <= k < before.len() && (#[trigger] before[k]).x == a
                                    && before[k].z == b;
                            assert(now[k] == before[k]);
                        }
                    }
                }
                z += 1;
            }
            proof {
                assert forall|a: int, b: int|
                    wanted(chunks, start, cx, cz, r, a, b) && a < x + 1 implies #[trigger] pending_has(
                    requested@,
                    a,
                    b,
                ) by {
                    assert(in_view(a, b, cx, cz, r));
                    assert(scan_before(a, b, x as int, z as int));
                }
            }
            x += 1;
        }
        proof {
            assert forall|a: int, b: int| wanted(chunks, start, cx, cz, r, a, b) implies #[trigger] pending_has(
                requested@,
                a,
                b,
            ) by {
                assert(in_view(a, b, cx, cz, r));
            }
        }
        requested
    }

    /// Starts requests, the oldest first, until none waits or as many
    /// tasks run as the limit allows; the caller starts their tasks.
    pub fn start_tasks(&mut self) -> (started: Vec<ToLoadChunkEvent>)
        requires
            old(self).wf(),
        ensures
            final(self).wf(),
            final(self).view_distance() == old(self).view_distance(),
            final(self).player_chunk() == old(self).player_chunk(),
            final(self).queue().limit() == old(self).queue().limit(),
            final(self).queue().in_flight().len() <= final(self).queue().limit(),
            started@.len() <= old(self).queue().pending().len(),
            started@ == old(self).queue().pending().subrange(0, started@.len() as int),
            final(self).queue().pending() == old(self).queue().pending().subrange(
                started@.len() as int,
                old(self).queue().pending().len() as int,
            ),
            final(self).queue().in_flight() == old(self).queue().in_flight()
                + started@.map_values(|e: ToLoadChunkEvent| (e.x, e.z)),
            final(self).queue().pending().len() == 0 || final(self).queue().in_flight().len()
                == final(self).queue().limit(),
    {
        self.load_queue.start_tasks()
    }

    /// Takes the result of the task for chunk position `(x, z)`: the task
    /// no longer runs. Where `chunk` stands at `(x, z)` and holds sections,
    /// it becomes the resident chunk there and a notice of change is
    /// returned. An empty chunk is not applied: the terrain of the position
    /// is still to be made.
    pub fn complete_load(&mut self, x: i32, z: i32, chunk: Chunk, world: &mut WorldData) -> (outcome:
        LoadOutcome)
        requires
            old(self).wf(),
            old(world).wf(),
        ensures
            final(self).wf(),
            final(world).wf(),
            final(self).view_distance() == old(self).view_distance(),
            final(self).player_chunk() == old(self).player_chunk(),
            final(self).queue().limit() == old(self).queue().limit(),
            final(self).queue().pending() == old(self).queue().pending(),
            !flight_has(final(self).queue().in_flight(), x as int, z as int),
            final(self).queue().in_flight().len() <= old(self).queue().in_flight().len(),
            forall|a: int, b: int|
                !(a == x && b == z) ==> flight_has(final(self).queue().in_flight(), a, b)
                    == flight_has(old(self).queue().in_flight(), a, b),
            outcome == (if chunk.x == x && chunk.z == z && chunk.sections@.len() > 0 {
                LoadOutcome::Applied(ChunkToUpdateEvent { x, z })
            } else {
                LoadOutcome::Generate(ToGenerateChunkEvent { x, z })
            }),
            outcome is Generate ==> final(world).chunks() == old(world).chunks(),
            final(world).meshes() == old(world).meshes(),
            outcome is Applied ==> final(world).has_chunk(x as int, z as int) && final(world).chunk(
                x as int,
                z as int,
            ) == chunk,
            outcome is Applied ==> final(self).state(*final(world), x as int, z as int)
                == ChunkState::Resident,
            forall|a: int, b: int|
                !(a == x && b == z) ==> final(world).has_chunk(a, b) == old(world).has_chunk(a, b),
            forall|a: int, b: int|
                !(a == x && b == z) && old(world).has_chunk(a, b) ==> final(world).chunk(a, b)
                    == old(world).chunk(a, b),
    {
        self.load_queue.finish(x, z);
        if chunk.x == x && chunk.z == z && chunk.sections.len() > 0 {
            world.insert_chunk(chunk);
            LoadOutcome::Applied(ChunkToUpdateEvent { x, z })
        } else {
            LoadOutcome::Generate(ToGenerateChunkEvent { x, z })
        }
    }

    /// Takes note that the task for chunk position `(x, z)` failed: it no
    /// longer runs, and nothing else changes. The position may be requested
    /// again later.
    pub fn fail_load(&mut self, x: i32, z: i32) -> (was_running: bool)
        requires
            old(self).wf(),
        ensures
            final(self).wf(),
            final(self).view_distance() == old(self).view_distance(),
            final(self).player_chunk() == old(self).player_chunk(),
            final(self).queue().limit() == old(self).queue().limit(),
            final(self).queue().pending() == old(self).queue().pending(),
            was_running == flight_has(old(self).queue().in_flight(), x as int, z as int),
            !flight_has(final(self).queue().in_flight(), x as int, z as int),
            final(self).queue().in_flight().len() <= old(self).queue().in_flight().len(),
            forall|a: int, b: int|
                !(a == x && b == z) ==> flight_has(final(self).queue().in_flight(), a, b)
                    == flight_has(old(self).queue().in_flight(), a, b),
    {
        self.load_queue.finish(x, z)
    }
}

/// The resident chunks that lie beyond `view_distance` chunks of
/// `(center_x, center_z)`.
fn leaving(world: &WorldData, center_x: i32, center_z: i32, view_distance: i32) -> (events: Vec<
    ToUnloadChunkEvent,
>)
    ensures
        forall|x: int, z: int|
            unload_has(events@, x, z) == (world.has_chunk(x, z) && !in_view(
                x,
                z,
                center_x as int,
                center_z as int,
                view_distance as int,
            )),
{
    let positions = world.loaded_positions();
    let ghost chunks = world.chunks();
    let mut events: Vec<ToUnloadChunkEvent> = Vec::new();
    let mut i: usize = 0;
    while i < positions.len()
        invariant
            i <= positions@.len(),
            chunks == world.chunks(),
            positions@.len() == chunks.len(),
            forall|k: int|
                0 <= k < positions@.len() ==> (#[trigger] positions@[k]) == (chunks[k].x, chunks[k].z),
            forall|k: int|
                0 <= k < events@.len() ==> has_chunk_at(
                    chunks,
                    (#[trigger] events@[k]).x as int,
                    events@[k].z as int,
                ) && !in_view(
                    events@[k].x as int,
                    events@[k].z as int,
                    center_x as int,
                    center_z as int,
                    view_distance as int,
                ),
            forall|k: int|
                0 <= k < i && !in_view(
                    (#[trigger] chunks[k]).x as int,
                    chunks[k].z as int,
                    center_x as int,
                    center_z as int,
                    view_distance as int,
                ) ==> unload_has(events@, chunks[k].x as int, chunks[k].z as int),
        decreases positions@.len() - i,
    {
        let (x, z) = positions[i];
        let ghost before = events@;
        if !within_view(x, z, center_x, center_z, view_distance) {
            events.push(ToUnloadChunkEvent { x, z });
            proof {
                assert(events@[before.len() as int].x == x && events@[before.len() as int].z == z);
                assert(chunks[i as int].x == x && chunks[i as int].z == z);
            }
        }
        proof {
            assert(positions@[i as int] == (chunks[i as int].x, chunks[i as int].z));
            assert forall|k: int|
                0 <= k < i + 1 && !in_view(
                    (#[trigger] chunks[k]).x as int,
                    chunks[k].z as int,
                    center_x as int,
                    center_z as int,
                    view_distance as int,
                ) implies unload_has(events@, chunks[k].x as int, chunks[k].z as int) by {
                if k < i {
                    let m = choose|m: int|
                        0 <= m < before.len() && (#[trigger] before[m]).x == chunks[k].x
                            && before[m].z == chunks[k].z;
                    assert(events@[m] == before[m]);
                } else {
                    assert(events@[before.len() as int].x == chunks[k].x);
                }
            }
        }
        i += 1;
    }
    proof {
        assert forall|x: int, z: int|
            unload_has(events@, x, z) == (world.has_chunk(x, z) && !in_view(
                x,
                z,
                center_x as int,
                center_z as int,
                view_distance as int,
            )) by {
            if unload_has(events@, x, z) {
                let m = choose|m: int|
                    0 <= m < events@.len() && (#[trigger] events@[m]).x == x && events@[m].z == z;
                assert(has_chunk_at(chunks, events@[m].x as int, events@[m].z as int));
            }
            if world.has_chunk(x, z) && !in_view(
                x,
                z,
                center_x as int,
                center_z as int,
                view_distance as int,
            ) {
                let k = choose|k: int|
                    0 <= k < chunks.len() && (#[trigger] chunks[k]).x == x && chunks[k].z == z;
                assert(unload_has(events@, chunks[k].x as int, chunks[k].z as int));
            }
        }
    }
    events
}

/// A queue that grew by requests behind those of `start` holds whatever
/// `start` or the new requests hold, and nothing else.
proof fn lemma_has_grows(
    start: ChunkLoadQueue,
    now: ChunkLoadQueue,
    added: Seq<ToLoadChunkEvent>,
    x: int,
    z: int,
)
    requires
        now.pending() == start.pending() + added,
        now.in_flight() == start.in_flight(),
    ensures
        now.has(x, z) == (start.has(x, z) || pending_has(added, x, z)),
{
    let all = now.pending();
    let first = start.pending();
    if pending_has(all, x, z) {
        let k = choose|k: int| 0 <= k < all.len() && (#[trigger] all[k]).x == x && all[k].z == z;
        if k < first.len() {
            assert(first[k] == all[k]);
        } else {
            assert(added[k - first.len()] == all[k]);
        }
    }
    if pending_has(first, x, z) {
        let k = choose|k: int| 0 <= k < first.len() && (#[trigger] first[k]).x == x && first[k].z == z;
        assert(all[k] == first[k]);
    }
    if pending_has(added, x, z) {
        let k = choose|k: int| 0 <= k < added.len() && (#[trigger] added[k]).x == x && added[k].z == z;
        assert(all[first.len() + k] == added[k]);
    }
}

} // verus!
