//! Engine-agnostic metrics collection for voxel world statistics.
//!
//! Chunk statistics are kept per LOD (LODs above 15, and negative ones, share
//! the last slot); timings are kept in rolling windows of recent values.
use std::collections::VecDeque;
use vstd::prelude::*;
use vstd::std_specs::iter::IteratorSpec;

verus! {

/// Whether metrics are collected. Collection is always on in this library;
/// a host that wants a runtime switch checks its own flag before recording.
pub fn is_enabled() -> (b: bool)
    ensures
        b,
{
    true
}

/// The sum of a sequence of counters.
pub open spec fn seq_sum(s: Seq<u64>) -> int
    decreases s.len(),
{
    if s.len() == 0 {
        0
    } else {
        seq_sum(s.drop_last()) + s.last()
    }
}

/// The sum of a sequence of 32-bit counters.
pub open spec fn seq_sum_u32(s: Seq<u32>) -> int
    decreases s.len(),
{
    if s.len() == 0 {
        0
    } else {
        seq_sum_u32(s.drop_last()) + s.last()
    }
}

/// A prefix sums to no more than the whole.
pub proof fn lemma_seq_sum_prefix(s: Seq<u64>, i: int)
    requires
        0 <= i <= s.len(),
    ensures
        0 <= seq_sum(s.take(i)) <= seq_sum(s),
        i < s.len() ==> seq_sum(s.take(i + 1)) == seq_sum(s.take(i)) + s[i],
    decreases s.len(),
{
    if i < s.len() {
        assert(s.take(i + 1).drop_last() =~= s.take(i));
    }
    if s.len() > 0 {
        if i == s.len() {
            assert(s.take(i) =~= s);
            lemma_seq_sum_prefix(s.drop_last(), 0);
            assert(s.drop_last().take(0) =~= s.take(0));
        } else {
            lemma_seq_sum_prefix(s.drop_last(), i);
            assert(s.drop_last().take(i) =~= s.take(i));
        }
    } else {
        assert(s.take(i) =~= s);
    }
}

/// A prefix sums to no more than the whole (32-bit counters).
pub proof fn lemma_seq_sum_u32_prefix(s: Seq<u32>, i: int)
    requires
        0 <= i <= s.len(),
    ensures
        0 <= seq_sum_u32(s.take(i)) <= seq_sum_u32(s),
        i < s.len() ==> seq_sum_u32(s.take(i + 1)) == seq_sum_u32(s.take(i)) + s[i],
    decreases s.len(),
{
    if i < s.len() {
        assert(s.take(i + 1).drop_last() =~= s.take(i));
    }
    if s.len() > 0 {
        if i == s.len() {
            assert(s.take(i) =~= s);
            lemma_seq_sum_u32_prefix(s.drop_last(), 0);
            assert(s.drop_last().take(0) =~= s.take(0));
        } else {
            lemma_seq_sum_u32_prefix(s.drop_last(), i);
            assert(s.drop_last().take(i) =~= s.take(i));
        }
    } else {
        assert(s.take(i) =~= s);
    }
}

/// The window contents after pushing `v` into `s` with capacity `cap`: the
/// oldest value is evicted when the window already holds `cap` or more.
pub open spec fn window_push<T>(s: Seq<T>, cap: nat, v: T) -> Seq<T> {
    if s.len() >= cap && s.len() > 0 {
        s.subrange(1, s.len() as int).push(v)
    } else {
        s.push(v)
    }
}

/// A push makes `v` the newest value and never lets the window grow past
/// its capacity (or past one value, for capacity 0).
pub proof fn lemma_window_push<T>(s: Seq<T>, cap: nat, v: T)
    ensures
        window_push(s, cap, v).last() == v,
        window_push(s, cap, v).len() > 0,
        s.len() <= (if cap > 0 { cap } else { 1 }) ==> window_push(s, cap, v).len() <= (if cap > 0 {
            cap
        } else {
            1
        }),
        s.len() < cap ==> window_push(s, cap, v) == s.push(v),
{
}

/// Rolling window of recent values (e.g., timing history), oldest first.
#[derive(Debug, Clone)]
pub struct RollingWindow<T> {
    buffer: VecDeque<T>,
    capacity: usize,
}

impl<T> View for RollingWindow<T> {
    type V = Seq<T>;

    closed spec fn view(&self) -> Seq<T> {
        self.buffer@
    }
}

impl<T> RollingWindow<T> {
    /// The capacity the window was made with.
    pub closed spec fn cap(&self) -> nat {
        self.capacity as nat
    }

    /// Create a new rolling window with the given capacity.
    pub fn new(capacity: usize) -> (w: Self)
        ensures
            w@ == Seq::<T>::empty(),
            w.cap() == capacity,
    {
        RollingWindow { buffer: VecDeque::with_capacity(capacity), capacity }
    }

    /// Push a new value, evicting the oldest if at capacity.
    pub fn push(&mut self, value: T)
        ensures
            final(self)@ == window_push(old(self)@, old(self).cap(), value),
            final(self).cap() == old(self).cap(),
    {
        broadcast use vstd::std_specs::vecdeque::group_vec_dequeue_axioms;

        if self.buffer.len() >= self.capacity {
            let _ = self.buffer.pop_front();
        }
        self.buffer.push_back(value);
    }

    /// The number of values in the window.
    pub fn len(&self) -> (n: usize)
        ensures
            n == self@.len(),
    {
        broadcast use vstd::std_specs::vecdeque::group_vec_dequeue_axioms;

        self.buffer.len()
    }

    /// Whether the window is empty.
    pub fn is_empty(&self) -> (b: bool)
        ensures
            b == (self@.len() == 0),
    {
        broadcast use vstd::std_specs::vecdeque::group_vec_dequeue_axioms;

        self.buffer.len() == 0
    }

    /// Remove all values.
    pub fn clear(&mut self)
        ensures
            final(self)@ == Seq::<T>::empty(),
            final(self).cap() == old(self).cap(),
    {
        self.buffer.clear();
    }

    /// Iterate over the values, oldest to newest.
    pub fn iter(&self) -> (it: std::collections::vec_deque::Iter<'_, T>)
        ensures
            it.remaining().unref() == self@,
    {
        broadcast use vstd::std_specs::vecdeque::group_vec_dequeue_axioms;

        let it = self.buffer.iter();
        proof {
            assert(it.remaining().unref() =~= self@);
        }
        it
    }

    /// The most recent value.
    pub fn last(&self) -> (r: Option<&T>)
        ensures
            self@.len() == 0 ==> r is None,
            self@.len() > 0 ==> r == Some(&self@.last()),
    {
        broadcast use vstd::std_specs::vecdeque::group_vec_dequeue_axioms;

        let n = self.buffer.len();
        if n == 0 {
            None
        } else {
            Some(&self.buffer[n - 1])
        }
    }

    /// All values, oldest first (for histogram rendering).
    pub fn as_slice(&self) -> (d: &VecDeque<T>)
        ensures
            d@ == self@,
    {
        &self.buffer
    }
}

impl RollingWindow<u64> {
    /// The sum of all values (which must fit in a `u64`).
    pub fn sum(&self) -> (total: u64)
        requires
            seq_sum(self@) <= u64::MAX,
        ensures
            total == seq_sum(self@),
    {
        broadcast use vstd::std_specs::vecdeque::group_vec_dequeue_axioms;

        let mut total: u64 = 0;
        let mut i: usize = 0;
        while i < self.buffer.len()
            invariant
                i <= self@.len(),
                total == seq_sum(self@.take(i as int)),
                seq_sum(self@) <= u64::MAX,
            decreases self@.len() - i,
        {
            proof {
                lemma_seq_sum_prefix(self@, i as int);
                lemma_seq_sum_prefix(self@, i as int + 1);
            }
            total = total + self.buffer[i];
            i = i + 1;
        }
        proof {
            assert(self@.take(i as int) =~= self@);
        }
        total
    }

    /// The smallest and the largest value, or `None` when empty.
    pub fn min_max(&self) -> (r: Option<(u64, u64)>)
        ensures
            self@.len() == 0 <==> r is None,
            r matches Some((lo, hi)) ==> {
                &&& self@.contains(lo)
                &&& self@.contains(hi)
                &&& forall|i: int| 0 <= i < self@.len() ==> lo <= #[trigger] self@[i] <= hi
            },
    {
        broadcast use vstd::std_specs::vecdeque::group_vec_dequeue_axioms;

        let n = self.buffer.len();
        if n == 0 {
            return None;
        }
        let mut lo = self.buffer[0];
        let mut hi = self.buffer[0];
        let mut i: usize = 1;
        while i < n
            invariant
                1 <= i <= n,
                n == self@.len(),
                self@.contains(lo),
                self@.contains(hi),
                forall|j: int| 0 <= j < i ==> lo <= #[trigger] self@[j] <= hi,
            decreases n - i,
        {
            let v = self.buffer[i];
            if v < lo {
                lo = v;
            }
            if v > hi {
                hi = v;
            }
            i = i + 1;
        }
        Some((lo, hi))
    }
}

impl Default for RollingWindow<u64> {
    /// A window of 128 samples (about 2 seconds at 60 fps).
    fn default() -> (w: Self)
        ensures
            w@ == Seq::<u64>::empty(),
            w.cap() == 128,
    {
        RollingWindow::new(128)
    }
}

/// The per-LOD slot for `lod`: the LOD itself up to 15, else 15.
pub open spec fn lod_slot(lod: i32) -> int {
    if 0 <= lod <= 15 {
        lod as int
    } else {
        15
    }
}

fn lod_slot_of(lod: i32) -> (i: usize)
    ensures
        i == lod_slot(lod),
{
    if 0 <= lod && lod <= 15 {
        lod as usize
    } else {
        15
    }
}

/// Approximate mesh memory of a chunk: 32 bytes per vertex, 4 per index.
pub open spec fn chunk_memory(vertex_count: u32, index_count: u32) -> int {
    vertex_count * 32 + index_count * 4
}

/// World-level statistics updated each refinement cycle.
#[derive(Debug, Clone)]
pub struct WorldMetrics {
    /// Count of leaf nodes at each LOD level (index = LOD).
    pub leaves_per_lod: [u32; 16],
    /// Vertex count per LOD level.
    pub vertices_per_lod: [u64; 16],
    /// Index count per LOD level.
    pub indices_per_lod: [u64; 16],
    /// Number of currently visible nodes.
    pub visible_nodes: u32,
    /// Total visible triangles (indices / 3).
    pub visible_triangles: u64,
    /// Approximate mesh memory usage (vertices + indices).
    pub mesh_memory_bytes: u64,
    /// Approximate octree memory overhead.
    pub octree_memory_bytes: u64,
    /// Rolling window of mesh generation times in microseconds.
    pub mesh_timings: RollingWindow<u64>,
    /// Rolling window of refinement times in microseconds.
    pub refine_timings: RollingWindow<u64>,
    /// Rolling window of sample times in microseconds.
    pub sample_timings: RollingWindow<u64>,
    /// Last refinement time in microseconds.
    pub last_refine_us: u64,
    /// Last mesh generation time in microseconds.
    pub last_mesh_us: u64,
    /// Total chunks generated this session.
    pub total_chunks_generated: u64,
}

/// All counters of `m` other than the cumulative chunk total are zero and its
/// timing windows are empty.
pub open spec fn is_cleared(m: WorldMetrics) -> bool {
    &&& forall|i: int| 0 <= i < 16 ==> m.leaves_per_lod@[i] == 0
    &&& forall|i: int| 0 <= i < 16 ==> m.vertices_per_lod@[i] == 0
    &&& forall|i: int| 0 <= i < 16 ==> m.indices_per_lod@[i] == 0
    &&& m.visible_nodes == 0
    &&& m.visible_triangles == 0
    &&& m.mesh_memory_bytes == 0
    &&& m.octree_memory_bytes == 0
    &&& m.mesh_timings@ == Seq::<u64>::empty()
    &&& m.refine_timings@ == Seq::<u64>::empty()
    &&& m.sample_timings@ == Seq::<u64>::empty()
    &&& m.last_refine_us == 0
    &&& m.last_mesh_us == 0
}

impl Default for WorldMetrics {
    fn default() -> (m: Self)
        ensures
            is_cleared(m),
            m.total_chunks_generated == 0,
            m.mesh_timings.cap() == 128,
            m.refine_timings.cap() == 128,
            m.sample_timings.cap() == 128,
    {
        WorldMetrics {
            leaves_per_lod: [0u32; 16],
            vertices_per_lod: [0u64; 16],
            indices_per_lod: [0u64; 16],
            visible_nodes: 0,
            visible_triangles: 0,
            mesh_memory_bytes: 0,
            octree_memory_bytes: 0,
            mesh_timings: RollingWindow::new(128),
            refine_timings: RollingWindow::new(128),
            sample_timings: RollingWindow::new(128),
            last_refine_us: 0,
            last_mesh_us: 0,
            total_chunks_generated: 0,
        }
    }
}

/// The counters a chunk adds: the slot of its LOD, the leaf, vertex, index,
/// memory, visible node and triangle counts, and the chunk total.
pub open spec fn chunk_fits(m: WorldMetrics, lod: i32, vertex_count: u32, index_count: u32) -> bool {
    let s = lod_slot(lod);
    &&& m.leaves_per_lod@[s] < u32::MAX
    &&& m.vertices_per_lod@[s] + vertex_count <= u64::MAX
    &&& m.indices_per_lod@[s] + index_count <= u64::MAX
    &&& m.mesh_memory_bytes + chunk_memory(vertex_count, index_count) <= u64::MAX
    &&& m.visible_nodes < u32::MAX
    &&& m.visible_triangles + index_count / 3 <= u64::MAX
    &&& m.total_chunks_generated < u64::MAX
}

/// Subtraction that stops at zero.
pub open spec fn sat_sub(a: int, b: int) -> int {
    if a >= b {
        a - b
    } else {
        0
    }
}

impl WorldMetrics {
    /// Create new metrics with default values.
    pub fn new() -> (m: Self)
        ensures
            is_cleared(m),
            m.total_chunks_generated == 0,
            m.mesh_timings.cap() == 128,
            m.refine_timings.cap() == 128,
            m.sample_timings.cap() == 128,
    {
        WorldMetrics::default()
    }

    /// Reset all metrics to zero, except the cumulative chunk total.
    pub fn reset(&mut self)
        ensures
            is_cleared(*final(self)),
            final(self).total_chunks_generated == old(self).total_chunks_generated,
            final(self).mesh_timings.cap() == old(self).mesh_timings.cap(),
            final(self).refine_timings.cap() == old(self).refine_timings.cap(),
            final(self).sample_timings.cap() == old(self).sample_timings.cap(),
    {
        let mut i: usize = 0;
        while i < 16
            invariant
                i <= 16,
                forall|j: int| 0 <= j < i ==> self.leaves_per_lod@[j] == 0,
                forall|j: int| 0 <= j < i ==> self.vertices_per_lod@[j] == 0,
                forall|j: int| 0 <= j < i ==> self.indices_per_lod@[j] == 0,
                self.total_chunks_generated == old(self).total_chunks_generated,
                self.mesh_timings == old(self).mesh_timings,
                self.refine_timings == old(self).refine_timings,
                self.sample_timings == old(self).sample_timings,
            decreases 16 - i,
        {
            self.leaves_per_lod[i] = 0;
            self.vertices_per_lod[i] = 0;
            self.indices_per_lod[i] = 0;
            i = i + 1;
        }
        self.visible_nodes = 0;
        self.visible_triangles = 0;
        self.mesh_memory_bytes = 0;
        self.octree_memory_bytes = 0;
        self.mesh_timings.clear();
        self.refine_timings.clear();
        self.sample_timings.clear();
        self.last_refine_us = 0;
        self.last_mesh_us = 0;
    }

    /// Record a mesh generation timing.
    pub fn record_mesh_timing(&mut self, timing_us: u64)
        ensures
            final(self).mesh_timings@ == window_push(
                old(self).mesh_timings@,
                old(self).mesh_timings.cap(),
                timing_us,
            ),
            final(self).mesh_timings.cap() == old(self).mesh_timings.cap(),
            final(self).last_mesh_us == timing_us,
            *final(self) == (WorldMetrics {
                mesh_timings: final(self).mesh_timings,
                last_mesh_us: timing_us,
                ..*old(self)
            }),
    {
        if is_enabled() {
            self.mesh_timings.push(timing_us);
            self.last_mesh_us = timing_us;
        }
    }

    /// Record a refinement timing.
    pub fn record_refine_timing(&mut self, timing_us: u64)
        ensures
            final(self).refine_timings@ == window_push(
                old(self).refine_timings@,
                old(self).refine_timings.cap(),
                timing_us,
            ),
            final(self).refine_timings.cap() == old(self).refine_timings.cap(),
            final(self).last_refine_us == timing_us,
            *final(self) == (WorldMetrics {
                refine_timings: final(self).refine_timings,
                last_refine_us: timing_us,
                ..*old(self)
            }),
    {
        if is_enabled() {
            self.refine_timings.push(timing_us);
            self.last_refine_us = timing_us;
        }
    }

    /// Record a sample timing.
    pub fn record_sample_timing(&mut self, timing_us: u64)
        ensures
            final(self).sample_timings@ == window_push(
                old(self).sample_timings@,
                old(self).sample_timings.cap(),
                timing_us,
            ),
            final(self).sample_timings.cap() == old(self).sample_timings.cap(),
            *final(self) == (WorldMetrics { sample_timings: final(self).sample_timings, ..*old(self) }),
    {
        if is_enabled() {
            self.sample_timings.push(timing_us);
        }
    }

    /// Record the statistics of a chunk (LOD, vertex count, index count).
    pub fn record_chunk(&mut self, lod: i32, vertex_count: u32, index_count: u32)
        requires
            chunk_fits(*old(self), lod, vertex_count, index_count),
        ensures
            ({
                let s = lod_slot(lod);
                let o = *old(self);
                let f = *final(self);
                &&& f.leaves_per_lod@ == o.leaves_per_lod@.update(s, (o.leaves_per_lod@[s] + 1) as u32)
                &&& f.vertices_per_lod@ == o.vertices_per_lod@.update(
                    s,
                    (o.vertices_per_lod@[s] + vertex_count) as u64,
                )
                &&& f.indices_per_lod@ == o.indices_per_lod@.update(
                    s,
                    (o.indices_per_lod@[s] + index_count) as u64,
                )
                &&& f.mesh_memory_bytes == o.mesh_memory_bytes + chunk_memory(vertex_count, index_count)
                &&& f.visible_nodes == o.visible_nodes + 1
                &&& f.visible_triangles == o.visible_triangles + index_count / 3
                &&& f.total_chunks_generated == o.total_chunks_generated + 1
                &&& f == WorldMetrics {
                    leaves_per_lod: f.leaves_per_lod,
                    vertices_per_lod: f.vertices_per_lod,
                    indices_per_lod: f.indices_per_lod,
                    mesh_memory_bytes: f.mesh_memory_bytes,
                    visible_nodes: f.visible_nodes,
                    visible_triangles: f.visible_triangles,
                    total_chunks_generated: f.total_chunks_generated,
                    ..o
                }
            }),
    {
        if !is_enabled() {
            return ;
        }
        let i = lod_slot_of(lod);
        self.leaves_per_lod[i] = self.leaves_per_lod[i] + 1;
        self.vertices_per_lod[i] = self.vertices_per_lod[i] + vertex_count as u64;
        self.indices_per_lod[i] = self.indices_per_lod[i] + index_count as u64;
        let memory = (vertex_count as u64 * 32) + (index_count as u64 * 4);
        self.mesh_memory_bytes = self.mesh_memory_bytes + memory;
        self.visible_nodes = self.visible_nodes + 1;
        self.visible_triangles = self.visible_triangles + (index_count / 3) as u64;
        self.total_chunks_generated = self.total_chunks_generated + 1;
    }

    /// Remove the statistics of a chunk (when it is despawned); every counter
    /// stops at zero.
    pub fn remove_chunk(&mut self, lod: i32, vertex_count: u32, index_count: u32)
        ensures
            ({
                let s = lod_slot(lod);
                let o = *old(self);
                let f = *final(self);
                &&& f.leaves_per_lod@ == o.leaves_per_lod@.update(s, sat_sub(o.leaves_per_lod@[s] as int, 1) as u32)
                &&& f.vertices_per_lod@ == o.vertices_per_lod@.update(
                    s,
                    sat_sub(o.vertices_per_lod@[s] as int, vertex_count as int) as u64,
                )
                &&& f.indices_per_lod@ == o.indices_per_lod@.update(
                    s,
                    sat_sub(o.indices_per_lod@[s] as int, index_count as int) as u64,
                )
                &&& f.mesh_memory_bytes == sat_sub(
                    o.mesh_memory_bytes as int,
                    chunk_memory(vertex_count, index_count),
                )
                &&& f.visible_nodes == sat_sub(o.visible_nodes as int, 1)
                &&& f.visible_triangles == sat_sub(o.visible_triangles as int, (index_count / 3) as int)
                &&& f == WorldMetrics {
                    leaves_per_lod: f.leaves_per_lod,
                    vertices_per_lod: f.vertices_per_lod,
                    indices_per_lod: f.indices_per_lod,
                    mesh_memory_bytes: f.mesh_memory_bytes,
                    visible_nodes: f.visible_nodes,
                    visible_triangles: f.visible_triangles,
                    ..o
                }
            }),
    {
        if !is_enabled() {
            return ;
        }
        let i = lod_slot_of(lod);
        self.leaves_per_lod[i] = self.leaves_per_lod[i].saturating_sub(1);
        self.vertices_per_lod[i] = self.vertices_per_lod[i].saturating_sub(vertex_count as u64);
        self.indices_per_lod[i] = self.indices_per_lod[i].saturating_sub(index_count as u64);
        let memory = (vertex_count as u64 * 32) + (index_count as u64 * 4);
        self.mesh_memory_bytes = self.mesh_memory_bytes.saturating_sub(memory);
        self.visible_nodes = self.visible_nodes.saturating_sub(1);
        self.visible_triangles = self.visible_triangles.saturating_sub((index_count / 3) as u64);
    }

    /// The total leaf count across all LODs (which must fit in a `u32`).
    pub fn total_leaves(&self) -> (t: u32)
        requires
            seq_sum_u32(self.leaves_per_lod@) <= u32::MAX,
        ensures
            t == seq_sum_u32(self.leaves_per_lod@),
    {
        let mut t: u32 = 0;
        let mut i: usize = 0;
        while i < 16
            invariant
                i <= 16,
                self.leaves_per_lod@.len() == 16,
                t == seq_sum_u32(self.leaves_per_lod@.take(i as int)),
                seq_sum_u32(self.leaves_per_lod@) <= u32::MAX,
            decreases 16 - i,
        {
            proof {
                lemma_seq_sum_u32_prefix(self.leaves_per_lod@, i as int);
                lemma_seq_sum_u32_prefix(self.leaves_per_lod@, i as int + 1);
            }
            t = t + self.leaves_per_lod[i];
            i = i + 1;
        }
        proof {
            assert(self.leaves_per_lod@.take(16) =~= self.leaves_per_lod@);
        }
        t
    }

    /// The total vertex count across all LODs (which must fit in a `u64`).
    pub fn total_vertices(&self) -> (t: u64)
        requires
            seq_sum(self.vertices_per_lod@) <= u64::MAX,
        ensures
            t == seq_sum(self.vertices_per_lod@),
    {
        sum_counters(&self.vertices_per_lod)
    }

    /// The total index count across all LODs (which must fit in a `u64`).
    pub fn total_indices(&self) -> (t: u64)
        requires
            seq_sum(self.indices_per_lod@) <= u64::MAX,
        ensures
            t == seq_sum(self.indices_per_lod@),
    {
        sum_counters(&self.indices_per_lod)
    }
}

fn sum_counters(a: &[u64; 16]) -> (t: u64)
    requires
        seq_sum(a@) <= u64::MAX,
    ensures
        t == seq_sum(a@),
{
    let mut t: u64 = 0;
    let mut i: usize = 0;
    while i < 16
        invariant
            i <= 16,
            a@.len() == 16,
            t == seq_sum(a@.take(i as int)),
            seq_sum(a@) <= u64::MAX,
        decreases 16 - i,
    {
        proof {
            lemma_seq_sum_prefix(a@, i as int);
            lemma_seq_sum_prefix(a@, i as int + 1);
        }
        t = t + a[i];
        i = i + 1;
    }
    proof {
        assert(a@.take(16) =~= a@);
    }
    t
}

/// Recording a chunk and then removing it gives back the per-LOD counts, the
/// memory, visible node and triangle counts it started from.
pub proof fn lemma_record_remove_roundtrip(m: WorldMetrics, lod: i32, vertex_count: u32, index_count: u32)
    requires
        chunk_fits(m, lod, vertex_count, index_count),
    ensures
        ({
            let s = lod_slot(lod);
            let r1 = (m.leaves_per_lod@[s] + 1) as u32;
            let r2 = (m.vertices_per_lod@[s] + vertex_count) as u64;
            let r3 = (m.indices_per_lod@[s] + index_count) as u64;
            &&& m.leaves_per_lod@.update(s, r1).update(s, sat_sub(r1 as int, 1) as u32) == m.leaves_per_lod@
            &&& m.vertices_per_lod@.update(s, r2).update(s, sat_sub(r2 as int, vertex_count as int) as u64)
                == m.vertices_per_lod@
            &&& m.indices_per_lod@.update(s, r3).update(s, sat_sub(r3 as int, index_count as int) as u64)
                == m.indices_per_lod@
            &&& sat_sub(m.mesh_memory_bytes + chunk_memory(vertex_count, index_count), chunk_memory(vertex_count, index_count)) == m.mesh_memory_bytes
            &&& sat_sub(m.visible_nodes + 1, 1) == m.visible_nodes
            &&& sat_sub(m.visible_triangles + index_count / 3, (index_count / 3) as int) == m.visible_triangles
        }),
{
    let s = lod_slot(lod);
    assert(m.leaves_per_lod@.update(s, (m.leaves_per_lod@[s] + 1) as u32).update(
        s,
        sat_sub(((m.leaves_per_lod@[s] + 1) as u32) as int, 1) as u32,
    ) =~= m.leaves_per_lod@);
    assert(m.vertices_per_lod@.update(s, (m.vertices_per_lod@[s] + vertex_count) as u64).update(
        s,
        sat_sub(((m.vertices_per_lod@[s] + vertex_count) as u64) as int, vertex_count as int) as u64,
    ) =~= m.vertices_per_lod@);
    assert(m.indices_per_lod@.update(s, (m.indices_per_lod@[s] + index_count) as u64).update(
        s,
        sat_sub(((m.indices_per_lod@[s] + index_count) as u64) as int, index_count as int) as u64,
    ) =~= m.indices_per_lod@);
}

} // verus!
