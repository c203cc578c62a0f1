//! Terrain: the generator that fills a chunk from its column heights, and
//! the cache that schedules generation off the simulation tick.

use std::collections::HashMap;
use std::collections::HashSet;
use std::sync::Arc;
use vstd::prelude::*;
use crate::chunk::{lemma_key_injective, ChunkCoord, CHUNK_SIZE};
use crate::voxel::{UVec3, Voxel, VoxelBuffer, DIRT_TAG, EMPTY_TAG, STONE_TAG};

verus! {

broadcast use vstd::std_specs::hash::group_hash_axioms;

/// How many voxels of dirt lie on top of the stone.
pub const DIRT_DEPTH: i32 = 4;

/// Number of columns in a chunk.
pub const CHUNK_COLUMNS: usize = 1024;

/// Number of voxels in a chunk.
pub const CHUNK_VOLUME: usize = 32768;

/// The terrain height of each column of one chunk, sampled by the caller
/// from the world's height field. Column (x, z) stands at index
/// `x * 32 + z`.
pub struct ColumnHeights {
    heights: Vec<i32>,
}

impl View for ColumnHeights {
    type V = Seq<i32>;

    closed spec fn view(&self) -> Seq<i32> {
        self.heights@
    }
}

impl ColumnHeights {
    /// There is one height per column.
    pub open spec fn wf(&self) -> bool {
        self@.len() == CHUNK_COLUMNS
    }

    /// The height of column (x, z).
    pub open spec fn height(&self, x: int, z: int) -> int {
        self@[x * 32 + z] as int
    }

    /// Wraps one height per column; `None` unless there are exactly 1024.
    pub fn from_vec(heights: Vec<i32>) -> (r: Option<ColumnHeights>)
        ensures
            r is Some <==> heights@.len() == CHUNK_COLUMNS,
            r is Some ==> r->Some_0@ == heights@ && r->Some_0.wf(),
    {
        if heights.len() == CHUNK_COLUMNS {
            Some(ColumnHeights { heights })
        } else {
            None
        }
    }

    /// The same height for every column.
    pub fn flat(height: i32) -> (r: ColumnHeights)
        ensures
            r.wf(),
            forall|i: int| 0 <= i < CHUNK_COLUMNS ==> r@[i] == height,
    {
        let mut heights: Vec<i32> = Vec::new();
        let mut i: usize = 0;
        while i < CHUNK_COLUMNS
            invariant
                i <= CHUNK_COLUMNS,
                heights@.len() == i,
                forall|k: int| 0 <= k < i ==> heights@[k] == height,
            decreases CHUNK_COLUMNS - i,
        {
            heights.push(height);
            i += 1;
        }
        ColumnHeights { heights }
    }

    /// The height of column (x, z).
    pub fn get(&self, x: u32, z: u32) -> (h: i32)
        requires
            self.wf(),
            x < CHUNK_SIZE,
            z < CHUNK_SIZE,
        ensures
            h == self.height(x as int, z as int),
    {
        self.heights[(x * 32 + z) as usize]
    }
}

/// The material at height `y` inside the chunk at vertical chunk
/// coordinate `chunk_y`, in a column whose terrain height is `height`:
/// stone more than four voxels below the surface, dirt in the four
/// voxels below it, nothing from the surface up.
pub open spec fn terrain_voxel(chunk_y: i32, y: int, height: int) -> Voxel {
    let world_y = chunk_y * 32 + y;
    if world_y < height - DIRT_DEPTH {
        Voxel(STONE_TAG)
    } else if world_y < height {
        Voxel(DIRT_TAG)
    } else {
        Voxel(EMPTY_TAG)
    }
}

/// The voxel at linear index `i` of the chunk generated at `pos`.
pub open spec fn generated_cell(pos: ChunkCoord, heights: Seq<i32>, i: int) -> Voxel {
    let x = i % 32;
    let y = (i / 32) % 32;
    let z = i / 1024;
    terrain_voxel(pos.y, y, heights[x * 32 + z] as int)
}

/// The voxels of the chunk generated at `pos` over `heights`.
pub open spec fn generated(pos: ChunkCoord, heights: Seq<i32>) -> Seq<Voxel> {
    Seq::new(CHUNK_VOLUME as nat, |i: int| generated_cell(pos, heights, i))
}

/// Fills chunks from column heights. One generator serves a world; the
/// seed names the world's height field.
#[derive(Copy, Clone, Eq, PartialEq, Debug, Structural)]
pub struct TerrainGenerator {
    pub seed: u32,
}

impl TerrainGenerator {
    pub fn new(seed: u32) -> (g: TerrainGenerator)
        ensures
            g.seed == seed,
    {
        TerrainGenerator { seed }
    }

    /// The chunk at `pos` over the column heights `heights`: a full
    /// 32 x 32 x 32 buffer in which every voxel is what
    /// [`terrain_voxel`] says. The result depends on nothing but the
    /// arguments.
    pub fn generate(&self, pos: ChunkCoord, heights: &ColumnHeights) -> (buffer: VoxelBuffer)
        requires
            heights.wf(),
        ensures
            buffer.wf(),
            buffer.size == (UVec3 { x: CHUNK_SIZE, y: CHUNK_SIZE, z: CHUNK_SIZE }),
            buffer.voxels@ == generated(pos, heights@),
            forall|p: UVec3|
                p.within(buffer.size) ==> #[trigger] buffer.at(p) == terrain_voxel(
                    pos.y,
                    p.y as int,
                    heights.height(p.x as int, p.z as int),
                ),
    {
        let mut voxels: Vec<Voxel> = Vec::new();
        let mut i: usize = 0;
        while i < CHUNK_VOLUME
            invariant
                i <= CHUNK_VOLUME,
                heights.wf(),
                voxels@.len() == i,
                forall|k: int| 0 <= k < i ==> voxels@[k] == generated_cell(pos, heights@, k),
            decreases CHUNK_VOLUME - i,
        {
            let x: u32 = (i % 32) as u32;
            let y: u32 = ((i / 32) % 32) as u32;
            let z: u32 = (i / 1024) as u32;
            let height: i64 = heights.get(x, z) as i64;
            let world_y: i64 = pos.y as i64 * 32 + y as i64;
            let voxel = if world_y < height - DIRT_DEPTH as i64 {
                Voxel(STONE_TAG)
            } else if world_y < height {
                Voxel(DIRT_TAG)
            } else {
                Voxel(EMPTY_TAG)
            };
            voxels.push(voxel);
            i += 1;
        }
        let buffer = VoxelBuffer {
            size: UVec3 { x: CHUNK_SIZE, y: CHUNK_SIZE, z: CHUNK_SIZE },
            voxels,
        };
        proof {
            assert(buffer.voxels@ =~= generated(pos, heights@));
            assert(32 * 32 * 32 == 32768);
            assert(buffer.size.volume() == 32768);
            assert forall|p: UVec3| p.within(buffer.size) implies #[trigger] buffer.at(p)
                == terrain_voxel(pos.y, p.y as int, heights.height(p.x as int, p.z as int)) by {
                let k = p.linear(buffer.size);
                assert(k == p.x + p.y * 32 + p.z * 32 * 32);
                assert(k % 32 == p.x as int);
                assert((k / 32) % 32 == p.y as int);
                assert(k / 1024 == p.z as int);
            }
        }
        buffer
    }
}

/// Another handle to the same shared buffer.
///
/// Trusted: calls `Arc::clone` of the standard library, which returns a
/// pointer to the same allocation, hence an equal value.
#[verifier::external_body]
pub(crate) fn share(data: &Arc<VoxelBuffer>) -> (r: Arc<VoxelBuffer>)
    ensures
        r == *data,
{
    Arc::clone(data)
}

/// A chunk's coordinate together with its buffer: a finished generation
/// job, or a chunk on its way to the store.
#[derive(Debug, Clone, PartialEq, Eq)]
pub struct ChunkPayload {
    pub pos: ChunkCoord,
    pub data: Arc<VoxelBuffer>,
}

/// What the terrain cache holds, by chunk coordinate.
pub struct TerrainView {
    /// The seed of the world's height field.
    pub seed: u32,
    /// The generated chunks.
    pub cache: Map<ChunkCoord, Arc<VoxelBuffer>>,
    /// The chunks whose generation has been asked for and has not come
    /// back.
    pub pending: Set<ChunkCoord>,
    /// The generation jobs not yet handed to the worker, oldest first.
    pub queue: Seq<ChunkCoord>,
}

impl TerrainView {
    /// No chunk is both cached and awaiting generation.
    pub open spec fn disjoint(self) -> bool {
        forall|c: ChunkCoord| !(self.cache.contains_key(c) && self.pending.contains(c))
    }

    /// The state after generation of `c` is asked for: nothing changes
    /// if `c` is cached or pending, else `c` becomes pending and one job
    /// joins the queue.
    pub open spec fn request(self, c: ChunkCoord) -> TerrainView {
        if self.cache.contains_key(c) || self.pending.contains(c) {
            self
        } else {
            TerrainView { pending: self.pending.insert(c), queue: self.queue.push(c), ..self }
        }
    }

    /// The state after `data` is stored for `c`: cached, no longer
    /// pending.
    pub open spec fn insert(self, c: ChunkCoord, data: Arc<VoxelBuffer>) -> TerrainView {
        TerrainView { cache: self.cache.insert(c, data), pending: self.pending.remove(c), ..self }
    }

    /// The state after the finished jobs `results` are stored, first to
    /// last.
    pub open spec fn poll(self, results: Seq<ChunkPayload>) -> TerrainView
        decreases results.len(),
    {
        if results.len() == 0 {
            self
        } else {
            self.poll(results.drop_last()).insert(results.last().pos, results.last().data)
        }
    }

    /// The state after the queued jobs are handed to the worker.
    pub open spec fn drained(self) -> TerrainView {
        TerrainView { queue: Seq::empty(), ..self }
    }

    /// The state of a cache that holds nothing and waits for nothing.
    pub open spec fn empty(seed: u32) -> TerrainView {
        TerrainView {
            seed,
            cache: Map::empty(),
            pending: Set::empty(),
            queue: Seq::empty(),
        }
    }

    /// How many jobs for `c` wait in the queue.
    pub open spec fn queued(self, c: ChunkCoord) -> nat {
        self.queue.to_multiset().count(c)
    }
}

/// Asking, storing and polling keep cache and pending set disjoint.
pub proof fn lemma_disjoint_preserved(v: TerrainView, c: ChunkCoord, data: Arc<VoxelBuffer>)
    requires
        v.disjoint(),
    ensures
        v.request(c).disjoint(),
        v.insert(c, data).disjoint(),
        v.drained().disjoint(),
{
}

/// Polling keeps cache and pending set disjoint.
pub proof fn lemma_poll_disjoint(v: TerrainView, results: Seq<ChunkPayload>)
    requires
        v.disjoint(),
    ensures
        v.poll(results).disjoint(),
    decreases results.len(),
{
    if results.len() > 0 {
        lemma_poll_disjoint(v, results.drop_last());
        lemma_disjoint_preserved(
            v.poll(results.drop_last()),
            results.last().pos,
            results.last().data,
        );
    }
}

/// Deduplication: asking twice for a chunk that is neither cached nor
/// pending queues exactly one job, and asking again changes nothing
/// until the job is done; once its result is stored the chunk is cached,
/// no longer pending, and asking for it queues nothing.
pub proof fn lemma_request_dedup(v: TerrainView, c: ChunkCoord, data: Arc<VoxelBuffer>)
    ensures
        v.request(c).request(c) == v.request(c),
        !v.cache.contains_key(c) && !v.pending.contains(c) ==> {
            &&& v.request(c).request(c).queue == v.queue.push(c)
            &&& v.request(c).request(c).queued(c) == v.queued(c) + 1
            &&& v.request(c).pending.contains(c)
        },
        v.cache.contains_key(c) || v.pending.contains(c) ==> v.request(c) == v,
        v.request(c).insert(c, data).cache.contains_key(c),
        !v.request(c).insert(c, data).pending.contains(c),
        v.request(c).insert(c, data).request(c) == v.request(c).insert(c, data),
{
    broadcast use vstd::seq_lib::to_multiset_build;

}

/// The in-memory chunk cache and the bookkeeping of generation jobs.
///
/// Generation runs elsewhere: [`Terrain::request`] queues a job,
/// [`Terrain::take_requests`] hands the queued jobs out, and
/// [`Terrain::poll`] takes the finished ones in.
pub struct Terrain {
    generator: TerrainGenerator,
    chunks: HashMap<u128, Arc<VoxelBuffer>>,
    pending: HashSet<u128>,
    requests: Vec<ChunkCoord>,
}

impl View for Terrain {
    type V = TerrainView;

    closed spec fn view(&self) -> TerrainView {
        TerrainView {
            seed: self.generator.seed,
            cache: Map::new(
                |c: ChunkCoord| self.chunks@.contains_key(c.key()),
                |c: ChunkCoord| self.chunks@[c.key()],
            ),
            pending: Set::new(|c: ChunkCoord| self.pending@.contains(c.key())),
            queue: self.requests@,
        }
    }
}

impl Terrain {
    /// No chunk is both cached and awaiting generation.
    pub open spec fn wf(&self) -> bool {
        self@.disjoint()
    }

    /// An empty cache for the world with the given seed.
    pub fn new(seed: u32) -> (t: Terrain)
        ensures
            t.wf(),
            t@ == TerrainView::empty(seed),
    {
        let t = Terrain {
            generator: TerrainGenerator::new(seed),
            chunks: HashMap::new(),
            pending: HashSet::new(),
            requests: Vec::new(),
        };
        assert(t@.cache =~= Map::<ChunkCoord, Arc<VoxelBuffer>>::empty());
        assert(t@.pending =~= Set::<ChunkCoord>::empty());
        t
    }

    /// The generator of the world that this cache serves.
    pub fn generator(&self) -> (g: TerrainGenerator)
        ensures
            g.seed == self@.seed,
    {
        self.generator
    }

    /// The cached buffer of `pos`, if there is one.
    pub fn get(&self, pos: ChunkCoord) -> (r: Option<Arc<VoxelBuffer>>)
        ensures
            r == if self@.cache.contains_key(pos) {
                Some(self@.cache[pos])
            } else {
                None
            },
    {
        let k = pos.pack();
        match self.chunks.get(&k) {
            Some(data) => Some(share(data)),
            None => None,
        }
    }

    /// Whether generation of `pos` has been asked for and has not come
    /// back.
    pub fn is_pending(&self, pos: ChunkCoord) -> (r: bool)
        ensures
            r == self@.pending.contains(pos),
    {
        let k = pos.pack();
        self.pending.contains(&k)
    }

    /// Stores `data` as the buffer of `pos`.
    pub fn set(&mut self, pos: ChunkCoord, data: Arc<VoxelBuffer>)
        ensures
            final(self)@ == old(self)@.insert(pos, data),
            old(self).wf() ==> final(self).wf(),
    {
        let k = pos.pack();
        self.chunks.insert(k, data);
        self.pending.remove(&k);
        proof {
            let want = old(self)@.insert(pos, data);
            assert forall|c: ChunkCoord| c.key() == pos.key() implies c == pos by {
                lemma_key_injective(c, pos);
            }
            assert(self@.cache =~= want.cache);
            assert(self@.pending =~= want.pending);
        }
    }

    /// Asks for `pos` to be generated: does nothing if it is cached or
    /// already asked for, else marks it pending and queues one job.
    pub fn request(&mut self, pos: ChunkCoord)
        ensures
            final(self)@ == old(self)@.request(pos),
            old(self).wf() ==> final(self).wf(),
    {
        let k = pos.pack();
        if !self.chunks.contains_key(&k) && !self.pending.contains(&k) {
            self.pending.insert(k);
            self.requests.push(pos);
            proof {
                let want = old(self)@.request(pos);
                assert forall|c: ChunkCoord| c.key() == pos.key() implies c == pos by {
                    lemma_key_injective(c, pos);
                }
                assert(self@.cache =~= want.cache);
                assert(self@.pending =~= want.pending);
            }
        }
    }

    /// Hands out the queued generation jobs, oldest first, and empties
    /// the queue.
    pub fn take_requests(&mut self) -> (jobs: Vec<ChunkCoord>)
        ensures
            jobs@ == old(self)@.queue,
            final(self)@ == old(self)@.drained(),
            old(self).wf() ==> final(self).wf(),
    {
        let mut jobs: Vec<ChunkCoord> = Vec::new();
        std::mem::swap(&mut self.requests, &mut jobs);
        proof {
            let want = old(self)@.drained();
            assert(self@.cache =~= want.cache);
            assert(self@.pending =~= want.pending);
        }
        jobs
    }

    /// Takes in the generation jobs that have finished: stores each
    /// buffer in the cache, clears its coordinate from the pending set,
    /// and returns the batch unchanged.
    pub fn poll(&mut self, results: Vec<ChunkPayload>) -> (ready: Vec<ChunkPayload>)
        ensures
            ready@ == results@,
            final(self)@ == old(self)@.poll(results@),
            old(self).wf() ==> final(self).wf(),
    {
        let mut i: usize = 0;
        while i < results.len()
            invariant
                i <= results@.len(),
                self@ == old(self)@.poll(results@.take(i as int)),
            decreases results@.len() - i,
        {
            let data = share(&results[i].data);
            self.set(results[i].pos, data);
            i += 1;
            assert(results@.take(i as int).drop_last() =~= results@.take(i as int - 1));
        }
        proof {
            assert(results@.take(i as int) =~= results@);
            if old(self).wf() {
                lemma_poll_disjoint(old(self)@, results@);
            }
        }
        results
    }
}

} // verus!
