//! The order in which a tick sends chunks.
//!
//! Lookups are queued nearest first for each player and answered in the
//! order in which they were queued. The lemmas here prove that what the
//! answers cause keeps that order: the `ChunkLoaded` events of a player
//! come nearest first, and so do the generation jobs.

use std::sync::Arc;
use vstd::prelude::*;
use crate::chunk::chunk_of;
use crate::events::WorldEvent;
use crate::voxel::VoxelBuffer;
use crate::world::laws::lemma_chunk_sets;
use crate::world::model::{
    ascending, lookups_for, stored_at, sync_lookups, wanted, ChunkLookup, SlotView, WorldView,
};

verus! {

/// Whether `event` is the loading of the chunk of `lookup` for the
/// player of `lookup`.
pub open spec fn is_load_of(event: WorldEvent, lookup: ChunkLookup) -> bool {
    match event {
        WorldEvent::ChunkLoaded { for_player, pos, .. } => for_player == lookup.for_player && pos
            == lookup.pos,
        _ => false,
    }
}

/// The places in `lookups` of the lookups, among the first `n`, whose
/// answers emit an event, in their order.
pub open spec fn load_sources(
    v: WorldView,
    lookups: Seq<ChunkLookup>,
    stored: Seq<Option<Arc<VoxelBuffer>>>,
    n: nat,
) -> Seq<int>
    decreases n,
{
    if n == 0 {
        Seq::empty()
    } else if v.resolve_upto(lookups, stored, n).events.len() > v.resolve_upto(
        lookups,
        stored,
        (n - 1) as nat,
    ).events.len() {
        load_sources(v, lookups, stored, (n - 1) as nat).push(n - 1)
    } else {
        load_sources(v, lookups, stored, (n - 1) as nat)
    }
}

/// The places in `lookups` of the lookups, among the first `n`, whose
/// answers queue a generation job, in their order.
pub open spec fn job_sources(
    v: WorldView,
    lookups: Seq<ChunkLookup>,
    stored: Seq<Option<Arc<VoxelBuffer>>>,
    n: nat,
) -> Seq<int>
    decreases n,
{
    if n == 0 {
        Seq::empty()
    } else if v.resolve_upto(lookups, stored, n).terrain.queue.len() > v.resolve_upto(
        lookups,
        stored,
        (n - 1) as nat,
    ).terrain.queue.len() {
        job_sources(v, lookups, stored, (n - 1) as nat).push(n - 1)
    } else {
        job_sources(v, lookups, stored, (n - 1) as nat)
    }
}

/// What answering the first `n` lookups appends. Every new event is the
/// loading of the chunk of a lookup for the player of the lookup, every
/// new generation job is for the chunk of a lookup, each lookup gives
/// at most one event and one job, and events and jobs stand in the
/// order of their lookups.
pub proof fn lemma_answers_follow(
    v: WorldView,
    lookups: Seq<ChunkLookup>,
    stored: Seq<Option<Arc<VoxelBuffer>>>,
    n: nat,
)
    requires
        n <= lookups.len(),
    ensures
        ({
            let w = v.resolve_upto(lookups, stored, n);
            let loads = load_sources(v, lookups, stored, n);
            let jobs = job_sources(v, lookups, stored, n);
            &&& w.events.len() == v.events.len() + loads.len()
            &&& w.events.take(v.events.len() as int) == v.events
            &&& forall|a: int|
                0 <= a < loads.len() ==> 0 <= (#[trigger] loads[a]) < n && is_load_of(
                    w.events[v.events.len() + a],
                    lookups[loads[a]],
                )
            &&& forall|a: int, b: int|
                0 <= a < b < loads.len() ==> (#[trigger] loads[a]) < (#[trigger] loads[b])
            &&& w.terrain.queue.len() == v.terrain.queue.len() + jobs.len()
            &&& w.terrain.queue.take(v.terrain.queue.len() as int) == v.terrain.queue
            &&& forall|a: int|
                0 <= a < jobs.len() ==> 0 <= (#[trigger] jobs[a]) < n && w.terrain.queue[v.terrain.queue.len()
                    + a] == lookups[jobs[a]].pos
            &&& forall|a: int, b: int|
                0 <= a < b < jobs.len() ==> (#[trigger] jobs[a]) < (#[trigger] jobs[b])
        }),
    decreases n,
{
    let e0 = v.events.len() as int;
    let q0 = v.terrain.queue.len() as int;
    if n == 0 {
        assert(v.events.take(e0) =~= v.events);
        assert(v.terrain.queue.take(q0) =~= v.terrain.queue);
    } else {
        let mid = v.resolve_upto(lookups, stored, (n - 1) as nat);
        lemma_answers_follow(v, lookups, stored, (n - 1) as nat);
        let lookup = lookups[n - 1];
        let w = mid.resolve_one(lookup, stored_at(stored, n - 1));
        assert(w == v.resolve_upto(lookups, stored, n));
        let old_loads = load_sources(v, lookups, stored, (n - 1) as nat);
        let loads = load_sources(v, lookups, stored, n);
        let old_jobs = job_sources(v, lookups, stored, (n - 1) as nat);
        let jobs = job_sources(v, lookups, stored, n);
        assert(w.events == mid.events || (w.events == mid.events.push(w.events.last())
            && is_load_of(w.events.last(), lookup)));
        assert(w.terrain.queue == mid.terrain.queue || w.terrain.queue == mid.terrain.queue.push(
            lookup.pos,
        ));
        assert(w.events.take(e0) =~= mid.events.take(e0));
        assert(w.terrain.queue.take(q0) =~= mid.terrain.queue.take(q0));
        assert forall|a: int| 0 <= a < loads.len() implies 0 <= (#[trigger] loads[a]) < n
            && is_load_of(w.events[e0 + a], lookups[loads[a]]) by {
            if a < old_loads.len() {
                assert(loads[a] == old_loads[a]);
                assert(w.events[e0 + a] == mid.events[e0 + a]);
            }
        }
        assert forall|a: int, b: int| 0 <= a < b < loads.len() implies (#[trigger] loads[a]) < (
        #[trigger] loads[b]) by {
            assert(loads[a] == old_loads[a]);
            if b < old_loads.len() {
                assert(loads[b] == old_loads[b]);
            }
        }
        assert forall|a: int| 0 <= a < jobs.len() implies 0 <= (#[trigger] jobs[a]) < n
            && w.terrain.queue[q0 + a] == lookups[jobs[a]].pos by {
            if a < old_jobs.len() {
                assert(jobs[a] == old_jobs[a]);
                assert(w.terrain.queue[q0 + a] == mid.terrain.queue[q0 + a]);
            }
        }
        assert forall|a: int, b: int| 0 <= a < b < jobs.len() implies (#[trigger] jobs[a]) < (
        #[trigger] jobs[b]) by {
            assert(jobs[a] == old_jobs[a]);
            if b < old_jobs.len() {
                assert(jobs[b] == old_jobs[b]);
            }
        }
    }
}

/// The player whose lookup stands at place `i` among those that chunk
/// synchronisation queues for the first `m` players: one of these
/// players, who wants the chunk.
pub proof fn lemma_lookup_owner(players: Seq<SlotView>, radius: int, reach: int, m: int, i: int) -> (t:
    int)
    requires
        0 <= m <= players.len(),
        0 <= i < sync_lookups(players.take(m), radius, reach).len(),
    ensures
        0 <= t < m,
        sync_lookups(players.take(m), radius, reach)[i].for_player == players[t].id,
        wanted(players[t], radius, reach).contains(
            sync_lookups(players.take(m), radius, reach)[i].pos,
        ),
    decreases m,
{
    let seen = players.take(m);
    assert(seen.drop_last() =~= players.take(m - 1));
    assert(seen.last() == players[m - 1]);
    let head = sync_lookups(players.take(m - 1), radius, reach);
    let chunks = wanted(players[m - 1], radius, reach);
    if i < head.len() {
        lemma_lookup_owner(players, radius, reach, m - 1, i)
    } else {
        assert(lookups_for(players[m - 1].id, chunks)[i - head.len()].pos == chunks[i
            - head.len()]);
        m - 1
    }
}

/// Among the lookups that chunk synchronisation queues, those of one
/// player stand nearest first around the chunk that the player stands
/// in.
pub proof fn lemma_lookups_nearest_first(
    players: Seq<SlotView>,
    radius: int,
    reach: int,
    m: int,
    i: int,
    j: int,
    t: int,
)
    requires
        ascending(players),
        0 <= radius <= reach,
        0 <= m <= players.len(),
        0 <= t < players.len(),
        0 <= i < j < sync_lookups(players.take(m), radius, reach).len(),
        sync_lookups(players.take(m), radius, reach)[i].for_player == players[t].id,
        sync_lookups(players.take(m), radius, reach)[j].for_player == players[t].id,
    ensures
        sync_lookups(players.take(m), radius, reach)[i].pos.nearer(
            sync_lookups(players.take(m), radius, reach)[j].pos,
            chunk_of(players[t].state.pos),
        ),
    decreases m,
{
    let seen = players.take(m);
    assert(seen.drop_last() =~= players.take(m - 1));
    assert(seen.last() == players[m - 1]);
    let head = sync_lookups(players.take(m - 1), radius, reach);
    let chunks = wanted(players[m - 1], radius, reach);
    let block = lookups_for(players[m - 1].id, chunks);
    if j < head.len() {
        lemma_lookups_nearest_first(players, radius, reach, m - 1, i, j, t);
    } else {
        assert(block[j - head.len()].for_player == players[m - 1].id);
        if t < m - 1 {
            assert(players[t].id < players[m - 1].id);
        } else if m - 1 < t {
            assert(players[m - 1].id < players[t].id);
        }
        if i < head.len() {
            let owner = lemma_lookup_owner(players, radius, reach, m - 1, i);
            assert(players[owner].id < players[m - 1].id);
        } else {
            lemma_chunk_sets(players[m - 1], radius, reach);
            assert(block[i - head.len()].pos == chunks[i - head.len()]);
            assert(block[j - head.len()].pos == chunks[j - head.len()]);
            assert(chunks[i - head.len()].nearer(
                chunks[j - head.len()],
                chunk_of(players[m - 1].state.pos),
            ));
        }
    }
}

/// Nearest first. When chunk synchronisation and the answering of its
/// lookups follow each other, any two `ChunkLoaded` events that the
/// answers emit for one player come nearest first around the chunk that
/// the player stands in (ties by x, then y, then z).
pub proof fn lemma_loads_nearest_first(
    v: WorldView,
    stored: Seq<Option<Arc<VoxelBuffer>>>,
    t: int,
    a: int,
    b: int,
)
    requires
        ascending(v.players),
        0 <= v.render_distance,
        0 <= v.unload_margin,
        v.lookups.len() == 0,
        0 <= t < v.players.len(),
        0 <= a < b < v.sync().resolve(stored).events.len() - v.sync().events.len(),
        v.sync().resolve(stored).events[v.sync().events.len() + a] matches WorldEvent::ChunkLoaded {
            for_player,
            ..
        } && for_player == v.players[t].id,
        v.sync().resolve(stored).events[v.sync().events.len() + b] matches WorldEvent::ChunkLoaded {
            for_player,
            ..
        } && for_player == v.players[t].id,
    ensures
        ({
            let first = v.sync().resolve(stored).events[v.sync().events.len() + a];
            let second = v.sync().resolve(stored).events[v.sync().events.len() + b];
            first->ChunkLoaded_pos.nearer(second->ChunkLoaded_pos, chunk_of(v.players[t].state.pos))
        }),
{
    let s = v.sync();
    let lookups = s.lookups;
    let radius = v.render_distance as int;
    let reach = v.reach();
    assert(lookups =~= sync_lookups(v.players, radius, reach));
    assert(v.players.take(v.players.len() as int) =~= v.players);
    lemma_answers_follow(s, lookups, stored, lookups.len());
    let loads = load_sources(s, lookups, stored, lookups.len());
    let i = loads[a];
    let j = loads[b];
    assert(i < j);
    lemma_lookups_nearest_first(v.players, radius, reach, v.players.len() as int, i, j, t);
}

/// Nearest first, for the generation jobs. When chunk synchronisation
/// and the answering of its lookups follow each other in a world of one
/// player, any two generation jobs that the answers queue come nearest
/// first around the chunk that the player stands in.
pub proof fn lemma_jobs_nearest_first(
    v: WorldView,
    stored: Seq<Option<Arc<VoxelBuffer>>>,
    a: int,
    b: int,
)
    requires
        v.players.len() == 1,
        0 <= v.render_distance,
        0 <= v.unload_margin,
        v.lookups.len() == 0,
        0 <= a < b < v.sync().resolve(stored).terrain.queue.len() - v.terrain.queue.len(),
    ensures
        v.sync().resolve(stored).terrain.queue[v.terrain.queue.len() + a].nearer(
            v.sync().resolve(stored).terrain.queue[v.terrain.queue.len() + b],
            chunk_of(v.players[0].state.pos),
        ),
{
    let s = v.sync();
    let lookups = s.lookups;
    let radius = v.render_distance as int;
    let reach = v.reach();
    assert(lookups =~= sync_lookups(v.players, radius, reach));
    assert(v.players.take(1) =~= v.players);
    lemma_answers_follow(s, lookups, stored, lookups.len());
    let jobs = job_sources(s, lookups, stored, lookups.len());
    let i = jobs[a];
    let j = jobs[b];
    assert(i < j);
    let owner_i = lemma_lookup_owner(v.players, radius, reach, 1, i);
    let owner_j = lemma_lookup_owner(v.players, radius, reach, 1, j);
    lemma_lookups_nearest_first(v.players, radius, reach, 1, i, j, 0);
}

} // verus!
