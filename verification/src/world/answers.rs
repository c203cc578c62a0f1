//! What the answers to a tick's lookups cause, one by one.
//!
//! Chunk synchronisation looks up, for each player, chunks that the
//! player has not loaded, each once. The lemmas here prove that such
//! lookups are answered one by one: a chunk that is found when its turn
//! comes is loaded for its player with exactly one `ChunkLoaded` event,
//! and a chunk that is not found is pending generation afterwards and
//! causes no event.

use std::sync::Arc;
use vstd::prelude::*;
use crate::chunk::{chunk_of, ChunkCoord};
use crate::chunk_set::within_reach;
use crate::voxel::VoxelBuffer;
use crate::world::laws::{lemma_ascending_kept, lemma_chunk_sets, lemma_filter_members};
use crate::world::model::{
    ascending, lookups_for, slot_index, stored_at, sync_lookups, wanted, ChunkLookup, SlotView,
    WorldView,
};
use crate::world::order::{
    is_load_of, lemma_answers_follow, lemma_lookup_owner, lemma_lookups_nearest_first,
    load_sources,
};

verus! {

/// Whether the lookups from place `n` on are for players who are there
/// and have not loaded the chunk.
pub open spec fn fresh_from(players: Seq<SlotView>, lookups: Seq<ChunkLookup>, n: int) -> bool {
    forall|m: int|
        n <= m < lookups.len() ==> {
            &&& slot_index(players, (#[trigger] lookups[m]).for_player) is Some
            &&& !players[slot_index(
                players,
                lookups[m].for_player,
            )->Some_0].state.loaded.contains(lookups[m].pos)
        }
}

/// Whether no lookup occurs twice.
pub open spec fn distinct(lookups: Seq<ChunkLookup>) -> bool {
    forall|i: int, j: int|
        0 <= i < j < lookups.len() ==> (#[trigger] lookups[i]) != (#[trigger] lookups[j])
}

/// Whether the chunk of the lookup at place `i` is found when its turn
/// comes: the store held it, or the terrain cache holds it by then.
pub open spec fn found_at(
    v: WorldView,
    lookups: Seq<ChunkLookup>,
    stored: Seq<Option<Arc<VoxelBuffer>>>,
    i: int,
) -> bool {
    v.resolve_upto(lookups, stored, i as nat).found(lookups[i].pos, stored_at(stored, i)) is Some
}

/// The position of a player in an ascending list is the only one with
/// the player's number.
pub proof fn lemma_slot_at(players: Seq<SlotView>, i: int)
    requires
        ascending(players),
        0 <= i < players.len(),
    ensures
        slot_index(players, players[i].id) == Some(i),
{
    let id = players[i].id;
    let j = choose|j: int| 0 <= j < players.len() && players[j].id == id;
    if j < i {
        assert(players[j].id < players[i].id);
    } else if i < j {
        assert(players[i].id < players[j].id);
    }
}

/// Players who keep their numbers and places are found at their places.
proof fn lemma_slot_kept(before: Seq<SlotView>, after: Seq<SlotView>, id: u32)
    requires
        ascending(before),
        after.len() == before.len(),
        forall|k: int| 0 <= k < before.len() ==> (#[trigger] after[k]).id == before[k].id,
    ensures
        slot_index(after, id) == slot_index(before, id),
{
    lemma_ascending_kept(before, after);
    if slot_index(before, id) is Some {
        let k = slot_index(before, id)->Some_0;
        assert(after[k].id == id);
        lemma_slot_at(after, k);
    } else if slot_index(after, id) is Some {
        let k = slot_index(after, id)->Some_0;
        assert(before[k].id == id);
    }
}

/// One by one. When the lookups are for chunks that their players have
/// not loaded, each once, then after the first `n` answers: the players
/// and their order are as before; the lookups still to be answered are
/// still for chunks not loaded; each answered lookup whose chunk was
/// found has emitted one event and each other none; and a chunk that
/// was not found is cached or pending generation.
pub proof fn lemma_answers_one_by_one(
    v: WorldView,
    lookups: Seq<ChunkLookup>,
    stored: Seq<Option<Arc<VoxelBuffer>>>,
    n: nat,
)
    requires
        ascending(v.players),
        fresh_from(v.players, lookups, 0),
        distinct(lookups),
        n <= lookups.len(),
    ensures
        ({
            let w = v.resolve_upto(lookups, stored, n);
            &&& w.players.len() == v.players.len()
            &&& forall|k: int| 0 <= k < v.players.len() ==> (#[trigger] w.players[k]).id == v.players[k].id
            &&& ascending(w.players)
            &&& fresh_from(w.players, lookups, n as int)
            &&& forall|c: ChunkCoord| #[trigger]
                v.terrain.cache.contains_key(c) ==> w.terrain.cache.contains_key(c)
            &&& forall|i: int|
                0 <= i < n ==> (#[trigger] load_sources(v, lookups, stored, n).contains(i)
                    <==> found_at(v, lookups, stored, i))
            &&& forall|i: int|
                0 <= i < n && !found_at(v, lookups, stored, i) ==> w.terrain.cache.contains_key(
                    (#[trigger] lookups[i]).pos,
                ) || w.terrain.pending.contains(lookups[i].pos)
        }),
    decreases n,
{
    if n > 0 {
        let mid = v.resolve_upto(lookups, stored, (n - 1) as nat);
        lemma_answers_one_by_one(v, lookups, stored, (n - 1) as nat);
        let lookup = lookups[n - 1];
        let w = mid.resolve_one(lookup, stored_at(stored, n - 1));
        assert(w == v.resolve_upto(lookups, stored, n));
        let old_sources = load_sources(v, lookups, stored, (n - 1) as nat);
        let sources = load_sources(v, lookups, stored, n);
        let k = slot_index(mid.players, lookup.for_player)->Some_0;
        assert(slot_index(mid.players, lookup.for_player) is Some);
        assert(mid.players[k].id == lookup.for_player);
        assert forall|t: int| 0 <= t < v.players.len() implies (#[trigger] w.players[t]).id
            == v.players[t].id by {
            assert(mid.players[t].id == v.players[t].id);
        }
        lemma_ascending_kept(v.players, w.players);
        assert forall|m: int| n <= m < lookups.len() implies slot_index(
            w.players,
            (#[trigger] lookups[m]).for_player,
        ) is Some && !w.players[slot_index(
            w.players,
            lookups[m].for_player,
        )->Some_0].state.loaded.contains(lookups[m].pos) by {
            lemma_slot_kept(mid.players, w.players, lookups[m].for_player);
            let t = slot_index(mid.players, lookups[m].for_player)->Some_0;
            assert(mid.players[t].id == lookups[m].for_player);
            assert(lookups[n - 1] != lookups[m]);
            if t == k {
                let before = mid.players[t].state.loaded;
                if w.players[t].state.loaded != before {
                    assert(w.players[t].state.loaded == before.push(lookup.pos));
                    if before.push(lookup.pos).contains(lookups[m].pos) {
                        let x = choose|x: int|
                            0 <= x < before.push(lookup.pos).len() && before.push(lookup.pos)[x]
                                == lookups[m].pos;
                        if x < before.len() {
                            assert(before[x] == lookups[m].pos);
                        }
                    }
                }
            } else {
                assert(w.players[t] == mid.players[t]);
            }
        }
        assert forall|i: int| 0 <= i < n implies (#[trigger] sources.contains(i) <==> found_at(
            v,
            lookups,
            stored,
            i,
        )) by {
            lemma_answers_follow(v, lookups, stored, (n - 1) as nat);
            if i < n - 1 {
                assert(old_sources.contains(i) <==> found_at(v, lookups, stored, i));
                if old_sources.contains(i) {
                    let x = choose|x: int| 0 <= x < old_sources.len() && old_sources[x] == i;
                    assert(sources[x] == i);
                }
                if sources.contains(i) {
                    let x = choose|x: int| 0 <= x < sources.len() && sources[x] == i;
                    if x < old_sources.len() {
                        assert(old_sources[x] == i);
                    }
                }
            } else {
                if found_at(v, lookups, stored, i) {
                    assert(w.events == mid.events.push(w.events.last()));
                    assert(sources == old_sources.push(n - 1));
                    assert(sources[old_sources.len() as int] == i);
                } else {
                    assert(w.events == mid.events);
                    assert(sources == old_sources);
                    if sources.contains(i) {
                        let x = choose|x: int| 0 <= x < sources.len() && sources[x] == i;
                        assert(old_sources[x] < n - 1);
                    }
                }
            }
        }
        assert forall|i: int|
            0 <= i < n && !found_at(v, lookups, stored, i) implies w.terrain.cache.contains_key(
            (#[trigger] lookups[i]).pos,
        ) || w.terrain.pending.contains(lookups[i].pos) by {
            if i < n - 1 {
                assert(mid.terrain.cache.contains_key(lookups[i].pos)
                    || mid.terrain.pending.contains(lookups[i].pos));
            }
        }
    }
}

/// Every chunk found. When the lookups are for chunks that their
/// players have not loaded, each once, and every chunk is held by the
/// store or by the terrain cache, then the answers emit exactly one
/// `ChunkLoaded` event per lookup, in the order of the lookups, and
/// queue no generation job.
pub proof fn lemma_all_found(v: WorldView, stored: Seq<Option<Arc<VoxelBuffer>>>)
    requires
        ascending(v.players),
        fresh_from(v.players, v.lookups, 0),
        distinct(v.lookups),
        forall|i: int|
            0 <= i < v.lookups.len() ==> v.found(
                (#[trigger] v.lookups[i]).pos,
                stored_at(stored, i),
            ) is Some,
    ensures
        v.resolve(stored).events.len() == v.events.len() + v.lookups.len(),
        v.resolve(stored).events.take(v.events.len() as int) == v.events,
        forall|i: int|
            0 <= i < v.lookups.len() ==> is_load_of(
                v.resolve(stored).events[v.events.len() + i],
                #[trigger] v.lookups[i],
            ),
        v.resolve(stored).terrain.queue == v.terrain.queue,
{
    lemma_all_found_upto(v, stored, v.lookups.len());
}

proof fn lemma_all_found_upto(v: WorldView, stored: Seq<Option<Arc<VoxelBuffer>>>, n: nat)
    requires
        ascending(v.players),
        fresh_from(v.players, v.lookups, 0),
        distinct(v.lookups),
        n <= v.lookups.len(),
        forall|i: int|
            0 <= i < v.lookups.len() ==> v.found(
                (#[trigger] v.lookups[i]).pos,
                stored_at(stored, i),
            ) is Some,
    ensures
        ({
            let w = v.resolve_upto(v.lookups, stored, n);
            &&& w.events.len() == v.events.len() + n
            &&& w.events.take(v.events.len() as int) == v.events
            &&& forall|i: int|
                0 <= i < n ==> is_load_of(w.events[v.events.len() + i], #[trigger] v.lookups[i])
            &&& w.terrain.queue == v.terrain.queue
        }),
    decreases n,
{
    let e0 = v.events.len() as int;
    if n == 0 {
        assert(v.events.take(e0) =~= v.events);
    } else {
        let lookups = v.lookups;
        let mid = v.resolve_upto(lookups, stored, (n - 1) as nat);
        lemma_all_found_upto(v, stored, (n - 1) as nat);
        lemma_answers_one_by_one(v, lookups, stored, (n - 1) as nat);
        let lookup = lookups[n - 1];
        let w = mid.resolve_one(lookup, stored_at(stored, n - 1));
        assert(w == v.resolve_upto(lookups, stored, n));
        assert(v.found(lookup.pos, stored_at(stored, n - 1)) is Some);
        assert(mid.found(lookup.pos, stored_at(stored, n - 1)) is Some);
        assert(slot_index(mid.players, lookup.for_player) is Some);
        assert(w.events == mid.events.push(w.events.last()));
        assert(is_load_of(w.events.last(), lookup));
        assert(w.events.take(e0) =~= mid.events.take(e0));
        assert forall|i: int| 0 <= i < n implies is_load_of(
            w.events[e0 + i],
            #[trigger] lookups[i],
        ) by {
            if i < n - 1 {
                assert(w.events[e0 + i] == mid.events[e0 + i]);
            }
        }
    }
}

/// What chunk synchronisation looks up is fresh: when no lookup was
/// waiting, the lookups that it queues are for players who are there,
/// for chunks that they have not loaded, within render distance of the
/// chunk that they stand in, and no lookup occurs twice.
pub proof fn lemma_sync_lookups_fresh(v: WorldView)
    requires
        ascending(v.players),
        0 <= v.render_distance,
        0 <= v.unload_margin,
        v.lookups.len() == 0,
    ensures
        ascending(v.sync().players),
        fresh_from(v.sync().players, v.sync().lookups, 0),
        distinct(v.sync().lookups),
        forall|i: int|
            0 <= i < v.sync().lookups.len() ==> {
                &&& slot_index(v.players, (#[trigger] v.sync().lookups[i]).for_player) is Some
                &&& chunk_of(
                    v.players[slot_index(
                        v.players,
                        v.sync().lookups[i].for_player,
                    )->Some_0].state.pos,
                ).distance(v.sync().lookups[i].pos) <= v.render_distance
            },
{
    let s = v.sync();
    let radius = v.render_distance as int;
    let reach = v.reach();
    let lookups = s.lookups;
    let all = v.players.len() as int;
    assert(lookups =~= sync_lookups(v.players, radius, reach));
    assert(v.players.take(all) =~= v.players);
    lemma_ascending_kept(v.players, s.players);
    assert forall|m: int| 0 <= m < lookups.len() implies slot_index(
        s.players,
        (#[trigger] lookups[m]).for_player,
    ) is Some && !s.players[slot_index(
        s.players,
        lookups[m].for_player,
    )->Some_0].state.loaded.contains(lookups[m].pos) && slot_index(
        v.players,
        lookups[m].for_player,
    ) is Some && chunk_of(
        v.players[slot_index(v.players, lookups[m].for_player)->Some_0].state.pos,
    ).distance(lookups[m].pos) <= v.render_distance by {
        let t = lemma_lookup_owner(v.players, radius, reach, all, m);
        lemma_slot_at(v.players, t);
        assert(s.players[t].id == v.players[t].id);
        lemma_slot_at(s.players, t);
        lemma_chunk_sets(v.players[t], radius, reach);
        lemma_filter_members(
            v.players[t].state.loaded,
            within_reach(chunk_of(v.players[t].state.pos), reach),
            lookups[m].pos,
        );
    }
    assert forall|i: int, j: int| 0 <= i < j < lookups.len() implies (#[trigger] lookups[i]) != (
    #[trigger] lookups[j]) by {
        if lookups[i].for_player == lookups[j].for_player {
            let t = lemma_lookup_owner(v.players, radius, reach, all, i);
            lemma_lookups_nearest_first(v.players, radius, reach, all, i, j, t);
        }
    }
}

/// Every chunk that a player wants is among the lookups that chunk
/// synchronisation queues.
proof fn lemma_lookup_queued(
    players: Seq<SlotView>,
    radius: int,
    reach: int,
    m: int,
    t: int,
    c: ChunkCoord,
)
    requires
        0 <= t < m <= players.len(),
        wanted(players[t], radius, reach).contains(c),
    ensures
        sync_lookups(players.take(m), radius, reach).contains(
            ChunkLookup { for_player: players[t].id, pos: c },
        ),
    decreases m,
{
    let seen = players.take(m);
    assert(seen.drop_last() =~= players.take(m - 1));
    assert(seen.last() == players[m - 1]);
    let all = sync_lookups(seen, radius, reach);
    let head = sync_lookups(players.take(m - 1), radius, reach);
    let want = ChunkLookup { for_player: players[t].id, pos: c };
    if t < m - 1 {
        lemma_lookup_queued(players, radius, reach, m - 1, t, c);
        let k = choose|k: int| 0 <= k < head.len() && head[k] == want;
        assert(all[k] == want);
    } else {
        let chunks = wanted(players[t], radius, reach);
        let x = choose|x: int| 0 <= x < chunks.len() && chunks[x] == c;
        assert(lookups_for(players[t].id, chunks)[x] == want);
        assert(all[head.len() + x] == want);
    }
}

/// Every chunk found, the loaded sets. When the lookups are for chunks
/// that their players have not loaded, each once, and every chunk is
/// held by the store or by the terrain cache, then after the first `n`
/// answers a player has loaded what the player had loaded before and the
/// chunks of the player's answered lookups, and nothing else.
proof fn lemma_all_found_loaded(
    v: WorldView,
    stored: Seq<Option<Arc<VoxelBuffer>>>,
    n: nat,
    t: int,
    c: ChunkCoord,
)
    requires
        ascending(v.players),
        fresh_from(v.players, v.lookups, 0),
        distinct(v.lookups),
        n <= v.lookups.len(),
        0 <= t < v.players.len(),
        forall|i: int|
            0 <= i < v.lookups.len() ==> v.found(
                (#[trigger] v.lookups[i]).pos,
                stored_at(stored, i),
            ) is Some,
    ensures
        v.resolve_upto(v.lookups, stored, n).players[t].state.loaded.contains(c) <==> (
        v.players[t].state.loaded.contains(c) || v.lookups.take(n as int).contains(
            ChunkLookup { for_player: v.players[t].id, pos: c },
        )),
    decreases n,
{
    let lookups = v.lookups;
    let want = ChunkLookup { for_player: v.players[t].id, pos: c };
    if n > 0 {
        let mid = v.resolve_upto(lookups, stored, (n - 1) as nat);
        lemma_all_found_loaded(v, stored, (n - 1) as nat, t, c);
        lemma_answers_one_by_one(v, lookups, stored, (n - 1) as nat);
        let lookup = lookups[n - 1];
        let w = mid.resolve_one(lookup, stored_at(stored, n - 1));
        assert(w == v.resolve_upto(lookups, stored, n));
        assert(v.found(lookup.pos, stored_at(stored, n - 1)) is Some);
        assert(mid.found(lookup.pos, stored_at(stored, n - 1)) is Some);
        assert(slot_index(mid.players, lookup.for_player) is Some);
        let k = slot_index(mid.players, lookup.for_player)->Some_0;
        assert(mid.players[k].id == lookup.for_player);
        assert(mid.players[t].id == v.players[t].id);
        lemma_slot_at(mid.players, t);
        let before = lookups.take(n - 1);
        let now = lookups.take(n as int);
        assert(now =~= before.push(lookup));
        assert(now.contains(want) <==> (before.contains(want) || lookup == want)) by {
            if now.contains(want) {
                let x = choose|x: int| 0 <= x < now.len() && now[x] == want;
                if x < before.len() {
                    assert(before[x] == want);
                }
            }
            if before.contains(want) {
                let x = choose|x: int| 0 <= x < before.len() && before[x] == want;
                assert(now[x] == want);
            }
            if lookup == want {
                assert(now[n - 1] == want);
            }
        }
        if k == t {
            let had = mid.players[t].state.loaded;
            assert(w.players[t].state.loaded == had.push(lookup.pos));
            assert(had.push(lookup.pos).contains(c) <==> (had.contains(c) || c == lookup.pos)) by {
                if had.push(lookup.pos).contains(c) {
                    let x = choose|x: int|
                        0 <= x < had.push(lookup.pos).len() && had.push(lookup.pos)[x] == c;
                    if x < had.len() {
                        assert(had[x] == c);
                    }
                }
                if had.contains(c) {
                    let x = choose|x: int| 0 <= x < had.len() && had[x] == c;
                    assert(had.push(lookup.pos)[x] == c);
                }
                if c == lookup.pos {
                    assert(had.push(lookup.pos)[had.len() as int] == c);
                }
            }
        } else {
            assert(w.players[t] == mid.players[t]);
        }
    } else {
        assert(lookups.take(0) =~= Seq::<ChunkLookup>::empty());
    }
}

/// Everything in range is sent. Take a chunk synchronisation that
/// starts with no lookup waiting, and the answers to its lookups, with
/// every looked-up chunk held by the store or by the terrain cache. Then
/// the answers emit exactly one `ChunkLoaded` event per lookup, in the
/// order of the lookups, and queue no generation job; no lookup occurs
/// twice; the lookups of a player whose anchor has changed are exactly
/// the chunks within render distance of the chunk that the player
/// stands in that the player had not loaded; and afterwards the player
/// has loaded exactly the chunks within render distance and the chunks
/// that the player had loaded within reach.
pub proof fn lemma_all_in_range_sent(v: WorldView, stored: Seq<Option<Arc<VoxelBuffer>>>, t: int)
    requires
        ascending(v.players),
        0 <= v.render_distance,
        0 <= v.unload_margin,
        v.lookups.len() == 0,
        0 <= t < v.players.len(),
        v.players[t].state.chunk_anchor != Some(chunk_of(v.players[t].state.pos)),
        forall|i: int|
            0 <= i < v.sync().lookups.len() ==> v.sync().found(
                (#[trigger] v.sync().lookups[i]).pos,
                stored_at(stored, i),
            ) is Some,
    ensures
        ({
            let s = v.sync();
            let r = s.resolve(stored);
            let anchor = chunk_of(v.players[t].state.pos);
            let id = v.players[t].id;
            &&& r.players.len() == v.players.len()
            &&& r.events.len() == s.events.len() + s.lookups.len()
            &&& forall|i: int|
                0 <= i < s.lookups.len() ==> is_load_of(
                    r.events[s.events.len() + i],
                    #[trigger] s.lookups[i],
                )
            &&& distinct(s.lookups)
            &&& forall|c: ChunkCoord| #[trigger]
                s.lookups.contains(ChunkLookup { for_player: id, pos: c }) <==> (anchor.distance(c)
                    <= v.render_distance && !v.players[t].state.loaded.contains(c))
            &&& forall|c: ChunkCoord| #[trigger]
                r.players[t].state.loaded.contains(c) <==> (anchor.distance(c) <= v.render_distance
                    || (v.players[t].state.loaded.contains(c) && anchor.distance(c) <= v.reach()))
            &&& r.terrain.queue == s.terrain.queue
        }),
{
    let s = v.sync();
    let r = s.resolve(stored);
    let anchor = chunk_of(v.players[t].state.pos);
    let id = v.players[t].id;
    let radius = v.render_distance as int;
    let reach = v.reach();
    let all = v.players.len() as int;
    lemma_sync_lookups_fresh(v);
    lemma_all_found(s, stored);
    lemma_answers_one_by_one(s, s.lookups, stored, s.lookups.len());
    assert(s.lookups =~= sync_lookups(v.players, radius, reach));
    assert(v.players.take(all) =~= v.players);
    lemma_chunk_sets(v.players[t], radius, reach);
    assert(s.lookups.take(s.lookups.len() as int) =~= s.lookups);
    assert forall|c: ChunkCoord| #[trigger]
        s.lookups.contains(ChunkLookup { for_player: id, pos: c }) <==> (anchor.distance(c)
            <= v.render_distance && !v.players[t].state.loaded.contains(c)) by {
        let want = ChunkLookup { for_player: id, pos: c };
        if s.lookups.contains(want) {
            let i = choose|i: int| 0 <= i < s.lookups.len() && s.lookups[i] == want;
            let owner = lemma_lookup_owner(v.players, radius, reach, all, i);
            if owner < t {
                assert(v.players[owner].id < v.players[t].id);
            } else if t < owner {
                assert(v.players[t].id < v.players[owner].id);
            }
        }
        if wanted(v.players[t], radius, reach).contains(c) {
            lemma_lookup_queued(v.players, radius, reach, all, t, c);
        }
    }
    assert forall|c: ChunkCoord| #[trigger]
        r.players[t].state.loaded.contains(c) <==> (anchor.distance(c) <= v.render_distance || (
        v.players[t].state.loaded.contains(c) && anchor.distance(c) <= v.reach())) by {
        lemma_all_found_loaded(s, stored, s.lookups.len(), t, c);
        lemma_filter_members(v.players[t].state.loaded, within_reach(anchor, reach), c);
        assert(s.lookups.contains(ChunkLookup { for_player: id, pos: c }) <==> (anchor.distance(c)
            <= v.render_distance && !v.players[t].state.loaded.contains(c)));
    }
}

} // verus!
