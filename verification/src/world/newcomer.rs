//! A newcomer's first tick.
//!
//! A player who has nothing loaded and no anchor yet is sent, in one
//! tick, every chunk within render distance of the chunk that the
//! player stands in, provided that the store or the terrain cache holds
//! them all: one `ChunkLoaded` event for each, none for any other chunk,
//! and afterwards the player has loaded exactly these chunks.

use std::sync::Arc;
use vstd::prelude::*;
use crate::chunk::{chunk_of, ChunkCoord};
use crate::events::WorldEvent;
use crate::terrain::ChunkPayload;
use crate::voxel::VoxelBuffer;
use crate::world::answers::lemma_all_in_range_sent;
use crate::world::history::{
    lemma_deliver_upto_explained, lemma_inputs_explained, lemma_resolve_upto_explained, replay,
};
use crate::world::laws::lemma_ascending_kept;
use crate::world::model::{
    ascending, delivery_events, stored_at, ChunkLookup, PlayerAdvance, SlotView, WorldView,
};
use crate::world::order::is_load_of;
use crate::world::pairs::{
    lemma_resolve_keeps_places, lemma_tick_tidy, lemma_tidy_at, lemma_tidy_poll, tidy,
};

verus! {

proof fn lemma_delivery_only_loads(
    players: Seq<SlotView>,
    payload: ChunkPayload,
    radius: int,
    k: int,
)
    requires
        0 <= k < delivery_events(players, payload, radius).len(),
    ensures
        delivery_events(players, payload, radius)[k] is ChunkLoaded,
    decreases players.len(),
{
    let events = delivery_events(players, payload, radius);
    let before = delivery_events(players.drop_last(), payload, radius);
    if k < before.len() {
        lemma_delivery_only_loads(players.drop_last(), payload, radius, k);
    }
}

/// The terrain poll emits `ChunkLoaded` events only.
proof fn lemma_poll_only_loads(v: WorldView, results: Seq<ChunkPayload>, n: nat, k: int)
    requires
        n <= results.len(),
        0 <= k < v.deliver_upto(results, n).events.len() - v.events.len(),
    ensures
        v.deliver_upto(results, n).events[v.events.len() + k] is ChunkLoaded,
    decreases n,
{
    if n > 0 {
        let mid = v.deliver_upto(results, (n - 1) as nat);
        lemma_deliver_upto_explained_len(v, results, (n - 1) as nat);
        let block = delivery_events(mid.players, results[n - 1], mid.render_distance as int);
        let w = mid.deliver(results[n - 1]);
        assert(w.events == mid.events + block);
        if v.events.len() + k < mid.events.len() {
            lemma_poll_only_loads(v, results, (n - 1) as nat, k);
        } else {
            lemma_delivery_only_loads(
                mid.players,
                results[n - 1],
                mid.render_distance as int,
                v.events.len() + k - mid.events.len(),
            );
        }
    }
}

proof fn lemma_deliver_upto_explained_len(v: WorldView, results: Seq<ChunkPayload>, n: nat)
    ensures
        v.events.len() <= v.deliver_upto(results, n).events.len(),
    decreases n,
{
    if n > 0 {
        lemma_deliver_upto_explained_len(v, results, (n - 1) as nat);
    }
}

/// A tidy run of loadings changes nothing for a player who has loaded
/// everything within render distance already.
proof fn lemma_nothing_left(
    events: Seq<WorldEvent>,
    id: u32,
    anchor: ChunkCoord,
    radius: int,
    reach: int,
    start: Set<ChunkCoord>,
)
    requires
        tidy(events, id, anchor, radius, reach, start),
        forall|k: int| 0 <= k < events.len() ==> (#[trigger] events[k]) is ChunkLoaded,
        forall|c: ChunkCoord| anchor.distance(c) <= radius ==> #[trigger] start.contains(c),
    ensures
        replay(events, id, start) == start,
    decreases events.len(),
{
    if events.len() > 0 {
        let head = events.drop_last();
        assert forall|k: int| 0 <= k < head.len() implies (#[trigger] head[k]) is ChunkLoaded by {
            assert(head[k] == events[k]);
        }
        lemma_nothing_left(head, id, anchor, radius, reach, start);
        assert(events[events.len() - 1] is ChunkLoaded);
    }
}

/// A newcomer's first tick. Take a tick that starts with no lookup
/// waiting (input integration, chunk synchronisation, the answers to
/// the lookups, the terrain poll), a player who has nothing loaded and
/// no anchor, and let the store or the terrain cache hold every chunk
/// that is looked up. Then for every chunk within render distance of
/// the chunk that the player stands in, the tick emits a `ChunkLoaded`
/// event for the player, at the place of the chunk's lookup; it emits
/// none for the player for any other chunk; and afterwards the player
/// has loaded exactly the chunks within render distance.
pub proof fn lemma_first_tick(
    v: WorldView,
    advanced: Seq<PlayerAdvance>,
    stored: Seq<Option<Arc<VoxelBuffer>>>,
    results: Seq<ChunkPayload>,
    t: int,
)
    requires
        ascending(v.players),
        0 <= v.render_distance,
        0 <= v.unload_margin,
        v.lookups.len() == 0,
        0 <= t < v.players.len(),
        v.players[t].state.loaded.len() == 0,
        v.players[t].state.chunk_anchor is None,
        forall|i: int|
            0 <= i < v.process_inputs(advanced).sync().lookups.len() ==> v.process_inputs(
                advanced,
            ).sync().found(
                (#[trigger] v.process_inputs(advanced).sync().lookups[i]).pos,
                stored_at(stored, i),
            ) is Some,
    ensures
        ({
            let p = v.process_inputs(advanced);
            let s = p.sync();
            let w = s.resolve(stored).poll(results);
            let anchor = chunk_of(p.players[t].state.pos);
            let id = v.players[t].id;
            &&& w.players.len() == v.players.len()
            &&& v.events.len() <= s.events.len()
            &&& s.events.len() + s.lookups.len() <= w.events.len()
            &&& forall|c: ChunkCoord|
                #[trigger] anchor.distance(c) <= v.render_distance ==> {
                    let i = s.lookups.index_of(ChunkLookup { for_player: id, pos: c });
                    &&& 0 <= i < s.lookups.len()
                    &&& is_load_of(
                        w.events[s.events.len() + i],
                        ChunkLookup { for_player: id, pos: c },
                    )
                }
            &&& forall|k: int, c: ChunkCoord|
                v.events.len() <= k < w.events.len() && #[trigger] is_load_of(
                    w.events[k],
                    ChunkLookup { for_player: id, pos: c },
                ) ==> anchor.distance(c) <= v.render_distance
            &&& forall|c: ChunkCoord| #[trigger]
                w.players[t].state.loaded.contains(c) <==> anchor.distance(c) <= v.render_distance
        }),
{
    let p = v.process_inputs(advanced);
    let s = p.sync();
    let r = s.resolve(stored);
    let w = r.poll(results);
    let anchor = chunk_of(p.players[t].state.pos);
    let id = v.players[t].id;
    let radius = v.render_distance as int;
    let reach = v.reach();
    let e0 = v.events.len() as int;
    lemma_inputs_explained(v, advanced);
    lemma_ascending_kept(v.players, p.players);
    lemma_ascending_kept(p.players, s.players);
    assert(p.players[t].id == id);
    assert(p.players[t].state.loaded == v.players[t].state.loaded);
    assert(p.players[t].state.chunk_anchor is None);
    lemma_all_in_range_sent(p, stored, t);
    lemma_resolve_upto_explained(s, s.lookups, stored, s.lookups.len());
    lemma_resolve_keeps_places(s, s.lookups, stored, s.lookups.len());
    lemma_deliver_upto_explained(r, results, results.len());
    // every chunk in range has its event
    assert forall|c: ChunkCoord| #[trigger] anchor.distance(c) <= v.render_distance implies ({
        let i = s.lookups.index_of(ChunkLookup { for_player: id, pos: c });
        &&& 0 <= i < s.lookups.len()
        &&& is_load_of(w.events[s.events.len() + i], ChunkLookup { for_player: id, pos: c })
    }) by {
        let want = ChunkLookup { for_player: id, pos: c };
        assert(!v.players[t].state.loaded.contains(c));
        assert(s.lookups.contains(want));
        let i = s.lookups.index_of(want);
        assert(s.lookups[i] == want);
        assert(w.events.take(r.events.len() as int)[s.events.len() + i] == r.events[s.events.len()
            + i]);
    }
    // no event for any other chunk
    lemma_tick_tidy(v, advanced, stored, results, t);
    let new = w.events.skip(e0);
    assert forall|k: int, c: ChunkCoord|
        e0 <= k < w.events.len() && #[trigger] is_load_of(
            w.events[k],
            ChunkLookup { for_player: id, pos: c },
        ) implies anchor.distance(c) <= v.render_distance by {
        lemma_tidy_at(new, id, anchor, radius, reach, v.players[t].state.loaded.to_set(), k - e0);
        assert(new[k - e0] == w.events[k]);
    }
    // the poll finds nothing left to send
    let start = r.players[t].state.loaded.to_set();
    assert(r.players[t].state.chunk_anchor == Some(anchor));
    lemma_tidy_poll(r, results, results.len(), t, reach);
    let polled = w.events.skip(r.events.len() as int);
    assert forall|k: int| 0 <= k < polled.len() implies (#[trigger] polled[k]) is ChunkLoaded by {
        lemma_poll_only_loads(r, results, results.len(), k);
    }
    assert forall|c: ChunkCoord| anchor.distance(c) <= radius implies #[trigger] start.contains(
        c,
    ) by {
        assert(r.players[t].state.loaded.contains(c));
    }
    lemma_nothing_left(polled, r.players[t].id, anchor, radius, reach, start);
    assert forall|c: ChunkCoord| #[trigger]
        w.players[t].state.loaded.contains(c) <==> anchor.distance(c) <= v.render_distance by {
        assert(w.players[t].state.loaded.to_set().contains(c) <==> start.contains(c));
        assert(r.players[t].state.loaded.contains(c) <==> anchor.distance(c) <= v.render_distance);
    }
}

} // verus!
