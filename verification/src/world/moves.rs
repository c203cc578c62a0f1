//! One move event per moving player and tick.
//!
//! Where a moving player ends up is the caller's arithmetic. What is
//! decided here is proved here: a tick emits exactly one `PlayerMoved`
//! event for a player whose input asks for movement, carrying the
//! position that the caller handed in, and none for a player whose
//! input does not, who stays where the player stands.

use std::sync::Arc;
use vstd::prelude::*;
use crate::chunk::ChunkCoord;
use crate::events::WorldEvent;
use crate::terrain::ChunkPayload;
use crate::voxel::VoxelBuffer;
use crate::world::laws::lemma_ascending_kept;
use crate::world::model::{
    advance_for, ascending, delivery_events, dropped, moved_event, moved_events, step_all,
    stored_at, sync_events, unloaded_events, ChunkLookup, PlayerAdvance, SlotView, WorldView,
};
use crate::world::pairs::{lemma_deliver_keeps_places, lemma_resolve_keeps_places};

verus! {

/// How many of `events` say that player `id` has moved.
pub open spec fn moves_of(events: Seq<WorldEvent>, id: u32) -> nat
    decreases events.len(),
{
    if events.len() == 0 {
        0
    } else {
        moves_of(events.drop_last(), id) + match events.last() {
            WorldEvent::PlayerMoved { id: mover, .. } => if mover == id {
                1nat
            } else {
                0nat
            },
            _ => 0nat,
        }
    }
}

/// The moves in two runs of events add up.
pub proof fn lemma_moves_concat(a: Seq<WorldEvent>, b: Seq<WorldEvent>, id: u32)
    ensures
        moves_of(a + b, id) == moves_of(a, id) + moves_of(b, id),
    decreases b.len(),
{
    if b.len() == 0 {
        assert(a + b =~= a);
    } else {
        assert((a + b).drop_last() =~= a + b.drop_last());
        assert((a + b).last() == b.last());
        lemma_moves_concat(a, b.drop_last(), id);
    }
}

/// Input integration emits one move for a player who is among the
/// first `m` and whose input asks for movement, and none for anyone
/// else.
proof fn lemma_moves_of_inputs(players: Seq<SlotView>, m: int, t: int)
    requires
        ascending(players),
        0 <= m <= players.len(),
        0 <= t < players.len(),
    ensures
        moves_of(moved_events(players.take(m)), players[t].id) == if t < m
            && !players[t].state.input.dir.is_zero_spec() {
            1nat
        } else {
            0nat
        },
    decreases m,
{
    if m > 0 {
        let seen = players.take(m);
        assert(seen.drop_last() =~= players.take(m - 1));
        assert(seen.last() == players[m - 1]);
        lemma_moves_of_inputs(players, m - 1, t);
        let one = moved_event(players[m - 1]);
        lemma_moves_concat(moved_events(players.take(m - 1)), one, players[t].id);
        if one.len() > 0 {
            assert(one.drop_last() =~= Seq::<WorldEvent>::empty());
            assert(moves_of(one.drop_last(), players[t].id) == 0);
        }
        if m - 1 < t {
            assert(players[m - 1].id < players[t].id);
        } else if t < m - 1 {
            assert(players[t].id < players[m - 1].id);
        }
    }
}

proof fn lemma_no_moves_in_unloads(for_player: u32, chunks: Seq<ChunkCoord>, id: u32)
    ensures
        moves_of(unloaded_events(for_player, chunks), id) == 0,
    decreases chunks.len(),
{
    let events = unloaded_events(for_player, chunks);
    if chunks.len() > 0 {
        assert(events.drop_last() =~= unloaded_events(for_player, chunks.drop_last()));
        lemma_no_moves_in_unloads(for_player, chunks.drop_last(), id);
    }
}

/// Chunk synchronisation emits no move.
proof fn lemma_no_moves_in_sync(players: Seq<SlotView>, reach: int, id: u32)
    ensures
        moves_of(sync_events(players, reach), id) == 0,
    decreases players.len(),
{
    if players.len() > 0 {
        lemma_no_moves_in_sync(players.drop_last(), reach, id);
        let block = unloaded_events(
            players.last().id,
            dropped(players.last(), reach),
        );
        lemma_no_moves_in_unloads(
            players.last().id,
            dropped(players.last(), reach),
            id,
        );
        lemma_moves_concat(sync_events(players.drop_last(), reach), block, id);
    }
}

/// The answers to lookups emit no move.
proof fn lemma_no_moves_in_answers(
    v: WorldView,
    lookups: Seq<ChunkLookup>,
    stored: Seq<Option<Arc<VoxelBuffer>>>,
    n: nat,
    id: u32,
)
    ensures
        v.events.len() <= v.resolve_upto(lookups, stored, n).events.len(),
        v.resolve_upto(lookups, stored, n).events.take(v.events.len() as int) == v.events,
        moves_of(v.resolve_upto(lookups, stored, n).events.skip(v.events.len() as int), id) == 0,
    decreases n,
{
    let e0 = v.events.len() as int;
    if n == 0 {
        assert(v.events.skip(e0) =~= Seq::<WorldEvent>::empty());
        assert(v.events.take(e0) =~= v.events);
    } else {
        let mid = v.resolve_upto(lookups, stored, (n - 1) as nat);
        lemma_no_moves_in_answers(v, lookups, stored, (n - 1) as nat, id);
        let w = mid.resolve_one(lookups[n - 1], stored_at(stored, n - 1));
        assert(w.events.take(e0) =~= mid.events.take(e0));
        if w.events != mid.events {
            assert(w.events == mid.events.push(w.events.last()));
            assert(w.events.skip(e0) =~= mid.events.skip(e0).push(w.events.last()));
            assert(mid.events.skip(e0).push(w.events.last()).drop_last() =~= mid.events.skip(e0));
        }
    }
}

proof fn lemma_no_moves_in_delivery(
    players: Seq<SlotView>,
    payload: ChunkPayload,
    radius: int,
    id: u32,
)
    ensures
        moves_of(delivery_events(players, payload, radius), id) == 0,
    decreases players.len(),
{
    if players.len() > 0 {
        lemma_no_moves_in_delivery(players.drop_last(), payload, radius, id);
        let events = delivery_events(players, payload, radius);
        let before = delivery_events(players.drop_last(), payload, radius);
        if events != before {
            assert(events.drop_last() =~= before);
        }
    }
}

/// The terrain poll emits no move.
proof fn lemma_no_moves_in_poll(v: WorldView, results: Seq<ChunkPayload>, n: nat, id: u32)
    ensures
        v.events.len() <= v.deliver_upto(results, n).events.len(),
        v.deliver_upto(results, n).events.take(v.events.len() as int) == v.events,
        moves_of(v.deliver_upto(results, n).events.skip(v.events.len() as int), id) == 0,
    decreases n,
{
    let e0 = v.events.len() as int;
    if n == 0 {
        assert(v.events.skip(e0) =~= Seq::<WorldEvent>::empty());
        assert(v.events.take(e0) =~= v.events);
    } else {
        let mid = v.deliver_upto(results, (n - 1) as nat);
        lemma_no_moves_in_poll(v, results, (n - 1) as nat, id);
        let w = mid.deliver(results[n - 1]);
        let block = delivery_events(mid.players, results[n - 1], mid.render_distance as int);
        lemma_no_moves_in_delivery(mid.players, results[n - 1], mid.render_distance as int, id);
        assert(w.events.skip(e0) =~= mid.events.skip(e0) + block);
        assert(w.events.take(e0) =~= mid.events.take(e0));
        lemma_moves_concat(mid.events.skip(e0), block, id);
    }
}

/// One move per moving player and tick. Over a whole tick (input
/// integration, chunk synchronisation, the answers to the lookups, the
/// terrain poll) the events emitted hold exactly one move for a player
/// whose input asks for movement and none for a player whose input does
/// not. Afterwards a moving player stands where the caller has taken
/// the player, and everyone else where they stood.
pub proof fn lemma_tick_moves(
    v: WorldView,
    advanced: Seq<PlayerAdvance>,
    stored: Seq<Option<Arc<VoxelBuffer>>>,
    results: Seq<ChunkPayload>,
    t: int,
)
    requires
        ascending(v.players),
        0 <= t < v.players.len(),
    ensures
        ({
            let w = v.process_inputs(advanced).sync().resolve(stored).poll(results);
            let moving = !v.players[t].state.input.dir.is_zero_spec();
            &&& v.events.len() <= w.events.len()
            &&& w.events.take(v.events.len() as int) == v.events
            &&& moves_of(w.events.skip(v.events.len() as int), v.players[t].id) == if moving {
                1nat
            } else {
                0nat
            }
            &&& w.players.len() == v.players.len()
            &&& w.players[t].id == v.players[t].id
            &&& w.players[t].state.pos == if moving && advance_for(advanced, v.players[t].id)
                is Some {
                advance_for(advanced, v.players[t].id)->Some_0
            } else {
                v.players[t].state.pos
            }
        }),
{
    let p = v.process_inputs(advanced);
    let s = p.sync();
    let r = s.resolve(stored);
    let w = r.poll(results);
    let id = v.players[t].id;
    let e0 = v.events.len() as int;
    let after = step_all(v.players, advanced);
    lemma_ascending_kept(v.players, after);
    assert(after.take(after.len() as int) =~= after);
    lemma_moves_of_inputs(after, after.len() as int, t);
    lemma_no_moves_in_sync(p.players, p.reach(), id);
    lemma_no_moves_in_answers(s, s.lookups, stored, s.lookups.len(), id);
    lemma_no_moves_in_poll(r, results, results.len(), id);
    lemma_resolve_keeps_places(s, s.lookups, stored, s.lookups.len());
    lemma_deliver_keeps_places(r, results, results.len());
    let a = moved_events(after);
    let b = sync_events(p.players, p.reach());
    let c = r.events.skip(s.events.len() as int);
    let d = w.events.skip(r.events.len() as int);
    assert(s.events =~= v.events + a + b);
    assert(r.events =~= s.events + c);
    assert(w.events =~= r.events + d);
    assert(w.events.skip(e0) =~= a + b + c + d);
    assert(w.events.take(e0) =~= v.events);
    lemma_moves_concat(a, b, id);
    lemma_moves_concat(a + b, c, id);
    lemma_moves_concat(a + b + c, d, id);
}

} // verus!
