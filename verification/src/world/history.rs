//! What the events say about the loaded sets.
//!
//! A chunk is in a player's loaded set exactly if a `ChunkLoaded` event
//! for the player and the chunk has been emitted and no `ChunkUnloaded`
//! event for them has been emitted since. The lemmas here prove that
//! every step of a tick keeps it so: the step only appends events, it
//! keeps the players and their order, and replaying the appended events
//! on a player's loaded set before the step gives the player's loaded
//! set after it.

use std::sync::Arc;
use vstd::prelude::*;
use crate::chunk::{chunk_of, ChunkCoord};
use crate::chunk_set::{out_of_reach, within_reach};
use crate::events::WorldEvent;
use crate::terrain::ChunkPayload;
use crate::voxel::VoxelBuffer;
use crate::world::laws::{lemma_ascending_kept, lemma_filter_members};
use crate::world::model::{
    ascending, delivery_events, dropped, moved_event, moved_events, needs, slot_index, stored_at,
    sync_events, unloaded_events, ChunkLookup, PlayerAdvance, SlotView, WorldView,
};

verus! {

/// What one event does to the loaded set `loaded` of player `id`.
pub open spec fn apply_event(event: WorldEvent, id: u32, loaded: Set<ChunkCoord>) -> Set<
    ChunkCoord,
> {
    match event {
        WorldEvent::ChunkLoaded { for_player, pos, .. } => if for_player == id {
            loaded.insert(pos)
        } else {
            loaded
        },
        WorldEvent::ChunkUnloaded { for_player, pos } => if for_player == id {
            loaded.remove(pos)
        } else {
            loaded
        },
        WorldEvent::PlayerMoved { .. } => loaded,
    }
}

/// The loaded set of player `id` after the events `events`, oldest first,
/// when it was `start` before them.
pub open spec fn replay(events: Seq<WorldEvent>, id: u32, start: Set<ChunkCoord>) -> Set<
    ChunkCoord,
>
    decreases events.len(),
{
    if events.len() == 0 {
        start
    } else {
        apply_event(events.last(), id, replay(events.drop_last(), id, start))
    }
}

/// Whether the step from the events `before` and the players
/// `old_players` to the events `after` and the players `new_players`
/// only appends events, keeps the players and their order, and emits
/// events whose replay takes every player's loaded set from what it was
/// to what it is.
pub open spec fn explains(
    before: Seq<WorldEvent>,
    after: Seq<WorldEvent>,
    old_players: Seq<SlotView>,
    new_players: Seq<SlotView>,
) -> bool {
    &&& before.len() <= after.len()
    &&& after.take(before.len() as int) == before
    &&& new_players.len() == old_players.len()
    &&& forall|i: int|
        0 <= i < old_players.len() ==> {
            &&& (#[trigger] new_players[i]).id == old_players[i].id
            &&& replay(
                after.skip(before.len() as int),
                old_players[i].id,
                old_players[i].state.loaded.to_set(),
            ) == new_players[i].state.loaded.to_set()
        }
}

/// Replaying two runs of events one after the other is replaying their
/// concatenation.
pub proof fn lemma_replay_concat(
    a: Seq<WorldEvent>,
    b: Seq<WorldEvent>,
    id: u32,
    start: Set<ChunkCoord>,
)
    ensures
        replay(a + b, id, start) == replay(b, id, replay(a, id, start)),
    decreases b.len(),
{
    if b.len() == 0 {
        assert(a + b =~= a);
    } else {
        assert((a + b).drop_last() =~= a + b.drop_last());
        assert((a + b).last() == b.last());
        lemma_replay_concat(a, b.drop_last(), id, start);
    }
}

/// Replaying one event applies it.
pub proof fn lemma_replay_one(event: WorldEvent, id: u32, start: Set<ChunkCoord>)
    ensures
        replay(seq![event], id, start) == apply_event(event, id, start),
{
    let one = seq![event];
    assert(one.drop_last() =~= Seq::<WorldEvent>::empty());
    assert(one.last() == event);
    assert(replay(one.drop_last(), id, start) == start);
}

/// Two explained steps in a row make an explained step.
pub proof fn lemma_explains_chain(
    e0: Seq<WorldEvent>,
    e1: Seq<WorldEvent>,
    e2: Seq<WorldEvent>,
    start: Seq<SlotView>,
    middle: Seq<SlotView>,
    end: Seq<SlotView>,
)
    requires
        explains(e0, e1, start, middle),
        explains(e1, e2, middle, end),
    ensures
        explains(e0, e2, start, end),
{
    let first = e1.skip(e0.len() as int);
    let second = e2.skip(e1.len() as int);
    assert(e2.take(e0.len() as int) =~= e0) by {
        assert forall|k: int| 0 <= k < e0.len() implies e2[k] == e0[k] by {
            assert(e2.take(e1.len() as int)[k] == e1[k]);
            assert(e1.take(e0.len() as int)[k] == e0[k]);
        }
    }
    assert(e2.skip(e0.len() as int) =~= first + second) by {
        assert forall|k: int| 0 <= k < first.len() implies e2[e0.len() + k] == first[k] by {
            assert(e2.take(e1.len() as int)[e0.len() + k] == e1[e0.len() + k]);
        }
    }
    assert forall|i: int| 0 <= i < start.len() implies (#[trigger] end[i]).id == start[i].id && replay(
        e2.skip(e0.len() as int),
        start[i].id,
        start[i].state.loaded.to_set(),
    ) == end[i].state.loaded.to_set() by {
        assert(middle[i].id == start[i].id);
        lemma_replay_concat(first, second, start[i].id, start[i].state.loaded.to_set());
    }
}

/// A step that emits nothing and keeps the players is explained.
pub proof fn lemma_explains_nothing(events: Seq<WorldEvent>, players: Seq<SlotView>)
    ensures
        explains(events, events, players, players),
{
    assert(events.take(events.len() as int) =~= events);
    assert(events.skip(events.len() as int) =~= Seq::<WorldEvent>::empty());
}

/// Adding a chunk at the end of a loaded list adds it to the loaded set.
pub proof fn lemma_push_to_set(loaded: Seq<ChunkCoord>, pos: ChunkCoord)
    ensures
        loaded.push(pos).to_set() == loaded.to_set().insert(pos),
{
    let more = loaded.push(pos);
    assert forall|c: ChunkCoord| more.to_set().contains(c) <==> loaded.to_set().insert(
        pos,
    ).contains(c) by {
        if more.contains(c) {
            let k = choose|k: int| 0 <= k < more.len() && more[k] == c;
            if k < loaded.len() {
                assert(loaded[k] == c);
            }
        }
        if loaded.contains(c) {
            let k = choose|k: int| 0 <= k < loaded.len() && loaded[k] == c;
            assert(more[k] == c);
        }
        if c == pos {
            assert(more[loaded.len() as int] == c);
        }
    }
    assert(more.to_set() =~= loaded.to_set().insert(pos));
}

/// Replaying the unloading of `chunks` for a player removes them from
/// the player's loaded set and leaves every other player's alone.
pub proof fn lemma_replay_unloaded(
    for_player: u32,
    chunks: Seq<ChunkCoord>,
    id: u32,
    start: Set<ChunkCoord>,
)
    ensures
        replay(unloaded_events(for_player, chunks), id, start) == if for_player == id {
            start.difference(chunks.to_set())
        } else {
            start
        },
    decreases chunks.len(),
{
    let events = unloaded_events(for_player, chunks);
    if chunks.len() == 0 {
        assert(start.difference(chunks.to_set()) =~= start);
    } else {
        let head = chunks.drop_last();
        assert(events.drop_last() =~= unloaded_events(for_player, head));
        lemma_replay_unloaded(for_player, head, id, start);
        if for_player == id {
            assert forall|c: ChunkCoord|
                chunks.to_set().contains(c) <==> (head.to_set().contains(c) || c
                    == chunks.last()) by {
                if chunks.contains(c) {
                    let k = choose|k: int| 0 <= k < chunks.len() && chunks[k] == c;
                    if k < head.len() {
                        assert(head[k] == c);
                    }
                }
                if head.contains(c) {
                    let k = choose|k: int| 0 <= k < head.len() && head[k] == c;
                    assert(chunks[k] == c);
                }
                if c == chunks.last() {
                    assert(chunks[chunks.len() - 1] == c);
                }
            }
            assert(start.difference(head.to_set()).remove(chunks.last()) =~= start.difference(
                chunks.to_set(),
            ));
        }
    }
}

pub proof fn lemma_replay_moves(players: Seq<SlotView>, id: u32, start: Set<ChunkCoord>)
    ensures
        replay(moved_events(players), id, start) == start,
    decreases players.len(),
{
    if players.len() > 0 {
        lemma_replay_moves(players.drop_last(), id, start);
        lemma_replay_concat(
            moved_events(players.drop_last()),
            moved_event(players.last()),
            id,
            start,
        );
        let slot = players.last();
        if !slot.state.input.dir.is_zero_spec() {
            lemma_replay_one(
                WorldEvent::PlayerMoved { id: slot.id, pos: slot.state.pos, look: slot.state.look },
                id,
                start,
            );
        }
    }
}

/// Input integration neither loads nor unloads.
pub proof fn lemma_inputs_explained(v: WorldView, advanced: Seq<PlayerAdvance>)
    ensures
        explains(
            v.events,
            v.process_inputs(advanced).events,
            v.players,
            v.process_inputs(advanced).players,
        ),
{
    let w = v.process_inputs(advanced);
    assert(w.events.take(v.events.len() as int) =~= v.events);
    assert(w.events.skip(v.events.len() as int) =~= moved_events(w.players));
    assert forall|i: int| 0 <= i < v.players.len() implies (#[trigger] w.players[i]).id
        == v.players[i].id && replay(
        w.events.skip(v.events.len() as int),
        v.players[i].id,
        v.players[i].state.loaded.to_set(),
    ) == w.players[i].state.loaded.to_set() by {
        lemma_replay_moves(w.players, v.players[i].id, v.players[i].state.loaded.to_set());
    }
}

pub proof fn lemma_replay_sync(players: Seq<SlotView>, reach: int, k: int, i: int)
    requires
        ascending(players),
        0 <= k <= players.len(),
        0 <= i < players.len(),
    ensures
        replay(
            sync_events(players.take(k), reach),
            players[i].id,
            players[i].state.loaded.to_set(),
        ) == if i < k {
            players[i].state.loaded.filter(within_reach(chunk_of(players[i].state.pos), reach)).to_set()
        } else {
            players[i].state.loaded.to_set()
        },
    decreases k,
{
    let id = players[i].id;
    let start = players[i].state.loaded.to_set();
    if k > 0 {
        let seen = players.take(k);
        let last = players[k - 1];
        assert(seen.drop_last() =~= players.take(k - 1));
        assert(seen.last() == last);
        lemma_replay_sync(players, reach, k - 1, i);
        let gone = dropped(last, reach);
        lemma_replay_concat(
            sync_events(players.take(k - 1), reach),
            unloaded_events(last.id, gone),
            id,
            start,
        );
        lemma_replay_unloaded(
            last.id,
            gone,
            id,
            replay(sync_events(players.take(k - 1), reach), id, start),
        );
        if k - 1 == i {
            let loaded = players[i].state.loaded;
            let anchor = chunk_of(players[i].state.pos);
            let kept = loaded.filter(within_reach(anchor, reach));
            assert forall|c: ChunkCoord|
                start.difference(gone.to_set()).contains(c) <==> kept.to_set().contains(c) by {
                lemma_filter_members(loaded, within_reach(anchor, reach), c);
                lemma_filter_members(loaded, out_of_reach(anchor, reach), c);
            }
            assert(start.difference(gone.to_set()) =~= kept.to_set());
        } else if k - 1 < i {
            assert(players[k - 1].id < players[i].id);
        } else {
            assert(players[i].id < players[k - 1].id);
        }
    }
}

/// Chunk synchronisation is explained by its `ChunkUnloaded` events.
pub proof fn lemma_sync_explained(v: WorldView)
    requires
        ascending(v.players),
    ensures
        explains(v.events, v.sync().events, v.players, v.sync().players),
{
    let w = v.sync();
    assert(w.events.take(v.events.len() as int) =~= v.events);
    assert(w.events.skip(v.events.len() as int) =~= sync_events(v.players, v.reach()));
    assert(v.players.take(v.players.len() as int) =~= v.players);
    assert forall|i: int| 0 <= i < v.players.len() implies (#[trigger] w.players[i]).id
        == v.players[i].id && replay(
        w.events.skip(v.events.len() as int),
        v.players[i].id,
        v.players[i].state.loaded.to_set(),
    ) == w.players[i].state.loaded.to_set() by {
        lemma_replay_sync(v.players, v.reach(), v.players.len() as int, i);
    }
}

pub proof fn lemma_replay_delivery(
    players: Seq<SlotView>,
    payload: ChunkPayload,
    radius: int,
    k: int,
    i: int,
)
    requires
        ascending(players),
        0 <= k <= players.len(),
        0 <= i < players.len(),
    ensures
        replay(
            delivery_events(players.take(k), payload, radius),
            players[i].id,
            players[i].state.loaded.to_set(),
        ) == if i < k && needs(players[i].state, payload.pos, radius) {
            players[i].state.loaded.to_set().insert(payload.pos)
        } else {
            players[i].state.loaded.to_set()
        },
    decreases k,
{
    if k > 0 {
        let seen = players.take(k);
        assert(seen.drop_last() =~= players.take(k - 1));
        assert(seen.last() == players[k - 1]);
        lemma_replay_delivery(players, payload, radius, k - 1, i);
        if needs(players[k - 1].state, payload.pos, radius) {
            let events = delivery_events(seen, payload, radius);
            assert(events.drop_last() =~= delivery_events(players.take(k - 1), payload, radius));
        }
        if k - 1 < i {
            assert(players[k - 1].id < players[i].id);
        } else if i < k - 1 {
            assert(players[i].id < players[k - 1].id);
        }
    }
}

/// Handing out one generated chunk is explained by its `ChunkLoaded`
/// events.
pub proof fn lemma_deliver_explained(v: WorldView, payload: ChunkPayload)
    requires
        ascending(v.players),
    ensures
        explains(v.events, v.deliver(payload).events, v.players, v.deliver(payload).players),
        ascending(v.deliver(payload).players),
{
    let w = v.deliver(payload);
    let radius = v.render_distance as int;
    assert(w.events.take(v.events.len() as int) =~= v.events);
    assert(w.events.skip(v.events.len() as int) =~= delivery_events(v.players, payload, radius));
    assert(v.players.take(v.players.len() as int) =~= v.players);
    assert forall|i: int| 0 <= i < v.players.len() implies (#[trigger] w.players[i]).id
        == v.players[i].id && replay(
        w.events.skip(v.events.len() as int),
        v.players[i].id,
        v.players[i].state.loaded.to_set(),
    ) == w.players[i].state.loaded.to_set() by {
        lemma_replay_delivery(v.players, payload, radius, v.players.len() as int, i);
        lemma_push_to_set(v.players[i].state.loaded, payload.pos);
    }
    lemma_ascending_kept(v.players, w.players);
}

pub proof fn lemma_deliver_upto_explained(v: WorldView, results: Seq<ChunkPayload>, n: nat)
    requires
        ascending(v.players),
        n <= results.len(),
    ensures
        explains(
            v.events,
            v.deliver_upto(results, n).events,
            v.players,
            v.deliver_upto(results, n).players,
        ),
        ascending(v.deliver_upto(results, n).players),
    decreases n,
{
    if n == 0 {
        lemma_explains_nothing(v.events, v.players);
    } else {
        let mid = v.deliver_upto(results, (n - 1) as nat);
        lemma_deliver_upto_explained(v, results, (n - 1) as nat);
        lemma_deliver_explained(mid, results[n - 1]);
        lemma_explains_chain(
            v.events,
            mid.events,
            mid.deliver(results[n - 1]).events,
            v.players,
            mid.players,
            mid.deliver(results[n - 1]).players,
        );
    }
}

/// The terrain poll is explained by its `ChunkLoaded` events.
pub proof fn lemma_poll_explained(v: WorldView, results: Seq<ChunkPayload>)
    requires
        ascending(v.players),
    ensures
        explains(v.events, v.poll(results).events, v.players, v.poll(results).players),
        ascending(v.poll(results).players),
{
    lemma_deliver_upto_explained(v, results, results.len());
}

/// Loading one chunk for one player is explained by its `ChunkLoaded`
/// event, if it emits one.
pub proof fn lemma_load_explained(v: WorldView, id: u32, pos: ChunkCoord, data: Arc<VoxelBuffer>)
    requires
        ascending(v.players),
    ensures
        explains(v.events, v.load(id, pos, data).events, v.players, v.load(id, pos, data).players),
        ascending(v.load(id, pos, data).players),
{
    let w = v.load(id, pos, data);
    match slot_index(v.players, id) {
        None => {
            lemma_explains_nothing(v.events, v.players);
        },
        Some(j) => {
            if v.players[j].state.loaded.contains(pos) {
                lemma_explains_nothing(v.events, v.players);
            } else {
                let event = WorldEvent::ChunkLoaded { for_player: id, pos, data };
                assert(w.events.take(v.events.len() as int) =~= v.events);
                assert(w.events.skip(v.events.len() as int) =~= seq![event]);
                assert(v.players[j].id == id);
                assert forall|i: int| 0 <= i < v.players.len() implies (#[trigger] w.players[i]).id
                    == v.players[i].id && replay(
                    w.events.skip(v.events.len() as int),
                    v.players[i].id,
                    v.players[i].state.loaded.to_set(),
                ) == w.players[i].state.loaded.to_set() by {
                    lemma_replay_one(event, v.players[i].id, v.players[i].state.loaded.to_set());
                    if i == j {
                        lemma_push_to_set(v.players[j].state.loaded, pos);
                    } else if i < j {
                        assert(v.players[i].id < v.players[j].id);
                    } else {
                        assert(v.players[j].id < v.players[i].id);
                    }
                }
                lemma_ascending_kept(v.players, w.players);
            }
        },
    }
}

pub proof fn lemma_resolve_upto_explained(
    v: WorldView,
    lookups: Seq<ChunkLookup>,
    stored: Seq<Option<Arc<VoxelBuffer>>>,
    n: nat,
)
    requires
        ascending(v.players),
        n <= lookups.len(),
    ensures
        explains(
            v.events,
            v.resolve_upto(lookups, stored, n).events,
            v.players,
            v.resolve_upto(lookups, stored, n).players,
        ),
        ascending(v.resolve_upto(lookups, stored, n).players),
    decreases n,
{
    if n == 0 {
        lemma_explains_nothing(v.events, v.players);
    } else {
        let mid = v.resolve_upto(lookups, stored, (n - 1) as nat);
        lemma_resolve_upto_explained(v, lookups, stored, (n - 1) as nat);
        let lookup = lookups[n - 1];
        let next = mid.resolve_one(lookup, stored_at(stored, n - 1));
        match mid.found(lookup.pos, stored_at(stored, n - 1)) {
            Some(data) => {
                lemma_load_explained(mid, lookup.for_player, lookup.pos, data);
            },
            None => {
                lemma_explains_nothing(mid.events, mid.players);
            },
        }
        lemma_explains_chain(
            v.events,
            mid.events,
            next.events,
            v.players,
            mid.players,
            next.players,
        );
    }
}

/// Answering the lookups is explained by its `ChunkLoaded` events.
pub proof fn lemma_resolve_explained(v: WorldView, stored: Seq<Option<Arc<VoxelBuffer>>>)
    requires
        ascending(v.players),
    ensures
        explains(v.events, v.resolve(stored).events, v.players, v.resolve(stored).players),
        ascending(v.resolve(stored).players),
{
    lemma_resolve_upto_explained(v, v.lookups, stored, v.lookups.len());
}

} // verus!
