//! No pair twice.
//!
//! Within one tick no chunk is sent to a player twice, dropped for a
//! player twice, or both sent and dropped. The lemmas here prove it from
//! what each step of the tick emits: a chunk is dropped only while the
//! player has it and it lies beyond reach of the chunk that the player
//! stands in, and it is sent only while the player lacks it and it lies
//! within render distance of that chunk.

use std::sync::Arc;
use vstd::prelude::*;
use crate::chunk::{chunk_of, ChunkCoord};
use crate::chunk_set::out_of_reach;
use crate::events::WorldEvent;
use crate::terrain::ChunkPayload;
use crate::voxel::VoxelBuffer;
use crate::world::answers::{lemma_slot_at, lemma_sync_lookups_fresh};
use crate::world::history::{
    lemma_deliver_upto_explained, lemma_inputs_explained, lemma_replay_concat,
    lemma_replay_delivery, lemma_replay_moves, lemma_replay_sync, lemma_replay_unloaded,
    lemma_resolve_upto_explained, lemma_sync_explained, replay,
};
use crate::world::laws::{lemma_ascending_kept, lemma_filter_members};
use crate::world::model::{
    ascending, delivery_events, dropped, moved_event, moved_events, needs, stored_at,
    sync_events, unloaded_events, ChunkLookup, PlayerAdvance, SlotView, WorldView,
};

verus! {

/// Whether `event` is in place for player `id`, whose loaded set is
/// `loaded` just before it and who stands in the chunk `anchor`: a
/// loading of the player's is of a chunk that the player lacks, within
/// `radius` of the anchor; an unloading of the player's is of a chunk
/// that the player has, farther than `reach` from the anchor.
pub open spec fn in_place(
    event: WorldEvent,
    id: u32,
    anchor: ChunkCoord,
    radius: int,
    reach: int,
    loaded: Set<ChunkCoord>,
) -> bool {
    match event {
        WorldEvent::ChunkLoaded { for_player, pos, .. } => for_player == id ==> !loaded.contains(
            pos,
        ) && anchor.distance(pos) <= radius,
        WorldEvent::ChunkUnloaded { for_player, pos } => for_player == id ==> loaded.contains(pos)
            && anchor.distance(pos) > reach,
        WorldEvent::PlayerMoved { .. } => true,
    }
}

/// Whether every event of `events` is in place for player `id`, whose
/// loaded set is `start` before the first of them.
pub open spec fn tidy(
    events: Seq<WorldEvent>,
    id: u32,
    anchor: ChunkCoord,
    radius: int,
    reach: int,
    start: Set<ChunkCoord>,
) -> bool
    decreases events.len(),
{
    events.len() == 0 || (tidy(events.drop_last(), id, anchor, radius, reach, start) && in_place(
        events.last(),
        id,
        anchor,
        radius,
        reach,
        replay(events.drop_last(), id, start),
    ))
}

/// Whether `event` loads or unloads the chunk `c` for player `id`.
pub open spec fn concerns(event: WorldEvent, id: u32, c: ChunkCoord) -> bool {
    match event {
        WorldEvent::ChunkLoaded { for_player, pos, .. } => for_player == id && pos == c,
        WorldEvent::ChunkUnloaded { for_player, pos } => for_player == id && pos == c,
        WorldEvent::PlayerMoved { .. } => false,
    }
}

/// Two tidy runs in a row make a tidy run.
pub proof fn lemma_tidy_concat(
    a: Seq<WorldEvent>,
    b: Seq<WorldEvent>,
    id: u32,
    anchor: ChunkCoord,
    radius: int,
    reach: int,
    start: Set<ChunkCoord>,
)
    requires
        tidy(a, id, anchor, radius, reach, start),
        tidy(b, id, anchor, radius, reach, replay(a, id, start)),
    ensures
        tidy(a + b, id, anchor, radius, reach, start),
    decreases b.len(),
{
    if b.len() == 0 {
        assert(a + b =~= a);
    } else {
        assert((a + b).drop_last() =~= a + b.drop_last());
        assert((a + b).last() == b.last());
        lemma_tidy_concat(a, b.drop_last(), id, anchor, radius, reach, start);
        lemma_replay_concat(a, b.drop_last(), id, start);
    }
}

/// Every event of a tidy run is in place.
pub proof fn lemma_tidy_at(
    events: Seq<WorldEvent>,
    id: u32,
    anchor: ChunkCoord,
    radius: int,
    reach: int,
    start: Set<ChunkCoord>,
    i: int,
)
    requires
        tidy(events, id, anchor, radius, reach, start),
        0 <= i < events.len(),
    ensures
        in_place(events[i], id, anchor, radius, reach, replay(events.take(i), id, start)),
        tidy(events.take(i), id, anchor, radius, reach, start),
    decreases events.len(),
{
    if i == events.len() - 1 {
        assert(events.take(i) =~= events.drop_last());
    } else {
        lemma_tidy_at(events.drop_last(), id, anchor, radius, reach, start, i);
        assert(events.drop_last().take(i) =~= events.take(i));
    }
}

/// In a tidy run a chunk that has been loaded for the player is in the
/// player's loaded set from then on, and a chunk that has been unloaded
/// is out of it from then on.
proof fn lemma_tidy_stays(
    events: Seq<WorldEvent>,
    id: u32,
    anchor: ChunkCoord,
    radius: int,
    reach: int,
    start: Set<ChunkCoord>,
    c: ChunkCoord,
    i: int,
    j: int,
)
    requires
        tidy(events, id, anchor, radius, reach, start),
        radius <= reach,
        0 <= i < j <= events.len(),
        concerns(events[i], id, c),
    ensures
        replay(events.take(j), id, start).contains(c) == (events[i] is ChunkLoaded),
    decreases j,
{
    lemma_tidy_at(events, id, anchor, radius, reach, start, i);
    let upto = events.take(j);
    assert(upto.drop_last() =~= events.take(j - 1));
    assert(upto.last() == events[j - 1]);
    if j > i + 1 {
        lemma_tidy_stays(events, id, anchor, radius, reach, start, c, i, j - 1);
        lemma_tidy_at(events, id, anchor, radius, reach, start, j - 1);
    }
}

/// No pair twice: in a tidy run no two events load or unload the same
/// chunk for the player.
pub proof fn lemma_tidy_pairs(
    events: Seq<WorldEvent>,
    id: u32,
    anchor: ChunkCoord,
    radius: int,
    reach: int,
    start: Set<ChunkCoord>,
    c: ChunkCoord,
    i: int,
    j: int,
)
    requires
        tidy(events, id, anchor, radius, reach, start),
        radius <= reach,
        0 <= i < j < events.len(),
        concerns(events[i], id, c),
    ensures
        !concerns(events[j], id, c),
{
    lemma_tidy_stays(events, id, anchor, radius, reach, start, c, i, j);
    lemma_tidy_at(events, id, anchor, radius, reach, start, i);
    lemma_tidy_at(events, id, anchor, radius, reach, start, j);
}

/// A run of one event that is in place is tidy.
proof fn lemma_tidy_one(
    event: WorldEvent,
    id: u32,
    anchor: ChunkCoord,
    radius: int,
    reach: int,
    start: Set<ChunkCoord>,
)
    requires
        in_place(event, id, anchor, radius, reach, start),
    ensures
        tidy(seq![event], id, anchor, radius, reach, start),
{
    let one = seq![event];
    assert(one.drop_last() =~= Seq::<WorldEvent>::empty());
    assert(one.last() == event);
    assert(tidy(one.drop_last(), id, anchor, radius, reach, start));
    assert(replay(one.drop_last(), id, start) == start);
}

/// The events of input integration are tidy: they load and unload
/// nothing.
proof fn lemma_tidy_moves(
    players: Seq<SlotView>,
    id: u32,
    anchor: ChunkCoord,
    radius: int,
    reach: int,
    start: Set<ChunkCoord>,
)
    ensures
        tidy(moved_events(players), id, anchor, radius, reach, start),
    decreases players.len(),
{
    if players.len() > 0 {
        lemma_tidy_moves(players.drop_last(), id, anchor, radius, reach, start);
        lemma_replay_moves(players.drop_last(), id, start);
        let one = moved_event(players.last());
        if one.len() > 0 {
            lemma_tidy_one(one[0], id, anchor, radius, reach, start);
            assert(one =~= seq![one[0]]);
        }
        lemma_tidy_concat(
            moved_events(players.drop_last()),
            one,
            id,
            anchor,
            radius,
            reach,
            start,
        );
    }
}

/// Filtering keeps a list free of duplicates.
proof fn lemma_filter_distinct(s: Seq<ChunkCoord>, pred: spec_fn(ChunkCoord) -> bool)
    requires
        s.no_duplicates(),
    ensures
        s.filter(pred).no_duplicates(),
    decreases s.len(),
{
    reveal(Seq::filter);
    if s.len() > 0 {
        let head = s.drop_last();
        lemma_filter_distinct(head, pred);
        let kept = head.filter(pred);
        if pred(s.last()) {
            if kept.contains(s.last()) {
                lemma_filter_members(head, pred, s.last());
                let k = choose|k: int| 0 <= k < head.len() && head[k] == s.last();
                assert(s[k] == s[s.len() - 1]);
            }
            assert forall|i: int, j: int|
                0 <= i < kept.push(s.last()).len() && 0 <= j < kept.push(s.last()).len() && i
                    != j implies kept.push(s.last())[i] != kept.push(s.last())[j] by {
                if i < kept.len() {
                    assert(kept.contains(kept[i]));
                }
                if j < kept.len() {
                    assert(kept.contains(kept[j]));
                }
            }
        }
    }
}

/// The unloading of chunks for another player is tidy for the player.
proof fn lemma_tidy_unloaded_other(
    other: u32,
    chunks: Seq<ChunkCoord>,
    id: u32,
    anchor: ChunkCoord,
    radius: int,
    reach: int,
    start: Set<ChunkCoord>,
)
    requires
        other != id,
    ensures
        tidy(unloaded_events(other, chunks), id, anchor, radius, reach, start),
    decreases chunks.len(),
{
    let events = unloaded_events(other, chunks);
    if chunks.len() > 0 {
        assert(events.drop_last() =~= unloaded_events(other, chunks.drop_last()));
        lemma_tidy_unloaded_other(other, chunks.drop_last(), id, anchor, radius, reach, start);
    }
}

/// The unloading of distinct chunks that the player has, all beyond
/// reach, is tidy.
proof fn lemma_tidy_unloaded_own(
    chunks: Seq<ChunkCoord>,
    id: u32,
    anchor: ChunkCoord,
    radius: int,
    reach: int,
    start: Set<ChunkCoord>,
)
    requires
        chunks.no_duplicates(),
        forall|k: int|
            0 <= k < chunks.len() ==> start.contains(#[trigger] chunks[k]) && anchor.distance(
                chunks[k],
            ) > reach,
    ensures
        tidy(unloaded_events(id, chunks), id, anchor, radius, reach, start),
    decreases chunks.len(),
{
    let events = unloaded_events(id, chunks);
    if chunks.len() > 0 {
        let head = chunks.drop_last();
        assert(events.drop_last() =~= unloaded_events(id, head));
        assert forall|k: int| 0 <= k < head.len() implies start.contains(#[trigger] head[k])
            && anchor.distance(head[k]) > reach by {
            assert(head[k] == chunks[k]);
        }
        lemma_tidy_unloaded_own(head, id, anchor, radius, reach, start);
        lemma_replay_unloaded(id, head, id, start);
        if head.contains(chunks.last()) {
            let k = choose|k: int| 0 <= k < head.len() && head[k] == chunks.last();
            assert(chunks[k] == chunks[chunks.len() - 1]);
        }
        assert(start.contains(chunks[chunks.len() - 1]));
    }
}

/// The events of chunk synchronisation are tidy for every player whose
/// loaded chunks are distinct.
proof fn lemma_tidy_sync(players: Seq<SlotView>, radius: int, reach: int, m: int, t: int)
    requires
        ascending(players),
        0 <= m <= players.len(),
        0 <= t < players.len(),
        players[t].state.loaded.no_duplicates(),
    ensures
        tidy(
            sync_events(players.take(m), reach),
            players[t].id,
            chunk_of(players[t].state.pos),
            radius,
            reach,
            players[t].state.loaded.to_set(),
        ),
    decreases m,
{
    let id = players[t].id;
    let anchor = chunk_of(players[t].state.pos);
    let start = players[t].state.loaded.to_set();
    if m > 0 {
        let seen = players.take(m);
        let last = players[m - 1];
        assert(seen.drop_last() =~= players.take(m - 1));
        assert(seen.last() == last);
        lemma_tidy_sync(players, radius, reach, m - 1, t);
        lemma_replay_sync(players, reach, m - 1, t);
        let gone = dropped(last, reach);
        if m - 1 == t {
            lemma_filter_distinct(players[t].state.loaded, out_of_reach(anchor, reach));
            assert forall|k: int| 0 <= k < gone.len() implies start.contains(#[trigger] gone[k])
                && anchor.distance(gone[k]) > reach by {
                assert(gone.contains(gone[k]));
                lemma_filter_members(
                    players[t].state.loaded,
                    out_of_reach(anchor, reach),
                    gone[k],
                );
            }
            lemma_tidy_unloaded_own(gone, id, anchor, radius, reach, start);
        } else {
            if m - 1 < t {
                assert(players[m - 1].id < players[t].id);
            } else {
                assert(players[t].id < players[m - 1].id);
            }
            lemma_tidy_unloaded_other(
                last.id,
                gone,
                id,
                anchor,
                radius,
                reach,
                replay(sync_events(players.take(m - 1), reach), id, start),
            );
        }
        lemma_tidy_concat(
            sync_events(players.take(m - 1), reach),
            unloaded_events(last.id, gone),
            id,
            anchor,
            radius,
            reach,
            start,
        );
    }
}

/// Answering lookups leaves every player where the player stands, with
/// the same anchor and number.
pub proof fn lemma_resolve_keeps_places(
    v: WorldView,
    lookups: Seq<ChunkLookup>,
    stored: Seq<Option<Arc<VoxelBuffer>>>,
    n: nat,
)
    ensures
        ({
            let w = v.resolve_upto(lookups, stored, n);
            &&& w.players.len() == v.players.len()
            &&& w.render_distance == v.render_distance
            &&& w.unload_margin == v.unload_margin
            &&& forall|k: int|
                0 <= k < v.players.len() ==> {
                    &&& (#[trigger] w.players[k]).id == v.players[k].id
                    &&& w.players[k].state.pos == v.players[k].state.pos
                    &&& w.players[k].state.chunk_anchor == v.players[k].state.chunk_anchor
                }
        }),
    decreases n,
{
    if n > 0 {
        lemma_resolve_keeps_places(v, lookups, stored, (n - 1) as nat);
        let mid = v.resolve_upto(lookups, stored, (n - 1) as nat);
        let w = mid.resolve_one(lookups[n - 1], stored_at(stored, n - 1));
        assert forall|k: int| 0 <= k < v.players.len() implies (#[trigger] w.players[k]).id
            == v.players[k].id && w.players[k].state.pos == v.players[k].state.pos
            && w.players[k].state.chunk_anchor == v.players[k].state.chunk_anchor by {
            assert(mid.players[k].id == v.players[k].id);
        }
    }
}

/// Handing out generated chunks leaves every player where the player
/// stands, with the same anchor and number.
pub proof fn lemma_deliver_keeps_places(v: WorldView, results: Seq<ChunkPayload>, n: nat)
    ensures
        ({
            let w = v.deliver_upto(results, n);
            &&& w.players.len() == v.players.len()
            &&& w.render_distance == v.render_distance
            &&& w.unload_margin == v.unload_margin
            &&& forall|k: int|
                0 <= k < v.players.len() ==> {
                    &&& (#[trigger] w.players[k]).id == v.players[k].id
                    &&& w.players[k].state.pos == v.players[k].state.pos
                    &&& w.players[k].state.chunk_anchor == v.players[k].state.chunk_anchor
                }
        }),
    decreases n,
{
    if n > 0 {
        lemma_deliver_keeps_places(v, results, (n - 1) as nat);
        let mid = v.deliver_upto(results, (n - 1) as nat);
        let w = mid.deliver(results[n - 1]);
        assert forall|k: int| 0 <= k < v.players.len() implies (#[trigger] w.players[k]).id
            == v.players[k].id && w.players[k].state.pos == v.players[k].state.pos
            && w.players[k].state.chunk_anchor == v.players[k].state.chunk_anchor by {
            assert(mid.players[k].id == v.players[k].id);
        }
    }
}

/// The events of answered lookups are tidy for a player whose lookups
/// are all within render distance of the chunk that the player stands
/// in.
proof fn lemma_tidy_resolve(
    v: WorldView,
    lookups: Seq<ChunkLookup>,
    stored: Seq<Option<Arc<VoxelBuffer>>>,
    n: nat,
    t: int,
    radius: int,
    reach: int,
)
    requires
        ascending(v.players),
        0 <= t < v.players.len(),
        n <= lookups.len(),
        forall|i: int|
            0 <= i < lookups.len() && (#[trigger] lookups[i]).for_player == v.players[t].id
                ==> chunk_of(v.players[t].state.pos).distance(lookups[i].pos) <= radius,
    ensures
        v.events.len() <= v.resolve_upto(lookups, stored, n).events.len(),
        tidy(
            v.resolve_upto(lookups, stored, n).events.skip(v.events.len() as int),
            v.players[t].id,
            chunk_of(v.players[t].state.pos),
            radius,
            reach,
            v.players[t].state.loaded.to_set(),
        ),
    decreases n,
{
    let e0 = v.events.len() as int;
    let id = v.players[t].id;
    let anchor = chunk_of(v.players[t].state.pos);
    let start = v.players[t].state.loaded.to_set();
    if n == 0 {
        assert(v.events.skip(e0) =~= Seq::<WorldEvent>::empty());
    } else {
        let mid = v.resolve_upto(lookups, stored, (n - 1) as nat);
        lemma_tidy_resolve(v, lookups, stored, (n - 1) as nat, t, radius, reach);
        lemma_resolve_upto_explained(v, lookups, stored, (n - 1) as nat);
        let lookup = lookups[n - 1];
        let w = mid.resolve_one(lookup, stored_at(stored, n - 1));
        assert(w == v.resolve_upto(lookups, stored, n));
        let old_new = mid.events.skip(e0);
        if w.events != mid.events {
            let event = w.events.last();
            assert(w.events == mid.events.push(event));
            assert(w.events.skip(e0) =~= old_new.push(event));
            assert(old_new.push(event).drop_last() =~= old_new);
            assert(mid.players[t].id == id);
            if lookup.for_player == id {
                lemma_slot_at(mid.players, t);
                assert(replay(old_new, id, start) == mid.players[t].state.loaded.to_set());
                assert(!mid.players[t].state.loaded.contains(lookup.pos));
            }
        }
    }
}

/// The events of one generated chunk are tidy for a player who is
/// anchored at the chunk that the player stands in.
proof fn lemma_tidy_delivery(
    players: Seq<SlotView>,
    payload: ChunkPayload,
    radius: int,
    reach: int,
    m: int,
    t: int,
)
    requires
        ascending(players),
        0 <= m <= players.len(),
        0 <= t < players.len(),
        players[t].state.chunk_anchor == Some(chunk_of(players[t].state.pos)),
    ensures
        tidy(
            delivery_events(players.take(m), payload, radius),
            players[t].id,
            chunk_of(players[t].state.pos),
            radius,
            reach,
            players[t].state.loaded.to_set(),
        ),
    decreases m,
{
    let id = players[t].id;
    let start = players[t].state.loaded.to_set();
    if m > 0 {
        let seen = players.take(m);
        assert(seen.drop_last() =~= players.take(m - 1));
        assert(seen.last() == players[m - 1]);
        lemma_tidy_delivery(players, payload, radius, reach, m - 1, t);
        lemma_replay_delivery(players, payload, radius, m - 1, t);
        let before = delivery_events(players.take(m - 1), payload, radius);
        if needs(players[m - 1].state, payload.pos, radius) {
            let events = delivery_events(seen, payload, radius);
            assert(events.drop_last() =~= before);
            if m - 1 < t {
                assert(players[m - 1].id < players[t].id);
            } else if t < m - 1 {
                assert(players[t].id < players[m - 1].id);
            }
        }
    }
}

/// The events of the terrain poll are tidy for a player who is anchored
/// at the chunk that the player stands in.
pub proof fn lemma_tidy_poll(v: WorldView, results: Seq<ChunkPayload>, n: nat, t: int, reach: int)
    requires
        ascending(v.players),
        0 <= t < v.players.len(),
        n <= results.len(),
        v.players[t].state.chunk_anchor == Some(chunk_of(v.players[t].state.pos)),
    ensures
        v.events.len() <= v.deliver_upto(results, n).events.len(),
        tidy(
            v.deliver_upto(results, n).events.skip(v.events.len() as int),
            v.players[t].id,
            chunk_of(v.players[t].state.pos),
            v.render_distance as int,
            reach,
            v.players[t].state.loaded.to_set(),
        ),
    decreases n,
{
    let e0 = v.events.len() as int;
    let id = v.players[t].id;
    let anchor = chunk_of(v.players[t].state.pos);
    let radius = v.render_distance as int;
    let start = v.players[t].state.loaded.to_set();
    if n == 0 {
        assert(v.events.skip(e0) =~= Seq::<WorldEvent>::empty());
    } else {
        let mid = v.deliver_upto(results, (n - 1) as nat);
        lemma_tidy_poll(v, results, (n - 1) as nat, t, reach);
        lemma_deliver_upto_explained(v, results, (n - 1) as nat);
        lemma_deliver_keeps_places(v, results, (n - 1) as nat);
        let w = mid.deliver(results[n - 1]);
        let block = delivery_events(mid.players, results[n - 1], radius);
        assert(mid.players.take(mid.players.len() as int) =~= mid.players);
        lemma_tidy_delivery(mid.players, results[n - 1], radius, reach, mid.players.len() as int, t);
        assert(w.events.skip(e0) =~= mid.events.skip(e0) + block);
        lemma_tidy_concat(mid.events.skip(e0), block, id, anchor, radius, reach, start);
    }
}

/// What stands behind the first events of a longer run is what stood
/// behind them in a shorter run, followed by what the longer run adds.
proof fn lemma_skip_split(e0: Seq<WorldEvent>, e1: Seq<WorldEvent>, e2: Seq<WorldEvent>)
    requires
        e0.len() <= e1.len() <= e2.len(),
        e1.take(e0.len() as int) == e0,
        e2.take(e1.len() as int) == e1,
    ensures
        e2.take(e0.len() as int) == e0,
        e2.skip(e0.len() as int) == e1.skip(e0.len() as int) + e2.skip(e1.len() as int),
{
    assert forall|k: int| 0 <= k < e1.len() implies e2[k] == e1[k] by {
        assert(e2.take(e1.len() as int)[k] == e1[k]);
    }
    assert forall|k: int| 0 <= k < e0.len() implies e1[k] == e0[k] by {
        assert(e1.take(e0.len() as int)[k] == e0[k]);
    }
    assert(e2.take(e0.len() as int) =~= e0);
    assert(e2.skip(e0.len() as int) =~= e1.skip(e0.len() as int) + e2.skip(e1.len() as int));
}

/// The first half of a tick is tidy: the events of input integration
/// and chunk synchronisation, for a player whose loaded chunks are
/// distinct. Replaying them gives the player's loaded set after the
/// synchronisation.
proof fn lemma_begin_tidy(v: WorldView, advanced: Seq<PlayerAdvance>, t: int)
    requires
        ascending(v.players),
        0 <= t < v.players.len(),
        v.players[t].state.loaded.no_duplicates(),
    ensures
        ({
            let p = v.process_inputs(advanced);
            let s = p.sync();
            let new = s.events.skip(v.events.len() as int);
            let start = v.players[t].state.loaded.to_set();
            &&& v.events.len() <= s.events.len()
            &&& s.events.take(v.events.len() as int) == v.events
            &&& ascending(p.players)
            &&& ascending(s.players)
            &&& p.players.len() == v.players.len()
            &&& p.players[t].id == v.players[t].id
            &&& s.players[t].id == v.players[t].id
            &&& s.players[t].state.pos == p.players[t].state.pos
            &&& s.players[t].state.chunk_anchor == Some(chunk_of(p.players[t].state.pos))
            &&& tidy(
                new,
                v.players[t].id,
                chunk_of(p.players[t].state.pos),
                v.render_distance as int,
                v.reach(),
                start,
            )
            &&& replay(new, v.players[t].id, start) == s.players[t].state.loaded.to_set()
        }),
{
    let p = v.process_inputs(advanced);
    let s = p.sync();
    let id = v.players[t].id;
    let anchor = chunk_of(p.players[t].state.pos);
    let radius = v.render_distance as int;
    let reach = v.reach();
    let start = v.players[t].state.loaded.to_set();
    let e0 = v.events.len() as int;
    lemma_inputs_explained(v, advanced);
    assert(p.players[t].id == id);
    assert(p.players[t].state.loaded == v.players[t].state.loaded);
    lemma_ascending_kept(v.players, p.players);
    lemma_ascending_kept(p.players, s.players);
    let moved = p.events.skip(e0);
    assert(moved =~= moved_events(p.players));
    lemma_tidy_moves(p.players, id, anchor, radius, reach, start);
    lemma_replay_moves(p.players, id, start);
    lemma_sync_explained(p);
    assert(p.players.take(p.players.len() as int) =~= p.players);
    lemma_tidy_sync(p.players, radius, reach, p.players.len() as int, t);
    let unloads = s.events.skip(p.events.len() as int);
    assert(unloads =~= sync_events(p.players, reach));
    lemma_skip_split(v.events, p.events, s.events);
    lemma_tidy_concat(moved, unloads, id, anchor, radius, reach, start);
    lemma_replay_concat(moved, unloads, id, start);
}

/// A whole tick is tidy. Take a tick that starts with no lookup
/// waiting: input integration, chunk synchronisation, the answers to
/// the lookups and the terrain poll, one after the other. For a player
/// whose loaded chunks are distinct, every event that it emits is in
/// place.
pub proof fn lemma_tick_tidy(
    v: WorldView,
    advanced: Seq<PlayerAdvance>,
    stored: Seq<Option<Arc<VoxelBuffer>>>,
    results: Seq<ChunkPayload>,
    t: int,
)
    requires
        ascending(v.players),
        0 <= v.render_distance,
        0 <= v.unload_margin,
        v.lookups.len() == 0,
        0 <= t < v.players.len(),
        v.players[t].state.loaded.no_duplicates(),
    ensures
        ({
            let w = v.process_inputs(advanced).sync().resolve(stored).poll(results);
            &&& v.events.len() <= w.events.len()
            &&& tidy(
                w.events.skip(v.events.len() as int),
                v.players[t].id,
                chunk_of(v.process_inputs(advanced).players[t].state.pos),
                v.render_distance as int,
                v.reach(),
                v.players[t].state.loaded.to_set(),
            )
        }),
{
    let p = v.process_inputs(advanced);
    let s = p.sync();
    let r = s.resolve(stored);
    let w = r.poll(results);
    let id = v.players[t].id;
    let anchor = chunk_of(p.players[t].state.pos);
    let radius = v.render_distance as int;
    let reach = v.reach();
    let start = v.players[t].state.loaded.to_set();
    let e0 = v.events.len() as int;
    lemma_begin_tidy(v, advanced, t);
    let first = s.events.skip(e0);
    // the answers
    lemma_answers_tidy(p, stored, t);
    lemma_resolve_upto_explained(s, s.lookups, stored, s.lookups.len());
    lemma_resolve_keeps_places(s, s.lookups, stored, s.lookups.len());
    let loads = r.events.skip(s.events.len() as int);
    lemma_skip_split(v.events, s.events, r.events);
    lemma_tidy_concat(first, loads, id, anchor, radius, reach, start);
    lemma_replay_concat(first, loads, id, start);
    // the terrain poll
    lemma_tidy_poll(r, results, results.len(), t, reach);
    lemma_deliver_upto_explained(r, results, results.len());
    let polled = w.events.skip(r.events.len() as int);
    lemma_skip_split(v.events, r.events, w.events);
    lemma_tidy_concat(first + loads, polled, id, anchor, radius, reach, start);
}

/// The answers to the lookups of a chunk synchronisation are tidy.
proof fn lemma_answers_tidy(p: WorldView, stored: Seq<Option<Arc<VoxelBuffer>>>, t: int)
    requires
        ascending(p.players),
        0 <= p.render_distance,
        0 <= p.unload_margin,
        p.lookups.len() == 0,
        0 <= t < p.players.len(),
    ensures
        ({
            let s = p.sync();
            let r = s.resolve(stored);
            &&& s.events.len() <= r.events.len()
            &&& tidy(
                r.events.skip(s.events.len() as int),
                p.players[t].id,
                chunk_of(p.players[t].state.pos),
                p.render_distance as int,
                p.reach(),
                s.players[t].state.loaded.to_set(),
            )
        }),
{
    let s = p.sync();
    let radius = p.render_distance as int;
    lemma_sync_lookups_fresh(p);
    assert(s.players[t].id == p.players[t].id);
    assert(s.players[t].state.pos == p.players[t].state.pos);
    assert forall|k: int|
        0 <= k < s.lookups.len() && (#[trigger] s.lookups[k]).for_player == s.players[t].id
            implies chunk_of(s.players[t].state.pos).distance(s.lookups[k].pos) <= radius by {
        lemma_slot_at(p.players, t);
    }
    lemma_tidy_resolve(s, s.lookups, stored, s.lookups.len(), t, radius, p.reach());
}

/// No pair twice in a tick. Take a tick that starts with no lookup
/// waiting: input integration, chunk synchronisation, the answers to
/// the lookups and the terrain poll, one after the other. Among the
/// events that it emits, no two load or unload the same chunk for the
/// same player: no chunk is both sent and dropped, sent twice or dropped
/// twice.
pub proof fn lemma_tick_pairs(
    v: WorldView,
    advanced: Seq<PlayerAdvance>,
    stored: Seq<Option<Arc<VoxelBuffer>>>,
    results: Seq<ChunkPayload>,
    t: int,
    c: ChunkCoord,
    i: int,
    j: int,
)
    requires
        ascending(v.players),
        0 <= v.render_distance,
        0 <= v.unload_margin,
        v.lookups.len() == 0,
        0 <= t < v.players.len(),
        v.players[t].state.loaded.no_duplicates(),
        0 <= i < j < v.process_inputs(advanced).sync().resolve(stored).poll(results).events.len()
            - v.events.len(),
        concerns(
            v.process_inputs(advanced).sync().resolve(stored).poll(results).events[v.events.len()
                + i],
            v.players[t].id,
            c,
        ),
    ensures
        !concerns(
            v.process_inputs(advanced).sync().resolve(stored).poll(results).events[v.events.len()
                + j],
            v.players[t].id,
            c,
        ),
{
    let p = v.process_inputs(advanced);
    let w = p.sync().resolve(stored).poll(results);
    let e0 = v.events.len() as int;
    lemma_tick_tidy(v, advanced, stored, results, t);
    let new = w.events.skip(e0);
    assert(new[i] == w.events[e0 + i]);
    assert(new[j] == w.events[e0 + j]);
    lemma_tidy_pairs(
        new,
        v.players[t].id,
        chunk_of(p.players[t].state.pos),
        v.render_distance as int,
        v.reach(),
        v.players[t].state.loaded.to_set(),
        c,
        i,
        j,
    );
}

} // verus!
