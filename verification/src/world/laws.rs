//! What holds of the chunk sets of every player, whatever the state.

use std::sync::Arc;
use vstd::prelude::*;
use crate::chunk::{chunk_of, ChunkCoord};
use crate::chunk_set::{is_load_order, lemma_load_order_exists, out_of_reach, within_reach};
use crate::events::WorldEvent;
use crate::storage::SavedChunk;
use crate::terrain::ChunkPayload;
use crate::voxel::VoxelBuffer;
use crate::world::model::{
    ascending, dropped, synced, unloaded_events, wanted, ChunkLookup, SlotView, WorldView,
};

verus! {

/// Players who keep their numbers and places keep their order.
pub proof fn lemma_ascending_kept(before: Seq<SlotView>, after: Seq<SlotView>)
    requires
        ascending(before),
        after.len() == before.len(),
        forall|k: int| 0 <= k < before.len() ==> (#[trigger] after[k]).id == before[k].id,
    ensures
        ascending(after),
{
    assert forall|a: int, b: int| 0 <= a < b < after.len() implies after[a].id < after[b].id by {
        assert(before[a].id < before[b].id);
    }
}

/// Taking a player out keeps the order of the others.
pub proof fn lemma_ascending_removed(players: Seq<SlotView>, i: int)
    requires
        ascending(players),
        0 <= i < players.len(),
    ensures
        ascending(players.remove(i)),
{
    let rest = players.remove(i);
    assert forall|a: int, b: int| 0 <= a < b < rest.len() implies rest[a].id < rest[b].id by {
        let a0 = if a < i { a } else { a + 1 };
        let b0 = if b < i { b } else { b + 1 };
        assert(players[a0].id < players[b0].id);
    }
}

/// A newcomer whose number is above every other's joins at the end
/// without breaking the order.
pub proof fn lemma_ascending_pushed(players: Seq<SlotView>, slot: SlotView)
    requires
        ascending(players),
        forall|k: int| 0 <= k < players.len() ==> (#[trigger] players[k]).id < slot.id,
    ensures
        ascending(players.push(slot)),
{
    let more = players.push(slot);
    assert forall|a: int, b: int| 0 <= a < b < more.len() implies more[a].id < more[b].id by {
        if b < players.len() {
            assert(players[a].id < players[b].id);
        } else {
            assert(players[a].id < slot.id);
        }
    }
}

/// Chunk set correctness. For a player who stands in the chunk `A`, with
/// render distance `radius` and loaded chunks allowed up to `reach`
/// (render distance plus unload margin) away:
/// the chunks looked up are exactly those within `radius` of `A` that
/// the player has not loaded, nearest first, and only if the anchor has
/// changed; the chunks unloaded are exactly the loaded ones farther than
/// `reach` from `A`; and no chunk is both looked up and unloaded.
pub proof fn lemma_chunk_sets(slot: SlotView, radius: int, reach: int)
    requires
        0 <= radius <= reach,
    ensures
        forall|c: ChunkCoord| #[trigger]
            wanted(slot, radius, reach).contains(c) <==> (slot.state.chunk_anchor != Some(
                chunk_of(slot.state.pos),
            ) && chunk_of(slot.state.pos).distance(c) <= radius && !slot.state.loaded.contains(c)),
        forall|c: ChunkCoord| #[trigger]
            dropped(slot, reach).contains(c) <==> (slot.state.loaded.contains(c) && chunk_of(
                slot.state.pos,
            ).distance(c) > reach),
        forall|c: ChunkCoord| #[trigger]
            wanted(slot, radius, reach).contains(c) ==> !dropped(slot, reach).contains(c),
        slot.state.chunk_anchor != Some(chunk_of(slot.state.pos)) ==> is_load_order(
            wanted(slot, radius, reach),
            chunk_of(slot.state.pos),
            radius,
            synced(slot, reach).state.loaded,
        ),
{
    let anchor = chunk_of(slot.state.pos);
    let loaded = slot.state.loaded;
    let kept = loaded.filter(within_reach(anchor, reach));
    let gone = loaded.filter(out_of_reach(anchor, reach));
    lemma_load_order_exists(anchor, radius, kept);
    assert forall|c: ChunkCoord| kept.contains(c) <==> (loaded.contains(c) && anchor.distance(c)
        <= reach) by {
        lemma_filter_members(loaded, within_reach(anchor, reach), c);
    }
    assert forall|c: ChunkCoord| gone.contains(c) <==> (loaded.contains(c) && anchor.distance(c)
        > reach) by {
        lemma_filter_members(loaded, out_of_reach(anchor, reach), c);
    }
}

/// What a filtered sequence holds: the members that pass.
pub proof fn lemma_filter_members<A>(s: Seq<A>, pred: spec_fn(A) -> bool, x: A)
    ensures
        s.filter(pred).contains(x) <==> (s.contains(x) && pred(x)),
{
    if s.filter(pred).contains(x) {
        s.lemma_filter_contains_rev(pred, x);
        let i = choose|i: int| 0 <= i < s.filter(pred).len() && s.filter(pred)[i] == x;
        s.lemma_filter_pred(pred, i);
    }
    if s.contains(x) && pred(x) {
        let i = choose|i: int| 0 <= i < s.len() && s[i] == x;
        s.lemma_filter_contains(pred, i);
    }
}

/// Idempotent unload. Only loaded chunks are unloaded, and a player who
/// has been synchronised and has not moved has nothing left to unload: a
/// second synchronisation changes nothing and emits no event.
pub proof fn lemma_unload_idempotent(slot: SlotView, reach: int)
    ensures
        forall|c: ChunkCoord|
            !slot.state.loaded.contains(c) ==> !dropped(slot, reach).contains(c),
        dropped(synced(slot, reach), reach) == Seq::<ChunkCoord>::empty(),
        unloaded_events(slot.id, dropped(synced(slot, reach), reach)) == Seq::<WorldEvent>::empty(),
        synced(synced(slot, reach), reach) == synced(slot, reach),
{
    let anchor = chunk_of(slot.state.pos);
    let loaded = slot.state.loaded;
    let kept = loaded.filter(within_reach(anchor, reach));
    assert forall|c: ChunkCoord| !loaded.contains(c) implies !dropped(slot, reach).contains(c) by {
        lemma_filter_members(loaded, out_of_reach(anchor, reach), c);
    }
    let again = kept.filter(out_of_reach(anchor, reach));
    if again.len() > 0 {
        assert(again.contains(again[0]));
        lemma_filter_members(kept, out_of_reach(anchor, reach), again[0]);
        lemma_filter_members(loaded, within_reach(anchor, reach), again[0]);
    }
    assert(again =~= Seq::<ChunkCoord>::empty());
    assert(unloaded_events(slot.id, again) =~= Seq::<WorldEvent>::empty());
    assert forall|i: int| 0 <= i < kept.len() implies within_reach(anchor, reach)(
        #[trigger] kept[i],
    ) by {
        loaded.lemma_filter_pred(within_reach(anchor, reach), i);
    }
    lemma_filter_all(kept, within_reach(anchor, reach));
}

/// Filtering a sequence by what all its members pass changes nothing.
pub proof fn lemma_filter_all<A>(s: Seq<A>, pred: spec_fn(A) -> bool)
    requires
        forall|i: int| 0 <= i < s.len() ==> pred(#[trigger] s[i]),
    ensures
        s.filter(pred) == s,
    decreases s.len(),
{
    reveal(Seq::filter);
    if s.len() > 0 {
        lemma_filter_all(s.drop_last(), pred);
        assert(s.drop_last().push(s.last()) =~= s);
    }
}

/// Answering lookups and taking in generation results leave the files
/// waiting to be written alone.
pub proof fn lemma_saves_untouched(
    v: WorldView,
    stored: Seq<Option<Arc<VoxelBuffer>>>,
    results: Seq<ChunkPayload>,
)
    ensures
        v.resolve(stored).poll(results).saves == v.saves,
        v.resolve(stored).poll(results).drained().saves == v.saves,
{
    lemma_resolve_frame(v, v.lookups, stored, v.lookups.len());
    lemma_deliver_frame(v.resolve(stored), results, results.len());
}

/// Answering lookups and taking in generation results give out no
/// player number.
pub proof fn lemma_next_id_untouched(
    v: WorldView,
    stored: Seq<Option<Arc<VoxelBuffer>>>,
    results: Seq<ChunkPayload>,
)
    ensures
        v.resolve(stored).poll(results).drained().next_id == v.next_id,
{
    lemma_resolve_frame(v, v.lookups, stored, v.lookups.len());
    lemma_deliver_frame(v.resolve(stored), results, results.len());
}

proof fn lemma_resolve_frame(
    v: WorldView,
    lookups: Seq<ChunkLookup>,
    stored: Seq<Option<Arc<VoxelBuffer>>>,
    n: nat,
)
    ensures
        v.resolve_upto(lookups, stored, n).saves == v.saves,
        v.resolve_upto(lookups, stored, n).next_id == v.next_id,
    decreases n,
{
    if n > 0 {
        lemma_resolve_frame(v, lookups, stored, (n - 1) as nat);
    }
}

proof fn lemma_deliver_frame(v: WorldView, results: Seq<ChunkPayload>, n: nat)
    ensures
        v.deliver_upto(results, n).saves == v.saves,
        v.deliver_upto(results, n).next_id == v.next_id,
    decreases n,
{
    if n > 0 {
        lemma_deliver_frame(v, results, (n - 1) as nat);
    }
}

proof fn lemma_resolve_apart(
    v: WorldView,
    lookups: Seq<ChunkLookup>,
    stored: Seq<Option<Arc<VoxelBuffer>>>,
    n: nat,
    evicted: Seq<ChunkPayload>,
    saves: Seq<SavedChunk>,
)
    ensures
        (WorldView { evicted, saves, ..v }).resolve_upto(lookups, stored, n) == (WorldView {
            evicted,
            saves,
            ..v.resolve_upto(lookups, stored, n)
        }),
    decreases n,
{
    if n > 0 {
        lemma_resolve_apart(v, lookups, stored, (n - 1) as nat, evicted, saves);
    }
}

proof fn lemma_deliver_apart(
    v: WorldView,
    results: Seq<ChunkPayload>,
    n: nat,
    evicted: Seq<ChunkPayload>,
    saves: Seq<SavedChunk>,
)
    ensures
        (WorldView { evicted, saves, ..v }).deliver_upto(results, n) == (WorldView {
            evicted,
            saves,
            ..v.deliver_upto(results, n)
        }),
    decreases n,
{
    if n > 0 {
        lemma_deliver_apart(v, results, (n - 1) as nat, evicted, saves);
    }
}

/// The second half of a tick neither reads nor changes the unloaded
/// chunks that wait for the store and the files that wait to be
/// written: whatever they are, the players, the terrain and the events
/// come out the same.
pub proof fn lemma_second_half_apart(
    v: WorldView,
    stored: Seq<Option<Arc<VoxelBuffer>>>,
    results: Seq<ChunkPayload>,
    evicted: Seq<ChunkPayload>,
    saves: Seq<SavedChunk>,
)
    ensures
        (WorldView { evicted, saves, ..v }).resolve(stored).poll(results) == (WorldView {
            evicted,
            saves,
            ..v.resolve(stored).poll(results)
        }),
{
    lemma_resolve_apart(v, v.lookups, stored, v.lookups.len(), evicted, saves);
    lemma_deliver_apart(v.resolve(stored), results, results.len(), evicted, saves);
}

} // verus!
