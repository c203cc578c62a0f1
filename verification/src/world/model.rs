//! The state of the simulation as the contracts speak of it, and what
//! each step of a tick makes of it.

use std::sync::Arc;
use vstd::prelude::*;
use crate::chunk::{chunk_of, ChunkCoord, CHUNK_RENDER_DISTANCE, CHUNK_UNLOAD_MARGIN};
use crate::chunk_set::{load_order, out_of_reach, within_reach};
use crate::codec::buffer_view;
use crate::events::WorldEvent;
use crate::math::Vec3;
use crate::player::{PlayerInput, PlayerState, PlayerView};
use crate::storage::{chunk_bytes, is_file_of, zlib_compressed, SavedChunk};
use crate::terrain::{ChunkPayload, TerrainView};
use crate::voxel::VoxelBuffer;

verus! {

/// A player in the world: the player's number and state.
pub struct PlayerSlot {
    pub id: u32,
    pub state: PlayerState,
}

/// The mathematical value of a [`PlayerSlot`].
pub struct SlotView {
    pub id: u32,
    pub state: PlayerView,
}

impl View for PlayerSlot {
    type V = SlotView;

    open spec fn view(&self) -> SlotView {
        SlotView { id: self.id, state: self.state@ }
    }
}

/// A chunk that a player is to be sent, once it is known whether the
/// store holds it.
#[derive(Copy, Clone, Eq, PartialEq, Debug, Structural)]
pub struct ChunkLookup {
    pub for_player: u32,
    pub pos: ChunkCoord,
}

/// Where the caller's integration of movement has taken a player.
#[derive(Copy, Clone, Eq, PartialEq, Debug, Structural)]
pub struct PlayerAdvance {
    pub id: u32,
    pub pos: Vec3,
}

/// A player whose input asks for movement this tick.
#[derive(Copy, Clone, Eq, PartialEq, Debug, Structural)]
pub struct MoveRequest {
    pub id: u32,
    pub pos: Vec3,
    pub input: PlayerInput,
}

/// The values of the slots of `players`.
pub open spec fn slots_view(players: Seq<PlayerSlot>) -> Seq<SlotView> {
    Seq::new(players.len(), |i: int| players[i]@)
}

/// The position of the slot of player `id`, if the player is there.
pub open spec fn slot_index(players: Seq<SlotView>, id: u32) -> Option<int> {
    if exists|i: int| 0 <= i < players.len() && players[i].id == id {
        Some(choose|i: int| 0 <= i < players.len() && players[i].id == id)
    } else {
        None
    }
}

/// Whether the players stand in ascending order of their numbers.
pub open spec fn ascending(players: Seq<SlotView>) -> bool {
    forall|i: int, j: int| 0 <= i < j < players.len() ==> players[i].id < players[j].id
}

/// The whole state of the simulation, as the contracts speak of it.
pub struct WorldView {
    /// The players, in ascending order of their numbers.
    pub players: Seq<SlotView>,
    pub terrain: TerrainView,
    /// The events of the current tick, oldest first.
    pub events: Seq<WorldEvent>,
    /// The chunks whose files the caller is to read.
    pub lookups: Seq<ChunkLookup>,
    /// The unloaded chunks that are to be saved.
    pub evicted: Seq<ChunkPayload>,
    /// The files waiting to be written.
    pub saves: Seq<SavedChunk>,
    /// The number that the next player gets.
    pub next_id: u32,
    pub render_distance: i32,
    pub unload_margin: i32,
}

impl WorldView {
    /// The world before anybody has joined: nothing loaded, cached,
    /// pending or queued, the default distances, and 1 as the first
    /// player's number.
    pub open spec fn initial(seed: u32) -> WorldView {
        WorldView {
            players: Seq::empty(),
            terrain: TerrainView::empty(seed),
            events: Seq::empty(),
            lookups: Seq::empty(),
            evicted: Seq::empty(),
            saves: Seq::empty(),
            next_id: 1,
            render_distance: CHUNK_RENDER_DISTANCE,
            unload_margin: CHUNK_UNLOAD_MARGIN,
        }
    }

    /// How far from a player's anchor a loaded chunk may lie.
    pub open spec fn reach(self) -> int {
        self.render_distance + self.unload_margin
    }

    /// The state after a player has joined.
    pub open spec fn add_player(self) -> WorldView {
        WorldView {
            players: self.players.push(
                SlotView { id: self.next_id, state: PlayerView::fresh() },
            ),
            next_id: (self.next_id + 1) as u32,
            ..self
        }
    }

    /// The state after player `id` has left.
    pub open spec fn remove_player(self, id: u32) -> WorldView {
        match slot_index(self.players, id) {
            Some(i) => WorldView { players: self.players.remove(i), ..self },
            None => self,
        }
    }

    /// The state after `input` has become the input of player `id`. An
    /// unknown player changes nothing.
    pub open spec fn set_input(self, id: u32, input: PlayerInput) -> WorldView {
        match slot_index(self.players, id) {
            Some(i) => WorldView {
                players: self.players.update(
                    i,
                    SlotView { id, state: PlayerView { input, ..self.players[i].state } },
                ),
                ..self
            },
            None => self,
        }
    }
}

/// Where the caller has taken player `id`: the position of the first
/// entry of `advanced` that names the player.
pub open spec fn advance_for(advanced: Seq<PlayerAdvance>, id: u32) -> Option<Vec3>
    decreases advanced.len(),
{
    if advanced.len() == 0 {
        None
    } else if advanced[0].id == id {
        Some(advanced[0].pos)
    } else {
        advance_for(advanced.drop_first(), id)
    }
}

/// A player after input integration: the look is the input's look, and
/// a player whose input asks for movement stands where the caller has
/// taken the player (or stays, if the caller has not).
pub open spec fn stepped(slot: SlotView, advanced: Seq<PlayerAdvance>) -> SlotView {
    let p = slot.state;
    SlotView {
        id: slot.id,
        state: PlayerView {
            look: p.input.look,
            pos: if p.input.dir.is_zero_spec() {
                p.pos
            } else {
                match advance_for(advanced, slot.id) {
                    Some(q) => q,
                    None => p.pos,
                }
            },
            ..p
        },
    }
}

/// All players after input integration.
pub open spec fn step_all(players: Seq<SlotView>, advanced: Seq<PlayerAdvance>) -> Seq<SlotView> {
    Seq::new(players.len(), |i: int| stepped(players[i], advanced))
}

/// The event that input integration emits for a player: one
/// `PlayerMoved` if the player's input asks for movement, none
/// otherwise.
pub open spec fn moved_event(slot: SlotView) -> Seq<WorldEvent> {
    if slot.state.input.dir.is_zero_spec() {
        Seq::empty()
    } else {
        seq![WorldEvent::PlayerMoved { id: slot.id, pos: slot.state.pos, look: slot.state.look }]
    }
}

/// The events that input integration emits, given the players after it.
pub open spec fn moved_events(players: Seq<SlotView>) -> Seq<WorldEvent>
    decreases players.len(),
{
    if players.len() == 0 {
        Seq::empty()
    } else {
        moved_events(players.drop_last()) + moved_event(players.last())
    }
}

/// The request to move that a player's input makes, if it makes one.
pub open spec fn move_request(slot: SlotView) -> Seq<MoveRequest> {
    if slot.state.input.dir.is_zero_spec() {
        Seq::empty()
    } else {
        seq![MoveRequest { id: slot.id, pos: slot.state.pos, input: slot.state.input }]
    }
}

/// The players whose input asks for movement, in order.
pub open spec fn move_requests(players: Seq<SlotView>) -> Seq<MoveRequest>
    decreases players.len(),
{
    if players.len() == 0 {
        Seq::empty()
    } else {
        move_requests(players.drop_last()) + move_request(players.last())
    }
}

impl WorldView {
    /// The state after input integration.
    pub open spec fn process_inputs(self, advanced: Seq<PlayerAdvance>) -> WorldView {
        WorldView {
            players: step_all(self.players, advanced),
            events: self.events + moved_events(step_all(self.players, advanced)),
            ..self
        }
    }
}

/// A player after chunk synchronisation: anchored at the chunk that the
/// player stands in, with only the loaded chunks within `reach` of it.
pub open spec fn synced(slot: SlotView, reach: int) -> SlotView {
    let anchor = chunk_of(slot.state.pos);
    SlotView {
        id: slot.id,
        state: PlayerView {
            chunk_anchor: Some(anchor),
            loaded: slot.state.loaded.filter(within_reach(anchor, reach)),
            ..slot.state
        },
    }
}

/// All players after chunk synchronisation.
pub open spec fn sync_all(players: Seq<SlotView>, reach: int) -> Seq<SlotView> {
    Seq::new(players.len(), |i: int| synced(players[i], reach))
}

/// The chunks that chunk synchronisation unloads for a player: the
/// loaded chunks farther than `reach` from the chunk that the player
/// stands in, in the order in which they were loaded.
pub open spec fn dropped(slot: SlotView, reach: int) -> Seq<ChunkCoord> {
    slot.state.loaded.filter(out_of_reach(chunk_of(slot.state.pos), reach))
}

/// One `ChunkUnloaded` event for player `id` per chunk of `chunks`.
pub open spec fn unloaded_events(id: u32, chunks: Seq<ChunkCoord>) -> Seq<WorldEvent> {
    Seq::new(
        chunks.len(),
        |i: int| WorldEvent::ChunkUnloaded { for_player: id, pos: chunks[i] },
    )
}

/// The chunks of `chunks` that `cache` holds, each with its buffer.
pub open spec fn evictions(
    cache: Map<ChunkCoord, Arc<VoxelBuffer>>,
    chunks: Seq<ChunkCoord>,
) -> Seq<ChunkPayload>
    decreases chunks.len(),
{
    if chunks.len() == 0 {
        Seq::empty()
    } else if cache.contains_key(chunks.last()) {
        evictions(cache, chunks.drop_last()).push(
            ChunkPayload { pos: chunks.last(), data: cache[chunks.last()] },
        )
    } else {
        evictions(cache, chunks.drop_last())
    }
}

/// The chunks that chunk synchronisation looks up for a player: none if
/// the player's anchor stays, else the load order around the new anchor.
pub open spec fn wanted(slot: SlotView, radius: int, reach: int) -> Seq<ChunkCoord> {
    if slot.state.chunk_anchor == Some(chunk_of(slot.state.pos)) {
        Seq::empty()
    } else {
        load_order(chunk_of(slot.state.pos), radius, synced(slot, reach).state.loaded)
    }
}

/// One lookup for player `id` per chunk of `chunks`.
pub open spec fn lookups_for(id: u32, chunks: Seq<ChunkCoord>) -> Seq<ChunkLookup> {
    Seq::new(chunks.len(), |i: int| ChunkLookup { for_player: id, pos: chunks[i] })
}

/// The events that chunk synchronisation emits, player after player.
pub open spec fn sync_events(players: Seq<SlotView>, reach: int) -> Seq<WorldEvent>
    decreases players.len(),
{
    if players.len() == 0 {
        Seq::empty()
    } else {
        sync_events(players.drop_last(), reach) + unloaded_events(
            players.last().id,
            dropped(players.last(), reach),
        )
    }
}

/// The chunks that chunk synchronisation hands to the store, player
/// after player.
pub open spec fn sync_evictions(
    cache: Map<ChunkCoord, Arc<VoxelBuffer>>,
    players: Seq<SlotView>,
    reach: int,
) -> Seq<ChunkPayload>
    decreases players.len(),
{
    if players.len() == 0 {
        Seq::empty()
    } else {
        sync_evictions(cache, players.drop_last(), reach) + evictions(
            cache,
            dropped(players.last(), reach),
        )
    }
}

/// The lookups that chunk synchronisation asks for, player after player.
pub open spec fn sync_lookups(players: Seq<SlotView>, radius: int, reach: int) -> Seq<ChunkLookup>
    decreases players.len(),
{
    if players.len() == 0 {
        Seq::empty()
    } else {
        sync_lookups(players.drop_last(), radius, reach) + lookups_for(
            players.last().id,
            wanted(players.last(), radius, reach),
        )
    }
}

impl WorldView {
    /// The state after chunk synchronisation.
    pub open spec fn sync(self) -> WorldView {
        WorldView {
            players: sync_all(self.players, self.reach()),
            events: self.events + sync_events(self.players, self.reach()),
            evicted: self.evicted + sync_evictions(self.terrain.cache, self.players, self.reach()),
            lookups: self.lookups + sync_lookups(
                self.players,
                self.render_distance as int,
                self.reach(),
            ),
            ..self
        }
    }
}

/// What the store held for the `i`-th lookup: nothing where the caller
/// has handed in fewer answers than there are lookups.
pub open spec fn stored_at(stored: Seq<Option<Arc<VoxelBuffer>>>, i: int) -> Option<
    Arc<VoxelBuffer>,
> {
    if 0 <= i < stored.len() {
        stored[i]
    } else {
        None
    }
}

/// Whether a player anchored and loaded as `p` is still to be sent the
/// chunk at `pos`: the player has an anchor, the chunk is within
/// `radius` of it, and the player has not loaded it.
pub open spec fn needs(p: PlayerView, pos: ChunkCoord, radius: int) -> bool {
    match p.chunk_anchor {
        Some(anchor) => anchor.distance(pos) <= radius && !p.loaded.contains(pos),
        None => false,
    }
}

/// A player after the chunk at `pos` has been generated: it joins the
/// loaded set of a player who needs it.
pub open spec fn delivered(slot: SlotView, pos: ChunkCoord, radius: int) -> SlotView {
    if needs(slot.state, pos, radius) {
        SlotView {
            id: slot.id,
            state: PlayerView { loaded: slot.state.loaded.push(pos), ..slot.state },
        }
    } else {
        slot
    }
}

/// All players after the chunk at `pos` has been generated.
pub open spec fn deliver_all(players: Seq<SlotView>, pos: ChunkCoord, radius: int) -> Seq<
    SlotView,
> {
    Seq::new(players.len(), |i: int| delivered(players[i], pos, radius))
}

/// The events that a generated chunk causes: one `ChunkLoaded` for each
/// player who needs it, in the players' order.
pub open spec fn delivery_events(players: Seq<SlotView>, payload: ChunkPayload, radius: int) -> Seq<
    WorldEvent,
>
    decreases players.len(),
{
    if players.len() == 0 {
        Seq::empty()
    } else if needs(players.last().state, payload.pos, radius) {
        delivery_events(players.drop_last(), payload, radius).push(
            WorldEvent::ChunkLoaded {
                for_player: players.last().id,
                pos: payload.pos,
                data: payload.data,
            },
        )
    } else {
        delivery_events(players.drop_last(), payload, radius)
    }
}

/// Whether the chunk `payload` can be saved: the compressor makes a
/// stream of its bytes.
pub open spec fn can_save(payload: ChunkPayload) -> bool {
    zlib_compressed(chunk_bytes(buffer_view(&*payload.data))) is Some
}

/// The chunks of `evicted` that can be saved, in their order.
pub open spec fn savable(evicted: Seq<ChunkPayload>) -> Seq<ChunkPayload>
    decreases evicted.len(),
{
    if evicted.len() == 0 {
        Seq::empty()
    } else if can_save(evicted.last()) {
        savable(evicted.drop_last()).push(evicted.last())
    } else {
        savable(evicted.drop_last())
    }
}

/// Whether the queue of files `after` is the queue `before` followed by
/// one file for each chunk of `evicted` that can be saved, in their
/// order: the chunk's own file, which is read back as the chunk's
/// buffer.
pub open spec fn saved_from(
    before: Seq<SavedChunk>,
    after: Seq<SavedChunk>,
    evicted: Seq<ChunkPayload>,
) -> bool {
    &&& after.len() == before.len() + savable(evicted).len()
    &&& after.take(before.len() as int) == before
    &&& forall|j: int|
        0 <= j < savable(evicted).len() ==> is_file_of(
            after[before.len() + j],
            (#[trigger] savable(evicted)[j]).pos,
            buffer_view(&*savable(evicted)[j].data),
        )
}

impl WorldView {
    /// The buffer for a looked-up chunk: what the store held, else what
    /// the terrain cache holds.
    pub open spec fn found(self, pos: ChunkCoord, stored: Option<Arc<VoxelBuffer>>) -> Option<
        Arc<VoxelBuffer>,
    > {
        match stored {
            Some(data) => Some(data),
            None => if self.terrain.cache.contains_key(pos) {
                Some(self.terrain.cache[pos])
            } else {
                None
            },
        }
    }

    /// The state after the chunk at `pos` has been found for player
    /// `id`: unless the player is gone or has the chunk already, the
    /// chunk joins the player's loaded set and the terrain cache, and a
    /// `ChunkLoaded` event is emitted.
    pub open spec fn load(self, id: u32, pos: ChunkCoord, data: Arc<VoxelBuffer>) -> WorldView {
        match slot_index(self.players, id) {
            None => self,
            Some(i) => if self.players[i].state.loaded.contains(pos) {
                self
            } else {
                WorldView {
                    players: self.players.update(
                        i,
                        SlotView {
                            id: self.players[i].id,
                            state: PlayerView {
                                loaded: self.players[i].state.loaded.push(pos),
                                ..self.players[i].state
                            },
                        },
                    ),
                    terrain: self.terrain.insert(pos, data),
                    events: self.events.push(
                        WorldEvent::ChunkLoaded { for_player: id, pos, data },
                    ),
                    ..self
                }
            },
        }
    }

    /// The state after one lookup has been answered: a chunk that is
    /// found is loaded, one that is not is asked of the generator.
    pub open spec fn resolve_one(self, lookup: ChunkLookup, stored: Option<Arc<VoxelBuffer>>) -> WorldView {
        match self.found(lookup.pos, stored) {
            Some(data) => self.load(lookup.for_player, lookup.pos, data),
            None => WorldView { terrain: self.terrain.request(lookup.pos), ..self },
        }
    }

    /// The state after the first `n` of `lookups` have been answered.
    pub open spec fn resolve_upto(
        self,
        lookups: Seq<ChunkLookup>,
        stored: Seq<Option<Arc<VoxelBuffer>>>,
        n: nat,
    ) -> WorldView
        decreases n,
    {
        if n == 0 {
            self
        } else {
            self.resolve_upto(lookups, stored, (n - 1) as nat).resolve_one(
                lookups[n - 1],
                stored_at(stored, n - 1),
            )
        }
    }

    /// The state after all lookups have been answered, the `i`-th by
    /// `stored[i]`.
    pub open spec fn resolve(self, stored: Seq<Option<Arc<VoxelBuffer>>>) -> WorldView {
        WorldView {
            lookups: Seq::empty(),
            ..self.resolve_upto(self.lookups, stored, self.lookups.len())
        }
    }

    /// The state after one generated chunk has been handed to the
    /// players who need it.
    pub open spec fn deliver(self, payload: ChunkPayload) -> WorldView {
        WorldView {
            players: deliver_all(self.players, payload.pos, self.render_distance as int),
            events: self.events + delivery_events(
                self.players,
                payload,
                self.render_distance as int,
            ),
            ..self
        }
    }

    /// The state after the first `n` of `results` have been handed out.
    pub open spec fn deliver_upto(self, results: Seq<ChunkPayload>, n: nat) -> WorldView
        decreases n,
    {
        if n == 0 {
            self
        } else {
            self.deliver_upto(results, (n - 1) as nat).deliver(results[n - 1])
        }
    }

    /// The state after the finished generation jobs `results` have been
    /// taken in: each is cached, and handed to the players who need it.
    pub open spec fn poll(self, results: Seq<ChunkPayload>) -> WorldView {
        WorldView {
            terrain: self.terrain.poll(results),
            ..self.deliver_upto(results, results.len())
        }
    }

    /// The state after the events have been handed out.
    pub open spec fn drained(self) -> WorldView {
        WorldView { events: Seq::empty(), ..self }
    }

    /// Whether `self` and `other` differ in nothing but the files
    /// waiting to be written.
    pub open spec fn same_but_saves(self, other: WorldView) -> bool {
        self == (WorldView { saves: self.saves, ..other })
    }
}

} // verus!
