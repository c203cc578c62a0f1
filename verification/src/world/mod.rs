//! The authoritative simulation: players, their loaded chunks, and the
//! tick that moves the ones and streams the others.
//!
//! Nothing here waits. A tick is made of steps, and between two steps the
//! caller does what cannot be decided here: it integrates movement,
//! reads chunk files, runs generation jobs and writes files.

pub mod answers;
pub mod history;
pub mod laws;
pub mod model;
pub mod moves;
pub mod newcomer;
pub mod order;
pub mod pairs;

use std::sync::Arc;
use vstd::prelude::*;
use crate::chunk::{world_to_chunk_pos, ChunkCoord, CHUNK_RENDER_DISTANCE, CHUNK_UNLOAD_MARGIN};
use crate::chunk_set::load_candidates;
use crate::codec::buffer_view;
use crate::commands::WorldCommand;
use crate::events::WorldEvent;
use crate::math::Vec3;
use crate::player::PlayerState;
use crate::storage::{file_view, is_file_of, shared_view, stored_chunk, SavedChunk, Storage};
use crate::terrain::{share, ChunkPayload, Terrain};
use crate::voxel::VoxelBuffer;
use crate::world::laws::{
    lemma_ascending_kept, lemma_ascending_pushed, lemma_ascending_removed, lemma_saves_untouched,
};
use crate::world::model::{
    advance_for, ascending, deliver_all, delivered, delivery_events, dropped, evictions,
    can_save, lookups_for, move_request, move_requests, moved_events, savable, saved_from,
    slot_index, slots_view,
    step_all, sync_all, sync_evictions, sync_events, sync_lookups, synced, unloaded_events,
    wanted,
};
pub use crate::world::model::{
    ChunkLookup, MoveRequest, PlayerAdvance, PlayerSlot, SlotView, WorldView,
};

verus! {

/// Where the caller has taken player `id`.
pub fn find_advance(advanced: &Vec<PlayerAdvance>, id: u32) -> (r: Option<Vec3>)
    ensures
        r == advance_for(advanced@, id),
{
    let mut j: usize = 0;
    assert(advanced@.skip(0) =~= advanced@);
    while j < advanced.len()
        invariant
            j <= advanced@.len(),
            advance_for(advanced@, id) == advance_for(advanced@.skip(j as int), id),
        decreases advanced@.len() - j,
    {
        proof {
            let rest = advanced@.skip(j as int);
            assert(rest[0] == advanced@[j as int]);
            assert(rest.drop_first() =~= advanced@.skip(j as int + 1));
        }
        if advanced[j].id == id {
            return Some(advanced[j].pos);
        }
        j += 1;
    }
    None
}

fn push_unloaded(events: &mut Vec<WorldEvent>, id: u32, gone: &Vec<ChunkCoord>)
    ensures
        final(events)@ == old(events)@ + unloaded_events(id, gone@),
{
    let mut k: usize = 0;
    assert(old(events)@ + unloaded_events(id, gone@.take(0)) =~= old(events)@);
    while k < gone.len()
        invariant
            k <= gone@.len(),
            events@ == old(events)@ + unloaded_events(id, gone@.take(k as int)),
        decreases gone@.len() - k,
    {
        events.push(WorldEvent::ChunkUnloaded { for_player: id, pos: gone[k] });
        k += 1;
        assert(events@ =~= old(events)@ + unloaded_events(id, gone@.take(k as int)));
    }
    assert(gone@.take(k as int) =~= gone@);
}

fn push_evictions(evicted: &mut Vec<ChunkPayload>, terrain: &Terrain, gone: &Vec<ChunkCoord>)
    ensures
        final(evicted)@ == old(evicted)@ + evictions(terrain@.cache, gone@),
{
    let mut k: usize = 0;
    assert(gone@.take(0) =~= Seq::<ChunkCoord>::empty());
    assert(old(evicted)@ + evictions(terrain@.cache, gone@.take(0)) =~= old(evicted)@);
    while k < gone.len()
        invariant
            k <= gone@.len(),
            evicted@ == old(evicted)@ + evictions(terrain@.cache, gone@.take(k as int)),
        decreases gone@.len() - k,
    {
        let pos = gone[k];
        proof {
            let seen = gone@.take(k as int + 1);
            assert(seen.drop_last() =~= gone@.take(k as int));
            assert(seen.last() == pos);
        }
        match terrain.get(pos) {
            Some(data) => {
                evicted.push(ChunkPayload { pos, data });
                assert(evicted@ =~= old(evicted)@ + evictions(
                    terrain@.cache,
                    gone@.take(k as int + 1),
                ));
            },
            None => {},
        }
        k += 1;
    }
    assert(gone@.take(k as int) =~= gone@);
}

fn push_lookups(lookups: &mut Vec<ChunkLookup>, id: u32, chunks: &Vec<ChunkCoord>)
    ensures
        final(lookups)@ == old(lookups)@ + lookups_for(id, chunks@),
{
    let mut k: usize = 0;
    assert(old(lookups)@ + lookups_for(id, chunks@.take(0)) =~= old(lookups)@);
    while k < chunks.len()
        invariant
            k <= chunks@.len(),
            lookups@ == old(lookups)@ + lookups_for(id, chunks@.take(k as int)),
        decreases chunks@.len() - k,
    {
        lookups.push(ChunkLookup { for_player: id, pos: chunks[k] });
        k += 1;
        assert(lookups@ =~= old(lookups)@ + lookups_for(id, chunks@.take(k as int)));
    }
    assert(chunks@.take(k as int) =~= chunks@);
}

/// The authoritative simulation of the world.
pub struct VoxelWorld {
    players: Vec<PlayerSlot>,
    terrain: Terrain,
    storage: Storage,
    events: Vec<WorldEvent>,
    lookups: Vec<ChunkLookup>,
    evicted: Vec<ChunkPayload>,
    next_id: u32,
    render_distance: i32,
    unload_margin: i32,
}

impl View for VoxelWorld {
    type V = WorldView;

    closed spec fn view(&self) -> WorldView {
        WorldView {
            players: slots_view(self.players@),
            terrain: self.terrain@,
            events: self.events@,
            lookups: self.lookups@,
            evicted: self.evicted@,
            saves: self.storage@,
            next_id: self.next_id,
            render_distance: self.render_distance,
            unload_margin: self.unload_margin,
        }
    }
}

impl VoxelWorld {
    /// The players' numbers ascend and lie below the next number, every
    /// loaded set is well formed, no chunk is both cached and pending,
    /// and the two distances are not negative.
    pub closed spec fn wf(&self) -> bool {
        &&& ascending(self@.players)
        &&& forall|i: int| 0 <= i < self.players@.len() ==> self.players@[i].id < self.next_id
        &&& forall|i: int| 0 <= i < self.players@.len() ==> (#[trigger] self.players@[i]).state.wf()
        &&& self.terrain.wf()
        &&& 0 <= self.render_distance
        &&& 0 <= self.unload_margin
        &&& self.render_distance + self.unload_margin <= i32::MAX
    }

    /// What well-formedness says of the state's value.
    pub proof fn lemma_wf(&self)
        requires
            self.wf(),
        ensures
            ascending(self@.players),
            forall|i: int| 0 <= i < self@.players.len() ==> self@.players[i].id < self@.next_id,
            forall|i: int|
                0 <= i < self@.players.len() ==> (#[trigger] self@.players[i]).state.loaded.no_duplicates(),
            self@.terrain.disjoint(),
            0 <= self@.render_distance,
            0 <= self@.unload_margin,
    {
        assert forall|i: int| 0 <= i < self@.players.len() implies (
        #[trigger] self@.players[i]).state.loaded.no_duplicates() by {
            assert(self.players@[i].state.wf());
            self.players@[i].state.loaded_chunks.lemma_distinct();
        }
    }

    /// An empty world over the terrain of the given seed, with the
    /// default render distance and unload margin. The first player gets
    /// the number 1.
    pub fn new(seed: u32) -> (w: VoxelWorld)
        ensures
            w.wf(),
            w@ == WorldView::initial(seed),
    {
        let w = VoxelWorld {
            players: Vec::new(),
            terrain: Terrain::new(seed),
            storage: Storage::new(),
            events: Vec::new(),
            lookups: Vec::new(),
            evicted: Vec::new(),
            next_id: 1,
            render_distance: CHUNK_RENDER_DISTANCE,
            unload_margin: CHUNK_UNLOAD_MARGIN,
        };
        assert(w@.players =~= Seq::<SlotView>::empty());
        w
    }

    /// The seed of the world's height field.
    pub fn seed(&self) -> (seed: u32)
        ensures
            seed == self@.terrain.seed,
    {
        self.terrain.generator().seed
    }

    /// Sets how far players see and how far beyond that a loaded chunk
    /// may lie. Negative distances, and distances whose sum does not fit
    /// in 32 bits, are refused and change nothing.
    pub fn set_distances(&mut self, render_distance: i32, unload_margin: i32) -> (ok: bool)
        requires
            old(self).wf(),
        ensures
            final(self).wf(),
            ok == (0 <= render_distance && 0 <= unload_margin && render_distance + unload_margin
                <= i32::MAX),
            final(self)@ == if ok {
                WorldView { render_distance, unload_margin, ..old(self)@ }
            } else {
                old(self)@
            },
    {
        if render_distance < 0 || unload_margin < 0 || render_distance > i32::MAX - unload_margin {
            return false;
        }
        self.render_distance = render_distance;
        self.unload_margin = unload_margin;
        true
    }

    /// The number that the next player gets.
    pub fn next_id(&self) -> (id: u32)
        ensures
            id == self@.next_id,
    {
        self.next_id
    }

    /// Number of players.
    pub fn player_count(&self) -> (n: usize)
        ensures
            n == self@.players.len(),
    {
        self.players.len()
    }

    /// The slot of player `id`, if the player is there.
    pub fn player(&self, id: u32) -> (r: Option<&PlayerSlot>)
        requires
            self.wf(),
        ensures
            match r {
                Some(slot) => slot_index(self@.players, id) is Some && slot@
                    == self@.players[slot_index(self@.players, id)->Some_0],
                None => slot_index(self@.players, id) is None,
            },
    {
        match self.find(id) {
            Some(i) => Some(&self.players[i]),
            None => None,
        }
    }

    fn find(&self, id: u32) -> (r: Option<usize>)
        requires
            self.wf(),
        ensures
            match r {
                Some(i) => i < self.players@.len() && self.players@[i as int].id == id
                    && slot_index(self@.players, id) == Some(i as int),
                None => slot_index(self@.players, id) is None,
            },
    {
        let mut i: usize = 0;
        while i < self.players.len()
            invariant
                self.wf(),
                i <= self.players@.len(),
                forall|k: int| 0 <= k < i ==> self.players@[k].id != id,
            decreases self.players@.len() - i,
        {
            if self.players[i].id == id {
                proof {
                    let players = self@.players;
                    assert(players[i as int].id == id);
                    let j = choose|j: int| 0 <= j < players.len() && players[j].id == id;
                    assert(players[j].id == id);
                    if j != i {
                        if j < i {
                            assert(players[j].id < players[i as int].id);
                        } else {
                            assert(players[i as int].id < players[j].id);
                        }
                    }
                }
                return Some(i);
            }
            i += 1;
        }
        proof {
            let players = self@.players;
            assert forall|k: int| 0 <= k < players.len() implies players[k].id != id by {
                assert(self.players@[k].id != id);
            }
        }
        None
    }

    /// Lets a player join: the player gets the next number and the state
    /// of a newcomer. The numbers must not be used up.
    pub fn add_player(&mut self) -> (id: u32)
        requires
            old(self).wf(),
            old(self)@.next_id < u32::MAX,
        ensures
            final(self).wf(),
            id == old(self)@.next_id,
            final(self)@ == old(self)@.add_player(),
    {
        let id = self.next_id;
        self.next_id = self.next_id + 1;
        self.players.push(PlayerSlot { id, state: PlayerState::default() });
        proof {
            assert(self@.players =~= old(self)@.add_player().players);
            assert forall|k: int| 0 <= k < old(self)@.players.len() implies (
            #[trigger] old(self)@.players[k]).id < id by {
                assert(old(self).players@[k].id < old(self).next_id);
            }
            lemma_ascending_pushed(
                old(self)@.players,
                SlotView { id, state: crate::player::PlayerView::fresh() },
            );
        }
        id
    }

    /// Lets player `id` leave; the player's loaded chunks are forgotten,
    /// not saved. An unknown player changes nothing.
    pub fn remove_player(&mut self, id: u32)
        requires
            old(self).wf(),
        ensures
            final(self).wf(),
            final(self)@ == old(self)@.remove_player(id),
    {
        match self.find(id) {
            Some(i) => {
                self.players.remove(i);
                proof {
                    assert(self@.players =~= old(self)@.players.remove(i as int));
                    lemma_ascending_removed(old(self)@.players, i as int);
                    assert forall|k: int| 0 <= k < self.players@.len() implies self.players@[k].id
                        < self.next_id && (#[trigger] self.players@[k]).state.wf() by {
                        let k0 = if k < i { k } else { k + 1 };
                        assert(old(self).players@[k0].state.wf());
                    }
                }
            },
            None => {},
        }
    }

    /// Applies a command. A command for an unknown player is ignored.
    pub fn execute(&mut self, cmd: WorldCommand)
        requires
            old(self).wf(),
        ensures
            final(self).wf(),
            final(self)@ == match cmd {
                WorldCommand::PlayerMove { id, input } => old(self)@.set_input(id, input),
            },
    {
        match cmd {
            WorldCommand::PlayerMove { id, input } => {
                match self.find(id) {
                    Some(i) => {
                        self.players[i].state.input = input;
                        proof {
                            assert(self@.players =~= old(self)@.set_input(id, input).players);
                            assert forall|k: int| 0 <= k < self.players@.len() implies self.players@[k].id
                                < self.next_id && (#[trigger] self.players@[k]).state.wf() by {
                                assert(old(self).players@[k].state.wf());
                            }
                            lemma_ascending_kept(old(self)@.players, self@.players);
                        }
                    },
                    None => {},
                }
            },
        }
    }

    /// Everything but the players and the events is as in `before`, the
    /// players are the same ones, and their loaded sets are untouched.
    spec fn same_but_moved(&self, before: &VoxelWorld) -> bool {
        &&& self.terrain == before.terrain
        &&& self.storage == before.storage
        &&& self.lookups == before.lookups
        &&& self.evicted == before.evicted
        &&& self.next_id == before.next_id
        &&& self.render_distance == before.render_distance
        &&& self.unload_margin == before.unload_margin
        &&& self.players@.len() == before.players@.len()
        &&& forall|k: int|
            0 <= k < self.players@.len() ==> {
                &&& (#[trigger] self.players@[k]).id == before.players@[k].id
                &&& self.players@[k].state.loaded_chunks == before.players@[k].state.loaded_chunks
                &&& self.players@[k].state.chunk_anchor == before.players@[k].state.chunk_anchor
                &&& self.players@[k].state.input == before.players@[k].state.input
            }
    }

    /// The players whose input asks for movement this tick, in order:
    /// the caller integrates their movement and hands the new positions
    /// to [`Self::process_player_inputs`].
    pub fn moving_players(&self) -> (movers: Vec<MoveRequest>)
        ensures
            movers@ == move_requests(self@.players),
    {
        let mut movers: Vec<MoveRequest> = Vec::new();
        let mut i: usize = 0;
        assert(self@.players.take(0) =~= Seq::<SlotView>::empty());
        while i < self.players.len()
            invariant
                i <= self.players@.len(),
                movers@ == move_requests(self@.players.take(i as int)),
            decreases self.players@.len() - i,
        {
            let slot = &self.players[i];
            proof {
                let seen = self@.players.take(i as int + 1);
                assert(seen.drop_last() =~= self@.players.take(i as int));
                assert(seen.last() == slot@);
            }
            if !slot.state.input.dir.is_zero() {
                movers.push(MoveRequest { id: slot.id, pos: slot.state.pos, input: slot.state.input });
                assert(movers@ =~= move_requests(self@.players.take(i as int)) + move_request(
                    slot@,
                ));
            } else {
                assert(movers@ =~= move_requests(self@.players.take(i as int)) + move_request(
                    slot@,
                ));
            }
            i += 1;
        }
        assert(self@.players.take(i as int) =~= self@.players);
        movers
    }

    /// Input integration: every player's look becomes the look of the
    /// player's input; every player whose input asks for movement is put
    /// where `advanced` says and a `PlayerMoved` event is emitted for the
    /// player.
    pub fn process_player_inputs(&mut self, advanced: &Vec<PlayerAdvance>)
        requires
            old(self).wf(),
        ensures
            final(self).wf(),
            final(self)@ == old(self)@.process_inputs(advanced@),
    {
        let ghost target = step_all(old(self)@.players, advanced@);
        let mut i: usize = 0;
        assert(target.take(0) =~= Seq::<SlotView>::empty());
        while i < self.players.len()
            invariant
                old(self).wf(),
                i <= self.players@.len(),
                self.same_but_moved(old(self)),
                target == step_all(old(self)@.players, advanced@),
                forall|k: int| 0 <= k < i ==> (#[trigger] self.players@[k])@ == target[k],
                forall|k: int|
                    i <= k < self.players@.len() ==> (#[trigger] self.players@[k])
                        == old(self).players@[k],
                self.events@ == old(self).events@ + moved_events(target.take(i as int)),
            decreases self.players@.len() - i,
        {
            let id = self.players[i].id;
            let input = self.players[i].state.input;
            self.players[i].state.look = input.look;
            if !input.dir.is_zero() {
                match find_advance(advanced, id) {
                    Some(q) => {
                        self.players[i].state.pos = q;
                    },
                    None => {},
                }
                let pos = self.players[i].state.pos;
                self.events.push(WorldEvent::PlayerMoved { id, pos, look: input.look });
            }
            proof {
                let seen = target.take(i as int + 1);
                assert(seen.drop_last() =~= target.take(i as int));
                assert(seen.last() == target[i as int]);
                assert(self.players@[i as int]@ == target[i as int]);
                assert(self.events@ =~= old(self).events@ + moved_events(seen));
            }
            i += 1;
        }
        proof {
            assert(target.take(i as int) =~= target);
            assert(self@.players =~= target);
            assert forall|k: int| 0 <= k < self.players@.len() implies (#[trigger] self.players@[k]).state.wf() by {
                assert(old(self).players@[k].state.wf());
            }
            lemma_ascending_kept(old(self)@.players, self@.players);
        }
    }

    /// Chunk synchronisation. Every player is anchored at the chunk that
    /// the player stands in. Every loaded chunk farther from the anchor
    /// than render distance plus unload margin is unloaded: it leaves
    /// the loaded set, a `ChunkUnloaded` event is emitted, and if the
    /// terrain cache still holds it, it is handed to the store. For a
    /// player whose anchor has changed, every chunk within render
    /// distance that is not loaded is looked up, nearest first.
    pub fn sync_player_chunks(&mut self)
        requires
            old(self).wf(),
        ensures
            final(self).wf(),
            final(self)@ == old(self)@.sync(),
    {
        let reach: i32 = self.render_distance + self.unload_margin;
        let radius: i32 = self.render_distance;
        let ghost before = old(self)@;
        let mut i: usize = 0;
        proof {
            assert(before.players.take(0) =~= Seq::<SlotView>::empty());
            assert(self.events@ =~= before.events + sync_events(before.players.take(0), reach as int));
            assert(self.evicted@ =~= before.evicted + sync_evictions(
                before.terrain.cache,
                before.players.take(0),
                reach as int,
            ));
            assert(self.lookups@ =~= before.lookups + sync_lookups(
                before.players.take(0),
                radius as int,
                reach as int,
            ));
        }
        while i < self.players.len()
            invariant
                old(self).wf(),
                before == old(self)@,
                reach == before.reach(),
                radius == before.render_distance,
                i <= self.players@.len(),
                self.terrain == old(self).terrain,
                self.storage == old(self).storage,
                self.next_id == old(self).next_id,
                self.render_distance == old(self).render_distance,
                self.unload_margin == old(self).unload_margin,
                self.players@.len() == old(self).players@.len(),
                forall|k: int|
                    0 <= k < self.players@.len() ==> (#[trigger] self.players@[k]).id
                        == old(self).players@[k].id && self.players@[k].state.wf(),
                forall|k: int|
                    0 <= k < i ==> (#[trigger] self.players@[k])@ == synced(
                        before.players[k],
                        reach as int,
                    ),
                forall|k: int|
                    i <= k < self.players@.len() ==> (#[trigger] self.players@[k])
                        == old(self).players@[k],
                self.events@ == before.events + sync_events(
                    before.players.take(i as int),
                    reach as int,
                ),
                self.evicted@ == before.evicted + sync_evictions(
                    before.terrain.cache,
                    before.players.take(i as int),
                    reach as int,
                ),
                self.lookups@ == before.lookups + sync_lookups(
                    before.players.take(i as int),
                    radius as int,
                    reach as int,
                ),
            decreases self.players@.len() - i,
        {
            let id = self.players[i].id;
            let anchor = world_to_chunk_pos(self.players[i].state.pos);
            let ghost slot = before.players[i as int];
            assert(slot == old(self).players@[i as int]@);
            let gone = self.players[i].state.loaded_chunks.retain_within(anchor, reach);
            push_unloaded(&mut self.events, id, &gone);
            push_evictions(&mut self.evicted, &self.terrain, &gone);
            let moved = match self.players[i].state.chunk_anchor {
                Some(a) => a != anchor,
                None => true,
            };
            self.players[i].state.chunk_anchor = Some(anchor);
            if moved {
                let chunks = load_candidates(anchor, radius, &self.players[i].state.loaded_chunks);
                push_lookups(&mut self.lookups, id, &chunks);
            }
            proof {
                let seen = before.players.take(i as int + 1);
                assert(seen.drop_last() =~= before.players.take(i as int));
                assert(seen.last() == slot);
                assert(gone@ == dropped(slot, reach as int));
                assert(self.players@[i as int]@ == synced(slot, reach as int));
                assert(self.events@ =~= before.events + sync_events(seen, reach as int));
                assert(self.evicted@ =~= before.evicted + sync_evictions(
                    before.terrain.cache,
                    seen,
                    reach as int,
                ));
                if !moved {
                    assert(wanted(slot, radius as int, reach as int) =~= Seq::<ChunkCoord>::empty());
                    assert(lookups_for(id, Seq::<ChunkCoord>::empty()) =~= Seq::<
                        ChunkLookup,
                    >::empty());
                }
                assert(self.lookups@ =~= before.lookups + sync_lookups(
                    seen,
                    radius as int,
                    reach as int,
                ));
            }
            i += 1;
        }
        proof {
            assert(before.players.take(i as int) =~= before.players);
            assert(self@.players =~= sync_all(before.players, reach as int));
            lemma_ascending_kept(old(self)@.players, self@.players);
        }
    }

    /// The chunks whose files the caller is to read, in the order in
    /// which [`Self::resolve_lookups`] wants the answers.
    pub fn pending_lookups(&self) -> (lookups: &Vec<ChunkLookup>)
        ensures
            lookups@ == self@.lookups,
    {
        &self.lookups
    }

    /// The chunks that the files `files` stand for, one by one.
    pub fn read_stored(&self, files: &Vec<Option<Vec<u8>>>) -> (r: Vec<Option<Arc<VoxelBuffer>>>)
        ensures
            r@.len() == files@.len(),
            forall|i: int|
                0 <= i < files@.len() ==> shared_view(#[trigger] r@[i])
                    == stored_chunk(file_view(files@[i])),
    {
        self.storage.get_chunks(files)
    }

    fn load_chunk(&mut self, id: u32, pos: ChunkCoord, data: Arc<VoxelBuffer>)
        requires
            old(self).wf(),
        ensures
            final(self).wf(),
            final(self)@ == old(self)@.load(id, pos, data),
    {
        match self.find(id) {
            None => {},
            Some(i) => {
                if self.players[i].state.loaded_chunks.insert(pos) {
                    self.terrain.set(pos, share(&data));
                    self.events.push(WorldEvent::ChunkLoaded { for_player: id, pos, data });
                    proof {
                        assert(self@.players =~= old(self)@.load(id, pos, data).players);
                        assert forall|k: int| 0 <= k < self.players@.len() implies self.players@[k].id
                            < self.next_id && (#[trigger] self.players@[k]).state.wf() by {
                            assert(old(self).players@[k].state.wf());
                        }
                        lemma_ascending_kept(old(self)@.players, self@.players);
                    }
                } else {
                    proof {
                        assert(self@.players =~= old(self)@.players);
                        assert forall|k: int| 0 <= k < self.players@.len() implies self.players@[k].id
                            < self.next_id && (#[trigger] self.players@[k]).state.wf() by {
                            assert(old(self).players@[k].state.wf());
                        }
                        lemma_ascending_kept(old(self)@.players, self@.players);
                    }
                }
            },
        }
    }

    /// Answers the lookups, the `i`-th with what the store held for it
    /// (`stored[i]`, or nothing). A chunk that the store or the terrain
    /// cache holds is loaded for its player: it joins the loaded set and
    /// the cache, and a `ChunkLoaded` event is emitted. A chunk that
    /// neither holds is asked of the generator. No lookup is left.
    pub fn resolve_lookups(&mut self, stored: Vec<Option<Arc<VoxelBuffer>>>)
        requires
            old(self).wf(),
        ensures
            final(self).wf(),
            final(self)@ == old(self)@.resolve(stored@),
    {
        let mut lookups: Vec<ChunkLookup> = Vec::new();
        std::mem::swap(&mut self.lookups, &mut lookups);
        let ghost before = old(self)@;
        let mut i: usize = 0;
        assert(self@ == (WorldView { lookups: Seq::empty(), ..before }));
        while i < lookups.len()
            invariant
                i <= lookups@.len(),
                lookups@ == before.lookups,
                self.wf(),
                self@ == (WorldView {
                    lookups: Seq::empty(),
                    ..before.resolve_upto(before.lookups, stored@, i as nat)
                }),
            decreases lookups@.len() - i,
        {
            let lookup = lookups[i];
            let from_store: Option<Arc<VoxelBuffer>> = if i < stored.len() {
                match &stored[i] {
                    Some(data) => Some(share(data)),
                    None => None,
                }
            } else {
                None
            };
            let found = match from_store {
                Some(data) => Some(data),
                None => self.terrain.get(lookup.pos),
            };
            match found {
                Some(data) => {
                    self.load_chunk(lookup.for_player, lookup.pos, data);
                },
                None => {
                    self.terrain.request(lookup.pos);
                },
            }
            i += 1;
        }
    }

    fn deliver(&mut self, payload: &ChunkPayload)
        requires
            old(self).wf(),
        ensures
            final(self).wf(),
            final(self)@ == old(self)@.deliver(*payload),
    {
        let radius: i32 = self.render_distance;
        let pos = payload.pos;
        let ghost before = old(self)@;
        let mut i: usize = 0;
        proof {
            assert(before.players.take(0) =~= Seq::<SlotView>::empty());
            assert(self.events@ =~= before.events + delivery_events(
                before.players.take(0),
                *payload,
                radius as int,
            ));
        }
        while i < self.players.len()
            invariant
                old(self).wf(),
                before == old(self)@,
                radius == before.render_distance,
                pos == payload.pos,
                i <= self.players@.len(),
                self.terrain == old(self).terrain,
                self.storage == old(self).storage,
                self.lookups == old(self).lookups,
                self.evicted == old(self).evicted,
                self.next_id == old(self).next_id,
                self.render_distance == old(self).render_distance,
                self.unload_margin == old(self).unload_margin,
                self.players@.len() == old(self).players@.len(),
                forall|k: int|
                    0 <= k < self.players@.len() ==> (#[trigger] self.players@[k]).id
                        == old(self).players@[k].id && self.players@[k].state.wf(),
                forall|k: int|
                    0 <= k < i ==> (#[trigger] self.players@[k])@ == delivered(
                        before.players[k],
                        pos,
                        radius as int,
                    ),
                forall|k: int|
                    i <= k < self.players@.len() ==> (#[trigger] self.players@[k])
                        == old(self).players@[k],
                self.events@ == before.events + delivery_events(
                    before.players.take(i as int),
                    *payload,
                    radius as int,
                ),
            decreases self.players@.len() - i,
        {
            let id = self.players[i].id;
            let ghost slot = before.players[i as int];
            assert(slot == old(self).players@[i as int]@);
            let in_range = match self.players[i].state.chunk_anchor {
                Some(anchor) => anchor.chebyshev(pos) <= radius as i64,
                None => false,
            };
            if in_range && !self.players[i].state.loaded_chunks.contains(pos) {
                self.players[i].state.loaded_chunks.insert(pos);
                self.events.push(
                    WorldEvent::ChunkLoaded { for_player: id, pos, data: share(&payload.data) },
                );
            }
            proof {
                let seen = before.players.take(i as int + 1);
                assert(seen.drop_last() =~= before.players.take(i as int));
                assert(seen.last() == slot);
                assert(self.players@[i as int]@ == delivered(slot, pos, radius as int));
                assert(self.events@ =~= before.events + delivery_events(
                    seen,
                    *payload,
                    radius as int,
                ));
            }
            i += 1;
        }
        proof {
            assert(before.players.take(i as int) =~= before.players);
            assert(self@.players =~= deliver_all(before.players, pos, radius as int));
            lemma_ascending_kept(old(self)@.players, self@.players);
        }
    }

    /// Terrain poll: takes in the finished generation jobs `results`.
    /// Each chunk is cached and no longer pending; each player who needs
    /// it (anchored within render distance of it, and without it) gets
    /// it into the loaded set, with a `ChunkLoaded` event.
    pub fn poll_terrain(&mut self, results: Vec<ChunkPayload>)
        requires
            old(self).wf(),
        ensures
            final(self).wf(),
            final(self)@ == old(self)@.poll(results@),
    {
        let ghost before = old(self)@;
        let ready = self.terrain.poll(results);
        let mut i: usize = 0;
        while i < ready.len()
            invariant
                i <= ready@.len(),
                ready@ == results@,
                self.wf(),
                self@ == (WorldView {
                    terrain: before.terrain.poll(results@),
                    ..before.deliver_upto(results@, i as nat)
                }),
            decreases ready@.len() - i,
        {
            self.deliver(&ready[i]);
            i += 1;
        }
    }

    /// Hands the unloaded chunks to the store: each is encoded,
    /// compressed and queued as a file, in their order, unless
    /// compression fails for it. No unloaded chunk is left to hand over.
    pub fn save_evicted(&mut self)
        requires
            old(self).wf(),
        ensures
            final(self).wf(),
            final(self)@.same_but_saves(WorldView { evicted: Seq::empty(), ..old(self)@ }),
            saved_from(old(self)@.saves, final(self)@.saves, old(self)@.evicted),
    {
        let mut evicted: Vec<ChunkPayload> = Vec::new();
        std::mem::swap(&mut self.evicted, &mut evicted);
        let ghost before = old(self)@;
        let mut i: usize = 0;
        proof {
            assert(evicted@.take(0) =~= Seq::<ChunkPayload>::empty());
            assert(self@.saves.take(before.saves.len() as int) =~= before.saves);
        }
        while i < evicted.len()
            invariant
                i <= evicted@.len(),
                evicted@ == before.evicted,
                self.wf(),
                self@.same_but_saves(WorldView { evicted: Seq::empty(), ..before }),
                saved_from(before.saves, self@.saves, evicted@.take(i as int)),
            decreases evicted@.len() - i,
        {
            let ghost queued = self@.saves;
            self.storage.save_chunk(evicted[i].pos, &*evicted[i].data);
            proof {
                let after = self@.saves;
                let start = before.saves.len() as int;
                let done = evicted@.take(i as int);
                let seen = evicted@.take(i as int + 1);
                assert(seen.drop_last() =~= done);
                assert(seen.last() == evicted@[i as int]);
                if can_save(evicted@[i as int]) {
                    assert(queued =~= after.drop_last());
                    assert(savable(seen) == savable(done).push(evicted@[i as int]));
                } else {
                    assert(savable(seen) == savable(done));
                }
                assert(after.take(start) =~= queued.take(start));
                assert forall|j: int| 0 <= j < savable(seen).len() implies is_file_of(
                    after[start + j],
                    (#[trigger] savable(seen)[j]).pos,
                    buffer_view(&*savable(seen)[j].data),
                ) by {
                    if j < savable(done).len() {
                        assert(after[start + j] == queued[start + j]);
                        assert(savable(seen)[j] == savable(done)[j]);
                    }
                }
            }
            i += 1;
        }
        assert(evicted@.take(i as int) =~= evicted@);
    }

    /// Hands out the events of the tick, oldest first; none is left.
    pub fn take_events(&mut self) -> (events: Vec<WorldEvent>)
        requires
            old(self).wf(),
        ensures
            final(self).wf(),
            events@ == old(self)@.events,
            final(self)@ == old(self)@.drained(),
    {
        let mut events: Vec<WorldEvent> = Vec::new();
        std::mem::swap(&mut self.events, &mut events);
        events
    }

    /// Hands out the generation jobs that have been queued, oldest
    /// first, for the caller to run.
    pub fn take_requests(&mut self) -> (jobs: Vec<ChunkCoord>)
        requires
            old(self).wf(),
        ensures
            final(self).wf(),
            jobs@ == old(self)@.terrain.queue,
            final(self)@ == (WorldView { terrain: old(self)@.terrain.drained(), ..old(self)@ }),
    {
        self.terrain.take_requests()
    }

    /// Hands out the files waiting to be written, oldest first.
    pub fn take_saves(&mut self) -> (files: Vec<SavedChunk>)
        requires
            old(self).wf(),
        ensures
            final(self).wf(),
            files@ == old(self)@.saves,
            final(self)@ == (WorldView { saves: Seq::empty(), ..old(self)@ }),
    {
        self.storage.take_saves()
    }

    /// The first half of a tick: input integration, chunk
    /// synchronisation, and the hand-over of unloaded chunks to the
    /// store. Every unloaded chunk that the terrain cache holds gets its
    /// file, in the order of unloading, unless its compression fails.
    /// Afterwards the caller reads the files of the pending lookups.
    pub fn begin_tick(&mut self, advanced: &Vec<PlayerAdvance>)
        requires
            old(self).wf(),
        ensures
            final(self).wf(),
            final(self)@.same_but_saves(
                WorldView {
                    evicted: Seq::empty(),
                    ..old(self)@.process_inputs(advanced@).sync()
                },
            ),
            saved_from(
                old(self)@.saves,
                final(self)@.saves,
                old(self)@.process_inputs(advanced@).sync().evicted,
            ),
    {
        self.process_player_inputs(advanced);
        self.sync_player_chunks();
        self.save_evicted();
    }

    /// The second half of a tick: the lookups are answered with what
    /// the store held, the finished generation jobs are taken in, and
    /// the events of the tick are handed out, leaving none.
    pub fn finish_tick(
        &mut self,
        stored: Vec<Option<Arc<VoxelBuffer>>>,
        results: Vec<ChunkPayload>,
    ) -> (events: Vec<WorldEvent>)
        requires
            old(self).wf(),
        ensures
            final(self).wf(),
            events@ == old(self)@.resolve(stored@).poll(results@).events,
            final(self)@ == old(self)@.resolve(stored@).poll(results@).drained(),
    {
        self.resolve_lookups(stored);
        self.poll_terrain(results);
        self.take_events()
    }

    /// A whole tick of a world whose store holds nothing: both halves,
    /// with every lookup answered from the terrain cache alone. The
    /// unloaded chunks are queued as files as in [`Self::begin_tick`].
    pub fn tick(&mut self, advanced: &Vec<PlayerAdvance>, results: Vec<ChunkPayload>) -> (events:
        Vec<WorldEvent>)
        requires
            old(self).wf(),
        ensures
            final(self).wf(),
            saved_from(
                old(self)@.saves,
                final(self)@.saves,
                old(self)@.process_inputs(advanced@).sync().evicted,
            ),
            ({
                let synced = WorldView {
                    evicted: Seq::empty(),
                    saves: final(self)@.saves,
                    ..old(self)@.process_inputs(advanced@).sync()
                };
                let done = synced.resolve(Seq::empty()).poll(results@);
                &&& events@ == done.events
                &&& final(self)@ == done.drained()
            }),
    {
        self.begin_tick(advanced);
        let ghost mid = self@;
        let events = self.finish_tick(Vec::new(), results);
        proof {
            lemma_saves_untouched(mid, Seq::empty(), results@);
        }
        events
    }
}

} // verus!
