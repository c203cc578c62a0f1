use std::sync::Arc;
use voxel_server::chunk::{chunk_in_range, ChunkCoord};
use voxel_server::commands::WorldCommand;
use voxel_server::events::WorldEvent;
use voxel_server::math::{Scalar, Vec3};
use voxel_server::player::{PlayerInput, PlayerState};
use voxel_server::terrain::{ChunkPayload, ColumnHeights, TerrainGenerator};
use voxel_server::voxel::VoxelBuffer;
use voxel_server::world::{ChunkLookup, MoveRequest, PlayerAdvance, VoxelWorld};

fn at(x: i32, y: i32, z: i32) -> ChunkCoord {
    ChunkCoord::new(x, y, z)
}

fn vec3(x: f32, y: f32, z: f32) -> Vec3 {
    Vec3 { x: Scalar(x.to_bits()), y: Scalar(y.to_bits()), z: Scalar(z.to_bits()) }
}

fn walking() -> PlayerInput {
    PlayerInput { dir: vec3(1.0, 0.0, 0.0), look: vec3(0.0, 0.0, -1.0), sprint: false }
}

fn idle() -> PlayerInput {
    PlayerInput { dir: vec3(0.0, 0.0, 0.0), look: vec3(0.0, 0.0, -1.0), sprint: false }
}

fn place(world: &mut VoxelWorld, id: u32, pos: Vec3) {
    world.execute(WorldCommand::PlayerMove { id, input: walking() });
    world.process_player_inputs(&vec![PlayerAdvance { id, pos }]);
    world.execute(WorldCommand::PlayerMove { id, input: idle() });
    world.take_events();
}

fn generate(jobs: &[ChunkCoord]) -> Vec<ChunkPayload> {
    let generator = TerrainGenerator::new(123);
    jobs.iter()
        .map(|pos| ChunkPayload {
            pos: *pos,
            data: Arc::new(generator.generate(*pos, &ColumnHeights::flat(20))),
        })
        .collect()
}

fn loaded(events: &[WorldEvent], player: u32) -> Vec<ChunkCoord> {
    events
        .iter()
        .filter_map(|e| match e {
            WorldEvent::ChunkLoaded { for_player, pos, .. } if *for_player == player => Some(*pos),
            _ => None,
        })
        .collect()
}

fn unloaded(events: &[WorldEvent], player: u32) -> Vec<ChunkCoord> {
    events
        .iter()
        .filter_map(|e| match e {
            WorldEvent::ChunkUnloaded { for_player, pos } if *for_player == player => Some(*pos),
            _ => None,
        })
        .collect()
}

fn full_tick(world: &mut VoxelWorld) -> Vec<WorldEvent> {
    world.begin_tick(&Vec::new());
    let mut events = world.finish_tick(Vec::new(), Vec::new());
    let jobs = world.take_requests();
    world.begin_tick(&Vec::new());
    events.extend(world.finish_tick(Vec::new(), generate(&jobs)));
    events
}

#[test]
fn new_world_is_empty() {
    let mut world = VoxelWorld::new(123);
    assert_eq!(world.seed(), 123);
    assert_eq!(world.next_id(), 1);
    assert_eq!(world.player_count(), 0);
    assert!(world.pending_lookups().is_empty());
    assert!(world.take_events().is_empty());
    assert!(world.take_requests().is_empty());
    assert!(world.take_saves().is_empty());
    assert!(world.tick(&Vec::new(), Vec::new()).is_empty());
}

#[test]
fn players_get_ascending_numbers_from_one() {
    let mut world = VoxelWorld::new(0);
    assert_eq!(world.add_player(), 1);
    assert_eq!(world.add_player(), 2);
    world.remove_player(1);
    assert_eq!(world.add_player(), 3);
    assert_eq!(world.player_count(), 2);
    assert!(world.player(1).is_none());
    assert_eq!(world.player(2).unwrap().id, 2);
    assert_eq!(world.player(3).unwrap().id, 3);
    world.remove_player(99);
    assert_eq!(world.player_count(), 2);
}

#[test]
fn newcomer_stands_at_height_sixty_without_anchor() {
    let mut world = VoxelWorld::new(0);
    let id = world.add_player();
    let state = &world.player(id).unwrap().state;
    assert_eq!(state.pos, vec3(0.0, 60.0, 0.0));
    assert_eq!(state.look, vec3(0.0, 0.0, 0.0));
    assert_eq!(state.input, PlayerInput::default());
    assert_eq!(state.chunk_anchor, None);
    assert_eq!(state.loaded_chunks.len(), 0);
    let fresh = PlayerState::default();
    assert_eq!(fresh.pos, state.pos);
    assert_eq!(fresh.chunk_anchor, None);
}

#[test]
fn execute_overwrites_the_input_and_ignores_strangers() {
    let mut world = VoxelWorld::new(0);
    let id = world.add_player();
    world.execute(WorldCommand::PlayerMove { id, input: walking() });
    assert_eq!(world.player(id).unwrap().state.input, walking());
    world.execute(WorldCommand::PlayerMove { id, input: idle() });
    assert_eq!(world.player(id).unwrap().state.input, idle());
    world.execute(WorldCommand::PlayerMove { id: 42, input: walking() });
    assert_eq!(world.player_count(), 1);
    assert_eq!(world.player(id).unwrap().state.input, idle());
}

#[test]
fn input_integration_moves_who_asks_and_turns_everyone() {
    let mut world = VoxelWorld::new(0);
    let a = world.add_player();
    let b = world.add_player();
    let c = world.add_player();
    world.execute(WorldCommand::PlayerMove { id: a, input: idle() });
    world.execute(WorldCommand::PlayerMove { id: b, input: walking() });
    world.execute(WorldCommand::PlayerMove { id: c, input: walking() });
    assert_eq!(
        world.moving_players(),
        vec![
            MoveRequest { id: b, pos: vec3(0.0, 60.0, 0.0), input: walking() },
            MoveRequest { id: c, pos: vec3(0.0, 60.0, 0.0), input: walking() },
        ]
    );
    world.process_player_inputs(&vec![
        PlayerAdvance { id: a, pos: vec3(9.0, 9.0, 9.0) },
        PlayerAdvance { id: b, pos: vec3(1.0, 60.0, 0.0) },
        PlayerAdvance { id: b, pos: vec3(2.0, 60.0, 0.0) },
    ]);
    assert_eq!(world.player(a).unwrap().state.pos, vec3(0.0, 60.0, 0.0));
    assert_eq!(world.player(a).unwrap().state.look, vec3(0.0, 0.0, -1.0));
    assert_eq!(world.player(b).unwrap().state.pos, vec3(1.0, 60.0, 0.0));
    assert_eq!(world.player(c).unwrap().state.pos, vec3(0.0, 60.0, 0.0));
    assert_eq!(
        world.take_events(),
        vec![
            WorldEvent::PlayerMoved { id: b, pos: vec3(1.0, 60.0, 0.0), look: vec3(0.0, 0.0, -1.0) },
            WorldEvent::PlayerMoved { id: c, pos: vec3(0.0, 60.0, 0.0), look: vec3(0.0, 0.0, -1.0) },
        ]
    );
    assert!(world.take_events().is_empty());
}

#[test]
fn negative_zero_direction_asks_for_no_movement() {
    let mut world = VoxelWorld::new(0);
    let id = world.add_player();
    let input = PlayerInput { dir: vec3(-0.0, 0.0, -0.0), look: vec3(1.0, 0.0, 0.0), sprint: true };
    world.execute(WorldCommand::PlayerMove { id, input });
    assert!(world.moving_players().is_empty());
    world.process_player_inputs(&vec![PlayerAdvance { id, pos: vec3(5.0, 5.0, 5.0) }]);
    assert!(world.take_events().is_empty());
    assert_eq!(world.player(id).unwrap().state.pos, vec3(0.0, 60.0, 0.0));
    assert_eq!(world.player(id).unwrap().state.look, vec3(1.0, 0.0, 0.0));
}

#[test]
fn first_sync_anchors_and_looks_up_every_chunk_in_range_nearest_first() {
    let mut world = VoxelWorld::new(0);
    assert!(world.set_distances(2, 2));
    let id = world.add_player();
    world.sync_player_chunks();
    assert_eq!(world.player(id).unwrap().state.chunk_anchor, Some(at(0, 1, 0)));
    let lookups = world.pending_lookups().clone();
    assert_eq!(lookups.len(), 125);
    assert_eq!(lookups[0], ChunkLookup { for_player: id, pos: at(0, 1, 0) });
    for pair in lookups.windows(2) {
        assert!(
            pair[0].pos.distance_squared(at(0, 1, 0)) <= pair[1].pos.distance_squared(at(0, 1, 0))
        );
    }
    assert!(lookups.iter().all(|l| l.for_player == id && chunk_in_range(at(0, 1, 0), l.pos, 2)));
    assert!(world.take_events().is_empty());
    world.sync_player_chunks();
    assert_eq!(world.pending_lookups().len(), 125);
}

#[test]
fn unanswered_lookups_become_generation_jobs_once() {
    let mut world = VoxelWorld::new(0);
    world.set_distances(1, 0);
    let a = world.add_player();
    let b = world.add_player();
    world.sync_player_chunks();
    assert_eq!(world.pending_lookups().len(), 54);
    world.resolve_lookups(Vec::new());
    assert!(world.pending_lookups().is_empty());
    assert!(world.take_events().is_empty());
    let jobs = world.take_requests();
    assert_eq!(jobs.len(), 27);
    assert_eq!(jobs[0], at(0, 1, 0));
    world.poll_terrain(generate(&jobs));
    let events = world.take_events();
    assert_eq!(events.len(), 54);
    assert_eq!(loaded(&events, a), jobs);
    assert_eq!(loaded(&events, b), jobs);
    assert_eq!(events[0], WorldEvent::ChunkLoaded {
        for_player: a,
        pos: jobs[0],
        data: generate(&jobs[..1]).remove(0).data,
    });
    match (&events[0], &events[1]) {
        (
            WorldEvent::ChunkLoaded { for_player: first, data: first_data, .. },
            WorldEvent::ChunkLoaded { for_player: second, data: second_data, .. },
        ) => {
            assert_eq!((*first, *second), (a, b));
            assert!(Arc::ptr_eq(first_data, second_data));
        }
        _ => panic!("Wrong events"),
    }
    assert_eq!(world.player(a).unwrap().state.loaded_chunks.len(), 27);
    world.poll_terrain(generate(&jobs));
    assert!(world.take_events().is_empty());
}

#[test]
fn cached_chunk_is_loaded_at_once() {
    let mut world = VoxelWorld::new(0);
    world.set_distances(0, 0);
    let a = world.add_player();
    full_tick(&mut world);
    let b = world.add_player();
    world.begin_tick(&Vec::new());
    assert_eq!(world.pending_lookups(), &vec![ChunkLookup { for_player: b, pos: at(0, 1, 0) }]);
    let events = world.finish_tick(Vec::new(), Vec::new());
    assert_eq!(loaded(&events, b), vec![at(0, 1, 0)]);
    assert!(loaded(&events, a).is_empty());
    assert!(world.take_requests().is_empty());
}

#[test]
fn stored_chunk_is_preferred_and_cached() {
    let mut world = VoxelWorld::new(0);
    world.set_distances(0, 0);
    let a = world.add_player();
    world.begin_tick(&Vec::new());
    let stored = Arc::new(VoxelBuffer::new(voxel_server::voxel::UVec3::splat(2)));
    let events = world.finish_tick(vec![Some(stored.clone())], Vec::new());
    assert_eq!(
        events,
        vec![WorldEvent::ChunkLoaded { for_player: a, pos: at(0, 1, 0), data: stored.clone() }]
    );
    assert!(world.take_requests().is_empty());
    let b = world.add_player();
    world.begin_tick(&Vec::new());
    let events = world.finish_tick(vec![None], Vec::new());
    match &events[..] {
        [WorldEvent::ChunkLoaded { for_player, data, .. }] => {
            assert_eq!(*for_player, b);
            assert!(Arc::ptr_eq(data, &stored));
        }
        other => panic!("Wrong events: {:?}", other),
    }
}

#[test]
fn lookup_of_a_player_who_left_loads_nothing() {
    let mut world = VoxelWorld::new(0);
    world.set_distances(0, 0);
    let a = world.add_player();
    world.begin_tick(&Vec::new());
    world.remove_player(a);
    let stored = Arc::new(VoxelBuffer::new(voxel_server::voxel::UVec3::splat(1)));
    assert!(world.finish_tick(vec![Some(stored)], Vec::new()).is_empty());
    assert!(world.pending_lookups().is_empty());
}

#[test]
fn scenario_chunks_around_the_origin_are_loaded_nearest_first() {
    let mut world = VoxelWorld::new(123);
    world.set_distances(3, 2);
    let alice = world.add_player();
    assert_eq!(alice, 1);
    place(&mut world, alice, vec3(0.0, 0.0, 0.0));
    let events = full_tick(&mut world);
    let chunks = loaded(&events, alice);
    assert_eq!(chunks.len(), 7 * 7 * 7);
    assert_eq!(chunks[0], at(0, 0, 0));
    for pair in chunks.windows(2) {
        assert!(
            pair[0].distance_squared(at(0, 0, 0)) <= pair[1].distance_squared(at(0, 0, 0))
        );
    }
    for x in -4..=4 {
        for y in -4..=4 {
            for z in -4..=4 {
                let c = at(x, y, z);
                assert_eq!(chunks.contains(&c), chunk_in_range(at(0, 0, 0), c, 3));
            }
        }
    }
    assert!(unloaded(&events, alice).is_empty());
    assert!(full_tick(&mut world).is_empty());
}

#[test]
fn scenario_crossing_a_chunk_boundary_loads_the_new_face() {
    let mut world = VoxelWorld::new(123);
    world.set_distances(2, 2);
    let id = world.add_player();
    place(&mut world, id, vec3(0.0, 0.0, 0.0));
    full_tick(&mut world);
    place(&mut world, id, vec3(40.0, 0.0, 0.0));
    let events = full_tick(&mut world);
    assert_eq!(world.player(id).unwrap().state.chunk_anchor, Some(at(1, 0, 0)));
    assert!(unloaded(&events, id).is_empty());
    let fresh = loaded(&events, id);
    assert_eq!(fresh.len(), 25);
    assert!(fresh.iter().all(|c| c.x == 3 && c.y.abs() <= 2 && c.z.abs() <= 2));
    assert_eq!(fresh[0], at(3, 0, 0));
    assert_eq!(world.player(id).unwrap().state.loaded_chunks.len(), 150);
}

#[test]
fn scenario_moving_far_unloads_what_is_beyond_the_margin() {
    let mut world = VoxelWorld::new(123);
    world.set_distances(2, 2);
    let id = world.add_player();
    place(&mut world, id, vec3(0.0, 0.0, 0.0));
    let first = loaded(&full_tick(&mut world), id);
    place(&mut world, id, vec3(5.0 * 32.0 + 1.0, 0.0, 0.0));
    let events = full_tick(&mut world);
    let anchor = at(5, 0, 0);
    let gone = unloaded(&events, id);
    let expected: Vec<ChunkCoord> =
        first.iter().copied().filter(|c| !chunk_in_range(anchor, *c, 4)).collect();
    assert_eq!(gone, expected);
    assert_eq!(gone.len(), 75);
    assert!(gone.iter().all(|c| c.x <= 0));
    let fresh = loaded(&events, id);
    assert_eq!(fresh.len(), 125);
    assert!(fresh.iter().all(|c| chunk_in_range(anchor, *c, 2) && !first.contains(c)));
    assert!(fresh.iter().all(|c| !gone.contains(c)));
    let first_unload = events.iter().position(|e| matches!(e, WorldEvent::ChunkUnloaded { .. }));
    let first_load = events.iter().position(|e| matches!(e, WorldEvent::ChunkLoaded { .. }));
    assert!(first_unload.unwrap() < first_load.unwrap());
    let state = &world.player(id).unwrap().state;
    assert_eq!(state.loaded_chunks.len(), 125 - 75 + 125);
    for c in &gone {
        assert!(!state.loaded_chunks.contains(*c));
    }
}

#[test]
fn without_margin_the_far_face_is_unloaded() {
    let mut world = VoxelWorld::new(123);
    world.set_distances(2, 0);
    let id = world.add_player();
    place(&mut world, id, vec3(0.0, 0.0, 0.0));
    full_tick(&mut world);
    place(&mut world, id, vec3(32.0, 0.0, 0.0));
    let events = full_tick(&mut world);
    let gone = unloaded(&events, id);
    assert_eq!(gone.len(), 25);
    assert!(gone.iter().all(|c| c.x == -2));
    assert_eq!(loaded(&events, id).len(), 25);
}

#[test]
fn unload_is_idempotent() {
    let mut world = VoxelWorld::new(123);
    world.set_distances(1, 0);
    let id = world.add_player();
    place(&mut world, id, vec3(0.0, 0.0, 0.0));
    full_tick(&mut world);
    place(&mut world, id, vec3(320.0, 0.0, 0.0));
    world.sync_player_chunks();
    assert_eq!(unloaded(&world.take_events(), id).len(), 27);
    assert_eq!(world.player(id).unwrap().state.loaded_chunks.len(), 0);
    world.sync_player_chunks();
    assert!(world.take_events().is_empty());
    world.sync_player_chunks();
    assert!(world.take_events().is_empty());
}

#[test]
fn unloaded_chunks_are_saved_if_cached() {
    let mut world = VoxelWorld::new(123);
    world.set_distances(0, 0);
    let id = world.add_player();
    place(&mut world, id, vec3(0.0, 0.0, 0.0));
    let events = full_tick(&mut world);
    let data = match &events[..] {
        [WorldEvent::ChunkLoaded { data, .. }] => data.clone(),
        other => panic!("Wrong events: {:?}", other),
    };
    place(&mut world, id, vec3(100.0, 0.0, 0.0));
    world.begin_tick(&Vec::new());
    let files = world.take_saves();
    assert_eq!(files.len(), 1);
    assert_eq!(files[0].pos, at(0, 0, 0));
    let back = world.read_stored(&vec![Some(files[0].bytes.clone()), None]);
    assert_eq!(**back[0].as_ref().unwrap(), *data);
    assert!(back[1].is_none());
    assert!(world.take_saves().is_empty());
    world.finish_tick(Vec::new(), Vec::new());
}

#[test]
fn distances_must_not_be_negative() {
    let mut world = VoxelWorld::new(0);
    assert!(!world.set_distances(-1, 0));
    assert!(!world.set_distances(0, -1));
    assert!(!world.set_distances(i32::MAX, 1));
    assert!(world.set_distances(i32::MAX - 1, 1));
    assert!(world.set_distances(0, 0));
}

#[test]
fn tick_without_store_runs_both_halves() {
    let mut world = VoxelWorld::new(0);
    world.set_distances(0, 0);
    let id = world.add_player();
    world.execute(WorldCommand::PlayerMove { id, input: walking() });
    let events = world.tick(&vec![PlayerAdvance { id, pos: vec3(1.0, 1.0, 1.0) }], Vec::new());
    assert_eq!(
        events,
        vec![WorldEvent::PlayerMoved { id, pos: vec3(1.0, 1.0, 1.0), look: vec3(0.0, 0.0, -1.0) }]
    );
    let jobs = world.take_requests();
    assert_eq!(jobs, vec![at(0, 0, 0)]);
    let events = world.tick(&Vec::new(), generate(&jobs));
    assert_eq!(events.len(), 2);
    assert_eq!(loaded(&events, id), vec![at(0, 0, 0)]);
}

#[test]
fn events_explain_the_loaded_sets() {
    let mut world = VoxelWorld::new(5);
    world.set_distances(1, 1);
    let a = world.add_player();
    let b = world.add_player();
    let mut sets: Vec<std::collections::HashSet<ChunkCoord>> = vec![Default::default(); 2];
    let route = [
        (vec3(0.0, 0.0, 0.0), vec3(100.0, 0.0, 0.0)),
        (vec3(40.0, 0.0, 0.0), vec3(100.0, 0.0, 0.0)),
        (vec3(200.0, 70.0, -90.0), vec3(70.0, 0.0, 0.0)),
        (vec3(-500.0, 0.0, 0.0), vec3(-500.0, 0.0, 32.0)),
        (vec3(0.0, 0.0, 0.0), vec3(0.0, 0.0, 0.0)),
    ];
    let mut jobs: Vec<ChunkCoord> = Vec::new();
    for (pos_a, pos_b) in route {
        for _ in 0..3 {
            world.execute(WorldCommand::PlayerMove { id: a, input: walking() });
            world.execute(WorldCommand::PlayerMove { id: b, input: walking() });
            world.begin_tick(&vec![
                PlayerAdvance { id: a, pos: pos_a },
                PlayerAdvance { id: b, pos: pos_b },
            ]);
            let ready = generate(&jobs);
            let events = world.finish_tick(Vec::new(), ready);
            jobs = world.take_requests();
            for event in &events {
                match event {
                    WorldEvent::ChunkLoaded { for_player, pos, .. } => {
                        assert!(sets[(*for_player - 1) as usize].insert(*pos));
                    }
                    WorldEvent::ChunkUnloaded { for_player, pos } => {
                        assert!(sets[(*for_player - 1) as usize].remove(pos));
                    }
                    WorldEvent::PlayerMoved { .. } => {}
                }
            }
            for (id, set) in [(a, &sets[0]), (b, &sets[1])] {
                let loaded = &world.player(id).unwrap().state.loaded_chunks;
                assert_eq!(loaded.len(), set.len());
                for i in 0..loaded.len() {
                    assert!(set.contains(&loaded.get(i)));
                }
            }
        }
    }
    assert_eq!(sets[0].len(), 27);
    assert_eq!(sets[1].len(), 27);
}

#[test]
fn every_unloaded_cached_chunk_gets_its_file_in_order() {
    let mut world = VoxelWorld::new(123);
    world.set_distances(1, 0);
    let id = world.add_player();
    place(&mut world, id, vec3(0.0, 0.0, 0.0));
    let first = loaded(&full_tick(&mut world), id);
    assert_eq!(first.len(), 27);
    place(&mut world, id, vec3(32.0 * 50.0, 0.0, 0.0));
    world.process_player_inputs(&Vec::new());
    world.sync_player_chunks();
    let gone = unloaded(&world.take_events(), id);
    assert_eq!(gone, first);
    assert!(world.take_saves().is_empty());
    world.save_evicted();
    let files = world.take_saves();
    assert_eq!(files.len(), 27);
    let generator = TerrainGenerator::new(123);
    for (file, pos) in files.iter().zip(gone.iter()) {
        assert_eq!(file.pos, *pos);
        let back = world.read_stored(&vec![Some(file.bytes.clone())]);
        assert_eq!(
            **back[0].as_ref().unwrap(),
            generator.generate(*pos, &ColumnHeights::flat(20))
        );
    }
    world.save_evicted();
    assert!(world.take_saves().is_empty());
}

#[test]
fn no_chunk_is_sent_or_dropped_twice_in_a_tick() {
    let mut world = VoxelWorld::new(9);
    world.set_distances(2, 1);
    let a = world.add_player();
    let b = world.add_player();
    let mut jobs: Vec<ChunkCoord> = Vec::new();
    for step in 0..12 {
        let x = (step as f32) * 70.0;
        world.execute(WorldCommand::PlayerMove { id: a, input: walking() });
        world.execute(WorldCommand::PlayerMove { id: b, input: walking() });
        world.begin_tick(&vec![
            PlayerAdvance { id: a, pos: vec3(x, 0.0, 0.0) },
            PlayerAdvance { id: b, pos: vec3(-x, 40.0, 0.0) },
        ]);
        let events = world.finish_tick(Vec::new(), generate(&jobs));
        jobs = world.take_requests();
        let mut seen = std::collections::HashSet::new();
        let mut moves = 0;
        for event in &events {
            match event {
                WorldEvent::ChunkLoaded { for_player, pos, .. } => {
                    assert!(seen.insert((*for_player, *pos)));
                }
                WorldEvent::ChunkUnloaded { for_player, pos } => {
                    assert!(seen.insert((*for_player, *pos)));
                }
                WorldEvent::PlayerMoved { .. } => moves += 1,
            }
        }
        assert_eq!(moves, 2);
    }
}
