use std::sync::Arc;
use voxel_server::chunk::{chunk_in_range, ChunkCoord};
use voxel_server::events::WorldEvent;
use voxel_server::math::{Scalar, Vec3};
use voxel_server::message::{ClientMessage, ServerMessage, WireMessage};
use voxel_server::player::PlayerInput;
use voxel_server::server::{Channel, ClientInfo, Outgoing, Server};
use voxel_server::terrain::{ChunkPayload, ColumnHeights, TerrainGenerator};
use voxel_server::voxel::{UVec3, VoxelBuffer};
use voxel_server::world::PlayerAdvance;

fn at(x: i32, y: i32, z: i32) -> ChunkCoord {
    ChunkCoord::new(x, y, z)
}

fn vec3(x: f32, y: f32, z: f32) -> Vec3 {
    Vec3 { x: Scalar(x.to_bits()), y: Scalar(y.to_bits()), z: Scalar(z.to_bits()) }
}

fn float(s: Scalar) -> f32 {
    f32::from_bits(s.0)
}

fn connect(server: &mut Server, name: &str) -> (u32, Vec<Outgoing>) {
    let bytes = ClientMessage::Connect { name: name.to_string() }.serialize().unwrap();
    let (client, out) = server.on_stream(None, &bytes);
    (client.unwrap(), out)
}

fn input(dir: Vec3, look: Vec3, sprint: bool) -> Vec<u8> {
    ClientMessage::Input { input: PlayerInput { dir, look, sprint } }.serialize().unwrap()
}

fn generate(jobs: &[ChunkCoord]) -> Vec<ChunkPayload> {
    let generator = TerrainGenerator::new(123);
    jobs.iter()
        .map(|pos| ChunkPayload {
            pos: *pos,
            data: Arc::new(generator.generate(*pos, &ColumnHeights::flat(20))),
        })
        .collect()
}

fn joined(id: u32, name: &str) -> ServerMessage {
    ServerMessage::PlayerJoined { id, name: name.to_string() }
}

#[test]
fn scenario_alice_connects_and_is_sent_her_chunks() {
    let mut server = Server::new(123);
    assert_eq!(server.seed(), 123);
    assert!(server.set_distances(2, 2));
    let (alice, out) = connect(&mut server, "Alice");
    assert_eq!(alice, 1);
    assert_eq!(
        out,
        vec![Outgoing {
            to: 1,
            channel: Channel::Reply,
            message: ServerMessage::ConnectAck { id: 1, name: "Alice".to_string() },
        }]
    );
    assert_eq!(server.clients(), &vec![ClientInfo { id: 1, name: "Alice".to_string() }]);

    server.on_datagram(Some(alice), &input(vec3(1.0, 0.0, 0.0), vec3(0.0, 0.0, -1.0), false));
    server.begin_tick(&vec![PlayerAdvance { id: alice, pos: vec3(0.0, 0.0, 0.0) }]);
    assert_eq!(server.pending_lookups().len(), 125);
    let out = server.finish_tick(Vec::new(), Vec::new());
    assert_eq!(
        out,
        vec![Outgoing {
            to: alice,
            channel: Channel::Datagram,
            message: ServerMessage::PositionUpdate {
                id: alice,
                pos: vec3(0.0, 0.0, 0.0),
                look: vec3(0.0, 0.0, -1.0),
            },
        }]
    );
    server.on_datagram(Some(alice), &input(vec3(0.0, 0.0, 0.0), vec3(0.0, 0.0, -1.0), false));
    let jobs = server.take_requests();
    assert_eq!(jobs.len(), 125);

    server.begin_tick(&Vec::new());
    let out = server.finish_tick(Vec::new(), generate(&jobs));
    assert_eq!(out.len(), 125);
    let mut chunks = Vec::new();
    for o in &out {
        assert_eq!(o.to, alice);
        assert_eq!(o.channel, Channel::Reliable);
        match &o.message {
            ServerMessage::ChunkLoaded { pos, data } => {
                assert_eq!(data.size, UVec3::splat(32));
                chunks.push(*pos);
            }
            other => panic!("Wrong message type: {:?}", other),
        }
    }
    assert_eq!(chunks[0], at(0, 0, 0));
    for pair in chunks.windows(2) {
        assert!(
            pair[0].distance_squared(at(0, 0, 0)) <= pair[1].distance_squared(at(0, 0, 0))
        );
    }
    for x in -3..=3 {
        for y in -3..=3 {
            for z in -3..=3 {
                assert_eq!(chunks.contains(&at(x, y, z)), chunk_in_range(at(0, 0, 0), at(x, y, z), 2));
            }
        }
    }
}

#[test]
fn newcomer_gets_the_roster_and_the_others_get_the_newcomer() {
    let mut server = Server::new(0);
    connect(&mut server, "Alice");
    connect(&mut server, "Bob");
    let (carol, out) = connect(&mut server, "Carol");
    assert_eq!(carol, 3);
    assert_eq!(
        out,
        vec![
            Outgoing {
                to: 3,
                channel: Channel::Reply,
                message: ServerMessage::ConnectAck { id: 3, name: "Carol".to_string() },
            },
            Outgoing { to: 3, channel: Channel::Reliable, message: joined(1, "Alice") },
            Outgoing { to: 3, channel: Channel::Reliable, message: joined(2, "Bob") },
            Outgoing { to: 1, channel: Channel::Reliable, message: joined(3, "Carol") },
            Outgoing { to: 2, channel: Channel::Reliable, message: joined(3, "Carol") },
        ]
    );
    assert_eq!(server.client_count(), 3);
    assert_eq!(server.world().player_count(), 3);
}

#[test]
fn scenario_second_player_walks_ten_units_in_a_second() {
    let mut server = Server::new(0);
    server.set_distances(0, 0);
    let (one, _) = connect(&mut server, "One");
    let (two, _) = connect(&mut server, "Two");
    let look = vec3(0.0, -0.5, -2.0);
    server.on_datagram(Some(two), &input(vec3(1.0, 0.0, 0.0), look, false));
    let dt: f32 = 1.0 / 60.0;
    let speed: f32 = 10.0;
    let start = server.world().player(two).unwrap().state.pos;
    for _ in 0..60 {
        let movers = server.moving_players();
        assert_eq!(movers.len(), 1);
        assert_eq!(movers[0].id, two);
        let mut advanced = Vec::new();
        for m in &movers {
            let (lx, lz) = (float(m.input.look.x), float(m.input.look.z));
            let len = (lx * lx + lz * lz).sqrt();
            let (fx, fz) = (lx / len, lz / len);
            let (dx, dy, dz) = (float(m.input.dir.x), float(m.input.dir.y), float(m.input.dir.z));
            let (rx, rz) = (-fz, fx);
            let step = speed * dt;
            advanced.push(PlayerAdvance {
                id: m.id,
                pos: vec3(
                    float(m.pos.x) + (fx * dx + rx * dz) * step,
                    float(m.pos.y) + dy * step,
                    float(m.pos.z) + (fz * dx + rz * dz) * step,
                ),
            });
        }
        server.begin_tick(&advanced);
        let out = server.finish_tick(Vec::new(), Vec::new());
        let updates: Vec<&Outgoing> =
            out.iter().filter(|o| o.channel == Channel::Datagram).collect();
        assert_eq!(updates.len(), 2);
        assert_eq!((updates[0].to, updates[1].to), (one, two));
        for u in updates {
            match &u.message {
                ServerMessage::PositionUpdate { id, pos, look: l } => {
                    assert_eq!(*id, two);
                    assert_eq!(*pos, advanced[0].pos);
                    assert_eq!(*l, look);
                }
                other => panic!("Wrong message type: {:?}", other),
            }
        }
        server.take_requests();
    }
    let end = server.world().player(two).unwrap().state.pos;
    assert_eq!(float(end.x), float(start.x));
    assert_eq!(float(end.y), float(start.y));
    assert!((float(end.z) - (float(start.z) - 10.0)).abs() < 1.0e-3);
    assert_eq!(server.world().player(one).unwrap().state.pos, start);
}

#[test]
fn input_before_connect_and_malformed_bytes_are_dropped() {
    let mut server = Server::new(0);
    server.on_datagram(None, &input(vec3(1.0, 0.0, 0.0), vec3(0.0, 0.0, 1.0), false));
    let (client, out) = server.on_stream(None, &input(vec3(1.0, 0.0, 0.0), vec3(0.0, 0.0, 1.0), true));
    assert_eq!(client, None);
    assert!(out.is_empty());
    let (client, out) = server.on_stream(None, &[0xff, 0xff, 0xff]);
    assert_eq!(client, None);
    assert!(out.is_empty());
    assert_eq!(server.client_count(), 0);
    let (id, _) = connect(&mut server, "Alice");
    server.on_datagram(Some(id), &[1, 2, 3]);
    server.on_datagram(Some(id), &[]);
    assert_eq!(server.world().player(id).unwrap().state.input, PlayerInput::default());
    let (client, out) = server.on_stream(Some(id), &[0, 2, 0xc3, 0x28]);
    assert_eq!(client, Some(id));
    assert!(out.is_empty());
    assert_eq!(server.client_count(), 1);
}

#[test]
fn input_on_a_stream_or_as_a_datagram_sets_the_input() {
    let mut server = Server::new(0);
    let (id, _) = connect(&mut server, "Alice");
    let wanted = PlayerInput { dir: vec3(0.0, 1.0, 0.0), look: vec3(1.0, 0.0, 0.0), sprint: true };
    server.on_datagram(Some(id), &input(wanted.dir, wanted.look, wanted.sprint));
    assert_eq!(server.world().player(id).unwrap().state.input, wanted);
    let other = PlayerInput { dir: vec3(0.0, 0.0, 1.0), look: vec3(0.0, 0.0, 1.0), sprint: false };
    let (client, out) = server.on_stream(Some(id), &input(other.dir, other.look, other.sprint));
    assert_eq!(client, Some(id));
    assert!(out.is_empty());
    assert_eq!(server.world().player(id).unwrap().state.input, other);
    server.handle_message(ClientMessage::Input { input: wanted }, id);
    assert_eq!(server.world().player(id).unwrap().state.input, wanted);
    server.handle_message(ClientMessage::Connect { name: "x".to_string() }, id);
    assert_eq!(server.client_count(), 1);
    server.handle_message(ClientMessage::Input { input: other }, 77);
    assert_eq!(server.world().player(id).unwrap().state.input, wanted);
}

#[test]
fn disconnect_tells_everyone_who_remains() {
    let mut server = Server::new(0);
    let (alice, _) = connect(&mut server, "Alice");
    let (bob, _) = connect(&mut server, "Bob");
    let (carol, _) = connect(&mut server, "Carol");
    let out = server.on_close(Some(bob));
    let left = ServerMessage::PlayerLeft { id: bob, name: "Bob".to_string() };
    assert_eq!(
        out,
        vec![
            Outgoing { to: alice, channel: Channel::Reliable, message: left.clone() },
            Outgoing { to: carol, channel: Channel::Reliable, message: left },
        ]
    );
    assert!(!server.is_registered(bob));
    assert!(server.is_registered(alice));
    assert!(server.is_registered(carol));
    assert_eq!(server.client_count(), 2);
    assert!(server.world().player(bob).is_none());
    assert_eq!(server.world().player_count(), 2);
    assert!(server.on_close(Some(bob)).is_empty());
    assert!(server.remove_client(99).is_empty());
    assert!(server.on_close(None).is_empty());
    assert_eq!(server.client_count(), 2);
    let (dave, out) = connect(&mut server, "Dave");
    assert_eq!(dave, 4);
    assert_eq!(out.len(), 1 + 2 + 2);
}

#[test]
fn last_client_leaves_in_silence() {
    let mut server = Server::new(0);
    let (alice, _) = connect(&mut server, "Alice");
    assert!(server.remove_client(alice).is_empty());
    assert_eq!(server.client_count(), 0);
}

#[test]
fn movement_goes_to_all_and_chunks_to_their_player() {
    let mut server = Server::new(0);
    let (alice, _) = connect(&mut server, "Alice");
    let (bob, _) = connect(&mut server, "Bob");
    let moved = WorldEvent::PlayerMoved { id: bob, pos: vec3(1.0, 2.0, 3.0), look: vec3(0.0, 0.0, 1.0) };
    let update =
        ServerMessage::PositionUpdate { id: bob, pos: vec3(1.0, 2.0, 3.0), look: vec3(0.0, 0.0, 1.0) };
    assert_eq!(
        server.handle_event(&moved),
        vec![
            Outgoing { to: alice, channel: Channel::Datagram, message: update.clone() },
            Outgoing { to: bob, channel: Channel::Datagram, message: update },
        ]
    );
    let data = Arc::new(VoxelBuffer::new(UVec3::splat(2)));
    let loaded = WorldEvent::ChunkLoaded { for_player: bob, pos: at(1, 2, 3), data: data.clone() };
    let out = server.handle_event(&loaded);
    assert_eq!(
        out,
        vec![Outgoing {
            to: bob,
            channel: Channel::Reliable,
            message: ServerMessage::ChunkLoaded { pos: at(1, 2, 3), data: data.clone() },
        }]
    );
    let unloaded = WorldEvent::ChunkUnloaded { for_player: alice, pos: at(-1, 0, 0) };
    assert_eq!(
        server.handle_event(&unloaded),
        vec![Outgoing {
            to: alice,
            channel: Channel::Reliable,
            message: ServerMessage::ChunkUnloaded { pos: at(-1, 0, 0) },
        }]
    );
    let stray = WorldEvent::ChunkUnloaded { for_player: 9, pos: at(0, 0, 0) };
    assert!(server.handle_event(&stray).is_empty());
    let all = server.handle_events(&vec![loaded, stray, unloaded, moved]);
    assert_eq!(all.len(), 1 + 0 + 1 + 2);
    assert_eq!(all[0].to, bob);
    assert_eq!(all[1].to, alice);
    assert_eq!(all[2].channel, Channel::Datagram);
}

#[test]
fn saves_and_stored_chunks_pass_through_the_server() {
    let mut server = Server::new(0);
    server.set_distances(0, 0);
    let (id, _) = connect(&mut server, "Alice");
    server.begin_tick(&Vec::new());
    let jobs = server.take_requests();
    assert!(jobs.is_empty());
    server.finish_tick(Vec::new(), Vec::new());
    let jobs = server.take_requests();
    assert_eq!(jobs, vec![at(0, 1, 0)]);
    server.begin_tick(&Vec::new());
    let out = server.finish_tick(Vec::new(), generate(&jobs));
    assert_eq!(out.len(), 1);
    server.on_datagram(Some(id), &input(vec3(1.0, 0.0, 0.0), vec3(0.0, 0.0, 1.0), false));
    server.begin_tick(&vec![PlayerAdvance { id, pos: vec3(0.0, 600.0, 0.0) }]);
    let files = server.take_saves();
    assert_eq!(files.len(), 1);
    assert_eq!(files[0].pos, at(0, 1, 0));
    let stored = server.read_stored(&vec![Some(files[0].bytes.clone())]);
    assert!(stored[0].is_some());
    let out = server.finish_tick(stored, Vec::new());
    assert_eq!(out.len(), 3);
    assert_eq!(out[0].channel, Channel::Datagram);
    assert_eq!(out[1].message, ServerMessage::ChunkUnloaded { pos: at(0, 1, 0) });
    match &out[2].message {
        ServerMessage::ChunkLoaded { pos, .. } => assert_eq!(*pos, at(0, 18, 0)),
        other => panic!("Wrong message type: {:?}", other),
    }
}
