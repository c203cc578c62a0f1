use std::sync::Arc;
use voxel_server::chunk::ChunkCoord;
use voxel_server::math::{Scalar, Vec3};
use voxel_server::message::{ClientMessage, ServerMessage, WireMessage};
use voxel_server::player::PlayerInput;
use voxel_server::voxel::{UVec3, Voxel, VoxelBuffer};
use voxel_server::wire::WireError;

fn vec3(x: f32, y: f32, z: f32) -> Vec3 {
    Vec3 { x: Scalar(x.to_bits()), y: Scalar(y.to_bits()), z: Scalar(z.to_bits()) }
}

fn same(a: &ServerMessage, b: &ServerMessage) -> bool {
    match (a, b) {
        (
            ServerMessage::ConnectAck { id: id_a, name: name_a },
            ServerMessage::ConnectAck { id: id_b, name: name_b },
        ) => id_a == id_b && name_a == name_b,
        (
            ServerMessage::PlayerJoined { id: id_a, name: name_a },
            ServerMessage::PlayerJoined { id: id_b, name: name_b },
        ) => id_a == id_b && name_a == name_b,
        (
            ServerMessage::PlayerLeft { id: id_a, name: name_a },
            ServerMessage::PlayerLeft { id: id_b, name: name_b },
        ) => id_a == id_b && name_a == name_b,
        (
            ServerMessage::PositionUpdate { id: id_a, pos: pos_a, look: look_a },
            ServerMessage::PositionUpdate { id: id_b, pos: pos_b, look: look_b },
        ) => id_a == id_b && pos_a == pos_b && look_a == look_b,
        (
            ServerMessage::ChunkLoaded { pos: pos_a, data: data_a },
            ServerMessage::ChunkLoaded { pos: pos_b, data: data_b },
        ) => pos_a == pos_b && data_a.size == data_b.size && data_a.voxels == data_b.voxels,
        (ServerMessage::ChunkUnloaded { pos: pos_a }, ServerMessage::ChunkUnloaded { pos: pos_b }) => {
            pos_a == pos_b
        }
        _ => false,
    }
}

fn round_trip(msg: ServerMessage) {
    let bytes = msg.serialize().unwrap();
    let back = ServerMessage::deserialize(&bytes).unwrap();
    assert!(same(&msg, &back), "{:?} came back as {:?}", msg, back);
}

#[test]
fn client_connect_is_variant_then_text() {
    let bytes = ClientMessage::Connect { name: "Alice".to_string() }.serialize().unwrap();
    assert_eq!(bytes, vec![0, 5, b'A', b'l', b'i', b'c', b'e']);
}

#[test]
fn client_connect_text_matches_the_codec_crate() {
    let name = "Zoë and the voxels";
    let bytes = ClientMessage::Connect { name: name.to_string() }.serialize().unwrap();
    let mut expected = postcard::to_allocvec(&0u32).unwrap();
    expected.extend(postcard::to_allocvec(name).unwrap());
    assert_eq!(bytes, expected);
}

#[test]
fn client_input_round_trips() {
    let input = PlayerInput { dir: vec3(1.0, 0.0, -1.0), look: vec3(0.0, 0.5, -0.5), sprint: true };
    let bytes = ClientMessage::Input { input }.serialize().unwrap();
    assert_eq!(bytes.len(), 1 + 12 + 12 + 1);
    assert_eq!(bytes[0], 1);
    assert_eq!(&bytes[1..5], &1.0f32.to_le_bytes());
    assert_eq!(bytes[25], 1);
    assert_eq!(ClientMessage::deserialize(&bytes).unwrap(), ClientMessage::Input { input });
}

#[test]
fn client_input_matches_the_codec_crate() {
    let input = PlayerInput { dir: vec3(1.0, 2.0, 3.0), look: vec3(-1.0, 0.0, 0.25), sprint: false };
    let bytes = ClientMessage::Input { input }.serialize().unwrap();
    let expected = postcard::to_allocvec(&(
        1u32,
        (1.0f32, 2.0f32, 3.0f32),
        (-1.0f32, 0.0f32, 0.25f32),
        false,
    ))
    .unwrap();
    assert_eq!(bytes, expected);
}

#[test]
fn large_ids_take_several_bytes() {
    let bytes = ServerMessage::ConnectAck { id: 300, name: String::new() }.serialize().unwrap();
    assert_eq!(bytes, vec![0, 0xac, 0x02, 0]);
    let bytes = ServerMessage::ConnectAck { id: u32::MAX, name: String::new() }.serialize().unwrap();
    assert_eq!(bytes, vec![0, 0xff, 0xff, 0xff, 0xff, 0x0f, 0]);
    assert_eq!(&bytes[1..6], &postcard::to_allocvec(&u32::MAX).unwrap()[..]);
}

#[test]
fn server_messages_round_trip() {
    round_trip(ServerMessage::ConnectAck { id: 1, name: "Alice".to_string() });
    round_trip(ServerMessage::PlayerJoined { id: 128, name: "Bob".to_string() });
    round_trip(ServerMessage::PlayerLeft { id: u32::MAX, name: "long ".repeat(100) });
    round_trip(ServerMessage::PositionUpdate {
        id: 16384,
        pos: vec3(1.0, 60.0, -3.5),
        look: vec3(0.0, 0.0, 1.0),
    });
    round_trip(ServerMessage::ChunkUnloaded { pos: ChunkCoord { x: -1, y: 0, z: i32::MAX } });
    round_trip(ServerMessage::ChunkUnloaded { pos: ChunkCoord { x: i32::MIN, y: -64, z: 63 } });
}

#[test]
fn chunk_loaded_round_trips() {
    let mut buffer = VoxelBuffer::new(UVec3 { x: 2, y: 3, z: 4 });
    buffer.set(UVec3 { x: 1, y: 2, z: 3 }, Voxel(2));
    buffer.set(UVec3 { x: 0, y: 0, z: 0 }, Voxel(300));
    buffer.set(UVec3 { x: 1, y: 0, z: 0 }, Voxel(u16::MAX));
    round_trip(ServerMessage::ChunkLoaded {
        pos: ChunkCoord { x: 1, y: -2, z: 3 },
        data: Arc::new(buffer),
    });
}

#[test]
fn chunk_loaded_matches_the_codec_crate() {
    let mut buffer = VoxelBuffer::new(UVec3 { x: 2, y: 1, z: 2 });
    buffer.set(UVec3 { x: 1, y: 0, z: 1 }, Voxel(1000));
    let bytes = ServerMessage::ChunkLoaded {
        pos: ChunkCoord { x: -1, y: 70, z: -70 },
        data: Arc::new(buffer),
    }
    .serialize()
    .unwrap();
    let expected = postcard::to_allocvec(&(
        4u32,
        (-1i32, 70i32, -70i32),
        (2u32, 1u32, 2u32),
        vec![0u16, 0, 0, 1000],
    ))
    .unwrap();
    assert_eq!(bytes, expected);
}

#[test]
fn chunk_unloaded_folds_signed_coordinates() {
    let bytes = ServerMessage::ChunkUnloaded { pos: ChunkCoord { x: 0, y: -1, z: 1 } }
        .serialize()
        .unwrap();
    assert_eq!(bytes, vec![5, 0, 1, 2]);
    let bytes = ServerMessage::ChunkUnloaded { pos: ChunkCoord { x: -64, y: 64, z: i32::MIN } }
        .serialize()
        .unwrap();
    assert_eq!(bytes, vec![5, 127, 128, 1, 0xff, 0xff, 0xff, 0xff, 0x0f]);
}

#[test]
fn what_the_codec_crate_writes_is_read() {
    let bytes = postcard::to_allocvec(&(1u32, 77u32, "Bob")).unwrap();
    match ServerMessage::deserialize(&bytes).unwrap() {
        ServerMessage::PlayerJoined { id, name } => {
            assert_eq!(id, 77);
            assert_eq!(name, "Bob");
        }
        other => panic!("Wrong message type: {:?}", other),
    }
}

#[test]
fn stream_empty_and_truncated_input_is_an_error() {
    assert_eq!(ClientMessage::deserialize(&[]), Err(WireError::UnexpectedEof));
    assert_eq!(ClientMessage::deserialize(&[0]), Err(WireError::UnexpectedEof));
    assert_eq!(ClientMessage::deserialize(&[0, 3, b'a']), Err(WireError::UnexpectedEof));
    assert_eq!(ClientMessage::deserialize(&[1, 0, 0, 0]), Err(WireError::UnexpectedEof));
    assert_eq!(ClientMessage::deserialize(&[0x80]), Err(WireError::UnexpectedEof));
    let full = ServerMessage::ChunkLoaded {
        pos: ChunkCoord { x: 0, y: 0, z: 0 },
        data: Arc::new(VoxelBuffer::new(UVec3 { x: 2, y: 2, z: 2 })),
    }
    .serialize()
    .unwrap();
    for cut in 0..full.len() {
        assert!(matches!(
            ServerMessage::deserialize(&full[..cut]),
            Err(WireError::UnexpectedEof)
        ));
    }
}

#[test]
fn stream_unknown_variant_is_an_error() {
    assert_eq!(ClientMessage::deserialize(&[2]), Err(WireError::UnknownMessageType));
    assert_eq!(ClientMessage::deserialize(&[0xff, 0x01]), Err(WireError::UnknownMessageType));
    assert!(matches!(ServerMessage::deserialize(&[6]), Err(WireError::UnknownMessageType)));
}

#[test]
fn stream_invalid_utf8_is_an_error() {
    assert_eq!(ClientMessage::deserialize(&[0, 2, 0xc3, 0x28]), Err(WireError::InvalidUtf8));
}

#[test]
fn stream_bad_flag_is_an_error() {
    let mut bytes = ClientMessage::Input {
        input: PlayerInput { dir: vec3(0.0, 0.0, 0.0), look: vec3(0.0, 0.0, 0.0), sprint: false },
    }
    .serialize()
    .unwrap();
    bytes[25] = 2;
    assert_eq!(ClientMessage::deserialize(&bytes), Err(WireError::BadBool));
}

#[test]
fn stream_overlong_number_is_an_error() {
    assert_eq!(
        ClientMessage::deserialize(&[0x80, 0x80, 0x80, 0x80, 0x80, 0x00]),
        Err(WireError::BadVarint)
    );
    assert_eq!(
        ClientMessage::deserialize(&[0xff, 0xff, 0xff, 0xff, 0x10]),
        Err(WireError::BadVarint)
    );
    assert!(postcard::from_bytes::<u32>(&[0xff, 0xff, 0xff, 0xff, 0x10]).is_err());
    assert!(matches!(
        ServerMessage::deserialize(&[4, 0, 0, 0, 1, 1, 1, 1, 0xff, 0xff, 0x04]),
        Err(WireError::BadVarint)
    ));
}

#[test]
fn stream_accepts_padded_numbers_as_the_codec_crate_does() {
    assert_eq!(postcard::from_bytes::<u32>(&[0x80, 0x00]).unwrap(), 0);
    assert_eq!(
        ClientMessage::deserialize(&[0x80, 0x00, 1, b'a']).unwrap(),
        ClientMessage::Connect { name: "a".to_string() }
    );
}

#[test]
fn stream_ignores_bytes_after_the_message() {
    let mut bytes = ServerMessage::ChunkUnloaded { pos: ChunkCoord { x: 1, y: 2, z: 3 } }
        .serialize()
        .unwrap();
    bytes.extend_from_slice(&[9, 9, 9]);
    assert!(same(
        &ServerMessage::deserialize(&bytes).unwrap(),
        &ServerMessage::ChunkUnloaded { pos: ChunkCoord { x: 1, y: 2, z: 3 } }
    ));
}

#[test]
fn extent_is_not_held_against_the_voxels() {
    let odd = VoxelBuffer { size: UVec3 { x: 9, y: 9, z: 9 }, voxels: vec![Voxel(1), Voxel(2)] };
    round_trip(ServerMessage::ChunkLoaded {
        pos: ChunkCoord { x: 0, y: 0, z: 0 },
        data: Arc::new(odd),
    });
}

#[test]
fn duplicate_shares_the_buffer() {
    let data = Arc::new(VoxelBuffer::new(UVec3 { x: 1, y: 1, z: 1 }));
    let msg = ServerMessage::ChunkLoaded { pos: ChunkCoord { x: 4, y: 5, z: 6 }, data: data.clone() };
    let copy = msg.duplicate();
    assert!(same(&msg, &copy));
    match copy {
        ServerMessage::ChunkLoaded { data: d, .. } => assert!(Arc::ptr_eq(&d, &data)),
        _ => panic!("Wrong message type"),
    }
}
