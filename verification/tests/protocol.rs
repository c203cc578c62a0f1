use voxel_server::math::{Scalar, Vec3};
use voxel_server::message::{ClientMessage, WireMessage};
use voxel_server::datagram::{Message, PlayerInput};
use voxel_server::wire::WireError;

fn scalar(v: f32) -> Scalar {
    Scalar(v.to_bits())
}

fn vec3(x: f32, y: f32, z: f32) -> Vec3 {
    Vec3 { x: scalar(x), y: scalar(y), z: scalar(z) }
}

#[test]
fn lib_test_connect_roundtrip() {
    let msg = Message::Connect {
        name: "Adam".to_string(),
    };

    let bytes = msg.serialize().unwrap();
    let decoded = Message::deserialize(&bytes).unwrap();

    match decoded {
        Message::Connect { name } => assert_eq!(name, "Adam"),
        _ => panic!("Wrong message type"),
    }
}

#[test]
fn message_test_connect_roundtrip() {
    let msg = ClientMessage::Connect {
        name: "Adam".to_string(),
    };

    let bytes = msg.serialize().unwrap();
    let decoded = ClientMessage::deserialize(&bytes).unwrap();

    match decoded {
        ClientMessage::Connect { name } => assert_eq!(name, "Adam"),
        _ => panic!("Wrong message type"),
    }
}

#[test]
fn datagram_connect_bytes_are_tag_length_text() {
    let bytes = Message::Connect { name: "Adam".to_string() }.serialize().unwrap();
    assert_eq!(bytes, vec![0x01, 4, b'A', b'd', b'a', b'm']);
}

#[test]
fn datagram_connect_ack_is_little_endian() {
    let bytes = Message::ConnectAck { client_id: 0x0102_0304 }.serialize().unwrap();
    assert_eq!(bytes, vec![0x02, 0x04, 0x03, 0x02, 0x01]);
    assert_eq!(
        Message::deserialize(&bytes).unwrap(),
        Message::ConnectAck { client_id: 0x0102_0304 }
    );
}

#[test]
fn datagram_player_joined_and_left_round_trip() {
    let joined = Message::PlayerJoined { client_id: 7, name: "Zoë".to_string() };
    let bytes = joined.serialize().unwrap();
    assert_eq!(bytes[0], 0x03);
    assert_eq!(&bytes[1..5], &[7, 0, 0, 0]);
    assert_eq!(bytes[5], 4);
    assert_eq!(Message::deserialize(&bytes).unwrap(), joined);

    let left = Message::PlayerLeft { client_id: u32::MAX, name: String::new() };
    let bytes = left.serialize().unwrap();
    assert_eq!(bytes, vec![0x04, 0xff, 0xff, 0xff, 0xff, 0]);
    assert_eq!(Message::deserialize(&bytes).unwrap(), left);
}

#[test]
fn datagram_heartbeat_and_disconnect_are_one_byte() {
    assert_eq!(Message::Heartbeat.serialize().unwrap(), vec![0x05]);
    assert_eq!(Message::Disconnect.serialize().unwrap(), vec![0x06]);
    assert_eq!(Message::deserialize(&[0x05]).unwrap(), Message::Heartbeat);
    assert_eq!(Message::deserialize(&[0x06]).unwrap(), Message::Disconnect);
}

#[test]
fn datagram_input_round_trips_bit_for_bit() {
    let input = PlayerInput {
        forward: scalar(1.0),
        right: scalar(-0.5),
        up: scalar(f32::NAN),
        sprint: true,
        camera_forward: vec3(0.0, -0.0, 1.0e-40),
    };
    let bytes = Message::Input { input }.serialize().unwrap();
    assert_eq!(bytes.len(), 26);
    assert_eq!(bytes[0], 0x07);
    assert_eq!(&bytes[1..5], &1.0f32.to_le_bytes());
    assert_eq!(bytes[13], 1);
    assert_eq!(Message::deserialize(&bytes).unwrap(), Message::Input { input });
}

#[test]
fn datagram_input_reads_any_nonzero_byte_as_sprint() {
    let mut bytes = Message::Input {
        input: PlayerInput {
            forward: scalar(0.0),
            right: scalar(0.0),
            up: scalar(0.0),
            sprint: false,
            camera_forward: vec3(0.0, 0.0, 0.0),
        },
    }
    .serialize()
    .unwrap();
    assert_eq!(bytes[13], 0);
    bytes[13] = 0x80;
    match Message::deserialize(&bytes).unwrap() {
        Message::Input { input } => assert!(input.sprint),
        _ => panic!("Wrong message type"),
    }
}

#[test]
fn datagram_position_update_round_trips() {
    let msg = Message::PositionUpdate {
        client_id: 3,
        x: scalar(1.5),
        y: scalar(60.0),
        z: scalar(-7.25),
        camera_forward: vec3(0.0, 0.0, -1.0),
    };
    let bytes = msg.serialize().unwrap();
    assert_eq!(bytes.len(), 29);
    assert_eq!(&bytes[5..9], &1.5f32.to_le_bytes());
    assert_eq!(Message::deserialize(&bytes).unwrap(), msg);
}

#[test]
fn datagram_ignores_bytes_after_the_message() {
    let mut bytes = Message::ConnectAck { client_id: 9 }.serialize().unwrap();
    bytes.extend_from_slice(&[1, 2, 3]);
    assert_eq!(Message::deserialize(&bytes).unwrap(), Message::ConnectAck { client_id: 9 });
}

#[test]
fn datagram_empty_input_is_an_error() {
    assert_eq!(Message::deserialize(&[]), Err(WireError::EmptyPacket));
}

#[test]
fn datagram_unknown_tag_is_an_error() {
    assert_eq!(Message::deserialize(&[0x00]), Err(WireError::UnknownMessageType));
    assert_eq!(Message::deserialize(&[0x09, 1, 2]), Err(WireError::UnknownMessageType));
    assert_eq!(Message::deserialize(&[0xff]), Err(WireError::UnknownMessageType));
}

#[test]
fn datagram_truncated_input_is_an_error() {
    assert_eq!(Message::deserialize(&[0x01]), Err(WireError::UnexpectedEof));
    assert_eq!(Message::deserialize(&[0x01, 3, b'a', b'b']), Err(WireError::UnexpectedEof));
    assert_eq!(Message::deserialize(&[0x02, 1, 2, 3]), Err(WireError::UnexpectedEof));
    assert_eq!(Message::deserialize(&[0x03, 1, 0, 0, 0]), Err(WireError::UnexpectedEof));
    assert_eq!(Message::deserialize(&[0x07; 25]), Err(WireError::UnexpectedEof));
    assert_eq!(Message::deserialize(&[0x08; 28]), Err(WireError::UnexpectedEof));
}

#[test]
fn datagram_invalid_utf8_is_an_error() {
    assert_eq!(Message::deserialize(&[0x01, 2, 0xc3, 0x28]), Err(WireError::InvalidUtf8));
    assert_eq!(
        Message::deserialize(&[0x04, 1, 0, 0, 0, 1, 0xff]),
        Err(WireError::InvalidUtf8)
    );
}

#[test]
fn datagram_long_name_keeps_the_low_byte_of_its_length() {
    let name = "x".repeat(300);
    let bytes = Message::Connect { name }.serialize().unwrap();
    assert_eq!(bytes.len(), 2 + 300);
    assert_eq!(bytes[1], 44);
    match Message::deserialize(&bytes).unwrap() {
        Message::Connect { name } => assert_eq!(name, "x".repeat(44)),
        _ => panic!("Wrong message type"),
    }
}

#[test]
fn datagram_name_of_255_bytes_round_trips() {
    let msg = Message::Connect { name: "y".repeat(255) };
    let bytes = msg.serialize().unwrap();
    assert_eq!(bytes[1], 255);
    assert_eq!(Message::deserialize(&bytes).unwrap(), msg);
}

#[test]
fn error_messages_are_short_texts() {
    assert_eq!(WireError::EmptyPacket.message(), "empty packet");
    assert_eq!(WireError::InvalidUtf8.message(), "invalid utf8");
    assert_eq!(WireError::UnknownMessageType.message(), "unknown message type");
    assert_eq!(WireError::UnexpectedEof.message(), "unexpected end of input");
}

#[test]
fn idle_input_asks_for_no_movement() {
    let still = PlayerInput {
        forward: scalar(0.0),
        right: scalar(-0.0),
        up: scalar(0.0),
        sprint: true,
        camera_forward: vec3(1.0, 0.0, 0.0),
    };
    assert!(still.is_idle());
    let rising = PlayerInput { up: scalar(1.0e-45), ..still };
    assert!(!rising.is_idle());
    let strafing = PlayerInput { right: scalar(f32::NAN), ..still };
    assert!(!strafing.is_idle());
}
