//! The datagram protocol: one tag byte, fixed-width little-endian fields
//! and text behind a one-byte length.

use vstd::prelude::*;
use vstd::utf8::*;
use crate::math::{Scalar, Vec3};
use crate::wire::{
    append_bytes, copy_range, get_u32_le, get_vec3, le_u32_at, le_vec3_at, lemma_read_appended,
    lemma_read_appended_vec3, put_u32_le, put_vec3, text_from_utf8, u32_le, vec3_le, WireError,
};

verus! {

pub const MSG_CONNECT: u8 = 0x01;

pub const MSG_CONNECT_ACK: u8 = 0x02;

pub const MSG_PLAYER_JOINED: u8 = 0x03;

pub const MSG_PLAYER_LEFT: u8 = 0x04;

pub const MSG_HEARTBEAT: u8 = 0x05;

pub const MSG_DISCONNECT: u8 = 0x06;

pub const MSG_INPUT: u8 = 0x07;

pub const MSG_POSITION_UPDATE: u8 = 0x08;

/// What a client wants its player to do, in the camera's frame.
#[derive(Copy, Clone, Eq, PartialEq, Debug, Structural)]
pub struct PlayerInput {
    pub forward: Scalar,
    pub right: Scalar,
    pub up: Scalar,
    pub sprint: bool,
    pub camera_forward: Vec3,
}

impl PlayerInput {
    /// Whether the input asks for no movement at all.
    pub open spec fn is_idle_spec(self) -> bool {
        self.forward.is_zero_spec() && self.right.is_zero_spec() && self.up.is_zero_spec()
    }

    #[verifier::when_used_as_spec(is_idle_spec)]
    pub fn is_idle(self) -> (r: bool)
        ensures
            r == self.is_idle_spec(),
    {
        self.forward.is_zero() && self.right.is_zero() && self.up.is_zero()
    }
}

/// A datagram exchanged between client and server.
#[derive(Debug, Clone, PartialEq, Eq)]
pub enum Message {
    Connect { name: String },
    ConnectAck { client_id: u32 },
    PlayerJoined { client_id: u32, name: String },
    PlayerLeft { client_id: u32, name: String },
    Heartbeat,
    Disconnect,
    Input { input: PlayerInput },
    PositionUpdate { client_id: u32, x: Scalar, y: Scalar, z: Scalar, camera_forward: Vec3 },
}

/// The mathematical value of a [`Message`]: text is a sequence of
/// characters.
pub enum MessageView {
    Connect { name: Seq<char> },
    ConnectAck { client_id: u32 },
    PlayerJoined { client_id: u32, name: Seq<char> },
    PlayerLeft { client_id: u32, name: Seq<char> },
    Heartbeat,
    Disconnect,
    Input { input: PlayerInput },
    PositionUpdate { client_id: u32, x: Scalar, y: Scalar, z: Scalar, camera_forward: Vec3 },
}

impl View for Message {
    type V = MessageView;

    open spec fn view(&self) -> MessageView {
        match *self {
            Message::Connect { name } => MessageView::Connect { name: name@ },
            Message::ConnectAck { client_id } => MessageView::ConnectAck { client_id },
            Message::PlayerJoined { client_id, name } => MessageView::PlayerJoined {
                client_id,
                name: name@,
            },
            Message::PlayerLeft { client_id, name } => MessageView::PlayerLeft {
                client_id,
                name: name@,
            },
            Message::Heartbeat => MessageView::Heartbeat,
            Message::Disconnect => MessageView::Disconnect,
            Message::Input { input } => MessageView::Input { input },
            Message::PositionUpdate { client_id, x, y, z, camera_forward } => {
                MessageView::PositionUpdate { client_id, x, y, z, camera_forward }
            },
        }
    }
}

/// Text on the wire: the low byte of its length in bytes, then its UTF-8
/// bytes, all of them.
pub open spec fn short_text(name: Seq<char>) -> Seq<u8> {
    seq![(encode_utf8(name).len() % 256) as u8] + encode_utf8(name)
}

/// The byte that stands for a flag.
pub open spec fn flag_byte(flag: bool) -> u8 {
    if flag {
        1u8
    } else {
        0u8
    }
}

/// The bytes that `m` is sent as.
pub open spec fn encoding(m: MessageView) -> Seq<u8> {
    match m {
        MessageView::Connect { name } => seq![MSG_CONNECT] + short_text(name),
        MessageView::ConnectAck { client_id } => seq![MSG_CONNECT_ACK] + u32_le(client_id),
        MessageView::PlayerJoined { client_id, name } => seq![MSG_PLAYER_JOINED] + u32_le(client_id)
            + short_text(name),
        MessageView::PlayerLeft { client_id, name } => seq![MSG_PLAYER_LEFT] + u32_le(client_id)
            + short_text(name),
        MessageView::Heartbeat => seq![MSG_HEARTBEAT],
        MessageView::Disconnect => seq![MSG_DISCONNECT],
        MessageView::Input { input } => seq![MSG_INPUT] + u32_le(input.forward.0) + u32_le(
            input.right.0,
        ) + u32_le(input.up.0) + seq![flag_byte(input.sprint)] + vec3_le(input.camera_forward),
        MessageView::PositionUpdate { client_id, x, y, z, camera_forward } => seq![
            MSG_POSITION_UPDATE,
        ] + u32_le(client_id) + u32_le(x.0) + u32_le(y.0) + u32_le(z.0) + vec3_le(camera_forward),
    }
}

/// The text whose length byte stands at `b[at]`: the input must hold the
/// length byte and as many bytes as it announces, and those must be valid
/// UTF-8.
pub open spec fn text_at(b: Seq<u8>, at: int) -> Result<Seq<char>, WireError> {
    if at >= b.len() {
        Err(WireError::UnexpectedEof)
    } else if at + 1 + b[at] > b.len() {
        Err(WireError::UnexpectedEof)
    } else if !valid_utf8(b.subrange(at + 1, at + 1 + b[at])) {
        Err(WireError::InvalidUtf8)
    } else {
        Ok(decode_utf8(b.subrange(at + 1, at + 1 + b[at])))
    }
}

/// The message that the bytes `b` stand for, or why they stand for none.
/// Bytes after the message's last field are ignored.
pub open spec fn decoding(b: Seq<u8>) -> Result<MessageView, WireError> {
    if b.len() == 0 {
        Err(WireError::EmptyPacket)
    } else if b[0] == MSG_CONNECT {
        match text_at(b, 1) {
            Ok(name) => Ok(MessageView::Connect { name }),
            Err(e) => Err(e),
        }
    } else if b[0] == MSG_CONNECT_ACK {
        if b.len() < 5 {
            Err(WireError::UnexpectedEof)
        } else {
            Ok(MessageView::ConnectAck { client_id: le_u32_at(b, 1) })
        }
    } else if b[0] == MSG_PLAYER_JOINED {
        if b.len() < 5 {
            Err(WireError::UnexpectedEof)
        } else {
            match text_at(b, 5) {
                Ok(name) => Ok(MessageView::PlayerJoined { client_id: le_u32_at(b, 1), name }),
                Err(e) => Err(e),
            }
        }
    } else if b[0] == MSG_PLAYER_LEFT {
        if b.len() < 5 {
            Err(WireError::UnexpectedEof)
        } else {
            match text_at(b, 5) {
                Ok(name) => Ok(MessageView::PlayerLeft { client_id: le_u32_at(b, 1), name }),
                Err(e) => Err(e),
            }
        }
    } else if b[0] == MSG_HEARTBEAT {
        Ok(MessageView::Heartbeat)
    } else if b[0] == MSG_DISCONNECT {
        Ok(MessageView::Disconnect)
    } else if b[0] == MSG_INPUT {
        if b.len() < 26 {
            Err(WireError::UnexpectedEof)
        } else {
            Ok(
                MessageView::Input {
                    input: PlayerInput {
                        forward: Scalar(le_u32_at(b, 1)),
                        right: Scalar(le_u32_at(b, 5)),
                        up: Scalar(le_u32_at(b, 9)),
                        sprint: b[13] != 0,
                        camera_forward: le_vec3_at(b, 14),
                    },
                },
            )
        }
    } else if b[0] == MSG_POSITION_UPDATE {
        if b.len() < 29 {
            Err(WireError::UnexpectedEof)
        } else {
            Ok(
                MessageView::PositionUpdate {
                    client_id: le_u32_at(b, 1),
                    x: Scalar(le_u32_at(b, 5)),
                    y: Scalar(le_u32_at(b, 9)),
                    z: Scalar(le_u32_at(b, 13)),
                    camera_forward: le_vec3_at(b, 17),
                },
            )
        }
    } else {
        Err(WireError::UnknownMessageType)
    }
}

/// The mathematical value of a decoding result.
pub open spec fn result_view(r: Result<Message, WireError>) -> Result<MessageView, WireError> {
    match r {
        Ok(m) => Ok(m@),
        Err(e) => Err(e),
    }
}

/// Whether the text fields of `m` fit behind a one-byte length.
pub open spec fn fits_datagram(m: MessageView) -> bool {
    match m {
        MessageView::Connect { name } => encode_utf8(name).len() <= 255,
        MessageView::PlayerJoined { name, .. } => encode_utf8(name).len() <= 255,
        MessageView::PlayerLeft { name, .. } => encode_utf8(name).len() <= 255,
        _ => true,
    }
}

proof fn lemma_text_round_trip(b: Seq<u8>, at: int, name: Seq<char>)
    requires
        0 <= at,
        at + short_text(name).len() <= b.len(),
        b.subrange(at, at + short_text(name).len() as int) == short_text(name),
        encode_utf8(name).len() <= 255,
    ensures
        text_at(b, at) == Ok::<Seq<char>, WireError>(name),
{
    broadcast use encode_utf8_valid_utf8, encode_utf8_decode_utf8;

    let raw = encode_utf8(name);
    let t = short_text(name);
    assert(t.len() == raw.len() + 1);
    assert(t[0] == raw.len() as u8);
    assert(b[at] == b.subrange(at, at + t.len())[0]);
    assert(b.subrange(at + 1, at + 1 + b[at]) =~= raw) by {
        assert forall|i: int| 0 <= i < raw.len() implies b.subrange(at + 1, at + 1 + b[at])[i]
            == raw[i] by {
            assert(b[at + 1 + i] == b.subrange(at, at + t.len())[i + 1]);
            assert(t[i + 1] == raw[i]);
        }
    }
}

proof fn lemma_round_trip_input(input: PlayerInput, rest: Seq<u8>)
    ensures
        decoding(encoding(MessageView::Input { input }) + rest) == Ok::<MessageView, WireError>(
            MessageView::Input { input },
        ),
{
    let b = encoding(MessageView::Input { input }) + rest;
    let t = seq![MSG_INPUT];
    let f = u32_le(input.forward.0);
    let r = u32_le(input.right.0);
    let u = u32_le(input.up.0);
    let s = seq![flag_byte(input.sprint)];
    let c = vec3_le(input.camera_forward);
    assert(c.len() == 12);
    assert(b.len() == 26 + rest.len());
    assert(b =~= t + f + (r + u + s + c + rest));
    lemma_read_appended(t, input.forward.0, r + u + s + c + rest);
    assert(b =~= (t + f) + r + (u + s + c + rest));
    lemma_read_appended(t + f, input.right.0, u + s + c + rest);
    assert(b =~= (t + f + r) + u + (s + c + rest));
    lemma_read_appended(t + f + r, input.up.0, s + c + rest);
    assert(b[13] == s[0]);
    assert(b =~= (t + f + r + u + s) + c + rest);
    lemma_read_appended_vec3(t + f + r + u + s, input.camera_forward, rest);
}

proof fn lemma_round_trip_position(
    client_id: u32,
    x: Scalar,
    y: Scalar,
    z: Scalar,
    camera_forward: Vec3,
    rest: Seq<u8>,
)
    ensures
        decoding(
            encoding(MessageView::PositionUpdate { client_id, x, y, z, camera_forward }) + rest,
        ) == Ok::<MessageView, WireError>(
            MessageView::PositionUpdate { client_id, x, y, z, camera_forward },
        ),
{
    let b = encoding(MessageView::PositionUpdate { client_id, x, y, z, camera_forward }) + rest;
    let t = seq![MSG_POSITION_UPDATE];
    let i = u32_le(client_id);
    let fx = u32_le(x.0);
    let fy = u32_le(y.0);
    let fz = u32_le(z.0);
    let c = vec3_le(camera_forward);
    assert(c.len() == 12);
    assert(b.len() == 29 + rest.len());
    assert(b =~= t + i + (fx + fy + fz + c + rest));
    lemma_read_appended(t, client_id, fx + fy + fz + c + rest);
    assert(b =~= (t + i) + fx + (fy + fz + c + rest));
    lemma_read_appended(t + i, x.0, fy + fz + c + rest);
    assert(b =~= (t + i + fx) + fy + (fz + c + rest));
    lemma_read_appended(t + i + fx, y.0, fz + c + rest);
    assert(b =~= (t + i + fx + fy) + fz + (c + rest));
    lemma_read_appended(t + i + fx + fy, z.0, c + rest);
    assert(b =~= (t + i + fx + fy + fz) + c + rest);
    lemma_read_appended_vec3(t + i + fx + fy + fz, camera_forward, rest);
}

proof fn lemma_round_trip_named(tag: u8, client_id: u32, name: Seq<char>, rest: Seq<u8>)
    requires
        encode_utf8(name).len() <= 255,
    ensures
        ({
            let b = seq![tag] + u32_le(client_id) + short_text(name) + rest;
            &&& b.len() >= 5
            &&& b[0] == tag
            &&& le_u32_at(b, 1) == client_id
            &&& text_at(b, 5) == Ok::<Seq<char>, WireError>(name)
        }),
{
    let b = seq![tag] + u32_le(client_id) + short_text(name) + rest;
    assert(b =~= seq![tag] + u32_le(client_id) + (short_text(name) + rest));
    lemma_read_appended(seq![tag], client_id, short_text(name) + rest);
    assert(b.subrange(5, 5 + short_text(name).len() as int) =~= short_text(name));
    lemma_text_round_trip(b, 5, name);
}

/// Round trip: a message whose text fields fit behind a one-byte length
/// is read back from its own bytes, whatever bytes follow them.
pub proof fn lemma_round_trip(m: MessageView, rest: Seq<u8>)
    requires
        fits_datagram(m),
    ensures
        decoding(encoding(m) + rest) == Ok::<MessageView, WireError>(m),
{
    let b = encoding(m) + rest;
    match m {
        MessageView::Connect { name } => {
            assert(b.subrange(1, 1 + short_text(name).len() as int) =~= short_text(name));
            lemma_text_round_trip(b, 1, name);
        },
        MessageView::ConnectAck { client_id } => {
            lemma_read_appended(seq![MSG_CONNECT_ACK], client_id, rest);
        },
        MessageView::PlayerJoined { client_id, name } => {
            lemma_round_trip_named(MSG_PLAYER_JOINED, client_id, name, rest);
        },
        MessageView::PlayerLeft { client_id, name } => {
            lemma_round_trip_named(MSG_PLAYER_LEFT, client_id, name, rest);
        },
        MessageView::Heartbeat => {},
        MessageView::Disconnect => {},
        MessageView::Input { input } => {
            lemma_round_trip_input(input, rest);
        },
        MessageView::PositionUpdate { client_id, x, y, z, camera_forward } => {
            lemma_round_trip_position(client_id, x, y, z, camera_forward, rest);
        },
    }
}

fn put_short_text(out: &mut Vec<u8>, name: &String)
    ensures
        final(out)@ == old(out)@ + short_text(name@),
{
    let raw = name.as_str().as_bytes();
    out.push((raw.len() % 256) as u8);
    append_bytes(out, raw);
    assert(out@ =~= old(out)@ + short_text(name@));
}

fn get_short_text(data: &[u8], at: usize) -> (r: Result<String, WireError>)
    requires
        at <= data@.len(),
    ensures
        match r {
            Ok(s) => text_at(data@, at as int) == Ok::<Seq<char>, WireError>(s@),
            Err(e) => text_at(data@, at as int) == Err::<Seq<char>, WireError>(e),
        },
{
    if at >= data.len() {
        return Err(WireError::UnexpectedEof);
    }
    let len: usize = data[at] as usize;
    if len > data.len() - at - 1 {
        return Err(WireError::UnexpectedEof);
    }
    let raw = copy_range(data, at + 1, at + 1 + len);
    match text_from_utf8(raw) {
        Some(s) => Ok(s),
        None => Err(WireError::InvalidUtf8),
    }
}

impl Message {
    /// The bytes that this message is sent as. Never fails.
    pub fn serialize(&self) -> (r: Result<Vec<u8>, WireError>)
        ensures
            r is Ok,
            r->Ok_0@ == encoding(self@),
    {
        let mut buf: Vec<u8> = Vec::new();
        match self {
            Message::Connect { name } => {
                buf.push(MSG_CONNECT);
                put_short_text(&mut buf, name);
            },
            Message::ConnectAck { client_id } => {
                buf.push(MSG_CONNECT_ACK);
                put_u32_le(&mut buf, *client_id);
            },
            Message::PlayerJoined { client_id, name } => {
                buf.push(MSG_PLAYER_JOINED);
                put_u32_le(&mut buf, *client_id);
                put_short_text(&mut buf, name);
            },
            Message::PlayerLeft { client_id, name } => {
                buf.push(MSG_PLAYER_LEFT);
                put_u32_le(&mut buf, *client_id);
                put_short_text(&mut buf, name);
            },
            Message::Heartbeat => {
                buf.push(MSG_HEARTBEAT);
            },
            Message::Disconnect => {
                buf.push(MSG_DISCONNECT);
            },
            Message::Input { input } => {
                buf.push(MSG_INPUT);
                put_u32_le(&mut buf, input.forward.0);
                put_u32_le(&mut buf, input.right.0);
                put_u32_le(&mut buf, input.up.0);
                buf.push(if input.sprint { 1u8 } else { 0u8 });
                put_vec3(&mut buf, input.camera_forward);
            },
            Message::PositionUpdate { client_id, x, y, z, camera_forward } => {
                buf.push(MSG_POSITION_UPDATE);
                put_u32_le(&mut buf, *client_id);
                put_u32_le(&mut buf, x.0);
                put_u32_le(&mut buf, y.0);
                put_u32_le(&mut buf, z.0);
                put_vec3(&mut buf, *camera_forward);
            },
        }
        assert(buf@ =~= encoding(self@));
        Ok(buf)
    }

    /// Reads a message from the front of `data`. Fails on empty input, on
    /// input that ends too early, on text that is not UTF-8 and on an
    /// unknown tag; never panics.
    pub fn deserialize(data: &[u8]) -> (r: Result<Message, WireError>)
        ensures
            result_view(r) == decoding(data@),
    {
        if data.len() == 0 {
            return Err(WireError::EmptyPacket);
        }
        let tag = data[0];
        if tag == MSG_CONNECT {
            match get_short_text(data, 1) {
                Ok(name) => Ok(Message::Connect { name }),
                Err(e) => Err(e),
            }
        } else if tag == MSG_CONNECT_ACK {
            if data.len() < 5 {
                return Err(WireError::UnexpectedEof);
            }
            Ok(Message::ConnectAck { client_id: get_u32_le(data, 1) })
        } else if tag == MSG_PLAYER_JOINED {
            if data.len() < 5 {
                return Err(WireError::UnexpectedEof);
            }
            let client_id = get_u32_le(data, 1);
            match get_short_text(data, 5) {
                Ok(name) => Ok(Message::PlayerJoined { client_id, name }),
                Err(e) => Err(e),
            }
        } else if tag == MSG_PLAYER_LEFT {
            if data.len() < 5 {
                return Err(WireError::UnexpectedEof);
            }
            let client_id = get_u32_le(data, 1);
            match get_short_text(data, 5) {
                Ok(name) => Ok(Message::PlayerLeft { client_id, name }),
                Err(e) => Err(e),
            }
        } else if tag == MSG_HEARTBEAT {
            Ok(Message::Heartbeat)
        } else if tag == MSG_DISCONNECT {
            Ok(Message::Disconnect)
        } else if tag == MSG_INPUT {
            if data.len() < 26 {
                return Err(WireError::UnexpectedEof);
            }
            Ok(
                Message::Input {
                    input: PlayerInput {
                        forward: Scalar(get_u32_le(data, 1)),
                        right: Scalar(get_u32_le(data, 5)),
                        up: Scalar(get_u32_le(data, 9)),
                        sprint: data[13] != 0,
                        camera_forward: get_vec3(data, 14),
                    },
                },
            )
        } else if tag == MSG_POSITION_UPDATE {
            if data.len() < 29 {
                return Err(WireError::UnexpectedEof);
            }
            Ok(
                Message::PositionUpdate {
                    client_id: get_u32_le(data, 1),
                    x: Scalar(get_u32_le(data, 5)),
                    y: Scalar(get_u32_le(data, 9)),
                    z: Scalar(get_u32_le(data, 13)),
                    camera_forward: get_vec3(data, 17),
                },
            )
        } else {
            Err(WireError::UnknownMessageType)
        }
    }
}

} // verus!
