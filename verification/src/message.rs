//! The stream protocol: what clients and server say to each other, in
//! the compact encoding.

use std::sync::Arc;
use vstd::prelude::*;
use vstd::utf8::*;
use crate::chunk::ChunkCoord;
use crate::codec::{
    bool_bytes, buffer_bytes, buffer_view, coord_bytes, lemma_bool_round_trip,
    lemma_buffer_round_trip, lemma_coord_round_trip, lemma_text_round_trip, lemma_u32_round_trip,
    lemma_vec3_round_trip, put_bool, put_buffer, put_coord, put_text, put_varint, read_bool,
    read_buffer, read_coord, read_text, read_u32, read_vec3, take_bool, take_buffer, take_coord,
    take_text, take_u32, take_vec3, text_bytes, varint, BufferView,
};
use crate::math::Vec3;
use crate::player::PlayerInput;
use crate::voxel::VoxelBuffer;
use crate::wire::{put_vec3, vec3_le, WireError};

verus! {

pub const CLIENT_CONNECT: u32 = 0;

pub const CLIENT_INPUT: u32 = 1;

pub const SERVER_CONNECT_ACK: u32 = 0;

pub const SERVER_PLAYER_JOINED: u32 = 1;

pub const SERVER_PLAYER_LEFT: u32 = 2;

pub const SERVER_POSITION_UPDATE: u32 = 3;

pub const SERVER_CHUNK_LOADED: u32 = 4;

pub const SERVER_CHUNK_UNLOADED: u32 = 5;

/// What a client says to the server.
#[derive(Debug, Clone, PartialEq, Eq)]
pub enum ClientMessage {
    Connect { name: String },
    Input { input: PlayerInput },
}

/// The mathematical value of a [`ClientMessage`].
pub enum ClientMessageView {
    Connect { name: Seq<char> },
    Input { input: PlayerInput },
}

impl View for ClientMessage {
    type V = ClientMessageView;

    open spec fn view(&self) -> ClientMessageView {
        match *self {
            ClientMessage::Connect { name } => ClientMessageView::Connect { name: name@ },
            ClientMessage::Input { input } => ClientMessageView::Input { input },
        }
    }
}

/// What the server says to a client.
#[derive(Debug, Clone, PartialEq, Eq)]
#[allow(inconsistent_fields)]
pub enum ServerMessage {
    ConnectAck { id: u32, name: String },
    PlayerJoined { id: u32, name: String },
    PlayerLeft { id: u32, name: String },
    PositionUpdate { id: u32, pos: Vec3, look: Vec3 },
    ChunkLoaded { pos: ChunkCoord, data: Arc<VoxelBuffer> },
    ChunkUnloaded { pos: ChunkCoord },
}

/// The mathematical value of a [`ServerMessage`].
#[allow(inconsistent_fields)]
pub enum ServerMessageView {
    ConnectAck { id: u32, name: Seq<char> },
    PlayerJoined { id: u32, name: Seq<char> },
    PlayerLeft { id: u32, name: Seq<char> },
    PositionUpdate { id: u32, pos: Vec3, look: Vec3 },
    ChunkLoaded { pos: ChunkCoord, data: BufferView },
    ChunkUnloaded { pos: ChunkCoord },
}

impl View for ServerMessage {
    type V = ServerMessageView;

    open spec fn view(&self) -> ServerMessageView {
        match *self {
            ServerMessage::ConnectAck { id, name } => ServerMessageView::ConnectAck {
                id,
                name: name@,
            },
            ServerMessage::PlayerJoined { id, name } => ServerMessageView::PlayerJoined {
                id,
                name: name@,
            },
            ServerMessage::PlayerLeft { id, name } => ServerMessageView::PlayerLeft {
                id,
                name: name@,
            },
            ServerMessage::PositionUpdate { id, pos, look } => ServerMessageView::PositionUpdate {
                id,
                pos,
                look,
            },
            ServerMessage::ChunkLoaded { pos, data } => ServerMessageView::ChunkLoaded {
                pos,
                data: buffer_view(&*data),
            },
            ServerMessage::ChunkUnloaded { pos } => ServerMessageView::ChunkUnloaded { pos },
        }
    }
}

/// The bytes of a client message: its variant's number, then its fields.
pub open spec fn client_bytes(m: ClientMessageView) -> Seq<u8> {
    match m {
        ClientMessageView::Connect { name } => varint(CLIENT_CONNECT as nat) + text_bytes(name),
        ClientMessageView::Input { input } => varint(CLIENT_INPUT as nat) + vec3_le(input.dir)
            + vec3_le(input.look) + bool_bytes(input.sprint),
    }
}

/// Reads the fields of a player input from the front of `b`.
pub open spec fn take_input(b: Seq<u8>) -> Result<(PlayerInput, Seq<u8>), WireError> {
    match take_vec3(b) {
        Err(e) => Err(e),
        Ok((dir, b1)) => match take_vec3(b1) {
            Err(e) => Err(e),
            Ok((look, b2)) => match take_bool(b2) {
                Err(e) => Err(e),
                Ok((sprint, b3)) => Ok((PlayerInput { dir, look, sprint }, b3)),
            },
        },
    }
}

/// The client message at the front of `b`, or why there is none. What
/// follows the message is ignored.
pub open spec fn client_parse(b: Seq<u8>) -> Result<ClientMessageView, WireError> {
    match take_u32(b) {
        Err(e) => Err(e),
        Ok((tag, rest)) => {
            if tag == CLIENT_CONNECT {
                match take_text(rest) {
                    Err(e) => Err(e),
                    Ok((name, _)) => Ok(ClientMessageView::Connect { name }),
                }
            } else if tag == CLIENT_INPUT {
                match take_input(rest) {
                    Err(e) => Err(e),
                    Ok((input, _)) => Ok(ClientMessageView::Input { input }),
                }
            } else {
                Err(WireError::UnknownMessageType)
            }
        },
    }
}

/// The bytes of a server message: its variant's number, then its fields.
pub open spec fn server_bytes(m: ServerMessageView) -> Seq<u8> {
    match m {
        ServerMessageView::ConnectAck { id, name } => varint(SERVER_CONNECT_ACK as nat) + varint(
            id as nat,
        ) + text_bytes(name),
        ServerMessageView::PlayerJoined { id, name } => varint(SERVER_PLAYER_JOINED as nat)
            + varint(id as nat) + text_bytes(name),
        ServerMessageView::PlayerLeft { id, name } => varint(SERVER_PLAYER_LEFT as nat) + varint(
            id as nat,
        ) + text_bytes(name),
        ServerMessageView::PositionUpdate { id, pos, look } => varint(
            SERVER_POSITION_UPDATE as nat,
        ) + varint(id as nat) + vec3_le(pos) + vec3_le(look),
        ServerMessageView::ChunkLoaded { pos, data } => varint(SERVER_CHUNK_LOADED as nat)
            + coord_bytes(pos) + buffer_bytes(data),
        ServerMessageView::ChunkUnloaded { pos } => varint(SERVER_CHUNK_UNLOADED as nat)
            + coord_bytes(pos),
    }
}

/// Reads a player's number and name from the front of `b`.
pub open spec fn take_named(b: Seq<u8>) -> Result<((u32, Seq<char>), Seq<u8>), WireError> {
    match take_u32(b) {
        Err(e) => Err(e),
        Ok((id, b1)) => match take_text(b1) {
            Err(e) => Err(e),
            Ok((name, b2)) => Ok(((id, name), b2)),
        },
    }
}

/// Reads a player's number, position and look from the front of `b`.
pub open spec fn take_position(b: Seq<u8>) -> Result<((u32, Vec3, Vec3), Seq<u8>), WireError> {
    match take_u32(b) {
        Err(e) => Err(e),
        Ok((id, b1)) => match take_vec3(b1) {
            Err(e) => Err(e),
            Ok((pos, b2)) => match take_vec3(b2) {
                Err(e) => Err(e),
                Ok((look, b3)) => Ok(((id, pos, look), b3)),
            },
        },
    }
}

/// Reads a chunk's coordinate and buffer from the front of `b`.
pub open spec fn take_chunk(b: Seq<u8>) -> Result<((ChunkCoord, BufferView), Seq<u8>), WireError> {
    match take_coord(b) {
        Err(e) => Err(e),
        Ok((pos, b1)) => match take_buffer(b1) {
            Err(e) => Err(e),
            Ok((data, b2)) => Ok(((pos, data), b2)),
        },
    }
}

/// The server message at the front of `b`, or why there is none. What
/// follows the message is ignored.
pub open spec fn server_parse(b: Seq<u8>) -> Result<ServerMessageView, WireError> {
    match take_u32(b) {
        Err(e) => Err(e),
        Ok((tag, rest)) => {
            if tag == SERVER_CONNECT_ACK {
                match take_named(rest) {
                    Err(e) => Err(e),
                    Ok(((id, name), _)) => Ok(ServerMessageView::ConnectAck { id, name }),
                }
            } else if tag == SERVER_PLAYER_JOINED {
                match take_named(rest) {
                    Err(e) => Err(e),
                    Ok(((id, name), _)) => Ok(ServerMessageView::PlayerJoined { id, name }),
                }
            } else if tag == SERVER_PLAYER_LEFT {
                match take_named(rest) {
                    Err(e) => Err(e),
                    Ok(((id, name), _)) => Ok(ServerMessageView::PlayerLeft { id, name }),
                }
            } else if tag == SERVER_POSITION_UPDATE {
                match take_position(rest) {
                    Err(e) => Err(e),
                    Ok(((id, pos, look), _)) => Ok(
                        ServerMessageView::PositionUpdate { id, pos, look },
                    ),
                }
            } else if tag == SERVER_CHUNK_LOADED {
                match take_chunk(rest) {
                    Err(e) => Err(e),
                    Ok(((pos, data), _)) => Ok(ServerMessageView::ChunkLoaded { pos, data }),
                }
            } else if tag == SERVER_CHUNK_UNLOADED {
                match take_coord(rest) {
                    Err(e) => Err(e),
                    Ok((pos, _)) => Ok(ServerMessageView::ChunkUnloaded { pos }),
                }
            } else {
                Err(WireError::UnknownMessageType)
            }
        },
    }
}

/// Whether the lengths in `m` can be written: each is below 2^64, as the
/// length of anything in memory is.
pub open spec fn client_encodable(m: ClientMessageView) -> bool {
    match m {
        ClientMessageView::Connect { name } => encode_utf8(name).len() <= u64::MAX,
        ClientMessageView::Input { .. } => true,
    }
}

/// Whether the lengths in `m` can be written: each is below 2^64, as the
/// length of anything in memory is.
pub open spec fn server_encodable(m: ServerMessageView) -> bool {
    match m {
        ServerMessageView::ConnectAck { name, .. } => encode_utf8(name).len() <= u64::MAX,
        ServerMessageView::PlayerJoined { name, .. } => encode_utf8(name).len() <= u64::MAX,
        ServerMessageView::PlayerLeft { name, .. } => encode_utf8(name).len() <= u64::MAX,
        ServerMessageView::ChunkLoaded { data, .. } => data.voxels.len() <= u64::MAX,
        _ => true,
    }
}

proof fn lemma_input_round_trip(input: PlayerInput, rest: Seq<u8>)
    ensures
        take_input(vec3_le(input.dir) + vec3_le(input.look) + bool_bytes(input.sprint) + rest)
            == Ok::<(PlayerInput, Seq<u8>), WireError>((input, rest)),
{
    let d = vec3_le(input.dir);
    let l = vec3_le(input.look);
    let s = bool_bytes(input.sprint);
    assert(d + l + s + rest =~= d + (l + (s + rest)));
    lemma_vec3_round_trip(input.dir, l + (s + rest));
    lemma_vec3_round_trip(input.look, s + rest);
    lemma_bool_round_trip(input.sprint, rest);
}

proof fn lemma_named_round_trip(id: u32, name: Seq<char>, rest: Seq<u8>)
    requires
        encode_utf8(name).len() <= u64::MAX,
    ensures
        take_named(varint(id as nat) + text_bytes(name) + rest) == Ok::<
            ((u32, Seq<char>), Seq<u8>),
            WireError,
        >(((id, name), rest)),
{
    assert(varint(id as nat) + text_bytes(name) + rest =~= varint(id as nat) + (text_bytes(name)
        + rest));
    lemma_u32_round_trip(id, text_bytes(name) + rest);
    lemma_text_round_trip(name, rest);
}

proof fn lemma_position_round_trip(id: u32, pos: Vec3, look: Vec3, rest: Seq<u8>)
    ensures
        take_position(varint(id as nat) + vec3_le(pos) + vec3_le(look) + rest) == Ok::<
            ((u32, Vec3, Vec3), Seq<u8>),
            WireError,
        >(((id, pos, look), rest)),
{
    let p = vec3_le(pos);
    let l = vec3_le(look);
    assert(varint(id as nat) + p + l + rest =~= varint(id as nat) + (p + (l + rest)));
    lemma_u32_round_trip(id, p + (l + rest));
    lemma_vec3_round_trip(pos, l + rest);
    lemma_vec3_round_trip(look, rest);
}

proof fn lemma_chunk_round_trip(pos: ChunkCoord, data: BufferView, rest: Seq<u8>)
    requires
        data.voxels.len() <= u64::MAX,
    ensures
        take_chunk(coord_bytes(pos) + buffer_bytes(data) + rest) == Ok::<
            ((ChunkCoord, BufferView), Seq<u8>),
            WireError,
        >(((pos, data), rest)),
{
    assert(coord_bytes(pos) + buffer_bytes(data) + rest =~= coord_bytes(pos) + (buffer_bytes(data)
        + rest));
    lemma_coord_round_trip(pos, buffer_bytes(data) + rest);
    lemma_buffer_round_trip(data, rest);
}

proof fn lemma_client_connect(name: Seq<char>, rest: Seq<u8>)
    requires
        encode_utf8(name).len() <= u64::MAX,
    ensures
        client_parse(client_bytes(ClientMessageView::Connect { name }) + rest) == Ok::<
            ClientMessageView,
            WireError,
        >(ClientMessageView::Connect { name }),
{
    let m = ClientMessageView::Connect { name };
    let body = text_bytes(name) + rest;
    assert(client_bytes(m) + rest =~= varint(CLIENT_CONNECT as nat) + body);
    lemma_u32_round_trip(CLIENT_CONNECT, body);
    lemma_text_round_trip(name, rest);
}

proof fn lemma_client_input(input: PlayerInput, rest: Seq<u8>)
    ensures
        client_parse(client_bytes(ClientMessageView::Input { input }) + rest) == Ok::<
            ClientMessageView,
            WireError,
        >(ClientMessageView::Input { input }),
{
    let m = ClientMessageView::Input { input };
    let body = vec3_le(input.dir) + vec3_le(input.look) + bool_bytes(input.sprint) + rest;
    assert(client_bytes(m) + rest =~= varint(CLIENT_INPUT as nat) + body);
    lemma_u32_round_trip(CLIENT_INPUT, body);
    lemma_input_round_trip(input, rest);
}

/// Round trip: a client message is read back from its own bytes,
/// whatever follows them.
pub proof fn lemma_client_round_trip(m: ClientMessageView, rest: Seq<u8>)
    requires
        client_encodable(m),
    ensures
        client_parse(client_bytes(m) + rest) == Ok::<ClientMessageView, WireError>(m),
{
    match m {
        ClientMessageView::Connect { name } => {
            lemma_client_connect(name, rest);
        },
        ClientMessageView::Input { input } => {
            lemma_client_input(input, rest);
        },
    }
}

proof fn lemma_server_named(tag: u32, id: u32, name: Seq<char>, rest: Seq<u8>)
    requires
        encode_utf8(name).len() <= u64::MAX,
    ensures
        ({
            let b = varint(tag as nat) + varint(id as nat) + text_bytes(name) + rest;
            &&& take_u32(b) is Ok
            &&& take_u32(b)->Ok_0.0 == tag
            &&& take_named(take_u32(b)->Ok_0.1) is Ok
            &&& take_named(take_u32(b)->Ok_0.1)->Ok_0.0 == (id, name)
        }),
{
    let body = varint(id as nat) + text_bytes(name) + rest;
    assert(varint(tag as nat) + varint(id as nat) + text_bytes(name) + rest =~= varint(tag as nat)
        + body);
    lemma_u32_round_trip(tag, body);
    lemma_named_round_trip(id, name, rest);
}

proof fn lemma_server_position(id: u32, pos: Vec3, look: Vec3, rest: Seq<u8>)
    ensures
        server_parse(server_bytes(ServerMessageView::PositionUpdate { id, pos, look }) + rest)
            == Ok::<ServerMessageView, WireError>(
            ServerMessageView::PositionUpdate { id, pos, look },
        ),
{
    let m = ServerMessageView::PositionUpdate { id, pos, look };
    let body = varint(id as nat) + vec3_le(pos) + vec3_le(look) + rest;
    assert(server_bytes(m) + rest =~= varint(SERVER_POSITION_UPDATE as nat) + body);
    lemma_u32_round_trip(SERVER_POSITION_UPDATE, body);
    lemma_position_round_trip(id, pos, look, rest);
}

proof fn lemma_server_chunk_loaded(pos: ChunkCoord, data: BufferView, rest: Seq<u8>)
    requires
        data.voxels.len() <= u64::MAX,
    ensures
        server_parse(server_bytes(ServerMessageView::ChunkLoaded { pos, data }) + rest) == Ok::<
            ServerMessageView,
            WireError,
        >(ServerMessageView::ChunkLoaded { pos, data }),
{
    let m = ServerMessageView::ChunkLoaded { pos, data };
    let body = coord_bytes(pos) + buffer_bytes(data) + rest;
    assert(server_bytes(m) + rest =~= varint(SERVER_CHUNK_LOADED as nat) + body);
    lemma_u32_round_trip(SERVER_CHUNK_LOADED, body);
    lemma_chunk_round_trip(pos, data, rest);
}

proof fn lemma_server_chunk_unloaded(pos: ChunkCoord, rest: Seq<u8>)
    ensures
        server_parse(server_bytes(ServerMessageView::ChunkUnloaded { pos }) + rest) == Ok::<
            ServerMessageView,
            WireError,
        >(ServerMessageView::ChunkUnloaded { pos }),
{
    let m = ServerMessageView::ChunkUnloaded { pos };
    let body = coord_bytes(pos) + rest;
    assert(server_bytes(m) + rest =~= varint(SERVER_CHUNK_UNLOADED as nat) + body);
    lemma_u32_round_trip(SERVER_CHUNK_UNLOADED, body);
    lemma_coord_round_trip(pos, rest);
}

/// Round trip: a server message is read back from its own bytes,
/// whatever follows them.
pub proof fn lemma_server_round_trip(m: ServerMessageView, rest: Seq<u8>)
    requires
        server_encodable(m),
    ensures
        server_parse(server_bytes(m) + rest) == Ok::<ServerMessageView, WireError>(m),
{
    match m {
        ServerMessageView::ConnectAck { id, name } => {
            lemma_server_named(SERVER_CONNECT_ACK, id, name, rest);
        },
        ServerMessageView::PlayerJoined { id, name } => {
            lemma_server_named(SERVER_PLAYER_JOINED, id, name, rest);
        },
        ServerMessageView::PlayerLeft { id, name } => {
            lemma_server_named(SERVER_PLAYER_LEFT, id, name, rest);
        },
        ServerMessageView::PositionUpdate { id, pos, look } => {
            lemma_server_position(id, pos, look, rest);
        },
        ServerMessageView::ChunkLoaded { pos, data } => {
            lemma_server_chunk_loaded(pos, data, rest);
        },
        ServerMessageView::ChunkUnloaded { pos } => {
            lemma_server_chunk_unloaded(pos, rest);
        },
    }
}

/// A message that travels in the compact encoding.
pub trait WireMessage: Sized {
    /// The bytes that the message is sent as.
    spec fn wire_bytes(&self) -> Seq<u8>;

    /// Whether `r` is what reading a message from the front of `bytes`
    /// gives.
    spec fn parses_to(bytes: Seq<u8>, r: Result<Self, WireError>) -> bool;

    /// The bytes that the message is sent as. Never fails.
    fn serialize(&self) -> (r: Result<Vec<u8>, WireError>)
        ensures
            r is Ok,
            r->Ok_0@ == self.wire_bytes(),
    ;

    /// Reads a message from the front of `bytes`; never panics.
    fn deserialize(bytes: &[u8]) -> (r: Result<Self, WireError>)
        ensures
            Self::parses_to(bytes@, r),
    ;
}

/// The mathematical value of the outcome of reading a client message.
pub open spec fn client_result_view(r: Result<ClientMessage, WireError>) -> Result<
    ClientMessageView,
    WireError,
> {
    match r {
        Ok(m) => Ok(m@),
        Err(e) => Err(e),
    }
}

/// The mathematical value of the outcome of reading a server message.
pub open spec fn server_result_view(r: Result<ServerMessage, WireError>) -> Result<
    ServerMessageView,
    WireError,
> {
    match r {
        Ok(m) => Ok(m@),
        Err(e) => Err(e),
    }
}

fn read_input(data: &[u8], at: usize) -> (r: Result<PlayerInput, WireError>)
    requires
        at <= data@.len(),
    ensures
        match r {
            Ok(input) => take_input(data@.skip(at as int)) is Ok && take_input(
                data@.skip(at as int),
            )->Ok_0.0 == input,
            Err(e) => take_input(data@.skip(at as int)) == Err::<(PlayerInput, Seq<u8>), WireError>(
                e,
            ),
        },
{
    let (dir, at) = match read_vec3(data, at) {
        Ok(v) => v,
        Err(e) => { return Err(e); },
    };
    let (look, at) = match read_vec3(data, at) {
        Ok(v) => v,
        Err(e) => { return Err(e); },
    };
    let (sprint, _) = match read_bool(data, at) {
        Ok(v) => v,
        Err(e) => { return Err(e); },
    };
    Ok(PlayerInput { dir, look, sprint })
}

fn read_named(data: &[u8], at: usize) -> (r: Result<(u32, String), WireError>)
    requires
        at <= data@.len(),
    ensures
        match r {
            Ok((id, name)) => take_named(data@.skip(at as int)) is Ok && take_named(
                data@.skip(at as int),
            )->Ok_0.0 == (id, name@),
            Err(e) => take_named(data@.skip(at as int)) == Err::<
                ((u32, Seq<char>), Seq<u8>),
                WireError,
            >(e),
        },
{
    let (id, at) = match read_u32(data, at) {
        Ok(v) => v,
        Err(e) => { return Err(e); },
    };
    let (name, _) = match read_text(data, at) {
        Ok(v) => v,
        Err(e) => { return Err(e); },
    };
    Ok((id, name))
}

fn read_position(data: &[u8], at: usize) -> (r: Result<(u32, Vec3, Vec3), WireError>)
    requires
        at <= data@.len(),
    ensures
        match r {
            Ok(v) => take_position(data@.skip(at as int)) is Ok && take_position(
                data@.skip(at as int),
            )->Ok_0.0 == v,
            Err(e) => take_position(data@.skip(at as int)) == Err::<
                ((u32, Vec3, Vec3), Seq<u8>),
                WireError,
            >(e),
        },
{
    let (id, at) = match read_u32(data, at) {
        Ok(v) => v,
        Err(e) => { return Err(e); },
    };
    let (pos, at) = match read_vec3(data, at) {
        Ok(v) => v,
        Err(e) => { return Err(e); },
    };
    let (look, _) = match read_vec3(data, at) {
        Ok(v) => v,
        Err(e) => { return Err(e); },
    };
    Ok((id, pos, look))
}

fn read_chunk(data: &[u8], at: usize) -> (r: Result<(ChunkCoord, VoxelBuffer), WireError>)
    requires
        at <= data@.len(),
    ensures
        match r {
            Ok((pos, buffer)) => take_chunk(data@.skip(at as int)) is Ok && take_chunk(
                data@.skip(at as int),
            )->Ok_0.0 == (pos, buffer_view(&buffer)),
            Err(e) => take_chunk(data@.skip(at as int)) == Err::<
                ((ChunkCoord, BufferView), Seq<u8>),
                WireError,
            >(e),
        },
{
    let (pos, at) = match read_coord(data, at) {
        Ok(v) => v,
        Err(e) => { return Err(e); },
    };
    let (buffer, _) = match read_buffer(data, at) {
        Ok(v) => v,
        Err(e) => { return Err(e); },
    };
    Ok((pos, buffer))
}

impl WireMessage for ClientMessage {
    open spec fn wire_bytes(&self) -> Seq<u8> {
        client_bytes(self@)
    }

    open spec fn parses_to(bytes: Seq<u8>, r: Result<Self, WireError>) -> bool {
        client_result_view(r) == client_parse(bytes)
    }

    fn serialize(&self) -> (r: Result<Vec<u8>, WireError>) {
        let mut out: Vec<u8> = Vec::new();
        match self {
            ClientMessage::Connect { name } => {
                put_varint(&mut out, CLIENT_CONNECT as u64);
                put_text(&mut out, name);
            },
            ClientMessage::Input { input } => {
                put_varint(&mut out, CLIENT_INPUT as u64);
                put_vec3(&mut out, input.dir);
                put_vec3(&mut out, input.look);
                put_bool(&mut out, input.sprint);
            },
        }
        assert(out@ =~= client_bytes(self@));
        Ok(out)
    }

    fn deserialize(bytes: &[u8]) -> (r: Result<Self, WireError>) {
        assert(bytes@.skip(0) =~= bytes@);
        let (tag, at) = match read_u32(bytes, 0) {
            Ok(v) => v,
            Err(e) => { return Err(e); },
        };
        if tag == CLIENT_CONNECT {
            match read_text(bytes, at) {
                Ok((name, _)) => Ok(ClientMessage::Connect { name }),
                Err(e) => Err(e),
            }
        } else if tag == CLIENT_INPUT {
            match read_input(bytes, at) {
                Ok(input) => Ok(ClientMessage::Input { input }),
                Err(e) => Err(e),
            }
        } else {
            Err(WireError::UnknownMessageType)
        }
    }
}

impl WireMessage for ServerMessage {
    open spec fn wire_bytes(&self) -> Seq<u8> {
        server_bytes(self@)
    }

    open spec fn parses_to(bytes: Seq<u8>, r: Result<Self, WireError>) -> bool {
        server_result_view(r) == server_parse(bytes)
    }

    fn serialize(&self) -> (r: Result<Vec<u8>, WireError>) {
        let mut out: Vec<u8> = Vec::new();
        match self {
            ServerMessage::ConnectAck { id, name } => {
                put_varint(&mut out, SERVER_CONNECT_ACK as u64);
                put_varint(&mut out, *id as u64);
                put_text(&mut out, name);
            },
            ServerMessage::PlayerJoined { id, name } => {
                put_varint(&mut out, SERVER_PLAYER_JOINED as u64);
                put_varint(&mut out, *id as u64);
                put_text(&mut out, name);
            },
            ServerMessage::PlayerLeft { id, name } => {
                put_varint(&mut out, SERVER_PLAYER_LEFT as u64);
                put_varint(&mut out, *id as u64);
                put_text(&mut out, name);
            },
            ServerMessage::PositionUpdate { id, pos, look } => {
                put_varint(&mut out, SERVER_POSITION_UPDATE as u64);
                put_varint(&mut out, *id as u64);
                put_vec3(&mut out, *pos);
                put_vec3(&mut out, *look);
            },
            ServerMessage::ChunkLoaded { pos, data } => {
                put_varint(&mut out, SERVER_CHUNK_LOADED as u64);
                put_coord(&mut out, *pos);
                put_buffer(&mut out, &**data);
            },
            ServerMessage::ChunkUnloaded { pos } => {
                put_varint(&mut out, SERVER_CHUNK_UNLOADED as u64);
                put_coord(&mut out, *pos);
            },
        }
        assert(out@ =~= server_bytes(self@));
        Ok(out)
    }

    fn deserialize(bytes: &[u8]) -> (r: Result<Self, WireError>) {
        assert(bytes@.skip(0) =~= bytes@);
        let (tag, at) = match read_u32(bytes, 0) {
            Ok(v) => v,
            Err(e) => { return Err(e); },
        };
        if tag == SERVER_CONNECT_ACK {
            match read_named(bytes, at) {
                Ok((id, name)) => Ok(ServerMessage::ConnectAck { id, name }),
                Err(e) => Err(e),
            }
        } else if tag == SERVER_PLAYER_JOINED {
            match read_named(bytes, at) {
                Ok((id, name)) => Ok(ServerMessage::PlayerJoined { id, name }),
                Err(e) => Err(e),
            }
        } else if tag == SERVER_PLAYER_LEFT {
            match read_named(bytes, at) {
                Ok((id, name)) => Ok(ServerMessage::PlayerLeft { id, name }),
                Err(e) => Err(e),
            }
        } else if tag == SERVER_POSITION_UPDATE {
            match read_position(bytes, at) {
                Ok((id, pos, look)) => Ok(ServerMessage::PositionUpdate { id, pos, look }),
                Err(e) => Err(e),
            }
        } else if tag == SERVER_CHUNK_LOADED {
            match read_chunk(bytes, at) {
                Ok((pos, buffer)) => Ok(ServerMessage::ChunkLoaded { pos, data: Arc::new(buffer) }),
                Err(e) => Err(e),
            }
        } else if tag == SERVER_CHUNK_UNLOADED {
            match read_coord(bytes, at) {
                Ok((pos, _)) => Ok(ServerMessage::ChunkUnloaded { pos }),
                Err(e) => Err(e),
            }
        } else {
            Err(WireError::UnknownMessageType)
        }
    }
}

} // verus!
