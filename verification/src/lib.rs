//! Authoritative core of a multiplayer voxel world: voxel data, chunk
//! coordinates, terrain scheduling, persistence framing, the simulation
//! tick and the wire protocol, each with a machine-checked contract.

pub mod chunk;
pub mod chunk_set;
pub mod codec;
pub mod commands;
pub mod datagram;
pub mod events;
pub mod math;
pub mod message;
pub mod player;
pub mod server;
pub mod storage;
pub mod terrain;
pub mod voxel;
pub mod wire;
pub mod world;
