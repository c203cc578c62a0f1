//! What the simulation tells the transport layer.

use std::sync::Arc;
use vstd::prelude::*;
use crate::chunk::ChunkCoord;
use crate::math::Vec3;
use crate::voxel::VoxelBuffer;

verus! {

/// Something that happened in the world during a tick.
#[allow(inconsistent_fields)]
#[derive(Debug, Clone, PartialEq, Eq)]
pub enum WorldEvent {
    /// A player whose input asked for movement has been moved.
    PlayerMoved { id: u32, pos: Vec3, look: Vec3 },
    /// A chunk has entered a player's loaded set.
    ChunkLoaded { for_player: u32, pos: ChunkCoord, data: Arc<VoxelBuffer> },
    /// A chunk has left a player's loaded set.
    ChunkUnloaded { for_player: u32, pos: ChunkCoord },
}

} // verus!
