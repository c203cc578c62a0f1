//! Per-player simulation state and the input that drives it.

use vstd::prelude::*;
use crate::chunk::ChunkCoord;
use crate::chunk_set::ChunkSet;
use crate::math::{Scalar, Vec3, ZERO_BITS};

verus! {

/// Bit pattern of the height at which a player enters the world: 60.
pub const SPAWN_HEIGHT_BITS: u32 = 0x4270_0000;

/// The latest input of a player: where to move in the player's own
/// frame (x forward, y up, z right), where the player looks, and whether
/// the player sprints.
#[derive(Copy, Clone, Eq, PartialEq, Debug, Structural)]
pub struct PlayerInput {
    pub dir: Vec3,
    pub look: Vec3,
    pub sprint: bool,
}

impl PlayerInput {
    /// The input of a player who does nothing.
    pub open spec fn idle() -> PlayerInput {
        PlayerInput {
            dir: Vec3 { x: Scalar(ZERO_BITS), y: Scalar(ZERO_BITS), z: Scalar(ZERO_BITS) },
            look: Vec3 { x: Scalar(ZERO_BITS), y: Scalar(ZERO_BITS), z: Scalar(ZERO_BITS) },
            sprint: false,
        }
    }
}

impl Default for PlayerInput {
    fn default() -> (r: PlayerInput)
        ensures
            r == PlayerInput::idle(),
    {
        PlayerInput { dir: Vec3::zero(), look: Vec3::zero(), sprint: false }
    }
}

/// Where a player enters the world.
pub open spec fn spawn_point() -> Vec3 {
    Vec3 { x: Scalar(ZERO_BITS), y: Scalar(SPAWN_HEIGHT_BITS), z: Scalar(ZERO_BITS) }
}

/// The simulation state of one connected player.
pub struct PlayerState {
    pub pos: Vec3,
    pub look: Vec3,
    pub input: PlayerInput,
    /// The chunk that the player's chunks are loaded around; `None` until
    /// the first tick.
    pub chunk_anchor: Option<ChunkCoord>,
    /// The chunks that the player has been sent and not been told to
    /// drop.
    pub loaded_chunks: ChunkSet,
}

/// The mathematical value of a [`PlayerState`].
pub struct PlayerView {
    pub pos: Vec3,
    pub look: Vec3,
    pub input: PlayerInput,
    pub chunk_anchor: Option<ChunkCoord>,
    pub loaded: Seq<ChunkCoord>,
}

impl View for PlayerState {
    type V = PlayerView;

    open spec fn view(&self) -> PlayerView {
        PlayerView {
            pos: self.pos,
            look: self.look,
            input: self.input,
            chunk_anchor: self.chunk_anchor,
            loaded: self.loaded_chunks@,
        }
    }
}

impl PlayerView {
    /// The state of a player who has just joined.
    pub open spec fn fresh() -> PlayerView {
        PlayerView {
            pos: spawn_point(),
            look: Vec3 { x: Scalar(ZERO_BITS), y: Scalar(ZERO_BITS), z: Scalar(ZERO_BITS) },
            input: PlayerInput::idle(),
            chunk_anchor: None,
            loaded: Seq::empty(),
        }
    }
}

impl PlayerState {
    pub open spec fn wf(&self) -> bool {
        self.loaded_chunks.wf()
    }
}

impl Default for PlayerState {
    fn default() -> (r: PlayerState)
        ensures
            r.wf(),
            r@ == PlayerView::fresh(),
    {
        PlayerState {
            pos: Vec3::new(Scalar(ZERO_BITS), Scalar(SPAWN_HEIGHT_BITS), Scalar(ZERO_BITS)),
            look: Vec3::zero(),
            input: PlayerInput::default(),
            chunk_anchor: None,
            loaded_chunks: ChunkSet::new(),
        }
    }
}

} // verus!
