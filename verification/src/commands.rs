//! What the transport layer may ask of the simulation.

use vstd::prelude::*;
use crate::player::PlayerInput;

verus! {

/// A change that the simulation applies on behalf of a client.
#[derive(Copy, Clone, Eq, PartialEq, Debug, Structural)]
pub enum WorldCommand {
    /// Replaces the stored input of player `id`.
    PlayerMove { id: u32, input: PlayerInput },
}

} // verus!
