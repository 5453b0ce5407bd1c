//! Values the registry hands to sessions: peer descriptions and join/leave
//! notifications.
use vstd::prelude::*;

verus! {

/// A connected player as announced to others: its identity and display color.
#[derive(Clone, Copy, Debug, PartialEq, Eq)]
pub struct PlayerInfo {
    pub id: u8,
    pub color: [u8; 3],
}

/// A notification pushed onto a player's queue when another player joins or
/// leaves.
#[derive(Clone, Copy, Debug, PartialEq, Eq)]
pub enum ConnectionUpdate {
    /// The player `id`, with display color `color`, has joined.
    Connected { id: u8, color: [u8; 3] },
    /// The player `id` has left.
    Disconnected { id: u8 },
}

} // verus!
