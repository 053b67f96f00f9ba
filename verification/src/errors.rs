use vstd::prelude::*;

verus! {

/// The ways a command can be rejected.
///
/// Every rejection is an ordinary result value; the only fatal condition is
/// `CatalogMismatch`, which can arise only while a game is being constructed.
#[derive(Clone, Copy, PartialEq, Eq, Structural, Debug)]
pub enum GameError {
    /// A building footprint reaches outside the grid extent.
    OutOfBounds,
    /// A footprint tile collides with an existing building or road.
    TileBlocked,
    /// The ledger does not cover the cost of the command.
    InsufficientResources,
    /// The pathfinder exhausted its search without reaching the goal.
    NoRouteFound,
    /// A ledger was accessed at an out-of-range resource position.
    InvalidResourceIndex,
    /// The archetype list disagrees with the declared building-type count.
    CatalogMismatch,
}

} // verus!
