//! Whether a level is won.

use vstd::prelude::*;
use crate::engine::ConnectionEngine;

verus! {

/// Whether the level is won, and how far the player has got: the number of
/// connections made, and the number that the level asks for.
#[derive(Clone, Copy, Debug, PartialEq, Eq, Structural)]
pub struct WinStatus {
    pub won: bool,
    pub connected_count: usize,
    pub win_threshold: usize,
}

/// The level is won where the path ends at a finish point and has as many
/// connections as the level asks for.
pub open spec fn status_of(engine: ConnectionEngine) -> WinStatus {
    WinStatus {
        won: engine.won() && engine.path().len() >= engine.level().win_threshold(),
        connected_count: engine.path().len() as usize,
        win_threshold: engine.level().win_threshold(),
    }
}

/// Computes `status_of`.
pub fn evaluate(engine: &ConnectionEngine) -> (status: WinStatus)
    requires
        engine.wf(),
    ensures
        status == status_of(*engine),
{
    let connected_count = engine.connections().len();
    let win_threshold = engine.level_data().win_count();
    WinStatus {
        won: engine.is_won() && connected_count >= win_threshold,
        connected_count,
        win_threshold,
    }
}

} // verus!
