//! Container-tree state engine for a tiling window manager.
//!
//! The library keeps a logical hierarchy of monitors, workspaces, split
//! containers and windows, arranges tiling windows by proportional size
//! fractions, runs the per-window state machine, reconciles the monitor
//! nodes against the live set of native displays, and batches redraw and
//! reorder obligations so that one logical operation issues its native
//! effects exactly once.

pub mod geometry;
pub mod ipc;
pub mod monitors;
pub mod state;
pub mod tree;
pub mod window_state;

use vstd::prelude::*;

verus! {

/// Fixed-point unit for proportional tiling sizes: a parent's tiling
/// children always share exactly this total.
pub const TILING_UNIT: u64 = 10_000;

/// Structural failures of tree operations. Each aborts the operation
/// that raised it and leaves the tree in its last consistent state.
#[derive(Clone, Copy, PartialEq, Eq, Structural, Debug)]
pub enum WmError {
    /// The container has no parent to operate against.
    NoParent,
    /// A child index lay outside the parent's child sequence.
    IndexOutOfBounds,
    /// No other monitor remains to receive the workspaces of one that
    /// is being removed.
    NoTargetMonitor,
    /// The window was not in the state the transition expects.
    InvalidWindowState,
    /// The container is not reachable from any workspace.
    NoWorkspace,
    /// Every configured workspace is already active somewhere.
    NoWorkspaceConfig,
}

impl WmError {
    /// A short description of the failed precondition.
    pub fn message(&self) -> (r: &'static str)
        ensures
            r@.len() > 0,
    {
        let r = match self {
            WmError::NoParent => "container has no parent",
            WmError::IndexOutOfBounds => "child index out of bounds",
            WmError::NoTargetMonitor => "no target monitor to move workspaces",
            WmError::InvalidWindowState => "invalid window state",
            WmError::NoWorkspace => "container has no workspace",
            WmError::NoWorkspaceConfig => "no workspace config available",
        };
        proof {
            reveal_strlit("container has no parent");
            reveal_strlit("child index out of bounds");
            reveal_strlit("no target monitor to move workspaces");
            reveal_strlit("invalid window state");
            reveal_strlit("container has no workspace");
            reveal_strlit("no workspace config available");
        }
        r
    }
}

} // verus!
