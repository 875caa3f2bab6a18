//! The manager's shared state: the container tree, the pending-sync
//! queue that batches redraw and reorder obligations, the emitted
//! change events, the focus order, and the fullscreen-transition
//! cooldowns.

use vstd::prelude::*;

use crate::tree::Tree;

verus! {

broadcast use vstd::std_specs::vec::group_vec_axioms;

/// Change events delivered to subscribers of the event stream.
#[derive(Clone, PartialEq, Eq, Debug)]
pub enum WmEvent {
    /// A workspace changed monitor or contents.
    WorkspaceUpdated { updated_workspace: usize },
    /// An empty, non-kept-alive workspace was deactivated.
    WorkspaceDeactivated { deactivated_workspace: usize },
    /// A monitor node was removed from the tree, with the recorded
    /// device name of the display it stood for.
    MonitorRemoved { removed_id: usize, removed_device_name: String },
    /// A monitor node was added for a newly seen native display.
    MonitorAdded { added_id: usize },
    /// A monitor node's recorded native identity was refreshed.
    MonitorUpdated { updated_id: usize },
}

/// Deduplicated sets of containers needing a geometry redraw and
/// workspaces needing their children reordered, accumulated across one
/// logical operation and flushed once at its end.
pub struct PendingSync {
    /// Containers to redraw, without duplicates.
    pub containers_to_redraw: Vec<usize>,
    /// Workspaces to reorder, without duplicates.
    pub workspaces_to_reorder: Vec<usize>,
}

impl PendingSync {
    /// Neither queue names an identifier twice.
    pub open spec fn inv(self) -> bool {
        &&& forall|i: int, j: int|
            #![trigger self.containers_to_redraw@[i], self.containers_to_redraw@[j]]
            0 <= i < j < self.containers_to_redraw@.len() ==> self.containers_to_redraw@[i]
                != self.containers_to_redraw@[j]
        &&& forall|i: int, j: int|
            #![trigger self.workspaces_to_reorder@[i], self.workspaces_to_reorder@[j]]
            0 <= i < j < self.workspaces_to_reorder@.len() ==> self.workspaces_to_reorder@[i]
                != self.workspaces_to_reorder@[j]
    }

    /// An empty queue.
    pub fn new() -> (r: PendingSync)
        ensures
            r.inv(),
            r.containers_to_redraw@.len() == 0,
            r.workspaces_to_reorder@.len() == 0,
    {
        PendingSync { containers_to_redraw: Vec::new(), workspaces_to_reorder: Vec::new() }
    }

    /// Mark one container for redraw; marking twice changes nothing.
    pub fn queue_container_to_redraw(&mut self, id: usize)
        requires
            old(self).inv(),
        ensures
            final(self).inv(),
            final(self).containers_to_redraw@.contains(id),
            forall|x: usize|
                #[trigger] final(self).containers_to_redraw@.contains(x) <==> (old(
                    self,
                ).containers_to_redraw@.contains(x) || x == id),
            final(self).workspaces_to_reorder == old(self).workspaces_to_reorder,
    {
        let n = self.containers_to_redraw.len();
        let mut k: usize = 0;
        while k < n
            invariant
                *self == *old(self),
                old(self).inv(),
                0 <= k <= n,
                n == self.containers_to_redraw@.len(),
                forall|j: int| 0 <= j < k ==> self.containers_to_redraw@[j] != id,
            decreases n - k,
        {
            if self.containers_to_redraw[k] == id {
                proof {
                    assert(self.containers_to_redraw@[k as int] == id);
                    assert(self.containers_to_redraw@.contains(id));
                }
                return ;
            }
            k += 1;
        }
        self.containers_to_redraw.push(id);
        proof {
            assert(self.containers_to_redraw@.last() == id);
            assert(self.containers_to_redraw@.contains(id));
            assert forall|x: usize| #[trigger]
                self.containers_to_redraw@.contains(x) implies (old(
                self,
            ).containers_to_redraw@.contains(x) || x == id) by {
                let j = choose|j: int|
                    0 <= j < self.containers_to_redraw@.len()
                        && self.containers_to_redraw@[j] == x;
                if j < old(self).containers_to_redraw@.len() {
                    assert(old(self).containers_to_redraw@[j] == x);
                }
            }
            assert forall|i: int, j: int|
                #![trigger self.containers_to_redraw@[i], self.containers_to_redraw@[j]]
                0 <= i < j < self.containers_to_redraw@.len() implies self.containers_to_redraw@[i]
                != self.containers_to_redraw@[j] by {
                if j == self.containers_to_redraw@.len() - 1 {
                    assert(self.containers_to_redraw@[i] == old(self).containers_to_redraw@[i]);
                    assert(self.containers_to_redraw@[j] == id);
                } else {
                    assert(self.containers_to_redraw@[i] == old(self).containers_to_redraw@[i]);
                    assert(self.containers_to_redraw@[j] == old(self).containers_to_redraw@[j]);
                }
            }
            assert forall|x: usize| old(self).containers_to_redraw@.contains(x) implies #[trigger]
                self.containers_to_redraw@.contains(x) by {
                let j = choose|j: int|
                    0 <= j < old(self).containers_to_redraw@.len() && old(
                        self,
                    ).containers_to_redraw@[j] == x;
                assert(self.containers_to_redraw@[j] == x);
            }
        }
    }

    /// Mark one workspace for reorder; marking twice changes nothing.
    pub fn queue_workspace_to_reorder(&mut self, id: usize)
        requires
            old(self).inv(),
        ensures
            final(self).inv(),
            final(self).workspaces_to_reorder@.contains(id),
            forall|x: usize|
                #[trigger] final(self).workspaces_to_reorder@.contains(x) <==> (old(
                    self,
                ).workspaces_to_reorder@.contains(x) || x == id),
            final(self).containers_to_redraw == old(self).containers_to_redraw,
    {
        let n = self.workspaces_to_reorder.len();
        let mut k: usize = 0;
        while k < n
            invariant
                *self == *old(self),
                old(self).inv(),
                0 <= k <= n,
                n == self.workspaces_to_reorder@.len(),
                forall|j: int| 0 <= j < k ==> self.workspaces_to_reorder@[j] != id,
            decreases n - k,
        {
            if self.workspaces_to_reorder[k] == id {
                proof {
                    assert(self.workspaces_to_reorder@[k as int] == id);
                    assert(self.workspaces_to_reorder@.contains(id));
                }
                return ;
            }
            k += 1;
        }
        self.workspaces_to_reorder.push(id);
        proof {
            assert(self.workspaces_to_reorder@.last() == id);
            assert(self.workspaces_to_reorder@.contains(id));
            assert forall|x: usize| #[trigger]
                self.workspaces_to_reorder@.contains(x) implies (old(
                self,
            ).workspaces_to_reorder@.contains(x) || x == id) by {
                let j = choose|j: int|
                    0 <= j < self.workspaces_to_reorder@.len()
                        && self.workspaces_to_reorder@[j] == x;
                if j < old(self).workspaces_to_reorder@.len() {
                    assert(old(self).workspaces_to_reorder@[j] == x);
                }
            }
            assert forall|i: int, j: int|
                #![trigger self.workspaces_to_reorder@[i], self.workspaces_to_reorder@[j]]
                0 <= i < j < self.workspaces_to_reorder@.len() implies self.workspaces_to_reorder@[i]
                != self.workspaces_to_reorder@[j] by {
                if j == self.workspaces_to_reorder@.len() - 1 {
                    assert(self.workspaces_to_reorder@[i] == old(self).workspaces_to_reorder@[i]);
                    assert(self.workspaces_to_reorder@[j] == id);
                } else {
                    assert(self.workspaces_to_reorder@[i] == old(self).workspaces_to_reorder@[i]);
                    assert(self.workspaces_to_reorder@[j] == old(self).workspaces_to_reorder@[j]);
                }
            }
            assert forall|x: usize| old(self).workspaces_to_reorder@.contains(x) implies #[trigger]
                self.workspaces_to_reorder@.contains(x) by {
                let j = choose|j: int|
                    0 <= j < old(self).workspaces_to_reorder@.len() && old(
                        self,
                    ).workspaces_to_reorder@[j] == x;
                assert(self.workspaces_to_reorder@[j] == x);
            }
        }
    }

    /// Hand the batched obligations out and leave the queue empty, so
    /// one logical operation flushes exactly once.
    pub fn take(&mut self) -> (r: (Vec<usize>, Vec<usize>))
        ensures
            final(self).containers_to_redraw@.len() == 0,
            final(self).workspaces_to_reorder@.len() == 0,
            final(self).inv(),
            r.0 == old(self).containers_to_redraw,
            r.1 == old(self).workspaces_to_reorder,
    {
        let mut a: Vec<usize> = Vec::new();
        let mut b: Vec<usize> = Vec::new();
        core::mem::swap(&mut a, &mut self.containers_to_redraw);
        core::mem::swap(&mut b, &mut self.workspaces_to_reorder);
        (a, b)
    }
}

/// One workspace entry of the user configuration.
#[derive(Clone, Copy, PartialEq, Eq, Structural, Debug)]
pub struct WorkspaceConfig {
    /// Keep the workspace alive even when it has no children.
    pub keep_alive: bool,
}

/// The user configuration the engine reads: the ordered workspace
/// entries.
pub struct UserConfig {
    /// Workspace entries; a workspace node refers to one by index.
    pub workspaces: Vec<WorkspaceConfig>,
}

/// The single-writer state every command and event handler mutates.
pub struct WmState {
    /// The container tree.
    pub tree: Tree,
    /// Batched redraw/reorder obligations of the operation in flight.
    pub pending_sync: PendingSync,
    /// Change events emitted so far, oldest first; the event stream
    /// hands them to subscribers.
    pub events: Vec<WmEvent>,
    /// Container identifiers, most recently focused first.
    pub focus_order: Vec<usize>,
    /// Native window handles with the instant they last entered or
    /// left fullscreen, newest last; consulted by the location-change
    /// handler to suppress flicker during the transition.
    pub fullscreen_cooldowns: Vec<(u64, u64)>,
    /// Native minimize requests the platform layer still has to issue.
    pub minimize_requests: Vec<u64>,
}

impl WmState {
    /// The tree is well formed and proportionally normalised, and the
    /// pending queues are duplicate-free.
    pub open spec fn inv(self) -> bool {
        &&& self.tree.wf()
        &&& self.tree.sums_ok()
        &&& self.pending_sync.inv()
    }

    /// A fresh state around an empty tree.
    pub fn new() -> (r: WmState)
        ensures
            r.inv(),
            r.tree.nodes@.len() == 1,
            r.events@.len() == 0,
    {
        WmState {
            tree: Tree::new(),
            pending_sync: PendingSync::new(),
            events: Vec::new(),
            focus_order: Vec::new(),
            fullscreen_cooldowns: Vec::new(),
            minimize_requests: Vec::new(),
        }
    }

    /// Append a change event for subscribers.
    pub fn emit_event(&mut self, ev: WmEvent)
        ensures
            final(self).events@ == old(self).events@.push(ev),
            final(self).tree == old(self).tree,
            final(self).pending_sync == old(self).pending_sync,
            final(self).focus_order == old(self).focus_order,
            final(self).fullscreen_cooldowns == old(self).fullscreen_cooldowns,
            final(self).minimize_requests == old(self).minimize_requests,
    {
        self.events.push(ev);
    }
}

} // verus!
