//! The container tree: an arena of typed nodes (root, monitors,
//! workspaces, split containers, tiling and non-tiling windows) keyed by
//! stable identifiers, together with the mutation primitives that keep
//! its invariants — parent/child consistency, the kind hierarchy, and
//! the proportional-size normalisation of tiling children.
//!
//! Identifiers are indices into the arena; a slot is never reused, so a
//! detached node's identifier stays valid and simply denotes a node that
//! is no longer reachable from the root.

use vstd::prelude::*;

use crate::geometry::Rect;

verus! {

broadcast use vstd::std_specs::vec::group_vec_axioms;

/// Layout direction of a split container.
#[derive(Clone, Copy, PartialEq, Eq, Structural, Debug)]
pub enum TilingDirection {
    Horizontal,
    Vertical,
}

/// Arrangement state of a window. Floating and fullscreen carry the
/// placement rectangle the window was given when it entered that state.
#[derive(Clone, Copy, PartialEq, Eq, Structural, Debug)]
pub enum WindowState {
    Tiling,
    Floating(Rect),
    Fullscreen(Rect),
    Minimized,
}

impl WindowState {
    /// Whether two states agree on their variant, ignoring geometry.
    pub open spec fn spec_same_variant(self, other: WindowState) -> bool {
        match (self, other) {
            (WindowState::Tiling, WindowState::Tiling) => true,
            (WindowState::Floating(_), WindowState::Floating(_)) => true,
            (WindowState::Fullscreen(_), WindowState::Fullscreen(_)) => true,
            (WindowState::Minimized, WindowState::Minimized) => true,
            _ => false,
        }
    }

    /// Variant-only comparison, used to decide whether a transition
    /// between two non-tiling states changes the kind of state.
    pub fn is_same_state(&self, other: &WindowState) -> (r: bool)
        ensures
            r == self.spec_same_variant(*other),
    {
        match (self, other) {
            (WindowState::Tiling, WindowState::Tiling) => true,
            (WindowState::Floating(_), WindowState::Floating(_)) => true,
            (WindowState::Fullscreen(_), WindowState::Fullscreen(_)) => true,
            (WindowState::Minimized, WindowState::Minimized) => true,
            _ => false,
        }
    }

    /// Whether the state is fullscreen, in any geometry.
    pub fn is_fullscreen(&self) -> (r: bool)
        ensures
            r == (self is Fullscreen),
    {
        matches!(self, WindowState::Fullscreen(_))
    }
}

/// The tiling position and share a window held when it left tiling,
/// remembered so a later return to tiling can restore them.
#[derive(Clone, Copy, PartialEq, Eq, Structural, Debug)]
pub struct InsertionTarget {
    /// Identifier of the parent the window was detached from.
    pub target_parent: usize,
    /// The window's index in that parent's children at the time.
    pub target_index: usize,
    /// The window's tiling-size fraction at the time.
    pub prev_tiling_size: u64,
    /// How many tiling siblings it had at the time.
    pub prev_sibling_count: usize,
}

/// Per-window data shared by tiling and non-tiling window nodes.
#[derive(Clone, Copy, PartialEq, Eq, Structural, Debug)]
pub struct WindowInfo {
    /// Native window handle.
    pub handle: u64,
    /// Proportional share of the parent, in `TILING_UNIT` parts;
    /// meaningful only while the window tiles.
    pub tiling_size: u64,
    /// Current arrangement state.
    pub state: WindowState,
    /// The state held before the current one, when the variant changed.
    pub prev_state: Option<WindowState>,
    /// Remembered tiling position, captured on leaving tiling.
    pub insertion_target: Option<InsertionTarget>,
    /// Placement used while floating.
    pub floating_placement: Rect,
    /// Whether the user chose the floating placement explicitly.
    pub has_custom_floating_placement: bool,
    /// Whether the window still needs a DPI re-check.
    pub has_pending_dpi_adjustment: bool,
}

/// Identity of a native display as the platform reports it. None of the
/// three identifiers is stable or unique on its own over time.
#[derive(Clone, Debug)]
pub struct NativeMonitorInfo {
    /// Volatile handle.
    pub handle: u64,
    /// Device path, when the platform can supply one.
    pub device_path: Option<String>,
    /// Hardware identifier; may repeat across connected monitors.
    pub hardware_id: Option<String>,
    /// Human-readable device name.
    pub device_name: String,
    /// Physical position and size.
    pub rect: Rect,
}

/// Per-workspace data.
#[derive(Clone, Copy, PartialEq, Eq, Structural, Debug)]
pub struct WorkspaceInfo {
    /// Index of the workspace's entry in the user configuration.
    pub config_index: usize,
    /// Whether the configuration keeps the workspace alive when empty.
    pub keep_alive: bool,
    /// Whether the workspace is currently displayed on its monitor.
    pub displayed: bool,
}

/// Per-split-container data.
#[derive(Clone, Copy, PartialEq, Eq, Structural, Debug)]
pub struct SplitInfo {
    /// Layout direction of the split.
    pub direction: TilingDirection,
    /// Proportional share of the parent, in `TILING_UNIT` parts.
    pub tiling_size: u64,
}

/// The closed set of node variants.
pub enum NodeKind {
    Root,
    Monitor(NativeMonitorInfo),
    Workspace(WorkspaceInfo),
    Split(SplitInfo),
    TilingWindow(WindowInfo),
    NonTilingWindow(WindowInfo),
}

/// One arena slot: its parent (an identifier), its ordered children,
/// its variant data, and a ghost depth that witnesses acyclicity.
pub struct Node {
    /// Parent identifier; `None` while detached (or for the root).
    pub parent: Option<usize>,
    /// Ordered child identifiers.
    pub children: Vec<usize>,
    /// Variant data.
    pub kind: NodeKind,
    /// Distance from a parentless node: a child is always one deeper
    /// than its parent, so no parent chain can cycle.
    pub depth: Ghost<nat>,
}

/// The container tree.
pub struct Tree {
    /// The arena; a node's identifier is its index here.
    pub nodes: Vec<Node>,
    /// Identifier of the root node.
    pub root: usize,
}

impl Tree {
    /// Whether `i` is an identifier of a node in the arena.
    pub open spec fn valid(self, i: int) -> bool {
        0 <= i < self.nodes@.len()
    }

    /// The node with identifier `i`.
    pub open spec fn node(self, i: int) -> Node {
        self.nodes@[i]
    }

    pub open spec fn is_root_kind(self, i: int) -> bool {
        self.node(i).kind is Root
    }

    pub open spec fn is_monitor(self, i: int) -> bool {
        self.node(i).kind is Monitor
    }

    pub open spec fn is_workspace(self, i: int) -> bool {
        self.node(i).kind is Workspace
    }

    pub open spec fn is_split(self, i: int) -> bool {
        self.node(i).kind is Split
    }

    pub open spec fn is_tiling_window(self, i: int) -> bool {
        self.node(i).kind is TilingWindow
    }

    pub open spec fn is_non_tiling_window(self, i: int) -> bool {
        self.node(i).kind is NonTilingWindow
    }

    pub open spec fn is_window(self, i: int) -> bool {
        self.is_tiling_window(i) || self.is_non_tiling_window(i)
    }

    /// A node that occupies a proportional share of its parent.
    pub open spec fn is_tiling(self, i: int) -> bool {
        self.is_tiling_window(i) || self.is_split(i)
    }

    /// The tiling-size fraction a node carries; zero for variants that
    /// carry none.
    pub open spec fn size_of(self, i: int) -> u64 {
        match self.node(i).kind {
            NodeKind::Split(s) => s.tiling_size,
            NodeKind::TilingWindow(w) => w.tiling_size,
            _ => 0,
        }
    }

    /// The window data of a window node.
    pub open spec fn window_of(self, i: int) -> WindowInfo {
        match self.node(i).kind {
            NodeKind::TilingWindow(w) => w,
            NodeKind::NonTilingWindow(w) => w,
            _ => arbitrary(),
        }
    }

    /// The workspace data of a workspace node.
    pub open spec fn workspace_info_of(self, i: int) -> WorkspaceInfo {
        match self.node(i).kind {
            NodeKind::Workspace(w) => w,
            _ => arbitrary(),
        }
    }

    /// The children sequence of `i`.
    pub open spec fn children_of(self, i: int) -> Seq<usize> {
        self.node(i).children@
    }

    /// Which child variants a parent variant may hold: monitors under
    /// the root, workspaces under monitors, splits and windows under
    /// workspaces, and splits and tiling windows under splits — so a
    /// non-tiling window is always a direct child of a workspace.
    pub open spec fn child_kind_ok(parent: NodeKind, child: NodeKind) -> bool {
        match parent {
            NodeKind::Root => child is Monitor,
            NodeKind::Monitor(_) => child is Workspace,
            NodeKind::Workspace(_) => child is Split || child is TilingWindow
                || child is NonTilingWindow,
            NodeKind::Split(_) => child is Split || child is TilingWindow,
            NodeKind::TilingWindow(_) => false,
            NodeKind::NonTilingWindow(_) => false,
        }
    }

    /// Structural well-formedness of one node: its parent link is
    /// mirrored by a child link and respects the kind hierarchy and the
    /// depth numbering; its child links are mirrored by parent links and
    /// name no identifier twice; windows are childless; stored
    /// rectangles are bounded.
    pub open spec fn wf_node(self, i: int) -> bool {
        let n = self.node(i);
        &&& match n.parent {
            Some(p) => {
                &&& self.valid(p as int)
                &&& self.children_of(p as int).contains(i as usize)
                &&& n.depth@ == self.node(p as int).depth@ + 1
                &&& Self::child_kind_ok(self.node(p as int).kind, n.kind)
            },
            None => true,
        }
        &&& forall|k: int|
            0 <= k < n.children@.len() ==> self.valid(#[trigger] n.children@[k] as int)
                && self.node(n.children@[k] as int).parent == Some(i as usize)
        &&& forall|k1: int, k2: int|
            #![trigger n.children@[k1], n.children@[k2]]
            0 <= k1 < k2 < n.children@.len() ==> n.children@[k1] != n.children@[k2]
        &&& self.is_window(i) ==> n.children@.len() == 0
        &&& self.is_tiling(i) ==> self.size_of(i) <= crate::TILING_UNIT
        &&& match n.kind {
            NodeKind::Monitor(m) => m.rect.bounded(),
            NodeKind::TilingWindow(w) => w.floating_placement.loosely_bounded(),
            NodeKind::NonTilingWindow(w) => w.floating_placement.loosely_bounded(),
            _ => true,
        }
    }

    /// Structural well-formedness of the whole tree.
    pub open spec fn wf(self) -> bool {
        &&& self.valid(self.root as int)
        &&& self.is_root_kind(self.root as int)
        &&& self.node(self.root as int).parent is None
        &&& self.node(self.root as int).depth@ == 0
        &&& forall|i: int| self.valid(i) ==> self.wf_node(i)
    }

    /// Sum of the tiling-size fractions of the tiling members of `cs`.
    pub open spec fn tiling_sum_of(self, cs: Seq<usize>) -> int
        decreases cs.len(),
    {
        if cs.len() == 0 {
            0
        } else {
            self.tiling_sum_of(cs.drop_last()) + if self.is_tiling(cs.last() as int) {
                self.size_of(cs.last() as int) as int
            } else {
                0
            }
        }
    }

    /// Sum of the tiling children's fractions of parent `i`.
    pub open spec fn tiling_sum(self, i: int) -> int {
        self.tiling_sum_of(self.children_of(i))
    }

    /// Whether `i` has at least one tiling child.
    pub open spec fn has_tiling_child(self, i: int) -> bool {
        exists|k: int|
            0 <= k < self.children_of(i).len() && self.is_tiling(
                #[trigger] self.children_of(i)[k] as int,
            )
    }

    /// A parent with tiling children has them share exactly one unit.
    pub open spec fn node_sum_ok(self, i: int) -> bool {
        self.has_tiling_child(i) ==> self.tiling_sum(i) == crate::TILING_UNIT
    }

    /// Proportional normalisation holds at every node.
    pub open spec fn sums_ok(self) -> bool {
        forall|i: int| self.valid(i) ==> self.node_sum_ok(i)
    }

    /// Proportional normalisation holds at every node but possibly `e`
    /// — the state a bare detach leaves the old parent in.
    pub open spec fn sums_ok_except(self, e: int) -> bool {
        forall|i: int| self.valid(i) && i != e ==> self.node_sum_ok(i)
    }

    /// A fresh tree holding only a root node.
    pub fn new() -> (t: Tree)
        ensures
            t.wf(),
            t.sums_ok(),
            t.nodes@.len() == 1,
            t.root == 0,
            t.children_of(0).len() == 0,
            t.is_root_kind(0),
    {
        let mut nodes: Vec<Node> = Vec::new();
        nodes.push(
            Node {
                parent: None,
                children: Vec::new(),
                kind: NodeKind::Root,
                depth: Ghost(0),
            },
        );
        let t = Tree { nodes, root: 0 };
        proof {
            assert forall|i: int| t.valid(i) implies t.wf_node(i) by {
                assert(i == 0);
            }
            assert forall|i: int| t.valid(i) implies t.node_sum_ok(i) by {
                assert(t.children_of(i).len() == 0);
            }
        }
        t
    }
}

/// Indexing facts about removing one position from a sequence.
pub proof fn lemma_remove_index(cs: Seq<usize>, pos: int)
    requires
        0 <= pos < cs.len(),
    ensures
        cs.remove(pos).len() == cs.len() - 1,
        forall|j: int| 0 <= j < pos ==> #[trigger] cs.remove(pos)[j] == cs[j],
        forall|j: int| pos <= j < cs.len() - 1 ==> #[trigger] cs.remove(pos)[j] == cs[j + 1],
{
}

/// Indexing facts about inserting one element into a sequence.
pub proof fn lemma_insert_index(cs: Seq<usize>, pos: int, x: usize)
    requires
        0 <= pos <= cs.len(),
    ensures
        cs.insert(pos, x).len() == cs.len() + 1,
        forall|j: int| 0 <= j < pos ==> #[trigger] cs.insert(pos, x)[j] == cs[j],
        cs.insert(pos, x)[pos] == x,
        forall|j: int| pos < j < cs.len() + 1 ==> #[trigger] cs.insert(pos, x)[j] == cs[j - 1],
{
}

impl Tree {
    /// The share one child adds to its parent's tiling sum.
    pub open spec fn share_of(self, c: int) -> int {
        if self.is_tiling(c) {
            self.size_of(c) as int
        } else {
            0
        }
    }

    /// Two trees that agree on the variant and size of every member of
    /// `cs` give `cs` the same tiling sum.
    pub proof fn lemma_sum_congruence(self, other: Tree, cs: Seq<usize>)
        requires
            forall|j: int|
                0 <= j < cs.len() ==> self.share_of(#[trigger] cs[j] as int) == other.share_of(
                    cs[j] as int,
                ),
        ensures
            self.tiling_sum_of(cs) == other.tiling_sum_of(cs),
        decreases cs.len(),
    {
        if cs.len() > 0 {
            self.lemma_sum_congruence(other, cs.drop_last());
        }
    }

    /// Removing one member lowers the tiling sum by its contribution.
    pub proof fn lemma_sum_remove(self, cs: Seq<usize>, pos: int)
        requires
            0 <= pos < cs.len(),
        ensures
            self.tiling_sum_of(cs.remove(pos)) == self.tiling_sum_of(cs) - self.share_of(
                cs[pos] as int,
            ),
        decreases cs.len(),
    {
        if pos == cs.len() - 1 {
            assert(cs.remove(pos) =~= cs.drop_last());
        } else {
            assert(cs.remove(pos).drop_last() =~= cs.drop_last().remove(pos));
            assert(cs.remove(pos).last() == cs.last());
            self.lemma_sum_remove(cs.drop_last(), pos);
        }
    }

    /// Inserting one member raises the tiling sum by its contribution.
    pub proof fn lemma_sum_insert(self, cs: Seq<usize>, pos: int, x: usize)
        requires
            0 <= pos <= cs.len(),
        ensures
            self.tiling_sum_of(cs.insert(pos, x)) == self.tiling_sum_of(cs) + self.share_of(
                x as int,
            ),
        decreases cs.len(),
    {
        if pos == cs.len() {
            assert(cs.insert(pos, x).drop_last() =~= cs);
        } else {
            assert(cs.insert(pos, x).drop_last() =~= cs.drop_last().insert(pos, x));
            assert(cs.insert(pos, x).last() == cs.last());
            self.lemma_sum_insert(cs.drop_last(), pos, x);
        }
    }

    /// A node that appears among some node's children is not its own
    /// parent's parent: a child sits one deeper than its parent, so no
    /// node is its own child.
    pub proof fn lemma_not_own_child(self, i: int)
        requires
            self.wf(),
            self.valid(i),
        ensures
            !self.children_of(i).contains(i as usize),
    {
        if self.children_of(i).contains(i as usize) {
            assert(self.wf_node(i));
            let k = choose|k: int|
                0 <= k < self.children_of(i).len() && self.children_of(i)[k] == i as usize;
            assert(self.node(i).parent == Some(i as usize));
            assert(self.node(i).depth@ == self.node(i).depth@ + 1);
        }
    }

    /// Find the position of `c` among the children of `p`.
    pub fn child_position(&self, p: usize, c: usize) -> (r: Option<usize>)
        requires
            self.valid(p as int),
        ensures
            match r {
                Some(k) => k < self.children_of(p as int).len() && self.children_of(p as int)[k as int]
                    == c && forall|j: int| 0 <= j < k ==> self.children_of(p as int)[j] != c,
                None => !self.children_of(p as int).contains(c),
            },
    {
        let cs = &self.nodes[p].children;
        let n = cs.len();
        let mut k: usize = 0;
        while k < n
            invariant
                n == self.children_of(p as int).len(),
                0 <= k <= n,
                self.valid(p as int),
                cs == &self.node(p as int).children,
                forall|j: int| 0 <= j < k ==> self.children_of(p as int)[j] != c,
            decreases n - k,
        {
            if cs[k] == c {
                return Some(k);
            }
            k += 1;
        }
        None
    }

    /// Unlink `c` from its parent's child sequence and clear its parent
    /// reference. Does not renormalise the old parent's tiling children:
    /// callers that detach a tiling container must do so. Fails when the
    /// container has no parent.
    pub fn detach(&mut self, c: usize) -> (r: Result<(), crate::WmError>)
        requires
            old(self).wf(),
            old(self).valid(c as int),
            old(self).sums_ok(),
        ensures
            match r {
                Ok(()) => {
                    let p = old(self).node(c as int).parent->Some_0 as int;
                    let cs = old(self).children_of(p);
                    &&& old(self).node(c as int).parent is Some
                    &&& final(self).nodes@.len() == old(self).nodes@.len()
                    &&& final(self).root == old(self).root
                    &&& final(self).node(c as int).parent is None
                    &&& final(self).node(c as int).children == old(self).node(c as int).children
                    &&& final(self).node(c as int).kind == old(self).node(c as int).kind
                    &&& final(self).node(c as int).depth == old(self).node(c as int).depth
                    &&& final(self).children_of(p) == cs.remove(cs.index_of(c))
                    &&& 0 <= cs.index_of(c) < cs.len() && cs[cs.index_of(c)] == c
                    &&& final(self).node(p).parent == old(self).node(p).parent
                    &&& final(self).node(p).kind == old(self).node(p).kind
                    &&& final(self).node(p).depth == old(self).node(p).depth
                    &&& forall|j: int|
                        final(self).valid(j) && j != c && j != p ==> final(self).node(j) == old(
                            self,
                        ).node(j)
                    &&& final(self).wf()
                    &&& final(self).sums_ok_except(p)
                    &&& final(self).tiling_sum(p) == old(self).tiling_sum(p) - old(self).share_of(
                        c as int,
                    )
                    &&& !old(self).is_tiling(c as int) ==> final(self).sums_ok()
                },
                Err(e) => {
                    &&& e == crate::WmError::NoParent
                    &&& old(self).node(c as int).parent is None
                    &&& *final(self) == *old(self)
                },
            },
    {
        let ghost t0 = *self;
        let p = match self.nodes[c].parent {
            Some(p) => p,
            None => {
                return Err(crate::WmError::NoParent);
            },
        };
        let pos = match self.child_position(p, c) {
            Some(k) => k,
            None => {
                proof {
                    assert(t0.wf_node(c as int));
                    assert(false);
                }
                return Err(crate::WmError::NoParent);
            },
        };
        let ghost cs = self.children_of(p as int);
        let pnode = &mut self.nodes[p];
        pnode.children.remove(pos);
        let cnode = &mut self.nodes[c];
        cnode.parent = None;
        proof {
            let t2 = *self;
            assert(t0.nodes.len() == t0.nodes@.len());
            assert(t0.nodes@.len() <= usize::MAX);
            assert(t2.nodes.len() == t2.nodes@.len());
            assert(t2.nodes@.len() <= usize::MAX);
            assert(cs[pos as int] == c);
            // The found position is the index_of position, children being
            // duplicate-free.
            assert(t0.wf_node(p as int));
            assert(cs.contains(c));
            let io = cs.index_of(c);
            assert(0 <= io < cs.len() && cs[io] == c);
            assert(io == pos as int) by {
                if io != pos as int {
                    assert(cs[io] == cs[pos as int]);
                }
            }
            lemma_remove_index(cs, pos as int);
            t0.lemma_not_own_child(p as int);
            assert(c != p);
            t0.lemma_not_own_child(c as int);
            // Well-formedness of every node in the new tree.
            assert forall|i: int| t2.valid(i) implies t2.wf_node(i) by {
                assert(t0.wf_node(i));
                let n2 = t2.node(i);
                if i == c {
                    assert forall|k: int| 0 <= k < n2.children@.len() implies t2.valid(
                        #[trigger] n2.children@[k] as int,
                    ) && t2.node(n2.children@[k] as int).parent == Some(i as usize) by {
                        assert(t0.node(n2.children@[k] as int).parent == Some(c as usize));
                        assert(n2.children@[k] != c);
                        assert(n2.children@[k] != p || c == p);
                    }
                } else if i == p {
                    let cs2 = t2.children_of(p as int);
                    assert forall|k: int| 0 <= k < cs2.len() implies t2.valid(
                        #[trigger] cs2[k] as int,
                    ) && t2.node(cs2[k] as int).parent == Some(p as usize) by {
                        assert(cs2[k] == if k < pos as int {
                            cs[k]
                        } else {
                            cs[k + 1]
                        });
                        assert(cs.contains(cs2[k]));
                        assert(cs2[k] != c);
                    }
                    assert forall|k1: int, k2: int|
                        #![trigger cs2[k1], cs2[k2]]
                        0 <= k1 < k2 < cs2.len() implies cs2[k1] != cs2[k2] by {
                        let a1 = if k1 < pos as int { k1 } else { k1 + 1 };
                        let a2 = if k2 < pos as int { k2 } else { k2 + 1 };
                        assert(cs2[k1] == cs[a1] && cs2[k2] == cs[a2]);
                    }
                    match n2.parent {
                        Some(q) => {
                            assert(t0.children_of(q as int).contains(p as usize));
                            assert(q != c || t0.node(c as int).children@.len() == 0);
                            assert(t2.children_of(q as int).contains(p as usize));
                        },
                        None => {},
                    }
                } else {
                    // Children unchanged; none of them is `c`, whose old
                    // parent was `p`, not `i`.
                    assert forall|k: int| 0 <= k < n2.children@.len() implies t2.valid(
                        #[trigger] n2.children@[k] as int,
                    ) && t2.node(n2.children@[k] as int).parent == Some(i as usize) by {
                        assert(t0.wf_node(i));
                        assert(t0.node(n2.children@[k] as int).parent == Some(i as usize));
                        if n2.children@[k] == c {
                            assert(n2.children@[k] as int == c as int);
                            assert(t0.node(c as int).parent == Some(i as usize));
                            assert(t0.node(c as int).parent == Some(p));
                            assert(i as usize == p);
                            assert(i == p as int);
                            assert(false);
                        }
                    }
                    match n2.parent {
                        Some(q) => {
                            if q == p {
                                assert(cs.contains(i as usize));
                                let ki = choose|ki: int| 0 <= ki < cs.len() && cs[ki] == i as usize;
                                assert(0 <= i < t0.nodes@.len());
                                if i as usize == c {
                                    assert(i == c as int);
                                    assert(false);
                                }
                                assert(ki != pos as int);
                                if ki < pos as int {
                                    assert(t2.children_of(p as int)[ki] == cs[ki]);
                                } else {
                                    assert(t2.children_of(p as int)[ki - 1] == cs[ki]);
                                }
                                assert(t2.children_of(q as int).contains(i as usize));
                            } else {
                                assert(t0.children_of(q as int).contains(i as usize));
                            }
                        },
                        None => {},
                    }
                }
            }
            // Sums: every parent but `p` keeps its children and their
            // contributions; `p` loses exactly the contribution of `c`.
            t0.lemma_sum_remove(cs, pos as int);
            t2.lemma_sum_congruence(t0, cs.remove(pos as int));
            assert(t2.tiling_sum(p as int) == t0.tiling_sum(p as int) - t0.share_of(c as int));
            assert forall|i: int| t2.valid(i) && i != p implies t2.node_sum_ok(i) by {
                assert(t0.node_sum_ok(i));
                t2.lemma_sum_congruence(t0, t2.children_of(i));
                assert(t2.children_of(i) == t0.children_of(i));
            }
            if !t0.is_tiling(c as int) {
                assert(t2.node_sum_ok(p as int)) by {
                    assert(t0.node_sum_ok(p as int));
                    if t2.has_tiling_child(p as int) {
                        let k = choose|k: int|
                            0 <= k < t2.children_of(p as int).len() && t2.is_tiling(
                                t2.children_of(p as int)[k] as int,
                            );
                        assert(cs.contains(t2.children_of(p as int)[k]));
                        assert(t0.has_tiling_child(p as int));
                    }
                }
            }
        }
        Ok(())
    }

    /// Bounds that every node's variant data must satisfy to enter the
    /// arena.
    pub open spec fn kind_data_ok(kind: NodeKind) -> bool {
        match kind {
            NodeKind::Monitor(m) => m.rect.bounded(),
            NodeKind::TilingWindow(w) => w.floating_placement.loosely_bounded() && w.tiling_size
                <= crate::TILING_UNIT,
            NodeKind::NonTilingWindow(w) => w.floating_placement.loosely_bounded(),
            NodeKind::Split(s) => s.tiling_size <= crate::TILING_UNIT,
            _ => true,
        }
    }

    /// Append a fresh, detached, childless node and return its
    /// identifier. Identifiers of existing nodes are untouched.
    pub fn push_node(&mut self, kind: NodeKind) -> (id: usize)
        requires
            old(self).wf(),
            Self::kind_data_ok(kind),
            !(kind is Root),
        ensures
            final(self).nodes@.len() == old(self).nodes@.len() + 1,
            id == old(self).nodes@.len(),
            final(self).root == old(self).root,
            final(self).node(id as int).parent is None,
            final(self).node(id as int).children@.len() == 0,
            final(self).node(id as int).kind == kind,
            final(self).node(id as int).depth@ == 0,
            forall|j: int| old(self).valid(j) ==> final(self).node(j) == old(self).node(j),
            final(self).wf(),
            old(self).sums_ok() ==> final(self).sums_ok(),
            forall|j: int|
                old(self).valid(j) ==> final(self).tiling_sum(j) == old(self).tiling_sum(j),
    {
        let ghost t0 = *self;
        let id = self.nodes.len();
        self.nodes.push(
            Node { parent: None, children: Vec::new(), kind, depth: Ghost(0) },
        );
        proof {
            let t2 = *self;
            assert forall|i: int| t2.valid(i) implies t2.wf_node(i) by {
                if i < id {
                    assert(t0.wf_node(i));
                }
            }
            assert forall|j: int| t0.valid(j) implies t2.tiling_sum(j) == t0.tiling_sum(j) by {
                t2.lemma_sum_congruence(t0, t0.children_of(j));
            }
            if t0.sums_ok() {
                assert forall|i: int| t2.valid(i) implies t2.node_sum_ok(i) by {
                    if i < id {
                        assert(t0.node_sum_ok(i));
                    } else {
                        assert(t2.children_of(i).len() == 0);
                    }
                }
            }
        }
        id
    }

    /// Link the parentless node `c` under `p` at child position `idx`.
    /// The new child's share is not renormalised here: callers that
    /// attach a tiling container must renormalise `p` afterwards.
    pub(crate) fn attach(&mut self, c: usize, p: usize, idx: usize)
        requires
            old(self).wf(),
            old(self).valid(c as int),
            old(self).valid(p as int),
            old(self).node(c as int).parent is None,
            c != old(self).root,
            c != p,
            Self::child_kind_ok(old(self).node(p as int).kind, old(self).node(c as int).kind),
            idx <= old(self).children_of(p as int).len(),
            old(self).children_of(c as int).len() == 0 || old(self).node(c as int).depth@ == old(
                self,
            ).node(p as int).depth@ + 1,
        ensures
            final(self).nodes@.len() == old(self).nodes@.len(),
            final(self).root == old(self).root,
            final(self).node(c as int).parent == Some(p),
            final(self).node(c as int).children == old(self).node(c as int).children,
            final(self).node(c as int).kind == old(self).node(c as int).kind,
            final(self).node(c as int).depth@ == old(self).node(p as int).depth@ + 1,
            final(self).children_of(p as int) == old(self).children_of(p as int).insert(
                idx as int,
                c,
            ),
            final(self).node(p as int).parent == old(self).node(p as int).parent,
            final(self).node(p as int).kind == old(self).node(p as int).kind,
            final(self).node(p as int).depth == old(self).node(p as int).depth,
            forall|j: int|
                final(self).valid(j) && j != c && j != p ==> final(self).node(j) == old(self).node(
                    j,
                ),
            final(self).wf(),
            final(self).tiling_sum(p as int) == old(self).tiling_sum(p as int) + old(
                self,
            ).share_of(c as int),
            forall|j: int|
                final(self).valid(j) && j != p ==> final(self).tiling_sum(j) == old(
                    self,
                ).tiling_sum(j) && final(self).children_of(j) == old(self).children_of(j),
    {
        let ghost t0 = *self;
        let ghost cs = self.children_of(p as int);
        let ghost pd = self.node(p as int).depth@;
        proof {
            assert(t0.nodes.len() == t0.nodes@.len());
            assert(t0.nodes@.len() <= usize::MAX);
            // `c` is nobody's child: its parent reference is empty.
            assert forall|j: int, k: int|
                t0.valid(j) && 0 <= k < t0.children_of(j).len() implies #[trigger] t0.children_of(
                j,
            )[k] != c by {
                assert(t0.wf_node(j));
                if t0.children_of(j)[k] == c {
                    assert(t0.node(c as int).parent == Some(j as usize));
                }
            }
        }
        let pnode = &mut self.nodes[p];
        pnode.children.insert(idx, c);
        let ghost dnew = pd + 1;
        let cnode = &mut self.nodes[c];
        cnode.parent = Some(p);
        cnode.depth = Ghost(dnew);
        proof {
            let t2 = *self;
            assert(t2.nodes.len() == t2.nodes@.len());
            assert(t2.nodes@.len() <= usize::MAX);
            lemma_insert_index(cs, idx as int, c);
            assert(t2.children_of(p as int) == cs.insert(idx as int, c));
            assert forall|i: int| t2.valid(i) implies t2.wf_node(i) by {
                assert(t0.wf_node(i));
                let n2 = t2.node(i);
                if i == c {
                    assert(t2.children_of(p as int)[idx as int] == c);
                    assert(t2.children_of(p as int).contains(c));
                    if t0.children_of(c as int).len() > 0 {
                        assert(n2.depth@ == t2.node(p as int).depth@ + 1);
                    }
                    assert forall|k: int| 0 <= k < n2.children@.len() implies t2.valid(
                        #[trigger] n2.children@[k] as int,
                    ) && t2.node(n2.children@[k] as int).parent == Some(i as usize) by {
                        let x = n2.children@[k];
                        assert(t0.children_of(c as int)[k] == x);
                        assert(t0.node(x as int).parent == Some(c as usize));
                        assert(x != c);
                    }
                } else if i == p {
                    let cs2 = t2.children_of(p as int);
                    assert forall|k: int| 0 <= k < cs2.len() implies t2.valid(
                        #[trigger] cs2[k] as int,
                    ) && t2.node(cs2[k] as int).parent == Some(p as usize) by {
                        if k == idx as int {
                            assert(cs2[k] == c);
                        } else {
                            let a = if k < idx as int { k } else { k - 1 };
                            assert(cs2[k] == cs[a]);
                            assert(cs[a] != c);
                        }
                    }
                    assert forall|k1: int, k2: int|
                        #![trigger cs2[k1], cs2[k2]]
                        0 <= k1 < k2 < cs2.len() implies cs2[k1] != cs2[k2] by {
                        if k1 == idx as int {
                            assert(cs2[k1] == c && cs2[k2] == cs[k2 - 1]);
                        } else if k2 == idx as int {
                            assert(cs2[k2] == c && cs2[k1] == cs[k1]);
                        } else {
                            let a1 = if k1 < idx as int { k1 } else { k1 - 1 };
                            let a2 = if k2 < idx as int { k2 } else { k2 - 1 };
                            assert(cs2[k1] == cs[a1] && cs2[k2] == cs[a2]);
                        }
                    }
                    assert(!t0.is_window(p as int)) by {
                        assert(Self::child_kind_ok(
                            t0.node(p as int).kind,
                            t0.node(c as int).kind,
                        ));
                    }
                    match n2.parent {
                        Some(q) => {
                            assert(q != c) by {
                                if q == c {
                                    assert(t0.children_of(c as int).contains(p as usize));
                                    assert(t0.children_of(c as int).len() > 0);
                                    assert(t0.node(c as int).depth@ == t0.node(p as int).depth@
                                        + 1);
                                    assert(t0.node(p as int).depth@ == t0.node(c as int).depth@
                                        + 1);
                                }
                            }
                            assert(q != p) by {
                                if q == p {
                                    assert(t0.node(p as int).depth@ == t0.node(p as int).depth@
                                        + 1);
                                }
                            }
                            assert(t2.children_of(q as int) == t0.children_of(q as int));
                            assert(t2.children_of(q as int).contains(p as usize));
                        },
                        None => {},
                    }
                } else {
                    assert forall|k: int| 0 <= k < n2.children@.len() implies t2.valid(
                        #[trigger] n2.children@[k] as int,
                    ) && t2.node(n2.children@[k] as int).parent == Some(i as usize) by {
                        assert(t0.children_of(i)[k] == n2.children@[k]);
                        assert(n2.children@[k] != c);
                        assert(t0.node(n2.children@[k] as int).parent == Some(i as usize));
                    }
                    match n2.parent {
                        Some(q) => {
                            if q == p {
                                assert(cs.contains(i as usize));
                                let ki = choose|ki: int| 0 <= ki < cs.len() && cs[ki] == i as usize;
                                if ki < idx as int {
                                    assert(t2.children_of(p as int)[ki] == cs[ki]);
                                } else {
                                    assert(t2.children_of(p as int)[ki + 1] == cs[ki]);
                                }
                                assert(t2.children_of(q as int).contains(i as usize));
                            } else {
                                assert(t2.children_of(q as int) == t0.children_of(q as int));
                                assert(t0.children_of(q as int).contains(i as usize));
                            }
                        },
                        None => {},
                    }
                }
            }
            t0.lemma_sum_insert(cs, idx as int, c);
            t2.lemma_sum_congruence(t0, cs.insert(idx as int, c));
            assert forall|j: int| t2.valid(j) && j != p implies t2.tiling_sum(j) == t0.tiling_sum(
                j,
            ) && t2.children_of(j) == t0.children_of(j) by {
                t2.lemma_sum_congruence(t0, t0.children_of(j));
            }
        }
    }

    /// Variant agreement decides tiling-ness.
    pub proof fn lemma_variant_tiling(a: NodeKind, b: NodeKind)
        requires
            Self::kind_same_variant(a, b),
        ensures
            (a is TilingWindow) == (b is TilingWindow),
            (a is Split) == (b is Split),
            (a is Monitor) == (b is Monitor),
            (a is Workspace) == (b is Workspace),
            (a is NonTilingWindow) == (b is NonTilingWindow),
            (a is Root) == (b is Root),
    {
    }

    /// Whether two variant tags agree, ignoring the data they carry.
    pub open spec fn kind_same_variant(a: NodeKind, b: NodeKind) -> bool {
        match (a, b) {
            (NodeKind::Root, NodeKind::Root) => true,
            (NodeKind::Monitor(_), NodeKind::Monitor(_)) => true,
            (NodeKind::Workspace(_), NodeKind::Workspace(_)) => true,
            (NodeKind::Split(_), NodeKind::Split(_)) => true,
            (NodeKind::TilingWindow(_), NodeKind::TilingWindow(_)) => true,
            (NodeKind::NonTilingWindow(_), NodeKind::NonTilingWindow(_)) => true,
            _ => false,
        }
    }

    /// Two trees of the same shape: same arena size and root, and every
    /// node keeps its links, its depth and its variant — only variant
    /// data may differ.
    pub open spec fn same_shape(self, b: Tree) -> bool {
        &&& self.nodes@.len() == b.nodes@.len()
        &&& self.root == b.root
        &&& forall|i: int|
            self.valid(i) ==> b.node(i).parent == self.node(i).parent && b.node(i).children
                == #[trigger] self.node(i).children && b.node(i).depth == self.node(i).depth
                && Self::kind_same_variant(self.node(i).kind, b.node(i).kind)
    }

    /// Changing only variant data, within its bounds, keeps a tree
    /// well formed.
    pub proof fn lemma_same_shape_wf(self, b: Tree)
        requires
            self.wf(),
            self.same_shape(b),
            forall|i: int| b.valid(i) ==> Self::kind_data_ok(#[trigger] b.node(i).kind),
        ensures
            b.wf(),
    {
        assert forall|i: int| b.valid(i) implies b.wf_node(i) by {
            assert(self.wf_node(i));
            let na = self.node(i);
            let nb = b.node(i);
            match nb.parent {
                Some(p) => {
                    assert(Self::kind_same_variant(self.node(p as int).kind, b.node(p as int).kind));
                    assert(Self::child_kind_ok(b.node(p as int).kind, nb.kind));
                },
                None => {},
            }
        }
    }

    /// Sum of the shares of the first `k` members of `cs`.
    pub open spec fn prefix_share(self, cs: Seq<usize>, k: int) -> int
        decreases k,
    {
        if k <= 0 {
            0
        } else {
            self.prefix_share(cs, k - 1) + self.share_of(cs[k - 1] as int)
        }
    }

    /// Number of tiling members among the first `k` of `cs`.
    pub open spec fn prefix_count(self, cs: Seq<usize>, k: int) -> int
        decreases k,
    {
        if k <= 0 {
            0
        } else {
            self.prefix_count(cs, k - 1) + if self.is_tiling(cs[k - 1] as int) {
                1int
            } else {
                0int
            }
        }
    }

    /// Cumulative normalised quota after the first `k` members: the
    /// members' shares scaled so the whole sequence reaches exactly one
    /// unit, falling back to an equal division when every share is zero.
    #[verifier::opaque]
    pub open spec fn quota(self, cs: Seq<usize>, k: int, target: int) -> int {
        let total = self.prefix_share(cs, cs.len() as int);
        let cnt = self.prefix_count(cs, cs.len() as int);
        if total > 0 {
            self.prefix_share(cs, k) * target / total
        } else if cnt > 0 {
            self.prefix_count(cs, k) * target / cnt
        } else {
            0
        }
    }

    /// The normalised share of the member at position `k`: quota
    /// differences telescope, so the tiling members sum to one unit.
    pub open spec fn renorm_share_at(self, cs: Seq<usize>, k: int, target: int) -> int {
        self.quota(cs, k + 1, target) - self.quota(cs, k, target)
    }

    /// The same variant data with the tiling share replaced; identity
    /// for variants that carry none.
    pub open spec fn with_size(kind: NodeKind, s: u64) -> NodeKind {
        match kind {
            NodeKind::Split(d) => NodeKind::Split(SplitInfo { tiling_size: s, ..d }),
            NodeKind::TilingWindow(w) => NodeKind::TilingWindow(
                WindowInfo { tiling_size: s, ..w },
            ),
            _ => kind,
        }
    }

    /// The normalised share formula depends only on the members'
    /// variants and shares.
    pub proof fn lemma_renorm_share_congruent(
        self,
        b: Tree,
        cs: Seq<usize>,
        k: int,
        target: int,
    )
        requires
            0 <= k < cs.len(),
            forall|j: int|
                0 <= j < cs.len() ==> self.share_of(#[trigger] cs[j] as int) == b.share_of(
                    cs[j] as int,
                ) && self.is_tiling(cs[j] as int) == b.is_tiling(cs[j] as int),
        ensures
            self.renorm_share_at(cs, k, target) == b.renorm_share_at(cs, k, target),
    {
        reveal(Tree::quota);
        self.lemma_prefix_agree(b, cs, k);
        self.lemma_prefix_agree(b, cs, k + 1);
        self.lemma_prefix_agree(b, cs, cs.len() as int);
    }

    /// Prefix sums only read the members they cover.
    pub proof fn lemma_prefix_agree(self, b: Tree, cs: Seq<usize>, k: int)
        requires
            forall|j: int|
                0 <= j < k ==> self.share_of(#[trigger] cs[j] as int) == b.share_of(cs[j] as int)
                    && self.is_tiling(cs[j] as int) == b.is_tiling(cs[j] as int),
        ensures
            self.prefix_share(cs, k) == b.prefix_share(cs, k),
            self.prefix_count(cs, k) == b.prefix_count(cs, k),
        decreases k,
    {
        if k > 0 {
            self.lemma_prefix_agree(b, cs, k - 1);
        }
    }

    /// The full prefix sum is the tiling sum.
    pub proof fn lemma_prefix_total(self, cs: Seq<usize>)
        ensures
            self.prefix_share(cs, cs.len() as int) == self.tiling_sum_of(cs),
        decreases cs.len(),
    {
        if cs.len() > 0 {
            let dl = cs.drop_last();
            self.lemma_prefix_total(dl);
            assert forall|j: int| 0 <= j < dl.len() implies self.share_of(
                #[trigger] dl[j] as int,
            ) == self.share_of(cs[j] as int) && self.is_tiling(dl[j] as int) == self.is_tiling(
                cs[j] as int,
            ) by {
                assert(dl[j] == cs[j]);
            }
            self.lemma_prefix_share_take(cs, dl);
        }
    }

    /// Helper: prefix sums over `cs` and its drop-last agree on the
    /// shared range.
    pub proof fn lemma_prefix_share_take(self, cs: Seq<usize>, dl: Seq<usize>)
        requires
            dl.len() + 1 == cs.len(),
            forall|j: int| 0 <= j < dl.len() ==> #[trigger] dl[j] == cs[j],
        ensures
            self.prefix_share(cs, dl.len() as int) == self.prefix_share(dl, dl.len() as int),
            self.prefix_count(cs, dl.len() as int) == self.prefix_count(dl, dl.len() as int),
        decreases dl.len(),
    {
        self.lemma_prefix_eq_members(cs, dl, dl.len() as int);
    }

    /// Prefix sums agree on any range where the members agree.
    pub proof fn lemma_prefix_eq_members(self, cs: Seq<usize>, ds: Seq<usize>, k: int)
        requires
            k <= cs.len(),
            k <= ds.len(),
            forall|j: int| 0 <= j < k ==> #[trigger] ds[j] == cs[j],
        ensures
            self.prefix_share(cs, k) == self.prefix_share(ds, k),
            self.prefix_count(cs, k) == self.prefix_count(ds, k),
        decreases k,
    {
        if k > 0 {
            self.lemma_prefix_eq_members(cs, ds, k - 1);
        }
    }

    /// Prefix sums are non-negative and grow monotonically.
    pub proof fn lemma_prefix_monotone(self, cs: Seq<usize>, j: int, k: int)
        requires
            j <= k,
        ensures
            self.prefix_share(cs, j) <= self.prefix_share(cs, k),
            self.prefix_count(cs, j) <= self.prefix_count(cs, k),
            0 <= self.prefix_share(cs, 0),
            self.prefix_share(cs, 0) == 0,
            self.prefix_count(cs, 0) == 0,
        decreases k - j,
    {
        if j < k {
            self.lemma_prefix_monotone(cs, j, k - 1);
        }
    }

    /// Quotas run monotonically from zero to exactly one unit (when the
    /// sequence has a tiling member at all).
    pub proof fn lemma_quota_bounds(self, cs: Seq<usize>, j: int, k: int, target: int)
        requires
            0 <= j <= k <= cs.len(),
            0 <= target,
        ensures
            self.quota(cs, j, target) <= self.quota(cs, k, target),
            self.quota(cs, 0, target) == 0,
            self.prefix_count(cs, cs.len() as int) > 0 ==> self.quota(cs, cs.len() as int, target)
                == target,
            self.prefix_count(cs, cs.len() as int) == 0 ==> self.quota(
                cs,
                cs.len() as int,
                target,
            ) == 0,
    {
        reveal(Tree::quota);
        let total = self.prefix_share(cs, cs.len() as int);
        let cnt = self.prefix_count(cs, cs.len() as int);
        let u = target;
        self.lemma_prefix_monotone(cs, j, k);
        self.lemma_prefix_monotone(cs, 0, j);
        self.lemma_prefix_monotone(cs, 0, cs.len() as int);
        if total > 0 {
            assert(self.prefix_share(cs, j) * u <= self.prefix_share(cs, k) * u) by (nonlinear_arith)
                requires self.prefix_share(cs, j) <= self.prefix_share(cs, k), u >= 0;
            vstd::arithmetic::div_mod::lemma_div_is_ordered(
                self.prefix_share(cs, j) * u,
                self.prefix_share(cs, k) * u,
                total,
            );
            assert(total * u / total == u) by {
                vstd::arithmetic::div_mod::lemma_div_by_multiple(u, total);
                assert(total * u == u * total) by (nonlinear_arith);
            }
            assert(cnt > 0 ==> self.quota(cs, cs.len() as int, target) == u);
            if cnt == 0 {
                self.lemma_count_zero_share_zero(cs, cs.len() as int);
            }
        } else if cnt > 0 {
            assert(self.prefix_count(cs, j) * u <= self.prefix_count(cs, k) * u) by (nonlinear_arith)
                requires self.prefix_count(cs, j) <= self.prefix_count(cs, k), u >= 0;
            vstd::arithmetic::div_mod::lemma_div_is_ordered(
                self.prefix_count(cs, j) * u,
                self.prefix_count(cs, k) * u,
                cnt,
            );
            assert(cnt * u / cnt == u) by {
                vstd::arithmetic::div_mod::lemma_div_by_multiple(u, cnt);
                assert(cnt * u == u * cnt) by (nonlinear_arith);
            }
        }
    }

    /// A prefix with no tiling member has share zero.
    pub proof fn lemma_count_zero_share_zero(self, cs: Seq<usize>, k: int)
        requires
            self.prefix_count(cs, k) == 0,
            0 <= k <= cs.len(),
        ensures
            self.prefix_share(cs, k) == 0,
        decreases k,
    {
        if k > 0 {
            self.lemma_prefix_monotone(cs, k - 1, k);
            self.lemma_prefix_monotone(cs, 0, k - 1);
            self.lemma_count_zero_share_zero(cs, k - 1);
        }
    }

    /// A positive prefix count exhibits a tiling member.
    pub proof fn lemma_count_pos_witness(self, cs: Seq<usize>, k: int)
        requires
            0 <= k <= cs.len(),
            self.prefix_count(cs, k) > 0,
        ensures
            exists|j: int| 0 <= j < k && self.is_tiling(#[trigger] cs[j] as int),
        decreases k,
    {
        if k > 0 && !self.is_tiling(cs[k - 1] as int) {
            self.lemma_count_pos_witness(cs, k - 1);
        }
    }

    /// A tiling member makes the prefix count positive.
    pub proof fn lemma_witness_count_pos(self, cs: Seq<usize>, j: int, k: int)
        requires
            0 <= j < k <= cs.len(),
            self.is_tiling(cs[j] as int),
        ensures
            self.prefix_count(cs, k) > 0,
        decreases k,
    {
        self.lemma_prefix_monotone(cs, 0, j);
        if j < k - 1 {
            self.lemma_witness_count_pos(cs, j, k - 1);
            self.lemma_prefix_monotone(cs, k - 1, k);
        }
    }

    /// Read whether a node is a tiling container.
    pub fn node_is_tiling(&self, i: usize) -> (r: bool)
        requires
            self.valid(i as int),
        ensures
            r == self.is_tiling(i as int),
    {
        matches!(&self.nodes[i].kind, NodeKind::Split(_) | NodeKind::TilingWindow(_))
    }

    /// Read the tiling share a node carries.
    pub fn node_share(&self, i: usize) -> (r: u64)
        requires
            self.valid(i as int),
        ensures
            r == self.share_of(i as int),
    {
        match &self.nodes[i].kind {
            NodeKind::Split(s) => s.tiling_size,
            NodeKind::TilingWindow(w) => w.tiling_size,
            _ => 0,
        }
    }

    /// Rescale the tiling children of `p` so their shares sum to
    /// exactly one unit, each receiving its proportional quota (an
    /// equal division when every share was zero). A parent without
    /// tiling children is left untouched.
    /// Replace the tiling share of node `i`, leaving everything else
    /// as it was.
    pub(crate) fn set_share(&mut self, i: usize, s: u64)
        requires
            old(self).valid(i as int),
        ensures
            final(self).nodes@.len() == old(self).nodes@.len(),
            final(self).root == old(self).root,
            final(self).node(i as int) == (Node {
                kind: Self::with_size(old(self).node(i as int).kind, s),
                ..old(self).node(i as int)
            }),
            forall|j: int|
                final(self).valid(j) && j != i ==> final(self).node(j) == old(self).node(j),
    {
        let cnode = &mut self.nodes[i];
        match &mut cnode.kind {
            NodeKind::Split(d) => d.tiling_size = s,
            NodeKind::TilingWindow(w) => w.tiling_size = s,
            _ => {},
        }
    }

    /// A well-formed node's variant data is within bounds.
    pub proof fn lemma_wf_kind_data(self, i: int)
        requires
            self.wf(),
            self.valid(i),
        ensures
            Self::kind_data_ok(self.node(i).kind),
    {
        assert(self.wf_node(i));
    }

    /// The arena after the first `k` children in `cs` have received
    /// their normalised shares.
    pub open spec fn renorm_partial(self, cs: Seq<usize>, k: int, target: int) -> Seq<Node>
        decreases k,
    {
        if k <= 0 {
            self.nodes@
        } else {
            let prev = self.renorm_partial(cs, k - 1, target);
            let c = cs[k - 1] as int;
            if self.is_tiling(c) {
                prev.update(
                    c,
                    Node {
                        kind: Self::with_size(
                            self.node(c).kind,
                            self.renorm_share_at(cs, k - 1, target) as u64,
                        ),
                        ..self.node(c)
                    },
                )
            } else {
                prev
            }
        }
    }

    /// An index none of the first `k` children name keeps its node.
    pub proof fn lemma_renorm_partial_other(self, cs: Seq<usize>, k: int, i: int, target: int)
        requires
            0 <= k <= cs.len(),
            forall|j: int| 0 <= j < k ==> #[trigger] cs[j] as int != i,
            forall|j: int| 0 <= j < cs.len() ==> self.valid(#[trigger] cs[j] as int),
        ensures
            self.renorm_partial(cs, k, target).len() == self.nodes@.len(),
            self.valid(i) ==> self.renorm_partial(cs, k, target)[i] == self.nodes@[i],
        decreases k,
    {
        if k > 0 {
            self.lemma_renorm_partial_other(cs, k - 1, i, target);
        }
    }

    /// A child's slot holds its normalised node once processed.
    pub proof fn lemma_renorm_partial_member(self, cs: Seq<usize>, k: int, j0: int, target: int)
        requires
            0 <= j0 < k <= cs.len(),
            forall|j1: int, j2: int|
                #![trigger cs[j1], cs[j2]]
                0 <= j1 < j2 < cs.len() ==> cs[j1] != cs[j2],
            forall|j: int| 0 <= j < cs.len() ==> self.valid(#[trigger] cs[j] as int),
        ensures
            self.renorm_partial(cs, k, target).len() == self.nodes@.len(),
            self.renorm_partial(cs, k, target)[cs[j0] as int] == if self.is_tiling(
                cs[j0] as int,
            ) {
                (Node {
                    kind: Self::with_size(
                        self.node(cs[j0] as int).kind,
                        self.renorm_share_at(cs, j0, target) as u64,
                    ),
                    ..self.node(cs[j0] as int)
                })
            } else {
                self.nodes@[cs[j0] as int]
            },
        decreases k,
    {
        if j0 == k - 1 {
            self.lemma_renorm_partial_other(cs, k - 1, cs[j0] as int, target);
        } else {
            self.lemma_renorm_partial_member(cs, k - 1, j0, target);
        }
    }

    /// Rescale the tiling children of `p` so their shares sum to
    /// exactly one unit, each receiving its proportional quota (an
    /// equal division when every share was zero). A parent without
    /// tiling children is left untouched.
    #[verifier::rlimit(100)]
    pub fn renormalize(&mut self, p: usize)
        requires
            old(self).wf(),
            old(self).valid(p as int),
        ensures
            final(self).nodes@.len() == old(self).nodes@.len(),
            final(self).root == old(self).root,
            forall|i: int|
                final(self).valid(i) ==> final(self).node(i).parent == old(self).node(i).parent
                    && final(self).node(i).children == old(self).node(i).children && final(self).node(i).depth == old(self).node(i).depth,
            forall|i: int|
                final(self).valid(i) && !old(self).children_of(p as int).contains(i as usize)
                    ==> final(self).node(i) == old(self).node(i),
            forall|k: int|
                0 <= k < old(self).children_of(p as int).len() ==> {
                    let c = #[trigger] old(self).children_of(p as int)[k] as int;
                    if old(self).is_tiling(c) {
                        final(self).node(c) == (Node {
                            kind: Self::with_size(
                                old(self).node(c).kind,
                                old(self).renorm_share_at(
                                    old(self).children_of(p as int),
                                    k,
                                    crate::TILING_UNIT as int,
                                ) as u64,
                            ),
                            ..old(self).node(c)
                        })
                    } else {
                        final(self).node(c) == old(self).node(c)
                    }
                },
            final(self).wf(),
            old(self).has_tiling_child(p as int) ==> final(self).tiling_sum(p as int)
                == crate::TILING_UNIT,
            !old(self).has_tiling_child(p as int) ==> *final(self) == *old(self),
            forall|i: int|
                final(self).valid(i) && i != p ==> final(self).tiling_sum(i) == old(self).tiling_sum(i) && (final(self).has_tiling_child(i) <==> old(self).has_tiling_child(i)),
            final(self).has_tiling_child(p as int) <==> old(self).has_tiling_child(p as int),
            old(self).sums_ok_except(p as int) ==> final(self).sums_ok(),
    {
        let ghost t0 = *self;
        let ghost cs = self.children_of(p as int);
        let u: u64 = crate::TILING_UNIT;
        let n = self.nodes[p].children.len();
        proof {
            assert(t0.nodes.len() == t0.nodes@.len());
            assert(t0.nodes@.len() <= usize::MAX);
            assert(t0.wf_node(p as int));
            assert forall|j: int| 0 <= j < cs.len() implies t0.valid(#[trigger] cs[j] as int)
                && t0.share_of(cs[j] as int) <= crate::TILING_UNIT by {
                assert(t0.wf_node(cs[j] as int));
            }
            t0.lemma_not_own_child(p as int);
        }
        // First pass: the total share and the tiling-member count.
        let mut total: u128 = 0;
        let mut cnt: u64 = 0;
        let mut k: usize = 0;
        while k < n
            invariant
                *self == t0,
                t0.wf(),
                t0.valid(p as int),
                cs == t0.children_of(p as int),
                n == cs.len(),
                0 <= k <= n,
                forall|j: int| 0 <= j < cs.len() ==> t0.valid(#[trigger] cs[j] as int),
                total == t0.prefix_share(cs, k as int),
                cnt == t0.prefix_count(cs, k as int),
                total <= k as int * (crate::TILING_UNIT as int),
                cnt <= k,
            decreases n - k,
        {
            let cid = self.nodes[p].children[k];
            proof {
                assert(t0.wf_node(cs[k as int] as int));
            }
            if self.node_is_tiling(cid) {
                cnt = cnt + 1;
            }
            total = total + self.node_share(cid) as u128;
            k += 1;
        }
        proof {
            t0.lemma_prefix_total(cs);
        }
        if cnt == 0 {
            proof {
                if t0.has_tiling_child(p as int) {
                    let j = choose|j: int|
                        0 <= j < cs.len() && t0.is_tiling(#[trigger] cs[j] as int);
                    t0.lemma_witness_count_pos(cs, j, cs.len() as int);
                }
            }
            return ;
        }
        proof {
            t0.lemma_count_pos_witness(cs, cs.len() as int);
            assert(t0.has_tiling_child(p as int));
        }
        // Second pass: each tiling child receives the difference of two
        // consecutive cumulative quotas, so the shares telescope to
        // exactly one unit.
        proof {
            t0.lemma_quota_bounds(cs, 0, 0, crate::TILING_UNIT as int);
            t0.lemma_prefix_monotone(cs, 0, 0);
        }
        let mut acc_share: u128 = 0;
        let mut acc_cnt: u64 = 0;
        let mut acc_q: u64 = 0;
        let mut k: usize = 0;
        while k < n
            invariant
                t0.wf(),
                t0.valid(p as int),
                cs == t0.children_of(p as int),
                n == cs.len(),
                0 <= k <= n,
                u == crate::TILING_UNIT,
                forall|j: int|
                    0 <= j < cs.len() ==> t0.valid(#[trigger] cs[j] as int) && t0.share_of(
                        cs[j] as int,
                    ) <= crate::TILING_UNIT,
                !cs.contains(p),
                total == t0.prefix_share(cs, cs.len() as int),
                cnt == t0.prefix_count(cs, cs.len() as int),
                cnt > 0,
                total <= cs.len() as int * (crate::TILING_UNIT as int),
                acc_share == t0.prefix_share(cs, k as int),
                acc_cnt == t0.prefix_count(cs, k as int),
                acc_q == t0.quota(cs, k as int, crate::TILING_UNIT as int),
                acc_cnt <= k,
                self.root == t0.root,
                forall|j1: int, j2: int|
                    #![trigger cs[j1], cs[j2]]
                    0 <= j1 < j2 < cs.len() ==> cs[j1] != cs[j2],
                self.nodes@ == t0.renorm_partial(cs, k as int, crate::TILING_UNIT as int),
            decreases n - k,
        {
            let ghost tprev = *self;
            proof {
                assert forall|j: int| 0 <= j < k as int implies #[trigger] cs[j] as int
                    != p as int by {
                    assert(cs[j] != p);
                }
                t0.lemma_renorm_partial_other(cs, k as int, p as int, crate::TILING_UNIT as int);
                assert(self.node(p as int) == t0.node(p as int));
            }
            let cid = self.nodes[p].children[k];
            proof {
                assert(t0.wf_node(cs[k as int] as int));
                assert(cs[k as int] == cid);
                assert forall|j: int| 0 <= j < k as int implies #[trigger] cs[j] as int
                    != cid as int by {
                    assert(cs[j] != cs[k as int]);
                }
                t0.lemma_renorm_partial_other(cs, k as int, cid as int, crate::TILING_UNIT as int);
                assert(self.node(cid as int) == t0.node(cid as int));
                t0.lemma_quota_bounds(cs, k as int, k as int + 1, crate::TILING_UNIT as int);
                t0.lemma_quota_bounds(cs, k as int + 1, cs.len() as int, crate::TILING_UNIT as int);
                t0.lemma_quota_bounds(cs, 0, k as int, crate::TILING_UNIT as int);
                t0.lemma_prefix_monotone(cs, k as int, k as int + 1);
                t0.lemma_prefix_monotone(cs, k as int + 1, cs.len() as int);
                t0.lemma_prefix_monotone(cs, 0, k as int);
            }
            if self.node_is_tiling(cid) {
                let share = self.node_share(cid);
                let q_next_wide: u128 = if total > 0 {
                    (acc_share + share as u128) * (u as u128) / total
                } else {
                    ((acc_cnt + 1) as u128) * (u as u128) / (cnt as u128)
                };
                proof {
                    reveal(Tree::quota);
                    if total > 0 {
                        assert((acc_share + share as u128) as int * (u as int) / (total as int)
                            == t0.prefix_share(cs, k as int + 1) * (crate::TILING_UNIT as int) / (
                        total as int));
                    } else {
                        assert(t0.prefix_share(cs, k as int + 1) == 0) by {
                            t0.lemma_prefix_monotone(cs, k as int + 1, cs.len() as int);
                            t0.lemma_prefix_monotone(cs, 0, k as int + 1);
                        }
                        assert(t0.prefix_count(cs, k as int + 1) == acc_cnt + 1);
                    }
                    assert(q_next_wide == t0.quota(cs, k as int + 1, crate::TILING_UNIT as int));
                    assert(q_next_wide <= crate::TILING_UNIT);
                }
                let q_next: u64 = q_next_wide as u64;
                let new_size: u64 = q_next - acc_q;
                proof {
                    assert(self.valid(cid as int));
                }
                self.set_share(cid, new_size);
                proof {
                    assert(tprev.nodes@ == t0.renorm_partial(cs, k as int, crate::TILING_UNIT as int));
                    assert forall|j: int| 0 <= j < k as int implies #[trigger] cs[j] as int
                        != cid as int by {
                        assert(cs[j] != cs[k as int]);
                    }
                    t0.lemma_renorm_partial_other(cs, k as int, cid as int, crate::TILING_UNIT as int);
                    assert(tprev.node(cid as int) == t0.node(cid as int));
                    assert(q_next_wide == t0.quota(cs, k as int + 1, crate::TILING_UNIT as int));
                    assert(q_next as int == t0.quota(cs, k as int + 1, crate::TILING_UNIT as int));
                    assert(acc_q == t0.quota(cs, k as int, crate::TILING_UNIT as int));
                    assert(new_size as int == t0.renorm_share_at(cs, k as int, crate::TILING_UNIT as int));
                    assert(0 <= t0.renorm_share_at(cs, k as int, crate::TILING_UNIT as int));
                    assert(t0.renorm_share_at(cs, k as int, crate::TILING_UNIT as int) <= crate::TILING_UNIT);
                    assert((t0.renorm_share_at(cs, k as int, crate::TILING_UNIT as int) as u64) == new_size);
                    assert forall|x: int|
                        0 <= x < self.nodes@.len() && x != cid as int implies self.nodes@[x]
                        == tprev.nodes@[x] by {
                        assert(self.node(x) == tprev.node(x));
                    }
                    assert(self.nodes@ =~= tprev.nodes@.update(
                        cid as int,
                        Node {
                            kind: Self::with_size(
                                t0.node(cid as int).kind,
                                t0.renorm_share_at(cs, k as int, crate::TILING_UNIT as int) as u64,
                            ),
                            ..t0.node(cid as int)
                        },
                    ));
                    assert(self.nodes@ == t0.renorm_partial(cs, k as int + 1, crate::TILING_UNIT as int));
                }
                acc_share = acc_share + share as u128;
                acc_cnt = acc_cnt + 1;
                acc_q = q_next;
            } else {
                proof {
                    reveal(Tree::quota);
                    assert(t0.quota(cs, k as int + 1, crate::TILING_UNIT as int) == t0.quota(cs, k as int, crate::TILING_UNIT as int));
                }
            }
            k += 1;
        }
        proof {
            let t2 = *self;
            assert forall|j: int| 0 <= j < n as int implies #[trigger] cs[j] as int != -1 by {
                assert(cs[j] as int >= 0);
            }
            t0.lemma_renorm_partial_other(cs, n as int, -1, crate::TILING_UNIT as int);
            assert(t2.nodes@.len() == t0.nodes@.len());
            assert forall|i: int|
                t2.valid(i) && !cs.contains(i as usize) implies #[trigger] t2.node(i) == t0.node(
                i,
            ) by {
                assert forall|j: int| 0 <= j < n as int implies #[trigger] cs[j] as int != i by {
                    if cs[j] as int == i {
                        assert(cs[j] == i as usize);
                        assert(cs.contains(i as usize));
                    }
                }
                t0.lemma_renorm_partial_other(cs, n as int, i, crate::TILING_UNIT as int);
            }
            assert forall|j: int|
                0 <= j < cs.len() implies ({
                let c = #[trigger] cs[j] as int;
                if t0.is_tiling(c) {
                    t2.node(c) == (Node {
                        kind: Self::with_size(
                            t0.node(c).kind,
                            t0.renorm_share_at(cs, j, crate::TILING_UNIT as int) as u64,
                        ),
                        ..t0.node(c)
                    })
                } else {
                    t2.node(c) == t0.node(c)
                }
            }) by {
                t0.lemma_renorm_partial_member(cs, cs.len() as int, j, crate::TILING_UNIT as int);
            }
            // Every changed share lies within one unit, so the tree
            // keeps its shape and stays well formed.
            assert forall|j: int| 0 <= j < cs.len() implies 0 <= t0.renorm_share_at(cs, j, crate::TILING_UNIT as int)
                && t0.renorm_share_at(cs, j, crate::TILING_UNIT as int) <= crate::TILING_UNIT by {
                t0.lemma_quota_bounds(cs, j, j + 1, crate::TILING_UNIT as int);
                t0.lemma_quota_bounds(cs, 0, j, crate::TILING_UNIT as int);
                t0.lemma_quota_bounds(cs, j + 1, cs.len() as int, crate::TILING_UNIT as int);
                assert(t0.prefix_count(cs, cs.len() as int) > 0);
                assert(t0.quota(cs, 0, crate::TILING_UNIT as int) == 0);
                assert(t0.quota(cs, cs.len() as int, crate::TILING_UNIT as int) == crate::TILING_UNIT);
                assert(t0.quota(cs, j, crate::TILING_UNIT as int) >= 0);
                assert(t0.quota(cs, j + 1, crate::TILING_UNIT as int) <= crate::TILING_UNIT);
            }
            assert(t0.same_shape(t2)) by {
                assert forall|i: int| t0.valid(i) implies t2.node(i).parent == t0.node(i).parent
                    && t2.node(i).children == t0.node(i).children && t2.node(i).depth == t0.node(
                    i,
                ).depth && Self::kind_same_variant(t0.node(i).kind, t2.node(i).kind) by {
                    if cs.contains(i as usize) {
                        let j = choose|j: int| 0 <= j < cs.len() && cs[j] == i as usize;
                        assert(cs[j] as int == i);
                        if t0.is_tiling(i) {
                            assert(t2.node(i) == (Node {
                                kind: Self::with_size(
                                    t0.node(i).kind,
                                    t0.renorm_share_at(cs, j, crate::TILING_UNIT as int) as u64,
                                ),
                                ..t0.node(i)
                            }));
                            assert(Self::kind_same_variant(t0.node(i).kind, t2.node(i).kind));
                        } else {
                            assert(t2.node(i) == t0.node(i));
                        }
                    } else {
                        assert(t2.node(i) == t0.node(i));
                    }
                }
            }
            assert forall|i: int| t2.valid(i) implies Self::kind_data_ok(
                #[trigger] t2.node(i).kind,
            ) by {
                t0.lemma_wf_kind_data(i);
                if cs.contains(i as usize) {
                    let j = choose|j: int| 0 <= j < cs.len() && cs[j] == i as usize;
                    assert(t2.node(cs[j] as int).kind == if t0.is_tiling(cs[j] as int) {
                        Self::with_size(
                            t0.node(cs[j] as int).kind,
                            t0.renorm_share_at(cs, j, crate::TILING_UNIT as int) as u64,
                        )
                    } else {
                        t0.node(cs[j] as int).kind
                    });
                }
            }
            t0.lemma_same_shape_wf(t2);
            // The updated shares telescope to exactly one unit.
            assert forall|j: int| 0 <= j < cs.len() implies (t0.is_tiling(#[trigger] cs[j] as int)
                == t2.is_tiling(cs[j] as int)) && (t0.is_tiling(cs[j] as int) ==> t2.share_of(
                cs[j] as int,
            ) == t0.renorm_share_at(cs, j, crate::TILING_UNIT as int)) && (!t0.is_tiling(cs[j] as int) ==> t2.share_of(
                cs[j] as int,
            ) == 0) by {
                if t0.is_tiling(cs[j] as int) {
                    t0.lemma_quota_bounds(cs, j, j + 1, crate::TILING_UNIT as int);
                    t0.lemma_quota_bounds(cs, 0, j, crate::TILING_UNIT as int);
                    t0.lemma_quota_bounds(cs, j + 1, cs.len() as int, crate::TILING_UNIT as int);
                } else {
                    assert(t2.node(cs[j] as int) == t0.node(cs[j] as int));
                }
            }
            t0.lemma_renorm_prefix(t2, cs, cs.len() as int, crate::TILING_UNIT as int);
            t0.lemma_quota_bounds(cs, 0, cs.len() as int, crate::TILING_UNIT as int);
            t2.lemma_prefix_total(cs);
            assert(t2.tiling_sum(p as int) == crate::TILING_UNIT);
            assert forall|i: int| t2.valid(i) && i != p implies t2.tiling_sum(i) == t0.tiling_sum(
                i,
            ) && (t2.has_tiling_child(i) <==> t0.has_tiling_child(i)) by {
                assert(t0.wf_node(i));
                assert forall|j: int|
                    0 <= j < t0.children_of(i).len() implies t2.share_of(
                    #[trigger] t0.children_of(i)[j] as int,
                ) == t0.share_of(t0.children_of(i)[j] as int) && t2.is_tiling(
                    t0.children_of(i)[j] as int,
                ) == t0.is_tiling(t0.children_of(i)[j] as int) by {
                    let x = t0.children_of(i)[j];
                    if cs.contains(x) {
                        assert(t0.node(x as int).parent == Some(i as usize));
                        assert(t0.node(x as int).parent == Some(p));
                    }
                }
                t2.lemma_sum_congruence(t0, t0.children_of(i));
                assert(t2.children_of(i) == t0.children_of(i));
                if t2.has_tiling_child(i) {
                    assert(t0.has_tiling_child(i));
                }
                if t0.has_tiling_child(i) {
                    assert(t2.has_tiling_child(i));
                }
            }
            assert(t2.has_tiling_child(p as int)) by {
                let j = choose|j: int| 0 <= j < cs.len() && t0.is_tiling(#[trigger] cs[j] as int);
                assert(t2.is_tiling(cs[j] as int));
            }
        }
    }

    /// Rescale the tiling children of `p` other than the child at
    /// position `pos` so that their shares sum to exactly `target`,
    /// each receiving its proportional quota (an equal division when
    /// every such share was zero). The skipped child and everything
    /// else are untouched; no tiling sibling leaves the parent
    /// normalised if none was there.
    #[verifier::rlimit(100)]
    pub(crate) fn rescale_others(&mut self, p: usize, pos: usize, target: u64)
        requires
            old(self).wf(),
            old(self).valid(p as int),
            (pos as int) < old(self).children_of(p as int).len(),
            target <= crate::TILING_UNIT,
        ensures
            ({
                let cs = old(self).children_of(p as int);
                let cso = cs.remove(pos as int);
                let skip = cs[pos as int];
                &&& final(self).nodes@.len() == old(self).nodes@.len()
                &&& final(self).root == old(self).root
                &&& forall|i: int|
                    final(self).valid(i) && !cso.contains(i as usize) ==> final(self).node(i)
                        == old(self).node(i)
                &&& forall|k: int|
                    0 <= k < cso.len() ==> {
                        let c = #[trigger] cso[k] as int;
                        if old(self).is_tiling(c) {
                            final(self).node(c) == (Node {
                                kind: Self::with_size(
                                    old(self).node(c).kind,
                                    old(self).renorm_share_at(cso, k, target as int) as u64,
                                ),
                                ..old(self).node(c)
                            })
                        } else {
                            final(self).node(c) == old(self).node(c)
                        }
                    }
                &&& final(self).wf()
                &&& (exists|k: int|
                    0 <= k < cso.len() && old(self).is_tiling(#[trigger] cso[k] as int))
                    ==> final(self).tiling_sum_of(cso) == target
                &&& !(exists|k: int|
                    0 <= k < cso.len() && old(self).is_tiling(#[trigger] cso[k] as int))
                    ==> *final(self) == *old(self)
                &&& forall|i: int|
                    final(self).valid(i) && i != p ==> final(self).tiling_sum(i) == old(
                        self,
                    ).tiling_sum(i) && (final(self).has_tiling_child(i) <==> old(
                        self,
                    ).has_tiling_child(i))
                &&& forall|i: int|
                    final(self).valid(i) ==> final(self).node(i).parent == old(self).node(i).parent
                        && final(self).node(i).children == old(self).node(i).children && final(self).node(i).depth == old(self).node(i).depth && Self::kind_same_variant(
                        old(self).node(i).kind,
                        final(self).node(i).kind,
                    )
            }),
    {
        let ghost t0 = *self;
        let ghost cs = self.children_of(p as int);
        let ghost cso = cs.remove(pos as int);
        let u: u64 = target;
        let n = self.nodes[p].children.len();
        proof {
            assert(t0.nodes.len() == t0.nodes@.len());
            assert(t0.nodes@.len() <= usize::MAX);
            assert(t0.wf_node(p as int));
            lemma_remove_index(cs, pos as int);
            assert forall|j: int| 0 <= j < cso.len() implies t0.valid(#[trigger] cso[j] as int)
                && t0.share_of(cso[j] as int) <= crate::TILING_UNIT by {
                let a = if j < pos as int { j } else { j + 1 };
                assert(cso[j] == cs[a]);
                assert(t0.wf_node(cs[a] as int));
            }
            assert forall|j1: int, j2: int|
                #![trigger cso[j1], cso[j2]]
                0 <= j1 < j2 < cso.len() implies cso[j1] != cso[j2] by {
                let a1 = if j1 < pos as int { j1 } else { j1 + 1 };
                let a2 = if j2 < pos as int { j2 } else { j2 + 1 };
                assert(cso[j1] == cs[a1] && cso[j2] == cs[a2]);
            }
            t0.lemma_not_own_child(p as int);
            assert(!cso.contains(p)) by {
                if cso.contains(p) {
                    let j = choose|j: int| 0 <= j < cso.len() && cso[j] == p;
                    let a = if j < pos as int { j } else { j + 1 };
                    assert(cs[a] == p);
                    assert(cs.contains(p));
                }
            }
        }
        // First pass: total share and tiling count of the others.
        let mut total: u128 = 0;
        let mut cnt: u64 = 0;
        let mut j: usize = 0;
        let mut ko_c: usize = 0;
        while j < n
            invariant
                *self == t0,
                t0.wf(),
                t0.valid(p as int),
                cs == t0.children_of(p as int),
                cso == cs.remove(pos as int),
                (pos as int) < cs.len(),
                n == cs.len(),
                0 <= j <= n,
                ko_c == if j <= pos { j as int } else { j - 1 },
                forall|jj: int| 0 <= jj < cso.len() ==> t0.valid(#[trigger] cso[jj] as int),
                total == t0.prefix_share(cso, ko_c as int),
                cnt == t0.prefix_count(cso, ko_c as int),
                total <= ko_c as int * (crate::TILING_UNIT as int),
                cnt <= ko_c,
            decreases n - j,
        {
            proof {
                lemma_remove_index(cs, pos as int);
            }
            if j != pos {
                let cid = self.nodes[p].children[j];
                proof {
                    let ko = ko_c as int;
                    assert(cso[ko] == cs[j as int]);
                    assert(t0.wf_node(cso[ko] as int));
                }
                if self.node_is_tiling(cid) {
                    cnt = cnt + 1;
                }
                total = total + self.node_share(cid) as u128;
                ko_c += 1;
            }
            j += 1;
        }
        if cnt == 0 {
            proof {
                if exists|k: int| 0 <= k < cso.len() && t0.is_tiling(#[trigger] cso[k] as int) {
                    let k = choose|k: int|
                        0 <= k < cso.len() && t0.is_tiling(#[trigger] cso[k] as int);
                    t0.lemma_witness_count_pos(cso, k, cso.len() as int);
                }
            }
            return ;
        }
        // Second pass: quota differences for the others.
        proof {
            t0.lemma_quota_bounds(cso, 0, 0, target as int);
            t0.lemma_prefix_monotone(cso, 0, 0);
        }
        let mut acc_share: u128 = 0;
        let mut acc_cnt: u64 = 0;
        let mut acc_q: u64 = 0;
        let mut j: usize = 0;
        let mut ko_c: usize = 0;
        while j < n
            invariant
                t0.wf(),
                t0.valid(p as int),
                cs == t0.children_of(p as int),
                cso == cs.remove(pos as int),
                (pos as int) < cs.len(),
                n == cs.len(),
                0 <= j <= n,
                ko_c == if j <= pos { j as int } else { j - 1 },
                u == target,
                target <= crate::TILING_UNIT,
                forall|jj: int|
                    0 <= jj < cso.len() ==> t0.valid(#[trigger] cso[jj] as int) && t0.share_of(
                        cso[jj] as int,
                    ) <= crate::TILING_UNIT,
                !cso.contains(p),
                total == t0.prefix_share(cso, cso.len() as int),
                cnt == t0.prefix_count(cso, cso.len() as int),
                cnt > 0,
                cso.len() == n - 1,
                n >= 1,
                total <= cso.len() as int * (crate::TILING_UNIT as int),
                acc_share == t0.prefix_share(cso, ko_c as int),
                acc_cnt == t0.prefix_count(cso, ko_c as int),
                acc_q == t0.quota(cso, ko_c as int, target as int),
                acc_cnt <= ko_c,
                self.root == t0.root,
                forall|j1: int, j2: int|
                    #![trigger cso[j1], cso[j2]]
                    0 <= j1 < j2 < cso.len() ==> cso[j1] != cso[j2],
                self.nodes@ == t0.renorm_partial(cso, ko_c as int, target as int),
            decreases n - j,
        {
            proof {
                lemma_remove_index(cs, pos as int);
            }
            if j != pos {
                let ghost tprev = *self;
                proof {
                    assert forall|jj: int| 0 <= jj < ko_c as int implies #[trigger] cso[jj] as int
                        != p as int by {
                        assert(cso[jj] != p);
                    }
                    t0.lemma_renorm_partial_other(cso, ko_c as int, p as int, target as int);
                    assert(self.node(p as int) == t0.node(p as int));
                }
                let cid = self.nodes[p].children[j];
                proof {
                    let ko = ko_c as int;
                    assert(cso[ko] == cs[j as int]);
                    assert(t0.wf_node(cso[ko] as int));
                    assert forall|jj: int| 0 <= jj < ko implies #[trigger] cso[jj] as int
                        != cid as int by {
                        assert(cso[jj] != cso[ko]);
                    }
                    t0.lemma_renorm_partial_other(cso, ko, cid as int, target as int);
                    assert(self.node(cid as int) == t0.node(cid as int));
                    t0.lemma_quota_bounds(cso, ko, ko + 1, target as int);
                    t0.lemma_quota_bounds(cso, ko + 1, cso.len() as int, target as int);
                    t0.lemma_quota_bounds(cso, 0, ko, target as int);
                    t0.lemma_prefix_monotone(cso, ko, ko + 1);
                    t0.lemma_prefix_monotone(cso, ko + 1, cso.len() as int);
                    t0.lemma_prefix_monotone(cso, 0, ko);
                }
                if self.node_is_tiling(cid) {
                    let share = self.node_share(cid);
                    proof {
                        let ko = ko_c as int;
                        assert(cid == cso[ko]);
                        assert(share == t0.share_of(cso[ko] as int));
                        assert(acc_share + share as u128 == t0.prefix_share(cso, ko + 1));
                        assert(t0.prefix_share(cso, ko + 1) <= total);
                        assert(acc_cnt as int + 1 <= n as int);
                        assert(total <= (n - 1) as int * (crate::TILING_UNIT as int));
                        assert(acc_share + share as u128 <= 184467440737095516160000u128);
                        assert((acc_share + share as u128) as int * (u as int)
                            <= 1844674407370955161600000000) by (nonlinear_arith)
                            requires
                                0 <= acc_share + share as u128,
                                acc_share + share as u128 <= 184467440737095516160000u128,
                                0 <= u as int <= 10000,
                        ;
                        assert((acc_cnt as int + 1) * (u as int)
                            <= 1844674407370955161600000000) by (nonlinear_arith)
                            requires
                                0 <= acc_cnt as int + 1,
                                acc_cnt as int + 1 <= 18446744073709551616,
                                0 <= u as int <= 10000,
                        ;
                    }
                    let q_next_wide: u128 = if total > 0 {
                        (acc_share + share as u128) * (u as u128) / total
                    } else {
                        ((acc_cnt + 1) as u128) * (u as u128) / (cnt as u128)
                    };
                    proof {
                        reveal(Tree::quota);
                        let ko = ko_c as int;
                        if total > 0 {
                            assert((acc_share + share as u128) as int * (u as int) / (total as int)
                                == t0.prefix_share(cso, ko + 1) * (target as int) / (total as int));
                        } else {
                            assert(t0.prefix_share(cso, ko + 1) == 0) by {
                                t0.lemma_prefix_monotone(cso, ko + 1, cso.len() as int);
                                t0.lemma_prefix_monotone(cso, 0, ko + 1);
                            }
                            assert(t0.prefix_count(cso, ko + 1) == acc_cnt + 1);
                        }
                        assert(q_next_wide == t0.quota(cso, ko + 1, target as int));
                        assert(q_next_wide <= target);
                    }
                    let q_next: u64 = q_next_wide as u64;
                    let new_size: u64 = q_next - acc_q;
                    proof {
                        assert(self.valid(cid as int));
                    }
                    let ghost ko = ko_c as int;
                    self.set_share(cid, new_size);
                    proof {
                        assert(tprev.nodes@ == t0.renorm_partial(cso, ko, target as int));
                        assert(tprev.node(cid as int) == t0.node(cid as int));
                        assert(q_next_wide == t0.quota(cso, ko + 1, target as int));
                        assert(q_next as int == t0.quota(cso, ko + 1, target as int));
                        assert(acc_q == t0.quota(cso, ko, target as int));
                        assert(new_size as int == t0.renorm_share_at(cso, ko, target as int));
                        assert(0 <= t0.renorm_share_at(cso, ko, target as int));
                        assert(t0.renorm_share_at(cso, ko, target as int) <= target);
                        assert((t0.renorm_share_at(cso, ko, target as int) as u64) == new_size);
                        assert forall|x: int|
                            0 <= x < self.nodes@.len() && x != cid as int implies self.nodes@[x]
                            == tprev.nodes@[x] by {
                            assert(self.node(x) == tprev.node(x));
                        }
                        assert(self.nodes@ =~= tprev.nodes@.update(
                            cid as int,
                            Node {
                                kind: Self::with_size(
                                    t0.node(cid as int).kind,
                                    t0.renorm_share_at(cso, ko, target as int) as u64,
                                ),
                                ..t0.node(cid as int)
                            },
                        ));
                        assert(self.nodes@ == t0.renorm_partial(cso, ko + 1, target as int));
                    }
                    acc_share = acc_share + share as u128;
                    acc_cnt = acc_cnt + 1;
                    acc_q = q_next;
                } else {
                    proof {
                        reveal(Tree::quota);
                        let ko = ko_c as int;
                        assert(t0.quota(cso, ko + 1, target as int) == t0.quota(
                            cso,
                            ko,
                            target as int,
                        ));
                    }
                }
                ko_c += 1;
            }
            j += 1;
        }
        proof {
            let t2 = *self;
            let tgt = target as int;
            assert(ko_c as int == cso.len());
            assert forall|jj: int| 0 <= jj < cso.len() implies #[trigger] cso[jj] as int != -1 by {
                assert(cso[jj] as int >= 0);
            }
            t0.lemma_renorm_partial_other(cso, cso.len() as int, -1, tgt);
            assert(t2.nodes@.len() == t0.nodes@.len());
            assert forall|i: int|
                t2.valid(i) && !cso.contains(i as usize) implies #[trigger] t2.node(i) == t0.node(
                i,
            ) by {
                assert forall|jj: int| 0 <= jj < cso.len() implies #[trigger] cso[jj] as int
                    != i by {
                    if cso[jj] as int == i {
                        assert(cso[jj] == i as usize);
                        assert(cso.contains(i as usize));
                    }
                }
                t0.lemma_renorm_partial_other(cso, cso.len() as int, i, tgt);
            }
            assert forall|k: int|
                0 <= k < cso.len() implies ({
                let c = #[trigger] cso[k] as int;
                if t0.is_tiling(c) {
                    t2.node(c) == (Node {
                        kind: Self::with_size(
                            t0.node(c).kind,
                            t0.renorm_share_at(cso, k, tgt) as u64,
                        ),
                        ..t0.node(c)
                    })
                } else {
                    t2.node(c) == t0.node(c)
                }
            }) by {
                t0.lemma_renorm_partial_member(cso, cso.len() as int, k, tgt);
            }
            assert forall|k: int| 0 <= k < cso.len() implies 0 <= t0.renorm_share_at(cso, k, tgt)
                && t0.renorm_share_at(cso, k, tgt) <= crate::TILING_UNIT by {
                t0.lemma_quota_bounds(cso, k, k + 1, tgt);
                t0.lemma_quota_bounds(cso, 0, k, tgt);
                t0.lemma_quota_bounds(cso, k + 1, cso.len() as int, tgt);
                assert(t0.prefix_count(cso, cso.len() as int) > 0);
                assert(t0.quota(cso, 0, tgt) == 0);
                assert(t0.quota(cso, cso.len() as int, tgt) == tgt);
                assert(t0.quota(cso, k, tgt) >= 0);
                assert(t0.quota(cso, k + 1, tgt) <= tgt);
            }
            assert(t0.same_shape(t2)) by {
                assert forall|i: int| t0.valid(i) implies t2.node(i).parent == t0.node(i).parent
                    && t2.node(i).children == t0.node(i).children && t2.node(i).depth == t0.node(
                    i,
                ).depth && Self::kind_same_variant(t0.node(i).kind, t2.node(i).kind) by {
                    if cso.contains(i as usize) {
                        let k = choose|k: int| 0 <= k < cso.len() && cso[k] == i as usize;
                        assert(cso[k] as int == i);
                        if t0.is_tiling(i) {
                            assert(t2.node(i) == (Node {
                                kind: Self::with_size(
                                    t0.node(i).kind,
                                    t0.renorm_share_at(cso, k, tgt) as u64,
                                ),
                                ..t0.node(i)
                            }));
                            assert(Self::kind_same_variant(t0.node(i).kind, t2.node(i).kind));
                        } else {
                            assert(t2.node(i) == t0.node(i));
                        }
                    } else {
                        assert(t2.node(i) == t0.node(i));
                    }
                }
            }
            assert forall|i: int| t2.valid(i) implies Self::kind_data_ok(
                #[trigger] t2.node(i).kind,
            ) by {
                t0.lemma_wf_kind_data(i);
                if cso.contains(i as usize) {
                    let k = choose|k: int| 0 <= k < cso.len() && cso[k] == i as usize;
                    assert(t2.node(cso[k] as int).kind == if t0.is_tiling(cso[k] as int) {
                        Self::with_size(
                            t0.node(cso[k] as int).kind,
                            t0.renorm_share_at(cso, k, tgt) as u64,
                        )
                    } else {
                        t0.node(cso[k] as int).kind
                    });
                }
            }
            t0.lemma_same_shape_wf(t2);
            assert forall|k: int| 0 <= k < cso.len() implies (t0.is_tiling(
                #[trigger] cso[k] as int,
            ) == t2.is_tiling(cso[k] as int)) && (t0.is_tiling(cso[k] as int) ==> t2.share_of(
                cso[k] as int,
            ) == t0.renorm_share_at(cso, k, tgt)) && (!t0.is_tiling(cso[k] as int)
                ==> t2.share_of(cso[k] as int) == 0) by {
                if t0.is_tiling(cso[k] as int) {
                    t0.lemma_quota_bounds(cso, k, k + 1, tgt);
                    t0.lemma_quota_bounds(cso, 0, k, tgt);
                    t0.lemma_quota_bounds(cso, k + 1, cso.len() as int, tgt);
                } else {
                    assert(t2.node(cso[k] as int) == t0.node(cso[k] as int));
                }
            }
            t0.lemma_renorm_prefix(t2, cso, cso.len() as int, tgt);
            t0.lemma_quota_bounds(cso, 0, cso.len() as int, tgt);
            t2.lemma_prefix_total(cso);
            assert(t2.tiling_sum_of(cso) == target);
            t0.lemma_count_pos_witness(cso, cso.len() as int);
            assert forall|i: int| t2.valid(i) && i != p implies t2.tiling_sum(i) == t0.tiling_sum(
                i,
            ) && (t2.has_tiling_child(i) <==> t0.has_tiling_child(i)) by {
                assert(t0.wf_node(i));
                assert forall|jj: int|
                    0 <= jj < t0.children_of(i).len() implies t2.share_of(
                    #[trigger] t0.children_of(i)[jj] as int,
                ) == t0.share_of(t0.children_of(i)[jj] as int) && t2.is_tiling(
                    t0.children_of(i)[jj] as int,
                ) == t0.is_tiling(t0.children_of(i)[jj] as int) by {
                    let x = t0.children_of(i)[jj];
                    if cso.contains(x) {
                        assert(t0.node(x as int).parent == Some(i as usize));
                        assert(t0.node(x as int).parent == Some(p));
                    }
                }
                t2.lemma_sum_congruence(t0, t0.children_of(i));
                assert(t2.children_of(i) == t0.children_of(i));
                if t2.has_tiling_child(i) {
                    assert(t0.has_tiling_child(i));
                }
                if t0.has_tiling_child(i) {
                    assert(t2.has_tiling_child(i));
                }
            }
        }
    }

    /// A sequence with no tiling member sums to zero.
    pub proof fn lemma_sum_no_tiling(self, cs: Seq<usize>)
        requires
            forall|k: int| 0 <= k < cs.len() ==> !self.is_tiling(#[trigger] cs[k] as int),
        ensures
            self.tiling_sum_of(cs) == 0,
        decreases cs.len(),
    {
        if cs.len() > 0 {
            self.lemma_sum_no_tiling(cs.drop_last());
        }
    }

    /// Nodes whose children and members' shares are untouched keep
    /// their tiling sums; used to frame a mutation under one parent.
    pub proof fn lemma_sums_outside(t0: Tree, t2: Tree, p: usize)
        requires
            t0.wf(),
            t2.nodes@.len() == t0.nodes@.len(),
            forall|i: int| t0.valid(i) ==> #[trigger] t2.node(i).children == t0.node(i).children,
            forall|x: int|
                t0.valid(x) && t0.node(x).parent != Some(p) ==> t2.share_of(x) == t0.share_of(x)
                    && t2.is_tiling(x) == #[trigger] t0.is_tiling(x),
        ensures
            forall|i: int|
                t0.valid(i) && i != p ==> t2.tiling_sum(i) == #[trigger] t0.tiling_sum(i) && (
                t2.has_tiling_child(i) <==> t0.has_tiling_child(i)),
    {
        assert(t0.nodes.len() == t0.nodes@.len());
        assert(t0.nodes@.len() <= usize::MAX);
        assert forall|i: int| t0.valid(i) && i != p implies t2.tiling_sum(i) == #[trigger] t0.tiling_sum(i) && (t2.has_tiling_child(i) <==> t0.has_tiling_child(i)) by {
            assert(t0.wf_node(i));
            assert forall|j: int|
                0 <= j < t0.children_of(i).len() implies t2.share_of(
                #[trigger] t0.children_of(i)[j] as int,
            ) == t0.share_of(t0.children_of(i)[j] as int) && t2.is_tiling(
                t0.children_of(i)[j] as int,
            ) == t0.is_tiling(t0.children_of(i)[j] as int) by {
                let x = t0.children_of(i)[j];
                assert(t0.node(x as int).parent == Some(i as usize));
                assert(i as usize != p);
                assert(t0.node(x as int).parent != Some(p));
            }
            t2.lemma_sum_congruence(t0, t0.children_of(i));
            assert(t2.children_of(i) == t0.children_of(i));
            if t2.has_tiling_child(i) {
                assert(t0.has_tiling_child(i));
            }
            if t0.has_tiling_child(i) {
                assert(t2.has_tiling_child(i));
            }
        }
    }

    /// Unlink `c` and renormalise its old parent's tiling children
    /// when `c` is itself tiling; the first step of a move.
    #[verifier::rlimit(100)]
    pub(crate) fn detach_for_move(&mut self, c: usize) -> (r: Result<usize, crate::WmError>)
        requires
            old(self).wf(),
            old(self).sums_ok(),
            old(self).valid(c as int),
        ensures
            match r {
                Ok(oldp) => {
                    let cs = old(self).children_of(oldp as int);
                    let pos = cs.index_of(c);
                    &&& old(self).node(c as int).parent == Some(oldp)
                    &&& 0 <= pos < cs.len() && cs[pos] == c
                    &&& final(self).wf()
                    &&& final(self).sums_ok()
                    &&& final(self).nodes@.len() == old(self).nodes@.len()
                    &&& final(self).root == old(self).root
                    &&& final(self).node(c as int).parent is None
                    &&& final(self).node(c as int).children == old(self).node(c as int).children
                    &&& final(self).node(c as int).kind == Self::with_size(
                        old(self).node(c as int).kind,
                        final(self).size_of(c as int),
                    )
                    &&& final(self).children_of(oldp as int) == cs.remove(pos)
                    &&& forall|i: int|
                        final(self).valid(i) && i != c ==> (#[trigger] final(self).node(i)).parent
                            == old(self).node(i).parent && final(self).node(i).depth == old(
                            self,
                        ).node(i).depth
                    &&& forall|i: int|
                        final(self).valid(i) && i != oldp ==> (#[trigger] final(self).node(
                            i,
                        )).children == old(self).node(i).children
                    &&& forall|i: int|
                        final(self).valid(i) ==> Self::kind_same_variant(
                            old(self).node(i).kind,
                            #[trigger] final(self).node(i).kind,
                        )
                    &&& !old(self).is_tiling(c as int) ==> forall|i: int|
                        final(self).valid(i) ==> #[trigger] final(self).node(i).kind == old(
                            self,
                        ).node(i).kind
                    &&& forall|i: int|
                        final(self).valid(i) && i != c && !cs.contains(i as usize) ==> (
                        #[trigger] final(self).node(i)).kind == old(self).node(i).kind
                    &&& final(self).node(c as int).depth == old(self).node(c as int).depth
                    &&& final(self).node(c as int).kind == old(self).node(c as int).kind
                },
                Err(e) => {
                    &&& e == crate::WmError::NoParent
                    &&& old(self).node(c as int).parent is None
                    &&& *final(self) == *old(self)
                },
            },
    {
        let ghost t0 = *self;
        let oldp = match self.nodes[c].parent {
            Some(p) => p,
            None => {
                return Err(crate::WmError::NoParent);
            },
        };
        proof {
            assert(t0.nodes.len() == t0.nodes@.len());
            assert(t0.nodes@.len() <= usize::MAX);
            assert(t0.wf_node(c as int));
        }
        let moved_tiling = self.node_is_tiling(c);
        let res = self.detach(c);
        proof {
            assert(res is Ok);
        }
        let ghost t1 = *self;
        if moved_tiling {
            self.renormalize(oldp);
        }
        proof {
            let t2 = *self;
            let oldpi = oldp as int;
            let cs = t0.children_of(oldpi);
            let pos = cs.index_of(c);
            assert(!t1.children_of(oldpi).contains(c)) by {
                if t1.children_of(oldpi).contains(c) {
                    assert(t1.wf_node(oldpi));
                    assert(t1.node(c as int).parent == Some(oldp));
                }
            }
            assert(t2.node(c as int) == t1.node(c as int));
            assert(t2.node(c as int).kind == Self::with_size(
                t0.node(c as int).kind,
                t2.size_of(c as int),
            )) by {
                match t1.node(c as int).kind {
                    NodeKind::Split(d) => {},
                    NodeKind::TilingWindow(w) => {},
                    NodeKind::Root => {},
                    NodeKind::Monitor(_) => {},
                    NodeKind::Workspace(_) => {},
                    NodeKind::NonTilingWindow(_) => {},
                }
            }
            assert(t2.children_of(oldpi) == cs.remove(pos));
            assert forall|i: int| t2.valid(i) implies Self::kind_same_variant(
                t0.node(i).kind,
                #[trigger] t2.node(i).kind,
            ) by {
                assert(Self::kind_same_variant(t1.node(i).kind, t2.node(i).kind));
            }
            if !t0.is_tiling(c as int) {
                assert(t2 == t1);
            }
            assert forall|i: int|
                t2.valid(i) && i != c as int && !cs.contains(i as usize) implies (
            #[trigger] t2.node(i)).kind == t0.node(i).kind by {
                assert(t1.node(i).kind == t0.node(i).kind);
                if moved_tiling {
                    assert(!t1.children_of(oldpi).contains(i as usize)) by {
                        if t1.children_of(oldpi).contains(i as usize) {
                            let k = choose|k: int|
                                0 <= k < t1.children_of(oldpi).len() && t1.children_of(oldpi)[k]
                                    == i as usize;
                            lemma_remove_index(cs, pos);
                            let a = if k < pos { k } else { k + 1 };
                            assert(cs[a] == i as usize);
                            assert(cs.contains(i as usize));
                        }
                    }
                    assert(t2.node(i) == t1.node(i));
                }
            }
            assert forall|i: int| t2.valid(i) implies t2.node_sum_ok(i) by {
                if moved_tiling {
                    if i != oldpi {
                        assert(t1.sums_ok_except(oldpi));
                        assert(t1.node_sum_ok(i));
                        assert(t2.tiling_sum(i) == t1.tiling_sum(i));
                        if t2.has_tiling_child(i) {
                            assert(t1.has_tiling_child(i));
                        }
                        if t1.has_tiling_child(i) {
                            assert(t2.has_tiling_child(i));
                        }
                    }
                } else {
                    assert(t1.sums_ok());
                    assert(t1.node_sum_ok(i));
                }
            }
        }
        Ok(oldp)
    }

    /// Insert the parentless `c` under `new_parent` at `new_index`
    /// (clamped to the end of the child sequence) and renormalise the
    /// destination's tiling children when `c` is tiling; the second
    /// step of a move.
    #[verifier::rlimit(100)]
    pub(crate) fn attach_clamped(&mut self, c: usize, new_parent: usize, new_index: usize)
        requires
            old(self).wf(),
            old(self).sums_ok(),
            old(self).valid(c as int),
            old(self).valid(new_parent as int),
            c != new_parent,
            c != old(self).root,
            old(self).node(c as int).parent is None,
            Self::child_kind_ok(old(self).node(new_parent as int).kind, old(self).node(c as int).kind),
            old(self).children_of(c as int).len() == 0 || old(self).node(c as int).depth@ == old(
                self,
            ).node(new_parent as int).depth@ + 1,
        ensures
            ({
                let base = old(self).children_of(new_parent as int);
                let idx = if (new_index as int) < base.len() {
                    new_index as int
                } else {
                    base.len() as int
                };
                &&& final(self).wf()
                &&& final(self).sums_ok()
                &&& final(self).nodes@.len() == old(self).nodes@.len()
                &&& final(self).root == old(self).root
                &&& final(self).node(c as int).parent == Some(new_parent)
                &&& final(self).node(c as int).children == old(self).node(c as int).children
                &&& final(self).node(c as int).kind == Self::with_size(
                    old(self).node(c as int).kind,
                    final(self).size_of(c as int),
                )
                &&& final(self).children_of(new_parent as int) == base.insert(idx, c)
                &&& forall|i: int|
                    final(self).valid(i) && i != c ==> (#[trigger] final(self).node(i)).parent
                        == old(self).node(i).parent && final(self).node(i).depth == old(self).node(
                        i,
                    ).depth
                &&& forall|i: int|
                    final(self).valid(i) && i != new_parent ==> (#[trigger] final(self).node(
                        i,
                    )).children == old(self).node(i).children
                &&& forall|i: int|
                    final(self).valid(i) ==> Self::kind_same_variant(
                        old(self).node(i).kind,
                        #[trigger] final(self).node(i).kind,
                    )
                &&& !old(self).is_tiling(c as int) ==> forall|i: int|
                    final(self).valid(i) ==> #[trigger] final(self).node(i).kind == old(self).node(
                        i,
                    ).kind
                &&& forall|i: int|
                    final(self).valid(i) && i != c && !base.contains(i as usize) ==> (
                    #[trigger] final(self).node(i)).kind == old(self).node(i).kind
                &&& final(self).node(c as int).depth@ == old(self).node(new_parent as int).depth@
                    + 1
            }),
    {
        let ghost t0 = *self;
        proof {
            assert(t0.nodes.len() == t0.nodes@.len());
            assert(t0.nodes@.len() <= usize::MAX);
        }
        let moved_tiling = self.node_is_tiling(c);
        let len_np = self.nodes[new_parent].children.len();
        let idx = if new_index < len_np {
            new_index
        } else {
            len_np
        };
        self.attach(c, new_parent, idx);
        let ghost t1 = *self;
        if moved_tiling {
            self.renormalize(new_parent);
        }
        proof {
            let t2 = *self;
            let npi = new_parent as int;
            assert(t2.children_of(npi) == t1.children_of(npi));
            assert(t2.node(c as int).kind == Self::with_size(
                t0.node(c as int).kind,
                t2.size_of(c as int),
            )) by {
                assert(t1.node(c as int).kind == t0.node(c as int).kind);
                lemma_insert_index(t0.children_of(npi), idx as int, c);
                assert(t1.children_of(npi)[idx as int] == c);
                assert(t1.children_of(npi).contains(c));
                if moved_tiling {
                    if t2.node(c as int) == t1.node(c as int) {
                        match t1.node(c as int).kind {
                            NodeKind::Split(d) => {},
                            NodeKind::TilingWindow(w) => {},
                            _ => {},
                        }
                    }
                } else {
                    assert(t2 == t1);
                    match t1.node(c as int).kind {
                        NodeKind::Split(d) => {},
                        NodeKind::TilingWindow(w) => {},
                        NodeKind::Root => {},
                        NodeKind::Monitor(_) => {},
                        NodeKind::Workspace(_) => {},
                        NodeKind::NonTilingWindow(_) => {},
                    }
                }
            }
            assert forall|i: int| t2.valid(i) implies Self::kind_same_variant(
                t0.node(i).kind,
                #[trigger] t2.node(i).kind,
            ) by {
                assert(Self::kind_same_variant(t1.node(i).kind, t2.node(i).kind));
            }
            assert forall|i: int|
                t2.valid(i) && i != c as int && !t0.children_of(npi).contains(i as usize) implies (
            #[trigger] t2.node(i)).kind == t0.node(i).kind by {
                assert(t1.node(i).kind == t0.node(i).kind);
                if moved_tiling {
                    assert(!t1.children_of(npi).contains(i as usize)) by {
                        if t1.children_of(npi).contains(i as usize) {
                            let k = choose|k: int|
                                0 <= k < t1.children_of(npi).len() && t1.children_of(npi)[k]
                                    == i as usize;
                            lemma_insert_index(t0.children_of(npi), idx as int, c);
                            if k == idx as int {
                                assert(t1.children_of(npi)[k] == c);
                            } else {
                                let a = if k < idx as int { k } else { k - 1 };
                                assert(t0.children_of(npi)[a] == i as usize);
                                assert(t0.children_of(npi).contains(i as usize));
                            }
                        }
                    }
                    assert(t2.node(i) == t1.node(i));
                }
            }
            assert forall|i: int| t2.valid(i) implies t2.node_sum_ok(i) by {
                if moved_tiling {
                    if i != npi {
                        assert(t1.node_sum_ok(i)) by {
                            assert(t1.tiling_sum(i) == t0.tiling_sum(i));
                            assert(t0.node_sum_ok(i));
                            if t1.has_tiling_child(i) {
                                assert(t0.has_tiling_child(i));
                            }
                            if t0.has_tiling_child(i) {
                                assert(t1.has_tiling_child(i));
                            }
                        }
                        assert(t2.tiling_sum(i) == t1.tiling_sum(i));
                        if t2.has_tiling_child(i) {
                            assert(t1.has_tiling_child(i));
                        }
                        if t1.has_tiling_child(i) {
                            assert(t2.has_tiling_child(i));
                        }
                    }
                } else {
                    assert(t2 == t1);
                    assert(t0.node_sum_ok(i));
                    if i != npi {
                        assert(t1.tiling_sum(i) == t0.tiling_sum(i));
                        if t1.has_tiling_child(i) {
                            assert(t0.has_tiling_child(i));
                        }
                        if t0.has_tiling_child(i) {
                            assert(t1.has_tiling_child(i));
                        }
                    } else {
                        assert(t1.tiling_sum(i) == t0.tiling_sum(i) + t0.share_of(c as int));
                        assert(t0.share_of(c as int) == 0);
                        if t1.has_tiling_child(i) {
                            assert(t0.has_tiling_child(i)) by {
                                let k = choose|k: int|
                                    0 <= k < t1.children_of(i).len() && t1.is_tiling(
                                        #[trigger] t1.children_of(i)[k] as int,
                                    );
                                assert(t1.children_of(i)[k] != c) by {
                                    assert(!t1.is_tiling(c as int));
                                }
                                assert(t0.children_of(i).contains(t1.children_of(i)[k]));
                            }
                        }
                    }
                }
            }
        }
    }

    /// Remove `c` from its old parent, insert it into `new_parent`'s
    /// child sequence at `new_index` (clamped to the sequence's end),
    /// and renormalise the tiling children of both parents when the
    /// moved container is itself tiling. Fails when `c` has no parent.
    ///
    /// A container that still has children must move to a parent one
    /// level above its own: the ghost depth numbering that rules out
    /// cycles is kept without renumbering the moved subtree. Windows
    /// are childless and move anywhere; a workspace moves between
    /// monitors; both shapes the manager performs satisfy this.
    #[verifier::rlimit(100)]
    pub fn move_within_tree(&mut self, c: usize, new_parent: usize, new_index: usize) -> (r:
        Result<(), crate::WmError>)
        requires
            old(self).wf(),
            old(self).sums_ok(),
            old(self).valid(c as int),
            old(self).valid(new_parent as int),
            c != new_parent,
            Self::child_kind_ok(old(self).node(new_parent as int).kind, old(self).node(c as int).kind),
            old(self).children_of(c as int).len() == 0 || old(self).node(c as int).depth@ == old(
                self,
            ).node(new_parent as int).depth@ + 1,
        ensures
            match r {
                Ok(()) => {
                    let oldp = old(self).node(c as int).parent->Some_0 as int;
                    let cs = old(self).children_of(oldp);
                    let base = if oldp == new_parent as int {
                        cs.remove(cs.index_of(c))
                    } else {
                        old(self).children_of(new_parent as int)
                    };
                    let idx = if (new_index as int) < base.len() {
                        new_index as int
                    } else {
                        base.len() as int
                    };
                    &&& old(self).node(c as int).parent is Some
                    &&& final(self).wf()
                    &&& final(self).sums_ok()
                    &&& final(self).nodes@.len() == old(self).nodes@.len()
                    &&& final(self).root == old(self).root
                    &&& final(self).node(c as int).parent == Some(new_parent)
                    &&& final(self).children_of(new_parent as int) == base.insert(idx, c)
                    &&& oldp != new_parent as int ==> final(self).children_of(oldp) == cs.remove(
                        cs.index_of(c),
                    )
                    &&& forall|i: int|
                        final(self).valid(i) && i != c ==> (#[trigger] final(self).node(i)).parent
                            == old(self).node(i).parent && final(self).node(i).depth == old(
                            self,
                        ).node(i).depth
                    &&& forall|i: int|
                        final(self).valid(i) && i != oldp && i != new_parent ==> (
                        #[trigger] final(self).node(i)).children == old(self).node(i).children
                    &&& forall|i: int|
                        final(self).valid(i) ==> Self::kind_same_variant(
                            old(self).node(i).kind,
                            #[trigger] final(self).node(i).kind,
                        )
                    &&& final(self).node(c as int).kind == Self::with_size(
                        old(self).node(c as int).kind,
                        final(self).size_of(c as int),
                    )
                    &&& !old(self).is_tiling(c as int) ==> forall|i: int|
                        final(self).valid(i) ==> #[trigger] final(self).node(i).kind == old(
                            self,
                        ).node(i).kind
                    &&& final(self).node(c as int).depth@ == old(self).node(
                        new_parent as int,
                    ).depth@ + 1
                    &&& forall|i: int|
                        final(self).valid(i) && i != c && i != new_parent && old(self).node(
                            i,
                        ).parent is None && old(self).children_of(i).len() == 0 ==> (
                        #[trigger] final(self).node(i)) == old(self).node(i)
                    &&& forall|i: int|
                        final(self).valid(i) && i != c && !cs.contains(i as usize)
                            && !base.contains(i as usize) ==> (#[trigger] final(self).node(
                            i,
                        )).kind == old(self).node(i).kind
                },
                Err(e) => {
                    &&& e == crate::WmError::NoParent
                    &&& old(self).node(c as int).parent is None
                    &&& *final(self) == *old(self)
                },
            },
    {
        let ghost t0 = *self;
        proof {
            assert(t0.nodes.len() == t0.nodes@.len());
            assert(t0.nodes@.len() <= usize::MAX);
            if old(self).node(c as int).parent is Some {
                assert(c != t0.root) by {
                    assert(t0.node(t0.root as int).parent is None);
                }
            }
        }
        let oldp = match self.detach_for_move(c) {
            Ok(p) => p,
            Err(e) => {
                return Err(e);
            },
        };
        let ghost t1 = *self;
        proof {
            assert(Self::kind_same_variant(t0.node(c as int).kind, t1.node(c as int).kind));
            assert(Self::child_kind_ok(t1.node(new_parent as int).kind, t1.node(c as int).kind))
                by {
                assert(Self::kind_same_variant(
                    t0.node(new_parent as int).kind,
                    t1.node(new_parent as int).kind,
                ));
            }
            assert(t1.node(c as int).children == t0.node(c as int).children);
            if t0.children_of(c as int).len() != 0 {
                assert(t1.node(new_parent as int).parent == t0.node(new_parent as int).parent);
                assert(t1.node(c as int).depth == t0.node(c as int).depth);
                assert(t1.node(new_parent as int).depth == t0.node(new_parent as int).depth);
            }
            assert(c != t1.root) by {
                assert(t1.root == t0.root);
                assert(t0.node(c as int).parent == Some(oldp));
                assert(t0.node(t0.root as int).parent is None);
            }
        }
        self.attach_clamped(c, new_parent, new_index);
        proof {
            let t2 = *self;
            let oldpi = oldp as int;
            let cs = t0.children_of(oldpi);
            let pos = cs.index_of(c);
            assert(t1.children_of(new_parent as int) == if oldpi == new_parent as int {
                cs.remove(pos)
            } else {
                t0.children_of(new_parent as int)
            });
            assert(t2.node(c as int).kind == Self::with_size(
                t0.node(c as int).kind,
                t2.size_of(c as int),
            )) by {
                assert(t2.node(c as int).kind == Self::with_size(
                    t1.node(c as int).kind,
                    t2.size_of(c as int),
                ));
                assert(t1.node(c as int).kind == Self::with_size(
                    t0.node(c as int).kind,
                    t1.size_of(c as int),
                ));
                match t0.node(c as int).kind {
                    NodeKind::Split(d) => {},
                    NodeKind::TilingWindow(w) => {},
                    NodeKind::Root => {},
                    NodeKind::Monitor(_) => {},
                    NodeKind::Workspace(_) => {},
                    NodeKind::NonTilingWindow(_) => {},
                }
            }
            if oldpi != new_parent as int {
                assert(t2.node(oldpi).children == t1.node(oldpi).children);
                assert(t2.children_of(oldpi) == t1.children_of(oldpi));
            }
            if !t0.is_tiling(c as int) {
                assert(!t1.is_tiling(c as int)) by {
                    assert(Self::kind_same_variant(t0.node(c as int).kind, t1.node(c as int).kind));
                    Self::lemma_variant_tiling(t0.node(c as int).kind, t1.node(c as int).kind);
                }
            }
            // A node in neither parent's child sequence kept its
            // variant data: both renormalisations passed it by.
            assert forall|i: int|
                t2.valid(i) && i != c as int && !cs.contains(i as usize) && !(if oldpi
                    == new_parent as int {
                    cs.remove(pos)
                } else {
                    t0.children_of(new_parent as int)
                }).contains(i as usize) implies (#[trigger] t2.node(i)).kind == t0.node(
                i,
            ).kind by {
                assert(t1.node(i).kind == t0.node(i).kind);
                assert(t1.children_of(new_parent as int) == if oldpi == new_parent as int {
                    cs.remove(pos)
                } else {
                    t0.children_of(new_parent as int)
                });
                assert(t2.node(i).kind == t1.node(i).kind);
            }
            // A parentless bystander is nobody's child, so neither step
            // touched it.
            assert forall|i: int|
                t2.valid(i) && i != c as int && i != new_parent as int && t0.node(
                    i,
                ).parent is None && t0.children_of(i).len() == 0 implies (
            #[trigger] t2.node(i)) == t0.node(i) by {
                assert(i != oldpi) by {
                    assert(cs.contains(c));
                }
                assert(!cs.contains(i as usize)) by {
                    if cs.contains(i as usize) {
                        let k = choose|k: int| 0 <= k < cs.len() && cs[k] == i as usize;
                        assert(t0.wf_node(oldpi));
                        assert(t0.node(i).parent == Some(oldp));
                    }
                }
                assert(!t1.children_of(new_parent as int).contains(i as usize)) by {
                    if t1.children_of(new_parent as int).contains(i as usize) {
                        let k = choose|k: int|
                            0 <= k < t1.children_of(new_parent as int).len() && t1.children_of(
                                new_parent as int,
                            )[k] == i as usize;
                        assert(t1.wf_node(new_parent as int));
                        assert(t1.node(i).parent == Some(new_parent));
                        assert(t1.node(i).parent == t0.node(i).parent);
                    }
                }
                assert(t1.node(i).kind == t0.node(i).kind);
                assert(t2.node(i).kind == t1.node(i).kind);
                assert(t1.node(i).parent == t0.node(i).parent);
                assert(t1.node(i).children == t0.node(i).children);
                assert(t1.node(i).depth == t0.node(i).depth);
            }
        }
        Ok(())
    }

    /// Swap whatever currently occupies position `index` under `parent`
    /// with the parentless, childless node `new_c`, preserving the
    /// position; the displaced occupant is left detached. Tiling
    /// children of `parent` are renormalised when the exchange moves a
    /// tiling share in or out. Fails when `index` is out of bounds.
    #[verifier::rlimit(100)]
    pub fn replace(&mut self, new_c: usize, parent: usize, index: usize) -> (r: Result<
        usize,
        crate::WmError,
    >)
        requires
            old(self).wf(),
            old(self).sums_ok(),
            old(self).valid(new_c as int),
            old(self).valid(parent as int),
            old(self).node(new_c as int).parent is None,
            old(self).children_of(new_c as int).len() == 0,
            new_c != old(self).root,
            new_c != parent,
            Self::child_kind_ok(old(self).node(parent as int).kind, old(self).node(new_c as int).kind),
        ensures
            match r {
                Ok(old_c) => {
                    let cs = old(self).children_of(parent as int);
                    &&& (index as int) < cs.len()
                    &&& old_c == cs[index as int]
                    &&& final(self).wf()
                    &&& final(self).sums_ok()
                    &&& final(self).nodes@.len() == old(self).nodes@.len()
                    &&& final(self).root == old(self).root
                    &&& final(self).node(old_c as int).parent is None
                    &&& final(self).node(new_c as int).parent == Some(parent)
                    &&& final(self).children_of(parent as int) == cs.update(index as int, new_c)
                    &&& forall|i: int|
                        final(self).valid(i) && i != new_c && i != old_c ==> (
                        #[trigger] final(self).node(i)).parent == old(self).node(i).parent
                            && final(self).node(i).depth == old(self).node(i).depth
                    &&& forall|i: int|
                        final(self).valid(i) && i != parent ==> (#[trigger] final(self).node(
                            i,
                        )).children == old(self).node(i).children
                    &&& forall|i: int|
                        final(self).valid(i) ==> Self::kind_same_variant(
                            old(self).node(i).kind,
                            #[trigger] final(self).node(i).kind,
                        )
                    &&& final(self).node(old_c as int).kind == Self::with_size(
                        old(self).node(old_c as int).kind,
                        final(self).size_of(old_c as int),
                    )
                    &&& final(self).node(new_c as int).kind == Self::with_size(
                        old(self).node(new_c as int).kind,
                        final(self).size_of(new_c as int),
                    )
                    &&& final(self).node(old_c as int).children == old(self).node(
                        old_c as int,
                    ).children
                    &&& forall|i: int|
                        final(self).valid(i) && i != new_c && i != cs[index as int] && !cs.contains(
                            i as usize,
                        ) ==> (#[trigger] final(self).node(i)).kind == old(self).node(i).kind
                },
                Err(e) => {
                    &&& e == crate::WmError::IndexOutOfBounds
                    &&& (index as int) >= old(self).children_of(parent as int).len()
                    &&& *final(self) == *old(self)
                },
            },
    {
        let ghost t0 = *self;
        let n = self.nodes[parent].children.len();
        if index >= n {
            return Err(crate::WmError::IndexOutOfBounds);
        }
        let old_c = self.nodes[parent].children[index];
        proof {
            assert(t0.nodes.len() == t0.nodes@.len());
            assert(t0.nodes@.len() <= usize::MAX);
            assert(t0.wf_node(parent as int));
            assert(t0.node(old_c as int).parent == Some(parent));
        }
        let oldp = match self.detach_for_move(old_c) {
            Ok(p) => p,
            Err(_) => {
                proof {
                    assert(false);
                }
                return Err(crate::WmError::IndexOutOfBounds);
            },
        };
        let ghost t1 = *self;
        proof {
            assert(oldp == parent);
            let cs = t0.children_of(parent as int);
            let pos = cs.index_of(old_c);
            assert(pos == index as int) by {
                if pos != index as int {
                    assert(cs[pos] == cs[index as int]);
                }
            }
            assert(t1.children_of(parent as int) == cs.remove(index as int));
            assert(t1.node(new_c as int) == t0.node(new_c as int)) by {
                assert(new_c != old_c) by {
                    assert(t0.node(old_c as int).parent == Some(parent));
                }
                assert((t1.node(new_c as int)).parent == t0.node(new_c as int).parent);
                assert((t1.node(new_c as int)).children == t0.node(new_c as int).children);
                assert(t1.node(new_c as int).kind == t0.node(new_c as int).kind) by {
                    assert(!t0.children_of(parent as int).contains(new_c)) by {
                        if t0.children_of(parent as int).contains(new_c) {
                            let k = choose|k: int|
                                0 <= k < t0.children_of(parent as int).len() && t0.children_of(
                                    parent as int,
                                )[k] == new_c;
                            assert(t0.node(new_c as int).parent == Some(parent));
                        }
                    }
                }
                assert(t1.node(new_c as int).depth == t0.node(new_c as int).depth);
            }
            assert(new_c != t1.root);
            assert(Self::child_kind_ok(t1.node(parent as int).kind, t1.node(new_c as int).kind))
                by {
                assert(Self::kind_same_variant(
                    t0.node(parent as int).kind,
                    t1.node(parent as int).kind,
                ));
            }
        }
        self.attach_clamped(new_c, parent, index);
        proof {
            let t2 = *self;
            let cs = t0.children_of(parent as int);
            assert(t2.children_of(parent as int) == cs.remove(index as int).insert(
                index as int,
                new_c,
            ));
            assert(t2.children_of(parent as int) =~= cs.update(index as int, new_c)) by {
                lemma_remove_index(cs, index as int);
                lemma_insert_index(cs.remove(index as int), index as int, new_c);
            }
            assert(t2.node(old_c as int).parent is None) by {
                assert(old_c != new_c);
                assert((t2.node(old_c as int)).parent == t1.node(old_c as int).parent);
            }
            assert(t2.node(old_c as int).kind == Self::with_size(
                t0.node(old_c as int).kind,
                t2.size_of(old_c as int),
            )) by {
                assert((t2.node(old_c as int)).children == t1.node(old_c as int).children);
                assert(t1.node(old_c as int).kind == Self::with_size(
                    t0.node(old_c as int).kind,
                    t1.size_of(old_c as int),
                ));
                assert(t2.node(old_c as int).kind == t1.node(old_c as int).kind) by {
                    assert(!t1.children_of(parent as int).contains(old_c)) by {
                        if t1.children_of(parent as int).contains(old_c) {
                            assert(t1.wf_node(parent as int));
                            assert(t1.node(old_c as int).parent == Some(parent));
                        }
                    }
                    assert(old_c != new_c);
                }
                match t0.node(old_c as int).kind {
                    NodeKind::Split(d) => {},
                    NodeKind::TilingWindow(w) => {},
                    NodeKind::Root => {},
                    NodeKind::Monitor(_) => {},
                    NodeKind::Workspace(_) => {},
                    NodeKind::NonTilingWindow(_) => {},
                }
            }
            assert(t2.node(new_c as int).kind == Self::with_size(
                t0.node(new_c as int).kind,
                t2.size_of(new_c as int),
            )) by {
                assert(t2.node(new_c as int).kind == Self::with_size(
                    t1.node(new_c as int).kind,
                    t2.size_of(new_c as int),
                ));
            }
            // A node outside the parent's child sequence kept its
            // variant data through both steps.
            assert forall|i: int|
                t2.valid(i) && i != new_c && i != old_c && !cs.contains(i as usize) implies (
            #[trigger] t2.node(i)).kind == t0.node(i).kind by {
                assert(t1.node(i).kind == t0.node(i).kind);
                assert(!t1.children_of(parent as int).contains(i as usize)) by {
                    if t1.children_of(parent as int).contains(i as usize) {
                        let k = choose|k: int|
                            0 <= k < t1.children_of(parent as int).len() && t1.children_of(
                                parent as int,
                            )[k] == i as usize;
                        lemma_remove_index(cs, index as int);
                        let a = if k < index as int {
                            k
                        } else {
                            k + 1
                        };
                        assert(cs[a] == i as usize);
                        assert(cs.contains(i as usize));
                    }
                }
                assert(t2.node(i).kind == t1.node(i).kind);
            }
        }
        Ok(old_c)
    }

    /// Set the proportional size of the tiling container `c` and
    /// rescale its tiling siblings so the parent's tiling children
    /// still sum to one unit: the container receives the clamped
    /// target exactly, or the whole unit when it has no tiling
    /// sibling. Fails when `c` has no parent.
    #[verifier::rlimit(100)]
    pub fn resize_tiling_container(&mut self, c: usize, target_size: u64) -> (r: Result<
        (),
        crate::WmError,
    >)
        requires
            old(self).wf(),
            old(self).sums_ok(),
            old(self).valid(c as int),
            old(self).is_tiling(c as int),
        ensures
            match r {
                Ok(()) => {
                    let p = old(self).node(c as int).parent->Some_0 as int;
                    let cs = old(self).children_of(p);
                    let cso = cs.remove(cs.index_of(c));
                    let has_sib = exists|k: int|
                        0 <= k < cso.len() && old(self).is_tiling(#[trigger] cso[k] as int);
                    &&& old(self).node(c as int).parent is Some
                    &&& final(self).wf()
                    &&& final(self).sums_ok()
                    &&& final(self).nodes@.len() == old(self).nodes@.len()
                    &&& final(self).root == old(self).root
                    &&& final(self).size_of(c as int) == if has_sib {
                        if target_size < crate::TILING_UNIT {
                            target_size
                        } else {
                            crate::TILING_UNIT
                        }
                    } else {
                        crate::TILING_UNIT
                    }
                    &&& forall|i: int|
                        final(self).valid(i) ==> (#[trigger] final(self).node(i)).parent == old(
                            self,
                        ).node(i).parent && final(self).node(i).children == old(self).node(
                            i,
                        ).children && final(self).node(i).depth == old(self).node(i).depth
                            && Self::kind_same_variant(old(self).node(i).kind, final(self).node(i).kind)
                    &&& final(self).node(c as int).kind == Self::with_size(
                        old(self).node(c as int).kind,
                        final(self).size_of(c as int),
                    )
                    &&& has_sib ==> forall|k: int|
                        0 <= k < cso.len() ==> {
                            let x = #[trigger] cso[k] as int;
                            if old(self).is_tiling(x) {
                                final(self).node(x) == (Node {
                                    kind: Self::with_size(
                                        old(self).node(x).kind,
                                        old(self).renorm_share_at(
                                            cso,
                                            k,
                                            crate::TILING_UNIT - (
                                            if target_size < crate::TILING_UNIT {
                                                target_size
                                            } else {
                                                crate::TILING_UNIT
                                            }),
                                        ) as u64,
                                    ),
                                    ..old(self).node(x)
                                })
                            } else {
                                final(self).node(x) == old(self).node(x)
                            }
                        }
                    &&& !has_sib ==> forall|i: int|
                        final(self).valid(i) && i != c ==> #[trigger] final(self).node(i) == old(
                            self,
                        ).node(i)
                },
                Err(e) => {
                    &&& e == crate::WmError::NoParent
                    &&& old(self).node(c as int).parent is None
                    &&& *final(self) == *old(self)
                },
            },
    {
        let ghost t0 = *self;
        let p = match self.nodes[c].parent {
            Some(p) => p,
            None => {
                return Err(crate::WmError::NoParent);
            },
        };
        proof {
            assert(t0.nodes.len() == t0.nodes@.len());
            assert(t0.nodes@.len() <= usize::MAX);
            assert(t0.wf_node(c as int));
            assert(t0.wf_node(p as int));
        }
        let pos = match self.child_position(p, c) {
            Some(k) => k,
            None => {
                proof {
                    assert(false);
                }
                return Err(crate::WmError::NoParent);
            },
        };
        let ghost cs = t0.children_of(p as int);
        let ghost cso = cs.remove(pos as int);
        proof {
            let io = cs.index_of(c);
            assert(cs.contains(c));
            assert(0 <= io < cs.len() && cs[io] == c);
            assert(io == pos as int) by {
                if io != pos as int {
                    assert(cs[io] == cs[pos as int]);
                }
            }
            lemma_remove_index(cs, pos as int);
        }
        // Does `c` have a tiling sibling?
        let n = self.nodes[p].children.len();
        let mut has_sib = false;
        let mut j: usize = 0;
        while j < n
            invariant
                *self == t0,
                t0.wf(),
                t0.valid(p as int),
                cs == t0.children_of(p as int),
                cso == cs.remove(pos as int),
                (pos as int) < cs.len(),
                cs[pos as int] == c,
                n == cs.len(),
                0 <= j <= n,
                forall|k: int| 0 <= k < cs.len() ==> t0.valid(#[trigger] cs[k] as int),
                has_sib == exists|k: int|
                    0 <= k < j && k != pos as int && t0.is_tiling(#[trigger] cs[k] as int),
            decreases n - j,
        {
            if j != pos {
                let cid = self.nodes[p].children[j];
                if self.node_is_tiling(cid) {
                    has_sib = true;
                }
            }
            proof {
                if has_sib {
                    let k0 = choose|k: int|
                        0 <= k < j + 1 && k != pos as int && t0.is_tiling(#[trigger] cs[k] as int);
                }
            }
            j += 1;
        }
        proof {
            // Translate the sibling witness between `cs` and `cso`.
            if has_sib {
                let k = choose|k: int|
                    0 <= k < cs.len() && k != pos as int && t0.is_tiling(#[trigger] cs[k] as int);
                let ko = if k < pos as int { k } else { k - 1 };
                assert(cso[ko] == cs[k]);
                assert(exists|q: int| 0 <= q < cso.len() && t0.is_tiling(#[trigger] cso[q] as int));
            } else {
                if exists|q: int| 0 <= q < cso.len() && t0.is_tiling(#[trigger] cso[q] as int) {
                    let q = choose|q: int|
                        0 <= q < cso.len() && t0.is_tiling(#[trigger] cso[q] as int);
                    let k = if q < pos as int { q } else { q + 1 };
                    assert(cs[k] == cso[q]);
                    assert(false);
                }
            }
        }
        if !has_sib {
            self.set_share(c, crate::TILING_UNIT);
            proof {
                let t2 = *self;
                assert(t2.node(c as int).kind == Self::with_size(
                    t0.node(c as int).kind,
                    crate::TILING_UNIT,
                ));
                assert(t2.size_of(c as int) == crate::TILING_UNIT);
                assert(t0.same_shape(t2)) by {
                    assert forall|i: int| t0.valid(i) implies t2.node(i).parent == t0.node(
                        i,
                    ).parent && t2.node(i).children == t0.node(i).children && t2.node(i).depth
                        == t0.node(i).depth && Self::kind_same_variant(
                        t0.node(i).kind,
                        t2.node(i).kind,
                    ) by {
                        if i != c as int {
                            assert(t2.node(i) == t0.node(i));
                        }
                    }
                }
                assert forall|i: int| t2.valid(i) implies Self::kind_data_ok(
                    #[trigger] t2.node(i).kind,
                ) by {
                    t0.lemma_wf_kind_data(i);
                }
                t0.lemma_same_shape_wf(t2);
                Self::lemma_sums_outside(t0, t2, p);
                assert(forall|i: int|
                    t2.valid(i) && i != c as int ==> #[trigger] t2.node(i) == t0.node(i));
                assert forall|i: int| t2.valid(i) implies t2.node_sum_ok(i) by {
                    if i == p as int {
                        if t2.has_tiling_child(i) {
                            assert forall|k: int| 0 <= k < cso.len() implies #[trigger] cso[k]
                                != c && t2.share_of(cso[k] as int) == t0.share_of(cso[k] as int)
                                && !t0.is_tiling(cso[k] as int) by {
                                let a = if k < pos as int {
                                    k
                                } else {
                                    k + 1
                                };
                                assert(cso[k] == cs[a]);
                                assert(cs[pos as int] == c);
                                assert(cso[k] != c);
                                assert(t2.node(cso[k] as int) == t0.node(cso[k] as int));
                            }
                            t2.lemma_sum_remove(cs, pos as int);
                            t2.lemma_sum_congruence(t0, cso);
                            t0.lemma_sum_no_tiling(cso);
                            assert(t2.share_of(c as int) == crate::TILING_UNIT);
                            assert(t2.tiling_sum(i) == crate::TILING_UNIT);
                        }
                    } else {
                        assert(t0.node_sum_ok(i));
                        assert(t2.tiling_sum(i) == t0.tiling_sum(i));
                        if t2.has_tiling_child(i) {
                            assert(t0.has_tiling_child(i));
                        }
                        if t0.has_tiling_child(i) {
                            assert(t2.has_tiling_child(i));
                        }
                    }
                }
            }
            return Ok(());
        }
        let s = if target_size < crate::TILING_UNIT {
            target_size
        } else {
            crate::TILING_UNIT
        };
        self.set_share(c, s);
        let ghost t1 = *self;
        proof {
            assert(t1.node(c as int).kind == Self::with_size(t0.node(c as int).kind, s));
            assert(t1.size_of(c as int) == s);
            assert(t0.same_shape(t1)) by {
                assert forall|i: int| t0.valid(i) implies t1.node(i).parent == t0.node(i).parent
                    && t1.node(i).children == t0.node(i).children && t1.node(i).depth == t0.node(
                    i,
                ).depth && Self::kind_same_variant(t0.node(i).kind, t1.node(i).kind) by {
                    if i != c as int {
                        assert(t1.node(i) == t0.node(i));
                    }
                }
            }
            assert forall|i: int| t1.valid(i) implies Self::kind_data_ok(
                #[trigger] t1.node(i).kind,
            ) by {
                t0.lemma_wf_kind_data(i);
            }
            t0.lemma_same_shape_wf(t1);
            assert(t1.children_of(p as int) == cs);
            assert forall|k: int| 0 <= k < cso.len() implies t1.is_tiling(
                #[trigger] cso[k] as int,
            ) == t0.is_tiling(cso[k] as int) && t1.share_of(cso[k] as int) == t0.share_of(
                cso[k] as int,
            ) by {
                assert(cso[k] != c);
                assert(t1.node(cso[k] as int) == t0.node(cso[k] as int));
            }
        }
        self.rescale_others(p, pos, crate::TILING_UNIT - s);
        proof {
            let t2 = *self;
            // Each sibling's new share is its proportional quota of the
            // remainder, phrased against the starting tree.
            assert forall|k: int|
                0 <= k < cso.len() implies ({
                let x = #[trigger] cso[k] as int;
                if t0.is_tiling(x) {
                    t2.node(x) == (Node {
                        kind: Self::with_size(
                            t0.node(x).kind,
                            t0.renorm_share_at(cso, k, (crate::TILING_UNIT - s) as int) as u64,
                        ),
                        ..t0.node(x)
                    })
                } else {
                    t2.node(x) == t0.node(x)
                }
            }) by {
                let a = if k < pos as int {
                    k
                } else {
                    k + 1
                };
                assert(cso[k] == cs[a]);
                assert(cs[pos as int] == c);
                assert(cso[k] != c);
                assert(t1.node(cso[k] as int) == t0.node(cso[k] as int));
                t1.lemma_renorm_share_congruent(t0, cso, k, (crate::TILING_UNIT - s) as int);
            }
            assert(t2.node(c as int) == t1.node(c as int)) by {
                assert(!cso.contains(c)) by {
                    if cso.contains(c) {
                        let q = choose|q: int| 0 <= q < cso.len() && cso[q] == c;
                        let k = if q < pos as int { q } else { q + 1 };
                        assert(cs[k] == c);
                        assert(cs[pos as int] == c);
                        assert(t0.wf_node(p as int));
                    }
                }
            }
            assert(t2.size_of(c as int) == s);
            assert(t2.node(c as int).kind == Self::with_size(
                t0.node(c as int).kind,
                t2.size_of(c as int),
            ));
            // The sibling witness carries to `t1`.
            assert(exists|k: int| 0 <= k < cso.len() && t1.is_tiling(#[trigger] cso[k] as int)) by {
                let k = choose|k: int|
                    0 <= k < cso.len() && t0.is_tiling(#[trigger] cso[k] as int);
                assert(t1.is_tiling(cso[k] as int));
            }
            assert(t2.tiling_sum_of(cso) == crate::TILING_UNIT - s);
            assert forall|i: int| t2.valid(i) implies t2.node_sum_ok(i) by {
                if i == p as int {
                    t2.lemma_sum_remove(cs, pos as int);
                    assert(t2.tiling_sum_of(cs.remove(pos as int)) == t2.tiling_sum_of(cs)
                        - t2.share_of(c as int));
                    assert(t2.share_of(c as int) == s);
                    assert(t2.tiling_sum(i) == crate::TILING_UNIT);
                } else {
                    Self::lemma_sums_outside(t0, t1, p);
                    assert(t0.node_sum_ok(i));
                    assert(t1.tiling_sum(i) == t0.tiling_sum(i));
                    assert(t2.tiling_sum(i) == t1.tiling_sum(i));
                    if t2.has_tiling_child(i) {
                        assert(t1.has_tiling_child(i));
                        assert(t0.has_tiling_child(i));
                    }
                    if t0.has_tiling_child(i) {
                        assert(t1.has_tiling_child(i));
                        assert(t2.has_tiling_child(i));
                    }
                }
            }
        }
        Ok(())
    }

    /// The workspace a node belongs to, found by walking the parent
    /// chain for at most `fuel` steps. Under well-formedness a node's
    /// ghost depth always suffices as fuel.
    pub open spec fn workspace_of_fuel(self, i: int, fuel: nat) -> Option<int>
        decreases fuel,
    {
        if !self.valid(i) {
            None
        } else if self.is_workspace(i) {
            Some(i)
        } else if fuel == 0 {
            None
        } else {
            match self.node(i).parent {
                Some(p) => self.workspace_of_fuel(p as int, (fuel - 1) as nat),
                None => None,
            }
        }
    }

    /// The workspace a node belongs to, when it is reachable from one.
    pub open spec fn workspace_of(self, i: int) -> Option<int> {
        self.workspace_of_fuel(i, self.node(i).depth@)
    }

    /// Walk up to the containing workspace.
    pub fn find_workspace(&self, i: usize) -> (r: Option<usize>)
        requires
            self.wf(),
            self.valid(i as int),
        ensures
            match r {
                Some(w) => self.workspace_of(i as int) == Some(w as int) && self.valid(w as int)
                    && self.is_workspace(w as int),
                None => self.workspace_of(i as int) is None,
            },
    {
        proof {
            assert(self.nodes.len() == self.nodes@.len());
            assert(self.nodes@.len() <= usize::MAX);
        }
        let mut cur = i;
        loop
            invariant
                self.wf(),
                self.valid(cur as int),
                self.workspace_of(i as int) == self.workspace_of_fuel(
                    cur as int,
                    self.node(cur as int).depth@,
                ),
                self.nodes@.len() <= usize::MAX,
            decreases self.node(cur as int).depth@,
        {
            if matches!(&self.nodes[cur].kind, NodeKind::Workspace(_)) {
                return Some(cur);
            }
            match self.nodes[cur].parent {
                Some(p) => {
                    proof {
                        assert(self.wf_node(cur as int));
                        assert(self.node(cur as int).depth@ == self.node(p as int).depth@ + 1);
                    }
                    cur = p;
                },
                None => {
                    return None;
                },
            }
        }
    }

    /// Number of children of `p`.
    pub fn child_count(&self, p: usize) -> (r: usize)
        requires
            self.valid(p as int),
        ensures
            r == self.children_of(p as int).len(),
    {
        self.nodes[p].children.len()
    }

    /// The child of `p` at position `k`.
    pub fn child_at(&self, p: usize, k: usize) -> (r: usize)
        requires
            self.valid(p as int),
            (k as int) < self.children_of(p as int).len(),
        ensures
            r == self.children_of(p as int)[k as int],
    {
        self.nodes[p].children[k]
    }

    /// The parent reference of a node.
    pub fn parent_of(&self, i: usize) -> (r: Option<usize>)
        requires
            self.valid(i as int),
        ensures
            r == self.node(i as int).parent,
    {
        self.nodes[i].parent
    }

    /// How many tiling children `p` has, not counting `except`.
    pub fn tiling_child_count_except(&self, p: usize, except: usize) -> (r: usize)
        requires
            self.wf(),
            self.valid(p as int),
        ensures
            r as int == Self::count_tiling_except(*self, self.children_of(p as int), except),
    {
        let cs_len = self.nodes[p].children.len();
        let mut count: usize = 0;
        let mut k: usize = 0;
        while k < cs_len
            invariant
                self.wf(),
                self.valid(p as int),
                cs_len == self.children_of(p as int).len(),
                0 <= k <= cs_len,
                count as int == Self::count_tiling_except(
                    *self,
                    self.children_of(p as int).take(k as int),
                    except,
                ),
                count <= k,
            decreases cs_len - k,
        {
            let cid = self.nodes[p].children[k];
            proof {
                assert(self.children_of(p as int).take(k as int + 1).drop_last()
                    =~= self.children_of(p as int).take(k as int));
                assert(self.children_of(p as int).take(k as int + 1).last() == cid);
            }
            if cid != except && self.node_is_tiling(cid) {
                count += 1;
            }
            k += 1;
        }
        proof {
            assert(self.children_of(p as int).take(cs_len as int) =~= self.children_of(p as int));
        }
        count
    }

    /// Number of tiling members of `cs` other than `except`.
    pub open spec fn count_tiling_except(t: Tree, cs: Seq<usize>, except: usize) -> int
        decreases cs.len(),
    {
        if cs.len() == 0 {
            0
        } else {
            Self::count_tiling_except(t, cs.drop_last(), except) + if cs.last() != except
                && t.is_tiling(cs.last() as int) {
                1int
            } else {
                0int
            }
        }
    }

    /// Read the data of a window node.
    pub fn window_info(&self, i: usize) -> (r: WindowInfo)
        requires
            self.valid(i as int),
            self.is_window(i as int),
        ensures
            r == self.window_of(i as int),
    {
        match &self.nodes[i].kind {
            NodeKind::TilingWindow(w) => *w,
            NodeKind::NonTilingWindow(w) => *w,
            _ => {
                proof {
                    assert(false);
                }
                WindowInfo {
                    handle: 0,
                    tiling_size: 0,
                    state: WindowState::Tiling,
                    prev_state: None,
                    insertion_target: None,
                    floating_placement: Rect { x: 0, y: 0, width: 0, height: 0 },
                    has_custom_floating_placement: false,
                    has_pending_dpi_adjustment: false,
                }
            },
        }
    }

    /// Overwrite the data of a window node, keeping its variant and its
    /// tiling share, so every proportional sum is untouched.
    pub fn set_window_info(&mut self, i: usize, info: WindowInfo)
        requires
            old(self).wf(),
            old(self).sums_ok(),
            old(self).valid(i as int),
            old(self).is_window(i as int),
            info.floating_placement.loosely_bounded(),
            info.tiling_size == old(self).window_of(i as int).tiling_size,
        ensures
            final(self).wf(),
            final(self).sums_ok(),
            final(self).nodes@.len() == old(self).nodes@.len(),
            final(self).root == old(self).root,
            final(self).node(i as int) == (Node {
                kind: if old(self).is_tiling_window(i as int) {
                    NodeKind::TilingWindow(info)
                } else {
                    NodeKind::NonTilingWindow(info)
                },
                ..old(self).node(i as int)
            }),
            forall|j: int|
                final(self).valid(j) && j != i ==> #[trigger] final(self).node(j) == old(
                    self,
                ).node(j),
            final(self).window_of(i as int) == info,
    {
        let ghost t0 = *self;
        let nref = &mut self.nodes[i];
        match &mut nref.kind {
            NodeKind::TilingWindow(w) => {
                *w = info;
            },
            NodeKind::NonTilingWindow(w) => {
                *w = info;
            },
            _ => {
                proof {
                    assert(false);
                }
            },
        }
        proof {
            let t2 = *self;
            assert(t0.same_shape(t2)) by {
                assert forall|j: int| t0.valid(j) implies t2.node(j).parent == t0.node(j).parent
                    && t2.node(j).children == t0.node(j).children && t2.node(j).depth == t0.node(
                    j,
                ).depth && Self::kind_same_variant(t0.node(j).kind, t2.node(j).kind) by {
                    if j != i as int {
                        assert(t2.node(j) == t0.node(j));
                    }
                }
            }
            assert forall|j: int| t2.valid(j) implies Self::kind_data_ok(
                #[trigger] t2.node(j).kind,
            ) by {
                t0.lemma_wf_kind_data(j);
            }
            t0.lemma_same_shape_wf(t2);
            assert(t2.share_of(i as int) == t0.share_of(i as int));
            Self::lemma_sums_outside(t0, t2, 0);
            assert forall|j: int| t2.valid(j) implies t2.node_sum_ok(j) by {
                assert(t0.node_sum_ok(j));
                assert forall|k: int|
                    0 <= k < t0.children_of(j).len() implies t2.share_of(
                    #[trigger] t0.children_of(j)[k] as int,
                ) == t0.share_of(t0.children_of(j)[k] as int) && t2.is_tiling(
                    t0.children_of(j)[k] as int,
                ) == t0.is_tiling(t0.children_of(j)[k] as int) by {
                    let x = t0.children_of(j)[k];
                    if x as int != i as int {
                        assert(t2.node(x as int) == t0.node(x as int));
                    } else {
                        Self::lemma_variant_tiling(t0.node(x as int).kind, t2.node(x as int).kind);
                    }
                }
                t2.lemma_sum_congruence(t0, t0.children_of(j));
                assert(t2.children_of(j) == t0.children_of(j));
                if t2.has_tiling_child(j) {
                    assert(t0.has_tiling_child(j));
                }
                if t0.has_tiling_child(j) {
                    assert(t2.has_tiling_child(j));
                }
            }
        }
    }

    /// Tiling counts agree wherever variants agree.
    pub proof fn lemma_count_congruence(t1: Tree, t2: Tree, cs: Seq<usize>, except: usize)
        requires
            forall|j: int|
                0 <= j < cs.len() ==> t1.is_tiling(#[trigger] cs[j] as int) == t2.is_tiling(
                    cs[j] as int,
                ),
        ensures
            Self::count_tiling_except(t1, cs, except) == Self::count_tiling_except(
                t2,
                cs,
                except,
            ),
        decreases cs.len(),
    {
        if cs.len() > 0 {
            Self::lemma_count_congruence(t1, t2, cs.drop_last(), except);
        }
    }

    /// A positive tiling count names a witness, and conversely.
    pub proof fn lemma_count_except_pos(t: Tree, cs: Seq<usize>, except: usize)
        ensures
            Self::count_tiling_except(t, cs, except) > 0 <==> exists|k: int|
                0 <= k < cs.len() && cs[k] != except && t.is_tiling(#[trigger] cs[k] as int),
            Self::count_tiling_except(t, cs, except) >= 0,
        decreases cs.len(),
    {
        if cs.len() > 0 {
            Self::lemma_count_except_pos(t, cs.drop_last(), except);
            if Self::count_tiling_except(t, cs, except) > 0 {
                if cs.last() != except && t.is_tiling(cs.last() as int) {
                    assert(cs[cs.len() - 1] != except && t.is_tiling(cs[cs.len() - 1] as int));
                } else {
                    let k = choose|k: int|
                        0 <= k < cs.drop_last().len() && cs.drop_last()[k] != except && t.is_tiling(
                            #[trigger] cs.drop_last()[k] as int,
                        );
                    assert(cs[k] != except && t.is_tiling(cs[k] as int));
                }
            }
            if exists|k: int|
                0 <= k < cs.len() && cs[k] != except && t.is_tiling(#[trigger] cs[k] as int) {
                let k = choose|k: int|
                    0 <= k < cs.len() && cs[k] != except && t.is_tiling(#[trigger] cs[k] as int);
                if k < cs.len() - 1 {
                    assert(cs.drop_last()[k] != except && t.is_tiling(cs.drop_last()[k] as int));
                }
            }
        }
    }

    /// Create a fresh node of the given variant as the last child of
    /// `p`, renormalising `p`'s tiling children when the new node is a
    /// tiling container.
    pub fn add_child(&mut self, p: usize, kind: NodeKind) -> (id: usize)
        requires
            old(self).wf(),
            old(self).sums_ok(),
            old(self).valid(p as int),
            Self::kind_data_ok(kind),
            !(kind is Root),
            Self::child_kind_ok(old(self).node(p as int).kind, kind),
        ensures
            final(self).wf(),
            final(self).sums_ok(),
            final(self).nodes@.len() == old(self).nodes@.len() + 1,
            id == old(self).nodes@.len(),
            final(self).root == old(self).root,
            final(self).node(id as int).parent == Some(p),
            final(self).node(id as int).children@.len() == 0,
            final(self).node(id as int).kind == Self::with_size(kind, final(self).size_of(id as int)),
            final(self).children_of(p as int) == old(self).children_of(p as int).push(id),
            forall|i: int|
                final(self).valid(i) && i != id && i != p ==> (#[trigger] final(self).node(
                    i,
                )).parent == old(self).node(i).parent && final(self).node(i).children == old(
                    self,
                ).node(i).children && final(self).node(i).depth == old(self).node(i).depth
                    && Self::kind_same_variant(old(self).node(i).kind, final(self).node(i).kind),
            !(kind is Split) && !(kind is TilingWindow) ==> forall|i: int|
                final(self).valid(i) && i != id && i != p ==> #[trigger] final(self).node(i)
                    == old(self).node(i),
            final(self).node(p as int).parent == old(self).node(p as int).parent,
            final(self).node(p as int).depth == old(self).node(p as int).depth,
            !(kind is Split) && !(kind is TilingWindow) ==> final(self).node(p as int).kind == old(
                self,
            ).node(p as int).kind,
    {
        let ghost t0 = *self;
        proof {
            assert(t0.nodes.len() == t0.nodes@.len());
            assert(t0.nodes@.len() <= usize::MAX);
        }
        let id = self.push_node(kind);
        let ghost t1 = *self;
        let cnt = self.nodes[p].children.len();
        proof {
            assert(id != p);
            assert(id != t1.root);
            assert(t1.children_of(id as int).len() == 0);
        }
        self.attach_clamped(id, p, cnt);
        proof {
            let t2 = *self;
            assert(t2.children_of(p as int) =~= t0.children_of(p as int).push(id)) by {
                lemma_insert_index(t1.children_of(p as int), cnt as int, id);
            }
            assert(t2.node(id as int).kind == Self::with_size(kind, t2.size_of(id as int))) by {
                assert(t2.node(id as int).kind == Self::with_size(
                    t1.node(id as int).kind,
                    t2.size_of(id as int),
                ));
            }
            if !(kind is Split) && !(kind is TilingWindow) {
                assert(!t1.is_tiling(id as int));
                assert forall|i: int| t2.valid(i) && i != id && i != p implies #[trigger] t2.node(
                    i,
                ) == t0.node(i) by {
                    assert(t1.node(i).kind == t0.node(i).kind);
                    assert(t2.node(i).kind == t1.node(i).kind);
                    assert(t2.node(i).parent == t1.node(i).parent);
                    assert(t2.node(i).children == t1.node(i).children);
                    assert(t2.node(i).depth == t1.node(i).depth);
                }
                assert(t2.node(p as int).kind == t1.node(p as int).kind);
            }
        }
        id
    }

    /// Overwrite the recorded native identity of a monitor node.
    pub fn set_monitor_info(&mut self, i: usize, info: NativeMonitorInfo)
        requires
            old(self).wf(),
            old(self).sums_ok(),
            old(self).valid(i as int),
            old(self).is_monitor(i as int),
            info.rect.bounded(),
        ensures
            final(self).wf(),
            final(self).sums_ok(),
            final(self).nodes@.len() == old(self).nodes@.len(),
            final(self).root == old(self).root,
            final(self).node(i as int) == (Node {
                kind: NodeKind::Monitor(info),
                ..old(self).node(i as int)
            }),
            forall|j: int|
                final(self).valid(j) && j != i ==> #[trigger] final(self).node(j) == old(
                    self,
                ).node(j),
    {
        let ghost t0 = *self;
        let nref = &mut self.nodes[i];
        match &mut nref.kind {
            NodeKind::Monitor(m) => {
                *m = info;
            },
            _ => {
                proof {
                    assert(false);
                }
            },
        }
        proof {
            let t2 = *self;
            assert(t0.same_shape(t2)) by {
                assert forall|j: int| t0.valid(j) implies t2.node(j).parent == t0.node(j).parent
                    && t2.node(j).children == t0.node(j).children && t2.node(j).depth == t0.node(
                    j,
                ).depth && Self::kind_same_variant(t0.node(j).kind, t2.node(j).kind) by {
                    if j != i as int {
                        assert(t2.node(j) == t0.node(j));
                    }
                }
            }
            assert forall|j: int| t2.valid(j) implies Self::kind_data_ok(
                #[trigger] t2.node(j).kind,
            ) by {
                t0.lemma_wf_kind_data(j);
            }
            t0.lemma_same_shape_wf(t2);
            assert forall|j: int| t2.valid(j) implies t2.node_sum_ok(j) by {
                assert(t0.node_sum_ok(j));
                assert forall|k: int|
                    0 <= k < t0.children_of(j).len() implies t2.share_of(
                    #[trigger] t0.children_of(j)[k] as int,
                ) == t0.share_of(t0.children_of(j)[k] as int) && t2.is_tiling(
                    t0.children_of(j)[k] as int,
                ) == t0.is_tiling(t0.children_of(j)[k] as int) by {
                    let x = t0.children_of(j)[k];
                    if x as int != i as int {
                        assert(t2.node(x as int) == t0.node(x as int));
                    } else {
                        Self::lemma_variant_tiling(t0.node(x as int).kind, t2.node(x as int).kind);
                    }
                }
                t2.lemma_sum_congruence(t0, t0.children_of(j));
                assert(t2.children_of(j) == t0.children_of(j));
                if t2.has_tiling_child(j) {
                    assert(t0.has_tiling_child(j));
                }
                if t0.has_tiling_child(j) {
                    assert(t2.has_tiling_child(j));
                }
            }
        }
    }

    /// Overwrite the stored data of a workspace node.
    pub fn set_workspace_info(&mut self, i: usize, info: WorkspaceInfo)
        requires
            old(self).wf(),
            old(self).sums_ok(),
            old(self).valid(i as int),
            old(self).is_workspace(i as int),
        ensures
            final(self).wf(),
            final(self).sums_ok(),
            final(self).nodes@.len() == old(self).nodes@.len(),
            final(self).root == old(self).root,
            final(self).node(i as int) == (Node {
                kind: NodeKind::Workspace(info),
                ..old(self).node(i as int)
            }),
            forall|j: int|
                final(self).valid(j) && j != i ==> #[trigger] final(self).node(j) == old(
                    self,
                ).node(j),
    {
        let ghost t0 = *self;
        let nref = &mut self.nodes[i];
        match &mut nref.kind {
            NodeKind::Workspace(w) => {
                *w = info;
            },
            _ => {
                proof {
                    assert(false);
                }
            },
        }
        proof {
            let t2 = *self;
            assert(t0.same_shape(t2)) by {
                assert forall|j: int| t0.valid(j) implies t2.node(j).parent == t0.node(j).parent
                    && t2.node(j).children == t0.node(j).children && t2.node(j).depth == t0.node(
                    j,
                ).depth && Self::kind_same_variant(t0.node(j).kind, t2.node(j).kind) by {
                    if j != i as int {
                        assert(t2.node(j) == t0.node(j));
                    }
                }
            }
            assert forall|j: int| t2.valid(j) implies Self::kind_data_ok(
                #[trigger] t2.node(j).kind,
            ) by {
                t0.lemma_wf_kind_data(j);
            }
            t0.lemma_same_shape_wf(t2);
            assert forall|j: int| t2.valid(j) implies t2.node_sum_ok(j) by {
                assert(t0.node_sum_ok(j));
                assert forall|k: int|
                    0 <= k < t0.children_of(j).len() implies t2.share_of(
                    #[trigger] t0.children_of(j)[k] as int,
                ) == t0.share_of(t0.children_of(j)[k] as int) && t2.is_tiling(
                    t0.children_of(j)[k] as int,
                ) == t0.is_tiling(t0.children_of(j)[k] as int) by {
                    let x = t0.children_of(j)[k];
                    if x as int != i as int {
                        assert(t2.node(x as int) == t0.node(x as int));
                    } else {
                        Self::lemma_variant_tiling(t0.node(x as int).kind, t2.node(x as int).kind);
                    }
                }
                t2.lemma_sum_congruence(t0, t0.children_of(j));
                assert(t2.children_of(j) == t0.children_of(j));
                if t2.has_tiling_child(j) {
                    assert(t0.has_tiling_child(j));
                }
                if t0.has_tiling_child(j) {
                    assert(t2.has_tiling_child(j));
                }
            }
        }
    }

    /// Exchange the children of `p` at positions `a` and `b`, for a
    /// parent whose children carry no tiling share (the root's
    /// monitors): every node keeps its data, only the order changes.
    pub fn swap_children(&mut self, p: usize, a: usize, b: usize)
        requires
            old(self).wf(),
            old(self).sums_ok(),
            old(self).valid(p as int),
            (a as int) < old(self).children_of(p as int).len(),
            (b as int) < old(self).children_of(p as int).len(),
            !old(self).has_tiling_child(p as int),
        ensures
            final(self).wf(),
            final(self).sums_ok(),
            final(self).nodes@.len() == old(self).nodes@.len(),
            final(self).root == old(self).root,
            final(self).children_of(p as int) == old(self).children_of(p as int).update(
                a as int,
                old(self).children_of(p as int)[b as int],
            ).update(b as int, old(self).children_of(p as int)[a as int]),
            forall|j: int|
                final(self).valid(j) && j != p ==> #[trigger] final(self).node(j) == old(
                    self,
                ).node(j),
            final(self).node(p as int).parent == old(self).node(p as int).parent,
            final(self).node(p as int).kind == old(self).node(p as int).kind,
            final(self).node(p as int).depth == old(self).node(p as int).depth,
            !final(self).has_tiling_child(p as int),
    {
        let ghost t0 = *self;
        let ghost cs = self.children_of(p as int);
        proof {
            assert(t0.nodes.len() == t0.nodes@.len());
            assert(t0.nodes@.len() <= usize::MAX);
            assert(t0.wf_node(p as int));
        }
        if a == b {
            proof {
                assert(cs.update(a as int, cs[b as int]).update(b as int, cs[a as int]) =~= cs);
                assert(*self == t0);
            }
            return ;
        }
        let xa = self.nodes[p].children[a];
        let xb = self.nodes[p].children[b];
        let pnode = &mut self.nodes[p];
        pnode.children.remove(a);
        pnode.children.insert(a, xb);
        pnode.children.remove(b);
        pnode.children.insert(b, xa);
        proof {
            let t2 = *self;
            let cs2 = t2.children_of(p as int);
            assert(cs2 =~= cs.update(a as int, xb).update(b as int, xa)) by {
                assert(cs.remove(a as int).insert(a as int, xb) =~= cs.update(a as int, xb));
                assert(cs.update(a as int, xb).remove(b as int).insert(b as int, xa) =~= cs.update(
                    a as int,
                    xb,
                ).update(b as int, xa));
            }
            assert forall|j: int| t2.valid(j) && j != p implies #[trigger] t2.node(j) == t0.node(
                j,
            ) by {}
            // Swapping keeps the member set: a witness index maps
            // through the exchange.
            assert forall|x: usize| cs.contains(x) implies cs2.contains(x) by {
                let k = choose|k: int| 0 <= k < cs.len() && cs[k] == x;
                if k == a as int {
                    assert(cs2[b as int] == x);
                } else if k == b as int {
                    assert(cs2[a as int] == x);
                } else {
                    assert(cs2[k] == x);
                }
            }
            assert forall|x: usize| cs2.contains(x) implies cs.contains(x) by {
                let k = choose|k: int| 0 <= k < cs2.len() && cs2[k] == x;
                if k == a as int {
                    assert(cs[b as int] == x);
                } else if k == b as int {
                    assert(cs[a as int] == x);
                } else {
                    assert(cs[k] == x);
                }
            }
            assert forall|i: int| t2.valid(i) implies t2.wf_node(i) by {
                assert(t0.wf_node(i));
                if i == p {
                    assert forall|k: int| 0 <= k < cs2.len() implies t2.valid(
                        #[trigger] cs2[k] as int,
                    ) && t2.node(cs2[k] as int).parent == Some(p) by {
                        assert(cs.contains(cs2[k]));
                        let k0 = choose|k0: int| 0 <= k0 < cs.len() && cs[k0] == cs2[k];
                        assert(t0.node(cs2[k] as int).parent == Some(p));
                        assert(cs2[k] as int != p as int) by {
                            t0.lemma_not_own_child(p as int);
                        }
                    }
                    assert forall|k1: int, k2: int|
                        #![trigger cs2[k1], cs2[k2]]
                        0 <= k1 < k2 < cs2.len() implies cs2[k1] != cs2[k2] by {
                        let a1 = if k1 == a as int {
                            b as int
                        } else if k1 == b as int {
                            a as int
                        } else {
                            k1
                        };
                        let a2 = if k2 == a as int {
                            b as int
                        } else if k2 == b as int {
                            a as int
                        } else {
                            k2
                        };
                        assert(cs2[k1] == cs[a1] && cs2[k2] == cs[a2]);
                        assert(a1 != a2);
                        if a1 < a2 {
                            assert(cs[a1] != cs[a2]);
                        } else {
                            assert(cs[a2] != cs[a1]);
                        }
                    }
                    match t2.node(p as int).parent {
                        Some(q) => {
                            assert(t2.node(q as int) == t0.node(q as int)) by {
                                assert(q as int != p as int) by {
                                    t0.lemma_not_own_child(p as int);
                                    assert(t0.children_of(q as int).contains(p));
                                }
                            }
                        },
                        None => {},
                    }
                } else {
                    match t2.node(i).parent {
                        Some(q) => {
                            if q as int == p as int {
                                assert(cs.contains(i as usize));
                                assert(cs2.contains(i as usize));
                            }
                        },
                        None => {},
                    }
                }
            }
            // No tiling member before, so none after: the set is the
            // same and every node keeps its variant.
            assert(!t2.has_tiling_child(p as int)) by {
                if t2.has_tiling_child(p as int) {
                    let k = choose|k: int|
                        0 <= k < cs2.len() && t2.is_tiling(#[trigger] cs2[k] as int);
                    assert(cs.contains(cs2[k]));
                    let k0 = choose|k0: int| 0 <= k0 < cs.len() && cs[k0] == cs2[k];
                    assert(t0.is_tiling(cs[k0] as int));
                }
            }
            assert forall|i: int| t2.valid(i) implies t2.node_sum_ok(i) by {
                assert(t0.node_sum_ok(i));
                if i == p {
                } else {
                    assert(t2.children_of(i) == t0.children_of(i));
                    assert forall|k: int|
                        0 <= k < t0.children_of(i).len() implies t2.share_of(
                        #[trigger] t0.children_of(i)[k] as int,
                    ) == t0.share_of(t0.children_of(i)[k] as int) && t2.is_tiling(
                        t0.children_of(i)[k] as int,
                    ) == t0.is_tiling(t0.children_of(i)[k] as int) by {
                        let x = t0.children_of(i)[k];
                        if x as int != p as int {
                            assert(t2.node(x as int) == t0.node(x as int));
                        }
                    }
                    t2.lemma_sum_congruence(t0, t0.children_of(i));
                    if t2.has_tiling_child(i) {
                        assert(t0.has_tiling_child(i));
                    }
                    if t0.has_tiling_child(i) {
                        assert(t2.has_tiling_child(i));
                    }
                }
            }
        }
    }

    /// The containing workspace depends only on parent links, depths
    /// and variant tags, never on the data a variant carries.
    pub proof fn lemma_workspace_of_fuel_congruent(a: Tree, b: Tree, i: int, fuel: nat)
        requires
            a.nodes@.len() == b.nodes@.len(),
            forall|j: int|
                a.valid(j) ==> (#[trigger] b.node(j)).parent == a.node(j).parent && b.node(j).depth
                    == a.node(j).depth && Self::kind_same_variant(a.node(j).kind, b.node(j).kind),
        ensures
            a.workspace_of_fuel(i, fuel) == b.workspace_of_fuel(i, fuel),
        decreases fuel,
    {
        if a.valid(i) {
            Self::lemma_variant_tiling(a.node(i).kind, b.node(i).kind);
            if !a.is_workspace(i) && fuel > 0 {
                match a.node(i).parent {
                    Some(p) => {
                        Self::lemma_workspace_of_fuel_congruent(a, b, p as int, (fuel - 1) as nat);
                    },
                    None => {},
                }
            }
        }
    }

    /// A found workspace is a valid workspace node.
    pub proof fn lemma_workspace_of_fuel_valid(t: Tree, i: int, fuel: nat)
        ensures
            match t.workspace_of_fuel(i, fuel) {
                Some(w) => t.valid(w) && t.is_workspace(w),
                None => true,
            },
        decreases fuel,
    {
        if t.valid(i) && !t.is_workspace(i) && fuel > 0 {
            match t.node(i).parent {
                Some(p) => {
                    Self::lemma_workspace_of_fuel_valid(t, p as int, (fuel - 1) as nat);
                },
                None => {},
            }
        }
    }

    /// A found workspace is a valid workspace node.
    pub proof fn lemma_workspace_of_valid(t: Tree, i: int)
        ensures
            match t.workspace_of(i) {
                Some(w) => t.valid(w) && t.is_workspace(w),
                None => true,
            },
    {
        Self::lemma_workspace_of_fuel_valid(t, i, t.node(i).depth@);
    }

    /// The containing workspace is stable under changes of variant
    /// data alone.
    pub proof fn lemma_workspace_of_congruent(a: Tree, b: Tree, i: int)
        requires
            a.nodes@.len() == b.nodes@.len(),
            forall|j: int|
                a.valid(j) ==> (#[trigger] b.node(j)).parent == a.node(j).parent && b.node(j).depth
                    == a.node(j).depth && Self::kind_same_variant(a.node(j).kind, b.node(j).kind),
        ensures
            a.workspace_of(i) == b.workspace_of(i),
    {
        if a.valid(i) {
            Self::lemma_workspace_of_fuel_congruent(a, b, i, a.node(i).depth@);
        } else {
            Self::lemma_workspace_of_fuel_congruent(a, b, i, a.node(i).depth@);
        }
    }

    /// After renormalisation the prefix shares follow the quotas.
    pub proof fn lemma_renorm_prefix(self, b: Tree, cs: Seq<usize>, k: int, target: int)
        requires
            0 <= k <= cs.len(),
            forall|j: int|
                0 <= j < cs.len() ==> (self.is_tiling(#[trigger] cs[j] as int) == b.is_tiling(
                    cs[j] as int,
                )) && (self.is_tiling(cs[j] as int) ==> b.share_of(cs[j] as int)
                    == self.renorm_share_at(cs, j, target)) && (!self.is_tiling(cs[j] as int)
                    ==> b.share_of(cs[j] as int) == 0),
        ensures
            b.prefix_share(cs, k) == self.quota(cs, k, target) - self.quota(cs, 0, target),
        decreases k,
    {
        reveal(Tree::quota);
        if k > 0 {
            self.lemma_renorm_prefix(b, cs, k - 1, target);
            if !self.is_tiling(cs[k - 1] as int) {
                assert(self.prefix_share(cs, k) == self.prefix_share(cs, k - 1));
                assert(self.prefix_count(cs, k) == self.prefix_count(cs, k - 1));
                assert(self.quota(cs, k, target) == self.quota(cs, k - 1, target));
            }
        }
    }
}

} // verus!
