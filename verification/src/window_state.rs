//! The per-window state machine: transitions between tiling, floating,
//! fullscreen and minimized, with the insertion-point memory that lets
//! a window return to its old tiling position and proportional share.

use vstd::prelude::*;

use crate::state::WmState;
use crate::tree::InsertionTarget;
use crate::tree::NodeKind;
use crate::tree::Tree;
use crate::tree::WindowInfo;
use crate::tree::WindowState;
use crate::WmError;

verus! {

broadcast use vstd::std_specs::vec::group_vec_axioms;

/// The arrangement state a window node is currently in: a tiling
/// window node tiles; a non-tiling node carries its state explicitly.
pub open spec fn current_state(t: Tree, w: int) -> WindowState {
    if t.is_tiling_window(w) {
        WindowState::Tiling
    } else {
        t.window_of(w).state
    }
}

/// Whether a remembered insertion target still points at a displayed
/// workspace, so a window returning to tiling may use it.
pub open spec fn insertion_target_valid(t: Tree, it: InsertionTarget) -> bool {
    &&& t.valid(it.target_parent as int)
    &&& (t.is_workspace(it.target_parent as int) || t.is_split(it.target_parent as int))
    &&& match t.workspace_of(it.target_parent as int) {
        Some(w) => t.workspace_info_of(w).displayed,
        None => false,
    }
}

/// The proportional share a window restored to tiling receives:
/// its remembered share scaled by the change in sibling count, clamped
/// to one unit — or the whole unit when it tiles alone.
pub open spec fn restore_share(prev_size: u64, prev_siblings: int, siblings_now: int) -> int {
    let p = if prev_size <= crate::TILING_UNIT {
        prev_size as int
    } else {
        crate::TILING_UNIT as int
    };
    if siblings_now == 0 {
        crate::TILING_UNIT as int
    } else {
        let scaled = p * (prev_siblings + 1) / (siblings_now + 1);
        if scaled < crate::TILING_UNIT as int {
            scaled
        } else {
            crate::TILING_UNIT as int
        }
    }
}

/// Scaling a share by an unchanged sibling count restores it exactly:
/// a tiling, non-tiling, tiling round trip with as many siblings as
/// before gives the window back its precise proportional share.
pub proof fn lemma_round_trip_share_exact(prev_size: u64, siblings: int)
    requires
        siblings > 0,
        prev_size <= crate::TILING_UNIT,
    ensures
        restore_share(prev_size, siblings, siblings) == prev_size,
{
    vstd::arithmetic::div_mod::lemma_div_by_multiple(prev_size as int, siblings + 1);
    assert(prev_size * (siblings + 1) == (siblings + 1) * prev_size) by (nonlinear_arith);
}

/// Exact check of the validity of a remembered insertion target.
fn check_insertion_target(t: &Tree, it: InsertionTarget) -> (r: bool)
    requires
        t.wf(),
    ensures
        r == insertion_target_valid(*t, it),
{
    if it.target_parent >= t.nodes.len() {
        return false;
    }
    let ok_kind = matches!(
        &t.nodes[it.target_parent].kind,
        NodeKind::Workspace(_) | NodeKind::Split(_)
    );
    if !ok_kind {
        return false;
    }
    match t.find_workspace(it.target_parent) {
        Some(w) => {
            match &t.nodes[w].kind {
                NodeKind::Workspace(info) => info.displayed,
                _ => {
                    proof {
                        assert(false);
                    }
                    false
                },
            }
        },
        None => false,
    }
}

/// Whether `x` stands among the tiling children of `p`.
pub open spec fn is_tiling_child(t: Tree, p: int, x: usize) -> bool {
    exists|k: int|
        0 <= k < t.children_of(p).len() && t.children_of(p)[k] == x && t.is_tiling(x as int)
}

/// Mark every tiling child of `p` for redraw, and nothing else.
pub(crate) fn queue_tiling_children(state: &mut WmState, p: usize)
    requires
        old(state).inv(),
        old(state).tree.valid(p as int),
    ensures
        final(state).inv(),
        final(state).tree == old(state).tree,
        final(state).events == old(state).events,
        final(state).focus_order == old(state).focus_order,
        final(state).fullscreen_cooldowns == old(state).fullscreen_cooldowns,
        final(state).minimize_requests == old(state).minimize_requests,
        final(state).pending_sync.workspaces_to_reorder == old(
            state,
        ).pending_sync.workspaces_to_reorder,
        forall|x: usize|
            #[trigger] final(state).pending_sync.containers_to_redraw@.contains(x) <==> (old(
                state,
            ).pending_sync.containers_to_redraw@.contains(x) || is_tiling_child(
                old(state).tree,
                p as int,
                x,
            )),
    {
    let n = state.tree.child_count(p);
    let mut k: usize = 0;
    while k < n
        invariant
            state.inv(),
            state.tree == old(state).tree,
            state.events == old(state).events,
            state.focus_order == old(state).focus_order,
            state.fullscreen_cooldowns == old(state).fullscreen_cooldowns,
            state.minimize_requests == old(state).minimize_requests,
            state.pending_sync.workspaces_to_reorder == old(
                state,
            ).pending_sync.workspaces_to_reorder,
            state.tree.valid(p as int),
            n == state.tree.children_of(p as int).len(),
            0 <= k <= n,
            forall|x: usize|
                #[trigger] state.pending_sync.containers_to_redraw@.contains(x) <==> (old(
                    state,
                ).pending_sync.containers_to_redraw@.contains(x) || exists|a: int|
                    0 <= a < k && state.tree.children_of(p as int)[a] == x && state.tree.is_tiling(
                        x as int,
                    )),
        decreases n - k,
    {
        let cid = state.tree.child_at(p, k);
        proof {
            assert(state.tree.wf_node(p as int));
        }
        let ghost pend0 = state.pending_sync.containers_to_redraw@;
        let is_t = state.tree.node_is_tiling(cid);
        if is_t {
            state.pending_sync.queue_container_to_redraw(cid);
        }
        proof {
            assert forall|x: usize|
                #[trigger] state.pending_sync.containers_to_redraw@.contains(x) <==> (old(
                state,
            ).pending_sync.containers_to_redraw@.contains(x) || exists|a: int|
                0 <= a < k + 1 && state.tree.children_of(p as int)[a] == x
                    && state.tree.is_tiling(x as int)) by {
                if state.pending_sync.containers_to_redraw@.contains(x) {
                    if !pend0.contains(x) {
                        assert(is_t && x == cid);
                        assert(state.tree.children_of(p as int)[k as int] == cid);
                    } else {
                        if !old(state).pending_sync.containers_to_redraw@.contains(x) {
                            let a = choose|a: int|
                                0 <= a < k && state.tree.children_of(p as int)[a] == x
                                    && state.tree.is_tiling(x as int);
                        }
                    }
                }
                if exists|a: int|
                    0 <= a < k + 1 && state.tree.children_of(p as int)[a] == x
                        && state.tree.is_tiling(x as int) {
                    let a = choose|a: int|
                        0 <= a < k + 1 && state.tree.children_of(p as int)[a] == x
                            && state.tree.is_tiling(x as int);
                    if a == k as int {
                        assert(x == cid && is_t);
                        assert(state.pending_sync.containers_to_redraw@.contains(x));
                    } else {
                        assert(pend0.contains(x));
                    }
                }
            }
        }
        k += 1;
    }
    proof {
        assert(forall|x: usize|
            #[trigger] state.pending_sync.containers_to_redraw@.contains(x) <==> (old(
                state,
            ).pending_sync.containers_to_redraw@.contains(x) || is_tiling_child(
                old(state).tree,
                p as int,
                x,
            )));
    }
}

/// The most recently focused tiling window inside `ws`: the first
/// entry of the focus order that is a live tiling window of that
/// workspace.
pub open spec fn first_focused_tiling(t: Tree, order: Seq<usize>, ws: usize) -> Option<usize>
    decreases order.len(),
{
    if order.len() == 0 {
        None
    } else if t.valid(order[0] as int) && t.is_tiling_window(order[0] as int) && t.workspace_of(
        order[0] as int,
    ) == Some(ws as int) {
        Some(order[0])
    } else {
        first_focused_tiling(t, order.drop_first(), ws)
    }
}

/// Walk the focus order for the most recently focused tiling window of
/// `workspace`.
fn find_focused_tiling(state: &WmState, workspace: usize) -> (r: Option<usize>)
    requires
        state.inv(),
    ensures
        r == first_focused_tiling(state.tree, state.focus_order@, workspace),
        match r {
            Some(f) => state.tree.valid(f as int) && state.tree.is_tiling_window(f as int)
                && state.tree.workspace_of(f as int) == Some(workspace as int),
            None => true,
        },
{
    let n = state.focus_order.len();
    let mut k: usize = 0;
    proof {
        assert(state.focus_order@.skip(0) =~= state.focus_order@);
    }
    while k < n
        invariant
            state.inv(),
            n == state.focus_order@.len(),
            0 <= k <= n,
            first_focused_tiling(state.tree, state.focus_order@, workspace)
                == first_focused_tiling(
                state.tree,
                state.focus_order@.skip(k as int),
                workspace,
            ),
        decreases n - k,
    {
        let f = state.focus_order[k];
        proof {
            assert(state.focus_order@.skip(k as int)[0] == f);
            assert(state.focus_order@.skip(k as int).drop_first() =~= state.focus_order@.skip(
                k as int + 1,
            ));
        }
        let mut hit = false;
        if f < state.tree.nodes.len() {
            if matches!(&state.tree.nodes[f].kind, NodeKind::TilingWindow(_)) {
                match state.tree.find_workspace(f) {
                    Some(w) => {
                        if w == workspace {
                            hit = true;
                        }
                    },
                    None => {},
                }
            }
        }
        if hit {
            return Some(f);
        }
        k += 1;
    }
    proof {
        assert(state.focus_order@.skip(n as int) =~= Seq::<usize>::empty());
    }
    None
}

/// The insertion point the state machine computes for a window of
/// workspace `ws` returning to tiling, first applicable rule first:
/// the remembered target while it still names a displayed workspace;
/// otherwise right after the most recently focused tiling window of
/// `ws`; otherwise the end of `ws`.
pub open spec fn tiling_insertion_point(
    t: Tree,
    order: Seq<usize>,
    ws: usize,
    it: Option<InsertionTarget>,
) -> (usize, int) {
    let fallback = match first_focused_tiling(t, order, ws) {
        Some(f) => (
            t.node(f as int).parent->Some_0,
            t.children_of(t.node(f as int).parent->Some_0 as int).index_of(f) + 1,
        ),
        None => (ws, t.children_of(ws as int).len() as int),
    };
    match it {
        Some(target) => if insertion_target_valid(t, target) {
            (target.target_parent, target.target_index as int)
        } else {
            fallback
        },
        None => fallback,
    }
}

/// Turn a window back into a tiling window.
///
/// The insertion point is the window's remembered target when that
/// still names a displayed workspace; otherwise the position right
/// after the most recently focused tiling window of its workspace;
/// otherwise the end of the workspace. A used insertion target also
/// restores the window's proportional share, scaled by the change in
/// sibling count. The target parent's tiling children are marked for
/// redraw and the workspace for reorder.
#[verifier::rlimit(100)]
pub fn set_tiling(state: &mut WmState, window: usize) -> (r: Result<usize, WmError>)
    requires
        old(state).inv(),
        old(state).tree.valid(window as int),
    ensures
        final(state).inv(),
        final(state).events == old(state).events,
        final(state).focus_order == old(state).focus_order,
        final(state).fullscreen_cooldowns == old(state).fullscreen_cooldowns,
        final(state).minimize_requests == old(state).minimize_requests,
        // Errors come exactly from a wrong variant or a detached
        // window; every attached non-tiling window is owed success.
        (r == Err::<usize, WmError>(WmError::InvalidWindowState)) <==> !old(
            state,
        ).tree.is_non_tiling_window(window as int),
        (r == Err::<usize, WmError>(WmError::NoWorkspace)) <==> (old(
            state,
        ).tree.is_non_tiling_window(window as int) && old(state).tree.node(
            window as int,
        ).parent is None),
        match r {
            Ok(w2) => {
                let t0 = old(state).tree;
                let info0 = t0.window_of(window as int);
                let ws = t0.node(window as int).parent->Some_0;
                let point = tiling_insertion_point(
                    t0,
                    old(state).focus_order@,
                    ws,
                    info0.insertion_target,
                );
                &&& t0.is_non_tiling_window(window as int)
                &&& final(state).tree.valid(w2 as int)
                &&& final(state).tree.is_tiling_window(w2 as int)
                &&& final(state).tree.window_of(w2 as int).handle == info0.handle
                &&& final(state).tree.node(w2 as int).parent == Some(point.0)
                &&& final(state).tree.children_of(point.0 as int).len() >= 1
                &&& ({
                    let n2 = final(state).tree.children_of(point.0 as int).len() as int;
                    final(state).tree.children_of(point.0 as int)[if point.1 < n2 - 1 {
                        point.1
                    } else {
                        n2 - 1
                    }] == w2
                })
                &&& forall|x: usize|
                    #[trigger] final(state).pending_sync.workspaces_to_reorder@.contains(x) <==> (
                    old(state).pending_sync.workspaces_to_reorder@.contains(x) || x == ws)
                &&& forall|x: usize|
                    #[trigger] final(state).pending_sync.containers_to_redraw@.contains(x) <==> (
                    old(state).pending_sync.containers_to_redraw@.contains(x) || is_tiling_child(
                        final(state).tree,
                        point.0 as int,
                        x,
                    ))
                &&& (match info0.insertion_target {
                    Some(it) => insertion_target_valid(t0, it) ==> final(state).tree.size_of(
                        w2 as int,
                    ) == restore_share(
                        it.prev_tiling_size,
                        it.prev_sibling_count as int,
                        Tree::count_tiling_except(
                            final(state).tree,
                            final(state).tree.children_of(
                                final(state).tree.node(w2 as int).parent->Some_0 as int,
                            ),
                            w2,
                        ),
                    ),
                    None => true,
                })
            },
            Err(e) => {
                &&& (e == WmError::InvalidWindowState || e == WmError::NoWorkspace)
                &&& e == WmError::InvalidWindowState ==> !old(state).tree.is_non_tiling_window(
                    window as int,
                )
                &&& *final(state) == *old(state)
            },
        },
{
    let ghost t0 = state.tree;
    if !matches!(&state.tree.nodes[window].kind, NodeKind::NonTilingWindow(_)) {
        return Err(WmError::InvalidWindowState);
    }
    let parent = match state.tree.parent_of(window) {
        Some(p) => p,
        None => {
            return Err(WmError::NoWorkspace);
        },
    };
    proof {
        assert(t0.wf_node(window as int));
        // A non-tiling window is always a direct child of a workspace.
        assert(t0.is_workspace(parent as int));
    }
    let workspace = parent;
    let info = state.tree.window_info(window);
    // Use the remembered insertion point while it is still valid.
    let insertion_target = match info.insertion_target {
        Some(it) => {
            if check_insertion_target(&state.tree, it) {
                Some(it)
            } else {
                None
            }
        },
        None => None,
    };
    let (target_parent, target_index) = match insertion_target {
        Some(it) => (it.target_parent, it.target_index),
        None => {
            match find_focused_tiling(state, workspace) {
                Some(f) => {
                    let fp = match state.tree.parent_of(f) {
                        Some(fp) => fp,
                        None => {
                            proof {
                                // A window of a workspace has a parent.
                                assert(state.tree.workspace_of(f as int) is None);
                                assert(false);
                            }
                            return Err(WmError::NoWorkspace);
                        },
                    };
                    proof {
                        assert(state.tree.wf_node(f as int));
                    }
                    let fi = match state.tree.child_position(fp, f) {
                        Some(k) => k,
                        None => {
                            proof {
                                assert(state.tree.wf_node(f as int));
                                assert(false);
                            }
                            return Err(WmError::NoWorkspace);
                        },
                    };
                    proof {
                        // The found position is the unique index of the
                        // focused window among its siblings.
                        let cs = state.tree.children_of(fp as int);
                        assert(state.tree.wf_node(fp as int));
                        assert(cs.contains(f));
                        let io = cs.index_of(f);
                        assert(0 <= io < cs.len() && cs[io] == f);
                        assert(io == fi as int) by {
                            if io != fi as int {
                                assert(cs[io] == cs[fi as int]);
                            }
                        }
                        assert(fi as int + 1 <= cs.len());
                    }
                    let fl = state.tree.child_count(fp);
                    proof {
                        assert(fi < fl);
                    }
                    (fp, fi + 1)
                },
                None => (workspace, state.tree.child_count(workspace)),
            }
        },
    };
    let ghost point = tiling_insertion_point(
        t0,
        old(state).focus_order@,
        parent,
        info.insertion_target,
    );
    proof {
        assert(point.0 == target_parent && point.1 == target_index as int);
    }
    proof {
        assert(state.tree.is_workspace(target_parent as int) || state.tree.is_split(
            target_parent as int,
        )) by {
            if insertion_target is Some {
            } else {
                assert(state.tree.wf());
            }
        }
    }
    // Replace the non-tiling node in place with a fresh tiling node,
    // then move it to the computed target.
    let tiling_info = WindowInfo {
        tiling_size: crate::TILING_UNIT,
        state: WindowState::Tiling,
        ..info
    };
    let new_id = state.tree.push_node(NodeKind::TilingWindow(tiling_info));
    proof {
        assert(t0.wf_node(window as int));
        assert(state.tree.children_of(parent as int).contains(window));
    }
    let pos = match state.tree.child_position(parent, window) {
        Some(k) => k,
        None => {
            proof {
                assert(false);
            }
            return Err(WmError::NoWorkspace);
        },
    };
    let replaced = state.tree.replace(new_id, parent, pos);
    proof {
        assert(replaced is Ok);
    }
    let ghost t_premove = state.tree;
    let moved = state.tree.move_within_tree(new_id, target_parent, target_index);
    proof {
        assert(moved is Ok) by {
            assert(state.tree.node(new_id as int).parent is Some);
        }
        // The new tiling window sits at the clamped insertion index.
        let npi = target_parent as int;
        let oldp = t_premove.node(new_id as int).parent->Some_0 as int;
        let cs2 = t_premove.children_of(oldp);
        let base = if oldp == npi {
            cs2.remove(cs2.index_of(new_id))
        } else {
            t_premove.children_of(npi)
        };
        let idx = if (target_index as int) < base.len() {
            target_index as int
        } else {
            base.len() as int
        };
        assert(state.tree.children_of(npi) == base.insert(idx, new_id));
        crate::tree::lemma_insert_index(base, idx, new_id);
        assert(state.tree.children_of(npi)[idx] == new_id);
        assert(state.tree.children_of(npi).len() == base.len() + 1);
        assert(idx == if (target_index as int) < state.tree.children_of(npi).len() - 1 {
            target_index as int
        } else {
            state.tree.children_of(npi).len() - 1
        });
    }
    // Restore the remembered proportional share, scaled by the change
    // in sibling count.
    let ghost t_moved = state.tree;
    if let Some(it) = insertion_target {
        let siblings = state.tree.tiling_child_count_except(target_parent, new_id);
        let prev = if it.prev_tiling_size <= crate::TILING_UNIT {
            it.prev_tiling_size
        } else {
            crate::TILING_UNIT
        };
        proof {
            assert((prev as int) * ((it.prev_sibling_count as int) + 1)
                <= 184467440737095516160000) by (nonlinear_arith)
                requires
                    0 <= prev as int <= 10000,
                    0 <= it.prev_sibling_count as int <= 18446744073709551615,
            ;
        }
        let scaled_wide: u128 = (prev as u128) * ((it.prev_sibling_count as u128) + 1) / ((
        siblings as u128) + 1);
        let tgt: u64 = if scaled_wide < (crate::TILING_UNIT as u128) {
            scaled_wide as u64
        } else {
            crate::TILING_UNIT
        };
        proof {
            assert(state.tree.node(new_id as int).parent == Some(target_parent));
        }
        let resized = state.tree.resize_tiling_container(new_id, tgt);
        proof {
            assert(resized is Ok);
            // The restored share follows the remembered one, scaled by
            // the change in sibling count.
            let tf = state.tree;
            let np = target_parent as int;
            let csf = tf.children_of(np);
            assert(csf == t_moved.children_of(np));
            assert forall|j: int| 0 <= j < csf.len() implies t_moved.is_tiling(
                #[trigger] csf[j] as int,
            ) == tf.is_tiling(csf[j] as int) by {
                assert(t_moved.wf_node(np));
                assert(Tree::kind_same_variant(
                    t_moved.node(csf[j] as int).kind,
                    tf.node(csf[j] as int).kind,
                ));
                Tree::lemma_variant_tiling(
                    t_moved.node(csf[j] as int).kind,
                    tf.node(csf[j] as int).kind,
                );
            }
            Tree::lemma_count_congruence(t_moved, tf, csf, new_id);
            assert(siblings as int == Tree::count_tiling_except(tf, csf, new_id));
            // The clamped target matches the specified restore share.
            let cs0 = t_moved.children_of(np);
            assert(cs0.contains(new_id)) by {
                assert(t_moved.wf_node(new_id as int));
            }
            let pos0 = cs0.index_of(new_id);
            assert(0 <= pos0 < cs0.len() && cs0[pos0] == new_id);
            let cso = cs0.remove(pos0);
            Tree::lemma_count_except_pos(t_moved, cs0, new_id);
            assert((exists|k: int|
                0 <= k < cso.len() && t_moved.is_tiling(#[trigger] cso[k] as int)) <==> siblings
                > 0) by {
                crate::tree::lemma_remove_index(cs0, pos0);
                if exists|k: int| 0 <= k < cso.len() && t_moved.is_tiling(#[trigger] cso[k] as int) {
                    let k = choose|k: int|
                        0 <= k < cso.len() && t_moved.is_tiling(#[trigger] cso[k] as int);
                    let a = if k < pos0 { k } else { k + 1 };
                    assert(cs0[a] == cso[k]);
                    assert(cs0[a] != new_id) by {
                        assert(t_moved.wf_node(np));
                        assert(cs0[pos0] == new_id);
                    }
                    assert(Tree::count_tiling_except(t_moved, cs0, new_id) > 0);
                } else {
                    if siblings > 0 {
                        let k = choose|k: int|
                            0 <= k < cs0.len() && cs0[k] != new_id && t_moved.is_tiling(
                                #[trigger] cs0[k] as int,
                            );
                        assert(k != pos0);
                        let a = if k < pos0 { k } else { k - 1 };
                        assert(cso[a] == cs0[k]);
                    }
                }
            }
        }
    }
    proof {
        // The restoration resize, when any, kept every link and child
        // sequence, so the insertion position stands.
        let npi = target_parent as int;
        assert(state.tree.node(new_id as int).parent == Some(target_parent));
        assert(state.tree.children_of(npi) == t_moved.children_of(npi));
    }
    let ghost t_final = state.tree;
    let ghost pend0 = state.pending_sync;
    state.pending_sync.queue_workspace_to_reorder(workspace);
    let ghost pend1 = state.pending_sync;
    queue_tiling_children(state, target_parent);
    proof {
        assert(state.tree == t_final);
        assert forall|x: usize|
            #[trigger] state.pending_sync.workspaces_to_reorder@.contains(x) <==> (
        pend0.workspaces_to_reorder@.contains(x) || x == workspace) by {
            assert(state.pending_sync.workspaces_to_reorder == pend1.workspaces_to_reorder);
        }
        assert forall|x: usize|
            #[trigger] state.pending_sync.containers_to_redraw@.contains(x) <==> (
        pend0.containers_to_redraw@.contains(x) || is_tiling_child(
            t_final,
            target_parent as int,
            x,
        )) by {
            assert(pend1.containers_to_redraw == pend0.containers_to_redraw);
        }
    }
    Ok(new_id)
}

/// Turn a window into a non-tiling state (floating, fullscreen or
/// minimized).
///
/// A minimized target needs native confirmation: when the window is
/// not natively minimized yet, a native minimize request is recorded
/// and the logical state stays as it was. A tiling window first
/// remembers its insertion point, is moved to be a direct child of its
/// workspace, and is replaced there by a non-tiling node; a non-tiling
/// window stashes its previous state when the variant changes.
#[verifier::rlimit(100)]
pub fn set_non_tiling(
    state: &mut WmState,
    window: usize,
    target_state: WindowState,
    natively_minimized: bool,
) -> (r: Result<usize, WmError>)
    requires
        old(state).inv(),
        old(state).tree.valid(window as int),
        old(state).tree.is_window(window as int),
        !(target_state is Tiling),
        match target_state {
            WindowState::Floating(rect) => rect.loosely_bounded(),
            WindowState::Fullscreen(rect) => rect.loosely_bounded(),
            _ => true,
        },
    ensures
        final(state).inv(),
        final(state).events == old(state).events,
        final(state).focus_order == old(state).focus_order,
        final(state).fullscreen_cooldowns == old(state).fullscreen_cooldowns,
        target_state == WindowState::Minimized && natively_minimized ==> final(state).minimize_requests == old(state).minimize_requests,
        !(target_state == WindowState::Minimized) ==> final(state).minimize_requests == old(
            state,
        ).minimize_requests,
        target_state == WindowState::Minimized && !natively_minimized ==> r == Ok::<
            usize,
            WmError,
        >(window) && final(state).tree == old(state).tree && final(state).pending_sync == old(
            state,
        ).pending_sync && final(state).minimize_requests@ == old(
            state,
        ).minimize_requests@.push(old(state).tree.window_of(window as int).handle),
        // Success is owed exactly when the window belongs to a
        // workspace (the minimize request path aside).
        !(target_state == WindowState::Minimized && !natively_minimized) ==> ((r is Err) <==> old(
            state,
        ).tree.workspace_of(window as int) is None),
        // A transition between two non-tiling states rewrites the same
        // node in place: the previous state is stashed when the variant
        // changes, the window is marked for redraw, and its workspace
        // for reorder only on a variant change.
        old(state).tree.is_non_tiling_window(window as int) && !(target_state
            == WindowState::Minimized && !natively_minimized) && r is Ok ==> {
            let info0 = old(state).tree.window_of(window as int);
            let ws = old(state).tree.node(window as int).parent->Some_0;
            let changed = !info0.state.spec_same_variant(target_state);
            &&& r == Ok::<usize, WmError>(window)
            &&& final(state).tree.node(window as int) == (crate::tree::Node {
                kind: NodeKind::NonTilingWindow(
                    WindowInfo {
                        state: target_state,
                        prev_state: if changed {
                            Some(info0.state)
                        } else {
                            info0.prev_state
                        },
                        ..info0
                    },
                ),
                ..old(state).tree.node(window as int)
            })
            &&& forall|j: int|
                final(state).tree.valid(j) && j != window ==> #[trigger] final(state).tree.node(j)
                    == old(state).tree.node(j)
            &&& forall|x: usize|
                #[trigger] final(state).pending_sync.containers_to_redraw@.contains(x) <==> (old(
                    state,
                ).pending_sync.containers_to_redraw@.contains(x) || x == window)
            &&& forall|x: usize|
                #[trigger] final(state).pending_sync.workspaces_to_reorder@.contains(x) <==> (old(
                    state,
                ).pending_sync.workspaces_to_reorder@.contains(x) || (changed && x == ws))
        },
        // A tiling window is replaced by a non-tiling node that sits
        // directly under its workspace and remembers its old position.
        old(state).tree.is_tiling_window(window as int) && !(target_state
            == WindowState::Minimized && !natively_minimized) && r is Ok ==> {
            let info0 = old(state).tree.window_of(window as int);
            let ws = old(state).tree.workspace_of(window as int)->Some_0 as usize;
            let w2 = r->Ok_0;
            &&& final(state).tree.node(w2 as int).parent == Some(ws)
            &&& final(state).tree.is_non_tiling_window(w2 as int)
            &&& final(state).tree.window_of(w2 as int) == (WindowInfo {
                state: target_state,
                prev_state: Some(WindowState::Tiling),
                insertion_target: Some(
                    InsertionTarget {
                        target_parent: old(state).tree.node(window as int).parent->Some_0,
                        target_index: old(state).tree.children_of(
                            old(state).tree.node(window as int).parent->Some_0 as int,
                        ).index_of(window) as usize,
                        prev_tiling_size: old(state).tree.size_of(window as int),
                        prev_sibling_count: Tree::count_tiling_except(
                            old(state).tree,
                            old(state).tree.children_of(
                                old(state).tree.node(window as int).parent->Some_0 as int,
                            ),
                            window,
                        ) as usize,
                    },
                ),
                ..info0
            })
            &&& forall|x: usize|
                #[trigger] final(state).pending_sync.containers_to_redraw@.contains(x) <==> (old(
                    state,
                ).pending_sync.containers_to_redraw@.contains(x) || x == w2 || is_tiling_child(
                    final(state).tree,
                    ws as int,
                    x,
                ))
            &&& forall|x: usize|
                #[trigger] final(state).pending_sync.workspaces_to_reorder@.contains(x) <==> (old(
                    state,
                ).pending_sync.workspaces_to_reorder@.contains(x) || x == ws)
            // The rest of the tree is framed: the replaced window is
            // left detached, its old siblings keep their order, and
            // only the two renormalised child sequences change at all.
            &&& w2 == old(state).tree.nodes@.len()
            &&& final(state).tree.nodes@.len() == old(state).tree.nodes@.len() + 1
            &&& final(state).tree.node(window as int).parent is None
            &&& ({
                let p0 = old(state).tree.node(window as int).parent->Some_0;
                let cs0 = old(state).tree.children_of(p0 as int);
                let wcs0 = old(state).tree.children_of(ws as int);
                &&& (p0 != ws ==> final(state).tree.children_of(p0 as int) == cs0.remove(
                    cs0.index_of(window),
                ))
                &&& (p0 != ws ==> final(state).tree.children_of(ws as int) == wcs0.push(w2))
                &&& (p0 == ws ==> final(state).tree.children_of(ws as int) == cs0.update(
                    cs0.index_of(window),
                    w2,
                ))
                &&& (forall|j: int|
                    old(state).tree.valid(j) && j != window
                        ==> (#[trigger] final(state).tree.node(j)).parent == old(state).tree.node(
                        j,
                    ).parent && final(state).tree.node(j).depth == old(state).tree.node(j).depth)
                &&& (forall|j: int|
                    old(state).tree.valid(j) && j != p0 && j != ws
                        ==> (#[trigger] final(state).tree.node(j)).children == old(
                        state,
                    ).tree.node(j).children)
                &&& (forall|j: int|
                    old(state).tree.valid(j) && j != window && !cs0.contains(j as usize)
                        && !wcs0.contains(j as usize) ==> (#[trigger] final(state).tree.node(
                        j,
                    )).kind == old(state).tree.node(j).kind)
            })
        },
        match r {
            Ok(w2) => final(state).tree.valid(w2 as int),
            Err(e) => {
                &&& (e == WmError::NoParent || e == WmError::NoWorkspace)
                &&& *final(state) == *old(state)
            },
        },
{
    let ghost t0 = state.tree;
    let info = state.tree.window_info(window);
    // A window becomes minimized only once the platform confirms it.
    if matches!(target_state, WindowState::Minimized) && !natively_minimized {
        state.minimize_requests.push(info.handle);
        return Ok(window);
    }
    if matches!(&state.tree.nodes[window].kind, NodeKind::NonTilingWindow(_)) {
        // Between two non-tiling states: stash the previous state when
        // the variant changes, and mark for redraw.
        let parent = match state.tree.parent_of(window) {
            Some(p) => p,
            None => {
                proof {
                    assert(t0.workspace_of(window as int) is None);
                }
                return Err(WmError::NoWorkspace);
            },
        };
        proof {
            assert(t0.wf_node(window as int));
            assert(t0.is_workspace(parent as int));
            let d = t0.node(window as int).depth@;
            assert(d == t0.node(parent as int).depth@ + 1);
            assert(t0.workspace_of_fuel(parent as int, (d - 1) as nat) == Some(parent as int));
            assert(t0.workspace_of(window as int) == Some(parent as int));
        }
        let changed_variant = !info.state.is_same_state(&target_state);
        let new_info = WindowInfo {
            state: target_state,
            prev_state: if changed_variant {
                Some(info.state)
            } else {
                info.prev_state
            },
            ..info
        };
        state.tree.set_window_info(window, new_info);
        if changed_variant {
            state.pending_sync.queue_workspace_to_reorder(parent);
        }
        state.pending_sync.queue_container_to_redraw(window);
        return Ok(window);
    }
    proof {
        assert(t0.is_tiling_window(window as int));
    }
    let parent = match state.tree.parent_of(window) {
        Some(p) => p,
        None => {
            proof {
                assert(t0.workspace_of(window as int) is None);
            }
            return Err(WmError::NoParent);
        },
    };
    let workspace = match state.tree.find_workspace(window) {
        Some(w) => w,
        None => {
            return Err(WmError::NoWorkspace);
        },
    };
    proof {
        assert(t0.wf_node(window as int));
        assert(t0.children_of(parent as int).contains(window));
    }
    // Remember the tiling position, index, share and sibling count, so
    // a later return to tiling can restore them.
    let pos = match state.tree.child_position(parent, window) {
        Some(k) => k,
        None => {
            proof {
                assert(false);
            }
            return Err(WmError::NoParent);
        },
    };
    proof {
        let cs = t0.children_of(parent as int);
        let io = cs.index_of(window);
        assert(t0.wf_node(parent as int));
        assert(0 <= io < cs.len() && cs[io] == window);
        assert(io == pos as int) by {
            if io != pos as int {
                assert(cs[io] == cs[pos as int]);
            }
        }
    }
    let siblings = state.tree.tiling_child_count_except(parent, window);
    let size = state.tree.node_share(window);
    let it = InsertionTarget {
        target_parent: parent,
        target_index: pos,
        prev_tiling_size: size,
        prev_sibling_count: siblings,
    };
    let non_tiling_info = WindowInfo {
        state: target_state,
        prev_state: Some(WindowState::Tiling),
        insertion_target: Some(it),
        ..info
    };
    let new_id = state.tree.push_node(NodeKind::NonTilingWindow(non_tiling_info));
    let ghost t_new = state.tree;
    let ghost cs0 = t0.children_of(parent as int);
    let ghost wcs0 = t0.children_of(workspace as int);
    // Non-tiling windows always sit directly under the workspace.
    if parent != workspace {
        let cnt = state.tree.child_count(workspace);
        proof {
            assert(window != workspace) by {
                assert(t0.is_tiling_window(window as int));
                assert(t0.is_workspace(workspace as int)) by {
                    assert(t0.workspace_of(window as int) == Some(workspace as int));
                }
            }
            assert(t0.children_of(window as int).len() == 0) by {
                assert(t0.wf_node(window as int));
            }
            assert(state.tree.is_workspace(workspace as int));
            assert(state.tree.is_tiling_window(window as int));
        }
        let moved = state.tree.move_within_tree(window, workspace, cnt);
        proof {
            assert(moved is Ok);
            // The window left its old siblings and stands last under
            // the workspace.
            assert(t_new.children_of(parent as int) == cs0);
            assert(t_new.children_of(workspace as int) == wcs0);
            assert(state.tree.children_of(parent as int) == cs0.remove(cs0.index_of(window)));
            assert(state.tree.children_of(workspace as int) =~= wcs0.push(window)) by {
                assert(cnt as int == wcs0.len());
                assert(state.tree.children_of(workspace as int) == wcs0.insert(
                    wcs0.len() as int,
                    window,
                ));
            }
        }
    }
    let ghost t_positioned = state.tree;
    proof {
        assert(state.tree.children_of(workspace as int).contains(window)) by {
            assert(state.tree.node(window as int).parent == Some(workspace));
            assert(state.tree.wf_node(window as int));
        }
        if parent == workspace {
            assert(t_positioned.children_of(workspace as int) == cs0);
        }
    }
    let wpos = match state.tree.child_position(workspace, window) {
        Some(k) => k,
        None => {
            proof {
                assert(false);
            }
            return Err(WmError::NoParent);
        },
    };
    proof {
        // The found position is the unique one the window occupies.
        let csr = t_positioned.children_of(workspace as int);
        let io = csr.index_of(window);
        assert(t_positioned.wf_node(workspace as int));
        assert(0 <= io < csr.len() && csr[io] == window);
        assert(io == wpos as int) by {
            if io != wpos as int {
                assert(csr[io] == csr[wpos as int]);
            }
        }
    }
    proof {
        assert(state.tree.node(new_id as int).parent is None);
        assert(state.tree.children_of(new_id as int).len() == 0);
        assert(new_id != state.tree.root);
        assert(new_id != workspace);
        assert(state.tree.is_workspace(workspace as int));
        assert(state.tree.is_non_tiling_window(new_id as int));
    }
    let replaced = state.tree.replace(new_id, workspace, wpos);
    proof {
        assert(replaced is Ok);
        let tf = state.tree;
        let csr = t_positioned.children_of(workspace as int);
        assert(csr[wpos as int] == window);
        // The two touched child sequences, named against the start.
        if parent != workspace {
            assert(window != new_id);
            assert(!wcs0.contains(window)) by {
                if wcs0.contains(window) {
                    let a = choose|a: int| 0 <= a < wcs0.len() && wcs0[a] == window;
                    assert(t0.wf_node(workspace as int));
                    assert(t0.node(window as int).parent == Some(workspace));
                }
            }
            assert(wpos as int == wcs0.len() as int) by {
                assert(csr =~= wcs0.push(window));
                if (wpos as int) < wcs0.len() {
                    assert(csr[wpos as int] == wcs0[wpos as int]);
                    assert(wcs0.contains(window));
                }
            }
            assert(tf.children_of(workspace as int) =~= wcs0.push(new_id)) by {
                assert(tf.children_of(workspace as int) == csr.update(wpos as int, new_id));
                assert(csr =~= wcs0.push(window));
            }
            assert(tf.children_of(parent as int) == cs0.remove(cs0.index_of(window))) by {
                assert(parent as int != workspace as int);
                assert(tf.node(parent as int).children == t_positioned.node(
                    parent as int,
                ).children);
            }
        } else {
            assert(csr == cs0);
            assert(wpos as int == cs0.index_of(window)) by {
                let io = cs0.index_of(window);
                assert(cs0.contains(window)) by {
                    assert(t0.wf_node(window as int));
                }
                assert(0 <= io < cs0.len() && cs0[io] == window);
                assert(t0.wf_node(parent as int));
                if io != wpos as int {
                    assert(cs0[io] == cs0[wpos as int]);
                }
            }
            assert(tf.children_of(workspace as int) == cs0.update(cs0.index_of(window), new_id));
        }
        // The frame: parents, depths, untouched child lists, untouched
        // variant data.
        assert forall|j: int|
            t0.valid(j) && j != window implies (#[trigger] tf.node(j)).parent == t0.node(
            j,
        ).parent && tf.node(j).depth == t0.node(j).depth by {
            assert(j != new_id as int);
            assert(t_new.node(j) == t0.node(j));
            assert(t_positioned.node(j).parent == t_new.node(j).parent && t_positioned.node(
                j,
            ).depth == t_new.node(j).depth);
            assert(tf.node(j).parent == t_positioned.node(j).parent && tf.node(j).depth
                == t_positioned.node(j).depth);
        }
        assert forall|j: int|
            t0.valid(j) && j != parent && j != workspace implies (#[trigger] tf.node(j)).children
            == t0.node(j).children by {
            assert(j != new_id as int);
            assert(t_new.node(j) == t0.node(j));
            assert(t_positioned.node(j).children == t_new.node(j).children);
            assert(tf.node(j).children == t_positioned.node(j).children);
        }
        assert forall|j: int|
            t0.valid(j) && j != window && !cs0.contains(j as usize) && !wcs0.contains(j as usize)
            implies (#[trigger] tf.node(j)).kind == t0.node(j).kind by {
            assert(j != new_id as int);
            assert(t_new.node(j) == t0.node(j));
            assert(t_positioned.node(j).kind == t_new.node(j).kind);
            assert(!csr.contains(j as usize)) by {
                if parent != workspace {
                    if csr.contains(j as usize) {
                        let a = choose|a: int| 0 <= a < csr.len() && csr[a] == j as usize;
                        assert(csr =~= wcs0.push(window));
                        if a < wcs0.len() {
                            assert(wcs0[a] == j as usize);
                            assert(wcs0.contains(j as usize));
                        } else {
                            assert(csr[a] == window);
                        }
                    }
                }
            }
            assert(tf.node(j).kind == t_positioned.node(j).kind);
        }
        assert(tf.node(window as int).parent is None);
        assert(new_id == t0.nodes@.len());
        assert(tf.nodes@.len() == t0.nodes@.len() + 1);
    }
    state.pending_sync.queue_container_to_redraw(new_id);
    queue_tiling_children(state, workspace);
    state.pending_sync.queue_workspace_to_reorder(workspace);
    Ok(new_id)
}

/// Update the state of a window.
///
/// A self-transition returns the window unchanged and touches nothing.
/// Entering or leaving fullscreen records a cooldown stamped `now` on
/// the window's native handle, consulted elsewhere to keep the
/// location-change handler from reinterpreting the intermediate
/// geometry. The transition itself is handed to the tiling or
/// non-tiling path.
pub fn update_window_state(
    state: &mut WmState,
    window: usize,
    target_state: WindowState,
    natively_minimized: bool,
    now: u64,
) -> (r: Result<usize, WmError>)
    requires
        old(state).inv(),
        old(state).tree.valid(window as int),
        old(state).tree.is_window(window as int),
        match target_state {
            WindowState::Floating(rect) => rect.loosely_bounded(),
            WindowState::Fullscreen(rect) => rect.loosely_bounded(),
            _ => true,
        },
    ensures
        final(state).inv(),
        current_state(old(state).tree, window as int) == target_state ==> r == Ok::<
            usize,
            WmError,
        >(window) && *final(state) == *old(state),
        current_state(old(state).tree, window as int) != target_state && ((current_state(
            old(state).tree,
            window as int,
        ) is Fullscreen) || (target_state is Fullscreen)) ==> final(state).fullscreen_cooldowns@
            == old(state).fullscreen_cooldowns@.push(
            (old(state).tree.window_of(window as int).handle, now),
        ),
        // A transition that neither enters nor leaves fullscreen
        // records no cooldown.
        !(current_state(old(state).tree, window as int) is Fullscreen) && !(target_state
            is Fullscreen) ==> final(state).fullscreen_cooldowns == old(
            state,
        ).fullscreen_cooldowns,
        // The dispatched transition's outcome: a tiling target yields a
        // tiling window, an unconfirmed minimize only records the
        // request, and any other target yields a non-tiling window in
        // that state; errors come exactly from a window with no
        // workspace.
        current_state(old(state).tree, window as int) != target_state ==> (match target_state {
            WindowState::Tiling => {
                &&& (r is Ok ==> final(state).tree.valid(r->Ok_0 as int) && final(state).tree.is_tiling_window(r->Ok_0 as int))
                &&& ((r is Err) <==> old(state).tree.node(window as int).parent is None)
            },
            WindowState::Minimized => if !natively_minimized {
                &&& r == Ok::<usize, WmError>(window)
                &&& final(state).tree == old(state).tree
                &&& final(state).minimize_requests@ == old(state).minimize_requests@.push(
                    old(state).tree.window_of(window as int).handle,
                )
            } else {
                &&& (r is Ok ==> final(state).tree.valid(r->Ok_0 as int) && final(state).tree.is_non_tiling_window(r->Ok_0 as int) && final(state).tree.window_of(
                    r->Ok_0 as int,
                ).state == target_state)
                &&& ((r is Err) <==> old(state).tree.workspace_of(window as int) is None)
            },
            _ => {
                &&& (r is Ok ==> final(state).tree.valid(r->Ok_0 as int) && final(state).tree.is_non_tiling_window(r->Ok_0 as int) && final(state).tree.window_of(
                    r->Ok_0 as int,
                ).state == target_state)
                &&& ((r is Err) <==> old(state).tree.workspace_of(window as int) is None)
            },
        }),
{
    let info = state.tree.window_info(window);
    let cur = if matches!(&state.tree.nodes[window].kind, NodeKind::TilingWindow(_)) {
        WindowState::Tiling
    } else {
        info.state
    };
    if cur == target_state {
        return Ok(window);
    }
    // An anti-flicker guard around fullscreen transitions.
    if cur.is_fullscreen() || target_state.is_fullscreen() {
        state.fullscreen_cooldowns.push((info.handle, now));
    }
    match target_state {
        WindowState::Tiling => set_tiling(state, window),
        _ => set_non_tiling(state, window, target_state, natively_minimized),
    }
}

} // verus!
