//! The monitor reconciler: matching the live set of native displays
//! against the existing monitor nodes, reusing or creating nodes,
//! migrating workspaces off removed monitors, and never removing the
//! last one.

use vstd::prelude::*;

use crate::state::WmEvent;
use crate::state::WmState;
use crate::state::UserConfig;
use crate::tree::NativeMonitorInfo;
use crate::tree::NodeKind;
use crate::tree::Tree;
use crate::tree::WorkspaceInfo;
use crate::window_state::queue_tiling_children;
use crate::WmError;

verus! {

broadcast use vstd::std_specs::vec::group_vec_axioms;

/// The view of an optional string.
pub open spec fn opt_str(o: Option<String>) -> Option<Seq<char>> {
    match o {
        Some(s) => Some(s@),
        None => None,
    }
}

/// The recorded native identity of a monitor node.
pub open spec fn native_of(t: Tree, m: int) -> NativeMonitorInfo
    recommends
        t.is_monitor(m),
{
    match t.node(m).kind {
        NodeKind::Monitor(info) => info,
        _ => arbitrary(),
    }
}

/// How often `id` occurs among the connected hardware identifiers.
pub open spec fn hw_count(ids: Seq<String>, id: Seq<char>) -> int
    decreases ids.len(),
{
    if ids.len() == 0 {
        0
    } else {
        hw_count(ids.drop_last(), id) + if ids.last()@ == id {
            1int
        } else {
            0int
        }
    }
}

/// Matching by identical volatile handle.
pub open spec fn matches_handle(t: Tree, m: int, nm: NativeMonitorInfo) -> bool {
    native_of(t, m).handle == nm.handle
}

/// Matching by identical device path, both present.
pub open spec fn matches_path(t: Tree, m: int, nm: NativeMonitorInfo) -> bool {
    match (opt_str(native_of(t, m).device_path), opt_str(nm.device_path)) {
        (Some(a), Some(b)) => a == b,
        _ => false,
    }
}

/// Matching by hardware identifier, only when that identifier is
/// unique among all currently connected native monitors.
pub open spec fn matches_hw(t: Tree, m: int, nm: NativeMonitorInfo, hw_ids: Seq<String>) -> bool {
    match (opt_str(native_of(t, m).hardware_id), opt_str(nm.hardware_id)) {
        (Some(a), Some(b)) => a == b && hw_count(hw_ids, a) == 1,
        _ => false,
    }
}

/// A monitor node matches a native monitor by handle, then device
/// path, then unique hardware identifier.
pub open spec fn monitor_matches(
    t: Tree,
    m: int,
    nm: NativeMonitorInfo,
    hw_ids: Seq<String>,
) -> bool {
    matches_handle(t, m, nm) || matches_path(t, m, nm) || matches_hw(t, m, nm, hw_ids)
}

/// The hardware identifiers the native list carries, in order and with
/// duplicates kept: uniqueness is judged against this sequence.
pub open spec fn hw_ids_of(nms: Seq<NativeMonitorInfo>) -> Seq<String>
    decreases nms.len(),
{
    if nms.len() == 0 {
        Seq::empty()
    } else {
        let rest = hw_ids_of(nms.drop_last());
        match nms.last().hardware_id {
            Some(id) => rest.push(id),
            None => rest,
        }
    }
}

/// A sequence that names no identifier twice.
pub open spec fn all_different(s: Seq<usize>) -> bool {
    forall|i: int, j: int| #![trigger s[i], s[j]] 0 <= i < j < s.len() ==> s[i] != s[j]
}

/// Position of the first pool node that matches the native monitor.
pub open spec fn first_match(
    t: Tree,
    pool: Seq<usize>,
    nm: NativeMonitorInfo,
    hw: Seq<String>,
) -> Option<int>
    decreases pool.len(),
{
    if pool.len() == 0 {
        None
    } else if monitor_matches(t, pool[0] as int, nm, hw) {
        Some(0int)
    } else {
        match first_match(t, pool.drop_first(), nm, hw) {
            Some(j) => Some(j + 1),
            None => None,
        }
    }
}

/// The pool of still-unclaimed monitor nodes after the first `k` native
/// monitors have each claimed the first node they match: a claimed node
/// leaves the pool and is never considered again.
pub open spec fn pool_after(
    t: Tree,
    pool: Seq<usize>,
    nms: Seq<NativeMonitorInfo>,
    hw: Seq<String>,
    k: int,
) -> Seq<usize>
    decreases k,
{
    if k <= 0 {
        pool
    } else {
        let p = pool_after(t, pool, nms, hw, k - 1);
        match first_match(t, p, nms[k - 1], hw) {
            Some(j) => p.remove(j),
            None => p,
        }
    }
}

/// The monitor node the `i`th native monitor claims, if any: the first
/// node of the remaining pool that the priority chain matches.
pub open spec fn claim_of(
    t: Tree,
    pool: Seq<usize>,
    nms: Seq<NativeMonitorInfo>,
    hw: Seq<String>,
    i: int,
) -> Option<usize> {
    let p = pool_after(t, pool, nms, hw, i);
    match first_match(t, p, nms[i], hw) {
        Some(j) => Some(p[j]),
        None => None,
    }
}

/// The identity-refresh events the matching pass emits for the first
/// `k` native monitors, in claim order.
pub open spec fn pass1_events(
    t: Tree,
    pool: Seq<usize>,
    nms: Seq<NativeMonitorInfo>,
    hw: Seq<String>,
    k: int,
) -> Seq<WmEvent>
    decreases k,
{
    if k <= 0 {
        Seq::empty()
    } else {
        let rest = pass1_events(t, pool, nms, hw, k - 1);
        match claim_of(t, pool, nms, hw, k - 1) {
            Some(m) => rest.push(WmEvent::MonitorUpdated { updated_id: m }),
            None => rest,
        }
    }
}

/// Whether every native monitor claims an existing node and no node is
/// left over: the display change then only refreshes identities, with
/// no node created or removed and no workspace touched.
pub open spec fn all_claimed(
    t: Tree,
    pool: Seq<usize>,
    nms: Seq<NativeMonitorInfo>,
    hw: Seq<String>,
) -> bool {
    &&& forall|i: int| 0 <= i < nms.len() ==> (#[trigger] claim_of(t, pool, nms, hw, i)) is Some
    &&& pool_after(t, pool, nms, hw, nms.len() as int).len() == 0
}

/// Matching reads only the node's recorded identity.
pub proof fn lemma_matches_congruent(
    a: Tree,
    b: Tree,
    m: int,
    nm: NativeMonitorInfo,
    hw: Seq<String>,
)
    requires
        a.node(m) == b.node(m),
    ensures
        monitor_matches(a, m, nm, hw) == monitor_matches(b, m, nm, hw),
{
    assert(native_of(a, m) == native_of(b, m));
}

/// What the first-match position means: the chain matches there and at
/// no earlier pool position.
pub proof fn lemma_first_match(t: Tree, pool: Seq<usize>, nm: NativeMonitorInfo, hw: Seq<String>)
    ensures
        match first_match(t, pool, nm, hw) {
            Some(j) => 0 <= j < pool.len() && monitor_matches(t, pool[j] as int, nm, hw) && forall|
                l: int,
            | 0 <= l < j ==> !monitor_matches(t, #[trigger] pool[l] as int, nm, hw),
            None => forall|l: int|
                0 <= l < pool.len() ==> !monitor_matches(t, #[trigger] pool[l] as int, nm, hw),
        },
    decreases pool.len(),
{
    if pool.len() > 0 && !monitor_matches(t, pool[0] as int, nm, hw) {
        let tail = pool.drop_first();
        lemma_first_match(t, tail, nm, hw);
        assert(forall|l: int| 0 <= l < tail.len() ==> #[trigger] tail[l] == pool[l + 1]);
        match first_match(t, tail, nm, hw) {
            Some(j) => {
                assert(pool[j + 1] == tail[j]);
                assert forall|l: int| 0 <= l < j + 1 implies !monitor_matches(
                    t,
                    #[trigger] pool[l] as int,
                    nm,
                    hw,
                ) by {
                    if l > 0 {
                        assert(tail[l - 1] == pool[l]);
                    }
                }
            },
            None => {
                assert forall|l: int| 0 <= l < pool.len() implies !monitor_matches(
                    t,
                    #[trigger] pool[l] as int,
                    nm,
                    hw,
                ) by {
                    if l > 0 {
                        assert(tail[l - 1] == pool[l]);
                    }
                }
            },
        }
    }
}

/// Later pools hold only members of earlier ones.
pub proof fn lemma_pool_after_subset(
    t: Tree,
    pool: Seq<usize>,
    nms: Seq<NativeMonitorInfo>,
    hw: Seq<String>,
    k1: int,
    k2: int,
)
    requires
        0 <= k1 <= k2,
    ensures
        forall|x: usize|
            #[trigger] pool_after(t, pool, nms, hw, k2).contains(x) ==> pool_after(
                t,
                pool,
                nms,
                hw,
                k1,
            ).contains(x),
    decreases k2 - k1,
{
    if k1 < k2 {
        lemma_pool_after_subset(t, pool, nms, hw, k1, k2 - 1);
        let p = pool_after(t, pool, nms, hw, k2 - 1);
        match first_match(t, p, nms[k2 - 1], hw) {
            Some(j) => {
                lemma_first_match(t, p, nms[k2 - 1], hw);
                assert forall|x: usize|
                    #[trigger] pool_after(t, pool, nms, hw, k2).contains(x) implies p.contains(
                    x,
                ) by {
                    let q = p.remove(j);
                    let l = choose|l: int| 0 <= l < q.len() && q[l] == x;
                    crate::tree::lemma_remove_index(p, j);
                    let a = if l < j {
                        l
                    } else {
                        l + 1
                    };
                    assert(p[a] == x);
                }
            },
            None => {},
        }
    }
}

/// A pool without repeats stays without repeats as claims remove nodes.
pub proof fn lemma_pool_after_different(
    t: Tree,
    pool: Seq<usize>,
    nms: Seq<NativeMonitorInfo>,
    hw: Seq<String>,
    k: int,
)
    requires
        all_different(pool),
        0 <= k,
    ensures
        all_different(pool_after(t, pool, nms, hw, k)),
    decreases k,
{
    if k > 0 {
        lemma_pool_after_different(t, pool, nms, hw, k - 1);
        let p = pool_after(t, pool, nms, hw, k - 1);
        match first_match(t, p, nms[k - 1], hw) {
            Some(j) => {
                lemma_first_match(t, p, nms[k - 1], hw);
                let q = p.remove(j);
                crate::tree::lemma_remove_index(p, j);
                assert forall|i1: int, i2: int|
                    #![trigger q[i1], q[i2]]
                    0 <= i1 < i2 < q.len() implies q[i1] != q[i2] by {
                    let a1 = if i1 < j {
                        i1
                    } else {
                        i1 + 1
                    };
                    let a2 = if i2 < j {
                        i2
                    } else {
                        i2 + 1
                    };
                    assert(q[i1] == p[a1] && q[i2] == p[a2]);
                }
            },
            None => {},
        }
    }
}

/// A claimed node leaves the pool for good.
pub proof fn lemma_claim_removed(
    t: Tree,
    pool: Seq<usize>,
    nms: Seq<NativeMonitorInfo>,
    hw: Seq<String>,
    i: int,
)
    requires
        all_different(pool),
        0 <= i,
        claim_of(t, pool, nms, hw, i) is Some,
    ensures
        !pool_after(t, pool, nms, hw, i + 1).contains(claim_of(t, pool, nms, hw, i)->Some_0),
{
    let p = pool_after(t, pool, nms, hw, i);
    lemma_pool_after_different(t, pool, nms, hw, i);
    let j = first_match(t, p, nms[i], hw)->Some_0;
    lemma_first_match(t, p, nms[i], hw);
    let q = p.remove(j);
    crate::tree::lemma_remove_index(p, j);
    if q.contains(p[j]) {
        let l = choose|l: int| 0 <= l < q.len() && q[l] == p[j];
        let a = if l < j {
            l
        } else {
            l + 1
        };
        assert(p[a] == p[j]);
        if a < j {
            assert(p[a] != p[j]);
        } else {
            assert(p[j] != p[a]);
        }
    }
}

/// Every claim satisfies the matching priority chain against its native
/// monitor, and names one of the pre-existing monitor nodes.
pub proof fn lemma_claim_matches(
    t: Tree,
    pool: Seq<usize>,
    nms: Seq<NativeMonitorInfo>,
    hw: Seq<String>,
    i: int,
)
    requires
        0 <= i < nms.len(),
        claim_of(t, pool, nms, hw, i) is Some,
    ensures
        monitor_matches(t, claim_of(t, pool, nms, hw, i)->Some_0 as int, nms[i], hw),
        pool.contains(claim_of(t, pool, nms, hw, i)->Some_0),
{
    let p = pool_after(t, pool, nms, hw, i);
    lemma_first_match(t, p, nms[i], hw);
    let j = first_match(t, p, nms[i], hw)->Some_0;
    assert(p.contains(p[j]));
    lemma_pool_after_subset(t, pool, nms, hw, 0, i);
}

/// The matching is injective: no monitor node is claimed by two native
/// monitors, because a claim removes the node from the pool.
pub proof fn lemma_claims_injective(
    t: Tree,
    pool: Seq<usize>,
    nms: Seq<NativeMonitorInfo>,
    hw: Seq<String>,
    i: int,
    j: int,
)
    requires
        all_different(pool),
        0 <= i < j < nms.len(),
        claim_of(t, pool, nms, hw, i) is Some,
        claim_of(t, pool, nms, hw, j) is Some,
    ensures
        claim_of(t, pool, nms, hw, i) != claim_of(t, pool, nms, hw, j),
{
    let mi = claim_of(t, pool, nms, hw, i)->Some_0;
    let mj = claim_of(t, pool, nms, hw, j)->Some_0;
    lemma_claim_removed(t, pool, nms, hw, i);
    let pj = pool_after(t, pool, nms, hw, j);
    lemma_first_match(t, pj, nms[j], hw);
    let l = first_match(t, pj, nms[j], hw)->Some_0;
    assert(pj.contains(mj));
    lemma_pool_after_subset(t, pool, nms, hw, i + 1, j);
    assert(pool_after(t, pool, nms, hw, i + 1).contains(mj));
}

/// A hardware identifier that repeats among the connected monitors
/// never matches: duplicate identifiers cannot cause cross-matching,
/// whatever identity a node records.
pub proof fn lemma_duplicate_hw_no_match(
    t: Tree,
    m: int,
    nm: NativeMonitorInfo,
    hw: Seq<String>,
)
    requires
        match opt_str(nm.hardware_id) {
            Some(id) => hw_count(hw, id) != 1,
            None => true,
        },
    ensures
        !matches_hw(t, m, nm, hw),
{
}

/// Membership survives appending.
pub proof fn lemma_contains_push<T>(s: Seq<T>, x: T, y: T)
    requires
        s.contains(y),
    ensures
        s.push(x).contains(y),
{
    let j = choose|j: int| 0 <= j < s.len() && s[j] == y;
    assert(s.push(x)[j] == y);
}

/// The position of the first root child that is not `m` — the monitor
/// chosen to receive a removed monitor's workspaces.
pub open spec fn first_other_index(roots: Seq<usize>, m: usize) -> int
    decreases roots.len(),
{
    if roots.len() == 0 {
        0
    } else if roots[0] != m {
        0
    } else {
        1 + first_other_index(roots.drop_first(), m)
    }
}

/// A prefix of entries equal to `m` followed by a different entry
/// pins the first-other position.
pub proof fn lemma_first_other_prefix(roots: Seq<usize>, m: usize, k: int)
    requires
        0 <= k < roots.len(),
        roots[k] != m,
        forall|j: int| 0 <= j < k ==> #[trigger] roots[j] == m,
    ensures
        first_other_index(roots, m) == k,
    decreases k,
{
    if k > 0 {
        assert(roots[0] == m);
        let tail = roots.drop_first();
        assert(tail[k - 1] == roots[k]);
        assert forall|j: int| 0 <= j < k - 1 implies #[trigger] tail[j] == m by {
            assert(tail[j] == roots[j + 1]);
        }
        lemma_first_other_prefix(tail, m, k - 1);
    }
}

/// The workspaces of `cs` worth keeping: those with children or kept
/// alive by configuration, in order.
pub open spec fn kept_children(t: Tree, cs: Seq<usize>) -> Seq<usize>
    decreases cs.len(),
{
    if cs.len() == 0 {
        Seq::empty()
    } else {
        let rest = kept_children(t, cs.drop_last());
        if t.children_of(cs.last() as int).len() > 0 || t.workspace_info_of(
            cs.last() as int,
        ).keep_alive {
            rest.push(cs.last())
        } else {
            rest
        }
    }
}

/// The empty, non-kept-alive workspaces of `cs`, in order.
pub open spec fn dropped_children(t: Tree, cs: Seq<usize>) -> Seq<usize>
    decreases cs.len(),
{
    if cs.len() == 0 {
        Seq::empty()
    } else {
        let rest = dropped_children(t, cs.drop_last());
        if t.children_of(cs.last() as int).len() > 0 || t.workspace_info_of(
            cs.last() as int,
        ).keep_alive {
            rest
        } else {
            rest.push(cs.last())
        }
    }
}

/// The update events announcing moved workspaces, in order.
pub open spec fn updated_events(ws: Seq<usize>) -> Seq<WmEvent> {
    ws.map_values(|w: usize| WmEvent::WorkspaceUpdated { updated_workspace: w })
}

/// The deactivation events announcing dropped workspaces, in order.
pub open spec fn deactivated_events(ws: Seq<usize>) -> Seq<WmEvent> {
    ws.map_values(|w: usize| WmEvent::WorkspaceDeactivated { deactivated_workspace: w })
}

/// Equality of optional strings.
fn opt_str_eq(a: &Option<String>, b: &Option<String>) -> (r: bool)
    ensures
        r == match (opt_str(*a), opt_str(*b)) {
            (Some(x), Some(y)) => x == y,
            _ => false,
        },
{
    match (a, b) {
        (Some(x), Some(y)) => {
            let r = *x == *y;
            proof {
                assert(opt_str(*a) == Some(x@));
                assert(opt_str(*b) == Some(y@));
            }
            r
        },
        _ => false,
    }
}

/// Count the occurrences of `id` among the connected identifiers.
fn count_hw(ids: &Vec<String>, id: &String) -> (r: usize)
    ensures
        r as int == hw_count(ids@, id@),
{
    let n = ids.len();
    let mut count: usize = 0;
    let mut k: usize = 0;
    while k < n
        invariant
            n == ids@.len(),
            0 <= k <= n,
            count as int == hw_count(ids@.take(k as int), id@),
            count <= k,
        decreases n - k,
    {
        proof {
            assert(ids@.take(k as int + 1).drop_last() =~= ids@.take(k as int));
            assert(ids@.take(k as int + 1).last() == ids@[k as int]);
        }
        if ids[k] == *id {
            count += 1;
        }
        k += 1;
    }
    proof {
        assert(ids@.take(n as int) =~= ids@);
    }
    count
}

/// Whether the monitor node `m` matches the native monitor `nm`.
fn monitor_matches_exec(t: &Tree, m: usize, nm: &NativeMonitorInfo, hw_ids: &Vec<String>) -> (r:
    bool)
    requires
        t.wf(),
        t.valid(m as int),
        t.is_monitor(m as int),
    ensures
        r == monitor_matches(*t, m as int, *nm, hw_ids@),
{
    let rec = match &t.nodes[m].kind {
        NodeKind::Monitor(info) => info,
        _ => {
            proof {
                assert(false);
            }
            return false;
        },
    };
    if rec.handle == nm.handle {
        return true;
    }
    if opt_str_eq(&rec.device_path, &nm.device_path) {
        return true;
    }
    match (&rec.hardware_id, &nm.hardware_id) {
        (Some(a), Some(b)) => *a == *b && count_hw(hw_ids, a) == 1,
        _ => false,
    }
}

/// Find the first still-unmatched monitor node that matches `nm`.
fn find_monitor_match(
    t: &Tree,
    pending: &Vec<usize>,
    nm: &NativeMonitorInfo,
    hw_ids: &Vec<String>,
) -> (r: Option<usize>)
    requires
        t.wf(),
        forall|j: int|
            0 <= j < pending@.len() ==> t.valid(#[trigger] pending@[j] as int) && t.is_monitor(
                pending@[j] as int,
            ),
    ensures
        match r {
            Some(k) => (k as int) < pending@.len() && monitor_matches(
                *t,
                pending@[k as int] as int,
                *nm,
                hw_ids@,
            ) && forall|j: int|
                0 <= j < k ==> !monitor_matches(
                    *t,
                    #[trigger] pending@[j] as int,
                    *nm,
                    hw_ids@,
                ),
            None => forall|j: int|
                0 <= j < pending@.len() ==> !monitor_matches(
                    *t,
                    #[trigger] pending@[j] as int,
                    *nm,
                    hw_ids@,
                ),
        },
{
    let n = pending.len();
    let mut k: usize = 0;
    while k < n
        invariant
            t.wf(),
            n == pending@.len(),
            0 <= k <= n,
            forall|j: int|
                0 <= j < pending@.len() ==> t.valid(#[trigger] pending@[j] as int) && t.is_monitor(
                    pending@[j] as int,
                ),
            forall|j: int|
                0 <= j < k ==> !monitor_matches(
                    *t,
                    #[trigger] pending@[j] as int,
                    *nm,
                    hw_ids@,
                ),
        decreases n - k,
    {
        if monitor_matches_exec(t, pending[k], nm, hw_ids) {
            return Some(k);
        }
        k += 1;
    }
    None
}

/// Copy a native identity, character for character.
fn clone_native(nm: &NativeMonitorInfo) -> (r: NativeMonitorInfo)
    ensures
        r == *nm,
{
    NativeMonitorInfo {
        handle: nm.handle,
        device_path: match &nm.device_path {
            Some(s) => Some(s.clone()),
            None => None,
        },
        hardware_id: match &nm.hardware_id {
            Some(s) => Some(s.clone()),
            None => None,
        },
        device_name: nm.device_name.clone(),
        rect: nm.rect,
    }
}

/// Refresh a matched monitor node's recorded identity in place and
/// tell subscribers.
pub fn update_monitor(state: &mut WmState, monitor: usize, nm: NativeMonitorInfo)
    requires
        old(state).inv(),
        old(state).tree.valid(monitor as int),
        old(state).tree.is_monitor(monitor as int),
        nm.rect.bounded(),
    ensures
        final(state).inv(),
        final(state).tree.nodes@.len() == old(state).tree.nodes@.len(),
        final(state).tree.root == old(state).tree.root,
        native_of(final(state).tree, monitor as int) == nm,
        final(state).tree.node(monitor as int) == (crate::tree::Node {
            kind: NodeKind::Monitor(nm),
            ..old(state).tree.node(monitor as int)
        }),
        forall|j: int|
            final(state).tree.valid(j) && j != monitor ==> #[trigger] final(state).tree.node(j)
                == old(state).tree.node(j),
        final(state).events@ == old(state).events@.push(
            WmEvent::MonitorUpdated { updated_id: monitor },
        ),
        final(state).pending_sync == old(state).pending_sync,
        final(state).focus_order == old(state).focus_order,
        final(state).fullscreen_cooldowns == old(state).fullscreen_cooldowns,
        final(state).minimize_requests == old(state).minimize_requests,
{
    state.tree.set_monitor_info(monitor, nm);
    state.emit_event(WmEvent::MonitorUpdated { updated_id: monitor });
}

/// Create a monitor node for a newly seen native display and tell
/// subscribers. Workspace binding happens later, once the monitors
/// are in their final order.
pub fn add_monitor(state: &mut WmState, nm: NativeMonitorInfo) -> (id: usize)
    requires
        old(state).inv(),
        nm.rect.bounded(),
    ensures
        final(state).inv(),
        final(state).tree.nodes@.len() == old(state).tree.nodes@.len() + 1,
        id == old(state).tree.nodes@.len(),
        final(state).tree.root == old(state).tree.root,
        final(state).tree.is_monitor(id as int),
        final(state).tree.node(id as int).parent == Some(old(state).tree.root),
        final(state).tree.children_of(old(state).tree.root as int) == old(
            state,
        ).tree.children_of(old(state).tree.root as int).push(id),
        forall|j: int|
            old(state).tree.valid(j) && j != old(state).tree.root ==> #[trigger] final(state).tree.node(j) == old(state).tree.node(j),
        final(state).events@ == old(state).events@.push(WmEvent::MonitorAdded { added_id: id }),
        final(state).tree.node(old(state).tree.root as int).parent == old(state).tree.node(
            old(state).tree.root as int,
        ).parent,
        final(state).tree.node(old(state).tree.root as int).kind == old(state).tree.node(
            old(state).tree.root as int,
        ).kind,
        final(state).tree.node(old(state).tree.root as int).depth == old(state).tree.node(
            old(state).tree.root as int,
        ).depth,
        final(state).pending_sync == old(state).pending_sync,
        final(state).focus_order == old(state).focus_order,
        final(state).fullscreen_cooldowns == old(state).fullscreen_cooldowns,
        final(state).minimize_requests == old(state).minimize_requests,
{
    let root = state.tree.root;
    proof {
        assert(old(state).tree.is_root_kind(root as int));
    }
    let id = state.tree.add_child(root, NodeKind::Monitor(nm));
    state.emit_event(WmEvent::MonitorAdded { added_id: id });
    id
}

/// Left-to-right, top-to-bottom order on recorded monitor positions.
pub open spec fn monitor_pos_le(t: Tree, a: int, b: int) -> bool {
    let ra = native_of(t, a).rect;
    let rb = native_of(t, b).rect;
    ra.x < rb.x || (ra.x == rb.x && ra.y <= rb.y)
}

/// The monitor nodes of `cs` stand in physical-position order.
pub open spec fn monitors_sorted(t: Tree, cs: Seq<usize>) -> bool {
    forall|i: int, j: int|
        #![trigger cs[i], cs[j]]
        0 <= i < j < cs.len() ==> monitor_pos_le(t, cs[i] as int, cs[j] as int)
}

/// Position comparison of two monitor nodes.
fn monitor_pos_le_exec(t: &Tree, a: usize, b: usize) -> (r: bool)
    requires
        t.wf(),
        t.valid(a as int),
        t.valid(b as int),
        t.is_monitor(a as int),
        t.is_monitor(b as int),
    ensures
        r == monitor_pos_le(*t, a as int, b as int),
{
    let ra = match &t.nodes[a].kind {
        NodeKind::Monitor(info) => info.rect,
        _ => {
            proof {
                assert(false);
            }
            crate::geometry::Rect { x: 0, y: 0, width: 0, height: 0 }
        },
    };
    let rb = match &t.nodes[b].kind {
        NodeKind::Monitor(info) => info.rect,
        _ => {
            proof {
                assert(false);
            }
            crate::geometry::Rect { x: 0, y: 0, width: 0, height: 0 }
        },
    };
    ra.x < rb.x || (ra.x == rb.x && ra.y <= rb.y)
}

/// Re-sort the monitor nodes by physical position, left to right and
/// top to bottom, so index-based addressing follows the arrangement of
/// the displays. Every node keeps its data; only the root's child order
/// changes.
#[verifier::rlimit(60)]
pub fn sort_monitors(state: &mut WmState)
    requires
        old(state).inv(),
    ensures
        final(state).inv(),
        final(state).tree.root == old(state).tree.root,
        final(state).tree.nodes@.len() == old(state).tree.nodes@.len(),
        forall|j: int|
            final(state).tree.valid(j) && j != old(state).tree.root
                ==> #[trigger] final(state).tree.node(j) == old(state).tree.node(j),
        final(state).tree.node(final(state).tree.root as int).parent == old(state).tree.node(
            old(state).tree.root as int,
        ).parent,
        final(state).tree.node(final(state).tree.root as int).kind == old(state).tree.node(
            old(state).tree.root as int,
        ).kind,
        final(state).tree.node(final(state).tree.root as int).depth == old(state).tree.node(
            old(state).tree.root as int,
        ).depth,
        final(state).tree.children_of(final(state).tree.root as int).len() == old(
            state,
        ).tree.children_of(old(state).tree.root as int).len(),
        forall|x: usize|
            #[trigger] final(state).tree.children_of(final(state).tree.root as int).contains(x)
                <==> old(state).tree.children_of(old(state).tree.root as int).contains(x),
        monitors_sorted(
            final(state).tree,
            final(state).tree.children_of(final(state).tree.root as int),
        ),
        final(state).pending_sync == old(state).pending_sync,
        final(state).events == old(state).events,
        final(state).focus_order == old(state).focus_order,
        final(state).fullscreen_cooldowns == old(state).fullscreen_cooldowns,
        final(state).minimize_requests == old(state).minimize_requests,
{
    let ghost t0 = state.tree;
    let root = state.tree.root;
    proof {
        assert(t0.wf_node(root as int));
        assert(!t0.has_tiling_child(root as int)) by {
            if t0.has_tiling_child(root as int) {
                let k = choose|k: int|
                    0 <= k < t0.children_of(root as int).len() && t0.is_tiling(
                        #[trigger] t0.children_of(root as int)[k] as int,
                    );
                let c = t0.children_of(root as int)[k];
                assert(t0.node(c as int).parent == Some(root));
                assert(t0.wf_node(c as int));
                assert(t0.is_root_kind(root as int));
                assert(t0.node(c as int).kind is Monitor);
            }
        }
    }
    let n = state.tree.child_count(root);
    let mut k: usize = 0;
    while k < n
        invariant
            state.inv(),
            root == state.tree.root,
            root == old(state).tree.root,
            state.tree.valid(root as int),
            n == state.tree.children_of(root as int).len(),
            n as int == t0.children_of(root as int).len(),
            0 <= k <= n,
            state.tree.nodes@.len() == t0.nodes@.len(),
            forall|j: int|
                state.tree.valid(j) && j != root ==> #[trigger] state.tree.node(j) == t0.node(j),
            state.tree.node(root as int).parent == t0.node(root as int).parent,
            state.tree.node(root as int).kind == t0.node(root as int).kind,
            state.tree.node(root as int).depth == t0.node(root as int).depth,
            forall|x: usize|
                #[trigger] state.tree.children_of(root as int).contains(x) <==> t0.children_of(
                    root as int,
                ).contains(x),
            !state.tree.has_tiling_child(root as int),
            forall|i: int, j: int|
                #![trigger state.tree.children_of(root as int)[i], state.tree.children_of(root as int)[j]]
                0 <= i < j < k as int ==> monitor_pos_le(
                    state.tree,
                    state.tree.children_of(root as int)[i] as int,
                    state.tree.children_of(root as int)[j] as int,
                ),
            forall|i: int, j: int|
                #![trigger state.tree.children_of(root as int)[i], state.tree.children_of(root as int)[j]]
                0 <= i < k as int && k as int <= j < n as int ==> monitor_pos_le(
                    state.tree,
                    state.tree.children_of(root as int)[i] as int,
                    state.tree.children_of(root as int)[j] as int,
                ),
            state.pending_sync == old(state).pending_sync,
            state.events == old(state).events,
            state.focus_order == old(state).focus_order,
            state.fullscreen_cooldowns == old(state).fullscreen_cooldowns,
            state.minimize_requests == old(state).minimize_requests,
        decreases n - k,
    {
        proof {
            assert(state.tree.wf_node(root as int));
            assert forall|j: int|
                0 <= j < n as int implies state.tree.valid(
                #[trigger] state.tree.children_of(root as int)[j] as int,
            ) && state.tree.is_monitor(state.tree.children_of(root as int)[j] as int) by {
                let c = state.tree.children_of(root as int)[j];
                assert(state.tree.node(c as int).parent == Some(root));
                assert(state.tree.wf_node(c as int));
                assert(state.tree.is_root_kind(root as int));
                assert(state.tree.node(c as int).kind is Monitor);
            }
        }
        // Select the position-least remaining monitor.
        let mut best: usize = k;
        let mut l: usize = k + 1;
        while l < n
            invariant
                state.inv(),
                root == state.tree.root,
                state.tree.valid(root as int),
                n == state.tree.children_of(root as int).len(),
                k < n,
                k <= best < l <= n,
                forall|j: int|
                    0 <= j < n as int ==> state.tree.valid(
                        #[trigger] state.tree.children_of(root as int)[j] as int,
                    ) && state.tree.is_monitor(state.tree.children_of(root as int)[j] as int),
                forall|j: int|
                    k as int <= j < l as int ==> monitor_pos_le(
                        state.tree,
                        state.tree.children_of(root as int)[best as int] as int,
                        #[trigger] state.tree.children_of(root as int)[j] as int,
                    ),
            decreases n - l,
        {
            let cl = state.tree.child_at(root, l);
            let cb = state.tree.child_at(root, best);
            if !monitor_pos_le_exec(&state.tree, cb, cl) {
                best = l;
                proof {
                    // A total order: what does not come after comes
                    // before.
                    assert forall|j: int|
                        k as int <= j < l as int + 1 implies monitor_pos_le(
                        state.tree,
                        state.tree.children_of(root as int)[best as int] as int,
                        #[trigger] state.tree.children_of(root as int)[j] as int,
                    ) by {
                        assert(monitor_pos_le(state.tree, cl as int, cb as int));
                    }
                }
            }
            l += 1;
        }
        let ghost tpre = state.tree;
        let ghost cs_pre = state.tree.children_of(root as int);
        state.tree.swap_children(root, k, best);
        proof {
            let cs2 = state.tree.children_of(root as int);
            assert(cs2 == cs_pre.update(k as int, cs_pre[best as int]).update(
                best as int,
                cs_pre[k as int],
            ));
            // Node data is untouched, so the order among positions is
            // judged the same before and after.
            assert forall|a2: int, b2: int|
                0 <= a2 < n as int && 0 <= b2 < n as int && monitor_pos_le(
                    tpre,
                    cs_pre[a2] as int,
                    cs_pre[b2] as int,
                ) implies monitor_pos_le(
                state.tree,
                cs_pre[a2] as int,
                cs_pre[b2] as int,
            ) by {
                assert(cs_pre[a2] as int != root as int && cs_pre[b2] as int != root as int) by {
                    assert(tpre.is_monitor(cs_pre[a2] as int));
                    assert(tpre.is_monitor(cs_pre[b2] as int));
                    assert(tpre.is_root_kind(root as int));
                }
                assert(state.tree.node(cs_pre[a2] as int) == tpre.node(cs_pre[a2] as int));
                assert(state.tree.node(cs_pre[b2] as int) == tpre.node(cs_pre[b2] as int));
            }
            assert forall|i: int, j: int|
                #![trigger cs2[i], cs2[j]]
                0 <= i < j < k as int + 1 implies monitor_pos_le(
                state.tree,
                cs2[i] as int,
                cs2[j] as int,
            ) by {
                assert(cs2[i] == cs_pre[i]);
                if j < k as int {
                    assert(cs2[j] == cs_pre[j]);
                } else {
                    assert(cs2[j] == cs_pre[best as int]);
                }
            }
            assert forall|i: int, j: int|
                #![trigger cs2[i], cs2[j]]
                0 <= i < k as int + 1 && k as int + 1 <= j < n as int implies monitor_pos_le(
                state.tree,
                cs2[i] as int,
                cs2[j] as int,
            ) by {
                let xj = if j == best as int {
                    cs_pre[k as int]
                } else {
                    cs_pre[j]
                };
                assert(cs2[j] == xj);
                if i < k as int {
                    assert(cs2[i] == cs_pre[i]);
                    if j == best as int {
                        assert(monitor_pos_le(tpre, cs_pre[i] as int, cs_pre[k as int] as int));
                    } else {
                        assert(monitor_pos_le(tpre, cs_pre[i] as int, cs_pre[j] as int));
                    }
                } else {
                    assert(cs2[i] == cs_pre[best as int]);
                    if j == best as int {
                        assert(monitor_pos_le(tpre, cs_pre[best as int] as int, cs_pre[k as int] as int));
                    } else {
                        assert(monitor_pos_le(tpre, cs_pre[best as int] as int, cs_pre[j] as int));
                    }
                }
            }
            assert forall|x: usize|
                #[trigger] state.tree.children_of(root as int).contains(x) <==> t0.children_of(
                    root as int,
                ).contains(x) by {
                if state.tree.children_of(root as int).contains(x) {
                    let a = choose|a: int| 0 <= a < cs2.len() && cs2[a] == x;
                    let b2 = if a == k as int {
                        best as int
                    } else if a == best as int {
                        k as int
                    } else {
                        a
                    };
                    assert(cs_pre[b2] == x);
                    assert(tpre.children_of(root as int).contains(x));
                }
                if t0.children_of(root as int).contains(x) {
                    assert(tpre.children_of(root as int).contains(x));
                    let a = choose|a: int| 0 <= a < cs_pre.len() && cs_pre[a] == x;
                    let b2 = if a == k as int {
                        best as int
                    } else if a == best as int {
                        k as int
                    } else {
                        a
                    };
                    assert(cs2[b2] == x);
                }
            }
        }
        k += 1;
    }
}

/// Remove a monitor node.
///
/// Its workspaces that hold children or are kept alive move to the
/// first other monitor, appended after that monitor's own workspaces;
/// empty ones are marked no longer displayed and deactivated, with
/// their events emitted before the monitor disappears; the node is then
/// detached and a removal event emitted. Fails, changing nothing, when
/// no other monitor exists to receive the workspaces — so the sole
/// remaining monitor is never removed.
#[verifier::rlimit(100)]
pub fn remove_monitor(state: &mut WmState, monitor: usize, config: &UserConfig) -> (r: Result<
    (),
    WmError,
>)
    requires
        old(state).inv(),
        old(state).tree.valid(monitor as int),
        old(state).tree.is_monitor(monitor as int),
        old(state).tree.node(monitor as int).parent == Some(old(state).tree.root),
    ensures
        final(state).inv(),
        match r {
            Ok(()) => {
                let t0 = old(state).tree;
                let roots = t0.children_of(t0.root as int);
                &&& exists|j: int| 0 <= j < roots.len() && roots[j] != monitor
                &&& final(state).tree.node(monitor as int).parent is None
                &&& final(state).tree.children_of(final(state).tree.root as int)
                    == roots.remove(roots.index_of(monitor))
                &&& final(state).tree.root == t0.root
                &&& final(state).tree.nodes@.len() == t0.nodes@.len()
                &&& final(state).tree.children_of(monitor as int).len() == 0
                &&& final(state).events@ == old(state).events@ + updated_events(
                    kept_children(t0, t0.children_of(monitor as int)),
                ) + deactivated_events(dropped_children(t0, t0.children_of(monitor as int)))
                    + seq![
                    WmEvent::MonitorRemoved {
                        removed_id: monitor,
                        removed_device_name: native_of(t0, monitor as int).device_name,
                    },
                ]
                &&& forall|j: int|
                    t0.valid(j) && t0.is_window(j) ==> #[trigger] final(state).tree.node(j)
                        == t0.node(j)
                &&& forall|j: int|
                    t0.valid(j) && t0.is_monitor(j) ==> (#[trigger] final(state).tree.node(
                        j,
                    )).kind == t0.node(j).kind
                &&& forall|k: int|
                    0 <= k < t0.children_of(monitor as int).len() ==> {
                        let w = #[trigger] t0.children_of(monitor as int)[k] as int;
                        if t0.children_of(w).len() > 0 || t0.workspace_info_of(w).keep_alive {
                            final(state).tree.node(w).parent == Some(
                                roots[first_other_index(roots, monitor)],
                            ) && final(state).pending_sync.workspaces_to_reorder@.contains(
                                w as usize,
                            ) && final(state).tree.node(w).kind == t0.node(w).kind
                                && final(state).tree.node(w).children == t0.node(w).children
                        } else {
                            final(state).tree.node(w).parent is None && final(state).tree.node(
                                w,
                            ).kind == NodeKind::Workspace(
                                crate::tree::WorkspaceInfo {
                                    displayed: false,
                                    ..t0.workspace_info_of(w)
                                },
                            ) && final(state).tree.node(w).children == t0.node(w).children
                        }
                    }
            },
            Err(e) => {
                &&& e == WmError::NoTargetMonitor
                &&& forall|j: int|
                    0 <= j < old(state).tree.children_of(old(state).tree.root as int).len()
                        ==> #[trigger] old(state).tree.children_of(old(state).tree.root as int)[j]
                        == monitor
                &&& *final(state) == *old(state)
            },
        },
{
    let ghost t0 = state.tree;
    let root = state.tree.root;
    // The device name the removal event reports.
    let removed_name = match &state.tree.nodes[monitor].kind {
        NodeKind::Monitor(info) => info.device_name.clone(),
        _ => {
            proof {
                assert(false);
            }
            String::new()
        },
    };
    proof {
        assert(removed_name == native_of(t0, monitor as int).device_name);
    }
    // Find another monitor to receive the workspaces.
    let rn = state.tree.child_count(root);
    let mut target: Option<usize> = None;
    let mut k: usize = 0;
    while k < rn
        invariant
            *state == *old(state),
            state.inv(),
            root == state.tree.root,
            state.tree.valid(root as int),
            rn == state.tree.children_of(root as int).len(),
            0 <= k <= rn,
            match target {
                Some(m) => state.tree.children_of(root as int).contains(m) && m != monitor
                    && exists|jt: int|
                    0 <= jt < k && state.tree.children_of(root as int)[jt] == m && (forall|j: int|
                        0 <= j < jt ==> #[trigger] state.tree.children_of(root as int)[j]
                            == monitor),
                None => forall|j: int|
                    0 <= j < k ==> #[trigger] state.tree.children_of(root as int)[j] == monitor,
            },
        decreases rn - k,
    {
        if target.is_none() {
            let c = state.tree.child_at(root, k);
            if c != monitor {
                proof {
                    assert(state.tree.children_of(root as int).contains(c));
                    assert(state.tree.children_of(root as int)[k as int] == c);
                }
                target = Some(c);
            }
        }
        k += 1;
    }
    let target = match target {
        Some(m) => m,
        None => {
            return Err(WmError::NoTargetMonitor);
        },
    };
    proof {
        assert(t0.wf_node(root as int));
        let roots = t0.children_of(root as int);
        let j = choose|j: int| 0 <= j < roots.len() && roots[j] == target;
        assert(t0.node(target as int).parent == Some(root));
        assert(t0.is_monitor(target as int)) by {
            assert(t0.wf_node(target as int));
            assert(t0.is_root_kind(root as int));
        }
        assert(exists|j: int| 0 <= j < roots.len() && roots[j] != monitor) by {
            assert(roots[j] != monitor);
        }
        // The chosen receiver is exactly the first root child other
        // than the removed monitor.
        let jt = choose|jt: int|
            0 <= jt < rn as int && roots[jt] == target && (forall|j2: int|
                0 <= j2 < jt ==> #[trigger] roots[j2] == monitor);
        lemma_first_other_prefix(roots, monitor, jt);
        assert(target == roots[first_other_index(roots, monitor)]);
    }
    // Partition the monitor's workspaces: the ones worth keeping move,
    // the empty, non-kept-alive ones are deactivated.
    let wn = state.tree.child_count(monitor);
    let mut to_move: Vec<usize> = Vec::new();
    let mut to_drop: Vec<usize> = Vec::new();
    let mut k: usize = 0;
    while k < wn
        invariant
            *state == *old(state),
            state.inv(),
            state.tree.valid(monitor as int),
            state.tree.is_monitor(monitor as int),
            state.tree.node(monitor as int).parent == Some(state.tree.root),
            wn == state.tree.children_of(monitor as int).len(),
            0 <= k <= wn,
            forall|j: int|
                0 <= j < to_move@.len() ==> state.tree.children_of(monitor as int).contains(
                    #[trigger] to_move@[j],
                ) && (state.tree.children_of(to_move@[j] as int).len() > 0
                    || state.tree.workspace_info_of(to_move@[j] as int).keep_alive),
            forall|j: int|
                0 <= j < to_drop@.len() ==> state.tree.children_of(monitor as int).contains(
                    #[trigger] to_drop@[j],
                ) && !(state.tree.children_of(to_drop@[j] as int).len() > 0
                    || state.tree.workspace_info_of(to_drop@[j] as int).keep_alive),
            forall|k1: int, k2: int|
                #![trigger to_move@[k1], to_move@[k2]]
                0 <= k1 < k2 < to_move@.len() ==> to_move@[k1] != to_move@[k2],
            forall|k1: int, k2: int|
                #![trigger to_drop@[k1], to_drop@[k2]]
                0 <= k1 < k2 < to_drop@.len() ==> to_drop@[k1] != to_drop@[k2],
            forall|j: int, k2: int|
                0 <= j < to_move@.len() && 0 <= k2 < to_drop@.len() ==> #[trigger] to_move@[j]
                    != #[trigger] to_drop@[k2],
            forall|j: int|
                0 <= j < k ==> {
                    let w = #[trigger] state.tree.children_of(monitor as int)[j];
                    if state.tree.children_of(w as int).len() > 0 || state.tree.workspace_info_of(
                        w as int,
                    ).keep_alive {
                        to_move@.contains(w)
                    } else {
                        to_drop@.contains(w)
                    }
                },
            forall|j: int|
                0 <= j < to_move@.len() ==> exists|a: int|
                    0 <= a < k && state.tree.children_of(monitor as int)[a] == #[trigger] to_move@[j],
            forall|j: int|
                0 <= j < to_drop@.len() ==> exists|a: int|
                    0 <= a < k && state.tree.children_of(monitor as int)[a] == #[trigger] to_drop@[j],
            to_move@ == kept_children(
                state.tree,
                state.tree.children_of(monitor as int).take(k as int),
            ),
            to_drop@ == dropped_children(
                state.tree,
                state.tree.children_of(monitor as int).take(k as int),
            ),
            to_move@.len() + to_drop@.len() == k as int,
        decreases wn - k,
    {
        let w = state.tree.child_at(monitor, k);
        proof {
            assert(state.tree.wf_node(monitor as int));
            assert(state.tree.children_of(monitor as int).contains(w));
            assert forall|j: int|
                0 <= j < to_move@.len() implies #[trigger] to_move@[j] != w by {
                let a = choose|a: int|
                    0 <= a < k && state.tree.children_of(monitor as int)[a] == to_move@[j];
            }
            assert forall|j: int|
                0 <= j < to_drop@.len() implies #[trigger] to_drop@[j] != w by {
                let a = choose|a: int|
                    0 <= a < k && state.tree.children_of(monitor as int)[a] == to_drop@[j];
            }
        }
        let has_children = state.tree.child_count(w) > 0;
        proof {
            assert(state.tree.children_of(monitor as int)[k as int] == w);
            assert(state.tree.node(w as int).parent == Some(monitor));
            assert(state.tree.wf_node(w as int));
            assert(Tree::child_kind_ok(
                state.tree.node(monitor as int).kind,
                state.tree.node(w as int).kind,
            ));
            assert(state.tree.node(monitor as int).kind is Monitor);
            assert(state.tree.node(w as int).kind is Workspace);
        }
        let keep_alive = match &state.tree.nodes[w].kind {
            NodeKind::Workspace(info) => info.keep_alive,
            _ => {
                proof {
                    assert(false);
                }
                false
            },
        };
        let ghost old_to_move = to_move@;
        let ghost old_to_drop = to_drop@;
        proof {
            let cs = state.tree.children_of(monitor as int);
            assert(cs.take(k as int + 1).drop_last() =~= cs.take(k as int));
            assert(cs.take(k as int + 1).last() == w);
        }
        if has_children || keep_alive {
            to_move.push(w);
        } else {
            to_drop.push(w);
        }
        proof {
            let tm0 = old(state).tree;
            assert forall|j: int|
                0 <= j < k + 1 implies {
                let w2 = #[trigger] state.tree.children_of(monitor as int)[j];
                if state.tree.children_of(w2 as int).len() > 0 || state.tree.workspace_info_of(
                    w2 as int,
                ).keep_alive {
                    to_move@.contains(w2)
                } else {
                    to_drop@.contains(w2)
                }
            } by {
                let w2 = state.tree.children_of(monitor as int)[j];
                if j < k {
                    if state.tree.children_of(w2 as int).len() > 0
                        || state.tree.workspace_info_of(w2 as int).keep_alive {
                        if has_children || keep_alive {
                            lemma_contains_push(old_to_move, w, w2);
                        }
                    } else {
                        if !(has_children || keep_alive) {
                            lemma_contains_push(old_to_drop, w, w2);
                        }
                    }
                } else {
                    if has_children || keep_alive {
                        assert(to_move@.last() == w);
                    } else {
                        assert(to_drop@.last() == w);
                    }
                }
            }
        }
        k += 1;
    }
    proof {
        // Fix the partition facts against the unchanged starting tree,
        // so they survive the mutations below.
        assert(state.tree == t0);
        assert(forall|j: int|
            0 <= j < t0.children_of(monitor as int).len() ==> {
                let w2 = #[trigger] t0.children_of(monitor as int)[j];
                if t0.children_of(w2 as int).len() > 0 || t0.workspace_info_of(
                    w2 as int,
                ).keep_alive {
                    to_move@.contains(w2)
                } else {
                    to_drop@.contains(w2)
                }
            });
        assert(t0.children_of(monitor as int).take(wn as int) =~= t0.children_of(monitor as int));
        assert(to_move@ == kept_children(t0, t0.children_of(monitor as int)));
        assert(to_drop@ == dropped_children(t0, t0.children_of(monitor as int)));
        assert(to_move@.len() + to_drop@.len() == wn as int);
    }
    // Move the kept workspaces to the target monitor.
    let nm = to_move.len();
    let mut k: usize = 0;
    while k < nm
        invariant
            state.inv(),
            nm == to_move@.len(),
            0 <= k <= nm,
            state.tree.root == t0.root,
            root == t0.root,
            state.tree.nodes@.len() == t0.nodes@.len(),
            state.tree.valid(monitor as int),
            state.tree.valid(target as int),
            target != monitor,
            state.tree.is_monitor(target as int),
            state.tree.is_monitor(monitor as int),
            state.tree.node(target as int).parent == Some(root),
            state.tree.node(monitor as int).parent == Some(root),
            state.tree.children_of(root as int) == t0.children_of(root as int),
            forall|j: int|
                k <= j < nm ==> state.tree.node(#[trigger] to_move@[j] as int).parent == Some(
                    monitor,
                ) && state.tree.valid(to_move@[j] as int) && state.tree.is_workspace(
                    to_move@[j] as int,
                ),
            forall|j: int|
                0 <= j < k ==> state.tree.valid(#[trigger] to_move@[j] as int)
                    && state.tree.node(to_move@[j] as int).parent == Some(target)
                    && state.pending_sync.workspaces_to_reorder@.contains(to_move@[j]),
            forall|j: int|
                0 <= j < nm ==> state.tree.is_workspace(#[trigger] to_move@[j] as int)
                    && state.tree.node(to_move@[j] as int).kind == t0.node(
                    to_move@[j] as int,
                ).kind && state.tree.node(to_move@[j] as int).children == t0.node(
                    to_move@[j] as int,
                ).children,
            forall|j: int|
                t0.valid(j) && t0.is_window(j) ==> #[trigger] state.tree.node(j) == t0.node(j),
            forall|j: int|
                t0.valid(j) && t0.is_monitor(j) ==> (#[trigger] state.tree.node(j)).kind
                    == t0.node(j).kind,
            state.events@ == old(state).events@ + updated_events(to_move@.take(k as int)),
            state.tree.children_of(monitor as int).len() == wn - k,
            forall|k1: int, k2: int|
                #![trigger to_move@[k1], to_move@[k2]]
                0 <= k1 < k2 < nm ==> to_move@[k1] != to_move@[k2],
            forall|j: int|
                0 <= j < to_drop@.len() ==> state.tree.node(#[trigger] to_drop@[j] as int).parent
                    == Some(monitor) && state.tree.valid(to_drop@[j] as int)
                    && state.tree.is_workspace(to_drop@[j] as int) && state.tree.children_of(
                    to_drop@[j] as int,
                ).len() == 0 && state.tree.node(to_drop@[j] as int).kind == t0.node(
                    to_drop@[j] as int,
                ).kind && state.tree.node(to_drop@[j] as int).children == t0.node(
                    to_drop@[j] as int,
                ).children,
            forall|k1: int, k2: int|
                #![trigger to_drop@[k1], to_drop@[k2]]
                0 <= k1 < k2 < to_drop@.len() ==> to_drop@[k1] != to_drop@[k2],
            forall|j: int, k2: int|
                0 <= j < nm && 0 <= k2 < to_drop@.len() ==> #[trigger] to_move@[j]
                    != #[trigger] to_drop@[k2],
        decreases nm - k,
    {
        let w = to_move[k];
        let cnt = state.tree.child_count(target);
        proof {
            let t = state.tree;
            assert(t.wf_node(w as int));
            assert(t.wf_node(monitor as int));
            assert(t.wf_node(target as int));
            assert(t.wf_node(root as int));
            assert(t.node(w as int).depth@ == t.node(monitor as int).depth@ + 1);
            assert(t.node(monitor as int).depth@ == t.node(root as int).depth@ + 1);
            assert(t.node(target as int).depth@ == t.node(root as int).depth@ + 1);
            assert(w != target) by {
                assert(t.is_workspace(w as int));
            }
            assert(Tree::child_kind_ok(t.node(target as int).kind, t.node(w as int).kind));
        }
        let ghost tpre = state.tree;
        let moved = state.tree.move_within_tree(w, target, cnt);
        proof {
            assert(moved is Ok);
            assert(!tpre.is_tiling(w as int));
            assert(state.tree.children_of(root as int) == tpre.children_of(root as int)) by {
                assert(root != w);
                assert(tpre.node(w as int).parent->Some_0 == monitor);
                assert(root != monitor && root != target) by {
                    assert(tpre.node(monitor as int).parent == Some(root));
                    assert(tpre.node(root as int).parent is None);
                    assert(tpre.wf_node(monitor as int));
                    assert(tpre.node(monitor as int).depth@ == tpre.node(root as int).depth@ + 1);
                    assert(tpre.node(target as int).depth@ == tpre.node(root as int).depth@ + 1);
                }
            }
        }
        proof {
            // The move took the workspace out of the removed monitor's
            // child list.
            assert(tpre.node(w as int).parent->Some_0 == monitor);
            crate::tree::lemma_remove_index(
                tpre.children_of(monitor as int),
                tpre.children_of(monitor as int).index_of(w),
            );
            assert(state.tree.children_of(monitor as int).len() == wn - k - 1);
        }
        let ghost evs0 = state.events@;
        state.emit_event(WmEvent::WorkspaceUpdated { updated_workspace: w });
        let ghost t_emit = state.tree;
        let ghost pend_emit = state.pending_sync;
        state.pending_sync.queue_workspace_to_reorder(w);
        queue_tiling_children(state, w);
        proof {
            assert(state.tree == t_emit);
            assert(state.events@ == evs0.push(WmEvent::WorkspaceUpdated { updated_workspace: w }));
            assert(state.events@ == old(state).events@ + updated_events(
                to_move@.take(k as int + 1),
            )) by {
                assert(updated_events(to_move@.take(k as int + 1)) =~= updated_events(
                    to_move@.take(k as int),
                ).push(WmEvent::WorkspaceUpdated { updated_workspace: w }));
                assert(old(state).events@ + updated_events(to_move@.take(k as int)).push(
                    WmEvent::WorkspaceUpdated { updated_workspace: w },
                ) =~= (old(state).events@ + updated_events(to_move@.take(k as int))).push(
                    WmEvent::WorkspaceUpdated { updated_workspace: w },
                ));
            }
            assert(state.pending_sync.workspaces_to_reorder@.contains(w));
            assert forall|j: int|
                0 <= j < k + 1 implies state.tree.valid(#[trigger] to_move@[j] as int)
                && state.tree.node(to_move@[j] as int).parent == Some(target)
                && state.pending_sync.workspaces_to_reorder@.contains(to_move@[j]) by {
                if j < k {
                    assert(to_move@[j] != w);
                    assert(to_move@[j] as int != w as int);
                    assert(state.tree.valid(to_move@[j] as int));
                    assert(state.tree.node(to_move@[j] as int).parent == tpre.node(
                        to_move@[j] as int,
                    ).parent);
                    assert(pend_emit.workspaces_to_reorder@.contains(to_move@[j]));
                }
            }
            assert forall|j: int|
                k + 1 <= j < nm implies state.tree.node(#[trigger] to_move@[j] as int).parent
                == Some(monitor) && state.tree.valid(to_move@[j] as int)
                && state.tree.is_workspace(to_move@[j] as int) by {
                assert(to_move@[j] != w);
                assert(to_move@[j] as int != w as int);
                assert(state.tree.node(to_move@[j] as int).parent == tpre.node(
                    to_move@[j] as int,
                ).parent);
                assert(Tree::kind_same_variant(
                    tpre.node(to_move@[j] as int).kind,
                    state.tree.node(to_move@[j] as int).kind,
                ));
                Tree::lemma_variant_tiling(
                    tpre.node(to_move@[j] as int).kind,
                    state.tree.node(to_move@[j] as int).kind,
                );
            }
            assert forall|j: int|
                0 <= j < to_drop@.len() implies state.tree.node(
                #[trigger] to_drop@[j] as int,
            ).parent == Some(monitor) && state.tree.valid(to_drop@[j] as int)
                && state.tree.is_workspace(to_drop@[j] as int) && state.tree.children_of(
                to_drop@[j] as int,
            ).len() == 0 && state.tree.node(to_drop@[j] as int).kind == t0.node(
                to_drop@[j] as int,
            ).kind && state.tree.node(to_drop@[j] as int).children == t0.node(
                to_drop@[j] as int,
            ).children by {
                assert(to_drop@[j] != w);
                assert(to_drop@[j] as int != w as int);
                assert(state.tree.node(to_drop@[j] as int).parent == tpre.node(
                    to_drop@[j] as int,
                ).parent);
                assert(state.tree.node(to_drop@[j] as int).kind == tpre.node(
                    to_drop@[j] as int,
                ).kind) by {
                    assert(!tpre.is_tiling(w as int));
                }
                assert(state.tree.node(to_drop@[j] as int).children == tpre.node(
                    to_drop@[j] as int,
                ).children) by {
                    assert(to_drop@[j] != target && to_drop@[j] != monitor) by {
                        assert(tpre.is_workspace(to_drop@[j] as int));
                        Tree::lemma_variant_tiling(
                            tpre.node(to_drop@[j] as int).kind,
                            state.tree.node(to_drop@[j] as int).kind,
                        );
                        assert(tpre.is_monitor(target as int));
                        assert(tpre.is_monitor(monitor as int));
                    }
                }
                Tree::lemma_variant_tiling(
                    tpre.node(to_drop@[j] as int).kind,
                    state.tree.node(to_drop@[j] as int).kind,
                );
            }
            // The moved workspace and its untouched fellows keep their
            // variant data and child lists, and no window node moved.
            assert forall|j: int|
                0 <= j < nm implies state.tree.is_workspace(#[trigger] to_move@[j] as int)
                && state.tree.node(to_move@[j] as int).kind == t0.node(to_move@[j] as int).kind
                && state.tree.node(to_move@[j] as int).children == t0.node(
                to_move@[j] as int,
            ).children by {
                assert(state.tree.node(to_move@[j] as int).kind == tpre.node(
                    to_move@[j] as int,
                ).kind) by {
                    assert(!tpre.is_tiling(w as int));
                }
                Tree::lemma_variant_tiling(
                    tpre.node(to_move@[j] as int).kind,
                    state.tree.node(to_move@[j] as int).kind,
                );
                assert(state.tree.node(to_move@[j] as int).children == tpre.node(
                    to_move@[j] as int,
                ).children) by {
                    assert(to_move@[j] != target && to_move@[j] != monitor) by {
                        assert(tpre.is_workspace(to_move@[j] as int));
                        assert(tpre.is_monitor(target as int));
                        assert(tpre.is_monitor(monitor as int));
                    }
                }
            }
            assert forall|j: int|
                t0.valid(j) && t0.is_window(j) implies #[trigger] state.tree.node(j) == t0.node(
                j,
            ) by {
                assert(tpre.node(j) == t0.node(j));
                assert(j != w as int) by {
                    assert(tpre.is_workspace(w as int));
                }
                assert(j != monitor as int && j != target as int) by {
                    assert(tpre.is_monitor(monitor as int));
                    assert(tpre.is_monitor(target as int));
                }
                assert(state.tree.node(j).kind == tpre.node(j).kind) by {
                    assert(!tpre.is_tiling(w as int));
                }
                assert(state.tree.node(j).parent == tpre.node(j).parent);
                assert(state.tree.node(j).children == tpre.node(j).children);
                assert(state.tree.node(j).depth == tpre.node(j).depth);
            }
            assert forall|j: int|
                t0.valid(j) && t0.is_monitor(j) implies (#[trigger] state.tree.node(j)).kind
                == t0.node(j).kind by {
                assert(state.tree.node(j).kind == tpre.node(j).kind) by {
                    assert(!tpre.is_tiling(w as int));
                }
            }
        }
        k += 1;
    }
    // Deactivate the remaining empty workspaces, so subscribers see
    // their deactivation before the monitor disappears.
    let nd = to_drop.len();
    let mut k: usize = 0;
    while k < nd
        invariant
            state.inv(),
            nd == to_drop@.len(),
            0 <= k <= nd,
            state.tree.root == t0.root,
            root == t0.root,
            state.tree.nodes@.len() == t0.nodes@.len(),
            state.tree.valid(monitor as int),
            state.tree.is_monitor(monitor as int),
            state.tree.node(monitor as int).parent == Some(root),
            state.tree.children_of(root as int) == t0.children_of(root as int),
            forall|j: int|
                k <= j < nd ==> state.tree.node(#[trigger] to_drop@[j] as int).parent == Some(
                    monitor,
                ) && state.tree.valid(to_drop@[j] as int) && state.tree.is_workspace(
                    to_drop@[j] as int,
                ) && state.tree.node(to_drop@[j] as int).kind == t0.node(to_drop@[j] as int).kind
                    && state.tree.node(to_drop@[j] as int).children == t0.node(
                    to_drop@[j] as int,
                ).children,
            forall|j: int|
                0 <= j < k ==> state.tree.valid(#[trigger] to_drop@[j] as int)
                    && state.tree.node(to_drop@[j] as int).parent is None && state.tree.node(
                    to_drop@[j] as int,
                ).kind == NodeKind::Workspace(
                    WorkspaceInfo { displayed: false, ..t0.workspace_info_of(to_drop@[j] as int) },
                ) && state.tree.node(to_drop@[j] as int).children == t0.node(
                    to_drop@[j] as int,
                ).children,
            forall|k1: int, k2: int|
                #![trigger to_drop@[k1], to_drop@[k2]]
                0 <= k1 < k2 < nd ==> to_drop@[k1] != to_drop@[k2],
            forall|j: int, k2: int|
                0 <= j < nm && 0 <= k2 < nd ==> #[trigger] to_move@[j] != #[trigger] to_drop@[k2],
            forall|j: int|
                0 <= j < nm ==> state.tree.valid(#[trigger] to_move@[j] as int)
                    && state.tree.node(to_move@[j] as int).parent == Some(target)
                    && state.pending_sync.workspaces_to_reorder@.contains(to_move@[j])
                    && state.tree.node(to_move@[j] as int).kind == t0.node(to_move@[j] as int).kind
                    && state.tree.node(to_move@[j] as int).children == t0.node(
                    to_move@[j] as int,
                ).children,
            forall|j: int|
                t0.valid(j) && t0.is_window(j) ==> #[trigger] state.tree.node(j) == t0.node(j),
            forall|j: int|
                t0.valid(j) && t0.is_monitor(j) ==> (#[trigger] state.tree.node(j)).kind
                    == t0.node(j).kind,
            state.events@ == old(state).events@ + updated_events(to_move@)
                + deactivated_events(to_drop@.take(k as int)),
            state.tree.children_of(monitor as int).len() == wn - nm - k,
            nm + nd == wn,
            target != monitor,
            state.tree.valid(target as int),
            state.tree.is_monitor(target as int),
        decreases nd - k,
    {
        let w = to_drop[k];
        // The workspace leaves the visible set: mark it no longer
        // displayed before unlinking it.
        let winfo = match &state.tree.nodes[w].kind {
            NodeKind::Workspace(info) => *info,
            _ => {
                proof {
                    assert(false);
                }
                WorkspaceInfo { config_index: 0, keep_alive: false, displayed: false }
            },
        };
        proof {
            assert(winfo == t0.workspace_info_of(w as int));
        }
        let ghost t_mark0 = state.tree;
        state.tree.set_workspace_info(w, WorkspaceInfo { displayed: false, ..winfo });
        proof {
            // Only the dropped workspace's variant data changed.
            assert forall|j: int|
                t_mark0.valid(j) && j != w implies #[trigger] state.tree.node(j) == t_mark0.node(
                j,
            ) by {}
            assert forall|j: int|
                0 <= j < nm implies #[trigger] to_move@[j] as int != w as int by {
                assert(to_move@[j] != to_drop@[k as int]);
            }
            assert forall|j: int|
                0 <= j < nd && j != k implies #[trigger] to_drop@[j] as int != w as int by {
                if j < k as int {
                    assert(to_drop@[j] != to_drop@[k as int]);
                } else {
                    assert(to_drop@[k as int] != to_drop@[j]);
                }
            }
            assert forall|j: int|
                t0.valid(j) && t0.is_window(j) implies #[trigger] state.tree.node(j) == t0.node(
                j,
            ) by {
                assert(t_mark0.node(j) == t0.node(j));
                assert(j != w as int) by {
                    assert(t_mark0.is_workspace(w as int));
                }
            }
        }
        let ghost tpre = state.tree;
        let detached = state.tree.detach(w);
        proof {
            assert(detached is Ok);
            assert(!tpre.is_tiling(w as int)) by {
                assert(tpre.wf_node(w as int));
                assert(Tree::child_kind_ok(
                    tpre.node(monitor as int).kind,
                    tpre.node(w as int).kind,
                ));
            }
            assert(state.tree.children_of(root as int) == tpre.children_of(root as int)) by {
                assert(root != w && root != monitor) by {
                    assert(tpre.node(monitor as int).parent == Some(root));
                    assert(tpre.node(w as int).parent == Some(monitor));
                    assert(tpre.node(root as int).parent is None);
                    assert(tpre.wf_node(monitor as int));
                    assert(tpre.wf_node(w as int));
                    assert(tpre.node(monitor as int).depth@ == tpre.node(root as int).depth@ + 1);
                    assert(tpre.node(w as int).depth@ == tpre.node(monitor as int).depth@ + 1);
                }
            }
        }
        proof {
            assert(tpre.node(w as int).parent->Some_0 == monitor);
            crate::tree::lemma_remove_index(
                tpre.children_of(monitor as int),
                tpre.children_of(monitor as int).index_of(w),
            );
            assert(state.tree.children_of(monitor as int).len() == wn - nm - k - 1);
        }
        let ghost evs0 = state.events@;
        state.emit_event(WmEvent::WorkspaceDeactivated { deactivated_workspace: w });
        proof {
            assert(state.events@ == evs0.push(
                WmEvent::WorkspaceDeactivated { deactivated_workspace: w },
            ));
            assert(state.events@ == old(state).events@ + updated_events(to_move@)
                + deactivated_events(to_drop@.take(k as int + 1))) by {
                assert(deactivated_events(to_drop@.take(k as int + 1)) =~= deactivated_events(
                    to_drop@.take(k as int),
                ).push(WmEvent::WorkspaceDeactivated { deactivated_workspace: w }));
                assert((old(state).events@ + updated_events(to_move@)) + deactivated_events(
                    to_drop@.take(k as int),
                ).push(WmEvent::WorkspaceDeactivated { deactivated_workspace: w }) =~= ((old(
                    state,
                ).events@ + updated_events(to_move@)) + deactivated_events(
                    to_drop@.take(k as int),
                )).push(WmEvent::WorkspaceDeactivated { deactivated_workspace: w }));
            }
            assert forall|j: int|
                0 <= j < k + 1 implies state.tree.valid(#[trigger] to_drop@[j] as int)
                && state.tree.node(to_drop@[j] as int).parent is None && state.tree.node(
                to_drop@[j] as int,
            ).kind == NodeKind::Workspace(
                WorkspaceInfo { displayed: false, ..t0.workspace_info_of(to_drop@[j] as int) },
            ) && state.tree.node(to_drop@[j] as int).children == t0.node(
                to_drop@[j] as int,
            ).children by {
                if j < k {
                    assert(to_drop@[j] != w);
                    assert(state.tree.valid(to_drop@[j] as int));
                    assert(to_drop@[j] as int != w as int);
                    assert(to_drop@[j] as int != monitor as int) by {
                        if to_drop@[j] as int == monitor as int {
                            assert(tpre.node(monitor as int).parent == Some(root));
                        }
                    }
                    assert(state.tree.node(to_drop@[j] as int) == tpre.node(to_drop@[j] as int));
                    assert(tpre.node(to_drop@[j] as int) == t_mark0.node(to_drop@[j] as int));
                } else {
                    assert(state.tree.node(w as int).kind == tpre.node(w as int).kind);
                    assert(state.tree.node(w as int).children == tpre.node(w as int).children);
                    assert(tpre.node(w as int).children == t_mark0.node(w as int).children);
                }
            }
            assert forall|j: int|
                k + 1 <= j < nd implies state.tree.node(#[trigger] to_drop@[j] as int).parent
                == Some(monitor) && state.tree.valid(to_drop@[j] as int) && state.tree.is_workspace(
                to_drop@[j] as int,
            ) && state.tree.node(to_drop@[j] as int).kind == t0.node(to_drop@[j] as int).kind
                && state.tree.node(to_drop@[j] as int).children == t0.node(
                to_drop@[j] as int,
            ).children by {
                assert(to_drop@[j] != w);
                assert(to_drop@[j] as int != w as int);
                assert(to_drop@[j] as int != monitor as int) by {
                    if to_drop@[j] as int == monitor as int {
                        assert(tpre.node(monitor as int).parent == Some(monitor));
                        assert(tpre.wf_node(monitor as int));
                        assert(tpre.node(monitor as int).depth@ == tpre.node(
                            monitor as int,
                        ).depth@ + 1);
                    }
                }
                assert(state.tree.node(to_drop@[j] as int).parent == tpre.node(
                    to_drop@[j] as int,
                ).parent);
                assert(state.tree.node(to_drop@[j] as int).kind == tpre.node(
                    to_drop@[j] as int,
                ).kind);
                assert(state.tree.node(to_drop@[j] as int).children == tpre.node(
                    to_drop@[j] as int,
                ).children);
                assert(tpre.node(to_drop@[j] as int) == t_mark0.node(to_drop@[j] as int));
            }
            assert forall|j: int|
                0 <= j < nm implies state.tree.valid(#[trigger] to_move@[j] as int)
                && state.tree.node(to_move@[j] as int).parent == Some(target)
                && state.pending_sync.workspaces_to_reorder@.contains(to_move@[j])
                && state.tree.node(to_move@[j] as int).kind == t0.node(to_move@[j] as int).kind
                && state.tree.node(to_move@[j] as int).children == t0.node(
                to_move@[j] as int,
            ).children by {
                assert(to_move@[j] != to_drop@[k as int]);
                assert(to_move@[j] != w);
                assert(to_move@[j] as int != w as int);
                assert(state.tree.valid(to_move@[j] as int));
                assert(to_move@[j] as int != monitor as int) by {
                    if to_move@[j] as int == monitor as int {
                        assert(tpre.node(monitor as int).parent == Some(target));
                        assert(tpre.node(monitor as int).parent == Some(root));
                        assert(tpre.is_monitor(target as int));
                        assert(tpre.is_root_kind(root as int));
                    }
                }
                assert(state.tree.node(to_move@[j] as int) == tpre.node(to_move@[j] as int));
                assert(tpre.node(to_move@[j] as int) == t_mark0.node(to_move@[j] as int));
            }
            assert forall|j: int|
                t0.valid(j) && t0.is_window(j) implies #[trigger] state.tree.node(j) == t0.node(
                j,
            ) by {
                assert(tpre.node(j) == t0.node(j));
                assert(j != w as int) by {
                    assert(tpre.is_workspace(w as int));
                }
                assert(j != monitor as int) by {
                    assert(tpre.is_monitor(monitor as int));
                }
                assert(state.tree.node(j) == tpre.node(j));
            }
            assert forall|j: int|
                t0.valid(j) && t0.is_monitor(j) implies (#[trigger] state.tree.node(j)).kind
                == t0.node(j).kind by {
                assert(t_mark0.node(j).kind == t0.node(j).kind);
                assert(j != w as int) by {
                    assert(t_mark0.is_workspace(w as int));
                    assert(t_mark0.node(j).kind is Monitor);
                }
                assert(tpre.node(j).kind == t_mark0.node(j).kind);
                assert(state.tree.node(j).kind == tpre.node(j).kind);
            }
        }
        k += 1;
    }
    // Unlink the monitor itself and tell subscribers.
    let ghost tpre = state.tree;
    let detached = state.tree.detach(monitor);
    proof {
        assert(detached is Ok);
        assert(!tpre.is_tiling(monitor as int));
        assert(tpre.children_of(root as int) == t0.children_of(root as int));
        assert(state.tree.children_of(root as int) == t0.children_of(root as int).remove(
            t0.children_of(root as int).index_of(monitor),
        )) by {
            assert(tpre.children_of(root as int).index_of(monitor) == t0.children_of(
                root as int,
            ).index_of(monitor));
        }
    }
    let ghost evs1 = state.events@;
    state.emit_event(
        WmEvent::MonitorRemoved { removed_id: monitor, removed_device_name: removed_name },
    );
    proof {
        let tf = state.tree;
        let roots = t0.children_of(root as int);
        let mcs = t0.children_of(monitor as int);
        let ghost removal_event = WmEvent::MonitorRemoved {
            removed_id: monitor,
            removed_device_name: native_of(t0, monitor as int).device_name,
        };
        // Exactly the announced events were emitted, in order.
        assert(state.events@ == evs1.push(removal_event));
        assert(evs1 == old(state).events@ + updated_events(kept_children(t0, mcs))
            + deactivated_events(dropped_children(t0, mcs)));
        assert(state.events@ =~= old(state).events@ + updated_events(kept_children(t0, mcs))
            + deactivated_events(dropped_children(t0, mcs)) + seq![removal_event]);
        // The removed monitor keeps no workspace children.
        assert(tf.node(monitor as int).children == tpre.node(monitor as int).children);
        assert(tf.children_of(monitor as int).len() == 0);
        // Each former workspace ended where its fate says, with its
        // data kept — or, deactivated, marked no longer displayed.
        assert forall|k2: int|
            0 <= k2 < mcs.len() implies {
            let w = #[trigger] mcs[k2] as int;
            if t0.children_of(w).len() > 0 || t0.workspace_info_of(w).keep_alive {
                tf.node(w).parent == Some(roots[first_other_index(roots, monitor)])
                    && state.pending_sync.workspaces_to_reorder@.contains(w as usize) && tf.node(
                    w,
                ).kind == t0.node(w).kind && tf.node(w).children == t0.node(w).children
            } else {
                tf.node(w).parent is None && tf.node(w).kind == NodeKind::Workspace(
                    WorkspaceInfo { displayed: false, ..t0.workspace_info_of(w) },
                ) && tf.node(w).children == t0.node(w).children
            }
        } by {
            let w = mcs[k2];
            assert(mcs.contains(w));
            assert(w != monitor) by {
                t0.lemma_not_own_child(monitor as int);
            }
            assert(w as int != monitor as int);
            assert(w as int != root as int) by {
                if w as int == root as int {
                    assert(t0.node(w as int).parent == Some(monitor));
                    assert(t0.node(root as int).parent is None);
                }
            }
            assert(tf.node(w as int) == tpre.node(w as int));
            if t0.children_of(w as int).len() > 0 || t0.workspace_info_of(w as int).keep_alive {
                assert(to_move@.contains(w));
                let j = choose|j: int| 0 <= j < to_move@.len() && to_move@[j] == w;
                assert(tpre.node(w as int).parent == Some(target)
                    && state.pending_sync.workspaces_to_reorder@.contains(w));
                assert(tpre.node(w as int).kind == t0.node(w as int).kind);
                assert(tpre.node(w as int).children == t0.node(w as int).children);
                assert(target == roots[first_other_index(roots, monitor)]);
            } else {
                assert(to_drop@.contains(w));
                let j = choose|j: int| 0 <= j < to_drop@.len() && to_drop@[j] == w;
                assert(tpre.node(w as int).parent is None);
                assert(tpre.node(w as int).kind == NodeKind::Workspace(
                    WorkspaceInfo { displayed: false, ..t0.workspace_info_of(w as int) },
                ));
                assert(tpre.node(w as int).children == t0.node(w as int).children);
            }
        }
        // No window node was touched at any step, and every monitor
        // node kept its recorded identity.
        assert forall|j: int|
            t0.valid(j) && t0.is_window(j) implies #[trigger] tf.node(j) == t0.node(j) by {
            assert(tpre.node(j) == t0.node(j));
            assert(j != monitor as int) by {
                assert(tpre.is_monitor(monitor as int));
            }
            assert(j != root as int) by {
                assert(t0.is_root_kind(root as int));
            }
            assert(tf.node(j) == tpre.node(j));
        }
        assert forall|j: int|
            t0.valid(j) && t0.is_monitor(j) implies (#[trigger] tf.node(j)).kind == t0.node(
            j,
        ).kind by {
            assert(tpre.node(j).kind == t0.node(j).kind);
            if j == monitor as int {
                assert(tf.node(j).kind == tpre.node(j).kind);
            } else {
                assert(j != root as int) by {
                    assert(t0.is_root_kind(root as int));
                }
                assert(tf.node(j) == tpre.node(j));
            }
        }
    }
    Ok(())
}

/// Reconcile the monitor nodes against the live, position-sorted list
/// of native monitors.
///
/// Each native monitor claims the first existing node it matches by
/// handle, device path or unique hardware identifier; a matched node
/// is taken out of the pool, so no node is claimed twice
/// (`claim_of`, `lemma_claims_injective`). Unmatched natives reuse
/// remaining pool nodes before new nodes are created. Nodes still
/// unclaimed are removed — except that the last remaining monitor is
/// always kept. The monitors are then re-sorted by physical position,
/// and only afterwards do new monitors receive a workspace from the
/// first unused configuration entry, so binding sees the final sorted
/// order. Finally every window is flagged for a DPI re-check, floating
/// placements that no longer overlap their monitor are recentred, and
/// the whole tree is marked for redraw once.
#[verifier::rlimit(100)]
pub fn handle_display_settings_changed(
    state: &mut WmState,
    config: &UserConfig,
    native_monitors: &Vec<NativeMonitorInfo>,
) -> (r: Result<(), WmError>)
    requires
        old(state).inv(),
        forall|i: int|
            0 <= i < native_monitors@.len() ==> (#[trigger] native_monitors@[i]).rect.bounded(),
    ensures
        final(state).inv(),
        final(state).tree.root == old(state).tree.root,
        // The last monitor survives even on the error path.
        old(state).tree.children_of(old(state).tree.root as int).len() >= 1 ==> final(state).tree.children_of(final(state).tree.root as int).len() >= 1,
        // On success there is one monitor node per native monitor —
        // or the single survivor when every display disappeared.
        r is Ok && native_monitors@.len() >= 1 ==> final(state).tree.children_of(
            final(state).tree.root as int,
        ).len() == native_monitors@.len(),
        r is Ok && native_monitors@.len() == 0 && old(state).tree.children_of(
            old(state).tree.root as int,
        ).len() >= 1 ==> final(state).tree.children_of(final(state).tree.root as int).len() == 1,
        // The only failure is running out of workspace configuration
        // entries for a newly created monitor — so while no node needs
        // creating, success is owed.
        r is Err ==> r == Err::<(), WmError>(WmError::NoWorkspaceConfig),
        native_monitors@.len() <= old(state).tree.children_of(old(state).tree.root as int).len()
            ==> r is Ok,
        // The whole tree is marked for redraw once at the end.
        r is Ok ==> final(state).pending_sync.containers_to_redraw@.contains(
            final(state).tree.root,
        ),
        // Every window that sits in a workspace of some monitor has
        // been flagged for a DPI re-check.
        r is Ok ==> forall|i: int|
            final(state).tree.valid(i) && final(state).tree.is_window(i) && (match final(state).tree.workspace_of(i) {
                Some(w) => final(state).tree.node(w).parent is Some,
                None => false,
            }) ==> (#[trigger] final(state).tree.window_of(i)).has_pending_dpi_adjustment,
        // The matching: each native monitor claims the first node still
        // in the pool that the handle / device-path / unique-hardware-id
        // chain matches (`claim_of` over `monitor_matches`), no node is
        // claimed twice (`lemma_claims_injective`), and a claimed node
        // records its claimant's identity and survives as a monitor.
        r is Ok ==> forall|i: int|
            0 <= i < native_monitors@.len() ==> match #[trigger] claim_of(
                old(state).tree,
                old(state).tree.children_of(old(state).tree.root as int),
                native_monitors@,
                hw_ids_of(native_monitors@),
                i,
            ) {
                Some(m) => final(state).tree.valid(m as int) && final(state).tree.is_monitor(
                    m as int,
                ) && native_of(final(state).tree, m as int) == native_monitors@[i]
                    && final(state).tree.children_of(final(state).tree.root as int).contains(m),
                None => true,
            },
        // On success the monitor nodes stand re-sorted by physical
        // position, and workspaces were bound only after the sort.
        r is Ok ==> monitors_sorted(
            final(state).tree,
            final(state).tree.children_of(final(state).tree.root as int),
        ),
        // A churn-free change: every native monitor claims a node and
        // none is left over. Then nothing is created or removed, no
        // workspace is touched or re-bound, and exactly the
        // identity-refresh events go out, in order.
        all_claimed(
            old(state).tree,
            old(state).tree.children_of(old(state).tree.root as int),
            native_monitors@,
            hw_ids_of(native_monitors@),
        ) ==> {
            &&& r is Ok
            &&& final(state).tree.nodes@.len() == old(state).tree.nodes@.len()
            &&& forall|j: int|
                old(state).tree.valid(j) ==> (#[trigger] final(state).tree.node(j)).parent == old(
                    state,
                ).tree.node(j).parent
            &&& forall|j: int|
                old(state).tree.valid(j) && j != old(state).tree.root
                    ==> (#[trigger] final(state).tree.node(j)).children == old(state).tree.node(
                    j,
                ).children
            &&& forall|j: int|
                old(state).tree.valid(j) && old(state).tree.is_workspace(j)
                    ==> #[trigger] final(state).tree.node(j) == old(state).tree.node(j)
            &&& forall|x: usize|
                #[trigger] final(state).tree.children_of(final(state).tree.root as int).contains(x)
                    <==> old(state).tree.children_of(old(state).tree.root as int).contains(x)
            &&& final(state).events@ == old(state).events@ + pass1_events(
                old(state).tree,
                old(state).tree.children_of(old(state).tree.root as int),
                native_monitors@,
                hw_ids_of(native_monitors@),
                native_monitors@.len() as int,
            )
        },
        // Every surviving window got the placement rule: a user-chosen
        // placement still overlapping its monitor stays, anything else
        // is recentred within it; and the DPI flag is set.
        r is Ok ==> forall|i: int|
            old(state).tree.valid(i) && old(state).tree.is_window(i) && window_on_monitor(
                final(state).tree,
                i,
            ) ==> {
                let w = final(state).tree.workspace_of(i)->Some_0;
                let m = final(state).tree.node(w).parent->Some_0 as int;
                (#[trigger] final(state).tree.window_of(i)).floating_placement
                    == refreshed_placement(
                    old(state).tree.window_of(i),
                    native_of(final(state).tree, m).rect,
                ) && final(state).tree.window_of(i).has_pending_dpi_adjustment
            },
{
    let ghost t0 = state.tree;
    let root = state.tree.root;
    let ghost roots0 = state.tree.children_of(root as int);
    let ghost nms = native_monitors@;
    let ghost hwg = hw_ids_of(native_monitors@);
    // Every connected hardware identifier, duplicates included, so
    // uniqueness can be judged.
    let mut hw_ids: Vec<String> = Vec::new();
    let nn = native_monitors.len();
    let mut k: usize = 0;
    while k < nn
        invariant
            *state == *old(state),
            0 <= k <= nn,
            nn == nms.len(),
            nms == native_monitors@,
            root == old(state).tree.root,
            hw_ids@ == hw_ids_of(nms.take(k as int)),
        decreases nn - k,
    {
        proof {
            assert(nms.take(k as int + 1).drop_last() =~= nms.take(k as int));
            assert(nms.take(k as int + 1).last() == nms[k as int]);
        }
        match &native_monitors[k].hardware_id {
            Some(id) => {
                hw_ids.push(id.clone());
            },
            None => {},
        }
        k += 1;
    }
    proof {
        assert(nms.take(nn as int) =~= nms);
        assert(hw_ids@ == hwg);
    }
    // The pool of monitor nodes not yet claimed by a native monitor.
    let mut pending: Vec<usize> = Vec::new();
    let rn = state.tree.child_count(root);
    let mut k: usize = 0;
    while k < rn
        invariant
            *state == *old(state),
            state.inv(),
            root == state.tree.root,
            root == old(state).tree.root,
            roots0 == state.tree.children_of(root as int),
            rn as int == roots0.len(),
            0 <= k <= rn,
            pending@.len() == k,
            forall|j: int| 0 <= j < k ==> #[trigger] pending@[j] == roots0[j],
        decreases rn - k,
    {
        let c = state.tree.child_at(root, k);
        pending.push(c);
        k += 1;
    }
    proof {
        assert(pending@ =~= roots0);
        assert(t0.wf_node(root as int));
        assert(all_different(roots0));
        // Root children are monitor nodes distinct from the root.
        assert forall|j: int|
            0 <= j < roots0.len() implies t0.valid(#[trigger] roots0[j] as int) && t0.is_monitor(
            roots0[j] as int,
        ) && roots0[j] as int != root as int by {
            assert(roots0.contains(roots0[j]));
            assert(t0.node(roots0[j] as int).parent == Some(root));
            assert(t0.wf_node(roots0[j] as int));
            assert(t0.is_root_kind(root as int));
            assert(t0.node(roots0[j] as int).kind is Monitor);
        }
    }
    // First pass: each native monitor claims the first pool node it
    // matches; the others are remembered for reuse or creation. The
    // pool follows the specification `pool_after` step for step.
    let mut unmatched_natives: Vec<usize> = Vec::new();
    let mut newly_added: Vec<usize> = Vec::new();
    let mut k: usize = 0;
    while k < nn
        invariant
            state.inv(),
            root == state.tree.root,
            root == old(state).tree.root,
            t0 == old(state).tree,
            roots0 == t0.children_of(root as int),
            rn as int == roots0.len(),
            nn == nms.len(),
            nms == native_monitors@,
            hw_ids@ == hwg,
            hwg == hw_ids_of(nms),
            all_different(roots0),
            forall|j: int|
                0 <= j < roots0.len() ==> t0.valid(#[trigger] roots0[j] as int) && t0.is_monitor(
                    roots0[j] as int,
                ) && roots0[j] as int != root as int,
            forall|i: int| 0 <= i < nms.len() ==> (#[trigger] nms[i]).rect.bounded(),
            0 <= k <= nn,
            state.tree.nodes@.len() == t0.nodes@.len(),
            state.tree.children_of(root as int) == roots0,
            state.tree.node(root as int) == t0.node(root as int),
            forall|j: int|
                t0.valid(j) && !t0.is_monitor(j) ==> #[trigger] state.tree.node(j) == t0.node(j),
            forall|j: int|
                t0.valid(j) ==> (#[trigger] state.tree.node(j)).parent == t0.node(j).parent
                    && state.tree.node(j).children == t0.node(j).children && state.tree.node(
                    j,
                ).depth == t0.node(j).depth,
            forall|j: int|
                t0.valid(j) && t0.is_monitor(j) ==> (#[trigger] state.tree.node(j)).kind
                    is Monitor,
            pending@ == pool_after(t0, roots0, nms, hwg, k as int),
            forall|j: int|
                0 <= j < pending@.len() ==> #[trigger] state.tree.node(pending@[j] as int)
                    == t0.node(pending@[j] as int),
            forall|i: int|
                0 <= i < k ==> match #[trigger] claim_of(t0, roots0, nms, hwg, i) {
                    Some(m) => state.tree.valid(m as int) && state.tree.is_monitor(m as int)
                        && native_of(state.tree, m as int) == nms[i] && !pending@.contains(m),
                    None => true,
                },
            forall|j: int|
                0 <= j < unmatched_natives@.len() ==> #[trigger] unmatched_natives@[j] < nn
                    && claim_of(t0, roots0, nms, hwg, unmatched_natives@[j] as int) is None,
            pending@.len() + k as int == rn as int + unmatched_natives@.len(),
            newly_added@.len() == 0,
            state.events@ == old(state).events@ + pass1_events(t0, roots0, nms, hwg, k as int),
            state.pending_sync == old(state).pending_sync,
            state.focus_order == old(state).focus_order,
            state.fullscreen_cooldowns == old(state).fullscreen_cooldowns,
            state.minimize_requests == old(state).minimize_requests,
        decreases nn - k,
    {
        proof {
            assert forall|j: int|
                0 <= j < pending@.len() implies state.tree.valid(#[trigger] pending@[j] as int)
                && state.tree.is_monitor(pending@[j] as int) by {
                lemma_pool_after_subset(t0, roots0, nms, hwg, 0, k as int);
                assert(pending@.contains(pending@[j]));
                assert(roots0.contains(pending@[j]));
                let a = choose|a: int| 0 <= a < roots0.len() && roots0[a] == pending@[j];
                assert(t0.is_monitor(pending@[j] as int));
                assert(state.tree.node(pending@[j] as int) == t0.node(pending@[j] as int));
            }
            lemma_pool_after_different(t0, roots0, nms, hwg, k as int);
        }
        match find_monitor_match(&state.tree, &pending, &native_monitors[k], &hw_ids) {
            Some(pos) => {
                let ghost pend0 = pending@;
                let ghost tpre = state.tree;
                let m = pending.remove(pos);
                proof {
                    // The search found exactly the specified first
                    // match, judged over the starting tree.
                    assert forall|j: int|
                        0 <= j < pend0.len() implies monitor_matches(
                        tpre,
                        #[trigger] pend0[j] as int,
                        nms[k as int],
                        hwg,
                    ) == monitor_matches(t0, pend0[j] as int, nms[k as int], hwg) by {
                        lemma_matches_congruent(tpre, t0, pend0[j] as int, nms[k as int], hwg);
                    }
                    lemma_first_match(t0, pend0, nms[k as int], hwg);
                    assert(first_match(t0, pend0, nms[k as int], hwg) == Some(pos as int)) by {
                        match first_match(t0, pend0, nms[k as int], hwg) {
                            Some(j2) => {
                                if j2 < pos as int {
                                    assert(!monitor_matches(
                                        tpre,
                                        pend0[j2] as int,
                                        nms[k as int],
                                        hwg,
                                    ));
                                } else if j2 > pos as int {
                                    assert(!monitor_matches(
                                        t0,
                                        pend0[pos as int] as int,
                                        nms[k as int],
                                        hwg,
                                    ));
                                }
                            },
                            None => {
                                assert(!monitor_matches(
                                    t0,
                                    pend0[pos as int] as int,
                                    nms[k as int],
                                    hwg,
                                ));
                            },
                        }
                    }
                    assert(claim_of(t0, roots0, nms, hwg, k as int) == Some(pend0[pos as int]));
                    assert(pending@ == pool_after(t0, roots0, nms, hwg, k as int + 1));
                    assert(m == pend0[pos as int]);
                }
                let ghost evs_pre = state.events@;
                update_monitor(state, m, clone_native(&native_monitors[k]));
                proof {
                    crate::tree::lemma_remove_index(pend0, pos as int);
                    // Remaining pool nodes are untouched and distinct
                    // from every claim, old and new.
                    assert forall|j: int|
                        0 <= j < pending@.len() implies #[trigger] state.tree.node(
                        pending@[j] as int,
                    ) == t0.node(pending@[j] as int) && pending@[j] != m by {
                        let a = if j < pos as int {
                            j
                        } else {
                            j + 1
                        };
                        assert(pending@[j] == pend0[a]);
                        assert(pend0[a] != pend0[pos as int]) by {
                            if a < pos as int {
                                assert(pend0[a] != pend0[pos as int]);
                            } else {
                                assert(pend0[pos as int] != pend0[a]);
                            }
                        }
                        assert(tpre.node(pend0[a] as int) == t0.node(pend0[a] as int));
                        assert(state.tree.node(pend0[a] as int) == tpre.node(pend0[a] as int));
                    }
                    assert forall|i: int|
                        0 <= i < k + 1 implies match #[trigger] claim_of(t0, roots0, nms, hwg, i) {
                        Some(m2) => state.tree.valid(m2 as int) && state.tree.is_monitor(m2 as int)
                            && native_of(state.tree, m2 as int) == nms[i] && !pending@.contains(m2),
                        None => true,
                    } by {
                        match claim_of(t0, roots0, nms, hwg, i) {
                            Some(m2) => {
                                if i < k {
                                    assert(!pend0.contains(m2));
                                    assert(m2 != m) by {
                                        assert(pend0.contains(m));
                                    }
                                    assert(state.tree.node(m2 as int) == tpre.node(m2 as int));
                                    assert(!pending@.contains(m2)) by {
                                        if pending@.contains(m2) {
                                            let j = choose|j: int|
                                                0 <= j < pending@.len() && pending@[j] == m2;
                                            let a = if j < pos as int {
                                                j
                                            } else {
                                                j + 1
                                            };
                                            assert(pend0[a] == m2);
                                            assert(pend0.contains(m2));
                                        }
                                    }
                                } else {
                                    assert(m2 == m);
                                    assert(native_of(state.tree, m as int) == nms[k as int]);
                                    assert(!pending@.contains(m)) by {
                                        if pending@.contains(m) {
                                            let j = choose|j: int|
                                                0 <= j < pending@.len() && pending@[j] == m;
                                            let a = if j < pos as int {
                                                j
                                            } else {
                                                j + 1
                                            };
                                            assert(pend0[a] == pend0[pos as int]);
                                            if a < pos as int {
                                                assert(pend0[a] != pend0[pos as int]);
                                            } else {
                                                assert(pend0[pos as int] != pend0[a]);
                                            }
                                        }
                                    }
                                }
                            },
                            None => {},
                        }
                    }
                    // Exactly one identity-refresh event went out.
                    assert(state.events@ == old(state).events@ + pass1_events(
                        t0,
                        roots0,
                        nms,
                        hwg,
                        k as int + 1,
                    )) by {
                        assert(state.events@ == evs_pre.push(
                            WmEvent::MonitorUpdated { updated_id: m },
                        ));
                        assert(pass1_events(t0, roots0, nms, hwg, k as int + 1) =~= pass1_events(
                            t0,
                            roots0,
                            nms,
                            hwg,
                            k as int,
                        ).push(WmEvent::MonitorUpdated { updated_id: m }));
                        assert(old(state).events@ + pass1_events(t0, roots0, nms, hwg, k as int).push(
                            WmEvent::MonitorUpdated { updated_id: m },
                        ) =~= (old(state).events@ + pass1_events(t0, roots0, nms, hwg, k as int)).push(
                            WmEvent::MonitorUpdated { updated_id: m },
                        ));
                    }
                    assert(state.tree.children_of(root as int) == roots0) by {
                        assert(m as int != root as int);
                        assert(state.tree.node(root as int) == tpre.node(root as int));
                    }
                }
            },
            None => {
                proof {
                    // No pool node matches, so nothing is claimed and
                    // the pool stands.
                    assert forall|j: int|
                        0 <= j < pending@.len() implies !monitor_matches(
                        t0,
                        #[trigger] pending@[j] as int,
                        nms[k as int],
                        hwg,
                    ) by {
                        lemma_matches_congruent(
                            state.tree,
                            t0,
                            pending@[j] as int,
                            nms[k as int],
                            hwg,
                        );
                    }
                    lemma_first_match(t0, pending@, nms[k as int], hwg);
                    assert(claim_of(t0, roots0, nms, hwg, k as int) is None) by {
                        match first_match(t0, pending@, nms[k as int], hwg) {
                            Some(j2) => {
                                assert(monitor_matches(
                                    t0,
                                    pending@[j2] as int,
                                    nms[k as int],
                                    hwg,
                                ));
                            },
                            None => {},
                        }
                    }
                    assert(pool_after(t0, roots0, nms, hwg, k as int + 1) == pending@);
                    assert(pass1_events(t0, roots0, nms, hwg, k as int + 1) == pass1_events(
                        t0,
                        roots0,
                        nms,
                        hwg,
                        k as int,
                    ));
                }
                let ghost un0 = unmatched_natives@;
                unmatched_natives.push(k);
                proof {
                    assert forall|j: int|
                        0 <= j < unmatched_natives@.len() implies #[trigger] unmatched_natives@[j]
                        < nn && claim_of(
                        t0,
                        roots0,
                        nms,
                        hwg,
                        unmatched_natives@[j] as int,
                    ) is None by {
                        if j < un0.len() {
                            assert(unmatched_natives@[j] == un0[j]);
                        } else {
                            assert(unmatched_natives@[j] == k);
                        }
                    }
                }
            },
        }
        k += 1;
    }
    proof {
        // Facts that outlive the passes: every claim left the pool for
        // good, so later updates and removals cannot touch it.
        assert(pending@ == pool_after(t0, roots0, nms, hwg, nn as int));
        assert forall|i: int|
            0 <= i < nn && #[trigger] claim_of(t0, roots0, nms, hwg, i) is Some implies !pool_after(
            t0,
            roots0,
            nms,
            hwg,
            nn as int,
        ).contains(claim_of(t0, roots0, nms, hwg, i)->Some_0) by {
            lemma_claim_removed(t0, roots0, nms, hwg, i);
            lemma_pool_after_subset(t0, roots0, nms, hwg, i + 1, nn as int);
        }
        assert forall|i: int|
            0 <= i < nn && #[trigger] claim_of(t0, roots0, nms, hwg, i) is Some implies state.tree.children_of(
            root as int,
        ).contains(claim_of(t0, roots0, nms, hwg, i)->Some_0) by {
            lemma_claim_matches(t0, roots0, nms, hwg, i);
        }
        assert(all_claimed(t0, roots0, nms, hwg) ==> unmatched_natives@.len() == 0) by {
            if all_claimed(t0, roots0, nms, hwg) && unmatched_natives@.len() > 0 {
                assert(claim_of(
                    t0,
                    roots0,
                    nms,
                    hwg,
                    unmatched_natives@[0] as int,
                ) is None);
                assert(claim_of(t0, roots0, nms, hwg, unmatched_natives@[0] as int) is Some);
            }
        }
        lemma_pool_after_different(t0, roots0, nms, hwg, nn as int);
        lemma_pool_after_subset(t0, roots0, nms, hwg, 0, nn as int);
        assert forall|j: int|
            0 <= j < pending@.len() implies state.tree.children_of(root as int).contains(
            #[trigger] pending@[j],
        ) by {
            assert(pending@.contains(pending@[j]));
            assert(roots0.contains(pending@[j]));
        }
    }
    // Second pass: unmatched natives reuse leftover pool nodes before
    // any new monitor node is created.
    let un = unmatched_natives.len();
    let p2 = pending.len();
    let mut k: usize = 0;
    while k < un
        invariant
            state.inv(),
            root == state.tree.root,
            root == old(state).tree.root,
            t0 == old(state).tree,
            roots0 == t0.children_of(root as int),
            rn as int == roots0.len(),
            nn == nms.len(),
            nms == native_monitors@,
            hwg == hw_ids_of(nms),
            forall|j: int|
                0 <= j < roots0.len() ==> t0.valid(#[trigger] roots0[j] as int) && t0.is_monitor(
                    roots0[j] as int,
                ) && roots0[j] as int != root as int,
            forall|i: int| 0 <= i < nms.len() ==> (#[trigger] nms[i]).rect.bounded(),
            un == unmatched_natives@.len(),
            forall|j: int|
                0 <= j < un ==> #[trigger] unmatched_natives@[j] < nn && claim_of(
                    t0,
                    roots0,
                    nms,
                    hwg,
                    unmatched_natives@[j] as int,
                ) is None,
            0 <= k <= un,
            p2 as int == rn as int + un as int - nn as int,
            pending@.len() == if p2 as int - k as int >= 0 {
                p2 as int - k as int
            } else {
                0
            },
            rn >= 1 ==> state.tree.children_of(root as int).len() >= 1,
            state.tree.children_of(root as int).len() as int == rn as int + (
            if k as int - p2 as int >= 0 {
                k as int - p2 as int
            } else {
                0
            }),
            state.tree.nodes@.len() == t0.nodes@.len() + newly_added@.len(),
            un <= p2 ==> newly_added@.len() == 0,
            forall|j: int|
                0 <= j < newly_added@.len() ==> #[trigger] newly_added@[j] as int
                    >= t0.nodes@.len(),
            all_different(pending@),
            forall|j: int|
                0 <= j < pending@.len() ==> pool_after(t0, roots0, nms, hwg, nn as int).contains(
                    #[trigger] pending@[j],
                ) && state.tree.children_of(root as int).contains(pending@[j])
                    && state.tree.node(pending@[j] as int) == t0.node(pending@[j] as int),
            forall|i: int|
                0 <= i < nn && #[trigger] claim_of(t0, roots0, nms, hwg, i) is Some
                    ==> !pool_after(t0, roots0, nms, hwg, nn as int).contains(
                    claim_of(t0, roots0, nms, hwg, i)->Some_0,
                ),
            forall|i: int|
                0 <= i < nn ==> match #[trigger] claim_of(t0, roots0, nms, hwg, i) {
                    Some(m) => state.tree.valid(m as int) && state.tree.is_monitor(m as int)
                        && native_of(state.tree, m as int) == nms[i]
                        && state.tree.children_of(root as int).contains(m),
                    None => true,
                },
            forall|j: int|
                t0.valid(j) && !t0.is_monitor(j) && j != root ==> #[trigger] state.tree.node(j)
                    == t0.node(j),
            forall|j: int|
                t0.valid(j) ==> (#[trigger] state.tree.node(j)).parent == t0.node(j).parent,
            forall|j: int|
                t0.valid(j) && j != root ==> (#[trigger] state.tree.node(j)).children == t0.node(
                    j,
                ).children,
            forall|j: int|
                t0.valid(j) && t0.is_monitor(j) ==> (#[trigger] state.tree.node(j)).kind
                    is Monitor,
            state.tree.node(root as int).parent == t0.node(root as int).parent,
            state.tree.node(root as int).kind == t0.node(root as int).kind,
            state.tree.node(root as int).depth == t0.node(root as int).depth,
            all_claimed(t0, roots0, nms, hwg) ==> (un == 0 && state.tree.children_of(root as int)
                == roots0 && state.events@ == old(state).events@ + pass1_events(
                t0,
                roots0,
                nms,
                hwg,
                nn as int,
            )),
            state.pending_sync == old(state).pending_sync,
            state.focus_order == old(state).focus_order,
            state.fullscreen_cooldowns == old(state).fullscreen_cooldowns,
            state.minimize_requests == old(state).minimize_requests,
        decreases un - k,
    {
        let ni = unmatched_natives[k];
        if pending.len() > 0 {
            let ghost pend0 = pending@;
            let ghost tpre = state.tree;
            let m = pending.remove(0);
            proof {
                assert(pend0[0] == m);
                assert(pend0.contains(m));
                assert(roots0.contains(m)) by {
                    lemma_pool_after_subset(t0, roots0, nms, hwg, 0, nn as int);
                }
                let a = choose|a: int| 0 <= a < roots0.len() && roots0[a] == m;
                assert(t0.is_monitor(m as int));
                assert(tpre.node(m as int) == t0.node(m as int));
            }
            update_monitor(state, m, clone_native(&native_monitors[ni]));
            proof {
                crate::tree::lemma_remove_index(pend0, 0);
                assert(state.tree.children_of(root as int) == tpre.children_of(root as int)) by {
                    assert(m as int != root as int);
                    assert(state.tree.node(root as int) == tpre.node(root as int));
                }
                assert forall|j: int|
                    0 <= j < pending@.len() implies pool_after(
                    t0,
                    roots0,
                    nms,
                    hwg,
                    nn as int,
                ).contains(#[trigger] pending@[j]) && state.tree.children_of(
                    root as int,
                ).contains(pending@[j]) && state.tree.node(pending@[j] as int) == t0.node(
                    pending@[j] as int,
                ) by {
                    assert(pending@[j] == pend0[j + 1]);
                    assert(pend0[j + 1] != pend0[0]);
                    assert(state.tree.node(pend0[j + 1] as int) == tpre.node(pend0[j + 1] as int));
                }
                assert forall|j1: int, j2: int|
                    #![trigger pending@[j1], pending@[j2]]
                    0 <= j1 < j2 < pending@.len() implies pending@[j1] != pending@[j2] by {
                    assert(pending@[j1] == pend0[j1 + 1] && pending@[j2] == pend0[j2 + 1]);
                }
                assert forall|i: int|
                    0 <= i < nn implies match #[trigger] claim_of(t0, roots0, nms, hwg, i) {
                    Some(m2) => state.tree.valid(m2 as int) && state.tree.is_monitor(m2 as int)
                        && native_of(state.tree, m2 as int) == nms[i]
                        && state.tree.children_of(root as int).contains(m2),
                    None => true,
                } by {
                    match claim_of(t0, roots0, nms, hwg, i) {
                        Some(m2) => {
                            assert(m2 != m) by {
                                assert(!pool_after(t0, roots0, nms, hwg, nn as int).contains(m2));
                                assert(pool_after(t0, roots0, nms, hwg, nn as int).contains(m));
                            }
                            assert(state.tree.node(m2 as int) == tpre.node(m2 as int));
                        },
                        None => {},
                    }
                }
            }
        } else {
            let ghost tpre = state.tree;
            let id = add_monitor(state, clone_native(&native_monitors[ni]));
            newly_added.push(id);
            proof {
                assert(state.tree.children_of(root as int).len() == tpre.children_of(
                    root as int,
                ).len() + 1);
                assert forall|i: int|
                    0 <= i < nn implies match #[trigger] claim_of(t0, roots0, nms, hwg, i) {
                    Some(m2) => state.tree.valid(m2 as int) && state.tree.is_monitor(m2 as int)
                        && native_of(state.tree, m2 as int) == nms[i]
                        && state.tree.children_of(root as int).contains(m2),
                    None => true,
                } by {
                    match claim_of(t0, roots0, nms, hwg, i) {
                        Some(m2) => {
                            assert(m2 as int != root as int) by {
                                assert(tpre.is_monitor(m2 as int));
                                assert(tpre.is_root_kind(root as int)) by {
                                    assert(tpre.node(root as int).kind == t0.node(root as int).kind);
                                    assert(t0.is_root_kind(root as int));
                                }
                            }
                            assert(state.tree.node(m2 as int) == tpre.node(m2 as int));
                            lemma_contains_push(tpre.children_of(root as int), id, m2);
                        },
                        None => {},
                    }
                }
                assert forall|j: int|
                    t0.valid(j) && j != root implies (#[trigger] state.tree.node(j)).children
                    == t0.node(j).children by {
                    assert(j != id as int);
                    assert(state.tree.node(j).children == tpre.node(j).children);
                }
            }
        }
        k += 1;
    }
    // Remove the nodes no native monitor claimed, but never the last
    // remaining monitor: with every display gone the single node stays
    // and is reconciled again when one returns.
    let pn = pending.len();
    let mut k: usize = 0;
    while k < pn
        invariant
            state.inv(),
            root == state.tree.root,
            root == old(state).tree.root,
            t0 == old(state).tree,
            roots0 == t0.children_of(root as int),
            rn as int == roots0.len(),
            nn == nms.len(),
            nms == native_monitors@,
            hwg == hw_ids_of(nms),
            pn == pending@.len(),
            0 <= k <= pn,
            rn >= 1 ==> state.tree.children_of(root as int).len() >= 1,
            nn >= 1 ==> state.tree.children_of(root as int).len() as int == nn as int + (pn as int
                - k as int),
            nn == 0 ==> pn as int == rn as int && state.tree.children_of(root as int).len() as int
                == (if rn as int - k as int >= 1 {
                rn as int - k as int
            } else if rn >= 1 {
                1int
            } else {
                0int
            }),
            state.tree.nodes@.len() == t0.nodes@.len() + newly_added@.len(),
            un <= p2 ==> newly_added@.len() == 0,
            forall|j: int|
                0 <= j < newly_added@.len() ==> #[trigger] newly_added@[j] as int
                    >= t0.nodes@.len(),
            all_different(pending@),
            forall|j: int|
                k <= j < pn ==> state.tree.children_of(root as int).contains(
                    #[trigger] pending@[j],
                ),
            forall|j: int|
                0 <= j < pn ==> pool_after(t0, roots0, nms, hwg, nn as int).contains(
                    #[trigger] pending@[j],
                ),
            forall|i: int|
                0 <= i < nn && #[trigger] claim_of(t0, roots0, nms, hwg, i) is Some
                    ==> !pool_after(t0, roots0, nms, hwg, nn as int).contains(
                    claim_of(t0, roots0, nms, hwg, i)->Some_0,
                ),
            forall|i: int|
                0 <= i < nn ==> match #[trigger] claim_of(t0, roots0, nms, hwg, i) {
                    Some(m) => state.tree.valid(m as int) && state.tree.is_monitor(m as int)
                        && native_of(state.tree, m as int) == nms[i]
                        && state.tree.children_of(root as int).contains(m),
                    None => true,
                },
            forall|j: int|
                t0.valid(j) && t0.is_window(j) ==> #[trigger] state.tree.node(j) == t0.node(j),
            all_claimed(t0, roots0, nms, hwg) ==> (pn == 0 && newly_added@.len() == 0
                && state.tree.nodes@.len() == t0.nodes@.len() && state.tree.children_of(
                root as int,
            ) == roots0 && state.events@ == old(state).events@ + pass1_events(
                t0,
                roots0,
                nms,
                hwg,
                nn as int,
            ) && (forall|j: int|
                t0.valid(j) ==> (#[trigger] state.tree.node(j)).parent == t0.node(j).parent) && (
            forall|j: int|
                t0.valid(j) && j != root ==> (#[trigger] state.tree.node(j)).children == t0.node(
                    j,
                ).children) && (forall|j: int|
                t0.valid(j) && !t0.is_monitor(j) && j != root ==> #[trigger] state.tree.node(j)
                    == t0.node(j))),
        decreases pn - k,
    {
        let m = pending[k];
        proof {
            assert(state.tree.children_of(root as int).contains(m));
            assert(state.tree.wf_node(root as int));
            assert(state.tree.node(m as int).parent == Some(root));
            assert(state.tree.wf_node(m as int));
            assert(state.tree.is_root_kind(root as int));
            assert(state.tree.node(m as int).kind is Monitor);
        }
        if state.tree.child_count(root) != 1 {
            let ghost tpre = state.tree;
            let res = remove_monitor(state, m, config);
            proof {
                let cs = tpre.children_of(root as int);
                // With at least two distinct children another monitor
                // exists, so the removal cannot fail.
                assert(res is Ok) by {
                    if res is Err {
                        let im = cs.index_of(m);
                        assert(0 <= im < cs.len() && cs[im] == m);
                        let other = if im == 0 {
                            1int
                        } else {
                            0int
                        };
                        assert(cs[other] == m);
                        assert(cs[other] != cs[im]);
                    }
                }
                crate::tree::lemma_remove_index(cs, cs.index_of(m));
                assert(state.tree.children_of(root as int).len() == cs.len() - 1);
                // The remaining pool entries and every claimed node are
                // still root children, their identities untouched.
                assert forall|j: int|
                    k + 1 <= j < pn implies state.tree.children_of(root as int).contains(
                    #[trigger] pending@[j],
                ) by {
                    let im = cs.index_of(m);
                    let a2 = choose|a2: int| 0 <= a2 < cs.len() && cs[a2] == pending@[j];
                    assert(pending@[j] != m) by {
                        if j > k as int {
                            assert(pending@[k as int] != pending@[j]);
                        }
                    }
                    assert(a2 != im);
                    if a2 < im {
                        assert(state.tree.children_of(root as int)[a2] == cs[a2]);
                    } else {
                        assert(state.tree.children_of(root as int)[a2 - 1] == cs[a2]);
                    }
                }
                assert forall|i: int|
                    0 <= i < nn implies match #[trigger] claim_of(t0, roots0, nms, hwg, i) {
                    Some(m2) => state.tree.valid(m2 as int) && state.tree.is_monitor(m2 as int)
                        && native_of(state.tree, m2 as int) == nms[i]
                        && state.tree.children_of(root as int).contains(m2),
                    None => true,
                } by {
                    match claim_of(t0, roots0, nms, hwg, i) {
                        Some(m2) => {
                            assert(m2 != m) by {
                                assert(pool_after(t0, roots0, nms, hwg, nn as int).contains(m));
                            }
                            assert(tpre.valid(m2 as int) && tpre.is_monitor(m2 as int));
                            assert(state.tree.node(m2 as int).kind == tpre.node(m2 as int).kind);
                            assert(native_of(state.tree, m2 as int) == native_of(
                                tpre,
                                m2 as int,
                            ));
                            assert(state.tree.children_of(root as int).contains(m2)) by {
                                let im = cs.index_of(m);
                                let a2 = choose|a2: int| 0 <= a2 < cs.len() && cs[a2] == m2;
                                assert(a2 != im);
                                if a2 < im {
                                    assert(state.tree.children_of(root as int)[a2] == cs[a2]);
                                } else {
                                    assert(state.tree.children_of(root as int)[a2 - 1] == cs[a2]);
                                }
                            }
                        },
                        None => {},
                    }
                }
            }
        } else {
            proof {
                // The guard fires only with every display gone and one
                // node left.
                if nn >= 1 {
                    assert(state.tree.children_of(root as int).len() as int >= nn as int + 1);
                    assert(false);
                }
            }
        }
        k += 1;
    }
    // Sort the monitors by physical position before any workspace is
    // bound, so binding sees final sorted indices.
    let ghost t_presort = state.tree;
    sort_monitors(state);
    proof {
        assert forall|i: int|
            0 <= i < nn implies match #[trigger] claim_of(t0, roots0, nms, hwg, i) {
            Some(m) => state.tree.valid(m as int) && state.tree.is_monitor(m as int) && native_of(
                state.tree,
                m as int,
            ) == nms[i] && state.tree.children_of(root as int).contains(m),
            None => true,
        } by {
            match claim_of(t0, roots0, nms, hwg, i) {
                Some(m) => {
                    assert(m as int != root as int) by {
                        assert(t_presort.is_monitor(m as int));
                        assert(t_presort.is_root_kind(root as int));
                    }
                    assert(state.tree.node(m as int) == t_presort.node(m as int));
                },
                None => {},
            }
        }
        assert forall|j: int|
            t0.valid(j) && t0.is_window(j) implies #[trigger] state.tree.node(j) == t0.node(
            j,
        ) by {
            assert(t_presort.node(j) == t0.node(j));
            assert(j != root as int) by {
                assert(t0.is_root_kind(root as int));
            }
        }
    }
    // Bind a workspace to each newly created monitor from the first
    // configuration entry not active anywhere.
    let an = newly_added.len();
    let mut k: usize = 0;
    while k < an
        invariant
            state.inv(),
            root == state.tree.root,
            root == old(state).tree.root,
            t0 == old(state).tree,
            roots0 == t0.children_of(root as int),
            rn as int == roots0.len(),
            nn == nms.len(),
            nms == native_monitors@,
            hwg == hw_ids_of(nms),
            an == newly_added@.len(),
            0 <= k <= an,
            t0.wf(),
            un <= p2 ==> an == 0,
            p2 as int == rn as int + un as int - nn as int,
            forall|j: int|
                0 <= j < an ==> #[trigger] newly_added@[j] as int >= t0.nodes@.len(),
            state.tree.nodes@.len() >= t0.nodes@.len(),
            rn >= 1 ==> state.tree.children_of(root as int).len() >= 1,
            nn >= 1 ==> state.tree.children_of(root as int).len() as int == nn as int,
            nn == 0 && rn >= 1 ==> state.tree.children_of(root as int).len() == 1,
            forall|i: int|
                0 <= i < nn ==> match #[trigger] claim_of(t0, roots0, nms, hwg, i) {
                    Some(m) => state.tree.valid(m as int) && state.tree.is_monitor(m as int)
                        && native_of(state.tree, m as int) == nms[i]
                        && state.tree.children_of(root as int).contains(m),
                    None => true,
                },
            forall|j: int|
                t0.valid(j) && t0.is_window(j) ==> #[trigger] state.tree.node(j) == t0.node(j),
            monitors_sorted(state.tree, state.tree.children_of(root as int)),
            all_claimed(t0, roots0, nms, hwg) ==> (an == 0 && state.tree.nodes@.len()
                == t0.nodes@.len() && state.events@ == old(state).events@ + pass1_events(
                t0,
                roots0,
                nms,
                hwg,
                nn as int,
            ) && (forall|x: usize|
                #[trigger] state.tree.children_of(root as int).contains(x) <==> roots0.contains(
                    x,
                )) && (forall|j: int|
                t0.valid(j) ==> (#[trigger] state.tree.node(j)).parent == t0.node(j).parent) && (
            forall|j: int|
                t0.valid(j) && j != root ==> (#[trigger] state.tree.node(j)).children == t0.node(
                    j,
                ).children) && (forall|j: int|
                t0.valid(j) && !t0.is_monitor(j) && j != root ==> #[trigger] state.tree.node(j)
                    == t0.node(j))),
        decreases an - k,
    {
        let m = newly_added[k];
        let ghost t_bind0 = state.tree;
        if m < state.tree.nodes.len() {
            if matches!(&state.tree.nodes[m].kind, NodeKind::Monitor(_)) {
                match bind_workspace_to_monitor(state, m, config) {
                    Ok(()) => {},
                    Err(e) => {
                        proof {
                            // A creation happened, so more natives than
                            // nodes existed and not all were claimed.
                            assert(!(un <= p2));
                            assert(!(nn as int <= rn as int));
                            assert(!all_claimed(t0, roots0, nms, hwg));
                        }
                        return Err(e);
                    },
                }
                proof {
                    assert forall|i: int|
                        0 <= i < nn implies match #[trigger] claim_of(t0, roots0, nms, hwg, i) {
                        Some(m2) => state.tree.valid(m2 as int) && state.tree.is_monitor(m2 as int)
                            && native_of(state.tree, m2 as int) == nms[i]
                            && state.tree.children_of(root as int).contains(m2),
                        None => true,
                    } by {
                        match claim_of(t0, roots0, nms, hwg, i) {
                            Some(m2) => {
                                assert(m2 as int != m as int) by {
                                    lemma_claim_matches(t0, roots0, nms, hwg, i);
                                    assert(roots0.contains(m2));
                                    assert(t0.wf_node(root as int));
                                    let a = choose|a: int|
                                        0 <= a < roots0.len() && roots0[a] == m2;
                                    assert(t0.valid(m2 as int));
                                    assert((m2 as int) < t0.nodes@.len());
                                }
                                assert(state.tree.node(m2 as int) == t_bind0.node(m2 as int));
                            },
                            None => {},
                        }
                    }
                    assert forall|j: int|
                        t0.valid(j) && t0.is_window(j) implies #[trigger] state.tree.node(j)
                        == t0.node(j) by {
                        assert(j != m as int) by {
                            assert(j < t0.nodes@.len());
                        }
                        assert(state.tree.node(j) == t_bind0.node(j));
                    }
                    assert(monitors_sorted(state.tree, state.tree.children_of(root as int))) by {
                        let cs = state.tree.children_of(root as int);
                        assert(cs == t_bind0.children_of(root as int));
                        assert forall|i2: int, j2: int|
                            #![trigger cs[i2], cs[j2]]
                            0 <= i2 < j2 < cs.len() implies monitor_pos_le(
                            state.tree,
                            cs[i2] as int,
                            cs[j2] as int,
                        ) by {
                            assert(monitor_pos_le(t_bind0, cs[i2] as int, cs[j2] as int));
                            assert(state.tree.node(cs[i2] as int).kind == t_bind0.node(
                                cs[i2] as int,
                            ).kind) by {
                                if cs[i2] as int != m as int {
                                    assert(state.tree.node(cs[i2] as int) == t_bind0.node(
                                        cs[i2] as int,
                                    ));
                                }
                            }
                            assert(state.tree.node(cs[j2] as int).kind == t_bind0.node(
                                cs[j2] as int,
                            ).kind) by {
                                if cs[j2] as int != m as int {
                                    assert(state.tree.node(cs[j2] as int) == t_bind0.node(
                                        cs[j2] as int,
                                    ));
                                }
                            }
                        }
                    }
                }
            }
        }
        k += 1;
    }
    // Every window gets a DPI re-check, floating placements that no
    // longer overlap their workspace's monitor are recentred, and the
    // whole tree is marked for redraw once.
    let ghost t_mid = state.tree;
    let ghost evs_mid = state.events@;
    finish_display_change(state);
    proof {
        let tf = state.tree;
        // The refresh rewrites windows only: every other node stands.
        assert forall|j: int|
            t_mid.valid(j) && !t_mid.is_window(j) implies #[trigger] tf.node(j) == t_mid.node(
            j,
        ) by {
            reveal(refreshed_node);
            assert(tf.node(j) == refreshed_node(t_mid, j));
        }
        assert(tf.node(root as int).children == t_mid.node(root as int).children) by {
            assert(!t_mid.is_window(root as int)) by {
                assert(t_mid.is_root_kind(root as int));
            }
        }
        // The claims survive: monitors are not windows.
        assert forall|i: int|
            0 <= i < nn implies match #[trigger] claim_of(t0, roots0, nms, hwg, i) {
            Some(m) => tf.valid(m as int) && tf.is_monitor(m as int) && native_of(tf, m as int)
                == nms[i] && tf.children_of(root as int).contains(m),
            None => true,
        } by {
            match claim_of(t0, roots0, nms, hwg, i) {
                Some(m) => {
                    assert(!t_mid.is_window(m as int));
                    assert(tf.node(m as int) == t_mid.node(m as int));
                },
                None => {},
            }
        }
        // So does the sorted order.
        assert(monitors_sorted(tf, tf.children_of(root as int))) by {
            let cs = tf.children_of(root as int);
            assert(cs == t_mid.children_of(root as int));
            assert forall|i2: int, j2: int|
                #![trigger cs[i2], cs[j2]]
                0 <= i2 < j2 < cs.len() implies monitor_pos_le(tf, cs[i2] as int, cs[j2] as int) by {
                assert(monitor_pos_le(t_mid, cs[i2] as int, cs[j2] as int));
                assert(t_mid.wf_node(root as int));
                assert(cs.contains(cs[i2]) && cs.contains(cs[j2]));
                assert(t_mid.node(cs[i2] as int).parent == Some(root));
                assert(t_mid.wf_node(cs[i2] as int));
                assert(t_mid.is_root_kind(root as int));
                assert(!t_mid.is_window(cs[i2] as int)) by {
                    assert(t_mid.node(cs[i2] as int).kind is Monitor);
                }
                assert(!t_mid.is_window(cs[j2] as int)) by {
                    assert(t_mid.node(cs[j2] as int).parent == Some(root));
                    assert(t_mid.wf_node(cs[j2] as int));
                    assert(t_mid.node(cs[j2] as int).kind is Monitor);
                }
                assert(tf.node(cs[i2] as int) == t_mid.node(cs[i2] as int));
                assert(tf.node(cs[j2] as int) == t_mid.node(cs[j2] as int));
            }
        }
        // The placement rule, stated against the starting windows.
        assert forall|i: int|
            t0.valid(i) && t0.is_window(i) && window_on_monitor(tf, i) implies {
            let w = tf.workspace_of(i)->Some_0;
            let m = tf.node(w).parent->Some_0 as int;
            (#[trigger] tf.window_of(i)).floating_placement == refreshed_placement(
                t0.window_of(i),
                native_of(tf, m).rect,
            ) && tf.window_of(i).has_pending_dpi_adjustment
        } by {
            assert(t_mid.node(i) == t0.node(i));
            assert(tf.node(i) == refreshed_node(t_mid, i));
            Tree::lemma_workspace_of_congruent(t_mid, tf, i);
            assert(tf.workspace_of(i) == t_mid.workspace_of(i));
            let w = tf.workspace_of(i)->Some_0;
            Tree::lemma_workspace_of_valid(tf, i);
            assert(tf.node(w).parent == t_mid.node(w).parent);
            assert(window_on_monitor(t_mid, i)) by {
                assert(t_mid.is_window(i));
            }
            let m = t_mid.node(w).parent->Some_0 as int;
            assert(t_mid.valid(w));
            assert(t_mid.wf_node(w as int));
            assert(t_mid.valid(m));
            assert(!t_mid.is_window(m)) by {
                assert(Tree::child_kind_ok(t_mid.node(m).kind, t_mid.node(w).kind));
                assert(t_mid.is_workspace(w)) by {
                    Tree::lemma_workspace_of_valid(t_mid, i);
                }
            }
            assert(tf.node(m) == t_mid.node(m));
            assert(native_of(tf, m) == native_of(t_mid, m));
            assert(t_mid.window_of(i) == t0.window_of(i));
            assert(tf.window_of(i).floating_placement == refreshed_placement(
                t0.window_of(i),
                native_of(tf, m).rect,
            ) && tf.window_of(i).has_pending_dpi_adjustment) by {
                reveal(refreshed_node);
            }
        }
        // A churn-free change left every workspace exactly in place.
        if all_claimed(t0, roots0, nms, hwg) {
            assert(tf.nodes@.len() == t0.nodes@.len());
            assert forall|j: int|
                t0.valid(j) implies (#[trigger] tf.node(j)).parent == t0.node(j).parent by {
                assert(t_mid.node(j).parent == t0.node(j).parent);
                assert(tf.node(j).parent == t_mid.node(j).parent);
            }
            assert forall|j: int|
                t0.valid(j) && j != root implies (#[trigger] tf.node(j)).children == t0.node(
                j,
            ).children by {
                assert(t_mid.node(j).children == t0.node(j).children);
                assert(tf.node(j).children == t_mid.node(j).children);
            }
            assert forall|j: int|
                t0.valid(j) && t0.is_workspace(j) implies #[trigger] tf.node(j) == t0.node(j) by {
                assert(j != root as int) by {
                    assert(t0.is_root_kind(root as int));
                }
                assert(t_mid.node(j) == t0.node(j));
                assert(!t_mid.is_window(j));
                assert(tf.node(j) == t_mid.node(j));
            }
            assert forall|x: usize|
                #[trigger] tf.children_of(root as int).contains(x) <==> roots0.contains(x) by {
                assert(tf.node(root as int).children == t_mid.node(root as int).children);
            }
            assert(tf.nodes@.len() == t_mid.nodes@.len());
            assert(state.events@ == evs_mid);
        }
    }
    Ok(())
}

/// Close a display-change operation: refresh every window's DPI flag
/// and floating placement, then mark the whole tree for one redraw.
#[verifier::rlimit(100)]
fn finish_display_change(state: &mut WmState)
    requires
        old(state).inv(),
    ensures
        final(state).inv(),
        final(state).tree.root == old(state).tree.root,
        final(state).tree.nodes@.len() == old(state).tree.nodes@.len(),
        final(state).tree.children_of(final(state).tree.root as int).len() == old(
            state,
        ).tree.children_of(old(state).tree.root as int).len(),
        final(state).pending_sync.containers_to_redraw@.contains(final(state).tree.root),
        forall|i: int|
            final(state).tree.valid(i) && final(state).tree.is_window(i) && (match final(state).tree.workspace_of(i) {
                Some(w) => final(state).tree.node(w).parent is Some,
                None => false,
            }) ==> (#[trigger] final(state).tree.window_of(i)).has_pending_dpi_adjustment,
        forall|i: int|
            old(state).tree.valid(i) ==> #[trigger] final(state).tree.node(i) == refreshed_node(
                old(state).tree,
                i,
            ),
        forall|i: int|
            old(state).tree.valid(i) ==> (#[trigger] final(state).tree.node(i)).parent == old(
                state,
            ).tree.node(i).parent && final(state).tree.node(i).children == old(state).tree.node(
                i,
            ).children && final(state).tree.node(i).depth == old(state).tree.node(i).depth
                && Tree::kind_same_variant(old(state).tree.node(i).kind, final(state).tree.node(i).kind),
        final(state).events == old(state).events,
        final(state).focus_order == old(state).focus_order,
        final(state).fullscreen_cooldowns == old(state).fullscreen_cooldowns,
        final(state).minimize_requests == old(state).minimize_requests,
        final(state).pending_sync.workspaces_to_reorder == old(
            state,
        ).pending_sync.workspaces_to_reorder,
{
    let ghost t_refresh = state.tree;
    refresh_windows_after_display_change(state);
    proof {
        assert forall|i: int|
            state.tree.valid(i) && state.tree.is_window(i) && (match state.tree.workspace_of(i) {
                Some(w) => state.tree.node(w).parent is Some,
                None => false,
            }) implies (#[trigger] state.tree.window_of(i)).has_pending_dpi_adjustment by {
            Tree::lemma_workspace_of_congruent(t_refresh, state.tree, i);
            assert(t_refresh.workspace_of(i) == state.tree.workspace_of(i));
            Tree::lemma_variant_tiling(t_refresh.node(i).kind, state.tree.node(i).kind);
            assert(t_refresh.is_window(i));
            assert(window_on_monitor(t_refresh, i)) by {
                let w = state.tree.workspace_of(i)->Some_0;
                Tree::lemma_workspace_of_valid(state.tree, i);
                assert(state.tree.valid(w));
                assert(state.tree.node(w).parent == t_refresh.node(w).parent);
            }
            assert(state.tree.node(i) == refreshed_node(t_refresh, i));
            assert((state.tree.window_of(i)).has_pending_dpi_adjustment) by {
                reveal(refreshed_node);
            }
        }
        assert(state.tree.node(state.tree.root as int).children == t_refresh.node(
            t_refresh.root as int,
        ).children);
    }
    let root = state.tree.root;
    state.pending_sync.queue_container_to_redraw(root);
}

/// Activate the first configured workspace not already active
/// anywhere, as the sole workspace of a new monitor.
fn bind_workspace_to_monitor(state: &mut WmState, monitor: usize, config: &UserConfig) -> (r:
    Result<(), WmError>)
    requires
        old(state).inv(),
        old(state).tree.valid(monitor as int),
        old(state).tree.is_monitor(monitor as int),
    ensures
        final(state).inv(),
        final(state).tree.root == old(state).tree.root,
        final(state).tree.children_of(old(state).tree.root as int) == old(
            state,
        ).tree.children_of(old(state).tree.root as int),
        r is Err ==> r == Err::<(), WmError>(WmError::NoWorkspaceConfig),
        old(state).tree.nodes@.len() <= final(state).tree.nodes@.len() <= old(
            state,
        ).tree.nodes@.len() + 1,
        forall|j: int|
            old(state).tree.valid(j) && j != monitor ==> #[trigger] final(state).tree.node(j)
                == old(state).tree.node(j),
        final(state).tree.node(monitor as int).kind == old(state).tree.node(monitor as int).kind,
        final(state).tree.node(monitor as int).parent == old(state).tree.node(
            monitor as int,
        ).parent,
        final(state).tree.node(monitor as int).depth == old(state).tree.node(
            monitor as int,
        ).depth,
        final(state).events == old(state).events,
        final(state).pending_sync == old(state).pending_sync,
        final(state).focus_order == old(state).focus_order,
        final(state).fullscreen_cooldowns == old(state).fullscreen_cooldowns,
        final(state).minimize_requests == old(state).minimize_requests,
{
    let cn = config.workspaces.len();
    let mut idx: usize = 0;
    while idx < cn
        invariant
            state.inv(),
            *state == *old(state),
            state.tree.valid(monitor as int),
            state.tree.is_monitor(monitor as int),
            cn == config.workspaces@.len(),
            0 <= idx <= cn,
        decreases cn - idx,
    {
        // Is this configuration entry already active on some node?
        let mut used = false;
        let mut j: usize = 0;
        let n = state.tree.nodes.len();
        while j < n
            invariant
                *state == *old(state),
                state.inv(),
                n == state.tree.nodes@.len(),
                0 <= j <= n,
            decreases n - j,
        {
            match &state.tree.nodes[j].kind {
                NodeKind::Workspace(info) => {
                    if info.config_index == idx && state.tree.nodes[j].parent.is_some() {
                        used = true;
                    }
                },
                _ => {},
            }
            j += 1;
        }
        if !used {
            let keep_alive = config.workspaces[idx].keep_alive;
            let ghost tpre = state.tree;
            let _w = state.tree.add_child(
                monitor,
                NodeKind::Workspace(
                    WorkspaceInfo { config_index: idx, keep_alive, displayed: true },
                ),
            );
            proof {
                assert(state.tree.children_of(state.tree.root as int) == tpre.children_of(
                    tpre.root as int,
                )) by {
                    assert(state.tree.root != monitor) by {
                        assert(tpre.node(tpre.root as int).kind is Root);
                    }
                }
            }
            return Ok(());
        }
        idx += 1;
    }
    Err(WmError::NoWorkspaceConfig)
}


/// The placement a floating window keeps after a display change: its
/// own, when the user chose it and it still overlaps the monitor's
/// rectangle on both axes; recentred within that rectangle otherwise.
pub open spec fn refreshed_placement(info: crate::tree::WindowInfo, mrect: crate::geometry::Rect) -> crate::geometry::Rect {
    if info.has_custom_floating_placement && info.floating_placement.spec_overlap_x(mrect)
        && info.floating_placement.spec_overlap_y(mrect) {
        info.floating_placement
    } else {
        info.floating_placement.spec_centered_in(mrect)
    }
}

/// Whether a window belongs, through its workspace, to a monitor.
pub open spec fn window_on_monitor(t: Tree, i: int) -> bool {
    &&& t.valid(i)
    &&& t.is_window(i)
    &&& match t.workspace_of(i) {
        Some(w) => t.node(w).parent is Some,
        None => false,
    }
}

/// The node a display change leaves at slot `i`: a window on a monitor
/// is flagged for a DPI re-check and has its floating placement
/// refreshed against that monitor's rectangle; everything else stays.
#[verifier::opaque]
pub open spec fn refreshed_node(t: Tree, i: int) -> crate::tree::Node {
    if window_on_monitor(t, i) {
        let w = t.workspace_of(i)->Some_0;
        let m = t.node(w).parent->Some_0 as int;
        let info = t.window_of(i);
        let info2 = crate::tree::WindowInfo {
            has_pending_dpi_adjustment: true,
            floating_placement: refreshed_placement(info, native_of(t, m).rect),
            ..info
        };
        crate::tree::Node {
            kind: if t.is_tiling_window(i) {
                NodeKind::TilingWindow(info2)
            } else {
                NodeKind::NonTilingWindow(info2)
            },
            ..t.node(i)
        }
    } else {
        t.node(i)
    }
}

/// Flag every window that sits in a workspace of some monitor for a
/// DPI re-check and refresh its floating placement: kept when the user
/// chose it and it still overlaps the monitor, recentred otherwise.
#[verifier::rlimit(100)]
pub fn refresh_windows_after_display_change(state: &mut WmState)
    requires
        old(state).inv(),
    ensures
        final(state).inv(),
        final(state).tree.root == old(state).tree.root,
        final(state).tree.nodes@.len() == old(state).tree.nodes@.len(),
        final(state).pending_sync == old(state).pending_sync,
        final(state).events == old(state).events,
        final(state).focus_order == old(state).focus_order,
        final(state).fullscreen_cooldowns == old(state).fullscreen_cooldowns,
        final(state).minimize_requests == old(state).minimize_requests,
        forall|i: int|
            old(state).tree.valid(i) ==> #[trigger] final(state).tree.node(i) == refreshed_node(
                old(state).tree,
                i,
            ),
        forall|i: int|
            old(state).tree.valid(i) ==> (#[trigger] final(state).tree.node(i)).parent == old(
                state,
            ).tree.node(i).parent && final(state).tree.node(i).children == old(state).tree.node(
                i,
            ).children && final(state).tree.node(i).depth == old(state).tree.node(i).depth
                && Tree::kind_same_variant(old(state).tree.node(i).kind, final(state).tree.node(i).kind),
{
    let ghost t0 = state.tree;
    let n = state.tree.nodes.len();
    let mut i: usize = 0;
    while i < n
        invariant
            state.inv(),
            n == state.tree.nodes@.len(),
            n == t0.nodes@.len(),
            state.tree.root == t0.root,
            0 <= i <= n,
            state.pending_sync == old(state).pending_sync,
            state.events == old(state).events,
            state.focus_order == old(state).focus_order,
            state.fullscreen_cooldowns == old(state).fullscreen_cooldowns,
            state.minimize_requests == old(state).minimize_requests,
            t0.wf(),
            forall|j: int|
                t0.valid(j) ==> (#[trigger] state.tree.node(j)).parent == t0.node(j).parent
                    && state.tree.node(j).children == t0.node(j).children && state.tree.node(
                    j,
                ).depth == t0.node(j).depth && Tree::kind_same_variant(
                    t0.node(j).kind,
                    state.tree.node(j).kind,
                ),
            forall|j: int| 0 <= j < i ==> #[trigger] state.tree.node(j) == refreshed_node(t0, j),
            forall|j: int| i <= j < n ==> #[trigger] state.tree.node(j) == t0.node(j),
        decreases n - i,
    {
        let is_win = matches!(
            &state.tree.nodes[i].kind,
            NodeKind::TilingWindow(_) | NodeKind::NonTilingWindow(_)
        );
        proof {
            Tree::lemma_workspace_of_congruent(t0, state.tree, i as int);
        }
        let ghost tprev = state.tree;
        if is_win {
            match state.tree.find_workspace(i) {
                Some(w) => {
                    match state.tree.parent_of(w) {
                        Some(m) => {
                            proof {
                                assert(state.tree.wf_node(w as int));
                                assert(t0.node(m as int) == state.tree.node(m as int)) by {
                                    reveal(refreshed_node);
                                    if (m as int) < i as int {
                                        assert(state.tree.node(m as int) == refreshed_node(
                                            t0,
                                            m as int,
                                        ));
                                        assert(!t0.is_window(m as int)) by {
                                            assert(Tree::kind_same_variant(
                                                t0.node(m as int).kind,
                                                state.tree.node(m as int).kind,
                                            ));
                                            Tree::lemma_variant_tiling(
                                                t0.node(m as int).kind,
                                                state.tree.node(m as int).kind,
                                            );
                                            assert(state.tree.is_workspace(w as int));
                                            assert(state.tree.wf_node(w as int));
                                            assert(Tree::child_kind_ok(
                                                state.tree.node(m as int).kind,
                                                state.tree.node(w as int).kind,
                                            ));
                                        }
                                    }
                                }
                                assert(state.tree.is_monitor(m as int)) by {
                                    assert(state.tree.wf_node(w as int));
                                    assert(Tree::child_kind_ok(
                                        state.tree.node(m as int).kind,
                                        state.tree.node(w as int).kind,
                                    ));
                                    assert(state.tree.is_workspace(w as int));
                                    assert(state.tree.node(m as int).kind is Monitor);
                                }
                            }
                            let mrect = match &state.tree.nodes[m].kind {
                                NodeKind::Monitor(info) => info.rect,
                                _ => {
                                    proof {
                                        assert(false);
                                    }
                                    crate::geometry::Rect { x: 0, y: 0, width: 0, height: 0 }
                                },
                            };
                            proof {
                                assert(state.tree.wf_node(m as int));
                                assert(mrect.bounded());
                                assert(state.tree.wf_node(i as int));
                                assert(mrect == native_of(t0, m as int).rect);
                            }
                            let info = state.tree.window_info(i);
                            let keep = info.has_custom_floating_placement
                                && info.floating_placement.has_overlap_x(&mrect)
                                && info.floating_placement.has_overlap_y(&mrect);
                            let placement = if keep {
                                info.floating_placement
                            } else {
                                info.floating_placement.translate_to_center(&mrect)
                            };
                            let new_info = crate::tree::WindowInfo {
                                has_pending_dpi_adjustment: true,
                                floating_placement: placement,
                                ..info
                            };
                            state.tree.set_window_info(i, new_info);
                            proof {
                                assert(window_on_monitor(t0, i as int)) by {
                                    assert(tprev.workspace_of(i as int) == Some(w as int));
                                    assert(t0.workspace_of(i as int) == Some(w as int));
                                    assert(t0.node(w as int).parent == Some(m));
                                }
                                assert(state.tree.node(i as int) == refreshed_node(t0, i as int))
                                    by {
                                    reveal(refreshed_node);
                                    assert(info == t0.window_of(i as int));
                                    assert(placement == refreshed_placement(
                                        t0.window_of(i as int),
                                        native_of(t0, m as int).rect,
                                    ));
                                }
                            }
                        },
                        None => {
                            proof {
                                assert(state.tree.node(i as int) == refreshed_node(t0, i as int))
                                    by {
                                    reveal(refreshed_node);
                                    assert(!window_on_monitor(t0, i as int)) by {
                                        assert(t0.workspace_of(i as int) == tprev.workspace_of(
                                            i as int,
                                        ));
                                    }
                                }
                            }
                        },
                    }
                },
                None => {
                    proof {
                        assert(state.tree.node(i as int) == refreshed_node(t0, i as int)) by {
                            reveal(refreshed_node);
                            assert(!window_on_monitor(t0, i as int)) by {
                                assert(t0.workspace_of(i as int) == tprev.workspace_of(i as int));
                            }
                        }
                    }
                },
            }
        } else {
            proof {
                assert(state.tree.node(i as int) == refreshed_node(t0, i as int)) by {
                    reveal(refreshed_node);
                    assert(!t0.is_window(i as int)) by {
                        Tree::lemma_variant_tiling(t0.node(i as int).kind, tprev.node(i as int).kind);
                    }
                }
            }
        }
        proof {
            assert forall|j: int|
                i as int + 1 <= j < n implies #[trigger] state.tree.node(j) == t0.node(j) by {
                assert(state.tree.node(j) == tprev.node(j));
            }
            assert forall|j: int|
                0 <= j < i as int + 1 implies #[trigger] state.tree.node(j) == refreshed_node(
                t0,
                j,
            ) by {
                if j < i as int {
                    assert(state.tree.node(j) == tprev.node(j));
                }
            }
        }
        i += 1;
    }
}

} // verus!
