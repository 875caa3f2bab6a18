//! End-to-end checks of the container-tree engine: proportional
//! normalisation, the window state machine's round trip, monitor
//! matching and removal, and the display-change reconciliation.

use lavawm::geometry::Rect;
use lavawm::ipc::ContainerDto;
use lavawm::ipc::DEFAULT_IPC_PORT;
use lavawm::monitors::handle_display_settings_changed;
use lavawm::monitors::remove_monitor;
use lavawm::state::PendingSync;
use lavawm::state::UserConfig;
use lavawm::state::WmEvent;
use lavawm::state::WmState;
use lavawm::state::WorkspaceConfig;
use lavawm::tree::NativeMonitorInfo;
use lavawm::tree::NodeKind;
use lavawm::tree::Tree;
use lavawm::tree::WindowInfo;
use lavawm::tree::WindowState;
use lavawm::window_state::set_non_tiling;
use lavawm::window_state::set_tiling;
use lavawm::window_state::update_window_state;
use lavawm::WmError;
use lavawm::TILING_UNIT;

fn rect(x: i64, y: i64, w: i64, h: i64) -> Rect {
    Rect { x, y, width: w, height: h }
}

fn native(handle: u64, path: Option<&str>, hw: Option<&str>, x: i64) -> NativeMonitorInfo {
    NativeMonitorInfo {
        handle,
        device_path: path.map(|s| s.to_string()),
        hardware_id: hw.map(|s| s.to_string()),
        device_name: format!("DISPLAY{handle}"),
        rect: rect(x, 0, 1920, 1080),
    }
}

fn window_info(handle: u64) -> WindowInfo {
    WindowInfo {
        handle,
        tiling_size: TILING_UNIT,
        state: WindowState::Tiling,
        prev_state: None,
        insertion_target: None,
        floating_placement: rect(10, 10, 800, 600),
        has_custom_floating_placement: false,
        has_pending_dpi_adjustment: false,
    }
}

fn fresh_state() -> WmState {
    WmState {
        tree: Tree::new(),
        pending_sync: PendingSync::new(),
        events: Vec::new(),
        focus_order: Vec::new(),
        fullscreen_cooldowns: Vec::new(),
        minimize_requests: Vec::new(),
    }
}

fn config() -> UserConfig {
    UserConfig {
        workspaces: vec![
            WorkspaceConfig { keep_alive: false },
            WorkspaceConfig { keep_alive: false },
            WorkspaceConfig { keep_alive: false },
        ],
    }
}

/// A monitor with one displayed workspace; returns (monitor, workspace).
fn add_monitor_with_workspace(state: &mut WmState, nm: NativeMonitorInfo) -> (usize, usize) {
    let root = state.tree.root;
    let m = state.tree.add_child(root, NodeKind::Monitor(nm));
    let w = state.tree.add_child(
        m,
        NodeKind::Workspace(lavawm::tree::WorkspaceInfo {
            config_index: 0,
            keep_alive: false,
            displayed: true,
        }),
    );
    (m, w)
}

fn share(state: &WmState, id: usize) -> u64 {
    state.tree.node_share(id)
}

#[test]
fn tiling_shares_sum_to_unit_after_adds() {
    let mut state = fresh_state();
    let (_m, ws) = add_monitor_with_workspace(&mut state, native(1, None, None, 0));
    let w1 = state.tree.add_child(ws, NodeKind::TilingWindow(window_info(100)));
    assert_eq!(share(&state, w1), TILING_UNIT);
    let w2 = state.tree.add_child(ws, NodeKind::TilingWindow(window_info(101)));
    assert_eq!(share(&state, w1) + share(&state, w2), TILING_UNIT);
    let w3 = state.tree.add_child(ws, NodeKind::TilingWindow(window_info(102)));
    assert_eq!(share(&state, w1) + share(&state, w2) + share(&state, w3), TILING_UNIT);
}

#[test]
fn resize_gives_exact_share_and_keeps_sum() {
    let mut state = fresh_state();
    let (_m, ws) = add_monitor_with_workspace(&mut state, native(1, None, None, 0));
    let w1 = state.tree.add_child(ws, NodeKind::TilingWindow(window_info(100)));
    let w2 = state.tree.add_child(ws, NodeKind::TilingWindow(window_info(101)));
    state.tree.resize_tiling_container(w1, 7000).unwrap();
    assert_eq!(share(&state, w1), 7000);
    assert_eq!(share(&state, w1) + share(&state, w2), TILING_UNIT);
}

#[test]
fn self_transition_is_a_no_op() {
    let mut state = fresh_state();
    let (_m, ws) = add_monitor_with_workspace(&mut state, native(1, None, None, 0));
    let w1 = state.tree.add_child(ws, NodeKind::TilingWindow(window_info(100)));
    let events_before = state.events.len();
    let r = update_window_state(&mut state, w1, WindowState::Tiling, false, 5);
    assert_eq!(r, Ok(w1));
    assert_eq!(state.events.len(), events_before);
    assert!(state.pending_sync.containers_to_redraw.is_empty());
    assert!(state.fullscreen_cooldowns.is_empty());
}

#[test]
fn round_trip_restores_exact_share_with_same_siblings() {
    let mut state = fresh_state();
    let (_m, ws) = add_monitor_with_workspace(&mut state, native(1, None, None, 0));
    let w1 = state.tree.add_child(ws, NodeKind::TilingWindow(window_info(100)));
    let w2 = state.tree.add_child(ws, NodeKind::TilingWindow(window_info(101)));
    state.tree.resize_tiling_container(w1, 3600).unwrap();
    assert_eq!(share(&state, w1), 3600);
    // Leave tiling, then return with the sibling count unchanged.
    let nt = set_non_tiling(&mut state, w1, WindowState::Floating(rect(0, 0, 10, 10)), false)
        .unwrap();
    let back = set_tiling(&mut state, nt).unwrap();
    assert_eq!(share(&state, back), 3600);
    assert_eq!(share(&state, back) + share(&state, w2), TILING_UNIT);
    // The remembered target placed the window back at its old slot,
    // and the transition marked the workspace and its tiling children.
    assert_eq!(state.tree.parent_of(back), Some(ws));
    assert_eq!(state.tree.child_at(ws, 0), back);
    assert!(state.pending_sync.workspaces_to_reorder.contains(&ws));
    assert!(state.pending_sync.containers_to_redraw.contains(&back));
    assert!(state.pending_sync.containers_to_redraw.contains(&w2));
}

#[test]
fn round_trip_scales_share_by_sibling_change() {
    let mut state = fresh_state();
    let (_m, ws) = add_monitor_with_workspace(&mut state, native(1, None, None, 0));
    let w1 = state.tree.add_child(ws, NodeKind::TilingWindow(window_info(100)));
    let _w2 = state.tree.add_child(ws, NodeKind::TilingWindow(window_info(101)));
    state.tree.resize_tiling_container(w1, 5000).unwrap();
    let nt = set_non_tiling(&mut state, w1, WindowState::Floating(rect(0, 0, 10, 10)), false)
        .unwrap();
    // A third window arrives while the first floats: one sibling
    // became two.
    let _w3 = state.tree.add_child(ws, NodeKind::TilingWindow(window_info(102)));
    let back = set_tiling(&mut state, nt).unwrap();
    // prev 5000 with 1 sibling, now 2 siblings: 5000 * 2 / 3.
    assert_eq!(share(&state, back), 5000 * 2 / 3);
}

#[test]
fn minimize_needs_native_confirmation() {
    let mut state = fresh_state();
    let (_m, ws) = add_monitor_with_workspace(&mut state, native(1, None, None, 0));
    let w1 = state.tree.add_child(ws, NodeKind::TilingWindow(window_info(100)));
    let r = update_window_state(&mut state, w1, WindowState::Minimized, false, 0);
    assert_eq!(r, Ok(w1));
    // The logical state is unchanged; a native request was recorded.
    assert_eq!(state.minimize_requests, vec![100]);
}

#[test]
fn fullscreen_transition_records_cooldown() {
    let mut state = fresh_state();
    let (_m, ws) = add_monitor_with_workspace(&mut state, native(1, None, None, 0));
    let w1 = state.tree.add_child(ws, NodeKind::TilingWindow(window_info(100)));
    let r = update_window_state(
        &mut state,
        w1,
        WindowState::Fullscreen(rect(0, 0, 1920, 1080)),
        false,
        42,
    );
    assert!(r.is_ok());
    assert_eq!(state.fullscreen_cooldowns, vec![(100, 42)]);
}

#[test]
fn sole_monitor_is_never_removed() {
    let mut state = fresh_state();
    let (m, _ws) = add_monitor_with_workspace(&mut state, native(1, None, None, 0));
    let r = remove_monitor(&mut state, m, &config());
    assert_eq!(r, Err(WmError::NoTargetMonitor));
    // And the reconciler keeps the node when every display is gone.
    let natives: Vec<NativeMonitorInfo> = Vec::new();
    handle_display_settings_changed(&mut state, &config(), &natives).unwrap();
    assert_eq!(state.tree.child_count(state.tree.root), 1);
}

#[test]
fn removal_migrates_populated_workspace_and_emits_events() {
    let mut state = fresh_state();
    let (ma, w1) = add_monitor_with_workspace(&mut state, native(1, None, None, 0));
    let (mb, _wb) = add_monitor_with_workspace(&mut state, native(2, None, None, 1920));
    let _a = state.tree.add_child(w1, NodeKind::TilingWindow(window_info(100)));
    let _b = state.tree.add_child(w1, NodeKind::TilingWindow(window_info(101)));
    remove_monitor(&mut state, ma, &config()).unwrap();
    // W1 relocated under B; A detached and childless; the exact event
    // sequence went out and B's new workspace is marked for reorder.
    assert_eq!(state.tree.parent_of(w1), Some(mb));
    assert_eq!(state.tree.parent_of(ma), None);
    assert_eq!(state.tree.child_count(ma), 0);
    assert_eq!(
        state.events,
        vec![
            WmEvent::WorkspaceUpdated { updated_workspace: w1 },
            WmEvent::MonitorRemoved {
                removed_id: ma,
                removed_device_name: "DISPLAY1".to_string(),
            },
        ],
    );
    assert!(state.pending_sync.workspaces_to_reorder.contains(&w1));
    assert_eq!(state.tree.child_count(state.tree.root), 1);
}

#[test]
fn removal_deactivates_empty_workspace_instead_of_moving() {
    let mut state = fresh_state();
    let (ma, w2) = add_monitor_with_workspace(&mut state, native(1, None, None, 0));
    let (mb, _wb) = add_monitor_with_workspace(&mut state, native(2, None, None, 1920));
    remove_monitor(&mut state, ma, &config()).unwrap();
    // W2 was empty and not kept alive: deactivated, not moved to B,
    // and no longer marked as displayed.
    assert_eq!(state.tree.parent_of(w2), None);
    assert_ne!(state.tree.parent_of(w2), Some(mb));
    assert!(state.events.contains(&WmEvent::WorkspaceDeactivated { deactivated_workspace: w2 }));
    assert!(matches!(
        &state.tree.nodes[w2].kind,
        NodeKind::Workspace(info) if !info.displayed
    ));
}

#[test]
fn display_change_resorts_monitors_by_position() {
    let mut state = fresh_state();
    // Recorded right-to-left: the first node sits at x = 1920.
    let (ma, _wa) = add_monitor_with_workspace(&mut state, native(1, None, None, 1920));
    let (mb, _wb) = add_monitor_with_workspace(&mut state, native(2, None, None, 0));
    let natives = vec![native(1, None, None, 1920), native(2, None, None, 0)];
    handle_display_settings_changed(&mut state, &config(), &natives).unwrap();
    // Both nodes matched by handle; afterwards the leftmost display
    // comes first in the root's child order.
    let root = state.tree.root;
    assert_eq!(state.tree.child_count(root), 2);
    assert_eq!(state.tree.child_at(root, 0), mb);
    assert_eq!(state.tree.child_at(root, 1), ma);
}

#[test]
fn churn_free_change_emits_exactly_the_update_events() {
    let mut state = fresh_state();
    let (ma, _wa) = add_monitor_with_workspace(&mut state, native(1, Some("path-a"), None, 0));
    let (mb, _wb) =
        add_monitor_with_workspace(&mut state, native(2, Some("path-b"), None, 1920));
    let natives = vec![
        native(1, Some("path-a2"), None, 0),
        native(2, Some("path-b"), None, 1920),
    ];
    handle_display_settings_changed(&mut state, &config(), &natives).unwrap();
    // One identity refresh per native monitor, in claim order, and
    // nothing else.
    assert_eq!(
        state.events,
        vec![
            WmEvent::MonitorUpdated { updated_id: ma },
            WmEvent::MonitorUpdated { updated_id: mb },
        ],
    );
    // The claimed node recorded the new device path.
    assert!(matches!(
        &state.tree.nodes[ma].kind,
        NodeKind::Monitor(info) if info.device_path.as_deref() == Some("path-a2")
    ));
}

#[test]
fn keep_alive_workspace_moves_even_when_empty() {
    let mut state = fresh_state();
    let root = state.tree.root;
    let ma = state.tree.add_child(root, NodeKind::Monitor(native(1, None, None, 0)));
    let wk = state.tree.add_child(
        ma,
        NodeKind::Workspace(lavawm::tree::WorkspaceInfo {
            config_index: 0,
            keep_alive: true,
            displayed: true,
        }),
    );
    let (mb, _wb) = add_monitor_with_workspace(&mut state, native(2, None, None, 1920));
    remove_monitor(&mut state, ma, &config()).unwrap();
    assert_eq!(state.tree.parent_of(wk), Some(mb));
}

#[test]
fn changed_device_path_updates_identity_without_churn() {
    let mut state = fresh_state();
    let (ma, wa) = add_monitor_with_workspace(
        &mut state,
        native(1, Some("path-a"), None, 0),
    );
    let (mb, wb) = add_monitor_with_workspace(
        &mut state,
        native(2, Some("path-b"), None, 1920),
    );
    let nodes_before = state.tree.nodes.len();
    // Same monitors, one with a changed device path; handles still match.
    let natives = vec![
        native(1, Some("path-a2"), None, 0),
        native(2, Some("path-b"), None, 1920),
    ];
    handle_display_settings_changed(&mut state, &config(), &natives).unwrap();
    assert_eq!(state.tree.nodes.len(), nodes_before);
    assert_eq!(state.tree.child_count(state.tree.root), 2);
    assert_eq!(state.tree.parent_of(wa), Some(ma));
    assert_eq!(state.tree.parent_of(wb), Some(mb));
    assert!(!state
        .events
        .iter()
        .any(|e| matches!(e, WmEvent::MonitorAdded { .. } | WmEvent::MonitorRemoved { .. })));
}

#[test]
fn duplicated_hardware_ids_never_cross_match() {
    let mut state = fresh_state();
    // Two monitors whose recorded identities share a hardware id and
    // agree with the natives on nothing else.
    let (ma, _wa) = add_monitor_with_workspace(&mut state, native(1, None, Some("HWID"), 0));
    let (mb, _wb) =
        add_monitor_with_workspace(&mut state, native(2, None, Some("HWID"), 1920));
    let natives = vec![
        native(11, None, Some("HWID"), 0),
        native(12, None, Some("HWID"), 1920),
    ];
    handle_display_settings_changed(&mut state, &config(), &natives).unwrap();
    // No hardware-id match fired; the nodes were reused in pool order
    // rather than cross-matched, and no node was created or removed.
    assert_eq!(state.tree.child_count(state.tree.root), 2);
    assert!(state.tree.parent_of(ma).is_some());
    assert!(state.tree.parent_of(mb).is_some());
}

#[test]
fn new_native_monitor_gets_a_node_and_a_workspace() {
    let mut state = fresh_state();
    let (_ma, _wa) = add_monitor_with_workspace(&mut state, native(1, None, None, 0));
    let natives = vec![native(1, None, None, 0), native(2, None, None, 1920)];
    handle_display_settings_changed(&mut state, &config(), &natives).unwrap();
    assert_eq!(state.tree.child_count(state.tree.root), 2);
    assert!(state
        .events
        .iter()
        .any(|e| matches!(e, WmEvent::MonitorAdded { .. })));
}

#[test]
fn display_change_flags_windows_for_dpi_check() {
    let mut state = fresh_state();
    let (_m, ws) = add_monitor_with_workspace(&mut state, native(1, None, None, 0));
    let w1 = state.tree.add_child(ws, NodeKind::TilingWindow(window_info(100)));
    let natives = vec![native(1, None, None, 0)];
    handle_display_settings_changed(&mut state, &config(), &natives).unwrap();
    assert!(state.tree.window_info(w1).has_pending_dpi_adjustment);
}

#[test]
fn floating_placement_recentres_unless_still_overlapping() {
    let mut state = fresh_state();
    let (_m, ws) = add_monitor_with_workspace(&mut state, native(1, None, None, 0));
    let mut far = window_info(100);
    far.has_custom_floating_placement = true;
    far.floating_placement = rect(50000, 50000, 400, 300);
    let w1 = state.tree.add_child(ws, NodeKind::NonTilingWindow(WindowInfo {
        state: WindowState::Floating(rect(50000, 50000, 400, 300)),
        ..far
    }));
    let mut near = window_info(101);
    near.has_custom_floating_placement = true;
    near.floating_placement = rect(100, 100, 400, 300);
    let w2 = state.tree.add_child(ws, NodeKind::NonTilingWindow(WindowInfo {
        state: WindowState::Floating(rect(100, 100, 400, 300)),
        ..near
    }));
    let natives = vec![native(1, None, None, 0)];
    handle_display_settings_changed(&mut state, &config(), &natives).unwrap();
    // The off-screen window was recentred within the 1920x1080 monitor.
    let p1 = state.tree.window_info(w1).floating_placement;
    assert_eq!(p1, rect(0 + 1920 / 2 - 400 / 2, 0 + 1080 / 2 - 300 / 2, 400, 300));
    // The overlapping custom placement was preserved.
    assert_eq!(state.tree.window_info(w2).floating_placement, rect(100, 100, 400, 300));
}

#[test]
fn pending_sync_deduplicates_and_flushes_once() {
    let mut p = PendingSync::new();
    p.queue_container_to_redraw(7);
    p.queue_container_to_redraw(7);
    p.queue_container_to_redraw(8);
    p.queue_workspace_to_reorder(3);
    p.queue_workspace_to_reorder(3);
    assert_eq!(p.containers_to_redraw, vec![7, 8]);
    assert_eq!(p.workspaces_to_reorder, vec![3]);
    let (redraw, reorder) = p.take();
    assert_eq!(redraw, vec![7, 8]);
    assert_eq!(reorder, vec![3]);
    assert!(p.containers_to_redraw.is_empty());
    assert!(p.workspaces_to_reorder.is_empty());
}

#[test]
fn structural_errors_are_reported() {
    let mut state = fresh_state();
    let root = state.tree.root;
    assert_eq!(state.tree.detach(root), Err(WmError::NoParent));
    let (m, _ws) = add_monitor_with_workspace(&mut state, native(1, None, None, 0));
    let orphan = state.tree.push_node(NodeKind::Workspace(lavawm::tree::WorkspaceInfo {
        config_index: 1,
        keep_alive: false,
        displayed: false,
    }));
    assert_eq!(state.tree.replace(orphan, m, 5), Err(WmError::IndexOutOfBounds));
    assert_eq!(WmError::NoTargetMonitor.message(), "no target monitor to move workspaces");
}

#[test]
fn rect_overlap_and_centering_are_exact() {
    let a = rect(0, 0, 100, 100);
    let b = rect(50, 120, 100, 100);
    assert!(a.has_overlap_x(&b));
    assert!(!a.has_overlap_y(&b));
    let inner = rect(999, 999, 10, 20);
    let c = inner.translate_to_center(&a);
    assert_eq!(c, rect(45, 40, 10, 20));
}

#[test]
fn container_dto_mirrors_the_node() {
    let mut state = fresh_state();
    let (m, ws) = add_monitor_with_workspace(&mut state, native(1, None, None, 0));
    let dto = ContainerDto::of_node(&state.tree, m);
    assert_eq!(dto.id, m);
    assert_eq!(dto.parent, Some(state.tree.root));
    assert_eq!(dto.children, vec![ws]);
    assert_eq!(DEFAULT_IPC_PORT, 6123);
}
