use wwm::actions::{WmAction, WorkspaceAction};
use wwm::config::{Config, ConfigBuilder};
use wwm::layout::Placement;
use wwm::monitor::{Monitor, Monitors, Rect};
use wwm::windows::TilingMode;
use wwm::wm::{LiveWindow, TickOutcome, WindowManager};

fn config(lines: &[&str]) -> Config {
    let lines: Vec<String> = lines.iter().map(|l| l.to_string()).collect();
    match ConfigBuilder::new(&lines) {
        Ok(builder) => builder.build(),
        Err(e) => panic!("refused: {:?}", e),
    }
}

fn monitors() -> Vec<Monitor> {
    vec![
        Monitors::create_monitor("Left".to_string(), 100, Rect { left: 0, top: 0, right: 1920, bottom: 1080 }),
        Monitors::create_monitor("Right".to_string(), 200, Rect { left: 1920, top: 0, right: 3840, bottom: 1080 }),
    ]
}

fn live(hwnd: isize, title: &str, monitor: isize) -> LiveWindow {
    LiveWindow { hwnd, title: title.to_string(), monitor }
}

fn manager(cfg: &Config) -> WindowManager {
    let mut wm = WindowManager::new();
    wm.get_monitors(cfg, &monitors());
    wm
}

fn leaf_handles(wm: &WindowManager, j: usize) -> Vec<isize> {
    wm.workspaces[j].windows.children.iter().map(|c| c.value.hwnd).collect()
}

fn standard_config() -> Config {
    config(&["workspace 1 Right", "workspace 0 Left", "rule managed ^app"])
}

#[test]
fn topology_follows_binding_order() {
    let cfg = standard_config();
    let wm = manager(&cfg);
    assert_eq!(wm.workspaces.len(), 2);
    assert_eq!(wm.workspaces[0].monitor.name, "Left");
    assert_eq!(wm.workspaces[1].monitor.name, "Right");
    assert!(wm.windows.is_empty());
}

#[test]
fn topology_skips_unknown_monitors() {
    let cfg = config(&["workspace 0 Nowhere", "workspace 1 Right"]);
    let wm = manager(&cfg);
    assert_eq!(wm.workspaces.len(), 1);
    assert_eq!(wm.workspaces[0].monitor.monitor_handle, 200);
}

#[test]
fn new_windows_join_their_monitor() {
    let cfg = standard_config();
    let mut wm = manager(&cfg);
    wm.fetch_windows(&cfg, &vec![live(1, "app one", 100), live(2, "other", 100), live(3, "app two", 200), live(4, "", 100)]);
    assert_eq!(wm.windows, vec![1, 3]);
    assert_eq!(leaf_handles(&wm, 0), vec![1]);
    assert_eq!(leaf_handles(&wm, 1), vec![3]);
    assert_eq!(wm.workspaces[0].windows.children[0].value.title, "app one");
}

#[test]
fn window_on_unbound_monitor_is_not_tracked() {
    let cfg = config(&["workspace 0 Left", "rule managed ^app"]);
    let mut wm = manager(&cfg);
    wm.fetch_windows(&cfg, &vec![live(1, "app", 200)]);
    assert!(wm.windows.is_empty());
    assert!(wm.workspaces[0].windows.children.is_empty());
}

#[test]
fn shrink_reconciliation_removes_closed_window() {
    let cfg = standard_config();
    let mut wm = manager(&cfg);
    wm.fetch_windows(&cfg, &vec![live(1, "app a", 100), live(2, "app b", 100), live(3, "app c", 200)]);
    assert_eq!(wm.windows, vec![1, 2, 3]);
    wm.fetch_windows(&cfg, &vec![live(1, "app a", 100), live(3, "app c", 200)]);
    assert_eq!(wm.windows, vec![1, 3]);
    assert_eq!(leaf_handles(&wm, 0), vec![1]);
    assert_eq!(leaf_handles(&wm, 1), vec![3]);
}

#[test]
fn replacement_blind_spot() {
    let cfg = standard_config();
    let mut wm = manager(&cfg);
    wm.fetch_windows(&cfg, &vec![live(1, "app a", 100), live(2, "app b", 100)]);
    assert_eq!(wm.windows, vec![1, 2]);
    // The count of tiled windows did not shrink, so the closed window 2 is
    // not removed; the addition pass still takes in window 3.
    wm.fetch_windows(&cfg, &vec![live(1, "app a", 100), live(3, "app c", 100)]);
    assert_eq!(wm.windows, vec![1, 2, 3]);
    let mut held = leaf_handles(&wm, 0);
    held.sort();
    assert_eq!(held, vec![1, 2, 3]);
}

#[test]
fn each_known_window_is_held_once() {
    let cfg = standard_config();
    let mut wm = manager(&cfg);
    wm.fetch_windows(&cfg, &vec![live(1, "app a", 100), live(2, "app b", 200), live(3, "app c", 100)]);
    wm.fetch_windows(&cfg, &vec![live(1, "app a", 100), live(2, "app b", 200), live(3, "app c", 100)]);
    let mut held: Vec<isize> = Vec::new();
    for j in 0..wm.workspaces.len() {
        held.extend(leaf_handles(&wm, j));
    }
    held.sort();
    let mut known = wm.windows.clone();
    known.sort();
    assert_eq!(held, known);
    assert_eq!(known, vec![1, 2, 3]);
}

#[test]
fn current_monitor_follows_cursor() {
    let cfg = standard_config();
    let mut wm = manager(&cfg);
    wm.update_current_monitor(2000, 500);
    assert_eq!(wm.current_workspace_index, 1);
    wm.update_current_monitor(1920, 500);
    assert_eq!(wm.current_workspace_index, 1);
    wm.update_current_monitor(10, 10);
    assert_eq!(wm.current_workspace_index, 0);
}

#[test]
fn actions_move_focus_and_mode() {
    let cfg = standard_config();
    let mut wm = manager(&cfg);
    wm.fetch_windows(&cfg, &vec![live(1, "app a", 100), live(2, "app b", 100)]);
    wm.handle_action(WorkspaceAction::NextAsCurrent);
    assert_eq!(wm.workspaces[0].current_window_index, 1);
    wm.handle_action(WorkspaceAction::PreviousAsCurrent);
    wm.handle_action(WorkspaceAction::PreviousAsCurrent);
    assert_eq!(wm.workspaces[0].current_window_index, 1);
    wm.handle_action(WorkspaceAction::ToggleMode(TilingMode::Monocle));
    assert!(wm.workspaces[0].windows.children[1].value.mode == TilingMode::Monocle);
}

#[test]
fn put_window_in_other_workspace() {
    let cfg = standard_config();
    let mut wm = manager(&cfg);
    wm.fetch_windows(&cfg, &vec![live(1, "app a", 100), live(2, "app b", 100)]);
    wm.handle_action(WorkspaceAction::PutCurrentWindowInWorkspace { workspace_index: 1 });
    assert_eq!(leaf_handles(&wm, 0), vec![1]);
    assert_eq!(leaf_handles(&wm, 1), vec![2]);
    assert_eq!(wm.windows, vec![1, 2]);
}

#[test]
fn put_window_out_of_range_loses_it_from_layout() {
    let cfg = standard_config();
    let mut wm = manager(&cfg);
    wm.fetch_windows(&cfg, &vec![live(1, "app a", 100)]);
    wm.handle_action(WorkspaceAction::PutCurrentWindowInWorkspace { workspace_index: 5 });
    assert!(leaf_handles(&wm, 0).is_empty());
    assert_eq!(wm.windows, vec![1]);
}

#[test]
fn put_window_with_no_window_does_nothing() {
    let cfg = standard_config();
    let mut wm = manager(&cfg);
    wm.handle_action(WorkspaceAction::PutCurrentWindowInWorkspace { workspace_index: 1 });
    assert!(leaf_handles(&wm, 0).is_empty());
    assert!(leaf_handles(&wm, 1).is_empty());
}

#[test]
fn arrange_workspaces_twice_is_identical() {
    let cfg = standard_config();
    let mut wm = manager(&cfg);
    wm.fetch_windows(&cfg, &vec![live(1, "app a", 100), live(2, "app b", 100), live(3, "app c", 200)]);
    let first = wm.arrange_workspaces();
    let second = wm.arrange_workspaces();
    assert_eq!(first, second);
    assert_eq!(first.len(), 3);
    assert_eq!(first[2], Placement { hwnd: 3, x: 1920, y: 0, width: 1920, height: 1080, raise: false });
}

#[test]
fn managed_windows_and_titles() {
    let cfg = standard_config();
    let wm = manager(&cfg);
    let live_windows = vec![live(1, "app a", 100), live(2, "nope", 100), live(3, "", 100), live(4, "app d", 200)];
    assert_eq!(WindowManager::get_managed_windows(&cfg, &live_windows), vec![1, 4]);
    assert_eq!(wm.list_managable_windows(&cfg, &live_windows), vec!["app a".to_string(), "app d".to_string()]);
}

#[test]
fn tick_applies_action_before_layout() {
    let cfg = standard_config();
    let mut wm = WindowManager::new();
    let windows = vec![live(1, "app a", 100), live(2, "app b", 100)];
    let outcome = wm.tick(&cfg, true, &monitors(), 10, 10, None, &windows);
    match outcome {
        TickOutcome::Arrange(p) => assert_eq!(p.len(), 2),
        TickOutcome::Close { .. } => panic!("closed"),
    }
    let outcome = wm.tick(
        &cfg,
        false,
        &monitors(),
        10,
        10,
        Some(WmAction::Workspace(WorkspaceAction::ToggleMode(TilingMode::Monocle))),
        &windows,
    );
    match outcome {
        TickOutcome::Arrange(p) => {
            assert!(p.iter().any(|q| q.raise && q.width == 1920 && q.height == 1080));
        }
        TickOutcome::Close { .. } => panic!("closed"),
    }
}

#[test]
fn tick_close_stops_at_once() {
    let cfg = standard_config();
    let mut wm = WindowManager::new();
    let outcome = wm.tick(&cfg, true, &monitors(), 10, 10, Some(WmAction::Close { hwnd: 55 }), &vec![live(1, "app", 100)]);
    match outcome {
        TickOutcome::Close { hwnd } => assert_eq!(hwnd, 55),
        TickOutcome::Arrange(_) => panic!("arranged"),
    }
    assert!(wm.windows.is_empty());
}
