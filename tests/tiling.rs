use wwm::layout::Placement;
use wwm::monitor::{Monitors, Rect};
use wwm::tree::{Node, TilingDirection};
use wwm::windows::{TilingMode, Window};
use wwm::workspace::Workspace;

fn monitor_1080p() -> wwm::monitor::Monitor {
    Monitors::create_monitor(
        "Main".to_string(),
        7,
        Rect { left: 0, top: 0, right: 1920, bottom: 1080 },
    )
}

fn workspace_with(handles: &[isize]) -> Workspace {
    let mut ws = Workspace::new(monitor_1080p());
    for h in handles {
        ws.add_window(Window::new("w", *h));
    }
    ws
}

fn handles(ws: &Workspace) -> Vec<isize> {
    ws.windows.children.iter().map(|c| c.value.hwnd).collect()
}

#[test]
fn equal_share_layout() {
    let ws = workspace_with(&[1, 2, 3]);
    let placements = ws.arrange_windows();
    assert_eq!(placements.len(), 3);
    let xs: Vec<i64> = placements.iter().map(|p| p.x).collect();
    assert_eq!(xs, vec![0, 640, 1280]);
    for p in &placements {
        assert_eq!(p.y, 0);
        assert_eq!(p.width, 640);
        assert_eq!(p.height, 1080);
        assert!(!p.raise);
    }
}

#[test]
fn new_windows_go_at_the_focus() {
    let mut ws = workspace_with(&[1, 2]);
    assert_eq!(handles(&ws), vec![2, 1]);
    ws.set_current_next();
    ws.add_window(Window::new("w", 3));
    assert_eq!(handles(&ws), vec![2, 3, 1]);
    assert!(ws.windows.children.iter().all(|c| c.direction == TilingDirection::Horizontal));
}

#[test]
fn focus_wraps_forward_after_n_moves() {
    let mut ws = workspace_with(&[1, 2, 3]);
    ws.set_current_next();
    let start = ws.current_window_index;
    assert_eq!(start, 1);
    for _ in 0..3 {
        ws.set_current_next();
    }
    assert_eq!(ws.current_window_index, start);
}

#[test]
fn focus_back_from_first_goes_to_last() {
    let mut ws = workspace_with(&[1, 2, 3]);
    assert_eq!(ws.current_window_index, 0);
    ws.set_current_previous();
    assert_eq!(ws.current_window_index, 2);
}

#[test]
fn focus_moves_do_nothing_without_windows() {
    let mut ws = Workspace::new(monitor_1080p());
    ws.set_current_next();
    assert_eq!(ws.current_window_index, 0);
    ws.set_current_previous();
    assert_eq!(ws.current_window_index, 0);
}

#[test]
fn monocle_leaf_covers_the_monitor() {
    let mut ws = Workspace::new(Monitors::create_monitor(
        "Side".to_string(),
        9,
        Rect { left: 1920, top: 100, right: 3200, bottom: 1124 },
    ));
    ws.add_window(Window::new("a", 1));
    ws.add_window(Window::new("b", 2));
    ws.set_current_tiling_mode(&TilingMode::Monocle);
    let placements = ws.arrange_windows();
    assert_eq!(
        placements[0],
        Placement { hwnd: 2, x: 1920, y: 100, width: 1280, height: 1024, raise: true }
    );
    assert_eq!(
        placements[1],
        Placement { hwnd: 1, x: 1920, y: 100, width: 1280, height: 1024, raise: false }
    );
}

#[test]
fn all_monocle_children_still_cover_the_monitor() {
    let mut ws = workspace_with(&[1]);
    ws.set_current_tiling_mode(&TilingMode::Monocle);
    let placements = ws.arrange_windows();
    assert_eq!(
        placements,
        vec![Placement { hwnd: 1, x: 0, y: 0, width: 1920, height: 1080, raise: true }]
    );
}

#[test]
fn arrangement_is_idempotent() {
    let mut ws = workspace_with(&[4, 5, 6]);
    ws.set_current_tiling_mode(&TilingMode::Monocle);
    assert_eq!(ws.arrange_windows(), ws.arrange_windows());
}

#[test]
fn point_on_right_or_bottom_edge_is_outside() {
    let ws = Workspace::new(monitor_1080p());
    assert!(ws.is_current_workspace(100, 100));
    assert!(!ws.is_current_workspace(1920, 100));
    assert!(!ws.is_current_workspace(100, 1080));
    assert!(!ws.is_current_workspace(0, 100));
    assert!(!ws.is_current_workspace(100, 0));
}

#[test]
fn remove_window_drops_the_leaf() {
    let mut ws = workspace_with(&[1, 2, 3]);
    Workspace::remove_window(&mut ws.windows, 2);
    assert_eq!(handles(&ws), vec![3, 1]);
    Workspace::remove_window(&mut ws.windows, 42);
    assert_eq!(handles(&ws), vec![3, 1]);
}

#[test]
fn remove_window_searches_nested_nodes() {
    let mut root = Node::new(Window::new("root", 0), TilingDirection::Vertical);
    let mut group = Node::new(Window::new("group", 10), TilingDirection::Horizontal);
    group.insert(Window::new("x", 11), TilingDirection::Vertical);
    group.insert(Window::new("y", 12), TilingDirection::Vertical);
    root.children.push(group);
    root.insert(Window::new("z", 13), TilingDirection::Horizontal);
    Workspace::remove_window(&mut root, 12);
    assert_eq!(root.children.len(), 2);
    assert_eq!(root.children[0].children.len(), 1);
    assert_eq!(root.children[0].children[0].value.hwnd, 11);
}

#[test]
fn tree_insert_and_leaf() {
    let mut n = Node::new(5u8, TilingDirection::Vertical);
    assert!(n.is_leaf());
    n.insert(6, TilingDirection::Horizontal);
    n.insert_at(7, 0, TilingDirection::Vertical);
    n.insert_at(8, 99, TilingDirection::Vertical);
    assert!(!n.is_leaf());
    let values: Vec<u8> = n.children.iter().map(|c| c.value).collect();
    assert_eq!(values, vec![7, 6, 8]);
}

#[test]
fn window_new_is_managed() {
    let mut w = Window::new("Terminal", 77);
    assert_eq!(w.title, "Terminal");
    assert_eq!(w.hwnd, 77);
    assert!(w.mode == TilingMode::Managed);
    w.set_mode(TilingMode::Monocle);
    assert!(w.mode == TilingMode::Monocle);
}
