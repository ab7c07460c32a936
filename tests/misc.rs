use wwm::actions::{handle_hotkey, register_hotkeys, unregister_hotkeys, Hotkey, WmAction, WorkspaceAction};
use wwm::btree::Node;
use wwm::monitor::{Monitors, Rect};
use wwm::windows::TilingMode;

#[test]
fn hotkeys_map_to_actions() {
    assert!(matches!(handle_hotkey(5, 1), Some(WmAction::Workspace(WorkspaceAction::PreviousAsCurrent))));
    assert!(matches!(handle_hotkey(5, 2), Some(WmAction::Workspace(WorkspaceAction::NextAsCurrent))));
    assert!(matches!(
        handle_hotkey(5, 3),
        Some(WmAction::Workspace(WorkspaceAction::ToggleMode(TilingMode::Monocle)))
    ));
    assert!(matches!(
        handle_hotkey(5, 4),
        Some(WmAction::Workspace(WorkspaceAction::ToggleMode(TilingMode::Managed)))
    ));
    assert!(matches!(handle_hotkey(5, 9), Some(WmAction::Close { hwnd: 5 })));
    assert!(matches!(
        handle_hotkey(5, 11),
        Some(WmAction::Workspace(WorkspaceAction::PutCurrentWindowInWorkspace { workspace_index: 1 }))
    ));
    assert!(handle_hotkey(5, 7).is_none());
}

#[test]
fn hotkey_table_has_two_rows() {
    let table = register_hotkeys(2, 6, 0x31);
    assert_eq!(table.len(), 17);
    assert_eq!(table[0], Hotkey { id: 1, modifiers: 2, key: 0x31 });
    assert_eq!(table[8], Hotkey { id: 9, modifiers: 2, key: 0x39 });
    assert_eq!(table[9], Hotkey { id: 10, modifiers: 6, key: 0x31 });
    assert_eq!(table[16], Hotkey { id: 17, modifiers: 6, key: 0x38 });
    assert_eq!(unregister_hotkeys(), (1..=18).collect::<Vec<i32>>());
}

#[test]
fn wide_name_stops_at_nul() {
    let units: Vec<u16> = "DELL U2415\0junk".encode_utf16().collect();
    assert_eq!(Monitors::to_string(&units), "DELL U2415");
    let units: Vec<u16> = "Plain".encode_utf16().collect();
    assert_eq!(Monitors::to_string(&units), "Plain");
    assert_eq!(Monitors::to_string(&[0xD800, 0x41]), "\u{FFFD}A");
}

#[test]
fn monitor_size_from_rect() {
    let m = Monitors::create_monitor("X".to_string(), 3, Rect { left: -1280, top: 200, right: 0, bottom: 1224 });
    assert_eq!(m.width, 1280);
    assert_eq!(m.height, 1024);
    assert!(m.is_point_in_monitor(-1, 201));
    assert!(!m.is_point_in_monitor(0, 201));
}

#[test]
fn binary_tree_fills_left_then_right_spine() {
    let mut n = Node::new(1);
    n.insert(2);
    n.insert(3);
    n.insert(4);
    assert_eq!(n.left.as_ref().unwrap().value, 2);
    let r = n.right.as_ref().unwrap();
    assert_eq!(r.value, 3);
    assert_eq!(r.left.as_ref().unwrap().value, 4);
    assert!(r.right.is_none());
}
