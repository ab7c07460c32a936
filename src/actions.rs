use vstd::prelude::*;
use crate::windows::TilingMode;

verus! {

/// What a hotkey asks of the manager.
pub enum WmAction {
    Workspace(WorkspaceAction),
    Close { hwnd: isize },
}

/// What a hotkey asks of the current workspace.
pub enum WorkspaceAction {
    NextAsCurrent,
    PreviousAsCurrent,
    ToggleMode(TilingMode),
    PutCurrentWindowInWorkspace { workspace_index: usize },
}

/// The action bound to hotkey slot `key`; `hwnd` is the window that
/// receives the hotkeys, which a `Close` action carries.
pub open spec fn hotkey_action(key: u16, hwnd: isize) -> Option<WmAction> {
    if key == 1 {
        Some(WmAction::Workspace(WorkspaceAction::PreviousAsCurrent))
    } else if key == 2 {
        Some(WmAction::Workspace(WorkspaceAction::NextAsCurrent))
    } else if key == 3 {
        Some(WmAction::Workspace(WorkspaceAction::ToggleMode(TilingMode::Monocle)))
    } else if key == 4 {
        Some(WmAction::Workspace(WorkspaceAction::ToggleMode(TilingMode::Managed)))
    } else if key == 9 {
        Some(WmAction::Close { hwnd })
    } else if key == 10 {
        Some(WmAction::Workspace(WorkspaceAction::PutCurrentWindowInWorkspace { workspace_index: 0 }))
    } else if key == 11 {
        Some(WmAction::Workspace(WorkspaceAction::PutCurrentWindowInWorkspace { workspace_index: 1 }))
    } else {
        None
    }
}

/// Maps a fired hotkey slot to the action it is bound to; an
/// unbound slot gives none.
pub fn handle_hotkey(hwnd: isize, key: u16) -> (r: Option<WmAction>)
    ensures
        r == hotkey_action(key, hwnd),
{
    match key {
        1 => Some(WmAction::Workspace(WorkspaceAction::PreviousAsCurrent)),
        2 => Some(WmAction::Workspace(WorkspaceAction::NextAsCurrent)),
        3 => Some(WmAction::Workspace(WorkspaceAction::ToggleMode(TilingMode::Monocle))),
        4 => Some(WmAction::Workspace(WorkspaceAction::ToggleMode(TilingMode::Managed))),
        9 => Some(WmAction::Close { hwnd }),
        10 => Some(
            WmAction::Workspace(WorkspaceAction::PutCurrentWindowInWorkspace { workspace_index: 0 }),
        ),
        11 => Some(
            WmAction::Workspace(WorkspaceAction::PutCurrentWindowInWorkspace { workspace_index: 1 }),
        ),
        _ => None,
    }
}

/// One global hotkey to register: its slot, modifier keys and key code.
#[derive(PartialEq, Eq, Structural, Clone, Copy, Debug)]
pub struct Hotkey {
    pub id: i32,
    pub modifiers: u32,
    pub key: u32,
}

/// The number of hotkey slots that are registered and released.
pub const HOTKEY_SLOTS: i32 = 18;

/// The hotkeys to register: slots 1 to 9 under `first_modifiers` on the
/// nine keys from `first_key` on, then slots 10 to 17 under
/// `second_modifiers` on the eight keys from `first_key` on.
pub fn register_hotkeys(first_modifiers: u32, second_modifiers: u32, first_key: u32) -> (r: Vec<
    Hotkey,
>)
    requires
        first_key <= u32::MAX - 9,
    ensures
        r@.len() == 17,
        forall|i: int|
            0 <= i < 9 ==> #[trigger] r@[i] == (Hotkey {
                id: (i + 1) as i32,
                modifiers: first_modifiers,
                key: (first_key + i) as u32,
            }),
        forall|i: int|
            9 <= i < 17 ==> #[trigger] r@[i] == (Hotkey {
                id: (i + 1) as i32,
                modifiers: second_modifiers,
                key: (first_key + i - 9) as u32,
            }),
{
    let mut hotkeys: Vec<Hotkey> = Vec::new();
    let mut hotkey_index: i32 = 0;
    while hotkey_index < 9
        invariant
            0 <= hotkey_index <= 9,
            first_key <= u32::MAX - 9,
            hotkeys@.len() == hotkey_index,
            forall|i: int|
                0 <= i < hotkey_index ==> #[trigger] hotkeys@[i] == (Hotkey {
                    id: (i + 1) as i32,
                    modifiers: first_modifiers,
                    key: (first_key + i) as u32,
                }),
        decreases 9 - hotkey_index,
    {
        hotkeys.push(
            Hotkey {
                id: hotkey_index + 1,
                modifiers: first_modifiers,
                key: first_key + hotkey_index as u32,
            },
        );
        hotkey_index = hotkey_index + 1;
    }
    let mut hotkey_index: i32 = 1;
    while hotkey_index < 9
        invariant
            1 <= hotkey_index <= 9,
            first_key <= u32::MAX - 9,
            hotkeys@.len() == hotkey_index + 8,
            forall|i: int|
                0 <= i < 9 ==> #[trigger] hotkeys@[i] == (Hotkey {
                    id: (i + 1) as i32,
                    modifiers: first_modifiers,
                    key: (first_key + i) as u32,
                }),
            forall|i: int|
                9 <= i < hotkey_index + 8 ==> #[trigger] hotkeys@[i] == (Hotkey {
                    id: (i + 1) as i32,
                    modifiers: second_modifiers,
                    key: (first_key + i - 9) as u32,
                }),
        decreases 9 - hotkey_index,
    {
        hotkeys.push(
            Hotkey {
                id: hotkey_index + 9,
                modifiers: second_modifiers,
                key: first_key + (hotkey_index - 1) as u32,
            },
        );
        hotkey_index = hotkey_index + 1;
    }
    hotkeys
}

/// The slots to release at shutdown: 1 to 18.
pub fn unregister_hotkeys() -> (r: Vec<i32>)
    ensures
        r@.len() == HOTKEY_SLOTS,
        forall|i: int| 0 <= i < HOTKEY_SLOTS ==> #[trigger] r@[i] == i + 1,
{
    let mut slots: Vec<i32> = Vec::new();
    let mut hotkey_index: i32 = 0;
    while hotkey_index < HOTKEY_SLOTS
        invariant
            0 <= hotkey_index <= HOTKEY_SLOTS,
            slots@.len() == hotkey_index,
            forall|i: int| 0 <= i < hotkey_index ==> #[trigger] slots@[i] == i + 1,
        decreases HOTKEY_SLOTS - hotkey_index,
    {
        slots.push(hotkey_index + 1);
        hotkey_index = hotkey_index + 1;
    }
    slots
}

} // verus!
