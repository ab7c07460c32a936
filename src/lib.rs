//! The engine of a tiling window manager: tiling trees laid out over
//! monitors, workspaces with a focus cursor, reconciliation of the tiled
//! windows with the live ones, the rule file, and the hotkey actions.

pub mod actions;
pub mod btree;
pub mod config;
pub mod layout;
pub mod monitor;
pub mod tracking;
pub mod tree;
pub mod windows;
pub mod wm;
pub mod workspace;
