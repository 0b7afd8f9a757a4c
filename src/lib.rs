//! Core of a terminal IRC client: the wire codec, the per-server connection
//! state machine, the tab model and the router that applies protocol events
//! to tabs.

mod text;
pub mod cmd;
pub mod conn;
pub mod input;
pub mod names;
pub mod router;
pub mod split;
pub mod tabs;
pub mod termbox;
pub mod ui;
pub mod wire;
