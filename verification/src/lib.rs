//! A file copier's decision logic: size and time formatting, the rolling
//! speed window, copy planning, progress snapshots and the user-interface
//! state machine.
pub mod text;
pub mod paths;
pub mod format;
pub mod speed;
pub mod engine;
pub mod ui_state;
pub mod browser;
