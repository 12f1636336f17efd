//! The tray application: level meter, menu, and state.

pub mod app;
pub mod level;
pub mod menu;
