//! Clipboard state, event payloads and mime policy.

pub mod codec;
pub mod event;
pub mod history;
pub mod laws;
pub mod mime;
pub mod model;
pub mod offer;
pub mod preview;
pub mod sharing;
pub mod state;
pub mod wayland;
