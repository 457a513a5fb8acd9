//! The control socket: what the CLI and the daemon say to each other.

pub mod client;
pub mod protocol;
pub mod server;
pub mod told;

pub use protocol::{
    ClipboardStatus, ConnectionStatus, DaemonNotRunning, FileInfo, HistoryEntry, PeerStatus,
    Request, Response, Route, Status,
};
