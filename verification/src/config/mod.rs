//! What a machine is configured with, and what it knows of the others.

pub mod dirs;
pub mod key;
pub mod mesh;
pub mod name;
pub mod schema;
pub mod service;
pub mod session;
pub mod settings;

pub use dirs::{BaseDirs, Dirs};
pub use key::{KeyError, MachineKey};
pub use mesh::{Membership, MeshError, MeshState, Peer, PeerStatus, MAX_MESH_PEERS};
pub use name::{sanitize, sanitize_bounded, validate_name, NameError, MAX_NAME_LEN};
pub use schema::SettingsError;
pub use service::{RecordError, ServiceState};
pub use settings::Settings;
