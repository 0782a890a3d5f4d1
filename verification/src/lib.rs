//! Verified core of a MEGA folder downloader: link parsing, key handling,
//! attribute decryption and reconstruction of the folder tree, plus the
//! decisions the service makes on replies and connections.

pub mod error;
pub mod events;
pub mod mega;
pub mod realdebrid;
pub mod text;
pub mod ws;

pub use error::{Error, ErrorView};
pub use events::EngineEvent;
