//! Discovery of, and operations on, the host's Flatpak installations.

pub mod cli;
pub mod model;

pub use cli::Flatpak;
pub use model::{InstalledApp, Installation, Remote};
