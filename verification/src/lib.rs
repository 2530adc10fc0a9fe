//! FlatBak: back up and restore Flatpak applications and their user data.

pub mod appdata;
pub mod backup;
pub mod config;
pub mod double;
pub mod error;
pub mod flatpak;
pub mod natural;
pub mod path;
pub mod recent;
pub mod text;
pub mod ui;
pub mod util;
