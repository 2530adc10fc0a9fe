//! Compile-time configuration and format constants.

use vstd::prelude::*;

verus! {

/// Application ID used for the desktop file and D-Bus.
pub const APP_ID: &'static str = "io.github.abdullahfanar.FlatBak";

/// Human readable application name.
pub const APP_NAME: &'static str = "FlatBak";

/// Version, surfaced in the about dialog and written into manifests.
pub const VERSION: &'static str = "0.1.0";

/// File extension (without dot) of backup archives.
pub const BACKUP_EXTENSION: &'static str = "flatbak";

/// The manifest schema version this build writes.
pub const MANIFEST_FORMAT_VERSION: u32 = 1;

/// The highest manifest schema version this build can read.
///
/// Archives declaring a higher version are rejected with a "please upgrade"
/// message rather than being parsed on a best-effort basis, because a future
/// version may change the meaning of existing fields.
pub const MANIFEST_FORMAT_VERSION_MAX: u32 = 1;

/// Default zstd compression level. Level 10 roughly halves application data
/// while staying fast enough to keep the UI responsive on a single thread.
pub const DEFAULT_COMPRESSION_LEVEL: i32 = 10;

} // verus!
