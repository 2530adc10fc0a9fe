//! The manifest and its checks.

use flatbak::backup::manifest::{AppEntry, Manifest, Meta, RemoteEntry};
use flatbak::error::ArchiveError;
use flatbak::flatpak::{InstalledApp, Installation, Remote};

fn sample() -> Manifest {
    Manifest {
        flatbak: Meta {
            format_version: 1,
            created_at: "2026-09-08T12:00:00Z".to_owned(),
            created_by: "FlatBak 0.1.0".to_owned(),
            host_arch: "x86_64".to_owned(),
            flatpak_version: "1.18.2".to_owned(),
            excluded_caches: true,
            app_count: 1,
            data_bytes: 1234,
        },
        apps: vec![AppEntry {
            id: "org.videolan.VLC".to_owned(),
            name: "VLC".to_owned(),
            version: "3.0.21".to_owned(),
            branch: "stable".to_owned(),
            arch: "x86_64".to_owned(),
            origin: "flathub".to_owned(),
            installation: Installation::System,
            reference: "app/org.videolan.VLC/x86_64/stable".to_owned(),
            commit: "abc123".to_owned(),
            installed_size: 13_000_000,
            data_included: true,
            data_bytes: 1234,
            data_files: 7,
            data_path: "data/org.videolan.VLC".to_owned(),
        }],
        remotes: vec![RemoteEntry {
            name: "flathub".to_owned(),
            title: "Flathub".to_owned(),
            url: "https://dl.flathub.org/repo/".to_owned(),
            installation: Installation::System,
        }],
    }
}

/// The format version in a document, as a reader finds it.
fn version_in(text: &str) -> Result<u32, String> {
    let table: toml::Table = text.parse().map_err(|_| "not a document".to_owned())?;
    let version = table["flatbak"]["format_version"].as_integer();
    Ok(version.unwrap() as u32)
}

fn invalid(manifest: Manifest) -> String {
    match Manifest::from_toml(Ok(1), Ok(manifest)) {
        Err(ArchiveError::InvalidManifest(reason)) => reason,
        other => panic!("expected InvalidManifest, got {other:?}"),
    }
}

#[test]
fn refuses_newer_format_versions() {
    let text = "[flatbak]\nformat_version = 99\ncreated_at = \"\"\n\
                created_by = \"\"\nhost_arch = \"\"\n";
    match Manifest::from_toml(version_in(text), Err("does not fit".to_owned())) {
        Err(ArchiveError::UnsupportedVersion { found, .. }) => assert_eq!(found, 99),
        other => panic!("expected UnsupportedVersion, got {other:?}"),
    }
}

#[test]
fn rejects_traversal_in_app_id() {
    let mut manifest = sample();
    manifest.apps[0].id = "../../etc".to_owned();
    assert!(matches!(
        Manifest::from_toml(Ok(1), Ok(manifest)),
        Err(ArchiveError::InvalidManifest(_))
    ));
}

#[test]
fn rejects_mismatched_data_path() {
    let mut manifest = sample();
    manifest.apps[0].data_path = "data/somewhere.else".to_owned();
    assert!(matches!(
        Manifest::from_toml(Ok(1), Ok(manifest)),
        Err(ArchiveError::InvalidManifest(_))
    ));
}

#[test]
fn rejects_duplicate_apps() {
    let mut manifest = sample();
    let duplicate = manifest.apps[0].clone();
    manifest.apps.push(duplicate);
    assert!(matches!(
        Manifest::from_toml(Ok(1), Ok(manifest)),
        Err(ArchiveError::InvalidManifest(_))
    ));
}

#[test]
fn accepts_a_sound_manifest_unchanged() {
    let manifest = Manifest::from_toml(Ok(1), Ok(sample())).unwrap();
    assert_eq!(manifest.apps.len(), 1);
    assert_eq!(manifest.apps[0].id, "org.videolan.VLC");
    assert_eq!(manifest.apps[0].installation, Installation::System);
    assert_eq!(manifest.remotes[0].url, "https://dl.flathub.org/repo/");
    assert!(manifest.flatbak.excluded_caches);
}

#[test]
fn unreadable_manifests_are_invalid() {
    for outcome in [
        Manifest::from_toml(Err("missing field".to_owned()), Ok(sample())),
        Manifest::from_toml(Ok(1), Err("missing field".to_owned())),
    ] {
        match outcome {
            Err(ArchiveError::InvalidManifest(reason)) => assert_eq!(reason, "missing field"),
            other => panic!("{other:?}"),
        }
    }
}

#[test]
fn faults_are_named() {
    let mut manifest = sample();
    manifest.flatbak.format_version = 0;
    assert_eq!(invalid(manifest), "format_version must be at least 1");

    let mut manifest = sample();
    manifest.apps[0].id = "a b".to_owned();
    assert_eq!(
        invalid(manifest),
        "\u{201c}a b\u{201d} is not a valid application ID"
    );

    let mut manifest = sample();
    manifest.apps[0].branch = String::new();
    assert_eq!(
        invalid(manifest),
        "org.videolan.VLC is missing its branch or architecture"
    );

    let mut manifest = sample();
    manifest.apps[0].arch = String::new();
    assert_eq!(
        invalid(manifest),
        "org.videolan.VLC is missing its branch or architecture"
    );

    let mut manifest = sample();
    manifest.apps.push(manifest.apps[0].clone());
    assert_eq!(
        invalid(manifest),
        "org.videolan.VLC appears twice for the same installation"
    );

    let mut manifest = sample();
    manifest.apps[0].data_path = "x".to_owned();
    assert_eq!(
        invalid(manifest),
        "org.videolan.VLC declares an unexpected data path \u{201c}x\u{201d}"
    );

    let mut manifest = sample();
    manifest.remotes[0].name = String::new();
    assert_eq!(invalid(manifest), "a remote entry has no name");
}

#[test]
fn the_same_app_may_be_in_two_installations() {
    let mut manifest = sample();
    let mut second = manifest.apps[0].clone();
    second.installation = Installation::User;
    manifest.apps.push(second);
    assert!(Manifest::from_toml(Ok(1), Ok(manifest)).is_ok());

    // Installations are told apart by name.
    let mut manifest = sample();
    let mut second = manifest.apps[0].clone();
    second.installation = Installation::Named("system".to_owned());
    manifest.apps.push(second);
    assert_eq!(
        invalid(manifest),
        "org.videolan.VLC appears twice for the same installation"
    );
}

#[test]
fn data_paths_only_matter_with_data() {
    let mut manifest = sample();
    manifest.apps[0].data_included = false;
    manifest.apps[0].data_path = "anything".to_owned();
    assert!(manifest.validate().is_ok());
}

#[test]
fn required_remotes_are_sorted_and_distinct() {
    let mut manifest = sample();
    for (i, origin) in ["gnome", "", "flathub", "beta", "gnome"].iter().enumerate() {
        let mut app = manifest.apps[0].clone();
        app.reference = format!("app/x{i}");
        app.origin = (*origin).to_owned();
        manifest.apps.push(app);
    }
    assert_eq!(manifest.required_remotes(), ["beta", "flathub", "gnome"]);
    assert!(manifest.remote("flathub").is_some());
    assert!(manifest.remote("gnome").is_none());
}

#[test]
fn totals_count_included_data_only() {
    let mut manifest = sample();
    let mut other = manifest.apps[0].clone();
    other.data_included = false;
    other.data_bytes = 5;
    manifest.apps.push(other);
    let mut third = manifest.apps[0].clone();
    third.data_bytes = 6;
    manifest.apps.push(third);
    assert_eq!(manifest.total_data_bytes(), 1240);
    assert_eq!(manifest.checked_total_data_bytes(), Some(1240));
    assert_eq!(manifest.apps_with_data(), 2);
    manifest.apps[0].data_bytes = u64::MAX;
    assert_eq!(manifest.checked_total_data_bytes(), None);
}

#[test]
fn entries_are_made_from_what_is_installed() {
    let app = InstalledApp {
        id: "org.x.Y".to_owned(),
        name: String::new(),
        version: "1".to_owned(),
        branch: "stable".to_owned(),
        arch: "x86_64".to_owned(),
        origin: String::new(),
        installation: Installation::User,
        reference: "app/org.x.Y/x86_64/stable".to_owned(),
        commit: "c".to_owned(),
        installed_size: None,
    };
    let entry = AppEntry::from_installed(&app);
    assert_eq!(entry.name, "org.x.Y");
    assert_eq!(entry.display_name(), "org.x.Y");
    assert_eq!(entry.payload_prefix(), "data/org.x.Y");
    assert_eq!(entry.installed_size, 0);
    assert!(entry.is_sideloaded());
    assert!(!entry.data_included);
    assert_eq!(entry.data_path, "");

    let remote = RemoteEntry::from_remote(&Remote {
        name: "flathub".to_owned(),
        title: String::new(),
        url: "u".to_owned(),
        installation: Installation::System,
        disabled: true,
    });
    assert_eq!(remote.display_title(), "flathub");
    assert_eq!(remote.url, "u");
}
