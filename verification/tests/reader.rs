//! Opening archives and extracting their data.

use std::io::Read;

use flatbak::appdata::{Occupant, Removal};
use flatbak::backup::container::{HashingWriter, Header, Trailer};
use flatbak::backup::extract::make_way;
use flatbak::backup::manifest::{AppEntry, Manifest, Meta, RemoteEntry};
use flatbak::backup::reader::{
    decoded_manifest, is_safe_token, manifest_text, open_failure, split_payload_path, unpack_entry,
    Backup, EntryAction, EntryKind, Extraction, Frame, OpenError, PayloadCheck, ReadLimit,
    RestoreProgress, Unpack,
};
use flatbak::backup::writer::compress_manifest;
use flatbak::error::{ArchiveError, Failure, Issue};
use flatbak::flatpak::{Installation, Remote};

#[test]
fn splits_valid_payload_paths() {
    let (id, rest) = split_payload_path(b"data/org.videolan.VLC/config/vlcrc").unwrap();
    assert_eq!(id, "org.videolan.VLC");
    assert_eq!(rest, b"config/vlcrc");

    let (id, rest) = split_payload_path(b"data/org.videolan.VLC").unwrap();
    assert_eq!(id, "org.videolan.VLC");
    assert_eq!(rest, b"");
}

#[test]
fn rejects_hostile_payload_paths() {
    for hostile in [
        "/etc/passwd",
        "../data/x/y",
        "data/../../etc/passwd",
        "data/../etc",
        "etc/passwd",
        "data",
        "data/../..",
        "data/..",
    ] {
        assert!(
            split_payload_path(hostile.as_bytes()).is_none(),
            "should have rejected {hostile}"
        );
    }
}

#[test]
fn normalises_harmless_redundancy() {
    // Repeated separators and `.` segments are collapsed, so these are the same
    // contained paths written differently.
    let (id, rest) = split_payload_path(b"data//org.x/y").unwrap();
    assert_eq!((id.as_str(), rest.as_slice()), ("org.x", &b"y"[..]));

    let (id, rest) = split_payload_path(b"data/./org.x/./y").unwrap();
    assert_eq!((id.as_str(), rest.as_slice()), ("org.x", &b"y"[..]));

    // A space is not valid in an application ID.
    assert!(split_payload_path(b"data/a b/y").is_none());
}

#[test]
fn safe_tokens() {
    assert!(is_safe_token("x86_64"));
    assert!(is_safe_token("stable"));
    assert!(is_safe_token("flathub"));
    assert!(!is_safe_token(""));
    assert!(!is_safe_token("--user"));
    assert!(!is_safe_token("a/b"));
    assert!(!is_safe_token("a;b"));
    assert!(is_safe_token(&"a".repeat(128)));
    assert!(!is_safe_token(&"a".repeat(129)));
}

#[test]
fn read_limit_bounds_the_region() {
    let data = b"abcdefghij".to_vec();
    let mut reader = ReadLimit::new(data.as_slice(), 3);
    let mut out = Vec::new();
    let mut buffer = [0u8; 2];
    loop {
        let cap = reader.allowance(buffer.len());
        let read = reader.inner_mut().read(&mut buffer[..cap]).unwrap();
        if read == 0 {
            break;
        }
        reader.advance(read);
        out.extend_from_slice(&buffer[..read]);
    }
    assert_eq!(out, b"abc");
}

// ------------------------------------------------------------------ opening

fn app(id: &str, origin: &str, installation: Installation, data_bytes: u64) -> AppEntry {
    AppEntry {
        id: id.to_owned(),
        name: format!("Name of {id}"),
        version: "1".to_owned(),
        branch: "stable".to_owned(),
        arch: "x86_64".to_owned(),
        origin: origin.to_owned(),
        installation,
        reference: format!("app/{id}/x86_64/stable"),
        commit: String::new(),
        installed_size: 0,
        data_included: true,
        data_bytes,
        data_files: 1,
        data_path: format!("data/{id}"),
    }
}

fn manifest(apps: Vec<AppEntry>) -> Manifest {
    Manifest {
        flatbak: Meta {
            format_version: 1,
            created_at: "2026-09-08T12:00:00Z".to_owned(),
            created_by: "FlatBak 0.1.0".to_owned(),
            host_arch: "x86_64".to_owned(),
            flatpak_version: String::new(),
            excluded_caches: true,
            app_count: apps.len() as u32,
            data_bytes: 0,
        },
        apps,
        remotes: vec![RemoteEntry {
            name: "flathub".to_owned(),
            title: "Flathub".to_owned(),
            url: "https://dl.flathub.org/repo/".to_owned(),
            installation: Installation::System,
        }],
    }
}

/// An archive with this manifest text and payload.
fn archive(text: &str, payload: &[u8]) -> Vec<u8> {
    let compressed = compress_manifest(text, 3).unwrap();
    let mut writer = HashingWriter::new(Vec::new());
    writer.inner_mut().extend_from_slice(payload);
    writer.record(payload);
    let (payload, len, digest) = writer.finish();
    let mut file = Header::new(compressed.len() as u32, len).encode().to_vec();
    file.extend_from_slice(&compressed);
    file.extend_from_slice(&payload);
    file.extend_from_slice(&Trailer { payload_sha256: digest }.encode());
    file
}

fn frame(file: &[u8]) -> Result<Frame, ArchiveError> {
    Frame::check_size(b"/x", file.len() as u64)?;
    let head: [u8; 32] = file[..32].try_into().unwrap();
    let tail: [u8; 40] = file[file.len() - 40..].try_into().unwrap();
    Frame::read(b"/x", file.len() as u64, &head, &tail)
}

fn verify(backup: &Backup, file: &[u8]) -> Result<(), Failure> {
    let mut rest = &file[backup.header.payload_offset() as usize..];
    let mut check: PayloadCheck = backup.verify_payload();
    while let Some(want) = check.want(4, false)? {
        let n = want.min(rest.len());
        let (done, total) = check.feed(&rest[..n])?;
        assert!(done <= total);
        rest = &rest[n..];
    }
    check.finish(&backup.trailer)
}

fn opened(file: &[u8], manifest: Manifest) -> Backup {
    let frame = frame(file).unwrap();
    Backup::open(b"/x", file.len() as u64, frame, Ok(1), Ok(manifest)).unwrap()
}

#[test]
fn written_archives_open_and_verify() {
    let text = "a manifest \u{2014} with text";
    let file = archive(text, b"the compressed payload");
    let frame = frame(&file).unwrap();
    let start = 32;
    let end = start + frame.header.manifest_len as usize;
    assert_eq!(manifest_text(&file[start..end]).unwrap(), text);
    assert_ne!(&file[start..end], text.as_bytes());
    assert_eq!(
        &file[frame.header.payload_offset() as usize..file.len() - 40],
        b"the compressed payload"
    );
    let backup = opened(&file, manifest(Vec::new()));
    assert_eq!(backup.file_size, file.len() as u64);
    assert_eq!(backup.path, b"/x");
    assert!(verify(&backup, &file).is_ok());
}

#[test]
fn an_empty_payload_verifies() {
    let file = archive("m", b"");
    let backup = opened(&file, manifest(Vec::new()));
    assert!(verify(&backup, &file).is_ok());
}

#[test]
fn damaged_payloads_are_found() {
    let mut file = archive("m", b"the compressed payload");
    let backup = opened(&file, manifest(Vec::new()));
    let at = backup.header.payload_offset() as usize + 5;
    file[at] ^= 1;
    assert!(matches!(
        verify(&backup, &file),
        Err(Failure::Archive(ArchiveError::ChecksumMismatch))
    ));
    // The file ends early.
    let cut = &file[..at];
    assert!(matches!(
        verify(&backup, cut),
        Err(Failure::Archive(ArchiveError::Truncated))
    ));
    // Cancelling stops it.
    assert!(matches!(
        backup.verify_payload().want(4, true),
        Err(Failure::Cancelled(_))
    ));
}

#[test]
fn wrong_files_are_told_from_damaged_ones() {
    assert!(matches!(frame(b""), Err(ArchiveError::NotAFlatbakArchive(p)) if p == b"/x"));
    assert!(matches!(frame(&[0u8; 71]), Err(ArchiveError::Truncated)));
    assert!(matches!(
        frame(&[b'z'; 4096]),
        Err(ArchiveError::NotAFlatbakArchive(_))
    ));

    let file = archive("m", b"payload");
    let cut = &file[..file.len() - 3];
    assert!(matches!(frame(cut), Err(ArchiveError::Truncated)));

    let mut longer = file.clone();
    longer.extend_from_slice(b"junk");
    match frame(&longer) {
        Err(ArchiveError::Corrupt(reason)) => {
            assert_eq!(reason, "the file is 4 bytes longer than its header describes")
        }
        other => panic!("{other:?}"),
    }

    let mut bent = file.clone();
    bent[16] ^= 1;
    match frame(&bent) {
        Err(ArchiveError::Corrupt(reason)) => {
            assert_eq!(reason, "the file header failed its checksum")
        }
        other => panic!("{other:?}"),
    }

    let mut ended = file.clone();
    let last = ended.len() - 1;
    ended[last] ^= 1;
    assert!(matches!(frame(&ended), Err(ArchiveError::Truncated)));
}

#[test]
fn lengths_that_cannot_be_are_truncation() {
    let mut file = Header::new(u32::MAX, u64::MAX).encode().to_vec();
    file.extend_from_slice(&[0u8; 100]);
    assert!(matches!(frame(&file), Err(ArchiveError::Truncated)));
}

#[test]
fn manifests_have_to_be_compressed_text() {
    match manifest_text(b"not a frame") {
        Err(ArchiveError::Corrupt(reason)) => assert!(reason.starts_with("manifest: ")),
        other => panic!("{other:?}"),
    }
    match decoded_manifest(Ok(vec![0xff])) {
        Err(ArchiveError::InvalidManifest(reason)) => assert_eq!(reason, "not valid UTF-8"),
        other => panic!("{other:?}"),
    }
    match decoded_manifest(Err("bad block".to_owned())) {
        Err(ArchiveError::Corrupt(reason)) => assert_eq!(reason, "manifest: bad block"),
        other => panic!("{other:?}"),
    }
    assert_eq!(decoded_manifest(Ok(b"abc".to_vec())).unwrap(), "abc");
}

#[test]
fn declared_counts_have_to_match() {
    let file = archive("m", b"");
    let frame = frame(&file).unwrap();
    let mut wrong = manifest(vec![app("org.x.A", "flathub", Installation::User, 1)]);
    wrong.flatbak.app_count = 3;
    match Backup::open(b"/x", 72, frame, Ok(1), Ok(wrong)) {
        Err(ArchiveError::InvalidManifest(reason)) => {
            assert_eq!(reason, "the manifest lists 1 applications but declares 3")
        }
        other => panic!("{other:?}"),
    }
    let mut none = manifest(vec![app("org.x.A", "flathub", Installation::User, 1)]);
    none.flatbak.app_count = 0;
    assert!(Backup::open(b"/x", 72, frame, Ok(1), Ok(none)).is_ok());
    assert!(matches!(
        Backup::open(b"/x", 72, frame, Ok(2), Err(String::new())),
        Err(ArchiveError::UnsupportedVersion { found: 2, supported: 1 })
    ));
}

#[test]
fn opening_failures_name_the_file() {
    let text = |error| open_failure(b"/b/x.flatbak", error).message();
    assert_eq!(text(OpenError::NotFound), "/b/x.flatbak no longer exists.");
    assert_eq!(
        text(OpenError::PermissionDenied),
        "Permission denied reading /b/x.flatbak."
    );
    assert_eq!(
        text(OpenError::Other("too many links".to_owned())),
        "Could not open /b/x.flatbak: too many links"
    );
}

#[test]
fn missing_remotes_depend_on_the_installation() {
    let file = archive("m", b"");
    let backup = opened(
        &file,
        manifest(vec![
            app("org.x.A", "flathub", Installation::System, 1),
            app("org.x.B", "gnome", Installation::User, 1),
            app("org.x.C", "", Installation::User, 1),
            app("org.x.D", "flathub", Installation::System, 1),
        ]),
    );
    let configured = vec![Remote {
        name: "flathub".to_owned(),
        title: String::new(),
        url: String::new(),
        installation: Installation::User,
        disabled: false,
    }];
    let missing = backup.missing_remotes(&configured, false);
    assert_eq!(missing.len(), 2);
    assert_eq!(missing[0].name, "flathub");
    assert_eq!(missing[0].title, "Flathub");
    assert_eq!(missing[0].url, "https://dl.flathub.org/repo/");
    assert_eq!(missing[0].installation, Installation::System);
    assert_eq!(missing[0].apps, ["Name of org.x.A", "Name of org.x.D"]);
    assert!(missing[0].can_add());
    assert_eq!(missing[1].name, "gnome");
    assert_eq!(missing[1].title, "gnome");
    assert!(!missing[1].can_add());

    // The user's remote helps once everything is installed for the user.
    let missing = backup.missing_remotes(&configured, true);
    assert_eq!(missing.len(), 1);
    assert_eq!(missing[0].name, "gnome");
}

// --------------------------------------------------------------- extraction

fn unpack(step: Result<(Option<RestoreProgress>, EntryAction), Failure>) -> Option<Vec<u8>> {
    match step.unwrap().1 {
        EntryAction::Skip => None,
        EntryAction::Unpack { destination, .. } => Some(destination),
    }
}

#[test]
fn extraction_stays_inside_the_data_directory() {
    let apps = vec![
        app("org.example.Demo", "flathub", Installation::User, 100),
        app("org.example.Other", "flathub", Installation::User, 50),
    ];
    let wanted = vec![0usize, 9];
    let mut extraction = Extraction::start(&apps, &wanted, b"/home/u/.var/app").unwrap();

    match extraction.on_entry(Ok(b"data/org.example.Demo".to_vec()), false) {
        Ok((Some(RestoreProgress::ExtractingApp { app }), EntryAction::Unpack { destination, relative, app_id })) => {
            assert_eq!(app, "org.example.Demo");
            assert_eq!(app_id, "org.example.Demo");
            assert_eq!(relative, b"");
            assert_eq!(destination, b"/home/u/.var/app/org.example.Demo");
        }
        other => panic!("{other:?}"),
    }
    let inside = extraction.on_entry(Ok(b"data/org.example.Demo/config/good.txt".to_vec()), false);
    assert!(inside.as_ref().unwrap().0.is_none());
    assert_eq!(
        unpack(inside).unwrap(),
        b"/home/u/.var/app/org.example.Demo/config/good.txt"
    );
    for hostile in [
        &b"data/org.example.Demo/../../canary.txt"[..],
        b"/etc/cron.d/evil",
        b"../../../../etc/evil",
        b"data/org.example.Demo/\xff",
    ] {
        assert_eq!(unpack(extraction.on_entry(Ok(hostile.to_vec()), false)), None);
    }
    // Not selected: skipped without a word.
    let other = extraction.on_entry(Ok(b"data/org.example.Other/secret".to_vec()), false);
    assert_eq!(unpack(other), None);
    assert_eq!(
        unpack(extraction.on_entry(Err("odd header".to_owned()), false)),
        None
    );
    assert!(matches!(
        extraction.on_entry(Ok(b"data/x".to_vec()), true),
        Err(Failure::Cancelled(_))
    ));

    assert!(extraction
        .unpacked("org.example.Demo", b"p", Err("disk full".to_owned()))
        .is_none());
    assert!(extraction.unpacked("org.example.Demo", b"p", Ok(None)).is_none());
    assert!(matches!(
        extraction.unpacked("org.example.Demo", b"p", Ok(Some(30))),
        Some(RestoreProgress::Bytes { done: 30, total: 100 })
    ));

    let (restored, issues) = extraction.finish(&apps, &wanted);
    assert_eq!(restored, ["Name of org.example.Demo"]);
    let texts: Vec<String> = issues.iter().map(Issue::message).collect();
    assert_eq!(
        texts,
        [
            "skipped unsafe archive entry data/org.example.Demo/../../canary.txt \u{2014} not a recognised application data path",
            "skipped unsafe archive entry /etc/cron.d/evil \u{2014} not a recognised application data path",
            "skipped unsafe archive entry ../../../../etc/evil \u{2014} not a recognised application data path",
            "skipped unsafe archive entry data/org.example.Demo/\u{fffd} \u{2014} archive entry has a suspicious path component",
            "skipped unsafe archive entry <unreadable> \u{2014} odd header",
            "org.example.Demo: data could not be restored \u{2014} p: disk full",
        ]
    );
}

#[test]
fn data_that_is_not_there_is_reported() {
    let apps = vec![app("org.x.A", "flathub", Installation::User, 100)];
    let extraction = Extraction::start(&apps, &vec![0], b"/r").unwrap();
    let (restored, issues) = extraction.finish(&apps, &vec![0]);
    assert!(restored.is_empty());
    assert_eq!(
        issues[0].message(),
        "Name of org.x.A: data could not be restored \u{2014} the archive contained no data for it"
    );
}

#[test]
fn claims_that_cannot_be_counted_are_refused() {
    let apps = vec![
        app("org.x.A", "flathub", Installation::User, u64::MAX),
        app("org.x.B", "flathub", Installation::User, 1),
    ];
    assert!(Extraction::start(&apps, &vec![0, 1], b"/r").is_none());
    assert!(Extraction::start(&apps, &vec![0], b"/r").is_some());
}

#[test]
fn entries_are_written_by_kind() {
    let rel = b"config/link";
    assert!(matches!(unpack_entry(EntryKind::Directory, rel), Ok(Unpack::Directory)));
    assert!(matches!(unpack_entry(EntryKind::Regular, rel), Ok(Unpack::File)));
    assert!(matches!(unpack_entry(EntryKind::Continuous, rel), Ok(Unpack::File)));
    match unpack_entry(EntryKind::Symlink(Some(b"../data/x".to_vec())), rel) {
        Ok(Unpack::Symlink(target)) => assert_eq!(target, b"../data/x"),
        other => panic!("{other:?}"),
    }
    let error = |kind| unpack_entry(kind, rel).unwrap_err().message();
    assert_eq!(error(EntryKind::Symlink(None)), "symlink without a target");
    assert_eq!(
        error(EntryKind::Symlink(Some(b"../../x".to_vec()))),
        "symlink points outside the application's data directory"
    );
    assert_eq!(
        error(EntryKind::Symlink(Some(b"/etc/passwd".to_vec()))),
        "symlink points outside the application's data directory"
    );
    assert_eq!(
        error(EntryKind::Other("Link".to_owned())),
        "unsupported archive entry type Link"
    );
}

#[test]
fn links_take_the_place_of_what_is_there() {
    assert_eq!(make_way(Occupant::Directory).unwrap(), Removal::Tree);
    assert_eq!(make_way(Occupant::Other).unwrap(), Removal::File);
    assert_eq!(make_way(Occupant::Nothing).unwrap(), Removal::Nothing);
    assert_eq!(
        make_way(Occupant::Unknown("denied".to_owned())).unwrap_err().message(),
        "denied"
    );
}

// ------------------------------------------------------------------ links

/// Hands `extraction` one entry, as if it were written where that is allowed.
fn put(extraction: &mut Extraction, name: &str, kind: EntryKind) -> Result<(), String> {
    let raw = format!("data/org.x.A{name}").into_bytes();
    match extraction.on_entry(Ok(raw.clone()), false).unwrap().1 {
        EntryAction::Skip => Err("skipped".to_owned()),
        EntryAction::Unpack { app_id, .. } => match extraction.unpack(kind) {
            Ok(_) => {
                extraction.unpacked(&app_id, &raw, Ok(None));
                Ok(())
            }
            Err(error) => {
                extraction.unpacked(&app_id, &raw, Err(error.message()));
                Err(error.message())
            }
        },
    }
}

fn link(target: &str) -> EntryKind {
    EntryKind::Symlink(Some(target.as_bytes().to_vec()))
}

fn one_app() -> (Vec<flatbak::backup::manifest::AppEntry>, Extraction) {
    let apps = vec![app("org.x.A", "flathub", Installation::User, 100)];
    let extraction = Extraction::start(&apps, &vec![0], b"/r").unwrap();
    (apps, extraction)
}

const OUTSIDE: &str = "symlink points outside the application's data directory";

#[test]
fn links_are_followed_through_each_other() {
    // `d/l` is the root, so `d/l/..` lies above it.
    let (apps, mut extraction) = one_app();
    assert_eq!(put(&mut extraction, "/d/l", link("..")), Ok(()));
    assert_eq!(put(&mut extraction, "/k", link("d/l/..")), Err(OUTSIDE.to_owned()));
    // Nothing was written at `k`, so what follows goes to a directory there.
    assert_eq!(put(&mut extraction, "/k/x", EntryKind::Regular), Ok(()));
    let (_, issues) = extraction.finish(&apps, &vec![0]);
    assert_eq!(issues.len(), 1);

    // The same in the other order.
    let (_, mut extraction) = one_app();
    assert_eq!(put(&mut extraction, "/k", link("d/l/..")), Ok(()));
    assert_eq!(put(&mut extraction, "/d/l", link("..")), Err(OUTSIDE.to_owned()));
    assert_eq!(put(&mut extraction, "/d/l", link("../e")), Ok(()));

    // Taking a link away can make another one lead outside as well.
    let (_, mut extraction) = one_app();
    assert_eq!(put(&mut extraction, "/s", link(".")), Ok(()));
    assert_eq!(put(&mut extraction, "/w", link("l/../s/..")), Err(OUTSIDE.to_owned()));
    assert_eq!(put(&mut extraction, "/l", link("p/q")), Ok(()));
    assert_eq!(put(&mut extraction, "/w", link("l/../s/..")), Ok(()));
    assert_eq!(put(&mut extraction, "/l", EntryKind::Directory), Err(OUTSIDE.to_owned()));
    assert_eq!(put(&mut extraction, "/l", EntryKind::Regular), Err(OUTSIDE.to_owned()));
    assert_eq!(put(&mut extraction, "/l", link("r/s")), Ok(()));
}

#[test]
fn links_that_turn_back_inside_are_kept() {
    let (apps, mut extraction) = one_app();
    assert_eq!(put(&mut extraction, "", EntryKind::Directory), Ok(()));
    assert_eq!(put(&mut extraction, "/l", link("sub/deep")), Ok(()));
    assert_eq!(put(&mut extraction, "/k", link("l/../x")), Ok(()));
    assert_eq!(put(&mut extraction, "/plain", link("a/../b")), Ok(()));
    // A link to itself leads nowhere.
    assert_eq!(put(&mut extraction, "/self", link("self")), Ok(()));
    let (restored, issues) = extraction.finish(&apps, &vec![0]);
    assert_eq!(restored, ["Name of org.x.A"]);
    assert!(issues.is_empty(), "{issues:?}");
}

#[test]
fn links_that_lead_nowhere_and_back_are_refused() {
    let (_, mut extraction) = one_app();
    assert_eq!(put(&mut extraction, "/a", link("b")), Ok(()));
    assert_eq!(put(&mut extraction, "/b", link("a")), Ok(()));
    assert_eq!(put(&mut extraction, "/c", link("a/../x")), Err(OUTSIDE.to_owned()));
}

#[test]
fn entries_go_where_links_lead() {
    let (apps, mut extraction) = one_app();
    assert_eq!(put(&mut extraction, "/d", EntryKind::Directory), Ok(()));
    assert_eq!(put(&mut extraction, "/k", link("d")), Ok(()));
    assert_eq!(put(&mut extraction, "/k/x", EntryKind::Regular), Ok(()));
    // Through `k` this is `d/l`, one level down like its own path.
    assert_eq!(put(&mut extraction, "/k/l", link("../e")), Ok(()));
    assert_eq!(put(&mut extraction, "/d/l/y", EntryKind::Regular), Ok(()));
    // A directory in its place replaces the link.
    assert_eq!(put(&mut extraction, "/k", EntryKind::Directory), Ok(()));
    assert_eq!(put(&mut extraction, "/k/x", EntryKind::Regular), Ok(()));
    let (_, issues) = extraction.finish(&apps, &vec![0]);
    assert!(issues.is_empty(), "{issues:?}");
}

#[test]
fn links_are_judged_where_they_land() {
    // `here/m` stands in the root, so `..` is above it, though it is not by its names.
    let (_, mut extraction) = one_app();
    assert_eq!(put(&mut extraction, "/here", link(".")), Ok(()));
    assert_eq!(put(&mut extraction, "/here/m", link("..")), Err(OUTSIDE.to_owned()));
    assert_eq!(put(&mut extraction, "/here/m", link("x")), Ok(()));
    // Its own place is `m` now.
    assert_eq!(put(&mut extraction, "/w", link("m/..")), Ok(()));
    assert_eq!(put(&mut extraction, "/m", link(".")), Err(OUTSIDE.to_owned()));
}

#[test]
fn paths_that_never_end_are_refused() {
    let (apps, mut extraction) = one_app();
    assert_eq!(put(&mut extraction, "/self", link("self")), Ok(()));
    assert_eq!(put(&mut extraction, "/self/x", EntryKind::Regular), Err("skipped".to_owned()));
    assert_eq!(put(&mut extraction, "/self", EntryKind::Directory), Ok(()));
    assert_eq!(put(&mut extraction, "/self/x", EntryKind::Regular), Ok(()));
    let (_, issues) = extraction.finish(&apps, &vec![0]);
    let texts: Vec<String> = issues.iter().map(Issue::message).collect();
    assert_eq!(
        texts,
        ["skipped unsafe archive entry data/org.x.A/self/x \u{2014} archive entry path leads through symlinks to nowhere"]
    );
}

#[test]
fn a_link_that_may_be_gone_is_not_followed() {
    let (_, mut extraction) = one_app();
    assert_eq!(put(&mut extraction, "/k", link("d")), Ok(()));
    assert_eq!(put(&mut extraction, "/k/x", EntryKind::Regular), Ok(()));
    // Replacing the link fails, so it may be there or not.
    let raw = b"data/org.x.A/k".to_vec();
    assert!(extraction.on_entry(Ok(raw.clone()), false).is_ok());
    assert!(extraction.unpack(link("e")).is_ok());
    extraction.unpacked("org.x.A", &raw, Err("name too long".to_owned()));
    assert_eq!(put(&mut extraction, "/k/x", EntryKind::Regular), Err("skipped".to_owned()));
    assert_eq!(put(&mut extraction, "/other/x", EntryKind::Regular), Ok(()));
}

#[test]
fn the_data_directory_itself_is_never_a_link() {
    let (_, mut extraction) = one_app();
    assert_eq!(put(&mut extraction, "", link("org.x.B")), Err(OUTSIDE.to_owned()));
    assert_eq!(put(&mut extraction, "/x", EntryKind::Regular), Ok(()));
}

#[test]
fn a_link_that_was_not_written_counts_for_nothing() {
    let (_, mut extraction) = one_app();
    let raw = b"data/org.x.A/k".to_vec();
    assert!(extraction.on_entry(Ok(raw.clone()), false).is_ok());
    assert!(extraction.unpack(link("elsewhere")).is_ok());
    extraction.unpacked("org.x.A", &raw, Err("disk full".to_owned()));
    assert_eq!(put(&mut extraction, "/k/x", EntryKind::Regular), Ok(()));
}
