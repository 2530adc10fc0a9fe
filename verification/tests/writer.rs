//! Planning and laying out archives.

use std::io::Read;

use flatbak::appdata::DataInfo;
use flatbak::backup::container::HashingWriter;
use flatbak::backup::reader::{
    split_payload_path, unpack_entry, EntryAction, EntryKind, Extraction, Frame, Unpack,
};
use flatbak::backup::writer::{
    compress_manifest, create, host_arch, partial_path_for, plan_symlink, relative_between,
    sized_manifest, strip_app_root, AppSelection, BackupProgress, BackupRequest, ByteCount,
    DataWalk, ExactSizeReader, Scan, SymlinkPlan,
    Writing,
};
use flatbak::error::{Failure, Issue};
use flatbak::flatpak::{InstalledApp, Installation, Remote};

/// Reads everything that `reader` yields, through a buffer of `len` bytes.
fn drain<R: Read>(reader: &mut ExactSizeReader<R>, len: usize) -> Vec<u8> {
    let mut out = Vec::new();
    loop {
        let cap = reader.allowance(len);
        if cap == 0 {
            return out;
        }
        let mut buffer = vec![1u8; cap];
        let read = reader.inner_mut().read(&mut buffer).unwrap();
        let n = reader.supply(&mut buffer, read);
        out.extend_from_slice(&buffer[..n]);
    }
}

#[test]
fn exact_size_reader_pads_short_sources() {
    let source: &[u8] = b"abc";
    let mut reader = ExactSizeReader::new(source, 6);
    let out = drain(&mut reader, 4);
    assert_eq!(out, b"abc\0\0\0");
    assert!(reader.short());
}

#[test]
fn empty_buffers_say_nothing_about_the_source() {
    let source: &[u8] = b"abc";
    let mut reader = ExactSizeReader::new(source, 3);
    assert_eq!(reader.supply(&mut Vec::new(), 0), 0);
    assert!(!reader.short());
    assert_eq!(drain(&mut reader, 2), b"abc");
    assert!(!reader.short());
    assert_eq!(reader.supply(&mut Vec::new(), 0), 0);
    assert!(!reader.short());
}

#[test]
fn exact_size_reader_truncates_long_sources() {
    let source: &[u8] = b"abcdef";
    let mut reader = ExactSizeReader::new(source, 3);
    let out = drain(&mut reader, 2);
    assert_eq!(out, b"abc");
    assert!(!reader.short());
}

#[test]
fn relative_between_walks_up_to_the_common_ancestor() {
    assert_eq!(
        relative_between(
            b"config/libvirt/storage/autostart",
            b"config/libvirt/storage/boxes.xml"
        ),
        b"../boxes.xml"
    );
    assert_eq!(relative_between(b"config", b"data/file"), b"../data/file");
    assert_eq!(relative_between(b"", b"data/file"), b"data/file");
    assert_eq!(relative_between(b"a/b", b"a/b"), b".");
}

#[test]
fn partial_path_sits_next_to_the_target() {
    assert_eq!(
        partial_path_for(b"/backups/mine.flatbak"),
        b"/backups/mine.flatbak.part"
    );
    assert_eq!(partial_path_for(b""), b".part");
    assert_eq!(partial_path_for(b"/"), b"/.part");
}

#[test]
fn architectures_have_flatpak_names() {
    assert_eq!(host_arch("x86"), "i386");
    assert_eq!(host_arch("x86_64"), "x86_64");
    assert_eq!(host_arch("aarch64"), "aarch64");
    assert_eq!(host_arch("riscv64"), "riscv64");
}

// ----------------------------------------------------------------- planning

fn installed(id: &str, origin: &str) -> InstalledApp {
    InstalledApp {
        id: id.to_owned(),
        name: format!("Name of {id}"),
        version: "1".to_owned(),
        branch: "stable".to_owned(),
        arch: "x86_64".to_owned(),
        origin: origin.to_owned(),
        installation: Installation::User,
        reference: format!("app/{id}/x86_64/stable"),
        commit: "c".to_owned(),
        installed_size: Some(7),
    }
}

fn remote(name: &str) -> Remote {
    Remote {
        name: name.to_owned(),
        title: String::new(),
        url: format!("https://{name}/"),
        installation: Installation::User,
        disabled: false,
    }
}

fn data(total: u64, cache: u64) -> DataInfo {
    DataInfo {
        present: true,
        total_bytes: total,
        cache_bytes: cache,
        file_count: 3,
        error: None,
    }
}

fn request(apps: Vec<AppSelection>) -> BackupRequest {
    BackupRequest {
        destination: b"/b/x.flatbak".to_vec(),
        apps,
        exclude_caches: true,
        compression_level: 10,
        remotes: vec![remote("flathub"), remote("unused")],
        flatpak_version: "1.18.2".to_owned(),
    }
}

#[test]
fn a_plan_records_what_is_selected() {
    let selections = vec![
        AppSelection { app: installed("org.x.A", "flathub"), include_data: true },
        AppSelection { app: installed("org.x.B", "gone"), include_data: false },
        AppSelection { app: installed("org.x.C", "-"), include_data: true },
        AppSelection { app: installed("org.x.D", ""), include_data: true },
        AppSelection { app: installed("org.x.E", "flathub"), include_data: true },
    ];
    let infos = [
        data(100, 40),
        data(9, 0),
        DataInfo { error: Some("denied".to_owned()), ..DataInfo::default() },
        data(50, 50),
        data(10, 20),
    ];
    let request = request(selections);
    let mut scan = Scan::new();
    let mut seen = Vec::new();
    while let Some((index, progress)) = scan.next(&request, false).unwrap() {
        match progress {
            BackupProgress::Scanning { app, index: at, total } => {
                assert_eq!((at, total), (index, 5));
                seen.push(app);
            }
            other => panic!("{other:?}"),
        }
        scan.take(&request.apps[index], &infos[index], true, b"/r");
    }
    assert_eq!(seen.len(), 5);
    assert_eq!(seen[0], "Name of org.x.A");

    let plan = scan.plan(&request, "now".to_owned(), "x86_64".to_owned());
    assert_eq!(plan.sources, [0, 4]);
    assert_eq!(plan.data_app_count, 2);
    assert_eq!(plan.needed, ["-", "flathub", "gone"]);
    let meta = &plan.manifest.flatbak;
    assert_eq!(meta.format_version, 1);
    assert_eq!(meta.created_at, "now");
    assert_eq!(meta.created_by, "FlatBak 0.1.0");
    assert_eq!(meta.flatpak_version, "1.18.2");
    assert!(meta.excluded_caches);
    assert_eq!(meta.app_count, 5);
    assert_eq!(meta.data_bytes, 60);
    let first = &plan.manifest.apps[0];
    assert!(first.data_included);
    assert_eq!(first.data_bytes, 60);
    assert_eq!(first.data_files, 3);
    assert_eq!(first.data_path, "data/org.x.A");
    assert_eq!(first.installed_size, 7);
    assert!(!plan.manifest.apps[3].data_included);
    assert!(plan.manifest.apps[4].data_included);
    assert_eq!(plan.manifest.remotes.len(), 1);
    assert_eq!(plan.manifest.remotes[0].url, "https://flathub/");
    let issues: Vec<String> = plan.issues.iter().map(Issue::message).collect();
    assert_eq!(
        issues,
        [
            "Name of org.x.C: installed without a remote, so it cannot be reinstalled automatically",
            "/r/org.x.C: could not be read \u{2014} denied",
            "Name of org.x.C: no application data found, nothing to back up",
            "Name of org.x.D: installed without a remote, so it cannot be reinstalled automatically",
            "Name of org.x.D: only cached data found, nothing backed up",
            "the remote \u{201c}-\u{201d} is no longer configured, so its URL could not be recorded",
            "the remote \u{201c}gone\u{201d} is no longer configured, so its URL could not be recorded",
        ]
    );
    assert!(plan.manifest.validate().is_ok());
}

#[test]
fn an_archive_is_written_part_by_part() {
    let request = request(vec![
        AppSelection { app: installed("org.x.A", "flathub"), include_data: false },
        AppSelection { app: installed("org.x.B", "flathub"), include_data: true },
    ]);
    let mut scan = create();
    scan.take(&request.apps[0], &DataInfo::default(), true, b"/r");
    scan.take(&request.apps[1], &data(100, 40), true, b"/r");
    let plan = scan.plan(&request, "now".to_owned(), "x86_64".to_owned());
    let manifest = compress_manifest("the manifest", 10).unwrap();

    let mut writing = Writing::start(plan, &manifest);
    let mut file = writing.reserved().encode().to_vec();
    file.extend_from_slice(&manifest);
    assert!(matches!(writing.next(&request, true), Err(Failure::Cancelled(_))));
    match writing.next(&request, false) {
        Ok((BackupProgress::Writing { app, index: 0, total: 1 }, Some(1))) => {
            assert_eq!(app, "Name of org.x.B")
        }
        other => panic!("{other:?}"),
    }
    assert!(matches!(writing.counted(60), BackupProgress::Bytes { done: 60, total: 60 }));
    writing.appended(vec![Issue::Other { message: "odd".to_owned() }]);
    assert!(matches!(
        writing.next(&request, true),
        Ok((BackupProgress::Finalising, None))
    ));

    let mut payload = HashingWriter::new(file);
    payload.inner_mut().extend_from_slice(b"the payload");
    payload.record(b"the payload");
    let (mut file, trailer, header) = writing.seal(payload);
    file.extend_from_slice(&trailer.encode());
    file[..32].copy_from_slice(&header.encode());

    let size = file.len();
    let frame = Frame::read(
        b"/b",
        size as u64,
        file[..32].try_into().unwrap(),
        file[size - 40..].try_into().unwrap(),
    )
    .unwrap();
    assert_eq!(frame.header, header);
    assert_eq!(frame.trailer, trailer);
    assert_eq!(&file[frame.header.payload_offset() as usize..size - 40], b"the payload");

    let report = writing.finish(b"/b/x.flatbak".to_vec(), size as u64);
    assert_eq!(report.path, b"/b/x.flatbak");
    assert_eq!(report.archive_bytes, size as u64);
    assert_eq!((report.app_count, report.data_app_count, report.data_bytes), (2, 1, 60));
    assert_eq!(report.issues, [Issue::Other { message: "odd".to_owned() }]);
}

#[test]
fn stored_entries_go_back_to_their_place() {
    let entries = vec![flatbak::backup::manifest::AppEntry::from_installed(&installed(
        "org.x.A", "flathub",
    ))];
    let mut walk = DataWalk::start(b"/old/org.x.A", "org.x.A", true);
    walk.next_dir(false).unwrap().unwrap();
    let config = walk.consider(Ok(b"config".to_vec()), false).unwrap().unwrap();
    walk.enter(config);
    walk.next_dir(false).unwrap().unwrap();
    let stored = walk.consider(Ok(b"settings.ini".to_vec()), false).unwrap().unwrap();
    assert_eq!(stored.path, b"/old/org.x.A/config/settings.ini");

    let mut extraction = Extraction::start(&entries, &vec![0], b"/new").unwrap();
    match extraction.on_entry(Ok(stored.archive_path), false) {
        Ok((_, EntryAction::Unpack { app_id, relative, destination })) => {
            assert_eq!(app_id, "org.x.A");
            assert_eq!(relative, b"config/settings.ini");
            assert_eq!(destination, b"/new/org.x.A/config/settings.ini");
        }
        other => panic!("{other:?}"),
    }
}

#[test]
fn scanning_can_be_cancelled() {
    let request = request(vec![AppSelection {
        app: installed("org.x.A", "flathub"),
        include_data: true,
    }]);
    assert!(matches!(
        Scan::new().next(&request, true),
        Err(Failure::Cancelled(_))
    ));
    let mut scan = Scan::new();
    scan.take(&request.apps[0], &DataInfo::default(), true, b"/r");
    assert!(scan.next(&request, true).unwrap().is_none());
}

#[test]
fn manifests_are_compressed() {
    let text = "abc".repeat(1000);
    let small = compress_manifest(&text, 10).unwrap();
    assert!(small.len() < text.len());
    assert_eq!(zstd::decode_all(small.as_slice()).unwrap(), text.as_bytes());
    match sized_manifest(Err("no memory".to_owned())) {
        Err(error) => {
            assert_eq!(error.message(), "Could not compress the backup manifest");
            assert_eq!(error.chain(), "Could not compress the backup manifest: no memory");
        }
        other => panic!("{other:?}"),
    }
    assert_eq!(sized_manifest(Ok(vec![1, 2])).unwrap(), [1, 2]);
}

#[test]
fn bytes_are_counted_without_overflow() {
    let mut count = ByteCount::new(10);
    assert!(matches!(count.advance(4), BackupProgress::Bytes { done: 4, total: 10 }));
    assert!(matches!(count.advance(5), BackupProgress::Bytes { done: 9, total: 10 }));
    assert!(matches!(count.advance(u64::MAX), BackupProgress::Bytes { done: u64::MAX, total: 10 }));
}

// ------------------------------------------------------------------ walking

#[test]
fn a_walk_leaves_the_cache_out() {
    let mut walk = DataWalk::start(b"/v/org.x.A", "org.x.A", true);
    assert_eq!(walk.prefix(), b"data/org.x.A");
    assert_eq!(walk.next_dir(false).unwrap().unwrap(), b"/v/org.x.A/");

    assert!(walk.consider(Ok(b"cache".to_vec()), false).unwrap().is_none());
    let config = walk.consider(Ok(b"config".to_vec()), false).unwrap().unwrap();
    assert_eq!(config.relative, b"config");
    assert_eq!(config.path, b"/v/org.x.A/config");
    assert_eq!(config.archive_path, b"data/org.x.A/config");
    walk.enter(config);
    assert!(walk.consider(Err("gone".to_owned()), false).unwrap().is_none());

    assert_eq!(walk.next_dir(false).unwrap().unwrap(), b"/v/org.x.A/config");
    // Only the cache at the top is one.
    let inner = walk.consider(Ok(b"cache".to_vec()), false).unwrap().unwrap();
    assert_eq!(inner.archive_path, b"data/org.x.A/config/cache");
    let (id, rest) = split_payload_path(&inner.archive_path).unwrap();
    assert_eq!((id.as_str(), rest), ("org.x.A", inner.relative.clone()));
    walk.dir_failed("denied");
    walk.failed(&inner.path, "vanished");
    walk.skipped(&inner.path, "not a regular file");
    walk.stored(&inner.path, false);
    walk.stored(&inner.path, true);
    assert!(walk.next_dir(true).unwrap().is_none());

    let issues: Vec<String> = walk.finish().iter().map(Issue::message).collect();
    assert_eq!(
        issues,
        [
            "/v/org.x.A/: could not be read \u{2014} gone",
            "/v/org.x.A/config: could not be read \u{2014} denied",
            "/v/org.x.A/config/cache: could not be read \u{2014} vanished",
            "/v/org.x.A/config/cache: skipped, not a regular file",
            "/v/org.x.A/config/cache: changed while being backed up and was padded to its original size",
        ]
    );
}

#[test]
fn a_walk_can_be_cancelled() {
    let mut walk = DataWalk::start(b"/v/a", "a", false);
    assert!(matches!(walk.next_dir(true), Err(Failure::Cancelled(_))));
    walk.next_dir(false).unwrap().unwrap();
    assert!(matches!(
        walk.consider(Ok(b"x".to_vec()), true),
        Err(Failure::Cancelled(_))
    ));
    // Caches are kept when they are not excluded.
    assert!(walk.consider(Ok(b"cache".to_vec()), false).unwrap().is_some());
}

// -------------------------------------------------------------------- links

fn plan(target: &[u8], link: &[u8]) -> Result<Vec<u8>, String> {
    match plan_symlink(
        Ok(target.to_vec()),
        b"/home/u/.var/app/org.x.A",
        &Some(b"/var/home/u/.var/app/org.x.A".to_vec()),
        link,
    ) {
        SymlinkPlan::Store(target) => Ok(target),
        SymlinkPlan::Skip(reason) => Err(reason),
    }
}

#[test]
fn links_are_stored_relative() {
    assert_eq!(plan(b"../library.db", b"data/link").unwrap(), b"../library.db");
    assert_eq!(
        plan(b"/home/u/.var/app/org.x.A/data/file", b"config/link").unwrap(),
        b"../data/file"
    );
    assert_eq!(
        plan(b"/var/home/u/.var/app/org.x.A/data/file", b"link").unwrap(),
        b"data/file"
    );
    assert_eq!(plan(b"/home/u/.var/app/org.x.A", b"link").unwrap(), b".");
    assert_eq!(plan(b"/home/u/.var/app/org.x.A", b"a/b/link").unwrap(), b"../..");
    assert_eq!(
        plan(b"/home/u/.var/app/org.x.A/data/../file", b"data/link").unwrap(),
        b"../file"
    );
    assert_eq!(
        plan(b"/home/u/.var/app/org.x.A/data/../file", b"config/link").unwrap(),
        b"../data/../file"
    );
    for stored in [
        plan(b"../library.db", b"data/link").unwrap(),
        plan(b"/home/u/.var/app/org.x.A/x", b"data/link").unwrap(),
    ] {
        assert!(matches!(
            unpack_entry(EntryKind::Symlink(Some(stored)), b"data/link"),
            Ok(Unpack::Symlink(_))
        ));
    }
}

#[test]
fn links_that_lead_outside_are_left_out() {
    assert_eq!(
        plan(b"/run/user/1000/bus", b"link").unwrap_err(),
        "it points to /run/user/1000/bus, outside the application's data folder"
    );
    assert_eq!(
        plan(b"../x", b"link").unwrap_err(),
        "it points to ../x, outside the application's data folder"
    );
    assert_eq!(
        plan(b"/home/u/.var/app/org.x.A/../B", b"link").unwrap_err(),
        "it points to ../B, outside the application's data folder"
    );
    match plan_symlink(Err("denied".to_owned()), b"/r", &None, b"link") {
        SymlinkPlan::Skip(reason) => assert_eq!(reason, "could not be read: denied"),
        other => panic!("{other:?}"),
    }
}

#[test]
fn roots_are_stripped_by_component() {
    let strip = |root: &str, canonical: Option<&str>, target: &str| {
        strip_app_root(
            root.as_bytes(),
            &canonical.map(|path| path.as_bytes().to_vec()),
            target.as_bytes(),
        )
        .map(|path| String::from_utf8(path).unwrap())
    };
    assert_eq!(strip("/a/b", None, "/a/b/c/d"), Some("c/d".to_owned()));
    assert_eq!(strip("/a/b", None, "/a/b"), Some(String::new()));
    assert_eq!(strip("/a/b", None, "/a/bc"), None);
    assert_eq!(strip("/a/b", Some("/x"), "/x/y"), Some("y".to_owned()));
    assert_eq!(strip("/a/b", Some("/x"), "/z/y"), None);
    assert_eq!(strip("/a//b/", None, "/a/./b//c"), Some("c".to_owned()));
}
