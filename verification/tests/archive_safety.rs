//! Whole archives in memory: damaged ones, deliberately hostile ones, and ones that
//! go through a backup and a restore.
//!
//! The hostile archives are assembled byte by byte rather than through the writer,
//! so the reader is tested against input it would never produce itself.

use std::collections::BTreeMap;
use std::io::{Read, Write};

use flatbak::appdata::{inspect, Found, Measure, Occupant};
use flatbak::backup::container::{HashingWriter, Header, Trailer, HEADER_LEN};
use flatbak::backup::extract::make_way;
use flatbak::backup::manifest::{AppEntry, Manifest, Meta, RemoteEntry};
use flatbak::backup::reader::{
    manifest_text, restore, Backup, ConflictChoice, EntryAction, EntryKind,
    Extraction, Frame, RestoreAction, RestoreReport, RestoreRequest, RestoreSelection, Unpack,
};
use flatbak::backup::writer::{
    compress_manifest, create, plan_symlink, AppSelection, BackupReport, BackupRequest, DataWalk,
    SymlinkPlan, Writing,
};
use flatbak::error::{ArchiveError, Failure, Issue};
use flatbak::flatpak::{InstalledApp, Installation, Remote};

const APP_ID: &str = "org.example.Demo";
const ROOT: &[u8] = b"/home/u/.var/app";

// ---------------------------------------------------------------- TOML

fn text_at(table: &toml::Table, key: &str) -> Result<String, String> {
    match table.get(key) {
        Some(value) => Ok(value.as_str().ok_or("not text")?.to_owned()),
        None => Err(format!("missing field `{key}`")),
    }
}

fn number_at(table: &toml::Table, key: &str) -> u64 {
    table
        .get(key)
        .and_then(|value| value.as_integer())
        .map_or(0, |number| number as u64)
}

fn flag_at(table: &toml::Table, key: &str) -> bool {
    table
        .get(key)
        .and_then(|value| value.as_bool())
        .unwrap_or(false)
}

fn tables_at<'a>(table: &'a toml::Table, key: &str) -> Vec<&'a toml::Table> {
    let items = table.get(key).and_then(|value| value.as_array());
    items
        .into_iter()
        .flatten()
        .filter_map(|value| value.as_table())
        .collect()
}

fn version_in(text: &str) -> Result<u32, String> {
    let table: toml::Table = text.parse().map_err(|_| "not TOML".to_owned())?;
    let meta = table.get("flatbak").and_then(|value| value.as_table());
    Ok(number_at(meta.ok_or("missing field `flatbak`")?, "format_version") as u32)
}

fn manifest_in(text: &str) -> Result<Manifest, String> {
    let table: toml::Table = text.parse().map_err(|_| "not TOML".to_owned())?;
    let meta = table.get("flatbak").and_then(|value| value.as_table());
    let meta = meta.ok_or("missing field `flatbak`")?;
    let mut apps = Vec::new();
    for app in tables_at(&table, "app") {
        apps.push(AppEntry {
            id: text_at(app, "id")?,
            name: text_at(app, "name").unwrap_or_default(),
            version: text_at(app, "version").unwrap_or_default(),
            branch: text_at(app, "branch")?,
            arch: text_at(app, "arch")?,
            origin: text_at(app, "origin").unwrap_or_default(),
            installation: Installation::from(text_at(app, "installation")?),
            reference: text_at(app, "ref")?,
            commit: text_at(app, "commit").unwrap_or_default(),
            installed_size: number_at(app, "installed_size"),
            data_included: flag_at(app, "data_included"),
            data_bytes: number_at(app, "data_bytes"),
            data_files: number_at(app, "data_files"),
            data_path: text_at(app, "data_path").unwrap_or_default(),
        });
    }
    let mut remotes = Vec::new();
    for remote in tables_at(&table, "remote") {
        remotes.push(RemoteEntry {
            name: text_at(remote, "name")?,
            title: text_at(remote, "title").unwrap_or_default(),
            url: text_at(remote, "url")?,
            installation: Installation::from(text_at(remote, "installation")?),
        });
    }
    Ok(Manifest {
        flatbak: Meta {
            format_version: number_at(meta, "format_version") as u32,
            created_at: text_at(meta, "created_at")?,
            created_by: text_at(meta, "created_by")?,
            host_arch: text_at(meta, "host_arch")?,
            flatpak_version: text_at(meta, "flatpak_version").unwrap_or_default(),
            excluded_caches: flag_at(meta, "excluded_caches"),
            app_count: number_at(meta, "app_count") as u32,
            data_bytes: number_at(meta, "data_bytes"),
        },
        apps,
        remotes,
    })
}

fn from_toml(text: &str) -> Result<Manifest, ArchiveError> {
    Manifest::from_toml(version_in(text), manifest_in(text))
}

fn quoted(text: &str) -> String {
    toml::Value::String(text.to_owned()).to_string()
}

fn to_toml(manifest: &Manifest) -> String {
    let meta = &manifest.flatbak;
    let mut out = format!(
        "[flatbak]\nformat_version = {}\ncreated_at = {}\ncreated_by = {}\nhost_arch = {}\n\
         flatpak_version = {}\nexcluded_caches = {}\napp_count = {}\ndata_bytes = {}\n",
        meta.format_version,
        quoted(&meta.created_at),
        quoted(&meta.created_by),
        quoted(&meta.host_arch),
        quoted(&meta.flatpak_version),
        meta.excluded_caches,
        meta.app_count,
        meta.data_bytes,
    );
    for app in &manifest.apps {
        out += &format!(
            "\n[[app]]\nid = {}\nname = {}\nversion = {}\nbranch = {}\narch = {}\norigin = {}\n\
             installation = {}\nref = {}\ncommit = {}\ninstalled_size = {}\n\
             data_included = {}\ndata_bytes = {}\ndata_files = {}\ndata_path = {}\n",
            quoted(&app.id),
            quoted(&app.name),
            quoted(&app.version),
            quoted(&app.branch),
            quoted(&app.arch),
            quoted(&app.origin),
            quoted(app.installation.as_str()),
            quoted(&app.reference),
            quoted(&app.commit),
            app.installed_size,
            app.data_included,
            app.data_bytes,
            app.data_files,
            quoted(&app.data_path),
        );
    }
    for remote in &manifest.remotes {
        out += &format!(
            "\n[[remote]]\nname = {}\ntitle = {}\nurl = {}\ninstallation = {}\n",
            quoted(&remote.name),
            quoted(&remote.title),
            quoted(&remote.url),
            quoted(remote.installation.as_str()),
        );
    }
    out
}

fn sample() -> Manifest {
    Manifest {
        flatbak: Meta {
            format_version: 1,
            created_at: "2026-09-08T12:00:00Z".to_owned(),
            created_by: "FlatBak 0.1.0".to_owned(),
            host_arch: "x86_64".to_owned(),
            flatpak_version: "1.18.2".to_owned(),
            excluded_caches: true,
            app_count: 1,
            data_bytes: 1234,
        },
        apps: vec![AppEntry {
            id: "org.videolan.VLC".to_owned(),
            name: "VLC".to_owned(),
            version: "3.0.21".to_owned(),
            branch: "stable".to_owned(),
            arch: "x86_64".to_owned(),
            origin: "flathub".to_owned(),
            installation: Installation::System,
            reference: "app/org.videolan.VLC/x86_64/stable".to_owned(),
            commit: "abc123".to_owned(),
            installed_size: 13_000_000,
            data_included: true,
            data_bytes: 1234,
            data_files: 7,
            data_path: "data/org.videolan.VLC".to_owned(),
        }],
        remotes: vec![RemoteEntry {
            name: "flathub".to_owned(),
            title: "Flathub".to_owned(),
            url: "https://dl.flathub.org/repo/".to_owned(),
            installation: Installation::System,
        }],
    }
}

#[test]
fn round_trips_through_toml() {
    let text = to_toml(&sample());
    let parsed = from_toml(&text).unwrap();
    assert_eq!(parsed.apps.len(), 1);
    assert_eq!(parsed.apps[0].id, "org.videolan.VLC");
    assert_eq!(parsed.apps[0].installation, Installation::System);
    assert_eq!(parsed.remotes[0].url, "https://dl.flathub.org/repo/");
    assert!(parsed.flatbak.excluded_caches);
}

#[test]
fn ignores_unknown_future_keys() {
    let mut text = to_toml(&sample());
    text.push_str("\n[flatbak.future]\nsomething = true\n");
    let parsed = from_toml(&text);
    assert!(parsed.is_ok(), "unknown keys must not break parsing: {parsed:?}");
}

// ---------------------------------------------------------------- tar building

/// Writes a name straight into the header, bypassing any validation the tar
/// crate would apply, so hostile paths can be produced at all.
fn set_name(header: &mut tar::Header, name: &str) {
    let bytes = name.as_bytes();
    assert!(bytes.len() < 100, "test names must fit the old tar header");
    header.as_old_mut().name[..bytes.len()].copy_from_slice(bytes);
}

fn set_link(header: &mut tar::Header, target: &str) {
    let bytes = target.as_bytes();
    assert!(bytes.len() < 100);
    header.as_old_mut().linkname[..bytes.len()].copy_from_slice(bytes);
}

enum Entry {
    File { name: String, data: Vec<u8> },
    Dir { name: String },
    Symlink { name: String, target: String },
    HardLink { name: String, target: String },
}

fn file(name: &str, data: &str) -> Entry {
    Entry::File {
        name: name.to_owned(),
        data: data.as_bytes().to_vec(),
    }
}

/// Assembles a tar stream from raw entries, including the trailing zero blocks.
fn build_tar(entries: &[Entry]) -> Vec<u8> {
    let mut out = Vec::new();
    for entry in entries {
        let mut header = tar::Header::new_gnu();
        header.set_mode(0o644);
        header.set_mtime(0);
        header.set_uid(0);
        header.set_gid(0);

        let payload: &[u8] = match entry {
            Entry::File { name, data } => {
                header.set_entry_type(tar::EntryType::Regular);
                header.set_size(data.len() as u64);
                set_name(&mut header, name);
                data
            }
            Entry::Dir { name } => {
                header.set_entry_type(tar::EntryType::Directory);
                header.set_mode(0o755);
                header.set_size(0);
                set_name(&mut header, name);
                &[]
            }
            Entry::Symlink { name, target } => {
                header.set_entry_type(tar::EntryType::Symlink);
                header.set_size(0);
                set_name(&mut header, name);
                set_link(&mut header, target);
                &[]
            }
            Entry::HardLink { name, target } => {
                header.set_entry_type(tar::EntryType::Link);
                header.set_size(0);
                set_name(&mut header, name);
                set_link(&mut header, target);
                &[]
            }
        };

        header.set_cksum();
        out.extend_from_slice(header.as_bytes());
        out.extend_from_slice(payload);
        // Pad the data to the 512-byte block boundary.
        let remainder = payload.len() % 512;
        if remainder != 0 {
            out.extend(std::iter::repeat(0u8).take(512 - remainder));
        }
    }
    // End-of-archive marker.
    out.extend(std::iter::repeat(0u8).take(1024));
    out
}

// ---------------------------------------------------- container assembly

fn manifest_toml(format_version: u32, data_included: bool) -> String {
    format!(
        r#"[flatbak]
format_version = {format_version}
created_at = "2026-09-08T12:00:00Z"
created_by = "test"
host_arch = "x86_64"
app_count = 1

[[app]]
id = "{APP_ID}"
name = "Demo"
branch = "stable"
arch = "x86_64"
origin = "flathub"
installation = "user"
ref = "app/{APP_ID}/x86_64/stable"
data_included = {data_included}
data_bytes = 64
data_path = "data/{APP_ID}"
"#
    )
}

/// A complete, internally consistent `.flatbak` file.
fn write_archive(manifest: &str, payload_tar: &[u8]) -> Vec<u8> {
    let manifest_z = zstd::encode_all(manifest.as_bytes(), 1).unwrap();
    let payload_z = zstd::encode_all(payload_tar, 1).unwrap();

    let mut bytes = Vec::new();
    bytes.extend_from_slice(&Header::new(manifest_z.len() as u32, payload_z.len() as u64).encode());
    bytes.extend_from_slice(&manifest_z);
    bytes.extend_from_slice(&payload_z);

    let mut hashing = HashingWriter::new(());
    hashing.record(&payload_z);
    let (_, _, digest) = hashing.finish();
    bytes.extend_from_slice(&Trailer { payload_sha256: digest }.encode());
    bytes
}

fn open(file: &[u8]) -> Result<Backup, ArchiveError> {
    let path = b"/b/x.flatbak";
    let size = file.len() as u64;
    Frame::check_size(path, size)?;
    let head = file[..32].try_into().unwrap();
    let tail = file[file.len() - 40..].try_into().unwrap();
    let frame = Frame::read(path, size, head, tail)?;
    let end = frame.header.payload_offset() as usize;
    let text = manifest_text(&file[HEADER_LEN as usize..end])?;
    Backup::open(path, size, frame, version_in(&text), manifest_in(&text))
}

fn payload_of<'a>(backup: &Backup, file: &'a [u8]) -> &'a [u8] {
    let start = backup.header.payload_offset() as usize;
    &file[start..start + backup.header.payload_len as usize]
}

fn verify(backup: &Backup, file: &[u8]) -> Result<(), Failure> {
    let mut rest = payload_of(backup, file);
    let mut check = backup.verify_payload();
    while let Some(want) = check.want(1 << 20, false)? {
        check.feed(&rest[..want])?;
        rest = &rest[want..];
    }
    check.finish(&backup.trailer)
}

// ------------------------------------------------------------ a file system

/// What is at a path.
#[derive(Debug, Clone, PartialEq)]
enum Node {
    Dir,
    File(Vec<u8>),
    Link(Vec<u8>),
}

type Tree = BTreeMap<String, Node>;

fn name_of(bytes: &[u8]) -> String {
    String::from_utf8(bytes.to_vec()).unwrap()
}

/// The names in a directory, and what they are.
fn children<'a>(tree: &'a Tree, dir: &str) -> Vec<(String, &'a Node)> {
    let start = format!("{}/", dir.trim_end_matches('/'));
    tree.iter()
        .filter_map(|(path, node)| {
            let name = path.strip_prefix(&start)?;
            (!name.is_empty() && !name.contains('/')).then_some((name.to_owned(), node))
        })
        .collect()
}

fn size_of(node: &Node) -> u64 {
    match node {
        Node::Dir => 0,
        Node::File(data) => data.len() as u64,
        Node::Link(target) => target.len() as u64,
    }
}

fn measure(tree: &Tree, dir: &str) -> (u64, u64, Option<String>) {
    let mut walk = Measure::start(dir.as_bytes(), None);
    while let Some(current) = walk.next() {
        let current = name_of(&current);
        for (name, node) in children(tree, &current) {
            let path = format!("{current}/{name}");
            walk.entry(path.as_bytes(), *node == Node::Dir, size_of(node));
        }
    }
    walk.finish()
}

fn found(tree: &Tree, app_id: &str) -> Found {
    let dir = format!("{}/{app_id}", name_of(ROOT));
    let cache = format!("{dir}/cache");
    if !tree.contains_key(&dir) {
        return Found::Nothing;
    }
    let (total_bytes, file_count, error) = measure(tree, &dir);
    Found::Directory {
        total_bytes,
        file_count,
        cache_bytes: tree.contains_key(&cache).then(|| measure(tree, &cache).0),
        error,
    }
}

/// Adds one application's data to a tar stream.
fn append_app_data<W: Write>(
    tar: &mut tar::Builder<W>,
    tree: &Tree,
    app_id: &str,
    exclude_caches: bool,
) -> Vec<Issue> {
    let root = format!("{}/{app_id}", name_of(ROOT));
    let mut walk = DataWalk::start(root.as_bytes(), app_id, exclude_caches);
    let mut add = |path: &[u8], kind: tar::EntryType, data: &[u8], target: Option<&[u8]>| {
        let mut header = tar::Header::new_gnu();
        header.set_entry_type(kind);
        header.set_size(data.len() as u64);
        header.set_mode(0o644);
        let path = name_of(path);
        match target {
            Some(target) => tar.append_link(&mut header, path, name_of(target)).unwrap(),
            None => tar.append_data(&mut header, path, data).unwrap(),
        }
    };
    add(walk.prefix(), tar::EntryType::Directory, b"", None);
    while let Some(current) = walk.next_dir(false).unwrap() {
        for (name, node) in children(tree, &name_of(&current)) {
            let Some(child) = walk.consider(Ok(name.into_bytes()), false).unwrap() else {
                continue;
            };
            match node {
                Node::Dir => {
                    add(&child.archive_path, tar::EntryType::Directory, b"", None);
                    walk.enter(child);
                }
                Node::File(data) => {
                    add(&child.archive_path, tar::EntryType::Regular, data, None);
                    walk.stored(&child.path, false);
                }
                Node::Link(target) => {
                    match plan_symlink(Ok(target.clone()), root.as_bytes(), &None, &child.relative) {
                        SymlinkPlan::Store(stored) => {
                            add(&child.archive_path, tar::EntryType::Symlink, b"", Some(&stored))
                        }
                        SymlinkPlan::Skip(reason) => walk.skipped(&child.path, &reason),
                    }
                }
            }
        }
    }
    walk.finish()
}

/// Backs up what is in `tree`.
fn back_up(tree: &Tree, request: &BackupRequest) -> (Vec<u8>, BackupReport) {
    let mut scan = create();
    while let Some((index, _)) = scan.next(request, false).unwrap() {
        let selection = &request.apps[index];
        let info = inspect(found(tree, &selection.app.id));
        scan.take(selection, &info, request.exclude_caches, ROOT);
    }
    let plan = scan.plan(request, "2026-09-08T12:00:00Z".to_owned(), "x86_64".to_owned());
    let manifest = compress_manifest(&to_toml(&plan.manifest), request.compression_level).unwrap();

    let mut writing = Writing::start(plan, &manifest);
    let mut file = writing.reserved().encode().to_vec();
    file.extend_from_slice(&manifest);

    let mut tar = tar::Builder::new(Vec::new());
    while let (_, Some(index)) = writing.next(request, false).unwrap() {
        let app_id = &request.apps[index].app.id;
        writing.appended(append_app_data(&mut tar, tree, app_id, request.exclude_caches));
    }
    let tar = tar.into_inner().unwrap();
    let payload = zstd::encode_all(tar.as_slice(), request.compression_level).unwrap();
    let mut hashing = HashingWriter::new(file);
    hashing.inner_mut().extend_from_slice(&payload);
    hashing.record(&payload);
    let (mut file, trailer, header) = writing.seal(hashing);
    file.extend_from_slice(&trailer.encode());
    file[..32].copy_from_slice(&header.encode());
    let size = file.len() as u64;
    (file, writing.finish(request.destination.clone(), size))
}

/// Removes what is at `path`, and everything below it.
fn clear(tree: &mut Tree, path: &str) {
    let below = format!("{path}/");
    tree.retain(|name, _| name != path && !name.starts_with(&below));
}

/// Extracts the data of the wanted applications.
fn extract(
    backup: &Backup,
    payload: &[u8],
    wanted: &Vec<usize>,
    tree: &mut Tree,
) -> (Vec<String>, Vec<Issue>) {
    let apps = &backup.manifest.apps;
    let mut extraction = Extraction::start(apps, wanted, ROOT).unwrap();
    let tar = zstd::decode_all(payload).unwrap();
    let mut archive = tar::Archive::new(tar.as_slice());
    for entry in archive.entries().unwrap() {
        let mut entry = entry.unwrap();
        let raw = entry.path_bytes().into_owned();
        let (_, action) = extraction.on_entry(Ok(raw.clone()), false).unwrap();
        let EntryAction::Unpack { app_id, destination, .. } = action else {
            continue;
        };
        let kind = match entry.header().entry_type() {
            tar::EntryType::Directory => EntryKind::Directory,
            tar::EntryType::Regular => EntryKind::Regular,
            tar::EntryType::Symlink => {
                EntryKind::Symlink(entry.link_name_bytes().map(|target| target.into_owned()))
            }
            other => EntryKind::Other(format!("{other:?}")),
        };
        let path = name_of(&destination);
        let path = path.trim_end_matches('/').to_owned();
        let outcome = match extraction.unpack(kind) {
            Err(error) => Err(error.message()),
            Ok(Unpack::Directory) => {
                tree.insert(path, Node::Dir);
                Ok(None)
            }
            Ok(Unpack::File) => {
                let mut data = Vec::new();
                entry.read_to_end(&mut data).unwrap();
                let size = data.len() as u64;
                tree.insert(path, Node::File(data));
                Ok(Some(size))
            }
            Ok(Unpack::Symlink(target)) => {
                let occupant = match tree.get(&path) {
                    Some(Node::Dir) => Occupant::Directory,
                    Some(_) => Occupant::Other,
                    None => Occupant::Nothing,
                };
                make_way(occupant).unwrap();
                clear(tree, &path);
                tree.insert(path, Node::Link(target));
                Ok(None)
            }
        };
        extraction.unpacked(&app_id, &raw, outcome);
    }
    extraction.finish(apps, wanted)
}

/// Restores data with installation disabled.
fn restore_data_only(
    backup: &Backup,
    file: &[u8],
    on_conflict: ConflictChoice,
    tree: &mut Tree,
) -> RestoreReport {
    let request = RestoreRequest {
        selections: vec![RestoreSelection {
            index: 0,
            install: false,
            restore_data: true,
            on_conflict,
        }],
        install_to_user: false,
        remotes_to_add: Vec::new(),
    };
    let payload = payload_of(backup, file);
    let manifest = &backup.manifest;
    let mut run = restore();
    loop {
        let (_, action) = run.next(manifest, &request, false).unwrap();
        match action {
            RestoreAction::Continue => {}
            RestoreAction::VerifyPayload => {
                let mut check = backup.verify_payload();
                while let Some(want) = check.want(payload.len(), false).unwrap() {
                    check.feed(&payload[..want]).unwrap();
                }
                run.verified(check, backup).unwrap();
            }
            RestoreAction::Inspect { app } => {
                let present = inspect(found(tree, &manifest.apps[app].id)).present;
                run.inspected(manifest, &request, present);
            }
            RestoreAction::Remove { app } => {
                clear(tree, &format!("{}/{}", name_of(ROOT), manifest.apps[app].id));
                assert!(run.removed(manifest, &request, Ok(())).unwrap().is_none());
            }
            RestoreAction::Extract => {
                let outcome = extract(backup, payload, run.wanted(), tree);
                run.extracted(Ok(outcome)).unwrap();
            }
            RestoreAction::Finish => return run.finish(),
            other => panic!("nothing is to be installed: {other:?}"),
        }
    }
}

// ------------------------------------------------------------------- safety

#[test]
fn rejects_files_that_are_not_archives() {
    assert!(matches!(open(b""), Err(ArchiveError::NotAFlatbakArchive(_))));
    assert!(matches!(
        open(&vec![b'X'; 4096]),
        Err(ArchiveError::NotAFlatbakArchive(_))
    ));
    assert!(matches!(
        open(b"FLATBAK\x1a\x01"),
        Err(ArchiveError::Truncated)
    ));
}

#[test]
fn detects_truncation_and_trailing_junk() {
    let good = write_archive(
        &manifest_toml(1, true),
        &build_tar(&[file(&format!("data/{APP_ID}/config/x"), "hello")]),
    );
    assert!(open(&good).is_ok());

    // Losing the tail costs us the trailer.
    assert!(matches!(
        open(&good[..good.len() - 8]),
        Err(ArchiveError::Truncated)
    ));

    // Extra bytes mean the file no longer matches what the header describes.
    let mut padded = good.clone();
    padded.extend_from_slice(b"junk");
    assert!(matches!(open(&padded), Err(ArchiveError::Corrupt(_))));

    // A flipped bit in the header is caught by its CRC.
    let mut bytes = good.clone();
    bytes[16] ^= 0x08;
    assert!(matches!(
        open(&bytes),
        Err(ArchiveError::Corrupt(_) | ArchiveError::Truncated)
    ));
}

#[test]
fn detects_a_tampered_payload_before_restoring() {
    let mut bytes = write_archive(
        &manifest_toml(1, true),
        &build_tar(&[file(&format!("data/{APP_ID}/config/x"), "hello")]),
    );
    let payload_start = HEADER_LEN as usize + open(&bytes).unwrap().header.manifest_len as usize;
    // Flip a bit inside the compressed payload, leaving header and lengths intact.
    bytes[payload_start + 4] ^= 0x40;

    // The framing still adds up, so opening succeeds; that is the point of
    // verifying separately, before anything is written to disk.
    let backup = open(&bytes).expect("framing is still consistent");
    assert!(matches!(
        verify(&backup, &bytes),
        Err(Failure::Archive(ArchiveError::ChecksumMismatch))
    ));
}

#[test]
fn refuses_manifests_from_a_newer_format() {
    let bytes = write_archive(&manifest_toml(99, false), &build_tar(&[]));
    match open(&bytes) {
        Err(ArchiveError::UnsupportedVersion { found, supported }) => {
            assert_eq!(found, 99);
            assert_eq!(supported, flatbak::config::MANIFEST_FORMAT_VERSION_MAX);
        }
        other => panic!("expected UnsupportedVersion, got {other:?}"),
    }
}

#[test]
fn extraction_refuses_to_escape_the_data_directory() {
    let bytes = write_archive(
        &manifest_toml(1, true),
        &build_tar(&[
            // Legitimate content, to prove the safe entries still land.
            Entry::Dir {
                name: format!("data/{APP_ID}"),
            },
            file(&format!("data/{APP_ID}/config/good.txt"), "kept"),
            // Climbing out with `..`.
            file(&format!("data/{APP_ID}/../../canary.txt"), "OWNED"),
            // An absolute path.
            file("/etc/cron.d/evil", "OWNED"),
            // Escaping the payload prefix entirely.
            file("../../../../etc/evil", "OWNED"),
            // A symlink to somewhere absolute.
            Entry::Symlink {
                name: format!("data/{APP_ID}/passwd-link"),
                target: "/etc/passwd".to_owned(),
            },
            // A symlink climbing out of the app directory.
            Entry::Symlink {
                name: format!("data/{APP_ID}/escape-link"),
                target: "../../../canary.txt".to_owned(),
            },
            // A relative symlink that stays inside: this one is legitimate.
            Entry::Symlink {
                name: format!("data/{APP_ID}/config/inside-link"),
                target: "good.txt".to_owned(),
            },
            // Entry types FlatBak never writes.
            Entry::HardLink {
                name: format!("data/{APP_ID}/hard"),
                target: "../../../../etc/passwd".to_owned(),
            },
            // Data belonging to an application that was not selected.
            file("data/org.example.Other/secret", "not selected"),
        ]),
    );
    let backup = open(&bytes).expect("the hostile archive is well framed");
    let mut tree = Tree::new();
    let report = restore_data_only(&backup, &bytes, ConflictChoice::Replace, &mut tree);

    // Nothing was written outside the app directory, and of the entries inside it
    // only the legitimate ones.
    let app = format!("{}/{APP_ID}", name_of(ROOT));
    let expected: Tree = [
        (app.clone(), Node::Dir),
        (format!("{app}/config/good.txt"), Node::File(b"kept".to_vec())),
        (format!("{app}/config/inside-link"), Node::Link(b"good.txt".to_vec())),
    ]
    .into_iter()
    .collect();
    assert_eq!(tree, expected);

    let unsafe_count = report
        .issues
        .iter()
        .filter(|issue| matches!(issue, Issue::UnsafeEntry { .. }))
        .count();
    let rejected = report
        .issues
        .iter()
        .filter(|issue| {
            matches!(
                issue,
                Issue::UnsafeEntry { .. } | Issue::DataRestoreFailed { .. }
            )
        })
        .count();
    assert!(
        unsafe_count >= 3,
        "the three bad paths should be reported as unsafe entries: {:?}",
        report.issues
    );
    assert!(
        rejected >= 6,
        "every hostile entry should be reported: {:?}",
        report.issues
    );
}

#[test]
fn links_are_no_stepping_stones() {
    let symlink = |name: &str, target: &str| Entry::Symlink {
        name: format!("data/{APP_ID}/{name}"),
        target: target.to_owned(),
    };
    let bytes = write_archive(
        &manifest_toml(1, true),
        &build_tar(&[
            Entry::Dir {
                name: format!("data/{APP_ID}"),
            },
            symlink("d/l", ".."),
            // By its names this is `d`, but `d/l` is the directory above it.
            symlink("k", "d/l/.."),
            file(&format!("data/{APP_ID}/k/x"), "kept inside"),
        ]),
    );
    let backup = open(&bytes).unwrap();
    let mut tree = Tree::new();
    let report = restore_data_only(&backup, &bytes, ConflictChoice::Replace, &mut tree);
    let app = format!("{}/{APP_ID}", name_of(ROOT));
    let expected: Tree = [
        (app.clone(), Node::Dir),
        (format!("{app}/d/l"), Node::Link(b"..".to_vec())),
        (format!("{app}/k/x"), Node::File(b"kept inside".to_vec())),
    ]
    .into_iter()
    .collect();
    assert_eq!(tree, expected);
    assert_eq!(report.issues.len(), 1, "{:?}", report.issues);
    assert!(matches!(&report.issues[0], Issue::DataRestoreFailed { .. }));
}

// --------------------------------------------------------------- round trips

fn demo_app() -> InstalledApp {
    InstalledApp {
        id: APP_ID.to_owned(),
        name: "Demo".to_owned(),
        version: "1.2.3".to_owned(),
        branch: "stable".to_owned(),
        arch: "x86_64".to_owned(),
        origin: "flathub".to_owned(),
        installation: Installation::System,
        reference: format!("app/{APP_ID}/x86_64/stable"),
        commit: "deadbeef".to_owned(),
        installed_size: Some(1_234_567),
    }
}

fn flathub() -> Remote {
    Remote {
        name: "flathub".to_owned(),
        title: "Flathub".to_owned(),
        url: "https://dl.flathub.org/repo/".to_owned(),
        installation: Installation::System,
        disabled: false,
    }
}

fn demo_request(app: InstalledApp, include_data: bool, exclude_caches: bool) -> BackupRequest {
    BackupRequest {
        destination: b"/b/demo.flatbak".to_vec(),
        apps: vec![AppSelection { app, include_data }],
        exclude_caches,
        compression_level: 3,
        remotes: vec![flathub()],
        flatpak_version: "1.18.2".to_owned(),
    }
}

/// The application data a real Flatpak app would leave behind.
fn seed_app_data() -> Tree {
    let app = format!("{}/{APP_ID}", name_of(ROOT));
    let mut tree = Tree::new();
    tree.insert(app.clone(), Node::Dir);
    for dir in [
        "config",
        "data",
        "data/nested",
        "data/nested/deeper",
        "cache",
        "cache/huge",
        // An empty directory, which a naive file-only walk would lose.
        "data/empty-dir",
    ] {
        tree.insert(format!("{app}/{dir}"), Node::Dir);
    }
    for (name, data) in [
        ("config/settings.ini", b"[main]\nvolume=80\n".to_vec()),
        ("data/library.db", vec![0xABu8; 4096]),
        ("data/nested/deeper/note.txt", b"hello\n".to_vec()),
        // Cache content, which should be excluded by default.
        ("cache/huge/blob.bin", vec![0x11u8; 8192]),
    ] {
        tree.insert(format!("{app}/{name}"), Node::File(data));
    }
    for (name, target) in [
        // A relative symlink inside the app's own data: legitimate and preserved.
        ("data/nested/link-to-db", "../library.db".to_owned()),
        // An absolute symlink pointing back inside the application's own data.
        ("config/absolute-link-inside", format!("{app}/data/library.db")),
        // One pointing somewhere else entirely, which cannot mean anything on the
        // restoring machine.
        ("config/runtime-socket", "/run/user/1000/some.socket".to_owned()),
    ] {
        tree.insert(format!("{app}/{name}"), Node::Link(target.into_bytes()));
    }
    tree
}

#[test]
fn backup_and_restore_round_trip() {
    let mut tree = seed_app_data();
    let app = format!("{}/{APP_ID}", name_of(ROOT));

    // ---- Measuring
    let info = inspect(found(&tree, APP_ID));
    assert!(info.present, "seeded data should be found");
    assert!(info.cache_bytes >= 8192, "cache should be measured separately");
    assert_eq!(
        info.bytes_to_back_up(true),
        info.total_bytes - info.cache_bytes,
        "excluding caches should subtract exactly the cache size"
    );

    // ---- Writing
    let (bytes, report) = back_up(&tree, &demo_request(demo_app(), true, true));
    assert_eq!(report.app_count, 1);
    assert_eq!(report.data_app_count, 1);
    assert!(
        report
            .issues
            .iter()
            .any(|issue| issue.message().contains("runtime-socket")),
        "the link pointing outside the data folder should be reported: {:?}",
        report.issues
    );
    assert_eq!(report.archive_bytes, bytes.len() as u64);

    // ---- Opening
    let backup = open(&bytes).expect("the archive should open");
    assert_eq!(backup.manifest.flatbak.format_version, 1);
    assert!(backup.manifest.flatbak.excluded_caches);
    assert_eq!(backup.manifest.apps.len(), 1);
    assert_eq!(backup.file_size, report.archive_bytes);
    assert_eq!(backup.manifest.apps.len(), report.app_count);
    assert_eq!(backup.manifest.flatbak.app_count as usize, report.app_count);
    assert_eq!(backup.manifest.apps_with_data(), report.data_app_count);
    assert_eq!(backup.manifest.total_data_bytes(), report.data_bytes);

    let entry = &backup.manifest.apps[0];
    assert_eq!(entry.id, APP_ID);
    assert_eq!(entry.origin, "flathub");
    assert_eq!(entry.installation, Installation::System);
    assert_eq!(entry.reference, format!("app/{APP_ID}/x86_64/stable"));
    assert!(entry.data_included);
    assert_eq!(entry.data_path, format!("data/{APP_ID}"));
    assert_eq!(entry.installed_size, 1_234_567);

    // The remote's address travels with the archive, so a restore can recreate it.
    let remote = backup.manifest.remote("flathub").expect("remote recorded");
    assert_eq!(remote.url, "https://dl.flathub.org/repo/");
    assert_eq!(backup.manifest.required_remotes(), vec!["flathub"]);

    verify(&backup, &bytes).expect("a freshly written archive should verify");

    // ---- Restoring onto a clean system
    let before = tree.clone();
    clear(&mut tree, &app);
    let report = restore_data_only(&backup, &bytes, ConflictChoice::Replace, &mut tree);
    assert_eq!(report.data_restored, vec!["Demo"]);
    assert!(
        report.issues.is_empty(),
        "clean restore should report nothing: {:?}",
        report.issues
    );

    // Everything is back but the cache, the link into the runtime directory is left
    // out, and the absolute link that pointed inside is an equivalent relative one.
    let mut expected = before;
    clear(&mut expected, &format!("{app}/cache"));
    clear(&mut expected, &format!("{app}/config/runtime-socket"));
    expected.insert(
        format!("{app}/config/absolute-link-inside"),
        Node::Link(b"../data/library.db".to_vec()),
    );
    assert_eq!(tree, expected);

    // ---- Existing data: keeping it
    let settings = format!("{app}/config/settings.ini");
    tree.insert(settings.clone(), Node::File(b"LOCAL CHANGES\n".to_vec()));
    let report = restore_data_only(&backup, &bytes, ConflictChoice::Skip, &mut tree);
    assert_eq!(
        tree[&settings],
        Node::File(b"LOCAL CHANGES\n".to_vec()),
        "keeping existing data must not overwrite it"
    );
    assert!(
        report
            .issues
            .iter()
            .any(|issue| matches!(issue, Issue::DataSkipped { .. })),
        "skipping should be reported: {:?}",
        report.issues
    );
    assert!(report.data_restored.is_empty());

    // ---- Existing data: replacing it
    tree.insert(
        format!("{app}/config/stale.txt"),
        Node::File(b"should be gone\n".to_vec()),
    );
    let report = restore_data_only(&backup, &bytes, ConflictChoice::Replace, &mut tree);
    assert_eq!(tree, expected, "replacing should restore the archived contents alone");
    assert_eq!(report.data_restored, vec!["Demo"]);
}

#[test]
fn missing_data_directory_is_reported_not_fatal() {
    let mut app = demo_app();
    app.id = "org.example.NeverLaunched".to_owned();
    app.reference = format!("app/{}/x86_64/stable", app.id);

    let mut request = demo_request(app, true, true);
    request.flatpak_version = String::new();
    let (bytes, report) = back_up(&seed_app_data(), &request);
    assert_eq!(report.app_count, 1, "the app is still recorded");
    assert_eq!(report.data_app_count, 0, "but without data");
    assert!(
        report
            .issues
            .iter()
            .any(|issue| matches!(issue, Issue::NoDataDirectory { .. })),
        "the missing directory should be reported: {:?}",
        report.issues
    );

    let backup = open(&bytes).unwrap();
    assert!(!backup.manifest.apps[0].data_included);
    assert_eq!(backup.manifest.apps_with_data(), 0);

    // An archive with no payload content is still a valid archive.
    verify(&backup, &bytes).expect("an empty payload should still verify");
}

#[test]
fn manifest_survives_a_round_trip_through_the_archive() {
    let mut request = demo_request(demo_app(), false, false);
    request.compression_level = 1;
    let (bytes, _) = back_up(&Tree::new(), &request);
    let backup = open(&bytes).unwrap();
    let text = to_toml(&backup.manifest);
    let reparsed = from_toml(&text).expect("the written manifest must be re-readable");
    assert_eq!(reparsed.apps[0].id, APP_ID);
    assert_eq!(reparsed.flatbak.created_by, backup.manifest.flatbak.created_by);
}
