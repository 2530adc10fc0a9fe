//! Application data and the recent backups list.

use flatbak::appdata::{
    data_dir, data_root, inspect, orphaned_data, remove_data_dir, DataInfo, DirEntry, Found,
    Measure, Occupant, Removal,
};
use flatbak::recent::{store_path, RecentBackup, RecentStore};

#[test]
fn data_lives_below_the_home_directory() {
    let home = || Some(b"/home/u".to_vec());
    assert_eq!(data_root(None, home()), b"/home/u/.var/app");
    assert_eq!(data_root(None, None), b"/.var/app");
    assert_eq!(data_root(Some(b"/tmp/x".to_vec()), home()), b"/tmp/x");
    assert_eq!(data_dir(b"/r", "org.x.A"), b"/r/org.x.A");
}

#[test]
fn measuring_sums_files() {
    let mut measure = Measure::start(b"/d", None);
    assert_eq!(measure.next().unwrap(), b"/d");
    measure.entry(b"/d/a", false, 10);
    measure.entry(b"/d/sub", true, 4096);
    measure.failed(b"/d/b", "denied");
    measure.failed(b"/d/c", "gone");
    assert_eq!(measure.next().unwrap(), b"/d/sub");
    measure.entry(b"/d/sub/x", false, u64::MAX);
    assert!(measure.next().is_none());
    assert_eq!(measure.file_count(), 2);
    assert_eq!(
        measure.finish(),
        (u64::MAX, 2, Some("/d/b: denied".to_owned()))
    );
    let later = Measure::start(b"/d/cache", Some("earlier".to_owned()));
    let mut later = later;
    later.failed(b"/x", "late");
    assert_eq!(later.finish().2, Some("earlier".to_owned()));
}

#[test]
fn findings_are_summed_up() {
    assert_eq!(inspect(Found::Nothing), DataInfo::default());
    let odd = inspect(Found::NoDirectory);
    assert_eq!(odd.error, Some("not a directory".to_owned()));
    assert!(!odd.present);
    let info = inspect(Found::Directory {
        total_bytes: 100,
        file_count: 2,
        cache_bytes: Some(30),
        error: None,
    });
    assert!(info.present);
    assert_eq!(info.bytes_to_back_up(true), 70);
    assert_eq!(info.bytes_to_back_up(false), 100);
    assert!(!info.is_only_cache());
    let empty = inspect(Found::Directory {
        total_bytes: 0,
        file_count: 0,
        cache_bytes: None,
        error: Some("e".to_owned()),
    });
    assert!(!empty.present);
    assert_eq!(empty.error, Some("e".to_owned()));
    let cache = inspect(Found::Directory {
        total_bytes: 5,
        file_count: 1,
        cache_bytes: Some(5),
        error: None,
    });
    assert!(cache.is_only_cache());
    let shrunk = DataInfo { total_bytes: 3, cache_bytes: 5, ..cache };
    assert_eq!(shrunk.bytes_to_back_up(true), 0);
}

#[test]
fn orphans_are_found_and_sorted() {
    let entry = |name: &[u8], is_dir: bool| DirEntry { name: name.to_vec(), is_dir };
    let entries = vec![
        entry(b"org.z.Z", true),
        entry(b"org.installed", true),
        entry(b"org.a.A", true),
        entry(b"org.file", false),
        entry(b".hidden", true),
        entry(b"bad\xff", true),
        entry(b"Org.B", true),
    ];
    assert_eq!(
        orphaned_data(&entries, &vec!["org.installed".to_owned()]),
        ["Org.B", "org.a.A", "org.z.Z"]
    );
}

#[test]
fn removal_is_careful() {
    let remove = |id: &str, cancelled, occupant| {
        remove_data_dir(id, cancelled, occupant).map_err(|error| error.message())
    };
    assert_eq!(remove("org.x.A", false, Occupant::Directory), Ok(Removal::Tree));
    assert_eq!(remove("org.x.A", false, Occupant::Other), Ok(Removal::File));
    assert_eq!(remove("org.x.A", false, Occupant::Nothing), Ok(Removal::Nothing));
    assert_eq!(
        remove("org.x.A", false, Occupant::Unknown("denied".to_owned())),
        Err("denied".to_owned())
    );
    assert_eq!(
        remove("..", false, Occupant::Directory),
        Err("refusing to remove data for an invalid application ID".to_owned())
    );
    assert_eq!(
        remove("org.x.A", true, Occupant::Directory),
        Err("operation cancelled".to_owned())
    );
}

// ------------------------------------------------------------------- recent

fn recent(path: &str, app_count: u32) -> RecentBackup {
    RecentBackup {
        path: path.as_bytes().to_vec(),
        created_at: String::new(),
        app_count,
        data_app_count: 0,
        archive_bytes: 0,
    }
}

#[test]
fn recent_backups_move_to_the_front() {
    let mut store = RecentStore::default();
    for i in 0..12 {
        store.remember(recent(&format!("/b/{i}"), i));
    }
    assert_eq!(store.entries.len(), 10);
    assert_eq!(store.entries[0].path, b"/b/11");
    assert_eq!(store.entries[9].path, b"/b/2");

    // The same file under another spelling is the same file.
    store.remember(recent("/b//./5", 50));
    assert_eq!(store.entries.len(), 10);
    assert_eq!(store.entries[0].app_count, 50);
    assert_eq!(store.entries.iter().filter(|e| e.path.ends_with(b"5")).count(), 1);

    store.forget(b"/b/11");
    assert_eq!(store.entries.len(), 9);
    assert!(store.entries.iter().all(|entry| entry.path != b"/b/11"));
    store.forget(b"/elsewhere");
    assert_eq!(store.entries.len(), 9);
}

#[test]
fn recent_rows_show_the_file_name() {
    assert_eq!(recent("/b/mine.flatbak", 0).file_name(), "mine.flatbak");
    assert_eq!(recent("/", 0).file_name(), "/");
    let mut odd = recent("", 0);
    odd.path = b"/b/\xff".to_vec();
    assert_eq!(odd.file_name(), "\u{fffd}");
}

#[test]
fn the_list_is_kept_in_the_data_directory() {
    let some = |path: &str| Some(path.as_bytes().to_vec());
    assert_eq!(store_path(some("/d"), some("/h")), b"/d/flatbak/recent.toml");
    assert_eq!(
        store_path(some("relative"), some("/h")),
        b"/h/.local/share/flatbak/recent.toml"
    );
    assert_eq!(store_path(None, None), b"./.local/share/flatbak/recent.toml");
}
