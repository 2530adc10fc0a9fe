//! What the pages show.

use flatbak::appdata::DataInfo;
use flatbak::backup::manifest::{AppEntry, Manifest, Meta};
use flatbak::backup::container::{Header, Trailer};
use flatbak::backup::reader::{
    Backup, ConflictChoice, MissingRemote, RestoreProgress, RestoreReport,
};
use flatbak::backup::writer::{BackupProgress, BackupReport};
use flatbak::error::Issue;
use flatbak::flatpak::{InstalledApp, Installation};
use flatbak::recent::RecentBackup;
use flatbak::ui::backup_page::{self, AppRow};
use flatbak::ui::home::{probe, recent_icon, recent_line, recent_subtitle};
use flatbak::ui::progress::{Bar, Delivery};
use flatbak::ui::restore_page::{self, RestoreRow, Start};
use flatbak::ui::widgets::{app_icon, count_of, describe_data, fill_issues, own_icon_name};
use flatbak::ui::{adds_icon_path, icon_path_candidates};

fn data(total: u64, cache: u64) -> DataInfo {
    DataInfo {
        present: total > 0,
        total_bytes: total,
        cache_bytes: cache,
        file_count: 1,
        error: None,
    }
}

fn installed(id: &str, version: &str) -> InstalledApp {
    InstalledApp {
        id: id.to_owned(),
        name: String::new(),
        version: version.to_owned(),
        branch: "stable".to_owned(),
        arch: "x86_64".to_owned(),
        origin: "flathub".to_owned(),
        installation: Installation::User,
        reference: String::new(),
        commit: String::new(),
        installed_size: None,
    }
}

#[test]
fn data_is_described() {
    assert_eq!(describe_data(&data(0, 0), true), "No application data found");
    assert_eq!(describe_data(&data(5_000, 0), true), "5.0 kB");
    assert_eq!(
        describe_data(&data(5_000, 2_000), true),
        "3.0 kB \u{2022} 2.0 kB of cache excluded"
    );
    assert_eq!(describe_data(&data(5_000, 2_000), false), "5.0 kB");
}

#[test]
fn long_issue_lists_are_cut() {
    let issues: Vec<Issue> = (0..203)
        .map(|i| Issue::Other { message: format!("issue {i}") })
        .collect();
    let lines = fill_issues(&issues);
    assert_eq!(lines.len(), 201);
    assert_eq!(lines[199], "issue 199");
    assert_eq!(lines[200], "\u{2026} and 3 more");
    assert_eq!(fill_issues(&issues[..200].to_vec()).len(), 200);
    assert_eq!(count_of(1, "app"), "1 app");
    assert_eq!(count_of(0, "app"), "0 apps");
}

#[test]
fn icons_fall_back() {
    assert_eq!(own_icon_name(true), "io.github.abdullahfanar.FlatBak");
    assert_eq!(own_icon_name(false), "drive-harddisk-symbolic");
    assert_eq!(app_icon("org.x.A", true), "org.x.A");
    assert_eq!(app_icon("org.x.A", false), "application-x-executable-symbolic");
    let candidates = icon_path_candidates(Some(b"/home/u".to_vec()));
    assert_eq!(candidates.len(), 3);
    assert_eq!(
        candidates[2],
        b"/home/u/.local/share/flatpak/exports/share/icons"
    );
    assert_eq!(icon_path_candidates(None).len(), 2);
    assert!(adds_icon_path(b"/a", true, &vec![b"/b".to_vec()]));
    assert!(!adds_icon_path(b"/a", true, &vec![b"/a/".to_vec()]));
    assert!(!adds_icon_path(b"/a", false, &Vec::new()));
}

#[test]
fn selections_follow_the_rows() {
    let mut rows = vec![
        AppRow::new(installed("org.x.A", "1.0"), data(5_000, 2_000)),
        AppRow::new(installed("org.x.B", ""), data(0, 0)),
        AppRow::new(installed("org.x.C", "2"), data(7_000, 0)),
    ];
    assert_eq!(rows[0].subtitle(), "org.x.A \u{2022} User \u{2022} 1.0");
    assert_eq!(rows[1].subtitle(), "org.x.B \u{2022} User");
    assert!(rows[0].data_sensitive());
    assert!(!rows[1].data_sensitive());
    rows[1].data_on = true;
    rows[2].selected = false;

    let selections = backup_page::selections(&rows);
    assert_eq!(selections.len(), 2);
    assert!(selections[0].include_data);
    // There is nothing to include.
    assert!(!selections[1].include_data);
    assert_eq!(backup_page::selected_count(&rows), 2);
    let bytes = backup_page::selected_data_bytes(&rows, true).unwrap();
    assert_eq!(bytes, 3_000);
    assert_eq!(backup_page::selected_data_bytes(&rows, false), Some(5_000));
    assert_eq!(
        backup_page::refresh(&rows, bytes),
        ("2 of 3 selected \u{2022} 3.0 kB of data".to_owned(), true)
    );
    assert_eq!(
        backup_page::show_review(&selections, bytes, true),
        [
            ("Applications".to_owned(), "2".to_owned()),
            ("Including data".to_owned(), "1".to_owned()),
            ("Application data".to_owned(), "3.0 kB".to_owned()),
            ("Caches".to_owned(), "Excluded".to_owned()),
        ]
    );

    let request = backup_page::run(&rows, Some(b"/b".to_vec()), false, Vec::new(), "1".to_owned());
    let request = request.unwrap();
    assert_eq!(request.apps.len(), 2);
    assert_eq!(request.compression_level, 10);
    assert!(backup_page::run(&rows, None, false, Vec::new(), String::new()).is_none());

    backup_page::set_all(&mut rows, false);
    assert_eq!(
        backup_page::refresh(&rows, 0),
        ("No applications selected of 3".to_owned(), false)
    );
    assert!(
        backup_page::run(&rows, Some(b"/b".to_vec()), false, Vec::new(), String::new()).is_none()
    );
    backup_page::set_all(&mut rows, true);
    assert_eq!(backup_page::selected_count(&rows), 3);
    rows[0].info.total_bytes = u64::MAX;
    assert_eq!(backup_page::selected_data_bytes(&rows, false), None);
}

#[test]
fn destinations_are_shown() {
    assert_eq!(
        backup_page::destination_text(b"/b/c/mine.flatbak"),
        ("mine.flatbak".to_owned(), "/b/c".to_owned())
    );
    assert_eq!(
        backup_page::destination_text(b"mine"),
        ("mine".to_owned(), String::new())
    );
    assert_eq!(backup_page::destination_text(b"/"), ("/".to_owned(), String::new()));
    // The folder is shown as it is spelled in the path.
    for (path, name, folder) in [
        ("/b//c/./mine/", "mine", "/b//c"),
        ("/mine", "mine", "/"),
        ("./mine", "mine", "."),
        ("a/./mine", "mine", "a"),
        ("..", "..", ""),
    ] {
        let path = std::path::Path::new(path);
        let parent = path.parent().unwrap().display().to_string();
        assert_eq!(parent, folder);
        assert_eq!(
            backup_page::destination_text(path.as_os_str().as_encoded_bytes()),
            (name.to_owned(), folder.to_owned())
        );
    }
    assert_eq!(
        backup_page::suggested_name_for("2026-09-08"),
        "flatpaks-2026-09-08.flatbak"
    );
    let today = backup_page::suggested_name();
    assert!(today.starts_with("flatpaks-2") && today.ends_with(".flatbak"), "{today}");
    assert_eq!(today.len(), "flatpaks-2026-09-08.flatbak".len());
    let fields: Vec<u32> = today["flatpaks-".len()..today.len() - ".flatbak".len()]
        .split('-')
        .map(|field| field.parse().unwrap())
        .collect();
    assert!((1..=12).contains(&fields[1]) && (1..=31).contains(&fields[2]), "{today}");
    assert_eq!(
        backup_page::overwrite_question(b"/b/x"),
        "/b/x already exists and will be overwritten."
    );
}

#[test]
fn backup_progress_is_shown() {
    let update = backup_page::apply_progress(&BackupProgress::Writing {
        app: "A".to_owned(),
        index: 1,
        total: 3,
    });
    assert_eq!(update.stage.as_deref(), Some("Backing up applications\u{2026}"));
    assert_eq!(update.detail.as_deref(), Some("A (2 of 3)"));
    assert!(update.bar.is_none());
    let update = backup_page::apply_progress(&BackupProgress::Scanning {
        app: "A".to_owned(),
        index: 1,
        total: 3,
    });
    assert_eq!(update.detail.as_deref(), Some("A"));
    assert_eq!(update.bar, Some(Bar::Part { done: 1, total: 3 }));
    let update = backup_page::apply_progress(&BackupProgress::Bytes { done: 0, total: 0 });
    assert_eq!(update.bar, Some(Bar::Pulse));
    assert!(update.detail.is_none());
    let update = backup_page::apply_progress(&BackupProgress::Bytes { done: 5, total: 2_000 });
    assert_eq!(update.detail.as_deref(), Some("5 B of 2.0 kB"));
    let update = backup_page::apply_progress(&BackupProgress::Finalising);
    assert_eq!(update.bar, Some(Bar::Full));
    assert_eq!(update.detail.as_deref(), Some("Flushing compressed data to disk"));
    let update = backup_page::apply_progress(&BackupProgress::Issue(Issue::Other {
        message: "m".to_owned(),
    }));
    assert_eq!(update.log.as_deref(), Some("m"));

    let bytes = |done, total| BackupProgress::Bytes { done, total };
    assert_eq!(backup_page::throttle(&bytes(1, 2), 59), Delivery::Drop);
    assert_eq!(backup_page::throttle(&bytes(2, 2), 59), Delivery::SendAndRestart);
    assert_eq!(backup_page::throttle(&bytes(1, 2), 60), Delivery::SendAndRestart);
    assert_eq!(backup_page::throttle(&BackupProgress::Finalising, 0), Delivery::Send);
}

#[test]
fn finished_backups_are_summed_up() {
    let mut report = BackupReport {
        path: b"/b/x".to_vec(),
        archive_bytes: 1_400_000_000,
        app_count: 1,
        data_app_count: 0,
        data_bytes: 5,
        issues: Vec::new(),
    };
    let result = backup_page::show_result(&report);
    assert_eq!(result.heading, "Backup Complete");
    assert_eq!(result.icon, "object-select-symbolic");
    assert_eq!(
        result.description,
        "1 application \u{2022} 0 with data \u{2022} 1.4 GB on disk"
    );
    let entry = backup_page::recent_entry(&report, "now".to_owned());
    assert_eq!(entry.path, b"/b/x");
    assert_eq!(entry.archive_bytes, 1_400_000_000);
    assert_eq!(entry.created_at, "now");
    report.issues.push(Issue::Other { message: String::new() });
    report.app_count = 2;
    let result = backup_page::show_result(&report);
    assert_eq!(result.heading, "Backup Complete, With Notes");
    assert_eq!(result.icon, "dialog-warning-symbolic");
    assert!(result.description.starts_with("2 applications"));
}

// ------------------------------------------------------------------ restore

fn entry(id: &str, origin: &str, data_included: bool, data_bytes: u64) -> AppEntry {
    AppEntry {
        id: id.to_owned(),
        name: String::new(),
        version: "3".to_owned(),
        branch: "stable".to_owned(),
        arch: "x86_64".to_owned(),
        origin: origin.to_owned(),
        installation: Installation::System,
        reference: format!("app/{id}"),
        commit: String::new(),
        installed_size: 0,
        data_included,
        data_bytes,
        data_files: 0,
        data_path: String::new(),
    }
}

#[test]
fn conflict_choices_have_places() {
    for choice in [ConflictChoice::Skip, ConflictChoice::Replace] {
        let index = restore_page::conflict_to_index(choice);
        assert_eq!(restore_page::conflict_from_index(index), choice);
    }
    assert_eq!(restore_page::conflict_from_index(7), ConflictChoice::Skip);
    assert_eq!(restore_page::CONFLICT_LABELS[1], "Replace");
}

#[test]
fn restore_rows_start_out_careful() {
    let row = RestoreRow::new(0, entry("a", "flathub", true, 2_000), data(5_000, 0), false);
    assert!(row.install && row.data_on);
    assert_eq!(row.conflict, Some(0));
    assert_eq!(row.subtitle(false), "a \u{2022} System \u{2022} 3");
    assert_eq!(row.subtitle(true), "a \u{2022} System \u{2022} 3 \u{2022} already installed");
    assert_eq!(row.data_subtitle(), "2.0 kB in this backup");
    assert_eq!(row.conflict_subtitle(), "5.0 kB already here");
    assert!(!row.dimmed());
    let row = RestoreRow::new(1, entry("b", "", false, 0), data(5_000, 0), true);
    assert!(!row.install && !row.data_on);
    assert_eq!(row.conflict, None);
    assert_eq!(row.data_subtitle(), "No data was included for this application");
    assert!(row.dimmed());
}

fn restore_rows() -> Vec<RestoreRow> {
    vec![
        RestoreRow::new(0, entry("a", "flathub", true, 2_000), data(5_000, 0), false),
        RestoreRow::new(1, entry("b", "", false, 0), data(0, 0), false),
        RestoreRow::new(2, entry("c", "flathub", true, 1_000), data(0, 0), true),
    ]
}

#[test]
fn restore_selections_follow_the_rows() {
    let mut rows = restore_rows();
    let selections = restore_page::selections(&rows);
    assert_eq!(selections.len(), 2);
    assert_eq!(selections[0].index, 0);
    assert!(selections[0].install && selections[0].restore_data);
    assert_eq!(selections[0].on_conflict, ConflictChoice::Skip);
    assert_eq!(selections[1].index, 2);
    assert!(!selections[1].install && selections[1].restore_data);
    assert_eq!(selections[1].on_conflict, ConflictChoice::Replace);
    assert_eq!(
        restore_page::refresh(&rows),
        Some(("1 to install \u{2022} 2 with data \u{2022} 3.0 kB".to_owned(), true))
    );
    // Nothing of what is there is deleted, so there is nothing to ask.
    assert!(matches!(restore_page::run(&rows), Start::Begin));

    for row in rows.iter_mut() {
        row.set_conflict(1);
    }
    assert_eq!(rows[2].conflict, None);
    match restore_page::run(&rows) {
        Start::Ask(question) => assert_eq!(
            question,
            "The current data for these applications will be deleted and replaced with the data from the backup. This cannot be undone.\n\na"
        ),
        other => panic!("{other:?}"),
    }

    for row in rows.iter_mut() {
        row.set_all(false);
    }
    assert!(matches!(restore_page::run(&rows), Start::Nothing));
    assert_eq!(
        restore_page::refresh(&rows),
        Some(("Nothing selected".to_owned(), false))
    );
    for row in rows.iter_mut() {
        row.set_all(true);
    }
    // What cannot be installed stays unticked.
    assert!(rows[0].install && !rows[1].install && rows[2].install);
    assert!(!rows[1].data_on);
    rows[0].entry.data_bytes = u64::MAX;
    assert_eq!(restore_page::refresh(&rows), None);
}

#[test]
fn long_lists_of_replacements_are_cut() {
    let rows: Vec<RestoreRow> = (0..7)
        .map(|i| {
            let name = format!("app{i}");
            let mut row = RestoreRow::new(i, entry(&name, "f", true, 1), data(1, 0), true);
            row.set_conflict(1);
            row
        })
        .collect();
    match restore_page::run(&rows) {
        Start::Ask(question) => {
            assert!(question.ends_with("\n\napp0\napp1\napp2\napp3\nand 3 more"), "{question}")
        }
        other => panic!("{other:?}"),
    }
}

#[test]
fn missing_remotes_are_explained() {
    let mut remote = MissingRemote {
        name: "r".to_owned(),
        url: "https://r/".to_owned(),
        title: "R".to_owned(),
        installation: Installation::User,
        apps: ["A", "B", "C"].iter().map(|app| (*app).to_owned()).collect(),
    };
    assert_eq!(restore_page::missing_subtitle(&remote), "https://r/\nNeeded by A, B, C");
    assert_eq!(restore_page::missing_icon(&remote), "network-server-symbolic");
    remote.apps.push("D".to_owned());
    remote.url = String::new();
    assert_eq!(
        restore_page::missing_subtitle(&remote),
        "No address was recorded for this remote, so it must be added by hand.\nNeeded by A, B and 2 more"
    );
    assert_eq!(restore_page::missing_icon(&remote), "dialog-warning-symbolic");

    let with_url = MissingRemote { url: "u".to_owned(), ..remote.clone() };
    let chosen = restore_page::remotes_to_add(
        &vec![with_url.clone(), remote.clone(), with_url.clone()],
        &vec![true, true, false],
    );
    assert_eq!(chosen, [with_url]);
}

fn backup() -> Backup {
    Backup {
        path: b"/b/x".to_vec(),
        header: Header::new(1, 2),
        trailer: Trailer { payload_sha256: [0; 32] },
        manifest: Manifest {
            flatbak: Meta {
                format_version: 1,
                created_at: "then".to_owned(),
                created_by: "FlatBak 0.1.0".to_owned(),
                host_arch: "aarch64".to_owned(),
                flatpak_version: String::new(),
                excluded_caches: true,
                app_count: 2,
                data_bytes: 0,
            },
            apps: vec![entry("a", "f", true, 1_500), entry("b", "f", false, 9)],
            remotes: Vec::new(),
        },
        file_size: 2_000,
    }
}

#[test]
fn archives_are_described() {
    let mut backup = backup();
    let rows = restore_page::about_rows(&backup, "yesterday".to_owned()).unwrap();
    let values: Vec<(&str, &str)> = rows.iter().map(|(a, b)| (a.as_str(), b.as_str())).collect();
    assert_eq!(
        values,
        [
            ("Created", "yesterday"),
            ("Applications", "2"),
            ("With data", "1 \u{2022} 1.5 kB"),
            ("Archive size", "2.0 kB"),
            ("Made by", "FlatBak 0.1.0"),
        ]
    );
    assert_eq!(
        restore_page::arch_warning(&backup.manifest, "x86_64").unwrap(),
        "This backup was made on aarch64. Some applications may not be available here."
    );
    assert!(restore_page::arch_warning(&backup.manifest, "aarch64").is_none());
    let recent = restore_page::recent_entry(&backup);
    assert_eq!((recent.app_count, recent.data_app_count), (2, 1));
    assert_eq!(recent.created_at, "then");
    backup.manifest.flatbak.host_arch = String::new();
    assert!(restore_page::arch_warning(&backup.manifest, "x86_64").is_none());
    backup.manifest.apps[0].data_bytes = u64::MAX;
    backup.manifest.apps[1].data_included = true;
    assert!(restore_page::about_rows(&backup, String::new()).is_none());
}

#[test]
fn restore_progress_is_shown() {
    let detail = |update: RestoreProgress| restore_page::apply_progress(&update).detail;
    assert_eq!(
        detail(RestoreProgress::Verifying { done: 1_000, total: 2_000 }).unwrap(),
        "Verified 1.0 kB of 2.0 kB"
    );
    assert_eq!(
        detail(RestoreProgress::Bytes { done: 1, total: 2 }).unwrap(),
        "1 B of 2 B"
    );
    assert_eq!(
        detail(RestoreProgress::Installing { app: "A".to_owned(), index: 0, total: 2 }).unwrap(),
        "A (1 of 2)"
    );
    assert_eq!(
        detail(RestoreProgress::InstallOutput { line: "l".to_owned() }).unwrap(),
        "l"
    );
    let adding = restore_page::apply_progress(&RestoreProgress::AddingRemote { name: "r".to_owned() });
    assert_eq!(adding.log.unwrap(), "Added the remote \u{201c}r\u{201d}");
    assert_eq!(adding.stage.unwrap(), "Adding remotes\u{2026}");
    let extracting = restore_page::apply_progress(&RestoreProgress::ExtractingApp { app: "A".to_owned() });
    assert_eq!(extracting.stage.unwrap(), "Restoring application data\u{2026}");
    let issue = restore_page::apply_progress(&RestoreProgress::Issue(Issue::DataSkipped {
        app: "A".to_owned(),
    }));
    assert_eq!(issue.log.unwrap(), "A: kept existing data");

    let many = RestoreProgress::Verifying { done: 2, total: 2 };
    assert_eq!(restore_page::throttle(&many, 10), Delivery::Drop);
    assert_eq!(restore_page::throttle(&many, 60), Delivery::SendAndRestart);
    let one = RestoreProgress::ExtractingApp { app: String::new() };
    assert_eq!(restore_page::throttle(&one, 0), Delivery::Send);
}

#[test]
fn finished_restores_are_summed_up() {
    let mut report = RestoreReport::default();
    report.installed.push("A".to_owned());
    let result = restore_page::show_result(&report);
    assert_eq!(result.heading, "Restore Complete");
    assert_eq!(
        result.description,
        "1 application installed \u{2022} 0 restored with data"
    );
    assert!(restore_page::interruption_note(&report).is_none());
    report.interrupted_during_data = true;
    let result = restore_page::show_result(&report);
    assert_eq!(result.heading, "Restore Finished, With Notes");
    assert_eq!(result.icon, "dialog-warning-symbolic");
    assert!(restore_page::interruption_note(&report).is_some());
}

// --------------------------------------------------------------------- home

#[test]
fn the_home_page_reflects_the_probe() {
    let found = probe(&Ok("1.18".to_owned()));
    assert!(found.banner.is_none() && found.can_back_up && found.can_restore);
    let lost = probe(&Err("not found".to_owned()));
    assert_eq!(lost.banner.unwrap(), "Flatpak is not available. not found");
    assert!(!lost.can_back_up && lost.can_restore);
}

#[test]
fn recent_backups_are_described() {
    let mut entry = RecentBackup {
        path: b"/b/x".to_vec(),
        created_at: "whenever".to_owned(),
        app_count: 1,
        data_app_count: 0,
        archive_bytes: 2_000,
    };
    assert_eq!(
        recent_line(&entry, "2 days ago", true),
        "1 app \u{2022} 2.0 kB \u{2022} 2 days ago"
    );
    assert_eq!(
        recent_subtitle(&entry, false),
        "1 app \u{2022} 2.0 kB \u{2022} whenever \u{2022} file not found"
    );
    entry.created_at = String::new();
    entry.app_count = 0;
    entry.archive_bytes = 0;
    assert_eq!(recent_subtitle(&entry, true), "");
    assert_eq!(recent_icon(true), "document-save-symbolic");
    assert_eq!(recent_icon(false), "dialog-warning-symbolic");
}
