//! Restores, step by step.

use flatbak::backup::container::{HashingWriter, Header, Trailer};
use flatbak::backup::manifest::{AppEntry, Manifest, Meta};
use flatbak::backup::reader::{
    install_one, restore, Backup, ConflictChoice, MissingRemote, Restore, RestoreAction, RestoreProgress,
    RestoreReport, RestoreRequest, RestoreSelection,
};
use flatbak::error::{ArchiveError, Cancelled, Failure, Issue};
use flatbak::flatpak::Installation;

fn app(id: &str, origin: &str, data_included: bool) -> AppEntry {
    AppEntry {
        id: id.to_owned(),
        name: String::new(),
        version: "1".to_owned(),
        branch: "stable".to_owned(),
        arch: "x86_64".to_owned(),
        origin: origin.to_owned(),
        installation: Installation::System,
        reference: format!("app/{id}/x86_64/stable"),
        commit: String::new(),
        installed_size: 0,
        data_included,
        data_bytes: 1,
        data_files: 1,
        data_path: format!("data/{id}"),
    }
}

fn manifest() -> Manifest {
    let apps = vec![
        app("org.x.A", "flathub", true),
        app("org.x.B", "", true),
        app("org.x.C", "flathub", false),
        app("org.x.D", "flathub", true),
    ];
    Manifest {
        flatbak: Meta {
            format_version: 1,
            created_at: String::new(),
            created_by: String::new(),
            host_arch: String::new(),
            flatpak_version: String::new(),
            excluded_caches: false,
            app_count: 4,
            data_bytes: 0,
        },
        apps,
        remotes: Vec::new(),
    }
}

fn selection(index: usize, install: bool, restore_data: bool, on_conflict: ConflictChoice) -> RestoreSelection {
    RestoreSelection {
        index,
        install,
        restore_data,
        on_conflict,
    }
}

fn missing(name: &str, url: &str) -> MissingRemote {
    MissingRemote {
        name: name.to_owned(),
        url: url.to_owned(),
        title: name.to_owned(),
        installation: Installation::User,
        apps: Vec::new(),
    }
}

fn request() -> RestoreRequest {
    RestoreRequest {
        selections: vec![
            selection(0, true, true, ConflictChoice::Replace),
            selection(1, true, true, ConflictChoice::Skip),
            selection(2, false, true, ConflictChoice::Replace),
            selection(9, true, true, ConflictChoice::Replace),
            selection(3, true, true, ConflictChoice::Replace),
        ],
        install_to_user: false,
        remotes_to_add: vec![missing("flathub", "https://x/"), missing("lost", "")],
    }
}

const PAYLOAD: &[u8] = b"the compressed payload";

fn backup() -> Backup {
    let mut writer = HashingWriter::new(());
    writer.record(PAYLOAD);
    let (_, len, payload_sha256) = writer.finish();
    Backup {
        path: b"/b/x.flatbak".to_vec(),
        header: Header::new(1, len),
        trailer: Trailer { payload_sha256 },
        manifest: manifest(),
        file_size: 73 + len,
    }
}

/// Lets the restore see this payload.
fn show_payload(run: &mut Restore, payload: &[u8]) -> Result<(), Failure> {
    let backup = backup();
    let mut check = backup.verify_payload();
    assert_eq!(check.want(1 << 20, false).unwrap(), Some(payload.len()));
    check.feed(payload).unwrap();
    assert_eq!(check.want(1 << 20, true).unwrap(), None);
    run.verified(check, &backup)
}

fn verify(run: &mut Restore) {
    show_payload(run, PAYLOAD).unwrap();
}

/// Asks until there is something to do.
fn next(
    run: &mut Restore,
    manifest: &Manifest,
    request: &RestoreRequest,
    said: &mut Vec<String>,
) -> RestoreAction {
    loop {
        let (progress, action) = run.next(manifest, request, false).unwrap();
        for message in progress {
            said.push(match message {
                RestoreProgress::AddingRemote { name } => format!("adding {name}"),
                RestoreProgress::Installing { app, index, total } => {
                    format!("installing {app} {index}/{total}")
                }
                RestoreProgress::Issue(issue) => format!("issue {}", issue.message()),
                other => format!("{other:?}"),
            });
        }
        if !matches!(action, RestoreAction::Continue) {
            return action;
        }
    }
}

#[test]
fn nothing_happens_before_the_payload_is_verified() {
    let (manifest, request) = (manifest(), request());
    let mut run = restore();
    for _ in 0..3 {
        assert!(matches!(
            next(&mut run, &manifest, &request, &mut Vec::new()),
            RestoreAction::VerifyPayload
        ));
    }
    verify(&mut run);
    assert!(!matches!(
        next(&mut run, &manifest, &request, &mut Vec::new()),
        RestoreAction::VerifyPayload
    ));
}

#[test]
fn a_damaged_payload_stops_a_restore() {
    let (manifest, request) = (manifest(), request());
    let mut run = restore();
    let mut damaged = PAYLOAD.to_vec();
    damaged[3] ^= 0x40;
    assert!(matches!(
        show_payload(&mut run, &damaged),
        Err(Failure::Archive(ArchiveError::ChecksumMismatch))
    ));
    assert!(matches!(
        next(&mut run, &manifest, &request, &mut Vec::new()),
        RestoreAction::VerifyPayload
    ));
}

#[test]
fn an_interrupted_extraction_is_noted() {
    let manifest = manifest();
    let request = RestoreRequest {
        selections: vec![selection(0, false, true, ConflictChoice::Skip)],
        install_to_user: false,
        remotes_to_add: Vec::new(),
    };
    for (error, interrupted) in [
        (Failure::Cancelled(Cancelled), true),
        (Failure::Message("disk full".to_owned()), false),
    ] {
        let mut run = restore();
        verify(&mut run);
        let mut said = Vec::new();
        assert!(matches!(next(&mut run, &manifest, &request, &mut said), RestoreAction::Inspect { app: 0 }));
        run.inspected(&manifest, &request, false);
        assert!(matches!(next(&mut run, &manifest, &request, &mut said), RestoreAction::Extract));
        assert!(run.extracted(Err(error)).is_err());
        let report = run.finish();
        assert_eq!(report.interrupted_during_data, interrupted);
        assert_eq!(report.has_problems(), interrupted);
    }
}

#[test]
fn a_whole_restore() {
    let (manifest, request) = (manifest(), request());
    let mut said = Vec::new();
    let mut run = Restore::new();
    assert!(matches!(next(&mut run, &manifest, &request, &mut said), RestoreAction::VerifyPayload));
    verify(&mut run);

    match next(&mut run, &manifest, &request, &mut said) {
        RestoreAction::AddRemote { name, url, installation } => {
            assert_eq!((name.as_str(), url.as_str()), ("flathub", "https://x/"));
            assert_eq!(installation, Installation::User);
        }
        other => panic!("{other:?}"),
    }
    run.remote_added(
        "flathub",
        Err(Failure::Message("exit 1".to_owned()).during("Could not add the remote")),
    );

    match next(&mut run, &manifest, &request, &mut said) {
        RestoreAction::Install { app, plan } => {
            assert_eq!(app, 0);
            assert_eq!(plan.origin, "flathub");
            assert_eq!(plan.reference, "app/org.x.A/x86_64/stable");
            assert_eq!(plan.installation, Installation::System);
        }
        other => panic!("{other:?}"),
    }
    assert!(run.installed(&manifest.apps[0], Ok(())).unwrap().is_none());
    match next(&mut run, &manifest, &request, &mut said) {
        RestoreAction::Install { app, .. } => assert_eq!(app, 3),
        other => panic!("{other:?}"),
    }
    match run.installed(&manifest.apps[3], Err(Failure::Message("no space".to_owned()))) {
        Ok(Some(RestoreProgress::Issue(issue))) => {
            assert_eq!(issue.message(), "org.x.D: install failed \u{2014} no space")
        }
        other => panic!("{other:?}"),
    }

    // Data that is there is replaced where that was chosen, and kept where not.
    assert!(matches!(next(&mut run, &manifest, &request, &mut said), RestoreAction::Inspect { app: 0 }));
    assert!(run.inspected(&manifest, &request, true).is_none());
    assert!(matches!(next(&mut run, &manifest, &request, &mut said), RestoreAction::Remove { app: 0 }));
    assert!(run.removed(&manifest, &request, Ok(())).unwrap().is_none());
    assert!(matches!(next(&mut run, &manifest, &request, &mut said), RestoreAction::Inspect { app: 1 }));
    match run.inspected(&manifest, &request, true) {
        Some(RestoreProgress::Issue(issue)) => {
            assert_eq!(issue.message(), "org.x.B: kept existing data")
        }
        other => panic!("{other:?}"),
    }
    assert!(matches!(next(&mut run, &manifest, &request, &mut said), RestoreAction::Inspect { app: 3 }));
    assert!(run.inspected(&manifest, &request, false).is_none());

    assert!(matches!(next(&mut run, &manifest, &request, &mut said), RestoreAction::Extract));
    assert_eq!(run.wanted(), &[0, 3]);
    let odd = Issue::Other { message: "odd".to_owned() };
    run.extracted(Ok((vec!["org.x.A".to_owned()], vec![odd]))).unwrap();
    assert!(matches!(next(&mut run, &manifest, &request, &mut said), RestoreAction::Finish));

    let report = run.finish();
    assert_eq!(report.installed, ["org.x.A"]);
    assert_eq!(report.data_restored, ["org.x.A"]);
    assert!(report.has_problems());
    assert!(!report.interrupted_during_data);
    let issues: Vec<String> = report.issues.iter().map(Issue::message).collect();
    assert_eq!(
        issues,
        [
            "flathub: Could not add the remote",
            "the remote \u{201c}lost\u{201d} has no recorded URL and could not be added",
            "org.x.B: install failed \u{2014} no remote was recorded, so it must be reinstalled by hand",
            "org.x.D: install failed \u{2014} no space",
            "org.x.B: kept existing data",
            "odd",
        ]
    );
    assert_eq!(
        said,
        [
            "adding flathub",
            "adding lost",
            "installing org.x.A 0/4",
            "installing org.x.B 1/4",
            "issue org.x.B: install failed \u{2014} no remote was recorded, so it must be reinstalled by hand",
            "installing org.x.D 3/4",
        ]
    );
}

#[test]
fn failed_removals_leave_the_data_out() {
    let manifest = manifest();
    let request = RestoreRequest {
        selections: vec![selection(0, false, true, ConflictChoice::Replace)],
        install_to_user: false,
        remotes_to_add: Vec::new(),
    };
    let mut run = Restore::new();
    verify(&mut run);
    let mut said = Vec::new();
    assert!(matches!(next(&mut run, &manifest, &request, &mut said), RestoreAction::Inspect { app: 0 }));
    run.inspected(&manifest, &request, true);
    assert!(matches!(next(&mut run, &manifest, &request, &mut said), RestoreAction::Remove { app: 0 }));
    let denied = Failure::Message("permission denied".to_owned());
    match run.removed(&manifest, &request, Err(denied)).unwrap() {
        Some(RestoreProgress::Issue(issue)) => assert_eq!(
            issue.message(),
            "org.x.A: data could not be restored \u{2014} existing data could not be removed: permission denied"
        ),
        other => panic!("{other:?}"),
    }
    // Nothing is wanted, so nothing is extracted.
    assert!(matches!(next(&mut run, &manifest, &request, &mut said), RestoreAction::Finish));
}

#[test]
fn cancelling_a_removal_ends_the_restore() {
    let manifest = manifest();
    let request = RestoreRequest {
        selections: vec![selection(0, false, true, ConflictChoice::Replace)],
        install_to_user: false,
        remotes_to_add: Vec::new(),
    };
    let mut run = Restore::new();
    verify(&mut run);
    let mut said = Vec::new();
    assert!(matches!(next(&mut run, &manifest, &request, &mut said), RestoreAction::Inspect { app: 0 }));
    run.inspected(&manifest, &request, true);
    assert!(matches!(next(&mut run, &manifest, &request, &mut said), RestoreAction::Remove { app: 0 }));
    match run.removed(&manifest, &request, Err(Failure::Cancelled(Cancelled))) {
        Err(failure) => {
            assert!(flatbak::error::is_cancellation(&failure));
            assert_eq!(failure.message(), "operation cancelled");
        }
        other => panic!("{other:?}"),
    }
    assert!(run.wanted().is_empty());
    assert!(run.finish().issues.is_empty());
}

#[test]
fn cancelling_ends_a_restore() {
    let (manifest, request) = (manifest(), request());
    let mut run = Restore::new();
    verify(&mut run);
    assert!(matches!(run.next(&manifest, &request, true), Err(Failure::Cancelled(_))));
    let mut said = Vec::new();
    assert!(matches!(next(&mut run, &manifest, &request, &mut said), RestoreAction::AddRemote { .. }));
    let cancelled = Failure::Cancelled(Cancelled).during("installing");
    assert!(run.installed(&manifest.apps[0], Err(cancelled)).is_err());
    assert!(run.finish().installed.is_empty());
}

#[test]
fn installing_for_the_user_overrides_the_installation() {
    let plan = install_one(&app("org.x.A", "flathub", false), true).unwrap();
    assert_eq!(plan.installation, Installation::User);
}

#[test]
fn records_that_cannot_be_installed_are_refused() {
    let mut entry = app("org.x.A", "", false);
    assert_eq!(
        install_one(&entry, false).unwrap_err(),
        "no remote was recorded, so it must be reinstalled by hand"
    );
    entry = app("../x", "flathub", false);
    assert_eq!(
        install_one(&entry, false).unwrap_err(),
        "the archive records an invalid application ID"
    );
    entry = app("org.x.A", "flathub", false);
    entry.arch = "--arch".to_owned();
    assert_eq!(
        install_one(&entry, false).unwrap_err(),
        "the archive records an invalid architecture"
    );
    entry = app("org.x.A", "flathub", false);
    entry.branch = "a/b".to_owned();
    assert_eq!(
        install_one(&entry, false).unwrap_err(),
        "the archive records an invalid branch"
    );
    entry = app("org.x.A", "--user", false);
    assert_eq!(
        install_one(&entry, false).unwrap_err(),
        "the archive records an invalid remote"
    );
}

#[test]
fn reports_know_whether_something_went_wrong() {
    let mut report = RestoreReport::default();
    assert!(!report.has_problems());
    report.interrupted_during_data = true;
    assert!(report.has_problems());
    assert_eq!(ConflictChoice::default(), ConflictChoice::Skip);
}
