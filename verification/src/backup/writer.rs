//! Creating a `.flatbak` archive: what goes into it, and how it is laid out.

pub use crate::backup::create::{create, Writing};
pub use crate::backup::links::{plan_symlink, relative_between, strip_app_root, SymlinkPlan};

use vstd::prelude::*;
use vstd::utf8::*;
use crate::appdata::{data_dir, data_dir_of, DataInfo, DataInfoView};
use crate::backup::confine::through_link;
use crate::backup::extract::{
    data_dir_name, entry_outcome, lemma_entry_goes_back, lemma_relative_path, payload_path,
    relative_path, EntryActionView, ExtractionView,
};
use crate::backup::manifest::{
    app_fault, count_with_data, data_app_count, entry_of, lemma_sound_apps, manifest_fault,
    needed_remotes, needs_remote, payload_prefix_of, remote_entry_of, same_place, AppEntry,
    AppEntryView, Manifest, ManifestView, Meta, MetaView, RemoteEntry, RemoteEntryView,
};
use crate::backup::reader::{open_outcome, zstd_content};
use crate::config;
use crate::error::{ArchiveErrorView, Cancelled, Failure, FailureView, Issue, IssueView};
use crate::flatpak::model::{InstalledApp, InstalledAppView, Remote, RemoteView};
use crate::path::{
    bytes_of, is_plain_name, join, join_path, lemma_join_at_once, parts,
    suffixed_parts, with_name_suffix, Part,
};
use crate::text::{
    cat2, cat3, lossy_text, same_bytes, same_text, strictly_sorted, text_lossy, views,
};
use crate::util::{names_in, valid_app_id};

verus! {

// ----------------------------------------------------- requests and reports

/// One application the user chose to add to the archive.
#[derive(Debug, Clone)]
pub struct AppSelection {
    pub app: InstalledApp,
    pub include_data: bool,
}

pub struct AppSelectionView {
    pub app: InstalledAppView,
    pub include_data: bool,
}

impl View for AppSelection {
    type V = AppSelectionView;

    open spec fn view(&self) -> AppSelectionView {
        AppSelectionView { app: self.app@, include_data: self.include_data }
    }
}

/// Everything needed to write an archive.
#[derive(Debug, Clone)]
pub struct BackupRequest {
    pub destination: Vec<u8>,
    pub apps: Vec<AppSelection>,
    /// Leave `~/.var/app/<id>/cache` out of the archive.
    pub exclude_caches: bool,
    pub compression_level: i32,
    /// Remotes configured on this system; only those actually referenced by a
    /// selected application are recorded.
    pub remotes: Vec<Remote>,
    pub flatpak_version: String,
}

/// Progress messages sent to the UI while a backup runs.
#[derive(Debug, Clone)]
#[allow(inconsistent_fields)]
pub enum BackupProgress {
    /// Measuring application data before anything is written.
    Scanning { app: String, index: usize, total: usize },
    /// Started writing one application's data.
    Writing { app: String, index: usize, total: usize },
    /// Uncompressed bytes read so far, against the pre-scanned total.
    Bytes { done: u64, total: u64 },
    /// Something the user should know about, but which did not stop the backup.
    Issue(Issue),
    /// Flushing the compressor and moving the archive into place.
    Finalising,
}

/// Outcome of a completed backup.
#[derive(Debug, Clone)]
pub struct BackupReport {
    pub path: Vec<u8>,
    pub archive_bytes: u64,
    pub app_count: usize,
    pub data_app_count: usize,
    pub data_bytes: u64,
    pub issues: Vec<Issue>,
}

// ----------------------------------------------------------------- scanning

/// Measuring the selected applications' data, so the manifest and the progress bar
/// both know what is coming before a single byte is written.
#[derive(Debug)]
pub struct Scan {
    entries: Vec<AppEntry>,
    sources: Vec<usize>,
    total_bytes: u64,
    issues: Vec<Issue>,
}

pub struct ScanView {
    pub entries: Seq<AppEntryView>,
    /// The selections whose data is to be written.
    pub sources: Seq<usize>,
    pub total_bytes: u64,
    pub issues: Seq<IssueView>,
}

impl View for Scan {
    type V = ScanView;

    closed spec fn view(&self) -> ScanView {
        ScanView {
            entries: views(self.entries@),
            sources: self.sources@,
            total_bytes: self.total_bytes,
            issues: views(self.issues@),
        }
    }
}

impl ScanView {
    /// Every source is one of the entries.
    pub open spec fn sound(self) -> bool {
        forall|i: int|
            0 <= i < self.sources.len() ==> #[trigger] self.sources[i] < self.entries.len()
    }
}

pub open spec fn no_remote_text(app: Seq<char>) -> Seq<char> {
    app + ": installed without a remote, so it cannot be reinstalled automatically"@
}

pub open spec fn only_cache_text(app: Seq<char>) -> Seq<char> {
    app + ": only cached data found, nothing backed up"@
}

/// What is wrong with an application itself.
pub open spec fn app_issues(app: InstalledAppView) -> Seq<IssueView> {
    if app.sideloaded() {
        seq![IssueView::Other { message: no_remote_text(app.shown_name()) }]
    } else {
        Seq::empty()
    }
}

/// True if there is something to write of the data that `info` describes.
pub open spec fn has_data_to_write(info: DataInfoView, exclude_caches: bool) -> bool {
    info.present && !(info.backed_up(exclude_caches) == 0 && exclude_caches && info.only_cache())
}

/// What is wrong with an application's data.
pub open spec fn data_issues(
    app: InstalledAppView,
    info: DataInfoView,
    exclude_caches: bool,
    root: Seq<u8>,
) -> Seq<IssueView> {
    let unread = match info.error {
        Some(message) => seq![
            IssueView::ReadFailed { path: data_dir_of(root, app.id), message },
        ],
        None => Seq::empty(),
    };
    if !info.present {
        unread.push(IssueView::NoDataDirectory { app: app.shown_name() })
    } else if !has_data_to_write(info, exclude_caches) {
        unread.push(IssueView::Other { message: only_cache_text(app.shown_name()) })
    } else {
        unread
    }
}

/// The scan once `selection`, whose data `info` describes, was taken in.
pub open spec fn scanned(
    state: ScanView,
    selection: AppSelectionView,
    info: DataInfoView,
    exclude_caches: bool,
    root: Seq<u8>,
) -> ScanView {
    let app = selection.app;
    let bytes = info.backed_up(exclude_caches);
    if !selection.include_data {
        ScanView {
            entries: state.entries.push(entry_of(app)),
            issues: state.issues + app_issues(app),
            ..state
        }
    } else if !has_data_to_write(info, exclude_caches) {
        ScanView {
            entries: state.entries.push(entry_of(app)),
            issues: state.issues + app_issues(app) + data_issues(app, info, exclude_caches, root),
            ..state
        }
    } else {
        ScanView {
            entries: state.entries.push(
                AppEntryView {
                    data_included: true,
                    data_bytes: bytes as u64,
                    data_files: info.file_count,
                    data_path: payload_prefix_of(app.id),
                    ..entry_of(app)
                },
            ),
            sources: state.sources.push(state.entries.len() as usize),
            total_bytes: if state.total_bytes + bytes <= u64::MAX {
                (state.total_bytes + bytes) as u64
            } else {
                u64::MAX
            },
            issues: state.issues + app_issues(app) + data_issues(app, info, exclude_caches, root),
        }
    }
}

impl Scan {
    /// A scan that has seen nothing.
    pub fn new() -> (out: Scan)
        ensures
            out@ == (ScanView {
                entries: Seq::empty(),
                sources: Seq::empty(),
                total_bytes: 0,
                issues: Seq::empty(),
            }),
            out@.sound(),
    {
        let out = Scan {
            entries: Vec::new(),
            sources: Vec::new(),
            total_bytes: 0,
            issues: Vec::new(),
        };
        proof {
            assert(out@.entries =~= Seq::<AppEntryView>::empty());
            assert(out@.sources =~= Seq::<usize>::empty());
            assert(out@.issues =~= Seq::<IssueView>::empty());
        }
        out
    }

    /// The next selection to take in: its place, and what to tell the user. `None`
    /// when every one was.
    pub fn next(&self, request: &BackupRequest, cancelled: bool) -> (out: Result<
        Option<(usize, BackupProgress)>,
        Failure,
    >)
        ensures
            ({
                let n = self@.entries.len();
                match out {
                    Ok(None) => n >= request.apps@.len(),
                    Ok(Some((index, progress))) => {
                        &&& n < request.apps@.len()
                        &&& !cancelled
                        &&& index == n
                        &&& progress matches BackupProgress::Scanning { app, index: at, total }
                            && app@ == request.apps@[n as int]@.app.shown_name() && at == n
                            && total == request.apps@.len()
                    },
                    Err(error) => n < request.apps@.len() && cancelled && error@
                        == FailureView::Cancelled,
                }
            }),
    {
        let index: usize = self.entries.len();
        assert(self@.entries.len() == index);
        if index >= request.apps.len() {
            return Ok(None);
        }
        if cancelled {
            return Err(Failure::Cancelled(Cancelled));
        }
        let app = &request.apps[index].app;
        Ok(
            Some(
                (
                    index,
                    BackupProgress::Scanning {
                        app: app.display_name().to_owned(),
                        index,
                        total: request.apps.len(),
                    },
                ),
            ),
        )
    }

    fn note(&mut self, issue: Issue)
        ensures
            final(self)@ == (ScanView { issues: old(self)@.issues.push(issue@), ..old(self)@ }),
    {
        let ghost before = self.issues@;
        let ghost issue_view = issue@;
        self.issues.push(issue);
        assert(views(self.issues@) =~= views(before).push(issue_view));
    }

    /// Takes in one selection. What `info` says of its data is only looked at if
    /// the data is to be included.
    pub fn take(
        &mut self,
        selection: &AppSelection,
        info: &DataInfo,
        exclude_caches: bool,
        root: &[u8],
    )
        ensures
            final(self)@ == scanned(old(self)@, selection@, info@, exclude_caches, root@),
            old(self)@.sound() ==> final(self)@.sound(),
            final(self)@.entries.len() == old(self)@.entries.len() + 1,
            final(self)@.entries.last().data_included <==> {
                &&& selection.include_data
                &&& info.present
                &&& !exclude_caches || info.total_bytes != info.cache_bytes || info.total_bytes == 0
            },
            final(self)@.entries.last().data_included ==> {
                &&& final(self)@.entries.last().data_bytes == if !exclude_caches {
                    info.total_bytes as int
                } else if info.cache_bytes <= info.total_bytes {
                    info.total_bytes - info.cache_bytes
                } else {
                    0
                }
                &&& final(self)@.sources == old(self)@.sources.push(
                    old(self)@.entries.len() as usize,
                )
            },
            !final(self)@.entries.last().data_included ==> final(self)@.sources == old(
                self,
            )@.sources,
    {
        let ghost start = self@;
        let app = &selection.app;
        let mut entry = AppEntry::from_installed(app);
        if app.is_sideloaded() {
            self.note(
                Issue::Other {
                    message: cat2(
                        app.display_name(),
                        ": installed without a remote, so it cannot be reinstalled automatically",
                    ),
                },
            );
        }
        assert(self@.issues =~= start.issues + app_issues(app@));
        let ghost after_app = self@.issues;
        if selection.include_data {
            if let Some(error) = &info.error {
                self.note(
                    Issue::ReadFailed { path: data_dir(root, &app.id), message: error.clone() },
                );
            }
            let bytes: u64 = info.bytes_to_back_up(exclude_caches);
            if !info.present {
                self.note(Issue::NoDataDirectory { app: app.display_name().to_owned() });
            } else if bytes == 0 && exclude_caches && info.is_only_cache() {
                self.note(
                    Issue::Other {
                        message: cat2(
                            app.display_name(),
                            ": only cached data found, nothing backed up",
                        ),
                    },
                );
            } else {
                entry.data_included = true;
                entry.data_bytes = bytes;
                entry.data_files = info.file_count;
                entry.data_path = entry.payload_prefix();
                self.total_bytes = self.total_bytes.saturating_add(bytes);
                self.sources.push(self.entries.len());
            }
            assert(self@.issues =~= after_app + data_issues(app@, info@, exclude_caches, root@));
        }
        let ghost before = self.entries@;
        let ghost entry_view = entry@;
        self.entries.push(entry);
        proof {
            assert(views(self.entries@) =~= views(before).push(entry_view));
            assert(views(before).len() == before.len());
            let goal = scanned(start, selection@, info@, exclude_caches, root@);
            assert(self@.entries =~= goal.entries);
            assert(self@.sources =~= goal.sources);
            assert(self@.issues =~= goal.issues);
        }
    }
}

/// Data goes along whenever it was asked for and is there, with or without its
/// caches; it is left out only if it was not asked for, is not there, or is nothing
/// but a cache that is to be left out. What goes along counts with all of its bytes,
/// less those of the cache where that is left out.
pub proof fn lemma_data_goes_along(
    state: ScanView,
    selection: AppSelectionView,
    info: DataInfoView,
    exclude_caches: bool,
    root: Seq<u8>,
)
    ensures
        ({
            let after = scanned(state, selection, info, exclude_caches, root);
            let entry = after.entries.last();
            let left_out = !selection.include_data || !info.present || (exclude_caches
                && info.total_bytes > 0 && info.total_bytes == info.cache_bytes);
            let bytes = if !exclude_caches {
                info.total_bytes as int
            } else if info.cache_bytes <= info.total_bytes {
                info.total_bytes - info.cache_bytes
            } else {
                0
            };
            &&& after.entries.len() == state.entries.len() + 1
            &&& after.entries.drop_last() == state.entries
            &&& entry.data_included <==> !left_out
            &&& entry.data_included ==> {
                &&& entry.data_bytes == bytes
                &&& entry.data_files == info.file_count
                &&& entry.data_path == "data"@ + "/"@ + selection.app.id
                &&& after.sources == state.sources.push(state.entries.len() as usize)
                &&& state.total_bytes + bytes <= u64::MAX ==> after.total_bytes
                    == state.total_bytes + bytes
                &&& state.total_bytes + bytes > u64::MAX ==> after.total_bytes == u64::MAX
            }
            &&& !entry.data_included ==> {
                &&& entry.data_bytes == 0
                &&& entry.data_files == 0
                &&& entry.data_path.len() == 0
                &&& after.sources == state.sources
                &&& after.total_bytes == state.total_bytes
            }
        }),
{
    assert(scanned(state, selection, info, exclude_caches, root).entries.drop_last()
        =~= state.entries);
}

/// The entry of an application says of it what the list of installed ones said: each
/// field is the application's own, and it is shown by its name, or by its ID if it
/// has none.
pub proof fn lemma_entries_say_what_was_installed(
    state: ScanView,
    selection: AppSelectionView,
    info: DataInfoView,
    exclude_caches: bool,
    root: Seq<u8>,
)
    ensures
        ({
            let entry = scanned(state, selection, info, exclude_caches, root).entries.last();
            let app = selection.app;
            &&& entry.id == app.id
            &&& app.name.len() > 0 ==> entry.name == app.name
            &&& app.name.len() == 0 ==> entry.name == app.id
            &&& entry.version == app.version
            &&& entry.branch == app.branch
            &&& entry.arch == app.arch
            &&& entry.origin == app.origin
            &&& entry.installation == app.installation
            &&& entry.reference == app.reference
            &&& entry.commit == app.commit
            &&& app.installed_size matches Some(size) ==> entry.installed_size == size
            &&& app.installed_size is None ==> entry.installed_size == 0
        }),
{
}

/// A selection is reported on where something about it is amiss, and only there: that
/// it came from no remote, that its data could not be read, and that there is nothing
/// of it to write. What was reported before stays.
pub proof fn lemma_scan_reports_what_is_amiss(
    state: ScanView,
    selection: AppSelectionView,
    info: DataInfoView,
    exclude_caches: bool,
    root: Seq<u8>,
)
    ensures
        ({
            let after = scanned(state, selection, info, exclude_caches, root);
            let before = state.issues.len() as int;
            let app = selection.app;
            let shown = if app.name.len() == 0 {
                app.id
            } else {
                app.name
            };
            let no_remote = app.origin.len() == 0 || app.origin == "-"@;
            let unread = selection.include_data && info.error is Some;
            let nothing = selection.include_data && !after.entries.last().data_included;
            let first: int = if no_remote {
                1
            } else {
                0
            };
            let second: int = if unread {
                1
            } else {
                0
            };
            &&& after.issues.len() == before + first + second + if nothing {
                1int
            } else {
                0
            }
            &&& after.issues.take(before) == state.issues
            &&& no_remote ==> after.issues[before] == (IssueView::Other {
                message: shown
                    + ": installed without a remote, so it cannot be reinstalled automatically"@,
            })
            &&& unread ==> after.issues[before + first] == (IssueView::ReadFailed {
                path: data_dir_of(root, app.id),
                message: info.error->Some_0,
            })
            &&& nothing && !info.present ==> after.issues.last() == (IssueView::NoDataDirectory {
                app: shown,
            })
            &&& nothing && info.present ==> after.issues.last() == (IssueView::Other {
                message: shown + ": only cached data found, nothing backed up"@,
            })
        }),
{
    let after = scanned(state, selection, info, exclude_caches, root);
    assert(after.issues.take(state.issues.len() as int) =~= state.issues);
}

// ----------------------------------------------------------------- planning

/// What is going to be written.
#[derive(Debug)]
pub struct BackupPlan {
    pub manifest: Manifest,
    /// The remotes that the selected applications came from.
    pub needed: Vec<String>,
    /// The selections whose data is to be written.
    pub sources: Vec<usize>,
    pub data_app_count: usize,
    pub issues: Vec<Issue>,
}

/// Those of `remotes` that `apps` came from, so a restore can recreate a missing
/// one from the archive itself.
pub open spec fn recorded_remotes(remotes: Seq<RemoteView>, apps: Seq<AppEntryView>) -> Seq<
    RemoteEntryView,
>
    decreases remotes.len(),
{
    if remotes.len() == 0 {
        Seq::empty()
    } else {
        let before = recorded_remotes(remotes.drop_last(), apps);
        if needs_remote(apps, remotes.last().name) {
            before.push(remote_entry_of(remotes.last()))
        } else {
            before
        }
    }
}

pub open spec fn is_recorded(remotes: Seq<RemoteEntryView>, name: Seq<char>) -> bool {
    exists|i: int| 0 <= i < remotes.len() && (#[trigger] remotes[i]).name == name
}

pub open spec fn unrecorded_text(name: Seq<char>) -> Seq<char> {
    "the remote \u{201c}"@ + name
        + "\u{201d} is no longer configured, so its URL could not be recorded"@
}

/// One issue for each of `names` that is not recorded.
pub open spec fn unrecorded_issues(names: Seq<Seq<char>>, remotes: Seq<RemoteEntryView>) -> Seq<
    IssueView,
>
    decreases names.len(),
{
    if names.len() == 0 {
        Seq::empty()
    } else {
        let before = unrecorded_issues(names.drop_last(), remotes);
        if is_recorded(remotes, names.last()) {
            before
        } else {
            before.push(IssueView::Other { message: unrecorded_text(names.last()) })
        }
    }
}

/// The manifest of an archive with these applications.
pub open spec fn planned_manifest(
    scan: ScanView,
    remotes: Seq<RemoteView>,
    exclude_caches: bool,
    flatpak_version: Seq<char>,
    created_at: Seq<char>,
    host_arch: Seq<char>,
) -> ManifestView {
    ManifestView {
        flatbak: MetaView {
            format_version: config::MANIFEST_FORMAT_VERSION,
            created_at,
            created_by: config::APP_NAME@ + " "@ + config::VERSION@,
            host_arch,
            flatpak_version,
            excluded_caches: exclude_caches,
            app_count: scan.entries.len() as u32,
            data_bytes: scan.total_bytes,
        },
        apps: scan.entries,
        remotes: recorded_remotes(remotes, scan.entries),
    }
}

fn entry_recorded(remotes: &Vec<RemoteEntry>, name: &str) -> (yes: bool)
    ensures
        yes == is_recorded(views(remotes@), name@),
{
    let ghost all = views(remotes@);
    let mut i: usize = 0;
    while i < remotes.len()
        invariant
            i <= remotes@.len(),
            all == views(remotes@),
            forall|k: int| 0 <= k < i ==> (#[trigger] all[k]).name != name@,
        decreases remotes.len() - i,
    {
        assert(all[i as int] == remotes@[i as int]@);
        if same_text(&remotes[i].name, name) {
            return true;
        }
        i = i + 1;
    }
    false
}

impl Scan {
    /// The plan for an archive made at `created_at` on a machine of this
    /// architecture.
    pub fn plan(self, request: &BackupRequest, created_at: String, host_arch: String) -> (out:
        BackupPlan)
        ensures
            out.manifest@ == planned_manifest(
                self@,
                views(request.remotes@),
                request.exclude_caches,
                request.flatpak_version@,
                created_at@,
                host_arch@,
            ),
            strictly_sorted(views(out.needed@)),
            forall|name: Seq<char>| #[trigger]
                views(out.needed@).contains(name) <==> needs_remote(self@.entries, name),
            out.sources@ == self@.sources,
            out.data_app_count == data_app_count(self@.entries),
            views(out.issues@) == self@.issues + unrecorded_issues(
                views(out.needed@),
                out.manifest@.remotes,
            ),
    {
        let ghost start = self@;
        let entries = self.entries;
        let needed = needed_remotes(&entries);
        let ghost names = views(needed@);
        let ghost known = views(request.remotes@);
        let mut remotes: Vec<RemoteEntry> = Vec::new();
        let mut i: usize = 0;
        proof {
            assert(known.take(0) =~= Seq::<RemoteView>::empty());
            assert(views(remotes@) =~= Seq::<RemoteEntryView>::empty());
        }
        while i < request.remotes.len()
            invariant
                i <= request.remotes@.len(),
                known == views(request.remotes@),
                names == views(needed@),
                forall|name: Seq<char>| #[trigger]
                    names.contains(name) <==> needs_remote(views(entries@), name),
                views(remotes@) == recorded_remotes(known.take(i as int), views(entries@)),
            decreases request.remotes.len() - i,
        {
            let remote = &request.remotes[i];
            proof {
                assert(known.take(i + 1).drop_last() =~= known.take(i as int));
                assert(known.take(i + 1).last() == remote@);
            }
            let wanted = crate::appdata::contains_text(&needed, &remote.name);
            assert(wanted == names.contains(remote@.name));
            if wanted {
                let ghost before = views(remotes@);
                let entry = RemoteEntry::from_remote(remote);
                let ghost entry_view = entry@;
                remotes.push(entry);
                assert(views(remotes@) =~= before.push(entry_view));
            }
            i = i + 1;
        }
        assert(known.take(known.len() as int) =~= known);
        let mut issues = self.issues;
        let ghost scanned_issues = views(issues@);
        let ghost recorded = views(remotes@);
        let mut k: usize = 0;
        proof {
            assert(names.take(0) =~= Seq::<Seq<char>>::empty());
            assert(scanned_issues + unrecorded_issues(names.take(0), recorded) =~= scanned_issues);
        }
        while k < needed.len()
            invariant
                k <= needed@.len(),
                names == views(needed@),
                recorded == views(remotes@),
                views(issues@) == scanned_issues + unrecorded_issues(
                    names.take(k as int),
                    recorded,
                ),
            decreases needed.len() - k,
        {
            let name = &needed[k];
            proof {
                assert(names.take(k + 1).drop_last() =~= names.take(k as int));
                assert(names.take(k + 1).last() == name@);
            }
            if !entry_recorded(&remotes, name) {
                let ghost before = views(issues@);
                let issue = Issue::Other {
                    message: cat3(
                        "the remote \u{201c}",
                        name,
                        "\u{201d} is no longer configured, so its URL could not be recorded",
                    ),
                };
                let ghost issue_view = issue@;
                issues.push(issue);
                proof {
                    assert(views(issues@) =~= before.push(issue_view));
                    assert(scanned_issues + unrecorded_issues(names.take(k + 1), recorded) =~= (
                    scanned_issues + unrecorded_issues(names.take(k as int), recorded)).push(
                        issue_view,
                    ));
                }
            }
            k = k + 1;
        }
        assert(names.take(names.len() as int) =~= names);
        let data_app_count: usize = count_with_data(&entries);
        assert(entries@.len() == start.entries.len());
        let manifest = Manifest {
            flatbak: Meta {
                format_version: config::MANIFEST_FORMAT_VERSION,
                created_at,
                created_by: cat3(config::APP_NAME, " ", config::VERSION),
                host_arch,
                flatpak_version: request.flatpak_version.clone(),
                excluded_caches: request.exclude_caches,
                app_count: entries.len() as u32,
                data_bytes: self.total_bytes,
            },
            apps: entries,
            remotes,
        };
        BackupPlan { manifest, needed, sources: self.sources, data_app_count, issues }
    }
}

proof fn lemma_recorded_have_names(remotes: Seq<RemoteView>, apps: Seq<AppEntryView>)
    ensures
        forall|i: int|
            0 <= i < recorded_remotes(remotes, apps).len() ==> (#[trigger] recorded_remotes(
                remotes,
                apps,
            )[i]).name.len() > 0,
    decreases remotes.len(),
{
    if remotes.len() > 0 {
        lemma_recorded_have_names(remotes.drop_last(), apps);
        let before = recorded_remotes(remotes.drop_last(), apps);
        let all = recorded_remotes(remotes, apps);
        assert forall|i: int| 0 <= i < all.len() implies (#[trigger] all[i]).name.len() > 0 by {
            if i < before.len() {
                assert(all[i] == before[i]);
            }
        }
    }
}

/// A remote is recorded, as it is configured, if one of the applications came from it,
/// and only then: whatever the installation, and however many there are.
pub proof fn lemma_needed_remotes_are_recorded(
    remotes: Seq<RemoteView>,
    apps: Seq<AppEntryView>,
    entry: RemoteEntryView,
)
    ensures
        recorded_remotes(remotes, apps).contains(entry) <==> exists|i: int, k: int|
            0 <= i < remotes.len() && 0 <= k < apps.len() && {
                let remote = #[trigger] remotes[i];
                let app = #[trigger] apps[k];
                &&& app.origin.len() > 0
                &&& app.origin == remote.name
                &&& entry.name == remote.name
                &&& entry.title == remote.title
                &&& entry.url == remote.url
                &&& entry.installation == remote.installation
            },
        recorded_remotes(remotes, apps).len() <= remotes.len(),
    decreases remotes.len(),
{
    if remotes.len() > 0 {
        let less = remotes.drop_last();
        let last = remotes.last();
        let before = recorded_remotes(less, apps);
        let all = recorded_remotes(remotes, apps);
        lemma_needed_remotes_are_recorded(less, apps, entry);
        if all.contains(entry) {
            let n = choose|n: int| 0 <= n < all.len() && all[n] == entry;
            if n < before.len() {
                assert(before[n] == entry);
                assert(before.contains(entry));
                let (i, k) = choose|i: int, k: int|
                    0 <= i < less.len() && 0 <= k < apps.len() && {
                        let remote = #[trigger] less[i];
                        let app = #[trigger] apps[k];
                        &&& app.origin.len() > 0
                        &&& app.origin == remote.name
                        &&& entry.name == remote.name
                        &&& entry.title == remote.title
                        &&& entry.url == remote.url
                        &&& entry.installation == remote.installation
                    };
                assert(remotes[i] == less[i] && apps[k].origin == remotes[i].name);
            } else {
                let k = choose|k: int|
                    0 <= k < apps.len() && !(#[trigger] apps[k]).sideloaded() && apps[k].origin
                        == last.name;
                assert(remotes[remotes.len() - 1] == last && apps[k].origin == last.name);
            }
        }
        if exists|i: int, k: int|
            0 <= i < remotes.len() && 0 <= k < apps.len() && {
                let remote = #[trigger] remotes[i];
                let app = #[trigger] apps[k];
                &&& app.origin.len() > 0
                &&& app.origin == remote.name
                &&& entry.name == remote.name
                &&& entry.title == remote.title
                &&& entry.url == remote.url
                &&& entry.installation == remote.installation
            } {
            let (i, k) = choose|i: int, k: int|
                0 <= i < remotes.len() && 0 <= k < apps.len() && {
                    let remote = #[trigger] remotes[i];
                    let app = #[trigger] apps[k];
                    &&& app.origin.len() > 0
                    &&& app.origin == remote.name
                    &&& entry.name == remote.name
                    &&& entry.title == remote.title
                    &&& entry.url == remote.url
                    &&& entry.installation == remote.installation
                };
            if i < less.len() {
                assert(less[i] == remotes[i] && apps[k].origin == less[i].name);
                assert(before.contains(entry));
                let n = choose|n: int| 0 <= n < before.len() && before[n] == entry;
                assert(all[n] == entry);
            } else {
                assert(needs_remote(apps, last.name));
                assert(entry == remote_entry_of(last));
                assert(all[before.len() as int] == entry);
            }
        }
    }
}

/// Remotes are recorded in the order in which they are configured, each by itself.
pub proof fn lemma_recorded_in_order(
    a: Seq<RemoteView>,
    b: Seq<RemoteView>,
    apps: Seq<AppEntryView>,
)
    ensures
        recorded_remotes(a + b, apps) == recorded_remotes(a, apps) + recorded_remotes(b, apps),
    decreases b.len(),
{
    if b.len() == 0 {
        assert(a + b =~= a);
        assert(recorded_remotes(a, apps) + recorded_remotes(b, apps) =~= recorded_remotes(a, apps));
    } else {
        lemma_recorded_in_order(a, b.drop_last(), apps);
        assert((a + b).drop_last() =~= a + b.drop_last());
        assert((a + b).last() == b.last());
        assert(recorded_remotes(a + b, apps) =~= recorded_remotes(a, apps) + recorded_remotes(
            b,
            apps,
        ));
    }
}

/// Each remote that is needed but not recorded is reported, and no other is.
pub proof fn lemma_unrecorded_remotes_are_reported(
    names: Seq<Seq<char>>,
    remotes: Seq<RemoteEntryView>,
    name: Seq<char>,
)
    ensures
        names.contains(name) && (forall|i: int|
            0 <= i < remotes.len() ==> (#[trigger] remotes[i]).name != name)
            ==> unrecorded_issues(names, remotes).contains(
            IssueView::Other {
                message: "the remote \u{201c}"@ + name
                    + "\u{201d} is no longer configured, so its URL could not be recorded"@,
            },
        ),
        (forall|k: int|
            0 <= k < names.len() ==> exists|i: int|
                0 <= i < remotes.len() && (#[trigger] remotes[i]).name == #[trigger] names[k])
            ==> unrecorded_issues(names, remotes).len() == 0,
        unrecorded_issues(names, remotes).len() <= names.len(),
    decreases names.len(),
{
    if names.len() > 0 {
        let less = names.drop_last();
        let before = unrecorded_issues(less, remotes);
        let all = unrecorded_issues(names, remotes);
        lemma_unrecorded_remotes_are_reported(less, remotes, name);
        let issue = IssueView::Other { message: unrecorded_text(name) };
        if names.contains(name) && (forall|i: int|
            0 <= i < remotes.len() ==> (#[trigger] remotes[i]).name != name) {
            let k = choose|k: int| 0 <= k < names.len() && names[k] == name;
            if k < less.len() {
                assert(less[k] == name);
                assert(before.contains(issue));
                let n = choose|n: int| 0 <= n < before.len() && before[n] == issue;
                assert(all[n] == issue);
            } else {
                assert(all[before.len() as int] == issue);
            }
        }
        if forall|k: int|
            0 <= k < names.len() ==> exists|i: int|
                0 <= i < remotes.len() && (#[trigger] remotes[i]).name == #[trigger] names[k] {
            assert forall|k: int| 0 <= k < less.len() implies exists|i: int|
                0 <= i < remotes.len() && (#[trigger] remotes[i]).name == #[trigger] less[k] by {
                assert(less[k] == names[k]);
            }
            assert(names[names.len() - 1] == names.last());
        }
    }
}

/// The manifest describes the archive: the applications that were scanned, how many
/// there are and how much data they come with, and what was asked for.
pub proof fn lemma_planned_manifest_describes(
    scan: ScanView,
    remotes: Seq<RemoteView>,
    exclude_caches: bool,
    flatpak_version: Seq<char>,
    created_at: Seq<char>,
    host_arch: Seq<char>,
)
    requires
        scan.entries.len() <= u32::MAX,
    ensures
        ({
            let manifest = planned_manifest(
                scan,
                remotes,
                exclude_caches,
                flatpak_version,
                created_at,
                host_arch,
            );
            &&& manifest.apps == scan.entries
            &&& manifest.flatbak.app_count == scan.entries.len()
            &&& manifest.flatbak.data_bytes == scan.total_bytes
            &&& manifest.flatbak.excluded_caches == exclude_caches
            &&& manifest.flatbak.created_at == created_at
            &&& manifest.flatbak.host_arch == host_arch
            &&& manifest.flatbak.flatpak_version == flatpak_version
            &&& manifest.flatbak.format_version == 1
            &&& forall|i: int|
                0 <= i < manifest.remotes.len() ==> exists|k: int|
                    0 <= k < scan.entries.len() && (#[trigger] scan.entries[k]).origin == (
                    #[trigger] manifest.remotes[i]).name
        }),
{
    let recorded = recorded_remotes(remotes, scan.entries);
    assert forall|i: int| 0 <= i < recorded.len() implies exists|k: int|
        0 <= k < scan.entries.len() && (#[trigger] scan.entries[k]).origin == (
        #[trigger] recorded[i]).name by {
        lemma_needed_remotes_are_recorded(remotes, scan.entries, recorded[i]);
        assert(recorded.contains(recorded[i]));
    }
}

/// A sound list of applications makes a manifest that a reader accepts as it is.
///
/// Applications with an ID, branch or architecture that a reader would refuse, or
/// listed twice for the same installation, are left out.
pub proof fn lemma_planned_manifest_is_accepted(
    scan: ScanView,
    remotes: Seq<RemoteView>,
    exclude_caches: bool,
    flatpak_version: Seq<char>,
    created_at: Seq<char>,
    host_arch: Seq<char>,
)
    requires
        scan.entries.len() <= u32::MAX,
        forall|i: int|
            0 <= i < scan.entries.len() ==> {
                let app = #[trigger] scan.entries[i];
                &&& valid_app_id(app.id)
                &&& app.branch.len() > 0
                &&& app.arch.len() > 0
                &&& app.data_included ==> app.data_path == payload_prefix_of(app.id)
            },
        forall|i: int, j: int|
            0 <= i < j < scan.entries.len() ==> !same_place(
                #[trigger] scan.entries[i],
                #[trigger] scan.entries[j],
            ),
    ensures
        ({
            let manifest = planned_manifest(
                scan,
                remotes,
                exclude_caches,
                flatpak_version,
                created_at,
                host_arch,
            );
            &&& manifest_fault(manifest) is None
            &&& open_outcome(Ok(manifest.flatbak.format_version), Ok(manifest)) == Ok::<
                ManifestView,
                ArchiveErrorView,
            >(manifest)
        }),
{
    assert forall|i: int| 0 <= i < scan.entries.len() implies app_fault(
        Seq::empty(),
        #[trigger] scan.entries[i],
    ) is None by {}
    lemma_sound_apps(scan.entries);
    lemma_recorded_have_names(remotes, scan.entries);
}

/// Scanning keeps to what a reader asks of data paths: each application that comes
/// with data is given the path its data is stored under.
pub proof fn lemma_scanned_data_paths(
    state: ScanView,
    selection: AppSelectionView,
    info: DataInfoView,
    exclude_caches: bool,
    root: Seq<u8>,
)
    ensures
        ({
            let entry = scanned(state, selection, info, exclude_caches, root).entries.last();
            entry.data_included ==> entry.data_path == payload_prefix_of(entry.id)
        }),
{
}

// ------------------------------------------------------------- the manifest

/// The zstd frame for `bytes` at a compression level.
pub uninterp spec fn zstd_frame(bytes: Seq<u8>, level: i32) -> Seq<u8>;

/// `zstd::encode_all`: `bytes` compressed at `level`. Decompressing gives `bytes`
/// back. When it fails, as it may for want of memory, only the system's words are
/// handed on.
#[verifier::external_body]
fn compress(bytes: &[u8], level: i32) -> (out: Result<Vec<u8>, String>)
    ensures
        out matches Ok(frame) ==> frame@ == zstd_frame(bytes@, level) && zstd_content(frame@)
            == Some(bytes@),
{
    zstd::encode_all(bytes, level).map_err(|error| error.to_string())
}

/// The failure to compress a manifest.
pub open spec fn uncompressed(message: Seq<char>) -> FailureView {
    FailureView::During {
        context: "Could not compress the backup manifest"@,
        cause: Box::new(FailureView::Message(message)),
    }
}

/// The failure for a manifest that does not fit into an archive.
pub open spec fn oversized() -> FailureView {
    FailureView::During {
        context: "The backup manifest is implausibly large"@,
        cause: Box::new(FailureView::Message("out of range integral type conversion attempted"@)),
    }
}

/// Checks that a compressed manifest fits into an archive.
pub fn sized_manifest(compressed: Result<Vec<u8>, String>) -> (out: Result<Vec<u8>, Failure>)
    ensures
        match compressed {
            Err(message) => out matches Err(error) && error@ == uncompressed(message@),
            Ok(bytes) => if bytes@.len() <= u32::MAX {
                out matches Ok(same) && same@ == bytes@
            } else {
                out matches Err(error) && error@ == oversized()
            },
        },
{
    match compressed {
        Err(message) => Err(
            Failure::Message(message).during("Could not compress the backup manifest"),
        ),
        Ok(bytes) => {
            if bytes.len() as u64 <= u32::MAX as u64 {
                Ok(bytes)
            } else {
                Err(
                    Failure::Message(
                        "out of range integral type conversion attempted".to_owned(),
                    ).during("The backup manifest is implausibly large"),
                )
            }
        },
    }
}

/// Compresses a manifest document for an archive. Reading it back gives the
/// document again.
pub fn compress_manifest(text: &str, level: i32) -> (out: Result<Vec<u8>, Failure>)
    ensures
        out matches Ok(bytes) ==> {
            &&& bytes@ == zstd_frame(encode_utf8(text@), level)
            &&& zstd_content(bytes@) == Some(encode_utf8(text@))
            &&& bytes@.len() <= u32::MAX
        },
        out matches Err(error) ==> {
            ||| exists|message: Seq<char>| error@ == #[trigger] uncompressed(message)
            ||| error@ == oversized() && zstd_frame(encode_utf8(text@), level).len() > u32::MAX
        },
{
    sized_manifest(compress(text.as_bytes(), level))
}

/// A manifest document is read back as it was written.
pub proof fn lemma_manifest_text_round_trips(text: Seq<char>, stored: Seq<u8>, read: Seq<char>)
    requires
        zstd_content(stored) == Some(encode_utf8(text)),
        zstd_content(stored) == Some(encode_utf8(read)),
    ensures
        read == text,
{
    crate::text::lemma_encode_injective(text, read);
}

// ------------------------------------------------------------------ walking

/// The name of the directory that holds regenerable data.
pub open spec fn cache_name() -> Seq<u8> {
    encode_utf8(crate::appdata::CACHE_DIR@)
}

/// Something found in an application's data.
#[derive(Debug)]
pub struct Child {
    /// Its path below the application's data directory.
    pub relative: Vec<u8>,
    /// Its path on this system.
    pub path: Vec<u8>,
    /// Its path in the payload.
    pub archive_path: Vec<u8>,
}

/// A walk through one application's data.
#[derive(Debug)]
pub struct DataWalk {
    root: Vec<u8>,
    prefix: Vec<u8>,
    exclude_caches: bool,
    pending: Vec<Vec<u8>>,
    current: Vec<u8>,
    issues: Vec<Issue>,
}

pub struct DataWalkView {
    /// The application's data directory.
    pub root: Seq<u8>,
    /// Where its entries stand in the payload.
    pub prefix: Seq<u8>,
    pub exclude_caches: bool,
    /// The directories still to be read, below the root.
    pub pending: Seq<Seq<u8>>,
    /// The directory being read, below the root.
    pub current: Seq<u8>,
    pub issues: Seq<IssueView>,
}

impl View for DataWalk {
    type V = DataWalkView;

    closed spec fn view(&self) -> DataWalkView {
        DataWalkView {
            root: self.root@,
            prefix: self.prefix@,
            exclude_caches: self.exclude_caches,
            pending: views(self.pending@),
            current: self.current@,
            issues: views(self.issues@),
        }
    }
}

/// True if `names` may be stored: they are plain, and not in an excluded cache.
pub open spec fn storable(names: Seq<Seq<u8>>, exclude_caches: bool) -> bool {
    &&& forall|i: int| 0 <= i < names.len() ==> is_plain_name(#[trigger] names[i])
    &&& exclude_caches && names.len() > 0 ==> names[0] != cache_name()
}

/// True if `relative` is the path of something that may be stored.
pub open spec fn storable_path(relative: Seq<u8>, exclude_caches: bool) -> bool {
    exists|names: Seq<Seq<u8>>| #[trigger]
        storable(names, exclude_caches) && relative == relative_path(names)
}

impl DataWalkView {
    /// Only what may be stored is being looked at.
    pub open spec fn sound(self) -> bool {
        &&& storable_path(self.current, self.exclude_caches)
        &&& forall|i: int|
            0 <= i < self.pending.len() ==> storable_path(
                #[trigger] self.pending[i],
                self.exclude_caches,
            )
    }

    /// The directory being read, on this system.
    pub open spec fn current_path(self) -> Seq<u8> {
        join_path(self.root, self.current)
    }

    /// True if the entry `name` of the directory being read is an excluded cache.
    pub open spec fn excludes(self, name: Seq<u8>) -> bool {
        self.exclude_caches && self.current.len() == 0 && name == cache_name()
    }
}

pub open spec fn unreadable(walk: DataWalkView, path: Seq<u8>, message: Seq<char>) -> DataWalkView {
    DataWalkView { issues: walk.issues.push(IssueView::ReadFailed { path, message }), ..walk }
}

impl DataWalk {
    /// A walk through the data of the application `app_id`, which lies at `root`.
    pub fn start(root: &[u8], app_id: &str, exclude_caches: bool) -> (out: DataWalk)
        ensures
            out@ == (DataWalkView {
                root: root@,
                prefix: join_path(data_dir_name(), encode_utf8(app_id@)),
                exclude_caches,
                pending: seq![Seq::empty()],
                current: Seq::empty(),
                issues: Seq::empty(),
            }),
            out@.sound(),
    {
        let mut pending: Vec<Vec<u8>> = Vec::new();
        pending.push(Vec::new());
        let out = DataWalk {
            root: bytes_of(root),
            prefix: join(crate::backup::PAYLOAD_DATA_DIR.as_bytes(), app_id.as_bytes()),
            exclude_caches,
            pending,
            current: Vec::new(),
            issues: Vec::new(),
        };
        proof {
            assert(views(out.pending@) =~= seq![Seq::<u8>::empty()]);
            assert(out@.current =~= Seq::<u8>::empty());
            assert(out@.issues =~= Seq::<IssueView>::empty());
            let none = Seq::<Seq<u8>>::empty();
            assert(storable(none, exclude_caches));
            assert(relative_path(none) =~= Seq::<u8>::empty());
        }
        out
    }

    /// The payload path of the application's own directory, which is stored so
    /// that an app with only empty subdirectories still round-trips.
    pub fn prefix(&self) -> (out: &Vec<u8>)
        ensures
            out@ == self@.prefix,
    {
        &self.prefix
    }

    /// The next directory to read, if one is left.
    pub fn next_dir(&mut self, cancelled: bool) -> (out: Result<Option<Vec<u8>>, Failure>)
        ensures
            old(self)@.sound() ==> final(self)@.sound(),
            match out {
                Ok(None) => old(self)@.pending.len() == 0 && final(self)@ == old(self)@,
                Ok(Some(path)) => {
                    &&& old(self)@.pending.len() > 0 && !cancelled
                    &&& final(self)@ == (DataWalkView {
                        pending: old(self)@.pending.drop_last(),
                        current: old(self)@.pending.last(),
                        ..old(self)@
                    })
                    &&& path@ == final(self)@.current_path()
                },
                Err(error) => old(self)@.pending.len() > 0 && cancelled && error@
                    == FailureView::Cancelled && final(self)@ == old(self)@,
            },
    {
        let ghost before = self.pending@;
        if self.pending.len() == 0 {
            return Ok(None);
        }
        if cancelled {
            return Err(Failure::Cancelled(Cancelled));
        }
        match self.pending.pop() {
            None => Ok(None),
            Some(relative) => {
                assert(views(self.pending@) =~= views(before).drop_last());
                self.current = relative;
                proof {
                    if old(self)@.sound() {
                        assert(storable_path(views(before)[before.len() - 1], self.exclude_caches));
                        assert forall|i: int| 0 <= i < self@.pending.len() implies storable_path(
                            #[trigger] self@.pending[i],
                            self.exclude_caches,
                        ) by {
                            assert(self@.pending[i] == views(before)[i]);
                        }
                    }
                }
                Ok(Some(join(&self.root, &self.current)))
            },
        }
    }

    fn note(&mut self, issue: Issue)
        ensures
            final(self)@ == (DataWalkView { issues: old(self)@.issues.push(issue@), ..old(self)@ }),
            old(self)@.sound() ==> final(self)@.sound(),
    {
        let ghost before = self.issues@;
        let ghost issue_view = issue@;
        self.issues.push(issue);
        assert(views(self.issues@) =~= views(before).push(issue_view));
    }

    /// Takes in that `path` could not be read.
    pub fn failed(&mut self, path: &[u8], message: &str)
        ensures
            final(self)@ == unreadable(old(self)@, path@, message@),
            old(self)@.sound() ==> final(self)@.sound(),
    {
        self.note(Issue::ReadFailed { path: bytes_of(path), message: message.to_owned() });
    }

    /// Takes in that the directory at hand could not be read.
    pub fn dir_failed(&mut self, message: &str)
        ensures
            final(self)@ == unreadable(old(self)@, old(self)@.current_path(), message@),
            old(self)@.sound() ==> final(self)@.sound(),
    {
        let path = join(&self.root, &self.current);
        self.failed(&path, message);
    }

    /// Decides whether the next entry of the directory at hand is stored, given its
    /// name or why it cannot be read.
    pub fn consider(&mut self, name: Result<Vec<u8>, String>, cancelled: bool) -> (out: Result<
        Option<Child>,
        Failure,
    >)
        ensures
            old(self)@.sound() ==> final(self)@.sound(),
            cancelled ==> final(self)@ == old(self)@ && (out matches Err(error) && error@
                == FailureView::Cancelled),
            !cancelled ==> match name {
                Err(message) => {
                    &&& final(self)@ == unreadable(
                        old(self)@,
                        old(self)@.current_path(),
                        message@,
                    )
                    &&& out matches Ok(None)
                },
                Ok(entry) => {
                    &&& final(self)@ == old(self)@
                    &&& if old(self)@.excludes(entry@) {
                        out matches Ok(None)
                    } else {
                        out matches Ok(Some(child)) && {
                            &&& child.relative@ == join_path(old(self)@.current, entry@)
                            &&& child.path@ == join_path(old(self)@.current_path(), entry@)
                            &&& child.archive_path@ == join_path(
                                old(self)@.prefix,
                                child.relative@,
                            )
                        }
                    }
                },
            },
    {
        if cancelled {
            return Err(Failure::Cancelled(Cancelled));
        }
        let name = match name {
            Ok(name) => name,
            Err(message) => {
                self.dir_failed(&message);
                return Ok(None);
            },
        };
        if self.exclude_caches && self.current.len() == 0 && same_bytes(
            &name,
            crate::appdata::CACHE_DIR.as_bytes(),
        ) {
            return Ok(None);
        }
        let relative = join(&self.current, &name);
        let path = join(&join(&self.root, &self.current), &name);
        let archive_path = join(&self.prefix, &relative);
        Ok(Some(Child { relative, path, archive_path }))
    }

    /// Takes in that the directory `child` was stored and is to be read as well.
    pub fn enter(&mut self, child: Child)
        ensures
            final(self)@ == (DataWalkView {
                pending: old(self)@.pending.push(child.relative@),
                ..old(self)@
            }),
            old(self)@.sound() && storable_path(child.relative@, old(self)@.exclude_caches)
                ==> final(self)@.sound(),
    {
        let ghost before = self.pending@;
        let ghost relative = child.relative@;
        self.pending.push(child.relative);
        proof {
            assert(views(self.pending@) =~= views(before).push(relative));
            if old(self)@.sound() && storable_path(relative, self.exclude_caches) {
                assert forall|i: int| 0 <= i < self@.pending.len() implies storable_path(
                    #[trigger] self@.pending[i],
                    self.exclude_caches,
                ) by {
                    if i < before.len() {
                        assert(self@.pending[i] == views(before)[i]);
                    }
                }
            }
        }
    }

    /// Takes in that what is at `path` is left out, for `reason`.
    pub fn skipped(&mut self, path: &[u8], reason: &str)
        ensures
            final(self)@ == (DataWalkView {
                issues: old(self)@.issues.push(
                    IssueView::Other {
                        message: lossy_text(path@) + ": skipped, "@ + reason@,
                    },
                ),
                ..old(self)@
            }),
            old(self)@.sound() ==> final(self)@.sound(),
    {
        self.note(Issue::Other { message: cat3(&text_lossy(path), ": skipped, ", reason) });
    }

    /// Takes in that the file at `path` was stored, and whether it had to be padded.
    pub fn stored(&mut self, path: &[u8], padded: bool)
        ensures
            final(self)@ == if padded {
                DataWalkView {
                    issues: old(self)@.issues.push(
                        IssueView::Other {
                            message: lossy_text(path@)
                                + ": changed while being backed up and was padded to its original size"@,
                        },
                    ),
                    ..old(self)@
                }
            } else {
                old(self)@
            },
            old(self)@.sound() ==> final(self)@.sound(),
    {
        if padded {
            self.note(
                Issue::Other {
                    message: cat2(
                        &text_lossy(path),
                        ": changed while being backed up and was padded to its original size",
                    ),
                },
            );
        }
    }

    /// Everything that went wrong.
    pub fn finish(self) -> (issues: Vec<Issue>)
        ensures
            views(issues@) == self@.issues,
    {
        self.issues
    }
}

/// Whatever the directories of an application hold, each entry that is stored has
/// a payload path of its own application's, for plain names of which the first is
/// not an excluded cache.
pub proof fn lemma_stored_entries(walk: DataWalkView, id: Seq<char>, name: Seq<u8>)
    requires
        walk.sound(),
        walk.prefix == join_path(data_dir_name(), encode_utf8(id)),
        is_plain_name(name),
        !walk.excludes(name),
    ensures
        ({
            let relative = join_path(walk.current, name);
            &&& storable_path(relative, walk.exclude_caches)
            &&& exists|names: Seq<Seq<u8>>| #[trigger]
                storable(names, walk.exclude_caches) && relative == relative_path(names)
                    && join_path(walk.prefix, relative) == payload_path(id, names)
        }),
{
    let names = choose|names: Seq<Seq<u8>>| #[trigger]
        storable(names, walk.exclude_caches) && walk.current == relative_path(names);
    let more = names.push(name);
    assert(more.drop_last() =~= names);
    assert(relative_path(more) == join_path(walk.current, name));
    assert(storable(more, walk.exclude_caches)) by {
        if names.len() == 0 {
            assert(more[0] == name);
            assert(walk.current.len() == 0);
        } else {
            assert(more[0] == names[0]);
        }
    }
    lemma_join_at_once(walk.prefix, more);
}

/// True if every name in `path` is text.
pub open spec fn is_text_path(path: Seq<u8>) -> bool {
    forall|i: int|
        0 <= i < parts(path).len() ==> (#[trigger] parts(path)[i] matches Part::Name(name)
            ==> valid_utf8(name))
}

/// What was stored is put back where it was: an entry of an application's data goes,
/// on the machine it is restored on, to the same path below the application's data
/// directory. Nothing is stored below a link, so no link that was written lies above
/// it.
///
/// A name that is not text is refused when it is restored, so paths with one are
/// left out.
pub proof fn lemma_stored_entry_goes_back(
    walk: DataWalkView,
    id: Seq<char>,
    name: Seq<u8>,
    state: ExtractionView,
)
    requires
        walk.sound(),
        walk.prefix == join_path(data_dir_name(), encode_utf8(id)),
        is_plain_name(name),
        !walk.excludes(name),
        valid_app_id(id),
        is_text_path(join_path(walk.current, name)),
        state.wanted.contains(id),
        !through_link(state.links, id, names_in(parts(join_path(walk.current, name)))),
    ensures
        ({
            let relative = join_path(walk.current, name);
            entry_outcome(state, Ok(join_path(walk.prefix, relative))).1 == (
            EntryActionView::Unpack {
                app_id: id,
                relative,
                destination: join_path(data_dir_of(state.root, id), relative),
            })
        }),
{
    let relative = join_path(walk.current, name);
    lemma_stored_entries(walk, id, name);
    let names = choose|names: Seq<Seq<u8>>| #[trigger]
        storable(names, walk.exclude_caches) && relative == relative_path(names) && join_path(
            walk.prefix,
            relative,
        ) == payload_path(id, names);
    lemma_relative_path(names);
    assert forall|i: int| 0 <= i < names.len() implies valid_utf8(#[trigger] names[i]) by {
        assert(parts(relative)[i] == Part::Name(names[i]));
    }
    assert(names.len() > 0) by {
        if names.len() == 0 {
            assert(relative.len() == 0);
        }
    }
    lemma_entry_goes_back(state, id, names);
    lemma_join_at_once(data_dir_of(state.root, id), names);
}

// ------------------------------------------------------------ reading files

/// A reader that yields exactly `size` bytes: short files are zero-padded and
/// long ones are truncated.
///
/// A tar header commits to a size before the data is copied. Application data
/// belonging to a running application can change size in between, which would
/// otherwise desynchronise the whole stream and corrupt every following entry.
/// Padding keeps the archive well formed; the affected file is reported.
#[derive(Debug)]
pub struct ExactSizeReader<R> {
    inner: R,
    remaining: u64,
    short: bool,
}

impl<R> ExactSizeReader<R> {
    /// What is being read from.
    pub closed spec fn source(&self) -> R {
        self.inner
    }

    /// How many bytes are left to yield.
    pub closed spec fn left(&self) -> u64 {
        self.remaining
    }

    /// Whether the source ran out early and zero padding was substituted.
    pub closed spec fn ran_short(&self) -> bool {
        self.short
    }

    pub fn new(inner: R, size: u64) -> (reader: Self)
        ensures
            reader.source() == inner,
            reader.left() == size,
            !reader.ran_short(),
    {
        ExactSizeReader { inner, remaining: size, short: false }
    }

    /// How many bytes may be yielded into a buffer of `len` bytes.
    pub fn allowance(&self, len: usize) -> (n: usize)
        ensures
            n == if len <= self.left() {
                len as int
            } else {
                self.left() as int
            },
    {
        if len as u64 <= self.remaining {
            len
        } else {
            self.remaining as usize
        }
    }

    /// What is being read from, for reading.
    pub fn inner_mut(&mut self) -> (inner: &mut R)
        ensures
            *inner == old(self).source(),
            final(self).source() == *final(inner),
            final(self).left() == old(self).left(),
            final(self).ran_short() == old(self).ran_short(),
    {
        &mut self.inner
    }

    /// Yields what was read into `buffer`, or zeros in its place if nothing was,
    /// and returns how many bytes of it count. `buffer` holds no more than is left
    /// to yield, and `read` no more than `buffer`. An empty buffer takes nothing
    /// and says nothing about the source.
    pub fn supply(&mut self, buffer: &mut Vec<u8>, read: usize) -> (n: usize)
        requires
            old(buffer)@.len() <= old(self).left(),
            read <= old(buffer)@.len(),
        ensures
            final(self).source() == old(self).source(),
            final(self).left() == old(self).left() - n,
            final(buffer)@.len() == old(buffer)@.len(),
            old(buffer)@.len() == 0 ==> {
                &&& n == 0
                &&& final(self).ran_short() == old(self).ran_short()
            },
            read == 0 && old(buffer)@.len() > 0 ==> {
                &&& n == old(buffer)@.len()
                &&& final(self).ran_short()
                &&& forall|i: int| 0 <= i < n ==> final(buffer)@[i] == 0
            },
            read > 0 ==> {
                &&& n == read
                &&& final(self).ran_short() == old(self).ran_short()
                &&& final(buffer)@ == old(buffer)@
            },
    {
        if read > 0 {
            self.remaining = self.remaining - read as u64;
            return read;
        }
        let n: usize = buffer.len();
        if n == 0 {
            return 0;
        }
        self.short = true;
        let mut i: usize = 0;
        while i < n
            invariant
                i <= n,
                buffer@.len() == n,
                forall|k: int| 0 <= k < i ==> buffer@[k] == 0,
            decreases n - i,
        {
            buffer.set(i, 0);
            i = i + 1;
        }
        self.remaining = self.remaining - n as u64;
        n
    }

    /// Whether the source ran out early and zero padding was substituted.
    pub fn short(&self) -> (yes: bool)
        ensures
            yes == self.ran_short(),
    {
        self.short
    }
}

/// What a reader of `size` bytes yields of `source`: its bytes, cut off or followed
/// by zeros.
pub open spec fn exact_bytes(source: Seq<u8>, size: nat) -> Seq<u8> {
    Seq::new(
        size,
        |i: int|
            if i < source.len() {
                source[i]
            } else {
                0
            },
    )
}

/// One read: the room in the buffer, and how many bytes the source gave.
pub struct Draw {
    pub room: nat,
    pub read: nat,
}

/// How far reading has got: how many bytes of the source were taken, how many are
/// left to yield, whether the source ran out, and what was yielded.
pub struct Drawn {
    pub taken: nat,
    pub left: nat,
    pub short: bool,
    pub yielded: Seq<u8>,
}

/// The room that a read may fill.
pub open spec fn usable(drawn: Drawn, draw: Draw) -> nat {
    if draw.room <= drawn.left {
        draw.room
    } else {
        drawn.left
    }
}

/// True if a source of these bytes can give as much: no more than it has and fits,
/// and nothing only at its end.
pub open spec fn is_draw(source: Seq<u8>, drawn: Drawn, draw: Draw) -> bool {
    &&& draw.read <= usable(drawn, draw)
    &&& drawn.taken + draw.read <= source.len()
    &&& draw.read == 0 && usable(drawn, draw) > 0 ==> drawn.taken == source.len()
}

/// How far reading has got with one more read.
pub open spec fn after_draw(source: Seq<u8>, drawn: Drawn, draw: Draw) -> Drawn {
    let room = usable(drawn, draw);
    if room == 0 {
        drawn
    } else if draw.read > 0 {
        Drawn {
            taken: drawn.taken + draw.read,
            left: (drawn.left - draw.read) as nat,
            yielded: drawn.yielded + source.subrange(
                drawn.taken as int,
                (drawn.taken + draw.read) as int,
            ),
            ..drawn
        }
    } else {
        Drawn {
            left: (drawn.left - room) as nat,
            short: true,
            yielded: drawn.yielded + Seq::new(room, |i: int| 0u8),
            ..drawn
        }
    }
}

/// How far reading `size` bytes has got after some reads.
pub open spec fn after_draws(source: Seq<u8>, size: nat, draws: Seq<Draw>) -> Drawn
    decreases draws.len(),
{
    if draws.len() == 0 {
        Drawn { taken: 0, left: size, short: false, yielded: Seq::empty() }
    } else {
        after_draw(source, after_draws(source, size, draws.drop_last()), draws.last())
    }
}

/// True if a source of these bytes can give as much with each read.
pub open spec fn are_draws(source: Seq<u8>, size: nat, draws: Seq<Draw>) -> bool
    decreases draws.len(),
{
    draws.len() == 0 || {
        &&& are_draws(source, size, draws.drop_last())
        &&& is_draw(source, after_draws(source, size, draws.drop_last()), draws.last())
    }
}

/// Whatever the lengths of the buffers, empty ones among them, and however the source
/// hands out its bytes: what is yielded is its bytes, cut off or followed by zeros,
/// and it is found to be short exactly if it has fewer than asked for.
pub proof fn lemma_exact_size_is_yielded(source: Seq<u8>, size: nat, draws: Seq<Draw>)
    requires
        are_draws(source, size, draws),
    ensures
        ({
            let drawn = after_draws(source, size, draws);
            &&& drawn.yielded.len() + drawn.left == size
            &&& drawn.yielded == exact_bytes(source, size).take(drawn.yielded.len() as int)
            &&& drawn.taken == if drawn.yielded.len() <= source.len() {
                drawn.yielded.len()
            } else {
                source.len()
            }
            &&& drawn.short <==> source.len() < drawn.yielded.len()
            &&& drawn.left == 0 ==> drawn.yielded == exact_bytes(source, size) && (drawn.short
                <==> source.len() < size)
        }),
    decreases draws.len(),
{
    let all = exact_bytes(source, size);
    let drawn = after_draws(source, size, draws);
    if draws.len() > 0 {
        lemma_exact_size_is_yielded(source, size, draws.drop_last());
    }
    assert(drawn.yielded =~= all.take(drawn.yielded.len() as int));
    assert(all.take(size as int) =~= all);
}

// ------------------------------------------------------------------ the rest

/// How much of the data was read, for the progress bar.
#[derive(Debug)]
pub struct ByteCount {
    done: u64,
    total: u64,
}

impl ByteCount {
    pub closed spec fn spent(&self) -> u64 {
        self.done
    }

    pub closed spec fn whole(&self) -> u64 {
        self.total
    }

    /// Nothing of `total` bytes.
    pub fn new(total: u64) -> (out: ByteCount)
        ensures
            out.spent() == 0,
            out.whole() == total,
    {
        ByteCount { done: 0, total }
    }

    /// Counts `delta` more bytes.
    pub fn advance(&mut self, delta: u64) -> (progress: BackupProgress)
        ensures
            final(self).whole() == old(self).whole(),
            final(self).spent() == if old(self).spent() + delta <= u64::MAX {
                old(self).spent() + delta
            } else {
                u64::MAX as int
            },
            progress == (BackupProgress::Bytes {
                done: final(self).spent(),
                total: final(self).whole(),
            }),
    {
        self.done = self.done.saturating_add(delta);
        BackupProgress::Bytes { done: self.done, total: self.total }
    }
}

pub open spec fn partial_suffix() -> Seq<u8> {
    encode_utf8(".part"@)
}

/// `<destination>.part`, kept alongside the target so the final rename is atomic.
pub fn partial_path_for(destination: &[u8]) -> (out: Vec<u8>)
    ensures
        parts(out@) == suffixed_parts(destination@, partial_suffix()),
{
    proof {
        reveal_strlit(".part");
        let text = ".part"@;
        assert(is_ascii_chars(text));
        is_ascii_chars_encode_utf8(text);
        let suffix = partial_suffix();
        assert(suffix.len() == 5);
        assert forall|i: int| 0 <= i < 5 implies suffix[i] != crate::path::SLASH by {
            assert(text[i] as u8 == suffix[i]);
        }
        assert(crate::path::one_dot().len() == 1);
        assert(crate::path::two_dots().len() == 2);
    }
    with_name_suffix(destination, ".part".as_bytes())
}

/// An architecture, in Flatpak's naming.
pub open spec fn flatpak_arch(arch: Seq<char>) -> Seq<char> {
    if arch == "x86"@ {
        "i386"@
    } else {
        arch
    }
}

/// Architecture of a machine, in Flatpak's naming.
pub fn host_arch(arch: &str) -> (out: String)
    ensures
        out@ == flatpak_arch(arch@),
{
    if same_text(arch, "x86") {
        "i386".to_owned()
    } else {
        arch.to_owned()
    }
}

// --------------------------------------------------------------------- laws

/// The cache is the directory `cache`, and only right below the data directory it is
/// left out.
pub proof fn lemma_cache_is_named()
    ensures
        cache_name() == seq![99u8, 97u8, 99u8, 104u8, 101u8],
        forall|walk: DataWalkView, name: Seq<u8>| #[trigger]
            walk.excludes(name) <==> walk.exclude_caches && walk.current.len() == 0 && name
                == seq![99u8, 97u8, 99u8, 104u8, 101u8],
{
    reveal_strlit("cache");
    let text = "cache"@;
    assert(is_ascii_chars(text));
    is_ascii_chars_encode_utf8(text);
    let name = cache_name();
    assert(name.len() == 5);
    assert(text[0] as u8 == name[0]);
    assert(text[1] as u8 == name[1]);
    assert(text[2] as u8 == name[2]);
    assert(text[3] as u8 == name[3]);
    assert(text[4] as u8 == name[4]);
    assert(name =~= seq![99u8, 97u8, 99u8, 104u8, 101u8]);
}

/// A file takes just the room that was announced for it: as much as there is of what it
/// holds, and zeros for what it lost since.
pub proof fn lemma_exact_bytes(source: Seq<u8>, size: nat)
    ensures
        exact_bytes(source, size).len() == size,
        size <= source.len() ==> exact_bytes(source, size) == source.take(size as int),
        size > source.len() ==> {
            &&& exact_bytes(source, size).take(source.len() as int) == source
            &&& forall|i: int|
                source.len() <= i < size ==> #[trigger] exact_bytes(source, size)[i] == 0
        },
{
    if size <= source.len() {
        assert(exact_bytes(source, size) =~= source.take(size as int));
    } else {
        assert(exact_bytes(source, size).take(source.len() as int) =~= source);
    }
}

/// Architectures are named as Flatpak names them, which differs for one of them.
pub proof fn lemma_architectures(arch: Seq<char>)
    ensures
        arch != "x86"@ ==> flatpak_arch(arch) == arch,
        flatpak_arch("x86"@) == "i386"@,
{
}

/// An archive is written beside its destination, under its name and `.part`.
pub proof fn lemma_partial_suffix()
    ensures
        partial_suffix() == seq![46u8, 112u8, 97u8, 114u8, 116u8],
{
    reveal_strlit(".part");
    let text = ".part"@;
    assert(is_ascii_chars(text));
    is_ascii_chars_encode_utf8(text);
    let suffix = partial_suffix();
    assert(suffix.len() == 5);
    assert(text[0] as u8 == suffix[0]);
    assert(text[1] as u8 == suffix[1]);
    assert(text[2] as u8 == suffix[2]);
    assert(text[3] as u8 == suffix[3]);
    assert(text[4] as u8 == suffix[4]);
    assert(suffix =~= seq![46u8, 112u8, 97u8, 114u8, 116u8]);
}

/// What [`Scan::plan`] plans is what was scanned: the same applications, and the data of
/// the same ones. The remote of each is recorded with the address it is configured with,
/// or reported as not configured any more; what was reported before stays.
pub proof fn lemma_plans_keep_to_the_scan(
    scan: Scan,
    request: &BackupRequest,
    created_at: String,
    host_arch: String,
    plan: BackupPlan,
    app: int,
)
    requires
        call_ensures(Scan::plan, (scan, request, created_at, host_arch), plan),
        0 <= app < scan@.entries.len(),
        scan@.entries[app].origin.len() > 0,
    ensures
        plan.manifest@.apps == scan@.entries,
        plan.sources@ == scan@.sources,
        plan.manifest@.flatbak.excluded_caches == request.exclude_caches,
        plan.manifest@.flatbak.data_bytes == scan@.total_bytes,
        scan@.issues.is_prefix_of(views(plan.issues@)),
        forall|i: int|
            0 <= i < request.remotes@.len() && (#[trigger] request.remotes@[i]).name@
                == scan@.entries[app].origin ==> exists|k: int|
                0 <= k < plan.manifest@.remotes.len() && (#[trigger] plan.manifest@.remotes[k]).name
                    == scan@.entries[app].origin && plan.manifest@.remotes[k].url
                    == request.remotes@[i].url@,
        (forall|i: int|
            0 <= i < request.remotes@.len() ==> (#[trigger] request.remotes@[i]).name@
                != scan@.entries[app].origin) ==> views(plan.issues@).contains(
            IssueView::Other {
                message: "the remote \u{201c}"@ + scan@.entries[app].origin
                    + "\u{201d} is no longer configured, so its URL could not be recorded"@,
            },
        ),
{
    let entries = scan@.entries;
    let name = entries[app].origin;
    let known = views(request.remotes@);
    let recorded = plan.manifest@.remotes;
    let needed = views(plan.needed@);
    let late = unrecorded_issues(needed, recorded);
    let issues = views(plan.issues@);
    assert(issues.subrange(0, scan@.issues.len() as int) =~= scan@.issues);
    assert(!entries[app].sideloaded());
    assert(needs_remote(entries, name));
    assert(needed.contains(name));
    assert forall|i: int|
        0 <= i < request.remotes@.len() && (#[trigger] request.remotes@[i]).name@
            == name implies exists|k: int|
        0 <= k < recorded.len() && (#[trigger] recorded[k]).name == name && recorded[k].url
            == request.remotes@[i].url@ by {
        let remote = known[i];
        let entry = remote_entry_of(remote);
        lemma_needed_remotes_are_recorded(known, entries, entry);
        assert(known[i].name == name && entries[app].origin == name);
        assert(recorded.contains(entry));
        let k = choose|k: int| 0 <= k < recorded.len() && recorded[k] == entry;
        assert(recorded[k].name == name);
    }
    if forall|i: int|
        0 <= i < request.remotes@.len() ==> (#[trigger] request.remotes@[i]).name@ != name {
        assert forall|k: int| 0 <= k < recorded.len() implies (#[trigger] recorded[k]).name
            != name by {
            lemma_needed_remotes_are_recorded(known, entries, recorded[k]);
            assert(recorded.contains(recorded[k]));
            let (i, a) = choose|i: int, a: int|
                0 <= i < known.len() && 0 <= a < entries.len() && {
                    let remote = #[trigger] known[i];
                    let other = #[trigger] entries[a];
                    &&& other.origin.len() > 0
                    &&& other.origin == remote.name
                    &&& recorded[k].name == remote.name
                    &&& recorded[k].title == remote.title
                    &&& recorded[k].url == remote.url
                    &&& recorded[k].installation == remote.installation
                };
            assert(known[i] == request.remotes@[i]@);
        }
        lemma_unrecorded_remotes_are_reported(needed, recorded, name);
        let issue = IssueView::Other { message: unrecorded_text(name) };
        let n = choose|n: int| 0 <= n < late.len() && late[n] == issue;
        assert(issues[scan@.issues.len() + n] == issue);
    }
}

/// Every entry of every directory is stored but an excluded cache: where it lies, and
/// under the same path in the archive. What cannot be read is reported, and nothing else
/// is lost.
pub proof fn lemma_entries_are_considered(
    walk: &mut DataWalk,
    name: Result<Vec<u8>, String>,
    cancelled: bool,
    out: Result<Option<Child>, Failure>,
)
    requires
        call_ensures(DataWalk::consider, (walk, name, cancelled), out),
    ensures
        ({
            let before = old(walk)@;
            let after = final(walk)@;
            let in_cache = before.exclude_caches && before.current.len() == 0 && name is Ok
                && name->Ok_0@ == seq![99u8, 97u8, 99u8, 104u8, 101u8];
            &&& cancelled <==> out is Err
            &&& after.pending == before.pending
            &&& !cancelled && name is Ok && !in_cache ==> out is Ok && out->Ok_0 is Some && {
                let child = out->Ok_0->Some_0;
                &&& child.relative@ == join_path(before.current, name->Ok_0@)
                &&& child.path@ == join_path(join_path(before.root, before.current), name->Ok_0@)
                &&& child.archive_path@ == join_path(before.prefix, child.relative@)
            }
            &&& !cancelled && in_cache ==> out is Ok && out->Ok_0 is None
            &&& !cancelled && name is Err ==> after.issues == before.issues.push(
                IssueView::ReadFailed {
                    path: join_path(before.root, before.current),
                    message: name->Err_0@,
                },
            )
            &&& cancelled || name is Ok ==> after.issues == before.issues
        }),
{
    lemma_cache_is_named();
}

/// Every directory that is stored is read as well, and each that is to be read is read
/// once, where it lies.
pub proof fn lemma_directories_are_read(
    walk: &mut DataWalk,
    cancelled: bool,
    out: Result<Option<Vec<u8>>, Failure>,
)
    requires
        call_ensures(DataWalk::next_dir, (walk, cancelled), out),
    ensures
        ({
            let before = old(walk)@;
            let after = final(walk)@;
            &&& before.pending.len() == 0 ==> out is Ok && out->Ok_0 is None
            &&& before.pending.len() > 0 && cancelled ==> out is Err && after == before
            &&& before.pending.len() > 0 && !cancelled ==> {
                &&& out is Ok && out->Ok_0 is Some
                &&& out->Ok_0->Some_0@ == join_path(before.root, after.current)
                &&& after.pending.push(after.current) == before.pending
                &&& after.issues == before.issues
            }
        }),
{
    if old(walk)@.pending.len() > 0 && !cancelled {
        assert(old(walk)@.pending.drop_last().push(old(walk)@.pending.last())
            =~= old(walk)@.pending);
    }
}

/// A directory that is entered waits to be read.
pub proof fn lemma_entered_directories_wait(walk: &mut DataWalk, child: Child)
    requires
        call_ensures(DataWalk::enter, (walk, child), ()),
    ensures
        final(walk)@.pending == old(walk)@.pending.push(child.relative@),
        final(walk)@.issues == old(walk)@.issues,
        final(walk)@.exclude_caches == old(walk)@.exclude_caches,
{
}

/// What [`Scan::take`] takes in of a selection: its application as it is installed, and
/// its data whenever that is asked for and there is any besides a cache that is to be
/// left out.
pub proof fn lemma_selections_are_taken_in(
    scan: &mut Scan,
    selection: &AppSelection,
    info: &DataInfo,
    exclude_caches: bool,
    root: &[u8],
)
    requires
        call_ensures(Scan::take, (scan, selection, info, exclude_caches, root), ()),
    ensures
        ({
            let before = old(scan)@;
            let after = final(scan)@;
            let entry = after.entries.last();
            &&& after.entries.drop_last() == before.entries
            &&& entry.id == selection.app.id@
            &&& entry.origin == selection.app.origin@
            &&& entry.installation == selection.app.installation@
            &&& selection.include_data && info.present && (!exclude_caches || info.total_bytes
                != info.cache_bytes) ==> {
                &&& entry.data_included
                &&& !exclude_caches ==> entry.data_bytes == info.total_bytes
                &&& exclude_caches && info.cache_bytes <= info.total_bytes ==> entry.data_bytes
                    == info.total_bytes - info.cache_bytes
                &&& after.sources == before.sources.push(before.entries.len() as usize)
            }
            &&& !entry.data_included ==> {
                &&& !selection.include_data || !info.present || (exclude_caches
                    && info.total_bytes == info.cache_bytes)
                &&& after.sources == before.sources
                &&& after.total_bytes == before.total_bytes
            }
        }),
{
    lemma_data_goes_along(old(scan)@, selection@, info@, exclude_caches, root@);
}

} // verus!
