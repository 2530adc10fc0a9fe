//! Writing an archive that was planned: in which order its parts go into the file,
//! and what is told of it.
//!
//! The payload length and its digest are only known once the payload was written,
//! so the header is written twice: first to reserve its room, and again at the end.

use vstd::prelude::*;

use crate::appdata::DataInfoView;
use crate::backup::container::{
    header_bytes, lemma_header_len, sha256, trailer_bytes, HashingWriter, Header, Trailer,
    CONTAINER_VERSION,
};
use crate::backup::manifest::{
    claimed_bytes, data_app_count, payload_prefix_of, same_place, AppEntryView, ManifestView,
};
use crate::backup::reader::{archive_bytes, frame_of, lemma_written_archive_opens, open_outcome};
use crate::backup::writer::{
    lemma_planned_manifest_is_accepted, planned_manifest, scanned, AppSelectionView, BackupPlan,
    BackupProgress, BackupReport, BackupRequest, ByteCount, Scan, ScanView,
};
use crate::error::{ArchiveErrorView, Cancelled, Failure, FailureView, Issue, IssueView};
use crate::flatpak::model::{installation_name, InstalledAppView, RemoteView};
use crate::text::views;
use crate::util::valid_app_id;

verus! {

/// Begins a backup: the selected applications' data is measured first, so the
/// manifest and the progress bar both know what is coming before a single byte is
/// written.
pub fn create() -> (out: Scan)
    ensures
        out@ == (ScanView {
            entries: Seq::empty(),
            sources: Seq::empty(),
            total_bytes: 0,
            issues: Seq::empty(),
        }),
        out@.sound(),
{
    Scan::new()
}

/// An archive being written.
#[derive(Debug)]
pub struct Writing {
    plan: BackupPlan,
    manifest_len: u32,
    position: usize,
    bytes: ByteCount,
}

pub struct WritingView {
    pub manifest: ManifestView,
    /// How long the compressed manifest is.
    pub manifest_len: u32,
    /// The selections whose data is to be written.
    pub sources: Seq<usize>,
    /// How many of them were begun.
    pub position: usize,
    pub data_app_count: usize,
    /// How many bytes of data were read, of how many.
    pub done: u64,
    pub total: u64,
    pub issues: Seq<IssueView>,
}

impl View for Writing {
    type V = WritingView;

    closed spec fn view(&self) -> WritingView {
        WritingView {
            manifest: self.plan.manifest@,
            manifest_len: self.manifest_len,
            sources: self.plan.sources@,
            position: self.position,
            data_app_count: self.plan.data_app_count,
            done: self.bytes.spent(),
            total: self.bytes.whole(),
            issues: views(self.plan.issues@),
        }
    }
}

impl WritingView {
    /// Every source is one of the selections.
    pub open spec fn sound(self, selections: nat) -> bool {
        &&& self.position <= self.sources.len()
        &&& forall|i: int| 0 <= i < self.sources.len() ==> #[trigger] self.sources[i] < selections
    }
}

/// The header of an archive whose manifest and payload are so long.
pub open spec fn header_for(manifest_len: u32, payload_len: u64) -> Header {
    Header { container_version: CONTAINER_VERSION, manifest_len, payload_len }
}

/// True if `report` tells of what was written, in an archive of so many bytes.
pub open spec fn is_report_of(
    report: BackupReport,
    writing: WritingView,
    archive_bytes: u64,
) -> bool {
    &&& report.archive_bytes == archive_bytes
    &&& report.app_count == writing.manifest.apps.len()
    &&& report.data_app_count == writing.data_app_count
    &&& report.data_bytes == writing.manifest.flatbak.data_bytes
}

impl Writing {
    /// Begins to write what is planned. `manifest` is the compressed manifest.
    pub fn start(plan: BackupPlan, manifest: &Vec<u8>) -> (out: Writing)
        requires
            manifest@.len() <= u32::MAX,
        ensures
            out@ == (WritingView {
                manifest: plan.manifest@,
                manifest_len: manifest@.len() as u32,
                sources: plan.sources@,
                position: 0,
                data_app_count: plan.data_app_count,
                done: 0,
                total: plan.manifest@.flatbak.data_bytes,
                issues: views(plan.issues@),
            }),
    {
        let total: u64 = plan.manifest.flatbak.data_bytes;
        Writing {
            plan,
            manifest_len: manifest.len() as u32,
            position: 0,
            bytes: ByteCount::new(total),
        }
    }

    /// The header that reserves the room for the real one.
    pub fn reserved(&self) -> (header: Header)
        ensures
            header == header_for(self@.manifest_len, 0),
    {
        Header::new(self.manifest_len, 0)
    }

    /// What to tell the user next, and the selection whose data to write then;
    /// `None` when every one was, and the archive is to be finished.
    pub fn next(&mut self, request: &BackupRequest, cancelled: bool) -> (out: Result<
        (BackupProgress, Option<usize>),
        Failure,
    >)
        requires
            old(self)@.sound(request.apps@.len()),
        ensures
            final(self)@.sound(request.apps@.len()),
            ({
                let sources = old(self)@.sources;
                let at = old(self)@.position as int;
                match out {
                    Ok((progress, None)) => {
                        &&& at == sources.len()
                        &&& progress is Finalising
                        &&& final(self)@ == old(self)@
                    },
                    Ok((progress, Some(index))) => {
                        &&& at < sources.len() && !cancelled
                        &&& index == sources[at]
                        &&& progress matches BackupProgress::Writing { app, index: nth, total }
                            && app@ == request.apps@[index as int]@.app.shown_name() && nth == at
                            && total == sources.len()
                        &&& final(self)@ == (WritingView {
                            position: (at + 1) as usize,
                            ..old(self)@
                        })
                    },
                    Err(error) => {
                        &&& at < sources.len() && cancelled
                        &&& error@ == FailureView::Cancelled
                        &&& final(self)@ == old(self)@
                    },
                }
            }),
    {
        let total: usize = self.plan.sources.len();
        if self.position >= total {
            return Ok((BackupProgress::Finalising, None));
        }
        if cancelled {
            return Err(Failure::Cancelled(Cancelled));
        }
        let index: usize = self.plan.sources[self.position];
        assert(self@.sources[self.position as int] == index);
        let progress = BackupProgress::Writing {
            app: request.apps[index].app.display_name().to_owned(),
            index: self.position,
            total,
        };
        self.position = self.position + 1;
        Ok((progress, Some(index)))
    }

    /// Counts `delta` more bytes of data.
    pub fn counted(&mut self, delta: u64) -> (progress: BackupProgress)
        ensures
            final(self)@ == (WritingView {
                done: if old(self)@.done + delta <= u64::MAX {
                    (old(self)@.done + delta) as u64
                } else {
                    u64::MAX
                },
                ..old(self)@
            }),
            progress == (BackupProgress::Bytes {
                done: final(self)@.done,
                total: final(self)@.total,
            }),
    {
        self.bytes.advance(delta)
    }

    /// Takes in what went wrong while an application's data was written.
    pub fn appended(&mut self, issues: Vec<Issue>)
        ensures
            final(self)@ == (WritingView {
                issues: old(self)@.issues + views(issues@),
                ..old(self)@
            }),
    {
        let ghost before = self.plan.issues@;
        let ghost more = issues@;
        let mut issues = issues;
        self.plan.issues.append(&mut issues);
        assert(views(self.plan.issues@) =~= views(before) + views(more));
    }

    /// Closes the payload: what it was written to, the trailer that goes behind it,
    /// and the header that goes over the reserved one.
    pub fn seal<W>(&self, payload: HashingWriter<W>) -> (out: (W, Trailer, Header))
        requires
            payload.wf(),
        ensures
            out.0 == payload.sink(),
            out.1@ == sha256(payload.content())@,
            out.2 == header_for(self@.manifest_len, payload.content().len() as u64),
    {
        let (sink, written, digest) = payload.finish();
        (sink, Trailer { payload_sha256: digest }, Header::new(self.manifest_len, written))
    }

    /// The report of an archive of `archive_bytes` bytes that was written to
    /// `destination`.
    pub fn finish(self, destination: Vec<u8>, archive_bytes: u64) -> (report: BackupReport)
        ensures
            report.path == destination,
            is_report_of(report, self@, archive_bytes),
            views(report.issues@) == self@.issues,
    {
        let app_count: usize = self.plan.manifest.apps.len();
        BackupReport {
            path: destination,
            archive_bytes,
            app_count,
            data_app_count: self.plan.data_app_count,
            data_bytes: self.plan.manifest.flatbak.data_bytes,
            issues: self.plan.issues,
        }
    }
}

// ---------------------------------------------------------------- whole scans

/// The scan once every one of `selections` was taken in, whose data `infos`
/// describe.
pub open spec fn scan_of(
    selections: Seq<AppSelectionView>,
    infos: Seq<DataInfoView>,
    exclude_caches: bool,
    root: Seq<u8>,
) -> ScanView
    decreases selections.len(),
{
    if selections.len() == 0 {
        ScanView {
            entries: Seq::empty(),
            sources: Seq::empty(),
            total_bytes: 0,
            issues: Seq::empty(),
        }
    } else {
        scanned(
            scan_of(selections.drop_last(), infos, exclude_caches, root),
            selections.last(),
            infos[selections.len() - 1],
            exclude_caches,
            root,
        )
    }
}

/// True if `entry` is the record of `app`.
pub open spec fn records(entry: AppEntryView, app: InstalledAppView) -> bool {
    &&& entry.id == app.id
    &&& entry.branch == app.branch
    &&& entry.arch == app.arch
    &&& entry.reference == app.reference
    &&& entry.installation == app.installation
    &&& entry.data_included ==> entry.data_path == payload_prefix_of(entry.id)
}

/// One ref in one installation.
pub open spec fn same_app(a: InstalledAppView, b: InstalledAppView) -> bool {
    a.reference == b.reference && installation_name(a.installation) == installation_name(
        b.installation,
    )
}

/// A scan records every selected application in its place, whether its data is
/// there or not, and its totals are those of what it records.
pub proof fn lemma_scan_adds_up(
    selections: Seq<AppSelectionView>,
    infos: Seq<DataInfoView>,
    exclude_caches: bool,
    root: Seq<u8>,
)
    requires
        selections.len() <= usize::MAX,
    ensures
        ({
            let scan = scan_of(selections, infos, exclude_caches, root);
            &&& scan.entries.len() == selections.len()
            &&& forall|i: int|
                0 <= i < selections.len() ==> records(#[trigger] scan.entries[i], selections[i].app)
            &&& scan.sources.len() == data_app_count(scan.entries)
            &&& forall|k: int|
                0 <= k < scan.sources.len() ==> #[trigger] scan.sources[k] < scan.entries.len()
                    && scan.entries[scan.sources[k] as int].data_included
            &&& scan.total_bytes == if claimed_bytes(scan.entries) <= u64::MAX {
                claimed_bytes(scan.entries)
            } else {
                u64::MAX as nat
            }
        }),
    decreases selections.len(),
{
    let scan = scan_of(selections, infos, exclude_caches, root);
    if selections.len() > 0 {
        lemma_scan_adds_up(selections.drop_last(), infos, exclude_caches, root);
        let before = scan_of(selections.drop_last(), infos, exclude_caches, root);
        let entry = scan.entries.last();
        assert(scan.entries =~= before.entries.push(entry));
        assert(scan.entries.drop_last() =~= before.entries);
        assert forall|i: int| 0 <= i < selections.len() implies records(
            #[trigger] scan.entries[i],
            selections[i].app,
        ) by {
            if i < selections.len() - 1 {
                assert(scan.entries[i] == before.entries[i]);
                assert(selections.drop_last()[i] == selections[i]);
            }
        }
        assert forall|k: int| 0 <= k < scan.sources.len() implies #[trigger] scan.sources[k]
            < scan.entries.len() && scan.entries[scan.sources[k] as int].data_included by {
            if k < before.sources.len() {
                assert(scan.sources[k] == before.sources[k]);
            }
        }
    }
}

/// Whatever is selected can be read back: the manifest of a backup is accepted as
/// it is, with every selected application in it.
///
/// Applications with an ID, branch or architecture that a reader would refuse, or
/// selected twice for the same installation, are left out.
pub proof fn lemma_selected_apps_can_be_read_back(
    selections: Seq<AppSelectionView>,
    infos: Seq<DataInfoView>,
    exclude_caches: bool,
    root: Seq<u8>,
    remotes: Seq<RemoteView>,
    flatpak_version: Seq<char>,
    created_at: Seq<char>,
    host_arch: Seq<char>,
)
    requires
        selections.len() <= u32::MAX,
        forall|i: int|
            0 <= i < selections.len() ==> {
                let app = (#[trigger] selections[i]).app;
                valid_app_id(app.id) && app.branch.len() > 0 && app.arch.len() > 0
            },
        forall|i: int, j: int|
            0 <= i < j < selections.len() ==> !same_app(
                (#[trigger] selections[i]).app,
                (#[trigger] selections[j]).app,
            ),
    ensures
        ({
            let manifest = planned_manifest(
                scan_of(selections, infos, exclude_caches, root),
                remotes,
                exclude_caches,
                flatpak_version,
                created_at,
                host_arch,
            );
            &&& open_outcome(Ok(manifest.flatbak.format_version), Ok(manifest)) == Ok::<
                ManifestView,
                ArchiveErrorView,
            >(manifest)
            &&& manifest.apps.len() == selections.len()
            &&& forall|i: int|
                0 <= i < selections.len() ==> records(
                    #[trigger] manifest.apps[i],
                    selections[i].app,
                )
        }),
{
    let scan = scan_of(selections, infos, exclude_caches, root);
    lemma_scan_adds_up(selections, infos, exclude_caches, root);
    assert forall|i: int| 0 <= i < scan.entries.len() implies {
        let app = #[trigger] scan.entries[i];
        &&& valid_app_id(app.id)
        &&& app.branch.len() > 0
        &&& app.arch.len() > 0
        &&& app.data_included ==> app.data_path == payload_prefix_of(app.id)
    } by {
        assert(records(scan.entries[i], selections[i].app));
    }
    assert forall|i: int, j: int| 0 <= i < j < scan.entries.len() implies !same_place(
        #[trigger] scan.entries[i],
        #[trigger] scan.entries[j],
    ) by {
        assert(records(scan.entries[i], selections[i].app));
        assert(records(scan.entries[j], selections[j].app));
        assert(!same_app(selections[i].app, selections[j].app));
    }
    lemma_planned_manifest_is_accepted(
        scan,
        remotes,
        exclude_caches,
        flatpak_version,
        created_at,
        host_arch,
    );
}

// --------------------------------------------------------------------- layout

/// `file` with `bytes` written over its start.
pub open spec fn overwritten(file: Seq<u8>, bytes: Seq<u8>) -> Seq<u8> {
    bytes + file.skip(bytes.len() as int)
}

/// The reserved header, the manifest, the payload and the trailer, with the final
/// header written over the reserved one, are an archive with that manifest and
/// payload.
pub proof fn lemma_written_parts_make_the_archive(manifest: Seq<u8>, payload: Seq<u8>)
    requires
        manifest.len() <= u32::MAX,
        payload.len() <= u64::MAX,
    ensures
        overwritten(
            header_bytes(header_for(manifest.len() as u32, 0)) + manifest + payload + trailer_bytes(
                sha256(payload)@,
            ),
            header_bytes(header_for(manifest.len() as u32, payload.len() as u64)),
        ) == archive_bytes(manifest, payload),
{
    let reserved = header_for(manifest.len() as u32, 0);
    let header = header_for(manifest.len() as u32, payload.len() as u64);
    let tail = trailer_bytes(sha256(payload)@);
    lemma_header_len(reserved);
    lemma_header_len(header);
    let file = header_bytes(reserved) + manifest + payload + tail;
    assert(file.skip(32) =~= manifest + payload + tail);
    assert(overwritten(file, header_bytes(header)) =~= archive_bytes(manifest, payload));
}

/// The bytes of the file once everything was written: the reserved header, the
/// compressed manifest, the payload and the trailer, and the final header over the
/// reserved one.
pub open spec fn written_file(compressed: Seq<u8>, payload: Seq<u8>) -> Seq<u8> {
    overwritten(
        header_bytes(header_for(compressed.len() as u32, 0)) + compressed + payload + trailer_bytes(
            sha256(payload)@,
        ),
        header_bytes(header_for(compressed.len() as u32, payload.len() as u64)),
    )
}

/// What a backup wrote can be opened, and says what the report said.
///
/// The file's framing is sound and its payload matches its checksum. Its manifest
/// is the one that was planned: it is accepted, and its application count, size of
/// the data and number of applications with data are those in the report, whose
/// archive size is that of the file.
///
/// Left out are applications that a reader would refuse, or that were selected twice
/// for the same installation, and data of more bytes than can be counted, where the
/// report gives the largest count.
pub proof fn lemma_created_archive_opens(
    path: Seq<u8>,
    selections: Seq<AppSelectionView>,
    infos: Seq<DataInfoView>,
    exclude_caches: bool,
    root: Seq<u8>,
    remotes: Seq<RemoteView>,
    flatpak_version: Seq<char>,
    created_at: Seq<char>,
    host_arch: Seq<char>,
    compressed: Seq<u8>,
    payload: Seq<u8>,
    writing: WritingView,
    report: BackupReport,
)
    requires
        selections.len() <= u32::MAX,
        compressed.len() <= u32::MAX,
        written_file(compressed, payload).len() <= u64::MAX,
        forall|i: int|
            0 <= i < selections.len() ==> {
                let app = (#[trigger] selections[i]).app;
                valid_app_id(app.id) && app.branch.len() > 0 && app.arch.len() > 0
            },
        forall|i: int, j: int|
            0 <= i < j < selections.len() ==> !same_app(
                (#[trigger] selections[i]).app,
                (#[trigger] selections[j]).app,
            ),
        ({
            let scan = scan_of(selections, infos, exclude_caches, root);
            &&& claimed_bytes(scan.entries) <= u64::MAX
            &&& writing.manifest == planned_manifest(
                scan,
                remotes,
                exclude_caches,
                flatpak_version,
                created_at,
                host_arch,
            )
            &&& writing.data_app_count == data_app_count(scan.entries)
        }),
        is_report_of(report, writing, written_file(compressed, payload).len() as u64),
    ensures
        ({
            let file = written_file(compressed, payload);
            let n = file.len() as int;
            let manifest = writing.manifest;
            let (head, tail) = (file.subrange(0, 32), file.subrange(n - 40, n));
            &&& report.archive_bytes == n
            &&& frame_of(path, n as nat, head, tail) matches Ok((header, digest)) && {
                let at = n - 40 - header.payload_len;
                &&& header == header_for(compressed.len() as u32, payload.len() as u64)
                &&& file.subrange(32, at) == compressed
                &&& file.subrange(at, n - 40) == payload
                &&& sha256(file.subrange(at, n - 40))@ == digest
            }
            &&& open_outcome(Ok(manifest.flatbak.format_version), Ok(manifest)) == Ok::<
                ManifestView,
                ArchiveErrorView,
            >(manifest)
            &&& manifest.flatbak.format_version == 1
            &&& manifest.flatbak.excluded_caches == exclude_caches
            &&& manifest.apps.len() == selections.len()
            &&& report.app_count == manifest.apps.len()
            &&& report.app_count == manifest.flatbak.app_count
            &&& report.data_app_count == data_app_count(manifest.apps)
            &&& report.data_bytes == claimed_bytes(manifest.apps)
            &&& report.data_bytes == manifest.flatbak.data_bytes
        }),
{
    let file = written_file(compressed, payload);
    let reserved = header_for(compressed.len() as u32, 0);
    let header = header_for(compressed.len() as u32, payload.len() as u64);
    lemma_header_len(reserved);
    lemma_header_len(header);
    assert(file.len() == 32 + compressed.len() + payload.len() + trailer_bytes(
        sha256(payload)@,
    ).len());
    lemma_written_parts_make_the_archive(compressed, payload);
    lemma_written_archive_opens(path, compressed, payload);
    lemma_scan_adds_up(selections, infos, exclude_caches, root);
    lemma_selected_apps_can_be_read_back(
        selections,
        infos,
        exclude_caches,
        root,
        remotes,
        flatpak_version,
        created_at,
        host_arch,
    );
}

/// A scan goes through all selections: each has its entry, in its place, and data is
/// written for just those entries that say they come with data, in their order.
pub proof fn lemma_data_is_written_for_all_who_claim_it(
    selections: Seq<AppSelectionView>,
    infos: Seq<DataInfoView>,
    exclude_caches: bool,
    root: Seq<u8>,
)
    requires
        selections.len() <= usize::MAX,
    ensures
        ({
            let scan = scan_of(selections, infos, exclude_caches, root);
            &&& scan.entries.len() == selections.len()
            &&& forall|i: int|
                0 <= i < selections.len() ==> (#[trigger] scan.entries[i]).id
                    == selections[i].app.id
            &&& forall|i: int|
                0 <= i < selections.len() && (#[trigger] scan.entries[i]).data_included
                    ==> scan.sources.contains(i as usize)
            &&& forall|k: int|
                0 <= k < scan.sources.len() ==> (#[trigger] scan.sources[k]) < selections.len()
                    && scan.entries[scan.sources[k] as int].data_included
            &&& forall|j: int, k: int|
                0 <= j < k < scan.sources.len() ==> (#[trigger] scan.sources[j]) < (
                #[trigger] scan.sources[k])
        }),
    decreases selections.len(),
{
    let scan = scan_of(selections, infos, exclude_caches, root);
    if selections.len() > 0 {
        let less = selections.drop_last();
        let before = scan_of(less, infos, exclude_caches, root);
        lemma_data_is_written_for_all_who_claim_it(less, infos, exclude_caches, root);
        let last = selections.last();
        let n = before.entries.len() as int;
        assert(scan == scanned(
            before,
            last,
            infos[selections.len() - 1],
            exclude_caches,
            root,
        ));
        assert(scan.entries.len() == n + 1);
        assert forall|i: int| 0 <= i < selections.len() implies (#[trigger] scan.entries[i]).id
            == selections[i].app.id by {
            if i < n {
                assert(scan.entries[i] == before.entries[i]);
                assert(less[i] == selections[i]);
            }
        }
        assert forall|i: int|
            0 <= i < selections.len() && (
            #[trigger] scan.entries[i]).data_included implies scan.sources.contains(i as usize) by {
            if i < n {
                assert(scan.entries[i] == before.entries[i]);
                let k = choose|k: int| 0 <= k < before.sources.len() && before.sources[k] == i;
                assert(before.sources.contains(i as usize));
                assert(scan.sources[k] == i as usize);
            } else {
                assert(scan.sources[before.sources.len() as int] == i as usize);
            }
        }
        assert forall|k: int| 0 <= k < scan.sources.len() implies (#[trigger] scan.sources[k])
            < selections.len() && scan.entries[scan.sources[k] as int].data_included by {
            if k < before.sources.len() {
                assert(scan.sources[k] == before.sources[k]);
                assert(scan.entries[before.sources[k] as int]
                    == before.entries[before.sources[k] as int]);
            }
        }
        assert forall|j: int, k: int| 0 <= j < k < scan.sources.len() implies (
        #[trigger] scan.sources[j]) < (#[trigger] scan.sources[k]) by {
            assert(scan.sources[j] == before.sources[j]);
            if k < before.sources.len() {
                assert(scan.sources[k] == before.sources[k]);
            }
        }
    }
}

/// A report tells how many applications and how much data went into an archive of how
/// many bytes.
pub proof fn lemma_reports_tell_what_was_written(
    report: BackupReport,
    writing: WritingView,
    archive_bytes: u64,
)
    ensures
        is_report_of(report, writing, archive_bytes) <==> {
            &&& report.archive_bytes == archive_bytes
            &&& report.app_count == writing.manifest.apps.len()
            &&& report.data_app_count == writing.data_app_count
            &&& report.data_bytes == writing.manifest.flatbak.data_bytes
        },
{
}

/// The report of a finished backup is about that backup: where it was written, how large
/// it is, what it holds, and all that went wrong.
pub proof fn lemma_finished_backups_are_reported(
    writing: Writing,
    destination: Vec<u8>,
    archive_bytes: u64,
    report: BackupReport,
)
    requires
        call_ensures(Writing::finish, (writing, destination, archive_bytes), report),
    ensures
        report.path@ == destination@,
        report.archive_bytes == archive_bytes,
        report.app_count == writing@.manifest.apps.len(),
        report.data_app_count == writing@.data_app_count,
        report.data_bytes == writing@.manifest.flatbak.data_bytes,
        views(report.issues@) == writing@.issues,
{
}

/// Data is written of one source after the other, each once and in its order, unless it
/// is cancelled; after the last, and not before, the archive is finished.
pub proof fn lemma_sources_are_written_in_turn(
    writing: &mut Writing,
    request: &BackupRequest,
    cancelled: bool,
    out: Result<(BackupProgress, Option<usize>), Failure>,
)
    requires
        call_ensures(Writing::next, (writing, request, cancelled), out),
        old(writing)@.sound(request.apps@.len()),
    ensures
        ({
            let at = old(writing)@.position as int;
            let sources = old(writing)@.sources;
            &&& at < sources.len() && !cancelled ==> {
                &&& out matches Ok((progress, Some(index))) && index == sources[at]
                &&& final(writing)@.position == at + 1
            }
            &&& at < sources.len() && cancelled ==> {
                &&& out is Err
                &&& final(writing)@ == old(writing)@
            }
            &&& at == sources.len() ==> {
                &&& out matches Ok((progress, next)) && next is None && progress is Finalising
                &&& final(writing)@ == old(writing)@
            }
            &&& final(writing)@.sources == sources
            &&& final(writing)@.issues == old(writing)@.issues
        }),
{
}

/// All that goes wrong while data is written is kept, behind what went wrong before.
pub proof fn lemma_issues_are_kept(writing: &mut Writing, issues: Vec<Issue>)
    requires
        call_ensures(Writing::appended, (writing, issues), ()),
    ensures
        final(writing)@.issues == old(writing)@.issues + views(issues@),
        final(writing)@.position == old(writing)@.position,
        final(writing)@.sources == old(writing)@.sources,
{
}

} // verus!
