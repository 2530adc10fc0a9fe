//! The backup flow: choose applications, choose a destination, review, run.

use vstd::prelude::*;
use crate::appdata::{DataInfo, DataInfoView};
use crate::backup::date_text;
use crate::backup::writer::{
    AppSelection, AppSelectionView, BackupProgress, BackupReport, BackupRequest,
};
use crate::config;
use crate::flatpak::model::{InstalledApp, InstalledAppView, InstallationView, Remote};
use crate::path::{file_name, is_parent_end, parent};
use crate::recent::{shown_file_name, RecentBackup, RecentBackupView};
use crate::text::{
    cat2, cat3, cat4, decimal, decimal_text, joined, lossy_text, text_lossy, views,
};
use crate::error::issue_text;
use crate::ui::progress::{
    amount, amount_text, bar_of, icon_for, no_change, numbered, result_icon, set_progress,
    with_number, Bar, Delivery, ProgressUpdate, ProgressUpdateView, ResultText, INTERVAL,
};
use crate::ui::widgets::{bullet, count_of, counted, data_description, describe_data, in_one_line};
use crate::util::{format_size, size_text};

verus! {

// ---------------------------------------------------------------- selecting

/// One row of the application list, with its selection state.
#[derive(Debug)]
pub struct AppRow {
    pub app: InstalledApp,
    pub info: DataInfo,
    /// The application is ticked.
    pub selected: bool,
    /// Its data is switched on.
    pub data_on: bool,
}

pub struct AppRowView {
    pub app: InstalledAppView,
    pub info: DataInfoView,
    pub selected: bool,
    pub data_on: bool,
}

impl View for AppRow {
    type V = AppRowView;

    open spec fn view(&self) -> AppRowView {
        AppRowView {
            app: self.app@,
            info: self.info@,
            selected: self.selected,
            data_on: self.data_on,
        }
    }
}

/// How an installation is labelled.
pub open spec fn installation_label(installation: InstallationView) -> Seq<char> {
    match installation {
        InstallationView::User => "User"@,
        InstallationView::System => "System"@,
        InstallationView::Named(name) => name,
    }
}

/// The line below an application.
pub open spec fn app_line(app: InstalledAppView) -> Seq<char> {
    let start = seq![app.id, installation_label(app.installation)];
    joined(
        if app.version.len() > 0 {
            start.push(app.version)
        } else {
            start
        },
        bullet(),
    )
}

impl AppRow {
    /// The row of an application: ticked, and its data switched on if it has any.
    pub fn new(app: InstalledApp, info: DataInfo) -> (row: AppRow)
        ensures
            row@ == (AppRowView {
                app: app@,
                info: info@,
                selected: true,
                data_on: info@.present,
            }),
    {
        let data_on = info.present;
        AppRow { app, info, selected: true, data_on }
    }

    /// The line below the application.
    pub fn subtitle(&self) -> (out: String)
        ensures
            out@ == app_line(self@.app),
    {
        let mut parts: Vec<String> = Vec::new();
        parts.push(self.app.id.clone());
        parts.push(self.app.installation.label());
        if !self.app.version.as_str().is_empty() {
            parts.push(self.app.version.clone());
            assert(views(parts@) =~= seq![
                self@.app.id,
                installation_label(self@.app.installation),
            ].push(self@.app.version));
        } else {
            assert(views(parts@) =~= seq![
                self@.app.id,
                installation_label(self@.app.installation),
            ]);
        }
        in_one_line(&parts)
    }

    /// Whether the data switch can be used.
    pub fn data_sensitive(&self) -> (yes: bool)
        ensures
            yes == (self.selected && self.info.present),
    {
        self.selected && self.info.present
    }

    /// The line below the data switch.
    pub fn data_subtitle(&self, exclude_caches: bool) -> (out: String)
        ensures
            out@ == data_description(self@.info, exclude_caches),
    {
        describe_data(&self.info, exclude_caches)
    }
}

/// Everything selected in `rows`, in list order.
pub open spec fn selected_in(rows: Seq<AppRowView>) -> Seq<AppSelectionView>
    decreases rows.len(),
{
    if rows.len() == 0 {
        Seq::empty()
    } else {
        let before = selected_in(rows.drop_last());
        let row = rows.last();
        if row.selected {
            before.push(
                AppSelectionView { app: row.app, include_data: row.data_on && row.info.present },
            )
        } else {
            before
        }
    }
}

/// Bytes of application data that the selection in `rows` would write.
pub open spec fn selected_bytes(rows: Seq<AppRowView>, exclude_caches: bool) -> nat
    decreases rows.len(),
{
    if rows.len() == 0 {
        0
    } else {
        let row = rows.last();
        selected_bytes(rows.drop_last(), exclude_caches) + if row.selected && row.data_on {
            row.info.backed_up(exclude_caches)
        } else {
            0
        }
    }
}

/// How many of `selections` come with data.
pub open spec fn with_data(selections: Seq<AppSelectionView>) -> nat
    decreases selections.len(),
{
    if selections.len() == 0 {
        0
    } else {
        with_data(selections.drop_last()) + if selections.last().include_data {
            1nat
        } else {
            0
        }
    }
}

/// Everything currently selected, in list order.
pub fn selections(rows: &Vec<AppRow>) -> (out: Vec<AppSelection>)
    ensures
        views(out@) == selected_in(views(rows@)),
        out@.len() <= rows@.len(),
{
    let ghost all = views(rows@);
    let mut out: Vec<AppSelection> = Vec::new();
    let mut i: usize = 0;
    proof {
        assert(all.take(0) =~= Seq::<AppRowView>::empty());
        assert(views(out@) =~= Seq::<AppSelectionView>::empty());
    }
    while i < rows.len()
        invariant
            i <= rows@.len(),
            all == views(rows@),
            out@.len() <= i,
            views(out@) == selected_in(all.take(i as int)),
        decreases rows.len() - i,
    {
        let row = &rows[i];
        proof {
            assert(all.take(i + 1).drop_last() =~= all.take(i as int));
            assert(all.take(i + 1).last() == row@);
        }
        if row.selected {
            let ghost before = views(out@);
            let selection = AppSelection {
                app: row.app.clone(),
                include_data: row.data_on && row.info.present,
            };
            let ghost selection_view = selection@;
            out.push(selection);
            assert(views(out@) =~= before.push(selection_view));
        }
        i = i + 1;
    }
    assert(all.take(all.len() as int) =~= all);
    out
}

/// How many applications are selected.
pub fn selected_count(rows: &Vec<AppRow>) -> (count: usize)
    ensures
        count == selected_in(views(rows@)).len(),
{
    let chosen = selections(rows);
    assert(views(chosen@).len() == chosen@.len());
    chosen.len()
}

proof fn lemma_selected_bytes_grow(rows: Seq<AppRowView>, exclude_caches: bool, n: int)
    requires
        0 <= n <= rows.len(),
    ensures
        selected_bytes(rows.take(n), exclude_caches) <= selected_bytes(rows, exclude_caches),
    decreases rows.len(),
{
    if n == rows.len() {
        assert(rows.take(n) =~= rows);
    } else {
        assert(rows.drop_last().take(n) =~= rows.take(n));
        lemma_selected_bytes_grow(rows.drop_last(), exclude_caches, n);
    }
}

/// Bytes of application data the current selection would write, if they can be
/// counted.
pub fn selected_data_bytes(rows: &Vec<AppRow>, exclude_caches: bool) -> (bytes: Option<u64>)
    ensures
        bytes is Some <==> selected_bytes(views(rows@), exclude_caches) <= u64::MAX,
        bytes matches Some(n) ==> n == selected_bytes(views(rows@), exclude_caches),
{
    let ghost all = views(rows@);
    let mut total: u64 = 0;
    let mut i: usize = 0;
    assert(all.take(0) =~= Seq::<AppRowView>::empty());
    while i < rows.len()
        invariant
            i <= rows@.len(),
            all == views(rows@),
            total == selected_bytes(all.take(i as int), exclude_caches),
        decreases rows.len() - i,
    {
        let row = &rows[i];
        proof {
            assert(all.take(i + 1).drop_last() =~= all.take(i as int));
            assert(all.take(i + 1).last() == row@);
            lemma_selected_bytes_grow(all, exclude_caches, i + 1);
        }
        if row.selected && row.data_on {
            match total.checked_add(row.info.bytes_to_back_up(exclude_caches)) {
                Some(sum) => {
                    total = sum;
                },
                None => {
                    return None;
                },
            }
        }
        i = i + 1;
    }
    assert(all.take(all.len() as int) =~= all);
    Some(total)
}

/// The line that sums up a selection.
pub open spec fn selection_summary(count: nat, total: nat, bytes: u64) -> Seq<char> {
    if count == 0 {
        "No applications selected of "@ + decimal(total)
    } else {
        decimal(count) + " of "@ + decimal(total) + " selected \u{2022} "@ + size_text(
            bytes as nat,
        ) + " of data"@
    }
}

/// The footer: a line that sums up the selection, and whether to go on with it.
pub fn refresh(rows: &Vec<AppRow>, bytes: u64) -> (out: (String, bool))
    ensures
        out.0@ == selection_summary(selected_in(views(rows@)).len(), rows@.len(), bytes),
        out.1 <==> selected_in(views(rows@)).len() > 0,
{
    let count: usize = selected_count(rows);
    let total: usize = rows.len();
    if count == 0 {
        return (cat2("No applications selected of ", &decimal_text(total as u64)), false);
    }
    let start = cat4(
        &decimal_text(count as u64),
        " of ",
        &decimal_text(total as u64),
        " selected \u{2022} ",
    );
    (cat3(&start, &format_size(bytes), " of data"), true)
}

/// Ticks every application, or none.
pub fn set_all(rows: &mut Vec<AppRow>, value: bool)
    ensures
        final(rows)@.len() == old(rows)@.len(),
        forall|i: int|
            0 <= i < old(rows)@.len() ==> (#[trigger] final(rows)@[i])@ == (AppRowView {
                selected: value,
                ..old(rows)@[i]@
            }),
{
    let ghost before = rows@;
    let n: usize = rows.len();
    let mut i: usize = 0;
    while i < n
        invariant
            i <= n,
            n == rows@.len(),
            n == before.len(),
            before == old(rows)@,
            forall|k: int|
                0 <= k < i ==> (#[trigger] rows@[k])@ == (AppRowView {
                    selected: value,
                    ..before[k]@
                }),
            forall|k: int| i <= k < n ==> #[trigger] rows@[k] == before[k],
        decreases n - i,
    {
        let row = AppRow {
            app: rows[i].app.clone(),
            info: rows[i].info.clone(),
            selected: value,
            data_on: rows[i].data_on,
        };
        rows.set(i, row);
        i = i + 1;
    }
}

// ---------------------------------------------------------------- reviewing

/// What the review page says of the selection.
pub open spec fn review_values(
    selections: Seq<AppSelectionView>,
    bytes: u64,
    exclude_caches: bool,
) -> Seq<(Seq<char>, Seq<char>)> {
    seq![
        ("Applications"@, decimal(selections.len())),
        ("Including data"@, decimal(with_data(selections))),
        ("Application data"@, size_text(bytes as nat)),
        (
            "Caches"@,
            if exclude_caches {
                "Excluded"@
            } else {
                "Included"@
            },
        ),
    ]
}

pub open spec fn pair_views(rows: Seq<(String, String)>) -> Seq<(Seq<char>, Seq<char>)> {
    Seq::new(rows.len(), |i: int| (rows[i].0@, rows[i].1@))
}

fn count_including_data(selections: &Vec<AppSelection>) -> (count: usize)
    ensures
        count == with_data(views(selections@)),
{
    let ghost all = views(selections@);
    let mut count: usize = 0;
    let mut i: usize = 0;
    assert(all.take(0) =~= Seq::<AppSelectionView>::empty());
    while i < selections.len()
        invariant
            i <= selections@.len(),
            all == views(selections@),
            count <= i,
            count == with_data(all.take(i as int)),
        decreases selections.len() - i,
    {
        proof {
            assert(all.take(i + 1).drop_last() =~= all.take(i as int));
            assert(all.take(i + 1).last() == selections@[i as int]@);
        }
        if selections[i].include_data {
            count = count + 1;
        }
        i = i + 1;
    }
    assert(all.take(all.len() as int) =~= all);
    count
}

/// The rows of the review page: titles and values.
pub fn show_review(selections: &Vec<AppSelection>, bytes: u64, exclude_caches: bool) -> (out: Vec<
    (String, String),
>)
    ensures
        pair_views(out@) == review_values(views(selections@), bytes, exclude_caches),
{
    let mut out: Vec<(String, String)> = Vec::new();
    out.push(("Applications".to_owned(), decimal_text(selections.len() as u64)));
    out.push(
        ("Including data".to_owned(), decimal_text(count_including_data(selections) as u64)),
    );
    out.push(("Application data".to_owned(), format_size(bytes)));
    let caches = if exclude_caches {
        "Excluded"
    } else {
        "Included"
    };
    out.push(("Caches".to_owned(), caches.to_owned()));
    assert(pair_views(out@) =~= review_values(views(selections@), bytes, exclude_caches));
    out
}

/// True for the text of some date.
pub open spec fn is_date(text: Seq<char>) -> bool {
    exists|year: int, month: nat, day: nat|
        1 <= month <= 12 && 1 <= day <= 31 && text == #[trigger] date_text(year, month, day)
}

/// `chrono::Local::now` and `chrono::DateTime::format`: today's date, as the
/// pattern says: the year, and the month and day in two digits. Which date it is
/// depends on the clock and the machine's time zone, so no more is claimed.
/// `format` panics on a malformed pattern, so only the one that is in use is
/// admitted.
#[verifier::external_body]
fn today(pattern: &str) -> (date: String)
    requires
        pattern@ == "%Y-%m-%d"@,
    ensures
        is_date(date@),
{
    chrono::Local::now().format(pattern).to_string()
}

/// `date` is what a look at the clock finds for today.
pub closed spec fn is_today(date: Seq<char>) -> bool {
    exists|text: String| #[trigger] text@ == date && call_ensures(today, ("%Y-%m-%d",), text)
}

/// The file name suggested on a date.
pub open spec fn name_for(date: Seq<char>) -> Seq<char> {
    "flatpaks-"@ + date + "."@ + config::BACKUP_EXTENSION@
}

/// A sensible file name for a backup made on `date`.
pub fn suggested_name_for(date: &str) -> (out: String)
    ensures
        out@ == name_for(date@),
{
    cat4("flatpaks-", date, ".", config::BACKUP_EXTENSION)
}

/// A sensible file name with today's date in it.
pub fn suggested_name() -> (out: String)
    ensures
        exists|date: Seq<char>| #[trigger]
            is_today(date) && is_date(date) && out@ == name_for(date),
{
    let date = today("%Y-%m-%d");
    assert(is_today(date@));
    suggested_name_for(&date)
}

/// How a destination is shown: the file's name, and the folder it is in.
pub fn destination_text(path: &[u8]) -> (out: (String, String))
    ensures
        out.0@ == shown_file_name(path@),
        exists|n: int| #[trigger]
            is_parent_end(path@, n) && out.1@ == lossy_text(path@.take(n)),
{
    let title = match file_name(path) {
        Some(name) => text_lossy(&name),
        None => text_lossy(path),
    };
    (title, text_lossy(&parent(path)))
}

/// The question before a file is overwritten.
pub fn overwrite_question(destination: &[u8]) -> (out: String)
    ensures
        out@ == lossy_text(destination@) + " already exists and will be overwritten."@,
{
    cat2(&text_lossy(destination), " already exists and will be overwritten.")
}

// ------------------------------------------------------------------ running

/// What to write, once a destination is chosen and something is selected.
pub fn run(
    rows: &Vec<AppRow>,
    destination: Option<Vec<u8>>,
    exclude_caches: bool,
    remotes: Vec<Remote>,
    flatpak_version: String,
) -> (out: Option<BackupRequest>)
    ensures
        out is Some <==> destination is Some && selected_in(views(rows@)).len() > 0,
        out matches Some(request) ==> {
            &&& request.destination@ == destination->0@
            &&& views(request.apps@) == selected_in(views(rows@))
            &&& request.exclude_caches == exclude_caches
            &&& request.compression_level == config::DEFAULT_COMPRESSION_LEVEL
            &&& request.remotes == remotes
            &&& request.flatpak_version == flatpak_version
        },
{
    match destination {
        None => None,
        Some(destination) => {
            let apps = selections(rows);
            assert(views(apps@).len() == apps@.len());
            if apps.len() == 0 {
                return None;
            }
            Some(
                BackupRequest {
                    destination,
                    apps,
                    exclude_caches,
                    compression_level: config::DEFAULT_COMPRESSION_LEVEL,
                    remotes,
                    flatpak_version,
                },
            )
        },
    }
}

/// Decides whether to pass a message on, `elapsed` milliseconds after the last one
/// of its kind.
///
/// Byte updates arrive per file; throttling them keeps a directory with tens of
/// thousands of small files from swamping the main loop.
pub fn throttle(update: &BackupProgress, elapsed: u64) -> (out: Delivery)
    ensures
        out == match update {
            BackupProgress::Bytes { done, total } => if elapsed < INTERVAL && *done < *total {
                Delivery::Drop
            } else {
                Delivery::SendAndRestart
            },
            _ => Delivery::Send,
        },
{
    match update {
        BackupProgress::Bytes { done, total } => {
            if elapsed < INTERVAL && *done < *total {
                Delivery::Drop
            } else {
                Delivery::SendAndRestart
            }
        },
        _ => Delivery::Send,
    }
}

/// What a progress message changes on the page.
pub open spec fn progress_change(update: BackupProgress) -> ProgressUpdateView {
    match update {
        BackupProgress::Scanning { app, index, total } => ProgressUpdateView {
            stage: Some("Measuring application data\u{2026}"@),
            detail: Some(app@),
            bar: Some(bar_of(index as u64, total as u64)),
            log: None,
        },
        BackupProgress::Writing { app, index, total } => ProgressUpdateView {
            stage: Some("Backing up applications\u{2026}"@),
            detail: Some(numbered(app@, index as int, total as int)),
            ..no_change()
        },
        BackupProgress::Bytes { done, total } => ProgressUpdateView {
            detail: if total > 0 {
                Some(amount_text(done, total))
            } else {
                None
            },
            bar: Some(bar_of(done, total)),
            ..no_change()
        },
        BackupProgress::Issue(issue) => ProgressUpdateView {
            log: Some(issue_text(issue@)),
            ..no_change()
        },
        BackupProgress::Finalising => ProgressUpdateView {
            stage: Some("Finishing the archive\u{2026}"@),
            detail: Some("Flushing compressed data to disk"@),
            bar: Some(Bar::Full),
            log: None,
        },
    }
}

/// What a progress message changes on the page.
pub fn apply_progress(update: &BackupProgress) -> (out: ProgressUpdate)
    requires
        update matches BackupProgress::Writing { app, index, total } ==> *index < usize::MAX,
    ensures
        out@ == progress_change(*update),
{
    match update {
        BackupProgress::Scanning { app, index, total } => ProgressUpdate {
            stage: Some("Measuring application data\u{2026}".to_owned()),
            detail: Some(app.clone()),
            bar: Some(set_progress(*index as u64, *total as u64)),
            log: None,
        },
        BackupProgress::Writing { app, index, total } => ProgressUpdate {
            stage: Some("Backing up applications\u{2026}".to_owned()),
            detail: Some(with_number(app, *index, *total)),
            bar: None,
            log: None,
        },
        BackupProgress::Bytes { done, total } => ProgressUpdate {
            stage: None,
            detail: if *total > 0 {
                Some(amount(*done, *total))
            } else {
                None
            },
            bar: Some(set_progress(*done, *total)),
            log: None,
        },
        BackupProgress::Issue(issue) => ProgressUpdate {
            stage: None,
            detail: None,
            bar: None,
            log: Some(issue.message()),
        },
        BackupProgress::Finalising => ProgressUpdate {
            stage: Some("Finishing the archive\u{2026}".to_owned()),
            detail: Some("Flushing compressed data to disk".to_owned()),
            bar: Some(Bar::Full),
            log: None,
        },
    }
}

/// How a finished backup is described.
pub open spec fn backup_description(report: BackupReport) -> Seq<char> {
    counted(report.app_count as nat, "application"@) + bullet() + decimal(
        report.data_app_count as nat,
    ) + " with data"@ + bullet() + size_text(report.archive_bytes as nat) + " on disk"@
}

/// What a finished backup is summed up as.
pub fn show_result(report: &BackupReport) -> (out: ResultText)
    ensures
        out.icon@ == result_icon(report.issues@.len() > 0),
        out.heading@ == if report.issues@.len() == 0 {
            "Backup Complete"@
        } else {
            "Backup Complete, With Notes"@
        },
        out.description@ == backup_description(*report),
{
    let noted = report.issues.len() > 0;
    let heading = if noted {
        "Backup Complete, With Notes"
    } else {
        "Backup Complete"
    };
    let start = cat4(
        &count_of(report.app_count as u64, "application"),
        " \u{2022} ",
        &decimal_text(report.data_app_count as u64),
        " with data",
    );
    let description = cat4(&start, " \u{2022} ", &format_size(report.archive_bytes), " on disk");
    ResultText { icon: icon_for(noted), heading: heading.to_owned(), description }
}

/// How a finished backup is remembered.
pub fn recent_entry(report: &BackupReport, created_at: String) -> (out: RecentBackup)
    ensures
        out@ == (RecentBackupView {
            path: report.path@,
            created_at: created_at@,
            app_count: report.app_count as u32,
            data_app_count: report.data_app_count as u32,
            archive_bytes: report.archive_bytes,
        }),
{
    RecentBackup {
        path: crate::path::bytes_of(&report.path),
        created_at,
        app_count: report.app_count as u32,
        data_app_count: report.data_app_count as u32,
        archive_bytes: report.archive_bytes,
    }
}

// --------------------------------------------------------------------- laws

/// A backup takes in just the rows that are selected, in their order, each with its
/// data if that is switched on and there is any.
pub proof fn lemma_selected_rows_are_taken(a: Seq<AppRowView>, b: Seq<AppRowView>, row: AppRowView)
    ensures
        selected_in(a + b) == selected_in(a) + selected_in(b),
        !row.selected ==> selected_in(seq![row]).len() == 0,
        row.selected ==> {
            &&& selected_in(seq![row]).len() == 1
            &&& selected_in(seq![row])[0].app == row.app
            &&& selected_in(seq![row])[0].include_data <==> row.data_on && row.info.present
        },
    decreases b.len(),
{
    let one = seq![row];
    assert(one.drop_last() =~= Seq::<AppRowView>::empty());
    assert(selected_in(one.drop_last()).len() == 0);
    assert(one.last() == row);
    if b.len() == 0 {
        assert(a + b =~= a);
        assert(selected_in(a) + selected_in(b) =~= selected_in(a));
    } else {
        lemma_selected_rows_are_taken(a, b.drop_last(), row);
        assert((a + b).drop_last() =~= a + b.drop_last());
        assert((a + b).last() == b.last());
        assert(selected_in(a + b) =~= selected_in(a) + selected_in(b));
    }
}

/// The size that is shown adds up over the rows: of each that is selected with its
/// data, all that data, or all but its cache if caches are left out.
pub proof fn lemma_selected_bytes_add_up(
    a: Seq<AppRowView>,
    b: Seq<AppRowView>,
    row: AppRowView,
    exclude_caches: bool,
)
    ensures
        selected_bytes(a + b, exclude_caches) == selected_bytes(a, exclude_caches)
            + selected_bytes(b, exclude_caches),
        !row.selected || !row.data_on ==> selected_bytes(seq![row], exclude_caches) == 0,
        row.selected && row.data_on && !exclude_caches ==> selected_bytes(seq![row], exclude_caches)
            == row.info.total_bytes,
        row.selected && row.data_on && exclude_caches && row.info.cache_bytes
            <= row.info.total_bytes ==> selected_bytes(seq![row], exclude_caches)
            == row.info.total_bytes - row.info.cache_bytes,
    decreases b.len(),
{
    let one = seq![row];
    assert(one.drop_last() =~= Seq::<AppRowView>::empty());
    assert(selected_bytes(one.drop_last(), exclude_caches) == 0);
    assert(one.last() == row);
    if b.len() == 0 {
        assert(a + b =~= a);
    } else {
        lemma_selected_bytes_add_up(a, b.drop_last(), row, exclude_caches);
        assert((a + b).drop_last() =~= a + b.drop_last());
        assert((a + b).last() == b.last());
    }
}

/// How many go along with data: one for each that asks for it.
pub proof fn lemma_with_data_adds_up(
    a: Seq<AppSelectionView>,
    b: Seq<AppSelectionView>,
    selection: AppSelectionView,
)
    ensures
        with_data(a + b) == with_data(a) + with_data(b),
        selection.include_data ==> with_data(seq![selection]) == 1,
        !selection.include_data ==> with_data(seq![selection]) == 0,
    decreases b.len(),
{
    let one = seq![selection];
    assert(one.drop_last() =~= Seq::<AppSelectionView>::empty());
    assert(with_data(one.drop_last()) == 0);
    assert(one.last() == selection);
    if b.len() == 0 {
        assert(a + b =~= a);
    } else {
        lemma_with_data_adds_up(a, b.drop_last(), selection);
        assert((a + b).drop_last() =~= a + b.drop_last());
        assert((a + b).last() == b.last());
    }
}

/// The bar shows how much is done of how much there is, and pulses where that is not
/// known; nothing but an issue is logged.
pub proof fn lemma_backup_progress_is_shown(update: BackupProgress)
    ensures
        ({
            let change = progress_change(update);
            &&& change.log is Some <==> update is Issue
            &&& update matches BackupProgress::Bytes { done, total } ==> {
                &&& total > 0 ==> change.bar == Some(Bar::Part { done, total })
                &&& total == 0 ==> change.bar == Some(Bar::Pulse)
                &&& change.detail is Some <==> total > 0
            }
            &&& update matches BackupProgress::Scanning { app, index, total } ==> {
                &&& change.detail == Some(app@)
                &&& total > 0 ==> change.bar == Some(
                    Bar::Part { done: index as u64, total: total as u64 },
                )
            }
            &&& update matches BackupProgress::Writing { app, index, total } ==> change.detail
                == Some(
                app@ + " ("@ + decimal((index + 1) as nat) + " of "@ + decimal(total as nat) + ")"@,
            )
            &&& update is Finalising ==> change.bar == Some(Bar::Full)
        }),
{
}

/// What is reviewed before a backup: how many applications, how many of them with data,
/// how much data, and whether caches go along.
pub proof fn lemma_reviewed_values(
    selections: Seq<AppSelectionView>,
    bytes: u64,
    exclude_caches: bool,
)
    ensures
        ({
            let values = review_values(selections, bytes, exclude_caches);
            &&& values.len() == 4
            &&& values[0] == ("Applications"@, decimal(selections.len()))
            &&& values[1] == ("Including data"@, decimal(with_data(selections)))
            &&& values[2] == ("Application data"@, size_text(bytes as nat))
            &&& exclude_caches ==> values[3] == ("Caches"@, "Excluded"@)
            &&& !exclude_caches ==> values[3] == ("Caches"@, "Included"@)
        }),
{
}

/// The summary tells how many of how many are selected, and how much data that is.
pub proof fn lemma_selection_is_summed_up(count: nat, total: nat, bytes: u64)
    ensures
        selection_summary(0, total, bytes) == "No applications selected of "@ + decimal(total),
        count > 0 ==> selection_summary(count, total, bytes) == decimal(count) + " of "@ + decimal(
            total,
        ) + " selected \u{2022} "@ + size_text(bytes as nat) + " of data"@,
{
}

/// An application is shown with its ID, its installation and its version, if it has one.
pub proof fn lemma_application_line(app: InstalledAppView)
    ensures
        ({
            let label = match app.installation {
                InstallationView::User => "User"@,
                InstallationView::System => "System"@,
                InstallationView::Named(name) => name,
            };
            &&& app.version.len() == 0 ==> app_line(app) == app.id + " \u{2022} "@ + label
            &&& app.version.len() > 0 ==> app_line(app) == app.id + " \u{2022} "@ + label
                + " \u{2022} "@ + app.version
        }),
{
    let label = installation_label(app.installation);
    let start = seq![app.id, label];
    assert(start.drop_last() =~= seq![app.id]);
    assert(joined(start.drop_last(), bullet()) == app.id);
    assert(joined(start, bullet()) == app.id + bullet() + label);
    if app.version.len() > 0 {
        assert(start.push(app.version).drop_last() =~= start);
    }
}

/// A finished backup is described by how many applications it holds, how many with data,
/// and how large it is.
pub proof fn lemma_backup_is_described(report: BackupReport)
    ensures
        backup_description(report) == counted(report.app_count as nat, "application"@)
            + " \u{2022} "@ + decimal(report.data_app_count as nat) + " with data"@
            + " \u{2022} "@ + size_text(report.archive_bytes as nat) + " on disk"@,
{
}

/// Only a count of bytes that is not the last may be dropped, and only if another was
/// shown just before; everything else is shown.
pub proof fn lemma_nothing_else_is_dropped(update: &BackupProgress, elapsed: u64, out: Delivery)
    requires
        call_ensures(throttle, (update, elapsed), out),
    ensures
        out == Delivery::Drop ==> elapsed < INTERVAL && (update matches BackupProgress::Bytes {
            done,
            total,
        } && *done < *total),
        !(update is Bytes) ==> out == Delivery::Send,
{
}

/// A backup is begun once a destination was chosen and something is selected, with just
/// what is selected and as it was chosen.
pub proof fn lemma_backups_begin_as_chosen(
    rows: &Vec<AppRow>,
    destination: Option<Vec<u8>>,
    exclude_caches: bool,
    remotes: Vec<Remote>,
    flatpak_version: String,
    out: Option<BackupRequest>,
)
    requires
        call_ensures(run, (rows, destination, exclude_caches, remotes, flatpak_version), out),
    ensures
        destination is None ==> out is None,
        (forall|i: int| 0 <= i < rows@.len() ==> !(#[trigger] rows@[i]).selected) ==> out is None,
        out matches Some(request) ==> {
            &&& request.destination@ == destination->Some_0@
            &&& request.exclude_caches == exclude_caches
            &&& request.remotes == remotes
            &&& request.apps@.len() > 0
        },
{
    let all = views(rows@);
    if forall|i: int| 0 <= i < rows@.len() ==> !(#[trigger] rows@[i]).selected {
        assert forall|i: int| 0 <= i < all.len() implies !(#[trigger] all[i]).selected by {
            assert(all[i] == rows@[i]@);
        }
        lemma_nothing_is_selected(all);
    }
}

proof fn lemma_nothing_is_selected(rows: Seq<AppRowView>)
    requires
        forall|i: int| 0 <= i < rows.len() ==> !(#[trigger] rows[i]).selected,
    ensures
        selected_in(rows).len() == 0,
    decreases rows.len(),
{
    if rows.len() > 0 {
        let less = rows.drop_last();
        assert forall|i: int| 0 <= i < less.len() implies !(#[trigger] less[i]).selected by {
            assert(less[i] == rows[i]);
        }
        lemma_nothing_is_selected(less);
        assert(!rows[rows.len() - 1].selected);
    }
}

} // verus!
