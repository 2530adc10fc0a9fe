//! The restore flow: open an archive, resolve conflicts, reinstall, restore data.

use vstd::prelude::*;
use crate::appdata::{DataInfo, DataInfoView};
use crate::backup::manifest::{
    claimed_bytes, data_app_count, AppEntry, AppEntryView, Manifest, ManifestView,
};
use crate::backup::reader::{
    Backup, ConflictChoice, MissingRemote, MissingRemoteView, RestoreProgress,
    RestoreProgressView, RestoreReport, RestoreReportView, RestoreSelection,
};
use crate::error::issue_text;
use crate::flatpak::model::InstallationView;
use crate::recent::{RecentBackup, RecentBackupView};
use crate::text::{
    cat2, cat3, cat4, cat5, decimal, decimal_text, join, joined, same_text, views,
};
use crate::ui::backup_page::{installation_label, pair_views};
use crate::ui::progress::{
    amount, amount_text, bar_of, icon_for, no_change, numbered, result_icon, set_progress,
    with_number, Bar, Delivery, ProgressUpdate, ProgressUpdateView, ResultText, INTERVAL,
};
use crate::ui::widgets::{bullet, count_of, counted, in_one_line};
use crate::util::{format_size, size_text};

verus! {

// ---------------------------------------------------------------- conflicts

/// Choices offered when an application already has data on this system.
pub const CONFLICT_LABELS: [&'static str; 2] = ["Keep existing", "Replace"];

pub fn conflict_from_index(index: u32) -> (out: ConflictChoice)
    ensures
        out == choice_at(index),
{
    if index == 1 {
        ConflictChoice::Replace
    } else {
        ConflictChoice::Skip
    }
}

/// The choice at a place of the list.
pub open spec fn choice_at(index: u32) -> ConflictChoice {
    if index == 1 {
        ConflictChoice::Replace
    } else {
        ConflictChoice::Skip
    }
}

/// The place of a choice in the list.
pub open spec fn choice_index(choice: ConflictChoice) -> u32 {
    match choice {
        ConflictChoice::Replace => 1,
        ConflictChoice::Skip => 0,
    }
}

pub fn conflict_to_index(choice: ConflictChoice) -> (index: u32)
    ensures
        index == choice_index(choice),
{
    match choice {
        ConflictChoice::Replace => 1,
        ConflictChoice::Skip => 0,
    }
}

/// A choice is found again at its place in the list.
pub proof fn lemma_conflict_index_round_trips(choice: ConflictChoice)
    ensures
        choice_at(choice_index(choice)) == choice,
{
}

// --------------------------------------------------------------------- rows

/// One application row in the restore list, with its selection state.
#[derive(Debug)]
pub struct RestoreRow {
    pub index: usize,
    pub entry: AppEntry,
    /// Data already on this system for the same application.
    pub existing: DataInfo,
    /// The application is ticked for installation.
    pub install: bool,
    /// Its data is switched on.
    pub data_on: bool,
    /// The chosen place in [`CONFLICT_LABELS`]; present only when there is existing
    /// data to resolve.
    pub conflict: Option<u32>,
}

pub struct RestoreRowView {
    pub index: usize,
    pub entry: AppEntryView,
    pub existing: DataInfoView,
    pub install: bool,
    pub data_on: bool,
    pub conflict: Option<u32>,
}

impl View for RestoreRow {
    type V = RestoreRowView;

    open spec fn view(&self) -> RestoreRowView {
        RestoreRowView {
            index: self.index,
            entry: self.entry@,
            existing: self.existing@,
            install: self.install,
            data_on: self.data_on,
            conflict: self.conflict,
        }
    }
}

impl RestoreRowView {
    /// Whether the application's data is to be restored.
    pub open spec fn restores_data(self) -> bool {
        self.data_on && self.entry.data_included
    }

    /// What to do about existing data.
    pub open spec fn choice(self) -> ConflictChoice {
        match self.conflict {
            Some(index) => choice_at(index),
            None => ConflictChoice::Replace,
        }
    }

    /// Whether existing data is going to be deleted.
    pub open spec fn replaces(self) -> bool {
        &&& self.existing.present
        &&& self.restores_data()
        &&& self.conflict is Some
        &&& self.choice() == ConflictChoice::Replace
    }
}

/// The line below an application in the restore list.
pub open spec fn entry_line(entry: AppEntryView, already_installed: bool) -> Seq<char> {
    let start = seq![entry.id, installation_label(entry.installation)];
    let versioned = if entry.version.len() > 0 {
        start.push(entry.version)
    } else {
        start
    };
    joined(
        if already_installed {
            versioned.push("already installed"@)
        } else {
            versioned
        },
        bullet(),
    )
}

impl RestoreRow {
    /// The row of the application at `index`.
    ///
    /// Nothing is to be installed where the application is already here, and nothing
    /// can be where it has no remote; the user can still tick the former to force
    /// an update. Existing data needs an explicit decision; the default is to keep
    /// it.
    pub fn new(index: usize, entry: AppEntry, existing: DataInfo, already_installed: bool) -> (row:
        RestoreRow)
        ensures
            row@ == (RestoreRowView {
                index,
                entry: entry@,
                existing: existing@,
                install: !already_installed && !entry@.sideloaded(),
                data_on: entry@.data_included,
                conflict: if existing@.present && entry@.data_included {
                    Some(choice_index(ConflictChoice::Skip))
                } else {
                    None
                },
            }),
    {
        let install = !already_installed && !entry.is_sideloaded();
        let data_on = entry.data_included;
        let conflict = if existing.present && entry.data_included {
            Some(conflict_to_index(ConflictChoice::default()))
        } else {
            None
        };
        RestoreRow { index, entry, existing, install, data_on, conflict }
    }

    /// The line below the application.
    pub fn subtitle(&self, already_installed: bool) -> (out: String)
        ensures
            out@ == entry_line(self@.entry, already_installed),
    {
        let entry = &self.entry;
        let mut parts: Vec<String> = Vec::new();
        parts.push(entry.id.clone());
        parts.push(entry.installation.label());
        assert(views(parts@) =~= seq![entry@.id, installation_label(entry@.installation)]);
        let ghost start = parts@;
        if !entry.version.as_str().is_empty() {
            parts.push(entry.version.clone());
            assert(views(parts@) =~= views(start).push(entry@.version));
        }
        let ghost versioned = parts@;
        if already_installed {
            parts.push("already installed".to_owned());
            assert(views(parts@) =~= views(versioned).push("already installed"@));
        }
        in_one_line(&parts)
    }

    /// The line below the data switch.
    pub fn data_subtitle(&self) -> (out: String)
        ensures
            out@ == if self@.entry.data_included {
                size_text(self@.entry.data_bytes as nat) + " in this backup"@
            } else {
                "No data was included for this application"@
            },
    {
        if self.entry.data_included {
            cat2(&format_size(self.entry.data_bytes), " in this backup")
        } else {
            "No data was included for this application".to_owned()
        }
    }

    /// The line below the choice about existing data.
    pub fn conflict_subtitle(&self) -> (out: String)
        ensures
            out@ == size_text(self@.existing.total_bytes as nat) + " already here"@,
    {
        cat2(&format_size(self.existing.total_bytes), " already here")
    }

    /// Whether the application's data is to be restored.
    pub fn restores_data(&self) -> (yes: bool)
        ensures
            yes == self@.restores_data(),
    {
        self.data_on && self.entry.data_included
    }

    /// Whether the row is dimmed, because nothing of it is going to be restored.
    pub fn dimmed(&self) -> (yes: bool)
        ensures
            yes <==> !self@.install && !self@.restores_data(),
    {
        !self.install && !self.restores_data()
    }

    /// Ticks or unticks everything about the application that can be.
    pub fn set_all(&mut self, value: bool)
        ensures
            final(self)@ == (RestoreRowView {
                install: if old(self)@.entry.sideloaded() {
                    old(self)@.install
                } else {
                    value
                },
                data_on: if old(self)@.entry.data_included {
                    value
                } else {
                    old(self)@.data_on
                },
                ..old(self)@
            }),
    {
        if !self.entry.is_sideloaded() {
            self.install = value;
        }
        if self.entry.data_included {
            self.data_on = value;
        }
    }

    /// Takes over the choice made for all applications.
    pub fn set_conflict(&mut self, index: u32)
        ensures
            final(self)@ == (RestoreRowView {
                conflict: match old(self)@.conflict {
                    Some(_) => Some(index),
                    None => None,
                },
                ..old(self)@
            }),
    {
        if self.conflict.is_some() {
            self.conflict = Some(index);
        }
    }
}

// ---------------------------------------------------------------- selecting

/// What is selected in `rows`, in list order.
pub open spec fn chosen(rows: Seq<RestoreRowView>) -> Seq<RestoreSelection>
    decreases rows.len(),
{
    if rows.len() == 0 {
        Seq::empty()
    } else {
        let before = chosen(rows.drop_last());
        let row = rows.last();
        if row.install || row.restores_data() {
            before.push(
                RestoreSelection {
                    index: row.index,
                    install: row.install,
                    restore_data: row.restores_data(),
                    on_conflict: row.choice(),
                },
            )
        } else {
            before
        }
    }
}

/// What is currently selected, in list order.
pub fn selections(rows: &Vec<RestoreRow>) -> (out: Vec<RestoreSelection>)
    ensures
        out@ == chosen(views(rows@)),
{
    let ghost all = views(rows@);
    let mut out: Vec<RestoreSelection> = Vec::new();
    let mut i: usize = 0;
    proof {
        assert(all.take(0) =~= Seq::<RestoreRowView>::empty());
        assert(out@ =~= Seq::<RestoreSelection>::empty());
    }
    while i < rows.len()
        invariant
            i <= rows@.len(),
            all == views(rows@),
            out@ == chosen(all.take(i as int)),
        decreases rows.len() - i,
    {
        let row = &rows[i];
        proof {
            assert(all.take(i + 1).drop_last() =~= all.take(i as int));
            assert(all.take(i + 1).last() == row@);
        }
        let restore_data = row.restores_data();
        if row.install || restore_data {
            let on_conflict = match row.conflict {
                Some(index) => conflict_from_index(index),
                None => ConflictChoice::Replace,
            };
            out.push(
                RestoreSelection {
                    index: row.index,
                    install: row.install,
                    restore_data,
                    on_conflict,
                },
            );
        }
        i = i + 1;
    }
    assert(all.take(all.len() as int) =~= all);
    out
}

/// Those of `remotes` that are switched on and can be added.
pub open spec fn remotes_chosen(remotes: Seq<MissingRemoteView>, on: Seq<bool>) -> Seq<
    MissingRemoteView,
>
    decreases remotes.len(),
{
    if remotes.len() == 0 {
        Seq::empty()
    } else {
        let before = remotes_chosen(remotes.drop_last(), on);
        if on[remotes.len() - 1] && remotes.last().url.len() > 0 {
            before.push(remotes.last())
        } else {
            before
        }
    }
}

/// Remotes the user ticked for creation: `on` says which of them are.
pub fn remotes_to_add(remotes: &Vec<MissingRemote>, on: &Vec<bool>) -> (out: Vec<MissingRemote>)
    requires
        remotes@.len() == on@.len(),
    ensures
        views(out@) == remotes_chosen(views(remotes@), on@),
{
    let ghost all = views(remotes@);
    let mut out: Vec<MissingRemote> = Vec::new();
    let mut i: usize = 0;
    proof {
        assert(all.take(0) =~= Seq::<MissingRemoteView>::empty());
        assert(views(out@) =~= Seq::<MissingRemoteView>::empty());
    }
    while i < remotes.len()
        invariant
            i <= remotes@.len(),
            remotes@.len() == on@.len(),
            all == views(remotes@),
            views(out@) == remotes_chosen(all.take(i as int), on@),
        decreases remotes.len() - i,
    {
        let remote = &remotes[i];
        proof {
            assert(all.take(i + 1).drop_last() =~= all.take(i as int));
            assert(all.take(i + 1).last() == remote@);
        }
        if on[i] && remote.can_add() {
            let ghost before = views(out@);
            out.push(remote.clone());
            assert(views(out@) =~= before.push(remote@));
        }
        i = i + 1;
    }
    assert(all.take(all.len() as int) =~= all);
    out
}

/// How many applications are to be installed, how many come with data, and how
/// much that is.
pub open spec fn totals(rows: Seq<RestoreRowView>) -> (nat, nat, nat)
    decreases rows.len(),
{
    if rows.len() == 0 {
        (0, 0, 0)
    } else {
        let (installs, with_data, bytes) = totals(rows.drop_last());
        let row = rows.last();
        (
            installs + if row.install {
                1nat
            } else {
                0
            },
            with_data + if row.restores_data() {
                1nat
            } else {
                0
            },
            bytes + if row.restores_data() {
                row.entry.data_bytes as nat
            } else {
                0
            },
        )
    }
}

/// The line that sums up a selection.
pub open spec fn restore_summary(installs: nat, with_data: nat, bytes: nat) -> Seq<char> {
    if installs == 0 && with_data == 0 {
        "Nothing selected"@
    } else {
        decimal(installs) + " to install \u{2022} "@ + decimal(with_data)
            + " with data \u{2022} "@ + size_text(bytes)
    }
}

proof fn lemma_totals_grow(rows: Seq<RestoreRowView>, n: int)
    requires
        0 <= n <= rows.len(),
    ensures
        totals(rows.take(n)).2 <= totals(rows).2,
    decreases rows.len(),
{
    if n == rows.len() {
        assert(rows.take(n) =~= rows);
    } else {
        assert(rows.drop_last().take(n) =~= rows.take(n));
        lemma_totals_grow(rows.drop_last(), n);
    }
}

/// The footer: a line that sums up the selection, and whether to go on with it.
/// `None` if the archive claims more bytes than can be counted.
pub fn refresh(rows: &Vec<RestoreRow>) -> (out: Option<(String, bool)>)
    ensures
        out is Some <==> totals(views(rows@)).2 <= u64::MAX,
        out matches Some((text, ready)) ==> {
            let (installs, with_data, bytes) = totals(views(rows@));
            &&& text@ == restore_summary(installs, with_data, bytes)
            &&& ready <==> installs > 0 || with_data > 0
        },
{
    let ghost all = views(rows@);
    let mut installs: usize = 0;
    let mut with_data: usize = 0;
    let mut bytes: u64 = 0;
    let mut i: usize = 0;
    assert(all.take(0) =~= Seq::<RestoreRowView>::empty());
    while i < rows.len()
        invariant
            i <= rows@.len(),
            all == views(rows@),
            installs <= i,
            with_data <= i,
            totals(all.take(i as int)) == (installs as nat, with_data as nat, bytes as nat),
        decreases rows.len() - i,
    {
        let row = &rows[i];
        proof {
            assert(all.take(i + 1).drop_last() =~= all.take(i as int));
            assert(all.take(i + 1).last() == row@);
            lemma_totals_grow(all, i + 1);
        }
        if row.install {
            installs = installs + 1;
        }
        if row.restores_data() {
            with_data = with_data + 1;
            match bytes.checked_add(row.entry.data_bytes) {
                Some(sum) => {
                    bytes = sum;
                },
                None => {
                    return None;
                },
            }
        }
        i = i + 1;
    }
    assert(all.take(all.len() as int) =~= all);
    if installs == 0 && with_data == 0 {
        return Some(("Nothing selected".to_owned(), false));
    }
    let start = cat4(
        &decimal_text(installs as u64),
        " to install \u{2022} ",
        &decimal_text(with_data as u64),
        " with data \u{2022} ",
    );
    Some((cat2(&start, &format_size(bytes)), true))
}

// ---------------------------------------------------------- missing remotes

/// The applications that need a remote, in a few words.
pub open spec fn few_names(names: Seq<Seq<char>>) -> Seq<char> {
    if names.len() <= 3 {
        joined(names, ", "@)
    } else {
        joined(names.take(2), ", "@) + " and "@ + decimal((names.len() - 2) as nat) + " more"@
    }
}

/// The first `n` of `names`, one after another with `separator` in between.
fn join_first(names: &Vec<String>, n: usize, separator: &str) -> (out: String)
    requires
        n <= names@.len(),
    ensures
        out@ == joined(views(names@).take(n as int), separator@),
{
    let mut first: Vec<String> = Vec::new();
    let mut i: usize = 0;
    while i < n
        invariant
            i <= n <= names@.len(),
            first@.len() == i,
            forall|k: int| 0 <= k < i ==> (#[trigger] first@[k])@ == names@[k]@,
        decreases n - i,
    {
        first.push(names[i].clone());
        i = i + 1;
    }
    assert(views(first@) =~= views(names@).take(n as int));
    join(&first, separator)
}

/// The line below a missing remote.
pub open spec fn missing_line(remote: MissingRemoteView) -> Seq<char> {
    if remote.url.len() > 0 {
        remote.url + "\nNeeded by "@ + few_names(remote.apps)
    } else {
        "No address was recorded for this remote, so it must be added by hand.\nNeeded by "@
            + few_names(remote.apps)
    }
}

/// The line below a missing remote.
pub fn missing_subtitle(remote: &MissingRemote) -> (out: String)
    ensures
        out@ == missing_line(remote@),
{
    let n: usize = remote.apps.len();
    assert(views(remote.apps@).len() == n);
    let apps = if n <= 3 {
        join(&remote.apps, ", ")
    } else {
        cat4(
            &join_first(&remote.apps, 2, ", "),
            " and ",
            &decimal_text((n - 2) as u64),
            " more",
        )
    };
    if remote.can_add() {
        cat3(&remote.url, "\nNeeded by ", &apps)
    } else {
        cat2(
            "No address was recorded for this remote, so it must be added by hand.\nNeeded by ",
            &apps,
        )
    }
}

/// The icon of a missing remote.
pub fn missing_icon(remote: &MissingRemote) -> (name: &'static str)
    ensures
        name@ == if remote@.url.len() > 0 {
            "network-server-symbolic"@
        } else {
            "dialog-warning-symbolic"@
        },
{
    if remote.can_add() {
        "network-server-symbolic"
    } else {
        "dialog-warning-symbolic"
    }
}

// ------------------------------------------------------------- the archive

/// What the page says of an archive that was made at a time shown as `created`.
pub open spec fn about_values(manifest: ManifestView, file_size: u64, created: Seq<char>) -> Seq<
    (Seq<char>, Seq<char>),
> {
    seq![
        ("Created"@, created),
        ("Applications"@, decimal(manifest.apps.len())),
        (
            "With data"@,
            decimal(data_app_count(manifest.apps)) + bullet() + size_text(
                claimed_bytes(manifest.apps),
            ),
        ),
        ("Archive size"@, size_text(file_size as nat)),
        ("Made by"@, manifest.flatbak.created_by),
    ]
}

/// The rows that describe an archive: titles and values. `None` if it claims more
/// bytes of data than can be counted.
pub fn about_rows(backup: &Backup, created: String) -> (out: Option<Vec<(String, String)>>)
    ensures
        out is Some <==> claimed_bytes(backup.manifest@.apps) <= u64::MAX,
        out matches Some(rows) ==> pair_views(rows@) == about_values(
            backup.manifest@,
            backup.file_size,
            created@,
        ),
{
    let manifest = &backup.manifest;
    let bytes = match manifest.checked_total_data_bytes() {
        Some(bytes) => bytes,
        None => {
            return None;
        },
    };
    let mut out: Vec<(String, String)> = Vec::new();
    out.push(("Created".to_owned(), created));
    out.push(("Applications".to_owned(), decimal_text(manifest.apps.len() as u64)));
    out.push(
        (
            "With data".to_owned(),
            cat3(
                &decimal_text(manifest.apps_with_data() as u64),
                " \u{2022} ",
                &format_size(bytes),
            ),
        ),
    );
    out.push(("Archive size".to_owned(), format_size(backup.file_size)));
    out.push(("Made by".to_owned(), manifest.flatbak.created_by.clone()));
    assert(manifest@.apps.len() == manifest.apps@.len());
    assert(pair_views(out@) =~= about_values(manifest@, backup.file_size, created@));
    Some(out)
}

/// What to say of an archive made on another architecture than `arch`.
pub fn arch_warning(manifest: &Manifest, arch: &str) -> (out: Option<String>)
    ensures
        ({
            let made_on = manifest@.flatbak.host_arch;
            match out {
                Some(text) => made_on != arch@ && made_on.len() > 0 && text@
                    == "This backup was made on "@ + made_on
                    + ". Some applications may not be available here."@,
                None => made_on == arch@ || made_on.len() == 0,
            }
        }),
{
    let made_on = &manifest.flatbak.host_arch;
    if same_text(made_on, arch) || made_on.as_str().is_empty() {
        return None;
    }
    Some(
        cat3(
            "This backup was made on ",
            made_on,
            ". Some applications may not be available here.",
        ),
    )
}

/// How an archive that was opened is remembered.
pub fn recent_entry(backup: &Backup) -> (out: RecentBackup)
    ensures
        out@ == (RecentBackupView {
            path: backup.path@,
            created_at: backup.manifest@.flatbak.created_at,
            app_count: backup.manifest.apps.len() as u32,
            data_app_count: data_app_count(backup.manifest@.apps) as usize as u32,
            archive_bytes: backup.file_size,
        }),
{
    RecentBackup {
        path: crate::path::bytes_of(&backup.path),
        created_at: backup.manifest.flatbak.created_at.clone(),
        app_count: backup.manifest.apps.len() as u32,
        data_app_count: backup.manifest.apps_with_data() as u32,
        archive_bytes: backup.file_size,
    }
}

// ------------------------------------------------------------------ running

/// The applications whose existing data is going to be deleted.
pub open spec fn replaced_in(rows: Seq<RestoreRowView>) -> Seq<Seq<char>>
    decreases rows.len(),
{
    if rows.len() == 0 {
        Seq::empty()
    } else {
        let before = replaced_in(rows.drop_last());
        if rows.last().replaces() {
            before.push(rows.last().entry.shown_name())
        } else {
            before
        }
    }
}

/// What to ask before the data of `names` is deleted.
pub open spec fn replace_question(names: Seq<Seq<char>>) -> Seq<char> {
    "The current data for these applications will be deleted and replaced with the data from the backup. This cannot be undone.\n\n"@
        + if names.len() <= 5 {
        joined(names, "\n"@)
    } else {
        joined(names.take(4), "\n"@) + "\nand "@ + decimal((names.len() - 4) as nat) + " more"@
    }
}

/// What to do when the user asks for the restore to begin.
#[derive(Debug)]
pub enum Start {
    /// Nothing is selected.
    Nothing,
    /// Begin.
    Begin,
    /// Ask first, because existing data is about to be deleted.
    Ask(String),
}

fn replaced(rows: &Vec<RestoreRow>) -> (out: Vec<String>)
    ensures
        views(out@) == replaced_in(views(rows@)),
{
    let ghost all = views(rows@);
    let mut out: Vec<String> = Vec::new();
    let mut i: usize = 0;
    proof {
        assert(all.take(0) =~= Seq::<RestoreRowView>::empty());
        assert(views(out@) =~= Seq::<Seq<char>>::empty());
    }
    while i < rows.len()
        invariant
            i <= rows@.len(),
            all == views(rows@),
            views(out@) == replaced_in(all.take(i as int)),
        decreases rows.len() - i,
    {
        let row = &rows[i];
        proof {
            assert(all.take(i + 1).drop_last() =~= all.take(i as int));
            assert(all.take(i + 1).last() == row@);
        }
        let replace = match row.conflict {
            Some(index) => conflict_from_index(index) == ConflictChoice::Replace,
            None => false,
        };
        if row.existing.present && row.restores_data() && replace {
            let ghost before = views(out@);
            out.push(row.entry.display_name().to_owned());
            assert(views(out@) =~= before.push(row@.entry.shown_name()));
        }
        i = i + 1;
    }
    assert(all.take(all.len() as int) =~= all);
    out
}

/// Decides whether to begin the restore, warning once, clearly, if any existing
/// data is about to be deleted.
pub fn run(rows: &Vec<RestoreRow>) -> (out: Start)
    ensures
        match out {
            Start::Nothing => chosen(views(rows@)).len() == 0,
            Start::Begin => chosen(views(rows@)).len() > 0 && replaced_in(views(rows@)).len() == 0,
            Start::Ask(question) => {
                &&& chosen(views(rows@)).len() > 0
                &&& replaced_in(views(rows@)).len() > 0
                &&& question@ == replace_question(replaced_in(views(rows@)))
            },
        },
{
    if selections(rows).len() == 0 {
        return Start::Nothing;
    }
    let names = replaced(rows);
    let n: usize = names.len();
    assert(views(names@).len() == n);
    if n == 0 {
        return Start::Begin;
    }
    let list = if n <= 5 {
        join(&names, "\n")
    } else {
        cat4(&join_first(&names, 4, "\n"), "\nand ", &decimal_text((n - 4) as u64), " more")
    };
    Start::Ask(
        cat2(
            "The current data for these applications will be deleted and replaced with the data from the backup. This cannot be undone.\n\n",
            &list,
        ),
    )
}

proof fn lemma_chosen_replacements(rows: Seq<RestoreRowView>)
    requires
        replaced_in(rows).len() == 0,
    ensures
        forall|i: int| 0 <= i < rows.len() ==> !(#[trigger] rows[i]).replaces(),
    decreases rows.len(),
{
    if rows.len() > 0 {
        let rest = rows.drop_last();
        lemma_chosen_replacements(rest);
        assert forall|i: int| 0 <= i < rows.len() implies !(#[trigger] rows[i]).replaces() by {
            if i < rest.len() {
                assert(rest[i] == rows[i]);
            }
        }
    }
}

/// A restore that begins without asking deletes no data that was seen when the
/// list was made: an application with existing data of its own keeps it.
///
/// Where existing data is seen, the row offers the choice about it.
pub proof fn lemma_no_unasked_replacement(rows: Seq<RestoreRowView>, i: int)
    requires
        replaced_in(rows).len() == 0,
        0 <= i < rows.len(),
        rows[i].existing.present && rows[i].entry.data_included ==> rows[i].conflict is Some,
        rows[i].existing.present,
        rows[i].restores_data(),
    ensures
        rows[i].choice() == ConflictChoice::Skip,
{
    lemma_chosen_replacements(rows);
}

/// Decides whether to pass a message on, `elapsed` milliseconds after the last
/// one of those that come in numbers.
///
/// Verification and extraction produce updates far faster than the UI can use
/// them; installs are chatty too.
pub fn throttle(update: &RestoreProgress, elapsed: u64) -> (out: Delivery)
    ensures
        out == match update {
            RestoreProgress::Verifying { .. } | RestoreProgress::Bytes { .. }
            | RestoreProgress::InstallOutput { .. } => if elapsed < INTERVAL {
                Delivery::Drop
            } else {
                Delivery::SendAndRestart
            },
            _ => Delivery::Send,
        },
{
    let many = match update {
        RestoreProgress::Verifying { .. } => true,
        RestoreProgress::Bytes { .. } => true,
        RestoreProgress::InstallOutput { .. } => true,
        _ => false,
    };
    if !many {
        Delivery::Send
    } else if elapsed < INTERVAL {
        Delivery::Drop
    } else {
        Delivery::SendAndRestart
    }
}

/// What a progress message changes on the page.
pub open spec fn progress_change(update: RestoreProgressView) -> ProgressUpdateView {
    match update {
        RestoreProgressView::Verifying { done, total } => ProgressUpdateView {
            stage: Some("Checking the backup\u{2026}"@),
            detail: Some("Verified "@ + size_text(done as nat) + " of "@ + size_text(total as nat)),
            bar: Some(bar_of(done, total)),
            log: None,
        },
        RestoreProgressView::AddingRemote { name } => ProgressUpdateView {
            stage: Some("Adding remotes\u{2026}"@),
            detail: Some(name),
            bar: None,
            log: Some("Added the remote \u{201c}"@ + name + "\u{201d}"@),
        },
        RestoreProgressView::Installing { app, index, total } => ProgressUpdateView {
            stage: Some("Reinstalling applications\u{2026}"@),
            detail: Some(numbered(app, index, total)),
            bar: Some(bar_of(index as u64, total as u64)),
            log: None,
        },
        RestoreProgressView::InstallOutput { line } => ProgressUpdateView {
            detail: Some(line),
            ..no_change()
        },
        RestoreProgressView::ExtractingApp { app } => ProgressUpdateView {
            stage: Some("Restoring application data\u{2026}"@),
            detail: Some(app),
            ..no_change()
        },
        RestoreProgressView::Bytes { done, total } => ProgressUpdateView {
            detail: Some(amount_text(done, total)),
            bar: Some(bar_of(done, total)),
            ..no_change()
        },
        RestoreProgressView::Issue(issue) => ProgressUpdateView {
            log: Some(issue_text(issue)),
            ..no_change()
        },
    }
}

/// What a progress message changes on the page.
pub fn apply_progress(update: &RestoreProgress) -> (out: ProgressUpdate)
    requires
        update matches RestoreProgress::Installing { app, index, total } ==> *index < usize::MAX,
    ensures
        out@ == progress_change(update@),
{
    match update {
        RestoreProgress::Verifying { done, total } => ProgressUpdate {
            stage: Some("Checking the backup\u{2026}".to_owned()),
            detail: Some(
                cat4("Verified ", &format_size(*done), " of ", &format_size(*total)),
            ),
            bar: Some(set_progress(*done, *total)),
            log: None,
        },
        RestoreProgress::AddingRemote { name } => ProgressUpdate {
            stage: Some("Adding remotes\u{2026}".to_owned()),
            detail: Some(name.clone()),
            bar: None,
            log: Some(cat3("Added the remote \u{201c}", name, "\u{201d}")),
        },
        RestoreProgress::Installing { app, index, total } => ProgressUpdate {
            stage: Some("Reinstalling applications\u{2026}".to_owned()),
            detail: Some(with_number(app, *index, *total)),
            bar: Some(set_progress(*index as u64, *total as u64)),
            log: None,
        },
        RestoreProgress::InstallOutput { line } => ProgressUpdate {
            stage: None,
            detail: Some(line.clone()),
            bar: None,
            log: None,
        },
        RestoreProgress::ExtractingApp { app } => ProgressUpdate {
            stage: Some("Restoring application data\u{2026}".to_owned()),
            detail: Some(app.clone()),
            bar: None,
            log: None,
        },
        RestoreProgress::Bytes { done, total } => ProgressUpdate {
            stage: None,
            detail: Some(amount(*done, *total)),
            bar: Some(set_progress(*done, *total)),
            log: None,
        },
        RestoreProgress::Issue(issue) => ProgressUpdate {
            stage: None,
            detail: None,
            bar: None,
            log: Some(issue.message()),
        },
    }
}

/// How a finished restore is described.
pub open spec fn restore_description(report: RestoreReportView) -> Seq<char> {
    counted(report.installed.len(), "application"@) + " installed"@ + bullet() + decimal(
        report.data_restored.len(),
    ) + " restored with data"@
}

/// What a finished restore is summed up as.
pub fn show_result(report: &RestoreReport) -> (out: ResultText)
    ensures
        ({
            let problems = report@.issues.len() > 0 || report@.interrupted_during_data;
            &&& out.icon@ == result_icon(problems)
            &&& out.heading@ == if problems {
                "Restore Finished, With Notes"@
            } else {
                "Restore Complete"@
            }
            &&& out.description@ == restore_description(report@)
        }),
{
    let problems = report.has_problems();
    let heading = if problems {
        "Restore Finished, With Notes"
    } else {
        "Restore Complete"
    };
    let installed = count_of(report.installed.len() as u64, "application");
    let description = cat5(
        &installed,
        " installed",
        " \u{2022} ",
        &decimal_text(report.data_restored.len() as u64),
        " restored with data",
    );
    ResultText { icon: icon_for(problems), heading: heading.to_owned(), description }
}

/// What to note about a restore that was stopped while data was being written.
pub fn interruption_note(report: &RestoreReport) -> (out: Option<String>)
    ensures
        out is Some <==> report@.interrupted_during_data,
        out matches Some(text) ==> text@
            == "The restore was stopped while application data was being written, so some data may be incomplete."@,
{
    if report.interrupted_during_data {
        Some(
            "The restore was stopped while application data was being written, so some data may be incomplete.".to_owned(),
        )
    } else {
        None
    }
}

// --------------------------------------------------------------------- laws

/// A restore does what the rows say, in their order: a row that asks for neither
/// installing nor data is left out, any other is taken with just what it asks for.
/// Data is asked for only if the archive holds any; what is there already is left
/// alone only if that was chosen.
pub proof fn lemma_rows_are_taken_as_chosen(
    a: Seq<RestoreRowView>,
    b: Seq<RestoreRowView>,
    row: RestoreRowView,
)
    ensures
        chosen(a + b) == chosen(a) + chosen(b),
        ({
            let data = row.data_on && row.entry.data_included;
            let taken = chosen(seq![row]);
            &&& !row.install && !data ==> taken.len() == 0
            &&& row.install || data ==> {
                &&& taken.len() == 1
                &&& taken[0].index == row.index
                &&& taken[0].install == row.install
                &&& taken[0].restore_data == data
                &&& taken[0].on_conflict == ConflictChoice::Skip <==> row.conflict is Some
                    && row.conflict->Some_0 != 1
            }
        }),
    decreases b.len(),
{
    let one = seq![row];
    assert(one.drop_last() =~= Seq::<RestoreRowView>::empty());
    assert(chosen(one.drop_last()).len() == 0);
    assert(one.last() == row);
    if b.len() == 0 {
        assert(a + b =~= a);
        assert(chosen(a) + chosen(b) =~= chosen(a));
    } else {
        lemma_rows_are_taken_as_chosen(a, b.drop_last(), row);
        assert((a + b).drop_last() =~= a + b.drop_last());
        assert((a + b).last() == b.last());
        assert(chosen(a + b) =~= chosen(a) + chosen(b));
    }
}

/// A missing remote is added if it is switched on and its address is known, and only
/// that one; what is added is the remote as it was recorded.
pub proof fn lemma_remotes_switched_on_are_added(
    remotes: Seq<MissingRemoteView>,
    on: Seq<bool>,
    remote: MissingRemoteView,
)
    ensures
        remotes_chosen(remotes, on).contains(remote) <==> remote.url.len() > 0 && exists|k: int|
            0 <= k < remotes.len() && #[trigger] remotes[k] == remote && on[k],
        remotes_chosen(remotes, on).len() <= remotes.len(),
    decreases remotes.len(),
{
    let all = remotes_chosen(remotes, on);
    if remotes.len() > 0 {
        let less = remotes.drop_last();
        let last = remotes[remotes.len() - 1];
        let before = remotes_chosen(less, on);
        lemma_remotes_switched_on_are_added(less, on, remote);
        if all.contains(remote) {
            let n = choose|n: int| 0 <= n < all.len() && all[n] == remote;
            if n < before.len() {
                assert(before[n] == remote);
                assert(before.contains(remote));
                let k = choose|k: int| 0 <= k < less.len() && #[trigger] less[k] == remote && on[k];
                assert(remotes[k] == remote);
            } else {
                assert(remotes[remotes.len() - 1] == remote);
            }
        }
        if remote.url.len() > 0 && exists|k: int|
            0 <= k < remotes.len() && #[trigger] remotes[k] == remote && on[k] {
            let k = choose|k: int|
                0 <= k < remotes.len() && #[trigger] remotes[k] == remote && on[k];
            if k < less.len() {
                assert(less[k] == remote);
                assert(before.contains(remote));
                let n = choose|n: int| 0 <= n < before.len() && before[n] == remote;
                assert(all[n] == remote);
            } else {
                assert(all[before.len() as int] == remote);
            }
        }
    }
}

/// What is shown of the rows adds up: how many are to be installed, how many come with
/// data, and how much that is.
pub proof fn lemma_totals_add_up(
    a: Seq<RestoreRowView>,
    b: Seq<RestoreRowView>,
    row: RestoreRowView,
)
    ensures
        totals(a + b).0 == totals(a).0 + totals(b).0,
        totals(a + b).1 == totals(a).1 + totals(b).1,
        totals(a + b).2 == totals(a).2 + totals(b).2,
        ({
            let data = row.data_on && row.entry.data_included;
            let (installs, with_data, bytes) = totals(seq![row]);
            &&& row.install ==> installs == 1
            &&& !row.install ==> installs == 0
            &&& data ==> with_data == 1 && bytes == row.entry.data_bytes
            &&& !data ==> with_data == 0 && bytes == 0
        }),
    decreases b.len(),
{
    let one = seq![row];
    assert(one.drop_last() =~= Seq::<RestoreRowView>::empty());
    assert(totals(one.drop_last()) == (0nat, 0nat, 0nat));
    assert(one.last() == row);
    if b.len() == 0 {
        assert(a + b =~= a);
    } else {
        lemma_totals_add_up(a, b.drop_last(), row);
        assert((a + b).drop_last() =~= a + b.drop_last());
        assert((a + b).last() == b.last());
    }
}

/// The user is asked about each application whose data would be replaced, by its name,
/// and about no other.
pub proof fn lemma_replacements_are_asked_about(
    a: Seq<RestoreRowView>,
    b: Seq<RestoreRowView>,
    row: RestoreRowView,
)
    ensures
        replaced_in(a + b) == replaced_in(a) + replaced_in(b),
        ({
            let asked = row.existing.present && row.data_on && row.entry.data_included
                && row.conflict == Some(1u32);
            &&& !asked ==> replaced_in(seq![row]).len() == 0
            &&& asked ==> replaced_in(seq![row]) == seq![
                if row.entry.name.len() == 0 {
                    row.entry.id
                } else {
                    row.entry.name
                },
            ]
        }),
    decreases b.len(),
{
    let one = seq![row];
    let none = Seq::<Seq<char>>::empty();
    assert(one.drop_last() =~= Seq::<RestoreRowView>::empty());
    assert(replaced_in(one.drop_last()) =~= none);
    assert(one.last() == row);
    assert(none.push(row.entry.shown_name()) =~= seq![row.entry.shown_name()]);
    if b.len() == 0 {
        assert(a + b =~= a);
        assert(replaced_in(a) + replaced_in(b) =~= replaced_in(a));
    } else {
        lemma_replacements_are_asked_about(a, b.drop_last(), row);
        assert((a + b).drop_last() =~= a + b.drop_last());
        assert((a + b).last() == b.last());
        assert(replaced_in(a + b) =~= replaced_in(a) + replaced_in(b));
    }
}

/// The bar shows how much is done of how much there is, and pulses where that is not
/// known. Issues and added remotes are logged, and nothing else is.
pub proof fn lemma_restore_progress_is_shown(update: RestoreProgressView)
    ensures
        ({
            let change = progress_change(update);
            &&& change.log is Some <==> update is Issue || update is AddingRemote
            &&& update matches RestoreProgressView::Bytes { done, total } ==> {
                &&& total > 0 ==> change.bar == Some(Bar::Part { done, total })
                &&& total == 0 ==> change.bar == Some(Bar::Pulse)
            }
            &&& update matches RestoreProgressView::Verifying { done, total } ==> {
                &&& total > 0 ==> change.bar == Some(Bar::Part { done, total })
                &&& total == 0 ==> change.bar == Some(Bar::Pulse)
            }
            &&& update matches RestoreProgressView::Installing { app, index, total } ==> {
                &&& change.detail == Some(
                    app + " ("@ + decimal((index + 1) as nat) + " of "@ + decimal(total as nat)
                        + ")"@,
                )
                &&& 0 < total <= u64::MAX && 0 <= index <= u64::MAX ==> change.bar == Some(
                    Bar::Part { done: index as u64, total: total as u64 },
                )
            }
            &&& update matches RestoreProgressView::AddingRemote { name } ==> change.detail == Some(
                name,
            )
            &&& update matches RestoreProgressView::ExtractingApp { app } ==> change.detail == Some(
                app,
            )
            &&& update matches RestoreProgressView::InstallOutput { line } ==> change.detail
                == Some(line)
        }),
{
}

/// A few names are all told; of more, the first two and how many others there are.
pub proof fn lemma_few_names(names: Seq<Seq<char>>)
    ensures
        names.len() <= 3 ==> few_names(names) == joined(names, ", "@),
        names.len() > 3 ==> few_names(names) == names[0] + ", "@ + names[1] + " and "@ + decimal(
            (names.len() - 2) as nat,
        ) + " more"@,
{
    if names.len() > 3 {
        let two = names.take(2);
        assert(two.drop_last() =~= seq![names[0]]);
        assert(joined(two.drop_last(), ", "@) == names[0]);
        assert(joined(two, ", "@) == names[0] + ", "@ + names[1]);
    }
}

/// Of a missing remote it is told where it is and who needs it, or, where no address is
/// known, that it has to be added by hand.
pub proof fn lemma_missing_remotes_are_told(remote: MissingRemoteView)
    ensures
        remote.url.len() > 0 ==> missing_line(remote) == remote.url + "\nNeeded by "@ + few_names(
            remote.apps,
        ),
        remote.url.len() == 0 ==> missing_line(remote)
            == "No address was recorded for this remote, so it must be added by hand.\nNeeded by "@
            + few_names(remote.apps),
{
}

/// What is told of a backup: when it was made, what is in it, how large it is, and what
/// made it.
pub proof fn lemma_values_about_a_backup(manifest: ManifestView, file_size: u64, created: Seq<char>)
    ensures
        ({
            let values = about_values(manifest, file_size, created);
            &&& values.len() == 5
            &&& values[0] == ("Created"@, created)
            &&& values[1] == ("Applications"@, decimal(manifest.apps.len()))
            &&& values[2] == (
                "With data"@,
                decimal(data_app_count(manifest.apps)) + " \u{2022} "@ + size_text(
                    claimed_bytes(manifest.apps),
                ),
            )
            &&& values[3] == ("Archive size"@, size_text(file_size as nat))
            &&& values[4] == ("Made by"@, manifest.flatbak.created_by)
        }),
{
}

/// The summary tells how many are installed, how many get data, and how much of it.
pub proof fn lemma_restore_is_summed_up(installs: nat, with_data: nat, bytes: nat)
    ensures
        restore_summary(0, 0, bytes) == "Nothing selected"@,
        installs > 0 || with_data > 0 ==> restore_summary(installs, with_data, bytes) == decimal(
            installs,
        ) + " to install \u{2022} "@ + decimal(with_data) + " with data \u{2022} "@ + size_text(
            bytes,
        ),
{
}

/// Before data is replaced it is told whose, each on a line of its own: of up to five
/// all, of more the first four and how many others there are.
pub proof fn lemma_replacement_is_asked_about_by_name(names: Seq<Seq<char>>)
    ensures
        ({
            let warning =
                "The current data for these applications will be deleted and replaced with the data from the backup. This cannot be undone.\n\n"@;
            &&& names.len() <= 5 ==> replace_question(names) == warning + joined(names, "\n"@)
            &&& names.len() > 5 ==> replace_question(names) == warning + (joined(
                names.take(4),
                "\n"@,
            ) + "\nand "@ + decimal((names.len() - 4) as nat) + " more"@)
        }),
{
}

/// An entry is shown with its ID, its installation, its version, if it has one, and
/// whether the application is there already.
pub proof fn lemma_entry_line(entry: AppEntryView)
    ensures
        ({
            let label = match entry.installation {
                InstallationView::User => "User"@,
                InstallationView::System => "System"@,
                InstallationView::Named(name) => name,
            };
            let line = entry_line(entry, false);
            &&& entry.version.len() == 0 ==> line == entry.id + " \u{2022} "@ + label
            &&& entry.version.len() > 0 ==> line == entry.id + " \u{2022} "@ + label
                + " \u{2022} "@ + entry.version
            &&& entry_line(entry, true) == line + " \u{2022} "@ + "already installed"@
        }),
{
    let label = installation_label(entry.installation);
    let start = seq![entry.id, label];
    assert(start.drop_last() =~= seq![entry.id]);
    assert(joined(start.drop_last(), bullet()) == entry.id);
    assert(joined(start, bullet()) == entry.id + bullet() + label);
    let versioned = if entry.version.len() > 0 {
        start.push(entry.version)
    } else {
        start
    };
    if entry.version.len() > 0 {
        assert(versioned.drop_last() =~= start);
    }
    assert(versioned.push("already installed"@).drop_last() =~= versioned);
}

/// At first a row installs what is not there yet and can be installed, restores what data
/// there is, and leaves data alone that is there already.
pub proof fn lemma_rows_start_out_careful(
    index: usize,
    entry: AppEntry,
    existing: DataInfo,
    already_installed: bool,
    row: RestoreRow,
)
    requires
        call_ensures(RestoreRow::new, (index, entry, existing, already_installed), row),
    ensures
        ({
            let taken = chosen(seq![row@]);
            &&& row@.install <==> !already_installed && entry@.origin.len() > 0
            &&& row@.data_on == entry@.data_included
            &&& taken.len() > 0 ==> taken[0].index == index
            &&& existing@.present && entry@.data_included ==> taken.len() == 1
                && taken[0].on_conflict == ConflictChoice::Skip
            &&& replaced_in(seq![row@]).len() == 0
        }),
{
    lemma_rows_are_taken_as_chosen(Seq::empty(), Seq::empty(), row@);
    lemma_replacements_are_asked_about(Seq::empty(), Seq::empty(), row@);
}

/// Switching a row on or off does so with all that it can do, and with nothing else.
pub proof fn lemma_rows_are_switched(row: &mut RestoreRow, value: bool)
    requires
        call_ensures(RestoreRow::set_all, (row, value), ()),
    ensures
        old(row)@.entry.origin.len() > 0 ==> final(row)@.install == value,
        old(row)@.entry.origin.len() == 0 ==> final(row)@.install == old(row)@.install,
        old(row)@.entry.data_included ==> final(row)@.data_on == value,
        !old(row)@.entry.data_included ==> final(row)@.data_on == old(row)@.data_on,
        final(row)@.index == old(row)@.index,
        final(row)@.entry == old(row)@.entry,
        final(row)@.conflict == old(row)@.conflict,
{
}

} // verus!
