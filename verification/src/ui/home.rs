//! The home page: whether Flatpak is there, and the recent backups list.

use vstd::prelude::*;
use crate::backup::{aged, format_relative, instant_of, relative_to};
use crate::recent::{RecentBackup, RecentBackupView};
use crate::text::{cat2, joined, views};
use crate::ui::widgets::{bullet, count_of, counted, in_one_line};
use crate::util::{format_size, size_text};

verus! {

/// What the startup probe leads to.
#[derive(Debug)]
pub struct ProbeOutcome {
    /// What the banner says, if it is shown.
    pub banner: Option<String>,
    pub can_back_up: bool,
    pub can_restore: bool,
}

/// What follows from how Flatpak answered.
///
/// Opening an archive to inspect it works without Flatpak; only the install step
/// needs it, and that failure is reported per app.
pub fn probe(outcome: &Result<String, String>) -> (out: ProbeOutcome)
    ensures
        out.can_restore,
        out.can_back_up == (outcome is Ok),
        match outcome {
            Ok(_) => out.banner is None,
            Err(message) => out.banner matches Some(text) && text@
                == "Flatpak is not available. "@ + message@,
        },
{
    match outcome {
        Ok(_) => ProbeOutcome { banner: None, can_back_up: true, can_restore: true },
        Err(message) => ProbeOutcome {
            banner: Some(cat2("Flatpak is not available. ", message)),
            can_back_up: false,
            can_restore: true,
        },
    }
}

/// The facts shown below a recent backup that was made `age` ago.
pub open spec fn recent_facts(entry: RecentBackupView, age: Seq<char>, available: bool) -> Seq<
    Seq<char>,
> {
    let apps = if entry.app_count > 0 {
        seq![counted(entry.app_count as nat, "app"@)]
    } else {
        Seq::empty()
    };
    let size = if entry.archive_bytes > 0 {
        seq![size_text(entry.archive_bytes as nat)]
    } else {
        Seq::empty()
    };
    let made = if entry.created_at.len() > 0 {
        seq![age]
    } else {
        Seq::empty()
    };
    let missing = if available {
        Seq::empty()
    } else {
        seq!["file not found"@]
    };
    apps + size + made + missing
}

/// The line below a recent backup that was made `age` ago.
pub fn recent_line(entry: &RecentBackup, age: &str, available: bool) -> (out: String)
    ensures
        out@ == joined(recent_facts(entry@, age@, available), bullet()),
{
    let mut parts: Vec<String> = Vec::new();
    if entry.app_count > 0 {
        parts.push(count_of(entry.app_count as u64, "app"));
    }
    if entry.archive_bytes > 0 {
        parts.push(format_size(entry.archive_bytes));
    }
    if !entry.created_at.as_str().is_empty() {
        parts.push(age.to_owned());
    }
    if !available {
        parts.push("file not found".to_owned());
    }
    assert(views(parts@) =~= recent_facts(entry@, age@, available));
    in_one_line(&parts)
}

/// The line below a recent backup. How long ago it was made depends on the clock.
pub fn recent_subtitle(entry: &RecentBackup, available: bool) -> (out: String)
    ensures
        exists|seconds: Option<i64>|
            {
                &&& #[trigger] aged(entry@.created_at, seconds)
                &&& seconds is Some <==> instant_of(entry@.created_at) is Some
                &&& seconds matches Some(n) ==> n + instant_of(entry@.created_at)->0 >= -2
                &&& out@ == joined(
                    recent_facts(entry@, relative_to(entry@.created_at, seconds), available),
                    bullet(),
                )
            },
{
    let age = format_relative(&entry.created_at);
    recent_line(entry, &age, available)
}

/// The icon of a recent backup.
pub fn recent_icon(available: bool) -> (name: &'static str)
    ensures
        name@ == if available {
            "document-save-symbolic"@
        } else {
            "dialog-warning-symbolic"@
        },
{
    if available {
        "document-save-symbolic"
    } else {
        "dialog-warning-symbolic"
    }
}

/// A recent backup that is not there any more is told as such, and nothing else changes.
/// Its age is told only if it is known, and so are its size and how many applications
/// it holds.
pub proof fn lemma_facts_of_recent_backups(
    entry: RecentBackupView,
    age: Seq<char>,
    available: bool,
)
    ensures
        recent_facts(entry, age, false) == recent_facts(entry, age, true).push("file not found"@),
        entry.created_at.len() > 0 ==> recent_facts(entry, age, true).len() > 0 && recent_facts(
            entry,
            age,
            true,
        ).last() == age,
        recent_facts(entry, age, true).len() == (if entry.app_count > 0 {
            1int
        } else {
            0
        }) + (if entry.archive_bytes > 0 {
            1int
        } else {
            0
        }) + (if entry.created_at.len() > 0 {
            1int
        } else {
            0
        }),
        entry.app_count > 0 ==> recent_facts(entry, age, available)[0] == counted(
            entry.app_count as nat,
            "app"@,
        ),
        entry.app_count == 0 && entry.archive_bytes > 0 ==> recent_facts(entry, age, available)[0]
            == size_text(entry.archive_bytes as nat),
        entry.app_count > 0 && entry.archive_bytes > 0 ==> recent_facts(entry, age, available)[1]
            == size_text(entry.archive_bytes as nat),
{
    assert(recent_facts(entry, age, false) =~= recent_facts(entry, age, true).push(
        "file not found"@,
    ));
}

} // verus!
