//! Texts shared between the backup and restore pages.

use vstd::prelude::*;
use crate::appdata::{DataInfo, DataInfoView};
use crate::error::{issue_text, Issue, IssueView};
use crate::text::{cat3, cat4, decimal, decimal_text, join, joined, views};
use crate::util::{format_size, size_text};

verus! {

/// What stands between two facts in one line.
pub open spec fn bullet() -> Seq<char> {
    " \u{2022} "@
}

/// `parts` in one line, separated by bullets.
pub fn in_one_line(parts: &Vec<String>) -> (out: String)
    ensures
        out@ == joined(views(parts@), bullet()),
{
    join(parts, " \u{2022} ")
}

/// The icon name to use for FlatBak itself.
///
/// The application's own icon is only in the theme once it has been installed,
/// so a build that was not falls back to a stock icon rather than showing the
/// "missing image" placeholder.
pub fn own_icon_name(installed: bool) -> (name: &'static str)
    ensures
        name@ == if installed {
            crate::config::APP_ID@
        } else {
            "drive-harddisk-symbolic"@
        },
{
    if installed {
        crate::config::APP_ID
    } else {
        "drive-harddisk-symbolic"
    }
}

/// The icon name for one application, falling back to a generic symbol.
///
/// Flatpak exports application icons into the icon theme search path, so a
/// lookup by application ID finds the real icon for most apps.
pub fn app_icon(app_id: &str, has_icon: bool) -> (name: String)
    ensures
        name@ == if has_icon {
            app_id@
        } else {
            "application-x-executable-symbolic"@
        },
{
    if has_icon {
        app_id.to_owned()
    } else {
        "application-x-executable-symbolic".to_owned()
    }
}

/// How an application's data on disk is described.
pub open spec fn data_description(info: DataInfoView, exclude_caches: bool) -> Seq<char> {
    let bytes = info.backed_up(exclude_caches);
    if !info.present {
        "No application data found"@
    } else if exclude_caches && info.cache_bytes > 0 {
        size_text(bytes) + bullet() + size_text(info.cache_bytes as nat) + " of cache excluded"@
    } else {
        size_text(bytes)
    }
}

/// Human readable description of an application's data on disk.
pub fn describe_data(info: &DataInfo, exclude_caches: bool) -> (out: String)
    ensures
        out@ == data_description(info@, exclude_caches),
{
    if !info.present {
        return "No application data found".to_owned();
    }
    let bytes: u64 = info.bytes_to_back_up(exclude_caches);
    if exclude_caches && info.cache_bytes > 0 {
        cat4(
            &format_size(bytes),
            " \u{2022} ",
            &format_size(info.cache_bytes),
            " of cache excluded",
        )
    } else {
        format_size(bytes)
    }
}

/// The most issues that are listed one by one.
pub const MAX_LINES: usize = 200;

/// The lines that stand for `issues`.
pub open spec fn issue_lines(issues: Seq<IssueView>) -> Seq<Seq<char>> {
    let all = issues.map_values(|issue: IssueView| issue_text(issue));
    if issues.len() <= MAX_LINES {
        all
    } else {
        all.take(MAX_LINES as int).push(
            "\u{2026} and "@ + decimal((issues.len() - MAX_LINES) as nat) + " more"@,
        )
    }
}

/// Lists issues for a details pane, cutting off what would be too long a list.
pub fn fill_issues(issues: &Vec<Issue>) -> (out: Vec<String>)
    ensures
        views(out@) == issue_lines(views(issues@)),
{
    let mut out: Vec<String> = Vec::new();
    let n: usize = if issues.len() <= MAX_LINES {
        issues.len()
    } else {
        MAX_LINES
    };
    let ghost all = views(issues@).map_values(|issue: IssueView| issue_text(issue));
    let mut i: usize = 0;
    while i < n
        invariant
            i <= n <= issues@.len(),
            all == views(issues@).map_values(|issue: IssueView| issue_text(issue)),
            out@.len() == i,
            forall|k: int| 0 <= k < i ==> (#[trigger] out@[k])@ == all[k],
        decreases n - i,
    {
        out.push(issues[i].message());
        i = i + 1;
    }
    assert(views(out@) =~= all.take(n as int));
    if issues.len() > MAX_LINES {
        let more: u64 = (issues.len() - MAX_LINES) as u64;
        out.push(cat3("\u{2026} and ", &decimal_text(more), " more"));
        assert(views(out@) =~= issue_lines(views(issues@)));
    } else {
        assert(all.take(n as int) =~= all);
    }
    out
}

/// `count`, then `noun` in the number that fits.
pub open spec fn counted(count: nat, noun: Seq<char>) -> Seq<char> {
    decimal(count) + " "@ + noun + if count == 1 {
        ""@
    } else {
        "s"@
    }
}

/// `count`, then `noun` in the number that fits.
pub fn count_of(count: u64, noun: &str) -> (out: String)
    ensures
        out@ == counted(count as nat, noun@),
{
    let ending = if count == 1 {
        ""
    } else {
        "s"
    };
    cat4(&decimal_text(count), " ", noun, ending)
}

// --------------------------------------------------------------------- laws

/// Each issue has a line of its own, up to two hundred; of more it is told how many
/// there are.
pub proof fn lemma_issues_are_listed(issues: Seq<IssueView>, i: int)
    requires
        0 <= i < issues.len(),
    ensures
        issues.len() <= 200 ==> issue_lines(issues).len() == issues.len(),
        issues.len() > 200 ==> {
            &&& issue_lines(issues).len() == 201
            &&& issue_lines(issues)[200] == "\u{2026} and "@ + decimal((issues.len() - 200) as nat)
                + " more"@
        },
        i < 200 ==> issue_lines(issues)[i] == issue_text(issues[i]),
{
}

/// What is shown of an application's data is how much of it would be backed up, and how
/// much cache is left out, if there is any to leave out.
pub proof fn lemma_data_is_described(info: DataInfoView)
    requires
        info.present,
        info.cache_bytes <= info.total_bytes,
    ensures
        data_description(info, false) == size_text(info.total_bytes as nat),
        info.cache_bytes == 0 ==> data_description(info, true) == data_description(info, false),
        info.cache_bytes > 0 ==> data_description(info, true) == size_text(
            (info.total_bytes - info.cache_bytes) as nat,
        ) + " \u{2022} "@ + size_text(info.cache_bytes as nat) + " of cache excluded"@,
{
}

/// One is told in the singular, and everything else in the plural.
pub proof fn lemma_counted(count: nat, noun: Seq<char>)
    ensures
        count == 1 ==> counted(count, noun) == decimal(1) + " "@ + noun,
        count != 1 ==> counted(count, noun) == decimal(count) + " "@ + noun + "s"@,
{
    reveal_strlit("");
    assert(counted(1, noun) =~= decimal(1) + " "@ + noun);
}

} // verus!
