//! What the user interface shows: every text and every decision of the pages,
//! without the widgets that show them.

pub mod backup_page;
pub mod home;
pub mod progress;
pub mod restore_page;
pub mod widgets;

use vstd::prelude::*;
use vstd::utf8::*;
use crate::appdata::optional_view;
use crate::path::{join, join_path, parts, same_path};
use crate::text::views;

verus! {

/// Where Flatpak exports application icons, for a home directory.
pub open spec fn icon_paths(home: Option<Seq<u8>>) -> Seq<Seq<u8>> {
    let shared = seq![
        encode_utf8("/var/lib/flatpak/exports/share/icons"@),
        encode_utf8("/run/host/var/lib/flatpak/exports/share/icons"@),
    ];
    match home {
        Some(dir) => shared.push(
            join_path(dir, encode_utf8(".local/share/flatpak/exports/share/icons"@)),
        ),
        None => shared,
    }
}

/// Directories that may hold Flatpak's exported application icons.
///
/// Applications export their icons into their Flatpak installation's `exports`
/// directory. The user installation and the system one are already on GTK's
/// search path through `XDG_DATA_DIRS`, but the host's are not when FlatBak
/// runs inside a container, where the host filesystem appears under `/run/host`.
pub fn icon_path_candidates(home: Option<Vec<u8>>) -> (out: Vec<Vec<u8>>)
    ensures
        views(out@) == icon_paths(optional_view(home)),
{
    let mut out: Vec<Vec<u8>> = Vec::new();
    out.push(crate::path::bytes_of("/var/lib/flatpak/exports/share/icons".as_bytes()));
    out.push(crate::path::bytes_of("/run/host/var/lib/flatpak/exports/share/icons".as_bytes()));
    let ghost shared = out@;
    assert(views(out@) =~= icon_paths(None));
    if let Some(dir) = home {
        out.push(join(&dir, ".local/share/flatpak/exports/share/icons".as_bytes()));
        assert(views(out@) =~= views(shared).push(out@[2]@));
    }
    out
}

/// True if `path` is to be added to a search path of `existing` directories.
pub fn adds_icon_path(path: &[u8], is_dir: bool, existing: &Vec<Vec<u8>>) -> (yes: bool)
    ensures
        yes <==> is_dir && forall|i: int|
            0 <= i < existing@.len() ==> parts((#[trigger] existing@[i])@) != parts(path@),
{
    if !is_dir {
        return false;
    }
    let mut i: usize = 0;
    while i < existing.len()
        invariant
            i <= existing@.len(),
            forall|k: int| 0 <= k < i ==> parts((#[trigger] existing@[k])@) != parts(path@),
        decreases existing.len() - i,
    {
        if same_path(&existing[i], path) {
            return false;
        }
        i = i + 1;
    }
    true
}

} // verus!
