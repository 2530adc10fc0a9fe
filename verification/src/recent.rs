//! The "Recent Backups" list shown on the home page.
//!
//! The list is advisory: entries whose file has since been moved or deleted are
//! shown as unavailable rather than silently dropped, because a backup living on
//! an external disk is a perfectly normal thing to have.

use vstd::prelude::*;
use vstd::utf8::*;
use crate::path::{
    absolute, file_name, is_absolute, is_plain_name, join, join_path, last_name, lemma_join_name,
    parts, same_path, Part,
};
use crate::text::{lossy_text, text_lossy, views};

verus! {

/// Most entries to keep.
pub const MAX_ENTRIES: usize = 10;

/// One remembered backup.
#[derive(Debug)]
pub struct RecentBackup {
    pub path: Vec<u8>,
    /// RFC 3339, copied from the archive's manifest.
    pub created_at: String,
    pub app_count: u32,
    pub data_app_count: u32,
    pub archive_bytes: u64,
}

pub struct RecentBackupView {
    pub path: Seq<u8>,
    pub created_at: Seq<char>,
    pub app_count: u32,
    pub data_app_count: u32,
    pub archive_bytes: u64,
}

impl View for RecentBackup {
    type V = RecentBackupView;

    open spec fn view(&self) -> RecentBackupView {
        RecentBackupView {
            path: self.path@,
            created_at: self.created_at@,
            app_count: self.app_count,
            data_app_count: self.data_app_count,
            archive_bytes: self.archive_bytes,
        }
    }
}

/// The name of the file at `path`, or the whole path where it has none.
pub open spec fn shown_file_name(path: Seq<u8>) -> Seq<char> {
    match last_name(path) {
        Some(name) => lossy_text(name),
        None => lossy_text(path),
    }
}

impl RecentBackup {
    /// Filename without directories, for the row title.
    pub fn file_name(&self) -> (out: String)
        ensures
            out@ == shown_file_name(self@.path),
    {
        match file_name(&self.path) {
            Some(name) => text_lossy(&name),
            None => text_lossy(&self.path),
        }
    }
}

impl Clone for RecentBackup {
    fn clone(&self) -> (out: Self)
        ensures
            out@ == self@,
    {
        RecentBackup {
            path: crate::path::bytes_of(&self.path),
            created_at: self.created_at.clone(),
            app_count: self.app_count,
            data_app_count: self.data_app_count,
            archive_bytes: self.archive_bytes,
        }
    }
}

/// The list, the most recent backup first.
#[derive(Debug, Clone)]
pub struct RecentStore {
    pub entries: Vec<RecentBackup>,
}

impl View for RecentStore {
    type V = Seq<RecentBackupView>;

    open spec fn view(&self) -> Seq<RecentBackupView> {
        views(self.entries@)
    }
}

/// `entries` without those for the file at `path`.
pub open spec fn without_path(entries: Seq<RecentBackupView>, path: Seq<u8>) -> Seq<
    RecentBackupView,
>
    decreases entries.len(),
{
    if entries.len() == 0 {
        Seq::empty()
    } else {
        let before = without_path(entries.drop_last(), path);
        if parts(entries.last().path) == parts(path) {
            before
        } else {
            before.push(entries.last())
        }
    }
}

/// The first [`MAX_ENTRIES`] of `entries`.
pub open spec fn capped(entries: Seq<RecentBackupView>) -> Seq<RecentBackupView> {
    if entries.len() <= MAX_ENTRIES {
        entries
    } else {
        entries.take(MAX_ENTRIES as int)
    }
}

/// The list after `entry` was recorded.
pub open spec fn remembered(entries: Seq<RecentBackupView>, entry: RecentBackupView) -> Seq<
    RecentBackupView,
> {
    capped(seq![entry] + without_path(entries, entry.path))
}

/// No file is listed twice.
pub open spec fn distinct_paths(entries: Seq<RecentBackupView>) -> bool {
    forall|i: int, j: int|
        0 <= i < j < entries.len() ==> parts((#[trigger] entries[i]).path) != parts(
            (#[trigger] entries[j]).path,
        )
}

impl Default for RecentStore {
    fn default() -> (out: Self)
        ensures
            out@ == Seq::<RecentBackupView>::empty(),
    {
        let out = RecentStore { entries: Vec::new() };
        assert(out@ =~= Seq::<RecentBackupView>::empty());
        out
    }
}

impl RecentStore {
    /// Records a backup, moving it to the front if it is already known.
    pub fn remember(&mut self, entry: RecentBackup)
        ensures
            final(self)@ == remembered(old(self)@, entry@),
    {
        self.forget(&entry.path);
        let ghost others = self@;
        let ghost entry_view = entry@;
        self.entries.insert(0, entry);
        assert(self@ =~= seq![entry_view] + others);
        let ghost whole = self@;
        let ghost all = self.entries@;
        if self.entries.len() > MAX_ENTRIES {
            self.entries.truncate(MAX_ENTRIES);
            proof {
                assert(self.entries@ =~= all.take(MAX_ENTRIES as int));
                assert(self@ =~= whole.take(MAX_ENTRIES as int));
            }
        }
    }

    pub fn forget(&mut self, path: &[u8])
        ensures
            final(self)@ == without_path(old(self)@, path@),
    {
        let mut kept: Vec<RecentBackup> = Vec::new();
        let ghost all = self@;
        let mut i: usize = 0;
        assert(all.take(0) =~= Seq::<RecentBackupView>::empty());
        assert(views(kept@) =~= Seq::<RecentBackupView>::empty());
        while i < self.entries.len()
            invariant
                i <= self.entries@.len(),
                all == views(self.entries@),
                views(kept@) == without_path(all.take(i as int), path@),
            decreases self.entries.len() - i,
        {
            proof {
                assert(all.take(i + 1).drop_last() =~= all.take(i as int));
                assert(all.take(i + 1).last() == self.entries@[i as int]@);
            }
            if !same_path(&self.entries[i].path, path) {
                let ghost before = views(kept@);
                kept.push(self.entries[i].clone());
                assert(views(kept@) =~= before.push(self.entries@[i as int]@));
            }
            i = i + 1;
        }
        assert(all.take(all.len() as int) =~= all);
        self.entries = kept;
    }
}

proof fn lemma_without_path(entries: Seq<RecentBackupView>, path: Seq<u8>)
    ensures
        forall|i: int|
            0 <= i < without_path(entries, path).len() ==> parts(
                (#[trigger] without_path(entries, path)[i]).path,
            ) != parts(path),
        forall|i: int|
            0 <= i < without_path(entries, path).len() ==> entries.contains(
                #[trigger] without_path(entries, path)[i],
            ),
        distinct_paths(entries) ==> distinct_paths(without_path(entries, path)),
    decreases entries.len(),
{
    if entries.len() > 0 {
        let rest = entries.drop_last();
        let last = entries[entries.len() - 1];
        lemma_without_path(rest, path);
        let kept = without_path(rest, path);
        let all = without_path(entries, path);
        assert forall|i: int| 0 <= i < all.len() implies parts((#[trigger] all[i]).path) != parts(
            path,
        ) by {
            if i < kept.len() {
                assert(all[i] == kept[i]);
            }
        }
        assert forall|i: int| 0 <= i < all.len() implies entries.contains(#[trigger] all[i]) by {
            if i < kept.len() {
                assert(all[i] == kept[i]);
                let k = choose|k: int| 0 <= k < rest.len() && rest[k] == kept[i];
                assert(entries[k] == all[i]);
            } else {
                assert(all[i] == last);
            }
        }
        if distinct_paths(entries) {
            assert forall|i: int, j: int| 0 <= i < j < rest.len() implies parts(
                (#[trigger] rest[i]).path,
            ) != parts((#[trigger] rest[j]).path) by {
                assert(rest[i] == entries[i] && rest[j] == entries[j]);
            }
            assert forall|i: int, j: int| 0 <= i < j < all.len() implies parts(
                (#[trigger] all[i]).path,
            ) != parts((#[trigger] all[j]).path) by {
                assert(all[i] == kept[i]);
                if j < kept.len() {
                    assert(all[j] == kept[j]);
                } else {
                    let k = choose|k: int| 0 <= k < rest.len() && rest[k] == kept[i];
                    assert(entries[k] == kept[i]);
                }
            }
        }
    }
}

/// Recording a backup puts it first, keeps the list within its limit and lists
/// no file twice if none was before.
pub proof fn lemma_remembered(entries: Seq<RecentBackupView>, entry: RecentBackupView)
    ensures
        remembered(entries, entry).len() <= MAX_ENTRIES,
        remembered(entries, entry)[0] == entry,
        forall|i: int|
            0 < i < remembered(entries, entry).len() ==> parts(
                (#[trigger] remembered(entries, entry)[i]).path,
            ) != parts(entry.path),
        distinct_paths(entries) ==> distinct_paths(remembered(entries, entry)),
{
    let others = without_path(entries, entry.path);
    let out = remembered(entries, entry);
    lemma_without_path(entries, entry.path);
    assert forall|i: int| 0 < i < out.len() implies parts((#[trigger] out[i]).path) != parts(
        entry.path,
    ) by {
        assert(out[i] == others[i - 1]);
    }
    if distinct_paths(entries) {
        assert forall|i: int, j: int| 0 <= i < j < out.len() implies parts(
            (#[trigger] out[i]).path,
        ) != parts((#[trigger] out[j]).path) by {
            assert(out[j] == others[j - 1]);
            if i > 0 {
                assert(out[i] == others[i - 1]);
            }
        }
    }
}

/// A forgotten file is not listed any more.
pub proof fn lemma_forgotten(entries: Seq<RecentBackupView>, path: Seq<u8>)
    ensures
        forall|i: int|
            0 <= i < without_path(entries, path).len() ==> parts(
                (#[trigger] without_path(entries, path)[i]).path,
            ) != parts(path),
{
    lemma_without_path(entries, path);
}

/// Where the list is stored, given what `XDG_DATA_HOME` and `HOME` are set to.
pub open spec fn store_path_for(data_home: Option<Seq<u8>>, home: Option<Seq<u8>>) -> Seq<u8> {
    let base = if data_home is Some && is_absolute(data_home->0) {
        data_home->0
    } else {
        join_path(
            match home {
                Some(dir) => dir,
                None => encode_utf8("."@),
            },
            encode_utf8(".local/share"@),
        )
    };
    join_path(join_path(base, encode_utf8("flatbak"@)), encode_utf8("recent.toml"@))
}

/// `$XDG_DATA_HOME/flatbak/recent.toml`.
pub fn store_path(data_home: Option<Vec<u8>>, home: Option<Vec<u8>>) -> (path: Vec<u8>)
    ensures
        path@ == store_path_for(
            crate::appdata::optional_view(data_home),
            crate::appdata::optional_view(home),
        ),
{
    let mut base: Vec<u8> = Vec::new();
    let mut found: bool = false;
    if let Some(dir) = data_home {
        if absolute(&dir) {
            base = dir;
            found = true;
        }
    }
    if !found {
        base = match home {
            Some(dir) => join(&dir, ".local/share".as_bytes()),
            None => join(".".as_bytes(), ".local/share".as_bytes()),
        };
    }
    join(&join(&base, "flatbak".as_bytes()), "recent.toml".as_bytes())
}

/// Forgetting a path takes away what lies there, and nothing else: every other entry
/// stays, and the order with it.
pub proof fn lemma_other_paths_stay(
    a: Seq<RecentBackupView>,
    b: Seq<RecentBackupView>,
    path: Seq<u8>,
    entry: RecentBackupView,
)
    ensures
        without_path(a + b, path) == without_path(a, path) + without_path(b, path),
        parts(entry.path) == parts(path) ==> without_path(seq![entry], path).len() == 0,
        parts(entry.path) != parts(path) ==> without_path(seq![entry], path) == seq![entry],
    decreases b.len(),
{
    let none = Seq::<RecentBackupView>::empty();
    let one = seq![entry];
    assert(one.drop_last() =~= none);
    assert(without_path(none, path) =~= none);
    assert(one.last() == entry);
    assert(none.push(entry) =~= one);
    if b.len() == 0 {
        assert(a + b =~= a);
        assert(without_path(a, path) + without_path(b, path) =~= without_path(a, path));
    } else {
        lemma_other_paths_stay(a, b.drop_last(), path, entry);
        assert((a + b).drop_last() =~= a + b.drop_last());
        assert((a + b).last() == b.last());
        assert(without_path(a + b, path) =~= without_path(a, path) + without_path(b, path));
    }
}

/// What was remembered stays remembered, in its order behind the newest, until there
/// are ten: only the oldest is dropped for a new one.
pub proof fn lemma_remembered_stays(entries: Seq<RecentBackupView>, entry: RecentBackupView)
    requires
        forall|i: int| 0 <= i < entries.len() ==> parts((#[trigger] entries[i]).path) != parts(
            entry.path,
        ),
    ensures
        entries.len() < 10 ==> remembered(entries, entry) == seq![entry] + entries,
        entries.len() >= 10 ==> remembered(entries, entry) == seq![entry] + entries.take(9),
{
    lemma_nothing_to_forget(entries, entry.path);
    let all = seq![entry] + entries;
    if entries.len() >= 10 {
        assert(all.take(10) =~= seq![entry] + entries.take(9));
    }
}

proof fn lemma_nothing_to_forget(entries: Seq<RecentBackupView>, path: Seq<u8>)
    requires
        forall|i: int| 0 <= i < entries.len() ==> parts((#[trigger] entries[i]).path) != parts(
            path,
        ),
    ensures
        without_path(entries, path) == entries,
    decreases entries.len(),
{
    if entries.len() > 0 {
        let less = entries.drop_last();
        assert forall|i: int| 0 <= i < less.len() implies parts((#[trigger] less[i]).path) != parts(
            path,
        ) by {
            assert(less[i] == entries[i]);
        }
        lemma_nothing_to_forget(less, path);
        assert(entries[entries.len() - 1] == entries.last());
        assert(less.push(entries.last()) =~= entries);
    }
}

/// The list lies below the directory for data, if that is set to an absolute path, and
/// else below the home directory.
pub proof fn lemma_where_the_list_lies(data_home: Seq<u8>, home: Option<Seq<u8>>)
    ensures
        is_absolute(data_home) ==> parts(store_path_for(Some(data_home), home)) == parts(
            data_home,
        ).push(Part::Name(encode_utf8("flatbak"@))).push(
            Part::Name(encode_utf8("recent.toml"@)),
        ),
        !is_absolute(data_home) ==> store_path_for(Some(data_home), home) == store_path_for(
            None,
            home,
        ),
{
    reveal_strlit("flatbak");
    reveal_strlit("recent.toml");
    lemma_plain_text_name("flatbak"@);
    lemma_plain_text_name("recent.toml"@);
    if is_absolute(data_home) {
        let dir = encode_utf8("flatbak"@);
        lemma_join_name(data_home, dir);
        lemma_join_name(join_path(data_home, dir), encode_utf8("recent.toml"@));
    }
}

proof fn lemma_plain_text_name(text: Seq<char>)
    requires
        is_ascii_chars(text),
        text.len() > 2,
        forall|i: int| 0 <= i < text.len() ==> #[trigger] text[i] != '/' && text[i] != '\0',
    ensures
        is_plain_name(encode_utf8(text)),
{
    is_ascii_chars_encode_utf8(text);
    let name = encode_utf8(text);
    assert forall|i: int| 0 <= i < name.len() implies name[i] != crate::path::SLASH by {
        assert(text[i] as u8 == name[i]);
    }
    assert(crate::path::one_dot().len() == 1);
    assert(crate::path::two_dots().len() == 2);
}

/// The newest backup is always the first of the list, and what was there before is not
/// lost while there is room.
pub proof fn lemma_new_backups_come_first(
    store: &mut RecentStore,
    entry: RecentBackup,
    other: int,
)
    requires
        call_ensures(RecentStore::remember, (store, entry), ()),
        0 <= other < old(store)@.len(),
        old(store)@.len() < 10,
        forall|i: int|
            0 <= i < old(store)@.len() ==> parts((#[trigger] old(store)@[i]).path) != parts(
                entry.path@,
            ),
    ensures
        final(store)@[0] == entry@,
        final(store)@.len() == old(store)@.len() + 1,
        final(store)@[other + 1] == old(store)@[other],
{
    lemma_remembered_stays(old(store)@, entry@);
}

/// Forgetting a path at which no backup lies changes nothing.
pub proof fn lemma_other_backups_are_not_forgotten(store: &mut RecentStore, path: &[u8])
    requires
        call_ensures(RecentStore::forget, (store, path), ()),
        forall|i: int|
            0 <= i < old(store)@.len() ==> parts((#[trigger] old(store)@[i]).path) != parts(path@),
    ensures
        final(store)@ == old(store)@,
{
    lemma_nothing_to_forget(old(store)@, path@);
}

} // verus!
