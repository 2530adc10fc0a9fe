//! Locating and measuring per-application user data.
//!
//! Flatpak gives every application a private home under `~/.var/app/<APP_ID>`
//! with three well known subdirectories: `config` (XDG_CONFIG_HOME), `data`
//! (XDG_DATA_HOME) and `cache` (XDG_CACHE_HOME). FlatBak backs up that whole
//! directory, optionally leaving `cache` out.

use vstd::prelude::*;
use vstd::utf8::*;
use crate::error::{Cancelled, Failure, FailureView};
use crate::path::{bytes_of, join, join_path, lemma_join_name, parts, Part};
use crate::text::{
    cat3, chars_of, lossy_text, rank, same_text, sorts_before,
    text_from_utf8, text_lossy, views, Rank,
};
use crate::util::{is_valid_app_id, lemma_app_id_is_plain_name, valid_app_id};

verus! {

/// Subdirectory holding regenerable data, excluded by default.
pub const CACHE_DIR: &'static str = "cache";

// ---------------------------------------------------------------- locations

/// Where per-application data lives: `over` if it is set, else below `home`.
pub open spec fn data_root_for(over: Option<Seq<u8>>, home: Option<Seq<u8>>) -> Seq<u8> {
    match over {
        Some(dir) => dir,
        None => join_path(
            match home {
                Some(dir) => dir,
                None => encode_utf8("/"@),
            },
            encode_utf8(".var/app"@),
        ),
    }
}

pub open spec fn optional_view(path: Option<Vec<u8>>) -> Option<Seq<u8>> {
    match path {
        Some(bytes) => Some(bytes@),
        None => None,
    }
}

/// Root of per-application data for the current user, given the values of
/// `FLATBAK_DATA_ROOT` and `HOME`.
pub fn data_root(over: Option<Vec<u8>>, home: Option<Vec<u8>>) -> (root: Vec<u8>)
    ensures
        root@ == data_root_for(optional_view(over), optional_view(home)),
{
    if let Some(dir) = over {
        return dir;
    }
    match home {
        Some(dir) => join(&dir, ".var/app".as_bytes()),
        None => join("/".as_bytes(), ".var/app".as_bytes()),
    }
}

/// The data directory of the application `id` below `root`.
pub open spec fn data_dir_of(root: Seq<u8>, id: Seq<char>) -> Seq<u8> {
    join_path(root, encode_utf8(id))
}

/// Data directory for one application.
pub fn data_dir(root: &[u8], app_id: &str) -> (dir: Vec<u8>)
    ensures
        dir@ == data_dir_of(root@, app_id@),
{
    join(root, app_id.as_bytes())
}

/// The data directory of an application with a valid ID lies directly below the
/// root.
pub proof fn lemma_data_dir_below_root(root: Seq<u8>, id: Seq<char>)
    requires
        valid_app_id(id),
    ensures
        parts(data_dir_of(root, id)) == parts(root).push(Part::Name(encode_utf8(id))),
{
    lemma_app_id_is_plain_name(id);
    lemma_join_name(root, encode_utf8(id));
}

// ---------------------------------------------------------------- DataInfo

/// What we know about one application's data on disk.
#[derive(Debug, PartialEq, Eq)]
pub struct DataInfo {
    /// True when `~/.var/app/<id>` exists and holds at least one file.
    pub present: bool,
    /// Total size of everything under the directory.
    pub total_bytes: u64,
    /// Size of the `cache` subdirectory alone.
    pub cache_bytes: u64,
    /// Number of regular files, symlinks included.
    pub file_count: u64,
    /// Set when the directory exists but could not be read.
    pub error: Option<String>,
}

pub struct DataInfoView {
    pub present: bool,
    pub total_bytes: u64,
    pub cache_bytes: u64,
    pub file_count: u64,
    pub error: Option<Seq<char>>,
}

pub open spec fn optional_text(text: Option<String>) -> Option<Seq<char>> {
    match text {
        Some(s) => Some(s@),
        None => None,
    }
}

impl View for DataInfo {
    type V = DataInfoView;

    open spec fn view(&self) -> DataInfoView {
        DataInfoView {
            present: self.present,
            total_bytes: self.total_bytes,
            cache_bytes: self.cache_bytes,
            file_count: self.file_count,
            error: optional_text(self.error),
        }
    }
}

/// Nothing was found.
pub open spec fn no_data() -> DataInfoView {
    DataInfoView { present: false, total_bytes: 0, cache_bytes: 0, file_count: 0, error: None }
}

impl Default for DataInfo {
    fn default() -> (out: Self)
        ensures
            out@ == no_data(),
    {
        DataInfo { present: false, total_bytes: 0, cache_bytes: 0, file_count: 0, error: None }
    }
}

impl DataInfoView {
    /// The size that would be written.
    pub open spec fn backed_up(self, exclude_caches: bool) -> nat {
        if !exclude_caches {
            self.total_bytes as nat
        } else if self.cache_bytes <= self.total_bytes {
            (self.total_bytes - self.cache_bytes) as nat
        } else {
            0
        }
    }

    pub open spec fn only_cache(self) -> bool {
        self.present && self.total_bytes > 0 && self.total_bytes == self.cache_bytes
    }
}

impl DataInfo {
    /// Size that would actually be written, honouring the cache setting.
    pub fn bytes_to_back_up(&self, exclude_caches: bool) -> (bytes: u64)
        ensures
            bytes == self@.backed_up(exclude_caches),
    {
        if exclude_caches {
            self.total_bytes.saturating_sub(self.cache_bytes)
        } else {
            self.total_bytes
        }
    }

    /// True when excluding caches would leave nothing behind.
    pub fn is_only_cache(&self) -> (yes: bool)
        ensures
            yes == self@.only_cache(),
    {
        self.present && self.total_bytes > 0 && self.total_bytes == self.cache_bytes
    }
}

impl Clone for DataInfo {
    fn clone(&self) -> (out: Self)
        ensures
            out@ == self@,
    {
        DataInfo {
            present: self.present,
            total_bytes: self.total_bytes,
            cache_bytes: self.cache_bytes,
            file_count: self.file_count,
            error: match &self.error {
                Some(text) => Some(text.clone()),
                None => None,
            },
        }
    }
}

// --------------------------------------------------------------- measuring

/// A walk through a directory that sums file sizes, recording the first read
/// error encountered.
///
/// Symlinks are counted but never followed, which keeps the total finite even if
/// application data contains a link loop.
#[derive(Debug)]
pub struct Measure {
    pending: Vec<Vec<u8>>,
    bytes: u64,
    files: u64,
    first_error: Option<String>,
}

/// What a [`Measure`] has seen and has still to see.
pub struct MeasureView {
    pub pending: Seq<Seq<u8>>,
    pub bytes: u64,
    pub files: u64,
    pub first_error: Option<Seq<char>>,
}

impl View for Measure {
    type V = MeasureView;

    closed spec fn view(&self) -> MeasureView {
        MeasureView {
            pending: views(self.pending@),
            bytes: self.bytes,
            files: self.files,
            first_error: optional_text(self.first_error),
        }
    }
}

/// The walk once a file of `len` bytes was counted.
pub open spec fn counted(state: MeasureView, len: u64) -> MeasureView {
    MeasureView {
        bytes: if state.bytes + len <= u64::MAX {
            (state.bytes + len) as u64
        } else {
            u64::MAX
        },
        files: (state.files + 1) as u64,
        ..state
    }
}

/// The walk once `path` could not be read: only the first such is kept.
pub open spec fn noted(state: MeasureView, path: Seq<u8>, message: Seq<char>) -> MeasureView {
    MeasureView {
        first_error: match state.first_error {
            Some(error) => Some(error),
            None => Some(lossy_text(path) + ": "@ + message),
        },
        ..state
    }
}

impl Measure {
    /// A walk that starts at `dir`, after `first_error` may have occurred.
    pub fn start(dir: &[u8], first_error: Option<String>) -> (out: Measure)
        ensures
            out@ == (MeasureView {
                pending: seq![dir@],
                bytes: 0,
                files: 0,
                first_error: optional_text(first_error),
            }),
    {
        let mut pending: Vec<Vec<u8>> = Vec::new();
        pending.push(bytes_of(dir));
        assert(views(pending@) =~= seq![dir@]);
        Measure { pending, bytes: 0, files: 0, first_error }
    }

    /// The next directory to read, if one is left.
    pub fn next(&mut self) -> (dir: Option<Vec<u8>>)
        ensures
            match dir {
                Some(path) => {
                    &&& old(self)@.pending.len() > 0
                    &&& path@ == old(self)@.pending.last()
                    &&& final(self)@ == (MeasureView {
                        pending: old(self)@.pending.drop_last(),
                        ..old(self)@
                    })
                },
                None => old(self)@.pending.len() == 0 && final(self)@ == old(self)@,
            },
    {
        let ghost before = self.pending@;
        let dir = self.pending.pop();
        proof {
            if before.len() > 0 {
                assert(views(self.pending@) =~= views(before).drop_last());
            } else {
                assert(views(self.pending@) =~= views(before));
            }
        }
        dir
    }

    /// Takes in that `path` could not be read.
    pub fn failed(&mut self, path: &[u8], message: &str)
        ensures
            final(self)@ == noted(old(self)@, path@, message@),
    {
        if self.first_error.is_none() {
            self.first_error = Some(cat3(&text_lossy(path), ": ", message));
        }
    }

    /// Takes in one entry of a directory: another directory, or something of
    /// `len` bytes.
    pub fn entry(&mut self, path: &[u8], is_dir: bool, len: u64)
        requires
            old(self)@.files < u64::MAX,
        ensures
            final(self)@ == if is_dir {
                MeasureView { pending: old(self)@.pending.push(path@), ..old(self)@ }
            } else {
                counted(old(self)@, len)
            },
    {
        if is_dir {
            let ghost before = self.pending@;
            self.pending.push(bytes_of(path));
            assert(views(self.pending@) =~= views(before).push(path@));
        } else {
            self.bytes = self.bytes.saturating_add(len);
            self.files = self.files + 1;
        }
    }

    /// How many files were counted so far.
    pub fn file_count(&self) -> (files: u64)
        ensures
            files == self@.files,
    {
        self.files
    }

    /// The bytes and files counted, and the first error.
    pub fn finish(self) -> (out: (u64, u64, Option<String>))
        ensures
            out.0 == self@.bytes,
            out.1 == self@.files,
            optional_text(out.2) == self@.first_error,
    {
        (self.bytes, self.files, self.first_error)
    }
}

/// One thing that a walk comes across.
pub enum Sight {
    /// Something that is not a directory, of so many bytes.
    File(u64),
    Directory(Seq<u8>),
    /// What could not be read, and why.
    Unreadable(Seq<u8>, Seq<char>),
}

/// The walk once it came across `sight`.
pub open spec fn seen(state: MeasureView, sight: Sight) -> MeasureView {
    match sight {
        Sight::File(len) => counted(state, len),
        Sight::Directory(path) => MeasureView { pending: state.pending.push(path), ..state },
        Sight::Unreadable(path, message) => noted(state, path, message),
    }
}

/// The walk once it came across all of `sights`.
pub open spec fn all_seen(state: MeasureView, sights: Seq<Sight>) -> MeasureView
    decreases sights.len(),
{
    if sights.len() == 0 {
        state
    } else {
        seen(all_seen(state, sights.drop_last()), sights.last())
    }
}

/// The sizes of the files among `sights`, in all.
pub open spec fn file_bytes(sights: Seq<Sight>) -> nat
    decreases sights.len(),
{
    if sights.len() == 0 {
        0
    } else {
        file_bytes(sights.drop_last()) + match sights.last() {
            Sight::File(len) => len as nat,
            _ => 0,
        }
    }
}

/// How many files there are among `sights`.
pub open spec fn files_among(sights: Seq<Sight>) -> nat
    decreases sights.len(),
{
    if sights.len() == 0 {
        0
    } else {
        files_among(sights.drop_last()) + match sights.last() {
            Sight::File(_) => 1nat,
            _ => 0,
        }
    }
}

/// The first complaint among `sights`.
pub open spec fn first_complaint(sights: Seq<Sight>) -> Option<Seq<char>>
    decreases sights.len(),
{
    if sights.len() == 0 {
        None
    } else {
        match first_complaint(sights.drop_last()) {
            Some(text) => Some(text),
            None => match sights.last() {
                Sight::Unreadable(path, message) => Some(lossy_text(path) + ": "@ + message),
                _ => None,
            },
        }
    }
}

/// However the files lie in directories, a walk comes to the sum of their sizes, as
/// far as it can be counted, to their number, and to the first thing that could not
/// be read.
pub proof fn lemma_walk_adds_up(start: MeasureView, sights: Seq<Sight>)
    requires
        start.bytes == 0,
        start.files == 0,
        files_among(sights) <= u64::MAX,
    ensures
        all_seen(start, sights).bytes == if file_bytes(sights) <= u64::MAX {
            file_bytes(sights)
        } else {
            u64::MAX as nat
        },
        all_seen(start, sights).files == files_among(sights),
        all_seen(start, sights).first_error == match start.first_error {
            Some(error) => Some(error),
            None => first_complaint(sights),
        },
    decreases sights.len(),
{
    if sights.len() > 0 {
        lemma_walk_adds_up(start, sights.drop_last());
    }
}

/// What was found where an application's data directory should be.
#[derive(Debug)]
pub enum Found {
    Nothing,
    /// Something that is not a directory.
    NoDirectory,
    /// A directory: its size, how many files it holds, the size of its cache if
    /// it has one, and the first read error.
    Directory {
        total_bytes: u64,
        file_count: u64,
        cache_bytes: Option<u64>,
        error: Option<String>,
    },
}

/// What a finding means.
pub open spec fn data_info_of(found: Found) -> DataInfoView {
    match found {
        Found::Nothing => no_data(),
        Found::NoDirectory => DataInfoView { error: Some("not a directory"@), ..no_data() },
        Found::Directory { total_bytes, file_count, cache_bytes, error } => DataInfoView {
            present: file_count > 0,
            total_bytes,
            cache_bytes: match cache_bytes {
                Some(bytes) => bytes,
                None => 0,
            },
            file_count,
            error: optional_text(error),
        },
    }
}

/// What is known of an application's data, from what was found on disk.
///
/// A missing directory is not an error: plenty of applications have never been
/// launched, and the caller reports that as a skipped item rather than a
/// failure. Unreadable subtrees are recorded in `error` and otherwise skipped so
/// that one bad directory cannot abort a whole backup.
pub fn inspect(found: Found) -> (info: DataInfo)
    ensures
        info@ == data_info_of(found),
{
    match found {
        Found::Nothing => DataInfo::default(),
        Found::NoDirectory => {
            let mut info = DataInfo::default();
            info.error = Some("not a directory".to_owned());
            info
        },
        Found::Directory { total_bytes, file_count, cache_bytes, error } => DataInfo {
            present: file_count > 0,
            total_bytes,
            cache_bytes: match cache_bytes {
                Some(bytes) => bytes,
                None => 0,
            },
            file_count,
            error,
        },
    }
}

// ------------------------------------------------------------------ orphans

/// One entry of the directory that holds all application data.
#[derive(Debug)]
pub struct DirEntry {
    pub name: Vec<u8>,
    pub is_dir: bool,
}

/// True for the data directory of an application that is not installed.
pub open spec fn is_orphan(entry: DirEntry, installed: Seq<Seq<char>>) -> bool {
    let name = entry.name@;
    &&& entry.is_dir
    &&& valid_utf8(name)
    &&& valid_app_id(decode_utf8(name))
    &&& !installed.contains(decode_utf8(name))
}

/// The application IDs among `entries` that are not installed, in order.
pub open spec fn orphans_in(entries: Seq<DirEntry>, installed: Seq<Seq<char>>) -> Seq<Seq<char>>
    decreases entries.len(),
{
    if entries.len() == 0 {
        Seq::empty()
    } else {
        let before = orphans_in(entries.drop_last(), installed);
        if is_orphan(entries.last(), installed) {
            before.push(decode_utf8(entries.last().name@))
        } else {
            before
        }
    }
}

/// No name comes after one that it sorts before.
pub open spec fn sorted(names: Seq<Seq<char>>) -> bool {
    forall|i: int, j: int|
        0 <= i < j < names.len() ==> !sorts_before(#[trigger] names[j], #[trigger] names[i])
}

/// True if `text` is among `list`.
pub fn contains_text(list: &Vec<String>, text: &str) -> (yes: bool)
    ensures
        yes == views(list@).contains(text@),
{
    let mut i: usize = 0;
    while i < list.len()
        invariant
            i <= list@.len(),
            forall|k: int| 0 <= k < i ==> (#[trigger] views(list@)[k]) != text@,
        decreases list.len() - i,
    {
        if same_text(&list[i], text) {
            assert(views(list@)[i as int] == text@);
            return true;
        }
        i = i + 1;
    }
    false
}

/// Application IDs that have data under `~/.var/app` but are not installed.
///
/// These come up after uninstalling an application without removing its data;
/// the backup page offers them so the data is not silently lost.
pub fn orphaned_data(entries: &Vec<DirEntry>, installed: &Vec<String>) -> (out: Vec<String>)
    ensures
        sorted(views(out@)),
        views(out@).to_multiset() == orphans_in(entries@, views(installed@)).to_multiset(),
{
    let mut out: Vec<String> = Vec::new();
    let ghost known = views(installed@);
    let mut i: usize = 0;
    proof {
        assert(entries@.take(0) =~= Seq::<DirEntry>::empty());
        assert(views(out@) =~= Seq::<Seq<char>>::empty());
    }
    while i < entries.len()
        invariant
            i <= entries@.len(),
            known == views(installed@),
            sorted(views(out@)),
            views(out@).to_multiset() == orphans_in(entries@.take(i as int), known).to_multiset(),
        decreases entries.len() - i,
    {
        let entry = &entries[i];
        proof {
            assert(entries@.take(i + 1).drop_last() =~= entries@.take(i as int));
            assert(entries@.take(i + 1).last() == *entry);
        }
        if entry.is_dir {
            if let Some(name) = text_from_utf8(bytes_of(&entry.name)) {
                proof {
                    encode_utf8_decode_utf8(name@);
                    assert(decode_utf8(entry.name@) == name@);
                }
                if is_valid_app_id(&name) && !contains_text(installed, &name) {
                    let ghost before = orphans_in(entries@.take(i as int), known);
                    insert_sorted(&mut out, name);
                    proof {
                        before.to_multiset_ensures();
                    }
                }
            }
        }
        i = i + 1;
    }
    assert(entries@.take(entries@.len() as int) =~= entries@);
    out
}

/// Puts `name` in its place among sorted names.
fn insert_sorted(out: &mut Vec<String>, name: String)
    requires
        sorted(views(old(out)@)),
    ensures
        sorted(views(final(out)@)),
        views(final(out)@).to_multiset() == views(old(out)@).to_multiset().insert(name@),
{
    let ghost before = views(out@);
    let ghost text = name@;
    let chars = chars_of(&name);
    let mut at: usize = out.len();
    while at > 0
        invariant
            at <= out@.len(),
            before == views(out@),
            sorted(before),
            chars@ == text,
            forall|k: int| at <= k < before.len() ==> sorts_before(text, #[trigger] before[k]),
        ensures
            at <= out@.len(),
            before == views(out@),
            forall|k: int| at <= k < before.len() ==> sorts_before(text, #[trigger] before[k]),
            at > 0 ==> !sorts_before(text, before[at - 1]),
        decreases at,
    {
        assert(before[at - 1] == out@[at - 1]@);
        match rank(&chars, &chars_of(&out[at - 1])) {
            Rank::Before => {
                at = at - 1;
            },
            _ => {
                break;
            },
        }
    }
    out.insert(at, name);
    proof {
        let after = views(out@);
        assert(after =~= before.insert(at as int, text));
        assert forall|i: int, j: int| 0 <= i < j < after.len() implies !sorts_before(
            #[trigger] after[j],
            #[trigger] after[i],
        ) by {
            if j == at {
                assert(after[i] == before[i]);
                if i < at - 1 {
                    lemma_not_before(text, before[at - 1], before[i]);
                }
            } else if i == at {
                assert(after[j] == before[j - 1]);
                lemma_sorts_one_way(text, before[j - 1]);
            } else {
                let x = if i < at {
                    i
                } else {
                    i - 1
                };
                let y = if j < at {
                    j
                } else {
                    j - 1
                };
                assert(after[i] == before[x] && after[j] == before[y]);
            }
        }
        let low = before.take(at as int);
        let high = before.skip(at as int);
        assert(before =~= low + high);
        assert(after =~= low.push(text) + high);
        vstd::seq_lib::lemma_multiset_commutative(low, high);
        vstd::seq_lib::lemma_multiset_commutative(low.push(text), high);
        low.to_multiset_ensures();
        assert(low.push(text).to_multiset() =~= low.to_multiset().insert(text));
        assert(after.to_multiset() =~= before.to_multiset().insert(text));
    }
}

proof fn lemma_sorts_one_way(a: Seq<char>, b: Seq<char>)
    requires
        sorts_before(a, b),
    ensures
        !sorts_before(b, a),
{
    crate::text::lemma_sorts_before_irreflexive(a);
    if sorts_before(b, a) {
        crate::text::lemma_sorts_before_transitive(a, b, a);
    }
}

proof fn lemma_not_before(a: Seq<char>, b: Seq<char>, c: Seq<char>)
    requires
        !sorts_before(a, b),
        !sorts_before(b, c),
    ensures
        !sorts_before(a, c),
{
    crate::text::lemma_sorts_before_total(b, c);
    if sorts_before(a, c) && sorts_before(c, b) {
        crate::text::lemma_sorts_before_transitive(a, c, b);
    }
}

// ------------------------------------------------------------------ removal

/// What sits where an application's data directory should be.
#[derive(Debug)]
pub enum Occupant {
    Directory,
    /// A file, a link or anything else.
    Other,
    Nothing,
    /// The system could not say, for this reason.
    Unknown(String),
}

/// How to make way for restored data.
#[derive(Debug, Clone, Copy, PartialEq, Eq, Structural)]
pub enum Removal {
    Tree,
    File,
    Nothing,
}

/// Decides how to delete an application data directory, used by the "replace"
/// conflict choice.
///
/// Kept separate from the extraction path so the destructive step is explicit
/// and easy to audit.
pub fn remove_data_dir(app_id: &str, cancelled: bool, occupant: Occupant) -> (out: Result<
    Removal,
    Failure,
>)
    ensures
        out is Ok <==> !cancelled && valid_app_id(app_id@) && occupant !is Unknown,
        out matches Ok(removal) ==> removal == match occupant {
            Occupant::Directory => Removal::Tree,
            Occupant::Other => Removal::File,
            _ => Removal::Nothing,
        },
        out matches Err(error) ==> error@ == if cancelled {
            FailureView::Cancelled
        } else if !valid_app_id(app_id@) {
            FailureView::Message("refusing to remove data for an invalid application ID"@)
        } else {
            FailureView::Message(occupant->Unknown_0@)
        },
{
    if cancelled {
        return Err(Failure::Cancelled(Cancelled));
    }
    if !is_valid_app_id(app_id) {
        return Err(
            Failure::Message("refusing to remove data for an invalid application ID".to_owned()),
        );
    }
    match occupant {
        Occupant::Directory => Ok(Removal::Tree),
        Occupant::Other => Ok(Removal::File),
        Occupant::Nothing => Ok(Removal::Nothing),
        Occupant::Unknown(message) => Err(Failure::Message(message)),
    }
}

// --------------------------------------------------------------------- laws

/// What a walk finds adds up: each file counts once and with its size, directories and
/// what cannot be read count for nothing, and the parts of a walk add up to the whole.
pub proof fn lemma_files_add_up(a: Seq<Sight>, b: Seq<Sight>, sight: Sight)
    ensures
        file_bytes(a + b) == file_bytes(a) + file_bytes(b),
        files_among(a + b) == files_among(a) + files_among(b),
        sight matches Sight::File(len) ==> file_bytes(seq![sight]) == len && files_among(
            seq![sight],
        ) == 1,
        !(sight is File) ==> file_bytes(seq![sight]) == 0 && files_among(seq![sight]) == 0,
    decreases b.len(),
{
    let one = seq![sight];
    assert(one.drop_last() =~= Seq::<Sight>::empty());
    assert(file_bytes(one.drop_last()) == 0 && files_among(one.drop_last()) == 0);
    assert(one.last() == sight);
    if b.len() == 0 {
        assert(a + b =~= a);
    } else {
        lemma_files_add_up(a, b.drop_last(), sight);
        assert((a + b).drop_last() =~= a + b.drop_last());
        assert((a + b).last() == b.last());
    }
}

/// It is the first thing that could not be read that is told, with its path.
pub proof fn lemma_first_complaint_is_told(sights: Seq<Sight>, k: int)
    requires
        0 <= k < sights.len(),
        sights[k] is Unreadable,
        forall|i: int| 0 <= i < k ==> !(#[trigger] sights[i] is Unreadable),
    ensures
        first_complaint(sights) == Some(
            lossy_text(sights[k]->Unreadable_0) + ": "@ + sights[k]->Unreadable_1,
        ),
    decreases sights.len(),
{
    let less = sights.drop_last();
    if k < less.len() {
        assert forall|i: int| 0 <= i < k implies !(#[trigger] less[i] is Unreadable) by {
            assert(less[i] == sights[i]);
        }
        assert(less[k] == sights[k]);
        lemma_first_complaint_is_told(less, k);
    } else {
        assert forall|i: int| 0 <= i < less.len() implies !(#[trigger] less[i] is Unreadable) by {
            assert(less[i] == sights[i]);
        }
        lemma_no_complaint(less);
        assert(sights.last() == sights[k]);
    }
}

/// Where everything could be read, nothing is complained of.
pub proof fn lemma_no_complaint(sights: Seq<Sight>)
    requires
        forall|i: int| 0 <= i < sights.len() ==> !(#[trigger] sights[i] is Unreadable),
    ensures
        first_complaint(sights) is None,
    decreases sights.len(),
{
    if sights.len() > 0 {
        let less = sights.drop_last();
        assert forall|i: int| 0 <= i < less.len() implies !(#[trigger] less[i] is Unreadable) by {
            assert(less[i] == sights[i]);
        }
        lemma_no_complaint(less);
        assert(!(sights[sights.len() - 1] is Unreadable));
    }
}

/// There is data where a directory holds at least one file, and only there. Its size
/// and the number of its files are those that were found, and so is the size of its
/// cache; without a cache that is nothing.
pub proof fn lemma_data_is_what_was_found(found: Found)
    ensures
        ({
            let info = data_info_of(found);
            &&& info.present <==> found is Directory && found->file_count > 0
            &&& found matches Found::Directory { total_bytes, file_count, cache_bytes, error } ==> {
                &&& info.total_bytes == total_bytes
                &&& info.file_count == file_count
                &&& cache_bytes matches Some(bytes) ==> info.cache_bytes == bytes
                &&& cache_bytes is None ==> info.cache_bytes == 0
                &&& error matches Some(message) ==> info.error == Some(message@)
                &&& error is None ==> info.error is None
            }
            &&& !(found is Directory) ==> info.total_bytes == 0 && info.file_count == 0
                && info.cache_bytes == 0
            &&& found is Nothing ==> info.error is None
            &&& found is NoDirectory ==> info.error == Some("not a directory"@)
        }),
{
}

/// Leaving the cache out saves just what the cache takes; keeping it, all is backed up.
/// There is nothing but cache where that leaves nothing.
pub proof fn lemma_leaving_caches_out(info: DataInfoView)
    requires
        info.cache_bytes <= info.total_bytes,
    ensures
        info.backed_up(false) == info.total_bytes,
        info.backed_up(true) + info.cache_bytes == info.total_bytes,
        info.only_cache() <==> info.present && info.backed_up(true) == 0 && info.backed_up(false)
            > 0,
{
}

/// Data is orphaned if it lies in a directory that is named like an application which
/// is not installed, and only then.
pub proof fn lemma_orphans_belong_to_no_application(
    entries: Seq<DirEntry>,
    installed: Seq<Seq<char>>,
    id: Seq<char>,
)
    ensures
        orphans_in(entries, installed).contains(id) <==> valid_app_id(id) && !installed.contains(id)
            && exists|i: int|
            0 <= i < entries.len() && (#[trigger] entries[i]).is_dir && entries[i].name@
                == encode_utf8(id),
        orphans_in(entries, installed).len() <= entries.len(),
    decreases entries.len(),
{
    let all = orphans_in(entries, installed);
    if entries.len() > 0 {
        let less = entries.drop_last();
        let last = entries[entries.len() - 1];
        assert(last == entries.last());
        let before = orphans_in(less, installed);
        lemma_orphans_belong_to_no_application(less, installed, id);
        let name = last.name@;
        if valid_utf8(name) {
            decode_utf8_encode_utf8(name);
        }
        encode_utf8_decode_utf8(id);
        encode_utf8_valid_utf8(id);
        if all.contains(id) {
            let n = choose|n: int| 0 <= n < all.len() && all[n] == id;
            if n < before.len() {
                assert(before[n] == id);
                assert(before.contains(id));
                let i = choose|i: int|
                    0 <= i < less.len() && (#[trigger] less[i]).is_dir && less[i].name@
                        == encode_utf8(id);
                assert(entries[i] == less[i]);
            } else {
                assert(entries[entries.len() - 1].is_dir);
            }
        }
        if valid_app_id(id) && !installed.contains(id) && exists|i: int|
            0 <= i < entries.len() && (#[trigger] entries[i]).is_dir && entries[i].name@
                == encode_utf8(id) {
            let i = choose|i: int|
                0 <= i < entries.len() && (#[trigger] entries[i]).is_dir && entries[i].name@
                    == encode_utf8(id);
            if i < less.len() {
                assert(less[i] == entries[i]);
                assert(before.contains(id));
                let n = choose|n: int| 0 <= n < before.len() && before[n] == id;
                assert(all[n] == id);
            } else {
                assert(is_orphan(last, installed));
                assert(all[before.len() as int] == id);
            }
        }
    }
}

/// Data lies where it is said to lie, if anything is said, and else below the home
/// directory.
pub proof fn lemma_where_data_lies(dir: Seq<u8>, home: Option<Seq<u8>>)
    ensures
        data_root_for(Some(dir), home) == dir,
        data_root_for(None, Some(dir)) == join_path(dir, encode_utf8(".var/app"@)),
        data_root_for(None, None) == data_root_for(None, Some(encode_utf8("/"@))),
{
}

/// What is sorted never comes after what it sorts before.
pub proof fn lemma_sorted_names(names: Seq<Seq<char>>, i: int, j: int)
    requires
        sorted(names),
        0 <= i < j < names.len(),
    ensures
        names[i] == names[j] || sorts_before(names[i], names[j]),
{
    crate::text::lemma_sorts_before_total(names[i], names[j]);
}

/// Data is removed only of a valid application and only while the work goes on, and what
/// is removed is what is there: a directory with all it holds, anything else by itself.
pub proof fn lemma_what_is_removed(
    app_id: &str,
    cancelled: bool,
    occupant: Occupant,
    out: Result<Removal, Failure>,
)
    requires
        call_ensures(remove_data_dir, (app_id, cancelled, occupant), out),
    ensures
        cancelled || !valid_app_id(app_id@) ==> out is Err,
        !cancelled && valid_app_id(app_id@) && occupant is Directory ==> out == Ok::<
            Removal,
            Failure,
        >(Removal::Tree),
        !cancelled && valid_app_id(app_id@) && occupant is Other ==> out == Ok::<Removal, Failure>(
            Removal::File,
        ),
        out matches Ok(Removal::Tree) ==> occupant is Directory,
        out matches Ok(Removal::File) ==> occupant is Other,
{
}

/// What [`orphaned_data`] lists are the IDs of just those directories that belong to no
/// application that is installed, in order.
pub proof fn lemma_orphans_are_listed(
    entries: &Vec<DirEntry>,
    installed: &Vec<String>,
    out: Vec<String>,
    id: Seq<char>,
)
    requires
        call_ensures(orphaned_data, (entries, installed), out),
    ensures
        views(out@).contains(id) <==> valid_app_id(id) && !views(installed@).contains(id)
            && exists|i: int|
            0 <= i < entries@.len() && (#[trigger] entries@[i]).is_dir && entries@[i].name@
                == encode_utf8(id),
        forall|i: int, j: int|
            0 <= i < j < out@.len() ==> !sorts_before(
                (#[trigger] out@[j])@,
                (#[trigger] out@[i])@,
            ),
{
    let listed = views(out@);
    let orphans = orphans_in(entries@, views(installed@));
    listed.to_multiset_ensures();
    orphans.to_multiset_ensures();
    assert(listed.contains(id) <==> listed.to_multiset().count(id) > 0);
    assert(orphans.contains(id) <==> orphans.to_multiset().count(id) > 0);
    lemma_orphans_belong_to_no_application(entries@, views(installed@), id);
    assert forall|i: int, j: int| 0 <= i < j < out@.len() implies !sorts_before(
        (#[trigger] out@[j])@,
        (#[trigger] out@[i])@,
    ) by {
        assert(listed[i] == out@[i]@ && listed[j] == out@[j]@);
    }
}

/// Each entry that a walk comes across is counted with its size, or waits to be read if
/// it is a directory.
pub proof fn lemma_entries_are_measured(measure: &mut Measure, path: &[u8], is_dir: bool, len: u64)
    requires
        call_ensures(Measure::entry, (measure, path, is_dir, len), ()),
        old(measure)@.files < u64::MAX,
    ensures
        is_dir ==> {
            &&& final(measure)@.pending == old(measure)@.pending.push(path@)
            &&& final(measure)@.bytes == old(measure)@.bytes
            &&& final(measure)@.files == old(measure)@.files
        },
        !is_dir ==> {
            &&& final(measure)@.pending == old(measure)@.pending
            &&& final(measure)@.files == old(measure)@.files + 1
            &&& old(measure)@.bytes + len <= u64::MAX ==> final(measure)@.bytes == old(
                measure,
            )@.bytes + len
        },
{
}

} // verus!
