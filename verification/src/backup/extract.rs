//! Extracting application data: which entry of the payload goes where, and which
//! are refused.

use vstd::prelude::*;
use vstd::utf8::*;
use crate::appdata::{contains_text, data_dir, data_dir_of, Occupant, Removal};
use crate::backup::confine::{
    admissible, apart, disturbs, follow, land, landing, leads_through_link, lemma_landing,
    lemma_lands_by_name, lemma_links_after, lemma_settled_links_stay_inside, link_away,
    links_after, may_link, may_write, note_link, note_plain, settled, takes_link_away,
    through_link, Link, LinkView,
};
use crate::backup::manifest::{AppEntry, AppEntryView};
use crate::backup::reader::{RestoreProgress, RestoreProgressView};
use crate::error::{Cancelled, Failure, FailureView, Issue, IssueView};
use crate::path::{
    bytes_of, components, is_plain_name, join, join_all, join_path, lemma_join_all,
    lemma_join_name, lemma_parts_canonical, lemma_plain_name_parts,
    name_parts, parts, Component, Part,
};
use crate::text::{
    cat2, cat3, lossy_text, same_bytes, same_text, text_from_utf8,
    text_lossy, views,
};
use crate::util::{
    depth_of, first_fault, is_valid_app_id, joined_safely, lemma_app_id_is_plain_name,
    lemma_safe_join_stays_below, names_in, parent_depth, path_error_text, safe_join,
    symlink_target_is_contained, target_contained, valid_app_id, PathError,
};

verus! {

// ------------------------------------------------------------ payload paths

/// The name of the directory that holds all data in a payload.
pub open spec fn data_dir_name() -> Seq<u8> {
    encode_utf8(crate::backup::PAYLOAD_DATA_DIR@)
}

pub open spec fn all_names(ps: Seq<Part>) -> bool {
    forall|i: int| 0 <= i < ps.len() ==> #[trigger] ps[i] is Name
}

/// The application ID and the names below its data directory that the components
/// of a payload path stand for: `data`, a valid ID, and nothing but names.
pub open spec fn payload_split(ps: Seq<Part>) -> Option<(Seq<char>, Seq<Seq<u8>>)> {
    if ps.len() < 2 || ps[0] != Part::Name(data_dir_name()) {
        None
    } else {
        match ps[1] {
            Part::Name(name) => if valid_utf8(name) && valid_app_id(decode_utf8(name))
                && all_names(ps.skip(2)) {
                Some((decode_utf8(name), names_in(ps.skip(2))))
            } else {
                None
            },
            _ => None,
        }
    }
}

/// The path that `names` make.
pub open spec fn relative_path(names: Seq<Seq<u8>>) -> Seq<u8> {
    join_all(Seq::empty(), names)
}

proof fn lemma_names_in_push(ps: Seq<Part>, n: int)
    requires
        0 <= n < ps.len(),
        ps[n] is Name,
    ensures
        names_in(ps.take(n + 1)) == names_in(ps.take(n)).push(ps[n]->Name_0),
{
    assert(ps.take(n + 1).drop_last() =~= ps.take(n));
}

/// Splits `data/<app-id>/<rest>` into its application ID and remainder.
///
/// Returns `None` for anything that is not shaped like a payload path, which
/// covers absolute paths, traversal attempts and unexpected top-level names.
pub fn split_payload_path(path: &[u8]) -> (out: Option<(String, Vec<u8>)>)
    ensures
        match out {
            Some((id, relative)) => {
                &&& payload_split(parts(path@)) is Some
                &&& payload_split(parts(path@))->Some_0.0 == id@
                &&& relative@ == relative_path(payload_split(parts(path@))->Some_0.1)
            },
            None => payload_split(parts(path@)) is None,
        },
{
    let all = components(path);
    let ghost ps = parts(path@);
    assert(ps.len() == all@.len());
    assert(forall|i: int| 0 <= i < ps.len() ==> #[trigger] ps[i] == all@[i]@);
    if all.len() < 2 {
        return None;
    }
    match &all[0] {
        Component::Normal(name) => {
            if !same_bytes(name, crate::backup::PAYLOAD_DATA_DIR.as_bytes()) {
                return None;
            }
        },
        _ => {
            return None;
        },
    }
    let app_id = match &all[1] {
        Component::Normal(name) => match text_from_utf8(bytes_of(name)) {
            Some(text) => {
                proof {
                    encode_utf8_decode_utf8(text@);
                }
                text
            },
            None => {
                return None;
            },
        },
        _ => {
            return None;
        },
    };
    if !is_valid_app_id(&app_id) {
        return None;
    }
    let ghost rest = ps.skip(2);
    let mut relative: Vec<u8> = Vec::new();
    let mut i: usize = 2;
    proof {
        assert(rest.take(0) =~= Seq::<Part>::empty());
        assert(relative@ =~= relative_path(names_in(rest.take(0))));
    }
    while i < all.len()
        invariant
            2 <= i <= all@.len(),
            ps == parts(path@),
            ps.len() == all@.len(),
            forall|i: int| 0 <= i < ps.len() ==> #[trigger] ps[i] == all@[i]@,
            rest == ps.skip(2),
            ps[0] == Part::Name(data_dir_name()),
            ps[1] is Name,
            forall|k: int| 0 <= k < i - 2 ==> #[trigger] rest[k] is Name,
            relative@ == relative_path(names_in(rest.take(i - 2))),
        decreases all.len() - i,
    {
        assert(rest[i - 2] == all@[i as int]@);
        match &all[i] {
            Component::Normal(name) => {
                relative = join(&relative, name);
                proof {
                    lemma_names_in_push(rest, i - 2);
                    let names = names_in(rest.take(i - 1));
                    assert(names.drop_last() =~= names_in(rest.take(i - 2)));
                }
            },
            _ => {
                assert(!all_names(rest));
                return None;
            },
        }
        i = i + 1;
    }
    assert(rest.take(rest.len() as int) =~= rest);
    Some((app_id, relative))
}

proof fn lemma_names_in_name_parts(names: Seq<Seq<u8>>)
    ensures
        names_in(name_parts(names)) == names,
        all_names(name_parts(names)),
    decreases names.len(),
{
    if names.len() > 0 {
        lemma_names_in_name_parts(names.drop_last());
        assert(name_parts(names).drop_last() =~= name_parts(names.drop_last()));
        assert(names.drop_last().push(names.last()) =~= names);
    } else {
        assert(names_in(name_parts(names)) =~= names);
    }
}

/// Where the entry `names` of the application `id` stands in a payload.
pub open spec fn payload_path(id: Seq<char>, names: Seq<Seq<u8>>) -> Seq<u8> {
    join_all(join_path(data_dir_name(), encode_utf8(id)), names)
}

/// Splitting the path that an entry was stored under gives the entry back.
pub proof fn lemma_payload_path_splits(id: Seq<char>, names: Seq<Seq<u8>>)
    requires
        valid_app_id(id),
        forall|i: int| 0 <= i < names.len() ==> is_plain_name(#[trigger] names[i]),
    ensures
        payload_split(parts(payload_path(id, names))) == Some((id, names)),
{
    lemma_data_dir_name();
    lemma_app_id_is_plain_name(id);
    let prefix = join_path(data_dir_name(), encode_utf8(id));
    lemma_plain_name_parts(data_dir_name());
    lemma_join_name(data_dir_name(), encode_utf8(id));
    lemma_join_all(prefix, names);
    let ps = parts(payload_path(id, names));
    assert(ps =~= seq![Part::Name(data_dir_name()), Part::Name(encode_utf8(id))] + name_parts(
        names,
    ));
    assert(ps.skip(2) =~= name_parts(names));
    lemma_names_in_name_parts(names);
    encode_utf8_decode_utf8(id);
    encode_utf8_valid_utf8(id);
}

pub proof fn lemma_data_dir_name()
    ensures
        is_plain_name(data_dir_name()),
{
    reveal_strlit("data");
    let text = "data"@;
    assert(is_ascii_chars(text));
    is_ascii_chars_encode_utf8(text);
    let name = data_dir_name();
    assert forall|i: int| 0 <= i < name.len() implies name[i] != crate::path::SLASH by {
        assert(text[i] as u8 == name[i]);
    }
    assert(name.len() == 4);
    assert(crate::path::one_dot().len() == 1);
    assert(crate::path::two_dots().len() == 2);
}

/// The components of a path made of plain names are those names.
pub proof fn lemma_relative_path(names: Seq<Seq<u8>>)
    requires
        forall|i: int| 0 <= i < names.len() ==> is_plain_name(#[trigger] names[i]),
    ensures
        parts(relative_path(names)) == name_parts(names),
        names_in(parts(relative_path(names))) == names,
{
    lemma_join_all(Seq::empty(), names);
    assert(parts(Seq::<u8>::empty()) =~= Seq::<Part>::empty());
    assert(parts(relative_path(names)) =~= name_parts(names));
    lemma_names_in_name_parts(names);
}

/// The names in a payload path are plain.
pub proof fn lemma_payload_names_plain(path: Seq<u8>)
    requires
        payload_split(parts(path)) is Some,
    ensures
        ({
            let (id, names) = payload_split(parts(path))->0;
            &&& valid_app_id(id)
            &&& forall|i: int| 0 <= i < names.len() ==> is_plain_name(#[trigger] names[i])
        }),
{
    lemma_parts_canonical(path);
    let ps = parts(path);
    let rest = ps.skip(2);
    assert forall|i: int| #![trigger rest[i]] 0 <= i < rest.len() implies (rest[i] matches
        Part::Name(name) ==> is_plain_name(name)) by {
        assert(rest[i] == ps[i + 2]);
    }
    crate::util::lemma_names_plain(rest);
}

// --------------------------------------------------------------- extraction

/// What to do with one entry of the payload.
#[derive(Debug)]
pub enum EntryAction {
    /// Leave it, but keep reading so the stream stays in step and the whole
    /// payload is consumed.
    Skip,
    /// Write it to `destination`. `relative` is its path within the application's
    /// own data directory.
    Unpack { app_id: String, relative: Vec<u8>, destination: Vec<u8> },
}

pub enum EntryActionView {
    Skip,
    Unpack { app_id: Seq<char>, relative: Seq<u8>, destination: Seq<u8> },
}

impl View for EntryAction {
    type V = EntryActionView;

    open spec fn view(&self) -> EntryActionView {
        match self {
            EntryAction::Skip => EntryActionView::Skip,
            EntryAction::Unpack { app_id, relative, destination } => EntryActionView::Unpack {
                app_id: app_id@,
                relative: relative@,
                destination: destination@,
            },
        }
    }
}

/// The payload being extracted: which applications are wanted, and what came of
/// the entries seen so far.
#[derive(Debug)]
pub struct Extraction {
    wanted: Vec<String>,
    total_bytes: u64,
    root: Vec<u8>,
    done_bytes: u64,
    current: String,
    restored: Vec<String>,
    issues: Vec<Issue>,
    links: Vec<Link>,
    unsure: Vec<String>,
    pending: Pending,
}

/// How far the entry at hand has got.
#[derive(Debug)]
enum Pending {
    Nothing,
    Entry { app_id: String, names: Vec<Vec<u8>>, depth: usize },
    /// A directory or file is being written.
    Plain { app_id: String, names: Vec<Vec<u8>> },
    /// A link is being written.
    Link(Link),
}

pub enum PendingView {
    /// No entry is being unpacked.
    Nothing,
    /// An entry of the application `id` is to be unpacked. The file system puts it at
    /// `names`; its own path has `depth` names above the last one.
    Entry { id: Seq<char>, names: Seq<Seq<u8>>, depth: nat },
    /// It is being written: a link if it has a target, else a directory or file.
    Writing { id: Seq<char>, names: Seq<Seq<u8>>, target: Option<Seq<u8>> },
}

impl View for Pending {
    type V = PendingView;

    closed spec fn view(&self) -> PendingView {
        match self {
            Pending::Nothing => PendingView::Nothing,
            Pending::Entry { app_id, names, depth } => PendingView::Entry {
                id: app_id@,
                names: views(names@),
                depth: *depth as nat,
            },
            Pending::Plain { app_id, names } => PendingView::Writing {
                id: app_id@,
                names: views(names@),
                target: None,
            },
            Pending::Link(link) => PendingView::Writing {
                id: link@.id,
                names: link@.names,
                target: Some(link@.target),
            },
        }
    }
}

pub struct ExtractionView {
    pub wanted: Seq<Seq<char>>,
    pub total_bytes: u64,
    pub root: Seq<u8>,
    pub done_bytes: u64,
    /// The application whose data was met last.
    pub current: Seq<char>,
    /// Every application whose data was met.
    pub restored: Seq<Seq<char>>,
    pub issues: Seq<IssueView>,
    /// Every link that was written and is still there.
    pub links: Seq<LinkView>,
    /// The applications of which a link may be gone, because something could not be
    /// written in its place.
    pub unsure: Seq<Seq<char>>,
    pub pending: PendingView,
}

impl View for Extraction {
    type V = ExtractionView;

    closed spec fn view(&self) -> ExtractionView {
        ExtractionView {
            wanted: views(self.wanted@),
            total_bytes: self.total_bytes,
            root: self.root@,
            done_bytes: self.done_bytes,
            current: self.current@,
            restored: views(self.restored@),
            issues: views(self.issues@),
            links: views(self.links@),
            unsure: views(self.unsure@),
            pending: self.pending@,
        }
    }
}

/// The IDs of those of `apps` that `wanted` point at.
pub open spec fn wanted_ids(apps: Seq<AppEntryView>, wanted: Seq<usize>) -> Seq<Seq<char>>
    decreases wanted.len(),
{
    if wanted.len() == 0 {
        Seq::empty()
    } else {
        let before = wanted_ids(apps, wanted.drop_last());
        if wanted.last() < apps.len() {
            before.push(apps[wanted.last() as int].id)
        } else {
            before
        }
    }
}

/// How many bytes of data those of `apps` claim that `wanted` point at.
pub open spec fn wanted_bytes(apps: Seq<AppEntryView>, wanted: Seq<usize>) -> nat
    decreases wanted.len(),
{
    if wanted.len() == 0 {
        0
    } else {
        wanted_bytes(apps, wanted.drop_last()) + if wanted.last() < apps.len() {
            apps[wanted.last() as int].data_bytes as nat
        } else {
            0
        }
    }
}

proof fn lemma_wanted_bytes_grow(apps: Seq<AppEntryView>, wanted: Seq<usize>, n: int)
    requires
        0 <= n <= wanted.len(),
    ensures
        wanted_bytes(apps, wanted.take(n)) <= wanted_bytes(apps, wanted),
    decreases wanted.len(),
{
    if n == wanted.len() {
        assert(wanted.take(n) =~= wanted);
    } else {
        assert(wanted.drop_last().take(n) =~= wanted.take(n));
        lemma_wanted_bytes_grow(apps, wanted.drop_last(), n);
    }
}

/// Every application that is pointed at is wanted, however many there are, and no
/// other is.
pub proof fn lemma_all_wanted_are_extracted(apps: Seq<AppEntryView>, wanted: Seq<usize>)
    ensures
        forall|k: int|
            0 <= k < wanted.len() && wanted[k] < apps.len() ==> wanted_ids(apps, wanted).contains(
                (#[trigger] apps[wanted[k] as int]).id,
            ),
        forall|id: Seq<char>| #[trigger]
            wanted_ids(apps, wanted).contains(id) ==> exists|k: int|
                0 <= k < wanted.len() && #[trigger] wanted[k] < apps.len()
                    && apps[wanted[k] as int].id == id,
    decreases wanted.len(),
{
    let ids = wanted_ids(apps, wanted);
    if wanted.len() > 0 {
        let less = wanted.drop_last();
        let before = wanted_ids(apps, less);
        let last = wanted.last();
        lemma_all_wanted_are_extracted(apps, less);
        assert forall|k: int| 0 <= k < wanted.len() && wanted[k] < apps.len() implies ids.contains(
            (#[trigger] apps[wanted[k] as int]).id,
        ) by {
            if k < less.len() {
                assert(less[k] == wanted[k]);
                let id = apps[wanted[k] as int].id;
                let i = choose|i: int| 0 <= i < before.len() && before[i] == id;
                assert(ids[i] == id);
            } else {
                assert(ids[before.len() as int] == apps[last as int].id);
            }
        }
        assert forall|id: Seq<char>| #[trigger] ids.contains(id) implies exists|k: int|
            0 <= k < wanted.len() && #[trigger] wanted[k] < apps.len()
                && apps[wanted[k] as int].id == id by {
            let i = choose|i: int| 0 <= i < ids.len() && ids[i] == id;
            if i < before.len() {
                assert(before[i] == id);
                assert(before.contains(id));
                let k = choose|k: int|
                    0 <= k < less.len() && #[trigger] less[k] < apps.len()
                        && apps[less[k] as int].id == id;
                assert(wanted[k] == less[k]);
            } else {
                assert(wanted[wanted.len() - 1] == last);
            }
        }
    }
}

/// The bytes that are wanted add up: those of one application are what it claims,
/// and those of two lists are the sum.
pub proof fn lemma_wanted_bytes_add_up(
    apps: Seq<AppEntryView>,
    a: Seq<usize>,
    b: Seq<usize>,
    app: usize,
)
    ensures
        wanted_bytes(apps, a + b) == wanted_bytes(apps, a) + wanted_bytes(apps, b),
        wanted_bytes(apps, seq![app]) == if app < apps.len() {
            apps[app as int].data_bytes as int
        } else {
            0
        },
    decreases b.len(),
{
    assert(seq![app].drop_last() =~= Seq::<usize>::empty());
    assert(wanted_bytes(apps, seq![app].drop_last()) == 0);
    assert(seq![app].last() == app);
    if b.len() == 0 {
        assert(a + b =~= a);
    } else {
        lemma_wanted_bytes_add_up(apps, a, b.drop_last(), app);
        assert((a + b).drop_last() =~= a + b.drop_last());
        assert((a + b).last() == b.last());
    }
}

/// An entry that is left out for a reason.
pub open spec fn refused(state: ExtractionView, path: Seq<char>, reason: Seq<char>) -> ExtractionView {
    ExtractionView { issues: state.issues.push(IssueView::UnsafeEntry { path, reason }), ..state }
}

/// The state once data of `id` was met.
pub open spec fn met(state: ExtractionView, id: Seq<char>) -> ExtractionView {
    if state.current == id {
        state
    } else {
        ExtractionView { current: id, restored: state.restored.push(id), ..state }
    }
}

/// Where an entry of the application `id` goes: its data directory itself, or
/// below it.
pub open spec fn destination_of(root: Seq<u8>, id: Seq<char>, names: Seq<Seq<u8>>) -> Result<
    Seq<u8>,
    PathError,
> {
    if names.len() == 0 {
        Ok(data_dir_of(root, id))
    } else {
        joined_safely(data_dir_of(root, id), relative_path(names))
    }
}

/// Where the file system puts the entry `names` of the application `id`, if that is
/// known: not where a link on the way may be gone.
pub open spec fn known_landing(state: ExtractionView, id: Seq<char>, names: Seq<Seq<u8>>) -> Option<
    Seq<Seq<u8>>,
> {
    if state.unsure.contains(id) && through_link(state.links, id, names) {
        None
    } else {
        landing(state.links, id, names)
    }
}

/// What the next entry leads to: `path` is where the archive says it belongs, or
/// why that cannot be read. Where its path leads through links that were written,
/// it goes to where they lead.
pub open spec fn entry_outcome(before: ExtractionView, path: Result<Seq<u8>, Seq<char>>) -> (
    ExtractionView,
    EntryActionView,
) {
    let state = ExtractionView { pending: PendingView::Nothing, ..before };
    match path {
        Err(reason) => (refused(state, "<unreadable>"@, reason), EntryActionView::Skip),
        Ok(raw) => match payload_split(parts(raw)) {
            None => (
                refused(state, lossy_text(raw), "not a recognised application data path"@),
                EntryActionView::Skip,
            ),
            Some((id, names)) => if !state.wanted.contains(id) {
                (state, EntryActionView::Skip)
            } else {
                match destination_of(state.root, id, names) {
                    Ok(destination) => match known_landing(state, id, names) {
                        None => (
                            refused(met(state, id), lossy_text(raw), LEADS_NOWHERE@),
                            EntryActionView::Skip,
                        ),
                        Some(place) => (
                            ExtractionView {
                                pending: PendingView::Entry {
                                    id,
                                    names: place,
                                    depth: depth_below(names),
                                },
                                ..met(state, id)
                            },
                            EntryActionView::Unpack {
                                app_id: id,
                                relative: relative_path(names),
                                destination,
                            },
                        ),
                    },
                    Err(error) => (
                        refused(met(state, id), lossy_text(raw), path_error_text(error)),
                        EntryActionView::Skip,
                    ),
                }
            },
        },
    }
}

/// Why an entry is refused whose path leads through links to no known place.
pub const LEADS_NOWHERE: &'static str = "archive entry path leads through symlinks to nowhere";

/// Why a link is refused that leads outside.
pub const POINTS_OUTSIDE: &'static str = "symlink points outside the application's data directory";

/// How the entry at hand is written, or why it is not.
pub open spec fn unpack_outcome(state: ExtractionView, kind: EntryKindView) -> (
    ExtractionView,
    Result<UnpackView, Seq<char>>,
) {
    let nothing = ExtractionView { pending: PendingView::Nothing, ..state };
    match state.pending {
        PendingView::Entry { id, names, depth } => match unpack_below(kind, depth) {
            Ok(unpack) => {
                let target = link_target(unpack);
                if admissible(state.links, id, names, target) {
                    (
                        ExtractionView {
                            pending: PendingView::Writing { id, names, target },
                            ..state
                        },
                        Ok(unpack),
                    )
                } else {
                    (nothing, Err(POINTS_OUTSIDE@))
                }
            },
            Err(message) => (nothing, Err(message)),
        },
        _ => (nothing, Err(Seq::empty())),
    }
}

/// The state once the entry at hand was written.
pub open spec fn written(state: ExtractionView) -> ExtractionView {
    ExtractionView {
        links: match state.pending {
            PendingView::Writing { id, names, target } => links_after(
                state.links,
                id,
                names,
                target,
            ),
            _ => state.links,
        },
        pending: PendingView::Nothing,
        ..state
    }
}

/// The state once the entry at hand could not be written. A link that it was to
/// replace may be gone all the same.
pub open spec fn unwritten(state: ExtractionView) -> ExtractionView {
    ExtractionView {
        unsure: match state.pending {
            PendingView::Writing { id, names, target } => if disturbs(
                state.links,
                id,
                names,
                target is Some,
            ) {
                state.unsure.push(id)
            } else {
                state.unsure
            },
            _ => state.unsure,
        },
        pending: PendingView::Nothing,
        ..state
    }
}

/// The state once unpacking the entry `raw_path` of the application `app_id` came to
/// `outcome`: the size of a file that was written, or why it failed.
pub open spec fn after_unpacking(
    state: ExtractionView,
    app_id: Seq<char>,
    raw_path: Seq<u8>,
    outcome: Result<Option<u64>, Seq<char>>,
) -> ExtractionView {
    match outcome {
        Err(message) => ExtractionView {
            issues: state.issues.push(
                IssueView::DataRestoreFailed {
                    app: app_id,
                    message: lossy_text(raw_path) + ": "@ + message,
                },
            ),
            ..unwritten(state)
        },
        Ok(None) => written(state),
        Ok(Some(size)) => ExtractionView {
            done_bytes: if state.done_bytes + size <= u64::MAX {
                (state.done_bytes + size) as u64
            } else {
                u64::MAX
            },
            ..written(state)
        },
    }
}

/// The names in a path.
fn names_of(path: &[u8]) -> (out: Vec<Vec<u8>>)
    ensures
        views(out@) == names_in(parts(path@)),
{
    let all = components(path);
    let ghost ps = parts(path@);
    let mut out: Vec<Vec<u8>> = Vec::new();
    let mut i: usize = 0;
    assert(ps.take(0) =~= Seq::<Part>::empty());
    assert(views(out@) =~= names_in(ps.take(0)));
    while i < all.len()
        invariant
            i <= all@.len(),
            views(all@) == ps,
            views(out@) == names_in(ps.take(i as int)),
        decreases all.len() - i,
    {
        assert(ps.take(i + 1).drop_last() =~= ps.take(i as int));
        assert(ps.take(i + 1).last() == all@[i as int]@);
        if let Component::Normal(name) = &all[i] {
            let ghost before = views(out@);
            out.push(name.clone());
            assert(views(out@) =~= before.push(name@));
        }
        i = i + 1;
    }
    assert(ps.take(ps.len() as int) =~= ps);
    out
}

impl Extraction {
    /// Prepares to extract the data of those of `apps` that `wanted` point at,
    /// below `root`; `None` if the archive claims more bytes than can be counted.
    pub fn start(apps: &Vec<AppEntry>, wanted: &Vec<usize>, root: &[u8]) -> (out: Option<Extraction>)
        ensures
            out is Some <==> wanted_bytes(views(apps@), wanted@) <= u64::MAX,
            out matches Some(extraction) ==> forall|k: int|
                0 <= k < wanted@.len() && wanted@[k] < apps@.len()
                    ==> extraction@.wanted.contains((#[trigger] apps@[wanted@[k] as int])@.id),
            out matches Some(extraction) ==> forall|id: Seq<char>| #[trigger]
                extraction@.wanted.contains(id) ==> exists|k: int|
                    0 <= k < wanted@.len() && #[trigger] wanted@[k] < apps@.len()
                        && apps@[wanted@[k] as int]@.id == id,
            out matches Some(extraction) ==> extraction@ == (ExtractionView {
                wanted: wanted_ids(views(apps@), wanted@),
                total_bytes: wanted_bytes(views(apps@), wanted@) as u64,
                root: root@,
                done_bytes: 0,
                current: Seq::empty(),
                restored: Seq::empty(),
                issues: Seq::empty(),
                links: Seq::empty(),
                unsure: Seq::empty(),
                pending: PendingView::Nothing,
            }),
    {
        let ghost all = views(apps@);
        let mut ids: Vec<String> = Vec::new();
        let mut total: u64 = 0;
        let mut i: usize = 0;
        proof {
            assert(wanted@.take(0) =~= Seq::<usize>::empty());
            assert(views(ids@) =~= Seq::<Seq<char>>::empty());
        }
        while i < wanted.len()
            invariant
                i <= wanted@.len(),
                all == views(apps@),
                views(ids@) == wanted_ids(all, wanted@.take(i as int)),
                total == wanted_bytes(all, wanted@.take(i as int)),
            decreases wanted.len() - i,
        {
            proof {
                assert(wanted@.take(i + 1).drop_last() =~= wanted@.take(i as int));
                assert(wanted@.take(i + 1).last() == wanted@[i as int]);
                lemma_wanted_bytes_grow(all, wanted@, i + 1);
            }
            let index: usize = wanted[i];
            if index < apps.len() {
                let app = &apps[index];
                assert(all[index as int] == app@);
                let ghost before = views(ids@);
                ids.push(app.id.clone());
                assert(views(ids@) =~= before.push(app@.id));
                match total.checked_add(app.data_bytes) {
                    Some(sum) => {
                        total = sum;
                    },
                    None => {
                        return None;
                    },
                }
            }
            i = i + 1;
        }
        assert(wanted@.take(wanted@.len() as int) =~= wanted@);
        let out = Extraction {
            wanted: ids,
            total_bytes: total,
            root: bytes_of(root),
            done_bytes: 0,
            current: String::new(),
            restored: Vec::new(),
            issues: Vec::new(),
            links: Vec::new(),
            unsure: Vec::new(),
            pending: Pending::Nothing,
        };
        proof {
            assert(out@.current =~= Seq::<char>::empty());
            assert(out@.restored =~= Seq::<Seq<char>>::empty());
            assert(out@.issues =~= Seq::<IssueView>::empty());
            assert(out@.links =~= Seq::<LinkView>::empty());
            assert(out@.unsure =~= Seq::<Seq<char>>::empty());
            lemma_all_wanted_are_extracted(all, wanted@);
            assert forall|k: int|
                0 <= k < wanted@.len() && wanted@[k] < apps@.len() implies out@.wanted.contains(
                (#[trigger] apps@[wanted@[k] as int])@.id,
            ) by {
                assert(all[wanted@[k] as int] == apps@[wanted@[k] as int]@);
            }
            assert forall|id: Seq<char>| #[trigger] out@.wanted.contains(id) implies exists|k: int|
                0 <= k < wanted@.len() && #[trigger] wanted@[k] < apps@.len()
                    && apps@[wanted@[k] as int]@.id == id by {
                let k = choose|k: int|
                    0 <= k < wanted@.len() && #[trigger] wanted@[k] < all.len()
                        && all[wanted@[k] as int].id == id;
                assert(all[wanted@[k] as int] == apps@[wanted@[k] as int]@);
            }
        }
        Some(out)
    }

    fn refuse(&mut self, path: String, reason: String)
        ensures
            final(self)@ == refused(old(self)@, path@, reason@),
    {
        let ghost before = self.issues@;
        let issue = Issue::UnsafeEntry { path, reason };
        let ghost issue_view = issue@;
        self.issues.push(issue);
        assert(views(self.issues@) =~= views(before).push(issue_view));
    }

    /// Decides what to do with the next entry. Returns that, and what to tell the
    /// user before it is done.
    pub fn on_entry(&mut self, path: Result<Vec<u8>, String>, cancelled: bool) -> (out: Result<
        (Option<RestoreProgress>, EntryAction),
        Failure,
    >)
        ensures
            cancelled ==> final(self)@ == old(self)@ && (out matches Err(error) && error@
                == FailureView::Cancelled),
            !cancelled ==> {
                let (state, action) = entry_outcome(
                    old(self)@,
                    match path {
                        Ok(raw) => Ok(raw@),
                        Err(reason) => Err(reason@),
                    },
                );
                &&& final(self)@ == state
                &&& out matches Ok((progress, done)) && done@ == action && match progress {
                    Some(message) => {
                        &&& state.current != old(self)@.current
                        &&& message@ == (RestoreProgressView::ExtractingApp {
                            app: state.current,
                        })
                    },
                    None => state.current == old(self)@.current,
                }
            },
    {
        if cancelled {
            return Err(Failure::Cancelled(Cancelled));
        }
        self.pending = Pending::Nothing;
        let raw = match path {
            Ok(raw) => raw,
            Err(reason) => {
                self.refuse("<unreadable>".to_owned(), reason);
                return Ok((None, EntryAction::Skip));
            },
        };
        let (app_id, relative) = match split_payload_path(&raw) {
            Some(found) => found,
            None => {
                self.refuse(
                    text_lossy(&raw),
                    "not a recognised application data path".to_owned(),
                );
                return Ok((None, EntryAction::Skip));
            },
        };
        let ghost names = payload_split(parts(raw@))->Some_0.1;
        proof {
            lemma_payload_names_plain(raw@);
            lemma_relative_path(names);
            if names.len() > 0 {
                crate::path::lemma_join_all_end(Seq::empty(), names);
            }
        }
        if !contains_text(&self.wanted, &app_id) {
            return Ok((None, EntryAction::Skip));
        }
        let mut progress: Option<RestoreProgress> = None;
        if !same_text(&self.current, &app_id) {
            self.current = app_id.clone();
            let ghost before = self.restored@;
            self.restored.push(app_id.clone());
            assert(views(self.restored@) =~= views(before).push(app_id@));
            progress = Some(RestoreProgress::ExtractingApp { app: app_id.clone() });
        }
        let app_dir = data_dir(&self.root, &app_id);
        let destination = if relative.len() == 0 {
            app_dir
        } else {
            match safe_join(&app_dir, &relative) {
                Ok(destination) => destination,
                Err(error) => {
                    self.refuse(text_lossy(&raw), error.message());
                    return Ok((progress, EntryAction::Skip));
                },
            }
        };
        let below = names_of(&relative);
        let lost = contains_text(&self.unsure, &app_id) && leads_through_link(
            &self.links,
            &app_id,
            &below,
        );
        let place = if lost {
            None
        } else {
            land(&self.links, &app_id, &below)
        };
        match place {
            None => {
                self.refuse(text_lossy(&raw), LEADS_NOWHERE.to_owned());
                Ok((progress, EntryAction::Skip))
            },
            Some(place) => {
                let depth: usize = if below.len() == 0 {
                    0
                } else {
                    below.len() - 1
                };
                assert(views(below@).len() == below@.len());
                self.pending = Pending::Entry { app_id: app_id.clone(), names: place, depth };
                Ok((progress, EntryAction::Unpack { app_id, relative, destination }))
            },
        }
    }

    /// Decides how to write the entry that was handed out last.
    ///
    /// Besides what [`unpack_entry`] refuses, this refuses an entry after which
    /// some link of the application would lead outside its data directory once
    /// the links that were written are followed.
    pub fn unpack(&mut self, kind: EntryKind) -> (out: Result<Unpack, Failure>)
        requires
            old(self)@.pending is Entry,
        ensures
            ({
                let (state, result) = unpack_outcome(old(self)@, kind@);
                &&& final(self)@ == state
                &&& match result {
                    Ok(unpack) => out matches Ok(how) && how@ == unpack,
                    Err(message) => out matches Err(error) && error@ == FailureView::Message(
                        message,
                    ),
                }
            }),
    {
        let mut pending = Pending::Nothing;
        std::mem::swap(&mut pending, &mut self.pending);
        match pending {
            Pending::Entry { app_id, names, depth } => {
                let how = unpack_at(kind, depth)?;
                match &how {
                    Unpack::Symlink(target) => match may_link(&self.links, &app_id, &names, target) {
                        Some(link) => {
                            self.pending = Pending::Link(link);
                        },
                        None => {
                            return Err(Failure::Message(POINTS_OUTSIDE.to_owned()));
                        },
                    },
                    _ => {
                        if !may_write(&self.links, &app_id, &names) {
                            return Err(Failure::Message(POINTS_OUTSIDE.to_owned()));
                        }
                        self.pending = Pending::Plain { app_id, names };
                    },
                }
                Ok(how)
            },
            _ => {
                assert(false);
                Err(Failure::Message(String::new()))
            },
        }
    }

    /// Takes in that the entry at hand could not be written.
    fn note_unwritten(&mut self)
        ensures
            final(self)@ == unwritten(old(self)@),
    {
        let mut pending = Pending::Nothing;
        std::mem::swap(&mut pending, &mut self.pending);
        let unsure = match &pending {
            Pending::Plain { app_id, names } => if takes_link_away(
                &self.links,
                app_id,
                names,
                false,
            ) {
                Some(app_id.clone())
            } else {
                None
            },
            Pending::Link(link) => link_away(&self.links, link),
            _ => None,
        };
        if let Some(app_id) = unsure {
            let ghost before = views(self.unsure@);
            self.unsure.push(app_id);
            assert(views(self.unsure@) =~= before.push(app_id@));
        }
    }

    /// Takes in that the entry at hand was written.
    fn note_written(&mut self)
        ensures
            final(self)@ == written(old(self)@),
    {
        let mut pending = Pending::Nothing;
        std::mem::swap(&mut pending, &mut self.pending);
        match pending {
            Pending::Plain { app_id, names } => note_plain(&mut self.links, &app_id, &names),
            Pending::Link(link) => note_link(&mut self.links, link),
            _ => {},
        }
    }

    /// Takes in what came of unpacking the entry `raw_path` of the application
    /// `app_id`: `counted` is the size of a file that was written.
    pub fn unpacked(
        &mut self,
        app_id: &str,
        raw_path: &[u8],
        outcome: Result<Option<u64>, String>,
    ) -> (progress: Option<RestoreProgress>)
        ensures
            final(self)@ == after_unpacking(
                old(self)@,
                app_id@,
                raw_path@,
                match outcome {
                    Ok(size) => Ok(size),
                    Err(message) => Err(message@),
                },
            ),
            match outcome {
                Ok(Some(_)) => progress matches Some(message) && message@ == (
                RestoreProgressView::Bytes {
                    done: final(self)@.done_bytes,
                    total: old(self)@.total_bytes,
                }),
                _ => progress is None,
            },
    {
        match outcome {
            Err(message) => {
                let ghost before = self.issues@;
                let issue = Issue::DataRestoreFailed {
                    app: app_id.to_owned(),
                    message: cat3(&text_lossy(raw_path), ": ", &message),
                };
                let ghost issue_view = issue@;
                self.issues.push(issue);
                assert(views(self.issues@) =~= views(before).push(issue_view));
                self.note_unwritten();
                None
            },
            Ok(None) => {
                self.note_written();
                None
            },
            Ok(Some(size)) => {
                self.note_written();
                self.done_bytes = self.done_bytes.saturating_add(size);
                Some(RestoreProgress::Bytes { done: self.done_bytes, total: self.total_bytes })
            },
        }
    }

    /// Ends the extraction: the names of the applications whose data was
    /// restored, and everything that went wrong.
    pub fn finish(self, apps: &Vec<AppEntry>, wanted: &Vec<usize>) -> (out: (
        Vec<String>,
        Vec<Issue>,
    ))
        ensures
            (views(out.0@), views(out.1@)) == extraction_result(self@, views(apps@), wanted@),
    {
        let ghost all = views(apps@);
        let ghost state = self@;
        let restored = self.restored;
        let mut names: Vec<String> = Vec::new();
        let mut issues = self.issues;
        let mut i: usize = 0;
        proof {
            assert(wanted@.take(0) =~= Seq::<usize>::empty());
            assert(views(names@) =~= Seq::<Seq<char>>::empty());
        }
        while i < wanted.len()
            invariant
                i <= wanted@.len(),
                all == views(apps@),
                state.restored == views(restored@),
                (views(names@), views(issues@)) == extraction_result(
                    state,
                    all,
                    wanted@.take(i as int),
                ),
            decreases wanted.len() - i,
        {
            proof {
                assert(wanted@.take(i + 1).drop_last() =~= wanted@.take(i as int));
                assert(wanted@.take(i + 1).last() == wanted@[i as int]);
            }
            let index: usize = wanted[i];
            if index < apps.len() {
                let app = &apps[index];
                assert(all[index as int] == app@);
                if contains_text(&restored, &app.id) {
                    let ghost before = views(names@);
                    names.push(app.display_name().to_owned());
                    assert(views(names@) =~= before.push(app@.shown_name()));
                } else {
                    let ghost before = views(issues@);
                    let issue = Issue::DataRestoreFailed {
                        app: app.display_name().to_owned(),
                        message: "the archive contained no data for it".to_owned(),
                    };
                    let ghost issue_view = issue@;
                    issues.push(issue);
                    assert(views(issues@) =~= before.push(issue_view));
                }
            }
            i = i + 1;
        }
        assert(wanted@.take(wanted@.len() as int) =~= wanted@);
        (names, issues)
    }
}

/// What an extraction came to: the applications whose data was met count as
/// restored, the others as failed.
pub open spec fn extraction_result(
    state: ExtractionView,
    apps: Seq<AppEntryView>,
    wanted: Seq<usize>,
) -> (Seq<Seq<char>>, Seq<IssueView>)
    decreases wanted.len(),
{
    if wanted.len() == 0 {
        (Seq::empty(), state.issues)
    } else {
        let (names, issues) = extraction_result(state, apps, wanted.drop_last());
        if wanted.last() >= apps.len() {
            (names, issues)
        } else {
            let app = apps[wanted.last() as int];
            if state.restored.contains(app.id) {
                (names.push(app.shown_name()), issues)
            } else {
                (
                    names,
                    issues.push(
                        IssueView::DataRestoreFailed {
                            app: app.shown_name(),
                            message: "the archive contained no data for it"@,
                        },
                    ),
                )
            }
        }
    }
}

/// Whatever an archive says, an entry is only ever written for an application
/// that is wanted and has a valid ID, to that application's data directory or
/// below it.
pub proof fn lemma_unpacked_below_data_dir(state: ExtractionView, path: Result<Seq<u8>, Seq<char>>)
    ensures
        entry_outcome(state, path).1 matches EntryActionView::Unpack {
            app_id,
            relative,
            destination,
        } ==> {
            &&& valid_app_id(app_id)
            &&& state.wanted.contains(app_id)
            &&& parts(destination) == parts(state.root).push(Part::Name(encode_utf8(app_id)))
                + parts(relative)
            &&& all_names(parts(relative))
        },
{
    if let EntryActionView::Unpack { app_id, relative, destination } = entry_outcome(
        state,
        path,
    ).1 {
        let raw = path->Ok_0;
        let (id, names) = payload_split(parts(raw))->0;
        lemma_payload_names_plain(raw);
        lemma_relative_path(names);
        lemma_names_in_name_parts(names);
        crate::appdata::lemma_data_dir_below_root(state.root, id);
        if names.len() == 0 {
            assert(parts(relative) =~= Seq::<Part>::empty());
            assert(parts(destination) =~= parts(state.root).push(Part::Name(encode_utf8(id)))
                + parts(relative));
        } else {
            lemma_safe_join_stays_below(data_dir_of(state.root, id), relative);
        }
    }
}

proof fn lemma_no_fault_in_text(names: Seq<Seq<u8>>)
    requires
        forall|i: int| 0 <= i < names.len() ==> valid_utf8(#[trigger] names[i]),
    ensures
        first_fault(name_parts(names)) is None,
    decreases names.len(),
{
    if names.len() > 0 {
        let rest = names.drop_last();
        assert forall|i: int| 0 <= i < rest.len() implies valid_utf8(#[trigger] rest[i]) by {
            assert(rest[i] == names[i]);
        }
        lemma_no_fault_in_text(rest);
        assert(name_parts(names).drop_last() =~= name_parts(rest));
        assert(valid_utf8(names[names.len() - 1]));
    }
}

/// What was backed up is put back where it was: the entry stored for `names` of
/// the application `id` is unpacked to those names below its data directory, if
/// it is wanted and the names are text. Nothing is stored below a link, so no
/// link that was written lies above it.
///
/// A name that is not text is refused, so such names are left out.
pub proof fn lemma_entry_goes_back(state: ExtractionView, id: Seq<char>, names: Seq<Seq<u8>>)
    requires
        valid_app_id(id),
        state.wanted.contains(id),
        !through_link(state.links, id, names),
        forall|i: int|
            0 <= i < names.len() ==> is_plain_name(#[trigger] names[i]) && valid_utf8(names[i]),
    ensures
        entry_outcome(state, Ok(payload_path(id, names))).1 == (EntryActionView::Unpack {
            app_id: id,
            relative: relative_path(names),
            destination: join_all(data_dir_of(state.root, id), names),
        }),
{
    lemma_payload_path_splits(id, names);
    lemma_relative_path(names);
    lemma_no_fault_in_text(names);
    lemma_unpacked_by_name(state, id, names);
}

/// Whatever an archive says, and whatever links it has written, the file system puts
/// an entry at a place below its application's data directory, with no link above it.
pub proof fn lemma_unpacked_lands_inside(state: ExtractionView, path: Result<Seq<u8>, Seq<char>>)
    requires
        confined(state),
    ensures
        entry_outcome(state, path).1 matches EntryActionView::Unpack {
            app_id,
            relative,
            destination,
        } ==> {
            &&& landing(state.links, app_id, names_in(parts(relative))) matches Some(place)
            &&& !through_link(state.links, app_id, place)
            &&& entry_outcome(state, path).0.pending == (PendingView::Entry {
                id: app_id,
                names: place,
                depth: depth_below(names_in(parts(relative))),
            })
        },
{
    if let EntryActionView::Unpack { app_id, relative, destination } = entry_outcome(
        state,
        path,
    ).1 {
        let raw = path->Ok_0;
        let (id, names) = payload_split(parts(raw))->0;
        lemma_payload_names_plain(raw);
        lemma_relative_path(names);
        lemma_landing(state.links, id, names);
    }
}

/// An entry whose path leads through no link goes to where its names say.
pub proof fn lemma_unpacked_by_name(state: ExtractionView, id: Seq<char>, names: Seq<Seq<u8>>)
    requires
        !through_link(state.links, id, names),
    ensures
        known_landing(state, id, names) == Some(names),
{
    lemma_lands_by_name(state.links, id, names);
}

/// What holds throughout an extraction: no link leads outside its application's
/// data directory, none lies below another, and neither changes with the entry
/// at hand.
pub open spec fn confined(state: ExtractionView) -> bool {
    &&& settled(state.links)
    &&& apart(state.links)
    &&& match state.pending {
        PendingView::Nothing => true,
        PendingView::Entry { id, names, .. } => !through_link(state.links, id, names),
        PendingView::Writing { id, names, target } => {
            &&& !through_link(state.links, id, names)
            &&& admissible(state.links, id, names, target)
        },
    }
}

/// Whatever an archive says, the links that are written stay confined: with the
/// next entry, with how it is written, and once it is or could not be.
pub proof fn lemma_extraction_stays_confined(
    state: ExtractionView,
    path: Result<Seq<u8>, Seq<char>>,
    kind: EntryKindView,
)
    requires
        confined(state),
    ensures
        confined(entry_outcome(state, path).0),
        confined(unpack_outcome(state, kind).0),
        confined(written(state)),
        confined(unwritten(state)),
{
    if let Ok(raw) = path {
        if let Some((id, names)) = payload_split(parts(raw)) {
            lemma_landing(state.links, id, names);
        }
    }
    if let PendingView::Writing { id, names, target } = state.pending {
        lemma_links_after(state.links, id, names, target);
    }
}

/// While the links are confined, no link that was written leads above its
/// application's data directory, however many of the others its target is
/// followed through.
pub proof fn lemma_written_links_stay_inside(state: ExtractionView, i: int, fuel: nat)
    requires
        confined(state),
        0 <= i < state.links.len(),
    ensures
        follow(
            state.links,
            state.links[i].id,
            state.links[i].names.drop_last(),
            parts(state.links[i].target),
            fuel,
        ) !is Climbs,
{
    lemma_settled_links_stay_inside(state.links, i, fuel);
}

// ---------------------------------------------------------------- unpacking

/// What kind of entry an archive holds.
#[derive(Debug)]
pub enum EntryKind {
    Directory,
    Regular,
    /// A regular file stored in one piece.
    Continuous,
    /// A symbolic link, and its target if the archive gives one.
    Symlink(Option<Vec<u8>>),
    /// Anything else, by the name it goes by.
    Other(String),
}

/// How to write an entry.
#[derive(Debug)]
pub enum Unpack {
    /// Create the directory, after removing a link in its place.
    Directory,
    /// Write the file, after removing a link in its place.
    File,
    /// Create a link to this target, after removing whatever is in its place.
    Symlink(Vec<u8>),
}

pub enum EntryKindView {
    Directory,
    Regular,
    Continuous,
    Symlink(Option<Seq<u8>>),
    Other(Seq<char>),
}

impl View for EntryKind {
    type V = EntryKindView;

    open spec fn view(&self) -> EntryKindView {
        match self {
            EntryKind::Directory => EntryKindView::Directory,
            EntryKind::Regular => EntryKindView::Regular,
            EntryKind::Continuous => EntryKindView::Continuous,
            EntryKind::Symlink(Some(target)) => EntryKindView::Symlink(Some(target@)),
            EntryKind::Symlink(None) => EntryKindView::Symlink(None),
            EntryKind::Other(name) => EntryKindView::Other(name@),
        }
    }
}

pub enum UnpackView {
    Directory,
    File,
    Symlink(Seq<u8>),
}

impl View for Unpack {
    type V = UnpackView;

    open spec fn view(&self) -> UnpackView {
        match self {
            Unpack::Directory => UnpackView::Directory,
            Unpack::File => UnpackView::File,
            Unpack::Symlink(target) => UnpackView::Symlink(target@),
        }
    }
}

/// Where the link that is written points, if it is one.
pub open spec fn link_target(unpack: UnpackView) -> Option<Seq<u8>> {
    match unpack {
        UnpackView::Symlink(target) => Some(target),
        _ => None,
    }
}

/// How many names sit above the last one.
pub open spec fn depth_below(names: Seq<Seq<u8>>) -> nat {
    if names.len() == 0 {
        0
    } else {
        (names.len() - 1) as nat
    }
}

/// How to write an entry `depth` levels down, or why it is refused.
pub open spec fn unpack_below(kind: EntryKindView, depth: nat) -> Result<UnpackView, Seq<char>> {
    match kind {
        EntryKindView::Directory => Ok(UnpackView::Directory),
        EntryKindView::Regular => Ok(UnpackView::File),
        EntryKindView::Continuous => Ok(UnpackView::File),
        EntryKindView::Symlink(None) => Err("symlink without a target"@),
        EntryKindView::Symlink(Some(target)) => if target_contained(depth, target) {
            Ok(UnpackView::Symlink(target))
        } else {
            Err(POINTS_OUTSIDE@)
        },
        EntryKindView::Other(name) => Err("unsupported archive entry type "@ + name),
    }
}

/// Decides how to write one archive entry, rejecting anything unsafe.
///
/// `relative` is the entry's path within the application's own data directory,
/// which is what decides how far a symlink target may climb. Hard links, device
/// nodes, FIFOs and sockets are never written by FlatBak, so an archive
/// containing one is not one we made.
pub fn unpack_entry(kind: EntryKind, relative: &[u8]) -> (out: Result<Unpack, Failure>)
    ensures
        match unpack_below(kind@, depth_of(relative@)) {
            Ok(unpack) => out matches Ok(how) && how@ == unpack,
            Err(message) => out matches Err(error) && error@ == FailureView::Message(message),
        },
{
    unpack_at(kind, parent_depth(relative))
}

fn unpack_at(kind: EntryKind, depth: usize) -> (out: Result<Unpack, Failure>)
    ensures
        match unpack_below(kind@, depth as nat) {
            Ok(unpack) => out matches Ok(how) && how@ == unpack,
            Err(message) => out matches Err(error) && error@ == FailureView::Message(message),
        },
{
    match kind {
        EntryKind::Directory => Ok(Unpack::Directory),
        EntryKind::Regular => Ok(Unpack::File),
        EntryKind::Continuous => Ok(Unpack::File),
        EntryKind::Symlink(None) => Err(Failure::Message("symlink without a target".to_owned())),
        EntryKind::Symlink(Some(target)) => {
            if symlink_target_is_contained(depth, &target) {
                Ok(Unpack::Symlink(target))
            } else {
                Err(Failure::Message(POINTS_OUTSIDE.to_owned()))
            }
        },
        EntryKind::Other(name) => Err(
            Failure::Message(cat2("unsupported archive entry type ", &name)),
        ),
    }
}

/// How to make way for a link.
pub fn make_way(occupant: Occupant) -> (out: Result<Removal, Failure>)
    ensures
        out is Ok <==> occupant !is Unknown,
        out matches Ok(removal) ==> removal == match occupant {
            Occupant::Directory => Removal::Tree,
            Occupant::Other => Removal::File,
            _ => Removal::Nothing,
        },
        out matches Err(error) ==> error@ == FailureView::Message(occupant->Unknown_0@),
{
    match occupant {
        Occupant::Directory => Ok(Removal::Tree),
        Occupant::Other => Ok(Removal::File),
        Occupant::Nothing => Ok(Removal::Nothing),
        Occupant::Unknown(message) => Err(Failure::Message(message)),
    }
}

// ---------------------------------------------------------------- ReadLimit

/// A reader that stops after `limit` bytes, bounding the payload region.
#[derive(Debug)]
pub struct ReadLimit<R> {
    inner: R,
    remaining: u64,
}

impl<R> ReadLimit<R> {
    /// What is being read from.
    pub closed spec fn source(&self) -> R {
        self.inner
    }

    /// How many bytes are left to read.
    pub closed spec fn left(&self) -> u64 {
        self.remaining
    }

    pub fn new(inner: R, limit: u64) -> (reader: Self)
        ensures
            reader.source() == inner,
            reader.left() == limit,
    {
        ReadLimit { inner, remaining: limit }
    }

    /// How many bytes may be read into a buffer of `len` bytes.
    pub fn allowance(&self, len: usize) -> (n: usize)
        ensures
            n == if len <= self.left() {
                len as int
            } else {
                self.left() as int
            },
    {
        if len as u64 <= self.remaining {
            len
        } else {
            self.remaining as usize
        }
    }

    /// What is being read from, for reading. Whatever is read has to be counted as
    /// well.
    pub fn inner_mut(&mut self) -> (inner: &mut R)
        ensures
            *inner == old(self).source(),
            final(self).source() == *final(inner),
            final(self).left() == old(self).left(),
    {
        &mut self.inner
    }

    /// Notes that `n` bytes were read.
    pub fn advance(&mut self, n: usize)
        requires
            n <= old(self).left(),
        ensures
            final(self).source() == old(self).source(),
            final(self).left() == old(self).left() - n,
    {
        self.remaining = self.remaining - n as u64;
    }
}

// --------------------------------------------------------------------- laws

/// The entry of an application that is not wanted is left, without a word.
pub proof fn lemma_other_applications_are_left(
    state: ExtractionView,
    id: Seq<char>,
    names: Seq<Seq<u8>>,
)
    requires
        valid_app_id(id),
        !state.wanted.contains(id),
        forall|i: int| 0 <= i < names.len() ==> is_plain_name(#[trigger] names[i]),
    ensures
        ({
            let (after, action) = entry_outcome(state, Ok(payload_path(id, names)));
            &&& action is Skip
            &&& after.issues == state.issues
            &&& after.restored == state.restored
            &&& after.links == state.links
        }),
{
    lemma_payload_path_splits(id, names);
}

/// Whatever comes up, an entry is written, belongs to an application that is not
/// wanted, or is reported with the reason; and an application counts as restored as
/// soon as one of its entries was met, and only then.
pub proof fn lemma_entries_are_written_or_reported(
    state: ExtractionView,
    path: Result<Seq<u8>, Seq<char>>,
)
    ensures
        ({
            let (after, action) = entry_outcome(state, path);
            &&& action is Unpack ==> after.issues == state.issues
            &&& action is Skip && after.issues == state.issues ==> {
                &&& path is Ok
                &&& payload_split(parts(path->Ok_0)) is Some
                &&& !state.wanted.contains(payload_split(parts(path->Ok_0))->Some_0.0)
            }
            &&& after.issues != state.issues ==> {
                &&& action is Skip
                &&& after.issues.len() == state.issues.len() + 1
                &&& after.issues.drop_last() == state.issues
                &&& after.issues.last() is UnsafeEntry
            }
            &&& path matches Err(reason) ==> after.issues.last() == (IssueView::UnsafeEntry {
                path: "<unreadable>"@,
                reason,
            })
            &&& path is Ok && after.issues != state.issues ==> after.issues.last()->UnsafeEntry_path
                == lossy_text(path->Ok_0)
            &&& action matches EntryActionView::Unpack { app_id, .. } ==> after.current == app_id
            &&& after.restored == if after.current == state.current {
                state.restored
            } else {
                state.restored.push(after.current)
            }
            &&& after.wanted == state.wanted
            &&& after.root == state.root
            &&& after.links == state.links
            &&& after.done_bytes == state.done_bytes
        }),
{
    if let Ok(raw) = path {
        assert(entry_outcome(state, path).0.issues.drop_last() =~= state.issues
            || entry_outcome(state, path).0.issues == state.issues);
    } else {
        assert(entry_outcome(state, path).0.issues.drop_last() =~= state.issues);
    }
}

/// What came of writing an entry: a failure is reported with its path and reason and
/// nothing else, and a file that was written counts with its size.
pub proof fn lemma_unpacking_is_told(
    state: ExtractionView,
    app_id: Seq<char>,
    raw_path: Seq<u8>,
    message: Seq<char>,
    size: u64,
)
    ensures
        ({
            let failed = after_unpacking(state, app_id, raw_path, Err(message));
            &&& failed.issues == state.issues.push(
                IssueView::DataRestoreFailed {
                    app: app_id,
                    message: lossy_text(raw_path) + ": "@ + message,
                },
            )
            &&& failed.done_bytes == state.done_bytes
            &&& failed.links == state.links
            &&& failed.restored == state.restored
        }),
        ({
            let done = after_unpacking(state, app_id, raw_path, Ok(Some(size)));
            &&& done.issues == state.issues
            &&& done.restored == state.restored
            &&& state.done_bytes + size <= u64::MAX ==> done.done_bytes == state.done_bytes + size
            &&& state.done_bytes + size > u64::MAX ==> done.done_bytes == u64::MAX
        }),
        ({
            let done = after_unpacking(state, app_id, raw_path, Ok(None));
            &&& done.issues == state.issues
            &&& done.restored == state.restored
            &&& done.done_bytes == state.done_bytes
        }),
{
}

/// Whatever is in an archive, only directories, files and links that stay inside by
/// their names are written, as what they are.
pub proof fn lemma_only_plain_kinds_are_written(kind: EntryKindView, depth: nat)
    ensures
        kind is Other ==> unpack_below(kind, depth) is Err,
        kind is Directory ==> unpack_below(kind, depth) == Ok::<UnpackView, Seq<char>>(
            UnpackView::Directory,
        ),
        kind is Regular || kind is Continuous ==> unpack_below(kind, depth) == Ok::<
            UnpackView,
            Seq<char>,
        >(UnpackView::File),
        kind matches EntryKindView::Symlink(target) ==> match target {
            None => unpack_below(kind, depth) is Err,
            Some(to) => {
                &&& unpack_below(kind, depth) is Ok ==> unpack_below(kind, depth) == Ok::<
                    UnpackView,
                    Seq<char>,
                >(UnpackView::Symlink(to))
                &&& forall|dir: Seq<Seq<u8>>|
                    dir.len() == depth ==> (unpack_below(kind, depth) is Ok <==> to.len() > 0
                        && #[trigger] crate::path::walk(dir, parts(to)) is Some)
            },
        },
{
    if let EntryKindView::Symlink(Some(to)) = kind {
        assert forall|dir: Seq<Seq<u8>>| dir.len() == depth implies (unpack_below(kind, depth) is Ok
            <==> to.len() > 0 && #[trigger] crate::path::walk(dir, parts(to)) is Some) by {
            crate::util::lemma_contained_targets_stay_inside(dir, to);
        }
    }
}

/// An extraction ends with every wanted application told of once: by its name among
/// the restored ones if its data was met, else with an issue. What was reported
/// before stays.
pub proof fn lemma_every_wanted_application_is_told_of(
    state: ExtractionView,
    apps: Seq<AppEntryView>,
    wanted: Seq<usize>,
)
    requires
        forall|k: int| 0 <= k < wanted.len() ==> #[trigger] wanted[k] < apps.len(),
    ensures
        ({
            let (names, issues) = extraction_result(state, apps, wanted);
            let before = state.issues.len();
            &&& names.len() + issues.len() == before + wanted.len()
            &&& issues.len() >= before
            &&& issues.take(before as int) == state.issues
            &&& forall|k: int|
                0 <= k < wanted.len() ==> {
                    let app = #[trigger] apps[wanted[k] as int];
                    let shown = if app.name.len() == 0 {
                        app.id
                    } else {
                        app.name
                    };
                    if state.restored.contains(app.id) {
                        names.contains(shown)
                    } else {
                        issues.skip(before as int).contains(
                            IssueView::DataRestoreFailed {
                                app: shown,
                                message: "the archive contained no data for it"@,
                            },
                        )
                    }
                }
            &&& (forall|k: int|
                0 <= k < wanted.len() ==> state.restored.contains(
                    (#[trigger] apps[wanted[k] as int]).id,
                )) ==> issues == state.issues && names.len() == wanted.len()
        }),
    decreases wanted.len(),
{
    let (names, issues) = extraction_result(state, apps, wanted);
    let before = state.issues.len() as int;
    if wanted.len() == 0 {
        assert(issues.take(before) =~= state.issues);
    } else {
        let less = wanted.drop_last();
        assert forall|k: int| 0 <= k < less.len() implies #[trigger] less[k] < apps.len() by {
            assert(less[k] == wanted[k]);
        }
        lemma_every_wanted_application_is_told_of(state, apps, less);
        let (old_names, old_issues) = extraction_result(state, apps, less);
        let last = wanted[wanted.len() - 1];
        assert(last < apps.len());
        assert(issues.take(before) =~= old_issues.take(before));
        assert forall|k: int| 0 <= k < wanted.len() implies ({
            let app = #[trigger] apps[wanted[k] as int];
            let shown = if app.name.len() == 0 {
                app.id
            } else {
                app.name
            };
            if state.restored.contains(app.id) {
                names.contains(shown)
            } else {
                issues.skip(before).contains(
                    IssueView::DataRestoreFailed {
                        app: shown,
                        message: "the archive contained no data for it"@,
                    },
                )
            }
        }) by {
            let app = apps[wanted[k] as int];
            let shown = app.shown_name();
            let failed = IssueView::DataRestoreFailed {
                app: shown,
                message: "the archive contained no data for it"@,
            };
            if k < less.len() {
                assert(less[k] == wanted[k]);
                assert(apps[less[k] as int] == app);
                if state.restored.contains(app.id) {
                    let i = choose|i: int| 0 <= i < old_names.len() && old_names[i] == shown;
                    assert(names[i] == shown);
                } else {
                    let i = choose|i: int|
                        0 <= i < old_issues.skip(before).len() && old_issues.skip(before)[i]
                            == failed;
                    assert(issues.skip(before)[i] == failed);
                }
            } else if state.restored.contains(app.id) {
                assert(names[old_names.len() as int] == shown);
            } else {
                assert(issues.skip(before)[old_issues.len() - before] == failed);
            }
        }
        if forall|k: int|
            0 <= k < wanted.len() ==> state.restored.contains(
                (#[trigger] apps[wanted[k] as int]).id,
            ) {
            assert forall|k: int| 0 <= k < less.len() implies state.restored.contains(
                (#[trigger] apps[less[k] as int]).id,
            ) by {
                assert(less[k] == wanted[k]);
                assert(state.restored.contains(apps[wanted[k] as int].id));
            }
            assert(state.restored.contains(apps[wanted[wanted.len() - 1] as int].id));
        }
    }
}

/// Where an entry that was to replace a link could not be written, the links of its
/// application are not relied on any more: what would go through them is refused and
/// reported. Everywhere else nothing changes.
pub proof fn lemma_links_in_doubt_are_not_followed(
    state: ExtractionView,
    id: Seq<char>,
    names: Seq<Seq<u8>>,
    target: Option<Seq<u8>>,
    message: Seq<char>,
    raw: Seq<u8>,
    i: int,
)
    requires
        state.pending == (PendingView::Writing { id, names, target }),
        0 <= i < state.links.len(),
    ensures
        ({
            let after = after_unpacking(state, id, raw, Err(message));
            let link = state.links[i];
            &&& link.id == id && (link.names == names || (target is Some && names.is_prefix_of(
                link.names,
            ))) ==> after.unsure.contains(id)
            &&& (forall|k: int|
                0 <= k < state.links.len() ==> (#[trigger] state.links[k]).id != id)
                ==> after.unsure == state.unsure
            &&& forall|deeper: Seq<Seq<u8>>|
                after.unsure.contains(id) && link.id == id && link.names.len() < deeper.len()
                    && link.names.is_prefix_of(deeper) ==> #[trigger] known_landing(
                    after,
                    id,
                    deeper,
                ) is None
        }),
{
    let after = after_unpacking(state, id, raw, Err(message));
    let link = state.links[i];
    if link.id == id && (link.names == names || (target is Some && names.is_prefix_of(
        link.names,
    ))) {
        assert(disturbs(state.links, id, names, target is Some));
        assert(after.unsure[state.unsure.len() as int] == id);
    }
    assert forall|deeper: Seq<Seq<u8>>|
        after.unsure.contains(id) && link.id == id && link.names.len() < deeper.len()
            && link.names.is_prefix_of(deeper) implies #[trigger] known_landing(
        after,
        id,
        deeper,
    ) is None by {
        assert(after.links[i] == link);
        assert(through_link(after.links, id, deeper));
    }
}

/// Room is made for an entry by removing what is there and no more: a directory with all
/// it holds, anything else by itself, and nothing where nothing is.
pub proof fn lemma_room_is_made(occupant: Occupant, out: Result<Removal, Failure>)
    requires
        call_ensures(make_way, (occupant,), out),
    ensures
        occupant is Directory <==> out == Ok::<Removal, Failure>(Removal::Tree),
        occupant is Other <==> out == Ok::<Removal, Failure>(Removal::File),
        occupant is Nothing <==> out == Ok::<Removal, Failure>(Removal::Nothing),
        occupant is Unknown <==> out is Err,
{
}

} // verus!
