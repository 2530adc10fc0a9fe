//! Whole data directories: what a backup stores of one, and what a restore makes
//! of that again.
//!
//! The functions that back data up and restore it decide about one directory entry
//! and one archive entry at a time. Here those steps are put together.

use vstd::prelude::*;
use vstd::utf8::{encode_utf8, valid_utf8};
use crate::appdata::data_dir_of;
use crate::backup::confine::{
    admissible, crosses, lemma_link_at, lemma_other_links_settle, lemma_uncrossed_link_settles,
    lemma_without, lemma_without_nothing, link_at, links_after, settled, settles, through_link,
    turn, without, LinkView,
};
use crate::backup::extract::{
    after_unpacking, data_dir_name, depth_below, entry_outcome, extraction_result,
    lemma_all_wanted_are_extracted, lemma_entry_goes_back,
    lemma_every_wanted_application_is_told_of, lemma_payload_path_splits, lemma_relative_path,
    lemma_unpacked_by_name, payload_path, relative_path, unpack_outcome, wanted_ids,
    EntryActionView, EntryKindView, ExtractionView, PendingView,
};
use crate::backup::links::{
    lemma_relative_links_are_stored_or_reported, symlink_plan, SymlinkPlanView,
};
use crate::backup::manifest::AppEntryView;
use crate::backup::reader::{empty_report, RestoreReportView};
use crate::backup::restore::{after_extraction, RestoreView};
use crate::backup::writer::{lemma_cache_is_named, storable, DataWalkView};
use crate::error::IssueView;
use crate::path::{
    is_absolute, is_plain_name, join_all, join_path, lemma_join_all_end, lemma_join_at_once, parts, walk,
};
use crate::util::{depth_of, names_in, target_contained, valid_app_id};

verus! {

/// What is at one place of a data directory.
pub enum Node {
    Dir,
    File(Seq<u8>),
    Link(Seq<u8>),
    /// A socket, a FIFO or a device.
    Other,
}

/// A data directory: what is at each place below it. The directory itself has no
/// names.
pub type Tree = Map<Seq<Seq<u8>>, Node>;

/// Every place lies in a directory, and has a name that a file can have.
pub open spec fn is_tree(tree: Tree) -> bool {
    &&& tree.dom().contains(Seq::empty())
    &&& tree[Seq::empty()] is Dir
    &&& forall|names: Seq<Seq<u8>>| #[trigger]
        tree.dom().contains(names) && names.len() > 0 ==> {
            &&& is_plain_name(names.last())
            &&& tree.dom().contains(names.drop_last())
            &&& tree[names.drop_last()] is Dir
        }
}

/// How a data directory is backed up: where it is, its canonical path if that could
/// be found out, and whether its cache is left out.
pub struct Rules {
    pub root: Seq<u8>,
    pub canonical: Option<Seq<u8>>,
    pub exclude_caches: bool,
}

/// What is stored of the place `names`, if anything: not an excluded cache, not a
/// link that leads outside, and nothing that only means something on this system.
#[verifier::opaque]
pub open spec fn kept(tree: Tree, rules: Rules, names: Seq<Seq<u8>>) -> Option<Node> {
    if !tree.dom().contains(names) || !storable(names, rules.exclude_caches) {
        None
    } else {
        match tree[names] {
            Node::Dir => Some(Node::Dir),
            Node::File(content) => Some(Node::File(content)),
            Node::Link(target) => match symlink_plan(
                Ok(target),
                rules.root,
                rules.canonical,
                relative_path(names),
            ) {
                SymlinkPlanView::Store(stored) => Some(Node::Link(stored)),
                SymlinkPlanView::Skip(_) => None,
            },
            Node::Other => None,
        }
    }
}

/// What a backup keeps of a data directory.
pub open spec fn kept_tree(tree: Tree, rules: Rules) -> Tree {
    Map::new(
        |names: Seq<Seq<u8>>| kept(tree, rules, names) is Some,
        |names: Seq<Seq<u8>>| kept(tree, rules, names)->0,
    )
}

// ------------------------------------------------------------------ storing

/// An entry of the payload: which place it is for, and what it holds.
pub struct Stored {
    pub names: Seq<Seq<u8>>,
    pub node: Node,
}

/// A backup of a data directory: the directories still to be read, and what was
/// stored so far.
pub struct Storing {
    pub pending: Seq<Seq<Seq<u8>>>,
    pub stored: Seq<Stored>,
}

/// The directory itself is stored first.
pub open spec fn first_stored() -> Storing {
    Storing {
        pending: seq![Seq::empty()],
        stored: seq![Stored { names: Seq::empty(), node: Node::Dir }],
    }
}

/// The backup once the entry `name` of the directory `dir` was looked at.
pub open spec fn took_entry(
    tree: Tree,
    rules: Rules,
    storing: Storing,
    dir: Seq<Seq<u8>>,
    name: Seq<u8>,
) -> Storing {
    let names = dir.push(name);
    match kept(tree, rules, names) {
        None => storing,
        Some(node) => Storing {
            pending: if node is Dir {
                storing.pending.push(names)
            } else {
                storing.pending
            },
            stored: storing.stored.push(Stored { names, node }),
        },
    }
}

/// The backup once every entry of the directory `dir` was looked at.
pub open spec fn took_entries(
    tree: Tree,
    rules: Rules,
    storing: Storing,
    dir: Seq<Seq<u8>>,
    listing: Seq<Seq<u8>>,
) -> Storing
    decreases listing.len(),
{
    if listing.len() == 0 {
        storing
    } else {
        took_entry(
            tree,
            rules,
            took_entries(tree, rules, storing, dir, listing.drop_last()),
            dir,
            listing.last(),
        )
    }
}

/// True if `listing` names each entry of the directory `dir` once, in some order.
pub open spec fn is_listing(tree: Tree, dir: Seq<Seq<u8>>, listing: Seq<Seq<u8>>) -> bool {
    &&& forall|i: int, j: int|
        0 <= i < j < listing.len() ==> #[trigger] listing[i] != #[trigger] listing[j]
    &&& forall|name: Seq<u8>| #[trigger]
        listing.contains(name) <==> tree.dom().contains(dir.push(name))
}

/// The backup once a directory was read for each of `listings`, the one that became
/// known last first.
pub open spec fn took_dirs(
    tree: Tree,
    rules: Rules,
    listings: Seq<Seq<Seq<u8>>>,
) -> Storing
    decreases listings.len(),
{
    if listings.len() == 0 {
        first_stored()
    } else {
        let before = took_dirs(tree, rules, listings.drop_last());
        took_entries(
            tree,
            rules,
            Storing { pending: before.pending.drop_last(), ..before },
            before.pending.last(),
            listings.last(),
        )
    }
}

/// True if each of `listings` is that of the directory that was to be read.
pub open spec fn are_listings(tree: Tree, rules: Rules, listings: Seq<Seq<Seq<u8>>>) -> bool
    decreases listings.len(),
{
    listings.len() == 0 || {
        let before = took_dirs(tree, rules, listings.drop_last());
        &&& are_listings(tree, rules, listings.drop_last())
        &&& before.pending.len() > 0
        &&& is_listing(tree, before.pending.last(), listings.last())
    }
}

// ------------------------------------------------------- what storing comes to

pub open spec fn is_stored(stored: Seq<Stored>, names: Seq<Seq<u8>>) -> bool {
    exists|i: int| 0 <= i < stored.len() && (#[trigger] stored[i]).names == names
}

/// Everything stored is what is kept of its place, no place is stored twice, and
/// each one after the directory that it lies in.
pub open spec fn in_order(tree: Tree, rules: Rules, stored: Seq<Stored>) -> bool {
    &&& forall|i: int|
        0 <= i < stored.len() ==> kept(tree, rules, (#[trigger] stored[i]).names) == Some(
            stored[i].node,
        )
    &&& forall|i: int, j: int|
        0 <= i < j < stored.len() ==> (#[trigger] stored[i]).names != (#[trigger] stored[j]).names
    &&& forall|i: int|
        0 <= i < stored.len() && (#[trigger] stored[i]).names.len() > 0 ==> is_stored(
            stored.take(i),
            stored[i].names.drop_last(),
        )
}

/// True if `above` is a directory on the way to `names`.
pub open spec fn is_above(above: Seq<Seq<u8>>, names: Seq<Seq<u8>>) -> bool {
    above.len() < names.len() && above == names.take(above.len() as int)
}

/// A directory that is still to be read: it was stored, and nothing below it.
spec fn is_pending(tree: Tree, rules: Rules, storing: Storing, names: Seq<Seq<u8>>) -> bool {
    &&& is_stored(storing.stored, names)
    &&& kept(tree, rules, names) == Some(Node::Dir)
    &&& forall|i: int|
        0 <= i < storing.stored.len() ==> !is_above(names, (#[trigger] storing.stored[i]).names)
}

/// True if `names` lies below a directory that is still to be read.
spec fn awaits(pending: Seq<Seq<Seq<u8>>>, names: Seq<Seq<u8>>) -> bool {
    exists|k: int| 0 <= k < pending.len() && is_above(#[trigger] pending[k], names)
}

spec fn all_pending(tree: Tree, rules: Rules, storing: Storing) -> bool {
    &&& forall|k: int|
        0 <= k < storing.pending.len() ==> is_pending(
            tree,
            rules,
            storing,
            #[trigger] storing.pending[k],
        )
    &&& forall|k: int, l: int|
        0 <= k < l < storing.pending.len() ==> #[trigger] storing.pending[k]
            != #[trigger] storing.pending[l]
}

/// What holds between two directories: what is kept was stored, or lies below a
/// directory that is still to be read.
spec fn stored_so_far(tree: Tree, rules: Rules, storing: Storing) -> bool {
    &&& in_order(tree, rules, storing.stored)
    &&& all_pending(tree, rules, storing)
    &&& forall|names: Seq<Seq<u8>>| #[trigger]
        kept(tree, rules, names) is Some ==> is_stored(storing.stored, names) || awaits(
            storing.pending,
            names,
        )
}

/// What holds while the entries of `dir` are looked at, and those in `listing` were:
/// of what lies below `dir`, nothing but those entries was stored.
spec fn stored_within(
    tree: Tree,
    rules: Rules,
    storing: Storing,
    dir: Seq<Seq<u8>>,
    listing: Seq<Seq<u8>>,
) -> bool {
    &&& in_order(tree, rules, storing.stored)
    &&& all_pending(tree, rules, storing)
    &&& is_stored(storing.stored, dir)
    &&& !storing.pending.contains(dir)
    &&& forall|i: int|
        0 <= i < storing.stored.len() && is_above(dir, (#[trigger] storing.stored[i]).names) ==> {
            let names = storing.stored[i].names;
            names.len() == dir.len() + 1 && listing.contains(names[dir.len() as int])
        }
    &&& forall|names: Seq<Seq<u8>>| #[trigger]
        kept(tree, rules, names) is Some ==> is_stored(storing.stored, names) || awaits(
            storing.pending,
            names,
        ) || (is_above(dir, names) && !listing.contains(names[dir.len() as int]))
}

/// What lies above something that is kept is a directory that is kept.
proof fn lemma_kept_above(tree: Tree, rules: Rules, above: Seq<Seq<u8>>, names: Seq<Seq<u8>>)
    requires
        is_tree(tree),
        kept(tree, rules, names) is Some,
        is_above(above, names),
    ensures
        kept(tree, rules, above) == Some(Node::Dir),
    decreases names.len(),
{
    reveal(kept);
    let parent = names.drop_last();
    assert(storable(parent, rules.exclude_caches)) by {
        assert forall|i: int| 0 <= i < parent.len() implies is_plain_name(#[trigger] parent[i]) by {
            assert(parent[i] == names[i]);
        }
        if parent.len() > 0 {
            assert(parent[0] == names[0]);
        }
    }
    assert(kept(tree, rules, parent) == Some(Node::Dir));
    if above.len() == parent.len() {
        assert(above =~= parent);
    } else {
        assert(parent.take(above.len() as int) =~= names.take(above.len() as int));
        lemma_kept_above(tree, rules, above, parent);
    }
}

/// Storing one more place keeps the order.
proof fn lemma_store_in_order(
    tree: Tree,
    rules: Rules,
    stored: Seq<Stored>,
    names: Seq<Seq<u8>>,
    node: Node,
)
    requires
        in_order(tree, rules, stored),
        kept(tree, rules, names) == Some(node),
        !is_stored(stored, names),
        names.len() > 0,
        is_stored(stored, names.drop_last()),
    ensures
        in_order(tree, rules, stored.push(Stored { names, node })),
{
    let after = stored.push(Stored { names, node });
    let n = stored.len() as int;
    assert forall|i: int| 0 <= i < after.len() implies kept(
        tree,
        rules,
        (#[trigger] after[i]).names,
    ) == Some(after[i].node) by {
        if i < n {
            assert(after[i] == stored[i]);
        }
    }
    assert forall|i: int, j: int| 0 <= i < j < after.len() implies (#[trigger] after[i]).names != (
    #[trigger] after[j]).names by {
        assert(after[i] == stored[i]);
        if j < n {
            assert(after[j] == stored[j]);
        }
    }
    assert forall|i: int|
        0 <= i < after.len() && (#[trigger] after[i]).names.len() > 0 implies is_stored(
        after.take(i),
        after[i].names.drop_last(),
    ) by {
        assert(after.take(i) =~= stored.take(i));
        if i == n {
            assert(stored.take(n) =~= stored);
        } else {
            assert(after[i] == stored[i]);
        }
    }
}

proof fn lemma_stored_longer(stored: Seq<Stored>, more: Stored, names: Seq<Seq<u8>>)
    ensures
        is_stored(stored.push(more), names) <==> is_stored(stored, names) || more.names == names,
{
    let after = stored.push(more);
    if is_stored(stored, names) {
        let i = choose|i: int| 0 <= i < stored.len() && (#[trigger] stored[i]).names == names;
        assert(after[i].names == names);
    }
    if more.names == names {
        assert(after[stored.len() as int].names == names);
    }
    if is_stored(after, names) {
        let i = choose|i: int| 0 <= i < after.len() && (#[trigger] after[i]).names == names;
        if i < stored.len() {
            assert(stored[i].names == names);
        }
    }
}

/// Storing an entry of `dir` leaves what is still to be read as it was, and adds the
/// entry if it is a directory.
proof fn lemma_store_pending(
    tree: Tree,
    rules: Rules,
    storing: Storing,
    dir: Seq<Seq<u8>>,
    listing: Seq<Seq<u8>>,
    name: Seq<u8>,
    node: Node,
)
    requires
        stored_within(tree, rules, storing, dir, listing),
        kept(tree, rules, dir.push(name)) == Some(node),
        !is_stored(storing.stored, dir.push(name)),
    ensures
        ({
            let after = took_entry(tree, rules, storing, dir, name);
            &&& all_pending(tree, rules, after)
            &&& !after.pending.contains(dir)
        }),
{
    let child = dir.push(name);
    let after = took_entry(tree, rules, storing, dir, name);
    let stored = storing.stored;
    let n = stored.len() as int;
    let d = choose|d: int| 0 <= d < n && (#[trigger] stored[d]).names == dir;
    assert(child.take(dir.len() as int) =~= dir);
    assert forall|k: int| 0 <= k < after.pending.len() implies is_pending(
        tree,
        rules,
        after,
        #[trigger] after.pending[k],
    ) by {
        let q = after.pending[k];
        lemma_stored_longer(stored, Stored { names: child, node }, q);
        if k < storing.pending.len() {
            assert(q == storing.pending[k]);
            assert(is_pending(tree, rules, storing, q));
            assert(!is_above(q, stored[d].names));
        }
        assert forall|i: int| 0 <= i < after.stored.len() implies !is_above(
            q,
            (#[trigger] after.stored[i]).names,
        ) by {
            if i < n {
                assert(after.stored[i] == stored[i]);
                let names = stored[i].names;
                if k == storing.pending.len() && is_above(child, names) {
                    assert(dir =~= names.take(dir.len() as int));
                    assert(is_above(dir, names));
                }
            } else if is_above(q, child) {
                assert(q =~= dir.take(q.len() as int));
                if q.len() == dir.len() {
                    assert(q =~= dir);
                    assert(storing.pending.contains(dir));
                } else {
                    assert(is_above(q, dir));
                }
            }
        }
    }
    assert forall|k: int, l: int| 0 <= k < l < after.pending.len() implies #[trigger] after.pending[k]
        != #[trigger] after.pending[l] by {
        assert(after.pending[k] == storing.pending[k]);
        if l < storing.pending.len() {
            assert(after.pending[l] == storing.pending[l]);
        } else {
            assert(is_pending(tree, rules, storing, storing.pending[k]));
        }
    }
    if after.pending.contains(dir) {
        let k = choose|k: int| 0 <= k < after.pending.len() && after.pending[k] == dir;
        assert(child.len() != dir.len());
        assert(storing.pending[k] == dir);
    }
}

/// Looking at one more entry of `dir` misses nothing.
proof fn lemma_nothing_missed(
    tree: Tree,
    rules: Rules,
    storing: Storing,
    dir: Seq<Seq<u8>>,
    listing: Seq<Seq<u8>>,
    name: Seq<u8>,
    names: Seq<Seq<u8>>,
)
    requires
        is_tree(tree),
        stored_within(tree, rules, storing, dir, listing),
        kept(tree, rules, names) is Some,
    ensures
        ({
            let after = took_entry(tree, rules, storing, dir, name);
            is_stored(after.stored, names) || awaits(after.pending, names) || (is_above(dir, names)
                && !listing.push(name).contains(names[dir.len() as int]))
        }),
{
    let child = dir.push(name);
    let after = took_entry(tree, rules, storing, dir, name);
    let more = listing.push(name);
    if let Some(node) = kept(tree, rules, child) {
        lemma_stored_longer(storing.stored, Stored { names: child, node }, names);
    }
    if is_stored(storing.stored, names) {
    } else if awaits(storing.pending, names) {
        let k = choose|k: int|
            0 <= k < storing.pending.len() && is_above(#[trigger] storing.pending[k], names);
        assert(after.pending[k] == storing.pending[k]);
    } else {
        let x = names[dir.len() as int];
        if more.contains(x) {
            let i = choose|i: int| 0 <= i < more.len() && more[i] == x;
            if i < listing.len() {
                assert(listing[i] == x);
            }
            assert(x == name);
            assert(names.take((dir.len() + 1) as int) =~= child);
            if names.len() == dir.len() + 1 {
                assert(names =~= child);
            } else {
                assert(is_above(child, names));
                lemma_kept_above(tree, rules, child, names);
                assert(after.pending[storing.pending.len() as int] == child);
            }
        }
    }
}

/// Looking at one more entry of `dir`.
proof fn lemma_took_entry(
    tree: Tree,
    rules: Rules,
    storing: Storing,
    dir: Seq<Seq<u8>>,
    listing: Seq<Seq<u8>>,
    name: Seq<u8>,
)
    requires
        is_tree(tree),
        stored_within(tree, rules, storing, dir, listing),
        !listing.contains(name),
    ensures
        stored_within(
            tree,
            rules,
            took_entry(tree, rules, storing, dir, name),
            dir,
            listing.push(name),
        ),
{
    let child = dir.push(name);
    let after = took_entry(tree, rules, storing, dir, name);
    let more = listing.push(name);
    let stored = storing.stored;
    assert(child.take(dir.len() as int) =~= dir);
    assert(child.drop_last() =~= dir);
    if let Some(node) = kept(tree, rules, child) {
        if is_stored(stored, child) {
            let i = choose|i: int| 0 <= i < stored.len() && (#[trigger] stored[i]).names == child;
            assert(is_above(dir, stored[i].names));
            assert(child[dir.len() as int] == name);
        }
        lemma_store_in_order(tree, rules, stored, child, node);
        lemma_store_pending(tree, rules, storing, dir, listing, name, node);
        lemma_stored_longer(stored, Stored { names: child, node }, dir);
    }
    assert forall|i: int|
        0 <= i < after.stored.len() && is_above(dir, (#[trigger] after.stored[i]).names) implies {
        let names = after.stored[i].names;
        names.len() == dir.len() + 1 && more.contains(names[dir.len() as int])
    } by {
        if i < stored.len() {
            assert(after.stored[i] == stored[i]);
            let x = stored[i].names[dir.len() as int];
            let k = choose|k: int| 0 <= k < listing.len() && listing[k] == x;
            assert(more[k] == x);
        } else {
            assert(more[listing.len() as int] == name);
        }
    }
    assert forall|names: Seq<Seq<u8>>| #[trigger]
        kept(tree, rules, names) is Some implies is_stored(after.stored, names) || awaits(
        after.pending,
        names,
    ) || (is_above(dir, names) && !more.contains(names[dir.len() as int])) by {
        lemma_nothing_missed(tree, rules, storing, dir, listing, name, names);
    }
}

proof fn lemma_took_entries(
    tree: Tree,
    rules: Rules,
    storing: Storing,
    dir: Seq<Seq<u8>>,
    listing: Seq<Seq<u8>>,
)
    requires
        is_tree(tree),
        stored_within(tree, rules, storing, dir, Seq::empty()),
        forall|i: int, j: int|
            0 <= i < j < listing.len() ==> #[trigger] listing[i] != #[trigger] listing[j],
    ensures
        stored_within(
            tree,
            rules,
            took_entries(tree, rules, storing, dir, listing),
            dir,
            listing,
        ),
    decreases listing.len(),
{
    if listing.len() == 0 {
        assert(listing =~= Seq::<Seq<u8>>::empty());
    } else {
        let less = listing.drop_last();
        lemma_took_entries(tree, rules, storing, dir, less);
        assert(!less.contains(listing.last())) by {
            if less.contains(listing.last()) {
                let i = choose|i: int| 0 <= i < less.len() && less[i] == listing.last();
                assert(listing[i] == listing[listing.len() - 1]);
            }
        }
        lemma_took_entry(
            tree,
            rules,
            took_entries(tree, rules, storing, dir, less),
            dir,
            less,
            listing.last(),
        );
        assert(less.push(listing.last()) =~= listing);
    }
}

proof fn lemma_took_dirs(tree: Tree, rules: Rules, listings: Seq<Seq<Seq<u8>>>)
    requires
        is_tree(tree),
        are_listings(tree, rules, listings),
    ensures
        stored_so_far(tree, rules, took_dirs(tree, rules, listings)),
    decreases listings.len(),
{
    let none = Seq::<Seq<u8>>::empty();
    if listings.len() == 0 {
        let first = first_stored();
        reveal(kept);
        assert(storable(none, rules.exclude_caches));
        assert(first.stored[0].names == none);
        assert(first.pending[0] == none);
        assert forall|names: Seq<Seq<u8>>| #[trigger]
            kept(tree, rules, names) is Some implies is_stored(first.stored, names) || awaits(
            first.pending,
            names,
        ) by {
            if names.len() == 0 {
                assert(names =~= none);
            } else {
                assert(names.take(0) =~= none);
                assert(is_above(first.pending[0], names));
            }
        }
    } else {
        let before = took_dirs(tree, rules, listings.drop_last());
        lemma_took_dirs(tree, rules, listings.drop_last());
        let dir = before.pending.last();
        let rest = Storing { pending: before.pending.drop_last(), ..before };
        let last = before.pending.len() - 1;
        assert(before.pending[last] == dir);
        assert(is_pending(tree, rules, before, dir));
        assert(stored_within(tree, rules, rest, dir, Seq::empty())) by {
            assert forall|k: int| 0 <= k < rest.pending.len() implies is_pending(
                tree,
                rules,
                rest,
                #[trigger] rest.pending[k],
            ) by {
                assert(rest.pending[k] == before.pending[k]);
                assert(is_pending(tree, rules, before, before.pending[k]));
            }
            assert forall|k: int, l: int| 0 <= k < l < rest.pending.len() implies #[trigger] rest.pending[k]
                != #[trigger] rest.pending[l] by {
                assert(rest.pending[k] == before.pending[k] && rest.pending[l] == before.pending[l]);
            }
            if rest.pending.contains(dir) {
                let k = choose|k: int| 0 <= k < rest.pending.len() && rest.pending[k] == dir;
                assert(before.pending[k] == before.pending[last]);
            }
            assert forall|names: Seq<Seq<u8>>| #[trigger]
                kept(tree, rules, names) is Some implies is_stored(rest.stored, names) || awaits(
                rest.pending,
                names,
            ) || is_above(dir, names) by {
                if awaits(before.pending, names) {
                    let k = choose|k: int|
                        0 <= k < before.pending.len() && is_above(#[trigger] before.pending[k], names);
                    if k < last {
                        assert(rest.pending[k] == before.pending[k]);
                    }
                }
            }
        }
        let listing = listings.last();
        lemma_took_entries(tree, rules, rest, dir, listing);
        let after = took_dirs(tree, rules, listings);
        assert forall|names: Seq<Seq<u8>>| #[trigger]
            kept(tree, rules, names) is Some implies is_stored(after.stored, names) || awaits(
            after.pending,
            names,
        ) by {
            if is_above(dir, names) && !listing.contains(names[dir.len() as int]) {
                let child = names.take((dir.len() + 1) as int);
                assert(child =~= dir.push(names[dir.len() as int]));
                if names.len() > dir.len() + 1 {
                    lemma_kept_above(tree, rules, child, names);
                } else {
                    assert(child =~= names);
                }
                assert(tree.dom().contains(dir.push(names[dir.len() as int]))) by {
                    reveal(kept);
                }
            }
        }
    }
}

/// Once no directory is left to be read, exactly what is kept was stored: each place
/// once, and after the directory that it lies in.
pub proof fn lemma_everything_kept_is_stored(
    tree: Tree,
    rules: Rules,
    listings: Seq<Seq<Seq<u8>>>,
)
    requires
        is_tree(tree),
        are_listings(tree, rules, listings),
        took_dirs(tree, rules, listings).pending.len() == 0,
    ensures
        in_order(tree, rules, took_dirs(tree, rules, listings).stored),
        forall|names: Seq<Seq<u8>>| #[trigger]
            kept(tree, rules, names) is Some <==> is_stored(
                took_dirs(tree, rules, listings).stored,
                names,
            ),
{
    lemma_took_dirs(tree, rules, listings);
}

/// The walk through a data directory looks at its entries by these names: an entry
/// of a directory that may be stored is an excluded cache or may be stored itself,
/// and its path in the payload is the one for its names.
pub proof fn lemma_walk_goes_by_names(
    walk: DataWalkView,
    id: Seq<char>,
    dir: Seq<Seq<u8>>,
    name: Seq<u8>,
)
    requires
        walk.prefix == join_path(data_dir_name(), encode_utf8(id)),
        walk.current == relative_path(dir),
        storable(dir, walk.exclude_caches),
        is_plain_name(name),
    ensures
        walk.excludes(name) <==> !storable(dir.push(name), walk.exclude_caches),
        join_path(walk.current, name) == relative_path(dir.push(name)),
        join_path(walk.prefix, relative_path(dir.push(name))) == payload_path(id, dir.push(name)),
{
    let names = dir.push(name);
    assert(names.drop_last() =~= dir);
    assert(dir.len() == 0 <==> walk.current.len() == 0) by {
        if dir.len() > 0 {
            lemma_join_all_end(Seq::empty(), dir);
        }
    }
    if dir.len() > 0 {
        assert(names[0] == dir[0]);
    } else {
        assert(names[0] == name);
    }
    lemma_join_at_once(walk.prefix, names);
}

// ---------------------------------------------------------------- restoring

/// A restore of one application's data: what the extraction knows, and what its data
/// directory holds.
pub struct Restoring {
    pub state: ExtractionView,
    pub disk: Tree,
}

pub open spec fn kind_of(node: Node) -> EntryKindView {
    match node {
        Node::Dir => EntryKindView::Directory,
        Node::File(_) => EntryKindView::Regular,
        Node::Link(target) => EntryKindView::Symlink(Some(target)),
        Node::Other => EntryKindView::Other(Seq::empty()),
    }
}

/// How many bytes of a file are counted.
pub open spec fn counted(node: Node) -> Option<u64> {
    match node {
        Node::File(content) => Some(content.len() as u64),
        _ => None,
    }
}

/// True if `place` is left as it is when `node` is written at `names`. A link
/// replaces what is in its place, with everything below.
pub open spec fn stays(names: Seq<Seq<u8>>, node: Node, place: Seq<Seq<u8>>) -> bool {
    place != names && !(node is Link && is_above(names, place))
}

/// A data directory once `node` was written at `names`, and the directories above it
/// were made where they were missing.
pub open spec fn placed(disk: Tree, names: Seq<Seq<u8>>, node: Node) -> Tree {
    Map::new(
        |place: Seq<Seq<u8>>|
            place == names || is_above(place, names) || (disk.dom().contains(place) && stays(
                names,
                node,
                place,
            )),
        |place: Seq<Seq<u8>>|
            if place == names {
                node
            } else if disk.dom().contains(place) {
                disk[place]
            } else {
                Node::Dir
            },
    )
}

/// The restore once the next entry of the payload was dealt with.
pub open spec fn put_back(restoring: Restoring, id: Seq<char>, entry: Stored) -> Restoring {
    let raw = payload_path(id, entry.names);
    let (met, action) = entry_outcome(restoring.state, Ok(raw));
    match action {
        EntryActionView::Skip => Restoring { state: met, ..restoring },
        EntryActionView::Unpack { app_id, relative, destination } => {
            let (ready, how) = unpack_outcome(met, kind_of(entry.node));
            match how {
                Ok(_) => Restoring {
                    state: after_unpacking(ready, app_id, raw, Ok(counted(entry.node))),
                    disk: placed(restoring.disk, names_in(parts(relative)), entry.node),
                },
                Err(message) => Restoring {
                    state: after_unpacking(ready, app_id, raw, Err(message)),
                    ..restoring
                },
            }
        },
    }
}

/// The restore once all of `stored` was dealt with.
pub open spec fn put_all_back(restoring: Restoring, id: Seq<char>, stored: Seq<Stored>) -> Restoring
    decreases stored.len(),
{
    if stored.len() == 0 {
        restoring
    } else {
        put_back(put_all_back(restoring, id, stored.drop_last()), id, stored.last())
    }
}

/// A restore of the application `id` can begin: it is wanted, and nothing of it is
/// there.
pub open spec fn can_begin(start: Restoring, id: Seq<char>) -> bool {
    &&& valid_app_id(id)
    &&& start.state.wanted.contains(id)
    &&& start.state.current != id
    &&& start.disk == Map::<Seq<Seq<u8>>, Node>::empty()
    &&& forall|i: int|
        0 <= i < start.state.links.len() ==> (#[trigger] start.state.links[i]).id != id
}

/// True if every name is text.
pub open spec fn are_text(stored: Seq<Stored>) -> bool {
    forall|i: int, k: int|
        #![trigger stored[i].names[k]]
        0 <= i < stored.len() && 0 <= k < stored[i].names.len() ==> valid_utf8(stored[i].names[k])
}

/// True if each of the first `n` links is accepted when its turn comes: no link
/// leads outside then once the links written before it are followed, or turns back
/// behind links that never end.
pub open spec fn links_accepted(start: Restoring, id: Seq<char>, stored: Seq<Stored>, n: int) -> bool {
    forall|k: int|
        0 <= k < n ==> ((#[trigger] stored[k]).node matches Node::Link(target) ==> admissible(
            put_all_back(start, id, stored.take(k)).state.links,
            id,
            stored[k].names,
            Some(target),
        ))
}

/// What holds once `stored` was put back.
spec fn back(start: Restoring, id: Seq<char>, stored: Seq<Stored>, now: Restoring) -> bool {
    &&& now.state.issues == start.state.issues
    &&& now.state.wanted == start.state.wanted
    &&& now.state.root == start.state.root
    &&& stored.len() == 0 ==> now.state.restored == start.state.restored && now.state.current
        == start.state.current
    &&& stored.len() > 0 ==> now.state.restored == start.state.restored.push(id)
        && now.state.current == id
    &&& forall|names: Seq<Seq<u8>>| #[trigger]
        now.disk.dom().contains(names) <==> is_stored(stored, names)
    &&& forall|i: int|
        0 <= i < stored.len() ==> now.disk[(#[trigger] stored[i]).names] == stored[i].node
    &&& forall|i: int|
        0 <= i < now.state.links.len() && (#[trigger] now.state.links[i]).id == id ==> is_link_of(
            stored,
            now.state.links[i],
        )
}

/// True if `link` is one of the links stored.
spec fn is_link_of(stored: Seq<Stored>, link: LinkView) -> bool {
    exists|j: int|
        0 <= j < stored.len() && #[trigger] stored[j] == (Stored {
            names: link.names,
            node: Node::Link(link.target),
        })
}

/// Every directory on the way to what is stored was stored before it.
proof fn lemma_above_stored_before(
    tree: Tree,
    rules: Rules,
    stored: Seq<Stored>,
    k: int,
    above: Seq<Seq<u8>>,
)
    requires
        in_order(tree, rules, stored),
        0 <= k < stored.len(),
        is_above(above, stored[k].names),
    ensures
        is_stored(stored.take(k), above),
    decreases stored[k].names.len(),
{
    let names = stored[k].names;
    let parent = names.drop_last();
    assert(is_stored(stored.take(k), parent));
    let j = choose|j: int| 0 <= j < k && (#[trigger] stored.take(k)[j]).names == parent;
    assert(stored[j].names == parent);
    if above.len() == parent.len() {
        assert(above =~= parent);
    } else {
        assert(parent.take(above.len() as int) =~= names.take(above.len() as int));
        lemma_above_stored_before(tree, rules, stored, j, above);
        let i = choose|i: int| 0 <= i < j && (#[trigger] stored.take(j)[i]).names == above;
        assert(stored.take(k)[i].names == above);
    }
}

/// Writing the next entry adds it to the data directory, and nothing else.
proof fn lemma_placed(tree: Tree, rules: Rules, stored: Seq<Stored>, k: int, disk: Tree)
    requires
        in_order(tree, rules, stored),
        0 <= k < stored.len(),
        forall|names: Seq<Seq<u8>>| #[trigger]
            disk.dom().contains(names) <==> is_stored(stored.take(k), names),
    ensures
        placed(disk, stored[k].names, stored[k].node) == disk.insert(
            stored[k].names,
            stored[k].node,
        ),
        !disk.dom().contains(stored[k].names),
{
    let names = stored[k].names;
    let node = stored[k].node;
    if is_stored(stored.take(k), names) {
        let j = choose|j: int| 0 <= j < k && (#[trigger] stored.take(k)[j]).names == names;
        assert(stored[j].names == stored[k].names);
    }
    assert forall|place: Seq<Seq<u8>>| is_above(place, names) implies #[trigger] disk.dom().contains(
        place,
    ) by {
        lemma_above_stored_before(tree, rules, stored, k, place);
    }
    assert forall|place: Seq<Seq<u8>>| #[trigger] disk.dom().contains(place) implies !is_above(
        names,
        place,
    ) by {
        if is_above(names, place) {
            let j = choose|j: int| 0 <= j < k && (#[trigger] stored.take(k)[j]).names == place;
            assert(stored[j].names == place);
            lemma_above_stored_before(tree, rules, stored, j, names);
            let i = choose|i: int| 0 <= i < j && (#[trigger] stored.take(j)[i]).names == names;
            assert(stored[i].names == stored[k].names);
        }
    }
    assert(placed(disk, names, node) =~= disk.insert(names, node));
}

/// No link that was written lies in the way of the next entry, or in its place.
proof fn lemma_no_link_in_the_way(
    tree: Tree,
    rules: Rules,
    stored: Seq<Stored>,
    k: int,
    links: Seq<LinkView>,
    id: Seq<char>,
)
    requires
        is_tree(tree),
        in_order(tree, rules, stored),
        0 <= k < stored.len(),
        forall|i: int|
            0 <= i < links.len() && (#[trigger] links[i]).id == id ==> is_link_of(
                stored.take(k),
                links[i],
            ),
    ensures
        !through_link(links, id, stored[k].names),
        link_at(links, id, stored[k].names) is None,
{
    let names = stored[k].names;
    assert(kept(tree, rules, names) is Some);
    if through_link(links, id, names) {
        let i = choose|i: int|
            {
                &&& 0 <= i < links.len()
                &&& (#[trigger] links[i]).id == id
                &&& links[i].names.len() < names.len()
                &&& links[i].names.is_prefix_of(names)
            };
        let link = links[i];
        assert(is_link_of(stored.take(k), link));
        let j = choose|j: int|
            0 <= j < k && #[trigger] stored.take(k)[j] == (Stored {
                names: link.names,
                node: Node::Link(link.target),
            });
        assert(kept(tree, rules, stored[j].names) == Some(stored[j].node));
        assert(is_above(link.names, names)) by {
            assert(link.names =~= names.take(link.names.len() as int));
        }
        lemma_kept_above(tree, rules, link.names, names);
    }
    lemma_link_at(links, id, names);
    if let Some(target) = link_at(links, id, names) {
        let i = choose|i: int|
            0 <= i < links.len() && #[trigger] links[i] == (LinkView { id, names, target });
        assert(is_link_of(stored.take(k), links[i]));
        let j = choose|j: int|
            0 <= j < k && #[trigger] stored.take(k)[j] == (Stored {
                names,
                node: Node::Link(target),
            });
        assert(stored[j].names == stored[k].names);
    }
}

/// What is kept can be written again.
proof fn lemma_kept_is_restorable(tree: Tree, rules: Rules, names: Seq<Seq<u8>>)
    requires
        is_tree(tree),
        kept(tree, rules, names) is Some,
    ensures
        storable(names, rules.exclude_caches),
        kept(tree, rules, names)->0 !is Other,
        kept(tree, rules, names)->0 matches Node::Link(target) ==> names.len() > 0
            && target_contained(depth_below(names), target),
{
    reveal(kept);
    if names.len() == 0 {
        assert(names =~= Seq::<Seq<u8>>::empty());
    }
    lemma_relative_path(names);
}

/// An entry that no link is in the way of, and whose link is accepted if it is one,
/// is written.
proof fn lemma_entry_accepted(
    state: ExtractionView,
    id: Seq<char>,
    names: Seq<Seq<u8>>,
    node: Node,
)
    requires
        valid_app_id(id),
        state.wanted.contains(id),
        !through_link(state.links, id, names),
        link_at(state.links, id, names) is None,
        node !is Other,
        forall|i: int|
            0 <= i < names.len() ==> is_plain_name(#[trigger] names[i]) && valid_utf8(names[i]),
        node matches Node::Link(target) ==> target_contained(depth_below(names), target)
            && admissible(state.links, id, names, Some(target)),
    ensures
        ({
            let (met, action) = entry_outcome(state, Ok(payload_path(id, names)));
            let (ready, how) = unpack_outcome(met, kind_of(node));
            &&& action == (EntryActionView::Unpack {
                app_id: id,
                relative: relative_path(names),
                destination: join_all(data_dir_of(state.root, id), names),
            })
            &&& names_in(parts(relative_path(names))) == names
            &&& how is Ok
            &&& ready == (ExtractionView {
                current: id,
                restored: if state.current == id {
                    state.restored
                } else {
                    state.restored.push(id)
                },
                pending: PendingView::Writing { id, names, target: target_of(node) },
                ..state
            })
        }),
{
    lemma_entry_goes_back(state, id, names);
    lemma_payload_path_splits(id, names);
    lemma_relative_path(names);
    lemma_unpacked_by_name(state, id, names);
}

/// Where a link points.
spec fn target_of(node: Node) -> Option<Seq<u8>> {
    match node {
        Node::Link(target) => Some(target),
        _ => None,
    }
}

/// Putting the next entry back.
proof fn lemma_put_back(
    tree: Tree,
    rules: Rules,
    start: Restoring,
    id: Seq<char>,
    stored: Seq<Stored>,
    k: int,
    now: Restoring,
)
    requires
        is_tree(tree),
        in_order(tree, rules, stored),
        are_text(stored),
        can_begin(start, id),
        0 <= k < stored.len(),
        back(start, id, stored.take(k), now),
        stored[k].node matches Node::Link(target) ==> admissible(
            now.state.links,
            id,
            stored[k].names,
            Some(target),
        ),
    ensures
        back(start, id, stored.take(k + 1), put_back(now, id, stored[k])),
{
    let entry = stored[k];
    let (names, node) = (entry.names, entry.node);
    assert(kept(tree, rules, names) == Some(node));
    lemma_kept_is_restorable(tree, rules, names);
    lemma_no_link_in_the_way(tree, rules, stored, k, now.state.links, id);
    assert forall|i: int| 0 <= i < names.len() implies is_plain_name(#[trigger] names[i])
        && valid_utf8(names[i]) by {
        assert(valid_utf8(stored[k].names[i]));
    }
    lemma_entry_accepted(now.state, id, names, node);
    lemma_placed(tree, rules, stored, k, now.disk);
    let after = put_back(now, id, entry);
    let before = stored.take(k);
    let done = stored.take(k + 1);
    assert(done =~= before.push(entry));
    assert(after.disk == now.disk.insert(names, node));
    assert forall|place: Seq<Seq<u8>>| #[trigger]
        after.disk.dom().contains(place) <==> is_stored(done, place) by {
        lemma_stored_longer(before, entry, place);
    }
    assert forall|i: int| 0 <= i < done.len() implies after.disk[(#[trigger] done[i]).names]
        == done[i].node by {
        if i < k {
            assert(done[i] == before[i]);
            assert(stored[i].names != stored[k].names);
        }
    }
    let links = now.state.links;
    let target = target_of(node);
    assert(after.state.links == links_after(links, id, names, target));
    lemma_without(links, id, names, target is Some);
    assert forall|i: int|
        0 <= i < after.state.links.len() && (#[trigger] after.state.links[i]).id == id implies is_link_of(
        done,
        after.state.links[i],
    ) by {
        let link = after.state.links[i];
        let left = without(links, id, names, target is Some);
        if i < left.len() {
            assert(link == left[i]);
            let m = choose|m: int| 0 <= m < links.len() && links[m] == link;
            assert(is_link_of(before, links[m]));
            let j = choose|j: int|
                0 <= j < before.len() && #[trigger] before[j] == (Stored {
                    names: link.names,
                    node: Node::Link(link.target),
                });
            assert(done[j] == before[j]);
        } else {
            assert(done[k] == entry);
        }
    }
}

/// What was stored is put back: the data directory holds it and nothing else, nothing
/// was refused, and the application counts as restored.
proof fn lemma_put_all_back(
    tree: Tree,
    rules: Rules,
    start: Restoring,
    id: Seq<char>,
    stored: Seq<Stored>,
    n: int,
)
    requires
        is_tree(tree),
        in_order(tree, rules, stored),
        are_text(stored),
        can_begin(start, id),
        0 <= n <= stored.len(),
        links_accepted(start, id, stored, n),
    ensures
        back(start, id, stored.take(n), put_all_back(start, id, stored.take(n))),
    decreases n,
{
    if n > 0 {
        lemma_put_all_back(tree, rules, start, id, stored, n - 1);
        let before = put_all_back(start, id, stored.take(n - 1));
        lemma_put_back(tree, rules, start, id, stored, n - 1, before);
        assert(stored.take(n).drop_last() =~= stored.take(n - 1));
        assert(stored.take(n).last() == stored[n - 1]);
    } else {
        assert forall|names: Seq<Seq<u8>>| !#[trigger] start.disk.dom().contains(names) by {}
    }
}

/// The links among what was stored of the application `id`.
pub open spec fn links_of(id: Seq<char>, stored: Seq<Stored>) -> Seq<LinkView>
    decreases stored.len(),
{
    if stored.len() == 0 {
        Seq::empty()
    } else {
        let before = links_of(id, stored.drop_last());
        match stored.last().node {
            Node::Link(target) => before.push(
                LinkView { id, names: stored.last().names, target },
            ),
            _ => before,
        }
    }
}

/// True if no link's target turns back behind another link.
pub open spec fn none_crosses(id: Seq<char>, stored: Seq<Stored>) -> bool {
    forall|j: int|
        0 <= j < stored.len() ==> ((#[trigger] stored[j]).node matches Node::Link(target)
            ==> !crosses(
            links_of(id, stored),
            id,
            stored[j].names.drop_last(),
            turn(parts(target)),
        ))
}

proof fn lemma_links_of(id: Seq<char>, stored: Seq<Stored>, link: LinkView)
    requires
        is_link_of(stored, link),
        link.id == id,
    ensures
        link_at(links_of(id, stored), id, link.names) is Some,
    decreases stored.len(),
{
    let j = choose|j: int|
        0 <= j < stored.len() && #[trigger] stored[j] == (Stored {
            names: link.names,
            node: Node::Link(link.target),
        });
    let less = stored.drop_last();
    let all = links_of(id, stored);
    if j < stored.len() - 1 {
        assert(less[j] == stored[j]);
        lemma_links_of(id, less, link);
        if stored.last().node is Link {
            assert(all.drop_last() =~= links_of(id, less));
        }
    } else {
        assert(all.last() == link);
    }
}

/// A link that turns back behind no other link settles among what was restored.
proof fn lemma_restored_link_settles(
    tree: Tree,
    rules: Rules,
    id: Seq<char>,
    stored: Seq<Stored>,
    n: int,
    links: Seq<LinkView>,
    link: LinkView,
)
    requires
        is_tree(tree),
        in_order(tree, rules, stored),
        none_crosses(id, stored),
        0 <= n <= stored.len(),
        forall|i: int|
            0 <= i < links.len() && (#[trigger] links[i]).id == id ==> is_link_of(
                stored.take(n),
                links[i],
            ),
        link.id == id,
        is_link_of(stored.take(n), link),
    ensures
        settles(links, link),
{
    let j = choose|j: int|
        0 <= j < n && #[trigger] stored.take(n)[j] == (Stored {
            names: link.names,
            node: Node::Link(link.target),
        });
    assert(stored[j] == stored.take(n)[j]);
    assert(kept(tree, rules, stored[j].names) == Some(stored[j].node));
    lemma_kept_is_restorable(tree, rules, link.names);
    let dir = link.names.drop_last();
    let ps = turn(parts(link.target));
    if crosses(links, id, dir, ps) {
        let i = choose|i: int|
            {
                &&& 0 <= i < ps.len()
                &&& #[trigger] ps[i] is Name
                &&& walk(dir, ps.take(i + 1)) matches Some(place) && link_at(
                    links,
                    id,
                    place,
                ) is Some
            };
        let place = walk(dir, ps.take(i + 1))->0;
        lemma_link_at(links, id, place);
        let target = link_at(links, id, place)->0;
        let m = choose|m: int|
            0 <= m < links.len() && #[trigger] links[m] == (LinkView { id, names: place, target });
        assert(is_link_of(stored.take(n), links[m]));
        let o = choose|o: int|
            0 <= o < n && #[trigger] stored.take(n)[o] == (Stored {
                names: place,
                node: Node::Link(target),
            });
        assert(stored[o] == stored.take(n)[o]);
        assert(is_link_of(stored, links[m]));
        lemma_links_of(id, stored, links[m]);
        assert(crosses(links_of(id, stored), id, dir, ps));
    }
    lemma_uncrossed_link_settles(links, link);
}

/// Where no link's target turns back behind another link, every link is accepted
/// when its turn comes.
pub proof fn lemma_uncrossed_links_are_accepted(
    tree: Tree,
    rules: Rules,
    start: Restoring,
    id: Seq<char>,
    stored: Seq<Stored>,
    n: int,
)
    requires
        is_tree(tree),
        in_order(tree, rules, stored),
        are_text(stored),
        can_begin(start, id),
        settled(start.state.links),
        none_crosses(id, stored),
        0 <= n <= stored.len(),
    ensures
        links_accepted(start, id, stored, n),
        settled(put_all_back(start, id, stored.take(n)).state.links),
    decreases n,
{
    if n > 0 {
        let k = n - 1;
        lemma_uncrossed_links_are_accepted(tree, rules, start, id, stored, k);
        lemma_put_all_back(tree, rules, start, id, stored, k);
        let now = put_all_back(start, id, stored.take(k));
        let links = now.state.links;
        let (names, node) = (stored[k].names, stored[k].node);
        assert(kept(tree, rules, names) == Some(node));
        lemma_kept_is_restorable(tree, rules, names);
        lemma_no_link_in_the_way(tree, rules, stored, k, links, id);
        let after = links_after(links, id, names, target_of(node));
        if node is Link {
            lemma_without(links, id, names, true);
            let left = without(links, id, names, true);
            assert forall|i: int| 0 <= i < after.len() && (#[trigger] after[i]).id == id implies is_link_of(
                stored.take(n),
                after[i],
            ) by {
                if i < left.len() {
                    assert(after[i] == left[i]);
                    let m = choose|m: int| 0 <= m < links.len() && links[m] == left[i];
                    assert(is_link_of(stored.take(k), links[m]));
                    let j = choose|j: int|
                        0 <= j < k && #[trigger] stored.take(k)[j] == (Stored {
                            names: after[i].names,
                            node: Node::Link(after[i].target),
                        });
                    assert(stored.take(n)[j] == stored.take(k)[j]);
                } else {
                    assert(stored.take(n)[k] == stored[k]);
                }
            }
            assert forall|i: int| 0 <= i < after.len() implies settles(
                after,
                #[trigger] after[i],
            ) by {
                if after[i].id == id {
                    lemma_restored_link_settles(tree, rules, id, stored, n, after, after[i]);
                } else {
                    assert(after[i] == left[i]);
                    let m = choose|m: int| 0 <= m < links.len() && links[m] == left[i];
                    assert(settles(links, links[m]));
                    lemma_other_links_settle(links, id, names, target_of(node), after[i]);
                }
            }
        } else {
            lemma_without_nothing(links, id, names);
        }
        assert(settled(after));
        assert forall|i: int| 0 <= i < names.len() implies is_plain_name(#[trigger] names[i])
            && valid_utf8(names[i]) by {
            assert(valid_utf8(stored[k].names[i]));
        }
        lemma_entry_accepted(now.state, id, names, node);
        assert(stored.take(n).drop_last() =~= stored.take(k));
        assert(stored.take(n).last() == stored[k]);
    }
}

/// A data directory that is backed up and restored comes back as it was: without
/// what a backup leaves out, with absolute links into it made relative, and with
/// nothing else in it. Nothing is reported, and the application counts as restored.
///
/// Names that are not text are refused when they are restored. So are links that lead
/// outside once other links are followed, such as `k -> d/l/..` where `d/l` points at
/// `..`, and links that turn back behind others which never end, such as `c -> a/../x`
/// where `a` points at itself. All of these are left out.
pub proof fn lemma_data_round_trips(
    tree: Tree,
    rules: Rules,
    listings: Seq<Seq<Seq<u8>>>,
    start: Restoring,
    id: Seq<char>,
)
    requires
        is_tree(tree),
        are_listings(tree, rules, listings),
        took_dirs(tree, rules, listings).pending.len() == 0,
        can_begin(start, id),
        are_text(took_dirs(tree, rules, listings).stored),
        links_accepted(
            start,
            id,
            took_dirs(tree, rules, listings).stored,
            took_dirs(tree, rules, listings).stored.len() as int,
        ),
    ensures
        ({
            let done = put_all_back(start, id, took_dirs(tree, rules, listings).stored);
            &&& done.disk == kept_tree(tree, rules)
            &&& done.state.issues == start.state.issues
            &&& done.state.restored == start.state.restored.push(id)
        }),
{
    let stored = took_dirs(tree, rules, listings).stored;
    lemma_everything_kept_is_stored(tree, rules, listings);
    lemma_put_all_back(tree, rules, start, id, stored, stored.len() as int);
    assert(stored.take(stored.len() as int) =~= stored);
    let done = put_all_back(start, id, stored);
    assert forall|names: Seq<Seq<u8>>| #[trigger] done.disk.dom().contains(names) implies done.disk[names]
        == kept(tree, rules, names)->0 by {
        let i = choose|i: int| 0 <= i < stored.len() && (#[trigger] stored[i]).names == names;
        assert(done.disk[stored[i].names] == stored[i].node);
    }
    assert(done.disk =~= kept_tree(tree, rules));
    assert(kept(tree, rules, Seq::empty()) is Some) by {
        reveal(kept);
    }
    assert(is_stored(stored, Seq::empty()));
}

/// An extraction of the data of those of `apps` that `wanted` point at, below `root`,
/// into a data directory that is not there.
pub open spec fn fresh_start(
    apps: Seq<AppEntryView>,
    wanted: Seq<usize>,
    root: Seq<u8>,
    total_bytes: u64,
) -> Restoring {
    Restoring {
        state: ExtractionView {
            wanted: wanted_ids(apps, wanted),
            total_bytes,
            root,
            done_bytes: 0,
            current: Seq::empty(),
            restored: Seq::empty(),
            issues: Seq::empty(),
            links: Seq::empty(),
            unsure: Seq::empty(),
            pending: PendingView::Nothing,
        },
        disk: Map::empty(),
    }
}

/// The data of an application comes back with a restore: once the archive's was
/// extracted, its data directory holds what was kept of it and nothing else, the
/// report names it as restored, and no issue.
///
/// Names that are not text are refused when they are restored. So are links that lead
/// outside once other links are followed, and links that turn back behind others which
/// never end. All of these are left out.
pub proof fn lemma_restored_data_is_reported(
    tree: Tree,
    rules: Rules,
    listings: Seq<Seq<Seq<u8>>>,
    apps: Seq<AppEntryView>,
    app: usize,
    root: Seq<u8>,
    total_bytes: u64,
    ready: RestoreView,
)
    requires
        is_tree(tree),
        are_listings(tree, rules, listings),
        took_dirs(tree, rules, listings).pending.len() == 0,
        are_text(took_dirs(tree, rules, listings).stored),
        links_accepted(
            fresh_start(apps, ready.wanted, root, total_bytes),
            apps[app as int].id,
            took_dirs(tree, rules, listings).stored,
            took_dirs(tree, rules, listings).stored.len() as int,
        ),
        app < apps.len(),
        valid_app_id(apps[app as int].id),
        ready.report == empty_report(),
        ready.wanted == seq![app],
    ensures
        ({
            let start = fresh_start(apps, ready.wanted, root, total_bytes);
            let stored = took_dirs(tree, rules, listings).stored;
            let done = put_all_back(start, apps[app as int].id, stored);
            let (names, issues) = extraction_result(done.state, apps, ready.wanted);
            &&& done.disk == kept_tree(tree, rules)
            &&& after_extraction(ready, names, issues).report == (RestoreReportView {
                data_restored: seq![apps[app as int].shown_name()],
                ..empty_report()
            })
        }),
{
    let id = apps[app as int].id;
    let wanted = ready.wanted;
    let start = fresh_start(apps, wanted, root, total_bytes);
    let stored = took_dirs(tree, rules, listings).stored;
    assert(wanted.drop_last() =~= Seq::<usize>::empty());
    assert(wanted_ids(apps, wanted.drop_last()) =~= Seq::<Seq<char>>::empty());
    assert(start.state.wanted =~= seq![id]);
    assert(start.state.wanted[0] == id);
    assert(can_begin(start, id));
    lemma_data_round_trips(tree, rules, listings, start, id);
    let done = put_all_back(start, id, stored);
    assert(done.state.restored[0] == id);
    let (names, issues) = extraction_result(done.state, apps, wanted);
    assert(extraction_result(done.state, apps, wanted.drop_last()) == (
        Seq::<Seq<char>>::empty(),
        done.state.issues,
    ));
    assert(names =~= seq![apps[app as int].shown_name()]);
    let after = after_extraction(ready, names, issues).report;
    assert(after.data_restored =~= seq![apps[app as int].shown_name()]);
    assert(after.issues =~= Seq::<IssueView>::empty());
}

/// A backup keeps every directory and every file as it is, and leaves out only what is
/// in the cache, if that is to be left out, and what is neither directory, file nor
/// link.
pub proof fn lemma_what_a_backup_keeps(tree: Tree, rules: Rules, names: Seq<Seq<u8>>)
    requires
        tree.dom().contains(names),
        forall|i: int| 0 <= i < names.len() ==> is_plain_name(#[trigger] names[i]),
    ensures
        ({
            let in_cache = names.len() > 0 && names[0] == seq![99u8, 97u8, 99u8, 104u8, 101u8];
            &&& rules.exclude_caches && in_cache ==> kept(tree, rules, names) is None
            &&& !rules.exclude_caches || !in_cache ==> {
                &&& tree[names] is Dir ==> kept(tree, rules, names) == Some(Node::Dir)
                &&& tree[names] matches Node::File(content) ==> kept(tree, rules, names) == Some(
                    Node::File(content),
                )
                &&& tree[names] is Other ==> kept(tree, rules, names) is None
                &&& tree[names] is Link && kept(tree, rules, names) is Some ==> kept(
                    tree,
                    rules,
                    names,
                )->Some_0 is Link
            }
        }),
{
    reveal(kept);
    lemma_cache_is_named();
}

/// A relative link that stays inside the data is kept as it is.
pub proof fn lemma_a_backup_keeps_links(
    tree: Tree,
    rules: Rules,
    names: Seq<Seq<u8>>,
    target: Seq<u8>,
)
    requires
        tree.dom().contains(names),
        names.len() > 0,
        forall|i: int| 0 <= i < names.len() ==> is_plain_name(#[trigger] names[i]),
        tree[names] == Node::Link(target),
        !rules.exclude_caches || names[0] != seq![99u8, 97u8, 99u8, 104u8, 101u8],
        target.len() > 0,
        !is_absolute(target),
        walk(names.drop_last(), parts(target)) is Some,
    ensures
        kept(tree, rules, names) == Some(Node::Link(target)),
{
    let link = relative_path(names);
    assert(depth_of(link) == names.drop_last().len()) by {
        lemma_relative_path(names);
        assert(parts(link).last() is Name);
    }
    assert(storable(names, rules.exclude_caches)) by {
        lemma_cache_is_named();
    }
    reveal(kept);
    lemma_relative_links_are_stored_or_reported(
        target,
        Seq::empty(),
        rules.root,
        rules.canonical,
        link,
        names.drop_last(),
    );
}

/// Whichever and however many applications are restored, the data of each comes back
/// and is reported: what was kept of it and nothing else, and no issue.
///
/// Names and links that are refused when they are restored are left out.
pub proof fn lemma_each_wanted_application_comes_back(
    tree: Tree,
    rules: Rules,
    listings: Seq<Seq<Seq<u8>>>,
    apps: Seq<AppEntryView>,
    wanted: Seq<usize>,
    k: int,
    root: Seq<u8>,
    total_bytes: u64,
)
    requires
        is_tree(tree),
        are_listings(tree, rules, listings),
        took_dirs(tree, rules, listings).pending.len() == 0,
        are_text(took_dirs(tree, rules, listings).stored),
        0 <= k < wanted.len(),
        forall|n: int| 0 <= n < wanted.len() ==> #[trigger] wanted[n] < apps.len(),
        valid_app_id(apps[wanted[k] as int].id),
        links_accepted(
            fresh_start(apps, wanted, root, total_bytes),
            apps[wanted[k] as int].id,
            took_dirs(tree, rules, listings).stored,
            took_dirs(tree, rules, listings).stored.len() as int,
        ),
    ensures
        ({
            let app = apps[wanted[k] as int];
            let start = fresh_start(apps, wanted, root, total_bytes);
            let done = put_all_back(start, app.id, took_dirs(tree, rules, listings).stored);
            let (names, issues) = extraction_result(done.state, apps, wanted);
            &&& done.disk == kept_tree(tree, rules)
            &&& done.state.issues.len() == 0
            &&& done.state.restored == seq![app.id]
            &&& names.contains(
                if app.name.len() == 0 {
                    app.id
                } else {
                    app.name
                },
            )
        }),
{
    let id = apps[wanted[k] as int].id;
    let start = fresh_start(apps, wanted, root, total_bytes);
    let stored = took_dirs(tree, rules, listings).stored;
    lemma_all_wanted_are_extracted(apps, wanted);
    assert(wanted[k] < apps.len());
    assert(start.state.wanted.contains(id));
    assert(can_begin(start, id));
    lemma_data_round_trips(tree, rules, listings, start, id);
    let done = put_all_back(start, id, stored);
    assert(done.state.restored =~= seq![id]);
    assert(done.state.restored[0] == id);
    lemma_every_wanted_application_is_told_of(done.state, apps, wanted);
    assert(done.state.restored.contains(apps[wanted[k] as int].id));
}

} // verus!
