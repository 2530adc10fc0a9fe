//! Deciding how a symlink found in application data is stored.

use vstd::prelude::*;
use crate::path::{
    absolute, components, is_absolute, is_canonical, is_plain_name, lemma_parts_canonical,
    lemma_respelled, name_parts, one_dot, parent_parts, parts, respell, respelled, same_component,
    walk, Component, Part, DOT,
};
use crate::text::{cat2, cat3, lossy_text, text_lossy, views};
use crate::util::{
    depth_of, lemma_contained_targets_stay_inside, symlink_target_is_contained, target_contained,
};

verus! {

// --------------------------------------------------------- relative_between

/// How many components `a` and `b` start with in common.
pub open spec fn shared_len(a: Seq<Part>, b: Seq<Part>) -> nat
    decreases a.len(),
{
    if a.len() == 0 || b.len() == 0 || a[0] != b[0] {
        0
    } else {
        1 + shared_len(a.skip(1), b.skip(1))
    }
}

/// `n` times `..`.
pub open spec fn ups(n: nat) -> Seq<Part> {
    Seq::new(n, |i: int| Part::Up)
}

/// The components that lead from `from` to `to`: up to where they part, and down
/// again.
pub open spec fn steps_between(from: Seq<Part>, to: Seq<Part>) -> Seq<Part> {
    let shared = shared_len(from, to);
    ups((from.len() - shared) as nat) + to.skip(shared as int)
}

/// The path that leads from `from` to `to`.
pub open spec fn path_between(from: Seq<Part>, to: Seq<Part>) -> Seq<u8> {
    let path = respelled(steps_between(from, to));
    if path.len() == 0 {
        one_dot()
    } else {
        path
    }
}

proof fn lemma_shared_len(a: Seq<Part>, b: Seq<Part>)
    ensures
        shared_len(a, b) <= a.len(),
        shared_len(a, b) <= b.len(),
        forall|i: int| 0 <= i < shared_len(a, b) ==> #[trigger] a[i] == b[i],
    decreases a.len(),
{
    if a.len() > 0 && b.len() > 0 && a[0] == b[0] {
        lemma_shared_len(a.skip(1), b.skip(1));
        assert forall|i: int| 0 <= i < shared_len(a, b) implies #[trigger] a[i] == b[i] by {
            if i > 0 {
                assert(a.skip(1)[i - 1] == b.skip(1)[i - 1]);
            }
        }
    }
}

/// How many components `a` and `b` start with in common.
fn count_shared(a: &Vec<Component>, b: &Vec<Component>) -> (n: usize)
    ensures
        n == shared_len(views(a@), views(b@)),
        n <= a@.len(),
        n <= b@.len(),
{
    let ghost from = views(a@);
    let ghost to = views(b@);
    let mut i: usize = 0;
    proof {
        assert(from.skip(0) =~= from);
        assert(to.skip(0) =~= to);
    }
    while i < a.len() && i < b.len() && same_component(&a[i], &b[i])
        invariant
            i <= a@.len(),
            i <= b@.len(),
            from == views(a@),
            to == views(b@),
            shared_len(from, to) == i + shared_len(from.skip(i as int), to.skip(i as int)),
        decreases a.len() - i,
    {
        proof {
            assert(from.skip(i as int)[0] == a@[i as int]@);
            assert(to.skip(i as int)[0] == b@[i as int]@);
            assert(from.skip(i as int).skip(1) =~= from.skip(i + 1));
            assert(to.skip(i as int).skip(1) =~= to.skip(i + 1));
        }
        i = i + 1;
    }
    proof {
        if i < a@.len() && i < b@.len() {
            assert(from.skip(i as int)[0] == a@[i as int]@);
            assert(to.skip(i as int)[0] == b@[i as int]@);
        }
    }
    i
}

/// Builds the path that leads from one place to another, both relative to the same
/// root.
fn between(from: &Vec<Component>, to: &Vec<Component>) -> (out: Vec<u8>)
    ensures
        out@ == path_between(views(from@), views(to@)),
{
    let shared: usize = count_shared(from, to);
    let mut steps: Vec<Component> = Vec::new();
    let mut i: usize = shared;
    let ghost up = (from@.len() - shared) as nat;
    while i < from.len()
        invariant
            shared <= i <= from@.len(),
            steps@.len() == i - shared,
            forall|k: int| 0 <= k < steps@.len() ==> (#[trigger] steps@[k])@ == Part::Up,
        decreases from.len() - i,
    {
        steps.push(Component::ParentDir);
        i = i + 1;
    }
    assert(views(steps@) =~= ups(up));
    let mut k: usize = shared;
    let ghost down = views(to@).skip(shared as int);
    assert(down.take(0) =~= Seq::<Part>::empty());
    assert(ups(up) + down.take(0) =~= ups(up));
    while k < to.len()
        invariant
            shared <= k <= to@.len(),
            down == views(to@).skip(shared as int),
            views(steps@) == ups(up) + down.take(k - shared),
        decreases to.len() - k,
    {
        let step = match &to[k] {
            Component::RootDir => Component::RootDir,
            Component::CurDir => Component::CurDir,
            Component::ParentDir => Component::ParentDir,
            Component::Normal(name) => Component::Normal(crate::path::bytes_of(name)),
        };
        assert(step@ == to@[k as int]@);
        let ghost before = views(steps@);
        let ghost step_view = step@;
        steps.push(step);
        proof {
            assert(views(steps@) =~= before.push(step_view));
            assert(down.take(k + 1 - shared) =~= down.take(k - shared).push(down[k - shared]));
            assert(ups(up) + down.take(k + 1 - shared) =~= (ups(up) + down.take(k - shared)).push(
                step_view,
            ));
        }
        k = k + 1;
    }
    assert(down.take(down.len() as int) =~= down);
    let mut out = respell(&steps);
    if out.len() == 0 {
        out.push(DOT);
        assert(out@ =~= one_dot());
    }
    out
}

/// Builds the path from `from_dir` to `to`, both relative to the same root.
pub fn relative_between(from_dir: &[u8], to: &[u8]) -> (out: Vec<u8>)
    ensures
        out@ == path_between(parts(from_dir@), parts(to@)),
{
    between(&components(from_dir), &components(to))
}

pub proof fn lemma_walk_split(dir: Seq<Seq<u8>>, a: Seq<Part>, b: Seq<Part>)
    ensures
        walk(dir, a + b) == match walk(dir, a) {
            Some(reached) => walk(reached, b),
            None => None,
        },
    decreases b.len(),
{
    if b.len() == 0 {
        assert(a + b =~= a);
    } else {
        lemma_walk_split(dir, a, b.drop_last());
        assert((a + b).drop_last() =~= a + b.drop_last());
        assert((a + b).last() == b.last());
    }
}

proof fn lemma_walk_up(dir: Seq<Seq<u8>>, n: nat)
    requires
        n <= dir.len(),
    ensures
        walk(dir, ups(n)) == Some(dir.take(dir.len() - n)),
    decreases n,
{
    if n == 0 {
        assert(dir.take(dir.len() as int) =~= dir);
    } else {
        lemma_walk_up(dir, (n - 1) as nat);
        assert(ups(n).drop_last() =~= ups((n - 1) as nat));
        assert(dir.take(dir.len() - n) =~= dir.take(dir.len() - (n - 1)).drop_last());
    }
}

pub proof fn lemma_walk_down(dir: Seq<Seq<u8>>, names: Seq<Seq<u8>>)
    ensures
        walk(dir, name_parts(names)) == Some(dir + names),
    decreases names.len(),
{
    if names.len() == 0 {
        assert(dir + names =~= dir);
    } else {
        lemma_walk_down(dir, names.drop_last());
        assert(name_parts(names).drop_last() =~= name_parts(names.drop_last()));
        assert(dir + names =~= (dir + names.drop_last()).push(names.last()));
    }
}

/// Following the path between two places from the first leads to the second.
pub proof fn lemma_path_between_leads_there(from: Seq<Seq<u8>>, to: Seq<Part>)
    requires
        is_canonical(to),
        forall|i: int| 0 <= i < to.len() ==> #[trigger] to[i] is Name || to[i] is Up,
    ensures
        walk(from, parts(path_between(name_parts(from), to))) == walk(Seq::empty(), to),
{
    let a = name_parts(from);
    let shared = shared_len(a, to);
    lemma_shared_len(a, to);
    let up = (a.len() - shared) as nat;
    let common = from.take(shared as int);
    let rest = to.skip(shared as int);
    let steps = steps_between(a, to);
    assert(is_canonical(steps)) by {
        assert forall|i: int| #![trigger steps[i]] 0 <= i < steps.len() implies (match steps[i] {
            Part::Name(name) => is_plain_name(name),
            Part::Up => true,
            Part::Root => i == 0,
            Part::Cur => i == 0,
        }) by {
            if i >= up {
                assert(steps[i] == to[i - up + shared]);
            }
        }
    }
    lemma_respelled(steps);
    lemma_walk_split(from, ups(up), rest);
    lemma_walk_up(from, up);
    assert(to =~= name_parts(common) + rest) by {
        assert forall|i: int| 0 <= i < shared implies to[i] == name_parts(common)[i] by {
            assert(a[i] == to[i]);
        }
    }
    lemma_walk_split(Seq::empty(), name_parts(common), rest);
    lemma_walk_down(Seq::empty(), common);
    assert(Seq::<Seq<u8>>::empty() + common =~= common);
    let path = respelled(steps);
    if path.len() == 0 {
        assert(parts(path) =~= Seq::<Part>::empty());
        assert(steps.len() == 0);
        assert(common =~= from);
        assert(rest =~= Seq::<Part>::empty());
        let here = one_dot();
        crate::path::lemma_last_slash_is(here, -1);
        assert(parts(here) =~= seq![Part::Cur]);
        assert(seq![Part::Cur].drop_last() =~= Seq::<Part>::empty());
        reveal_with_fuel(walk, 2);
    }
}

// ------------------------------------------------------------ strip_app_root

/// The components of `target` below `root`, if it is `root` or below it.
pub open spec fn below(root: Seq<Part>, target: Seq<Part>) -> Option<Seq<Part>> {
    if target.len() >= root.len() && target.take(root.len() as int) == root {
        Some(target.skip(root.len() as int))
    } else {
        None
    }
}

/// The components of `target` below either form of the root.
pub open spec fn below_either(
    root: Seq<u8>,
    canonical: Option<Seq<u8>>,
    target: Seq<u8>,
) -> Option<Seq<Part>> {
    match below(parts(root), parts(target)) {
        Some(inside) => Some(inside),
        None => match canonical {
            Some(other) => below(parts(other), parts(target)),
            None => None,
        },
    }
}

fn strip(root: &[u8], target: &[u8]) -> (out: Option<Vec<Component>>)
    ensures
        match out {
            Some(inside) => below(parts(root@), parts(target@)) == Some(views(inside@)),
            None => below(parts(root@), parts(target@)) is None,
        },
{
    let above = components(root);
    let mut all = components(target);
    let ghost whole = parts(target@);
    let ghost top = parts(root@);
    assert(all@.len() == whole.len());
    assert(above@.len() == top.len());
    if all.len() < above.len() {
        return None;
    }
    let mut i: usize = 0;
    while i < above.len()
        invariant
            i <= above@.len() <= all@.len(),
            top == parts(root@),
            whole == parts(target@),
            views(above@) == top,
            views(all@) == whole,
            forall|k: int| 0 <= k < i ==> #[trigger] top[k] == whole[k],
        decreases above.len() - i,
    {
        assert(top[i as int] == above@[i as int]@);
        assert(whole[i as int] == all@[i as int]@);
        if !same_component(&above[i], &all[i]) {
            assert(whole.take(top.len() as int)[i as int] != top[i as int]);
            return None;
        }
        i = i + 1;
    }
    assert(whole.take(top.len() as int) =~= top);
    let inside = all.split_off(above.len());
    assert(views(inside@) =~= whole.skip(top.len() as int));
    Some(inside)
}

fn strip_either(root: &[u8], canonical: &Option<Vec<u8>>, target: &[u8]) -> (out: Option<
    Vec<Component>,
>)
    ensures
        match out {
            Some(inside) => below_either(
                root@,
                crate::appdata::optional_view(*canonical),
                target@,
            ) == Some(views(inside@)),
            None => below_either(
                root@,
                crate::appdata::optional_view(*canonical),
                target@,
            ) is None,
        },
{
    if let Some(inside) = strip(root, target) {
        return Some(inside);
    }
    match canonical {
        Some(other) => strip(other, target),
        None => None,
    }
}

/// Returns `target` relative to the application's data directory, if it is
/// inside it.
///
/// Both the plain and the canonical form of the root are tried, because a
/// distribution may present the same directory under two paths - `/home`
/// symlinked to `/var/home` being the common case.
pub fn strip_app_root(app_root: &[u8], canonical: &Option<Vec<u8>>, target: &[u8]) -> (out: Option<
    Vec<u8>,
>)
    ensures
        match out {
            Some(inside) => below_either(
                app_root@,
                crate::appdata::optional_view(*canonical),
                target@,
            ) == Some(parts(inside@)),
            None => below_either(
                app_root@,
                crate::appdata::optional_view(*canonical),
                target@,
            ) is None,
        },
{
    match strip_either(app_root, canonical, target) {
        Some(inside) => {
            proof {
                lemma_parts_canonical(target@);
                lemma_below_canonical(parts(app_root@), parts(target@));
                if let Some(other) = canonical {
                    lemma_below_canonical(parts(other@), parts(target@));
                }
                lemma_respelled(views(inside@));
            }
            Some(respell(&inside))
        },
        None => None,
    }
}

proof fn lemma_below_canonical(root: Seq<Part>, target: Seq<Part>)
    requires
        is_canonical(target),
    ensures
        below(root, target) matches Some(inside) ==> is_canonical(inside),
{
    if let Some(inside) = below(root, target) {
        assert forall|i: int| #![trigger inside[i]] 0 <= i < inside.len() implies (match inside[i] {
            Part::Name(name) => is_plain_name(name),
            Part::Up => true,
            Part::Root => i == 0,
            Part::Cur => i == 0,
        }) by {
            assert(inside[i] == target[i + root.len()]);
        }
    }
}

// -------------------------------------------------------------- plan_symlink

/// What to do with one symlink found in application data.
#[derive(Debug)]
pub enum SymlinkPlan {
    /// Store it, with this (always relative) target.
    Store(Vec<u8>),
    /// Leave it out, for the stated reason.
    Skip(String),
}

pub enum SymlinkPlanView {
    Store(Seq<u8>),
    Skip(Seq<char>),
}

impl View for SymlinkPlan {
    type V = SymlinkPlanView;

    open spec fn view(&self) -> SymlinkPlanView {
        match self {
            SymlinkPlan::Store(target) => SymlinkPlanView::Store(target@),
            SymlinkPlan::Skip(reason) => SymlinkPlanView::Skip(reason@),
        }
    }
}

pub open spec fn outside_text(target: Seq<u8>) -> Seq<char> {
    "it points to "@ + lossy_text(target) + ", outside the application's data folder"@
}

/// How to store the link at `link` below `root` that points at `target`, or could
/// not be read.
pub open spec fn symlink_plan(
    target: Result<Seq<u8>, Seq<char>>,
    root: Seq<u8>,
    canonical: Option<Seq<u8>>,
    link: Seq<u8>,
) -> SymlinkPlanView {
    match target {
        Err(message) => SymlinkPlanView::Skip("could not be read: "@ + message),
        Ok(to) => {
            let relative = if !is_absolute(to) {
                Some(to)
            } else {
                match below_either(root, canonical, to) {
                    Some(inside) => Some(path_between(parent_parts(link), inside)),
                    None => None,
                }
            };
            match relative {
                None => SymlinkPlanView::Skip(outside_text(to)),
                Some(path) => if target_contained(depth_of(link), path) {
                    SymlinkPlanView::Store(path)
                } else {
                    SymlinkPlanView::Skip(outside_text(path))
                },
            }
        },
    }
}

/// Decides how to store a symlink.
///
/// Absolute targets are the interesting case. Application data really does
/// contain them - libvirt writes its autostart links as absolute paths, for
/// instance - but an absolute path is worse than useless in a backup: the
/// machine it is restored onto may have a different user name, and therefore a
/// different home directory. So an absolute target pointing back inside the
/// application's own data directory is rewritten as a relative one, which
/// restores correctly anywhere. Anything else (a runtime socket under
/// `/run/user`, a path elsewhere on the old system) is left out and reported,
/// because it cannot be made meaningful on the new machine.
pub fn plan_symlink(
    target: Result<Vec<u8>, String>,
    app_root: &[u8],
    canonical: &Option<Vec<u8>>,
    link_relative: &[u8],
) -> (out: SymlinkPlan)
    ensures
        out@ == symlink_plan(
            match target {
                Ok(to) => Ok(to@),
                Err(message) => Err(message@),
            },
            app_root@,
            crate::appdata::optional_view(*canonical),
            link_relative@,
        ),
{
    let target = match target {
        Ok(to) => to,
        Err(message) => {
            return SymlinkPlan::Skip(cat2("could not be read: ", &message));
        },
    };
    let mut link_dir = components(link_relative);
    let ghost ps = parts(link_relative@);
    proof {
        lemma_parts_canonical(link_relative@);
    }
    if let Some(last) = link_dir.pop() {
        assert(ps.last() == last@);
        assert(views(link_dir@) =~= ps.drop_last());
        if let Component::RootDir = last {
            assert(ps[ps.len() - 1] == Part::Root);
            assert(views(link_dir@) =~= Seq::<Part>::empty());
        }
    } else {
        assert(views(link_dir@) =~= Seq::<Part>::empty());
    }
    assert(views(link_dir@) == parent_parts(link_relative@));
    let depth: usize = link_dir.len();
    assert(depth == depth_of(link_relative@));
    let relative_target = if !absolute(&target) {
        target
    } else {
        match strip_either(app_root, canonical, &target) {
            Some(inside) => between(&link_dir, &inside),
            None => {
                return SymlinkPlan::Skip(
                    cat3(
                        "it points to ",
                        &text_lossy(&target),
                        ", outside the application's data folder",
                    ),
                );
            },
        }
    };
    if symlink_target_is_contained(depth, &relative_target) {
        SymlinkPlan::Store(relative_target)
    } else {
        SymlinkPlan::Skip(
            cat3(
                "it points to ",
                &text_lossy(&relative_target),
                ", outside the application's data folder",
            ),
        )
    }
}

/// A stored target never starts at the root, and following it from the link's
/// directory stays inside the application's data, so that a restore accepts it.
pub proof fn lemma_stored_links_are_restorable(
    target: Result<Seq<u8>, Seq<char>>,
    root: Seq<u8>,
    canonical: Option<Seq<u8>>,
    link: Seq<u8>,
)
    ensures
        symlink_plan(target, root, canonical, link) matches SymlinkPlanView::Store(stored) ==> {
            &&& target_contained(depth_of(link), stored)
            &&& !is_absolute(stored)
            &&& forall|dir: Seq<Seq<u8>>|
                dir.len() == depth_of(link) ==> #[trigger] walk(dir, parts(stored)) is Some
        },
{
    if let SymlinkPlanView::Store(stored) = symlink_plan(target, root, canonical, link) {
        assert forall|dir: Seq<Seq<u8>>| dir.len() == depth_of(link) implies #[trigger] walk(
            dir,
            parts(stored),
        ) is Some by {
            lemma_contained_targets_stay_inside(dir, stored);
        }
        if is_absolute(stored) {
            lemma_parts_canonical(stored);
            let dir = Seq::new(depth_of(link), |i: int| Seq::<u8>::empty());
            assert(walk(dir, parts(stored)) is Some);
            lemma_walk_from_root(dir, parts(stored));
        }
    }
}

proof fn lemma_walk_from_root(dir: Seq<Seq<u8>>, ps: Seq<Part>)
    requires
        ps.len() > 0,
        ps[0] == Part::Root,
    ensures
        walk(dir, ps) is None,
    decreases ps.len(),
{
    if ps.len() > 1 {
        assert(ps.drop_last()[0] == ps[0]);
        lemma_walk_from_root(dir, ps.drop_last());
    } else {
        assert(ps.last() == ps[0]);
    }
}

/// An absolute target inside the application's data is stored as a relative one
/// that leads to the same place, also where it climbs on its way.
pub proof fn lemma_absolute_links_are_rewritten(
    root: Seq<u8>,
    canonical: Option<Seq<u8>>,
    target: Seq<u8>,
    link: Seq<u8>,
    link_names: Seq<Seq<u8>>,
)
    requires
        is_absolute(target),
        below_either(root, canonical, target) matches Some(inside) && walk(
            Seq::empty(),
            inside,
        ) is Some,
        parts(link) == name_parts(link_names),
        link_names.len() > 0,
    ensures
        ({
            let plan = symlink_plan(Ok(target), root, canonical, link);
            &&& plan is Store
            &&& walk(link_names.drop_last(), parts(plan->Store_0)) == walk(
                Seq::empty(),
                below_either(root, canonical, target)->0,
            )
        }),
{
    let dir = link_names.drop_last();
    let inside = below_either(root, canonical, target)->0;
    assert(parent_parts(link) =~= name_parts(dir)) by {
        assert(parts(link).last() is Name);
    }
    lemma_parts_canonical(target);
    lemma_below_canonical(parts(root), parts(target));
    if let Some(other) = canonical {
        lemma_below_canonical(parts(other), parts(target));
    }
    assert forall|i: int| 0 <= i < inside.len() implies #[trigger] inside[i] is Name
        || inside[i] is Up by {
        let all = parts(target);
        let n = all.len() - inside.len();
        assert(inside == all.skip(n));
        assert(all[n + i] == inside[i]);
        if inside[i] == Part::Root {
            lemma_walk_from_root(Seq::empty(), inside);
        }
    }
    lemma_path_between_leads_there(dir, inside);
    let path = path_between(parent_parts(link), inside);
    lemma_contained_targets_stay_inside(dir, path);
    assert(path.len() > 0);
}

/// A path is below another if it continues it, and what is left is the continuation.
pub proof fn lemma_below_is_a_continuation(root: Seq<Part>, rest: Seq<Part>, target: Seq<Part>)
    ensures
        below(root, root + rest) == Some(rest),
        below(root, target) matches Some(inside) ==> target == root + inside,
{
    assert((root + rest).take(root.len() as int) =~= root);
    assert((root + rest).skip(root.len() as int) =~= rest);
    if let Some(inside) = below(root, target) {
        assert(target =~= root + inside);
    }
}

/// A relative link is stored just as it is if it stays inside the application's data,
/// and else left out and reported. What cannot be read is reported with the reason.
pub proof fn lemma_relative_links_are_stored_or_reported(
    target: Seq<u8>,
    message: Seq<char>,
    root: Seq<u8>,
    canonical: Option<Seq<u8>>,
    link: Seq<u8>,
    dir: Seq<Seq<u8>>,
)
    requires
        dir.len() == depth_of(link),
        !is_absolute(target),
    ensures
        target.len() > 0 && walk(dir, parts(target)) is Some ==> symlink_plan(
            Ok(target),
            root,
            canonical,
            link,
        ) == SymlinkPlanView::Store(target),
        target.len() == 0 || walk(dir, parts(target)) is None ==> symlink_plan(
            Ok(target),
            root,
            canonical,
            link,
        ) == SymlinkPlanView::Skip(
            "it points to "@ + lossy_text(target) + ", outside the application's data folder"@,
        ),
        symlink_plan(Err(message), root, canonical, link) == SymlinkPlanView::Skip(
            "could not be read: "@ + message,
        ),
{
    lemma_contained_targets_stay_inside(dir, target);
}

/// An absolute link that leads outside the application's data, however that is reached,
/// is left out and reported.
pub proof fn lemma_links_elsewhere_are_reported(
    target: Seq<u8>,
    root: Seq<u8>,
    canonical: Option<Seq<u8>>,
    link: Seq<u8>,
)
    requires
        is_absolute(target),
        !parts(root).is_prefix_of(parts(target)),
        canonical matches Some(other) ==> !parts(other).is_prefix_of(parts(target)),
    ensures
        symlink_plan(Ok(target), root, canonical, link) == SymlinkPlanView::Skip(
            "it points to "@ + lossy_text(target) + ", outside the application's data folder"@,
        ),
{
    let ps = parts(target);
    if below(parts(root), ps) is Some {
        assert(ps.subrange(0, parts(root).len() as int) =~= parts(root));
    }
    if let Some(other) = canonical {
        if below(parts(other), ps) is Some {
            assert(ps.subrange(0, parts(other).len() as int) =~= parts(other));
        }
    }
}

} // verus!
