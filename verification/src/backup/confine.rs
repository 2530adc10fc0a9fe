//! Keeping links inside: where a link leads once the targets of other links are
//! followed as well, the way the file system follows them.
//!
//! The target of one link can be judged by its names alone as long as none of
//! them is a link itself. `d/l -> ..` and `k -> d/l/..` both stay inside by their
//! names, but `k` leads above the root, since `d/l` is the root and not `d/l`.

use vstd::prelude::*;
use crate::backup::links::{lemma_walk_down, lemma_walk_split};
use crate::path::{components, name_parts, parts, walk, Component, Part};
use crate::text::{same_bytes, same_text, views};
use crate::util::{
    lemma_contained_targets_stay_inside, symlink_target_is_contained, target_contained,
};

verus! {

/// How many links are followed before a target is given up: as many as Linux
/// follows.
pub const LINK_LIMIT: u32 = 40;

/// A link that was written: the application it belongs to, where it is below that
/// application's data directory, and its target.
#[derive(Debug)]
pub struct Link {
    app_id: String,
    names: Vec<Vec<u8>>,
    target: Vec<u8>,
    /// The target stays inside by its names, and turns back behind none of them.
    plain: bool,
}

pub struct LinkView {
    pub id: Seq<char>,
    pub names: Seq<Seq<u8>>,
    pub target: Seq<u8>,
}

impl View for Link {
    type V = LinkView;

    closed spec fn view(&self) -> LinkView {
        LinkView { id: self.app_id@, names: views(self.names@), target: self.target@ }
    }
}

// ---------------------------------------------------------------- following

/// The target of the link of the application `id` at `names`, if one is there.
pub open spec fn link_at(links: Seq<LinkView>, id: Seq<char>, names: Seq<Seq<u8>>) -> Option<
    Seq<u8>,
>
    decreases links.len(),
{
    if links.len() == 0 {
        None
    } else if links.last().id == id && links.last().names == names {
        Some(links.last().target)
    } else {
        link_at(links.drop_last(), id, names)
    }
}

/// What following a path comes to.
pub enum Followed {
    /// A place below the root, with so many links left to follow.
    Reaches { place: Seq<Seq<u8>>, left: nat },
    /// It leads above the root, or starts at the file system's.
    Climbs,
    /// There are more links on the way than may be followed.
    Endless,
}

/// Where following `rest` from `place` leads in the data of the application
/// `id`, when every link on the way is followed, and `fuel` of them at most.
pub open spec fn follow(
    links: Seq<LinkView>,
    id: Seq<char>,
    place: Seq<Seq<u8>>,
    rest: Seq<Part>,
    fuel: nat,
) -> Followed
    decreases fuel, rest.len(),
{
    if rest.len() == 0 {
        Followed::Reaches { place, left: fuel }
    } else {
        let onward = rest.skip(1);
        match rest[0] {
            Part::Root => Followed::Climbs,
            Part::Cur => follow(links, id, place, onward, fuel),
            Part::Up => if place.len() > 0 {
                follow(links, id, place.drop_last(), onward, fuel)
            } else {
                Followed::Climbs
            },
            Part::Name(name) => match link_at(links, id, place.push(name)) {
                None => follow(links, id, place.push(name), onward, fuel),
                Some(target) => if fuel == 0 {
                    Followed::Endless
                } else {
                    follow(links, id, place, parts(target) + onward, (fuel - 1) as nat)
                },
            },
        }
    }
}

/// The components up to the last one that leads upwards. Behind them a path only
/// goes down.
pub open spec fn turn(ps: Seq<Part>) -> Seq<Part>
    decreases ps.len(),
{
    if ps.len() == 0 || ps.last() is Up || ps.last() is Root {
        ps
    } else {
        turn(ps.drop_last())
    }
}

/// True if the path leads upwards behind a name.
pub open spec fn winds(ps: Seq<Part>) -> bool {
    exists|i: int| 0 <= i < turn(ps).len() && #[trigger] turn(ps)[i] is Name
}

/// A link settles if following its target, as far as that leads upwards, stays
/// inside and comes to an end.
pub open spec fn settles(links: Seq<LinkView>, link: LinkView) -> bool {
    &&& link.names.len() > 0
    &&& follow(
        links,
        link.id,
        link.names.drop_last(),
        turn(parts(link.target)),
        LINK_LIMIT as nat,
    ) is Reaches
}

pub open spec fn settled(links: Seq<LinkView>) -> bool {
    forall|i: int| 0 <= i < links.len() ==> settles(links, #[trigger] links[i])
}

/// A path that never leads upwards.
pub open spec fn goes_down(ps: Seq<Part>) -> bool {
    forall|i: int| 0 <= i < ps.len() ==> #[trigger] ps[i] is Name || ps[i] is Cur
}

proof fn lemma_turn(ps: Seq<Part>)
    ensures
        turn(ps).len() <= ps.len(),
        turn(ps) == ps.take(turn(ps).len() as int),
        ps == turn(ps) + ps.skip(turn(ps).len() as int),
        goes_down(ps.skip(turn(ps).len() as int)),
    decreases ps.len(),
{
    if ps.len() == 0 || ps.last() is Up || ps.last() is Root {
        assert(ps.take(ps.len() as int) =~= ps);
        assert(ps =~= ps + ps.skip(ps.len() as int));
    } else {
        let less = ps.drop_last();
        lemma_turn(less);
        let n = turn(less).len() as int;
        assert(ps.take(n) =~= less.take(n));
        assert(ps =~= ps.take(n) + ps.skip(n));
        assert forall|i: int| 0 <= i < ps.skip(n).len() implies #[trigger] ps.skip(n)[i] is Name
            || ps.skip(n)[i] is Cur by {
            if i < ps.len() - 1 - n {
                assert(ps.skip(n)[i] == less.skip(n)[i]);
            }
        }
    }
}

/// Following a path in two parts.
proof fn lemma_follow_concat(
    links: Seq<LinkView>,
    id: Seq<char>,
    place: Seq<Seq<u8>>,
    a: Seq<Part>,
    b: Seq<Part>,
    fuel: nat,
)
    ensures
        follow(links, id, place, a + b, fuel) == match follow(links, id, place, a, fuel) {
            Followed::Reaches { place: reached, left } => follow(links, id, reached, b, left),
            other => other,
        },
    decreases fuel, a.len(),
{
    if a.len() == 0 {
        assert(a + b =~= b);
    } else {
        let onward = a.skip(1);
        assert((a + b).skip(1) =~= onward + b);
        assert((a + b)[0] == a[0]);
        match a[0] {
            Part::Root => {},
            Part::Cur => lemma_follow_concat(links, id, place, onward, b, fuel),
            Part::Up => if place.len() > 0 {
                lemma_follow_concat(links, id, place.drop_last(), onward, b, fuel);
            },
            Part::Name(name) => match link_at(links, id, place.push(name)) {
                None => lemma_follow_concat(links, id, place.push(name), onward, b, fuel),
                Some(target) => if fuel > 0 {
                    assert(parts(target) + (onward + b) =~= (parts(target) + onward) + b);
                    lemma_follow_concat(
                        links,
                        id,
                        place,
                        parts(target) + onward,
                        b,
                        (fuel - 1) as nat,
                    );
                },
            },
        }
    }
}

/// Where a path leads does not change with more links to follow.
proof fn lemma_follow_further(
    links: Seq<LinkView>,
    id: Seq<char>,
    place: Seq<Seq<u8>>,
    rest: Seq<Part>,
    fuel: nat,
    more: nat,
)
    ensures
        match follow(links, id, place, rest, fuel) {
            Followed::Reaches { place: reached, left } => {
                &&& left <= fuel
                &&& follow(links, id, place, rest, fuel + more) == (Followed::Reaches {
                    place: reached,
                    left: left + more,
                })
            },
            Followed::Climbs => follow(links, id, place, rest, fuel + more) is Climbs,
            Followed::Endless => true,
        },
    decreases fuel, rest.len(),
{
    if rest.len() > 0 {
        let onward = rest.skip(1);
        match rest[0] {
            Part::Root => {},
            Part::Cur => lemma_follow_further(links, id, place, onward, fuel, more),
            Part::Up => if place.len() > 0 {
                lemma_follow_further(links, id, place.drop_last(), onward, fuel, more);
            },
            Part::Name(name) => match link_at(links, id, place.push(name)) {
                None => lemma_follow_further(links, id, place.push(name), onward, fuel, more),
                Some(target) => if fuel > 0 {
                    assert((fuel - 1) as nat + more == (fuel + more - 1) as nat);
                    lemma_follow_further(
                        links,
                        id,
                        place,
                        parts(target) + onward,
                        (fuel - 1) as nat,
                        more,
                    );
                },
            },
        }
    }
}

/// What reaches a place with some number of links climbs with none.
proof fn lemma_reaching_never_climbs(
    links: Seq<LinkView>,
    id: Seq<char>,
    place: Seq<Seq<u8>>,
    rest: Seq<Part>,
    fuel: nat,
    other: nat,
)
    requires
        follow(links, id, place, rest, fuel) is Reaches,
    ensures
        follow(links, id, place, rest, other) !is Climbs,
{
    if fuel <= other {
        lemma_follow_further(links, id, place, rest, fuel, (other - fuel) as nat);
    } else {
        lemma_follow_further(links, id, place, rest, other, (fuel - other) as nat);
    }
}

pub proof fn lemma_link_at(links: Seq<LinkView>, id: Seq<char>, names: Seq<Seq<u8>>)
    ensures
        link_at(links, id, names) matches Some(target) ==> exists|i: int|
            0 <= i < links.len() && #[trigger] links[i] == (LinkView { id, names, target }),
        link_at(links, id, names) is None ==> forall|i: int|
            0 <= i < links.len() ==> (#[trigger] links[i]).id != id || links[i].names != names,
    decreases links.len(),
{
    if links.len() > 0 {
        lemma_link_at(links.drop_last(), id, names);
        let less = links.drop_last();
        if links.last().id == id && links.last().names == names {
            assert(links[links.len() - 1] == (LinkView { id, names, target: links.last().target }));
        } else if let Some(target) = link_at(less, id, names) {
            let i = choose|i: int|
                0 <= i < less.len() && #[trigger] less[i] == (LinkView { id, names, target });
            assert(links[i] == (LinkView { id, names, target }));
        } else {
            assert forall|i: int| 0 <= i < links.len() implies (#[trigger] links[i]).id != id
                || links[i].names != names by {
                if i < less.len() {
                    assert(links[i] == less[i]);
                }
            }
        }
    }
}

/// Going down never leads above the root, whatever links are met, if every link
/// settles.
proof fn lemma_going_down_stays_inside(
    links: Seq<LinkView>,
    id: Seq<char>,
    place: Seq<Seq<u8>>,
    rest: Seq<Part>,
    fuel: nat,
)
    requires
        settled(links),
        goes_down(rest),
    ensures
        follow(links, id, place, rest, fuel) !is Climbs,
    decreases fuel, rest.len(),
{
    if rest.len() > 0 {
        let onward = rest.skip(1);
        assert(goes_down(onward)) by {
            assert forall|i: int| 0 <= i < onward.len() implies #[trigger] onward[i] is Name
                || onward[i] is Cur by {
                assert(onward[i] == rest[i + 1]);
            }
        }
        match rest[0] {
            Part::Name(name) => {
                let at = place.push(name);
                match link_at(links, id, at) {
                    None => lemma_going_down_stays_inside(links, id, at, onward, fuel),
                    Some(target) => if fuel > 0 {
                        lemma_link_at(links, id, at);
                        let i = choose|i: int|
                            0 <= i < links.len() && #[trigger] links[i] == (LinkView {
                                id,
                                names: at,
                                target,
                            });
                        assert(settles(links, links[i]));
                        assert(at.drop_last() =~= place);
                        lemma_target_stays_inside(
                            links,
                            id,
                            place,
                            target,
                            onward,
                            (fuel - 1) as nat,
                        );
                    },
                }
            },
            _ => lemma_going_down_stays_inside(links, id, place, onward, fuel),
        }
    }
}

/// A target that settles, and going down from where it leads, stay inside.
proof fn lemma_target_stays_inside(
    links: Seq<LinkView>,
    id: Seq<char>,
    place: Seq<Seq<u8>>,
    target: Seq<u8>,
    onward: Seq<Part>,
    fuel: nat,
)
    requires
        settled(links),
        goes_down(onward),
        follow(links, id, place, turn(parts(target)), LINK_LIMIT as nat) is Reaches,
    ensures
        follow(links, id, place, parts(target) + onward, fuel) !is Climbs,
    decreases fuel + 1, 0nat,
{
    let ps = parts(target);
    let first = turn(ps);
    let tail = ps.skip(first.len() as int);
    lemma_turn(ps);
    assert(ps + onward =~= first + (tail + onward));
    assert(goes_down(tail + onward)) by {
        assert forall|i: int| 0 <= i < (tail + onward).len() implies #[trigger] (tail + onward)[i] is Name
            || (tail + onward)[i] is Cur by {
            if i < tail.len() {
                assert((tail + onward)[i] == tail[i]);
            } else {
                assert((tail + onward)[i] == onward[i - tail.len()]);
            }
        }
    }
    lemma_reaching_never_climbs(links, id, place, first, LINK_LIMIT as nat, fuel);
    lemma_follow_concat(links, id, place, first, tail + onward, fuel);
    if let Followed::Reaches { place: reached, left } = follow(links, id, place, first, fuel) {
        lemma_follow_further(links, id, place, first, fuel, 0);
        lemma_going_down_stays_inside(links, id, reached, tail + onward, left);
    }
}

/// No link leads above the root, however many links its target is followed
/// through, if every link settles.
pub proof fn lemma_settled_links_stay_inside(links: Seq<LinkView>, i: int, fuel: nat)
    requires
        settled(links),
        0 <= i < links.len(),
    ensures
        follow(
            links,
            links[i].id,
            links[i].names.drop_last(),
            parts(links[i].target),
            fuel,
        ) !is Climbs,
{
    let link = links[i];
    assert(settles(links, link));
    let ps = parts(link.target);
    lemma_target_stays_inside(
        links,
        link.id,
        link.names.drop_last(),
        link.target,
        Seq::empty(),
        fuel,
    );
    assert(ps + Seq::<Part>::empty() =~= ps);
}

// ------------------------------------------------------- not crossing a link

/// True if following the names of `ps` from `dir` meets a link.
pub open spec fn crosses(
    links: Seq<LinkView>,
    id: Seq<char>,
    dir: Seq<Seq<u8>>,
    ps: Seq<Part>,
) -> bool {
    exists|i: int|
        {
            &&& 0 <= i < ps.len()
            &&& #[trigger] ps[i] is Name
            &&& walk(dir, ps.take(i + 1)) matches Some(place) && link_at(links, id, place) is Some
        }
}

/// Where no link is met, following a path is walking it by its names.
proof fn lemma_follow_is_walk(
    links: Seq<LinkView>,
    id: Seq<char>,
    dir: Seq<Seq<u8>>,
    ps: Seq<Part>,
    fuel: nat,
)
    requires
        !crosses(links, id, dir, ps),
        walk(dir, ps) is Some,
    ensures
        follow(links, id, dir, ps, fuel) == (Followed::Reaches {
            place: walk(dir, ps)->0,
            left: fuel,
        }),
    decreases ps.len(),
{
    if ps.len() > 0 {
        let first = ps.take(1);
        let onward = ps.skip(1);
        assert(ps =~= first + onward);
        assert(first =~= seq![ps[0]]);
        lemma_walk_split(dir, first, onward);
        assert(first.drop_last() =~= Seq::<Part>::empty());
        assert(walk(dir, Seq::<Part>::empty()) == Some(dir));
        let next = walk(dir, first)->0;
        assert(ps.take(1int) =~= first);
        if let Part::Name(name) = ps[0] {
            assert(next == dir.push(name));
            assert(link_at(links, id, next) is None);
        }
        if crosses(links, id, next, onward) {
            let i = choose|i: int|
                {
                    &&& 0 <= i < onward.len()
                    &&& #[trigger] onward[i] is Name
                    &&& walk(next, onward.take(i + 1)) matches Some(place) && link_at(
                        links,
                        id,
                        place,
                    ) is Some
                };
            lemma_walk_split(dir, first, onward.take(i + 1));
            assert(ps.take(i + 1 + 1) =~= first + onward.take(i + 1));
            assert(ps[i + 1] is Name);
            assert(crosses(links, id, dir, ps));
        }
        lemma_follow_is_walk(links, id, next, onward, fuel);
    }
}

proof fn lemma_walk_prefix(dir: Seq<Seq<u8>>, ps: Seq<Part>, n: int)
    requires
        0 <= n <= ps.len(),
        walk(dir, ps) is Some,
    ensures
        walk(dir, ps.take(n)) is Some,
{
    assert(ps =~= ps.take(n) + ps.skip(n));
    lemma_walk_split(dir, ps.take(n), ps.skip(n));
}

/// A link whose target stays inside by its names settles, if it turns back
/// behind no link.
pub proof fn lemma_uncrossed_link_settles(links: Seq<LinkView>, link: LinkView)
    requires
        link.names.len() > 0,
        target_contained((link.names.len() - 1) as nat, link.target),
        !crosses(links, link.id, link.names.drop_last(), turn(parts(link.target))),
    ensures
        settles(links, link),
{
    let dir = link.names.drop_last();
    let ps = parts(link.target);
    lemma_contained_targets_stay_inside(dir, link.target);
    lemma_turn(ps);
    lemma_walk_prefix(dir, ps, turn(ps).len() as int);
    lemma_follow_is_walk(links, link.id, dir, turn(ps), LINK_LIMIT as nat);
}

proof fn lemma_straight_link_settles(links: Seq<LinkView>, link: LinkView)
    requires
        link.names.len() > 0,
        target_contained((link.names.len() - 1) as nat, link.target),
        !winds(parts(link.target)),
    ensures
        settles(links, link),
{
    lemma_uncrossed_link_settles(links, link);
}

// ------------------------------------------------------------------ landing

/// Where the file system puts what is written at `names` of the application `id`:
/// every link on the way is followed, but not one in the place itself. There is no
/// such place if the way never ends, or leads above the root.
pub open spec fn landing(links: Seq<LinkView>, id: Seq<char>, names: Seq<Seq<u8>>) -> Option<
    Seq<Seq<u8>>,
> {
    if names.len() == 0 {
        Some(names)
    } else {
        match follow(
            links,
            id,
            Seq::empty(),
            name_parts(names.drop_last()),
            LINK_LIMIT as nat,
        ) {
            Followed::Reaches { place, left } => Some(place.push(names.last())),
            _ => None,
        }
    }
}

/// Neither `place` nor anything above it is a link.
spec fn is_real(links: Seq<LinkView>, id: Seq<char>, place: Seq<Seq<u8>>) -> bool {
    forall|n: int| 0 < n <= place.len() ==> link_at(links, id, #[trigger] place.take(n)) is None
}

/// Following a path from a real place leads to a real place.
proof fn lemma_follow_is_real(
    links: Seq<LinkView>,
    id: Seq<char>,
    place: Seq<Seq<u8>>,
    rest: Seq<Part>,
    fuel: nat,
)
    requires
        is_real(links, id, place),
    ensures
        follow(links, id, place, rest, fuel) matches Followed::Reaches { place: reached, left }
            ==> is_real(links, id, reached),
    decreases fuel, rest.len(),
{
    if rest.len() > 0 {
        let onward = rest.skip(1);
        match rest[0] {
            Part::Root => {},
            Part::Cur => lemma_follow_is_real(links, id, place, onward, fuel),
            Part::Up => if place.len() > 0 {
                let up = place.drop_last();
                assert forall|n: int| 0 < n <= up.len() implies link_at(
                    links,
                    id,
                    #[trigger] up.take(n),
                ) is None by {
                    assert(up.take(n) =~= place.take(n));
                }
                lemma_follow_is_real(links, id, up, onward, fuel);
            },
            Part::Name(name) => match link_at(links, id, place.push(name)) {
                None => {
                    let down = place.push(name);
                    assert forall|n: int| 0 < n <= down.len() implies link_at(
                        links,
                        id,
                        #[trigger] down.take(n),
                    ) is None by {
                        if n == down.len() {
                            assert(down.take(n) =~= down);
                        } else {
                            assert(down.take(n) =~= place.take(n));
                        }
                    }
                    lemma_follow_is_real(links, id, down, onward, fuel);
                },
                Some(target) => if fuel > 0 {
                    lemma_follow_is_real(
                        links,
                        id,
                        place,
                        parts(target) + onward,
                        (fuel - 1) as nat,
                    );
                },
            },
        }
    }
}

/// What is written lands where no link lies above it, and never above the root.
pub proof fn lemma_landing(links: Seq<LinkView>, id: Seq<char>, names: Seq<Seq<u8>>)
    requires
        settled(links),
    ensures
        landing(links, id, names) matches Some(place) ==> !through_link(links, id, place)
            && (place.len() > 0) == (names.len() > 0),
        names.len() > 0 ==> follow(
            links,
            id,
            Seq::empty(),
            name_parts(names.drop_last()),
            LINK_LIMIT as nat,
        ) !is Climbs,
{
    if names.len() > 0 {
        let none = Seq::<Seq<u8>>::empty();
        let way = name_parts(names.drop_last());
        lemma_going_down_stays_inside(links, id, none, way, LINK_LIMIT as nat);
        lemma_follow_is_real(links, id, none, way, LINK_LIMIT as nat);
        if let Followed::Reaches { place: dir, left } = follow(
            links,
            id,
            none,
            way,
            LINK_LIMIT as nat,
        ) {
            let place = dir.push(names.last());
            if through_link(links, id, place) {
                let i = choose|i: int|
                    {
                        &&& 0 <= i < links.len()
                        &&& (#[trigger] links[i]).id == id
                        &&& links[i].names.len() < place.len()
                        &&& links[i].names.is_prefix_of(place)
                    };
                let above = links[i].names;
                assert(settles(links, links[i]));
                assert(above =~= dir.take(above.len() as int));
                lemma_link_at(links, id, above);
            }
        }
    }
}

/// Without a link above it, something lands where its names say.
pub proof fn lemma_lands_by_name(links: Seq<LinkView>, id: Seq<char>, names: Seq<Seq<u8>>)
    requires
        !through_link(links, id, names),
    ensures
        landing(links, id, names) == Some(names),
{
    if names.len() > 0 {
        let none = Seq::<Seq<u8>>::empty();
        let dir = names.drop_last();
        let way = name_parts(dir);
        lemma_walk_down(none, dir);
        assert(none + dir =~= dir);
        if crosses(links, id, none, way) {
            let i = choose|i: int|
                {
                    &&& 0 <= i < way.len()
                    &&& #[trigger] way[i] is Name
                    &&& walk(none, way.take(i + 1)) matches Some(place) && link_at(
                        links,
                        id,
                        place,
                    ) is Some
                };
            let above = dir.take(i + 1);
            assert(way.take(i + 1) =~= name_parts(above));
            lemma_walk_down(none, above);
            assert(none + above =~= above);
            lemma_link_at(links, id, above);
            let target = link_at(links, id, above)->0;
            let m = choose|m: int|
                0 <= m < links.len() && #[trigger] links[m] == (LinkView {
                    id,
                    names: above,
                    target,
                });
            assert(above.is_prefix_of(names)) by {
                assert(above =~= names.subrange(0, above.len() as int));
            }
            assert(links[m].id == id);
        }
        lemma_follow_is_walk(links, id, none, way, LINK_LIMIT as nat);
        assert(dir.push(names.last()) =~= names);
    }
}

// ------------------------------------------------------------- what is there

/// Whether `names` is `other`, or with `below` lies above it as well.
pub open spec fn covers(names: Seq<Seq<u8>>, below: bool, other: Seq<Seq<u8>>) -> bool {
    names == other || (below && names.is_prefix_of(other))
}

/// The links that are left once what is at `names` of the application `id` is
/// gone, and with `below` what lies below it as well.
pub open spec fn without(
    links: Seq<LinkView>,
    id: Seq<char>,
    names: Seq<Seq<u8>>,
    below: bool,
) -> Seq<LinkView>
    decreases links.len(),
{
    if links.len() == 0 {
        Seq::empty()
    } else {
        let kept = without(links.drop_last(), id, names, below);
        if links.last().id == id && covers(names, below, links.last().names) {
            kept
        } else {
            kept.push(links.last())
        }
    }
}

/// The links once an entry is written: a link if it has a target, else a
/// directory or file. A directory or file replaces a link in its place; a link
/// replaces whatever is there.
pub open spec fn links_after(
    links: Seq<LinkView>,
    id: Seq<char>,
    names: Seq<Seq<u8>>,
    target: Option<Seq<u8>>,
) -> Seq<LinkView> {
    match target {
        Some(target) => without(links, id, names, true).push(LinkView { id, names, target }),
        None => without(links, id, names, false),
    }
}

/// An entry may be written if every link settles afterwards. Where the data
/// directory itself stands there is never a link.
pub open spec fn admissible(
    links: Seq<LinkView>,
    id: Seq<char>,
    names: Seq<Seq<u8>>,
    target: Option<Seq<u8>>,
) -> bool {
    match target {
        Some(_) => names.len() > 0 && settled(links_after(links, id, names, target)),
        None => link_at(links, id, names) is None || settled(
            links_after(links, id, names, target),
        ),
    }
}

/// True if a link of the application `id` lies above `names`.
pub open spec fn through_link(links: Seq<LinkView>, id: Seq<char>, names: Seq<Seq<u8>>) -> bool {
    exists|i: int|
        {
            &&& 0 <= i < links.len()
            &&& (#[trigger] links[i]).id == id
            &&& links[i].names.len() < names.len()
            &&& links[i].names.is_prefix_of(names)
        }
}

/// True if writing at `names` takes a link of the application `id` away: one in that
/// place, or with `below` one below it.
pub open spec fn disturbs(
    links: Seq<LinkView>,
    id: Seq<char>,
    names: Seq<Seq<u8>>,
    below: bool,
) -> bool {
    exists|i: int|
        {
            &&& 0 <= i < links.len()
            &&& (#[trigger] links[i]).id == id
            &&& covers(names, below, links[i].names)
        }
}

/// No link lies in the place of another or below it.
pub open spec fn apart(links: Seq<LinkView>) -> bool {
    forall|i: int, j: int|
        0 <= i < links.len() && 0 <= j < links.len() && i != j && (#[trigger] links[i]).id == (
        #[trigger] links[j]).id ==> !links[i].names.is_prefix_of(links[j].names)
}

pub proof fn lemma_without(links: Seq<LinkView>, id: Seq<char>, names: Seq<Seq<u8>>, below: bool)
    ensures
        forall|i: int|
            #![trigger without(links, id, names, below)[i]]
            0 <= i < without(links, id, names, below).len() ==> {
                let link = without(links, id, names, below)[i];
                &&& links.contains(link)
                &&& link.id != id || !covers(names, below, link.names)
            },
        apart(links) ==> apart(without(links, id, names, below)),
        without(links, id, names, below).len() <= links.len(),
    decreases links.len(),
{
    if links.len() > 0 {
        let less = links.drop_last();
        let last = links.last();
        lemma_without(less, id, names, below);
        let kept = without(less, id, names, below);
        let all = without(links, id, names, below);
        assert forall|i: int| #![trigger all[i]] 0 <= i < all.len() implies links.contains(all[i])
            && (all[i].id != id || !covers(names, below, all[i].names)) by {
            if i < kept.len() {
                assert(all[i] == kept[i]);
                let k = choose|k: int| 0 <= k < less.len() && less[k] == kept[i];
                assert(links[k] == kept[i]);
            } else {
                assert(links[links.len() - 1] == all[i]);
            }
        }
        if apart(links) {
            assert(apart(less)) by {
                assert forall|i: int, j: int|
                    0 <= i < less.len() && 0 <= j < less.len() && i != j && (
                    #[trigger] less[i]).id == (#[trigger] less[j]).id implies !less[i].names.is_prefix_of(
                    less[j].names) by {
                    assert(less[i] == links[i] && less[j] == links[j]);
                }
            }
            assert forall|i: int, j: int|
                0 <= i < all.len() && 0 <= j < all.len() && i != j && (#[trigger] all[i]).id == (
                #[trigger] all[j]).id implies !all[i].names.is_prefix_of(all[j].names) by {
                if i < kept.len() && j < kept.len() {
                    assert(all[i] == kept[i] && all[j] == kept[j]);
                } else if i < kept.len() {
                    assert(all[i] == kept[i]);
                    let k = choose|k: int| 0 <= k < less.len() && less[k] == kept[i];
                    assert(links[k] == all[i] && links[links.len() - 1] == all[j]);
                } else {
                    assert(all[j] == kept[j]);
                    let k = choose|k: int| 0 <= k < less.len() && less[k] == kept[j];
                    assert(links[k] == all[j] && links[links.len() - 1] == all[i]);
                }
            }
        }
    }
}

/// Following a path depends on the links of its own application alone.
proof fn lemma_follow_same(
    links: Seq<LinkView>,
    others: Seq<LinkView>,
    id: Seq<char>,
    place: Seq<Seq<u8>>,
    rest: Seq<Part>,
    fuel: nat,
)
    requires
        forall|names: Seq<Seq<u8>>| #[trigger]
            link_at(links, id, names) == link_at(others, id, names),
    ensures
        follow(links, id, place, rest, fuel) == follow(others, id, place, rest, fuel),
    decreases fuel, rest.len(),
{
    if rest.len() > 0 {
        let onward = rest.skip(1);
        match rest[0] {
            Part::Root => {},
            Part::Cur => lemma_follow_same(links, others, id, place, onward, fuel),
            Part::Up => if place.len() > 0 {
                lemma_follow_same(links, others, id, place.drop_last(), onward, fuel);
            },
            Part::Name(name) => match link_at(links, id, place.push(name)) {
                None => lemma_follow_same(links, others, id, place.push(name), onward, fuel),
                Some(target) => if fuel > 0 {
                    lemma_follow_same(
                        links,
                        others,
                        id,
                        place,
                        parts(target) + onward,
                        (fuel - 1) as nat,
                    );
                },
            },
        }
    }
}

proof fn lemma_without_another(
    links: Seq<LinkView>,
    id: Seq<char>,
    names: Seq<Seq<u8>>,
    below: bool,
    other: Seq<char>,
    place: Seq<Seq<u8>>,
)
    requires
        other != id,
    ensures
        link_at(without(links, id, names, below), other, place) == link_at(links, other, place),
    decreases links.len(),
{
    if links.len() > 0 {
        let less = links.drop_last();
        let kept = without(less, id, names, below);
        lemma_without_another(less, id, names, below, other, place);
        if !(links.last().id == id && covers(names, below, links.last().names)) {
            assert(kept.push(links.last()).drop_last() =~= kept);
        }
    }
}

/// What is written for one application changes nothing for the links of another.
pub proof fn lemma_other_links_settle(
    links: Seq<LinkView>,
    id: Seq<char>,
    names: Seq<Seq<u8>>,
    target: Option<Seq<u8>>,
    link: LinkView,
)
    requires
        settles(links, link),
        link.id != id,
    ensures
        settles(links_after(links, id, names, target), link),
{
    let after = links_after(links, id, names, target);
    assert forall|place: Seq<Seq<u8>>| #[trigger]
        link_at(links, link.id, place) == link_at(after, link.id, place) by {
        let left = without(links, id, names, target is Some);
        lemma_without_another(links, id, names, target is Some, link.id, place);
        if let Some(to) = target {
            assert(after.drop_last() =~= left);
        }
    }
    lemma_follow_same(
        links,
        after,
        link.id,
        link.names.drop_last(),
        turn(parts(link.target)),
        LINK_LIMIT as nat,
    );
}

/// Without a link in its place, a directory or file changes no link.
pub proof fn lemma_without_nothing(links: Seq<LinkView>, id: Seq<char>, names: Seq<Seq<u8>>)
    requires
        link_at(links, id, names) is None,
    ensures
        without(links, id, names, false) == links,
    decreases links.len(),
{
    if links.len() > 0 {
        lemma_without_nothing(links.drop_last(), id, names);
        assert(links.drop_last().push(links.last()) =~= links);
    } else {
        assert(without(links, id, names, false) =~= links);
    }
}

/// Writing what may be written, to where no link leads, keeps every link settled
/// and apart from the others.
pub proof fn lemma_links_after(
    links: Seq<LinkView>,
    id: Seq<char>,
    names: Seq<Seq<u8>>,
    target: Option<Seq<u8>>,
)
    requires
        settled(links),
        apart(links),
        !through_link(links, id, names),
        admissible(links, id, names, target),
    ensures
        settled(links_after(links, id, names, target)),
        apart(links_after(links, id, names, target)),
{
    match target {
        Some(_) => {
            lemma_without(links, id, names, true);
            let kept = without(links, id, names, true);
            let all = links_after(links, id, names, target);
            assert forall|i: int, j: int|
                0 <= i < all.len() && 0 <= j < all.len() && i != j && (#[trigger] all[i]).id == (
                #[trigger] all[j]).id implies !all[i].names.is_prefix_of(all[j].names) by {
                if i < kept.len() && j < kept.len() {
                    assert(all[i] == kept[i] && all[j] == kept[j]);
                } else if i < kept.len() {
                    assert(all[i] == kept[i]);
                    let k = choose|k: int| 0 <= k < links.len() && links[k] == kept[i];
                    if all[i].names.is_prefix_of(names) {
                        if all[i].names.len() == names.len() {
                            assert(all[i].names =~= names);
                        }
                        assert(links[k].id == id);
                        assert(through_link(links, id, names));
                    }
                } else {
                    assert(all[j] == kept[j]);
                }
            }
        },
        None => {
            lemma_without(links, id, names, false);
            if link_at(links, id, names) is None {
                lemma_without_nothing(links, id, names);
            }
        },
    }
}

// ---------------------------------------------------------------- deciding

fn same_names(a: &Vec<Vec<u8>>, b: &Vec<Vec<u8>>) -> (same: bool)
    ensures
        same == (views(a@) == views(b@)),
{
    if a.len() != b.len() {
        assert(views(a@).len() != views(b@).len());
        return false;
    }
    begins_with(b, a)
}

/// True if `names` begins with `start`.
fn begins_with(names: &Vec<Vec<u8>>, start: &Vec<Vec<u8>>) -> (yes: bool)
    ensures
        yes == views(start@).is_prefix_of(views(names@)),
        names@.len() == start@.len() ==> yes == (views(start@) == views(names@)),
{
    let ghost (all, head) = (views(names@), views(start@));
    if start.len() > names.len() {
        return false;
    }
    let mut i: usize = start.len();
    while i > 0
        invariant
            i <= start@.len() <= names@.len(),
            all == views(names@),
            head == views(start@),
            forall|k: int| i <= k < start@.len() ==> head[k] == all[k],
        decreases i,
    {
        i = i - 1;
        if !same_bytes(&names[i], &start[i]) {
            proof {
                assert(head[i as int] != all[i as int]);
                if head.is_prefix_of(all) {
                    assert(head[i as int] == all.subrange(0, head.len() as int)[i as int]);
                }
            }
            return false;
        }
        assert(head[i as int] == all[i as int]);
    }
    proof {
        assert(head =~= all.subrange(0, head.len() as int));
        if all.len() == head.len() {
            assert(head =~= all);
        }
    }
    true
}

/// The components up to the last one that leads upwards.
fn upward(target: &[u8]) -> (out: Vec<Component>)
    ensures
        views(out@) == turn(parts(target@)),
{
    let mut out = components(target);
    while out.len() > 0
        invariant
            turn(views(out@)) == turn(parts(target@)),
        ensures
            views(out@) == turn(parts(target@)),
        decreases out@.len(),
    {
        let n: usize = out.len();
        assert(views(out@).last() == out@[n - 1]@);
        match &out[n - 1] {
            Component::ParentDir => {
                break;
            },
            Component::RootDir => {
                break;
            },
            _ => {},
        }
        let ghost before = views(out@);
        out.pop();
        assert(views(out@) =~= before.drop_last());
    }
    out
}

/// A link that stays inside by its names, and turns back behind none of them.
spec fn is_plain(link: LinkView) -> bool {
    &&& link.names.len() > 0
    &&& target_contained((link.names.len() - 1) as nat, link.target)
    &&& !winds(parts(link.target))
}

impl Link {
    #[verifier::type_invariant]
    spec fn inv(&self) -> bool {
        &&& self@.names.len() > 0
        &&& self.plain ==> is_plain(self@)
    }

    /// A link of the application `app_id` at `names`.
    fn new(app_id: String, names: Vec<Vec<u8>>, target: Vec<u8>) -> (link: Link)
        requires
            names@.len() > 0,
        ensures
            link@ == (LinkView { id: app_id@, names: views(names@), target: target@ }),
    {
        let first = upward(&target);
        let ghost ps = turn(parts(target@));
        let mut winding: bool = false;
        let mut i: usize = 0;
        while i < first.len()
            invariant
                i <= first@.len(),
                views(first@) == ps,
                winding <==> exists|k: int| 0 <= k < i && #[trigger] ps[k] is Name,
            decreases first.len() - i,
        {
            assert(ps[i as int] == first@[i as int]@);
            if let Component::Normal(_) = &first[i] {
                winding = true;
            }
            i = i + 1;
        }
        let plain = !winding && symlink_target_is_contained(names.len() - 1, &target);
        Link { app_id, names, target, plain }
    }

    fn copy(&self) -> (link: Link)
        ensures
            link@ == self@,
    {
        proof {
            use_type_invariant(self);
        }
        let names = copied_names(&self.names);
        Link {
            app_id: self.app_id.clone(),
            names,
            target: self.target.clone(),
            plain: self.plain,
        }
    }
}

/// A copy of `names`.
pub fn copied_names(names: &Vec<Vec<u8>>) -> (out: Vec<Vec<u8>>)
    ensures
        out@.len() == names@.len(),
        views(out@) == views(names@),
{
    let mut out: Vec<Vec<u8>> = Vec::new();
    let mut i: usize = 0;
    while i < names.len()
        invariant
            i <= names@.len(),
            out@.len() == i,
            forall|k: int| 0 <= k < i ==> (#[trigger] out@[k])@ == names@[k]@,
        decreases names.len() - i,
    {
        out.push(names[i].clone());
        i = i + 1;
    }
    assert(views(out@) =~= views(names@));
    out
}

/// Which link of the application `app_id` is at `names`.
fn link_index(links: &Vec<Link>, app_id: &str, names: &Vec<Vec<u8>>) -> (out: Option<usize>)
    ensures
        match out {
            Some(i) => {
                &&& i < links@.len()
                &&& link_at(views(links@), app_id@, views(names@)) == Some(links@[i as int]@.target)
            },
            None => link_at(views(links@), app_id@, views(names@)) is None,
        },
{
    let ghost all = views(links@);
    let mut n: usize = links.len();
    assert(all.take(n as int) =~= all);
    while n > 0
        invariant
            n <= links@.len(),
            all == views(links@),
            link_at(all, app_id@, views(names@)) == link_at(
                all.take(n as int),
                app_id@,
                views(names@),
            ),
        decreases n,
    {
        let link = &links[n - 1];
        proof {
            assert(all.take(n as int).last() == link@);
            assert(all.take(n as int).drop_last() =~= all.take(n - 1));
        }
        if same_names(&link.names, names) && same_text(&link.app_id, app_id) {
            return Some(n - 1);
        }
        n = n - 1;
    }
    None
}

/// True if a link of the application `app_id` lies above `names`.
pub fn leads_through_link(links: &Vec<Link>, app_id: &str, names: &Vec<Vec<u8>>) -> (yes: bool)
    ensures
        yes == through_link(views(links@), app_id@, views(names@)),
{
    let ghost all = views(links@);
    let mut i: usize = 0;
    while i < links.len()
        invariant
            i <= links@.len(),
            all == views(links@),
            forall|k: int|
                0 <= k < i ==> !((#[trigger] all[k]).id == app_id@ && all[k].names.len()
                    < names@.len() && all[k].names.is_prefix_of(views(names@))),
        decreases links.len() - i,
    {
        let link = &links[i];
        assert(all[i as int] == link@);
        if link.names.len() < names.len() && begins_with(names, &link.names) && same_text(
            &link.app_id,
            app_id,
        ) {
            return true;
        }
        i = i + 1;
    }
    false
}

/// The components that are still to be followed, from the last one on.
spec fn in_turn(stack: Seq<Component>) -> Seq<Part> {
    Seq::new(stack.len(), |i: int| stack[stack.len() - 1 - i]@)
}

/// Where following `rest` from `from` leads in the data of the application
/// `app_id`, if it stays inside and comes to an end.
fn followed(links: &Vec<Link>, app_id: &str, from: Vec<Vec<u8>>, rest: Vec<Component>) -> (out:
    Option<Vec<Vec<u8>>>)
    ensures
        match follow(views(links@), app_id@, views(from@), views(rest@), LINK_LIMIT as nat) {
            Followed::Reaches { place: reached, left } => out matches Some(at) && views(at@)
                == reached,
            _ => out is None,
        },
{
    let ghost all = views(links@);
    let ghost start = views(from@);
    let ghost way = views(rest@);
    let ghost outcome = follow(all, app_id@, start, way, LINK_LIMIT as nat);
    let mut place = from;
    let mut stack: Vec<Component> = Vec::new();
    push_in_turn(&mut stack, rest);
    assert(in_turn(stack@) =~= way);
    let mut fuel: u32 = LINK_LIMIT;
    while stack.len() > 0
        invariant
            all == views(links@),
            start == views(from@),
            way == views(rest@),
            outcome == follow(all, app_id@, start, way, LINK_LIMIT as nat),
            outcome == follow(all, app_id@, views(place@), in_turn(stack@), fuel as nat),
        decreases fuel, stack@.len(),
    {
        let ghost before = in_turn(stack@);
        let ghost at = views(place@);
        match stack.pop() {
            Some(next) => {
                assert(before[0] == next@);
                assert(in_turn(stack@) =~= before.skip(1));
                match next {
                    Component::RootDir => {
                        return None;
                    },
                    Component::CurDir => {},
                    Component::ParentDir => {
                        if place.len() == 0 {
                            return None;
                        }
                        place.pop();
                        assert(views(place@) =~= at.drop_last());
                    },
                    Component::Normal(name) => {
                        let ghost last = name@;
                        place.push(name);
                        assert(views(place@) =~= at.push(last));
                        match link_index(links, app_id, &place) {
                            None => {},
                            Some(i) => {
                                if fuel == 0 {
                                    return None;
                                }
                                fuel = fuel - 1;
                                place.pop();
                                assert(views(place@) =~= at);
                                push_in_turn(&mut stack, components(&links[i].target));
                            },
                        }
                    },
                }
            },
            None => {},
        }
    }
    Some(place)
}

/// Where the file system puts what is written at `names` of the application
/// `app_id`.
pub fn land(links: &Vec<Link>, app_id: &str, names: &Vec<Vec<u8>>) -> (out: Option<Vec<Vec<u8>>>)
    ensures
        match landing(views(links@), app_id@, views(names@)) {
            Some(place) => out matches Some(at) && views(at@) == place,
            None => out is None,
        },
{
    let ghost all = views(names@);
    if !leads_through_link(links, app_id, names) {
        proof {
            lemma_lands_by_name(views(links@), app_id@, all);
        }
        return Some(copied_names(names));
    }
    let n: usize = names.len();
    let mut way: Vec<Component> = Vec::new();
    let mut i: usize = 0;
    while i < n - 1
        invariant
            0 < n == names@.len(),
            i <= n - 1,
            way@.len() == i,
            forall|k: int| 0 <= k < i ==> (#[trigger] way@[k])@ == Part::Name(names@[k]@),
        decreases n - i,
    {
        way.push(Component::Normal(names[i].clone()));
        i = i + 1;
    }
    assert(views(way@) =~= name_parts(all.drop_last()));
    let start: Vec<Vec<u8>> = Vec::new();
    assert(views(start@) =~= Seq::<Seq<u8>>::empty());
    match followed(links, app_id, start, way) {
        None => None,
        Some(dir) => {
            let mut place = dir;
            let ghost before = views(place@);
            place.push(names[n - 1].clone());
            assert(views(place@) =~= before.push(all.last()));
            Some(place)
        },
    }
}

/// True if following the link's target, as far as it leads upwards, stays inside
/// and comes to an end.
fn link_settles(links: &Vec<Link>, link: &Link) -> (yes: bool)
    ensures
        yes == settles(views(links@), link@),
{
    proof {
        use_type_invariant(link);
    }
    let mut place = copied_names(&link.names);
    let ghost whole = views(place@);
    place.pop();
    assert(views(place@) =~= whole.drop_last());
    followed(links, &link.app_id, place, upward(&link.target)).is_some()
}

/// True if writing at `names` takes a link of the application `app_id` away.
pub fn takes_link_away(links: &Vec<Link>, app_id: &str, names: &Vec<Vec<u8>>, below: bool) -> (yes:
    bool)
    ensures
        yes == disturbs(views(links@), app_id@, views(names@), below),
{
    let ghost all = views(links@);
    let mut i: usize = 0;
    while i < links.len()
        invariant
            i <= links@.len(),
            all == views(links@),
            forall|k: int|
                0 <= k < i ==> !((#[trigger] all[k]).id == app_id@ && covers(
                    views(names@),
                    below,
                    all[k].names,
                )),
        decreases links.len() - i,
    {
        let link = &links[i];
        assert(all[i as int] == link@);
        let hit = if below {
            begins_with(&link.names, names)
        } else {
            same_names(names, &link.names)
        };
        if hit && same_text(&link.app_id, app_id) {
            return true;
        }
        i = i + 1;
    }
    false
}

/// The application of which `link` takes a link away, if it does.
pub fn link_away(links: &Vec<Link>, link: &Link) -> (out: Option<String>)
    ensures
        out is Some <==> disturbs(views(links@), link@.id, link@.names, true),
        out matches Some(app_id) ==> app_id@ == link@.id,
{
    if takes_link_away(links, &link.app_id, &link.names, true) {
        Some(link.app_id.clone())
    } else {
        None
    }
}

/// Puts `more` in front of what is to be followed.
fn push_in_turn(stack: &mut Vec<Component>, more: Vec<Component>)
    ensures
        in_turn(final(stack)@) == views(more@) + in_turn(old(stack)@),
{
    let ghost all = views(more@);
    let ghost start = in_turn(stack@);
    let mut more = more;
    assert(all.skip(all.len() as int) + start =~= start);
    while more.len() > 0
        invariant
            more@.len() <= all.len(),
            views(more@) == all.take(more@.len() as int),
            in_turn(stack@) == all.skip(more@.len() as int) + start,
        decreases more@.len(),
    {
        let ghost n = more@.len() as int;
        let ghost held = views(more@);
        let ghost before = in_turn(stack@);
        if let Some(component) = more.pop() {
            assert(component@ == held[n - 1]);
            assert(views(more@) =~= all.take(n - 1));
            let ghost part = component@;
            stack.push(component);
            assert(in_turn(stack@) =~= seq![part] + before);
            assert(all.skip(n - 1) =~= seq![part] + all.skip(n));
            assert(in_turn(stack@) =~= all.skip(n - 1) + start);
        }
    }
    assert(all.skip(0) =~= all);
}

/// True if every link settles.
fn all_settle(links: &Vec<Link>) -> (yes: bool)
    ensures
        yes == settled(views(links@)),
{
    let ghost all = views(links@);
    let mut i: usize = 0;
    while i < links.len()
        invariant
            i <= links@.len(),
            all == views(links@),
            forall|k: int| 0 <= k < i ==> settles(all, #[trigger] all[k]),
        decreases links.len() - i,
    {
        let link = &links[i];
        assert(all[i as int] == link@);
        if link.plain {
            proof {
                use_type_invariant(link);
                lemma_straight_link_settles(all, link@);
            }
        } else if !link_settles(links, link) {
            return false;
        }
        i = i + 1;
    }
    true
}

/// Drops the links at `names` of the application `app_id`, and with `below` those
/// below it.
fn drop_links(links: &mut Vec<Link>, app_id: &str, names: &Vec<Vec<u8>>, below: bool)
    ensures
        views(final(links)@) == without(views(old(links)@), app_id@, views(names@), below),
{
    let ghost all = views(links@);
    let ghost mut done: int = 0;
    let mut i: usize = 0;
    assert(all.take(0) =~= Seq::<LinkView>::empty());
    while i < links.len()
        invariant
            i <= links@.len(),
            0 <= done <= all.len(),
            links@.len() - i == all.len() - done,
            views(links@).take(i as int) == without(all.take(done), app_id@, views(names@), below),
            views(links@).skip(i as int) == all.skip(done),
        decreases links@.len() - i,
    {
        let link = &links[i];
        let ghost before = views(links@);
        proof {
            assert(before[i as int] == link@);
            assert(before.skip(i as int)[0] == all.skip(done)[0]);
            assert(all.take(done + 1).drop_last() =~= all.take(done));
            assert(all.take(done + 1).last() == link@);
        }
        let gone = if below {
            begins_with(&link.names, names)
        } else {
            same_names(names, &link.names)
        };
        if gone && same_text(&link.app_id, app_id) {
            links.remove(i);
            proof {
                assert(views(links@) =~= before.remove(i as int));
                assert(views(links@).take(i as int) =~= before.take(i as int));
                assert(views(links@).skip(i as int) =~= before.skip(i as int).skip(1));
                assert(all.skip(done + 1) =~= all.skip(done).skip(1));
                done = done + 1;
            }
        } else {
            i = i + 1;
            proof {
                assert(before.take(i as int) =~= before.take(i - 1).push(before[i - 1]));
                assert(before.skip(i as int) =~= before.skip(i - 1).skip(1));
                assert(all.skip(done + 1) =~= all.skip(done).skip(1));
                done = done + 1;
            }
        }
    }
    proof {
        assert(all.take(all.len() as int) =~= all);
        assert(views(links@).take(links@.len() as int) =~= views(links@));
    }
}

/// True only if every link stays inside by its names and turns back behind none of
/// them.
fn all_plain(links: &Vec<Link>) -> (yes: bool)
    ensures
        yes ==> forall|k: int| 0 <= k < links@.len() ==> is_plain(#[trigger] views(links@)[k]),
{
    let ghost all = views(links@);
    let mut i: usize = 0;
    while i < links.len()
        invariant
            i <= links@.len(),
            all == views(links@),
            forall|k: int| 0 <= k < i ==> is_plain(#[trigger] all[k]),
        decreases links.len() - i,
    {
        let link = &links[i];
        proof {
            use_type_invariant(link);
            assert(all[i as int] == link@);
        }
        if !link.plain {
            return false;
        }
        i = i + 1;
    }
    true
}

fn copied_links(links: &Vec<Link>) -> (out: Vec<Link>)
    ensures
        views(out@) == views(links@),
{
    let mut out: Vec<Link> = Vec::new();
    let mut i: usize = 0;
    while i < links.len()
        invariant
            i <= links@.len(),
            out@.len() == i,
            forall|k: int| 0 <= k < i ==> (#[trigger] out@[k])@ == links@[k]@,
        decreases links.len() - i,
    {
        out.push(links[i].copy());
        i = i + 1;
    }
    assert(views(out@) =~= views(links@));
    out
}

/// Takes in that a directory or file was written at `names` of the application
/// `app_id`.
pub fn note_plain(links: &mut Vec<Link>, app_id: &str, names: &Vec<Vec<u8>>)
    ensures
        views(final(links)@) == links_after(views(old(links)@), app_id@, views(names@), None),
{
    if link_index(links, app_id, names).is_some() {
        drop_links(links, app_id, names, false);
    } else {
        proof {
            lemma_without_nothing(views(links@), app_id@, views(names@));
        }
    }
}

/// Takes in that `link` was written.
pub fn note_link(links: &mut Vec<Link>, link: Link)
    ensures
        views(final(links)@) == links_after(
            views(old(links)@),
            link@.id,
            link@.names,
            Some(link@.target),
        ),
{
    drop_links(links, &link.app_id, &link.names, true);
    let ghost kept = views(links@);
    let ghost added = link@;
    links.push(link);
    assert(views(links@) =~= kept.push(added));
}

/// True if a directory or file may be written at `names` of the application
/// `app_id`.
pub fn may_write(links: &Vec<Link>, app_id: &str, names: &Vec<Vec<u8>>) -> (yes: bool)
    ensures
        yes == admissible(views(links@), app_id@, views(names@), None),
{
    if link_index(links, app_id, names).is_none() {
        return true;
    }
    let mut after = copied_links(links);
    drop_links(&mut after, app_id, names, false);
    all_settle(&after)
}

/// The link to `target` at `names` of the application `app_id`, if it may be written.
pub fn may_link(links: &Vec<Link>, app_id: &str, names: &Vec<Vec<u8>>, target: &Vec<u8>) -> (out:
    Option<Link>)
    ensures
        out is Some <==> admissible(views(links@), app_id@, views(names@), Some(target@)),
        out matches Some(link) ==> link@ == (LinkView {
            id: app_id@,
            names: views(names@),
            target: target@,
        }),
{
    if names.len() == 0 {
        return None;
    }
    let ghost all = views(links@);
    let link = Link::new(app_id.to_owned(), copied_names(names), target.clone());
    if link.plain && all_plain(links) {
        proof {
            use_type_invariant(&link);
            lemma_without(all, app_id@, views(names@), true);
            let kept = without(all, app_id@, views(names@), true);
            let after = links_after(all, app_id@, views(names@), Some(target@));
            assert forall|i: int| 0 <= i < after.len() implies settles(
                after,
                #[trigger] after[i],
            ) by {
                if i < kept.len() {
                    assert(after[i] == kept[i]);
                    let k = choose|k: int| 0 <= k < all.len() && all[k] == kept[i];
                    assert(all[k] == after[i]);
                }
                lemma_straight_link_settles(after, after[i]);
            }
        }
        return Some(link);
    }
    let mut after = copied_links(links);
    drop_links(&mut after, app_id, names, true);
    let ghost kept = views(after@);
    let ghost added = link@;
    after.push(link.copy());
    assert(views(after@) =~= kept.push(added));
    if all_settle(&after) {
        Some(link)
    } else {
        None
    }
}

// --------------------------------------------------------------------- laws

/// What may be written: anything where there is no link, and else what leaves no link
/// behind that leads outside. A link of its own is one of those that must not.
pub proof fn lemma_what_may_be_written(
    links: Seq<LinkView>,
    id: Seq<char>,
    names: Seq<Seq<u8>>,
    target: Seq<u8>,
)
    ensures
        (forall|i: int|
            0 <= i < links.len() ==> !((#[trigger] links[i]).id == id && links[i].names == names))
            ==> admissible(links, id, names, None),
        settled(links_after(links, id, names, None)) ==> admissible(links, id, names, None),
        names.len() > 0 && settled(links_after(links, id, names, Some(target))) <==> admissible(
            links,
            id,
            names,
            Some(target),
        ),
{
    lemma_link_at(links, id, names);
}

/// The links that are left after an entry was written: all but those that it took the
/// place of, which are those at its place, and for a link also those below; and the link
/// itself, if it is one.
pub proof fn lemma_links_that_are_left(
    links: Seq<LinkView>,
    id: Seq<char>,
    names: Seq<Seq<u8>>,
    link: LinkView,
)
    ensures
        links_after(links, id, names, None).contains(link) <==> links.contains(link) && !(link.id
            == id && link.names == names),
        forall|target: Seq<u8>| #[trigger]
            links_after(links, id, names, Some(target)).contains(link) <==> link == (LinkView {
                id,
                names,
                target,
            }) || (links.contains(link) && !(link.id == id && names.is_prefix_of(link.names))),
{
    lemma_without_members(links, id, names, false, link);
    lemma_without_members(links, id, names, true, link);
    assert(names.is_prefix_of(names));
    assert forall|target: Seq<u8>| #[trigger]
        links_after(links, id, names, Some(target)).contains(link) <==> link == (LinkView {
            id,
            names,
            target,
        }) || (links.contains(link) && !(link.id == id && names.is_prefix_of(link.names))) by {
        let kept = without(links, id, names, true);
        let added = LinkView { id, names, target };
        let all = links_after(links, id, names, Some(target));
        assert(all == kept.push(added));
        if all.contains(link) {
            let i = choose|i: int| 0 <= i < all.len() && all[i] == link;
            if i < kept.len() {
                assert(kept[i] == link);
            }
        }
        if kept.contains(link) {
            let i = choose|i: int| 0 <= i < kept.len() && kept[i] == link;
            assert(all[i] == link);
        }
        assert(all[kept.len() as int] == added);
    }
}

proof fn lemma_without_members(
    links: Seq<LinkView>,
    id: Seq<char>,
    names: Seq<Seq<u8>>,
    below: bool,
    link: LinkView,
)
    ensures
        without(links, id, names, below).contains(link) <==> links.contains(link) && !(link.id == id
            && covers(names, below, link.names)),
    decreases links.len(),
{
    let all = without(links, id, names, below);
    if links.len() > 0 {
        let less = links.drop_last();
        let last = links[links.len() - 1];
        let kept = without(less, id, names, below);
        lemma_without_members(less, id, names, below, link);
        if all.contains(link) {
            let i = choose|i: int| 0 <= i < all.len() && all[i] == link;
            if i < kept.len() {
                assert(kept[i] == link);
                assert(kept.contains(link));
                let k = choose|k: int| 0 <= k < less.len() && less[k] == link;
                assert(links[k] == link);
            } else {
                assert(links[links.len() - 1] == link);
            }
        }
        if links.contains(link) && !(link.id == id && covers(names, below, link.names)) {
            let k = choose|k: int| 0 <= k < links.len() && links[k] == link;
            if k < less.len() {
                assert(less[k] == link);
                assert(kept.contains(link));
                let i = choose|i: int| 0 <= i < kept.len() && kept[i] == link;
                assert(all[i] == link);
            } else {
                assert(all[kept.len() as int] == link);
            }
        }
    }
}

} // verus!
