//! Unix paths as byte strings, and the components they consist of.
//!
//! A path is whatever bytes the system calls take: names separated by `/`, not
//! necessarily UTF-8. Two paths mean the same when their components do, so the
//! contracts here speak of components wherever the spelling does not matter.

use vstd::prelude::*;
use crate::text::views;

verus! {

pub const SLASH: u8 = 47;

pub const DOT: u8 = 46;

/// One component of a path.
#[derive(Debug)]
pub enum Component {
    /// The `/` an absolute path starts with.
    RootDir,
    /// The `.` a relative path may start with.
    CurDir,
    /// `..`
    ParentDir,
    /// A name.
    Normal(Vec<u8>),
}

/// What a [`Component`] stands for.
pub enum Part {
    Root,
    Cur,
    Up,
    Name(Seq<u8>),
}

impl View for Component {
    type V = Part;

    open spec fn view(&self) -> Part {
        match self {
            Component::RootDir => Part::Root,
            Component::CurDir => Part::Cur,
            Component::ParentDir => Part::Up,
            Component::Normal(name) => Part::Name(name@),
        }
    }
}

// ------------------------------------------------------------------- models

/// Position of the last `/` in `p`, or -1.
pub open spec fn last_slash(p: Seq<u8>) -> int
    decreases p.len(),
{
    if p.len() == 0 {
        -1
    } else if p.last() == SLASH {
        p.len() - 1
    } else {
        last_slash(p.drop_last())
    }
}

pub open spec fn has_slash(p: Seq<u8>) -> bool {
    exists|i: int| 0 <= i < p.len() && p[i] == SLASH
}

pub open spec fn one_dot() -> Seq<u8> {
    seq![DOT]
}

pub open spec fn two_dots() -> Seq<u8> {
    seq![DOT, DOT]
}

/// What lies between two separators: nothing for an empty segment or `.`.
pub open spec fn segment_parts(segment: Seq<u8>) -> Seq<Part> {
    if segment.len() == 0 || segment == one_dot() {
        Seq::empty()
    } else if segment == two_dots() {
        seq![Part::Up]
    } else {
        seq![Part::Name(segment)]
    }
}

/// The components of `p`, leaving out how it starts.
pub open spec fn body_parts(p: Seq<u8>) -> Seq<Part>
    decreases p.len(),
{
    let k = last_slash(p);
    if k < 0 || k >= p.len() {
        segment_parts(p)
    } else {
        body_parts(p.take(k)) + segment_parts(p.skip(k + 1))
    }
}

pub open spec fn is_absolute(p: Seq<u8>) -> bool {
    p.len() > 0 && p[0] == SLASH
}

/// True for `.` and for whatever starts with `./`.
pub open spec fn starts_here(p: Seq<u8>) -> bool {
    p.len() > 0 && p[0] == DOT && (p.len() == 1 || p[1] == SLASH)
}

/// How `p` starts: at the root, explicitly in the current directory, or neither.
pub open spec fn head_parts(p: Seq<u8>) -> Seq<Part> {
    if is_absolute(p) {
        seq![Part::Root]
    } else if starts_here(p) {
        seq![Part::Cur]
    } else {
        Seq::empty()
    }
}

/// The components of a path: separators and `.` in its middle do not count.
pub open spec fn parts(p: Seq<u8>) -> Seq<Part> {
    head_parts(p) + body_parts(p)
}

/// A name that is one whole component: not empty, without a separator, and
/// neither `.` nor `..`.
pub open spec fn is_plain_name(name: Seq<u8>) -> bool {
    name.len() > 0 && !has_slash(name) && name != one_dot() && name != two_dots()
}

/// `p` with `q` put behind it; an absolute `q` takes its place.
pub open spec fn join_path(p: Seq<u8>, q: Seq<u8>) -> Seq<u8> {
    if is_absolute(q) {
        q
    } else if p.len() == 0 || p.last() == SLASH {
        p + q
    } else {
        p.push(SLASH) + q
    }
}

/// `p` with each of `names` put behind it in turn.
pub open spec fn join_all(p: Seq<u8>, names: Seq<Seq<u8>>) -> Seq<u8>
    decreases names.len(),
{
    if names.len() == 0 {
        p
    } else {
        join_path(join_all(p, names.drop_last()), names.last())
    }
}

/// The components that `names` are.
pub open spec fn name_parts(names: Seq<Seq<u8>>) -> Seq<Part> {
    Seq::new(names.len(), |i: int| Part::Name(names[i]))
}

/// The last component, if it is a name.
pub open spec fn last_name(p: Seq<u8>) -> Option<Seq<u8>> {
    let ps = parts(p);
    if ps.len() > 0 {
        match ps.last() {
            Part::Name(name) => Some(name),
            _ => None,
        }
    } else {
        None
    }
}

/// How a component is spelled.
pub open spec fn part_bytes(part: Part) -> Seq<u8> {
    match part {
        Part::Root => seq![SLASH],
        Part::Cur => one_dot(),
        Part::Up => two_dots(),
        Part::Name(name) => name,
    }
}

/// How `ps` are spelled, one by one.
pub open spec fn spellings(ps: Seq<Part>) -> Seq<Seq<u8>> {
    ps.map_values(|part: Part| part_bytes(part))
}

/// The path that `ps` spell, put together one by one.
pub open spec fn respelled(ps: Seq<Part>) -> Seq<u8> {
    join_all(Seq::empty(), spellings(ps))
}

/// The directory reached from `dir` by following `ps`, all below one root, or
/// `None` when that climbs above the root or starts at the file system's.
pub open spec fn walk(dir: Seq<Seq<u8>>, ps: Seq<Part>) -> Option<Seq<Seq<u8>>>
    decreases ps.len(),
{
    if ps.len() == 0 {
        Some(dir)
    } else {
        match walk(dir, ps.drop_last()) {
            None => None,
            Some(reached) => match ps.last() {
                Part::Name(name) => Some(reached.push(name)),
                Part::Cur => Some(reached),
                Part::Up => if reached.len() > 0 {
                    Some(reached.drop_last())
                } else {
                    None
                },
                Part::Root => None,
            },
        }
    }
}

// ------------------------------------------------------------------- lemmas

pub proof fn lemma_last_slash(p: Seq<u8>)
    ensures
        -1 <= last_slash(p) < p.len(),
        last_slash(p) >= 0 ==> p[last_slash(p)] == SLASH,
        forall|i: int| last_slash(p) < i < p.len() ==> p[i] != SLASH,
        last_slash(p) < 0 <==> !has_slash(p),
    decreases p.len(),
{
    if p.len() > 0 && p.last() != SLASH {
        lemma_last_slash(p.drop_last());
        assert forall|i: int| last_slash(p) < i < p.len() implies p[i] != SLASH by {
            if i < p.len() - 1 {
                assert(p.drop_last()[i] == p[i]);
            }
        }
        if last_slash(p) < 0 {
            assert(!has_slash(p));
        } else {
            assert(p[last_slash(p)] == SLASH);
        }
    } else if p.len() > 0 {
        assert(p[p.len() - 1] == SLASH);
    }
}

/// The position with a `/` and none behind it is the last one.
pub proof fn lemma_last_slash_is(p: Seq<u8>, k: int)
    requires
        -1 <= k < p.len(),
        k >= 0 ==> p[k] == SLASH,
        forall|i: int| k < i < p.len() ==> p[i] != SLASH,
    ensures
        last_slash(p) == k,
{
    lemma_last_slash(p);
}

/// The components before a separator and behind it are found independently.
pub proof fn lemma_body_split(p: Seq<u8>, segment: Seq<u8>)
    requires
        !has_slash(segment),
    ensures
        body_parts(p.push(SLASH) + segment) == body_parts(p) + segment_parts(segment),
{
    let whole = p.push(SLASH) + segment;
    assert forall|i: int| p.len() < i < whole.len() implies whole[i] != SLASH by {
        assert(whole[i] == segment[i - p.len() - 1]);
    }
    lemma_last_slash_is(whole, p.len() as int);
    assert(whole.take(p.len() as int) =~= p);
    assert(whole.skip(p.len() as int + 1) =~= segment);
}

/// A separator at the end changes nothing.
pub proof fn lemma_body_trailing_slash(p: Seq<u8>)
    ensures
        body_parts(p.push(SLASH)) == body_parts(p),
{
    lemma_body_split(p, Seq::empty());
    assert(p.push(SLASH) + Seq::<u8>::empty() =~= p.push(SLASH));
    assert(body_parts(p) + segment_parts(Seq::<u8>::empty()) =~= body_parts(p));
}

pub proof fn lemma_plain_name_parts(name: Seq<u8>)
    requires
        is_plain_name(name),
    ensures
        parts(name) == seq![Part::Name(name)],
        !is_absolute(name),
        !starts_here(name),
{
    lemma_last_slash(name);
    if is_absolute(name) {
        assert(name[0] == SLASH);
    }
    if starts_here(name) {
        if name.len() == 1 {
            assert(name =~= one_dot());
        } else {
            assert(name[1] == SLASH);
        }
    }
    assert(parts(name) =~= seq![Part::Name(name)]);
}

/// Putting one plain name behind a path adds one component.
pub proof fn lemma_join_name(p: Seq<u8>, name: Seq<u8>)
    requires
        is_plain_name(name),
    ensures
        parts(join_path(p, name)) == parts(p).push(Part::Name(name)),
        !is_absolute(p) ==> !is_absolute(join_path(p, name)),
{
    lemma_plain_name_parts(name);
    lemma_last_slash(name);
    let whole = join_path(p, name);
    if p.len() == 0 {
        assert(whole =~= name);
        assert(parts(p) =~= Seq::<Part>::empty());
        assert(parts(whole) =~= parts(p).push(Part::Name(name)));
    } else {
        let q = if p.last() == SLASH { p.drop_last() } else { p };
        assert(whole =~= q.push(SLASH) + name);
        lemma_body_split(q, name);
        lemma_body_trailing_slash(q);
        if p.last() == SLASH {
            assert(p =~= q.push(SLASH));
        }
        assert(body_parts(p) == body_parts(q));
        assert(head_parts(whole) =~= head_parts(p)) by {
            assert(whole[0] == p[0]);
            if p.len() >= 2 {
                assert(whole[1] == p[1]);
            } else {
                assert(whole[1] == SLASH || p[0] == SLASH);
            }
        }
        assert(parts(whole) =~= parts(p).push(Part::Name(name)));
    }
}

/// Putting plain names behind a path adds just those components.
pub proof fn lemma_join_all(p: Seq<u8>, names: Seq<Seq<u8>>)
    requires
        forall|i: int| 0 <= i < names.len() ==> is_plain_name(#[trigger] names[i]),
    ensures
        parts(join_all(p, names)) == parts(p) + name_parts(names),
        !is_absolute(p) ==> !is_absolute(join_all(p, names)),
    decreases names.len(),
{
    if names.len() == 0 {
        assert(parts(p) + name_parts(names) =~= parts(p));
    } else {
        assert forall|i: int| 0 <= i < names.drop_last().len() implies is_plain_name(
            #[trigger] names.drop_last()[i],
        ) by {
            assert(names.drop_last()[i] == names[i]);
        }
        lemma_join_all(p, names.drop_last());
        assert(is_plain_name(names[names.len() - 1]));
        lemma_join_name(join_all(p, names.drop_last()), names.last());
        assert(parts(p) + name_parts(names) =~= (parts(p) + name_parts(names.drop_last())).push(
            Part::Name(names.last()),
        ));
    }
}

/// The names among the components of a path are plain, and only the first
/// component can be the root or the current directory.
pub proof fn lemma_body_canonical(p: Seq<u8>)
    ensures
        forall|i: int|
            #![trigger body_parts(p)[i]]
            0 <= i < body_parts(p).len() ==> match body_parts(p)[i] {
                Part::Name(name) => is_plain_name(name),
                Part::Up => true,
                _ => false,
            },
    decreases p.len(),
{
    lemma_last_slash(p);
    let k = last_slash(p);
    if k < 0 {
        lemma_segment_canonical(p);
    } else {
        lemma_body_canonical(p.take(k));
        let segment = p.skip(k + 1);
        assert(!has_slash(segment)) by {
            assert forall|i: int| 0 <= i < segment.len() implies segment[i] != SLASH by {
                assert(segment[i] == p[k + 1 + i]);
            }
        }
        lemma_segment_canonical(segment);
        let before = body_parts(p.take(k));
        assert forall|i: int|
            #![trigger body_parts(p)[i]]
            0 <= i < body_parts(p).len() implies (match body_parts(p)[i] {
            Part::Name(name) => is_plain_name(name),
            Part::Up => true,
            _ => false,
        }) by {
            if i < before.len() {
                assert(body_parts(p)[i] == before[i]);
            } else {
                assert(body_parts(p)[i] == segment_parts(segment)[i - before.len()]);
            }
        }
    }
}

proof fn lemma_segment_canonical(segment: Seq<u8>)
    requires
        !has_slash(segment),
    ensures
        forall|i: int|
            #![trigger segment_parts(segment)[i]]
            0 <= i < segment_parts(segment).len() ==> match segment_parts(segment)[i] {
                Part::Name(name) => is_plain_name(name),
                Part::Up => true,
                _ => false,
            },
{
}

pub proof fn lemma_parts_canonical(p: Seq<u8>)
    ensures
        is_canonical(parts(p)),
        parts(p).len() > 0 && parts(p)[0] == Part::Root <==> is_absolute(p),
{
    lemma_body_canonical(p);
    let head = head_parts(p);
    assert forall|i: int|
        #![trigger parts(p)[i]]
        0 <= i < parts(p).len() implies (match parts(p)[i] {
        Part::Name(name) => is_plain_name(name),
        Part::Up => true,
        Part::Root => i == 0,
        Part::Cur => i == 0,
    }) by {
        if i >= head.len() {
            assert(parts(p)[i] == body_parts(p)[i - head.len()]);
        }
    }
    if !is_absolute(p) && parts(p).len() > 0 {
        if head.len() > 0 {
            assert(parts(p)[0] == Part::Cur);
        } else {
            assert(parts(p)[0] == body_parts(p)[0]);
        }
    }
}

/// A path made of plain names is not empty and does not end in a separator.
pub proof fn lemma_join_all_end(p: Seq<u8>, names: Seq<Seq<u8>>)
    requires
        names.len() > 0,
        forall|i: int| 0 <= i < names.len() ==> is_plain_name(#[trigger] names[i]),
    ensures
        join_all(p, names).len() > 0,
        join_all(p, names).last() != SLASH,
{
    let name = names[names.len() - 1];
    assert(is_plain_name(name));
    assert(name == names.last());
    let before = join_all(p, names.drop_last());
    let whole = join_path(before, name);
    lemma_plain_name_parts(name);
    assert(whole.last() == name.last());
    if name.last() == SLASH {
        assert(has_slash(name)) by {
            assert(name[name.len() - 1] == SLASH);
        }
    }
}

/// Joining names first and putting them behind a path at once, or one by one, is
/// the same.
pub proof fn lemma_join_at_once(p: Seq<u8>, names: Seq<Seq<u8>>)
    requires
        names.len() > 0,
        forall|i: int| 0 <= i < names.len() ==> is_plain_name(#[trigger] names[i]),
    ensures
        join_path(p, join_all(Seq::empty(), names)) == join_all(p, names),
    decreases names.len(),
{
    let empty = Seq::<u8>::empty();
    let rest = names.drop_last();
    let name = names[names.len() - 1];
    assert(is_plain_name(name));
    assert(name == names.last());
    lemma_plain_name_parts(name);
    assert forall|i: int| 0 <= i < rest.len() implies is_plain_name(#[trigger] rest[i]) by {
        assert(rest[i] == names[i]);
    }
    if rest.len() == 0 {
        assert(join_all(empty, rest) == empty);
        assert(join_all(p, rest) == p);
        assert(empty + name =~= name);
    } else {
        lemma_join_at_once(p, rest);
        lemma_join_all_end(empty, rest);
        lemma_join_all_end(p, rest);
        lemma_join_all(empty, rest);
        lemma_join_all(empty, names);
        let j = join_all(empty, rest);
        let whole = join_all(empty, names);
        assert(whole == j.push(SLASH) + name);
        assert(!is_absolute(empty));
        assert(!is_absolute(whole) && !is_absolute(j));
        assert(join_path(p, whole) =~= join_path(p, j).push(SLASH) + name);
    }
}

/// Putting `..` behind a path adds that component.
pub proof fn lemma_join_up(p: Seq<u8>)
    ensures
        parts(join_path(p, two_dots())) == parts(p).push(Part::Up),
        !is_absolute(p) ==> !is_absolute(join_path(p, two_dots())),
{
    let up = two_dots();
    assert(up.len() == 2 && up[0] == DOT && up[1] == DOT);
    assert(!has_slash(up));
    assert(up != one_dot()) by {
        assert(one_dot().len() == 1);
    }
    lemma_last_slash(up);
    let whole = join_path(p, up);
    if p.len() == 0 {
        assert(whole =~= up);
        assert(parts(p) =~= Seq::<Part>::empty());
        assert(parts(whole) =~= parts(p).push(Part::Up));
    } else {
        let q = if p.last() == SLASH {
            p.drop_last()
        } else {
            p
        };
        assert(whole =~= q.push(SLASH) + up);
        lemma_body_split(q, up);
        lemma_body_trailing_slash(q);
        if p.last() == SLASH {
            assert(p =~= q.push(SLASH));
        }
        assert(head_parts(whole) =~= head_parts(p)) by {
            assert(whole[0] == p[0]);
            if p.len() >= 2 {
                assert(whole[1] == p[1]);
            } else {
                assert(whole[1] == SLASH || p[0] == SLASH);
            }
        }
        assert(parts(whole) =~= parts(p).push(Part::Up));
    }
}

/// Components that can stand in a path are the components of what they spell.
pub proof fn lemma_respelled(ps: Seq<Part>)
    requires
        is_canonical(ps),
    ensures
        parts(respelled(ps)) == ps,
    decreases ps.len(),
{
    let spelled = spellings(ps);
    if ps.len() == 0 {
        assert(parts(respelled(ps)) =~= ps);
    } else {
        let rest = ps.drop_last();
        assert(is_canonical(rest)) by {
            assert forall|i: int| #![trigger rest[i]] 0 <= i < rest.len() implies (match rest[i] {
                Part::Name(name) => is_plain_name(name),
                Part::Up => true,
                Part::Root => i == 0,
                Part::Cur => i == 0,
            }) by {
                assert(rest[i] == ps[i]);
            }
        }
        lemma_respelled(rest);
        assert(spelled.drop_last() =~= spellings(rest));
        let last = ps[ps.len() - 1];
        assert(spelled.last() == part_bytes(last));
        match last {
            Part::Name(name) => {
                lemma_join_name(respelled(rest), name);
            },
            Part::Up => {
                lemma_join_up(respelled(rest));
            },
            Part::Root => {
                let p = seq![SLASH];
                assert(respelled(rest) =~= Seq::<u8>::empty());
                assert(respelled(ps) =~= p);
                lemma_last_slash_is(p, 0);
                assert(p.take(0) =~= Seq::<u8>::empty());
                assert(p.skip(1) =~= Seq::<u8>::empty());
                assert(parts(p) =~= ps);
            },
            Part::Cur => {
                let p = one_dot();
                assert(respelled(rest) =~= Seq::<u8>::empty());
                assert(respelled(ps) =~= p);
                lemma_last_slash_is(p, -1);
                assert(parts(p) =~= ps);
            },
        }
        assert(parts(respelled(ps)) =~= ps);
    }
}

// ---------------------------------------------------------------- functions

/// True for a path that starts at the root.
pub fn absolute(p: &[u8]) -> (yes: bool)
    ensures
        yes == is_absolute(p@),
{
    p.len() > 0 && p[0] == SLASH
}

/// A copy of the bytes of `p` from `from` up to `to`.
pub fn copy_bytes(p: &[u8], from: usize, to: usize) -> (out: Vec<u8>)
    requires
        from <= to <= p.len(),
    ensures
        out@ == p@.subrange(from as int, to as int),
{
    let mut out: Vec<u8> = Vec::new();
    let mut i: usize = from;
    while i < to
        invariant
            from <= i <= to <= p.len(),
            out@ == p@.subrange(from as int, i as int),
        decreases to - i,
    {
        out.push(p[i]);
        proof {
            assert(p@.subrange(from as int, i + 1) =~= p@.subrange(from as int, i as int).push(
                p@[i as int],
            ));
        }
        i = i + 1;
    }
    out
}

/// A copy of `p`.
pub fn bytes_of(p: &[u8]) -> (out: Vec<u8>)
    ensures
        out@ == p@,
{
    let out = copy_bytes(p, 0, p.len());
    assert(out@ =~= p@);
    out
}

/// Puts `more` behind `out`.
pub fn append_bytes(out: &mut Vec<u8>, more: &[u8])
    ensures
        final(out)@ == old(out)@ + more@,
{
    let mut i: usize = 0;
    let ghost start = out@;
    assert(start + more@.take(0) =~= start);
    while i < more.len()
        invariant
            i <= more.len(),
            out@ == start + more@.take(i as int),
        decreases more.len() - i,
    {
        out.push(more[i]);
        proof {
            assert(start + more@.take(i + 1) =~= (start + more@.take(i as int)).push(
                more@[i as int],
            ));
        }
        i = i + 1;
    }
    assert(more@.take(more@.len() as int) =~= more@);
}

/// Adds to `out` the component that the segment of `p` from `from` to `to` is.
fn push_segment(out: &mut Vec<Component>, p: &[u8], from: usize, to: usize)
    requires
        from <= to <= p.len(),
    ensures
        views(final(out)@) == views(old(out)@) + segment_parts(
            p@.subrange(from as int, to as int),
        ),
{
    let ghost segment = p@.subrange(from as int, to as int);
    let ghost before = views(out@);
    let n: usize = to - from;
    if n == 0 {
        assert(before + segment_parts(segment) =~= before);
        return;
    }
    if n == 1 && p[from] == DOT {
        assert(segment =~= one_dot());
        assert(before + segment_parts(segment) =~= before);
        return;
    }
    if n == 2 && p[from] == DOT && p[from + 1] == DOT {
        assert(segment =~= two_dots());
        assert(segment != one_dot());
        out.push(Component::ParentDir);
        assert(views(out@) =~= before + segment_parts(segment));
        return;
    }
    proof {
        assert(segment != one_dot()) by {
            if segment == one_dot() {
                assert(one_dot().len() == 1);
                assert(segment[0] == p@[from as int]);
            }
        }
        assert(segment != two_dots()) by {
            if segment == two_dots() {
                assert(two_dots().len() == 2);
                assert(segment[0] == p@[from as int]);
                assert(segment[1] == p@[from + 1]);
            }
        }
    }
    out.push(Component::Normal(copy_bytes(p, from, to)));
    assert(views(out@) =~= before + segment_parts(segment));
}

/// The components of `p`.
pub fn components(p: &[u8]) -> (out: Vec<Component>)
    ensures
        views(out@) == parts(p@),
{
    let mut out: Vec<Component> = Vec::new();
    if absolute(p) {
        out.push(Component::RootDir);
    } else if p.len() > 0 && p[0] == DOT && (p.len() == 1 || p[1] == SLASH) {
        out.push(Component::CurDir);
    }
    let ghost head = head_parts(p@);
    assert(views(out@) =~= head);
    let mut from: usize = 0;
    let mut i: usize = 0;
    // Everything before `from` is done; `from` is 0 or just behind a separator.
    let ghost mut done: Seq<Part> = Seq::empty();
    assert(head + done =~= head);
    while i < p.len()
        invariant
            from <= i <= p.len(),
            from > 0 ==> p@[from - 1] == SLASH,
            forall|k: int| from <= k < i ==> p@[k] != SLASH,
            from == 0 ==> done == Seq::<Part>::empty(),
            from > 0 ==> done == body_parts(p@.take(from - 1)),
            views(out@) == head + done,
        decreases p.len() - i,
    {
        if p[i] == SLASH {
            push_segment(&mut out, p, from, i);
            proof {
                let segment = p@.subrange(from as int, i as int);
                lemma_prefix_body(p@, from as int, i as int);
                let next = body_parts(p@.take(i as int));
                assert(done + segment_parts(segment) =~= next);
                assert(head + done + segment_parts(segment) =~= head + next);
                done = next;
            }
            from = i + 1;
        }
        i = i + 1;
    }
    push_segment(&mut out, p, from, p.len());
    proof {
        lemma_prefix_body(p@, from as int, p@.len() as int);
        assert(p@.take(p@.len() as int) =~= p@);
        let segment = p@.subrange(from as int, p@.len() as int);
        assert(done + segment_parts(segment) =~= body_parts(p@));
        assert(head + done + segment_parts(segment) =~= parts(p@));
    }
    out
}

/// The components up to `to`, when the last segment before it starts at `from`.
proof fn lemma_prefix_body(p: Seq<u8>, from: int, to: int)
    requires
        0 <= from <= to <= p.len(),
        from > 0 ==> p[from - 1] == SLASH,
        forall|k: int| from <= k < to ==> p[k] != SLASH,
    ensures
        from == 0 ==> body_parts(p.take(to)) == segment_parts(p.subrange(from, to)),
        from > 0 ==> body_parts(p.take(to)) == body_parts(p.take(from - 1)) + segment_parts(
            p.subrange(from, to),
        ),
{
    let q = p.take(to);
    lemma_last_slash_is(q, from - 1);
    if from == 0 {
        assert(q =~= p.subrange(from, to));
    } else {
        assert(q.take(from - 1) =~= p.take(from - 1));
        assert(q.skip(from) =~= p.subrange(from, to));
    }
}

/// `p` with `q` put behind it; an absolute `q` takes its place.
pub fn join(p: &[u8], q: &[u8]) -> (out: Vec<u8>)
    ensures
        out@ == join_path(p@, q@),
{
    if absolute(q) {
        return bytes_of(q);
    }
    let mut out = bytes_of(p);
    if p.len() > 0 && p[p.len() - 1] != SLASH {
        out.push(SLASH);
    }
    append_bytes(&mut out, q);
    out
}

/// The last component of `p`, if it is a name.
pub fn file_name(p: &[u8]) -> (name: Option<Vec<u8>>)
    ensures
        name is Some <==> last_name(p@) is Some,
        name matches Some(n) ==> last_name(p@) == Some(n@),
{
    let mut all = components(p);
    let ghost ps = parts(p@);
    let ghost whole = all@;
    match all.pop() {
        None => {
            assert(ps.len() == 0);
            None
        },
        Some(last) => {
            assert(ps.last() == views(whole).last());
            match last {
                Component::Normal(name) => Some(name),
                _ => None,
            }
        },
    }
}

/// Compares two paths by their components.
pub fn same_path(p: &[u8], q: &[u8]) -> (same: bool)
    ensures
        same == (parts(p@) == parts(q@)),
{
    let left = components(p);
    let right = components(q);
    if left.len() != right.len() {
        assert(parts(p@).len() != parts(q@).len());
        return false;
    }
    let mut i: usize = 0;
    while i < left.len()
        invariant
            i <= left@.len(),
            left@.len() == right@.len(),
            views(left@) == parts(p@),
            views(right@) == parts(q@),
            forall|k: int| 0 <= k < i ==> left@[k]@ == right@[k]@,
        decreases left.len() - i,
    {
        if !same_component(&left[i], &right[i]) {
            assert(views(left@)[i as int] != views(right@)[i as int]);
            return false;
        }
        i = i + 1;
    }
    assert(views(left@) =~= views(right@));
    true
}

/// Compares two components.
pub fn same_component(a: &Component, b: &Component) -> (same: bool)
    ensures
        same == (a@ == b@),
{
    match (a, b) {
        (Component::RootDir, Component::RootDir) => true,
        (Component::CurDir, Component::CurDir) => true,
        (Component::ParentDir, Component::ParentDir) => true,
        (Component::Normal(x), Component::Normal(y)) => crate::text::same_bytes(x, y),
        _ => false,
    }
}

/// How a component is spelled.
pub fn spelling(component: &Component) -> (out: Vec<u8>)
    ensures
        out@ == part_bytes(component@),
{
    let mut out: Vec<u8> = Vec::new();
    match component {
        Component::RootDir => {
            out.push(SLASH);
        },
        Component::CurDir => {
            out.push(DOT);
        },
        Component::ParentDir => {
            out.push(DOT);
            out.push(DOT);
        },
        Component::Normal(name) => {
            out = bytes_of(name);
        },
    }
    assert(out@ =~= part_bytes(component@));
    out
}

/// The path that `all` spell.
pub fn respell(all: &Vec<Component>) -> (out: Vec<u8>)
    ensures
        out@ == respelled(views(all@)),
{
    let mut out: Vec<u8> = Vec::new();
    let mut i: usize = 0;
    let ghost spelled = spellings(views(all@));
    assert(spelled.take(0) =~= Seq::<Seq<u8>>::empty());
    assert(out@ =~= Seq::<u8>::empty());
    while i < all.len()
        invariant
            i <= all@.len(),
            spelled == spellings(views(all@)),
            out@ == join_all(Seq::empty(), spelled.take(i as int)),
        decreases all.len() - i,
    {
        out = join(&out, &spelling(&all[i]));
        proof {
            assert(spelled.take(i + 1).drop_last() =~= spelled.take(i as int));
            assert(spelled.take(i + 1).last() == part_bytes(all@[i as int]@));
        }
        i = i + 1;
    }
    assert(spelled.take(spelled.len() as int) =~= spelled);
    out
}

/// The components above the last one.
pub open spec fn parent_parts(p: Seq<u8>) -> Seq<Part> {
    let ps = parts(p);
    if ps.len() == 0 || ps.last() == Part::Root {
        Seq::empty()
    } else {
        ps.drop_last()
    }
}

/// True if the first `n` bytes of `p` are the path above its last component: the
/// shortest start of `p` with those components.
pub open spec fn is_parent_end(p: Seq<u8>, n: int) -> bool {
    &&& 0 <= n <= p.len()
    &&& parts(p.take(n)) == parent_parts(p)
    &&& forall|m: int| 0 <= m < n ==> parts(#[trigger] p.take(m)) != parent_parts(p)
}

/// Some start of a path has the components above its last one.
proof fn lemma_parent_end(p: Seq<u8>) -> (n: int)
    ensures
        0 <= n <= p.len(),
        parts(p.take(n)) == parent_parts(p),
    decreases p.len(),
{
    lemma_last_slash(p);
    lemma_parts_canonical(p);
    assert(parts(p.take(0)) =~= Seq::<Part>::empty());
    let k = last_slash(p);
    if parent_parts(p).len() == 0 {
        0
    } else if k < 0 {
        assert(body_parts(p) == segment_parts(p));
        if head_parts(p).len() > 0 {
            assert(p =~= one_dot());
        }
        assert(parts(p).len() <= 1);
        0
    } else {
        let above = p.take(k + 1);
        let segment = p.skip(k + 1);
        assert(above =~= p.take(k).push(SLASH));
        assert(p =~= p.take(k).push(SLASH) + segment);
        lemma_body_split(p.take(k), segment);
        lemma_body_trailing_slash(p.take(k));
        assert(head_parts(above) == head_parts(p));
        assert(parts(p) =~= parts(above) + segment_parts(segment));
        if segment_parts(segment).len() > 0 {
            assert(parts(p).drop_last() =~= parts(above));
            k + 1
        } else {
            assert(parts(p) =~= parts(above));
            let shorter = if segment.len() > 0 {
                above
            } else {
                p.take(k)
            };
            if segment.len() == 0 {
                assert(above =~= p);
                assert(k > 0) by {
                    if k == 0 {
                        assert(body_parts(p.take(0)) =~= Seq::<Part>::empty());
                    }
                }
                assert(head_parts(shorter) == head_parts(p));
                assert(parts(shorter) =~= parts(p));
            }
            let n = lemma_parent_end(shorter);
            assert(shorter.take(n) =~= p.take(n));
            n
        }
    }
}

/// The path above the last component of `p`, spelled as it is there.
pub fn parent(p: &[u8]) -> (out: Vec<u8>)
    ensures
        exists|n: int| #[trigger] is_parent_end(p@, n) && out@ == p@.take(n),
{
    let mut above = components(p);
    let ghost ps = parts(p@);
    proof {
        lemma_parts_canonical(p@);
    }
    if let Some(last) = above.pop() {
        assert(ps.last() == last@);
        assert(views(above@) =~= ps.drop_last());
        if let Component::RootDir = last {
            assert(ps[ps.len() - 1] == Part::Root);
            assert(views(above@) =~= Seq::<Part>::empty());
        }
    } else {
        assert(views(above@) =~= Seq::<Part>::empty());
    }
    let goal = respell(&above);
    proof {
        assert(is_canonical(views(above@))) by {
            assert forall|i: int| #![trigger views(above@)[i]] 0 <= i < views(above@).len() implies (
            match views(above@)[i] {
                Part::Name(name) => is_plain_name(name),
                Part::Up => true,
                Part::Root => i == 0,
                Part::Cur => i == 0,
            }) by {
                assert(views(above@)[i] == ps[i]);
            }
        }
        lemma_respelled(views(above@));
    }
    let ghost end = lemma_parent_end(p@);
    let mut n: usize = 0;
    while n < p.len()
        invariant_except_break
            n <= end,
        invariant
            n <= p@.len(),
            0 <= end <= p@.len(),
            parts(p@.take(end)) == parent_parts(p@),
            parts(goal@) == parent_parts(p@),
            forall|m: int| 0 <= m < n ==> parts(#[trigger] p@.take(m)) != parent_parts(p@),
        ensures
            parts(p@.take(n as int)) == parent_parts(p@),
        decreases p.len() - n,
    {
        if same_path(&copy_bytes(p, 0, n), &goal) {
            assert(p@.subrange(0, n as int) =~= p@.take(n as int));
            break;
        }
        assert(p@.subrange(0, n as int) =~= p@.take(n as int));
        n = n + 1;
    }
    assert(is_parent_end(p@, n as int));
    assert(p@.subrange(0, n as int) =~= p@.take(n as int));
    copy_bytes(p, 0, n)
}

/// The components that can stand in a path: plain names, and the root or the
/// current directory only at the start.
pub open spec fn is_canonical(ps: Seq<Part>) -> bool {
    forall|i: int|
        #![trigger ps[i]]
        0 <= i < ps.len() ==> match ps[i] {
            Part::Name(name) => is_plain_name(name),
            Part::Up => true,
            Part::Root => i == 0,
            Part::Cur => i == 0,
        }
}

/// The components of `p` with `suffix` behind its name, or as its name where it
/// has none.
pub open spec fn suffixed_parts(p: Seq<u8>, suffix: Seq<u8>) -> Seq<Part> {
    match last_name(p) {
        Some(name) => parts(p).drop_last().push(Part::Name(name + suffix)),
        None => parts(p).push(Part::Name(suffix)),
    }
}

proof fn lemma_suffixed_name(name: Seq<u8>, suffix: Seq<u8>)
    requires
        is_plain_name(name),
        is_plain_name(suffix),
    ensures
        is_plain_name(name + suffix),
{
    let whole = name + suffix;
    assert forall|i: int| 0 <= i < whole.len() implies whole[i] != SLASH by {
        if i < name.len() {
            assert(whole[i] == name[i]);
        } else {
            assert(whole[i] == suffix[i - name.len()]);
        }
    }
    assert(one_dot().len() == 1);
    if whole == two_dots() {
        assert(two_dots().len() == 2);
        assert(whole[0] == DOT);
        assert(name =~= one_dot());
    }
}

/// `p` with `suffix` behind its name, or put behind it where it has none.
pub fn with_name_suffix(p: &[u8], suffix: &[u8]) -> (out: Vec<u8>)
    requires
        is_plain_name(suffix@),
    ensures
        parts(out@) == suffixed_parts(p@, suffix@),
{
    let ghost ps = parts(p@);
    proof {
        lemma_parts_canonical(p@);
    }
    match file_name(p) {
        Some(name) => {
            let mut all = components(p);
            let ghost whole = all@;
            let _last = all.pop();
            assert(views(all@) =~= views(whole).drop_last());
            proof {
                let last = last_name(p@)->0;
                lemma_suffixed_name(last, suffix@);
                let rest = ps.drop_last();
                assert forall|i: int| #![trigger rest[i]] 0 <= i < rest.len() implies (match rest[i] {
                    Part::Name(name) => is_plain_name(name),
                    Part::Up => true,
                    Part::Root => i == 0,
                    Part::Cur => i == 0,
                }) by {
                    assert(rest[i] == ps[i]);
                }
                lemma_respelled(ps.drop_last());
                lemma_join_name(respelled(ps.drop_last()), last + suffix@);
            }
            let mut full = name;
            append_bytes(&mut full, suffix);
            join(&respell(&all), &full)
        },
        None => {
            proof {
                lemma_join_name(p@, suffix@);
            }
            join(p, suffix)
        },
    }
}

/// Walking goes step by step: a name leads down, two dots lead up, though not above the
/// start, one dot leads nowhere, and the root leads away.
pub proof fn lemma_walk_step_by_step(dir: Seq<Seq<u8>>, ps: Seq<Part>, part: Part)
    ensures
        walk(dir, Seq::empty()) == Some(dir),
        walk(dir, ps) is None ==> walk(dir, ps.push(part)) is None,
        walk(dir, ps) matches Some(place) ==> {
            &&& part matches Part::Name(name) ==> walk(dir, ps.push(part)) == Some(place.push(name))
            &&& part is Cur ==> walk(dir, ps.push(part)) == Some(place)
            &&& part is Up && place.len() > 0 ==> walk(dir, ps.push(part)) == Some(
                place.drop_last(),
            )
            &&& part is Up && place.len() == 0 ==> walk(dir, ps.push(part)) is None
            &&& part is Root ==> walk(dir, ps.push(part)) is None
        },
{
    assert(ps.push(part).drop_last() =~= ps);
    assert(ps.push(part).last() == part);
}

/// A suffix goes behind the last name of a path, and stands by itself where there is
/// none.
pub proof fn lemma_suffix_goes_behind_the_name(p: Seq<u8>, name: Seq<u8>, suffix: Seq<u8>)
    ensures
        parts(p).len() > 0 && parts(p).last() == Part::Name(name) ==> suffixed_parts(p, suffix)
            == parts(p).drop_last().push(Part::Name(name + suffix)),
        parts(p).len() == 0 || !(parts(p).last() is Name) ==> suffixed_parts(p, suffix) == parts(
            p,
        ).push(Part::Name(suffix)),
{
}

} // verus!
