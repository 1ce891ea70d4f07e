//! Links of paths: how a path set is taken apart into ordered node pairs,
//! and how opposing traversals of one physical link cancel ("uncrossing").

use vstd::prelude::*;

verus! {

/// The node sequences of a list of paths.
pub open spec fn views(paths: Seq<Vec<u32>>) -> Seq<Seq<u32>> {
    Seq::new(paths.len(), |i: int| paths[i]@)
}

/// The consecutive `(from, to)` pairs of a path, in path order.
pub open spec fn path_links(path: Seq<u32>) -> Seq<(u32, u32)> {
    Seq::new(
        if path.len() == 0 {
            0nat
        } else {
            (path.len() - 1) as nat
        },
        |i: int| (path[i], path[i + 1]),
    )
}

/// The links of all the paths, path after path.
pub open spec fn all_links(paths: Seq<Seq<u32>>) -> Seq<(u32, u32)>
    decreases paths.len(),
{
    if paths.len() == 0 {
        Seq::empty()
    } else {
        all_links(paths.drop_last()) + path_links(paths.last())
    }
}

/// Two links use the same physical link, in the same or in opposite sense.
pub open spec fn touches(a: (u32, u32), b: (u32, u32)) -> bool {
    (a.0 == b.0 && a.1 == b.1) || (a.0 == b.1 && a.1 == b.0)
}

/// The index of the first link of `links` that touches `l`, or the length of
/// `links` where none does.
pub open spec fn first_touch(links: Seq<(u32, u32)>, l: (u32, u32)) -> int
    decreases links.len(),
{
    if links.len() == 0 {
        0
    } else {
        let r = first_touch(links.drop_last(), l);
        if r < links.len() - 1 {
            r
        } else if touches(links.last(), l) {
            links.len() - 1
        } else {
            links.len() as int
        }
    }
}

/// The cancel-or-add rule: where a link of `links` touches `l`, the first
/// such link leaves; where none does, `l` joins at the end.
pub open spec fn cancel_or_add(links: Seq<(u32, u32)>, l: (u32, u32)) -> Seq<(u32, u32)> {
    let r = first_touch(links, l);
    if 0 <= r < links.len() {
        links.remove(r)
    } else {
        links.push(l)
    }
}

/// `base` after the cancel-or-add rule has taken each link of `incoming` in turn.
pub open spec fn uncross_links(base: Seq<(u32, u32)>, incoming: Seq<(u32, u32)>) -> Seq<
    (u32, u32),
>
    decreases incoming.len(),
{
    if incoming.len() == 0 {
        base
    } else {
        cancel_or_add(uncross_links(base, incoming.drop_last()), incoming.last())
    }
}

/// The surviving links of a path set: the links of the first path, then the
/// links of every later path under the cancel-or-add rule.
pub open spec fn uncrossed(paths: Seq<Seq<u32>>) -> Seq<(u32, u32)> {
    if paths.len() == 0 {
        Seq::empty()
    } else {
        uncross_links(path_links(paths[0]), all_links(paths.skip(1)))
    }
}

/// No two links of `links` touch.
pub open spec fn untouching(links: Seq<(u32, u32)>) -> bool {
    forall|i: int, j: int|
        0 <= i < j < links.len() ==> !touches(#[trigger] links[i], #[trigger] links[j])
}

/// No ordered pair occurs twice in `links`.
pub open spec fn no_repeats(links: Seq<(u32, u32)>) -> bool {
    forall|i: int, j: int| 0 <= i < j < links.len() ==> #[trigger] links[i] != #[trigger] links[j]
}

/// Where no link of `links` touches `l`, the search for one runs to the end.
pub proof fn lemma_first_touch_absent(links: Seq<(u32, u32)>, l: (u32, u32))
    requires
        forall|i: int| 0 <= i < links.len() ==> !touches(#[trigger] links[i], l),
    ensures
        first_touch(links, l) == links.len(),
    decreases links.len(),
{
    if links.len() > 0 {
        lemma_first_touch_absent(links.drop_last(), l);
    }
}

/// Uncrossing a link set that is disjoint already changes nothing: where no
/// two links of `base` followed by `incoming` touch, every incoming link is
/// added and none is cancelled, however often the step is run on the result.
pub proof fn lemma_uncross_disjoint_is_noop(base: Seq<(u32, u32)>, incoming: Seq<(u32, u32)>)
    requires
        untouching(base + incoming),
    ensures
        uncross_links(base, incoming) == base + incoming,
        uncross_links(base + incoming, Seq::empty()) == base + incoming,
    decreases incoming.len(),
{
    let all = base + incoming;
    if incoming.len() == 0 {
        assert(all =~= base);
    } else {
        let earlier = base + incoming.drop_last();
        assert forall|i: int, j: int| 0 <= i < j < earlier.len() implies !touches(
            #[trigger] earlier[i],
            #[trigger] earlier[j],
        ) by {
            assert(earlier[i] == all[i] && earlier[j] == all[j]);
        }
        lemma_uncross_disjoint_is_noop(base, incoming.drop_last());
        assert forall|i: int| 0 <= i < earlier.len() implies !touches(
            #[trigger] earlier[i],
            incoming.last(),
        ) by {
            assert(earlier[i] == all[i] && incoming.last() == all[all.len() - 1]);
        }
        lemma_first_touch_absent(earlier, incoming.last());
        assert(earlier.push(incoming.last()) =~= all);
    }
}

/// The links of all paths are the links of the first path followed by the
/// links of the others.
pub proof fn lemma_all_links_first(paths: Seq<Seq<u32>>)
    requires
        paths.len() >= 1,
    ensures
        all_links(paths) == path_links(paths[0]) + all_links(paths.skip(1)),
    decreases paths.len(),
{
    if paths.len() == 1 {
        assert(paths.drop_last() =~= Seq::<Seq<u32>>::empty());
        assert(paths.skip(1) =~= Seq::<Seq<u32>>::empty());
        assert(all_links(paths) =~= path_links(paths[0]) + all_links(paths.skip(1)));
    } else {
        lemma_all_links_first(paths.drop_last());
        assert(paths.skip(1).drop_last() == paths.drop_last().skip(1));
        assert(all_links(paths) =~= path_links(paths[0]) + all_links(paths.skip(1)));
    }
}

/// Uncrossing paths that are disjoint already is a no-op: where no two
/// links of the paths touch, the surviving links are all their links, in
/// path order.
pub proof fn lemma_uncross_disjoint_paths(paths: Seq<Seq<u32>>)
    requires
        untouching(all_links(paths)),
    ensures
        uncrossed(paths) == all_links(paths),
{
    if paths.len() > 0 {
        lemma_all_links_first(paths);
        lemma_uncross_disjoint_is_noop(path_links(paths[0]), all_links(paths.skip(1)));
    }
}

/// The links of `path`.
pub fn links_of(path: &Vec<u32>) -> (out: Vec<(u32, u32)>)
    ensures
        out@ == path_links(path@),
{
    let mut out: Vec<(u32, u32)> = Vec::new();
    if path.len() == 0 {
        proof {
            assert(out@ =~= path_links(path@));
        }
        return out;
    }
    let last: usize = path.len() - 1;
    let mut i: usize = 0;
    while i < last
        invariant
            out.len() == i,
            i <= last,
            last + 1 == path.len(),
            forall|j: int| 0 <= j < i ==> #[trigger] out@[j] == (path@[j], path@[j + 1]),
        decreases last - i,
    {
        out.push((path[i], path[i + 1]));
        i += 1;
    }
    proof {
        assert(out@ =~= path_links(path@));
    }
    out
}

/// The links of the paths from index `first` on, path after path.
pub fn links_of_all(paths: &Vec<Vec<u32>>, first: usize) -> (out: Vec<(u32, u32)>)
    requires
        first <= paths.len(),
    ensures
        out@ == all_links(views(paths@).skip(first as int)),
{
    let ghost all = views(paths@);
    let mut out: Vec<(u32, u32)> = Vec::new();
    let mut i: usize = first;
    while i < paths.len()
        invariant
            first <= i <= paths.len(),
            all == views(paths@),
            out@ == all_links(all.subrange(first as int, i as int)),
        decreases paths.len() - i,
    {
        let links = links_of(&paths[i]);
        let ghost before = out@;
        let mut j: usize = 0;
        while j < links.len()
            invariant
                j <= links.len(),
                out@ == before + links@.take(j as int),
            decreases links.len() - j,
        {
            out.push(links[j]);
            proof {
                assert(links@.take(j + 1) =~= links@.take(j as int).push(links@[j as int]));
                assert(out@ =~= before + links@.take(j + 1));
            }
            j += 1;
        }
        proof {
            assert(links@.take(links@.len() as int) == links@);
            let next = all.subrange(first as int, i + 1);
            assert(next.drop_last() == all.subrange(first as int, i as int));
            assert(next.last() == paths@[i as int]@);
        }
        i += 1;
    }
    proof {
        assert(all.subrange(first as int, paths@.len() as int) == all.skip(first as int));
    }
    out
}

/// The index of the first link of `links` that touches `l`, or the length of
/// `links` where none does.
pub fn find_touch(links: &Vec<(u32, u32)>, l: (u32, u32)) -> (at: usize)
    ensures
        at == first_touch(links@, l),
        at <= links.len(),
{
    let mut at: usize = 0;
    let mut i: usize = 0;
    while i < links.len()
        invariant
            i <= links.len(),
            at <= i,
            at == first_touch(links@.take(i as int), l),
        decreases links.len() - i,
    {
        proof {
            assert(links@.take(i + 1).drop_last() == links@.take(i as int));
        }
        let m = links[i];
        if at == i && !((m.0 == l.0 && m.1 == l.1) || (m.0 == l.1 && m.1 == l.0)) {
            at = i + 1;
        }
        i += 1;
    }
    proof {
        assert(links@.take(links@.len() as int) == links@);
    }
    at
}

/// Applies the cancel-or-add rule for the link `l` to `links`.
pub fn uncross_link(links: Vec<(u32, u32)>, l: (u32, u32)) -> (out: Vec<(u32, u32)>)
    ensures
        out@ == cancel_or_add(links@, l),
{
    let mut out = links;
    let at = find_touch(&out, l);
    if at < out.len() {
        out.remove(at);
    } else {
        out.push(l);
    }
    out
}

/// The surviving links of `paths` after uncrossing.
pub fn uncross(paths: &Vec<Vec<u32>>) -> (out: Vec<(u32, u32)>)
    ensures
        out@ == uncrossed(views(paths@)),
{
    if paths.len() == 0 {
        return Vec::new();
    }
    let mut out = links_of(&paths[0]);
    let incoming = links_of_all(paths, 1);
    let ghost base = out@;
    let mut i: usize = 0;
    while i < incoming.len()
        invariant
            i <= incoming.len(),
            out@ == uncross_links(base, incoming@.take(i as int)),
        decreases incoming.len() - i,
    {
        proof {
            assert(incoming@.take(i + 1).drop_last() == incoming@.take(i as int));
        }
        out = uncross_link(out, incoming[i]);
        i += 1;
    }
    proof {
        assert(incoming@.take(incoming@.len() as int) == incoming@);
    }
    out
}

/// Whether no ordered pair occurs twice in `links`.
pub fn links_distinct(links: &Vec<(u32, u32)>) -> (distinct: bool)
    ensures
        distinct == no_repeats(links@),
{
    let mut j: usize = 0;
    while j < links.len()
        invariant
            j <= links.len(),
            forall|a: int, b: int| 0 <= a < b < j ==> #[trigger] links@[a] != #[trigger] links@[b],
        decreases links.len() - j,
    {
        let mut i: usize = 0;
        while i < j
            invariant
                i <= j < links.len(),
                forall|a: int| 0 <= a < i ==> #[trigger] links@[a] != links@[j as int],
            decreases j - i,
        {
            if links[i].0 == links[j].0 && links[i].1 == links[j].1 {
                proof {
                    assert(links@[i as int] == links@[j as int]);
                }
                return false;
            }
            i += 1;
        }
        j += 1;
    }
    true
}

} // verus!
