//! Path reconstruction: walking a surviving link set back into explicit
//! node sequences from the source to the target.

use crate::links::views;
use vstd::prelude::*;

verus! {

/// The index of the first link of `links` that leaves `node`, or the length
/// of `links` where none does.
pub open spec fn first_leaving(links: Seq<(u32, u32)>, node: u32) -> int
    decreases links.len(),
{
    if links.len() == 0 {
        0
    } else {
        let r = first_leaving(links.drop_last(), node);
        if r < links.len() - 1 {
            r
        } else if links.last().0 == node {
            links.len() - 1
        } else {
            links.len() as int
        }
    }
}

/// The nodes that the links leaving `source` lead to, in link order.
pub open spec fn starts_of(links: Seq<(u32, u32)>, source: u32) -> Seq<u32>
    decreases links.len(),
{
    if links.len() == 0 {
        Seq::empty()
    } else {
        let rest = starts_of(links.drop_last(), source);
        if links.last().0 == source {
            rest.push(links.last().1)
        } else {
            rest
        }
    }
}

/// The links that do not leave `source`, in link order.
pub open spec fn others_of(links: Seq<(u32, u32)>, source: u32) -> Seq<(u32, u32)>
    decreases links.len(),
{
    if links.len() == 0 {
        Seq::empty()
    } else {
        let rest = others_of(links.drop_last(), source);
        if links.last().0 == source {
            rest
        } else {
            rest.push(links.last())
        }
    }
}

/// Extends `path` link by link until it ends at `target`: each step takes
/// the first link of `rest` that leaves the path's last node and consumes it.
/// Gives the finished path with the links left over, or `None` where the
/// walk is stuck at a node that no remaining link leaves.
pub open spec fn walk(rest: Seq<(u32, u32)>, path: Seq<u32>, target: u32) -> Option<
    (Seq<u32>, Seq<(u32, u32)>),
>
    decreases rest.len(),
{
    if path.len() == 0 {
        None
    } else if path.last() == target {
        Some((path, rest))
    } else {
        let at = first_leaving(rest, path.last());
        if 0 <= at < rest.len() {
            walk(rest.remove(at), path.push(rest[at].1), target)
        } else {
            None
        }
    }
}

/// One walk for each node of `starts`, in order, each from `source` through
/// that node, all drawing on the same dwindling `rest`; the finished paths
/// follow `done`. `None` as soon as one walk is stuck.
pub open spec fn walks(
    starts: Seq<u32>,
    rest: Seq<(u32, u32)>,
    done: Seq<Seq<u32>>,
    source: u32,
    target: u32,
) -> Option<Seq<Seq<u32>>>
    decreases starts.len(),
{
    if starts.len() == 0 {
        Some(done)
    } else {
        match walk(rest, seq![source, starts[0]], target) {
            Some((path, left)) => walks(
                starts.drop_first(),
                left,
                done.push(path),
                source,
                target,
            ),
            None => None,
        }
    }
}

/// The paths that `links` decompose into: every link that leaves `source`
/// starts one path, and the other links are consumed by the walks.
pub open spec fn rebuilt(links: Seq<(u32, u32)>, source: u32, target: u32) -> Option<
    Seq<Seq<u32>>,
> {
    walks(starts_of(links, source), others_of(links, source), Seq::empty(), source, target)
}

/// `path` has at least one link, starts at `source`, ends at `target`, and
/// each of its links is one of `links`.
pub open spec fn leads(links: Seq<(u32, u32)>, path: Seq<u32>, source: u32, target: u32) -> bool {
    &&& path.len() >= 2
    &&& path[0] == source
    &&& path.last() == target
    &&& forall|a: int| 0 <= a < path.len() - 1 ==> links.contains((#[trigger] path[a], path[a + 1]))
}

/// The node sequences of a path list that may be absent.
pub open spec fn paths_view(paths: Option<Vec<Vec<u32>>>) -> Option<Seq<Seq<u32>>> {
    match paths {
        Some(p) => Some(views(p@)),
        None => None,
    }
}

/// The link at the index that `first_leaving` gives leaves `node`.
pub proof fn lemma_leaving_found(links: Seq<(u32, u32)>, node: u32)
    ensures
        0 <= first_leaving(links, node) <= links.len(),
        first_leaving(links, node) < links.len() ==> links[first_leaving(links, node)].0 == node,
    decreases links.len(),
{
    if links.len() > 0 {
        lemma_leaving_found(links.drop_last(), node);
    }
}

/// The index of the first link of `links` that leaves `node`, or the length
/// of `links` where none does.
pub fn find_leaving(links: &Vec<(u32, u32)>, node: u32) -> (at: usize)
    ensures
        at == first_leaving(links@, node),
        at <= links.len(),
{
    let mut at: usize = 0;
    let mut i: usize = 0;
    while i < links.len()
        invariant
            i <= links.len(),
            at <= i,
            at == first_leaving(links@.take(i as int), node),
        decreases links.len() - i,
    {
        proof {
            assert(links@.take(i + 1).drop_last() == links@.take(i as int));
        }
        if at == i && links[i].0 != node {
            at = i + 1;
        }
        i += 1;
    }
    proof {
        assert(links@.take(links@.len() as int) == links@);
    }
    at
}

/// Rebuilds the paths from `source` to `target` out of the surviving links.
/// Fails, rather than guess, where a walk reaches a node other than `target`
/// that no unconsumed link leaves.
pub fn reconstruct(links: &Vec<(u32, u32)>, source: u32, target: u32) -> (out: Option<
    Vec<Vec<u32>>,
>)
    ensures
        paths_view(out) == rebuilt(links@, source, target),
        out matches Some(paths) ==> forall|p: int|
            0 <= p < paths@.len() ==> leads(links@, (#[trigger] paths@[p])@, source, target),
{
    let mut starts: Vec<u32> = Vec::new();
    let mut rest: Vec<(u32, u32)> = Vec::new();
    let mut s: usize = 0;
    while s < links.len()
        invariant
            s <= links.len(),
            starts@ == starts_of(links@.take(s as int), source),
            rest@ == others_of(links@.take(s as int), source),
            forall|a: int| 0 <= a < starts@.len() ==> links@.contains((source, #[trigger] starts@[a])),
            forall|a: int| 0 <= a < rest@.len() ==> links@.contains(#[trigger] rest@[a]),
        decreases links.len() - s,
    {
        proof {
            assert(links@.take(s + 1).drop_last() == links@.take(s as int));
            assert(links@[s as int] == (links@[s as int].0, links@[s as int].1));
        }
        if links[s].0 == source {
            starts.push(links[s].1);
        } else {
            rest.push(links[s]);
        }
        s += 1;
    }
    proof {
        assert(links@.take(links@.len() as int) == links@);
        assert(starts@.skip(0) == starts@);
    }
    let mut done: Vec<Vec<u32>> = Vec::new();
    proof {
        assert(views(done@) =~= Seq::<Seq<u32>>::empty());
    }
    let mut i: usize = 0;
    while i < starts.len()
        invariant
            i <= starts.len(),
            walks(starts@.skip(i as int), rest@, views(done@), source, target) == rebuilt(
                links@,
                source,
                target,
            ),
            forall|a: int| 0 <= a < starts@.len() ==> links@.contains((source, #[trigger] starts@[a])),
            forall|a: int| 0 <= a < rest@.len() ==> links@.contains(#[trigger] rest@[a]),
            forall|p: int|
                0 <= p < done@.len() ==> leads(links@, (#[trigger] done@[p])@, source, target),
        decreases starts.len() - i,
    {
        let ghost rest_before = rest@;
        let mut current: u32 = starts[i];
        let mut path: Vec<u32> = Vec::new();
        path.push(source);
        path.push(current);
        proof {
            assert(path@ =~= seq![source, starts@.skip(i as int)[0]]);
            assert(starts@.skip(i as int).drop_first() == starts@.skip(i + 1));
        }
        while current != target
            invariant
                i < starts.len(),
                path@.len() >= 2,
                path@[0] == source,
                current == path@.last(),
                forall|a: int| 0 <= a < rest@.len() ==> links@.contains(#[trigger] rest@[a]),
                forall|a: int|
                    0 <= a < path@.len() - 1 ==> links@.contains((#[trigger] path@[a], path@[a + 1])),
                walks(starts@.skip(i as int), rest_before, views(done@), source, target)
                    == rebuilt(links@, source, target),
                walk(rest@, path@, target) == walk(
                    rest_before,
                    seq![source, starts@.skip(i as int)[0]],
                    target,
                ),
            decreases rest.len(),
        {
            let at = find_leaving(&rest, current);
            if at >= rest.len() {
                return None;
            }
            let ghost path_before = path@;
            let ghost rest_then = rest@;
            let link = rest.remove(at);
            path.push(link.1);
            current = link.1;
            proof {
                lemma_leaving_found(rest_then, path_before.last());
                assert(links@.contains(rest_then[at as int]));
                assert(link == (path_before.last(), link.1));
                assert forall|a: int| 0 <= a < path@.len() - 1 implies links@.contains(
                    (#[trigger] path@[a], path@[a + 1]),
                ) by {
                    if a < path_before.len() - 1 {
                        assert(path@[a] == path_before[a] && path@[a + 1] == path_before[a + 1]);
                    }
                }
                assert forall|a: int| 0 <= a < rest@.len() implies links@.contains(
                    #[trigger] rest@[a],
                ) by {
                    if a < at {
                        assert(rest@[a] == rest_then[a]);
                    } else {
                        assert(rest@[a] == rest_then[a + 1]);
                    }
                }
            }
        }
        proof {
            assert(views(done@.push(path)) =~= views(done@).push(path@));
        }
        done.push(path);
        i += 1;
    }
    Some(done)
}

} // verus!
