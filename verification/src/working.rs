//! The working graph of one iteration: the graph's edges with every link of
//! the paths found so far turned round and its weight negated.

use crate::graph::{first_weight, joins, Edge};
use crate::links::{all_links, links_of_all, views};
use vstd::prelude::*;

verus! {

/// `edges` without the edges between `from` and `to`, in either sense.
pub open spec fn without_link(edges: Seq<Edge>, from: u32, to: u32) -> Seq<Edge>
    decreases edges.len(),
{
    if edges.len() == 0 {
        Seq::empty()
    } else {
        let rest = without_link(edges.drop_last(), from, to);
        let e = edges.last();
        if joins(e, from, to) || joins(e, to, from) {
            rest
        } else {
            rest.push(e)
        }
    }
}

/// `edges` with the link `(from, to)` reversed: the edges between the two
/// nodes leave, and the edge `(to, from)` with the negated weight of the
/// first `(from, to)` edge joins at the end. `None` where no edge joins
/// `(from, to)`.
pub open spec fn reversed(edges: Seq<Edge>, from: u32, to: u32) -> Option<Seq<Edge>> {
    match first_weight(edges, from, to) {
        Some(w) => Some(
            without_link(edges, from, to).push(Edge { from: to, to: from, weight: (-w) as i32 }),
        ),
        None => None,
    }
}

/// `edges` after each link of `links` was reversed in turn; `None` as soon
/// as a link is not there to be reversed.
pub open spec fn reverse_all(edges: Seq<Edge>, links: Seq<(u32, u32)>) -> Option<Seq<Edge>>
    decreases links.len(),
{
    if links.len() == 0 {
        Some(edges)
    } else {
        match reverse_all(edges, links.drop_last()) {
            Some(g) => reversed(g, links.last().0, links.last().1),
            None => None,
        }
    }
}

/// Every weight has a negation that fits its type.
pub open spec fn negatable(edges: Seq<Edge>) -> bool {
    forall|i: int| 0 <= i < edges.len() ==> (#[trigger] edges[i]).weight > i32::MIN
}

/// The view of an edge list that may be absent.
pub open spec fn graph_view(g: Option<Vec<Edge>>) -> Option<Seq<Edge>> {
    match g {
        Some(v) => Some(v@),
        None => None,
    }
}

/// Reverses the link `(from, to)` in `edges`.
pub fn reverse_link(edges: &Vec<Edge>, from: u32, to: u32) -> (out: Option<Vec<Edge>>)
    requires
        negatable(edges@),
    ensures
        graph_view(out) == reversed(edges@, from, to),
        out matches Some(g) ==> negatable(g@),
{
    let mut kept: Vec<Edge> = Vec::new();
    let mut weight: Option<i32> = None;
    let mut i: usize = 0;
    while i < edges.len()
        invariant
            i <= edges.len(),
            negatable(edges@),
            negatable(kept@),
            kept@ == without_link(edges@.take(i as int), from, to),
            weight == first_weight(edges@.take(i as int), from, to),
            weight matches Some(w) ==> w > i32::MIN,
        decreases edges.len() - i,
    {
        proof {
            assert(edges@.take(i + 1).drop_last() == edges@.take(i as int));
        }
        let e = edges[i];
        if e.from == from && e.to == to {
            if weight.is_none() {
                weight = Some(e.weight);
            }
        } else if !(e.from == to && e.to == from) {
            kept.push(e);
        }
        i += 1;
    }
    proof {
        assert(edges@.take(edges@.len() as int) == edges@);
    }
    match weight {
        Some(w) => {
            kept.push(Edge { from: to, to: from, weight: -w });
            Some(kept)
        },
        None => None,
    }
}

/// The working graph for the next search: `edges` with every link of
/// `paths` reversed, path after path and link after link.
pub fn working_graph(edges: &Vec<Edge>, paths: &Vec<Vec<u32>>) -> (out: Option<Vec<Edge>>)
    requires
        negatable(edges@),
    ensures
        graph_view(out) == reverse_all(edges@, all_links(views(paths@))),
        out matches Some(g) ==> negatable(g@),
{
    let links = links_of_all(paths, 0);
    proof {
        assert(views(paths@).skip(0) == views(paths@));
    }
    let mut graph: Vec<Edge> = Vec::new();
    let mut c: usize = 0;
    while c < edges.len()
        invariant
            c <= edges.len(),
            graph@ == edges@.take(c as int),
        decreases edges.len() - c,
    {
        graph.push(edges[c]);
        proof {
            assert(graph@ =~= edges@.take(c + 1));
        }
        c += 1;
    }
    proof {
        assert(edges@.take(edges@.len() as int) == edges@);
    }
    let mut i: usize = 0;
    while i < links.len()
        invariant
            i <= links.len(),
            links@ == all_links(views(paths@)),
            negatable(graph@),
            Some(graph@) == reverse_all(edges@, links@.take(i as int)),
        decreases links.len() - i,
    {
        proof {
            assert(links@.take(i + 1).drop_last() == links@.take(i as int));
        }
        match reverse_link(&graph, links[i].0, links[i].1) {
            Some(next) => {
                graph = next;
            },
            None => {
                proof {
                    lemma_reverse_all_stays_none(edges@, links@, i + 1);
                }
                return None;
            },
        }
        i += 1;
    }
    proof {
        assert(links@.take(links@.len() as int) == links@);
    }
    Some(graph)
}

/// Once a prefix of the links cannot be reversed, neither can the whole.
pub proof fn lemma_reverse_all_stays_none(edges: Seq<Edge>, links: Seq<(u32, u32)>, n: int)
    requires
        0 <= n <= links.len(),
        reverse_all(edges, links.take(n)).is_none(),
    ensures
        reverse_all(edges, links).is_none(),
    decreases links.len() - n,
{
    if n < links.len() {
        assert(links.take(n + 1).drop_last() == links.take(n));
        lemma_reverse_all_stays_none(edges, links, n + 1);
    } else {
        assert(links.take(n) == links);
    }
}

} // verus!
