//! The single-pair shortest-path search.

use crate::graph::{all_non_negative, first_weight, has_pair, outgoing, pairs_distinct, Edge,
    GraphModel};
use vstd::prelude::*;

verus! {

/// What the Dijkstra search of the `pathfinding` crate returns for the graph
/// `edges`, a start node and a target node: the node sequence it found with
/// the cost it gives for it, or `None` where it reaches no target.
pub uninterp spec fn dijkstra_outcome(edges: Seq<Edge>, start: u32, end: u32) -> Option<
    (Seq<u32>, i64),
>;

/// The value that `d` gives to node `v`; a node beyond `d` has the value 0.
pub open spec fn potential_at(d: Seq<i64>, v: u32) -> int {
    if v < d.len() {
        d[v as int] as int
    } else {
        0
    }
}

/// `d` is a feasible potential: no edge leads to a node whose value exceeds
/// the value of the edge's origin plus the edge's weight.
pub open spec fn is_potential(edges: Seq<Edge>, d: Seq<i64>) -> bool {
    forall|i: int|
        0 <= i < edges.len() ==> potential_at(d, (#[trigger] edges[i]).to) <= potential_at(
            d,
            edges[i].from,
        ) + edges[i].weight
}

/// Some feasible potential exists, so that no cycle of `edges` has a
/// negative total weight.
pub open spec fn has_potential(edges: Seq<Edge>) -> bool {
    exists|d: Seq<i64>| is_potential(edges, d)
}

/// `path` leads from `start` to `end`, each step along an edge of `edges`.
pub open spec fn is_walk(edges: Seq<Edge>, path: Seq<u32>, start: u32, end: u32) -> bool {
    &&& path.len() >= 1
    &&& path[0] == start
    &&& path.last() == end
    &&& forall|i: int| 0 <= i < path.len() - 1 ==> has_pair(edges, #[trigger] path[i], path[i + 1])
}

/// The weight of the link `(from, to)`: that of the first edge that joins
/// the pair.
pub open spec fn link_weight(edges: Seq<Edge>, from: u32, to: u32) -> int {
    match first_weight(edges, from, to) {
        Some(w) => w as int,
        None => 0,
    }
}

/// The sum of the weights of the links of `path`.
pub open spec fn walk_cost(edges: Seq<Edge>, path: Seq<u32>) -> int
    decreases path.len(),
{
    if path.len() < 2 {
        0
    } else {
        walk_cost(edges, path.drop_last()) + link_weight(
            edges,
            path[path.len() - 2],
            path.last(),
        )
    }
}

/// `path` with the cost `cost` is a cheapest walk from `start` to `end`.
pub open spec fn is_shortest(edges: Seq<Edge>, path: Seq<u32>, cost: int, start: u32, end: u32) -> bool {
    &&& is_walk(edges, path, start, end)
    &&& cost == walk_cost(edges, path)
    &&& forall|other: Seq<u32>|
        is_walk(edges, other, start, end) ==> cost <= walk_cost(edges, other)
}

/// No walk leads from `start` to `end`.
pub open spec fn cut_off(edges: Seq<Edge>, start: u32, end: u32) -> bool {
    forall|path: Seq<u32>| !is_walk(edges, path, start, end)
}

/// A search result with its path taken as a sequence.
pub open spec fn outcome_view(found: Option<(Vec<u32>, i64)>) -> Option<(Seq<u32>, i64)> {
    match found {
        Some(f) => Some((f.0@, f.1)),
        None => None,
    }
}

/// Whether `node` is the node `target`.
pub fn same_node(node: u32, target: u32) -> (same: bool)
    ensures
        same == (node == target),
{
    node == target
}

/// Calls `pathfinding::directed::dijkstra::dijkstra` from `start`, with the
/// successors that `outgoing` gives and success at the node `end`. Costs are
/// summed as `i64`, which holds every sum of fewer than 2^32 weights of 32
/// bits. The contract asks for a feasible potential, without which
/// a cycle of negative weight could keep the search from ending. It claims
/// that the result is the named outcome of these arguments; that a path
/// that is found starts at `start`, ends at `end` and follows edges, the
/// search rebuilding it from the parent that it recorded for each node; that
/// no path is found only where none exists, the search visiting every node
/// that it can reach; and, as the crate documents for costs that are not
/// negative, that the path is then a cheapest one and the cost its own.
#[verifier::external_body]
pub(crate) fn dijkstra_search(edges: &Vec<Edge>, start: u32, end: u32) -> (found: Option<
    (Vec<u32>, i64),
>)
    requires
        has_potential(edges@),
    ensures
        outcome_view(found) == dijkstra_outcome(edges@, start, end),
        found matches Some(f) ==> is_walk(edges@, f.0@, start, end),
        found.is_none() ==> cut_off(edges@, start, end),
        all_non_negative(edges@) && pairs_distinct(edges@) ==> (found matches Some(f)
            ==> is_shortest(edges@, f.0@, f.1 as int, start, end)),
{
    pathfinding::directed::dijkstra::dijkstra(
        &start,
        |node: &u32| outgoing(edges, *node),
        |node: &u32| same_node(*node, end),
    )
}

impl GraphModel {
    /// A path of least total weight from `start` to `end` with that weight,
    /// as the search finds it, or `None` where `end` cannot be reached.
    pub fn shortest_path(&self, start: u32, end: u32) -> (found: Option<(Vec<u32>, i64)>)
        requires
            self.wf(),
        ensures
            outcome_view(found) == dijkstra_outcome(self.edge_seq(), start, end),
            match found {
                Some(f) => is_shortest(self.edge_seq(), f.0@, f.1 as int, start, end),
                None => cut_off(self.edge_seq(), start, end),
            },
    {
        proof {
            let zero: Seq<i64> = Seq::empty();
            assert(is_potential(self.edge_seq(), zero));
        }
        dijkstra_search(self.edges(), start, end)
    }
}

} // verus!
