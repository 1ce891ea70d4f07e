//! Link-disjoint paths between named nodes: names become indices, the
//! paths are computed on the indexed graph, and indices become names again.

use crate::compose::{composed, ComposeError};
use crate::graph::{all_in_range, all_non_negative, first_occurrences, has_pair, Edge, GraphError,
    GraphModel};
use crate::links::views;
use crate::names::{ascending, covers, drawn_from, index_of, indexed_by,
    lemma_precedes_irreflexive, names_of, node_table, precedes, to_indices};
use crate::search::is_walk;
use crate::text::{copy_range, NamedEdge};
use vstd::prelude::*;

verus! {

/// Why no paths between two named nodes are returned.
#[derive(Clone, Copy, Debug, PartialEq, Eq, Structural)]
pub enum RouteError {
    /// There are more node names than node indices.
    TooManyNodes,
    /// The start or the end is no node of any edge.
    UnknownNode,
    /// The edge list is refused.
    Graph(GraphError),
    /// The paths could not be computed.
    Compose(ComposeError),
}

/// The paths with every node index replaced by its name in `table`.
pub open spec fn named_paths(table: Seq<Seq<char>>, paths: Seq<Seq<u32>>) -> Seq<
    Seq<Seq<char>>,
> {
    Seq::new(paths.len(), |i: int| Seq::new(paths[i].len(), |j: int| table[paths[i][j] as int]))
}

/// What is returned for a node table, the edges indexed by it, and a
/// request by name.
pub open spec fn routed(
    table: Seq<Seq<char>>,
    indexed: Seq<Edge>,
    start: Seq<char>,
    end: Seq<char>,
    k: nat,
) -> Result<Seq<Seq<Seq<char>>>, RouteError> {
    if table.len() > u32::MAX {
        Err(RouteError::TooManyNodes)
    } else if !table.contains(start) || !table.contains(end) {
        Err(RouteError::UnknownNode)
    } else if !all_non_negative(indexed) {
        Err(RouteError::Graph(GraphError::NegativeWeight))
    } else {
        match composed(
            first_occurrences(indexed),
            table.len() as u32,
            table.index_of(start) as u32,
            table.index_of(end) as u32,
            k,
        ) {
            Ok(all) => Ok(named_paths(table, all.0)),
            Err(e) => Err(RouteError::Compose(e)),
        }
    }
}

/// The names along the paths of a result.
pub open spec fn route_view(r: Result<Vec<Vec<Vec<char>>>, RouteError>) -> Result<
    Seq<Seq<Seq<char>>>,
    RouteError,
> {
    match r {
        Ok(paths) => Ok(
            Seq::new(paths@.len(), |i: int| Seq::new(paths@[i]@.len(), |j: int| paths@[i]@[j]@)),
        ),
        Err(e) => Err(e),
    }
}

/// In an ascending table a name stands at one index only.
pub proof fn lemma_index_unique(table: Seq<Seq<char>>, i: int)
    requires
        ascending(table),
        0 <= i < table.len(),
    ensures
        table.contains(table[i]),
        table.index_of(table[i]) == i,
{
    let j = table.index_of(table[i]);
    lemma_precedes_irreflexive(table[i]);
    if j < i {
        assert(precedes(table[j], table[i]));
    } else if i < j {
        assert(precedes(table[i], table[j]));
    }
}

/// The names of the nodes along `path`.
pub fn path_names(table: &Vec<Vec<char>>, path: &Vec<u32>) -> (out: Vec<Vec<char>>)
    requires
        forall|j: int| 0 <= j < path@.len() ==> (#[trigger] path@[j]) < table@.len(),
    ensures
        out@.len() == path@.len(),
        forall|j: int| 0 <= j < path@.len() ==> (#[trigger] out@[j])@ == table@[path@[j] as int]@,
{
    let mut out: Vec<Vec<char>> = Vec::new();
    let mut j: usize = 0;
    while j < path.len()
        invariant
            j <= path.len(),
            out@.len() == j,
            forall|i: int| 0 <= i < path@.len() ==> (#[trigger] path@[i]) < table@.len(),
            forall|i: int| 0 <= i < j ==> (#[trigger] out@[i])@ == table@[path@[i] as int]@,
        decreases path.len() - j,
    {
        let name = &table[path[j] as usize];
        out.push(copy_range(name, 0, name.len()));
        proof {
            assert(name@.subrange(0, name@.len() as int) == name@);
        }
        j += 1;
    }
    out
}

/// Every node of a walk along edges that stay in `0..n` between two nodes
/// of that range is in that range.
pub proof fn lemma_walk_in_range(edges: Seq<Edge>, n: u32, path: Seq<u32>, start: u32, end: u32)
    requires
        all_in_range(edges, n),
        is_walk(edges, path, start, end),
        start < n,
        end < n,
    ensures
        forall|j: int| 0 <= j < path.len() ==> (#[trigger] path[j]) < n,
{
    assert forall|j: int| 0 <= j < path.len() implies (#[trigger] path[j]) < n by {
        if j < path.len() - 1 {
            assert(has_pair(edges, path[j], path[j + 1]));
        }
    }
}

/// Computes the paths for a node table and the edges indexed by it.
pub fn route_in(
    table: &Vec<Vec<char>>,
    indexed: Vec<Edge>,
    start: &Vec<char>,
    end: &Vec<char>,
    k: usize,
) -> (out: Result<Vec<Vec<Vec<char>>>, RouteError>)
    requires
        ascending(names_of(table@)),
        table@.len() > u32::MAX || all_in_range(indexed@, table@.len() as u32),
    ensures
        route_view(out) == routed(names_of(table@), indexed@, start@, end@, k as nat),
{
    let ghost names = names_of(table@);
    if table.len() > 0xFFFF_FFFF {
        return Err(RouteError::TooManyNodes);
    }
    let n: u32 = table.len() as u32;
    let source = match index_of(table, start) {
        Some(i) => i,
        None => {
            return Err(RouteError::UnknownNode);
        },
    };
    let target = match index_of(table, end) {
        Some(i) => i,
        None => {
            return Err(RouteError::UnknownNode);
        },
    };
    proof {
        assert(names[source as int] == start@);
        assert(names[target as int] == end@);
        lemma_index_unique(names, source as int);
        lemma_index_unique(names, target as int);
    }
    let graph = match GraphModel::new(n, indexed) {
        Ok(graph) => graph,
        Err(e) => {
            return Err(RouteError::Graph(e));
        },
    };
    let solution = match graph.k_disjoint_paths(source as u32, target as u32, k) {
        Ok(solution) => solution,
        Err(e) => {
            return Err(RouteError::Compose(e));
        },
    };
    let mut out: Vec<Vec<Vec<char>>> = Vec::new();
    let mut i: usize = 0;
    while i < solution.paths.len()
        invariant
            i <= solution.paths.len(),
            out@.len() == i,
            n == table@.len(),
            source < n,
            target < n,
            graph.wf(),
            graph.size() == n,
            solution.paths@.len() == k,
            forall|p: int|
                0 <= p < k ==> is_walk(
                    graph.edge_seq(),
                    (#[trigger] solution.paths@[p])@,
                    source as u32,
                    target as u32,
                ),
            forall|p: int, j: int|
                0 <= p < i && 0 <= j < solution.paths@[p]@.len() ==> {
                    &&& out@[p]@.len() == solution.paths@[p]@.len()
                    &&& (#[trigger] out@[p]@[j])@ == table@[solution.paths@[p]@[j] as int]@
                },
            forall|p: int| 0 <= p < i ==> (#[trigger] out@[p])@.len() == solution.paths@[p]@.len(),
        decreases solution.paths.len() - i,
    {
        proof {
            lemma_walk_in_range(
                graph.edge_seq(),
                n,
                solution.paths@[i as int]@,
                source as u32,
                target as u32,
            );
        }
        let named = path_names(table, &solution.paths[i]);
        out.push(named);
        i += 1;
    }
    proof {
        let got = route_view(Ok::<Vec<Vec<Vec<char>>>, RouteError>(out));
        let want = named_paths(names, views(solution.paths@));
        assert(got->Ok_0.len() == want.len());
        assert forall|p: int| 0 <= p < want.len() implies got->Ok_0[p] == want[p] by {
            assert(got->Ok_0[p].len() == want[p].len());
            assert(got->Ok_0[p] =~= want[p]);
        }
        assert(got->Ok_0 =~= want);
    }
    Ok(out)
}

/// Computes `k` link-disjoint paths of least total cost from the node
/// named `start` to the node named `end`. The node names of the edges, each
/// once and in ascending order, are the node table; the result is what
/// [`routed`] gives for that table and the edges indexed by it.
pub fn bhandari(edges: &Vec<NamedEdge>, start: &Vec<char>, end: &Vec<char>, k: usize) -> (out:
    Result<Vec<Vec<Vec<char>>>, RouteError>)
    ensures
        exists|table: Seq<Seq<char>>, indexed: Seq<Edge>|
            {
                &&& ascending(table)
                &&& covers(table, edges@)
                &&& drawn_from(table, edges@)
                &&& (table.len() <= u32::MAX ==> indexed_by(table, edges@, indexed))
                &&& #[trigger] routed(table, indexed, start@, end@, k as nat) == route_view(out)
            },
{
    let table = node_table(edges);
    let indexed = match to_indices(&table, edges) {
        Some(indexed) => indexed,
        None => {
            proof {
                let none: Seq<Edge> = Seq::empty();
                assert(routed(names_of(table@), none, start@, end@, k as nat) == Err::<
                    Seq<Seq<Seq<char>>>,
                    RouteError,
                >(RouteError::TooManyNodes));
            }
            return Err(RouteError::TooManyNodes);
        },
    };
    let ghost given = indexed@;
    proof {
        if table@.len() <= u32::MAX {
            assert forall|i: int| 0 <= i < given.len() implies (#[trigger] given[i]).from
                < table@.len() as u32 && given[i].to < table@.len() as u32 by {}
        }
    }
    let out = route_in(&table, indexed, start, end, k);
    proof {
        assert(routed(names_of(table@), given, start@, end@, k as nat) == route_view(out));
    }
    out
}

} // verus!
