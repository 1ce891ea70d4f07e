//! The iterative driver: one shortest-path search per requested path, each
//! on the graph with the links of the paths so far reversed, followed by
//! uncrossing and reconstruction.

use crate::graph::{contains_pair, has_pair, Edge, GraphModel};
use crate::links::{all_links, links_distinct, links_of_all, no_repeats, path_links, uncross,
    uncrossed, views};
use crate::potential::{find_potential, potential_found};
use crate::rebuild::{rebuilt, reconstruct};
use crate::search::{dijkstra_outcome, dijkstra_search, is_potential, is_shortest, is_walk,
    cut_off};
use crate::working::{reverse_all, working_graph};
use vstd::prelude::*;

verus! {

/// Why no `k` link-disjoint paths are returned.
#[derive(Clone, Copy, Debug, PartialEq, Eq, Structural)]
pub enum ComposeError {
    /// Zero paths were asked for.
    NoPathsRequested,
    /// The source or the target is no node of the graph.
    NodeOutOfRange,
    /// The source is the target.
    SourceIsTarget,
    /// The target cannot be reached from the source at all.
    NoPath,
    /// Fewer than the requested number of link-disjoint paths exist; `found`
    /// paths were there when a search failed.
    FewerThanRequested { found: usize },
    /// The surviving links did not decompose into the expected paths.
    InvariantViolated,
}

/// `k` link-disjoint paths with the sum of the costs of the searches that
/// led to them.
#[derive(Clone, Debug, PartialEq, Eq)]
pub struct Solution {
    pub paths: Vec<Vec<u32>>,
    pub cost: i128,
}

/// No link of one path is a link of another.
pub open spec fn pairwise_disjoint(paths: Seq<Seq<u32>>) -> bool {
    forall|i: int, j: int, a: int, b: int|
        0 <= i < j < paths.len() && 0 <= a < path_links(paths[i]).len() && 0 <= b < path_links(
            paths[j],
        ).len() ==> #[trigger] path_links(paths[i])[a] != #[trigger] path_links(paths[j])[b]
}

/// `paths` are `k` walks from `source` to `target` along `edges`, and no
/// ordered pair is used twice among all their links.
pub open spec fn is_solution(
    edges: Seq<Edge>,
    paths: Seq<Seq<u32>>,
    source: u32,
    target: u32,
    k: nat,
) -> bool {
    &&& paths.len() == k
    &&& forall|i: int| 0 <= i < paths.len() ==> is_walk(edges, #[trigger] paths[i], source, target)
    &&& no_repeats(all_links(paths))
}

/// One iteration on the paths found so far: the working graph, the search
/// on it, and the paths rebuilt from the uncrossed links, one more than
/// before; the search's cost is added to `cost`.
pub open spec fn extended(
    edges: Seq<Edge>,
    n: u32,
    source: u32,
    target: u32,
    paths: Seq<Seq<u32>>,
    cost: int,
) -> Result<(Seq<Seq<u32>>, int), ComposeError> {
    match reverse_all(edges, all_links(paths)) {
        None => Err(ComposeError::InvariantViolated),
        Some(working) => if potential_found(working, n).is_none() {
            Err(ComposeError::InvariantViolated)
        } else {
            match dijkstra_outcome(working, source, target) {
                None => Err(ComposeError::FewerThanRequested { found: paths.len() as usize }),
                Some(found) => match rebuilt(uncrossed(paths.push(found.0)), source, target) {
                    None => Err(ComposeError::InvariantViolated),
                    Some(next) => if next.len() == paths.len() + 1 {
                        Ok((next, cost + found.1))
                    } else {
                        Err(ComposeError::InvariantViolated)
                    },
                },
            }
        },
    }
}

/// Iterations repeated until `k` paths are there.
pub open spec fn composed_from(
    edges: Seq<Edge>,
    n: u32,
    source: u32,
    target: u32,
    k: nat,
    paths: Seq<Seq<u32>>,
    cost: int,
) -> Result<(Seq<Seq<u32>>, int), ComposeError>
    decreases k - paths.len(),
{
    if paths.len() >= k {
        Ok((paths, cost))
    } else {
        match extended(edges, n, source, target, paths, cost) {
            Ok(next) => composed_from(edges, n, source, target, k, next.0, next.1),
            Err(e) => Err(e),
        }
    }
}

/// The whole computation: the requests that are refused, the first search
/// on the graph as it is, the iterations, and for more than one path the
/// final test that the paths are a solution.
pub open spec fn composed(edges: Seq<Edge>, n: u32, source: u32, target: u32, k: nat) -> Result<
    (Seq<Seq<u32>>, int),
    ComposeError,
> {
    if k == 0 {
        Err(ComposeError::NoPathsRequested)
    } else if source >= n || target >= n {
        Err(ComposeError::NodeOutOfRange)
    } else if source == target {
        Err(ComposeError::SourceIsTarget)
    } else {
        match dijkstra_outcome(edges, source, target) {
            None => Err(ComposeError::NoPath),
            Some(first) => match composed_from(
                edges,
                n,
                source,
                target,
                k,
                seq![first.0],
                first.1 as int,
            ) {
                Ok(all) => if k == 1 || is_solution(edges, all.0, source, target, k) {
                    Ok(all)
                } else {
                    Err(ComposeError::InvariantViolated)
                },
                Err(e) => Err(e),
            },
        }
    }
}

/// A result with its paths taken as node sequences.
pub open spec fn solution_view(r: Result<Solution, ComposeError>) -> Result<
    (Seq<Seq<u32>>, int),
    ComposeError,
> {
    match r {
        Ok(s) => Ok((views(s.paths@), s.cost as int)),
        Err(e) => Err(e),
    }
}

/// Whether `path` leads from `start` to `end` along edges of `edges`.
pub fn check_walk(edges: &Vec<Edge>, path: &Vec<u32>, start: u32, end: u32) -> (ok: bool)
    ensures
        ok == is_walk(edges@, path@, start, end),
{
    if path.len() == 0 {
        return false;
    }
    let last: usize = path.len() - 1;
    if path[0] != start || path[last] != end {
        return false;
    }
    let mut i: usize = 0;
    while i < last
        invariant
            i <= last,
            last + 1 == path.len(),
            forall|j: int| 0 <= j < i ==> has_pair(edges@, #[trigger] path@[j], path@[j + 1]),
        decreases last - i,
    {
        if !contains_pair(edges, path[i], path[i + 1]) {
            proof {
                assert(!has_pair(edges@, path@[i as int], path@[i + 1]));
            }
            return false;
        }
        i += 1;
    }
    true
}

/// Whether `paths` are `k` walks from `source` to `target` along `edges`
/// that use no ordered pair twice.
pub fn check_solution(
    edges: &Vec<Edge>,
    paths: &Vec<Vec<u32>>,
    source: u32,
    target: u32,
    k: usize,
) -> (ok: bool)
    ensures
        ok == is_solution(edges@, views(paths@), source, target, k as nat),
{
    if paths.len() != k {
        return false;
    }
    let mut i: usize = 0;
    while i < paths.len()
        invariant
            i <= paths.len(),
            forall|j: int|
                0 <= j < i ==> is_walk(edges@, #[trigger] views(paths@)[j], source, target),
        decreases paths.len() - i,
    {
        if !check_walk(edges, &paths[i], source, target) {
            proof {
                assert(views(paths@)[i as int] == paths@[i as int]@);
            }
            return false;
        }
        i += 1;
    }
    let links = links_of_all(paths, 0);
    proof {
        assert(views(paths@).skip(0) == views(paths@));
    }
    links_distinct(&links)
}

impl GraphModel {
    /// Computes `k` link-disjoint paths from `source` to `target` by
    /// successive shortest paths. A request for no path, for a node outside
    /// the graph, or with the source as target is refused. Where the first
    /// search finds no path the answer is `NoPath`; where a later one finds
    /// none, it is `FewerThanRequested` with the number of paths found until
    /// then.
    ///
    /// Before each later search a feasible potential of the working graph
    /// is computed, which shows that the search will end. Where none is
    /// found, where a link to reverse is missing, where the surviving links
    /// do not decompose into one path more than before, or where the final
    /// paths fail the test of [`check_solution`], the answer is
    /// `InvariantViolated`.
    ///
    /// The cost of a solution is the sum of the costs that the searches
    /// gave, negative ones included. For one path it is the cost of a
    /// cheapest path.
    pub fn k_disjoint_paths(&self, source: u32, target: u32, k: usize) -> (out: Result<
        Solution,
        ComposeError,
    >)
        requires
            self.wf(),
        ensures
            solution_view(out) == composed(
                self.edge_seq(),
                self.size(),
                source,
                target,
                k as nat,
            ),
            out matches Ok(s) ==> {
                &&& s.paths@.len() == k
                &&& forall|i: int|
                    0 <= i < k ==> is_walk(self.edge_seq(), (#[trigger] s.paths@[i])@, source, target)
                &&& pairwise_disjoint(views(s.paths@))
            },
            k == 1 && source < self.size() && target < self.size() && source != target ==> (
            match dijkstra_outcome(self.edge_seq(), source, target) {
                Some(first) => solution_view(out) == Ok::<(Seq<Seq<u32>>, int), ComposeError>(
                    (seq![first.0], first.1 as int),
                ),
                None => out == Err::<Solution, ComposeError>(ComposeError::NoPath),
            }),
            k == 1 ==> (out matches Ok(s) ==> is_shortest(
                self.edge_seq(),
                s.paths@[0]@,
                s.cost as int,
                source,
                target,
            )),
            out == Err::<Solution, ComposeError>(ComposeError::NoPath) ==> cut_off(
                self.edge_seq(),
                source,
                target,
            ),
    {
        let n = self.node_count();
        if k == 0 {
            return Err(ComposeError::NoPathsRequested);
        }
        if source >= n || target >= n {
            return Err(ComposeError::NodeOutOfRange);
        }
        if source == target {
            return Err(ComposeError::SourceIsTarget);
        }
        let edges = self.edges();
        let first = match self.shortest_path(source, target) {
            Some(first) => first,
            None => {
                return Err(ComposeError::NoPath);
            },
        };
        let ghost first_path = first.0@;
        let ghost first_cost = first.1 as int;
        let ghost first_found = (first.0@, first.1);
        let mut cost: i128 = first.1 as i128;
        let mut paths: Vec<Vec<u32>> = Vec::new();
        paths.push(first.0);
        proof {
            assert(views(paths@) =~= seq![first_path]);
        }
        while paths.len() < k
            invariant
                self.wf(),
                edges@ == self.edge_seq(),
                n == self.size(),
                source < n,
                target < n,
                source != target,
                dijkstra_outcome(edges@, source, target) == Some(first_found),
                first_found.0 == first_path,
                first_found.1 as int == first_cost,
                1 <= paths.len() <= k,
                -(paths.len() * 0x8000_0000_0000_0000) <= cost <= paths.len()
                    * 0x8000_0000_0000_0000,
                composed_from(edges@, n, source, target, k as nat, views(paths@), cost as int)
                    == composed_from(
                    edges@,
                    n,
                    source,
                    target,
                    k as nat,
                    seq![first_path],
                    first_cost,
                ),
            decreases k - paths.len(),
        {
            let working = match working_graph(edges, &paths) {
                Some(working) => working,
                None => {
                    return Err(ComposeError::InvariantViolated);
                },
            };
            match find_potential(&working, n) {
                Some(d) => {
                    proof {
                        assert(is_potential(working@, d@));
                    }
                },
                None => {
                    return Err(ComposeError::InvariantViolated);
                },
            }
            let found = match dijkstra_search(&working, source, target) {
                Some(found) => found,
                None => {
                    return Err(ComposeError::FewerThanRequested { found: paths.len() });
                },
            };
            let ghost before = views(paths@);
            let step: i64 = found.1;
            let mut all = paths;
            all.push(found.0);
            proof {
                assert(views(all@) =~= before.push(found.0@));
            }
            let links = uncross(&all);
            let next = match reconstruct(&links, source, target) {
                Some(next) => next,
                None => {
                    return Err(ComposeError::InvariantViolated);
                },
            };
            if next.len() != all.len() {
                return Err(ComposeError::InvariantViolated);
            }
            paths = next;
            cost = cost + step as i128;
        }
        if k > 1 && !check_solution(edges, &paths, source, target, k) {
            return Err(ComposeError::InvariantViolated);
        }
        proof {
            if k > 1 {
                lemma_distinct_links_are_disjoint(views(paths@));
            }
            assert forall|i: int| 0 <= i < k implies is_walk(
                self.edge_seq(),
                (#[trigger] paths@[i])@,
                source,
                target,
            ) by {
                assert(views(paths@)[i] == paths@[i]@);
            }
        }
        Ok(Solution { paths, cost })
    }
}

/// Where a link of path `i` stands among the links of all paths.
pub open spec fn offset(paths: Seq<Seq<u32>>, i: int) -> int {
    all_links(paths.take(i)).len() as int
}

/// The links of one path stand together among the links of all paths, from
/// the path's offset on.
pub proof fn lemma_link_at(paths: Seq<Seq<u32>>, i: int, a: int)
    requires
        0 <= i < paths.len(),
        0 <= a < path_links(paths[i]).len(),
    ensures
        0 <= offset(paths, i) + a < all_links(paths).len(),
        all_links(paths)[offset(paths, i) + a] == path_links(paths[i])[a],
    decreases paths.len(),
{
    if i == paths.len() - 1 {
        assert(paths.take(i) == paths.drop_last());
    } else {
        lemma_link_at(paths.drop_last(), i, a);
        assert(paths.drop_last().take(i) == paths.take(i));
    }
}

/// The links of an earlier path stand before those of a later one.
pub proof fn lemma_offsets_ordered(paths: Seq<Seq<u32>>, i: int, j: int)
    requires
        0 <= i < j <= paths.len(),
    ensures
        offset(paths, i) + path_links(paths[i]).len() <= offset(paths, j),
    decreases j - i,
{
    assert(paths.take(j).drop_last() == paths.take(j - 1));
    if i < j - 1 {
        lemma_offsets_ordered(paths, i, j - 1);
    }
}

/// Paths among whose links no ordered pair occurs twice are pairwise
/// link-disjoint: no link of one is a link of another.
pub proof fn lemma_distinct_links_are_disjoint(paths: Seq<Seq<u32>>)
    requires
        no_repeats(all_links(paths)),
    ensures
        pairwise_disjoint(paths),
{
    assert forall|i: int, j: int, a: int, b: int|
        0 <= i < j < paths.len() && 0 <= a < path_links(paths[i]).len() && 0 <= b < path_links(
            paths[j],
        ).len() implies #[trigger] path_links(paths[i])[a] != #[trigger] path_links(paths[j])[b] by {
        lemma_link_at(paths, i, a);
        lemma_link_at(paths, j, b);
        lemma_offsets_ordered(paths, i, j);
        let x = offset(paths, i) + a;
        let y = offset(paths, j) + b;
        assert(all_links(paths)[x] != all_links(paths)[y]);
    }
}

} // verus!
