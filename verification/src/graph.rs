//! The immutable graph model: a finite set of weighted directed edges over
//! the dense node indices `0..n`.

use vstd::prelude::*;

verus! {

/// A directed link `from -> to` with an integer weight.
#[derive(Clone, Copy, Debug, PartialEq, Eq, Structural)]
pub struct Edge {
    pub from: u32,
    pub to: u32,
    pub weight: i32,
}

/// Why an edge list is refused at construction.
#[derive(Clone, Copy, Debug, PartialEq, Eq, Structural)]
pub enum GraphError {
    /// Some edge names a node outside `0..n`.
    NodeOutOfRange,
    /// Every node is in range, but some edge carries a negative weight.
    NegativeWeight,
}

/// Some edge of `edges` runs from `from` to `to`.
pub open spec fn has_pair(edges: Seq<Edge>, from: u32, to: u32) -> bool {
    exists|i: int| 0 <= i < edges.len() && #[trigger] edges[i].from == from && edges[i].to == to
}

/// The edge `e` joins the ordered pair `(from, to)`.
pub open spec fn joins(e: Edge, from: u32, to: u32) -> bool {
    e.from == from && e.to == to
}

/// The weight of the first edge of `edges` that joins `(from, to)`.
pub open spec fn first_weight(edges: Seq<Edge>, from: u32, to: u32) -> Option<i32>
    decreases edges.len(),
{
    if edges.len() == 0 {
        None
    } else {
        let before = first_weight(edges.drop_last(), from, to);
        if before.is_some() {
            before
        } else if joins(edges.last(), from, to) {
            Some(edges.last().weight)
        } else {
            None
        }
    }
}

/// `edges` with every later edge of an already seen ordered pair left out:
/// of parallel edges, the first one wins.
pub open spec fn first_occurrences(edges: Seq<Edge>) -> Seq<Edge>
    decreases edges.len(),
{
    if edges.len() == 0 {
        Seq::empty()
    } else {
        let kept = first_occurrences(edges.drop_last());
        let e = edges.last();
        if has_pair(kept, e.from, e.to) {
            kept
        } else {
            kept.push(e)
        }
    }
}

/// Both ends of every edge lie in `0..n`.
pub open spec fn all_in_range(edges: Seq<Edge>, n: u32) -> bool {
    forall|i: int| 0 <= i < edges.len() ==> (#[trigger] edges[i]).from < n && edges[i].to < n
}

/// No edge has a negative weight.
pub open spec fn all_non_negative(edges: Seq<Edge>) -> bool {
    forall|i: int| 0 <= i < edges.len() ==> (#[trigger] edges[i]).weight >= 0
}

/// No ordered pair of nodes is joined by two edges.
pub open spec fn pairs_distinct(edges: Seq<Edge>) -> bool {
    forall|i: int, j: int|
        0 <= i < j < edges.len() ==> !((#[trigger] edges[i]).from == (#[trigger] edges[j]).from
            && edges[i].to == edges[j].to)
}

/// The `(neighbour, weight)` pairs of the edges that leave `node`, in edge order.
pub open spec fn successors_of(edges: Seq<Edge>, node: u32) -> Seq<(u32, i64)>
    decreases edges.len(),
{
    if edges.len() == 0 {
        Seq::empty()
    } else {
        let rest = successors_of(edges.drop_last(), node);
        let e = edges.last();
        if e.from == node {
            rest.push((e.to, e.weight as i64))
        } else {
            rest
        }
    }
}

/// Whether some edge of `edges` joins the ordered pair `(from, to)`.
pub fn contains_pair(edges: &Vec<Edge>, from: u32, to: u32) -> (found: bool)
    ensures
        found == has_pair(edges@, from, to),
{
    let mut i: usize = 0;
    while i < edges.len()
        invariant
            i <= edges.len(),
            forall|j: int| 0 <= j < i ==> !(edges@[j].from == from && edges@[j].to == to),
        decreases edges.len() - i,
    {
        if edges[i].from == from && edges[i].to == to {
            return true;
        }
        i += 1;
    }
    false
}

/// The successors of `node` among `edges`, each with its weight.
pub fn outgoing(edges: &Vec<Edge>, node: u32) -> (out: Vec<(u32, i64)>)
    ensures
        out@ == successors_of(edges@, node),
{
    let mut out: Vec<(u32, i64)> = Vec::new();
    let mut i: usize = 0;
    while i < edges.len()
        invariant
            i <= edges.len(),
            out@ == successors_of(edges@.take(i as int), node),
        decreases edges.len() - i,
    {
        proof {
            assert(edges@.take(i + 1).drop_last() == edges@.take(i as int));
        }
        let e = edges[i];
        if e.from == node {
            out.push((e.to, e.weight as i64));
        }
        i += 1;
    }
    proof {
        assert(edges@.take(edges@.len() as int) == edges@);
    }
    out
}

/// A finite edge set over the nodes `0..n`, fixed once built.
#[derive(Clone, Debug, PartialEq, Eq)]
pub struct GraphModel {
    nodes: u32,
    edges: Vec<Edge>,
}

impl GraphModel {
    /// The number of nodes.
    pub closed spec fn size(&self) -> u32 {
        self.nodes
    }

    /// The edges, in the order in which they were given.
    pub closed spec fn edge_seq(&self) -> Seq<Edge> {
        self.edges@
    }

    /// What every graph built by [`GraphModel::new`] satisfies.
    pub open spec fn wf(&self) -> bool {
        &&& all_in_range(self.edge_seq(), self.size())
        &&& all_non_negative(self.edge_seq())
        &&& pairs_distinct(self.edge_seq())
    }

    /// Builds the graph over the nodes `0..n`. An edge with an end outside
    /// that range refuses the list; failing that, so does a negative weight.
    /// Of several edges between one ordered pair only the first is kept.
    pub fn new(n: u32, edges: Vec<Edge>) -> (built: Result<GraphModel, GraphError>)
        ensures
            match built {
                Ok(g) => g.wf() && g.size() == n && g.edge_seq() == first_occurrences(edges@)
                    && all_in_range(edges@, n) && all_non_negative(edges@),
                Err(GraphError::NodeOutOfRange) => !all_in_range(edges@, n),
                Err(GraphError::NegativeWeight) => all_in_range(edges@, n) && !all_non_negative(
                    edges@,
                ),
            },
    {
        let mut i: usize = 0;
        while i < edges.len()
            invariant
                i <= edges.len(),
                forall|j: int| 0 <= j < i ==> (#[trigger] edges@[j]).from < n && edges@[j].to < n,
            decreases edges.len() - i,
        {
            if edges[i].from >= n || edges[i].to >= n {
                proof {
                    assert(!(edges@[i as int].from < n && edges@[i as int].to < n));
                }
                return Err(GraphError::NodeOutOfRange);
            }
            i += 1;
        }
        i = 0;
        while i < edges.len()
            invariant
                i <= edges.len(),
                all_in_range(edges@, n),
                forall|j: int| 0 <= j < i ==> (#[trigger] edges@[j]).weight >= 0,
            decreases edges.len() - i,
        {
            if edges[i].weight < 0 {
                proof {
                    assert(edges@[i as int].weight < 0);
                }
                return Err(GraphError::NegativeWeight);
            }
            i += 1;
        }
        let mut kept: Vec<Edge> = Vec::new();
        i = 0;
        while i < edges.len()
            invariant
                i <= edges.len(),
                all_in_range(edges@, n),
                all_non_negative(edges@),
                kept@ == first_occurrences(edges@.take(i as int)),
                all_in_range(kept@, n),
                all_non_negative(kept@),
                pairs_distinct(kept@),
            decreases edges.len() - i,
        {
            proof {
                assert(edges@.take(i + 1).drop_last() == edges@.take(i as int));
            }
            let e = edges[i];
            if !contains_pair(&kept, e.from, e.to) {
                kept.push(e);
            }
            i += 1;
        }
        proof {
            assert(edges@.take(edges@.len() as int) == edges@);
        }
        Ok(GraphModel { nodes: n, edges: kept })
    }

    /// The number of nodes.
    pub fn node_count(&self) -> (n: u32)
        ensures
            n == self.size(),
    {
        self.nodes
    }

    /// The edges that the graph holds.
    pub fn edges(&self) -> (edges: &Vec<Edge>)
        ensures
            edges@ == self.edge_seq(),
    {
        &self.edges
    }

    /// The neighbours that `node` reaches by one edge, each with the weight
    /// of that edge, in edge order.
    pub fn successors(&self, node: u32) -> (out: Vec<(u32, i64)>)
        ensures
            out@ == successors_of(self.edge_seq(), node),
    {
        outgoing(&self.edges, node)
    }
}

} // verus!
