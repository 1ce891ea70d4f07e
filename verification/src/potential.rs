//! A certificate that a graph has no cycle of negative weight: node values
//! under which no edge can be relaxed, found by repeated relaxation.

use crate::graph::Edge;
use crate::search::{is_potential, potential_at};
use vstd::prelude::*;

verus! {

/// One relaxation of the edge `e`: where the way through `e` is cheaper than
/// the value of its end, the end takes that cost. Edges that leave the
/// range of `d` change nothing. `None` where the new value does not fit.
pub open spec fn relax(d: Seq<i64>, e: Edge) -> Option<Seq<i64>> {
    if e.from < d.len() && e.to < d.len() {
        let through = d[e.from as int] + e.weight;
        if through >= d[e.to as int] {
            Some(d)
        } else if through < i64::MIN {
            None
        } else {
            Some(d.update(e.to as int, through as i64))
        }
    } else {
        Some(d)
    }
}

/// One pass: every edge relaxed once, in edge order.
pub open spec fn relax_pass(d: Seq<i64>, edges: Seq<Edge>) -> Option<Seq<i64>>
    decreases edges.len(),
{
    if edges.len() == 0 {
        Some(d)
    } else {
        match relax_pass(d, edges.drop_last()) {
            Some(m) => relax(m, edges.last()),
            None => None,
        }
    }
}

/// `rounds` passes, one after the other.
pub open spec fn relax_rounds(d: Seq<i64>, edges: Seq<Edge>, rounds: nat) -> Option<Seq<i64>>
    decreases rounds,
{
    if rounds == 0 {
        Some(d)
    } else {
        match relax_rounds(d, edges, (rounds - 1) as nat) {
            Some(m) => relax_pass(m, edges),
            None => None,
        }
    }
}

/// The value 0 for each of `n` nodes.
pub open spec fn zeros(n: u32) -> Seq<i64> {
    Seq::new(n as nat, |i: int| 0i64)
}

/// The node values after `n` passes from all zeros over `n` nodes, where
/// they form a feasible potential; `None` where they do not, or where a
/// value left the range of `i64` on the way.
pub open spec fn potential_found(edges: Seq<Edge>, n: u32) -> Option<Seq<i64>> {
    match relax_rounds(zeros(n), edges, n as nat) {
        Some(d) => if is_potential(edges, d) {
            Some(d)
        } else {
            None
        },
        None => None,
    }
}

/// The view of node values that may be absent.
pub open spec fn values_view(d: Option<Vec<i64>>) -> Option<Seq<i64>> {
    match d {
        Some(v) => Some(v@),
        None => None,
    }
}

/// Once a prefix of the edges overflows, so does the whole pass.
pub proof fn lemma_pass_stays_none(d: Seq<i64>, edges: Seq<Edge>, n: int)
    requires
        0 <= n <= edges.len(),
        relax_pass(d, edges.take(n)).is_none(),
    ensures
        relax_pass(d, edges).is_none(),
    decreases edges.len() - n,
{
    if n < edges.len() {
        assert(edges.take(n + 1).drop_last() == edges.take(n));
        lemma_pass_stays_none(d, edges, n + 1);
    } else {
        assert(edges.take(n) == edges);
    }
}

/// Once a round overflows, so does every later one.
pub proof fn lemma_rounds_stay_none(d: Seq<i64>, edges: Seq<Edge>, at: nat, rounds: nat)
    requires
        at <= rounds,
        relax_rounds(d, edges, at).is_none(),
    ensures
        relax_rounds(d, edges, rounds).is_none(),
    decreases rounds,
{
    if at < rounds {
        lemma_rounds_stay_none(d, edges, at, (rounds - 1) as nat);
    }
}

/// Once a pass changes nothing, no later pass does.
pub proof fn lemma_rounds_settle(d: Seq<i64>, edges: Seq<Edge>, at: nat, rounds: nat, m: Seq<i64>)
    requires
        at <= rounds,
        relax_rounds(d, edges, at) == Some(m),
        relax_pass(m, edges) == Some(m),
    ensures
        relax_rounds(d, edges, rounds) == Some(m),
    decreases rounds,
{
    if at < rounds {
        lemma_rounds_settle(d, edges, at, (rounds - 1) as nat, m);
    }
}

/// The value that `d` gives to node `v`; a node beyond `d` has the value 0.
pub fn value_at(d: &Vec<i64>, v: u32) -> (value: i64)
    ensures
        value == potential_at(d@, v),
{
    if (v as usize) < d.len() {
        d[v as usize]
    } else {
        0
    }
}

/// Whether `d` is a feasible potential of `edges`.
pub fn check_potential(edges: &Vec<Edge>, d: &Vec<i64>) -> (feasible: bool)
    ensures
        feasible == is_potential(edges@, d@),
{
    let mut i: usize = 0;
    while i < edges.len()
        invariant
            i <= edges.len(),
            forall|j: int|
                0 <= j < i ==> potential_at(d@, (#[trigger] edges@[j]).to) <= potential_at(
                    d@,
                    edges@[j].from,
                ) + edges@[j].weight,
        decreases edges.len() - i,
    {
        let e = edges[i];
        let to: i128 = value_at(d, e.to) as i128;
        let through: i128 = value_at(d, e.from) as i128 + e.weight as i128;
        if to > through {
            proof {
                assert(potential_at(d@, edges@[i as int].to) > potential_at(
                    d@,
                    edges@[i as int].from,
                ) + edges@[i as int].weight);
            }
            return false;
        }
        i += 1;
    }
    true
}

/// Looks for a feasible potential of `edges` over the nodes `0..n` by `n`
/// passes of relaxation from all zeros.
pub fn find_potential(edges: &Vec<Edge>, n: u32) -> (out: Option<Vec<i64>>)
    ensures
        values_view(out) == potential_found(edges@, n),
        out matches Some(d) ==> is_potential(edges@, d@),
{
    let mut d: Vec<i64> = Vec::new();
    let mut z: u32 = 0;
    while z < n
        invariant
            z <= n,
            d.len() == z,
            forall|j: int| 0 <= j < z ==> d@[j] == 0,
        decreases n - z,
    {
        d.push(0);
        z += 1;
    }
    proof {
        assert(d@ =~= zeros(n));
    }
    let mut round: u32 = 0;
    let mut settled = false;
    while round < n && !settled
        invariant
            round <= n,
            relax_rounds(zeros(n), edges@, round as nat) == Some(d@),
            settled ==> relax_pass(d@, edges@) == Some(d@),
        decreases n - round, if settled { 0int } else { 1int },
    {
        let ghost before = d@;
        let mut changed = false;
        let mut i: usize = 0;
        while i < edges.len()
            invariant
                i <= edges.len(),
                round < n,
                relax_rounds(zeros(n), edges@, round as nat) == Some(before),
                relax_pass(before, edges@.take(i as int)) == Some(d@),
                !changed ==> d@ == before,
            decreases edges.len() - i,
        {
            proof {
                assert(edges@.take(i + 1).drop_last() == edges@.take(i as int));
            }
            let e = edges[i];
            if (e.from as usize) < d.len() && (e.to as usize) < d.len() {
                let through: i128 = d[e.from as usize] as i128 + e.weight as i128;
                if through < d[e.to as usize] as i128 {
                    if through < i64::MIN as i128 {
                        proof {
                            lemma_pass_stays_none(before, edges@, i + 1);
                            lemma_rounds_stay_none(zeros(n), edges@, (round + 1) as nat, n as nat);
                        }
                        return None;
                    }
                    d.set(e.to as usize, through as i64);
                    changed = true;
                }
            }
            i += 1;
        }
        proof {
            assert(edges@.take(edges@.len() as int) == edges@);
        }
        if changed {
            round += 1;
        } else {
            settled = true;
        }
    }
    proof {
        if settled {
            lemma_rounds_settle(zeros(n), edges@, round as nat, n as nat, d@);
        }
    }
    if check_potential(edges, &d) {
        Some(d)
    } else {
        None
    }
}

} // verus!
