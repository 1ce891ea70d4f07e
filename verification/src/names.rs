//! Node names: the sorted table that gives every name of an edge list its
//! index, and the way from named edges to indexed ones and back.

use crate::graph::Edge;
use crate::text::NamedEdge;
use vstd::prelude::*;

verus! {

/// The order of names: character by character, by code point; a proper
/// prefix comes first.
pub open spec fn precedes(a: Seq<char>, b: Seq<char>) -> bool
    decreases a.len(),
{
    if b.len() == 0 {
        false
    } else if a.len() == 0 {
        true
    } else if a[0] != b[0] {
        (a[0] as u32) < (b[0] as u32)
    } else {
        precedes(a.drop_first(), b.drop_first())
    }
}

/// The names of a table.
pub open spec fn names_of(table: Seq<Vec<char>>) -> Seq<Seq<char>> {
    Seq::new(table.len(), |i: int| table[i]@)
}

/// Every name comes before each name that follows it.
pub open spec fn ascending(names: Seq<Seq<char>>) -> bool {
    forall|i: int, j: int| 0 <= i < j < names.len() ==> precedes(#[trigger] names[i], #[trigger] names[j])
}

/// Of two different names one comes first.
pub proof fn lemma_precedes_total(a: Seq<char>, b: Seq<char>)
    requires
        a != b,
    ensures
        precedes(a, b) || precedes(b, a),
    decreases a.len(),
{
    if a.len() > 0 && b.len() > 0 && a[0] == b[0] {
        if a.drop_first() == b.drop_first() {
            assert(a =~= seq![a[0]] + a.drop_first());
            assert(b =~= seq![b[0]] + b.drop_first());
        }
        lemma_precedes_total(a.drop_first(), b.drop_first());
    } else if a.len() == 0 && b.len() == 0 {
        assert(a =~= b);
    } else if a.len() > 0 && b.len() > 0 {
        vstd::utf8::char_u32_cast(a[0], a[0] as u32);
        vstd::utf8::char_u32_cast(b[0], b[0] as u32);
    }
}

/// The order of names is transitive.
pub proof fn lemma_precedes_transitive(a: Seq<char>, b: Seq<char>, c: Seq<char>)
    requires
        precedes(a, b),
        precedes(b, c),
    ensures
        precedes(a, c),
    decreases a.len(),
{
    if a.len() > 0 && a[0] == b[0] && b[0] == c[0] {
        lemma_precedes_transitive(a.drop_first(), b.drop_first(), c.drop_first());
    }
}

/// No name comes before itself.
pub proof fn lemma_precedes_irreflexive(a: Seq<char>)
    ensures
        !precedes(a, a),
    decreases a.len(),
{
    if a.len() > 0 {
        lemma_precedes_irreflexive(a.drop_first());
    }
}

/// Whether the name `a` comes before the name `b`.
pub fn name_before(a: &Vec<char>, b: &Vec<char>) -> (before: bool)
    ensures
        before == precedes(a@, b@),
{
    let mut i: usize = 0;
    proof {
        assert(a@.skip(0) == a@);
        assert(b@.skip(0) == b@);
    }
    while i < a.len() && i < b.len()
        invariant
            i <= a.len(),
            i <= b.len(),
            precedes(a@.skip(i as int), b@.skip(i as int)) == precedes(a@, b@),
        decreases a.len() - i,
    {
        proof {
            assert(a@.skip(i as int).drop_first() == a@.skip(i + 1));
            assert(b@.skip(i as int).drop_first() == b@.skip(i + 1));
            assert(a@.skip(i as int)[0] == a@[i as int]);
            assert(b@.skip(i as int)[0] == b@[i as int]);
        }
        if a[i] != b[i] {
            return (a[i] as u32) < (b[i] as u32);
        }
        i += 1;
    }
    i < b.len()
}

/// Whether two names are the same.
pub fn same_name(a: &Vec<char>, b: &Vec<char>) -> (same: bool)
    ensures
        same == (a@ == b@),
{
    if a.len() != b.len() {
        return false;
    }
    let mut i: usize = 0;
    while i < a.len()
        invariant
            i <= a.len(),
            a.len() == b.len(),
            forall|j: int| 0 <= j < i ==> a@[j] == b@[j],
        decreases a.len() - i,
    {
        if a[i] != b[i] {
            return false;
        }
        i += 1;
    }
    proof {
        assert(a@ =~= b@);
    }
    true
}

/// How many names of the table come before `name`: where `name` stands in
/// an ascending table, or where it would have to stand.
pub fn find_place(table: &Vec<Vec<char>>, name: &Vec<char>) -> (at: usize)
    ensures
        at <= table.len(),
        forall|i: int| 0 <= i < at ==> precedes(#[trigger] names_of(table@)[i], name@),
        at < table.len() ==> !precedes(names_of(table@)[at as int], name@),
{
    let mut at: usize = 0;
    while at < table.len() && name_before(&table[at], name)
        invariant
            at <= table.len(),
            forall|i: int| 0 <= i < at ==> precedes(#[trigger] names_of(table@)[i], name@),
        decreases table.len() - at,
    {
        at += 1;
    }
    at
}

/// The index of `name` in an ascending table, or `None` where the table
/// does not hold it.
pub fn index_of(table: &Vec<Vec<char>>, name: &Vec<char>) -> (at: Option<usize>)
    requires
        ascending(names_of(table@)),
    ensures
        match at {
            Some(i) => i < table.len() && table@[i as int]@ == name@,
            None => !names_of(table@).contains(name@),
        },
{
    let at = find_place(table, name);
    if at < table.len() && same_name(&table[at], name) {
        Some(at)
    } else {
        proof {
            let names = names_of(table@);
            assert forall|i: int| 0 <= i < names.len() implies names[i] != name@ by {
                if i < at {
                    lemma_precedes_irreflexive(name@);
                } else if i > at {
                    if names[i] == name@ {
                        assert(precedes(names[at as int], names[i]));
                    }
                }
            }
        }
        None
    }
}

/// The table with `name` in its place; a name that the table holds already
/// is not put in again.
pub fn insert_name(table: Vec<Vec<char>>, name: &Vec<char>) -> (out: Vec<Vec<char>>)
    requires
        ascending(names_of(table@)),
    ensures
        ascending(names_of(out@)),
        names_of(out@).contains(name@),
        forall|x: Seq<char>|
            names_of(out@).contains(x) <==> (names_of(table@).contains(x) || x == name@),
{
    let ghost before = names_of(table@);
    let at = find_place(&table, name);
    if at < table.len() && same_name(&table[at], name) {
        proof {
            assert(before[at as int] == name@);
        }
        return table;
    }
    let mut copy: Vec<char> = Vec::new();
    let mut c: usize = 0;
    while c < name.len()
        invariant
            c <= name.len(),
            copy@ == name@.take(c as int),
        decreases name.len() - c,
    {
        copy.push(name[c]);
        proof {
            assert(copy@ =~= name@.take(c + 1));
        }
        c += 1;
    }
    proof {
        assert(name@.take(name@.len() as int) == name@);
    }
    let mut out = table;
    out.insert(at, copy);
    proof {
        let after = names_of(out@);
        assert(after =~= before.insert(at as int, name@));
        assert forall|i: int, j: int| 0 <= i < j < after.len() implies precedes(
            #[trigger] after[i],
            #[trigger] after[j],
        ) by {
            if j < at {
                assert(after[i] == before[i] && after[j] == before[j]);
            } else if j == at {
                assert(after[i] == before[i]);
            } else {
                assert(after[j] == before[j - 1]);
                if i < at {
                    assert(after[i] == before[i]);
                    if j - 1 == i {
                    }
                } else if i == at {
                    lemma_precedes_total(before[at as int], name@);
                    if j - 1 > at {
                        assert(precedes(before[at as int], before[j - 1]));
                        lemma_precedes_transitive(name@, before[at as int], before[j - 1]);
                    }
                } else {
                    assert(after[i] == before[i - 1]);
                }
            }
        }
        assert(after[at as int] == name@);
        assert forall|x: Seq<char>| after.contains(x) <==> (before.contains(x) || x == name@) by {
            if after.contains(x) {
                let i = choose|i: int| 0 <= i < after.len() && after[i] == x;
                if i < at {
                    assert(before[i] == x);
                } else if i > at {
                    assert(before[i - 1] == x);
                }
            }
            if before.contains(x) {
                let i = choose|i: int| 0 <= i < before.len() && before[i] == x;
                if i < at {
                    assert(after[i] == x);
                } else {
                    assert(after[i + 1] == x);
                }
            }
        }
    }
    out
}

/// Every node name of `edges` is a name of `names`.
pub open spec fn covers(names: Seq<Seq<char>>, edges: Seq<NamedEdge>) -> bool {
    forall|i: int|
        0 <= i < edges.len() ==> names.contains((#[trigger] edges[i]).from@) && names.contains(
            edges[i].to@,
        )
}

/// Every name of `names` is a node name of `edges`.
pub open spec fn drawn_from(names: Seq<Seq<char>>, edges: Seq<NamedEdge>) -> bool {
    forall|x: Seq<char>|
        names.contains(x) ==> exists|i: int|
            0 <= i < edges.len() && ((#[trigger] edges[i]).from@ == x || edges[i].to@ == x)
}

/// The node names of an edge list, each once, in ascending order: a node's
/// index is the place of its name here.
pub fn node_table(edges: &Vec<NamedEdge>) -> (table: Vec<Vec<char>>)
    ensures
        ascending(names_of(table@)),
        covers(names_of(table@), edges@),
        drawn_from(names_of(table@), edges@),
{
    let mut table: Vec<Vec<char>> = Vec::new();
    let mut i: usize = 0;
    while i < edges.len()
        invariant
            i <= edges.len(),
            ascending(names_of(table@)),
            covers(names_of(table@), edges@.take(i as int)),
            drawn_from(names_of(table@), edges@.take(i as int)),
        decreases edges.len() - i,
    {
        let ghost old_names = names_of(table@);
        table = insert_name(table, &edges[i].from);
        let ghost mid_names = names_of(table@);
        table = insert_name(table, &edges[i].to);
        proof {
            let names = names_of(table@);
            let shorter = edges@.take(i as int);
            let longer = edges@.take(i + 1);
            assert forall|j: int| 0 <= j < longer.len() implies names.contains(
                (#[trigger] longer[j]).from@,
            ) && names.contains(longer[j].to@) by {
                if j < i {
                    assert(longer[j] == shorter[j]);
                    assert(old_names.contains(shorter[j].from@));
                    assert(old_names.contains(shorter[j].to@));
                    assert(mid_names.contains(shorter[j].from@));
                    assert(mid_names.contains(shorter[j].to@));
                } else {
                    assert(mid_names.contains(longer[j].from@));
                }
            }
            assert forall|x: Seq<char>| names.contains(x) implies exists|j: int|
                0 <= j < longer.len() && ((#[trigger] longer[j]).from@ == x || longer[j].to@
                    == x) by {
                if old_names.contains(x) {
                    let j = choose|j: int|
                        0 <= j < shorter.len() && ((#[trigger] shorter[j]).from@ == x
                            || shorter[j].to@ == x);
                    assert(longer[j] == shorter[j]);
                } else {
                    assert(longer[i as int] == edges@[i as int]);
                    assert(mid_names.contains(x) || x == edges@[i as int].to@);
                    assert(longer[i as int].from@ == x || longer[i as int].to@ == x);
                }
            }
        }
        i += 1;
    }
    proof {
        assert(edges@.take(edges@.len() as int) == edges@);
    }
    table
}

/// The indexed edges of a list of named edges under a table: each name is
/// replaced by its place in the table.
pub open spec fn indexed_by(table: Seq<Seq<char>>, edges: Seq<NamedEdge>, out: Seq<Edge>) -> bool {
    &&& out.len() == edges.len()
    &&& forall|i: int|
        0 <= i < out.len() ==> {
            &&& (#[trigger] out[i]).from < table.len()
            &&& out[i].to < table.len()
            &&& table[out[i].from as int] == edges[i].from@
            &&& table[out[i].to as int] == edges[i].to@
            &&& out[i].weight == edges[i].weight
        }
}

/// Replaces the names of `edges` by their indices in `table`. `None` where
/// the table has more entries than there are node indices.
pub fn to_indices(table: &Vec<Vec<char>>, edges: &Vec<NamedEdge>) -> (out: Option<Vec<Edge>>)
    requires
        ascending(names_of(table@)),
        covers(names_of(table@), edges@),
    ensures
        out.is_some() == (table.len() <= u32::MAX || edges.len() == 0),
        out matches Some(v) ==> indexed_by(names_of(table@), edges@, v@),
{
    let mut out: Vec<Edge> = Vec::new();
    if edges.len() == 0 {
        return Some(out);
    }
    if table.len() > 0xFFFF_FFFF {
        return None;
    }
    let mut i: usize = 0;
    while i < edges.len()
        invariant
            i <= edges.len(),
            table.len() <= u32::MAX,
            ascending(names_of(table@)),
            covers(names_of(table@), edges@),
            indexed_by(names_of(table@), edges@.take(i as int), out@),
        decreases edges.len() - i,
    {
        let from = index_of(table, &edges[i].from);
        let to = index_of(table, &edges[i].to);
        match (from, to) {
            (Some(f), Some(t)) => {
                out.push(Edge { from: f as u32, to: t as u32, weight: edges[i].weight });
            },
            _ => {
                proof {
                    assert(names_of(table@).contains(edges@[i as int].from@));
                    assert(names_of(table@).contains(edges@[i as int].to@));
                }
                return None;
            },
        }
        i += 1;
    }
    proof {
        assert(edges@.take(edges@.len() as int) == edges@);
    }
    Some(out)
}

} // verus!
