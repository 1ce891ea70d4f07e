use bhandari_rs::compose::ComposeError;
use bhandari_rs::graph::{Edge, GraphError};
use bhandari_rs::names::{
    find_place, index_of, insert_name, name_before, node_table, same_name, to_indices,
};
use bhandari_rs::route::{bhandari, path_names, route_in, RouteError};
use bhandari_rs::text::{parse_edge, NamedEdge};

fn chars(s: &str) -> Vec<char> {
    s.chars().collect()
}

fn named(from: &str, to: &str, weight: i32) -> NamedEdge {
    NamedEdge { from: chars(from), to: chars(to), weight }
}

fn table(names: &[&str]) -> Vec<Vec<char>> {
    names.iter().map(|n| chars(n)).collect()
}

fn three_routes() -> Vec<NamedEdge> {
    let mut edges = Vec::new();
    for line in ["1 1 2", "2 1 5", "1 2 3", "3 2 5", "1 5 4", "4 5 5"] {
        edges.extend(parse_edge(&chars(line), false).unwrap());
    }
    edges
}

#[test]
fn name_before_agrees_with_std() {
    let names = ["", "a", "ab", "b", "B", "aa", "a b", "\u{e9}", "z", "\u{10000}", "\u{ffff}"];
    for a in names {
        for b in names {
            assert_eq!(name_before(&chars(a), &chars(b)), a < b, "{:?} {:?}", a, b);
            assert_eq!(same_name(&chars(a), &chars(b)), a == b, "{:?} {:?}", a, b);
        }
    }
}

#[test]
fn find_place_counts_names_before() {
    let t = table(&["b", "d", "f"]);
    assert_eq!(find_place(&t, &chars("a")), 0);
    assert_eq!(find_place(&t, &chars("b")), 0);
    assert_eq!(find_place(&t, &chars("c")), 1);
    assert_eq!(find_place(&t, &chars("f")), 2);
    assert_eq!(find_place(&t, &chars("g")), 3);
}

#[test]
fn index_of_finds_names() {
    let t = table(&["b", "d", "f"]);
    assert_eq!(index_of(&t, &chars("b")), Some(0));
    assert_eq!(index_of(&t, &chars("f")), Some(2));
    assert_eq!(index_of(&t, &chars("c")), None);
    assert_eq!(index_of(&t, &chars("g")), None);
    assert_eq!(index_of(&vec![], &chars("g")), None);
}

#[test]
fn insert_name_keeps_order_and_no_doubles() {
    let t = table(&["b", "d"]);
    assert_eq!(insert_name(t.clone(), &chars("c")), table(&["b", "c", "d"]));
    assert_eq!(insert_name(t.clone(), &chars("a")), table(&["a", "b", "d"]));
    assert_eq!(insert_name(t.clone(), &chars("e")), table(&["b", "d", "e"]));
    assert_eq!(insert_name(t.clone(), &chars("d")), table(&["b", "d"]));
    assert_eq!(insert_name(vec![], &chars("d")), table(&["d"]));
}

#[test]
fn node_table_is_sorted_and_deduplicated() {
    let edges = vec![named("m", "b", 1), named("b", "z", 2), named("a", "m", 3)];
    assert_eq!(node_table(&edges), table(&["a", "b", "m", "z"]));
    assert_eq!(node_table(&vec![]), table(&[]));
    let mut expected: Vec<String> = vec!["10", "9", "Zed", "alpha", "10"]
        .into_iter()
        .map(|s| s.to_string())
        .collect();
    expected.sort();
    expected.dedup();
    let edges = vec![named("10", "9", 1), named("Zed", "alpha", 1), named("alpha", "10", 1)];
    let got: Vec<String> = node_table(&edges).into_iter().map(|n| n.into_iter().collect()).collect();
    assert_eq!(got, expected);
}

#[test]
fn to_indices_replaces_names() {
    let edges = vec![named("m", "b", 1), named("b", "z", -2)];
    let t = node_table(&edges);
    assert_eq!(
        to_indices(&t, &edges),
        Some(vec![Edge { from: 1, to: 0, weight: 1 }, Edge { from: 0, to: 2, weight: -2 }])
    );
    assert_eq!(to_indices(&t, &vec![]), Some(vec![]));
}

#[test]
fn path_names_looks_up_each_node() {
    let t = table(&["a", "b", "c"]);
    assert_eq!(path_names(&t, &vec![2, 0, 1]), table(&["c", "a", "b"]));
    assert_eq!(path_names(&t, &vec![]), table(&[]));
}

#[test]
fn bhandari_names_three_routes() {
    let edges = three_routes();
    assert_eq!(
        bhandari(&edges, &chars("1"), &chars("5"), 3),
        Ok(vec![table(&["1", "2", "5"]), table(&["1", "3", "5"]), table(&["1", "4", "5"])])
    );
    assert_eq!(bhandari(&edges, &chars("1"), &chars("5"), 1), Ok(vec![table(&["1", "2", "5"])]));
}

#[test]
fn bhandari_reports_errors() {
    let edges = three_routes();
    assert_eq!(bhandari(&edges, &chars("1"), &chars("6"), 1), Err(RouteError::UnknownNode));
    assert_eq!(bhandari(&edges, &chars("0"), &chars("5"), 1), Err(RouteError::UnknownNode));
    assert_eq!(bhandari(&vec![], &chars("1"), &chars("5"), 1), Err(RouteError::UnknownNode));
    assert_eq!(
        bhandari(&edges, &chars("1"), &chars("5"), 4),
        Err(RouteError::Compose(ComposeError::FewerThanRequested { found: 3 }))
    );
    assert_eq!(
        bhandari(&edges, &chars("5"), &chars("1"), 1),
        Err(RouteError::Compose(ComposeError::NoPath))
    );
    assert_eq!(
        bhandari(&edges, &chars("1"), &chars("1"), 1),
        Err(RouteError::Compose(ComposeError::SourceIsTarget))
    );
    assert_eq!(
        bhandari(&edges, &chars("1"), &chars("5"), 0),
        Err(RouteError::Compose(ComposeError::NoPathsRequested))
    );
    let negative = vec![named("a", "b", -1)];
    assert_eq!(
        bhandari(&negative, &chars("a"), &chars("b"), 1),
        Err(RouteError::Graph(GraphError::NegativeWeight))
    );
}

#[test]
fn bhandari_on_undirected_lines() {
    let mut edges = Vec::new();
    for line in ["s 1 a", "a 1 b", "b 1 t", "s 5 b", "a 5 t"] {
        edges.extend(parse_edge(&chars(line), true).unwrap());
    }
    let paths = bhandari(&edges, &chars("s"), &chars("t"), 2).unwrap();
    assert_eq!(paths, vec![table(&["s", "a", "t"]), table(&["s", "b", "t"])]);
}

#[test]
fn route_in_uses_the_given_table() {
    let t = table(&["a", "b", "c"]);
    let indexed = vec![Edge { from: 0, to: 1, weight: 1 }, Edge { from: 1, to: 2, weight: 1 }];
    assert_eq!(
        route_in(&t, indexed, &chars("a"), &chars("c"), 1),
        Ok(vec![table(&["a", "b", "c"])])
    );
}
