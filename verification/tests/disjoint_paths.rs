use bhandari_rs::compose::{check_solution, check_walk, ComposeError, Solution};
use bhandari_rs::graph::{Edge, GraphModel};
use bhandari_rs::links::links_of;

fn edge(from: u32, to: u32, weight: i32) -> Edge {
    Edge { from, to, weight }
}

fn three_routes() -> GraphModel {
    GraphModel::new(
        6,
        vec![edge(1, 2, 1), edge(2, 5, 1), edge(1, 3, 2), edge(3, 5, 2), edge(1, 4, 5), edge(4, 5, 5)],
    )
    .unwrap()
}

fn trap() -> GraphModel {
    GraphModel::new(
        4,
        vec![edge(0, 1, 1), edge(1, 2, 1), edge(2, 3, 1), edge(0, 2, 5), edge(1, 3, 5)],
    )
    .unwrap()
}

fn path_cost(g: &GraphModel, path: &Vec<u32>) -> i128 {
    links_of(path)
        .iter()
        .map(|(a, b)| {
            g.edges().iter().find(|e| e.from == *a && e.to == *b).unwrap().weight as i128
        })
        .sum()
}

fn simple_paths(g: &GraphModel, at: u32, target: u32, seen: &mut Vec<u32>, out: &mut Vec<Vec<u32>>) {
    if at == target {
        out.push(seen.clone());
        return;
    }
    for (next, _) in g.successors(at) {
        if !seen.contains(&next) {
            seen.push(next);
            simple_paths(g, next, target, seen, out);
            seen.pop();
        }
    }
}

fn brute_force(g: &GraphModel, source: u32, target: u32, k: usize) -> Option<i128> {
    let mut all = Vec::new();
    simple_paths(g, source, target, &mut vec![source], &mut all);
    let mut best: Option<i128> = None;
    let mut chosen: Vec<usize> = Vec::new();
    pick(g, &all, 0, k, &mut chosen, &mut best);
    best
}

fn pick(
    g: &GraphModel,
    all: &Vec<Vec<u32>>,
    from: usize,
    k: usize,
    chosen: &mut Vec<usize>,
    best: &mut Option<i128>,
) {
    if chosen.len() == k {
        let mut links = Vec::new();
        for c in chosen.iter() {
            links.extend(links_of(&all[*c]));
        }
        let n = links.len();
        links.sort();
        links.dedup();
        if links.len() == n {
            let cost: i128 = chosen.iter().map(|c| path_cost(g, &all[*c])).sum();
            if best.map_or(true, |b| cost < b) {
                *best = Some(cost);
            }
        }
        return;
    }
    for i in from..all.len() {
        chosen.push(i);
        pick(g, all, i + 1, k, chosen, best);
        chosen.pop();
    }
}

fn assert_disjoint(paths: &Vec<Vec<u32>>) {
    for i in 0..paths.len() {
        for j in (i + 1)..paths.len() {
            for l in links_of(&paths[i]) {
                assert!(!links_of(&paths[j]).contains(&l));
            }
        }
    }
}

#[test]
fn three_routes_gives_three_disjoint_paths() {
    let g = three_routes();
    let s = g.k_disjoint_paths(1, 5, 3).unwrap();
    assert_eq!(s.paths, vec![vec![1, 2, 5], vec![1, 3, 5], vec![1, 4, 5]]);
    let mut costs: Vec<i128> = s.paths.iter().map(|p| path_cost(&g, p)).collect();
    costs.sort();
    assert_eq!(costs, vec![2, 4, 10]);
    assert_eq!(s.cost, 16);
    assert_eq!(brute_force(&g, 1, 5, 3), Some(16));
    assert_disjoint(&s.paths);
}

#[test]
fn more_paths_than_routes_is_reported() {
    let g = GraphModel::new(
        6,
        vec![edge(1, 2, 1), edge(2, 5, 1), edge(1, 3, 2), edge(3, 5, 2)],
    )
    .unwrap();
    assert_eq!(g.k_disjoint_paths(1, 5, 3), Err(ComposeError::FewerThanRequested { found: 2 }));
    assert_eq!(g.k_disjoint_paths(1, 5, 9), Err(ComposeError::FewerThanRequested { found: 2 }));
    assert!(g.k_disjoint_paths(1, 5, 2).is_ok());
}

#[test]
fn source_equal_to_target_is_refused() {
    let g = three_routes();
    assert_eq!(g.k_disjoint_paths(1, 1, 2), Err(ComposeError::SourceIsTarget));
    assert_eq!(g.k_disjoint_paths(5, 5, 1), Err(ComposeError::SourceIsTarget));
}

#[test]
fn zero_paths_is_refused() {
    let g = three_routes();
    assert_eq!(g.k_disjoint_paths(1, 5, 0), Err(ComposeError::NoPathsRequested));
    assert_eq!(g.k_disjoint_paths(1, 1, 0), Err(ComposeError::NoPathsRequested));
}

#[test]
fn unknown_node_is_refused() {
    let g = three_routes();
    assert_eq!(g.k_disjoint_paths(1, 6, 1), Err(ComposeError::NodeOutOfRange));
    assert_eq!(g.k_disjoint_paths(6, 1, 1), Err(ComposeError::NodeOutOfRange));
}

#[test]
fn unreachable_target_is_no_path() {
    let g = three_routes();
    assert_eq!(g.k_disjoint_paths(5, 1, 1), Err(ComposeError::NoPath));
    assert_eq!(g.k_disjoint_paths(5, 1, 4), Err(ComposeError::NoPath));
}

#[test]
fn one_path_is_the_shortest_path() {
    let g = trap();
    let (path, cost) = g.shortest_path(0, 3).unwrap();
    assert_eq!(path, vec![0, 1, 2, 3]);
    assert_eq!(cost, 3);
    assert_eq!(
        g.k_disjoint_paths(0, 3, 1),
        Ok(Solution { paths: vec![path], cost: 3 })
    );
    let g = three_routes();
    let (path, cost) = g.shortest_path(1, 5).unwrap();
    assert_eq!(g.k_disjoint_paths(1, 5, 1), Ok(Solution { paths: vec![path], cost: cost as i128 }));
}

#[test]
fn trap_is_uncrossed() {
    let g = trap();
    let s = g.k_disjoint_paths(0, 3, 2).unwrap();
    assert_eq!(s.paths, vec![vec![0, 1, 3], vec![0, 2, 3]]);
    assert_eq!(s.cost, 12);
    assert_eq!(brute_force(&g, 0, 3, 2), Some(12));
    assert_eq!(s.paths.iter().map(|p| path_cost(&g, p)).sum::<i128>(), 12);
    assert_disjoint(&s.paths);
    assert_eq!(g.k_disjoint_paths(0, 3, 3), Err(ComposeError::FewerThanRequested { found: 2 }));
}

#[test]
fn cost_matches_brute_force_on_small_graphs() {
    let g = GraphModel::new(
        6,
        vec![
            edge(0, 1, 1), edge(1, 2, 1), edge(2, 5, 1), edge(0, 3, 2), edge(3, 4, 2),
            edge(4, 5, 2), edge(1, 4, 1), edge(3, 2, 1), edge(0, 2, 7), edge(3, 5, 9),
            edge(2, 4, 1), edge(1, 5, 8),
        ],
    )
    .unwrap();
    for k in 1..=4 {
        let got = g.k_disjoint_paths(0, 5, k);
        match brute_force(&g, 0, 5, k) {
            Some(best) => {
                let s = got.unwrap();
                assert_eq!(s.cost, best);
                assert_eq!(s.paths.len(), k);
                assert_eq!(s.paths.iter().map(|p| path_cost(&g, p)).sum::<i128>(), best);
                assert_disjoint(&s.paths);
                assert!(check_solution(g.edges(), &s.paths, 0, 5, k));
            }
            None => assert!(matches!(got, Err(ComposeError::FewerThanRequested { .. }))),
        }
    }
}

#[test]
fn undirected_graph_as_two_directed_edges() {
    let mut edges = Vec::new();
    for (a, b, w) in [(0, 1, 1), (1, 2, 1), (2, 3, 1), (0, 2, 5), (1, 3, 5)] {
        edges.push(edge(a, b, w));
        edges.push(edge(b, a, w));
    }
    let g = GraphModel::new(4, edges).unwrap();
    let s = g.k_disjoint_paths(0, 3, 2).unwrap();
    assert_eq!(s.cost, 12);
    assert_eq!(s.paths.len(), 2);
    assert_disjoint(&s.paths);
}

#[test]
fn check_walk_follows_edges() {
    let g = trap();
    assert!(check_walk(g.edges(), &vec![0, 1, 2, 3], 0, 3));
    assert!(check_walk(g.edges(), &vec![0], 0, 0));
    assert!(!check_walk(g.edges(), &vec![], 0, 0));
    assert!(!check_walk(g.edges(), &vec![0, 1, 2, 3], 0, 2));
    assert!(!check_walk(g.edges(), &vec![0, 1, 2, 3], 1, 3));
    assert!(!check_walk(g.edges(), &vec![0, 3], 0, 3));
    assert!(!check_walk(g.edges(), &vec![0, 2, 1, 3], 0, 3));
}

#[test]
fn check_solution_refuses_shared_links_and_wrong_counts() {
    let g = trap();
    assert!(check_solution(g.edges(), &vec![vec![0, 1, 3], vec![0, 2, 3]], 0, 3, 2));
    assert!(!check_solution(g.edges(), &vec![vec![0, 1, 3], vec![0, 2, 3]], 0, 3, 3));
    assert!(!check_solution(g.edges(), &vec![vec![0, 1, 2, 3], vec![0, 2, 3]], 0, 3, 2));
    assert!(!check_solution(g.edges(), &vec![vec![0, 1, 3], vec![0, 1]], 0, 3, 2));
    assert!(check_solution(g.edges(), &vec![], 0, 3, 0));
}
