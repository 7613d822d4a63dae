use txgraph::graph::build_transaction_graph;
use txgraph::graph::Graph;
use txgraph::paths::find_paths;
use txgraph::record::TransactionRecord;

fn s(x: &str) -> String {
    x.to_string()
}

fn rec(keys: &[&str]) -> TransactionRecord {
    TransactionRecord::with_keys(keys.iter().map(|k| k.to_string()).collect())
}

fn neighbor_set(g: &Graph, a: &str) -> Vec<String> {
    match g.neighbors(&s(a)) {
        Some(row) => {
            let mut v = row.clone();
            v.sort();
            v
        }
        None => Vec::new(),
    }
}

#[test]
fn symmetry_on_built_graph() {
    let g = build_transaction_graph(&vec![rec(&["A", "B"]), rec(&["B", "C"])]);
    assert!(neighbor_set(&g, "A").contains(&s("B")));
    assert!(neighbor_set(&g, "B").contains(&s("A")));
    assert!(neighbor_set(&g, "B").contains(&s("C")));
    assert!(neighbor_set(&g, "C").contains(&s("B")));
}

#[test]
fn edge_generation_anchor_to_associates_only() {
    let g = build_transaction_graph(&vec![rec(&["A", "B", "C"])]);
    assert_eq!(neighbor_set(&g, "A"), vec![s("B"), s("C")]);
    assert_eq!(neighbor_set(&g, "B"), vec![s("A")]);
    assert_eq!(neighbor_set(&g, "C"), vec![s("A")]);
}

#[test]
fn degenerate_records_contribute_nothing() {
    let g = build_transaction_graph(&vec![
        rec(&["A"]),
        rec(&[]),
        TransactionRecord::without_keys(),
    ]);
    assert_eq!(g.count_nodes(), 0);
    assert!(g.neighbors(&s("A")).is_none());
}

#[test]
fn repeated_cooccurrence_yields_single_edge() {
    let g = build_transaction_graph(&vec![rec(&["A", "B"]), rec(&["A", "B"]), rec(&["B", "A"])]);
    assert_eq!(neighbor_set(&g, "A"), vec![s("B")]);
    assert_eq!(neighbor_set(&g, "B"), vec![s("A")]);
    assert_eq!(g.count_nodes(), 2);
}

#[test]
fn single_path_even_with_two_routes() {
    let g = build_transaction_graph(&vec![
        rec(&["A", "B"]),
        rec(&["A", "C"]),
        rec(&["B", "D"]),
        rec(&["C", "D"]),
    ]);
    let paths = find_paths(&g, "A", "D", 10);
    assert_eq!(paths.len(), 1);
    assert_eq!(paths[0].len(), 3);
    assert_eq!(paths[0][0], s("A"));
    assert_eq!(paths[0][2], s("D"));
}

#[test]
fn self_match_returns_trivial_path() {
    let g = build_transaction_graph(&vec![rec(&["A", "B"])]);
    let paths = find_paths(&g, "A", "A", 1);
    assert_eq!(paths, vec![vec![s("A")]]);
    let paths = find_paths(&g, "A", "A", 50);
    assert_eq!(paths, vec![vec![s("A")]]);
}

#[test]
fn self_match_outside_graph() {
    let g = Graph::new();
    let paths = find_paths(&g, "Z", "Z", 7);
    assert_eq!(paths, vec![vec![s("Z")]]);
}

#[test]
fn zero_depth_returns_nothing() {
    let g = build_transaction_graph(&vec![rec(&["A", "B"])]);
    assert!(find_paths(&g, "A", "A", 0).is_empty());
    assert!(find_paths(&g, "A", "B", 0).is_empty());
}

#[test]
fn unreachable_endpoint_returns_empty() {
    let g = build_transaction_graph(&vec![rec(&["A", "B"])]);
    assert!(find_paths(&g, "A", "Q", 10).is_empty());
    assert!(find_paths(&g, "Q", "A", 10).is_empty());
}

#[test]
fn chain_is_found_end_to_end() {
    let g = build_transaction_graph(&vec![
        rec(&["A", "B"]),
        rec(&["B", "C"]),
        rec(&["C", "D"]),
    ]);
    let paths = find_paths(&g, "A", "D", 10);
    assert_eq!(paths, vec![vec![s("A"), s("B"), s("C"), s("D")]]);
}

#[test]
fn disconnected_components_yield_empty() {
    let g = build_transaction_graph(&vec![rec(&["A", "B"]), rec(&["X", "Y"])]);
    assert!(find_paths(&g, "A", "Y", 10).is_empty());
}

#[test]
fn depth_bound_prunes_long_chain() {
    let g = build_transaction_graph(&vec![
        rec(&["A", "B"]),
        rec(&["B", "C"]),
        rec(&["C", "D"]),
        rec(&["D", "E"]),
    ]);
    assert!(find_paths(&g, "A", "E", 3).is_empty());
    let found = find_paths(&g, "A", "E", 5);
    assert_eq!(found, vec![vec![s("A"), s("B"), s("C"), s("D"), s("E")]]);
}

#[test]
fn transaction_order_does_not_change_edges() {
    let g1 = build_transaction_graph(&vec![rec(&["A", "B"]), rec(&["B", "C"])]);
    let g2 = build_transaction_graph(&vec![rec(&["B", "C"]), rec(&["A", "B"])]);
    for n in ["A", "B", "C"] {
        assert_eq!(neighbor_set(&g1, n), neighbor_set(&g2, n));
    }
}

#[test]
fn manual_edge_insertion_matches_builder() {
    let mut g = Graph::new();
    g.add_edge(&s("A"), &s("B"));
    g.add_edge(&s("A"), &s("B"));
    assert_eq!(g.count_nodes(), 2);
    assert_eq!(neighbor_set(&g, "A"), vec![s("B")]);
    assert_eq!(neighbor_set(&g, "B"), vec![s("A")]);
}
