use obsidian_mcp::config::Config;
use obsidian_mcp::graph::{GraphAnalyzer, GraphEdge, GraphError, GraphNode, ObsidianGraph};
use obsidian_mcp::tools::graph::hops;

fn graph(nodes: &[&str], edges: &[(&str, &str)]) -> ObsidianGraph {
    ObsidianGraph {
        nodes: nodes.iter().map(|n| GraphNode { id: n.to_string(), path: None }).collect(),
        edges: edges
            .iter()
            .map(|(s, t)| GraphEdge { source: s.to_string(), target: t.to_string() })
            .collect(),
    }
}

fn analyzer() -> GraphAnalyzer {
    GraphAnalyzer::new(Config { vault_path: "/vault".to_string() })
}

#[test]
fn communities_are_connected_components_in_node_order() {
    let g = graph(&["a", "b", "c", "d", "e"], &[("a", "c"), ("d", "b"), ("c", "a")]);
    let cs = analyzer().communities(&g);
    assert_eq!(cs.len(), 3);
    let ids: Vec<usize> = cs.iter().map(|c| c.id).collect();
    assert_eq!(ids, vec![0, 1, 2]);
    let mut first = cs[0].nodes.clone();
    first.sort();
    assert_eq!(first, vec!["a", "c"]);
    assert_eq!(cs[0].nodes[0], "a");
    let mut second = cs[1].nodes.clone();
    second.sort();
    assert_eq!(second, vec!["b", "d"]);
    assert_eq!(cs[1].nodes[0], "b");
    assert_eq!(cs[2].nodes, vec!["e"]);
}

#[test]
fn communities_of_an_empty_graph() {
    assert!(analyzer().communities(&graph(&[], &[])).is_empty());
}

#[test]
fn communities_include_notes_known_only_from_edges() {
    let g = graph(&["a"], &[("a", "x")]);
    let cs = analyzer().communities(&g);
    assert_eq!(cs.len(), 1);
    let mut n = cs[0].nodes.clone();
    n.sort();
    assert_eq!(n, vec!["a", "x"]);
}

#[test]
fn shortest_path_is_shortest_and_follows_links_both_ways() {
    let g = graph(&["a", "b", "c", "d"], &[("a", "b"), ("b", "c"), ("c", "d"), ("d", "a")]);
    let p = analyzer().shortest_path(&g, "a", "d").ok().unwrap();
    assert_eq!(p, vec!["a", "d"]);
    let p = analyzer().shortest_path(&g, "a", "c").ok().unwrap();
    assert_eq!(p.len(), 3);
    assert_eq!(p[0], "a");
    assert_eq!(p[2], "c");
    assert_eq!(hops(p.len()), 2);
    assert_eq!(analyzer().shortest_path(&g, "b", "b").ok().unwrap(), vec!["b"]);
    assert_eq!(analyzer().shortest_path(&g, "zzz", "zzz").ok().unwrap(), vec!["zzz"]);
}

#[test]
fn shortest_path_reports_when_no_path_exists() {
    let g = graph(&["a", "b", "c"], &[("a", "b")]);
    match analyzer().shortest_path(&g, "a", "c") {
        Err(e) => {
            assert_eq!(e.message(), "No path found between a and c");
            assert!(matches!(e, GraphError::NoPath { .. }));
        },
        Ok(_) => panic!("found a path"),
    }
    assert!(analyzer().shortest_path(&g, "a", "zzz").is_err());
}

#[test]
fn graph_data_lives_in_the_obsidian_folder() {
    let a = analyzer();
    assert_eq!(a.graph_path(), "/vault/.obsidian/graph.json");
    assert_eq!(a.graph_file(true).ok().unwrap(), "/vault/.obsidian/graph.json");
    match a.graph_file(false) {
        Err(e) => assert_eq!(
            e.message(),
            "Graph data not available at /vault/.obsidian/graph.json. Open Obsidian once to generate it."
        ),
        Ok(_) => panic!("missing file accepted"),
    }
}

#[test]
fn hops_of_an_empty_path() {
    assert_eq!(hops(0), 0);
    assert_eq!(hops(1), 0);
}

#[test]
fn communities_split_the_notes_into_disjoint_groups() {
    let names: Vec<String> = (0..12).map(|i| format!("n{}", i)).collect();
    let refs: Vec<&str> = names.iter().map(|s| s.as_str()).collect();
    let edges = [("n0", "n5"), ("n5", "n9"), ("n2", "n3"), ("n11", "n3"), ("n7", "n7"), ("n4", "n8"), ("n8", "n0")];
    let g = graph(&refs, &edges);
    let cs = analyzer().communities(&g);
    let mut seen: Vec<String> = Vec::new();
    for c in &cs {
        for n in &c.nodes {
            assert!(!seen.contains(n), "{} in two groups", n);
            seen.push(n.clone());
        }
    }
    seen.sort();
    let mut all = names.clone();
    all.sort();
    assert_eq!(seen, all);
    let firsts: Vec<&str> = cs.iter().map(|c| c.nodes[0].as_str()).collect();
    assert_eq!(firsts, vec!["n0", "n1", "n2", "n6", "n7", "n10"]);
}

#[test]
fn shortest_path_takes_neighbours_in_the_order_of_the_links() {
    let nodes = ["a", "b", "c", "d"];
    // a meets b before c, so d is reached through b.
    let g = graph(&nodes, &[("a", "b"), ("a", "c"), ("b", "d"), ("c", "d")]);
    assert_eq!(analyzer().shortest_path(&g, "a", "d").ok().unwrap(), vec!["a", "b", "d"]);
    // With the first two links swapped, through c.
    let g = graph(&nodes, &[("a", "c"), ("a", "b"), ("b", "d"), ("c", "d")]);
    assert_eq!(analyzer().shortest_path(&g, "a", "d").ok().unwrap(), vec!["a", "c", "d"]);
    // The earlier parent wins even when the later one meets d first.
    let g = graph(&nodes, &[("a", "b"), ("a", "c"), ("c", "d"), ("b", "d")]);
    assert_eq!(analyzer().shortest_path(&g, "a", "d").ok().unwrap(), vec!["a", "b", "d"]);
    // A link is read from its target back to its source too.
    let g = graph(&nodes, &[("c", "a"), ("b", "a"), ("d", "b"), ("d", "c")]);
    assert_eq!(analyzer().shortest_path(&g, "a", "d").ok().unwrap(), vec!["a", "c", "d"]);
}
