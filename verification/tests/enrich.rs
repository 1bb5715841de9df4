use omi_persona::centrality::{closeness_centrality, degree_centrality, distances, Fraction};
use omi_persona::enrich::{checked_enrich_graph, enrich_graph};
use omi_persona::graph_analytics::{build_graph, KgEdge, KgNode};
use omi_persona::knowledge_graph::KnowledgeGraphEdge;
use omi_persona::natural::Natural;
use omi_persona::zip_back::enriched_weight;
use petgraph::graph::UnGraph;

fn nodes(ids: &[&str]) -> Vec<KgNode> {
    ids.iter()
        .map(|id| KgNode { id: id.to_string(), label: id.to_uppercase(), node_type: "thing".into() })
        .collect()
}

fn edge(a: &str, b: &str, weight: u64) -> KgEdge {
    KgEdge { source_id: a.into(), target_id: b.into(), label: "rel".into(), weight }
}

fn graph(ids: &[&str], pairs: &[(&str, &str)]) -> UnGraph<String, u128> {
    let edges: Vec<KgEdge> = pairs.iter().map(|(a, b)| edge(a, b, 1)).collect();
    build_graph(&nodes(ids), &edges).0
}

fn float(n: &Natural) -> f64 {
    n.limbs().iter().rev().fold(0.0, |acc, l| acc * 2f64.powi(64) + *l as f64)
}

fn value(f: Fraction) -> f64 {
    f.numerator as f64 / f.denominator as f64
}

#[test]
fn star_scores() {
    let g = graph(&["hub", "a", "b", "c", "d"], &[("hub", "a"), ("b", "hub"), ("hub", "c"), ("hub", "d")]);
    let degree = degree_centrality(&g);
    assert_eq!(degree[0], Fraction { numerator: 4, denominator: 4 });
    assert_eq!(value(degree[1]), 0.25);
    let closeness = closeness_centrality(&g);
    assert_eq!(value(closeness[0]), 1.0);
    assert_eq!(closeness[3], Fraction { numerator: 16, denominator: 4 * 7 });
}

#[test]
fn unconnected_triangles_are_corrected_for_their_reach() {
    let g = graph(
        &["a", "b", "c", "x", "y", "z"],
        &[("a", "b"), ("b", "c"), ("c", "a"), ("x", "y"), ("y", "z"), ("z", "x")],
    );
    for f in closeness_centrality(&g) {
        assert_eq!(f, Fraction { numerator: 4, denominator: 10 });
        assert_eq!(value(f), 0.4);
    }
}

#[test]
fn distances_along_a_path() {
    let g = graph(&["a", "b", "c", "d", "e", "f"], &[("a", "b"), ("b", "c"), ("c", "d"), ("d", "e")]);
    assert_eq!(
        distances(&g, 1),
        vec![Some(1), Some(0), Some(1), Some(2), Some(3), None]
    );
    for s in 0..6 {
        for v in 0..6 {
            assert_eq!(distances(&g, s)[v], distances(&g, v)[s]);
        }
    }
    assert_eq!(distances(&g, 5), vec![None, None, None, None, None, Some(0)]);
}

#[test]
fn the_shortest_of_several_walks_counts() {
    // A ring of seven nodes.
    let ids = ["0", "1", "2", "3", "4", "5", "6"];
    let pairs: Vec<(&str, &str)> = (0..7).map(|i| (ids[i], ids[(i + 1) % 7])).collect();
    let g = graph(&ids, &pairs);
    assert_eq!(
        distances(&g, 0),
        vec![Some(0), Some(1), Some(2), Some(3), Some(3), Some(2), Some(1)]
    );
}

#[test]
fn lonely_nodes_score_zero() {
    let one = graph(&["a"], &[]);
    assert_eq!(degree_centrality(&one), vec![Fraction { numerator: 0, denominator: 1 }]);
    assert_eq!(closeness_centrality(&one), vec![Fraction { numerator: 0, denominator: 1 }]);
    let two = graph(&["a", "b"], &[]);
    assert_eq!(value(degree_centrality(&two)[0]), 0.0);
    assert_eq!(value(closeness_centrality(&two)[1]), 0.0);
    assert!(degree_centrality(&graph(&[], &[])).is_empty());
}

#[test]
fn closeness_is_at_most_one() {
    let g = graph(&["a", "b", "c", "d"], &[("a", "b"), ("b", "c"), ("a", "c")]);
    for f in closeness_centrality(&g) {
        assert!(f.numerator <= f.denominator);
    }
}

#[test]
fn two_cliques_are_enriched() {
    let names = ["a0", "a1", "a2", "a3", "b0", "b1", "b2", "b3"];
    let mut edges = Vec::new();
    for p in [0, 4] {
        for i in 0..4 {
            for j in (i + 1)..4 {
                edges.push(edge(names[p + i], names[p + j], 1));
            }
        }
    }
    edges.push(edge("b0", "a0", 1));
    let g = enrich_graph(&nodes(&names), &edges);
    assert_eq!(g.nodes.len(), 8);
    assert_eq!(g.edges.len(), 13);
    assert_eq!(g.clusters.len(), 2);
    let q = &g.modularity;
    assert!((float(&q.plus) - float(&q.minus)) / float(&q.denominator) > 0.3);
    assert_eq!((g.clusters[0].id, g.clusters[0].label.as_str()), (0, "A0"));
    assert_eq!((g.clusters[1].id, g.clusters[1].label.as_str()), (1, "B0"));
    assert_eq!((g.clusters[0].node_count, g.clusters[0].dominant_type.as_str()), (4, "thing"));
    assert_eq!(g.nodes[0].id, "a0");
    assert_eq!(g.nodes[0].label, "A0");
    assert_eq!(g.nodes[0].node_type, "thing");
    assert_eq!((g.nodes[0].cluster_id, g.nodes[7].cluster_id), (0, 1));
    assert_eq!(g.nodes[0].degree_centrality, Fraction { numerator: 4, denominator: 7 });
    // From a0: four nodes at distance one, three at distance two.
    assert_eq!(g.nodes[0].closeness_centrality, Fraction { numerator: 49, denominator: 7 * 10 });
    let bridge = g.edges.iter().find(|e| e.target_id == "b0" && e.source_id == "a0").unwrap();
    assert_eq!(bridge.weight, 1);
}

#[test]
fn stored_edges_find_their_collapsed_weight() {
    let edges = vec![edge("n2", "n1", 2), edge("n1", "n2", 5), edge("n1", "n3", 0)];
    let g = enrich_graph(&nodes(&["n1", "n2", "n3"]), &edges);
    let stored = |a: &str, b: &str| KnowledgeGraphEdge {
        id: "e".into(),
        source_id: a.into(),
        target_id: b.into(),
        label: "l".into(),
        memory_ids: vec!["m".into(); 4],
    };
    assert_eq!(enriched_weight(&stored("n1", "n2"), &g.edges), 7);
    assert_eq!(enriched_weight(&stored("n2", "n1"), &g.edges), 7);
    assert_eq!(enriched_weight(&stored("n3", "n1"), &g.edges), 1);
    // No edge joins these two.
    assert_eq!(enriched_weight(&stored("n3", "n2"), &g.edges), 4);
}

#[test]
fn an_empty_graph_is_enriched() {
    let g = enrich_graph(&[], &[]);
    assert!(g.nodes.is_empty() && g.edges.is_empty() && g.clusters.is_empty());
    let q = &g.modularity;
    assert!(q.plus.is_zero() && q.minus.is_zero());
    assert!(q.denominator.equals(&Natural::from_u128(1)));
}

#[test]
fn repeated_ids_are_not_enriched() {
    assert!(checked_enrich_graph(&nodes(&["a", "b", "a"]), &[]).is_none());
    assert!(checked_enrich_graph(&nodes(&["a", "b"]), &[]).is_some());
    assert!(checked_enrich_graph(&[], &[]).is_some());
}

#[test]
fn the_greatest_weights_are_enriched() {
    let two = nodes(&["a", "b"]);
    let edges = vec![
        edge("a", "b", u64::MAX),
        edge("b", "a", u64::MAX),
        edge("a", "a", 9),
        edge("a", "x", 9),
        edge("b", "a", 0),
    ];
    let g = checked_enrich_graph(&two, &edges).unwrap();
    let weight = 2 * (u64::MAX as u128) + 1;
    assert_eq!(g.edges.len(), 1);
    assert_eq!(g.edges[0].weight, weight);
    assert_eq!(g.clusters.len(), 1);
    // All weight lies in the one cluster: the quotient is zero over (2m)^2.
    let m = Natural::from_u128(weight);
    let double = m.plus(&m);
    assert!(g.modularity.denominator.equals(&double.times(&double)));
    assert!(g.modularity.plus.equals(&g.modularity.minus));
}
