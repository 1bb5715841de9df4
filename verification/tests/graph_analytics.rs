use omi_persona::communities::detect_communities;
use omi_persona::graph_analytics::{
    build_graph, label_clusters, louvain_communities, modularity, KgEdge, KgNode, Modularity,
};
use omi_persona::grouping::groups_by_cluster;
use omi_persona::natural::Natural;
use omi_persona::un_graph::total_weight;
use petgraph::graph::{NodeIndex, UnGraph};
use std::collections::{HashMap, HashSet};

fn make_nodes(ids: &[&str]) -> Vec<KgNode> {
    ids.iter()
        .map(|&id| KgNode {
            id: id.to_string(),
            label: id.to_string(),
            node_type: "concept".to_string(),
        })
        .collect()
}

fn make_edge(a: &str, b: &str) -> KgEdge {
    weighted_edge(a, b, 1)
}

fn weighted_edge(a: &str, b: &str, weight: u64) -> KgEdge {
    KgEdge {
        source_id: a.to_string(),
        target_id: b.to_string(),
        label: "rel".to_string(),
        weight,
    }
}

fn typed_node(id: &str, label: &str, node_type: &str) -> KgNode {
    KgNode { id: id.into(), label: label.into(), node_type: node_type.into() }
}

/// A number below 2^127.
fn small(n: &Natural) -> i128 {
    let limbs = n.limbs();
    assert!(limbs.iter().skip(2).all(|l| *l == 0));
    let x = limbs.iter().take(2).rev().fold(0u128, |acc, l| (acc << 64) | *l as u128);
    i128::try_from(x).unwrap()
}

/// Numerator and denominator.
fn fraction(q: &Modularity) -> (i128, i128) {
    (small(&q.plus) - small(&q.minus), small(&q.denominator))
}

fn ratio(q: Modularity) -> f64 {
    let (numerator, denominator) = fraction(&q);
    numerator as f64 / denominator as f64
}

fn weight_between(g: &UnGraph<String, u128>, a: usize, b: usize) -> Option<u128> {
    g.edges_connecting(NodeIndex::new(a), NodeIndex::new(b)).next().map(|e| *e.weight())
}

/// Two 4-cliques connected by a single bridge edge.
/// Louvain must find exactly 2 communities.
#[test]
fn two_clique_split() {
    let nodes = make_nodes(&["a0", "a1", "a2", "a3", "b0", "b1", "b2", "b3"]);
    let mut edges = Vec::new();
    for i in 0..4 {
        for j in (i + 1)..4 {
            edges.push(make_edge(&format!("a{i}"), &format!("a{j}")));
        }
    }
    for i in 0..4 {
        for j in (i + 1)..4 {
            edges.push(make_edge(&format!("b{i}"), &format!("b{j}")));
        }
    }
    edges.push(make_edge("a0", "b0"));

    let (g, idx) = build_graph(&nodes, &edges);
    assert_eq!(g.node_count(), 8);
    assert_eq!(g.edge_count(), 13); // 6+6+1

    let (comm, k) = louvain_communities(&g);
    assert_eq!(k, 2, "two cliques → two communities");

    let ca = comm[idx.get("a0").unwrap()];
    let cb = comm[idx.get("b0").unwrap()];
    assert_ne!(ca, cb);
    for n in ["a1", "a2", "a3"] {
        assert_eq!(comm[idx.get(n).unwrap()], ca, "{} should be in clique A", n);
    }
    for n in ["b1", "b2", "b3"] {
        assert_eq!(comm[idx.get(n).unwrap()], cb, "{} should be in clique B", n);
    }

    let q = ratio(modularity(&g, &comm));
    assert!(q > 0.3, "modularity {} too low for clear clique structure", q);
    // 2m = 26: 26 * 2 * 12 - (13^2 + 13^2) over 26^2.
    assert_eq!(fraction(&modularity(&g, &comm)), (26 * 24 - 2 * 169, 676));
}

/// Three 5-node cliques + 2 bridge edges → exactly 3 communities.
#[test]
fn three_clique_communities() {
    let prefixes = ["x", "y", "z"];
    let nodes: Vec<KgNode> = prefixes
        .iter()
        .flat_map(|p| (0..5).map(move |i| format!("{p}{i}")))
        .map(|id| KgNode { id: id.clone(), label: id, node_type: "concept".into() })
        .collect();

    let mut edges = Vec::new();
    for p in &prefixes {
        for i in 0..5 {
            for j in (i + 1)..5 {
                edges.push(make_edge(&format!("{p}{i}"), &format!("{p}{j}")));
            }
        }
    }
    // Bridges: x0-y0, y0-z0
    edges.push(make_edge("x0", "y0"));
    edges.push(make_edge("y0", "z0"));

    let (g, idx) = build_graph(&nodes, &edges);
    let (comm, k) = louvain_communities(&g);
    assert_eq!(k, 3);

    let cx = comm[idx.get("x0").unwrap()];
    let cy = comm[idx.get("y0").unwrap()];
    let cz = comm[idx.get("z0").unwrap()];
    assert_eq!([cx, cy, cz].iter().collect::<HashSet<_>>().len(), 3);
    for i in 0..5 {
        assert_eq!(comm[idx.get(&format!("x{i}")).unwrap()], cx);
        assert_eq!(comm[idx.get(&format!("y{i}")).unwrap()], cy);
        assert_eq!(comm[idx.get(&format!("z{i}")).unwrap()], cz);
    }

    let q = ratio(modularity(&g, &comm));
    assert!(q > 0.5, "modularity {} too low for 3 tight cliques", q);
}

/// Single connected component where all nodes are equivalent (cycle) →
/// Louvain may find 1 or split arbitrarily, but modularity must be ≥ 0.
#[test]
fn ring_modularity_nonnegative() {
    let n = 10;
    let ids: Vec<String> = (0..n).map(|i| format!("n{i}")).collect();
    let nodes = make_nodes(&ids.iter().map(|s| s.as_str()).collect::<Vec<_>>());
    let edges: Vec<KgEdge> = (0..n).map(|i| make_edge(&ids[i], &ids[(i + 1) % n])).collect();

    let (g, _) = build_graph(&nodes, &edges);
    let (comm, k) = louvain_communities(&g);
    assert!(k >= 1 && k <= n);
    let q = ratio(modularity(&g, &comm));
    assert!(q >= 0.0, "Louvain should never produce negative modularity, got {}", q);
}

/// Multi-edges between the same pair should collapse into weight.
#[test]
fn edge_weight_from_multiplicity() {
    let nodes = make_nodes(&["a", "b", "c"]);
    let edges = vec![
        make_edge("a", "b"),
        make_edge("a", "b"),
        make_edge("b", "a"), // reversed, still collapses
        make_edge("b", "c"),
    ];
    let (g, idx) = build_graph(&nodes, &edges);
    assert_eq!(g.edge_count(), 2);

    let (a, b, c) = (*idx.get("a").unwrap(), *idx.get("b").unwrap(), *idx.get("c").unwrap());
    assert_eq!(weight_between(&g, a, b).unwrap() as f32, 3.0);
    assert_eq!(weight_between(&g, b, c).unwrap() as f32, 1.0);
}

/// Cluster labeling picks the hub node's label.
#[test]
fn cluster_labels_pick_hub() {
    // Star topology: hub "alice" + 4 leaves
    let nodes = vec![
        typed_node("alice", "Alice", "person"),
        typed_node("bob", "Bob", "person"),
        typed_node("carol", "Carol", "person"),
        typed_node("dave", "Dave", "person"),
        typed_node("proj", "Project X", "concept"),
    ];
    let edges = vec![
        make_edge("alice", "bob"),
        make_edge("alice", "carol"),
        make_edge("alice", "dave"),
        make_edge("alice", "proj"),
    ];
    let (g, idx) = build_graph(&nodes, &edges);
    let (comm, _) = louvain_communities(&g);
    let labels = label_clusters(&g, &idx, &nodes, &comm);

    // Star is one community; label should be the hub (highest degree)
    assert_eq!(labels.len(), 1);
    assert_eq!(labels[0].label, "Alice");
    assert_eq!(labels[0].node_count, 5);
    assert_eq!(labels[0].dominant_type, "person"); // 4 person > 1 concept
}

/// Empty graph doesn't panic.
#[test]
fn empty_graph() {
    let (g, _) = build_graph(&[], &[]);
    let (comm, k) = louvain_communities(&g);
    assert_eq!(k, 0);
    assert!(comm.is_empty());
}

/// Dangling edges (referencing unknown nodes) are dropped.
#[test]
fn dangling_edges_dropped() {
    let nodes = make_nodes(&["a", "b"]);
    let edges = vec![
        make_edge("a", "b"),
        make_edge("a", "ghost"), // ghost not in nodes
    ];
    let (g, _) = build_graph(&nodes, &edges);
    assert_eq!(g.edge_count(), 1);
}

#[test]
fn self_loops_are_dropped_and_small_weights_count_one() {
    let nodes = make_nodes(&["a", "b"]);
    let edges = vec![weighted_edge("a", "a", 9), weighted_edge("b", "a", 0), weighted_edge("a", "b", 4)];
    let (g, idx) = build_graph(&nodes, &edges);
    assert_eq!(g.edge_count(), 1);
    assert_eq!(weight_between(&g, *idx.get("a").unwrap(), *idx.get("b").unwrap()), Some(5));
    assert_eq!(small(&total_weight(&g)), 5);
}

#[test]
fn the_last_node_with_an_id_is_indexed() {
    let nodes = make_nodes(&["a", "b", "a"]);
    let (g, idx) = build_graph(&nodes, &[make_edge("a", "b")]);
    assert_eq!(g.node_count(), 3);
    assert_eq!(idx.get("a"), Some(&2));
    assert_eq!(idx.get("c"), None);
    assert_eq!(weight_between(&g, 1, 2), Some(1));
    assert_eq!(g.node_weight(NodeIndex::new(1)).unwrap(), "b");
}

#[test]
fn collapsing_keeps_the_total_weight() {
    let nodes = make_nodes(&["a", "b", "c"]);
    let edges = vec![
        weighted_edge("a", "b", 2),
        weighted_edge("b", "a", 3),
        weighted_edge("c", "b", 0),
        weighted_edge("c", "nowhere", 100),
    ];
    let (g, _) = build_graph(&nodes, &edges);
    assert_eq!(small(&total_weight(&g)), 2 + 3 + 1);
}

#[test]
fn isolated_nodes_stand_alone() {
    let nodes = make_nodes(&["a", "b", "c"]);
    let (g, _) = build_graph(&nodes, &[]);
    let (comm, k) = louvain_communities(&g);
    assert_eq!(k, 3);
    assert_eq!((comm[&0], comm[&1], comm[&2]), (0, 1, 2));
    assert_eq!(fraction(&modularity(&g, &comm)), (0, 1));
}

#[test]
fn communities_are_numbered_in_order_of_appearance() {
    let edges = vec![(0, 3, 1), (1, 4, 1), (2, 5, 1)];
    assert_eq!(detect_communities(edges, 6), (vec![0, 1, 2, 0, 1, 2], 3));
}

#[test]
fn unconnected_parts_stay_apart() {
    // A triangle and a path.
    let edges = vec![(0, 1, 1), (1, 2, 1), (0, 2, 1), (3, 4, 7), (4, 5, 7)];
    let (comm, _) = detect_communities(edges, 6);
    for i in 0..3 {
        for j in 3..6 {
            assert_ne!(comm[i], comm[j]);
        }
    }
}

#[test]
fn contraction_finds_groups_of_groups() {
    // A ring of 12 pairs: pairs merge first, then neighbouring pairs.
    let mut edges = Vec::new();
    for i in 0..12 {
        edges.push((2 * i, 2 * i + 1, 100));
        edges.push((2 * i + 1, (2 * i + 2) % 24, 60));
    }
    let (comm, k) = detect_communities(edges, 24);
    assert!(k < 12, "pairs of pairs should merge, got {k}");
    for i in 0..12 {
        assert_eq!(comm[2 * i], comm[2 * i + 1]);
    }
}

#[test]
fn modularity_of_given_partitions() {
    // A path of three edges of weights 1, 2 and 3.
    let nodes = make_nodes(&["a", "b", "c", "d"]);
    let edges = vec![
        weighted_edge("a", "b", 1),
        weighted_edge("b", "c", 2),
        weighted_edge("c", "d", 3),
    ];
    let (g, _) = build_graph(&nodes, &edges);
    let one: HashMap<usize, u32> = (0..4).map(|i| (i, 7)).collect();
    assert_eq!(fraction(&modularity(&g, &one)), (0, 144));
    let halves: HashMap<usize, u32> = vec![(0, 0), (1, 0), (2, 1), (3, 1)].into_iter().collect();
    // 12 * 2 * (1 + 3) - ((1 + 3)^2 + (5 + 3)^2)
    assert_eq!(fraction(&modularity(&g, &halves)), (16, 144));
    let alone: HashMap<usize, u32> = (0..4).map(|i| (i, i as u32)).collect();
    // -(1 + 9 + 25 + 9)
    assert_eq!(fraction(&modularity(&g, &alone)), (-44, 144));
}

#[test]
fn modularity_counts_a_self_loop_once_per_degree() {
    let mut g: UnGraph<String, u128> = UnGraph::new_undirected();
    let a = g.add_node("a".to_string());
    let b = g.add_node("b".to_string());
    g.add_edge(a, a, 2);
    g.add_edge(a, b, 3);
    let alone: HashMap<usize, u32> = vec![(0, 0), (1, 1)].into_iter().collect();
    // 2m = 10, degrees 5 and 3: 10 * 2 * 2 - (25 + 9)
    assert_eq!(fraction(&modularity(&g, &alone)), (6, 100));
}

#[test]
fn edges_of_the_greatest_weight_are_summed() {
    let nodes = make_nodes(&["a", "b"]);
    let edges = vec![weighted_edge("a", "b", u64::MAX), weighted_edge("b", "a", u64::MAX)];
    let (g, _) = build_graph(&nodes, &edges);
    assert_eq!(weight_between(&g, 0, 1), Some(2 * (u64::MAX as u128)));
    assert_eq!(small(&total_weight(&g)), 2 * (u64::MAX as i128));
}

/// Weights have no bound: heavy graphs split as light ones of the same shape do.
#[test]
fn heavy_graphs_split_as_light_ones() {
    let names = ["a", "b", "c", "d", "e", "f", "g", "h"];
    let shape = [(0, 1, 4), (1, 2, 1), (2, 3, 5), (3, 4, 2), (4, 5, 3), (5, 0, 1), (6, 7, 2), (1, 4, 1)];
    let graph = |unit: u128| {
        let mut g: UnGraph<String, u128> = UnGraph::new_undirected();
        let at: Vec<NodeIndex> = names.iter().map(|n| g.add_node(n.to_string())).collect();
        for (a, b, w) in shape {
            g.add_edge(at[a], at[b], w * unit);
        }
        g
    };
    let light = graph(1);
    let heavy = graph(u128::MAX / 5);
    let found = louvain_communities(&light);
    assert_eq!(louvain_communities(&heavy), found);
    let labels = label_clusters(
        &heavy,
        &build_graph(&make_nodes(&names), &[]).1,
        &make_nodes(&names),
        &found.0,
    );
    assert_eq!(labels.len(), found.1);
    // Scaling every weight leaves the quotient as it is.
    let unit = Natural::from_u128(u128::MAX / 5);
    let square = unit.times(&unit);
    let (q, r) = (modularity(&light, &found.0), modularity(&heavy, &found.0));
    assert!(r.plus.equals(&q.plus.times(&square)));
    assert!(r.minus.equals(&q.minus.times(&square)));
    assert!(r.denominator.equals(&q.denominator.times(&square)));
}

/// The hub is told apart by the last unit of weight.
#[test]
fn hubs_of_great_weight_are_exact() {
    let nodes = make_nodes(&["a", "b", "c", "d"]);
    let mut g: UnGraph<String, u128> = UnGraph::new_undirected();
    let at: Vec<NodeIndex> = nodes.iter().map(|n| g.add_node(n.id.clone())).collect();
    g.add_edge(at[0], at[1], u128::MAX);
    g.add_edge(at[1], at[2], u128::MAX);
    g.add_edge(at[2], at[3], u128::MAX);
    g.add_edge(at[2], at[3], 1);
    let one: HashMap<usize, u32> = (0..4).map(|i| (i, 0)).collect();
    let idx = build_graph(&nodes, &[]).1;
    assert_eq!(label_clusters(&g, &idx, &nodes, &one)[0].label, "c");
}

#[test]
fn clusters_are_labelled_in_order_of_their_ids() {
    let nodes = vec![
        typed_node("a", "Anna", "person"),
        typed_node("b", "Berlin", "place"),
        typed_node("c", "Car", "thing"),
        typed_node("d", "Dora", "person"),
    ];
    let edges = vec![weighted_edge("a", "b", 1), weighted_edge("c", "b", 5), weighted_edge("d", "a", 1)];
    let (g, idx) = build_graph(&nodes, &edges);
    let comm: HashMap<usize, u32> = vec![(0, 9), (1, 9), (2, 4), (3, 9)].into_iter().collect();
    let labels = label_clusters(&g, &idx, &nodes, &comm);
    assert_eq!(labels.len(), 2);
    assert_eq!((labels[0].id, labels[0].label.as_str(), labels[0].node_count), (4, "Car", 1));
    assert_eq!(labels[0].dominant_type, "thing");
    // Degrees within the graph: Anna 2, Berlin 6, Dora 1.
    assert_eq!((labels[1].id, labels[1].label.as_str(), labels[1].node_count), (9, "Berlin", 3));
    assert_eq!(labels[1].dominant_type, "person");
}

#[test]
fn groups_hold_every_member_once() {
    let comm: HashMap<usize, u32> = vec![(5, 2), (1, 0), (3, 2), (2, 7), (4, 0)].into_iter().collect();
    let groups = groups_by_cluster(&comm);
    let ids: Vec<u32> = groups.iter().map(|g| g.0).collect();
    assert_eq!(ids, vec![0, 2, 7]);
    let sorted: Vec<Vec<usize>> = groups
        .into_iter()
        .map(|mut g| {
            g.1.sort();
            g.1
        })
        .collect();
    assert_eq!(sorted, vec![vec![1, 4], vec![3, 5], vec![2]]);
}

fn value(g: &UnGraph<String, u128>, comm: &HashMap<usize, u32>) -> i128 {
    fraction(&modularity(g, comm)).0
}

#[test]
fn no_merge_of_communities_improves_and_splitting_up_is_worse() {
    let names = ["a", "b", "c", "d", "e", "f", "g", "h"];
    let nodes = make_nodes(&names);
    let edges = vec![
        weighted_edge("a", "b", 4),
        weighted_edge("b", "c", 1),
        weighted_edge("c", "d", 5),
        weighted_edge("d", "e", 2),
        weighted_edge("e", "f", 3),
        weighted_edge("f", "a", 1),
        weighted_edge("g", "h", 2),
        weighted_edge("b", "e", 1),
    ];
    let (g, _) = build_graph(&nodes, &edges);
    let (comm, k) = louvain_communities(&g);
    assert!(k > 1);
    let found = value(&g, &comm);
    assert!(found >= 0);
    for x in 0..k as u32 {
        for y in 0..x {
            let merged: HashMap<usize, u32> =
                comm.iter().map(|(&i, &c)| (i, if c == x { y } else { c })).collect();
            assert!(value(&g, &merged) <= found);
        }
    }
    let alone: HashMap<usize, u32> = (0..8).map(|i| (i, i as u32)).collect();
    assert!(value(&g, &alone) <= found);
    // Numbers are dense.
    let used: HashSet<u32> = comm.values().copied().collect();
    assert_eq!(used, (0..k as u32).collect());
}

/// Self-loops are what the sign of the modularity does not survive.
#[test]
fn self_loops_can_keep_two_nodes_apart() {
    let mut g: UnGraph<String, u128> = UnGraph::new_undirected();
    let a = g.add_node("a".to_string());
    let b = g.add_node("b".to_string());
    g.add_edge(a, a, 1);
    g.add_edge(b, b, 1);
    g.add_edge(a, b, 4);
    let (comm, k) = louvain_communities(&g);
    assert_eq!(k, 2);
    assert_ne!(comm[&0], comm[&1]);
}

#[test]
fn indices_are_positions_of_distinct_ids() {
    let nodes = make_nodes(&["x", "y", "z"]);
    let (g, idx) = build_graph(&nodes, &[make_edge("z", "x")]);
    for (p, n) in nodes.iter().enumerate() {
        assert_eq!(idx.get(&n.id), Some(&p));
        assert_eq!(g.node_weight(NodeIndex::new(p)), Some(&n.id));
    }
    assert_eq!(weight_between(&g, 0, 2), Some(1));
}

#[test]
fn louvain_is_deterministic() {
    let names = ["a", "b", "c", "d", "e", "f"];
    let edges: Vec<KgEdge> =
        (0..6).map(|i| weighted_edge(names[i], names[(i + 1) % 6], 1 + (i as u64) % 2)).collect();
    let (g, _) = build_graph(&make_nodes(&names), &edges);
    let first = louvain_communities(&g);
    for _ in 0..20 {
        assert_eq!(louvain_communities(&g), first);
    }
}
