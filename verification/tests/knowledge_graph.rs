use omi_persona::edge_merge::deduplicate_edges;
use omi_persona::knowledge_graph::{
    lower_entity, rebuild_response, ExtractedEntity, ExtractedRelationship, Extraction,
    GraphBuilder, KnowledgeGraphEdge, KnowledgeGraphNode, LoweredEntity, NodeType, RebuildQuery,
};
use omi_persona::zip_back::{
    analytics_edges, analytics_nodes, co_occurrence, enriched_weight, zip_scores, PairWeight,
};

fn strings(items: &[&str]) -> Vec<String> {
    items.iter().map(|s| s.to_string()).collect()
}

fn entity(name: &str, entity_type: &str, aliases: &[&str]) -> ExtractedEntity {
    ExtractedEntity {
        name: name.to_string(),
        entity_type: entity_type.to_string(),
        aliases: strings(aliases),
    }
}

fn relationship(source: &str, target: &str, label: &str) -> ExtractedRelationship {
    ExtractedRelationship {
        source: source.to_string(),
        target: target.to_string(),
        relationship: label.to_string(),
    }
}

fn edge(id: &str, source: &str, label: &str, target: &str, memories: &[&str]) -> KnowledgeGraphEdge {
    KnowledgeGraphEdge {
        id: id.to_string(),
        source_id: source.to_string(),
        target_id: target.to_string(),
        label: label.to_string(),
        memory_ids: strings(memories),
    }
}

fn node(id: &str) -> KnowledgeGraphNode {
    KnowledgeGraphNode {
        id: id.to_string(),
        label: id.to_uppercase(),
        label_lower: id.to_string(),
        node_type: NodeType::Place,
        aliases: Vec::new(),
        aliases_lower: Vec::new(),
        memory_ids: Vec::new(),
    }
}

#[test]
fn node_types_are_named() {
    for (name, t) in [
        ("person", NodeType::Person),
        ("place", NodeType::Place),
        ("organization", NodeType::Organization),
        ("thing", NodeType::Thing),
        ("concept", NodeType::Concept),
    ] {
        assert_eq!(NodeType::from_name(&name.to_string()), t);
        assert_eq!(t.name(), name);
    }
    assert_eq!(NodeType::from_name(&"Person".to_string()), NodeType::Concept);
    assert_eq!(NodeType::from_name(&String::new()), NodeType::Concept);
}

#[test]
fn entities_are_merged_by_label_and_alias() {
    let mut b = GraphBuilder::new();
    let first = Extraction {
        entities: vec![
            entity("Alice Ähre", "person", &["Ali"]),
            entity("Berlin", "place", &[]),
            entity("ALI", "person", &[]), // an alias of the first
        ],
        relationships: vec![
            relationship("ali", "BERLIN", "lives in"),
            relationship("alice ähre", "nobody", "knows"), // one end unknown
        ],
    };
    b.absorb(&"m1".to_string(), first, &strings(&["n1", "n2", "n3", "e1", "e2"]));
    assert_eq!(b.nodes.len(), 2);
    assert_eq!(b.nodes[0].id, "n1");
    assert_eq!(b.nodes[0].label, "Alice Ähre");
    assert_eq!(b.nodes[0].label_lower, "alice ähre");
    assert_eq!(b.nodes[0].aliases_lower, strings(&["ali"]));
    assert_eq!(b.nodes[0].node_type, NodeType::Person);
    assert_eq!(b.nodes[0].memory_ids, strings(&["m1"]));
    assert_eq!(b.edges.len(), 1);
    assert_eq!(b.edges[0].id, "e1");
    assert_eq!((b.edges[0].source_id.as_str(), b.edges[0].target_id.as_str()), ("n1", "n2"));
    assert_eq!(b.edges[0].label, "lives in");

    // The entity's own alias names a known label.
    let second = Extraction {
        entities: vec![entity("Spree city", "place", &["BERLIN"]), entity("Ball", "toy", &[])],
        relationships: vec![],
    };
    b.absorb(&"m2".to_string(), second, &strings(&["n4", "n5"]));
    assert_eq!(b.nodes.len(), 3);
    assert_eq!(b.nodes[1].memory_ids, strings(&["m1", "m2"]));
    assert_eq!(b.nodes[1].label, "Berlin");
    assert_eq!(b.nodes[2].id, "n5");
    assert_eq!(b.nodes[2].node_type, NodeType::Concept);
}

#[test]
fn names_are_lowered() {
    let e = lower_entity(entity("STRASSE Ç", "place", &["Ab", "ÖÄ"]), "id".to_string());
    assert_eq!(e.name_lower, "strasse ç");
    assert_eq!(e.aliases_lower, strings(&["ab", "öä"]));
    assert_eq!(e.fresh_id, "id");
}

#[test]
fn lowered_entities_can_be_added_one_by_one() {
    let mut b = GraphBuilder::new();
    let e = LoweredEntity {
        entity: entity("X", "thing", &[]),
        name_lower: "x".to_string(),
        aliases_lower: Vec::new(),
        fresh_id: "1".to_string(),
    };
    b.add_entity(&"m".to_string(), e.clone());
    b.add_entity(&"m".to_string(), e);
    assert_eq!(b.nodes.len(), 1);
    assert_eq!(b.nodes[0].memory_ids, strings(&["m"]));
}

#[test]
fn edges_are_deduplicated_and_keep_their_memories() {
    let edges = vec![
        edge("1", "a", "knows", "b", &["m1", "m2"]),
        edge("2", "b", "knows", "a", &["m3"]),
        edge("3", "a", "knows", "b", &["m2", "m4", "m4"]),
        edge("4", "a", "likes", "b", &["m1"]),
    ];
    let out = deduplicate_edges(edges);
    assert_eq!(out.len(), 3);
    assert_eq!(out.iter().map(|e| e.id.as_str()).collect::<Vec<_>>(), vec!["1", "2", "4"]);
    assert_eq!(out[0].memory_ids, strings(&["m1", "m2", "m4"]));
    let ids: Vec<String> = out.iter().map(|e| e.id.clone()).collect();
    let again = deduplicate_edges(out);
    assert_eq!(again.iter().map(|e| e.id.clone()).collect::<Vec<_>>(), ids);
    assert!(deduplicate_edges(Vec::new()).is_empty());
}

#[test]
fn edges_that_differ_in_one_part_stay_apart() {
    let out = deduplicate_edges(vec![
        edge("1", "a_b", "c", "d", &["m1"]),
        edge("2", "a", "b_c", "d", &["m2"]),
        edge("3", "a\"", "b_c", "d", &["m3"]),
        edge("4", "a", "\"b_c", "d", &["m4"]),
        edge("5", "a\"", "b_c", "d", &["m5"]),
    ]);
    let ids: Vec<&str> = out.iter().map(|e| e.id.as_str()).collect();
    assert_eq!(ids, vec!["1", "2", "3", "4"]);
    assert_eq!(out[0].memory_ids, strings(&["m1"]));
    assert_eq!(out[2].memory_ids, strings(&["m3", "m5"]));
}

#[test]
fn memory_ids_are_added_once() {
    let mut n = node("n");
    n.add_memory_id(&"m".to_string());
    n.add_memory_id(&"m".to_string());
    assert_eq!(n.memory_ids, strings(&["m"]));
    let mut e = edge("1", "a", "l", "b", &["m"]);
    e.add_memory_id(&"k".to_string());
    e.add_memory_id(&"m".to_string());
    assert_eq!(e.memory_ids, strings(&["m", "k"]));
}

#[test]
fn rebuild_answers() {
    let r = rebuild_response(0, 0, 0);
    assert_eq!((r.status.as_str(), r.message.as_str()), ("completed", "No memories to process"));
    let r = rebuild_response(12, 3, 100);
    assert_eq!(r.status, "completed");
    assert_eq!(r.message, "Built graph with 12 nodes and 3 edges from 100 memories");
    assert_eq!(RebuildQuery { limit: None }.memory_limit(), 500);
    assert_eq!(RebuildQuery { limit: Some(0) }.memory_limit(), 0);
}

#[test]
fn stored_graphs_become_analytics_input() {
    let nodes = analytics_nodes(&vec![node("p")]);
    assert_eq!(
        (nodes[0].id.as_str(), nodes[0].label.as_str(), nodes[0].node_type.as_str()),
        ("p", "P", "place")
    );
    let edges = analytics_edges(&vec![
        edge("1", "a", "l", "b", &[]),
        edge("2", "a", "k", "b", &["m1", "m2", "m3"]),
    ]);
    assert_eq!((edges[0].weight, edges[1].weight), (1, 3));
    assert_eq!((edges[1].source_id.as_str(), edges[1].target_id.as_str()), ("a", "b"));
    assert_eq!(edges[1].label, "k");
    assert_eq!(co_occurrence(&strings(&["x", "y"])), 2);
}

#[test]
fn scores_are_zipped_back_by_id() {
    let nodes = vec![node("a"), node("b"), node("c")];
    let scored =
        vec![("c".to_string(), (1, 0.5)), ("a".to_string(), (2, 0.25)), ("c".to_string(), (3, 0.75))];
    assert_eq!(
        zip_scores(&nodes, &scored, (0, 0.0)),
        vec![(2, 0.25), (0, 0.0), (3, 0.75)]
    );
}

#[test]
fn edges_get_the_weight_of_their_pair() {
    let weights = vec![
        PairWeight { source_id: "a".into(), target_id: "b".into(), weight: 7 },
        PairWeight { source_id: "B".into(), target_id: "a".into(), weight: 9 },
    ];
    assert_eq!(enriched_weight(&edge("1", "a", "l", "b", &["m"]), &weights), 7);
    assert_eq!(enriched_weight(&edge("2", "b", "l", "a", &["m"]), &weights), 7);
    // Upper case sorts in front of lower case.
    assert_eq!(enriched_weight(&edge("3", "a", "l", "B", &["m"]), &weights), 9);
    assert_eq!(enriched_weight(&edge("4", "a", "l", "z", &["m", "n"]), &weights), 2);
    assert_eq!(enriched_weight(&edge("5", "a", "l", "z", &[]), &weights), 1);
}

#[test]
fn labels_stay_distinct_and_edges_attached() {
    let mut b = GraphBuilder::new();
    for round in 0..4 {
        let m = format!("m{round}");
        let extraction = Extraction {
            entities: vec![
                entity("One", "thing", &["Uno"]),
                entity(&format!("Two {round}"), "thing", &["one"]),
                entity(&format!("Three {round}"), "person", &[]),
            ],
            relationships: vec![
                relationship("uno", &format!("three {round}"), "r"),
                relationship("two 0", "One", "r"),
            ],
        };
        let ids: Vec<String> = (0..5).map(|i| format!("{m}-{i}")).collect();
        b.absorb(&m, extraction, &ids);
        let mut labels: Vec<&String> = b.nodes.iter().map(|n| &n.label_lower).collect();
        let count = labels.len();
        labels.sort();
        labels.dedup();
        assert_eq!(labels.len(), count);
    }
    // "Two n" is an alias of nothing, but names "one" as its own alias.
    assert_eq!(b.nodes.len(), 1 + 4);
    assert_eq!(b.nodes[0].memory_ids, strings(&["m0", "m1", "m2", "m3"]));
    let edges = deduplicate_edges(b.edges);
    assert_eq!(edges.len(), 4);
    for e in &edges {
        assert!(b.nodes.iter().any(|n| n.id == e.source_id));
        assert!(b.nodes.iter().any(|n| n.id == e.target_id));
    }
}
