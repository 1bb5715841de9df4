use omi_persona::knowledge_graph::{
    ExtractedEntity, ExtractedRelationship, Extraction, RebuildQuery,
};
use omi_persona::rebuild::{Memory, Rebuild, Stage};

fn memory(id: &str) -> Memory {
    Memory { id: id.to_string(), content: format!("content of {id}") }
}

fn extraction(names: &[&str], rels: &[(&str, &str)]) -> Extraction {
    Extraction {
        entities: names
            .iter()
            .map(|n| ExtractedEntity {
                name: n.to_string(),
                entity_type: "thing".to_string(),
                aliases: Vec::new(),
            })
            .collect(),
        relationships: rels
            .iter()
            .map(|(a, b)| ExtractedRelationship {
                source: a.to_string(),
                target: b.to_string(),
                relationship: "rel".to_string(),
            })
            .collect(),
    }
}

fn ids(prefix: &str, n: usize) -> Vec<String> {
    (0..n).map(|i| format!("{prefix}{i}")).collect()
}

#[test]
fn without_a_key_nothing_is_done() {
    let r = Rebuild::new(false, &RebuildQuery { limit: None });
    assert_eq!(r.stage(), Stage::Refused { status: 503 });
}

#[test]
fn a_failed_fetch_refuses() {
    let mut r = Rebuild::new(true, &RebuildQuery { limit: Some(7) });
    assert_eq!(r.stage(), Stage::Delete);
    r.on_deleted();
    assert_eq!((r.stage(), r.limit()), (Stage::Fetch, 7));
    r.on_fetched(None);
    assert_eq!(r.stage(), Stage::Refused { status: 500 });
}

#[test]
fn without_memories_nothing_is_saved() {
    let mut r = Rebuild::new(true, &RebuildQuery { limit: None });
    assert_eq!(r.limit(), 500);
    r.on_deleted();
    r.on_fetched(Some(Vec::new()));
    assert_eq!(r.stage(), Stage::Answered);
    assert_eq!(r.response().message, "No memories to process");
}

#[test]
fn every_memory_is_used_and_everything_saved() {
    let mut r = Rebuild::new(true, &RebuildQuery { limit: None });
    r.on_deleted();
    r.on_fetched(Some(vec![memory("m1"), memory("m2"), memory("m3")]));
    assert_eq!(r.stage(), Stage::Extract { at: 0 });
    assert_eq!(r.memory(0).content, "content of m1");
    r.on_extracted(Some(extraction(&["X", "Y"], &[("x", "y")])), &ids("a", 3));
    assert_eq!(r.stage(), Stage::Extract { at: 1 });
    // A failed extraction skips its memory alone.
    r.on_extracted(None, &Vec::new());
    assert_eq!(r.stage(), Stage::Extract { at: 2 });
    assert_eq!(r.memory(2).id, "m3");
    r.on_extracted(Some(extraction(&["y"], &[("X", "Y"), ("Y", "X")])), &ids("b", 3));

    assert_eq!(r.nodes().len(), 2);
    assert_eq!(r.edges().len(), 2);
    assert_eq!(r.edges()[0].memory_ids, vec!["m1".to_string(), "m3".to_string()]);
    let mut stages = Vec::new();
    while r.stage() != Stage::Answered {
        stages.push(r.stage());
        r.on_saved();
    }
    assert_eq!(
        stages,
        vec![
            Stage::SaveNode { at: 0 },
            Stage::SaveNode { at: 1 },
            Stage::SaveEdge { at: 0 },
            Stage::SaveEdge { at: 1 },
        ]
    );
    let answer = r.response();
    assert_eq!(answer.status, "completed");
    assert_eq!(answer.message, "Built graph with 2 nodes and 2 edges from 3 memories");
}

#[test]
fn memories_without_entities_give_an_empty_graph() {
    let mut r = Rebuild::new(true, &RebuildQuery { limit: None });
    r.on_deleted();
    r.on_fetched(Some(vec![memory("m")]));
    r.on_extracted(Some(extraction(&[], &[("a", "b")])), &ids("e", 1));
    assert_eq!(r.stage(), Stage::Answered);
    assert_eq!(r.response().message, "Built graph with 0 nodes and 0 edges from 1 memories");
}
