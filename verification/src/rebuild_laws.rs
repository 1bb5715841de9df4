//! What a rebuild does step by step, and what the rebuilt graph has of every memory.

use crate::edge_merge;
use crate::knowledge_graph;
use crate::knowledge_graph::{EdgeView, Extraction, NodeView, RelationshipView};
use crate::memory_laws;
use crate::rebuild;
use crate::rebuild::{Extracted, MemoryView, RebuildView, Stage};
use vstd::prelude::*;

verus! {

/// A rebuild begins with nothing, by deleting what is there; without a key it is refused as
/// unavailable. Fetching follows whatever came of the deletion.
pub proof fn law_rebuild_begins_empty(has_key: bool, limit: int, v: RebuildView)
    ensures
        ({
            let s = rebuild::started(has_key, limit);
            &&& s.stage == if has_key {
                Stage::Delete
            } else {
                Stage::Refused { status: 503 }
            }
            &&& s.limit == limit
            &&& s.memories.len() == 0 && s.nodes.len() == 0 && s.edges.len() == 0
        }),
        ({
            let d = rebuild::deleted(v);
            &&& d.stage == Stage::Fetch
            &&& d.limit == v.limit
            &&& d.memories == v.memories && d.nodes == v.nodes && d.edges == v.edges
        }),
{
}

/// All fetched memories are kept, in order, and the first is next; without any the answer is due,
/// and a failure refuses the request.
pub proof fn law_fetched_memories_are_kept(v: RebuildView, memories: Option<Seq<MemoryView>>)
    ensures
        ({
            let w = rebuild::fetched(v, memories);
            &&& w.nodes == v.nodes && w.edges == v.edges && w.limit == v.limit
            &&& match memories {
                Some(list) => w.memories == list && w.stage == if list.len() > 0 {
                    Stage::Extract { at: 0 }
                } else {
                    Stage::Answered
                },
                None => w.stage == (Stage::Refused { status: 500 }),
            }
        }),
{
}

/// What is to be saved first: the nodes, then the edges; where there are none, nothing.
pub open spec fn first_to_save(nodes: Seq<NodeView>, edges: Seq<EdgeView>) -> Stage {
    if nodes.len() > 0 {
        Stage::SaveNode { at: 0 }
    } else if edges.len() > 0 {
        Stage::SaveEdge { at: 0 }
    } else {
        Stage::Answered
    }
}

/// The entities of a memory become nodes with that memory, then its relationships become edges
/// between the nodes that there are now; where the extraction failed, nothing changes. The next
/// memory follows, and behind the last one the edges are deduplicated and saving begins.
pub proof fn law_extractions_go_by_memory(v: RebuildView, x: Extracted, at: usize)
    requires
        v.stage == (Stage::Extract { at }),
        at < v.memories.len() <= usize::MAX,
    ensures
        ({
            let w = rebuild::extracted(v, x);
            let id = v.memories[at as int].0;
            let nodes = match x {
                Some(found) => knowledge_graph::after_entities(v.nodes, id, found.0),
                None => v.nodes,
            };
            let edges = match x {
                Some(found) => knowledge_graph::after_relationships(nodes, v.edges, id, found.1),
                None => v.edges,
            };
            &&& w.memories == v.memories && w.limit == v.limit
            &&& w.nodes == nodes
            &&& if at + 1 < v.memories.len() {
                w.edges == edges && w.stage == (Stage::Extract { at: (at + 1) as usize })
            } else {
                w.edges == edge_merge::deduplicated(edges) && w.stage == first_to_save(
                    w.nodes,
                    w.edges,
                )
            }
        }),
{
}

/// Saving goes through the nodes and then through the edges, one by one, and changes neither.
pub proof fn law_saving_goes_one_by_one(v: RebuildView, at: usize)
    requires
        v.nodes.len() <= usize::MAX,
        v.edges.len() <= usize::MAX,
    ensures
        ({
            let w = rebuild::saved(v);
            &&& w.nodes == v.nodes && w.edges == v.edges && w.memories == v.memories
            &&& v.stage == (Stage::SaveNode { at }) ==> w.stage == if at + 1 < v.nodes.len() {
                Stage::SaveNode { at: (at + 1) as usize }
            } else if v.edges.len() > 0 {
                Stage::SaveEdge { at: 0 }
            } else {
                Stage::Answered
            }
            &&& v.stage == (Stage::SaveEdge { at }) ==> w.stage == if at + 1 < v.edges.len() {
                Stage::SaveEdge { at: (at + 1) as usize }
            } else {
                Stage::Answered
            }
        }),
{
}

/// Entities and relationships are taken in order, in lower case, with the ids in order: first
/// those of the entities, then those of the relationships.
pub proof fn law_extractions_are_lowered(x: Option<Extraction>, ids: Seq<Seq<char>>)
    ensures
        x is None <==> rebuild::lowered(x, ids) is None,
        x matches Some(e) ==> {
            let found = rebuild::lowered(x, ids)->Some_0;
            &&& found.0.len() == e.entities.len()
            &&& found.1.len() == e.relationships.len()
            &&& forall|i: int|
                0 <= i < e.entities.len() ==> #[trigger] found.0[i]
                    == knowledge_graph::lowered_entity(e.entities[i], ids[i])
            &&& forall|i: int|
                0 <= i < e.relationships.len() ==> #[trigger] found.1[i]
                    == knowledge_graph::lowered_relationship(
                    e.relationships[i],
                    ids[e.entities.len() + i],
                )
        },
{
}

// ---------------------------------------------------------------------------
// The whole rebuild
// ---------------------------------------------------------------------------

/// A rebuild that fetched memories, behind a run of extractions.
pub open spec fn rebuilt(
    limit: int,
    memories: Seq<MemoryView>,
    found: Seq<Extracted>,
) -> RebuildView {
    rebuild::after_extractions(
        rebuild::fetched(rebuild::deleted(rebuild::started(true, limit)), Some(memories)),
        found,
    )
}

/// The nodes and edges before deduplication.
spec fn is_graph(
    v: RebuildView,
    memories: Seq<MemoryView>,
    found: Seq<Extracted>,
    edges: Seq<EdgeView>,
) -> bool {
    &&& v.memories == memories
    &&& if found.len() < memories.len() {
        v.edges == edges && v.stage == (Stage::Extract { at: found.len() as usize })
    } else {
        v.edges == edge_merge::deduplicated(edges)
    }
}

/// The edges that a run of extractions gives, before deduplication.
spec fn raw_edges(limit: int, memories: Seq<MemoryView>, found: Seq<Extracted>) -> Seq<EdgeView>
    decreases found.len(),
{
    if found.len() == 0 {
        Seq::empty()
    } else {
        let before = raw_edges(limit, memories, found.drop_last());
        match found.last() {
            Some(x) => knowledge_graph::after_relationships(
                rebuilt(limit, memories, found).nodes,
                before,
                memories[found.len() - 1].0,
                x.1,
            ),
            None => before,
        }
    }
}

proof fn lemma_rebuilt(limit: int, memories: Seq<MemoryView>, found: Seq<Extracted>)
    requires
        0 < memories.len() <= usize::MAX,
        found.len() <= memories.len(),
    ensures
        is_graph(
            rebuilt(limit, memories, found),
            memories,
            found,
            raw_edges(limit, memories, found),
        ),
    decreases found.len(),
{
    if found.len() > 0 {
        let rest = found.drop_last();
        lemma_rebuilt(limit, memories, rest);
        let v = rebuilt(limit, memories, rest);
        law_extractions_go_by_memory(v, found.last(), rest.len() as usize);
        assert(rebuilt(limit, memories, found) == rebuild::extracted(v, found.last()));
    }
}

proof fn lemma_nodes_step(limit: int, memories: Seq<MemoryView>, found: Seq<Extracted>)
    requires
        0 < memories.len() <= usize::MAX,
        0 < found.len() <= memories.len(),
    ensures
        rebuilt(limit, memories, found).nodes == match found.last() {
            Some(x) => knowledge_graph::after_entities(
                rebuilt(limit, memories, found.drop_last()).nodes,
                memories[found.len() - 1].0,
                x.0,
            ),
            None => rebuilt(limit, memories, found.drop_last()).nodes,
        },
{
    let rest = found.drop_last();
    lemma_rebuilt(limit, memories, rest);
    let v = rebuilt(limit, memories, rest);
    law_extractions_go_by_memory(v, found.last(), rest.len() as usize);
    assert(rebuilt(limit, memories, found) == rebuild::extracted(v, found.last()));
}

/// Whatever was extracted from any memory is in the graph: every entity has a node that is the
/// entity's and has the memory it was found in.
pub proof fn law_rebuilt_graph_has_every_entity(
    limit: int,
    memories: Seq<MemoryView>,
    found: Seq<Extracted>,
    k: int,
    e: int,
)
    requires
        0 < memories.len() <= usize::MAX,
        found.len() <= memories.len(),
        0 <= k < found.len(),
        found[k] is Some,
        0 <= e < found[k]->Some_0.0.len(),
    ensures
        ({
            let nodes = rebuilt(limit, memories, found).nodes;
            exists|i: int|
                {
                    &&& 0 <= i < nodes.len()
                    &&& memory_laws::meant(#[trigger] nodes[i], found[k]->Some_0.0[e])
                    &&& nodes[i].memory_ids.contains(memories[k].0)
                }
        }),
    decreases found.len(),
{
    let rest = found.drop_last();
    let entity = found[k]->Some_0.0[e];
    let before = rebuilt(limit, memories, rest).nodes;
    let nodes = rebuilt(limit, memories, found).nodes;
    lemma_nodes_step(limit, memories, found);
    if k < rest.len() {
        assert(rest[k] == found[k]);
        law_rebuilt_graph_has_every_entity(limit, memories, rest, k, e);
        let i = choose|i: int|
            {
                &&& 0 <= i < before.len()
                &&& memory_laws::meant(#[trigger] before[i], entity)
                &&& before[i].memory_ids.contains(memories[k].0)
            };
        match found.last() {
            Some(x) => {
                let id = memories[found.len() - 1].0;
                knowledge_graph::law_nodes_are_kept(before, id, x.0, i);
                assert(nodes[i].memory_ids.contains(memories[k].0)) by {
                    let list = before[i].memory_ids;
                    let a = choose|a: int| 0 <= a < list.len() && list[a] == memories[k].0;
                    assert(nodes[i].memory_ids[a] == memories[k].0);
                }
                assert(nodes[i].label_lower == before[i].label_lower);
                assert(nodes[i].aliases_lower == before[i].aliases_lower);
                assert(memory_laws::meant(nodes[i], entity)) by {
                    memory_laws::lemma_meant_kept(before[i], nodes[i], entity);
                }
            },
            None => {
                assert(memory_laws::meant(nodes[i], entity));
            },
        }
    } else {
        let x = found.last()->Some_0;
        memory_laws::law_every_entity_has_a_node(before, memories[k].0, x.0, e);
    }
}

/// The edges that are there stay where they are.
proof fn lemma_raw_prefix(
    limit: int,
    memories: Seq<MemoryView>,
    found: Seq<Extracted>,
    t: int,
    j: int,
)
    requires
        0 <= t <= found.len(),
        0 <= j < raw_edges(limit, memories, found.take(t)).len(),
    ensures
        j < raw_edges(limit, memories, found).len(),
        raw_edges(limit, memories, found)[j] == raw_edges(limit, memories, found.take(t))[j],
    decreases found.len(),
{
    if t == found.len() {
        assert(found.take(t) =~= found);
    } else {
        let rest = found.drop_last();
        assert(rest.take(t) =~= found.take(t));
        lemma_raw_prefix(limit, memories, rest, t, j);
        match found.last() {
            Some(x) => {
                memory_laws::law_relationships_in_order(
                    rebuilt(limit, memories, found).nodes,
                    raw_edges(limit, memories, rest),
                    memories[found.len() - 1].0,
                    x.1,
                    0,
                );
            },
            None => {},
        }
    }
}

/// A relationship is in a list of edges: one of them leads from the first bearer of its source
/// name to the first bearer of its target name, with its label and a memory.
pub open spec fn recorded(
    nodes: Seq<NodeView>,
    edges: Seq<EdgeView>,
    memory_id: Seq<char>,
    r: RelationshipView,
) -> bool {
    exists|j: int, s: int, t: int|
        {
            &&& 0 <= j < edges.len()
            &&& #[trigger] memory_laws::first_bearer(nodes, r.source_lower, s)
            &&& #[trigger] memory_laws::first_bearer(nodes, r.target_lower, t)
            &&& (#[trigger] edges[j]).source_id == nodes[s].id
            &&& edges[j].target_id == nodes[t].id
            &&& edges[j].label == r.relationship
            &&& edges[j].memory_ids.contains(memory_id)
        }
}

proof fn lemma_recorded_raw(
    limit: int,
    memories: Seq<MemoryView>,
    found: Seq<Extracted>,
    k: int,
    q: int,
) -> (j: int)
    requires
        0 < memories.len() <= usize::MAX,
        found.len() <= memories.len(),
        0 <= k < found.len(),
        found[k] is Some,
        0 <= q < found[k]->Some_0.1.len(),
        memory_laws::borne(
            rebuilt(limit, memories, found.take(k + 1)).nodes,
            found[k]->Some_0.1[q].source_lower,
        ),
        memory_laws::borne(
            rebuilt(limit, memories, found.take(k + 1)).nodes,
            found[k]->Some_0.1[q].target_lower,
        ),
    ensures
        0 <= j < raw_edges(limit, memories, found).len(),
        memory_laws::says(
            rebuilt(limit, memories, found.take(k + 1)).nodes,
            raw_edges(limit, memories, found)[j],
            memories[k].0,
            found[k]->Some_0.1[q],
        ),
{
    let upto = found.take(k + 1);
    let rels = found[k]->Some_0.1;
    let nodes = rebuilt(limit, memories, upto).nodes;
    assert(upto.last() == found[k]);
    let before = raw_edges(limit, memories, upto.drop_last());
    memory_laws::law_relationships_in_order(nodes, before, memories[k].0, rels, q);
    let j = before.len() + memory_laws::joining(nodes, rels.take(q));
    assert(raw_edges(limit, memories, upto) == knowledge_graph::after_relationships(
        nodes,
        before,
        memories[k].0,
        rels,
    ));
    lemma_raw_prefix(limit, memories, found, k + 1, j as int);
    j as int
}

/// Every relationship of every memory between two names that are known by then is in the graph
/// when all memories are done, with the memory it was found in.
pub proof fn law_rebuilt_graph_has_every_relationship(
    limit: int,
    memories: Seq<MemoryView>,
    found: Seq<Extracted>,
    k: int,
    q: int,
)
    requires
        0 < memories.len() <= usize::MAX,
        found.len() == memories.len(),
        0 <= k < found.len(),
        found[k] is Some,
        0 <= q < found[k]->Some_0.1.len(),
        memory_laws::borne(
            rebuilt(limit, memories, found.take(k + 1)).nodes,
            found[k]->Some_0.1[q].source_lower,
        ),
        memory_laws::borne(
            rebuilt(limit, memories, found.take(k + 1)).nodes,
            found[k]->Some_0.1[q].target_lower,
        ),
    ensures
        recorded(
            rebuilt(limit, memories, found.take(k + 1)).nodes,
            rebuilt(limit, memories, found).edges,
            memories[k].0,
            found[k]->Some_0.1[q],
        ),
{
    let nodes = rebuilt(limit, memories, found.take(k + 1)).nodes;
    let raw = raw_edges(limit, memories, found);
    let r = found[k]->Some_0.1[q];
    let id = memories[k].0;
    let i = lemma_recorded_raw(limit, memories, found, k, q);
    lemma_rebuilt(limit, memories, found);
    let edges = rebuilt(limit, memories, found).edges;
    memory_laws::law_merged_edges_say_the_same(raw, i);
    let j = choose|j: int|
        0 <= j < edge_merge::deduplicated(raw).len() && memory_laws::alike(
            #[trigger] edge_merge::deduplicated(raw)[j],
            raw[i],
        );
    memory_laws::law_merged_edges_have_all_memories(raw, j, id);
    assert(raw[i].memory_ids[0] == id);
    assert(memory_laws::alike(raw[i], edges[j]) && raw[i].memory_ids.contains(id));
    let s = choose|s: int| #[trigger]
        memory_laws::first_bearer(nodes, r.source_lower, s) && raw[i].source_id == nodes[s].id;
    let t = choose|t: int| #[trigger]
        memory_laws::first_bearer(nodes, r.target_lower, t) && raw[i].target_id == nodes[t].id;
    assert(memory_laws::first_bearer(nodes, r.source_lower, s));
    assert(memory_laws::first_bearer(nodes, r.target_lower, t));
    assert(edges[j].source_id == nodes[s].id);
}

} // verus!
