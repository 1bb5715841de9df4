//! Deduplicated edges: one for every source, label and target, with all their memories.

use crate::knowledge_graph;
use crate::knowledge_graph::{EdgeView, KnowledgeGraphEdge, NodeView};
use crate::persona;
use crate::text_lists;
use vstd::hash_map::StringHashMap;
use vstd::prelude::*;
use vstd::string::StringExecFns;

verus! {

/// Source, label and target of an edge.
pub type EdgeKey = (Seq<char>, Seq<char>, Seq<char>);

/// What edges are compared by: source, label and target.
pub open spec fn edge_key(e: EdgeView) -> EdgeKey {
    (e.source_id, e.label, e.target_id)
}

/// The position of the edge with a key.
pub open spec fn keyed_edge(edges: Seq<EdgeView>, key: EdgeKey) -> Option<int>
    decreases edges.len(),
{
    if edges.len() == 0 {
        None
    } else {
        match keyed_edge(edges.drop_last(), key) {
            Some(i) => Some(i),
            None => if edge_key(edges.last()) == key {
                Some(edges.len() - 1)
            } else {
                None
            },
        }
    }
}

/// One edge for every key, in order of first appearance, with the memories of all edges that
/// share the key.
pub open spec fn deduplicated(edges: Seq<EdgeView>) -> Seq<EdgeView>
    decreases edges.len(),
{
    if edges.len() == 0 {
        Seq::empty()
    } else {
        let before = deduplicated(edges.drop_last());
        let e = edges.last();
        match keyed_edge(before, edge_key(e)) {
            Some(i) => before.update(
                i,
                EdgeView {
                    memory_ids: text_lists::with_texts(before[i].memory_ids, e.memory_ids),
                    ..before[i]
                },
            ),
            None => before.push(e),
        }
    }
}

pub proof fn lemma_keyed_edge(edges: Seq<EdgeView>, key: EdgeKey)
    ensures
        match keyed_edge(edges, key) {
            Some(i) => 0 <= i < edges.len() && edge_key(edges[i]) == key,
            None => forall|j: int| 0 <= j < edges.len() ==> edge_key(#[trigger] edges[j]) != key,
        },
    decreases edges.len(),
{
    if edges.len() > 0 {
        let rest = edges.drop_last();
        lemma_keyed_edge(rest, key);
        assert forall|j: int| 0 <= j < rest.len() implies rest[j] == #[trigger] edges[j] by {}
    }
}

pub open spec fn distinct_keys(edges: Seq<EdgeView>) -> bool {
    forall|i: int, j: int|
        0 <= i < j < edges.len() ==> edge_key(#[trigger] edges[i]) != edge_key(#[trigger] edges[j])
}

/// No two deduplicated edges have the same key.
pub proof fn law_deduplicated_keys(edges: Seq<EdgeView>)
    ensures
        distinct_keys(deduplicated(edges)),
        deduplicated(edges).len() <= edges.len(),
    decreases edges.len(),
{
    if edges.len() > 0 {
        law_deduplicated_keys(edges.drop_last());
        let before = deduplicated(edges.drop_last());
        let e = edges.last();
        let now = deduplicated(edges);
        lemma_keyed_edge(before, edge_key(e));
        match keyed_edge(before, edge_key(e)) {
            Some(i) => {
                assert forall|j: int| 0 <= j < now.len() implies edge_key(#[trigger] now[j])
                    == edge_key(before[j]) by {}
            },
            None => {},
        }
    }
}

/// One of the edges has the key and the memory.
pub open spec fn remembers(edges: Seq<EdgeView>, key: EdgeKey, memory_id: Seq<char>) -> bool {
    exists|i: int|
        0 <= i < edges.len() && edge_key(#[trigger] edges[i]) == key
            && edges[i].memory_ids.contains(memory_id)
}

/// Deduplication loses and invents no memory: an edge with a key and a memory is there
/// afterwards if and only if it was there before.
pub proof fn law_deduplication_keeps_memories(
    edges: Seq<EdgeView>,
    key: EdgeKey,
    memory_id: Seq<char>,
)
    ensures
        remembers(deduplicated(edges), key, memory_id) <==> remembers(edges, key, memory_id),
    decreases edges.len(),
{
    if edges.len() > 0 {
        let rest = edges.drop_last();
        let before = deduplicated(rest);
        let e = edges.last();
        let now = deduplicated(edges);
        law_deduplication_keeps_memories(rest, key, memory_id);
        lemma_keyed_edge(before, edge_key(e));
        assert(edges =~= rest.push(e));
        lemma_remembers_push(rest, e, key, memory_id);
        match keyed_edge(before, edge_key(e)) {
            Some(i) => {
                text_lists::lemma_with_texts(before[i].memory_ids, e.memory_ids, memory_id);
                assert(edge_key(now[i]) == edge_key(before[i]));
                if remembers(before, key, memory_id) {
                    let j = choose|j: int|
                        0 <= j < before.len() && edge_key(#[trigger] before[j]) == key
                            && before[j].memory_ids.contains(memory_id);
                    assert(edge_key(now[j]) == key && now[j].memory_ids.contains(memory_id));
                }
                if edge_key(e) == key && e.memory_ids.contains(memory_id) {
                    assert(edge_key(now[i]) == key && now[i].memory_ids.contains(memory_id));
                }
                if remembers(now, key, memory_id) {
                    let j = choose|j: int|
                        0 <= j < now.len() && edge_key(#[trigger] now[j]) == key
                            && now[j].memory_ids.contains(memory_id);
                    if j != i {
                        assert(edge_key(before[j]) == key && before[j].memory_ids.contains(
                            memory_id,
                        ));
                    } else if !e.memory_ids.contains(memory_id) {
                        assert(edge_key(before[i]) == key && before[i].memory_ids.contains(
                            memory_id,
                        ));
                    }
                }
            },
            None => {
                lemma_remembers_push(before, e, key, memory_id);
            },
        }
    }
}

proof fn lemma_remembers_push(
    edges: Seq<EdgeView>,
    e: EdgeView,
    key: EdgeKey,
    memory_id: Seq<char>,
)
    ensures
        remembers(edges.push(e), key, memory_id) <==> remembers(edges, key, memory_id) || (edge_key(
            e,
        ) == key && e.memory_ids.contains(memory_id)),
{
    let now = edges.push(e);
    assert(now[edges.len() as int] == e);
    if remembers(edges, key, memory_id) {
        let j = choose|j: int|
            0 <= j < edges.len() && edge_key(#[trigger] edges[j]) == key
                && edges[j].memory_ids.contains(memory_id);
        assert(now[j] == edges[j]);
    }
    if remembers(now, key, memory_id) {
        let j = choose|j: int|
            0 <= j < now.len() && edge_key(#[trigger] now[j]) == key && now[j].memory_ids.contains(
                memory_id,
            );
        if j < edges.len() {
            assert(edges[j] == now[j]);
        }
    }
}

/// Deduplicating twice is deduplicating once.
pub proof fn law_deduplication_is_idempotent(edges: Seq<EdgeView>)
    ensures
        deduplicated(deduplicated(edges)) == deduplicated(edges),
{
    law_deduplicated_keys(edges);
    lemma_distinct_unchanged(deduplicated(edges));
}

proof fn lemma_distinct_unchanged(edges: Seq<EdgeView>)
    requires
        distinct_keys(edges),
    ensures
        deduplicated(edges) == edges,
    decreases edges.len(),
{
    if edges.len() > 0 {
        let rest = edges.drop_last();
        assert(distinct_keys(rest)) by {
            assert forall|i: int, j: int| 0 <= i < j < rest.len() implies edge_key(
                #[trigger] rest[i],
            ) != edge_key(#[trigger] rest[j]) by {
                assert(rest[i] == edges[i] && rest[j] == edges[j]);
            }
        }
        lemma_distinct_unchanged(rest);
        lemma_keyed_edge(rest, edge_key(edges.last()));
        if let Some(i) = keyed_edge(rest, edge_key(edges.last())) {
            assert(edges[i] == rest[i]);
            assert(edge_key(edges[i]) != edge_key(edges[edges.len() - 1]));
        }
        assert(rest.push(edges.last()) =~= edges);
    }
}

/// A key as one text: its parts, each quoted.
spec fn key_text(key: EdgeKey) -> Seq<char> {
    persona::escaped(key.0) + seq!['"'] + (persona::escaped(key.1) + seq!['"'] + persona::escaped(
        key.2,
    ) + seq!['"'])
}

/// Two quoted texts begin alike only if they are the same text.
proof fn lemma_quoted(a: Seq<char>, b: Seq<char>, x: Seq<char>, y: Seq<char>)
    requires
        persona::escaped(a) + seq!['"'] + x == persona::escaped(b) + seq!['"'] + y,
    ensures
        a == b,
        x == y,
{
    persona::law_escaped_text_is_read_back(a, x);
    persona::law_escaped_text_is_read_back(b, y);
    let head = persona::escaped(a) + seq!['"'];
    assert(x =~= (head + x).skip(head.len() as int));
    assert(y =~= (head + y).skip(head.len() as int));
}

/// Different keys have different texts.
proof fn lemma_key_text(a: EdgeKey, b: EdgeKey)
    requires
        key_text(a) == key_text(b),
    ensures
        a == b,
{
    let x = persona::escaped(a.1) + seq!['"'] + persona::escaped(a.2) + seq!['"'];
    let y = persona::escaped(b.1) + seq!['"'] + persona::escaped(b.2) + seq!['"'];
    lemma_quoted(a.0, b.0, x, y);
    let u = persona::escaped(a.2) + seq!['"'];
    let v = persona::escaped(b.2) + seq!['"'];
    assert(x =~= persona::escaped(a.1) + seq!['"'] + u);
    assert(y =~= persona::escaped(b.1) + seq!['"'] + v);
    lemma_quoted(a.1, b.1, u, v);
    assert(u =~= u + Seq::<char>::empty() && v =~= v + Seq::<char>::empty());
    lemma_quoted(a.2, b.2, Seq::empty(), Seq::empty());
}

fn key_of(e: &KnowledgeGraphEdge) -> (key: String)
    ensures
        key@ == key_text(edge_key(e@)),
{
    let mut key: String = persona::escape_literal(&e.source_id);
    key.push('"');
    key.append(persona::escape_literal(&e.label).as_str());
    key.push('"');
    key.append(persona::escape_literal(&e.target_id).as_str());
    key.push('"');
    assert(key@ =~= key_text(edge_key(e@)));
    key
}

/// Every key has its position.
spec fn positions_of(edges: Seq<EdgeView>, slots: Map<Seq<char>, usize>) -> bool {
    forall|key: EdgeKey| #[trigger] has_position(edges, slots, key)
}

spec fn has_position(edges: Seq<EdgeView>, slots: Map<Seq<char>, usize>, key: EdgeKey) -> bool {
    match keyed_edge(edges, key) {
        Some(i) => slots.contains_key(key_text(key)) && slots[key_text(key)] == i,
        None => !slots.contains_key(key_text(key)),
    }
}

proof fn lemma_keyed_same(a: Seq<EdgeView>, b: Seq<EdgeView>, key: EdgeKey)
    requires
        a.len() == b.len(),
        forall|i: int| 0 <= i < a.len() ==> edge_key(#[trigger] a[i]) == edge_key(b[i]),
    ensures
        keyed_edge(a, key) == keyed_edge(b, key),
    decreases a.len(),
{
    if a.len() > 0 {
        let ra = a.drop_last();
        let rb = b.drop_last();
        assert forall|i: int| 0 <= i < ra.len() implies edge_key(#[trigger] ra[i]) == edge_key(
            rb[i],
        ) by {
            assert(ra[i] == a[i] && rb[i] == b[i]);
        }
        lemma_keyed_same(ra, rb, key);
        assert(edge_key(a[a.len() - 1]) == edge_key(b[b.len() - 1]));
    }
}

/// Deduplicates edges with the same source, label and target, and merges their memories.
pub fn deduplicate_edges(edges: Vec<KnowledgeGraphEdge>) -> (res: Vec<KnowledgeGraphEdge>)
    ensures
        knowledge_graph::edge_views(res@) == deduplicated(knowledge_graph::edge_views(edges@)),
{
    let ghost all = knowledge_graph::edge_views(edges@);
    let mut res: Vec<KnowledgeGraphEdge> = Vec::new();
    let mut slots: StringHashMap<usize> = StringHashMap::new();
    assert(all.take(0) =~= Seq::<EdgeView>::empty());
    assert(knowledge_graph::edge_views(res@) =~= Seq::<EdgeView>::empty());
    for e in it: edges
        invariant
            knowledge_graph::edge_views(it.seq()) == all,
            knowledge_graph::edge_views(res@) == deduplicated(all.take(it.index() as int)),
            positions_of(knowledge_graph::edge_views(res@), slots@),
    {
        let ghost before = knowledge_graph::edge_views(res@);
        let ghost now = all.take(it.index() + 1);
        proof {
            assert(now.drop_last() =~= all.take(it.index() as int));
            assert(all[it.index() as int] == e@);
            assert(now.last() == e@);
            lemma_keyed_edge(before, edge_key(e@));
            assert(has_position(before, slots@, edge_key(e@)));
        }
        let ghost old_slots = slots@;
        let key: String = key_of(&e);
        let slot: Option<usize> = match slots.get(key.as_str()) {
            Some(s) => Some(*s),
            None => None,
        };
        match slot {
            Some(s) => {
                text_lists::add_texts(&mut res[s].memory_ids, &e.memory_ids);
                proof {
                    assert(knowledge_graph::edge_views(res@) =~= deduplicated(now));
                    assert forall|k: EdgeKey| #[trigger]
                        has_position(knowledge_graph::edge_views(res@), slots@, k) by {
                        assert(has_position(before, slots@, k));
                        lemma_keyed_same(knowledge_graph::edge_views(res@), before, k);
                    }
                }
            },
            None => {
                slots.insert(key, res.len());
                res.push(e);
                proof {
                    assert(knowledge_graph::edge_views(res@) =~= before.push(e@));
                    assert(before.push(e@).drop_last() =~= before);
                    assert forall|k: EdgeKey| #[trigger]
                        has_position(knowledge_graph::edge_views(res@), slots@, k) by {
                        assert(has_position(before, old_slots, k));
                        if key_text(k) == key_text(edge_key(e@)) {
                            lemma_key_text(k, edge_key(e@));
                        }
                    }
                }
            },
        }
    }
    assert(all.take(all.len() as int) =~= all);
    res
}

/// Deduplicated edges stay attached.
pub proof fn law_deduplicated_edges_attached(nodes: Seq<NodeView>, edges: Seq<EdgeView>)
    requires
        knowledge_graph::attached(nodes, edges),
    ensures
        knowledge_graph::attached(nodes, deduplicated(edges)),
    decreases edges.len(),
{
    if edges.len() > 0 {
        let rest = edges.drop_last();
        assert(knowledge_graph::attached(nodes, rest)) by {
            assert forall|k: int| 0 <= k < rest.len() implies knowledge_graph::has_id(
                nodes,
                (#[trigger] rest[k]).source_id,
            ) && knowledge_graph::has_id(nodes, rest[k].target_id) by {
                assert(rest[k] == edges[k]);
            }
        }
        law_deduplicated_edges_attached(nodes, rest);
        let before = deduplicated(rest);
        let now = deduplicated(edges);
        lemma_keyed_edge(before, edge_key(edges.last()));
        assert forall|k: int| 0 <= k < now.len() implies knowledge_graph::has_id(
            nodes,
            (#[trigger] now[k]).source_id,
        ) && knowledge_graph::has_id(nodes, now[k].target_id) by {
            if k < before.len() {
                assert(knowledge_graph::has_id(nodes, before[k].source_id));
            } else {
                assert(edges[edges.len() - 1] == now[k]);
            }
        }
    }
}

} // verus!
