//! What becomes of the entities and relationships of memories, told by the names that they bear.

use crate::edge_merge;
use crate::knowledge_graph;
use crate::knowledge_graph::{
    EdgeView, EntityView, ExtractedEntity, ExtractedRelationship, NodeType, NodeView,
    RelationshipView,
};
use crate::text_lists;
use vstd::prelude::*;

verus! {

// ---------------------------------------------------------------------------
// Relationships
// ---------------------------------------------------------------------------

/// A node bears a lower-case name: it is its label, or one of its aliases.
pub open spec fn bears(n: NodeView, name: Seq<char>) -> bool {
    n.label_lower == name || exists|a: int|
        0 <= a < n.aliases_lower.len() && #[trigger] n.aliases_lower[a] == name
}

/// Some node bears a lower-case name.
pub open spec fn borne(nodes: Seq<NodeView>, name: Seq<char>) -> bool {
    exists|i: int| 0 <= i < nodes.len() && bears(#[trigger] nodes[i], name)
}

/// The node at `i` is the first that bears a lower-case name.
pub open spec fn first_bearer(nodes: Seq<NodeView>, name: Seq<char>, i: int) -> bool {
    &&& 0 <= i < nodes.len()
    &&& bears(nodes[i], name)
    &&& forall|j: int| 0 <= j < i ==> !bears(#[trigger] nodes[j], name)
}

proof fn lemma_bears(n: NodeView, name: Seq<char>)
    ensures
        bears(n, name) <==> knowledge_graph::known_as(n, name),
{
    if n.aliases_lower.contains(name) {
        let a = choose|a: int| 0 <= a < n.aliases_lower.len() && n.aliases_lower[a] == name;
        assert(n.aliases_lower[a] == name);
    }
}

/// The first node that bears a name is found, and none where no node bears it.
pub proof fn law_names_are_found(nodes: Seq<NodeView>, name: Seq<char>)
    ensures
        match knowledge_graph::named_node(nodes, name) {
            Some(i) => first_bearer(nodes, name, i),
            None => !borne(nodes, name),
        },
{
    knowledge_graph::lemma_named_node(nodes, name);
    assert forall|i: int| 0 <= i < nodes.len() implies (bears(#[trigger] nodes[i], name)
        <==> knowledge_graph::known_as(nodes[i], name)) by {
        lemma_bears(nodes[i], name);
    }
}

/// A relationship between two known names adds exactly one edge: from a node that bears the
/// source name to one that bears the target name, the first ones that do, with the label of the
/// relationship and the one memory. Any other relationship adds nothing.
pub proof fn law_relationships_become_edges(
    nodes: Seq<NodeView>,
    edges: Seq<EdgeView>,
    memory_id: Seq<char>,
    r: RelationshipView,
)
    ensures
        ({
            let after = knowledge_graph::after_relationship(nodes, edges, memory_id, r);
            if borne(nodes, r.source_lower) && borne(nodes, r.target_lower) {
                &&& after.len() == edges.len() + 1
                &&& forall|k: int| 0 <= k < edges.len() ==> #[trigger] after[k] == edges[k]
                &&& exists|s: int, t: int|
                    {
                        &&& #[trigger] first_bearer(nodes, r.source_lower, s)
                        &&& #[trigger] first_bearer(nodes, r.target_lower, t)
                        &&& after.last().source_id == nodes[s].id
                        &&& after.last().target_id == nodes[t].id
                    }
                &&& after.last().id == r.fresh_id
                &&& after.last().label == r.relationship
                &&& after.last().memory_ids == seq![memory_id]
            } else {
                after == edges
            }
        }),
{
    law_names_are_found(nodes, r.source_lower);
    law_names_are_found(nodes, r.target_lower);
    match (
        knowledge_graph::named_node(nodes, r.source_lower),
        knowledge_graph::named_node(nodes, r.target_lower),
    ) {
        (Some(s), Some(t)) => {
            assert(first_bearer(nodes, r.source_lower, s));
            assert(first_bearer(nodes, r.target_lower, t));
            assert(borne(nodes, r.source_lower));
            assert(borne(nodes, r.target_lower));
        },
        _ => {},
    }
}

/// How many relationships have two known names.
pub open spec fn joining(nodes: Seq<NodeView>, rels: Seq<RelationshipView>) -> nat
    decreases rels.len(),
{
    if rels.len() == 0 {
        0
    } else {
        joining(nodes, rels.drop_last()) + if borne(nodes, rels.last().source_lower) && borne(
            nodes,
            rels.last().target_lower,
        ) {
            1nat
        } else {
            0nat
        }
    }
}

/// An edge says what a relationship of a memory says.
pub open spec fn says(
    nodes: Seq<NodeView>,
    e: EdgeView,
    memory_id: Seq<char>,
    r: RelationshipView,
) -> bool {
    &&& exists|s: int| #[trigger]
        first_bearer(nodes, r.source_lower, s) && e.source_id == nodes[s].id
    &&& exists|t: int| #[trigger]
        first_bearer(nodes, r.target_lower, t) && e.target_id == nodes[t].id
    &&& e.id == r.fresh_id
    &&& e.label == r.relationship
    &&& e.memory_ids == seq![memory_id]
}

/// The relationships of a memory add one edge for each of them that has two known names, in
/// order, behind the edges that were there: the edge of relationship `q` stands where the
/// joining relationships in front of it leave off.
pub proof fn law_relationships_in_order(
    nodes: Seq<NodeView>,
    edges: Seq<EdgeView>,
    memory_id: Seq<char>,
    rels: Seq<RelationshipView>,
    q: int,
)
    ensures
        ({
            let after = knowledge_graph::after_relationships(nodes, edges, memory_id, rels);
            &&& after.len() == edges.len() + joining(nodes, rels)
            &&& forall|k: int| 0 <= k < edges.len() ==> #[trigger] after[k] == edges[k]
            &&& 0 <= q < rels.len() && borne(nodes, rels[q].source_lower) && borne(
                nodes,
                rels[q].target_lower,
            ) ==> {
                let at = edges.len() + joining(nodes, rels.take(q));
                at < after.len() && says(nodes, after[at as int], memory_id, rels[q])
            }
        }),
    decreases rels.len(),
{
    if rels.len() > 0 {
        let rest = rels.drop_last();
        let before = knowledge_graph::after_relationships(nodes, edges, memory_id, rest);
        law_relationships_in_order(nodes, edges, memory_id, rest, q);
        law_relationships_become_edges(nodes, before, memory_id, rels.last());
        if 0 <= q < rest.len() {
            assert(rest[q] == rels[q]);
            assert(rest.take(q) =~= rels.take(q));
        } else if q == rest.len() {
            assert(rels.take(q) =~= rest);
        }
    }
}

// ---------------------------------------------------------------------------
// Entities
// ---------------------------------------------------------------------------

/// A node is the entity's: it bears the entity's name, or its label is an alias of the entity.
pub open spec fn meant(n: NodeView, e: EntityView) -> bool {
    bears(n, e.name_lower) || exists|a: int|
        0 <= a < e.aliases_lower.len() && #[trigger] e.aliases_lower[a] == n.label_lower
}

proof fn lemma_meant(n: NodeView, e: EntityView)
    ensures
        meant(n, e) <==> knowledge_graph::stands_for(n, e),
{
    lemma_bears(n, e.name_lower);
    if e.aliases_lower.contains(n.label_lower) {
        let a = choose|a: int|
            0 <= a < e.aliases_lower.len() && e.aliases_lower[a] == n.label_lower;
        assert(e.aliases_lower[a] == n.label_lower);
    }
}

/// The node at `i` is the first that is the entity's.
pub open spec fn first_meant(nodes: Seq<NodeView>, e: EntityView, i: int) -> bool {
    &&& 0 <= i < nodes.len()
    &&& meant(nodes[i], e)
    &&& forall|j: int| 0 <= j < i ==> !meant(#[trigger] nodes[j], e)
}

/// A node has got a memory, once, and is otherwise as it was.
pub open spec fn got_memory(before: NodeView, after: NodeView, memory_id: Seq<char>) -> bool {
    &&& after.id == before.id
    &&& after.label == before.label
    &&& after.label_lower == before.label_lower
    &&& after.node_type == before.node_type
    &&& after.aliases == before.aliases
    &&& after.aliases_lower == before.aliases_lower
    &&& if exists|k: int|
        0 <= k < before.memory_ids.len() && #[trigger] before.memory_ids[k] == memory_id {
        after.memory_ids == before.memory_ids
    } else {
        after.memory_ids == before.memory_ids.push(memory_id)
    }
}

/// An entity that a node is for gives this node, the first such, the memory, and changes nothing
/// else. Any other entity adds exactly one node, which has its names, its type and the memory.
pub proof fn law_entities_become_nodes(
    nodes: Seq<NodeView>,
    memory_id: Seq<char>,
    e: EntityView,
)
    ensures
        ({
            let after = knowledge_graph::after_entity(nodes, memory_id, e);
            if exists|i: int| 0 <= i < nodes.len() && meant(#[trigger] nodes[i], e) {
                &&& after.len() == nodes.len()
                &&& exists|i: int| #[trigger]
                    first_meant(nodes, e, i) && got_memory(nodes[i], after[i], memory_id)
                &&& forall|j: int|
                    0 <= j < nodes.len() && !first_meant(nodes, e, j) ==> #[trigger] after[j]
                        == nodes[j]
            } else {
                &&& after.len() == nodes.len() + 1
                &&& forall|j: int| 0 <= j < nodes.len() ==> #[trigger] after[j] == nodes[j]
                &&& after.last().id == e.fresh_id
                &&& after.last().label == e.name
                &&& after.last().label_lower == e.name_lower
                &&& after.last().node_type == NodeType::named(e.entity_type)
                &&& after.last().aliases == e.aliases
                &&& after.last().aliases_lower == e.aliases_lower
                &&& after.last().memory_ids == seq![memory_id]
            }
        }),
{
    knowledge_graph::lemma_entity_node(nodes, e);
    assert forall|i: int| 0 <= i < nodes.len() implies (meant(#[trigger] nodes[i], e)
        <==> knowledge_graph::stands_for(nodes[i], e)) by {
        lemma_meant(nodes[i], e);
    }
    let after = knowledge_graph::after_entity(nodes, memory_id, e);
    match knowledge_graph::entity_node(nodes, e) {
        Some(i) => {
            assert(meant(nodes[i], e));
            assert(first_meant(nodes, e, i));
            let list = nodes[i].memory_ids;
            if list.contains(memory_id) {
                let k = choose|k: int| 0 <= k < list.len() && list[k] == memory_id;
                assert(nodes[i].memory_ids[k] == memory_id);
            }
            assert(got_memory(nodes[i], after[i], memory_id));
        },
        None => {},
    }
}

/// Every entity of a memory has a node afterwards that is the entity's and has the memory.
pub proof fn law_every_entity_has_a_node(
    nodes: Seq<NodeView>,
    memory_id: Seq<char>,
    entities: Seq<EntityView>,
    k: int,
)
    requires
        0 <= k < entities.len(),
    ensures
        ({
            let after = knowledge_graph::after_entities(nodes, memory_id, entities);
            exists|i: int|
                {
                    &&& 0 <= i < after.len()
                    &&& meant(#[trigger] after[i], entities[k])
                    &&& after[i].memory_ids.contains(memory_id)
                }
        }),
    decreases entities.len(),
{
    let rest = entities.drop_last();
    let e = entities.last();
    let before = knowledge_graph::after_entities(nodes, memory_id, rest);
    let after = knowledge_graph::after_entities(nodes, memory_id, entities);
    law_entities_become_nodes(before, memory_id, e);
    if k < rest.len() {
        law_every_entity_has_a_node(nodes, memory_id, rest, k);
        let i = choose|i: int|
            {
                &&& 0 <= i < before.len()
                &&& meant(#[trigger] before[i], rest[k])
                &&& before[i].memory_ids.contains(memory_id)
            };
        assert(rest[k] == entities[k]);
        if first_meant(before, e, i) && exists|j: int|
            0 <= j < before.len() && meant(#[trigger] before[j], e) {
            lemma_one_first(before, e, i);
            assert(got_memory(before[i], after[i], memory_id));
            let a = choose|a: int|
                0 <= a < before[i].memory_ids.len() && before[i].memory_ids[a] == memory_id;
            assert(before[i].memory_ids[a] == memory_id);
            assert(after[i].memory_ids == before[i].memory_ids);
        } else {
            if first_meant(before, e, i) {
                assert(meant(before[i], e));
            }
            assert(after[i] == before[i]);
        }
        lemma_meant_kept(before[i], after[i], entities[k]);
        assert(meant(after[i], entities[k]) && after[i].memory_ids.contains(memory_id));
    } else if exists|j: int| 0 <= j < before.len() && meant(#[trigger] before[j], e) {
        let i = choose|i: int| #[trigger]
            first_meant(before, e, i) && got_memory(before[i], after[i], memory_id);
        lemma_meant_kept(before[i], after[i], e);
        if after[i].memory_ids == before[i].memory_ids.push(memory_id) {
            assert(after[i].memory_ids.last() == memory_id);
        }
        assert(after[i].memory_ids.contains(memory_id));
        assert(meant(after[i], entities[k]));
    } else {
        let i = after.len() - 1;
        assert(after[i].memory_ids[0] == memory_id);
        assert(after[i].memory_ids.contains(memory_id));
        assert(meant(after[i], entities[k]));
    }
}

proof fn lemma_one_first(nodes: Seq<NodeView>, e: EntityView, i: int)
    requires
        first_meant(nodes, e, i),
    ensures
        forall|j: int| #[trigger] first_meant(nodes, e, j) ==> j == i,
{
    assert forall|j: int| #[trigger] first_meant(nodes, e, j) implies j == i by {
        if j < i {
            assert(!meant(nodes[j], e));
        } else if i < j {
            assert(!meant(nodes[i], e));
        }
    }
}

pub proof fn lemma_meant_kept(before: NodeView, after: NodeView, e: EntityView)
    requires
        meant(before, e),
        after.label_lower == before.label_lower,
        after.aliases_lower == before.aliases_lower,
    ensures
        meant(after, e),
{
    lemma_meant(before, e);
    lemma_meant(after, e);
}

/// Nodes come from entities alone: those that were there keep their places, and each new one has
/// the id, the names and the type of one of the entities.
pub proof fn law_new_nodes_are_entities(
    nodes: Seq<NodeView>,
    memory_id: Seq<char>,
    entities: Seq<EntityView>,
    i: int,
)
    ensures
        ({
            let after = knowledge_graph::after_entities(nodes, memory_id, entities);
            &&& nodes.len() <= after.len() <= nodes.len() + entities.len()
            &&& nodes.len() <= i < after.len() ==> exists|k: int|
                {
                    &&& 0 <= k < entities.len()
                    &&& after[i].id == (#[trigger] entities[k]).fresh_id
                    &&& after[i].label == entities[k].name
                    &&& after[i].label_lower == entities[k].name_lower
                    &&& after[i].node_type == NodeType::named(entities[k].entity_type)
                    &&& after[i].aliases == entities[k].aliases
                    &&& after[i].aliases_lower == entities[k].aliases_lower
                    &&& after[i].memory_ids == seq![memory_id]
                }
        }),
    decreases entities.len(),
{
    if entities.len() > 0 {
        let rest = entities.drop_last();
        let before = knowledge_graph::after_entities(nodes, memory_id, rest);
        let after = knowledge_graph::after_entities(nodes, memory_id, entities);
        let e = entities.last();
        law_new_nodes_are_entities(nodes, memory_id, rest, i);
        law_entities_become_nodes(before, memory_id, e);
        if nodes.len() <= i < before.len() {
            let k = choose|k: int|
                {
                    &&& 0 <= k < rest.len()
                    &&& before[i].id == (#[trigger] rest[k]).fresh_id
                    &&& before[i].label == rest[k].name
                    &&& before[i].label_lower == rest[k].name_lower
                    &&& before[i].node_type == NodeType::named(rest[k].entity_type)
                    &&& before[i].aliases == rest[k].aliases
                    &&& before[i].aliases_lower == rest[k].aliases_lower
                    &&& before[i].memory_ids == seq![memory_id]
                };
            assert(entities[k] == rest[k]);
            if exists|j: int| 0 <= j < before.len() && meant(#[trigger] before[j], e) {
                if first_meant(before, e, i) {
                    lemma_one_first(before, e, i);
                    assert(got_memory(before[i], after[i], memory_id));
                    assert(before[i].memory_ids[0] == memory_id);
                } else {
                    assert(after[i] == before[i]);
                }
            } else {
                assert(after[i] == before[i]);
            }
        } else if before.len() <= i < after.len() {
            assert(after[i] == after.last());
            assert(entities[entities.len() - 1] == e);
        }
    }
}

/// A name stands for its type, and every other text for a concept. Every type has its name.
pub proof fn law_types_by_name(name: Seq<char>)
    ensures
        NodeType::Person.text() == "person"@,
        NodeType::Place.text() == "place"@,
        NodeType::Organization.text() == "organization"@,
        NodeType::Thing.text() == "thing"@,
        NodeType::Concept.text() == "concept"@,
        NodeType::named(name) == NodeType::Person <==> name == "person"@,
        NodeType::named(name) == NodeType::Place <==> name == "place"@,
        NodeType::named(name) == NodeType::Organization <==> name == "organization"@,
        NodeType::named(name) == NodeType::Thing <==> name == "thing"@,
{
    reveal_strlit("person");
    reveal_strlit("place");
    reveal_strlit("organization");
    reveal_strlit("thing");
    assert("person"@.len() == 6 && "place"@.len() == 5 && "organization"@.len() == 12
        && "thing"@.len() == 5);
    assert("place"@[0] == 'p' && "thing"@[0] == 't');
}

/// Names are compared in lower case: an entity keeps its name and aliases as they are written,
/// and has each of them in lower case beside.
pub proof fn law_entities_in_lower_case(e: ExtractedEntity, id: Seq<char>)
    ensures
        ({
            let v = knowledge_graph::lowered_entity(e, id);
            &&& v.name == e.name@
            &&& v.entity_type == e.entity_type@
            &&& v.name_lower == text_lists::lowercase(e.name@)
            &&& v.aliases.len() == e.aliases.len()
            &&& v.aliases_lower.len() == e.aliases.len()
            &&& forall|a: int|
                0 <= a < e.aliases.len() ==> #[trigger] v.aliases[a] == e.aliases[a]@
                    && v.aliases_lower[a] == text_lists::lowercase(e.aliases[a]@)
            &&& v.fresh_id == id
        }),
{
}

/// A relationship keeps its label, and has the names of its two ends in lower case.
pub proof fn law_relationships_in_lower_case(r: ExtractedRelationship, id: Seq<char>)
    ensures
        ({
            let v = knowledge_graph::lowered_relationship(r, id);
            &&& v.relationship == r.relationship@
            &&& v.source_lower == text_lists::lowercase(r.source@)
            &&& v.target_lower == text_lists::lowercase(r.target@)
            &&& v.fresh_id == id
        }),
{
}

// ---------------------------------------------------------------------------
// Deduplicated edges
// ---------------------------------------------------------------------------

/// Two edges say the same: they have the same source, the same label and the same target.
pub open spec fn alike(a: EdgeView, b: EdgeView) -> bool {
    a.source_id == b.source_id && a.label == b.label && a.target_id == b.target_id
}

/// The edge at `k` is the first of those that say the same as `e`.
pub open spec fn first_alike(edges: Seq<EdgeView>, e: EdgeView, k: int) -> bool {
    &&& 0 <= k < edges.len()
    &&& alike(edges[k], e)
    &&& forall|j: int| 0 <= j < k ==> !alike(#[trigger] edges[j], e)
}

/// Edges are merged if and only if source, label and target are the same: every edge has exactly
/// one that says the same afterwards.
pub proof fn law_merged_edges_say_the_same(edges: Seq<EdgeView>, k: int)
    requires
        0 <= k < edges.len(),
    ensures
        exists|j: int|
            0 <= j < edge_merge::deduplicated(edges).len() && alike(
                #[trigger] edge_merge::deduplicated(edges)[j],
                edges[k],
            ),
        forall|i: int, j: int|
            0 <= i < j < edge_merge::deduplicated(edges).len() ==> !alike(
                #[trigger] edge_merge::deduplicated(edges)[i],
                #[trigger] edge_merge::deduplicated(edges)[j],
            ),
{
    edge_merge::law_deduplicated_keys(edges);
    lemma_kept_alike(edges, k);
}

proof fn lemma_kept_alike(edges: Seq<EdgeView>, k: int)
    requires
        0 <= k < edges.len(),
    ensures
        exists|j: int|
            0 <= j < edge_merge::deduplicated(edges).len() && alike(
                #[trigger] edge_merge::deduplicated(edges)[j],
                edges[k],
            ),
    decreases edges.len(),
{
    let rest = edges.drop_last();
    let e = edges.last();
    let before = edge_merge::deduplicated(rest);
    let after = edge_merge::deduplicated(edges);
    edge_merge::lemma_keyed_edge(before, edge_merge::edge_key(e));
    if k < rest.len() {
        lemma_kept_alike(rest, k);
        let j = choose|j: int| 0 <= j < before.len() && alike(#[trigger] before[j], rest[k]);
        assert(alike(after[j], edges[k]));
    } else {
        match edge_merge::keyed_edge(before, edge_merge::edge_key(e)) {
            Some(i) => {
                assert(alike(after[i], e));
            },
            None => {
                assert(after[before.len() as int] == e);
                assert(alike(after[before.len() as int], e));
            },
        }
    }
}

/// A merged edge has the id of the first of the edges that it stands for.
pub proof fn law_merged_edges_are_the_first(edges: Seq<EdgeView>, j: int)
    requires
        0 <= j < edge_merge::deduplicated(edges).len(),
    ensures
        exists|k: int| #[trigger]
            first_alike(edges, edge_merge::deduplicated(edges)[j], k) && edges[k].id
                == edge_merge::deduplicated(edges)[j].id,
    decreases edges.len(),
{
    let rest = edges.drop_last();
    let e = edges.last();
    let before = edge_merge::deduplicated(rest);
    let after = edge_merge::deduplicated(edges);
    edge_merge::lemma_keyed_edge(before, edge_merge::edge_key(e));
    if j < before.len() {
        law_merged_edges_are_the_first(rest, j);
        let k = choose|k: int| #[trigger]
            first_alike(rest, before[j], k) && rest[k].id == before[j].id;
        assert(alike(after[j], before[j]) && after[j].id == before[j].id);
        assert(edges[k] == rest[k]);
        assert forall|i: int| 0 <= i < k implies !alike(#[trigger] edges[i], after[j]) by {
            assert(!alike(rest[i], before[j]));
        }
        assert(first_alike(edges, after[j], k));
    } else {
        let k = edges.len() - 1;
        assert forall|i: int| 0 <= i < k implies !alike(#[trigger] edges[i], e) by {
            lemma_kept_alike(rest, i);
            let q = choose|q: int| 0 <= q < before.len() && alike(#[trigger] before[q], rest[i]);
            assert(rest[i] == edges[i]);
            assert(edge_merge::edge_key(before[q]) != edge_merge::edge_key(e));
        }
        assert(first_alike(edges, after[j], k));
    }
}

/// A merged edge has exactly the memories of the edges that it stands for.
pub proof fn law_merged_edges_have_all_memories(
    edges: Seq<EdgeView>,
    j: int,
    memory_id: Seq<char>,
)
    requires
        0 <= j < edge_merge::deduplicated(edges).len(),
    ensures
        edge_merge::deduplicated(edges)[j].memory_ids.contains(memory_id) <==> exists|k: int|
            {
                &&& 0 <= k < edges.len()
                &&& alike(#[trigger] edges[k], edge_merge::deduplicated(edges)[j])
                &&& edges[k].memory_ids.contains(memory_id)
            },
{
    let all = edge_merge::deduplicated(edges);
    let key = edge_merge::edge_key(all[j]);
    edge_merge::law_deduplicated_keys(edges);
    edge_merge::law_deduplication_keeps_memories(edges, key, memory_id);
    if all[j].memory_ids.contains(memory_id) {
        assert(edge_merge::remembers(all, key, memory_id));
        let k = choose|k: int|
            0 <= k < edges.len() && edge_merge::edge_key(#[trigger] edges[k]) == key
                && edges[k].memory_ids.contains(memory_id);
        assert(alike(edges[k], all[j]));
    }
    if exists|k: int|
        {
            &&& 0 <= k < edges.len()
            &&& alike(#[trigger] edges[k], all[j])
            &&& edges[k].memory_ids.contains(memory_id)
        } {
        let k = choose|k: int|
            {
                &&& 0 <= k < edges.len()
                &&& alike(#[trigger] edges[k], all[j])
                &&& edges[k].memory_ids.contains(memory_id)
            };
        assert(edge_merge::edge_key(edges[k]) == key);
        assert(edge_merge::remembers(edges, key, memory_id));
        let i = choose|i: int|
            0 <= i < all.len() && edge_merge::edge_key(#[trigger] all[i]) == key
                && all[i].memory_ids.contains(memory_id);
        assert(edge_merge::edge_key(all[i]) == edge_merge::edge_key(all[j]));
        assert(i == j);
    }
}

/// Merged edges come in the order in which the edges that they stand for first appear.
pub proof fn law_merged_edges_keep_their_order(
    edges: Seq<EdgeView>,
    i: int,
    j: int,
    k: int,
    l: int,
)
    requires
        0 <= i < j < edge_merge::deduplicated(edges).len(),
        first_alike(edges, edge_merge::deduplicated(edges)[i], k),
        first_alike(edges, edge_merge::deduplicated(edges)[j], l),
    ensures
        k < l,
    decreases edges.len(),
{
    let rest = edges.drop_last();
    let e = edges.last();
    let before = edge_merge::deduplicated(rest);
    let after = edge_merge::deduplicated(edges);
    edge_merge::lemma_keyed_edge(before, edge_merge::edge_key(e));
    assert(i < before.len());
    assert(alike(after[i], before[i]));
    lemma_first_in_rest(edges, i, k);
    if j < before.len() {
        assert(alike(after[j], before[j]));
        lemma_first_in_rest(edges, j, l);
        law_merged_edges_keep_their_order(rest, i, j, k, l);
    } else {
        assert(after[j] == e);
        if l < rest.len() {
            lemma_kept_alike(rest, l);
            let q = choose|q: int| 0 <= q < before.len() && alike(#[trigger] before[q], rest[l]);
            assert(edge_merge::edge_key(before[q]) != edge_merge::edge_key(e));
        }
    }
}

proof fn lemma_first_in_rest(edges: Seq<EdgeView>, i: int, k: int)
    requires
        edges.len() > 0,
        0 <= i < edge_merge::deduplicated(edges.drop_last()).len(),
        first_alike(edges, edge_merge::deduplicated(edges)[i], k),
    ensures
        first_alike(edges.drop_last(), edge_merge::deduplicated(edges.drop_last())[i], k),
{
    let rest = edges.drop_last();
    let before = edge_merge::deduplicated(rest);
    let after = edge_merge::deduplicated(edges);
    edge_merge::lemma_keyed_edge(before, edge_merge::edge_key(edges.last()));
    assert(alike(after[i], before[i]));
    law_merged_edges_are_the_first(rest, i);
    let q = choose|q: int| #[trigger]
        first_alike(rest, before[i], q) && rest[q].id == before[i].id;
    assert(rest[q] == edges[q]);
    if q < k {
        assert(!alike(edges[q], after[i]));
    }
    assert(k < rest.len());
    assert forall|j: int| 0 <= j < k implies !alike(#[trigger] rest[j], before[i]) by {
        assert(!alike(edges[j], after[i]));
    }
}

/// Merging repeats no memory: where no edge names a memory twice, no merged edge does.
pub proof fn law_merged_memories_occur_once(edges: Seq<EdgeView>, j: int)
    requires
        forall|k: int|
            0 <= k < edges.len() ==> (#[trigger] edges[k]).memory_ids.no_duplicates(),
        0 <= j < edge_merge::deduplicated(edges).len(),
    ensures
        edge_merge::deduplicated(edges)[j].memory_ids.no_duplicates(),
    decreases edges.len(),
{
    let rest = edges.drop_last();
    let e = edges.last();
    let before = edge_merge::deduplicated(rest);
    edge_merge::lemma_keyed_edge(before, edge_merge::edge_key(e));
    assert forall|k: int| 0 <= k < rest.len() implies (
    #[trigger] rest[k]).memory_ids.no_duplicates() by {
        assert(rest[k] == edges[k]);
    }
    if j < before.len() {
        law_merged_memories_occur_once(rest, j);
        text_lists::law_texts_are_added_once(before[j].memory_ids, e.memory_ids);
    } else {
        assert(edges[edges.len() - 1] == e);
    }
}

/// One more edge is merged into the one that says the same, which keeps its id and its memories
/// and gets the missing ones behind them, or stands at the end as it is. No other edge changes.
pub proof fn law_one_more_edge_is_merged(edges: Seq<EdgeView>, e: EdgeView, j: int)
    ensures
        ({
            let before = edge_merge::deduplicated(edges);
            let after = edge_merge::deduplicated(edges.push(e));
            if exists|i: int| 0 <= i < before.len() && alike(#[trigger] before[i], e) {
                &&& after.len() == before.len()
                &&& 0 <= j < before.len() && !alike(before[j], e) ==> after[j] == before[j]
                &&& 0 <= j < before.len() && alike(before[j], e) ==> {
                    &&& alike(after[j], e)
                    &&& after[j].id == before[j].id
                    &&& after[j].memory_ids.len() >= before[j].memory_ids.len()
                    &&& after[j].memory_ids.take(before[j].memory_ids.len() as int)
                        == before[j].memory_ids
                    &&& forall|m: Seq<char>| #[trigger]
                        after[j].memory_ids.contains(m) <==> before[j].memory_ids.contains(m)
                            || e.memory_ids.contains(m)
                }
            } else {
                after == before.push(e)
            }
        }),
{
    let before = edge_merge::deduplicated(edges);
    let all = edges.push(e);
    assert(all.drop_last() =~= edges);
    assert(all.last() == e);
    edge_merge::lemma_keyed_edge(before, edge_merge::edge_key(e));
    edge_merge::law_deduplicated_keys(edges);
    match edge_merge::keyed_edge(before, edge_merge::edge_key(e)) {
        Some(i) => {
            assert(alike(before[i], e));
            if 0 <= j < before.len() && alike(before[j], e) {
                assert(edge_merge::edge_key(before[j]) == edge_merge::edge_key(before[i]));
                assert(i == j);
                text_lists::law_texts_are_added_once(before[j].memory_ids, e.memory_ids);
            }
        },
        None => {
            assert forall|i: int| 0 <= i < before.len() implies !alike(#[trigger] before[i], e) by {
                assert(edge_merge::edge_key(before[i]) != edge_merge::edge_key(e));
            }
        },
    }
}

} // verus!
