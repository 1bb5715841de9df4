//! Building and enriching the memory knowledge graph.
//!
//! Entities and relationships that were extracted from memories are merged into nodes and
//! edges. Labels and aliases are compared in lower case.

use crate::text;
use crate::text_lists;
use vstd::prelude::*;
use vstd::string::StringExecFns;

verus! {

// ---------------------------------------------------------------------------
// Nodes and edges
// ---------------------------------------------------------------------------

#[derive(Debug, Clone, Copy, PartialEq, Eq, Structural)]
pub enum NodeType {
    Person,
    Place,
    Organization,
    Thing,
    Concept,
}

impl NodeType {
    pub open spec fn text(self) -> Seq<char> {
        match self {
            NodeType::Person => "person"@,
            NodeType::Place => "place"@,
            NodeType::Organization => "organization"@,
            NodeType::Thing => "thing"@,
            NodeType::Concept => "concept"@,
        }
    }

    /// The type that a text names; whatever names none is a concept.
    pub open spec fn named(name: Seq<char>) -> NodeType {
        if name == "person"@ {
            NodeType::Person
        } else if name == "place"@ {
            NodeType::Place
        } else if name == "organization"@ {
            NodeType::Organization
        } else if name == "thing"@ {
            NodeType::Thing
        } else {
            NodeType::Concept
        }
    }

    pub fn from_name(name: &String) -> (t: Self)
        ensures
            t == NodeType::named(name@),
    {
        if *name == "person".to_string() {
            NodeType::Person
        } else if *name == "place".to_string() {
            NodeType::Place
        } else if *name == "organization".to_string() {
            NodeType::Organization
        } else if *name == "thing".to_string() {
            NodeType::Thing
        } else {
            NodeType::Concept
        }
    }

    pub fn name(self) -> (s: String)
        ensures
            s@ == self.text(),
    {
        match self {
            NodeType::Person => "person".to_string(),
            NodeType::Place => "place".to_string(),
            NodeType::Organization => "organization".to_string(),
            NodeType::Thing => "thing".to_string(),
            NodeType::Concept => "concept".to_string(),
        }
    }
}

/// A type is named by its own name.
pub proof fn law_node_type_names(t: NodeType)
    ensures
        NodeType::named(t.text()) == t,
{
    reveal_strlit("person");
    reveal_strlit("place");
    reveal_strlit("organization");
    reveal_strlit("thing");
    reveal_strlit("concept");
    assert("person"@.len() == 6 && "place"@.len() == 5 && "organization"@.len() == 12
        && "thing"@.len() == 5 && "concept"@.len() == 7);
    assert("place"@[0] == 'p' && "thing"@[0] == 't');
}

#[derive(Debug, Clone)]
pub struct KnowledgeGraphNode {
    pub id: String,
    pub label: String,
    pub label_lower: String,
    pub node_type: NodeType,
    pub aliases: Vec<String>,
    pub aliases_lower: Vec<String>,
    pub memory_ids: Vec<String>,
}

#[verifier::ext_equal]
pub struct NodeView {
    pub id: Seq<char>,
    pub label: Seq<char>,
    pub label_lower: Seq<char>,
    pub node_type: NodeType,
    pub aliases: Seq<Seq<char>>,
    pub aliases_lower: Seq<Seq<char>>,
    pub memory_ids: Seq<Seq<char>>,
}

impl KnowledgeGraphNode {
    pub open spec fn view(&self) -> NodeView {
        NodeView {
            id: self.id@,
            label: self.label@,
            label_lower: self.label_lower@,
            node_type: self.node_type,
            aliases: text_lists::texts(self.aliases@),
            aliases_lower: text_lists::texts(self.aliases_lower@),
            memory_ids: text_lists::texts(self.memory_ids@),
        }
    }

    /// Adds a memory, unless the node has it.
    pub fn add_memory_id(&mut self, memory_id: &String)
        ensures
            final(self)@ == (NodeView {
                memory_ids: text_lists::with_text(old(self)@.memory_ids, memory_id@),
                ..old(self)@
            }),
    {
        text_lists::add_text(&mut self.memory_ids, memory_id);
    }
}

#[derive(Debug, Clone)]
pub struct KnowledgeGraphEdge {
    pub id: String,
    pub source_id: String,
    pub target_id: String,
    pub label: String,
    pub memory_ids: Vec<String>,
}

#[verifier::ext_equal]
pub struct EdgeView {
    pub id: Seq<char>,
    pub source_id: Seq<char>,
    pub target_id: Seq<char>,
    pub label: Seq<char>,
    pub memory_ids: Seq<Seq<char>>,
}

impl KnowledgeGraphEdge {
    pub open spec fn view(&self) -> EdgeView {
        EdgeView {
            id: self.id@,
            source_id: self.source_id@,
            target_id: self.target_id@,
            label: self.label@,
            memory_ids: text_lists::texts(self.memory_ids@),
        }
    }

    /// Adds a memory, unless the edge has it.
    pub fn add_memory_id(&mut self, memory_id: &String)
        ensures
            final(self)@ == (EdgeView {
                memory_ids: text_lists::with_text(old(self)@.memory_ids, memory_id@),
                ..old(self)@
            }),
    {
        text_lists::add_text(&mut self.memory_ids, memory_id);
    }
}

pub open spec fn node_views(v: Seq<KnowledgeGraphNode>) -> Seq<NodeView> {
    Seq::new(v.len(), |i: int| v[i]@)
}

pub open spec fn edge_views(v: Seq<KnowledgeGraphEdge>) -> Seq<EdgeView> {
    Seq::new(v.len(), |i: int| v[i]@)
}

// ---------------------------------------------------------------------------
// Merging what was extracted from memories
// ---------------------------------------------------------------------------

/// An entity that was extracted from a memory.
#[derive(Debug, Clone)]
pub struct ExtractedEntity {
    pub name: String,
    pub entity_type: String,
    pub aliases: Vec<String>,
}

/// A relationship that was extracted from a memory.
#[derive(Debug, Clone)]
pub struct ExtractedRelationship {
    pub source: String,
    pub target: String,
    pub relationship: String,
}

/// What was extracted from one memory.
#[derive(Debug, Clone)]
pub struct Extraction {
    pub entities: Vec<ExtractedEntity>,
    pub relationships: Vec<ExtractedRelationship>,
}

/// An entity with its name and aliases in lower case, and an id for a new node.
#[derive(Debug, Clone)]
pub struct LoweredEntity {
    pub entity: ExtractedEntity,
    pub name_lower: String,
    pub aliases_lower: Vec<String>,
    pub fresh_id: String,
}

/// A relationship with the names of its ends in lower case, and an id for a new edge.
#[derive(Debug, Clone)]
pub struct LoweredRelationship {
    pub relationship: String,
    pub source_lower: String,
    pub target_lower: String,
    pub fresh_id: String,
}

#[verifier::ext_equal]
pub struct EntityView {
    pub name: Seq<char>,
    pub entity_type: Seq<char>,
    pub aliases: Seq<Seq<char>>,
    pub name_lower: Seq<char>,
    pub aliases_lower: Seq<Seq<char>>,
    pub fresh_id: Seq<char>,
}

#[verifier::ext_equal]
pub struct RelationshipView {
    pub relationship: Seq<char>,
    pub source_lower: Seq<char>,
    pub target_lower: Seq<char>,
    pub fresh_id: Seq<char>,
}

impl LoweredEntity {
    pub open spec fn view(&self) -> EntityView {
        EntityView {
            name: self.entity.name@,
            entity_type: self.entity.entity_type@,
            aliases: text_lists::texts(self.entity.aliases@),
            name_lower: self.name_lower@,
            aliases_lower: text_lists::texts(self.aliases_lower@),
            fresh_id: self.fresh_id@,
        }
    }
}

impl LoweredRelationship {
    pub open spec fn view(&self) -> RelationshipView {
        RelationshipView {
            relationship: self.relationship@,
            source_lower: self.source_lower@,
            target_lower: self.target_lower@,
            fresh_id: self.fresh_id@,
        }
    }
}

pub open spec fn entity_views(v: Seq<LoweredEntity>) -> Seq<EntityView> {
    Seq::new(v.len(), |i: int| v[i]@)
}

pub open spec fn relationship_views(v: Seq<LoweredRelationship>) -> Seq<RelationshipView> {
    Seq::new(v.len(), |i: int| v[i]@)
}

/// A node is known under a lower-case name: as its label or as one of its aliases.
pub open spec fn known_as(n: NodeView, lower: Seq<char>) -> bool {
    n.label_lower == lower || n.aliases_lower.contains(lower)
}

/// A node stands for an entity: it is known under the entity's name, or its label is one of
/// the entity's aliases.
pub open spec fn stands_for(n: NodeView, e: EntityView) -> bool {
    known_as(n, e.name_lower) || e.aliases_lower.contains(n.label_lower)
}

/// The first node that stands for an entity.
pub open spec fn entity_node(nodes: Seq<NodeView>, e: EntityView) -> Option<int>
    decreases nodes.len(),
{
    if nodes.len() == 0 {
        None
    } else {
        match entity_node(nodes.drop_last(), e) {
            Some(i) => Some(i),
            None => if stands_for(nodes.last(), e) {
                Some(nodes.len() - 1)
            } else {
                None
            },
        }
    }
}

/// The first node that is known under a lower-case name.
pub open spec fn named_node(nodes: Seq<NodeView>, lower: Seq<char>) -> Option<int>
    decreases nodes.len(),
{
    if nodes.len() == 0 {
        None
    } else {
        match named_node(nodes.drop_last(), lower) {
            Some(i) => Some(i),
            None => if known_as(nodes.last(), lower) {
                Some(nodes.len() - 1)
            } else {
                None
            },
        }
    }
}

/// The nodes behind an entity of a memory: the node that stands for it gets the memory, or
/// there is a new node.
pub open spec fn after_entity(
    nodes: Seq<NodeView>,
    memory_id: Seq<char>,
    e: EntityView,
) -> Seq<NodeView> {
    match entity_node(nodes, e) {
        Some(i) => nodes.update(
            i,
            NodeView { memory_ids: text_lists::with_text(nodes[i].memory_ids, memory_id), ..nodes[i] },
        ),
        None => nodes.push(
            NodeView {
                id: e.fresh_id,
                label: e.name,
                label_lower: e.name_lower,
                node_type: NodeType::named(e.entity_type),
                aliases: e.aliases,
                aliases_lower: e.aliases_lower,
                memory_ids: seq![memory_id],
            },
        ),
    }
}

/// The edges behind a relationship of a memory: there is a new edge where both ends are known.
pub open spec fn after_relationship(
    nodes: Seq<NodeView>,
    edges: Seq<EdgeView>,
    memory_id: Seq<char>,
    r: RelationshipView,
) -> Seq<EdgeView> {
    match (named_node(nodes, r.source_lower), named_node(nodes, r.target_lower)) {
        (Some(s), Some(t)) => edges.push(
            EdgeView {
                id: r.fresh_id,
                source_id: nodes[s].id,
                target_id: nodes[t].id,
                label: r.relationship,
                memory_ids: seq![memory_id],
            },
        ),
        _ => edges,
    }
}

/// The nodes behind all entities of a memory.
pub open spec fn after_entities(
    nodes: Seq<NodeView>,
    memory_id: Seq<char>,
    entities: Seq<EntityView>,
) -> Seq<NodeView>
    decreases entities.len(),
{
    if entities.len() == 0 {
        nodes
    } else {
        after_entity(
            after_entities(nodes, memory_id, entities.drop_last()),
            memory_id,
            entities.last(),
        )
    }
}

/// The edges behind all relationships of a memory.
pub open spec fn after_relationships(
    nodes: Seq<NodeView>,
    edges: Seq<EdgeView>,
    memory_id: Seq<char>,
    rels: Seq<RelationshipView>,
) -> Seq<EdgeView>
    decreases rels.len(),
{
    if rels.len() == 0 {
        edges
    } else {
        after_relationship(
            nodes,
            after_relationships(nodes, edges, memory_id, rels.drop_last()),
            memory_id,
            rels.last(),
        )
    }
}

pub proof fn lemma_entity_node(nodes: Seq<NodeView>, e: EntityView)
    ensures
        match entity_node(nodes, e) {
            Some(i) => {
                &&& 0 <= i < nodes.len()
                &&& stands_for(nodes[i], e)
                &&& forall|j: int| 0 <= j < i ==> !stands_for(#[trigger] nodes[j], e)
            },
            None => forall|j: int| 0 <= j < nodes.len() ==> !stands_for(#[trigger] nodes[j], e),
        },
    decreases nodes.len(),
{
    if nodes.len() > 0 {
        let rest = nodes.drop_last();
        lemma_entity_node(rest, e);
        assert forall|j: int| 0 <= j < rest.len() implies rest[j] == #[trigger] nodes[j] by {}
    }
}

pub proof fn lemma_named_node(nodes: Seq<NodeView>, lower: Seq<char>)
    ensures
        match named_node(nodes, lower) {
            Some(i) => {
                &&& 0 <= i < nodes.len()
                &&& known_as(nodes[i], lower)
                &&& forall|j: int| 0 <= j < i ==> !known_as(#[trigger] nodes[j], lower)
            },
            None => forall|j: int|
                0 <= j < nodes.len() ==> !known_as(#[trigger] nodes[j], lower),
        },
    decreases nodes.len(),
{
    if nodes.len() > 0 {
        let rest = nodes.drop_last();
        lemma_named_node(rest, lower);
        assert forall|j: int| 0 <= j < rest.len() implies rest[j] == #[trigger] nodes[j] by {}
    }
}

/// A knowledge graph in the making.
pub struct GraphBuilder {
    pub nodes: Vec<KnowledgeGraphNode>,
    pub edges: Vec<KnowledgeGraphEdge>,
}

impl GraphBuilder {
    pub open spec fn node_views(&self) -> Seq<NodeView> {
        node_views(self.nodes@)
    }

    pub open spec fn edge_views(&self) -> Seq<EdgeView> {
        edge_views(self.edges@)
    }

    pub fn new() -> (builder: Self)
        ensures
            builder.nodes.len() == 0,
            builder.edges.len() == 0,
    {
        GraphBuilder { nodes: Vec::new(), edges: Vec::new() }
    }

    fn find_entity(&self, e: &LoweredEntity) -> (res: Option<usize>)
        ensures
            match res {
                Some(i) => entity_node(self.node_views(), e@) == Some(i as int),
                None => entity_node(self.node_views(), e@) is None,
            },
    {
        let ghost all = self.node_views();
        let mut i: usize = 0;
        assert(all.take(0) =~= Seq::<NodeView>::empty());
        while i < self.nodes.len()
            invariant
                i <= self.nodes.len(),
                all == self.node_views(),
                entity_node(all.take(i as int), e@) is None,
            decreases self.nodes.len() - i,
        {
            let n: &KnowledgeGraphNode = &self.nodes[i];
            proof {
                let now = all.take(i + 1);
                assert(now.drop_last() =~= all.take(i as int));
                assert(now.last() == n@);
            }
            if n.label_lower == e.name_lower || text_lists::holds_text(&n.aliases_lower, &e.name_lower)
                || text_lists::holds_text(&e.aliases_lower, &n.label_lower) {
                proof {
                    lemma_entity_node_prefix(all, e@, i + 1);
                }
                return Some(i);
            }
            i += 1;
        }
        assert(all.take(i as int) =~= all);
        None
    }

    fn find_named(&self, lower: &String) -> (res: Option<usize>)
        ensures
            match res {
                Some(i) => named_node(self.node_views(), lower@) == Some(i as int),
                None => named_node(self.node_views(), lower@) is None,
            },
    {
        let ghost all = self.node_views();
        let mut i: usize = 0;
        assert(all.take(0) =~= Seq::<NodeView>::empty());
        while i < self.nodes.len()
            invariant
                i <= self.nodes.len(),
                all == self.node_views(),
                named_node(all.take(i as int), lower@) is None,
            decreases self.nodes.len() - i,
        {
            let n: &KnowledgeGraphNode = &self.nodes[i];
            proof {
                let now = all.take(i + 1);
                assert(now.drop_last() =~= all.take(i as int));
                assert(now.last() == n@);
            }
            if n.label_lower == *lower || text_lists::holds_text(&n.aliases_lower, lower) {
                proof {
                    lemma_named_node_prefix(all, lower@, i + 1);
                }
                return Some(i);
            }
            i += 1;
        }
        assert(all.take(i as int) =~= all);
        None
    }

    /// Takes one entity of a memory.
    pub fn add_entity(&mut self, memory_id: &String, e: LoweredEntity)
        ensures
            final(self).node_views() == after_entity(old(self).node_views(), memory_id@, e@),
            final(self).edges == old(self).edges,
    {
        let ghost before = self.node_views();
        proof {
            lemma_entity_node(before, e@);
        }
        match self.find_entity(&e) {
            Some(i) => {
                self.nodes[i].add_memory_id(memory_id);
                assert(self.node_views() =~= after_entity(before, memory_id@, e@));
            },
            None => {
                let mut memory_ids: Vec<String> = Vec::new();
                memory_ids.push(memory_id.clone());
                assert(text_lists::texts(memory_ids@) =~= seq![memory_id@]);
                let node = KnowledgeGraphNode {
                    id: e.fresh_id,
                    label: e.entity.name,
                    label_lower: e.name_lower,
                    node_type: NodeType::from_name(&e.entity.entity_type),
                    aliases: e.entity.aliases,
                    aliases_lower: e.aliases_lower,
                    memory_ids,
                };
                self.nodes.push(node);
                assert(self.node_views() =~= after_entity(before, memory_id@, e@));
            },
        }
    }

    /// Takes one relationship of a memory.
    pub fn add_relationship(&mut self, memory_id: &String, r: LoweredRelationship)
        ensures
            final(self).edge_views() == after_relationship(
                old(self).node_views(),
                old(self).edge_views(),
                memory_id@,
                r@,
            ),
            final(self).nodes == old(self).nodes,
    {
        let ghost nodes = self.node_views();
        let ghost before = self.edge_views();
        proof {
            lemma_named_node(nodes, r.source_lower@);
            lemma_named_node(nodes, r.target_lower@);
        }
        let source: Option<usize> = self.find_named(&r.source_lower);
        let target: Option<usize> = self.find_named(&r.target_lower);
        if let (Some(s), Some(t)) = (source, target) {
            let mut memory_ids: Vec<String> = Vec::new();
            memory_ids.push(memory_id.clone());
            assert(text_lists::texts(memory_ids@) =~= seq![memory_id@]);
            let edge = KnowledgeGraphEdge {
                id: r.fresh_id,
                source_id: self.nodes[s].id.clone(),
                target_id: self.nodes[t].id.clone(),
                label: r.relationship,
                memory_ids,
            };
            self.edges.push(edge);
        }
        assert(self.edge_views() =~= after_relationship(nodes, before, memory_id@, r@));
    }

    /// Takes all entities, and then all relationships, of one memory.
    pub fn absorb_lowered(
        &mut self,
        memory_id: &String,
        entities: Vec<LoweredEntity>,
        relationships: Vec<LoweredRelationship>,
    )
        ensures
            final(self).node_views() == after_entities(
                old(self).node_views(),
                memory_id@,
                entity_views(entities@),
            ),
            final(self).edge_views() == after_relationships(
                final(self).node_views(),
                old(self).edge_views(),
                memory_id@,
                relationship_views(relationships@),
            ),
    {
        let ghost es = entity_views(entities@);
        let ghost rs = relationship_views(relationships@);
        let ghost nodes = self.node_views();
        let ghost edges = self.edge_views();
        assert(es.take(0) =~= Seq::<EntityView>::empty());
        for e in it: entities
            invariant
                entity_views(it.seq()) == es,
                self.node_views() == after_entities(
                    nodes,
                    memory_id@,
                    es.take(it.index() as int),
                ),
                self.edge_views() == edges,
        {
            proof {
                let i = it.index() as int;
                assert(es[i] == e@);
                assert(es.take(i + 1).drop_last() =~= es.take(i));
                assert(es.take(i + 1).last() == e@);
            }
            self.add_entity(memory_id, e);
        }
        assert(es.take(es.len() as int) =~= es);
        let ghost now = self.node_views();
        assert(rs.take(0) =~= Seq::<RelationshipView>::empty());
        for r in it: relationships
            invariant
                relationship_views(it.seq()) == rs,
                self.node_views() == now,
                self.edge_views() == after_relationships(
                    now,
                    edges,
                    memory_id@,
                    rs.take(it.index() as int),
                ),
        {
            proof {
                let i = it.index() as int;
                assert(rs[i] == r@);
                assert(rs.take(i + 1).drop_last() =~= rs.take(i));
                assert(rs.take(i + 1).last() == r@);
            }
            self.add_relationship(memory_id, r);
        }
        assert(rs.take(rs.len() as int) =~= rs);
    }
}

proof fn lemma_entity_node_prefix(nodes: Seq<NodeView>, e: EntityView, t: int)
    requires
        0 <= t <= nodes.len(),
        entity_node(nodes.take(t), e) is Some,
    ensures
        entity_node(nodes, e) == entity_node(nodes.take(t), e),
    decreases nodes.len(),
{
    if t == nodes.len() {
        assert(nodes.take(t) =~= nodes);
    } else {
        assert(nodes.drop_last().take(t) =~= nodes.take(t));
        lemma_entity_node_prefix(nodes.drop_last(), e, t);
    }
}

proof fn lemma_named_node_prefix(nodes: Seq<NodeView>, lower: Seq<char>, t: int)
    requires
        0 <= t <= nodes.len(),
        named_node(nodes.take(t), lower) is Some,
    ensures
        named_node(nodes, lower) == named_node(nodes.take(t), lower),
    decreases nodes.len(),
{
    if t == nodes.len() {
        assert(nodes.take(t) =~= nodes);
    } else {
        assert(nodes.drop_last().take(t) =~= nodes.take(t));
        lemma_named_node_prefix(nodes.drop_last(), lower, t);
    }
}

// ---------------------------------------------------------------------------
// Lower case
// ---------------------------------------------------------------------------

pub open spec fn lowered_entity(e: ExtractedEntity, fresh_id: Seq<char>) -> EntityView {
    EntityView {
        name: e.name@,
        entity_type: e.entity_type@,
        aliases: text_lists::texts(e.aliases@),
        name_lower: text_lists::lowercase(e.name@),
        aliases_lower: text_lists::lowercase_all(text_lists::texts(e.aliases@)),
        fresh_id,
    }
}

pub open spec fn lowered_relationship(
    r: ExtractedRelationship,
    fresh_id: Seq<char>,
) -> RelationshipView {
    RelationshipView {
        relationship: r.relationship@,
        source_lower: text_lists::lowercase(r.source@),
        target_lower: text_lists::lowercase(r.target@),
        fresh_id,
    }
}

/// The entities of an extraction, each with the id at its position.
pub open spec fn lowered_entities(
    entities: Seq<ExtractedEntity>,
    ids: Seq<Seq<char>>,
) -> Seq<EntityView> {
    Seq::new(entities.len(), |i: int| lowered_entity(entities[i], ids[i]))
}

/// The relationships of an extraction, each with the id at its position behind those of the
/// entities.
pub open spec fn lowered_relationships(
    relationships: Seq<ExtractedRelationship>,
    ids: Seq<Seq<char>>,
    entities: int,
) -> Seq<RelationshipView> {
    Seq::new(
        relationships.len(),
        |i: int| lowered_relationship(relationships[i], ids[entities + i]),
    )
}

/// An entity with its names in lower case.
pub fn lower_entity(entity: ExtractedEntity, fresh_id: String) -> (res: LoweredEntity)
    ensures
        res@ == lowered_entity(entity, fresh_id@),
{
    let name_lower: String = text_lists::to_lowercase(entity.name.as_str());
    let aliases_lower: Vec<String> = text_lists::lower_texts(&entity.aliases);
    LoweredEntity { entity, name_lower, aliases_lower, fresh_id }
}

/// A relationship with the names of its ends in lower case.
pub fn lower_relationship(r: ExtractedRelationship, fresh_id: String) -> (res: LoweredRelationship)
    ensures
        res@ == lowered_relationship(r, fresh_id@),
{
    LoweredRelationship {
        source_lower: text_lists::to_lowercase(r.source.as_str()),
        target_lower: text_lists::to_lowercase(r.target.as_str()),
        relationship: r.relationship,
        fresh_id,
    }
}

impl GraphBuilder {
    /// Takes what was extracted from one memory. `ids` holds an unused id for every entity and
    /// every relationship.
    pub fn absorb(&mut self, memory_id: &String, extraction: Extraction, ids: &Vec<String>)
        requires
            ids.len() == extraction.entities.len() + extraction.relationships.len(),
        ensures
            final(self).node_views() == after_entities(
                old(self).node_views(),
                memory_id@,
                lowered_entities(extraction.entities@, text_lists::texts(ids@)),
            ),
            final(self).edge_views() == after_relationships(
                final(self).node_views(),
                old(self).edge_views(),
                memory_id@,
                lowered_relationships(
                    extraction.relationships@,
                    text_lists::texts(ids@),
                    extraction.entities.len() as int,
                ),
            ),
    {
        let ghost all_entities = extraction.entities@;
        let ghost all_relationships = extraction.relationships@;
        let offset: usize = extraction.entities.len();
        let mut entities: Vec<LoweredEntity> = Vec::new();
        for e in it: extraction.entities
            invariant
                it.seq() == all_entities,
                offset == all_entities.len(),
                ids.len() >= offset,
                entities.len() == it.index(),
                forall|j: int|
                    0 <= j < entities.len() ==> (#[trigger] entities[j])@ == lowered_entity(
                        all_entities[j],
                        ids[j]@,
                    ),
        {
            let i: usize = entities.len();
            entities.push(lower_entity(e, ids[i].clone()));
        }
        let mut relationships: Vec<LoweredRelationship> = Vec::new();
        for r in it: extraction.relationships
            invariant
                it.seq() == all_relationships,
                ids.len() == offset + all_relationships.len(),
                relationships.len() == it.index(),
                forall|j: int|
                    0 <= j < relationships.len() ==> (#[trigger] relationships[j])@
                        == lowered_relationship(all_relationships[j], ids[offset + j]@),
        {
            let i: usize = relationships.len();
            relationships.push(lower_relationship(r, ids[offset + i].clone()));
        }
        proof {
            assert(entity_views(entities@) =~= lowered_entities(all_entities, text_lists::texts(ids@)));
            assert(relationship_views(relationships@) =~= lowered_relationships(
                all_relationships,
                text_lists::texts(ids@),
                offset as int,
            ));
        }
        self.absorb_lowered(memory_id, entities, relationships);
    }
}

// ---------------------------------------------------------------------------
// What every memory keeps
// ---------------------------------------------------------------------------

/// No two nodes have the same label, letter case aside.
pub open spec fn distinct_labels(nodes: Seq<NodeView>) -> bool {
    forall|i: int, j: int|
        0 <= i < j < nodes.len() ==> (#[trigger] nodes[i]).label_lower != (
        #[trigger] nodes[j]).label_lower
}

/// Labels stay distinct, whatever entities come.
pub proof fn law_labels_stay_distinct(
    nodes: Seq<NodeView>,
    memory_id: Seq<char>,
    entities: Seq<EntityView>,
)
    requires
        distinct_labels(nodes),
    ensures
        distinct_labels(after_entities(nodes, memory_id, entities)),
    decreases entities.len(),
{
    if entities.len() > 0 {
        law_labels_stay_distinct(nodes, memory_id, entities.drop_last());
        let before = after_entities(nodes, memory_id, entities.drop_last());
        let e = entities.last();
        let now = after_entity(before, memory_id, e);
        lemma_entity_node(before, e);
        assert forall|i: int, j: int| 0 <= i < j < now.len() implies (
        #[trigger] now[i]).label_lower != (#[trigger] now[j]).label_lower by {
            if entity_node(before, e) is None && j == before.len() {
                assert(!stands_for(before[i], e));
            } else {
                assert(now[i].label_lower == before[i].label_lower);
                assert(now[j].label_lower == before[j].label_lower);
            }
        }
    }
}

pub open spec fn has_id(nodes: Seq<NodeView>, id: Seq<char>) -> bool {
    exists|i: int| 0 <= i < nodes.len() && (#[trigger] nodes[i]).id == id
}

/// Both ends of every edge are nodes.
pub open spec fn attached(nodes: Seq<NodeView>, edges: Seq<EdgeView>) -> bool {
    forall|k: int|
        0 <= k < edges.len() ==> has_id(nodes, (#[trigger] edges[k]).source_id) && has_id(
            nodes,
            edges[k].target_id,
        )
}

/// Nodes are never lost: each keeps its place, its id and its names, and its memories only
/// grow.
pub proof fn law_nodes_are_kept(
    nodes: Seq<NodeView>,
    memory_id: Seq<char>,
    entities: Seq<EntityView>,
    i: int,
)
    requires
        0 <= i < nodes.len(),
    ensures
        nodes.len() <= after_entities(nodes, memory_id, entities).len(),
        ({
            let now = after_entities(nodes, memory_id, entities)[i];
            &&& now == (NodeView { memory_ids: now.memory_ids, ..nodes[i] })
            &&& now.memory_ids == nodes[i].memory_ids || now.memory_ids
                == nodes[i].memory_ids.push(memory_id)
        }),
    decreases entities.len(),
{
    if entities.len() > 0 {
        law_nodes_are_kept(nodes, memory_id, entities.drop_last(), i);
        let before = after_entities(nodes, memory_id, entities.drop_last());
        lemma_entity_node(before, entities.last());
        text_lists::lemma_push_text(nodes[i].memory_ids, memory_id, memory_id);
    }
}

/// Every edge stays attached to nodes of the graph, whatever a memory brings.
pub proof fn law_edges_stay_attached(
    nodes: Seq<NodeView>,
    edges: Seq<EdgeView>,
    memory_id: Seq<char>,
    entities: Seq<EntityView>,
    rels: Seq<RelationshipView>,
)
    requires
        attached(nodes, edges),
    ensures
        attached(
            after_entities(nodes, memory_id, entities),
            after_relationships(
                after_entities(nodes, memory_id, entities),
                edges,
                memory_id,
                rels,
            ),
        ),
    decreases rels.len(),
{
    let now = after_entities(nodes, memory_id, entities);
    if rels.len() == 0 {
        assert forall|k: int| 0 <= k < edges.len() implies has_id(
            now,
            (#[trigger] edges[k]).source_id,
        ) && has_id(now, edges[k].target_id) by {
            lemma_id_kept(nodes, memory_id, entities, edges[k].source_id);
            lemma_id_kept(nodes, memory_id, entities, edges[k].target_id);
        }
    } else {
        law_edges_stay_attached(nodes, edges, memory_id, entities, rels.drop_last());
        lemma_named_node(now, rels.last().source_lower);
        lemma_named_node(now, rels.last().target_lower);
    }
}

proof fn lemma_id_kept(
    nodes: Seq<NodeView>,
    memory_id: Seq<char>,
    entities: Seq<EntityView>,
    id: Seq<char>,
)
    requires
        has_id(nodes, id),
    ensures
        has_id(after_entities(nodes, memory_id, entities), id),
{
    let i = choose|i: int| 0 <= i < nodes.len() && (#[trigger] nodes[i]).id == id;
    law_nodes_are_kept(nodes, memory_id, entities, i);
    assert(after_entities(nodes, memory_id, entities)[i].id == id);
}

// ---------------------------------------------------------------------------
// Requests and responses
// ---------------------------------------------------------------------------

/// Query parameters of a rebuild.
#[derive(Debug, Clone, Copy)]
pub struct RebuildQuery {
    pub limit: Option<usize>,
}

/// How many memories a rebuild takes where the query does not say.
pub const DEFAULT_REBUILD_LIMIT: usize = 500;

impl RebuildQuery {
    pub fn memory_limit(&self) -> (limit: usize)
        ensures
            limit == match self.limit {
                Some(n) => n,
                None => DEFAULT_REBUILD_LIMIT,
            },
    {
        match self.limit {
            Some(n) => n,
            None => DEFAULT_REBUILD_LIMIT,
        }
    }
}

/// What a rebuild answers.
#[derive(Debug, Clone)]
pub struct RebuildGraphResponse {
    pub status: String,
    pub message: String,
}

/// The answer to a rebuild of a graph with the given numbers of nodes and edges from the given
/// number of memories.
pub fn rebuild_response(nodes: usize, edges: usize, memories: usize) -> (res: RebuildGraphResponse)
    ensures
        res.status@ == "completed"@,
        memories == 0 ==> res.message@ == "No memories to process"@,
        memories > 0 ==> res.message@ == "Built graph with "@ + text::decimal(nodes as nat)
            + " nodes and "@ + text::decimal(edges as nat) + " edges from "@ + text::decimal(
            memories as nat,
        ) + " memories"@,
{
    let message: String = if memories == 0 {
        "No memories to process".to_string()
    } else {
        let mut m: String = "Built graph with ".to_string();
        text::push_decimal(&mut m, nodes as u64);
        m.append(" nodes and ");
        text::push_decimal(&mut m, edges as u64);
        m.append(" edges from ");
        text::push_decimal(&mut m, memories as u64);
        m.append(" memories");
        m
    };
    RebuildGraphResponse { status: "completed".to_string(), message }
}

} // verus!
