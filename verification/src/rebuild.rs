//! The rebuild of a knowledge graph from memories, as a machine: it says what to do next, and
//! takes what came of it.

use crate::edge_merge;
use crate::knowledge_graph;
use crate::knowledge_graph::{
    rebuild_response, EdgeView, EntityView, Extraction, GraphBuilder, KnowledgeGraphEdge,
    KnowledgeGraphNode, NodeView, RebuildGraphResponse, RebuildQuery, RelationshipView,
    DEFAULT_REBUILD_LIMIT,
};
use crate::persona::INTERNAL_SERVER_ERROR;
use crate::text;
use crate::text_lists;
use vstd::prelude::*;

verus! {

pub const SERVICE_UNAVAILABLE: u16 = 503;

/// A memory to extract entities from.
#[derive(Debug, Clone)]
pub struct Memory {
    pub id: String,
    pub content: String,
}

/// What to do next.
#[derive(Debug, Clone, Copy, PartialEq, Eq, Structural)]
pub enum Stage {
    /// Delete the existing graph.
    Delete,
    /// Fetch memories.
    Fetch,
    /// Extract entities from a memory.
    Extract { at: usize },
    /// Save a node.
    SaveNode { at: usize },
    /// Save an edge.
    SaveEdge { at: usize },
    /// Refuse the request with an HTTP status.
    Refused { status: u16 },
    /// Answer the request.
    Answered,
}

// ---------------------------------------------------------------------------
// The course of a rebuild
// ---------------------------------------------------------------------------

/// The id and the content of a memory.
pub type MemoryView = (Seq<char>, Seq<char>);

#[verifier::ext_equal]
pub struct RebuildView {
    pub stage: Stage,
    pub limit: int,
    pub memories: Seq<MemoryView>,
    pub nodes: Seq<NodeView>,
    pub edges: Seq<EdgeView>,
}

/// What was extracted from a memory; none where that failed.
pub type Extracted = Option<(Seq<EntityView>, Seq<RelationshipView>)>;

/// A rebuild begins only where there is a key for the extraction.
pub open spec fn started(has_key: bool, limit: int) -> RebuildView {
    RebuildView {
        stage: if has_key {
            Stage::Delete
        } else {
            Stage::Refused { status: SERVICE_UNAVAILABLE }
        },
        limit,
        memories: Seq::empty(),
        nodes: Seq::empty(),
        edges: Seq::empty(),
    }
}

/// Whether the deletion succeeded does not matter.
pub open spec fn deleted(v: RebuildView) -> RebuildView {
    RebuildView { stage: Stage::Fetch, ..v }
}

/// Without memories the rebuild fails; with an empty list of them there is nothing to do.
pub open spec fn fetched(v: RebuildView, memories: Option<Seq<MemoryView>>) -> RebuildView {
    match memories {
        None => RebuildView { stage: Stage::Refused { status: INTERNAL_SERVER_ERROR }, ..v },
        Some(list) => RebuildView {
            stage: if list.len() == 0 {
                Stage::Answered
            } else {
                Stage::Extract { at: 0 }
            },
            memories: list,
            ..v
        },
    }
}

/// The edges behind the nodes, and the answer behind the edges.
pub open spec fn after_nodes(v: RebuildView) -> Stage {
    if v.edges.len() > 0 {
        Stage::SaveEdge { at: 0 }
    } else {
        Stage::Answered
    }
}

/// The edges are deduplicated before anything is saved.
pub open spec fn saving(v: RebuildView) -> RebuildView {
    let w = RebuildView { edges: edge_merge::deduplicated(v.edges), ..v };
    RebuildView {
        stage: if w.nodes.len() > 0 {
            Stage::SaveNode { at: 0 }
        } else {
            after_nodes(w)
        },
        ..w
    }
}

/// The nodes and edges with what was extracted from one more memory.
pub open spec fn absorbed(
    graph: (Seq<NodeView>, Seq<EdgeView>),
    memory_id: Seq<char>,
    x: Extracted,
) -> (Seq<NodeView>, Seq<EdgeView>) {
    match x {
        None => graph,
        Some(x) => {
            let nodes = knowledge_graph::after_entities(graph.0, memory_id, x.0);
            (nodes, knowledge_graph::after_relationships(nodes, graph.1, memory_id, x.1))
        },
    }
}

/// A failed extraction skips its memory.
pub open spec fn extracted(v: RebuildView, x: Extracted) -> RebuildView {
    match v.stage {
        Stage::Extract { at } => {
            let graph = absorbed((v.nodes, v.edges), v.memories[at as int].0, x);
            let w = RebuildView { nodes: graph.0, edges: graph.1, ..v };
            if at + 1 < v.memories.len() {
                RebuildView { stage: Stage::Extract { at: (at + 1) as usize }, ..w }
            } else {
                saving(w)
            }
        },
        _ => v,
    }
}

/// Whether something was saved does not matter: the next is saved, until all were tried.
pub open spec fn saved(v: RebuildView) -> RebuildView {
    let stage = match v.stage {
        Stage::SaveNode { at } => if at + 1 < v.nodes.len() {
            Stage::SaveNode { at: (at + 1) as usize }
        } else {
            after_nodes(v)
        },
        Stage::SaveEdge { at } => if at + 1 < v.edges.len() {
            Stage::SaveEdge { at: (at + 1) as usize }
        } else {
            Stage::Answered
        },
        other => other,
    };
    RebuildView { stage, ..v }
}

/// The graph that a run of extractions gives.
pub open spec fn graph_of(memories: Seq<MemoryView>, found: Seq<Extracted>) -> (
    Seq<NodeView>,
    Seq<EdgeView>,
)
    decreases found.len(),
{
    if found.len() == 0 {
        (Seq::empty(), Seq::empty())
    } else {
        absorbed(graph_of(memories, found.drop_last()), memories[found.len() - 1].0, found.last())
    }
}

/// The rebuild behind a run of extractions.
pub open spec fn after_extractions(v: RebuildView, found: Seq<Extracted>) -> RebuildView
    decreases found.len(),
{
    if found.len() == 0 {
        v
    } else {
        extracted(after_extractions(v, found.drop_last()), found.last())
    }
}

/// The rebuild behind a number of saves.
pub open spec fn after_saves(v: RebuildView, n: nat) -> RebuildView
    decreases n,
{
    if n == 0 {
        v
    } else {
        saved(after_saves(v, (n - 1) as nat))
    }
}

/// A rebuild without a key does nothing, not even delete; a failed fetch refuses; without
/// memories the answer comes at once, and nothing is saved.
pub proof fn law_rebuild_stops_early(limit: int, v: RebuildView)
    ensures
        started(false, limit).stage == (Stage::Refused { status: SERVICE_UNAVAILABLE }),
        started(true, limit).stage == Stage::Delete,
        fetched(v, None).stage == (Stage::Refused { status: INTERNAL_SERVER_ERROR }),
        fetched(v, Some(Seq::empty())).stage == Stage::Answered,
{
}

/// Every memory is extracted from once, in order, a failure skips one memory alone, and the
/// graph to save has what was found in all of them, its edges deduplicated.
pub proof fn law_rebuild_uses_every_memory(
    limit: int,
    memories: Seq<MemoryView>,
    found: Seq<Extracted>,
)
    requires
        0 < memories.len() <= usize::MAX,
        found.len() <= memories.len(),
    ensures
        ({
            let begun = fetched(deleted(started(true, limit)), Some(memories));
            let v = after_extractions(begun, found);
            let graph = graph_of(memories, found);
            &&& v.memories == memories
            &&& v.nodes == graph.0
            &&& found.len() < memories.len() ==> v.edges == graph.1 && v.stage == (Stage::Extract {
                at: found.len() as usize,
            })
            &&& found.len() == memories.len() ==> v.edges == edge_merge::deduplicated(graph.1)
                && v.stage == saving(v).stage
        }),
    decreases found.len(),
{
    if found.len() > 0 {
        law_rebuild_uses_every_memory(limit, memories, found.drop_last());
        edge_merge::law_deduplication_is_idempotent(graph_of(memories, found).1);
    }
}

/// Every node is saved once, and then every edge, in order and whatever comes of each; then
/// the answer is due.
pub proof fn law_rebuild_saves_everything(v: RebuildView, n: nat)
    requires
        v.nodes.len() <= usize::MAX,
        v.edges.len() <= usize::MAX,
        n <= v.nodes.len() + edge_merge::deduplicated(v.edges).len(),
    ensures
        ({
            let w = after_saves(saving(v), n);
            &&& w.nodes == v.nodes
            &&& w.edges == edge_merge::deduplicated(v.edges)
            &&& w.stage == if n < v.nodes.len() {
                Stage::SaveNode { at: n as usize }
            } else if n < v.nodes.len() + w.edges.len() {
                Stage::SaveEdge { at: (n - v.nodes.len()) as usize }
            } else {
                Stage::Answered
            }
        }),
    decreases n,
{
    edge_merge::law_deduplicated_keys(v.edges);
    if n > 0 {
        law_rebuild_saves_everything(v, (n - 1) as nat);
    }
}

// ---------------------------------------------------------------------------
// The machine
// ---------------------------------------------------------------------------

/// A rebuild under way.
pub struct Rebuild {
    stage: Stage,
    limit: usize,
    memories: Vec<Memory>,
    builder: GraphBuilder,
}

impl Memory {
    pub open spec fn view(&self) -> MemoryView {
        (self.id@, self.content@)
    }
}

pub open spec fn memory_views(memories: Seq<Memory>) -> Seq<MemoryView> {
    Seq::new(memories.len(), |i: int| memories[i]@)
}

/// What was extracted, in lower case and with an id for every new node and edge.
pub open spec fn lowered(x: Option<Extraction>, ids: Seq<Seq<char>>) -> Extracted {
    match x {
        None => None,
        Some(e) => Some(
            (
                knowledge_graph::lowered_entities(e.entities@, ids),
                knowledge_graph::lowered_relationships(
                    e.relationships@,
                    ids,
                    e.entities.len() as int,
                ),
            ),
        ),
    }
}

impl Rebuild {
    pub closed spec fn view(&self) -> RebuildView {
        RebuildView {
            stage: self.stage,
            limit: self.limit as int,
            memories: memory_views(self.memories@),
            nodes: self.builder.node_views(),
            edges: self.builder.edge_views(),
        }
    }

    pub closed spec fn wf(&self) -> bool {
        match self.stage {
            Stage::Extract { at } => at < self.memories.len(),
            Stage::SaveNode { at } => at < self.builder.nodes.len(),
            Stage::SaveEdge { at } => at < self.builder.edges.len(),
            _ => true,
        }
    }

    /// What is to be done is there to be done.
    pub proof fn lemma_wf(&self)
        requires
            self.wf(),
        ensures
            self@.stage matches Stage::Extract { at } ==> at < self@.memories.len(),
            self@.stage matches Stage::SaveNode { at } ==> at < self@.nodes.len(),
            self@.stage matches Stage::SaveEdge { at } ==> at < self@.edges.len(),
    {
    }

    /// A rebuild for a request, which has a key for the extraction or has not.
    pub fn new(has_key: bool, query: &RebuildQuery) -> (rebuild: Self)
        ensures
            rebuild.wf(),
            rebuild@ == started(
                has_key,
                match query.limit {
                    Some(n) => n as int,
                    None => DEFAULT_REBUILD_LIMIT as int,
                },
            ),
    {
        let rebuild = Rebuild {
            stage: if has_key {
                Stage::Delete
            } else {
                Stage::Refused { status: SERVICE_UNAVAILABLE }
            },
            limit: query.memory_limit(),
            memories: Vec::new(),
            builder: GraphBuilder::new(),
        };
        proof {
            assert(rebuild@.memories =~= Seq::<MemoryView>::empty());
            assert(rebuild@.nodes =~= Seq::<NodeView>::empty());
            assert(rebuild@.edges =~= Seq::<EdgeView>::empty());
        }
        rebuild
    }

    /// What to do next.
    pub fn stage(&self) -> (stage: Stage)
        ensures
            stage == self@.stage,
    {
        self.stage
    }

    /// How many memories to fetch.
    pub fn limit(&self) -> (limit: usize)
        ensures
            limit == self@.limit,
    {
        self.limit
    }

    /// The memory at a position.
    pub fn memory(&self, at: usize) -> (memory: &Memory)
        requires
            at < self@.memories.len(),
        ensures
            memory@ == self@.memories[at as int],
    {
        &self.memories[at]
    }

    /// The nodes found so far.
    pub fn nodes(&self) -> (nodes: &Vec<KnowledgeGraphNode>)
        ensures
            knowledge_graph::node_views(nodes@) == self@.nodes,
    {
        &self.builder.nodes
    }

    /// The edges found so far.
    pub fn edges(&self) -> (edges: &Vec<KnowledgeGraphEdge>)
        ensures
            knowledge_graph::edge_views(edges@) == self@.edges,
    {
        &self.builder.edges
    }

    /// The existing graph was deleted, or could not be.
    pub fn on_deleted(&mut self)
        requires
            old(self).wf(),
            old(self)@.stage == Stage::Delete,
        ensures
            final(self).wf(),
            final(self)@ == deleted(old(self)@),
    {
        self.stage = Stage::Fetch;
    }

    /// The memories were fetched, or could not be.
    pub fn on_fetched(&mut self, memories: Option<Vec<Memory>>)
        requires
            old(self).wf(),
            old(self)@.stage == Stage::Fetch,
        ensures
            final(self).wf(),
            final(self)@ == fetched(
                old(self)@,
                match memories {
                    Some(list) => Some(memory_views(list@)),
                    None => None,
                },
            ),
    {
        match memories {
            None => {
                self.stage = Stage::Refused { status: INTERNAL_SERVER_ERROR };
            },
            Some(list) => {
                self.stage = if list.len() == 0 {
                    Stage::Answered
                } else {
                    Stage::Extract { at: 0 }
                };
                self.memories = list;
            },
        }
    }

    /// Entities were extracted from the memory, or could not be. `ids` holds an unused id for
    /// every entity and every relationship.
    pub fn on_extracted(&mut self, extraction: Option<Extraction>, ids: &Vec<String>)
        requires
            old(self).wf(),
            old(self)@.stage is Extract,
            extraction matches Some(e) ==> ids.len() == e.entities.len() + e.relationships.len(),
        ensures
            final(self).wf(),
            final(self)@ == extracted(old(self)@, lowered(extraction, text_lists::texts(ids@))),
    {
        if let Stage::Extract { at } = self.stage {
            if let Some(e) = extraction {
                let id: String = self.memories[at].id.clone();
                self.builder.absorb(&id, e, ids);
            }
            if at + 1 < self.memories.len() {
                self.stage = Stage::Extract { at: at + 1 };
            } else {
                let mut found: Vec<KnowledgeGraphEdge> = Vec::new();
                found.append(&mut self.builder.edges);
                self.builder.edges = edge_merge::deduplicate_edges(found);
                self.stage = if self.builder.nodes.len() > 0 {
                    Stage::SaveNode { at: 0 }
                } else if self.builder.edges.len() > 0 {
                    Stage::SaveEdge { at: 0 }
                } else {
                    Stage::Answered
                };
            }
        }
    }

    /// The node or edge was saved, or could not be.
    pub fn on_saved(&mut self)
        requires
            old(self).wf(),
            old(self)@.stage is SaveNode || old(self)@.stage is SaveEdge,
        ensures
            final(self).wf(),
            final(self)@ == saved(old(self)@),
    {
        match self.stage {
            Stage::SaveNode { at } => {
                self.stage = if at + 1 < self.builder.nodes.len() {
                    Stage::SaveNode { at: at + 1 }
                } else if self.builder.edges.len() > 0 {
                    Stage::SaveEdge { at: 0 }
                } else {
                    Stage::Answered
                };
            },
            Stage::SaveEdge { at } => {
                self.stage = if at + 1 < self.builder.edges.len() {
                    Stage::SaveEdge { at: at + 1 }
                } else {
                    Stage::Answered
                };
            },
            _ => {},
        }
    }

    /// The answer to the request.
    pub fn response(&self) -> (res: RebuildGraphResponse)
        ensures
            res.status@ == "completed"@,
            self@.memories.len() == 0 ==> res.message@ == "No memories to process"@,
            self@.memories.len() > 0 ==> res.message@ == "Built graph with "@ + text::decimal(
                self@.nodes.len(),
            ) + " nodes and "@ + text::decimal(self@.edges.len()) + " edges from "@
                + text::decimal(self@.memories.len()) + " memories"@,
    {
        rebuild_response(self.builder.nodes.len(), self.builder.edges.len(), self.memories.len())
    }
}

} // verus!
