//! The enriched graph: communities, centrality scores and collapsed edges of a knowledge graph.

use crate::centrality;
use crate::communities;
use crate::graph_analytics;
use crate::graph_analytics::{ClusterInfo, KgEdge, KgNode, Modularity};
use crate::louvain_laws;
use crate::partition;
use crate::sums;
use crate::text_lists;
use crate::un_graph;
use crate::zip_back;
use crate::zip_back::PairWeight;
use petgraph::graph::UnGraph;
use std::collections::HashMap;
use vstd::hash_map::StringHashMap;
use vstd::prelude::*;

verus! {

broadcast use vstd::std_specs::hash::group_hash_axioms;

/// A node with its cluster and its scores.
#[derive(Debug, Clone)]
pub struct EnrichedNode {
    pub id: String,
    pub label: String,
    pub node_type: String,
    pub cluster_id: u32,
    pub degree_centrality: centrality::Fraction,
    pub closeness_centrality: centrality::Fraction,
}

#[derive(Debug, Clone)]
pub struct EnrichedGraph {
    pub nodes: Vec<EnrichedNode>,
    /// One edge for every pair of joined nodes, the id that sorts first in front.
    pub edges: Vec<PairWeight>,
    pub clusters: Vec<ClusterInfo>,
    pub modularity: Modularity,
}

/// The level of community detection that nodes and edges stand for.
pub open spec fn level_of_graph(nodes: Seq<KgNode>, edges: Seq<KgEdge>) -> crate::level::Level {
    communities::base_level(graph_analytics::collapsed(nodes, edges), nodes.len() as int)
}

/// The cluster of every node index.
pub open spec fn cluster_map(comm: Seq<int>) -> Map<usize, u32> {
    Map::new(|i: usize| i < comm.len(), |i: usize| comm[i as int] as u32)
}

/// The index of every node id.
pub open spec fn id_map(nodes: Seq<KgNode>) -> Map<Seq<char>, usize> {
    Map::new(
        |id: Seq<char>| graph_analytics::node_index(nodes, id) is Some,
        |id: Seq<char>| graph_analytics::node_index(nodes, id)->Some_0 as usize,
    )
}

/// An enriched node says what holds of node `i`.
pub open spec fn enriches(
    e: EnrichedNode,
    nodes: Seq<KgNode>,
    edges: Seq<KgEdge>,
    i: int,
) -> bool {
    let all = graph_analytics::collapsed(nodes, edges);
    let n = nodes.len() as int;
    let r = centrality::reach(all, n, i);
    let t = centrality::total_distance(all, n, i);
    &&& e.id@ == nodes[i].id@
    &&& e.label@ == nodes[i].label@
    &&& e.node_type@ == nodes[i].node_type@
    &&& e.cluster_id == louvain_laws::communities(level_of_graph(nodes, edges))[i]
    &&& if n <= 1 {
        e.degree_centrality.numerator == 0 && e.degree_centrality.denominator == 1
    } else {
        e.degree_centrality.numerator == un_graph::incident(all, i).len()
            && e.degree_centrality.denominator == n - 1
    }
    &&& if t == 0 {
        e.closeness_centrality.numerator == 0 && e.closeness_centrality.denominator == 1
    } else {
        e.closeness_centrality.numerator == (r - 1) * (r - 1)
            && e.closeness_centrality.denominator == (n - 1) * t
    }
}

/// An enriched edge is a collapsed edge between the ids of its nodes.
pub open spec fn names_edge(w: PairWeight, nodes: Seq<KgNode>, e: sums::Edge) -> bool {
    &&& (w.source_id@, w.target_id@) == zip_back::ordered_ends(
        nodes[e.0].id@,
        nodes[e.1].id@,
    )
    &&& w.weight == e.2
}

/// What the enriched graph says.
pub open spec fn is_enriched(g: EnrichedGraph, nodes: Seq<KgNode>, edges: Seq<KgEdge>) -> bool {
    let all = graph_analytics::collapsed(nodes, edges);
    let n = nodes.len() as int;
    let clusters = cluster_map(louvain_laws::communities(level_of_graph(nodes, edges)));
    let m2 = partition::double_weight(all);
    &&& g.nodes.len() == n
    &&& forall|i: int| 0 <= i < n ==> enriches(#[trigger] g.nodes[i], nodes, edges, i)
    &&& g.edges.len() == all.len()
    &&& forall|k: int| 0 <= k < all.len() ==> names_edge(#[trigger] g.edges[k], nodes, all[k])
    &&& g.clusters.len() == louvain_laws::community_count(level_of_graph(nodes, edges))
    &&& forall|c: int|
        0 <= c < g.clusters.len() ==> (#[trigger] g.clusters[c]).id == c
            && graph_analytics::describes(g.clusters[c], all, nodes, id_map(nodes), clusters)
    &&& if m2 == 0 {
        g.modularity.plus@ == 0 && g.modularity.minus@ == 0 && g.modularity.denominator@ == 1
    } else {
        g.modularity.plus@ - g.modularity.minus@ == partition::modularity_numerator(
            all,
            n,
            clusters,
        ) && g.modularity.denominator@ == m2 * m2
    }
}

proof fn lemma_id_map(nodes: Seq<KgNode>, map: Map<Seq<char>, usize>)
    requires
        nodes.len() <= u32::MAX,
        graph_analytics::maps_ids(nodes, map),
    ensures
        map == id_map(nodes),
{
    assert forall|id: Seq<char>| #[trigger] map.contains_key(id) <==> id_map(nodes).contains_key(
        id,
    ) by {
        assert(graph_analytics::node_index(nodes, id) is Some || graph_analytics::node_index(
            nodes,
            id,
        ) is None);
    }
    assert forall|id: Seq<char>| map.contains_key(id) implies #[trigger] map[id] == id_map(
        nodes,
    )[id] by {
        assert(graph_analytics::node_index(nodes, id) is Some);
    }
    assert(map =~= id_map(nodes));
}

proof fn lemma_cluster_map(clusters: Map<usize, u32>, comm: Seq<int>)
    requires
        partition::numbers(clusters, comm),
        comm.len() <= usize::MAX,
    ensures
        clusters == cluster_map(comm),
{
    assert forall|i: usize| #[trigger] clusters.contains_key(i) <==> cluster_map(
        comm,
    ).contains_key(i) by {
        if i < comm.len() {
            assert(comm[i as int] == partition::cluster_of(clusters, i as int)->Some_0);
        }
    }
    assert forall|i: usize| clusters.contains_key(i) implies #[trigger] clusters[i] == cluster_map(
        comm,
    )[i] by {
        assert(comm[i as int] == partition::cluster_of(clusters, i as int)->Some_0);
    }
    assert(clusters =~= cluster_map(comm));
}

spec fn has_info(infos: Seq<ClusterInfo>, c: int) -> bool {
    exists|s: int| 0 <= s < infos.len() && (#[trigger] infos[s]).id == c
}

/// Ascending ids that are all below `count`, with none left out, are `0, 1, 2, ...`.
proof fn lemma_dense_ids(infos: Seq<ClusterInfo>, count: int)
    requires
        0 <= count,
        forall|s: int, t: int|
            0 <= s < t < infos.len() ==> (#[trigger] infos[s]).id < (#[trigger] infos[t]).id,
        forall|s: int| 0 <= s < infos.len() ==> (#[trigger] infos[s]).id < count,
        forall|c: int| 0 <= c < count ==> #[trigger] has_info(infos, c),
    ensures
        infos.len() == count,
        forall|c: int| 0 <= c < count ==> (#[trigger] infos[c]).id == c,
{
    lemma_dense_prefix(infos, count, count);
    if infos.len() > 0 {
        lemma_at_least(infos, infos.len() - 1);
    }
    if count > 0 {
        assert(has_info(infos, count - 1));
        let s = choose|s: int| 0 <= s < infos.len() && (#[trigger] infos[s]).id == count - 1;
        lemma_at_least(infos, s);
        if s < count - 1 {
            assert(infos[s].id == s);
        }
    }
}

proof fn lemma_at_least(infos: Seq<ClusterInfo>, s: int)
    requires
        0 <= s < infos.len(),
        forall|s: int, t: int|
            0 <= s < t < infos.len() ==> (#[trigger] infos[s]).id < (#[trigger] infos[t]).id,
    ensures
        infos[s].id >= s,
    decreases s,
{
    if s > 0 {
        lemma_at_least(infos, s - 1);
        assert(infos[s - 1].id < infos[s].id);
    }
}

proof fn lemma_dense_prefix(infos: Seq<ClusterInfo>, count: int, t: int)
    requires
        0 <= t <= count,
        forall|s: int, t: int|
            0 <= s < t < infos.len() ==> (#[trigger] infos[s]).id < (#[trigger] infos[t]).id,
        forall|c: int| 0 <= c < count ==> #[trigger] has_info(infos, c),
    ensures
        t <= infos.len(),
        forall|c: int| 0 <= c < t ==> (#[trigger] infos[c]).id == c,
    decreases t,
{
    if t > 0 {
        lemma_dense_prefix(infos, count, t - 1);
        let c = t - 1;
        assert(has_info(infos, c));
        let s = choose|s: int| 0 <= s < infos.len() && (#[trigger] infos[s]).id == c;
        lemma_at_least(infos, s);
        if s < c {
            assert(infos[s].id == s);
        }
    }
}

/// The collapsed edges between the ids of their nodes.
fn named_edges(g: &UnGraph<String, u128>, nodes: &[KgNode]) -> (res: Vec<PairWeight>)
    requires
        un_graph::graph_nodes(*g).len() == nodes.len(),
    ensures
        res.len() == un_graph::graph_edges(*g).len(),
        forall|k: int|
            0 <= k < res.len() ==> names_edge(
                #[trigger] res[k],
                nodes@,
                un_graph::graph_edges(*g)[k],
            ),
{
    let edges: Vec<(usize, usize, u128)> = un_graph::edge_list(g);
    let ghost all = un_graph::graph_edges(*g);
    let mut res: Vec<PairWeight> = Vec::new();
    let mut k: usize = 0;
    while k < edges.len()
        invariant
            k <= edges.len(),
            res.len() == k,
            all == communities::edges_of(edges@),
            all == un_graph::graph_edges(*g),
            un_graph::graph_nodes(*g).len() == nodes.len(),
            forall|j: int|
                0 <= j < edges.len() ==> (#[trigger] edges[j]).0 < un_graph::graph_nodes(*g).len()
                    && edges[j].1 < un_graph::graph_nodes(*g).len(),
            forall|j: int| 0 <= j < k ==> names_edge(#[trigger] res[j], nodes@, all[j]),
        decreases edges.len() - k,
    {
        let (a, b, weight): (usize, usize, u128) = edges[k];
        assert(edges[k as int].0 < un_graph::graph_nodes(*g).len());
        assert(all[k as int] == communities::edge_of(edges@[k as int]));
        let x: &String = &nodes[a].id;
        let y: &String = &nodes[b].id;
        let w = if text_lists::text_le(x.as_str(), y.as_str()) {
            PairWeight { source_id: x.clone(), target_id: y.clone(), weight }
        } else {
            PairWeight { source_id: y.clone(), target_id: x.clone(), weight }
        };
        res.push(w);
        k += 1;
    }
    res
}

/// The labels of dense clusters: cluster `c` is the one at position `c`.
fn cluster_infos(
    g: &UnGraph<String, u128>,
    idx_map: &StringHashMap<usize>,
    nodes: &[KgNode],
    clusters: &HashMap<usize, u32>,
    Ghost(comm): Ghost<Seq<int>>,
    Ghost(count): Ghost<int>,
) -> (infos: Vec<ClusterInfo>)
    requires
        graph_analytics::distinct_ids(nodes@),
        graph_analytics::maps_ids(nodes@, idx_map@),
        comm.len() == nodes.len(),
        partition::numbers(clusters@, comm),
        0 <= count,
        forall|i: int| 0 <= i < comm.len() ==> 0 <= #[trigger] comm[i] < count,
        forall|c: int| 0 <= c < count ==> #[trigger] comm.contains(c),
    ensures
        infos.len() == count,
        forall|c: int|
            0 <= c < infos.len() ==> (#[trigger] infos[c]).id == c && graph_analytics::describes(
                infos[c],
                un_graph::graph_edges(*g),
                nodes@,
                idx_map@,
                clusters@,
            ),
{
    let ghost all = un_graph::graph_edges(*g);
    proof {
        lemma_tops_are_mapped(all, nodes@, idx_map@, clusters@, comm);
    }
    let infos: Vec<ClusterInfo> = graph_analytics::label_clusters(g, idx_map, nodes, clusters);
    proof {
        assert forall|s: int| 0 <= s < infos.len() implies (#[trigger] infos[s]).id < count by {
            lemma_id_used(infos[s], all, nodes@, idx_map@, clusters@, comm, count);
        }
        assert forall|c: int| 0 <= c < count implies #[trigger] has_info(infos@, c) by {
            assert(comm.contains(c));
            lemma_info_of(infos@, clusters@, comm, c);
        }
        lemma_dense_ids(infos@, count);
    }
    infos
}

/// The nodes with their clusters and scores.
fn enriched_nodes(
    g: &UnGraph<String, u128>,
    nodes: &[KgNode],
    clusters: &HashMap<usize, u32>,
    Ghost(edges): Ghost<Seq<KgEdge>>,
) -> (out: Vec<EnrichedNode>)
    requires
        un_graph::graph_nodes(*g).len() == nodes.len(),
        un_graph::graph_edges(*g) == graph_analytics::collapsed(nodes@, edges),
        louvain_laws::communities(level_of_graph(nodes@, edges)).len() == nodes.len(),
        partition::numbers(
            clusters@,
            louvain_laws::communities(level_of_graph(nodes@, edges)),
        ),
    ensures
        out.len() == nodes.len(),
        forall|i: int| 0 <= i < out.len() ==> enriches(#[trigger] out[i], nodes@, edges, i),
{
    let ghost comm = louvain_laws::communities(level_of_graph(nodes@, edges));
    let ghost all = graph_analytics::collapsed(nodes@, edges);
    let degree: Vec<centrality::Fraction> = centrality::degree_centrality(g);
    let closeness: Vec<centrality::Fraction> = centrality::closeness_centrality(g);
    let mut out: Vec<EnrichedNode> = Vec::new();
    let mut i: usize = 0;
    while i < nodes.len()
        invariant
            i <= nodes.len(),
            out.len() == i,
            degree.len() == nodes.len(),
            closeness.len() == nodes.len(),
            comm.len() == nodes.len(),
            comm == louvain_laws::communities(level_of_graph(nodes@, edges)),
            all == graph_analytics::collapsed(nodes@, edges),
            partition::numbers(clusters@, comm),
            forall|j: int|
                0 <= j < degree.len() ==> if degree.len() <= 1 {
                    (#[trigger] degree[j]).numerator == 0 && degree[j].denominator == 1
                } else {
                    (#[trigger] degree[j]).numerator == un_graph::incident(all, j).len()
                        && degree[j].denominator == degree.len() - 1
                },
            forall|v: int|
                0 <= v < closeness.len() ==> {
                    let n = closeness.len() as int;
                    let r = centrality::reach(all, n, v);
                    let t = centrality::total_distance(all, n, v);
                    if t == 0 {
                        (#[trigger] closeness[v]).numerator == 0 && closeness[v].denominator == 1
                    } else {
                        (#[trigger] closeness[v]).numerator == (r - 1) * (r - 1)
                            && closeness[v].denominator == (n - 1) * t
                    }
                },
            forall|j: int| 0 <= j < i ==> enriches(#[trigger] out[j], nodes@, edges, j),
        decreases nodes.len() - i,
    {
        assert(comm[i as int] == partition::cluster_of(clusters@, i as int)->Some_0);
        let cluster_id: u32 = match clusters.get(&i) {
            Some(c) => *c,
            None => 0,
        };
        out.push(
            EnrichedNode {
                id: nodes[i].id.clone(),
                label: nodes[i].label.clone(),
                node_type: nodes[i].node_type.clone(),
                cluster_id,
                degree_centrality: degree[i],
                closeness_centrality: closeness[i],
            },
        );
        assert(enriches(out[i as int], nodes@, edges, i as int));
        i += 1;
    }
    out
}

/// Communities, centrality scores, collapsed edges and cluster labels of a graph.
pub fn enrich_graph(nodes: &[KgNode], edges: &[KgEdge]) -> (res: EnrichedGraph)
    requires
        can_be_enriched(nodes@, edges@),
    ensures
        is_enriched(res, nodes@, edges@),
{
    let ghost l = level_of_graph(nodes@, edges@);
    let ghost comm = louvain_laws::communities(l);
    let ghost all = graph_analytics::collapsed(nodes@, edges@);
    let (g, idx_map): (UnGraph<String, u128>, StringHashMap<usize>) = graph_analytics::build_graph(
        nodes,
        edges,
    );
    proof {
        graph_analytics::law_built_graph_is_simple(nodes@, edges@);
        louvain_laws::law_numbers_are_dense(l);
        lemma_id_map(nodes@, idx_map@);
    }
    let (clusters, count): (HashMap<usize, u32>, usize) = graph_analytics::louvain_communities(&g);
    proof {
        lemma_cluster_map(clusters@, comm);
        assert(graph_analytics::covers(g, clusters@)) by {
            assert forall|k: int| 0 <= k < all.len() implies partition::cluster_of(
                clusters@,
                (#[trigger] all[k]).0,
            ) is Some && partition::cluster_of(clusters@, all[k].1) is Some by {
                assert(l.edges[k] == all[k]);
                assert(comm[all[k].0] == partition::cluster_of(clusters@, all[k].0)->Some_0);
                assert(comm[all[k].1] == partition::cluster_of(clusters@, all[k].1)->Some_0);
            }
        }
    }
    EnrichedGraph {
        nodes: enriched_nodes(&g, nodes, &clusters, Ghost(edges@)),
        edges: named_edges(&g, nodes),
        clusters: cluster_infos(
            &g,
            &idx_map,
            nodes,
            &clusters,
            Ghost(comm),
            Ghost(count as int),
        ),
        modularity: graph_analytics::modularity(&g, &clusters),
    }
}

/// The index of every node id, where no id occurs twice.
fn index_distinct(nodes: &[KgNode]) -> (res: Option<StringHashMap<usize>>)
    ensures
        match res {
            Some(map) => graph_analytics::distinct_ids(nodes@) && graph_analytics::maps_ids(
                nodes@,
                map@,
            ),
            None => !graph_analytics::distinct_ids(nodes@),
        },
{
    let mut map: StringHashMap<usize> = StringHashMap::new();
    let mut i: usize = 0;
    assert(nodes@.take(0) =~= Seq::<KgNode>::empty());
    while i < nodes.len()
        invariant
            i <= nodes.len(),
            graph_analytics::distinct_ids(nodes@.take(i as int)),
            graph_analytics::maps_ids(nodes@.take(i as int), map@),
        decreases nodes.len() - i,
    {
        let ghost before = nodes@.take(i as int);
        let ghost now = nodes@.take(i + 1);
        let ghost id = nodes[i as int].id@;
        proof {
            graph_analytics::lemma_node_index(before, id);
            assert(graph_analytics::node_index(before, id) is Some <==> map@.contains_key(id));
        }
        if map.contains_key(nodes[i].id.as_str()) {
            proof {
                let p = graph_analytics::node_index(before, id)->Some_0;
                assert(before[p] == nodes@[p]);
                assert(nodes@[p].id@ == nodes@[i as int].id@);
            }
            return None;
        }
        map.insert(nodes[i].id.clone(), i);
        proof {
            assert(now.drop_last() =~= before);
            assert(now.last() == nodes@[i as int]);
            assert forall|p: int, q: int| 0 <= p < q < now.len() implies (
            #[trigger] now[p]).id@ != (#[trigger] now[q]).id@ by {
                assert(now[p] == before[p]);
                if q < i {
                    assert(now[q] == before[q]);
                }
            }
        }
        i += 1;
    }
    assert(nodes@.take(i as int) =~= nodes@);
    Some(map)
}

/// What `enrich_graph` asks of a graph: distinct ids, and no more nodes and joined pairs than can
/// be indexed.
pub open spec fn can_be_enriched(nodes: Seq<KgNode>, edges: Seq<KgEdge>) -> bool {
    &&& nodes.len() <= u32::MAX
    &&& graph_analytics::distinct_ids(nodes)
    &&& graph_analytics::joined_pairs(nodes, edges).len() <= u32::MAX
}

/// Enriches any graph; `None` where it has repeated ids or is beyond the limits.
pub fn checked_enrich_graph(nodes: &[KgNode], edges: &[KgEdge]) -> (res: Option<EnrichedGraph>)
    ensures
        match res {
            Some(r) => can_be_enriched(nodes@, edges@) && is_enriched(r, nodes@, edges@),
            None => !can_be_enriched(nodes@, edges@),
        },
{
    if nodes.len() as u64 > 0xffff_ffff {
        return None;
    }
    match index_distinct(nodes) {
        None => None,
        Some(idx_map) => {
            proof {
                graph_analytics::lemma_joined_pairs(nodes@, edges@);
            }
            if edges.len() as u64 > 0xffff_ffff {
                let pairs: Vec<(usize, usize, u128)> = graph_analytics::collapse_edges(
                    nodes,
                    edges,
                    &idx_map,
                );
                assert(communities::edges_of(pairs@).len() == pairs.len());
                if pairs.len() as u64 > 0xffff_ffff {
                    return None;
                }
            }
            Some(enrich_graph(nodes, edges))
        },
    }
}

/// With distinct ids every node of every cluster is mapped.
proof fn lemma_tops_are_mapped(
    all: Seq<sums::Edge>,
    nodes: Seq<KgNode>,
    map: Map<Seq<char>, usize>,
    clusters: Map<usize, u32>,
    comm: Seq<int>,
)
    requires
        graph_analytics::distinct_ids(nodes),
        graph_analytics::maps_ids(nodes, map),
        comm.len() == nodes.len(),
        partition::numbers(clusters, comm),
    ensures
        forall|c: u32, ix: usize| #[trigger]
            graph_analytics::top_degree(all, clusters, c, ix) ==> graph_analytics::node_at(
                nodes,
                map,
                ix,
            ) is Some,
{
    assert forall|c: u32, ix: usize| #[trigger]
        graph_analytics::top_degree(all, clusters, c, ix) implies graph_analytics::node_at(
        nodes,
        map,
        ix,
    ) is Some by {
        assert(clusters.contains_key(ix));
        graph_analytics::law_indices_are_positions(nodes, map, ix);
    }
}

/// A described cluster has a member.
proof fn lemma_described(
    info: ClusterInfo,
    all: Seq<sums::Edge>,
    nodes: Seq<KgNode>,
    map: Map<Seq<char>, usize>,
    clusters: Map<usize, u32>,
) -> (ix: usize)
    requires
        graph_analytics::describes(info, all, nodes, map, clusters),
    ensures
        clusters.contains_key(ix),
        clusters[ix] == info.id,
{
    let ix = choose|ix: usize| #[trigger]
        graph_analytics::is_hub(all, clusters, info.id, ix) && graph_analytics::node_at(
            nodes,
            map,
            ix,
        ) is Some && info.label@ == nodes[graph_analytics::node_at(
            nodes,
            map,
            ix,
        )->Some_0].label@;
    assert(graph_analytics::top_degree(all, clusters, info.id, ix));
    ix
}

proof fn lemma_id_used(
    info: ClusterInfo,
    all: Seq<sums::Edge>,
    nodes: Seq<KgNode>,
    map: Map<Seq<char>, usize>,
    clusters: Map<usize, u32>,
    comm: Seq<int>,
    count: int,
)
    requires
        graph_analytics::describes(info, all, nodes, map, clusters),
        partition::numbers(clusters, comm),
        forall|i: int| 0 <= i < comm.len() ==> 0 <= #[trigger] comm[i] < count,
    ensures
        info.id < count,
{
    let ix = lemma_described(info, all, nodes, map, clusters);
    assert(comm[ix as int] == partition::cluster_of(clusters, ix as int)->Some_0);
}

proof fn lemma_info_of(
    infos: Seq<ClusterInfo>,
    clusters: Map<usize, u32>,
    comm: Seq<int>,
    c: int,
)
    requires
        partition::numbers(clusters, comm),
        comm.len() <= usize::MAX,
        comm.contains(c),
        graph_analytics::cluster_ids(infos).to_set() == clusters.values(),
    ensures
        has_info(infos, c),
{
    let i = choose|i: int| 0 <= i < comm.len() && comm[i] == c;
    assert(comm[i] == partition::cluster_of(clusters, i)->Some_0);
    assert(clusters.contains_key(i as usize));
    let ids = graph_analytics::cluster_ids(infos);
    assert(clusters.values().contains(clusters[i as usize]));
    assert(ids.to_set().contains(clusters[i as usize]));
    let s = choose|s: int| 0 <= s < ids.len() && ids[s] == clusters[i as usize];
    assert(infos[s].id == c);
}

// ---------------------------------------------------------------------------
// Weights zipped back onto stored edges
// ---------------------------------------------------------------------------

proof fn lemma_weight_of_only(
    weights: Seq<PairWeight>,
    pair: (Seq<char>, Seq<char>),
    q: int,
    t: int,
)
    requires
        0 <= q < weights.len(),
        0 <= t <= weights.len(),
        forall|j: int|
            0 <= j < weights.len() ==> (((#[trigger] weights[j]).source_id@ == pair.0
                && weights[j].target_id@ == pair.1) <==> j == q),
    ensures
        zip_back::weight_of(weights.take(t), pair) == if q < t {
            Some(weights[q].weight)
        } else {
            None
        },
    decreases t,
{
    if t > 0 {
        lemma_weight_of_only(weights, pair, q, t - 1);
        let now = weights.take(t);
        assert(now.drop_last() =~= weights.take(t - 1));
        assert(now.last() == weights[t - 1]);
    }
}

proof fn lemma_edge_joins(nodes: Seq<KgNode>, edges: Seq<KgEdge>, k: int)
    requires
        0 <= k < edges.len(),
        graph_analytics::joined_pair(nodes, edges[k]) is Some,
    ensures
        graph_analytics::joined_pairs(nodes, edges).contains(
            graph_analytics::joined_pair(nodes, edges[k])->Some_0,
        ),
    decreases edges.len(),
{
    let p = graph_analytics::joined_pair(nodes, edges[k])->Some_0;
    let rest = edges.drop_last();
    graph_analytics::lemma_pair_weight(nodes, edges, p);
    graph_analytics::lemma_pair_weight(nodes, rest, p);
    if k < rest.len() {
        assert(rest[k] == edges[k]);
        lemma_edge_joins(nodes, rest, k);
    }
}

/// Two collapsed edges never have the same named ends.
proof fn lemma_ends_differ(nodes: Seq<KgNode>, p: (int, int), q: (int, int))
    requires
        graph_analytics::distinct_ids(nodes),
        0 <= p.0 < p.1 < nodes.len(),
        0 <= q.0 < q.1 < nodes.len(),
        zip_back::ordered_ends(nodes[p.0].id@, nodes[p.1].id@)
            == zip_back::ordered_ends(nodes[q.0].id@, nodes[q.1].id@),
    ensures
        p == q,
{
    assert(nodes[p.0].id@ != nodes[p.1].id@);
    assert(nodes[q.0].id@ != nodes[q.1].id@);
    if p.0 != q.0 {
        if p.0 < q.0 {
            assert(nodes[p.0].id@ != nodes[q.0].id@);
        } else {
            assert(nodes[q.0].id@ != nodes[p.0].id@);
        }
    }
    if p.1 != q.1 {
        if p.1 < q.1 {
            assert(nodes[p.1].id@ != nodes[q.1].id@);
        } else {
            assert(nodes[q.1].id@ != nodes[p.1].id@);
        }
    }
    if p.0 != q.1 {
        if p.0 < q.1 {
            assert(nodes[p.0].id@ != nodes[q.1].id@);
        } else {
            assert(nodes[q.1].id@ != nodes[p.0].id@);
        }
    }
    if p.1 != q.0 {
        if p.1 < q.0 {
            assert(nodes[p.1].id@ != nodes[q.0].id@);
        } else {
            assert(nodes[q.0].id@ != nodes[p.1].id@);
        }
    }
}

/// Every edge that joins two nodes finds, by the unordered pair of its ends, the collapsed
/// weight of that pair in the enriched graph.
pub proof fn law_edges_find_their_weight(
    nodes: Seq<KgNode>,
    edges: Seq<KgEdge>,
    g: EnrichedGraph,
    k: int,
)
    requires
        graph_analytics::distinct_ids(nodes),
        is_enriched(g, nodes, edges),
        0 <= k < edges.len(),
        graph_analytics::joined_pair(nodes, edges[k]) is Some,
    ensures
        ({
            let p = graph_analytics::joined_pair(nodes, edges[k])->Some_0;
            let found = zip_back::weight_of(
                g.edges@,
                zip_back::ordered_ends(edges[k].source_id@, edges[k].target_id@),
            );
            found is Some && found->Some_0 == graph_analytics::pair_weight(nodes, edges, p)
        }),
{
    let e = edges[k];
    let p = graph_analytics::joined_pair(nodes, e)->Some_0;
    let pairs = graph_analytics::joined_pairs(nodes, edges);
    let all = graph_analytics::collapsed(nodes, edges);
    let ends = zip_back::ordered_ends(e.source_id@, e.target_id@);
    lemma_edge_joins(nodes, edges, k);
    graph_analytics::lemma_joined_pairs(nodes, edges);
    graph_analytics::lemma_node_index(nodes, e.source_id@);
    graph_analytics::lemma_node_index(nodes, e.target_id@);
    let q = choose|q: int| 0 <= q < pairs.len() && pairs[q] == p;
    zip_back::law_pairs_are_unordered(e.source_id@, e.target_id@);
    assert(ends == zip_back::ordered_ends(nodes[p.0].id@, nodes[p.1].id@));
    assert forall|j: int| 0 <= j < g.edges.len() implies (((#[trigger] g.edges@[j]).source_id@
        == ends.0 && g.edges@[j].target_id@ == ends.1) <==> j == q) by {
        assert(names_edge(g.edges[j], nodes, all[j]));
        assert(all[j].0 == pairs[j].0 && all[j].1 == pairs[j].1);
        if g.edges@[j].source_id@ == ends.0 && g.edges@[j].target_id@ == ends.1 && j != q {
            lemma_ends_differ(nodes, pairs[j], p);
            assert(pairs[j] == pairs[q]);
        }
    }
    lemma_weight_of_only(g.edges@, ends, q, g.edges.len() as int);
    assert(g.edges@.take(g.edges.len() as int) =~= g.edges@);
    assert(names_edge(g.edges[q], nodes, all[q]));
}

} // verus!
