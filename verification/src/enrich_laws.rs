//! What an enriched graph says of the nodes and edges that it was made from.

use crate::centrality_laws;
use crate::communities;
use crate::enrich;
use crate::enrich::EnrichedGraph;
use crate::graph_analytics;
use crate::graph_analytics::{KgEdge, KgNode};
use crate::graph_laws;
use crate::grouping;
use crate::louvain_laws;
use crate::partition;
use crate::sums;
use crate::text_lists;
use crate::zip_back;
use vstd::prelude::*;

verus! {

/// Every node is there, in its place and with its names. Its degree score counts the joined
/// pairs that it is part of, over the number of other nodes, and its closeness comes from the
/// lengths of shortest walks, whatever list of these is given.
pub proof fn law_enriched_nodes(
    g: EnrichedGraph,
    nodes: Seq<KgNode>,
    edges: Seq<KgEdge>,
    i: int,
    d: Seq<Option<nat>>,
)
    requires
        enrich::is_enriched(g, nodes, edges),
        0 <= i < nodes.len(),
        d.len() == nodes.len(),
        forall|v: int|
            0 <= v < d.len() ==> centrality_laws::shortest(
                graph_analytics::collapsed(nodes, edges),
                i,
                v,
                #[trigger] d[v],
            ),
    ensures
        g.nodes.len() == nodes.len(),
        g.nodes[i].id@ == nodes[i].id@,
        g.nodes[i].label@ == nodes[i].label@,
        g.nodes[i].node_type@ == nodes[i].node_type@,
        ({
            let all = graph_analytics::collapsed(nodes, edges);
            let n = nodes.len() as int;
            let degree = sums::sum_to(
                all.len() as int,
                |k: int|
                    if all[k].0 == i || all[k].1 == i {
                        1
                    } else {
                        0
                    },
            );
            let score = g.nodes[i].degree_centrality;
            if n >= 2 {
                score.numerator == degree && score.denominator == n - 1
            } else {
                score.numerator == 0 && score.denominator == 1
            }
        }),
        ({
            let n = nodes.len() as int;
            let reach = sums::sum_to(
                n,
                |v: int|
                    if d[v] is Some {
                        1
                    } else {
                        0
                    },
            );
            let total = sums::sum_to(
                n,
                |v: int|
                    if d[v] is Some {
                        d[v]->Some_0 as int
                    } else {
                        0
                    },
            );
            let score = g.nodes[i].closeness_centrality;
            if total == 0 {
                score.numerator == 0 && score.denominator == 1
            } else {
                score.numerator == (reach - 1) * (reach - 1) && score.denominator == (n - 1) * total
            }
        }),
{
    let all = graph_analytics::collapsed(nodes, edges);
    assert(enrich::enriches(g.nodes[i], nodes, edges, i));
    centrality_laws::law_degree_counts_edges(all, i);
    centrality_laws::law_closeness_counts_walks(all, nodes.len() as int, i, d);
}

/// Two different nodes that some edge joins are joined in the enriched graph, by an entry that
/// has the two ids, the one that sorts first in front, and the sum of the weights, each at least
/// one, of all edges between them.
pub proof fn law_enriched_edges(
    g: EnrichedGraph,
    nodes: Seq<KgNode>,
    edges: Seq<KgEdge>,
    a: int,
    b: int,
)
    requires
        enrich::is_enriched(g, nodes, edges),
        0 <= a < b < nodes.len(),
    ensures
        (exists|k: int| 0 <= k < edges.len() && graph_laws::joins(nodes, #[trigger] edges[k], a, b))
            ==> exists|q: int| 0 <= q < g.edges.len() && #[trigger] weighs(g, nodes, edges, q, a, b),
{
    if exists|k: int| 0 <= k < edges.len() && graph_laws::joins(nodes, #[trigger] edges[k], a, b) {
        let all = graph_analytics::collapsed(nodes, edges);
        graph_laws::law_built_edges_sum_up(nodes, edges, a, b);
        let q = choose|q: int| 0 <= q < all.len() && (#[trigger] all[q]).0 == a && all[q].1 == b;
        assert(enrich::names_edge(g.edges[q], nodes, all[q]));
        zip_back::law_ends_are_put_in_order(nodes[a].id@, nodes[b].id@);
        assert(weighs(g, nodes, edges, q, a, b));
    }
}

/// Entry `q` joins the nodes at `a` and `b`, with the weight of all edges between them.
pub open spec fn weighs(
    g: EnrichedGraph,
    nodes: Seq<KgNode>,
    edges: Seq<KgEdge>,
    q: int,
    a: int,
    b: int,
) -> bool {
    let x = g.edges[q].source_id@;
    let y = g.edges[q].target_id@;
    &&& (x == nodes[a].id@ && y == nodes[b].id@) || (x == nodes[b].id@ && y == nodes[a].id@)
    &&& text_lists::not_behind(x, y)
    &&& g.edges[q].weight == sums::sum_to(
        edges.len() as int,
        graph_laws::adds(nodes, edges, a, b),
    )
}

/// Every entry of the enriched graph joins two different nodes that some edge joins.
pub proof fn law_enriched_edges_are_joined(
    g: EnrichedGraph,
    nodes: Seq<KgNode>,
    edges: Seq<KgEdge>,
    q: int,
)
    requires
        enrich::is_enriched(g, nodes, edges),
        0 <= q < g.edges.len(),
    ensures
        exists|a: int, b: int|
            {
                &&& 0 <= a < b < nodes.len()
                &&& #[trigger] weighs(g, nodes, edges, q, a, b)
                &&& exists|k: int|
                    0 <= k < edges.len() && graph_laws::joins(nodes, #[trigger] edges[k], a, b)
            },
{
    let all = graph_analytics::collapsed(nodes, edges);
    graph_analytics::lemma_joined_pairs(nodes, edges);
    let pairs = graph_analytics::joined_pairs(nodes, edges);
    let (a, b) = pairs[q];
    assert(all[q].0 == a && all[q].1 == b);
    assert(enrich::names_edge(g.edges[q], nodes, all[q]));
    graph_laws::law_built_edges_sum_up(nodes, edges, a, b);
    zip_back::law_ends_are_put_in_order(nodes[a].id@, nodes[b].id@);
    assert(weighs(g, nodes, edges, q, a, b));
}

/// No pair of nodes has two entries.
pub proof fn law_enriched_edges_are_distinct(
    g: EnrichedGraph,
    nodes: Seq<KgNode>,
    edges: Seq<KgEdge>,
    q: int,
    r: int,
)
    requires
        enrich::can_be_enriched(nodes, edges),
        enrich::is_enriched(g, nodes, edges),
        0 <= q < r < g.edges.len(),
    ensures
        g.edges[q].source_id@ != g.edges[r].source_id@ || g.edges[q].target_id@
            != g.edges[r].target_id@,
{
    let all = graph_analytics::collapsed(nodes, edges);
    let pairs = graph_analytics::joined_pairs(nodes, edges);
    graph_analytics::lemma_joined_pairs(nodes, edges);
    assert(enrich::names_edge(g.edges[q], nodes, all[q]));
    assert(enrich::names_edge(g.edges[r], nodes, all[r]));
    let (a, b) = pairs[q];
    let (c, d) = pairs[r];
    assert(pairs[q] != pairs[r]);
    zip_back::law_ends_are_put_in_order(nodes[a].id@, nodes[b].id@);
    zip_back::law_ends_are_put_in_order(nodes[c].id@, nodes[d].id@);
    lemma_same_node(nodes, a, c);
    lemma_same_node(nodes, a, d);
    lemma_same_node(nodes, b, c);
    lemma_same_node(nodes, b, d);
}

proof fn lemma_same_node(nodes: Seq<KgNode>, a: int, b: int)
    requires
        graph_analytics::distinct_ids(nodes),
        0 <= a < nodes.len(),
        0 <= b < nodes.len(),
    ensures
        nodes[a].id@ == nodes[b].id@ ==> a == b,
{
    if a < b {
        assert(nodes[a].id@ != nodes[b].id@);
    } else if b < a {
        assert(nodes[b].id@ != nodes[a].id@);
    }
}

// ---------------------------------------------------------------------------
// Clusters
// ---------------------------------------------------------------------------

/// How many of the first `n` indices satisfy `p`.
pub open spec fn count_of(n: int, p: spec_fn(int) -> bool) -> int {
    sums::sum_to(
        n,
        |i: int|
            if p(i) {
                1
            } else {
                0
            },
    )
}

spec fn below(n: int, p: spec_fn(int) -> bool) -> Set<usize> {
    Set::new(|ix: usize| ix < n && p(ix as int))
}

proof fn lemma_count_is_len(n: int, p: spec_fn(int) -> bool)
    requires
        0 <= n <= usize::MAX,
    ensures
        below(n, p).finite(),
        below(n, p).len() == count_of(n, p),
    decreases n,
{
    if n == 0 {
        assert(below(n, p) =~= Set::empty());
    } else {
        lemma_count_is_len(n - 1, p);
        let last = (n - 1) as usize;
        let rest = below(n - 1, p);
        assert(!rest.contains(last));
        if p(n - 1) {
            assert(below(n, p) =~= rest.insert(last));
        } else {
            assert(below(n, p) =~= rest);
        }
    }
}

proof fn lemma_id_map_maps(nodes: Seq<KgNode>)
    requires
        nodes.len() <= u32::MAX,
    ensures
        graph_analytics::maps_ids(nodes, enrich::id_map(nodes)),
{
    let map = enrich::id_map(nodes);
    assert forall|id: Seq<char>|
        match #[trigger] graph_analytics::node_index(nodes, id) {
            Some(p) => map.contains_key(id) && map[id] == p,
            None => !map.contains_key(id),
        } by {
        graph_analytics::lemma_node_index(nodes, id);
    }
}

/// The partition that an enriched graph shows.
spec fn shown(g: EnrichedGraph, nodes: Seq<KgNode>, edges: Seq<KgEdge>) -> Map<usize, u32> {
    enrich::cluster_map(louvain_laws::communities(enrich::level_of_graph(nodes, edges)))
}

proof fn lemma_shown(g: EnrichedGraph, nodes: Seq<KgNode>, edges: Seq<KgEdge>)
    requires
        enrich::is_enriched(g, nodes, edges),
        nodes.len() <= u32::MAX,
    ensures
        forall|ix: usize| #[trigger]
            shown(g, nodes, edges).contains_key(ix) <==> ix < nodes.len(),
        forall|ix: usize|
            ix < nodes.len() ==> #[trigger] shown(g, nodes, edges)[ix]
                == g.nodes[ix as int].cluster_id,
{
    let l = enrich::level_of_graph(nodes, edges);
    graph_analytics::law_built_graph_is_simple(nodes, edges);
    louvain_laws::law_numbers_are_dense(l);
    assert forall|ix: usize| ix < nodes.len() implies #[trigger] shown(g, nodes, edges)[ix]
        == g.nodes[ix as int].cluster_id by {
        assert(enrich::enriches(g.nodes[ix as int], nodes, edges, ix as int));
    }
}

/// The nodes of cluster `c`, by their own cluster ids.
pub open spec fn in_cluster(g: EnrichedGraph, c: int) -> spec_fn(int) -> bool {
    |i: int| g.nodes[i].cluster_id == c
}

/// The nodes of cluster `c` that have type `t`.
pub open spec fn in_cluster_of_type(g: EnrichedGraph, c: int, t: Seq<char>) -> spec_fn(
    int,
) -> bool {
    |i: int| g.nodes[i].cluster_id == c && g.nodes[i].node_type@ == t
}

/// Cluster `c` stands at position `c`, and its size is the number of nodes with that cluster id.
/// Its dominant type is one that no other type exceeds among these nodes.
pub proof fn law_enriched_clusters(
    g: EnrichedGraph,
    nodes: Seq<KgNode>,
    edges: Seq<KgEdge>,
    c: int,
    t: Seq<char>,
)
    requires
        enrich::can_be_enriched(nodes, edges),
        enrich::is_enriched(g, nodes, edges),
        0 <= c < g.clusters.len(),
    ensures
        g.clusters[c].id == c,
        g.clusters[c].node_count == count_of(nodes.len() as int, in_cluster(g, c)),
        count_of(nodes.len() as int, in_cluster_of_type(g, c, t)) <= count_of(
            nodes.len() as int,
            in_cluster_of_type(g, c, g.clusters[c].dominant_type@),
        ),
{
    let n = nodes.len() as int;
    let info = g.clusters[c];
    let all = graph_analytics::collapsed(nodes, edges);
    let map = enrich::id_map(nodes);
    let clusters = shown(g, nodes, edges);
    assert(info.id == c && graph_analytics::describes(info, all, nodes, map, clusters));
    lemma_shown(g, nodes, edges);
    lemma_count_is_len(n, in_cluster(g, c));
    assert(grouping::members(clusters, info.id) =~= below(n, in_cluster(g, c)));
    graph_laws::law_dominant_type_is_most_frequent(info, all, nodes, map, clusters, t);
    lemma_typed_members(g, nodes, edges, c, t);
    lemma_typed_members(g, nodes, edges, c, info.dominant_type@);
}

proof fn lemma_typed_members(
    g: EnrichedGraph,
    nodes: Seq<KgNode>,
    edges: Seq<KgEdge>,
    c: int,
    t: Seq<char>,
)
    requires
        enrich::can_be_enriched(nodes, edges),
        enrich::is_enriched(g, nodes, edges),
        0 <= c <= u32::MAX,
    ensures
        graph_laws::members_of_type(
            nodes,
            enrich::id_map(nodes),
            shown(g, nodes, edges),
            c as u32,
            t,
        ).len() == count_of(nodes.len() as int, in_cluster_of_type(g, c, t)),
{
    let n = nodes.len() as int;
    let map = enrich::id_map(nodes);
    let clusters = shown(g, nodes, edges);
    let p = in_cluster_of_type(g, c, t);
    lemma_shown(g, nodes, edges);
    lemma_id_map_maps(nodes);
    lemma_count_is_len(n, p);
    let a = graph_laws::members_of_type(nodes, map, clusters, c as u32, t);
    assert forall|ix: usize| a.contains(ix) <==> below(n, p).contains(ix) by {
        if ix < n {
            graph_analytics::law_indices_are_positions(nodes, map, ix);
            graph_laws::lemma_first_is_one(nodes, map, ix, ix as int);
            graph_laws::lemma_has_type(nodes, map, ix, t);
            assert(enrich::enriches(g.nodes[ix as int], nodes, edges, ix as int));
        }
    }
    assert(a =~= below(n, p));
}

/// A cluster has the label of one of its nodes, at which the joined pairs weigh no less than at
/// any other of its nodes.
pub proof fn law_enriched_labels(
    g: EnrichedGraph,
    nodes: Seq<KgNode>,
    edges: Seq<KgEdge>,
    c: int,
)
    requires
        enrich::can_be_enriched(nodes, edges),
        enrich::is_enriched(g, nodes, edges),
        0 <= c < g.clusters.len(),
    ensures
        ({
            let all = graph_analytics::collapsed(nodes, edges);
            exists|i: int|
                {
                    &&& 0 <= i < nodes.len()
                    &&& (#[trigger] g.nodes[i]).cluster_id == c
                    &&& g.clusters[c].label@ == nodes[i].label@
                    &&& forall|j: int|
                        0 <= j < nodes.len() && (#[trigger] g.nodes[j]).cluster_id == c
                            ==> sums::sum_to(all.len() as int, graph_laws::weight_at(all, j))
                            <= sums::sum_to(all.len() as int, graph_laws::weight_at(all, i))
                }
        }),
{
    let info = g.clusters[c];
    let all = graph_analytics::collapsed(nodes, edges);
    let map = enrich::id_map(nodes);
    let clusters = shown(g, nodes, edges);
    assert(info.id == c && graph_analytics::describes(info, all, nodes, map, clusters));
    lemma_shown(g, nodes, edges);
    lemma_id_map_maps(nodes);
    graph_laws::law_label_is_the_hubs(info, all, nodes, map, clusters);
    let (ix, p) = choose|ix: usize, p: int|
        {
            &&& clusters.contains_key(ix)
            &&& clusters[ix] == info.id
            &&& #[trigger] graph_laws::first_at(nodes, map, ix, p)
            &&& info.label@ == nodes[p].label@
            &&& forall|j: usize| #[trigger]
                clusters.contains_key(j) && clusters[j] == info.id ==> sums::sum_to(
                    all.len() as int,
                    graph_laws::weight_at(all, j as int),
                ) <= sums::sum_to(all.len() as int, graph_laws::weight_at(all, ix as int))
        };
    graph_analytics::law_indices_are_positions(nodes, map, ix);
    graph_laws::lemma_first_is_one(nodes, map, ix, p);
    let i = ix as int;
    assert(p == i);
    assert forall|j: int| 0 <= j < nodes.len() && (#[trigger] g.nodes[j]).cluster_id
        == c implies sums::sum_to(all.len() as int, graph_laws::weight_at(all, j))
        <= sums::sum_to(all.len() as int, graph_laws::weight_at(all, i)) by {
        assert(clusters.contains_key(j as usize) && clusters[j as usize] == info.id);
    }
    assert(g.nodes[i].cluster_id == c);
}

/// Nodes share a cluster id if and only if they are in one community, and the modularity is that
/// of this partition: over `(2m)^2`, or zero where nothing has weight.
pub proof fn law_enriched_modularity(
    g: EnrichedGraph,
    nodes: Seq<KgNode>,
    edges: Seq<KgEdge>,
    clusters: Map<usize, u32>,
)
    requires
        enrich::can_be_enriched(nodes, edges),
        enrich::is_enriched(g, nodes, edges),
        forall|ix: usize| #[trigger] clusters.contains_key(ix) <==> ix < nodes.len(),
        forall|ix: usize|
            ix < nodes.len() ==> #[trigger] clusters[ix] == g.nodes[ix as int].cluster_id,
    ensures
        ({
            let all = graph_analytics::collapsed(nodes, edges);
            let m2 = partition::double_weight(all);
            let q = g.modularity;
            if m2 == 0 {
                q.plus@ == 0 && q.minus@ == 0 && q.denominator@ == 1
            } else {
                &&& q.denominator@ == m2 * m2
                &&& q.plus@ - q.minus@ == partition::modularity_numerator(
                    all,
                    nodes.len() as int,
                    clusters,
                )
            }
        }),
        forall|i: int|
            0 <= i < nodes.len() ==> (#[trigger] g.nodes[i]).cluster_id
                == louvain_laws::communities(
                communities::base_level(
                    graph_analytics::collapsed(nodes, edges),
                    nodes.len() as int,
                ),
            )[i],
{
    lemma_shown(g, nodes, edges);
    assert(clusters =~= shown(g, nodes, edges));
    assert forall|i: int| 0 <= i < nodes.len() implies (#[trigger] g.nodes[i]).cluster_id
        == louvain_laws::communities(enrich::level_of_graph(nodes, edges))[i] by {
        assert(enrich::enriches(g.nodes[i], nodes, edges, i));
    }
}

} // verus!
