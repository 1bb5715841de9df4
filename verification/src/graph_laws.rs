//! What a built graph and its cluster labels are, told by the given nodes and edges.

use crate::graph_analytics;
use crate::graph_analytics::{ClusterInfo, KgEdge, KgNode};
use crate::grouping;
use crate::level;
use crate::louvain_laws;
use crate::partition;
use crate::sums;
use crate::un_graph;
use petgraph::graph::UnGraph;
use vstd::prelude::*;

verus! {

// ---------------------------------------------------------------------------
// Built graphs
// ---------------------------------------------------------------------------

/// The node at `p` is the last one with an id.
pub open spec fn last_with_id(nodes: Seq<KgNode>, id: Seq<char>, p: int) -> bool {
    &&& 0 <= p < nodes.len()
    &&& nodes[p].id@ == id
    &&& forall|q: int| p < q < nodes.len() ==> (#[trigger] nodes[q]).id@ != id
}

/// One of the nodes has the id.
pub open spec fn has_id(nodes: Seq<KgNode>, id: Seq<char>) -> bool {
    exists|p: int| 0 <= p < nodes.len() && (#[trigger] nodes[p]).id@ == id
}

/// The index map of a built graph knows exactly the ids of the nodes, and gives each the
/// position of its last node.
pub proof fn law_ids_are_mapped(
    nodes: Seq<KgNode>,
    map: Map<Seq<char>, usize>,
    id: Seq<char>,
    p: int,
)
    requires
        graph_analytics::maps_ids(nodes, map),
    ensures
        map.contains_key(id) <==> has_id(nodes, id),
        last_with_id(nodes, id, p) ==> map.contains_key(id) && map[id] == p,
{
    graph_analytics::lemma_node_index(nodes, id);
    lemma_last_is_one(nodes, id, p);
    match graph_analytics::node_index(nodes, id) {
        Some(q) => {
            assert(nodes[q].id@ == id);
        },
        None => {},
    }
}

proof fn lemma_last_is_one(nodes: Seq<KgNode>, id: Seq<char>, p: int)
    ensures
        last_with_id(nodes, id, p) <==> graph_analytics::node_index(nodes, id) == Some(p),
{
    graph_analytics::lemma_node_index(nodes, id);
    match graph_analytics::node_index(nodes, id) {
        Some(q) => {
            if last_with_id(nodes, id, p) {
                if p < q {
                    assert(nodes[q].id@ != id);
                } else if q < p {
                    assert(nodes[p].id@ != id);
                }
            }
        },
        None => {
            if last_with_id(nodes, id, p) {
                assert(nodes[p].id@ == id);
            }
        },
    }
}

/// An edge joins the nodes at `a` and `b`, in either direction.
pub open spec fn joins(nodes: Seq<KgNode>, e: KgEdge, a: int, b: int) -> bool {
    ||| last_with_id(nodes, e.source_id@, a) && last_with_id(nodes, e.target_id@, b)
    ||| last_with_id(nodes, e.source_id@, b) && last_with_id(nodes, e.target_id@, a)
}

/// What edge `k` adds to the weight between the nodes at `a` and `b`: its weight, at least one,
/// where it joins them.
pub open spec fn adds(nodes: Seq<KgNode>, edges: Seq<KgEdge>, a: int, b: int) -> spec_fn(
    int,
) -> int {
    |k: int|
        if joins(nodes, edges[k], a, b) {
            if edges[k].weight == 0 {
                1
            } else {
                edges[k].weight as int
            }
        } else {
            0
        }
}

proof fn lemma_joins(nodes: Seq<KgNode>, e: KgEdge, a: int, b: int)
    requires
        a < b,
    ensures
        joins(nodes, e, a, b) <==> graph_analytics::joined_pair(nodes, e) == Some((a, b)),
{
    lemma_last_is_one(nodes, e.source_id@, a);
    lemma_last_is_one(nodes, e.source_id@, b);
    lemma_last_is_one(nodes, e.target_id@, a);
    lemma_last_is_one(nodes, e.target_id@, b);
}

proof fn lemma_pair_weight_is_sum(nodes: Seq<KgNode>, edges: Seq<KgEdge>, a: int, b: int)
    requires
        a < b,
    ensures
        graph_analytics::pair_weight(nodes, edges, (a, b)) == sums::sum_to(
            edges.len() as int,
            adds(nodes, edges, a, b),
        ),
    decreases edges.len(),
{
    if edges.len() > 0 {
        let rest = edges.drop_last();
        lemma_pair_weight_is_sum(nodes, rest, a, b);
        lemma_joins(nodes, edges.last(), a, b);
        assert forall|k: int| 0 <= k < rest.len() implies #[trigger] adds(nodes, rest, a, b)(k)
            == adds(nodes, edges, a, b)(k) by {
            assert(rest[k] == edges[k]);
        }
        sums::lemma_sum_to_ext(
            rest.len() as int,
            adds(nodes, rest, a, b),
            adds(nodes, edges, a, b),
        );
    }
}

proof fn lemma_pairs_are_joined(nodes: Seq<KgNode>, edges: Seq<KgEdge>, a: int, b: int)
    requires
        a < b,
    ensures
        graph_analytics::joined_pairs(nodes, edges).contains((a, b)) <==> exists|k: int|
            0 <= k < edges.len() && joins(nodes, #[trigger] edges[k], a, b),
    decreases edges.len(),
{
    let all = graph_analytics::joined_pairs(nodes, edges);
    if edges.len() == 0 {
        assert(!all.contains((a, b)));
    } else {
        let rest = edges.drop_last();
        let before = graph_analytics::joined_pairs(nodes, rest);
        let last = edges.len() - 1;
        lemma_pairs_are_joined(nodes, rest, a, b);
        lemma_joins(nodes, edges.last(), a, b);
        assert(edges[last] == edges.last());
        if before.contains((a, b)) {
            let k = choose|k: int| 0 <= k < rest.len() && joins(nodes, #[trigger] rest[k], a, b);
            assert(joins(nodes, edges[k], a, b));
            let q = choose|q: int| 0 <= q < before.len() && before[q] == (a, b);
            assert(all[q] == (a, b));
        } else if joins(nodes, edges.last(), a, b) {
            assert(all[before.len() as int] == (a, b));
            assert(joins(nodes, edges[last], a, b));
        } else {
            assert forall|k: int| 0 <= k < edges.len() implies !joins(
                nodes,
                #[trigger] edges[k],
                a,
                b,
            ) by {
                if k < last {
                    assert(!joins(nodes, rest[k], a, b));
                }
            }
            if all.contains((a, b)) {
                let q = choose|q: int| 0 <= q < all.len() && all[q] == (a, b);
                if q < before.len() {
                    assert(before[q] == (a, b));
                }
            }
        }
    }
}

/// A built graph joins two nodes if and only if some edge does, and then by one edge whose weight
/// is the sum of the weights, each at least one, of all edges between them in either direction.
pub proof fn law_built_edges_sum_up(nodes: Seq<KgNode>, edges: Seq<KgEdge>, a: int, b: int)
    requires
        a < b,
    ensures
        (exists|q: int|
            0 <= q < graph_analytics::collapsed(nodes, edges).len() && (
            #[trigger] graph_analytics::collapsed(nodes, edges)[q]).0 == a
                && graph_analytics::collapsed(nodes, edges)[q].1 == b) <==> exists|k: int|
            0 <= k < edges.len() && joins(nodes, #[trigger] edges[k], a, b),
        forall|q: int|
            0 <= q < graph_analytics::collapsed(nodes, edges).len() && (
            #[trigger] graph_analytics::collapsed(nodes, edges)[q]).0 == a
                && graph_analytics::collapsed(nodes, edges)[q].1 == b
                ==> graph_analytics::collapsed(nodes, edges)[q].2 == sums::sum_to(
                edges.len() as int,
                adds(nodes, edges, a, b),
            ),
{
    let all = graph_analytics::collapsed(nodes, edges);
    let pairs = graph_analytics::joined_pairs(nodes, edges);
    lemma_pair_weight_is_sum(nodes, edges, a, b);
    lemma_pairs_are_joined(nodes, edges, a, b);
    if pairs.contains((a, b)) {
        let q = choose|q: int| 0 <= q < pairs.len() && pairs[q] == (a, b);
        assert(all[q].0 == a && all[q].1 == b);
    }
    assert forall|q: int| 0 <= q < all.len() && (#[trigger] all[q]).0 == a && all[q].1
        == b implies pairs.contains((a, b)) && all[q].2 == sums::sum_to(
        edges.len() as int,
        adds(nodes, edges, a, b),
    ) by {
        assert(pairs[q] == (a, b));
    }
}

// ---------------------------------------------------------------------------
// Communities of a graph
// ---------------------------------------------------------------------------

/// One of the nodes `0..n` is in cluster `c`.
pub open spec fn is_used(clusters: Map<usize, u32>, n: int, c: u32) -> bool {
    exists|i: usize| i < n && #[trigger] clusters[i] == c
}

/// The clusters of a graph are its communities, one for every node; their ids run from zero to
/// the count, and each of them is used.
pub proof fn law_clusters_are_communities(
    g: UnGraph<String, u128>,
    clusters: Map<usize, u32>,
    count: usize,
    l: level::Level,
)
    requires
        graph_analytics::is_louvain(g, clusters, count),
        un_graph::graph_nodes(g).len() <= usize::MAX,
        l.n == un_graph::graph_nodes(g).len(),
        l.edges == un_graph::graph_edges(g),
        l.wf(),
        forall|i: int| 0 <= i < l.n ==> #[trigger] l.loops[i] == 0,
    ensures
        forall|i: usize| #[trigger] clusters.contains_key(i) <==> i < l.n,
        forall|i: usize|
            i < l.n ==> #[trigger] clusters[i] == louvain_laws::communities(l)[i as int]
                && clusters[i] < count,
        forall|c: u32| c < count ==> #[trigger] is_used(clusters, l.n, c),
{
    let base = un_graph::graph_level(g);
    assert(base.loops =~= l.loops);
    assert(base == l);
    louvain_laws::law_numbers_are_dense(l);
    let comm = louvain_laws::communities(l);
    assert forall|i: usize| #[trigger] clusters.contains_key(i) <==> i < l.n by {
        assert(clusters.dom().contains(i) <==> i < l.n);
    }
    assert forall|i: usize| i < l.n implies #[trigger] clusters[i] == comm[i as int] && clusters[i]
        < count by {
        assert(comm[i as int] == partition::cluster_of(clusters, i as int)->Some_0);
        assert(clusters.contains_key(i));
    }
    assert forall|c: u32| c < count implies #[trigger] is_used(clusters, l.n, c) by {
        assert(comm.contains(c as int));
        let i = choose|i: int| 0 <= i < comm.len() && comm[i] == c;
        assert(clusters[i as usize] == c);
    }
}

// ---------------------------------------------------------------------------
// Cluster labels
// ---------------------------------------------------------------------------

/// The node at `p` is the first one whose id is mapped to index `ix`.
pub open spec fn first_at(
    nodes: Seq<KgNode>,
    map: Map<Seq<char>, usize>,
    ix: usize,
    p: int,
) -> bool {
    &&& 0 <= p < nodes.len()
    &&& map.contains_key(nodes[p].id@)
    &&& map[nodes[p].id@] == ix
    &&& forall|q: int|
        0 <= q < p ==> !(map.contains_key((#[trigger] nodes[q]).id@) && map[nodes[q].id@] == ix)
}

proof fn lemma_first_at(nodes: Seq<KgNode>, map: Map<Seq<char>, usize>, ix: usize)
    ensures
        match graph_analytics::node_at(nodes, map, ix) {
            Some(p) => first_at(nodes, map, ix, p),
            None => forall|q: int|
                0 <= q < nodes.len() ==> !(map.contains_key((#[trigger] nodes[q]).id@)
                    && map[nodes[q].id@] == ix),
        },
    decreases nodes.len(),
{
    if nodes.len() > 0 {
        let rest = nodes.drop_last();
        lemma_first_at(rest, map, ix);
        match graph_analytics::node_at(rest, map, ix) {
            Some(p) => {
                assert forall|q: int| 0 <= q < p implies !(map.contains_key(
                    (#[trigger] nodes[q]).id@,
                ) && map[nodes[q].id@] == ix) by {
                    assert(rest[q] == nodes[q]);
                }
            },
            None => {
                assert forall|q: int| 0 <= q < rest.len() implies !(map.contains_key(
                    (#[trigger] nodes[q]).id@,
                ) && map[nodes[q].id@] == ix) by {
                    assert(rest[q] == nodes[q]);
                }
            },
        }
    }
}

pub proof fn lemma_first_is_one(
    nodes: Seq<KgNode>,
    map: Map<Seq<char>, usize>,
    ix: usize,
    p: int,
)
    ensures
        first_at(nodes, map, ix, p) <==> graph_analytics::node_at(nodes, map, ix) == Some(p),
{
    lemma_first_at(nodes, map, ix);
    if first_at(nodes, map, ix, p) {
        assert(map.contains_key(nodes[p].id@) && map[nodes[p].id@] == ix);
        match graph_analytics::node_at(nodes, map, ix) {
            Some(q) => {
                if q < p {
                    assert(!(map.contains_key(nodes[q].id@) && map[nodes[q].id@] == ix));
                }
            },
            None => {},
        }
    }
}

/// The node with index `ix` has type `t`.
pub open spec fn has_type(
    nodes: Seq<KgNode>,
    map: Map<Seq<char>, usize>,
    ix: usize,
    t: Seq<char>,
) -> bool {
    exists|p: int| #[trigger] first_at(nodes, map, ix, p) && nodes[p].node_type@ == t
}

/// The members of a cluster that have type `t`.
pub open spec fn members_of_type(
    nodes: Seq<KgNode>,
    map: Map<Seq<char>, usize>,
    clusters: Map<usize, u32>,
    c: u32,
    t: Seq<char>,
) -> Set<usize> {
    Set::new(
        |ix: usize| clusters.contains_key(ix) && clusters[ix] == c && has_type(nodes, map, ix, t),
    )
}

pub proof fn lemma_has_type(
    nodes: Seq<KgNode>,
    map: Map<Seq<char>, usize>,
    ix: usize,
    t: Seq<char>,
)
    ensures
        has_type(nodes, map, ix, t) <==> graph_analytics::type_at(nodes, map, ix) == Some(t),
{
    if has_type(nodes, map, ix, t) {
        let p = choose|p: int| #[trigger]
            first_at(nodes, map, ix, p) && nodes[p].node_type@ == t;
        lemma_first_is_one(nodes, map, ix, p);
    }
    match graph_analytics::node_at(nodes, map, ix) {
        Some(p) => {
            lemma_first_is_one(nodes, map, ix, p);
        },
        None => {},
    }
}

proof fn lemma_members_of_type(
    nodes: Seq<KgNode>,
    map: Map<Seq<char>, usize>,
    clusters: Map<usize, u32>,
    c: u32,
    t: Seq<char>,
)
    ensures
        members_of_type(nodes, map, clusters, c, t).len() == graph_analytics::type_count(
            nodes,
            map,
            clusters,
            c,
            t,
        ),
{
    let a = members_of_type(nodes, map, clusters, c, t);
    let b = grouping::members(clusters, c).filter(graph_analytics::of_type(nodes, map, t));
    assert forall|ix: usize| a.contains(ix) <==> b.contains(ix) by {
        lemma_has_type(nodes, map, ix, t);
    }
    assert(a =~= b);
}

/// The dominant type of a cluster is its most frequent one: no type has more members, and it is
/// the type of a member.
pub proof fn law_dominant_type_is_most_frequent(
    info: ClusterInfo,
    edges: Seq<sums::Edge>,
    nodes: Seq<KgNode>,
    map: Map<Seq<char>, usize>,
    clusters: Map<usize, u32>,
    t: Seq<char>,
)
    requires
        graph_analytics::describes(info, edges, nodes, map, clusters),
    ensures
        members_of_type(nodes, map, clusters, info.id, t).len() <= members_of_type(
            nodes,
            map,
            clusters,
            info.id,
            info.dominant_type@,
        ).len(),
        exists|ix: usize| #[trigger]
            members_of_type(nodes, map, clusters, info.id, info.dominant_type@).contains(ix),
{
    let ix = choose|ix: usize| #[trigger]
        graph_analytics::is_typical(nodes, map, clusters, info.id, ix) && Some(
            info.dominant_type@,
        ) == graph_analytics::type_at(nodes, map, ix);
    assert(graph_analytics::top_type(nodes, map, clusters, info.id, ix));
    lemma_members_of_type(nodes, map, clusters, info.id, t);
    lemma_members_of_type(nodes, map, clusters, info.id, info.dominant_type@);
    assert(graph_analytics::type_count(nodes, map, clusters, info.id, t)
        <= graph_analytics::type_count(nodes, map, clusters, info.id, info.dominant_type@));
    lemma_has_type(nodes, map, ix, info.dominant_type@);
    assert(members_of_type(nodes, map, clusters, info.id, info.dominant_type@).contains(ix));
}

/// The weight of the edges with an end at node `a`, each once.
pub open spec fn weight_at(edges: Seq<sums::Edge>, a: int) -> spec_fn(int) -> int {
    |k: int|
        if edges[k].0 == a || edges[k].1 == a {
            edges[k].2
        } else {
            0
        }
}

/// The weighted degree of a node is the sum of the weights of the edges with an end there.
pub proof fn law_weighted_degree_sums_edges(edges: Seq<sums::Edge>, a: int)
    ensures
        partition::weighted_degree(edges, a) == sums::sum_to(
            edges.len() as int,
            weight_at(edges, a),
        ),
    decreases edges.len(),
{
    if edges.len() > 0 {
        let rest = edges.drop_last();
        law_weighted_degree_sums_edges(rest, a);
        assert forall|k: int| 0 <= k < rest.len() implies #[trigger] weight_at(rest, a)(k)
            == weight_at(edges, a)(k) by {
            assert(rest[k] == edges[k]);
        }
        sums::lemma_sum_to_ext(rest.len() as int, weight_at(rest, a), weight_at(edges, a));
    }
}

/// A cluster is labelled by its hub: its label is that of a member with an index `ix` such that
/// the edges at no other member weigh more.
pub proof fn law_label_is_the_hubs(
    info: ClusterInfo,
    edges: Seq<sums::Edge>,
    nodes: Seq<KgNode>,
    map: Map<Seq<char>, usize>,
    clusters: Map<usize, u32>,
)
    requires
        graph_analytics::describes(info, edges, nodes, map, clusters),
    ensures
        exists|ix: usize, p: int|
            {
                &&& clusters.contains_key(ix)
                &&& clusters[ix] == info.id
                &&& #[trigger] first_at(nodes, map, ix, p)
                &&& info.label@ == nodes[p].label@
                &&& forall|j: usize| #[trigger]
                    clusters.contains_key(j) && clusters[j] == info.id ==> sums::sum_to(
                        edges.len() as int,
                        weight_at(edges, j as int),
                    ) <= sums::sum_to(edges.len() as int, weight_at(edges, ix as int))
            },
{
    let ix = choose|ix: usize| #[trigger]
        graph_analytics::is_hub(edges, clusters, info.id, ix) && graph_analytics::node_at(
            nodes,
            map,
            ix,
        ) is Some && info.label@ == nodes[graph_analytics::node_at(
            nodes,
            map,
            ix,
        )->Some_0].label@;
    let p = graph_analytics::node_at(nodes, map, ix)->Some_0;
    assert(graph_analytics::top_degree(edges, clusters, info.id, ix));
    assert(grouping::members(clusters, info.id).contains(ix));
    lemma_first_is_one(nodes, map, ix, p);
    assert forall|j: usize| #[trigger]
        clusters.contains_key(j) && clusters[j] == info.id implies sums::sum_to(
        edges.len() as int,
        weight_at(edges, j as int),
    ) <= sums::sum_to(edges.len() as int, weight_at(edges, ix as int)) by {
        assert(grouping::members(clusters, info.id).contains(j));
        law_weighted_degree_sums_edges(edges, j as int);
        law_weighted_degree_sums_edges(edges, ix as int);
    }
    assert(first_at(nodes, map, ix, p));
}

/// The size of a cluster is the number of node indices that the partition puts there.
pub proof fn law_cluster_size_counts_members(
    info: ClusterInfo,
    edges: Seq<sums::Edge>,
    nodes: Seq<KgNode>,
    map: Map<Seq<char>, usize>,
    clusters: Map<usize, u32>,
)
    requires
        graph_analytics::describes(info, edges, nodes, map, clusters),
    ensures
        info.node_count == clusters.dom().filter(|ix: usize| clusters[ix] == info.id).len(),
{
    assert(grouping::members(clusters, info.id) =~= clusters.dom().filter(
        |ix: usize| clusters[ix] == info.id,
    ));
}

/// A cluster is labelled if and only if it has a node.
pub proof fn law_every_cluster_is_labelled(
    infos: Seq<ClusterInfo>,
    clusters: Map<usize, u32>,
    c: u32,
)
    requires
        graph_analytics::cluster_ids(infos).to_set() == clusters.values(),
    ensures
        (exists|s: int| 0 <= s < infos.len() && (#[trigger] infos[s]).id == c) <==> exists|ix: usize|
            #[trigger] clusters.contains_key(ix) && clusters[ix] == c,
{
    let ids = graph_analytics::cluster_ids(infos);
    if exists|s: int| 0 <= s < infos.len() && (#[trigger] infos[s]).id == c {
        let s = choose|s: int| 0 <= s < infos.len() && (#[trigger] infos[s]).id == c;
        assert(ids[s] == c);
        assert(ids.to_set().contains(c));
        assert(clusters.values().contains(c));
    }
    if exists|ix: usize| #[trigger] clusters.contains_key(ix) && clusters[ix] == c {
        let ix = choose|ix: usize| #[trigger] clusters.contains_key(ix) && clusters[ix] == c;
        assert(clusters.values().contains(clusters[ix]));
        assert(ids.to_set().contains(c));
        let s = choose|s: int| 0 <= s < ids.len() && ids[s] == c;
        assert(infos[s].id == c);
    }
}

} // verus!
