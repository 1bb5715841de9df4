//! Modularity of a partition that is given as a map from node indices to cluster ids.

use crate::communities;
use crate::level;
use crate::sums;
use vstd::prelude::*;

verus! {

/// The cluster of node `i`, where the partition holds it.
pub open spec fn cluster_of(clusters: Map<usize, u32>, i: int) -> Option<u32> {
    if 0 <= i <= usize::MAX && clusters.contains_key(i as usize) {
        Some(clusters[i as usize])
    } else {
        None
    }
}

pub open spec fn meets(a: int) -> spec_fn(sums::Edge) -> int {
    |e: sums::Edge| level::if_in(e.0 == a || e.1 == a, e.2)
}

/// Weighted degree: the weight of the edges at `a`, each counted once.
pub open spec fn weighted_degree(edges: Seq<sums::Edge>, a: int) -> int {
    sums::sum_edges(edges, meets(a))
}

pub open spec fn cluster_degrees(
    edges: Seq<sums::Edge>,
    clusters: Map<usize, u32>,
    c: u32,
) -> spec_fn(int) -> int {
    |i: int| level::if_in(cluster_of(clusters, i) == Some(c), weighted_degree(edges, i))
}

/// The summed weighted degrees of the members of cluster `c`.
pub open spec fn cluster_total(
    edges: Seq<sums::Edge>,
    n: int,
    clusters: Map<usize, u32>,
    c: u32,
) -> int {
    sums::sum_to(n, cluster_degrees(edges, clusters, c))
}

pub open spec fn shared(clusters: Map<usize, u32>) -> spec_fn(sums::Edge) -> int {
    |e: sums::Edge| level::if_in(cluster_of(clusters, e.0) == cluster_of(clusters, e.1), e.2)
}

pub open spec fn pair_terms(
    edges: Seq<sums::Edge>,
    n: int,
    clusters: Map<usize, u32>,
) -> spec_fn(int) -> int {
    |i: int|
        match cluster_of(clusters, i) {
            Some(c) => weighted_degree(edges, i) * cluster_total(edges, n, clusters, c),
            None => 0,
        }
}

/// `2m`: twice the weight of all edges.
pub open spec fn double_weight(edges: Seq<sums::Edge>) -> int {
    2 * sums::sum_edges(edges, level::edge_weight())
}

/// Modularity times `(2m)^2`:
/// `2m * 2 * (weight inside clusters) - (sum over i, j in one cluster of k_i * k_j)`.
pub open spec fn modularity_numerator(
    edges: Seq<sums::Edge>,
    n: int,
    clusters: Map<usize, u32>,
) -> int {
    double_weight(edges) * (2 * sums::sum_edges(edges, shared(clusters))) - sums::sum_to(
        n,
        pair_terms(edges, n, clusters),
    )
}

pub open spec fn edges_within(edges: Seq<sums::Edge>, n: int) -> bool {
    communities::base_level(edges, n).wf()
}

pub proof fn lemma_weighted_degree(edges: Seq<sums::Edge>, n: int, a: int)
    requires
        edges_within(edges, n),
    ensures
        0 <= weighted_degree(edges, a) <= sums::sum_edges(edges, level::edge_weight()),
        !(0 <= a < n) ==> weighted_degree(edges, a) == 0,
{
    let l = communities::base_level(edges, n);
    assert(l.edges == edges);
    assert forall|k: int| 0 <= k < edges.len() implies 0 <= (#[trigger] edges[k]).0 < n && 0
        <= edges[k].1 < n && 0 <= edges[k].2 by {
        assert(l.edges[k] == edges[k]);
    }
    sums::lemma_sum_edges_nonneg(edges, meets(a));
    sums::lemma_sum_edges_le(edges, meets(a), level::edge_weight());
    if !(0 <= a < n) {
        sums::lemma_sum_edges_none(edges, meets(a));
    }
}

/// A map that gives every node the number at its position.
pub open spec fn numbers(clusters: Map<usize, u32>, comm: Seq<int>) -> bool {
    &&& forall|i: int| 0 <= i < comm.len() ==> cluster_of(clusters, i) is Some && #[trigger] comm[i]
        == cluster_of(clusters, i)->Some_0
    &&& forall|i: usize| #[trigger] clusters.contains_key(i) ==> i < comm.len()
}

/// Where the partition holds every node and no edge is a self-loop, the two ways to state
/// modularity agree.
pub proof fn lemma_numerator_is_score(
    edges: Seq<sums::Edge>,
    n: int,
    clusters: Map<usize, u32>,
    comm: Seq<int>,
)
    requires
        edges_within(edges, n),
        communities::base_level(edges, n).simple(),
        comm.len() == n,
        numbers(clusters, comm),
    ensures
        modularity_numerator(edges, n, clusters) == level::score(
            communities::base_level(edges, n),
            comm,
        ),
{
    let l = communities::base_level(edges, n);
    assert(l.edges == edges);
    assert forall|i: int| 0 <= i < n implies #[trigger] weighted_degree(edges, i) == level::degree(
        l,
        i,
    ) by {
        assert forall|k: int| 0 <= k < edges.len() implies meets(i)(#[trigger] edges[k])
            == level::touch_at(i)(edges[k]) by {
            assert(l.edges[k].0 != l.edges[k].1);
        }
        sums::lemma_sum_edges_ext(edges, meets(i), level::touch_at(i));
        assert(l.loops[i] == 0);
    }
    level::lemma_two_m(l);
    sums::lemma_sum_to_zero(n, level::loop_weights(l));
    assert forall|k: int| 0 <= k < edges.len() implies shared(clusters)(#[trigger] edges[k])
        == level::inside_of(comm)(edges[k]) by {
        let e = l.edges[k];
        assert(comm[e.0] == cluster_of(clusters, e.0)->Some_0);
        assert(comm[e.1] == cluster_of(clusters, e.1)->Some_0);
    }
    sums::lemma_sum_edges_ext(edges, shared(clusters), level::inside_of(comm));
    assert forall|i: int| 0 <= i < n implies #[trigger] pair_terms(edges, n, clusters)(i)
        == level::product_terms(l, comm)(i) by {
        assert(comm[i] == cluster_of(clusters, i)->Some_0);
        let c = cluster_of(clusters, i)->Some_0;
        let f = cluster_degrees(edges, clusters, c);
        let g = level::member_degrees(l, comm, comm[i]);
        assert forall|j: int| 0 <= j < n implies #[trigger] f(j) == g(j) by {
            assert(comm[j] == cluster_of(clusters, j)->Some_0);
            assert(weighted_degree(edges, j) == level::degree(l, j));
        }
        sums::lemma_sum_to_ext(n, f, g);
        assert(weighted_degree(edges, i) == level::degree(l, i));
    }
    sums::lemma_sum_to_ext(n, pair_terms(edges, n, clusters), level::product_terms(l, comm));
}

} // verus!
