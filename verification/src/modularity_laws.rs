//! Modularity as it is written down: over all pairs of nodes that share a cluster.

use crate::communities;
use crate::level;
use crate::partition;
use crate::sums;
use vstd::prelude::*;

verus! {

/// The weight of an edge that joins `i` and `j`.
pub open spec fn joining(i: int, j: int) -> spec_fn(sums::Edge) -> int {
    |e: sums::Edge|
        if (e.0 == i && e.1 == j) || (e.0 == j && e.1 == i) {
            e.2
        } else {
            0
        }
}

/// `A_ij`: the weight of the edges that join `i` and `j`.
pub open spec fn adjacency(edges: Seq<sums::Edge>, i: int, j: int) -> int {
    sums::sum_edges(edges, joining(i, j))
}

/// `k_i`: the weight of what joins `i` to any node.
pub open spec fn strength(edges: Seq<sums::Edge>, n: int, i: int) -> int {
    sums::sum_to(n, |j: int| adjacency(edges, i, j))
}

/// `2m`: the strength of all nodes.
pub open spec fn all_strength(edges: Seq<sums::Edge>, n: int) -> int {
    sums::sum_to(n, |i: int| strength(edges, n, i))
}

/// Both nodes are in the partition, in one cluster.
pub open spec fn together(clusters: Map<usize, u32>, i: int, j: int) -> bool {
    &&& clusters.contains_key(i as usize)
    &&& clusters.contains_key(j as usize)
    &&& clusters[i as usize] == clusters[j as usize]
}

/// `2m * A_ij - k_i * k_j` for two nodes of one cluster; zero for others.
pub open spec fn pair_value(
    edges: Seq<sums::Edge>,
    n: int,
    clusters: Map<usize, u32>,
    i: int,
    j: int,
) -> int {
    if together(clusters, i, j) {
        all_strength(edges, n) * adjacency(edges, i, j) - strength(edges, n, i) * strength(
            edges,
            n,
            j,
        )
    } else {
        0
    }
}

/// The edges join different nodes of `0..n`.
pub open spec fn joins_nodes(edges: Seq<sums::Edge>, n: int) -> bool {
    forall|k: int|
        0 <= k < edges.len() ==> {
            &&& 0 <= (#[trigger] edges[k]).0 < n
            &&& 0 <= edges[k].1 < n
            &&& edges[k].0 != edges[k].1
        }
}

/// What the edges at `i` weigh whose other end is accepted by `q`.
spec fn toward(i: int, q: spec_fn(int) -> bool) -> spec_fn(sums::Edge) -> int {
    |e: sums::Edge|
        if e.0 == i && q(e.1) {
            e.2
        } else if e.1 == i && q(e.0) {
            e.2
        } else {
            0
        }
}

/// Adjacency, summed over the nodes that `q` accepts.
proof fn lemma_adjacency_sum(edges: Seq<sums::Edge>, n: int, i: int, q: spec_fn(int) -> bool)
    requires
        joins_nodes(edges, n),
        0 <= i < n,
    ensures
        sums::sum_to(
            n,
            |j: int|
                if q(j) {
                    adjacency(edges, i, j)
                } else {
                    0
                },
        ) == sums::sum_edges(edges, toward(i, q)),
{
    let t = |e: sums::Edge, j: int|
        if q(j) && ((e.0 == i && e.1 == j) || (e.0 == j && e.1 == i)) {
            e.2
        } else {
            0
        };
    let by_node = |j: int| sums::sum_edges(edges, |e: sums::Edge| t(e, j));
    let by_edge = |e: sums::Edge| sums::sum_to(n, |j: int| t(e, j));
    let lhs = |j: int|
        if q(j) {
            adjacency(edges, i, j)
        } else {
            0
        };
    sums::lemma_sum_swap(n, edges, t);
    assert forall|j: int| 0 <= j < n implies #[trigger] lhs(j) == by_node(j) by {
        if q(j) {
            sums::lemma_sum_edges_ext(edges, joining(i, j), |e: sums::Edge| t(e, j));
        } else {
            sums::lemma_sum_edges_none(edges, |e: sums::Edge| t(e, j));
        }
    }
    sums::lemma_sum_to_ext(n, lhs, by_node);
    assert forall|k: int| 0 <= k < edges.len() implies by_edge(#[trigger] edges[k]) == toward(i, q)(
        edges[k],
    ) by {
        let e = edges[k];
        let f = |j: int| t(e, j);
        if e.0 == i {
            sums::lemma_sum_to_single(n, e.1, f);
        } else if e.1 == i {
            sums::lemma_sum_to_single(n, e.0, f);
        } else {
            sums::lemma_sum_to_zero(n, f);
        }
    }
    sums::lemma_sum_edges_ext(edges, by_edge, toward(i, q));
}

/// The strength of a node is its weighted degree.
proof fn lemma_strength(edges: Seq<sums::Edge>, n: int, i: int)
    requires
        joins_nodes(edges, n),
        0 <= i < n,
    ensures
        strength(edges, n, i) == partition::weighted_degree(edges, i),
{
    let q = |j: int| true;
    lemma_adjacency_sum(edges, n, i, q);
    sums::lemma_sum_to_ext(
        n,
        |j: int| adjacency(edges, i, j),
        |j: int|
            if q(j) {
                adjacency(edges, i, j)
            } else {
                0
            },
    );
    assert forall|k: int| 0 <= k < edges.len() implies toward(i, q)(#[trigger] edges[k])
        == partition::meets(i)(edges[k]) by {}
    sums::lemma_sum_edges_ext(edges, toward(i, q), partition::meets(i));
}

/// Summing over both ends of all edges counts every edge twice.
proof fn lemma_both_ends(
    edges: Seq<sums::Edge>,
    n: int,
    near: spec_fn(int, int) -> bool,
    w: spec_fn(sums::Edge) -> int,
)
    requires
        joins_nodes(edges, n),
        forall|i: int, j: int| #[trigger] near(i, j) == near(j, i),
        forall|e: sums::Edge| #[trigger]
            w(e) == if near(e.0, e.1) {
                e.2
            } else {
                0
            },
    ensures
        sums::sum_to(
            n,
            |i: int| sums::sum_edges(edges, toward(i, |j: int| near(i, j))),
        ) == 2 * sums::sum_edges(edges, w),
{
    let t = |e: sums::Edge, i: int| toward(i, |j: int| near(i, j))(e);
    let by_node = |i: int| sums::sum_edges(edges, |e: sums::Edge| t(e, i));
    let by_edge = |e: sums::Edge| sums::sum_to(n, |i: int| t(e, i));
    let lhs = |i: int| sums::sum_edges(edges, toward(i, |j: int| near(i, j)));
    sums::lemma_sum_swap(n, edges, t);
    assert forall|i: int| 0 <= i < n implies #[trigger] lhs(i) == by_node(i) by {
        sums::lemma_sum_edges_ext(
            edges,
            toward(i, |j: int| near(i, j)),
            |e: sums::Edge| t(e, i),
        );
    }
    sums::lemma_sum_to_ext(n, lhs, by_node);
    let twice = |e: sums::Edge| w(e) + w(e);
    assert forall|k: int| 0 <= k < edges.len() implies by_edge(#[trigger] edges[k]) == twice(
        edges[k],
    ) by {
        let e = edges[k];
        let a = |i: int|
            if i == e.0 {
                w(e)
            } else {
                0
            };
        let b = |i: int|
            if i == e.1 {
                w(e)
            } else {
                0
            };
        assert forall|i: int| 0 <= i < n implies #[trigger] t(e, i) == a(i) + b(i) by {
            assert(near(e.0, e.1) == near(e.1, e.0));
        }
        sums::lemma_sum_to_ext(n, |i: int| t(e, i), |i: int| a(i) + b(i));
        sums::lemma_sum_to_add(n, a, b);
        sums::lemma_sum_to_single(n, e.0, a);
        sums::lemma_sum_to_single(n, e.1, b);
    }
    sums::lemma_sum_edges_ext(edges, by_edge, twice);
    sums::lemma_sum_edges_add(edges, w, w);
}

/// Twice the weight of all edges is the strength of all nodes.
proof fn lemma_all_strength(edges: Seq<sums::Edge>, n: int)
    requires
        joins_nodes(edges, n),
    ensures
        all_strength(edges, n) == partition::double_weight(edges),
{
    let near = |i: int, j: int| true;
    let w = |e: sums::Edge|
        if near(e.0, e.1) {
            e.2
        } else {
            0
        };
    lemma_both_ends(edges, n, near, w);
    let lhs = |i: int| sums::sum_edges(edges, toward(i, |j: int| near(i, j)));
    let rhs = |i: int| strength(edges, n, i);
    assert forall|i: int| 0 <= i < n implies #[trigger] lhs(i) == rhs(i) by {
        let q = |j: int| near(i, j);
        lemma_adjacency_sum(edges, n, i, q);
        sums::lemma_sum_to_ext(
            n,
            |j: int| adjacency(edges, i, j),
            |j: int|
                if q(j) {
                    adjacency(edges, i, j)
                } else {
                    0
                },
        );
    }
    sums::lemma_sum_to_ext(n, lhs, rhs);
    sums::lemma_sum_edges_ext(edges, w, level::edge_weight());
}

/// The weighted degrees of all nodes sum up to twice the weight of all edges, and a weighted
/// degree is the weight of what joins the node to all others.
pub proof fn law_degrees_sum_up(edges: Seq<sums::Edge>, n: int, i: int)
    requires
        joins_nodes(edges, n),
        0 <= i < n,
    ensures
        partition::weighted_degree(edges, i) == sums::sum_to(n, |j: int| adjacency(edges, i, j)),
        sums::sum_to(n, |a: int| partition::weighted_degree(edges, a))
            == partition::double_weight(edges),
{
    lemma_strength(edges, n, i);
    lemma_all_strength(edges, n);
    let f = |a: int| partition::weighted_degree(edges, a);
    let g = |a: int| strength(edges, n, a);
    assert forall|a: int| 0 <= a < n implies #[trigger] f(a) == g(a) by {
        lemma_strength(edges, n, a);
    }
    sums::lemma_sum_to_ext(n, f, g);
}

/// The value of all pairs with one node `i`.
proof fn lemma_row(edges: Seq<sums::Edge>, n: int, clusters: Map<usize, u32>, i: int)
    requires
        joins_nodes(edges, n),
        n <= usize::MAX,
        0 <= i < n,
    ensures
        sums::sum_to(n, |j: int| pair_value(edges, n, clusters, i, j)) == all_strength(edges, n)
            * sums::sum_edges(edges, toward(i, |j: int| together(clusters, i, j)))
            - partition::pair_terms(edges, n, clusters)(i),
{
    let m2 = all_strength(edges, n);
    let ki = strength(edges, n, i);
    let q = |j: int| together(clusters, i, j);
    let near = |j: int|
        if q(j) {
            adjacency(edges, i, j)
        } else {
            0
        };
    let mine = |j: int|
        if q(j) {
            strength(edges, n, j)
        } else {
            0
        };
    let plus = |j: int| m2 * near(j);
    let minus = |j: int| (-ki) * mine(j);
    let row = |j: int| pair_value(edges, n, clusters, i, j);
    assert forall|j: int| 0 <= j < n implies #[trigger] row(j) == plus(j) + minus(j) by {
        let kj = strength(edges, n, j);
        assert(m2 * 0 == 0 && (-ki) * 0 == 0) by (nonlinear_arith);
        assert((-ki) * kj == -(ki * kj)) by (nonlinear_arith);
    }
    sums::lemma_sum_to_ext(n, row, |j: int| plus(j) + minus(j));
    sums::lemma_sum_to_add(n, plus, minus);
    sums::lemma_sum_to_scale(n, m2, near);
    sums::lemma_sum_to_scale(n, -ki, mine);
    lemma_adjacency_sum(edges, n, i, q);
    lemma_strength(edges, n, i);
    let s = sums::sum_to(n, mine);
    match partition::cluster_of(clusters, i) {
        Some(c) => {
            let f = partition::cluster_degrees(edges, clusters, c);
            assert forall|j: int| 0 <= j < n implies #[trigger] f(j) == mine(j) by {
                lemma_strength(edges, n, j);
            }
            sums::lemma_sum_to_ext(n, f, mine);
        },
        None => {
            sums::lemma_sum_to_zero(n, mine);
            assert((-ki) * 0 == 0) by (nonlinear_arith);
        },
    }
    assert((-ki) * s == -(ki * s)) by (nonlinear_arith);
}

/// Modularity, times `(2m)^2`, is the sum of `2m * A_ij - k_i * k_j` over all ordered pairs of
/// nodes that share a cluster, on any graph without self-loops whose joined nodes all have a
/// cluster.
pub proof fn law_modularity_is_a_sum_over_pairs(
    edges: Seq<sums::Edge>,
    n: int,
    clusters: Map<usize, u32>,
)
    requires
        joins_nodes(edges, n),
        n <= usize::MAX,
        forall|k: int|
            0 <= k < edges.len() ==> clusters.contains_key((#[trigger] edges[k]).0 as usize)
                && clusters.contains_key(edges[k].1 as usize),
    ensures
        partition::modularity_numerator(edges, n, clusters) == sums::sum_to(
            n,
            |i: int| sums::sum_to(n, |j: int| pair_value(edges, n, clusters, i, j)),
        ),
        partition::double_weight(edges) == all_strength(edges, n),
{
    let m2 = all_strength(edges, n);
    lemma_all_strength(edges, n);
    let near = |i: int, j: int| together(clusters, i, j);
    let into = |i: int| sums::sum_edges(edges, toward(i, |j: int| near(i, j)));
    let rows = |i: int| sums::sum_to(n, |j: int| pair_value(edges, n, clusters, i, j));
    let terms = partition::pair_terms(edges, n, clusters);
    let plus = |i: int| m2 * into(i);
    let minus = |i: int| (-1) * terms(i);
    assert forall|i: int| 0 <= i < n implies #[trigger] rows(i) == plus(i) + minus(i) by {
        lemma_row(edges, n, clusters, i);
        sums::lemma_sum_edges_ext(
            edges,
            toward(i, |j: int| together(clusters, i, j)),
            toward(i, |j: int| near(i, j)),
        );
    }
    sums::lemma_sum_to_ext(n, rows, |i: int| plus(i) + minus(i));
    sums::lemma_sum_to_add(n, plus, minus);
    sums::lemma_sum_to_scale(n, m2, into);
    sums::lemma_sum_to_scale(n, -1, terms);
    let w = |e: sums::Edge|
        if near(e.0, e.1) {
            e.2
        } else {
            0
        };
    lemma_both_ends(edges, n, near, w);
    assert forall|k: int| 0 <= k < edges.len() implies w(#[trigger] edges[k])
        == partition::shared(clusters)(edges[k]) by {
        let e = edges[k];
        assert(clusters.contains_key(e.0 as usize) && clusters.contains_key(e.1 as usize));
    }
    sums::lemma_sum_edges_ext(edges, w, partition::shared(clusters));
}

/// The score that community detection raises is the modularity of the partition, times `(2m)^2`:
/// on a graph without self-loops and without contracted nodes it is the same sum over pairs.
pub proof fn law_score_is_modularity(l: level::Level, clusters: Map<usize, u32>, comm: Seq<int>)
    requires
        l.wf(),
        l.simple(),
        l.n <= usize::MAX,
        forall|i: int| 0 <= i < l.n ==> #[trigger] l.loops[i] == 0,
        comm.len() == l.n,
        forall|i: usize|
            i < l.n ==> clusters.contains_key(i) && #[trigger] clusters[i] == comm[i as int],
        forall|i: usize| #[trigger] clusters.contains_key(i) ==> i < l.n,
    ensures
        level::score(l, comm) == sums::sum_to(
            l.n,
            |i: int| sums::sum_to(l.n, |j: int| pair_value(l.edges, l.n, clusters, i, j)),
        ),
        level::two_m(l) == all_strength(l.edges, l.n),
{
    let base = communities::base_level(l.edges, l.n);
    assert(base.loops =~= l.loops);
    assert(base == l);
    assert(joins_nodes(l.edges, l.n)) by {
        assert forall|k: int| 0 <= k < l.edges.len() implies {
            &&& 0 <= (#[trigger] l.edges[k]).0 < l.n
            &&& 0 <= l.edges[k].1 < l.n
            &&& l.edges[k].0 != l.edges[k].1
        } by {}
    }
    assert forall|i: int| 0 <= i < comm.len() implies partition::cluster_of(clusters, i) is Some
        && #[trigger] comm[i] == partition::cluster_of(clusters, i)->Some_0 by {
        assert(clusters[i as usize] == comm[(i as usize) as int]);
    }
    assert forall|i: int| 0 <= i < comm.len() implies (#[trigger] partition::cluster_of(
        clusters,
        i,
    )) is Some by {
        assert(clusters[i as usize] == comm[(i as usize) as int]);
    }
    assert(partition::numbers(clusters, comm));
    assert forall|k: int| 0 <= k < l.edges.len() implies clusters.contains_key(
        (#[trigger] l.edges[k]).0 as usize,
    ) && clusters.contains_key(l.edges[k].1 as usize) by {
        let e = l.edges[k];
        assert(clusters[e.0 as usize] == comm[e.0]);
        assert(clusters[e.1 as usize] == comm[e.1]);
    }
    partition::lemma_numerator_is_score(l.edges, l.n, clusters, comm);
    law_modularity_is_a_sum_over_pairs(l.edges, l.n, clusters);
    level::lemma_two_m(l);
    sums::lemma_sum_to_zero(l.n, level::loop_weights(l));
}

} // verus!
