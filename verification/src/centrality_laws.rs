//! What distances and centrality scores are, told by walks through the graph.

use crate::centrality;
use crate::sums;
use crate::un_graph;
use vstd::prelude::*;

verus! {

/// A list of nodes from `s` to `v` in which neighbours are joined by an edge.
pub open spec fn is_walk(edges: Seq<sums::Edge>, path: Seq<int>, s: int, v: int) -> bool {
    &&& path.len() > 0
    &&& path[0] == s
    &&& path.last() == v
    &&& forall|k: int|
        0 <= k < path.len() - 1 ==> exists|q: int|
            0 <= q < edges.len() && ((#[trigger] edges[q]).0 == #[trigger] path[k] && edges[q].1
                == path[k + 1] || edges[q].0 == path[k + 1] && edges[q].1 == path[k])
}

/// The least number of edges of a walk from `s` to `v`; `None` where there is no walk.
pub open spec fn shortest(edges: Seq<sums::Edge>, s: int, v: int, d: Option<nat>) -> bool {
    match d {
        Some(d) => {
            &&& exists|path: Seq<int>| #[trigger]
                is_walk(edges, path, s, v) && path.len() == d + 1
            &&& forall|path: Seq<int>| #[trigger] is_walk(edges, path, s, v) ==> path.len() >= d + 1
        },
        None => forall|path: Seq<int>| !#[trigger] is_walk(edges, path, s, v),
    }
}

proof fn lemma_path_of_walk(edges: Seq<sums::Edge>, s: int, v: int, d: nat) -> (path: Seq<int>)
    requires
        centrality::walk(edges, s, v, d),
    ensures
        is_walk(edges, path, s, v),
        path.len() == d + 1,
    decreases d,
{
    if d == 0 {
        seq![s]
    } else {
        let u = choose|u: int|
            centrality::walk(edges, s, u, (d - 1) as nat) && #[trigger] centrality::linked(
                edges,
                u,
                v,
            );
        let rest = lemma_path_of_walk(edges, s, u, (d - 1) as nat);
        let path = rest.push(v);
        assert forall|k: int| 0 <= k < path.len() - 1 implies exists|q: int|
            0 <= q < edges.len() && ((#[trigger] edges[q]).0 == #[trigger] path[k] && edges[q].1
                == path[k + 1] || edges[q].0 == path[k + 1] && edges[q].1 == path[k]) by {
            if k < rest.len() - 1 {
                assert(path[k] == rest[k] && path[k + 1] == rest[k + 1]);
            } else {
                assert(path[k] == u && path[k + 1] == v);
            }
        }
        path
    }
}

proof fn lemma_walk_of_path(edges: Seq<sums::Edge>, path: Seq<int>, s: int, v: int)
    requires
        is_walk(edges, path, s, v),
    ensures
        centrality::walk(edges, s, v, (path.len() - 1) as nat),
    decreases path.len(),
{
    if path.len() > 1 {
        let rest = path.drop_last();
        let u = rest.last();
        assert forall|k: int| 0 <= k < rest.len() - 1 implies exists|q: int|
            0 <= q < edges.len() && ((#[trigger] edges[q]).0 == #[trigger] rest[k] && edges[q].1
                == rest[k + 1] || edges[q].0 == rest[k + 1] && edges[q].1 == rest[k]) by {
            assert(path[k] == rest[k] && path[k + 1] == rest[k + 1]);
        }
        lemma_walk_of_path(edges, rest, s, u);
        let k = path.len() - 2;
        assert(path[k] == u && path[k + 1] == v);
        let q = choose|q: int|
            0 <= q < edges.len() && ((#[trigger] edges[q]).0 == path[k] && edges[q].1 == path[k + 1]
                || edges[q].0 == path[k + 1] && edges[q].1 == path[k]);
        assert(edges[q].0 == u && edges[q].1 == v || edges[q].0 == v && edges[q].1 == u);
        assert(centrality::linked(edges, u, v));
    }
}

/// A distance is the length of a shortest walk, and there is none where no walk leads.
pub proof fn law_distance_is_a_shortest_walk(edges: Seq<sums::Edge>, s: int, v: int)
    ensures
        shortest(edges, s, v, centrality::distance(edges, s, v)),
        forall|d: Option<nat>| #[trigger]
            shortest(edges, s, v, d) ==> d == centrality::distance(edges, s, v),
{
    let found = centrality::distance(edges, s, v);
    match found {
        Some(d) => {
            assert(centrality::is_distance(edges, s, v, d));
            let path = lemma_path_of_walk(edges, s, v, d);
            assert(is_walk(edges, path, s, v) && path.len() == d + 1);
            assert forall|p: Seq<int>| #[trigger] is_walk(edges, p, s, v) implies p.len() >= d
                + 1 by {
                lemma_walk_of_path(edges, p, s, v);
            }
        },
        None => {
            assert forall|p: Seq<int>| !#[trigger] is_walk(edges, p, s, v) by {
                if is_walk(edges, p, s, v) {
                    lemma_walk_of_path(edges, p, s, v);
                    centrality::lemma_shortest(edges, s, v, (p.len() - 1) as nat);
                }
            }
        },
    }
    assert forall|d: Option<nat>| #[trigger] shortest(edges, s, v, d) implies d == found by {
        lemma_shortest_is_one(edges, s, v, d, found);
    }
}

proof fn lemma_shortest_is_one(
    edges: Seq<sums::Edge>,
    s: int,
    v: int,
    a: Option<nat>,
    b: Option<nat>,
)
    requires
        shortest(edges, s, v, a),
        shortest(edges, s, v, b),
    ensures
        a == b,
{
    if a is Some {
        let path = choose|path: Seq<int>| #[trigger]
            is_walk(edges, path, s, v) && path.len() == a->Some_0 + 1;
        assert(is_walk(edges, path, s, v));
    }
    if b is Some {
        let path = choose|path: Seq<int>| #[trigger]
            is_walk(edges, path, s, v) && path.len() == b->Some_0 + 1;
        assert(is_walk(edges, path, s, v));
    }
}

/// The numbers behind a node's closeness: how many nodes a walk leads to, and the sum of the
/// least numbers of edges that it takes, whatever list of these is given.
pub proof fn law_closeness_counts_walks(
    edges: Seq<sums::Edge>,
    n: int,
    s: int,
    d: Seq<Option<nat>>,
)
    requires
        d.len() == n,
        forall|v: int| 0 <= v < n ==> shortest(edges, s, v, #[trigger] d[v]),
    ensures
        centrality::reach(edges, n, s) == sums::sum_to(
            n,
            |v: int|
                if d[v] is Some {
                    1
                } else {
                    0
                },
        ),
        centrality::total_distance(edges, n, s) == sums::sum_to(
            n,
            |v: int|
                if d[v] is Some {
                    d[v]->Some_0 as int
                } else {
                    0
                },
        ),
{
    let ones = |v: int|
        if d[v] is Some {
            1
        } else {
            0
        };
    let lengths = |v: int|
        if d[v] is Some {
            d[v]->Some_0 as int
        } else {
            0
        };
    let ones_too = centrality::reached(edges, s);
    let lengths_too = centrality::lengths(edges, s);
    assert forall|v: int| 0 <= v < n implies #[trigger] ones_too(v) == ones(v) by {
        law_distance_is_a_shortest_walk(edges, s, v);
        assert(shortest(edges, s, v, d[v]));
    }
    assert forall|v: int| 0 <= v < n implies #[trigger] lengths_too(v) == lengths(v) by {
        law_distance_is_a_shortest_walk(edges, s, v);
        assert(shortest(edges, s, v, d[v]));
    }
    sums::lemma_sum_to_ext(n, ones_too, ones);
    sums::lemma_sum_to_ext(n, lengths_too, lengths);
}

/// The edges of a path through the nodes `0, 1, ..., n - 1`.
pub open spec fn path_edges(edges: Seq<sums::Edge>, n: int) -> bool {
    &&& edges.len() == n - 1
    &&& forall|k: int| 0 <= k < edges.len() ==> (#[trigger] edges[k]).0 == k && edges[k].1 == k + 1
}

proof fn lemma_path_walk(edges: Seq<sums::Edge>, n: int, path: Seq<int>, v: int, k: int)
    requires
        path_edges(edges, n),
        is_walk(edges, path, 0, v),
        0 <= k < path.len(),
    ensures
        path[k] <= k,
    decreases k,
{
    if k > 0 {
        lemma_path_walk(edges, n, path, v, k - 1);
        assert(path[k - 1] == path[k - 1]);
        let q = choose|q: int|
            0 <= q < edges.len() && ((#[trigger] edges[q]).0 == path[k - 1] && edges[q].1 == path[k
                - 1 + 1] || edges[q].0 == path[k - 1 + 1] && edges[q].1 == path[k - 1]);
        assert(edges[q].1 == edges[q].0 + 1);
    }
}

proof fn lemma_sum_of_first(n: int)
    requires
        0 <= n,
    ensures
        2 * sums::sum_to(n, |v: int| v) == n * (n - 1),
    decreases n,
{
    if n > 0 {
        lemma_sum_of_first(n - 1);
        assert((n - 1) * (n - 1 - 1) + 2 * (n - 1) == n * (n - 1)) by (nonlinear_arith);
    } else {
        assert(n * (n - 1) == 0) by (nonlinear_arith)
            requires
                n == 0,
        ;
    }
}

proof fn lemma_ones(n: int)
    requires
        0 <= n,
    ensures
        sums::sum_to(n, |v: int| 1int) == n,
    decreases n,
{
    if n > 0 {
        lemma_ones(n - 1);
    }
}

/// From the end of a path of `n` nodes all nodes are reached, at the distances
/// `0, 1, ..., n - 1`.
pub proof fn law_closeness_at_the_end_of_a_path(edges: Seq<sums::Edge>, n: int)
    requires
        n >= 1,
        path_edges(edges, n),
    ensures
        centrality::reach(edges, n, 0) == n,
        2 * centrality::total_distance(edges, n, 0) == n * (n - 1),
{
    let d = Seq::new(n as nat, |v: int| Some(v as nat));
    assert forall|v: int| 0 <= v < n implies shortest(edges, 0, v, #[trigger] d[v]) by {
        let path = Seq::new((v + 1) as nat, |k: int| k);
        assert forall|k: int| 0 <= k < path.len() - 1 implies exists|q: int|
            0 <= q < edges.len() && ((#[trigger] edges[q]).0 == #[trigger] path[k] && edges[q].1
                == path[k + 1] || edges[q].0 == path[k + 1] && edges[q].1 == path[k]) by {
            assert(edges[k].0 == path[k] && edges[k].1 == path[k + 1]);
        }
        assert(path[0] == 0);
        assert(path.last() == v);
        assert(path.len() == v + 1);
        assert(is_walk(edges, path, 0, v));
        assert forall|p: Seq<int>| #[trigger] is_walk(edges, p, 0, v) implies p.len() >= v + 1 by {
            lemma_path_walk(edges, n, p, v, p.len() - 1);
        }
    }
    law_closeness_counts_walks(edges, n, 0, d);
    lemma_ones(n);
    lemma_sum_of_first(n);
    sums::lemma_sum_to_ext(
        n,
        |v: int|
            if d[v] is Some {
                1
            } else {
                0
            },
        |v: int| 1int,
    );
    sums::lemma_sum_to_ext(
        n,
        |v: int|
            if d[v] is Some {
                d[v]->Some_0 as int
            } else {
                0
            },
        |v: int| v,
    );
}

/// The degree of a node counts the edges with an end there, each once.
pub proof fn law_degree_counts_edges(edges: Seq<sums::Edge>, i: int)
    ensures
        un_graph::incident(edges, i).len() == sums::sum_to(
            edges.len() as int,
            |k: int|
                if edges[k].0 == i || edges[k].1 == i {
                    1
                } else {
                    0
                },
        ),
    decreases edges.len(),
{
    if edges.len() > 0 {
        let rest = edges.drop_last();
        law_degree_counts_edges(rest, i);
        sums::lemma_sum_to_ext(
            rest.len() as int,
            |k: int|
                if rest[k].0 == i || rest[k].1 == i {
                    1
                } else {
                    0
                },
            |k: int|
                if edges[k].0 == i || edges[k].1 == i {
                    1
                } else {
                    0
                },
        );
    }
}

} // verus!
