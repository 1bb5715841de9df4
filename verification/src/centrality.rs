//! Distances in the knowledge graph, and centrality scores as exact fractions.

use crate::communities;
use crate::level;
use crate::sums;
use crate::un_graph;
use petgraph::graph::UnGraph;
use vstd::prelude::*;

verus! {

// ---------------------------------------------------------------------------
// Walks and distances
// ---------------------------------------------------------------------------

/// An edge joins `a` and `b`.
pub open spec fn linked(edges: Seq<sums::Edge>, a: int, b: int) -> bool {
    exists|k: int|
        0 <= k < edges.len() && ((#[trigger] edges[k]).0 == a && edges[k].1 == b || edges[k].0 == b
            && edges[k].1 == a)
}

/// A walk of exactly `d` edges leads from `s` to `v`.
pub open spec fn walk(edges: Seq<sums::Edge>, s: int, v: int, d: nat) -> bool
    decreases d,
{
    if d == 0 {
        v == s
    } else {
        exists|u: int| walk(edges, s, u, (d - 1) as nat) && #[trigger] linked(edges, u, v)
    }
}

/// The shortest walk from `s` to `v` has `d` edges.
pub open spec fn is_distance(edges: Seq<sums::Edge>, s: int, v: int, d: nat) -> bool {
    walk(edges, s, v, d) && forall|j: nat| j < d ==> !#[trigger] walk(edges, s, v, j)
}

/// The distance from `s` to `v`, where any walk leads there.
pub open spec fn distance(edges: Seq<sums::Edge>, s: int, v: int) -> Option<nat> {
    if exists|d: nat| is_distance(edges, s, v, d) {
        Some(choose|d: nat| is_distance(edges, s, v, d))
    } else {
        None
    }
}

pub proof fn lemma_distance(edges: Seq<sums::Edge>, s: int, v: int, d: nat)
    requires
        is_distance(edges, s, v, d),
    ensures
        distance(edges, s, v) == Some(d),
{
    let e = choose|e: nat| is_distance(edges, s, v, e);
    assert(is_distance(edges, s, v, e));
    if e < d {
        assert(!walk(edges, s, v, e));
    }
    if d < e {
        assert(!walk(edges, s, v, d));
    }
}

/// A shortest walk ends with a shortest walk to its last node but one.
proof fn lemma_last_step(edges: Seq<sums::Edge>, s: int, v: int, d: nat) -> (u: int)
    requires
        is_distance(edges, s, v, d),
        d > 0,
    ensures
        is_distance(edges, s, u, (d - 1) as nat),
        linked(edges, u, v),
{
    let u = choose|u: int|
        walk(edges, s, u, (d - 1) as nat) && #[trigger] linked(edges, u, v);
    assert forall|j: nat| j < d - 1 implies !#[trigger] walk(edges, s, u, j) by {
        if walk(edges, s, u, j) {
            assert(walk(edges, s, v, j + 1));
        }
    }
    u
}

pub proof fn lemma_shortest(edges: Seq<sums::Edge>, s: int, v: int, d: nat)
    requires
        walk(edges, s, v, d),
    ensures
        exists|j: nat| j <= d && #[trigger] is_distance(edges, s, v, j),
    decreases d,
{
    if exists|j: nat| j < d && #[trigger] walk(edges, s, v, j) {
        let j = choose|j: nat| j < d && #[trigger] walk(edges, s, v, j);
        lemma_shortest(edges, s, v, j);
        let i = choose|i: nat| i <= j && #[trigger] is_distance(edges, s, v, i);
        assert(is_distance(edges, s, v, i));
    } else {
        assert(is_distance(edges, s, v, d));
    }
}

/// Where no node is at distance `d`, none is farther away.
proof fn lemma_no_farther(edges: Seq<sums::Edge>, s: int, d: nat, v: int, m: nat)
    requires
        forall|u: int| !#[trigger] is_distance(edges, s, u, d),
        is_distance(edges, s, v, m),
    ensures
        m < d,
    decreases m,
{
    if m > d {
        let u = lemma_last_step(edges, s, v, m);
        lemma_no_farther(edges, s, d, u, (m - 1) as nat);
    }
}

// ---------------------------------------------------------------------------
// Breadth-first search
// ---------------------------------------------------------------------------

spec fn lists_neighbours(adj: Seq<Vec<usize>>, edges: Seq<sums::Edge>) -> bool {
    forall|a: int, b: usize|
        0 <= a < adj.len() ==> (#[trigger] adj[a]@.contains(b) <==> linked(edges, a, b as int))
}

proof fn lemma_push_index(s: Seq<usize>, x: usize, y: usize)
    ensures
        s.push(x).contains(y) <==> s.contains(y) || x == y,
{
    let t = s.push(x);
    if s.contains(y) {
        let i = choose|i: int| 0 <= i < s.len() && s[i] == y;
        assert(t[i] == y);
    }
    if x == y {
        assert(t[s.len() as int] == y);
    }
    if t.contains(y) && x != y {
        let i = choose|i: int| 0 <= i < t.len() && t[i] == y;
        assert(s[i] == y);
    }
}

proof fn lemma_linked_push(edges: Seq<sums::Edge>, e: sums::Edge, a: int, b: int)
    ensures
        linked(edges.push(e), a, b) <==> linked(edges, a, b) || (e.0 == a && e.1 == b) || (e.0 == b
            && e.1 == a),
{
    let now = edges.push(e);
    assert(now[edges.len() as int] == e);
    if linked(edges, a, b) {
        let k = choose|k: int|
            0 <= k < edges.len() && ((#[trigger] edges[k]).0 == a && edges[k].1 == b || edges[k].0
                == b && edges[k].1 == a);
        assert(now[k] == edges[k]);
    }
    if linked(now, a, b) {
        let k = choose|k: int|
            0 <= k < now.len() && ((#[trigger] now[k]).0 == a && now[k].1 == b || now[k].0 == b
                && now[k].1 == a);
        if k < edges.len() {
            assert(edges[k] == now[k]);
        }
    }
}

/// The neighbours of every node.
fn neighbour_lists(edges: &Vec<(usize, usize, u128)>, n: usize) -> (adj: Vec<Vec<usize>>)
    requires
        forall|k: int|
            0 <= k < edges.len() ==> (#[trigger] edges[k]).0 < n && edges[k].1 < n,
    ensures
        adj.len() == n,
        forall|a: int, b: usize|
            0 <= a < n ==> (#[trigger] adj[a]@.contains(b) <==> linked(
                communities::edges_of(edges@),
                a,
                b as int,
            )),
{
    let ghost all = communities::edges_of(edges@);
    let mut adj: Vec<Vec<usize>> = Vec::new();
    let mut i: usize = 0;
    while i < n
        invariant
            i <= n,
            adj.len() == i,
            forall|a: int| 0 <= a < i ==> (#[trigger] adj[a])@ == Seq::<usize>::empty(),
        decreases n - i,
    {
        adj.push(Vec::new());
        i += 1;
    }
    let mut k: usize = 0;
    assert(all.take(0) =~= Seq::<sums::Edge>::empty());
    while k < edges.len()
        invariant
            k <= edges.len(),
            adj.len() == n,
            all == communities::edges_of(edges@),
            forall|j: int|
                0 <= j < edges.len() ==> (#[trigger] edges[j]).0 < n && edges[j].1 < n,
            lists_neighbours(adj@, all.take(k as int)),
        decreases edges.len() - k,
    {
        let (a, b, _w): (usize, usize, u128) = edges[k];
        assert(edges[k as int].0 < n);
        let ghost before = adj@;
        adj[a].push(b);
        let ghost mid = adj@;
        adj[b].push(a);
        proof {
            let now = all.take(k + 1);
            let e = all[k as int];
            assert(e == communities::edge_of(edges@[k as int]));
            assert(now =~= all.take(k as int).push(e));
            assert forall|x: int, y: usize| 0 <= x < adj.len() implies (#[trigger] adj[x]@.contains(
                y,
            ) <==> linked(now, x, y as int)) by {
                lemma_linked_push(all.take(k as int), e, x, y as int);
                assert(before[x]@.contains(y) <==> linked(all.take(k as int), x, y as int));
                lemma_push_index(before[x]@, b, y);
                lemma_push_index(before[x]@, a, y);
                lemma_push_index(before[x]@.push(b), a, y);
            }
        }
        k += 1;
    }
    assert(all.take(k as int) =~= all);
    adj
}

/// The known distances are right, and cover everything up to distance `d`.
spec fn known_up_to(
    dist: Seq<Option<usize>>,
    edges: Seq<sums::Edge>,
    s: int,
    d: int,
) -> bool {
    forall|v: int|
        0 <= v < dist.len() ==> match #[trigger] dist[v] {
            Some(k) => k <= d && is_distance(edges, s, v, k as nat),
            None => forall|j: nat| j <= d ==> !#[trigger] walk(edges, s, v, j),
        }
}

spec fn unknown(dist: Seq<Option<usize>>) -> int
    decreases dist.len(),
{
    if dist.len() == 0 {
        0
    } else {
        unknown(dist.drop_last()) + if dist.last() is None {
            1int
        } else {
            0
        }
    }
}

proof fn lemma_unknown(dist: Seq<Option<usize>>)
    ensures
        0 <= unknown(dist) <= dist.len(),
    decreases dist.len(),
{
    if dist.len() > 0 {
        lemma_unknown(dist.drop_last());
    }
}

proof fn lemma_unknown_update(dist: Seq<Option<usize>>, v: int, k: usize)
    requires
        0 <= v < dist.len(),
        dist[v] is None,
    ensures
        unknown(dist.update(v, Some(k))) == unknown(dist) - 1,
    decreases dist.len(),
{
    let now = dist.update(v, Some(k));
    if v == dist.len() - 1 {
        assert(now.drop_last() =~= dist.drop_last());
    } else {
        assert(now.drop_last() =~= dist.drop_last().update(v, Some(k)));
        lemma_unknown_update(dist.drop_last(), v, k);
    }
}

/// What has been found while the nodes at distance `d` are expanded: `found` are the nodes
/// that got their distance now.
spec fn expanding(
    old_dist: Seq<Option<usize>>,
    dist: Seq<Option<usize>>,
    found: Seq<usize>,
    edges: Seq<sums::Edge>,
    s: int,
    d: int,
) -> bool {
    &&& dist.len() == old_dist.len()
    &&& forall|v: int|
        0 <= v < dist.len() ==> {
            &&& old_dist[v] is Some ==> #[trigger] dist[v] == old_dist[v]
            &&& old_dist[v] is None && dist[v] is Some ==> dist[v]->Some_0 == d + 1 && walk(
                edges,
                s,
                v,
                (d + 1) as nat,
            )
        }
    &&& forall|v: usize| #[trigger]
        found.contains(v) <==> v < dist.len() && old_dist[v as int] is None
            && dist[v as int] is Some
    &&& unknown(dist) + found.len() == unknown(old_dist)
}

/// Visits the neighbours of one node at distance `d`.
fn visit(
    neighbours: &Vec<usize>,
    dist: &mut Vec<Option<usize>>,
    found: &mut Vec<usize>,
    u: usize,
    d: usize,
    Ghost(old_dist): Ghost<Seq<Option<usize>>>,
    Ghost(edges): Ghost<Seq<sums::Edge>>,
    Ghost(s): Ghost<int>,
)
    requires
        d < usize::MAX,
        walk(edges, s, u as int, d as nat),
        forall|b: usize| #[trigger] neighbours@.contains(b) ==> b < old(dist).len() && linked(
            edges,
            u as int,
            b as int,
        ),
        expanding(old_dist, old(dist)@, old(found)@, edges, s, d as int),
    ensures
        expanding(old_dist, final(dist)@, final(found)@, edges, s, d as int),
        forall|b: usize| #[trigger] neighbours@.contains(b) ==> final(dist)[b as int] is Some,
        forall|v: int|
            0 <= v < old(dist).len() && old(dist)[v] is Some ==> (#[trigger] final(dist)[v])
                is Some,
        final(dist).len() == old(dist).len(),
{
    let mut j: usize = 0;
    while j < neighbours.len()
        invariant
            j <= neighbours.len(),
            d < usize::MAX,
            walk(edges, s, u as int, d as nat),
            dist.len() == old(dist).len(),
            forall|b: usize| #[trigger] neighbours@.contains(b) ==> b < dist.len() && linked(
                edges,
                u as int,
                b as int,
            ),
            expanding(old_dist, dist@, found@, edges, s, d as int),
            forall|i: int|
                0 <= i < j ==> (#[trigger] neighbours[i]) < dist.len()
                    && dist[neighbours[i] as int] is Some,
            forall|v: int|
                0 <= v < dist.len() && old(dist)[v] is Some ==> (#[trigger] dist[v]) is Some,
        decreases neighbours.len() - j,
    {
        let b: usize = neighbours[j];
        assert(neighbours@.contains(b));
        if dist[b].is_none() {
            let ghost before = dist@;
            let ghost found_before = found@;
            dist.set(b, Some(d + 1));
            found.push(b);
            proof {
                lemma_unknown_update(before, b as int, (d + 1) as usize);
                assert(walk(edges, s, b as int, (d + 1) as nat)) by {
                    assert((d + 1 - 1) as nat == d as nat);
                    assert(linked(edges, u as int, b as int));
                }
                assert forall|v: usize| #[trigger]
                    found@.contains(v) <==> v < dist.len() && old_dist[v as int] is None
                        && dist[v as int] is Some by {
                    lemma_push_index(found_before, b, v);
                }
            }
        }
        j += 1;
    }
    assert forall|b: usize| #[trigger] neighbours@.contains(b) implies dist[b as int] is Some by {
        let i = choose|i: int| 0 <= i < neighbours.len() && neighbours[i] == b;
        assert(dist[neighbours[i] as int] is Some);
    }
}

/// Once all nodes at distance `d` are expanded, everything up to distance `d + 1` is known.
proof fn lemma_expanded(
    old_dist: Seq<Option<usize>>,
    dist: Seq<Option<usize>>,
    found: Seq<usize>,
    edges: Seq<sums::Edge>,
    s: int,
    d: nat,
)
    requires
        known_up_to(old_dist, edges, s, d as int),
        expanding(old_dist, dist, found, edges, s, d as int),
        forall|k: int|
            0 <= k < edges.len() ==> 0 <= (#[trigger] edges[k]).0 < dist.len() && 0 <= edges[k].1
                < dist.len(),
        forall|u: int, v: int|
            0 <= u < dist.len() && 0 <= v < dist.len() && old_dist[u] == Some(d as usize)
                && #[trigger] linked(edges, u, v) ==> dist[v] is Some,
        d <= usize::MAX,
    ensures
        known_up_to(dist, edges, s, (d + 1) as int),
{
    assert forall|v: int| 0 <= v < dist.len() implies match #[trigger] dist[v] {
        Some(k) => k <= d + 1 && is_distance(edges, s, v, k as nat),
        None => forall|j: nat| j <= d + 1 ==> !#[trigger] walk(edges, s, v, j),
    } by {
        assert(dist[v] is Some || old_dist[v] is None);
        if old_dist[v] is None {
            assert(forall|j: nat| j <= d ==> !#[trigger] walk(edges, s, v, j));
            if dist[v] is None {
                if walk(edges, s, v, d + 1) {
                    assert(is_distance(edges, s, v, d + 1));
                    let u = lemma_last_step(edges, s, v, d + 1);
                    assert(0 <= u < dist.len());
                    assert(old_dist[u] == Some(d as usize)) by {
                        assert(walk(edges, s, u, d));
                        match old_dist[u] {
                            Some(k) => {
                                assert(is_distance(edges, s, u, k as nat));
                                if (k as nat) < d {
                                    assert(!walk(edges, s, u, k as nat));
                                }
                                if d < k as nat {
                                    assert(!walk(edges, s, u, d));
                                }
                            },
                            None => {},
                        }
                    }
                    assert(linked(edges, u, v));
                }
            }
        }
    }
}

/// The distances from node `s` to all nodes.
fn distances_from(adj: &Vec<Vec<usize>>, s: usize, Ghost(edges): Ghost<Seq<sums::Edge>>) -> (
dist: Vec<Option<usize>>)
    requires
        s < adj.len(),
        forall|k: int|
            0 <= k < edges.len() ==> 0 <= (#[trigger] edges[k]).0 < adj.len() && 0 <= edges[k].1
                < adj.len(),
        lists_neighbours(adj@, edges),
    ensures
        dist.len() == adj.len(),
        forall|v: int|
            0 <= v < dist.len() ==> match #[trigger] dist[v] {
                Some(k) => distance(edges, s as int, v) == Some(k as nat),
                None => distance(edges, s as int, v) is None,
            },
        forall|v: int|
            0 <= v < dist.len() && (#[trigger] dist[v]) is Some ==> dist[v]->Some_0 < dist.len(),
{
    let n: usize = adj.len();
    let mut dist: Vec<Option<usize>> = Vec::new();
    let mut i: usize = 0;
    while i < n
        invariant
            i <= n,
            dist.len() == i,
            forall|v: int| 0 <= v < i ==> (#[trigger] dist[v]) is None,
            unknown(dist@) == i,
        decreases n - i,
    {
        let ghost before = dist@;
        dist.push(None);
        assert(dist@.drop_last() =~= before);
        i += 1;
    }
    proof {
        lemma_unknown_update(dist@, s as int, 0);
    }
    dist.set(s, Some(0));
    let mut frontier: Vec<usize> = Vec::new();
    frontier.push(s);
    let mut d: usize = 0;
    let mut done: bool = false;
    proof {
        assert(walk(edges, s as int, s as int, 0));
        assert(is_distance(edges, s as int, s as int, 0));
        assert forall|v: usize| #[trigger] frontier@.contains(v) <==> v < n && dist[v as int]
            == Some(d) by {
            lemma_push_index(Seq::<usize>::empty(), s, v);
            assert(frontier@ =~= Seq::<usize>::empty().push(s));
        }
    }
    while !done
        invariant
            n == adj.len(),
            dist.len() == n,
            forall|k: int|
                0 <= k < edges.len() ==> 0 <= (#[trigger] edges[k]).0 < n && 0 <= edges[k].1 < n,
            lists_neighbours(adj@, edges),
            known_up_to(dist@, edges, s as int, d as int),
            forall|v: usize| #[trigger] frontier@.contains(v) <==> v < n && dist[v as int]
                == Some(d),
            0 <= unknown(dist@),
            d + unknown(dist@) < n,
            done ==> forall|v: int| !#[trigger] is_distance(edges, s as int, v, (d + 1) as nat),
        decreases unknown(dist@), !done as int,
    {
        let ghost old_dist = dist@;
        let mut found: Vec<usize> = Vec::new();
        let mut f: usize = 0;
        while f < frontier.len()
            invariant
                f <= frontier.len(),
                n == adj.len(),
                dist.len() == n,
                d < n,
                forall|k: int|
                    0 <= k < edges.len() ==> 0 <= (#[trigger] edges[k]).0 < n && 0 <= edges[k].1
                        < n,
                lists_neighbours(adj@, edges),
                known_up_to(old_dist, edges, s as int, d as int),
                old_dist.len() == n,
                forall|v: usize| #[trigger] frontier@.contains(v) <==> v < n && old_dist[v as int]
                    == Some(d),
                expanding(old_dist, dist@, found@, edges, s as int, d as int),
                forall|i: int, b: usize|
                    0 <= i < f && #[trigger] adj[frontier[i] as int]@.contains(b)
                        ==> dist[b as int] is Some,
            decreases frontier.len() - f,
        {
            let u: usize = frontier[f];
            let ghost before = dist@;
            proof {
                assert(frontier@.contains(u));
                assert(is_distance(edges, s as int, u as int, d as nat));
                assert forall|b: usize| #[trigger] adj[u as int]@.contains(b) implies b < n
                    && linked(edges, u as int, b as int) by {
                    assert(linked(edges, u as int, b as int));
                }
            }
            visit(
                &adj[u],
                &mut dist,
                &mut found,
                u,
                d,
                Ghost(old_dist),
                Ghost(edges),
                Ghost(s as int),
            );
            proof {
                assert forall|i: int, b: usize|
                    0 <= i < f + 1 && #[trigger] adj[frontier[i] as int]@.contains(
                        b,
                    ) implies dist[b as int] is Some by {
                    if i < f {
                        assert(before[b as int] is Some);
                    }
                    assert(linked(edges, frontier[i] as int, b as int)) by {
                        assert(frontier@.contains(frontier@[i]));
                    }
                }
            }
            f += 1;
        }
        proof {
            assert forall|u: int, v: int|
                0 <= u < n && 0 <= v < n && old_dist[u] == Some(d) && #[trigger] linked(
                    edges,
                    u,
                    v,
                ) implies dist[v] is Some by {
                assert(frontier@.contains(u as usize));
                let i = choose|i: int| 0 <= i < frontier.len() && frontier[i] == u;
                assert(adj[frontier[i] as int]@.contains(v as usize));
            }
            lemma_expanded(old_dist, dist@, found@, edges, s as int, d as nat);
            lemma_unknown(dist@);
        }
        if found.len() == 0 {
            done = true;
            proof {
                assert forall|v: int| !#[trigger] is_distance(
                    edges,
                    s as int,
                    v,
                    (d + 1) as nat,
                ) by {
                    if is_distance(edges, s as int, v, (d + 1) as nat) {
                        let u = lemma_last_step(edges, s as int, v, (d + 1) as nat);
                        assert(0 <= v < n);
                        assert(dist[v] is Some);
                        assert(!found@.contains(v as usize));
                        assert(old_dist[v] is Some);
                        let k = old_dist[v]->Some_0 as nat;
                        assert(walk(edges, s as int, v, k));
                    }
                }
                assert(dist@ =~= old_dist);
            }
        } else {
            proof {
                assert forall|v: usize| #[trigger] found@.contains(v) <==> v < n && dist[v as int]
                    == Some((d + 1) as usize) by {
                    if v < n {
                        assert(dist[v as int] == dist@[v as int]);
                        assert(old_dist[v as int] is Some ==> old_dist[v as int]->Some_0 <= d);
                    }
                }
            }
            d += 1;
            frontier = found;
        }
    }
    proof {
        assert forall|v: int| 0 <= v < n implies match #[trigger] dist[v] {
            Some(k) => distance(edges, s as int, v) == Some(k as nat),
            None => distance(edges, s as int, v) is None,
        } by {
            match dist[v] {
                Some(k) => {
                    lemma_distance(edges, s as int, v, k as nat);
                },
                None => {
                    if exists|m: nat| is_distance(edges, s as int, v, m) {
                        let m = choose|m: nat| is_distance(edges, s as int, v, m);
                        lemma_no_farther(edges, s as int, (d + 1) as nat, v, m);
                        assert(!walk(edges, s as int, v, m));
                    }
                },
            }
        }
    }
    dist
}

/// The distances from one node of a graph to all its nodes; `None` where no walk leads.
pub fn distances(g: &UnGraph<String, u128>, s: usize) -> (dist: Vec<Option<usize>>)
    requires
        s < un_graph::graph_nodes(*g).len(),
    ensures
        dist.len() == un_graph::graph_nodes(*g).len(),
        forall|v: int|
            0 <= v < dist.len() ==> match #[trigger] dist[v] {
                Some(k) => distance(un_graph::graph_edges(*g), s as int, v) == Some(k as nat),
                None => distance(un_graph::graph_edges(*g), s as int, v) is None,
            },
{
    let n: usize = un_graph::node_count(g);
    let edges: Vec<(usize, usize, u128)> = un_graph::edge_list(g);
    let adj: Vec<Vec<usize>> = neighbour_lists(&edges, n);
    proof {
        lemma_ends_in_range(un_graph::graph_edges(*g), edges@, n as int);
    }
    distances_from(&adj, s, Ghost(un_graph::graph_edges(*g)))
}

proof fn lemma_ends_in_range(all: Seq<sums::Edge>, edges: Seq<(usize, usize, u128)>, n: int)
    requires
        all == communities::edges_of(edges),
        forall|k: int|
            0 <= k < edges.len() ==> (#[trigger] edges[k]).0 < n && edges[k].1 < n,
    ensures
        forall|k: int|
            0 <= k < all.len() ==> 0 <= (#[trigger] all[k]).0 < n && 0 <= all[k].1 < n,
{
    assert forall|k: int| 0 <= k < all.len() implies 0 <= (#[trigger] all[k]).0 < n && 0
        <= all[k].1 < n by {
        assert(all[k] == communities::edge_of(edges[k]));
    }
}

// ---------------------------------------------------------------------------
// Centrality
// ---------------------------------------------------------------------------

/// An exact score between zero and one.
#[derive(Debug, Clone, Copy, PartialEq, Eq, Structural)]
pub struct Fraction {
    pub numerator: u128,
    pub denominator: u128,
}

/// Degree centrality: the number of edges at every node, over the number of other nodes; zero
/// where there are none.
pub fn degree_centrality(g: &UnGraph<String, u128>) -> (res: Vec<Fraction>)
    ensures
        res.len() == un_graph::graph_nodes(*g).len(),
        forall|i: int|
            0 <= i < res.len() ==> if res.len() <= 1 {
                (#[trigger] res[i]).numerator == 0 && res[i].denominator == 1
            } else {
                (#[trigger] res[i]).numerator == un_graph::incident(
                    un_graph::graph_edges(*g),
                    i,
                ).len() && res[i].denominator == res.len() - 1
            },
{
    let n: usize = un_graph::node_count(g);
    let mut res: Vec<Fraction> = Vec::new();
    let mut i: usize = 0;
    while i < n
        invariant
            i <= n,
            n == un_graph::graph_nodes(*g).len(),
            res.len() == i,
            forall|j: int|
                0 <= j < i ==> if n <= 1 {
                    (#[trigger] res[j]).numerator == 0 && res[j].denominator == 1
                } else {
                    (#[trigger] res[j]).numerator == un_graph::incident(
                        un_graph::graph_edges(*g),
                        j,
                    ).len() && res[j].denominator == n - 1
                },
        decreases n - i,
    {
        if n <= 1 {
            res.push(Fraction { numerator: 0, denominator: 1 });
        } else {
            let weights: Vec<u128> = un_graph::incident_weights(g, i);
            proof {
                broadcast use vstd::seq_lib::group_to_multiset_ensures;

                let listed = un_graph::incident(un_graph::graph_edges(*g), i as int);
                assert(communities::ints_u128(weights@).to_multiset().len()
                    == listed.to_multiset().len());
            }
            res.push(
                Fraction { numerator: weights.len() as u128, denominator: (n - 1) as u128 },
            );
        }
        i += 1;
    }
    res
}

pub open spec fn reached(edges: Seq<sums::Edge>, s: int) -> spec_fn(int) -> int {
    |v: int| level::if_in(distance(edges, s, v) is Some, 1)
}

pub open spec fn lengths(edges: Seq<sums::Edge>, s: int) -> spec_fn(int) -> int {
    |v: int|
        match distance(edges, s, v) {
            Some(d) => d as int,
            None => 0,
        }
}

/// How many nodes can be reached from `s`, `s` among them.
pub open spec fn reach(edges: Seq<sums::Edge>, n: int, s: int) -> int {
    sums::sum_to(n, reached(edges, s))
}

/// The sum of the distances from `s` to all nodes that can be reached.
pub open spec fn total_distance(edges: Seq<sums::Edge>, n: int, s: int) -> int {
    sums::sum_to(n, lengths(edges, s))
}

/// Closeness centrality of every node `v`, corrected for unconnected parts:
/// `(reach - 1) / (n - 1) * (reach - 1) / (sum of distances)`; zero for a node without edges.
pub fn closeness_centrality(g: &UnGraph<String, u128>) -> (res: Vec<Fraction>)
    ensures
        res.len() == un_graph::graph_nodes(*g).len(),
        forall|v: int|
            0 <= v < res.len() ==> {
                let edges = un_graph::graph_edges(*g);
                let n = res.len() as int;
                let r = reach(edges, n, v);
                let t = total_distance(edges, n, v);
                if t == 0 {
                    (#[trigger] res[v]).numerator == 0 && res[v].denominator == 1
                } else {
                    (#[trigger] res[v]).numerator == (r - 1) * (r - 1) && res[v].denominator == (n
                        - 1) * t
                }
            },
{
    let n: usize = un_graph::node_count(g);
    let list: Vec<(usize, usize, u128)> = un_graph::edge_list(g);
    let ghost edges = un_graph::graph_edges(*g);
    let adj: Vec<Vec<usize>> = neighbour_lists(&list, n);
    proof {
        lemma_ends_in_range(edges, list@, n as int);
    }
    let mut res: Vec<Fraction> = Vec::new();
    let mut s: usize = 0;
    while s < n
        invariant
            s <= n,
            n <= u32::MAX,
            n == adj.len(),
            res.len() == s,
            forall|k: int|
                0 <= k < edges.len() ==> 0 <= (#[trigger] edges[k]).0 < n && 0 <= edges[k].1 < n,
            lists_neighbours(adj@, edges),
            forall|v: int|
                0 <= v < s ==> {
                    let r = reach(edges, n as int, v);
                    let t = total_distance(edges, n as int, v);
                    if t == 0 {
                        (#[trigger] res[v]).numerator == 0 && res[v].denominator == 1
                    } else {
                        (#[trigger] res[v]).numerator == (r - 1) * (r - 1) && res[v].denominator
                            == (n - 1) * t
                    }
                },
        decreases n - s,
    {
        let dist: Vec<Option<usize>> = distances_from(&adj, s, Ghost(edges));
        let mut r: u64 = 0;
        let mut t: u64 = 0;
        let mut v: usize = 0;
        proof {
            assert(n * n <= 0xffff_ffff * 0xffff_ffff) by (nonlinear_arith)
                requires
                    0 <= n <= 0xffff_ffff,
            ;
            assert(0 * n == 0) by (nonlinear_arith);
        }
        while v < n
            invariant
                v <= n,
                n <= u32::MAX,
                n * n <= 0xffff_ffff * 0xffff_ffff,
                dist.len() == n,
                r == sums::sum_to(v as int, reached(edges, s as int)),
                t == sums::sum_to(v as int, lengths(edges, s as int)),
                r <= v,
                t <= v * n,
                forall|u: int|
                    0 <= u < n ==> match #[trigger] dist[u] {
                        Some(k) => distance(edges, s as int, u) == Some(k as nat),
                        None => distance(edges, s as int, u) is None,
                    },
                forall|u: int|
                    0 <= u < n && (#[trigger] dist[u]) is Some ==> dist[u]->Some_0 < n,
            decreases n - v,
        {
            proof {
                assert((v + 1) * n == v * n + n) by (nonlinear_arith);
                assert((v + 1) * n <= n * n) by (nonlinear_arith)
                    requires
                        v + 1 <= n,
                        0 <= n,
                ;
            }
            if let Some(d) = dist[v] {
                r += 1;
                t += d as u64;
            }
            v += 1;
        }
        if t == 0 {
            res.push(Fraction { numerator: 0, denominator: 1 });
        } else {
            proof {
                lemma_reach(edges, n as int, s as int);
                assert((r - 1) * (r - 1) <= 0xffff_ffff * 0xffff_ffff) by (nonlinear_arith)
                    requires
                        1 <= r <= 0xffff_ffff,
                ;
                assert((n - 1) * t <= 0xffff_ffff * 0xffff_ffff_ffff_ffff) by (nonlinear_arith)
                    requires
                        1 <= n <= 0xffff_ffff,
                        0 <= t <= 0xffff_ffff_ffff_ffff,
                ;
                assert(0 <= (n - 1) * t) by (nonlinear_arith)
                    requires
                        1 <= n,
                        0 <= t,
                ;
            }
            let others: u128 = (r - 1) as u128;
            res.push(
                Fraction { numerator: others * others, denominator: (n - 1) as u128 * t as u128 },
            );
        }
        s += 1;
    }
    res
}

/// A node reaches itself.
proof fn lemma_reach(edges: Seq<sums::Edge>, n: int, s: int)
    requires
        0 <= s < n,
    ensures
        reach(edges, n, s) >= 1,
{
    assert(walk(edges, s, s, 0));
    assert(is_distance(edges, s, s, 0));
    lemma_distance(edges, s, s, 0);
    assert(reached(edges, s)(s) == 1);
    sums::lemma_sum_to_term(n, s, reached(edges, s));
}

/// Closeness is at most one: no node is closer to the nodes that it reaches than by one edge
/// each.
pub proof fn law_closeness_at_most_one(edges: Seq<sums::Edge>, n: int, s: int)
    requires
        0 <= s < n,
    ensures
        1 <= reach(edges, n, s) <= n,
        reach(edges, n, s) - 1 <= total_distance(edges, n, s),
        (reach(edges, n, s) - 1) * (reach(edges, n, s) - 1) <= (n - 1) * total_distance(
            edges,
            n,
            s,
        ),
{
    lemma_reach(edges, n, s);
    let r = reach(edges, n, s);
    let t = total_distance(edges, n, s);
    let at_s = |v: int| level::if_in(v == s, 1);
    let both = |v: int| lengths(edges, s)(v) + at_s(v);
    assert forall|v: int| 0 <= v < n implies #[trigger] reached(edges, s)(v) <= both(v) by {
        if v != s && distance(edges, s, v) is Some {
            let d = distance(edges, s, v)->Some_0;
            assert(is_distance(edges, s, v, d));
            assert(walk(edges, s, v, d));
        }
    }
    sums::lemma_sum_to_le(n, reached(edges, s), both);
    sums::lemma_sum_to_add(n, lengths(edges, s), at_s);
    sums::lemma_sum_to_single(n, s, at_s);
    sums::lemma_sum_to_ext(n, both, |v: int| lengths(edges, s)(v) + at_s(v));
    let one = |v: int| 1int;
    sums::lemma_sum_to_le(n, reached(edges, s), one);
    lemma_count(n, one);
    assert((r - 1) * (r - 1) <= (n - 1) * t) by (nonlinear_arith)
        requires
            1 <= r <= n,
            r - 1 <= t,
    ;
}

proof fn lemma_count(n: int, one: spec_fn(int) -> int)
    requires
        forall|v: int| #[trigger] one(v) == 1,
        0 <= n,
    ensures
        sums::sum_to(n, one) == n,
    decreases n,
{
    if n > 0 {
        lemma_count(n - 1, one);
    }
}

proof fn lemma_walk_from_front(edges: Seq<sums::Edge>, s: int, u: int, v: int, d: nat)
    requires
        linked(edges, s, u),
        walk(edges, u, v, d),
    ensures
        walk(edges, s, v, d + 1),
    decreases d,
{
    if d == 0 {
        assert(walk(edges, s, s, 0));
        assert(linked(edges, s, v));
    } else {
        let w = choose|w: int| walk(edges, u, w, (d - 1) as nat) && #[trigger] linked(edges, w, v);
        lemma_walk_from_front(edges, s, u, w, (d - 1) as nat);
        assert(walk(edges, s, w, d));
        assert(linked(edges, w, v));
    }
}

proof fn lemma_walk_back(edges: Seq<sums::Edge>, s: int, v: int, d: nat)
    requires
        walk(edges, s, v, d),
    ensures
        walk(edges, v, s, d),
    decreases d,
{
    if d > 0 {
        let u = choose|u: int| walk(edges, s, u, (d - 1) as nat) && #[trigger] linked(edges, u, v);
        lemma_walk_back(edges, s, u, (d - 1) as nat);
        assert(linked(edges, v, u)) by {
            let k = choose|k: int|
                0 <= k < edges.len() && ((#[trigger] edges[k]).0 == u && edges[k].1 == v
                    || edges[k].0 == v && edges[k].1 == u);
            assert(edges[k].0 == v || edges[k].1 == v);
        }
        lemma_walk_from_front(edges, v, u, s, (d - 1) as nat);
    }
}

/// It is as far from `s` to `v` as from `v` to `s`.
pub proof fn law_distance_is_symmetric(edges: Seq<sums::Edge>, s: int, v: int)
    ensures
        distance(edges, s, v) == distance(edges, v, s),
{
    assert forall|d: nat| #[trigger] walk(edges, s, v, d) <==> walk(edges, v, s, d) by {
        if walk(edges, s, v, d) {
            lemma_walk_back(edges, s, v, d);
        }
        if walk(edges, v, s, d) {
            lemma_walk_back(edges, v, s, d);
        }
    }
    if exists|d: nat| is_distance(edges, s, v, d) {
        let d = choose|d: nat| is_distance(edges, s, v, d);
        assert forall|j: nat| j < d implies !#[trigger] walk(edges, v, s, j) by {
            assert(!walk(edges, s, v, j));
        }
        assert(is_distance(edges, v, s, d));
        lemma_distance(edges, s, v, d);
        lemma_distance(edges, v, s, d);
    } else if exists|d: nat| is_distance(edges, v, s, d) {
        let d = choose|d: nat| is_distance(edges, v, s, d);
        assert(walk(edges, s, v, d));
        lemma_shortest(edges, s, v, d);
    }
}

} // verus!
