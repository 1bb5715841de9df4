//! The `petgraph` graph that carries the knowledge graph, and what is relied on of it.

use crate::communities;
use crate::level;
use crate::natural::Natural;
use crate::partition;
use crate::sums;
use petgraph::graph::{NodeIndex, UnGraph};
use petgraph::visit::EdgeRef;
use vstd::prelude::*;

verus! {

/// `petgraph`'s adjacency-list graph.
#[verifier::external_type_specification]
#[verifier::external_body]
#[verifier::reject_recursive_types(N)]
#[verifier::reject_recursive_types(E)]
#[verifier::reject_recursive_types(Ty)]
#[verifier::reject_recursive_types(Ix)]
pub struct ExGraph<N, E, Ty, Ix>(petgraph::graph::Graph<N, E, Ty, Ix>);

/// `petgraph`'s marker for undirected graphs.
#[verifier::external_type_specification]
#[verifier::external_body]
pub struct ExUndirected(petgraph::Undirected);

/// The node payloads of a graph, in index order.
pub uninterp spec fn graph_nodes(g: UnGraph<String, u128>) -> Seq<Seq<char>>;

/// The edges `(source index, target index, weight)` of a graph, in index order.
pub uninterp spec fn graph_edges(g: UnGraph<String, u128>) -> Seq<sums::Edge>;

/// `Graph::new_undirected`: a graph without nodes and edges.
#[verifier::external_body]
pub(crate) fn new_graph() -> (g: UnGraph<String, u128>)
    ensures
        graph_nodes(g) == Seq::<Seq<char>>::empty(),
        graph_edges(g) == Seq::<sums::Edge>::empty(),
{
    UnGraph::new_undirected()
}

/// `Graph::add_node`: appends a node and returns its index.
#[verifier::external_body]
pub(crate) fn add_node(g: &mut UnGraph<String, u128>, payload: String) -> (index: usize)
    requires
        graph_nodes(*old(g)).len() < u32::MAX,
    ensures
        index == graph_nodes(*old(g)).len(),
        graph_nodes(*final(g)) == graph_nodes(*old(g)).push(payload@),
        graph_edges(*final(g)) == graph_edges(*old(g)),
{
    g.add_node(payload).index()
}

/// `Graph::add_edge`: appends an edge between two existing nodes.
#[verifier::external_body]
pub(crate) fn add_edge(g: &mut UnGraph<String, u128>, a: usize, b: usize, weight: u128)
    requires
        a < graph_nodes(*old(g)).len(),
        b < graph_nodes(*old(g)).len(),
        graph_edges(*old(g)).len() < u32::MAX,
    ensures
        graph_nodes(*final(g)) == graph_nodes(*old(g)),
        graph_edges(*final(g)) == graph_edges(*old(g)).push((a as int, b as int, weight as int)),
{
    g.add_edge(NodeIndex::new(a), NodeIndex::new(b), weight);
}

/// `Graph::node_count`: the number of nodes, which are indexed with 32 bits.
#[verifier::external_body]
pub(crate) fn node_count(g: &UnGraph<String, u128>) -> (n: usize)
    ensures
        n == graph_nodes(*g).len(),
        n <= u32::MAX,
{
    g.node_count()
}

/// `Graph::edge_references`: every edge in index order. Both ends of an edge are nodes of
/// the graph.
#[verifier::external_body]
pub(crate) fn edge_list(g: &UnGraph<String, u128>) -> (edges: Vec<(usize, usize, u128)>)
    ensures
        communities::edges_of(edges@) == graph_edges(*g),
        forall|k: int|
            0 <= k < edges.len() ==> (#[trigger] edges[k]).0 < graph_nodes(*g).len() && edges[k].1
                < graph_nodes(*g).len(),
{
    g.edge_references().map(|e| (e.source().index(), e.target().index(), *e.weight())).collect()
}

/// The weights of the edges with an end at node `a`, each edge once.
pub open spec fn incident(edges: Seq<sums::Edge>, a: int) -> Seq<int>
    decreases edges.len(),
{
    if edges.len() == 0 {
        Seq::empty()
    } else {
        let rest = incident(edges.drop_last(), a);
        if edges.last().0 == a || edges.last().1 == a {
            rest.push(edges.last().2)
        } else {
            rest
        }
    }
}

/// `Graph::edges`: the weights of the edges at a node, in no particular order. A self-loop
/// is handed out once.
#[verifier::external_body]
pub(crate) fn incident_weights(g: &UnGraph<String, u128>, a: usize) -> (weights: Vec<u128>)
    requires
        a < graph_nodes(*g).len(),
    ensures
        communities::ints_u128(weights@).to_multiset() == incident(
            graph_edges(*g),
            a as int,
        ).to_multiset(),
{
    g.edges(NodeIndex::new(a)).map(|e| *e.weight()).collect()
}

/// The level of community detection that a graph stands for.
pub open spec fn graph_level(g: UnGraph<String, u128>) -> level::Level {
    communities::base_level(graph_edges(g), graph_nodes(g).len() as int)
}

/// The weight of all edges of a graph.
pub open spec fn graph_weight(g: UnGraph<String, u128>) -> int {
    sums::sum_edges(graph_edges(g), level::edge_weight())
}

spec fn list_sum(s: Seq<int>) -> int {
    s.fold_right(|x: int, acc: int| x + acc, 0)
}

proof fn lemma_list_sum_shift(s: Seq<int>, d: int)
    ensures
        s.fold_right(|x: int, acc: int| x + acc, d) == list_sum(s) + d,
    decreases s.len(),
{
    if s.len() > 0 {
        lemma_list_sum_shift(s.drop_last(), s.last() + d);
        lemma_list_sum_shift(s.drop_last(), s.last());
    }
}

proof fn lemma_list_sum_push(s: Seq<int>, x: int)
    ensures
        list_sum(s.push(x)) == list_sum(s) + x,
{
    assert(s.push(x).drop_last() =~= s);
    lemma_list_sum_shift(s, x);
}

proof fn lemma_incident(edges: Seq<sums::Edge>, a: int)
    ensures
        list_sum(incident(edges, a)) == partition::weighted_degree(edges, a),
    decreases edges.len(),
{
    if edges.len() > 0 {
        lemma_incident(edges.drop_last(), a);
        lemma_list_sum_push(incident(edges.drop_last(), a), edges.last().2);
    }
}

/// What `edge_list` returns describes a well-formed level.
pub proof fn lemma_edge_list(g: UnGraph<String, u128>, edges: Seq<(usize, usize, u128)>)
    requires
        communities::edges_of(edges) == graph_edges(g),
        forall|k: int|
            0 <= k < edges.len() ==> (#[trigger] edges[k]).0 < graph_nodes(g).len() && edges[k].1
                < graph_nodes(g).len(),
    ensures
        partition::edges_within(graph_edges(g), graph_nodes(g).len() as int),
{
    let l = graph_level(g);
    assert forall|k: int| 0 <= k < l.edges.len() implies 0 <= (#[trigger] l.edges[k]).0 < l.n && 0
        <= l.edges[k].1 < l.n && 0 <= l.edges[k].2 by {
        assert(l.edges[k] == communities::edge_of(edges[k]));
    }
}

/// The weighted degree of a node.
pub(crate) fn weighted_degree(g: &UnGraph<String, u128>, a: usize) -> (k: Natural)
    requires
        a < graph_nodes(*g).len(),
    ensures
        k@ == partition::weighted_degree(graph_edges(*g), a as int),
{
    let weights: Vec<u128> = incident_weights(g, a);
    let ghost all = communities::ints_u128(weights@);
    proof {
        let listed = incident(graph_edges(*g), a as int);
        let plus = |x: int, acc: int| x + acc;
        assert(vstd::seq_lib::commutative_foldr(plus));
        vstd::seq_lib::lemma_fold_right_permutation(all, listed, plus, 0);
        lemma_incident(graph_edges(*g), a as int);
        assert(all.take(0) =~= Seq::<int>::empty());
    }
    let mut sum: Natural = Natural::zero();
    let mut i: usize = 0;
    while i < weights.len()
        invariant
            i <= weights.len(),
            all == communities::ints_u128(weights@),
            sum@ == list_sum(all.take(i as int)),
        decreases weights.len() - i,
    {
        proof {
            assert(all.take(i + 1) =~= all.take(i as int).push(all[i as int]));
            lemma_list_sum_push(all.take(i as int), all[i as int]);
        }
        sum = sum.plus(&Natural::from_u128(weights[i]));
        i += 1;
    }
    assert(all.take(i as int) =~= all);
    sum
}

/// The weight of all edges.
pub fn total_weight(g: &UnGraph<String, u128>) -> (sum: Natural)
    ensures
        sum@ == graph_weight(*g),
{
    let edges: Vec<(usize, usize, u128)> = edge_list(g);
    let ghost all = graph_edges(*g);
    let mut sum: Natural = Natural::zero();
    let mut k: usize = 0;
    assert(all.take(0) =~= Seq::<sums::Edge>::empty());
    while k < edges.len()
        invariant
            k <= edges.len(),
            all == communities::edges_of(edges@),
            all == graph_edges(*g),
            sum@ == sums::sum_edges(all.take(k as int), level::edge_weight()),
        decreases edges.len() - k,
    {
        proof {
            let now = all.take(k + 1);
            assert(now.drop_last() =~= all.take(k as int));
            assert(now.last() == communities::edge_of(edges@[k as int]));
        }
        sum = sum.plus(&Natural::from_u128(edges[k].2));
        k += 1;
    }
    assert(all.take(k as int) =~= all);
    sum
}

proof fn lemma_weight_sum(edges: Seq<sums::Edge>)
    ensures
        sums::sum_edges(edges, level::edge_weight()) == sums::sum_to(
            edges.len() as int,
            |k: int| edges[k].2,
        ),
    decreases edges.len(),
{
    if edges.len() > 0 {
        let rest = edges.drop_last();
        lemma_weight_sum(rest);
        sums::lemma_sum_to_ext(rest.len() as int, |k: int| rest[k].2, |k: int| edges[k].2);
    }
}

/// The weight of a graph is the sum of the weights of its edges.
pub proof fn law_weight_sums_edges(g: UnGraph<String, u128>)
    ensures
        graph_weight(g) == sums::sum_to(
            graph_edges(g).len() as int,
            |k: int| graph_edges(g)[k].2,
        ),
{
    let edges = graph_edges(g);
    lemma_weight_sum(edges);
    sums::lemma_sum_to_ext(
        edges.len() as int,
        |k: int| edges[k].2,
        |k: int| graph_edges(g)[k].2,
    );
}

} // verus!
