//! Graph analytics for the knowledge graph: graph construction, Louvain communities,
//! modularity and cluster labels.
//!
//! Edge weights are exact co-occurrence counts, and sums and products of them are exact too.

use crate::communities;
use crate::grouping;
use crate::level;
use crate::louvain_laws;
use crate::natural::Natural;
use crate::partition;
use crate::sums;
use crate::un_graph;
use petgraph::graph::UnGraph;
use std::collections::HashMap;
use vstd::hash_map::StringHashMap;
use vstd::prelude::*;

verus! {

broadcast use vstd::std_specs::hash::group_hash_axioms;

// ---------------------------------------------------------------------------
// Graph construction
// ---------------------------------------------------------------------------

/// Node payload carried through the enrichment pipeline.
#[derive(Debug, Clone)]
pub struct KgNode {
    pub id: String,
    pub label: String,
    pub node_type: String,
}

/// Edge payload. `weight` is a co-occurrence count (or multiplicity).
#[derive(Debug, Clone)]
pub struct KgEdge {
    pub source_id: String,
    pub target_id: String,
    pub label: String,
    pub weight: u64,
}

/// The position of the last node with the given id.
pub open spec fn node_index(nodes: Seq<KgNode>, id: Seq<char>) -> Option<int>
    decreases nodes.len(),
{
    if nodes.len() == 0 {
        None
    } else if nodes.last().id@ == id {
        Some(nodes.len() - 1)
    } else {
        node_index(nodes.drop_last(), id)
    }
}

/// The unordered pair of distinct nodes that an edge joins, smaller position first. Dangling
/// edges and self-loops join no pair.
pub open spec fn joined_pair(nodes: Seq<KgNode>, e: KgEdge) -> Option<(int, int)> {
    match (node_index(nodes, e.source_id@), node_index(nodes, e.target_id@)) {
        (Some(a), Some(b)) => if a < b {
            Some((a, b))
        } else if b < a {
            Some((b, a))
        } else {
            None
        },
        _ => None,
    }
}

/// What one edge contributes to the weight of its pair: at least one.
pub open spec fn contribution(e: KgEdge) -> int {
    if e.weight < 1 {
        1
    } else {
        e.weight as int
    }
}

/// The distinct pairs that the edges join, in order of first appearance.
pub open spec fn joined_pairs(nodes: Seq<KgNode>, edges: Seq<KgEdge>) -> Seq<(int, int)>
    decreases edges.len(),
{
    if edges.len() == 0 {
        Seq::empty()
    } else {
        let before = joined_pairs(nodes, edges.drop_last());
        match joined_pair(nodes, edges.last()) {
            Some(p) => if before.contains(p) {
                before
            } else {
                before.push(p)
            },
            None => before,
        }
    }
}

/// The summed contribution of the edges that join the pair `p`.
pub open spec fn pair_weight(nodes: Seq<KgNode>, edges: Seq<KgEdge>, p: (int, int)) -> int
    decreases edges.len(),
{
    if edges.len() == 0 {
        0
    } else {
        pair_weight(nodes, edges.drop_last(), p) + if joined_pair(nodes, edges.last()) == Some(p) {
            contribution(edges.last())
        } else {
            0
        }
    }
}

/// The summed contribution of the edges that join some pair.
pub open spec fn kept_weight(nodes: Seq<KgNode>, edges: Seq<KgEdge>) -> int
    decreases edges.len(),
{
    if edges.len() == 0 {
        0
    } else {
        kept_weight(nodes, edges.drop_last()) + if joined_pair(nodes, edges.last()) is Some {
            contribution(edges.last())
        } else {
            0
        }
    }
}

/// One weighted edge per joined pair.
pub open spec fn collapsed(nodes: Seq<KgNode>, edges: Seq<KgEdge>) -> Seq<sums::Edge> {
    let pairs = joined_pairs(nodes, edges);
    Seq::new(
        pairs.len(),
        |k: int| (pairs[k].0, pairs[k].1, pair_weight(nodes, edges, pairs[k])),
    )
}

/// The index map gives every known id the position of its node.
pub open spec fn maps_ids(nodes: Seq<KgNode>, map: Map<Seq<char>, usize>) -> bool {
    forall|id: Seq<char>|
        #![trigger map.contains_key(id)]
        #![trigger node_index(nodes, id)]
        match node_index(nodes, id) {
            Some(p) => map.contains_key(id) && map[id] == p,
            None => !map.contains_key(id),
        }
}

pub proof fn lemma_node_index(nodes: Seq<KgNode>, id: Seq<char>)
    ensures
        match node_index(nodes, id) {
            Some(p) => {
                &&& 0 <= p < nodes.len()
                &&& nodes[p].id@ == id
                &&& forall|q: int| p < q < nodes.len() ==> (#[trigger] nodes[q]).id@ != id
            },
            None => forall|q: int| 0 <= q < nodes.len() ==> (#[trigger] nodes[q]).id@ != id,
        },
    decreases nodes.len(),
{
    if nodes.len() > 0 && nodes.last().id@ != id {
        let rest = nodes.drop_last();
        lemma_node_index(rest, id);
        assert forall|q: int| 0 <= q < nodes.len() && nodes[q].id@ == id implies q < rest.len()
            && rest[q] == nodes[q] by {}
    }
}

pub proof fn lemma_joined_pairs(nodes: Seq<KgNode>, edges: Seq<KgEdge>)
    ensures
        joined_pairs(nodes, edges).no_duplicates(),
        joined_pairs(nodes, edges).len() <= edges.len(),
        forall|k: int|
            0 <= k < joined_pairs(nodes, edges).len() ==> {
                &&& 0 <= (#[trigger] joined_pairs(nodes, edges)[k]).0
                &&& joined_pairs(nodes, edges)[k].0 < joined_pairs(nodes, edges)[k].1
                &&& joined_pairs(nodes, edges)[k].1 < nodes.len()
            },
    decreases edges.len(),
{
    if edges.len() > 0 {
        lemma_joined_pairs(nodes, edges.drop_last());
        lemma_node_index(nodes, edges.last().source_id@);
        lemma_node_index(nodes, edges.last().target_id@);
        let before = joined_pairs(nodes, edges.drop_last());
        match joined_pair(nodes, edges.last()) {
            Some(p) => {
                assert(forall|k: int| 0 <= k < before.len() ==> before.contains(#[trigger] before[k]));
            },
            None => {},
        }
    }
}

pub proof fn lemma_pair_weight(nodes: Seq<KgNode>, edges: Seq<KgEdge>, p: (int, int))
    ensures
        0 <= pair_weight(nodes, edges, p) <= kept_weight(nodes, edges),
        joined_pairs(nodes, edges).contains(p) <==> pair_weight(nodes, edges, p) > 0,
    decreases edges.len(),
{
    if edges.len() > 0 {
        let rest = edges.drop_last();
        lemma_pair_weight(nodes, rest, p);
        let before = joined_pairs(nodes, rest);
        match joined_pair(nodes, edges.last()) {
            Some(q) => {
                if !before.contains(q) {
                    let now = before.push(q);
                    assert(now[before.len() as int] == q);
                    if before.contains(p) {
                        let k = choose|k: int| 0 <= k < before.len() && before[k] == p;
                        assert(now[k] == p);
                    }
                    if now.contains(p) && p != q {
                        let k = choose|k: int| 0 <= k < now.len() && now[k] == p;
                        assert(before[k] == p);
                    }
                }
            },
            None => {},
        }
    }
}

/// The weight of a list of edges fits in 128 bits, since their number and the weight of each fit
/// in 64.
proof fn lemma_kept_bound(nodes: Seq<KgNode>, edges: Seq<KgEdge>)
    requires
        edges.len() <= 0xffff_ffff_ffff_ffff,
    ensures
        kept_weight(nodes, edges) <= u128::MAX,
{
    lemma_kept_product(nodes, edges);
    let n = edges.len() as int;
    assert(n * 0xffff_ffff_ffff_ffff <= 0xffff_ffff_ffff_ffff * 0xffff_ffff_ffff_ffff)
        by (nonlinear_arith)
        requires
            0 <= n <= 0xffff_ffff_ffff_ffff,
    ;
}

proof fn lemma_kept_product(nodes: Seq<KgNode>, edges: Seq<KgEdge>)
    ensures
        kept_weight(nodes, edges) <= edges.len() * 0xffff_ffff_ffff_ffff,
    decreases edges.len(),
{
    if edges.len() > 0 {
        lemma_kept_product(nodes, edges.drop_last());
    }
}

/// How one more edge changes the collapsed edge list.
proof fn lemma_collapsed_step(nodes: Seq<KgNode>, edges: Seq<KgEdge>)
    requires
        edges.len() > 0,
    ensures
        ({
            let rest = edges.drop_last();
            let before = collapsed(nodes, rest);
            match joined_pair(nodes, edges.last()) {
                None => collapsed(nodes, edges) == before,
                Some(p) => {
                    if joined_pairs(nodes, rest).contains(p) {
                        forall|k: int|
                            0 <= k < before.len() && (#[trigger] before[k]).0 == p.0 && before[k].1
                                == p.1 ==> collapsed(nodes, edges) == before.update(
                                k,
                                (p.0, p.1, before[k].2 + contribution(edges.last())),
                            )
                    } else {
                        collapsed(nodes, edges) == before.push(
                            (p.0, p.1, contribution(edges.last())),
                        )
                    }
                },
            }
        }),
{
    let rest = edges.drop_last();
    let before = collapsed(nodes, rest);
    let pairs = joined_pairs(nodes, rest);
    lemma_joined_pairs(nodes, rest);
    match joined_pair(nodes, edges.last()) {
        None => {
            assert(collapsed(nodes, edges) =~= before);
        },
        Some(p) => {
            if pairs.contains(p) {
                assert forall|k: int|
                    0 <= k < before.len() && (#[trigger] before[k]).0 == p.0 && before[k].1
                        == p.1 implies collapsed(nodes, edges) == before.update(
                    k,
                    (p.0, p.1, before[k].2 + contribution(edges.last())),
                ) by {
                    assert(pairs[k] == p);
                    assert(collapsed(nodes, edges) =~= before.update(
                        k,
                        (p.0, p.1, before[k].2 + contribution(edges.last())),
                    ));
                }
            } else {
                lemma_pair_weight(nodes, rest, p);
                assert(forall|k: int| 0 <= k < pairs.len() ==> pairs.contains(#[trigger] pairs[k]));
                assert(collapsed(nodes, edges) =~= before.push(
                    (p.0, p.1, contribution(edges.last())),
                ));
            }
        },
    }
}

/// Collapsing keeps the weight: the weights of the collapsed edges sum up to the
/// contributions of all edges that join a pair.
pub proof fn law_collapse_keeps_weight(nodes: Seq<KgNode>, edges: Seq<KgEdge>)
    ensures
        sums::sum_edges(collapsed(nodes, edges), level::edge_weight()) == kept_weight(nodes, edges),
    decreases edges.len(),
{
    if edges.len() > 0 {
        let rest = edges.drop_last();
        law_collapse_keeps_weight(nodes, rest);
        lemma_collapsed_step(nodes, edges);
        let before = collapsed(nodes, rest);
        let pairs = joined_pairs(nodes, rest);
        match joined_pair(nodes, edges.last()) {
            None => {},
            Some(p) => {
                let c = contribution(edges.last());
                if pairs.contains(p) {
                    let k = choose|k: int| 0 <= k < pairs.len() && pairs[k] == p;
                    assert(before[k].0 == p.0 && before[k].1 == p.1);
                    sums::lemma_sum_edges_update(
                        before,
                        k,
                        (p.0, p.1, before[k].2 + c),
                        level::edge_weight(),
                    );
                } else {
                    assert(before.push((p.0, p.1, c)).drop_last() =~= before);
                }
            },
        }
    }
}

spec fn pair_key(a: int, b: int) -> int {
    a * 0x1_0000_0000 + b
}

spec fn slot_of(acc: Seq<(usize, usize, u128)>, slots: Map<u64, usize>) -> bool {
    &&& forall|key: u64| #[trigger]
        slots.contains_key(key) ==> slots[key] < acc.len() && key == pair_key(
            acc[slots[key] as int].0 as int,
            acc[slots[key] as int].1 as int,
        )
    &&& forall|j: int|
        0 <= j < acc.len() ==> {
            &&& (#[trigger] acc[j]).0 < 0x1_0000_0000
            &&& acc[j].1 < 0x1_0000_0000
            &&& slots.contains_key(pair_key(acc[j].0 as int, acc[j].1 as int) as u64)
            &&& slots[pair_key(acc[j].0 as int, acc[j].1 as int) as u64] == j
        }
}

/// The collapsed edge from `a` to `b`, where there is one, can take `w` more.
spec fn has_room(acc: Seq<(usize, usize, u128)>, a: usize, b: usize, w: u128) -> bool {
    forall|j: int|
        0 <= j < acc.len() && (#[trigger] acc[j]).0 == a && acc[j].1 == b ==> acc[j].2 + w
            <= u128::MAX
}

/// The collapsed edge from `a` to `b` took `w` more, or came to be where there was none.
spec fn added(
    before: Seq<(usize, usize, u128)>,
    after: Seq<(usize, usize, u128)>,
    a: usize,
    b: usize,
    w: u128,
) -> bool {
    ||| exists|j: int|
        0 <= j < before.len() && (#[trigger] before[j]).0 == a && before[j].1 == b && after
            == before.update(j, (a, b, (before[j].2 + w) as u128))
    ||| after == before.push((a, b, w)) && forall|j: int|
        0 <= j < before.len() ==> (#[trigger] before[j]).0 != a || before[j].1 != b
}

/// Adds an edge of weight `w` between `a` and `b` to the collapsed edges.
fn accumulate(
    acc: &mut Vec<(usize, usize, u128)>,
    slots: &mut HashMap<u64, usize>,
    a: usize,
    b: usize,
    w: u128,
)
    requires
        slot_of(old(acc)@, old(slots)@),
        a < 0x1_0000_0000,
        b < 0x1_0000_0000,
        has_room(old(acc)@, a, b, w),
    ensures
        slot_of(final(acc)@, final(slots)@),
        added(old(acc)@, final(acc)@, a, b, w),
{
    let key: u64 = a as u64 * 0x1_0000_0000 + b as u64;
    let found: Option<usize> = match slots.get(&key) {
        Some(j) => Some(*j),
        None => None,
    };
    match found {
        Some(j) => {
            let sum: u128 = acc[j].2 + w;
            acc.set(j, (a, b, sum));
        },
        None => {
            slots.insert(key, acc.len());
            acc.push((a, b, w));
            assert(acc[acc.len() - 1] == (a, b, w));
        },
    }
}

/// The collapsed edges have room for the last edge.
proof fn lemma_has_room(
    nodes: Seq<KgNode>,
    edges: Seq<KgEdge>,
    acc: Seq<(usize, usize, u128)>,
    a: usize,
    b: usize,
    w: u128,
)
    requires
        0 < edges.len() <= 0xffff_ffff_ffff_ffff,
        communities::edges_of(acc) == collapsed(nodes, edges.drop_last()),
        joined_pair(nodes, edges.last()) == Some((a as int, b as int)),
        w == contribution(edges.last()),
    ensures
        has_room(acc, a, b, w),
{
    let rest = edges.drop_last();
    let before = collapsed(nodes, rest);
    let p = (a as int, b as int);
    let pairs = joined_pairs(nodes, rest);
    lemma_kept_bound(nodes, edges);
    lemma_pair_weight(nodes, edges, p);
    assert forall|j: int|
        0 <= j < acc.len() && (#[trigger] acc[j]).0 == a && acc[j].1 == b implies acc[j].2 + w
        <= u128::MAX by {
        assert(before.len() == pairs.len() && before.len() == acc.len());
        assert(before[j] == communities::edge_of(acc[j]));
        assert(before[j] == (pairs[j].0, pairs[j].1, pair_weight(nodes, rest, pairs[j])));
        assert(pairs[j] == p);
    }
}

/// Adding the last edge to the collapsed edges of the others collapses all of them.
proof fn lemma_added(
    nodes: Seq<KgNode>,
    edges: Seq<KgEdge>,
    old_acc: Seq<(usize, usize, u128)>,
    acc: Seq<(usize, usize, u128)>,
    a: usize,
    b: usize,
    w: u128,
)
    requires
        0 < edges.len(),
        communities::edges_of(old_acc) == collapsed(nodes, edges.drop_last()),
        joined_pair(nodes, edges.last()) == Some((a as int, b as int)),
        w == contribution(edges.last()),
        has_room(old_acc, a, b, w),
        added(old_acc, acc, a, b, w),
    ensures
        communities::edges_of(acc) == collapsed(nodes, edges),
{
    let rest = edges.drop_last();
    let before = collapsed(nodes, rest);
    let p = (a as int, b as int);
    let pairs = joined_pairs(nodes, rest);
    assert(before.len() == pairs.len() && before.len() == old_acc.len());
    lemma_collapsed_step(nodes, edges);
    if pairs.contains(p) {
        let j = choose|j: int| 0 <= j < pairs.len() && pairs[j] == p;
        assert(before[j] == communities::edge_of(old_acc[j]));
        assert(old_acc[j].0 == a && old_acc[j].1 == b);
        let i = choose|i: int|
            0 <= i < old_acc.len() && (#[trigger] old_acc[i]).0 == a && old_acc[i].1 == b && acc
                == old_acc.update(i, (a, b, (old_acc[i].2 + w) as u128));
        assert(before[i] == communities::edge_of(old_acc[i]));
        assert(communities::edges_of(acc) =~= before.update(i, (p.0, p.1, before[i].2 + w)));
    } else {
        assert forall|i: int| 0 <= i < old_acc.len() implies (#[trigger] old_acc[i]).0 != a
            || old_acc[i].1 != b by {
            assert(before[i] == communities::edge_of(old_acc[i]));
            if old_acc[i].0 == a && old_acc[i].1 == b {
                assert(pairs[i] == p);
            }
        }
        assert(communities::edges_of(acc) =~= before.push((p.0, p.1, w as int)));
    }
}

/// Collapses the edges between the same pair of nodes into one weighted edge each.
#[verifier::spinoff_prover]
pub(crate) fn collapse_edges(
    nodes: &[KgNode],
    edges: &[KgEdge],
    idx_map: &StringHashMap<usize>,
) -> (acc: Vec<(usize, usize, u128)>)
    requires
        nodes.len() <= u32::MAX,
        maps_ids(nodes@, idx_map@),
    ensures
        communities::edges_of(acc@) == collapsed(nodes@, edges@),
{
    let mut acc: Vec<(usize, usize, u128)> = Vec::new();
    let mut slots: HashMap<u64, usize> = HashMap::new();
    let mut k: usize = 0;
    assert(edges@.take(0) =~= Seq::<KgEdge>::empty());
    assert(communities::edges_of(acc@) =~= collapsed(nodes@, edges@.take(0)));
    while k < edges.len()
        invariant
            k <= edges.len(),
            nodes.len() <= u32::MAX,
            maps_ids(nodes@, idx_map@),
            slot_of(acc@, slots@),
            communities::edges_of(acc@) == collapsed(nodes@, edges@.take(k as int)),
        decreases edges.len() - k,
    {
        let e = &edges[k];
        let ghost now = edges@.take(k + 1);
        let ghost old_acc = acc@;
        proof {
            assert(now.drop_last() =~= edges@.take(k as int));
            assert(now.last() == *e);
            lemma_collapsed_step(nodes@, now);
            lemma_node_index(nodes@, e.source_id@);
            lemma_node_index(nodes@, e.target_id@);
        }
        let source: Option<&usize> = idx_map.get(e.source_id.as_str());
        let target: Option<&usize> = idx_map.get(e.target_id.as_str());
        if let (Some(a), Some(b)) = (source, target) {
            let (a, b): (usize, usize) = (*a, *b);
            if a != b {
                let w: u128 = if e.weight < 1 { 1 } else { e.weight as u128 };
                let (low, high): (usize, usize) = if a < b { (a, b) } else { (b, a) };
                proof {
                    lemma_has_room(nodes@, now, acc@, low, high, w);
                }
                accumulate(&mut acc, &mut slots, low, high, w);
                proof {
                    lemma_added(nodes@, now, old_acc, acc@, low, high, w);
                }
            }
        }
        k += 1;
    }
    assert(edges@.take(k as int) =~= edges@);
    acc
}

/// Builds an undirected graph from node and edge lists. Returns the graph and a map from
/// node ids to node indices. Edges between the same pair are collapsed and their weights
/// summed; dangling edges and self-loops are skipped.
pub fn build_graph(nodes: &[KgNode], edges: &[KgEdge]) -> (res: (
    UnGraph<String, u128>,
    StringHashMap<usize>,
))
    requires
        nodes.len() <= u32::MAX,
        joined_pairs(nodes@, edges@).len() <= u32::MAX,
    ensures
        un_graph::graph_nodes(res.0) == nodes@.map_values(|n: KgNode| n.id@),
        un_graph::graph_edges(res.0) == collapsed(nodes@, edges@),
        maps_ids(nodes@, res.1@),
{
    let mut g = un_graph::new_graph();
    let mut idx_map: StringHashMap<usize> = StringHashMap::new();
    let ghost ids = nodes@.map_values(|n: KgNode| n.id@);
    let mut i: usize = 0;
    assert(nodes@.take(0) =~= Seq::<KgNode>::empty());
    while i < nodes.len()
        invariant
            i <= nodes.len(),
            nodes.len() <= u32::MAX,
            ids == nodes@.map_values(|n: KgNode| n.id@),
            un_graph::graph_nodes(g) == ids.take(i as int),
            un_graph::graph_edges(g) == Seq::<sums::Edge>::empty(),
            maps_ids(nodes@.take(i as int), idx_map@),
        decreases nodes.len() - i,
    {
        let ix: usize = un_graph::add_node(&mut g, nodes[i].id.clone());
        idx_map.insert(nodes[i].id.clone(), ix);
        proof {
            let now = nodes@.take(i + 1);
            assert(now.drop_last() =~= nodes@.take(i as int));
            assert(now.last() == nodes@[i as int]);
            assert(ids.take(i + 1) =~= ids.take(i as int).push(ids[i as int]));
        }
        i += 1;
    }
    assert(nodes@.take(i as int) =~= nodes@);
    assert(ids.take(i as int) =~= ids);
    let acc: Vec<(usize, usize, u128)> = collapse_edges(nodes, edges, &idx_map);
    let ghost all = collapsed(nodes@, edges@);
    let mut k: usize = 0;
    assert(all.take(0) =~= Seq::<sums::Edge>::empty());
    proof {
        lemma_joined_pairs(nodes@, edges@);
    }
    while k < acc.len()
        invariant
            k <= acc.len(),
            all == communities::edges_of(acc@),
            all == collapsed(nodes@, edges@),
            all.len() <= u32::MAX,
            un_graph::graph_nodes(g) == ids,
            ids.len() == nodes.len(),
            un_graph::graph_edges(g) == all.take(k as int),
            forall|j: int|
                0 <= j < joined_pairs(nodes@, edges@).len() ==> {
                    &&& 0 <= (#[trigger] joined_pairs(nodes@, edges@)[j]).0
                    &&& joined_pairs(nodes@, edges@)[j].0 < joined_pairs(nodes@, edges@)[j].1
                    &&& joined_pairs(nodes@, edges@)[j].1 < nodes.len()
                },
        decreases acc.len() - k,
    {
        let (a, b, w): (usize, usize, u128) = acc[k];
        assert(all[k as int] == communities::edge_of(acc@[k as int]));
        assert(joined_pairs(nodes@, edges@)[k as int].0 == a);
        un_graph::add_edge(&mut g, a, b, w);
        assert(all.take(k + 1) =~= all.take(k as int).push(all[k as int]));
        k += 1;
    }
    assert(all.take(k as int) =~= all);
    (g, idx_map)
}

// ---------------------------------------------------------------------------
// Louvain community detection
// ---------------------------------------------------------------------------

/// The Louvain communities of a graph: the cluster id of every node index, and their number.
pub open spec fn is_louvain(
    g: UnGraph<String, u128>,
    clusters: Map<usize, u32>,
    count: usize,
) -> bool {
    &&& partition::numbers(clusters, louvain_laws::communities(un_graph::graph_level(g)))
    &&& clusters.dom() == Set::new(|i: usize| i < un_graph::graph_nodes(g).len())
    &&& count == louvain_laws::community_count(un_graph::graph_level(g))
}

/// Louvain is deterministic: two runs on one graph give the same communities with the same ids,
/// and the same count.
pub proof fn law_louvain_is_deterministic(
    g: UnGraph<String, u128>,
    first: (Map<usize, u32>, usize),
    second: (Map<usize, u32>, usize),
)
    requires
        is_louvain(g, first.0, first.1),
        is_louvain(g, second.0, second.1),
    ensures
        first == second,
{
    let comm = louvain_laws::communities(un_graph::graph_level(g));
    assert forall|i: usize| #[trigger] first.0.contains_key(i) implies first.0[i]
        == second.0[i] by {
        assert(first.0.dom().contains(i) && second.0.dom().contains(i));
        assert(comm[i as int] == partition::cluster_of(first.0, i as int)->Some_0);
        assert(comm[i as int] == partition::cluster_of(second.0, i as int)->Some_0);
    }
    assert(first.0 =~= second.0);
}

/// Louvain method for modularity optimization. Returns the cluster id of every node index
/// and the number of communities.
///
/// Every node is moved to the community of a neighbour where that raises the modularity
/// most, until no move does; then communities are contracted to nodes and the procedure
/// repeats.
pub fn louvain_communities(g: &UnGraph<String, u128>) -> (res: (HashMap<usize, u32>, usize))
    ensures
        is_louvain(*g, res.0@, res.1),
{
    let n: usize = un_graph::node_count(g);
    let edges: Vec<(usize, usize, u128)> = un_graph::edge_list(g);
    let ghost l = un_graph::graph_level(*g);
    proof {
        un_graph::lemma_edge_list(*g, edges@);
        louvain_laws::law_numbers_are_dense(l);
    }
    let (labels, count): (Vec<usize>, usize) = communities::detect_communities(edges, n);
    let ghost comm = louvain_laws::communities(l);
    assert forall|j: int| 0 <= j < labels.len() implies #[trigger] labels[j] < n by {
        assert(comm[j] == labels[j]);
    }
    let mut result: HashMap<usize, u32> = HashMap::new();
    let mut i: usize = 0;
    while i < labels.len()
        invariant
            i <= labels.len(),
            labels.len() == n,
            n <= u32::MAX,
            comm == communities::ints(labels@),
            forall|j: int| 0 <= j < labels.len() ==> #[trigger] labels[j] < n,
            forall|j: usize| #[trigger] result@.contains_key(j) <==> j < i,
            forall|j: usize| j < i ==> #[trigger] result@[j] == labels[j as int],
        decreases labels.len() - i,
    {
        assert(labels[i as int] < n);
        result.insert(i, labels[i] as u32);
        i += 1;
    }
    proof {
        assert forall|j: int| 0 <= j < comm.len() implies partition::cluster_of(result@, j) is Some
            && #[trigger] comm[j] == partition::cluster_of(result@, j)->Some_0 by {
            assert(result@.contains_key(j as usize));
            assert(result@[j as usize] == labels[j]);
        }
        assert(result@.dom() =~= Set::new(|j: usize| j < un_graph::graph_nodes(*g).len()));
    }
    (result, count)
}

// ---------------------------------------------------------------------------
// Modularity
// ---------------------------------------------------------------------------

/// A modularity `Q`, exactly, as `(plus - minus) / denominator`.
#[derive(Debug, Clone)]
pub struct Modularity {
    pub plus: Natural,
    pub minus: Natural,
    pub denominator: Natural,
}

/// Every node index of the partition is a node, and every end of an edge is in it.
pub open spec fn covers(g: UnGraph<String, u128>, clusters: Map<usize, u32>) -> bool {
    &&& forall|i: usize| #[trigger] clusters.contains_key(i) ==> i < un_graph::graph_nodes(g).len()
    &&& forall|k: int|
        0 <= k < un_graph::graph_edges(g).len() ==> {
            &&& partition::cluster_of(clusters, (#[trigger] un_graph::graph_edges(g)[k]).0) is Some
            &&& partition::cluster_of(clusters, un_graph::graph_edges(g)[k].1) is Some
        }
}

/// A sum under a key, zero where there is none.
fn sum_of(totals: &HashMap<u32, Natural>, c: u32) -> (sum: Natural)
    ensures
        sum@ == if totals@.contains_key(c) {
            totals@[c]@
        } else {
            0
        },
{
    match totals.get(&c) {
        Some(t) => t.same(),
        None => Natural::zero(),
    }
}

/// The weighted degree of every node, and the summed weighted degrees of every cluster.
fn cluster_totals(g: &UnGraph<String, u128>, clusters: &HashMap<usize, u32>) -> (res: (
    Vec<Natural>,
    HashMap<u32, Natural>,
))
    ensures
        res.0.len() == un_graph::graph_nodes(*g).len(),
        forall|i: int|
            0 <= i < res.0.len() ==> (#[trigger] res.0[i])@ == partition::weighted_degree(
                un_graph::graph_edges(*g),
                i,
            ),
        forall|c: u32|
            (if #[trigger] res.1@.contains_key(c) {
                res.1@[c]@
            } else {
                0
            }) == partition::cluster_total(
                un_graph::graph_edges(*g),
                un_graph::graph_nodes(*g).len() as int,
                clusters@,
                c,
            ),
{
    let n: usize = un_graph::node_count(g);
    let ghost edges = un_graph::graph_edges(*g);
    let mut degrees: Vec<Natural> = Vec::new();
    let mut totals: HashMap<u32, Natural> = HashMap::new();
    let mut i: usize = 0;
    while i < n
        invariant
            i <= n,
            n == un_graph::graph_nodes(*g).len(),
            edges == un_graph::graph_edges(*g),
            degrees.len() == i,
            forall|j: int|
                0 <= j < i ==> (#[trigger] degrees[j])@ == partition::weighted_degree(edges, j),
            forall|c: u32|
                (if #[trigger] totals@.contains_key(c) {
                    totals@[c]@
                } else {
                    0
                }) == sums::sum_to(i as int, partition::cluster_degrees(edges, clusters@, c)),
        decreases n - i,
    {
        let k: Natural = un_graph::weighted_degree(g, i);
        let ghost before = totals@;
        match clusters.get(&i) {
            Some(c) => {
                let c: u32 = *c;
                let more: Natural = sum_of(&totals, c).plus(&k);
                totals.insert(c, more);
                assert(partition::cluster_of(clusters@, i as int) == Some(c));
            },
            None => {},
        }
        proof {
            assert forall|c: u32|
                (if #[trigger] totals@.contains_key(c) {
                    totals@[c]@
                } else {
                    0
                }) == sums::sum_to(i + 1, partition::cluster_degrees(edges, clusters@, c)) by {
                assert((if before.contains_key(c) {
                    before[c]@
                } else {
                    0
                }) == sums::sum_to(i as int, partition::cluster_degrees(edges, clusters@, c)));
            }
        }
        degrees.push(k);
        i += 1;
    }
    (degrees, totals)
}

/// The weight of the edges whose two ends share a cluster.
fn shared_weight(
    edges: &Vec<(usize, usize, u128)>,
    clusters: &HashMap<usize, u32>,
) -> (inside: Natural)
    requires
        forall|k: int|
            0 <= k < edges.len() ==> {
                &&& clusters@.contains_key((#[trigger] edges[k]).0)
                &&& clusters@.contains_key(edges[k].1)
            },
    ensures
        inside@ == sums::sum_edges(
            communities::edges_of(edges@),
            partition::shared(clusters@),
        ),
{
    let ghost all = communities::edges_of(edges@);
    let mut inside: Natural = Natural::zero();
    let mut k: usize = 0;
    assert(all.take(0) =~= Seq::<sums::Edge>::empty());
    while k < edges.len()
        invariant
            k <= edges.len(),
            all == communities::edges_of(edges@),
            forall|j: int|
                0 <= j < edges.len() ==> {
                    &&& clusters@.contains_key((#[trigger] edges[j]).0)
                    &&& clusters@.contains_key(edges[j].1)
                },
            inside@ == sums::sum_edges(all.take(k as int), partition::shared(clusters@)),
        decreases edges.len() - k,
    {
        let (a, b, w): (usize, usize, u128) = edges[k];
        proof {
            let now = all.take(k + 1);
            assert(now.drop_last() =~= all.take(k as int));
            assert(now.last() == communities::edge_of(edges@[k as int]));
            assert(clusters@.contains_key(edges[k as int].0));
        }
        if let (Some(ca), Some(cb)) = (clusters.get(&a), clusters.get(&b)) {
            if *ca == *cb {
                inside = inside.plus(&Natural::from_u128(w));
            }
        }
        k += 1;
    }
    assert(all.take(k as int) =~= all);
    inside
}

/// Modularity of a partition of the graph's nodes, exactly. It is zero on a graph without
/// weight.
pub fn modularity(g: &UnGraph<String, u128>, clusters: &HashMap<usize, u32>) -> (q: Modularity)
    requires
        un_graph::graph_weight(*g) != 0 ==> covers(*g, clusters@),
    ensures
        un_graph::graph_weight(*g) == 0 ==> q.plus@ == 0 && q.minus@ == 0 && q.denominator@ == 1,
        un_graph::graph_weight(*g) != 0 ==> {
            &&& q.plus@ - q.minus@ == partition::modularity_numerator(
                un_graph::graph_edges(*g),
                un_graph::graph_nodes(*g).len() as int,
                clusters@,
            )
            &&& q.denominator@ == partition::double_weight(un_graph::graph_edges(*g))
                * partition::double_weight(un_graph::graph_edges(*g))
        },
{
    let edges: Vec<(usize, usize, u128)> = un_graph::edge_list(g);
    let n: usize = un_graph::node_count(g);
    let weight: Natural = un_graph::total_weight(g);
    if weight.is_zero() {
        return Modularity {
            plus: Natural::zero(),
            minus: Natural::zero(),
            denominator: Natural::from_u128(1),
        };
    }
    let ghost all = un_graph::graph_edges(*g);
    proof {
        assert forall|k: int| 0 <= k < edges.len() implies clusters@.contains_key(
            (#[trigger] edges[k]).0,
        ) && clusters@.contains_key(edges[k].1) by {
            assert(all[k] == communities::edge_of(edges[k]));
            assert(partition::cluster_of(clusters@, all[k].0) is Some);
            assert(partition::cluster_of(clusters@, all[k].1) is Some);
        }
    }
    let inside: Natural = shared_weight(&edges, clusters);
    let (degrees, totals): (Vec<Natural>, HashMap<u32, Natural>) = cluster_totals(g, clusters);
    let two_m: Natural = weight.plus(&weight);
    let mut products: Natural = Natural::zero();
    let mut i: usize = 0;
    let ghost terms = partition::pair_terms(all, n as int, clusters@);
    while i < n
        invariant
            i <= n,
            n == degrees.len(),
            terms == partition::pair_terms(all, n as int, clusters@),
            products@ == sums::sum_to(i as int, terms),
            forall|j: int|
                0 <= j < n ==> (#[trigger] degrees[j])@ == partition::weighted_degree(all, j),
            forall|c: u32|
                (if #[trigger] totals@.contains_key(c) {
                    totals@[c]@
                } else {
                    0
                }) == partition::cluster_total(all, n as int, clusters@, c),
        decreases n - i,
    {
        proof {
            assert(sums::sum_to(i + 1, terms) == sums::sum_to(i as int, terms) + terms(i as int));
        }
        if let Some(c) = clusters.get(&i) {
            let c: u32 = *c;
            assert(partition::cluster_of(clusters@, i as int) == Some(c));
            let total: Natural = sum_of(&totals, c);
            products = products.plus(&degrees[i].times(&total));
        }
        i += 1;
    }
    Modularity {
        plus: two_m.times(&inside.plus(&inside)),
        minus: products,
        denominator: two_m.times(&two_m),
    }
}

/// An edge and its reverse join the same pair.
pub proof fn law_edges_are_undirected(nodes: Seq<KgNode>, e: KgEdge, f: KgEdge)
    requires
        e.source_id@ == f.target_id@,
        e.target_id@ == f.source_id@,
    ensures
        joined_pair(nodes, e) == joined_pair(nodes, f),
{
}

/// A built graph has no self-loops, no pair of nodes is joined twice, and its edges join nodes of the graph.
pub proof fn law_built_graph_is_simple(nodes: Seq<KgNode>, edges: Seq<KgEdge>)
    ensures
        communities::base_level(collapsed(nodes, edges), nodes.len() as int).wf(),
        communities::base_level(collapsed(nodes, edges), nodes.len() as int).simple(),
        forall|j: int, k: int|
            0 <= j < k < collapsed(nodes, edges).len() ==> (#[trigger] collapsed(nodes, edges)[j]).0
                != (#[trigger] collapsed(nodes, edges)[k]).0 || collapsed(nodes, edges)[j].1
                != collapsed(nodes, edges)[k].1,
{
    let l = communities::base_level(collapsed(nodes, edges), nodes.len() as int);
    let pairs = joined_pairs(nodes, edges);
    lemma_joined_pairs(nodes, edges);
    assert forall|k: int| 0 <= k < l.edges.len() implies 0 <= (#[trigger] l.edges[k]).0 < l.n && 0
        <= l.edges[k].1 < l.n && 0 <= l.edges[k].2 && l.edges[k].0 != l.edges[k].1 by {
        assert(l.edges[k] == (pairs[k].0, pairs[k].1, pair_weight(nodes, edges, pairs[k])));
        lemma_pair_weight(nodes, edges, pairs[k]);
    }
    assert forall|j: int, k: int| 0 <= j < k < collapsed(nodes, edges).len() implies (
    #[trigger] collapsed(nodes, edges)[j]).0 != (#[trigger] collapsed(nodes, edges)[k]).0
        || collapsed(nodes, edges)[j].1 != collapsed(nodes, edges)[k].1 by {
        assert(pairs[j] != pairs[k]);
    }
}

/// Louvain communities of a built graph never have negative modularity.
pub proof fn law_louvain_modularity_nonnegative(
    nodes: Seq<KgNode>,
    edges: Seq<KgEdge>,
    clusters: Map<usize, u32>,
)
    requires
        partition::numbers(
            clusters,
            louvain_laws::communities(
                communities::base_level(collapsed(nodes, edges), nodes.len() as int),
            ),
        ),
    ensures
        partition::modularity_numerator(collapsed(nodes, edges), nodes.len() as int, clusters) >= 0,
{
    let l = communities::base_level(collapsed(nodes, edges), nodes.len() as int);
    law_built_graph_is_simple(nodes, edges);
    louvain_laws::law_modularity_nonnegative(l);
    louvain_laws::law_numbers_are_dense(l);
    partition::lemma_numerator_is_score(
        l.edges,
        l.n,
        clusters,
        louvain_laws::communities(l),
    );
}

// ---------------------------------------------------------------------------
// Cluster labeling
// ---------------------------------------------------------------------------

/// A cluster with a human-readable label: that of its node with the highest degree.
#[derive(Debug, Clone)]
pub struct ClusterInfo {
    pub id: u32,
    pub label: String,
    pub node_count: usize,
    pub dominant_type: String,
}

/// The first position of a node whose id is mapped to index `ix`.
pub open spec fn node_at(
    nodes: Seq<KgNode>,
    map: Map<Seq<char>, usize>,
    ix: usize,
) -> Option<int>
    decreases nodes.len(),
{
    if nodes.len() == 0 {
        None
    } else {
        match node_at(nodes.drop_last(), map, ix) {
            Some(p) => Some(p),
            None => if map.contains_key(nodes.last().id@) && map[nodes.last().id@] == ix {
                Some(nodes.len() - 1)
            } else {
                None
            },
        }
    }
}

/// The type of the node with index `ix`.
pub open spec fn type_at(
    nodes: Seq<KgNode>,
    map: Map<Seq<char>, usize>,
    ix: usize,
) -> Option<Seq<char>> {
    match node_at(nodes, map, ix) {
        Some(p) => Some(nodes[p].node_type@),
        None => None,
    }
}

pub open spec fn of_type(
    nodes: Seq<KgNode>,
    map: Map<Seq<char>, usize>,
    t: Seq<char>,
) -> spec_fn(usize) -> bool {
    |ix: usize| type_at(nodes, map, ix) == Some(t)
}

/// How many members of cluster `c` have type `t`.
pub open spec fn type_count(
    nodes: Seq<KgNode>,
    map: Map<Seq<char>, usize>,
    clusters: Map<usize, u32>,
    c: u32,
    t: Seq<char>,
) -> nat {
    grouping::members(clusters, c).filter(of_type(nodes, map, t)).len()
}

/// No member of cluster `c` has a higher weighted degree than its member `ix`.
pub open spec fn top_degree(
    edges: Seq<sums::Edge>,
    clusters: Map<usize, u32>,
    c: u32,
    ix: usize,
) -> bool {
    &&& grouping::members(clusters, c).contains(ix)
    &&& forall|j: usize| #[trigger]
        grouping::members(clusters, c).contains(j) ==> partition::weighted_degree(edges, j as int)
            <= partition::weighted_degree(edges, ix as int)
}

/// The hub of cluster `c`: the first of the members with the highest weighted degree.
pub open spec fn is_hub(
    edges: Seq<sums::Edge>,
    clusters: Map<usize, u32>,
    c: u32,
    ix: usize,
) -> bool {
    &&& top_degree(edges, clusters, c, ix)
    &&& forall|j: usize| #[trigger] top_degree(edges, clusters, c, j) ==> ix <= j
}

/// Member `ix` has the most frequent type in cluster `c`.
pub open spec fn top_type(
    nodes: Seq<KgNode>,
    map: Map<Seq<char>, usize>,
    clusters: Map<usize, u32>,
    c: u32,
    ix: usize,
) -> bool {
    &&& grouping::members(clusters, c).contains(ix)
    &&& type_at(nodes, map, ix) is Some
    &&& forall|t: Seq<char>| #[trigger]
        type_count(nodes, map, clusters, c, t) <= type_count(
            nodes,
            map,
            clusters,
            c,
            type_at(nodes, map, ix)->Some_0,
        )
}

/// The first member with a most frequent type.
pub open spec fn is_typical(
    nodes: Seq<KgNode>,
    map: Map<Seq<char>, usize>,
    clusters: Map<usize, u32>,
    c: u32,
    ix: usize,
) -> bool {
    &&& top_type(nodes, map, clusters, c, ix)
    &&& forall|j: usize| #[trigger] top_type(nodes, map, clusters, c, j) ==> ix <= j
}

/// The ids of labelled clusters.
pub open spec fn cluster_ids(infos: Seq<ClusterInfo>) -> Seq<u32> {
    Seq::new(infos.len(), |s: int| infos[s].id)
}

/// What is said of a cluster: the label of its hub, its size and its most frequent type.
pub open spec fn describes(
    info: ClusterInfo,
    edges: Seq<sums::Edge>,
    nodes: Seq<KgNode>,
    map: Map<Seq<char>, usize>,
    clusters: Map<usize, u32>,
) -> bool {
    &&& info.node_count == grouping::members(clusters, info.id).len()
    &&& exists|ix: usize| #[trigger]
        is_hub(edges, clusters, info.id, ix) && node_at(nodes, map, ix) is Some && info.label@
            == nodes[node_at(nodes, map, ix)->Some_0].label@
    &&& exists|ix: usize| #[trigger]
        is_typical(nodes, map, clusters, info.id, ix) && Some(info.dominant_type@) == type_at(
            nodes,
            map,
            ix,
        )
}

spec fn count_in(s: Seq<usize>, f: spec_fn(usize) -> bool) -> nat
    decreases s.len(),
{
    if s.len() == 0 {
        0
    } else {
        count_in(s.drop_last(), f) + if f(s.last()) {
            1nat
        } else {
            0nat
        }
    }
}

proof fn lemma_count_set(s: Seq<usize>, f: spec_fn(usize) -> bool)
    requires
        s.no_duplicates(),
    ensures
        s.to_set().filter(f).finite(),
        count_in(s, f) == s.to_set().filter(f).len(),
    decreases s.len(),
{
    if s.len() == 0 {
        assert(s.to_set().filter(f) =~= Set::empty());
    } else {
        let rest = s.drop_last();
        let x = s.last();
        lemma_count_set(rest, f);
        assert(s =~= rest.push(x));
        assert forall|y: usize| s.to_set().contains(y) <==> rest.to_set().insert(x).contains(y) by {
            if s.contains(y) {
                let i = choose|i: int| 0 <= i < s.len() && s[i] == y;
                if i < rest.len() {
                    assert(rest[i] == y);
                }
            }
            if rest.contains(y) {
                let i = choose|i: int| 0 <= i < rest.len() && rest[i] == y;
                assert(s[i] == y);
            }
            assert(s[s.len() - 1] == x);
        }
        assert(!rest.to_set().contains(x)) by {
            if rest.contains(x) {
                let i = choose|i: int| 0 <= i < rest.len() && rest[i] == x;
                assert(s[i] == s[s.len() - 1]);
            }
        }
        if f(x) {
            assert(s.to_set().filter(f) =~= rest.to_set().filter(f).insert(x));
        } else {
            assert(s.to_set().filter(f) =~= rest.to_set().filter(f));
        }
    }
}

pub proof fn lemma_node_at(nodes: Seq<KgNode>, map: Map<Seq<char>, usize>, ix: usize)
    ensures
        node_at(nodes, map, ix) matches Some(p) ==> 0 <= p < nodes.len(),
    decreases nodes.len(),
{
    if nodes.len() > 0 {
        lemma_node_at(nodes.drop_last(), map, ix);
    }
}

/// Reverse lookup: node index to node position.
fn node_positions(idx_map: &StringHashMap<usize>, nodes: &[KgNode]) -> (positions: HashMap<
    usize,
    usize,
>)
    ensures
        forall|ix: usize| #[trigger]
            positions@.contains_key(ix) <==> node_at(nodes@, idx_map@, ix) is Some,
        forall|ix: usize|
            positions@.contains_key(ix) ==> node_at(nodes@, idx_map@, ix) == Some(
                #[trigger] positions@[ix] as int,
            ),
{
    let mut positions: HashMap<usize, usize> = HashMap::new();
    let mut p: usize = 0;
    assert(nodes@.take(0) =~= Seq::<KgNode>::empty());
    while p < nodes.len()
        invariant
            p <= nodes.len(),
            forall|ix: usize| #[trigger]
                positions@.contains_key(ix) <==> node_at(
                    nodes@.take(p as int),
                    idx_map@,
                    ix,
                ) is Some,
            forall|ix: usize|
                positions@.contains_key(ix) ==> node_at(nodes@.take(p as int), idx_map@, ix)
                    == Some(#[trigger] positions@[ix] as int),
        decreases nodes.len() - p,
    {
        proof {
            let now = nodes@.take(p + 1);
            assert(now.drop_last() =~= nodes@.take(p as int));
            assert(now.last() == nodes@[p as int]);
        }
        if let Some(ix) = idx_map.get(nodes[p].id.as_str()) {
            let ix: usize = *ix;
            if !positions.contains_key(&ix) {
                positions.insert(ix, p);
            }
        }
        p += 1;
    }
    assert(nodes@.take(p as int) =~= nodes@);
    positions
}

/// The hub of a cluster, out of the list of its members.
fn find_hub(
    g: &UnGraph<String, u128>,
    list: &Vec<usize>,
    clusters: &HashMap<usize, u32>,
    c: u32,
) -> (hub: usize)
    requires
        list.len() > 0,
        list@.to_set() == grouping::members(clusters@, c),
        partition::edges_within(
            un_graph::graph_edges(*g),
            un_graph::graph_nodes(*g).len() as int,
        ),
    ensures
        is_hub(un_graph::graph_edges(*g), clusters@, c, hub),
{
    let n: usize = un_graph::node_count(g);
    let ghost edges = un_graph::graph_edges(*g);
    let mut hub: usize = list[0];
    let mut best: Natural = Natural::zero();
    let mut i: usize = 0;
    while i < list.len()
        invariant
            i <= list.len(),
            list.len() > 0,
            n == un_graph::graph_nodes(*g).len(),
            edges == un_graph::graph_edges(*g),
            partition::edges_within(edges, n as int),
            list@.contains(hub),
            i == 0 ==> hub == list[0],
            i > 0 ==> best@ == partition::weighted_degree(edges, hub as int),
            forall|j: int|
                0 <= j < i ==> partition::weighted_degree(edges, #[trigger] list[j] as int) < best@
                    || (partition::weighted_degree(edges, list[j] as int) == best@ && hub
                    <= list[j]),
        decreases list.len() - i,
    {
        let ix: usize = list[i];
        proof {
            partition::lemma_weighted_degree(edges, n as int, ix as int);
        }
        let k: Natural = if ix < n {
            un_graph::weighted_degree(g, ix)
        } else {
            Natural::zero()
        };
        assert(list@.contains(list@[i as int]));
        if i == 0 || best.less_than(&k) || (best.equals(&k) && ix < hub) {
            hub = ix;
            best = k;
        }
        i += 1;
    }
    proof {
        let m = grouping::members(clusters@, c);
        assert(m.contains(hub)) by {
            assert(list@.to_set().contains(hub));
        }
        assert forall|j: usize| #[trigger] m.contains(j) implies partition::weighted_degree(
            edges,
            j as int,
        ) <= best@ && (partition::weighted_degree(edges, j as int) == best@ ==> hub <= j) by {
            assert(list@.to_set().contains(j));
            let q = choose|q: int| 0 <= q < list.len() && list[q] == j;
            assert(list[q] == j);
        }
        assert forall|j: usize| #[trigger] top_degree(edges, clusters@, c, j) implies hub <= j by {
            assert(m.contains(j));
            assert(m.contains(hub));
        }
    }
    hub
}

/// How often every type occurs among the given nodes.
fn count_types(
    nodes: &[KgNode],
    positions: &HashMap<usize, usize>,
    list: &Vec<usize>,
    idx_map: &StringHashMap<usize>,
) -> (counts: StringHashMap<usize>)
    requires
        forall|ix: usize| #[trigger]
            positions@.contains_key(ix) <==> node_at(nodes@, idx_map@, ix) is Some,
        forall|ix: usize|
            positions@.contains_key(ix) ==> node_at(nodes@, idx_map@, ix) == Some(
                #[trigger] positions@[ix] as int,
            ),
    ensures
        forall|t: Seq<char>| #[trigger]
            counts@.contains_key(t) <==> count_in(list@, of_type(nodes@, idx_map@, t)) > 0,
        forall|t: Seq<char>|
            counts@.contains_key(t) ==> #[trigger] counts@[t] == count_in(
                list@,
                of_type(nodes@, idx_map@, t),
            ),
{
    let mut counts: StringHashMap<usize> = StringHashMap::new();
    let mut i: usize = 0;
    assert(list@.take(0) =~= Seq::<usize>::empty());
    while i < list.len()
        invariant
            i <= list.len(),
            forall|ix: usize| #[trigger]
                positions@.contains_key(ix) <==> node_at(nodes@, idx_map@, ix) is Some,
            forall|ix: usize|
                positions@.contains_key(ix) ==> node_at(nodes@, idx_map@, ix) == Some(
                    #[trigger] positions@[ix] as int,
                ),
            forall|t: Seq<char>| #[trigger]
                counts@.contains_key(t) <==> count_in(
                    list@.take(i as int),
                    of_type(nodes@, idx_map@, t),
                ) > 0,
            forall|t: Seq<char>|
                counts@.contains_key(t) ==> #[trigger] counts@[t] == count_in(
                    list@.take(i as int),
                    of_type(nodes@, idx_map@, t),
                ),
            forall|t: Seq<char>|
                counts@.contains_key(t) ==> #[trigger] counts@[t] <= i,
        decreases list.len() - i,
    {
        let ix: usize = list[i];
        proof {
            let now = list@.take(i + 1);
            assert(now.drop_last() =~= list@.take(i as int));
            assert(now.last() == ix);
            lemma_node_at(nodes@, idx_map@, ix);
        }
        let ghost before = counts@;
        if let Some(p) = positions.get(&ix) {
            let p: usize = *p;
            assert(positions@.contains_key(ix));
            assert(node_at(nodes@, idx_map@, ix) == Some(positions@[ix] as int));
            let t: &String = &nodes[p].node_type;
            let so_far: usize = match counts.get(t.as_str()) {
                Some(k) => {
                    assert(before[t@] <= i);
                    *k
                },
                None => 0,
            };
            counts.insert(t.clone(), so_far + 1);
        }
        i += 1;
    }
    assert(list@.take(i as int) =~= list@);
    counts
}

/// The most frequent type of a cluster, out of the list of its members; `concept` where no
/// member has a node.
fn dominant_type(
    nodes: &[KgNode],
    positions: &HashMap<usize, usize>,
    list: &Vec<usize>,
    idx_map: &StringHashMap<usize>,
    clusters: &HashMap<usize, u32>,
    c: u32,
) -> (dominant: String)
    requires
        list@.no_duplicates(),
        list@.to_set() == grouping::members(clusters@, c),
        forall|ix: usize| #[trigger]
            positions@.contains_key(ix) <==> node_at(nodes@, idx_map@, ix) is Some,
        forall|ix: usize|
            positions@.contains_key(ix) ==> node_at(nodes@, idx_map@, ix) == Some(
                #[trigger] positions@[ix] as int,
            ),
    ensures
        (exists|ix: usize| #[trigger]
            is_typical(nodes@, idx_map@, clusters@, c, ix) && Some(dominant@) == type_at(
                nodes@,
                idx_map@,
                ix,
            )) || ((forall|ix: usize|
            grouping::members(clusters@, c).contains(ix) ==> #[trigger] type_at(
                nodes@,
                idx_map@,
                ix,
            ) is None) && dominant@ == "concept"@),
{
    let counts: StringHashMap<usize> = count_types(nodes, positions, list, idx_map);
    let ghost m = grouping::members(clusters@, c);
    let mut found: bool = false;
    let mut typical: usize = 0;
    let mut dominant: String = "concept".to_string();
    let mut best: usize = 0;
    let mut i: usize = 0;
    while i < list.len()
        invariant
            i <= list.len(),
            list@.no_duplicates(),
            list@.to_set() == grouping::members(clusters@, c),
            m == grouping::members(clusters@, c),
            forall|ix: usize| #[trigger]
                positions@.contains_key(ix) <==> node_at(nodes@, idx_map@, ix) is Some,
            forall|ix: usize|
                positions@.contains_key(ix) ==> node_at(nodes@, idx_map@, ix) == Some(
                    #[trigger] positions@[ix] as int,
                ),
            forall|t: Seq<char>| #[trigger]
                counts@.contains_key(t) <==> count_in(list@, of_type(nodes@, idx_map@, t)) > 0,
            forall|t: Seq<char>|
                counts@.contains_key(t) ==> #[trigger] counts@[t] == count_in(
                    list@,
                    of_type(nodes@, idx_map@, t),
                ),
            !found ==> dominant@ == "concept"@,
            !found ==> forall|j: int|
                0 <= j < i ==> type_at(nodes@, idx_map@, #[trigger] list[j]) is None,
            found ==> m.contains(typical) && type_at(nodes@, idx_map@, typical) == Some(dominant@)
                && best == type_count(nodes@, idx_map@, clusters@, c, dominant@),
            found ==> forall|j: int|
                0 <= j < i && type_at(nodes@, idx_map@, #[trigger] list[j]) is Some ==> {
                    let k = type_count(
                        nodes@,
                        idx_map@,
                        clusters@,
                        c,
                        type_at(nodes@, idx_map@, list[j])->Some_0,
                    );
                    k < best || (k == best && typical <= list[j])
                },
        decreases list.len() - i,
    {
        let ix: usize = list[i];
        proof {
            lemma_node_at(nodes@, idx_map@, ix);
            assert(list@.contains(list@[i as int]));
            assert(list@.to_set().contains(ix));
        }
        if let Some(p) = positions.get(&ix) {
            let p: usize = *p;
            assert(positions@.contains_key(ix));
            assert(node_at(nodes@, idx_map@, ix) == Some(positions@[ix] as int));
            let t: &String = &nodes[p].node_type;
            let k: usize = match counts.get(t.as_str()) {
                Some(k) => *k,
                None => 0,
            };
            proof {
                lemma_count_set(list@, of_type(nodes@, idx_map@, t@));
            }
            if !found || k > best || (k == best && ix < typical) {
                found = true;
                typical = ix;
                dominant = t.clone();
                best = k;
            }
        }
        i += 1;
    }
    proof {
        assert forall|ix: usize| #[trigger] m.contains(ix) implies exists|j: int|
            0 <= j < list.len() && list[j] == ix by {
            assert(list@.to_set().contains(ix));
        }
        if found {
            assert forall|t: Seq<char>| #[trigger]
                type_count(nodes@, idx_map@, clusters@, c, t) <= best by {
                lemma_count_set(list@, of_type(nodes@, idx_map@, t));
                let s = m.filter(of_type(nodes@, idx_map@, t));
                if type_count(nodes@, idx_map@, clusters@, c, t) > 0 {
                    assert(s.len() > 0);
                    assert(s.contains(s.choose()));
                    let ix = s.choose();
                    assert(m.contains(ix));
                    let j = choose|j: int| 0 <= j < list.len() && list[j] == ix;
                    assert(type_at(nodes@, idx_map@, list[j]) == Some(t));
                }
            }
            assert(top_type(nodes@, idx_map@, clusters@, c, typical));
            assert forall|ix: usize| #[trigger]
                top_type(nodes@, idx_map@, clusters@, c, ix) implies typical <= ix by {
                assert(m.contains(ix));
                let j = choose|j: int| 0 <= j < list.len() && list[j] == ix;
                assert(type_at(nodes@, idx_map@, list[j]) is Some);
                assert(type_count(nodes@, idx_map@, clusters@, c, dominant@) == best);
            }
            assert(is_typical(nodes@, idx_map@, clusters@, c, typical));
        } else {
            assert forall|ix: usize| m.contains(ix) implies #[trigger] type_at(
                nodes@,
                idx_map@,
                ix,
            ) is None by {
                let j = choose|j: int| 0 <= j < list.len() && list[j] == ix;
                assert(type_at(nodes@, idx_map@, list[j]) is None);
            }
        }
    }
    dominant
}

/// Picks a human-readable label for each cluster: that of its member with the highest
/// weighted degree. Clusters come in ascending order of their ids.
pub fn label_clusters(
    g: &UnGraph<String, u128>,
    idx_map: &StringHashMap<usize>,
    nodes: &[KgNode],
    clusters: &HashMap<usize, u32>,
) -> (out: Vec<ClusterInfo>)
    requires
        forall|c: u32, ix: usize| #[trigger]
            top_degree(un_graph::graph_edges(*g), clusters@, c, ix) ==> node_at(
                nodes@,
                idx_map@,
                ix,
            ) is Some,
    ensures
        forall|s: int, t: int|
            0 <= s < t < out.len() ==> (#[trigger] out[s]).id < (#[trigger] out[t]).id,
        forall|s: int|
            0 <= s < out.len() ==> describes(
                #[trigger] out[s],
                un_graph::graph_edges(*g),
                nodes@,
                idx_map@,
                clusters@,
            ),
        cluster_ids(out@).to_set() == clusters@.values(),
{
    let edges: Vec<(usize, usize, u128)> = un_graph::edge_list(g);
    proof {
        un_graph::lemma_edge_list(*g, edges@);
    }
    let positions: HashMap<usize, usize> = node_positions(idx_map, nodes);
    let groups: Vec<(u32, Vec<usize>)> = grouping::groups_by_cluster(clusters);
    let mut out: Vec<ClusterInfo> = Vec::new();
    let mut s: usize = 0;
    while s < groups.len()
        invariant
            s <= groups.len(),
            out.len() == s,
            partition::edges_within(
                un_graph::graph_edges(*g),
                un_graph::graph_nodes(*g).len() as int,
            ),
            forall|c: u32, ix: usize| #[trigger]
                top_degree(un_graph::graph_edges(*g), clusters@, c, ix) ==> node_at(
                    nodes@,
                    idx_map@,
                    ix,
                ) is Some,
            forall|ix: usize| #[trigger]
                positions@.contains_key(ix) <==> node_at(nodes@, idx_map@, ix) is Some,
            forall|ix: usize|
                positions@.contains_key(ix) ==> node_at(nodes@, idx_map@, ix) == Some(
                    #[trigger] positions@[ix] as int,
                ),
            forall|t: int|
                0 <= t < groups.len() ==> {
                    &&& (#[trigger] groups[t]).1@.no_duplicates()
                    &&& groups[t].1.len() > 0
                    &&& groups[t].1@.to_set() == grouping::members(clusters@, groups[t].0)
                },
            forall|t: int| 0 <= t < s ==> (#[trigger] out[t]).id == groups[t].0,
            forall|t: int|
                0 <= t < s ==> describes(
                    #[trigger] out[t],
                    un_graph::graph_edges(*g),
                    nodes@,
                    idx_map@,
                    clusters@,
                ),
        decreases groups.len() - s,
    {
        let c: u32 = groups[s].0;
        let list: &Vec<usize> = &groups[s].1;
        assert(groups[s as int].1@.no_duplicates());
        let hub: usize = find_hub(g, list, clusters, c);
        proof {
            list@.unique_seq_to_set();
            lemma_node_at(nodes@, idx_map@, hub);
            assert(top_degree(un_graph::graph_edges(*g), clusters@, c, hub));
            assert(positions@.contains_key(hub));
        }
        let dominant: String = dominant_type(nodes, &positions, list, idx_map, clusters, c);
        if let Some(p) = positions.get(&hub) {
            let p: usize = *p;
            assert(node_at(nodes@, idx_map@, hub) == Some(positions@[hub] as int));
            let info = ClusterInfo {
                id: c,
                label: nodes[p].label.clone(),
                node_count: list.len(),
                dominant_type: dominant,
            };
            proof {
                assert(grouping::members(clusters@, c).contains(hub));
                assert(type_at(nodes@, idx_map@, hub) is Some);
                assert(is_hub(un_graph::graph_edges(*g), clusters@, c, hub));
                assert(describes(info, un_graph::graph_edges(*g), nodes@, idx_map@, clusters@));
            }
            out.push(info);
        }
        s += 1;
    }
    proof {
        let ids = cluster_ids(out@);
        assert forall|c: u32| #[trigger] ids.to_set().contains(c) <==> clusters@.values().contains(
            c,
        ) by {
            if clusters@.values().contains(c) {
                let ix = choose|ix: usize| #[trigger] clusters@.contains_key(ix) && clusters@[ix]
                    == c;
                assert(grouping::has_group(groups@, clusters@[ix]));
                let t = choose|t: int| 0 <= t < groups.len() && (#[trigger] groups[t]).0 == c;
                assert(out[t].id == c);
                assert(ids[t] == c);
            }
            if ids.contains(c) {
                let t = choose|t: int| 0 <= t < ids.len() && ids[t] == c;
                assert(out[t].id == groups[t].0);
                assert(groups[t].1@.to_set().contains(groups[t].1@[0]));
                assert(grouping::members(clusters@, c).contains(groups[t].1@[0]));
                assert(clusters@.contains_key(groups[t].1@[0]));
            }
        }
        assert(ids.to_set() =~= clusters@.values());
    }
    out
}

/// Node ids occur once.
pub open spec fn distinct_ids(nodes: Seq<KgNode>) -> bool {
    forall|p: int, q: int|
        0 <= p < q < nodes.len() ==> (#[trigger] nodes[p]).id@ != (#[trigger] nodes[q]).id@
}

/// With distinct ids the index map and the reverse lookup undo each other: index `p` belongs
/// to the node at position `p`, so that every cluster of node indices can be labelled.
pub proof fn law_indices_are_positions(nodes: Seq<KgNode>, map: Map<Seq<char>, usize>, p: usize)
    requires
        distinct_ids(nodes),
        maps_ids(nodes, map),
        p < nodes.len(),
    ensures
        node_index(nodes, nodes[p as int].id@) == Some(p as int),
        node_at(nodes, map, p) == Some(p as int),
{
    let id = nodes[p as int].id@;
    lemma_node_index(nodes, id);
    assert forall|q: int| 0 <= q < nodes.len() implies (map.contains_key(
        (#[trigger] nodes[q]).id@,
    ) && map[nodes[q].id@] == p <==> q == p) by {
        lemma_node_index(nodes, nodes[q].id@);
        let r = node_index(nodes, nodes[q].id@)->Some_0;
        assert(nodes[r].id@ == nodes[q].id@);
    }
    lemma_only_position(nodes, map, p, nodes.len() as int);
    assert(nodes.take(nodes.len() as int) =~= nodes);
}

proof fn lemma_only_position(nodes: Seq<KgNode>, map: Map<Seq<char>, usize>, p: usize, t: int)
    requires
        0 <= t <= nodes.len(),
        p < nodes.len(),
        forall|q: int|
            0 <= q < nodes.len() ==> (map.contains_key((#[trigger] nodes[q]).id@)
                && map[nodes[q].id@] == p <==> q == p),
    ensures
        node_at(nodes.take(t), map, p) == if t > p {
            Some(p as int)
        } else {
            None
        },
    decreases t,
{
    if t > 0 {
        lemma_only_position(nodes, map, p, t - 1);
        let now = nodes.take(t);
        assert(now.drop_last() =~= nodes.take(t - 1));
        assert(now.last() == nodes[t - 1]);
    }
}

} // verus!
