//! Between stored graphs and analytics: stored nodes and edges as input, and scores and weights
//! zipped back onto them.

use crate::graph_analytics::{KgEdge, KgNode};
use crate::knowledge_graph::{KnowledgeGraphEdge, KnowledgeGraphNode};
use crate::text_lists;
use vstd::hash_map::StringHashMap;
use vstd::prelude::*;

verus! {

/// The weight of a stored edge: its number of memories, at least one.
pub fn co_occurrence(memory_ids: &Vec<String>) -> (weight: u64)
    ensures
        weight == if memory_ids.len() == 0 {
            1
        } else {
            memory_ids.len() as u64
        },
{
    if memory_ids.len() == 0 {
        1
    } else {
        memory_ids.len() as u64
    }
}

/// Stored nodes as input of the analytics.
pub fn analytics_nodes(nodes: &Vec<KnowledgeGraphNode>) -> (res: Vec<KgNode>)
    ensures
        res.len() == nodes.len(),
        forall|i: int|
            0 <= i < res.len() ==> {
                &&& (#[trigger] res[i]).id@ == nodes[i].id@
                &&& res[i].label@ == nodes[i].label@
                &&& res[i].node_type@ == nodes[i].node_type.text()
            },
{
    let mut res: Vec<KgNode> = Vec::new();
    let mut i: usize = 0;
    while i < nodes.len()
        invariant
            i <= nodes.len(),
            res.len() == i,
            forall|j: int|
                0 <= j < i ==> {
                    &&& (#[trigger] res[j]).id@ == nodes[j].id@
                    &&& res[j].label@ == nodes[j].label@
                    &&& res[j].node_type@ == nodes[j].node_type.text()
                },
        decreases nodes.len() - i,
    {
        let n: &KnowledgeGraphNode = &nodes[i];
        res.push(
            KgNode { id: n.id.clone(), label: n.label.clone(), node_type: n.node_type.name() },
        );
        i += 1;
    }
    res
}

/// Stored edges as input of the analytics, weighted by co-occurrence.
pub fn analytics_edges(edges: &Vec<KnowledgeGraphEdge>) -> (res: Vec<KgEdge>)
    ensures
        res.len() == edges.len(),
        forall|i: int|
            0 <= i < res.len() ==> {
                &&& (#[trigger] res[i]).source_id@ == edges[i].source_id@
                &&& res[i].target_id@ == edges[i].target_id@
                &&& res[i].label@ == edges[i].label@
                &&& res[i].weight == if edges[i].memory_ids.len() == 0 {
                    1
                } else {
                    edges[i].memory_ids.len() as u64
                }
            },
{
    let mut res: Vec<KgEdge> = Vec::new();
    let mut i: usize = 0;
    while i < edges.len()
        invariant
            i <= edges.len(),
            res.len() == i,
            forall|j: int|
                0 <= j < i ==> {
                    &&& (#[trigger] res[j]).source_id@ == edges[j].source_id@
                    &&& res[j].target_id@ == edges[j].target_id@
                    &&& res[j].label@ == edges[j].label@
                    &&& res[j].weight == if edges[j].memory_ids.len() == 0 {
                        1
                    } else {
                        edges[j].memory_ids.len() as u64
                    }
                },
        decreases edges.len() - i,
    {
        let e: &KnowledgeGraphEdge = &edges[i];
        res.push(
            KgEdge {
                source_id: e.source_id.clone(),
                target_id: e.target_id.clone(),
                label: e.label.clone(),
                weight: co_occurrence(&e.memory_ids),
            },
        );
        i += 1;
    }
    res
}

/// The scores that the last scored node with an id has.
pub open spec fn score_of<S>(scored: Seq<(String, S)>, id: Seq<char>) -> Option<S>
    decreases scored.len(),
{
    if scored.len() == 0 {
        None
    } else if scored.last().0@ == id {
        Some(scored.last().1)
    } else {
        score_of(scored.drop_last(), id)
    }
}

/// Entry `j` is the last of the scored nodes that has the id.
pub open spec fn last_scored<S>(scored: Seq<(String, S)>, id: Seq<char>, j: int) -> bool {
    &&& 0 <= j < scored.len()
    &&& scored[j].0@ == id
    &&& forall|k: int| j < k < scored.len() ==> (#[trigger] scored[k]).0@ != id
}

/// One of the scored nodes has the id.
pub open spec fn is_scored<S>(scored: Seq<(String, S)>, id: Seq<char>) -> bool {
    exists|j: int| 0 <= j < scored.len() && (#[trigger] scored[j]).0@ == id
}

proof fn lemma_score_of<S>(scored: Seq<(String, S)>, id: Seq<char>)
    ensures
        match score_of(scored, id) {
            Some(score) => exists|j: int| #[trigger]
                last_scored(scored, id, j) && scored[j].1 == score,
            None => !is_scored(scored, id),
        },
    decreases scored.len(),
{
    if scored.len() > 0 {
        let rest = scored.drop_last();
        let last = scored.len() - 1;
        if scored[last].0@ == id {
            assert(last_scored(scored, id, last));
        } else {
            lemma_score_of(rest, id);
            match score_of(rest, id) {
                Some(score) => {
                    let j = choose|j: int| #[trigger]
                        last_scored(rest, id, j) && rest[j].1 == score;
                    assert forall|k: int| j < k < scored.len() implies (#[trigger] scored[k]).0@
                        != id by {
                        if k < last {
                            assert(rest[k].0@ != id);
                        }
                    }
                    assert(rest[j] == scored[j]);
                    assert(last_scored(scored, id, j));
                },
                None => {
                    assert forall|j: int| 0 <= j < scored.len() implies (#[trigger] scored[j]).0@
                        != id by {
                        if j < last {
                            assert(rest[j].0@ != id);
                        }
                    }
                },
            }
        }
    }
}

/// Every scored node keeps its scores: an id has the scores of the last entry with that id,
/// wherever in the list it stands, and has none only where no entry at all has it.
pub proof fn law_scores_are_found<S>(scored: Seq<(String, S)>, id: Seq<char>, j: int)
    ensures
        last_scored(scored, id, j) ==> score_of(scored, id) == Some(scored[j].1),
        score_of(scored, id) is None <==> !is_scored(scored, id),
{
    lemma_score_of(scored, id);
    if last_scored(scored, id, j) {
        assert(is_scored(scored, id));
        let i = choose|i: int| #[trigger]
            last_scored(scored, id, i) && scored[i].1 == score_of(scored, id)->Some_0;
        if i < j {
            assert(scored[j].0@ != id);
        } else if j < i {
            assert(scored[i].0@ != id);
        }
    }
    if score_of(scored, id) is Some {
        let i = choose|i: int| #[trigger]
            last_scored(scored, id, i) && scored[i].1 == score_of(scored, id)->Some_0;
        assert(scored[i].0@ == id);
    }
}

/// Zips scores back onto stored nodes, by id; a node that was not scored gets `default`.
pub fn zip_scores<S: Copy>(
    nodes: &Vec<KnowledgeGraphNode>,
    scored: &Vec<(String, S)>,
    default: S,
) -> (res: Vec<S>)
    ensures
        res.len() == nodes.len(),
        forall|i: int|
            0 <= i < res.len() ==> #[trigger] res[i] == match score_of(scored@, nodes[i].id@) {
                Some(score) => score,
                None => default,
            },
        forall|i: int, j: int|
            0 <= i < res.len() && #[trigger] last_scored(scored@, nodes[i].id@, j)
                ==> #[trigger] res[i] == scored[j].1,
        forall|i: int|
            0 <= i < res.len() && !is_scored(scored@, nodes[i].id@) ==> #[trigger] res[i]
                == default,
{
    let mut map: StringHashMap<S> = StringHashMap::new();
    let mut k: usize = 0;
    assert(scored@.take(0) =~= Seq::<(String, S)>::empty());
    while k < scored.len()
        invariant
            k <= scored.len(),
            forall|id: Seq<char>|
                #![trigger map@.contains_key(id)]
                #![trigger score_of(scored@.take(k as int), id)]
                match score_of(scored@.take(k as int), id) {
                    Some(score) => map@.contains_key(id) && map@[id] == score,
                    None => !map@.contains_key(id),
                },
        decreases scored.len() - k,
    {
        proof {
            assert(scored@.take(k + 1).drop_last() =~= scored@.take(k as int));
            assert(scored@.take(k + 1).last() == scored@[k as int]);
        }
        map.insert(scored[k].0.clone(), scored[k].1);
        k += 1;
    }
    assert(scored@.take(k as int) =~= scored@);
    let mut res: Vec<S> = Vec::new();
    let mut i: usize = 0;
    while i < nodes.len()
        invariant
            i <= nodes.len(),
            res.len() == i,
            forall|id: Seq<char>|
                #![trigger map@.contains_key(id)]
                match score_of(scored@, id) {
                    Some(score) => map@.contains_key(id) && map@[id] == score,
                    None => !map@.contains_key(id),
                },
            forall|j: int|
                0 <= j < i ==> #[trigger] res[j] == match score_of(scored@, nodes[j].id@) {
                    Some(score) => score,
                    None => default,
                },
        decreases nodes.len() - i,
    {
        let score: S = match map.get(nodes[i].id.as_str()) {
            Some(s) => *s,
            None => default,
        };
        res.push(score);
        i += 1;
    }
    proof {
        assert forall|i: int, j: int|
            0 <= i < res.len() && #[trigger] last_scored(
                scored@,
                nodes[i].id@,
                j,
            ) implies #[trigger] res[i] == scored[j].1 by {
            law_scores_are_found(scored@, nodes[i].id@, j);
        }
        assert forall|i: int| 0 <= i < res.len() && !is_scored(
            scored@,
            nodes[i].id@,
        ) implies #[trigger] res[i] == default by {
            law_scores_are_found(scored@, nodes[i].id@, 0);
        }
    }
    res
}

/// The collapsed weight of an unordered pair of nodes.
#[derive(Debug, Clone)]
pub struct PairWeight {
    pub source_id: String,
    pub target_id: String,
    pub weight: u128,
}

/// The weight that the last entry for a pair gives it.
pub open spec fn weight_of(
    weights: Seq<PairWeight>,
    pair: (Seq<char>, Seq<char>),
) -> Option<u128>
    decreases weights.len(),
{
    if weights.len() == 0 {
        None
    } else if weights.last().source_id@ == pair.0 && weights.last().target_id@ == pair.1 {
        Some(weights.last().weight)
    } else {
        weight_of(weights.drop_last(), pair)
    }
}

/// The ends of an edge, the one that sorts first in front.
pub open spec fn ordered_ends(source: Seq<char>, target: Seq<char>) -> (Seq<char>, Seq<char>) {
    if text_lists::not_behind(source, target) {
        (source, target)
    } else {
        (target, source)
    }
}

/// Entry `j` is the last that weighs the pair of `a` and `b`, in this order.
pub open spec fn last_weighed(
    weights: Seq<PairWeight>,
    a: Seq<char>,
    b: Seq<char>,
    j: int,
) -> bool {
    &&& 0 <= j < weights.len()
    &&& weights[j].source_id@ == a
    &&& weights[j].target_id@ == b
    &&& forall|k: int|
        j < k < weights.len() ==> (#[trigger] weights[k]).source_id@ != a || weights[k].target_id@
            != b
}

/// One of the entries weighs the pair of `a` and `b`, in this order.
pub open spec fn is_weighed(weights: Seq<PairWeight>, a: Seq<char>, b: Seq<char>) -> bool {
    exists|j: int|
        0 <= j < weights.len() && (#[trigger] weights[j]).source_id@ == a && weights[j].target_id@
            == b
}

/// Every weighed pair keeps its weight: it has that of the last entry for it, wherever in the
/// list it stands, and has none only where no entry at all is for it.
pub proof fn law_weights_are_found(
    weights: Seq<PairWeight>,
    a: Seq<char>,
    b: Seq<char>,
    j: int,
)
    ensures
        last_weighed(weights, a, b, j) ==> weight_of(weights, (a, b)) == Some(weights[j].weight),
        weight_of(weights, (a, b)) is None <==> !is_weighed(weights, a, b),
    decreases weights.len(),
{
    if weights.len() > 0 {
        let rest = weights.drop_last();
        let last = weights.len() - 1;
        law_weights_are_found(rest, a, b, j);
        if weights[last].source_id@ == a && weights[last].target_id@ == b {
            assert(is_weighed(weights, a, b));
        } else {
            assert(is_weighed(weights, a, b) <==> is_weighed(rest, a, b)) by {
                if is_weighed(weights, a, b) {
                    let q = choose|q: int|
                        0 <= q < weights.len() && (#[trigger] weights[q]).source_id@ == a
                            && weights[q].target_id@ == b;
                    assert(rest[q] == weights[q]);
                }
                if is_weighed(rest, a, b) {
                    let q = choose|q: int|
                        0 <= q < rest.len() && (#[trigger] rest[q]).source_id@ == a
                            && rest[q].target_id@ == b;
                    assert(rest[q] == weights[q]);
                }
            }
            if last_weighed(weights, a, b, j) {
                assert(rest[j] == weights[j]);
                assert forall|k: int| j < k < rest.len() implies (#[trigger] rest[k]).source_id@
                    != a || rest[k].target_id@ != b by {
                    assert(rest[k] == weights[k]);
                }
                assert(last_weighed(rest, a, b, j));
            }
        }
    }
}

/// The ends of an edge are put in order and not changed: the one in front is not behind the
/// other.
pub proof fn law_ends_are_put_in_order(source: Seq<char>, target: Seq<char>)
    ensures
        ordered_ends(source, target) == (source, target) || ordered_ends(source, target) == (
            target,
            source,
        ),
        text_lists::not_behind(ordered_ends(source, target).0, ordered_ends(source, target).1),
{
    text_lists::lemma_not_behind(source, target);
}

/// An edge and its reverse are the same pair, so they have the same weight.
pub proof fn law_pairs_are_unordered(source: Seq<char>, target: Seq<char>)
    ensures
        ordered_ends(source, target) == ordered_ends(target, source),
{
    text_lists::lemma_not_behind(source, target);
}

/// The weight of a stored edge: the collapsed weight of its pair, or its own co-occurrence
/// count where the pair has none.
pub fn enriched_weight(e: &KnowledgeGraphEdge, weights: &Vec<PairWeight>) -> (weight: u128)
    ensures
        weight == match weight_of(weights@, ordered_ends(e.source_id@, e.target_id@)) {
            Some(w) => w,
            None => if e.memory_ids.len() == 0 {
                1
            } else {
                e.memory_ids.len() as u128
            },
        },
{
    let in_order: bool = text_lists::text_le(e.source_id.as_str(), e.target_id.as_str());
    let (a, b): (&String, &String) = if in_order {
        (&e.source_id, &e.target_id)
    } else {
        (&e.target_id, &e.source_id)
    };
    let ghost pair = ordered_ends(e.source_id@, e.target_id@);
    let mut k: usize = weights.len();
    assert(weights@.take(k as int) =~= weights@);
    while k > 0
        invariant
            k <= weights.len(),
            pair == (a@, b@),
            pair == ordered_ends(e.source_id@, e.target_id@),
            weight_of(weights@.take(k as int), pair) == weight_of(weights@, pair),
        decreases k,
    {
        k -= 1;
        proof {
            let now = weights@.take(k + 1);
            assert(now.drop_last() =~= weights@.take(k as int));
            assert(now.last() == weights@[k as int]);
        }
        if weights[k].source_id == *a && weights[k].target_id == *b {
            return weights[k].weight;
        }
    }
    assert(weights@.take(0) =~= Seq::<PairWeight>::empty());
    co_occurrence(&e.memory_ids) as u128
}

} // verus!
