//! Grouping the node indices of a partition by cluster.

use std::collections::HashMap;
use vstd::prelude::*;

verus! {

broadcast use vstd::std_specs::hash::group_hash_axioms;

/// The node indices in cluster `c`.
pub open spec fn members(clusters: Map<usize, u32>, c: u32) -> Set<usize> {
    Set::new(|ix: usize| clusters.contains_key(ix) && clusters[ix] == c)
}

/// The node indices of a partition, each once.
fn node_indices(clusters: &HashMap<usize, u32>) -> (keys: Vec<usize>)
    ensures
        keys@.no_duplicates(),
        forall|ix: usize| keys@.contains(ix) <==> #[trigger] clusters@.contains_key(ix),
{
    let mut keys: Vec<usize> = Vec::new();
    for k in it: clusters.keys()
        invariant
            keys@ == it.seq().take(it.index() as int).unref(),
            it.seq().no_duplicates(),
            it.seq().unref().to_set() == clusters@.dom(),
            it.index() == it.seq().len() ==> keys@ == it.seq().unref(),
    {
        keys.push(*k);
    }
    assert(keys@.to_set() == clusters@.dom());
    assert forall|ix: usize| keys@.contains(ix) <==> #[trigger] clusters@.contains_key(ix) by {
        assert(keys@.to_set().contains(ix) <==> clusters@.dom().contains(ix));
    }
    keys
}

spec fn ids_at(groups: Seq<(u32, Vec<usize>)>, slots: Map<u32, usize>) -> bool {
    &&& forall|c: u32| #[trigger]
        slots.contains_key(c) ==> slots[c] < groups.len() && groups[slots[c] as int].0 == c
    &&& forall|s: int|
        0 <= s < groups.len() ==> slots.contains_key((#[trigger] groups[s]).0)
            && slots[groups[s].0] == s
}

/// One of the groups is that of cluster `c`.
pub open spec fn has_group(groups: Seq<(u32, Vec<usize>)>, c: u32) -> bool {
    exists|s: int| 0 <= s < groups.len() && (#[trigger] groups[s]).0 == c
}

/// Group `s` holds exactly those of the given keys that are in its cluster.
spec fn holds(group: (u32, Vec<usize>), keys: Seq<usize>, clusters: Map<usize, u32>) -> bool {
    &&& group.1@.no_duplicates()
    &&& group.1.len() > 0
    &&& forall|ix: usize| #[trigger]
        group.1@.contains(ix) <==> keys.contains(ix) && clusters[ix] == group.0
}

proof fn lemma_holds_more(
    group: (u32, Vec<usize>),
    keys: Seq<usize>,
    clusters: Map<usize, u32>,
    k: int,
)
    requires
        0 <= k < keys.len(),
        keys.no_duplicates(),
        holds(group, keys.take(k), clusters),
        clusters[keys[k]] != group.0,
    ensures
        holds(group, keys.take(k + 1), clusters),
{
    assert(keys.take(k + 1) =~= keys.take(k).push(keys[k]));
    assert forall|ix: usize| #[trigger] group.1@.contains(ix) <==> keys.take(k + 1).contains(ix)
        && clusters[ix] == group.0 by {
        lemma_push_contains(keys.take(k), keys[k], ix);
    }
}

proof fn lemma_push_contains(s: Seq<usize>, x: usize, y: usize)
    ensures
        s.push(x).contains(y) <==> s.contains(y) || x == y,
{
    let t = s.push(x);
    if s.contains(y) {
        let i = choose|i: int| 0 <= i < s.len() && s[i] == y;
        assert(t[i] == y);
    }
    if x == y {
        assert(t[s.len() as int] == y);
    }
    if t.contains(y) && x != y {
        let i = choose|i: int| 0 <= i < t.len() && t[i] == y;
        assert(s[i] == y);
    }
}

/// The groups by cluster, in no particular order.
fn unordered_groups(keys: &Vec<usize>, clusters: &HashMap<usize, u32>) -> (groups: Vec<
    (u32, Vec<usize>),
>)
    requires
        keys@.no_duplicates(),
        forall|ix: usize| keys@.contains(ix) <==> #[trigger] clusters@.contains_key(ix),
    ensures
        forall|s: int, t: int|
            0 <= s < t < groups.len() ==> (#[trigger] groups[s]).0 != (#[trigger] groups[t]).0,
        forall|s: int| 0 <= s < groups.len() ==> holds(#[trigger] groups[s], keys@, clusters@),
        forall|k: int|
            0 <= k < keys.len() ==> has_group(groups@, clusters@[#[trigger] keys[k]]),
{
    let mut groups: Vec<(u32, Vec<usize>)> = Vec::new();
    let mut slots: HashMap<u32, usize> = HashMap::new();
    let mut k: usize = 0;
    while k < keys.len()
        invariant
            k <= keys.len(),
            keys@.no_duplicates(),
            forall|ix: usize| keys@.contains(ix) <==> #[trigger] clusters@.contains_key(ix),
            ids_at(groups@, slots@),
            forall|s: int|
                0 <= s < groups.len() ==> holds(
                    #[trigger] groups[s],
                    keys@.take(k as int),
                    clusters@,
                ),
            forall|j: int|
                0 <= j < k ==> slots@.contains_key(clusters@[#[trigger] keys[j]]),
        decreases keys.len() - k,
    {
        let ix: usize = keys[k];
        assert(keys@.contains(ix));
        assert(clusters@.contains_key(ix));
        if let Some(c) = clusters.get(&ix) {
            let c: u32 = *c;
            let ghost before = groups@;
            let ghost seen = keys@.take(k as int);
            let ghost now = keys@.take(k + 1);
            proof {
                assert(now =~= seen.push(ix));
                assert(!seen.contains(ix)) by {
                    if seen.contains(ix) {
                        let j = choose|j: int| 0 <= j < seen.len() && seen[j] == ix;
                        assert(keys@[j] == keys@[k as int]);
                    }
                }
                assert forall|s: int|
                    0 <= s < groups.len() && (#[trigger] groups[s]).0 != c implies holds(
                    groups[s],
                    now,
                    clusters@,
                ) by {
                    lemma_holds_more(groups[s], keys@, clusters@, k as int);
                }
            }
            let slot: Option<usize> = match slots.get(&c) {
                Some(s) => Some(*s),
                None => None,
            };
            match slot {
                Some(s) => {
                    groups[s].1.push(ix);
                    proof {
                        let old_list = before[s as int].1@;
                        assert(groups[s as int].1@ == old_list.push(ix));
                        assert(!old_list.contains(ix));
                        assert forall|y: usize| #[trigger]
                            groups[s as int].1@.contains(y) <==> now.contains(y) && clusters@[y]
                                == c by {
                            lemma_push_contains(old_list, ix, y);
                            lemma_push_contains(seen, ix, y);
                        }
                        assert(holds(groups[s as int], now, clusters@));
                        assert forall|t: int| 0 <= t < groups.len() implies holds(
                            #[trigger] groups[t],
                            now,
                            clusters@,
                        ) by {
                            if t != s {
                                assert(groups[t] == before[t]);
                                assert(before[t].0 != c);
                            }
                        }
                    }
                },
                None => {
                    slots.insert(c, groups.len());
                    let mut list: Vec<usize> = Vec::new();
                    list.push(ix);
                    groups.push((c, list));
                    proof {
                        let s = before.len() as int;
                        assert(groups[s].1@ =~= Seq::<usize>::empty().push(ix));
                        assert forall|y: usize| #[trigger]
                            groups[s].1@.contains(y) <==> now.contains(y) && clusters@[y] == c by {
                            lemma_push_contains(Seq::<usize>::empty(), ix, y);
                            lemma_push_contains(seen, ix, y);
                            if seen.contains(y) && clusters@[y] == c {
                                let j = choose|j: int| 0 <= j < seen.len() && seen[j] == y;
                                assert(keys[j] == y);
                            }
                        }
                        assert(holds(groups[s], now, clusters@));
                        assert forall|t: int| 0 <= t < groups.len() implies holds(
                            #[trigger] groups[t],
                            now,
                            clusters@,
                        ) by {
                            if t != s {
                                assert(groups[t] == before[t]);
                                assert(slots@.contains_key(before[t].0));
                            }
                        }
                    }
                },
            }
        }
        k += 1;
    }
    assert(keys@.take(k as int) =~= keys@);
    assert forall|j: int| 0 <= j < keys.len() implies has_group(
        groups@,
        clusters@[#[trigger] keys[j]],
    ) by {
        let s = slots@[clusters@[keys[j]]] as int;
        assert(groups[s].0 == clusters@[keys[j]]);
    }
    groups
}

/// Inserting the last group that is left, `all[left - 1]`, in front of the first sorted group
/// with a larger id.
proof fn lemma_insert_group(
    all: Seq<(u32, Vec<usize>)>,
    sorted: Seq<(u32, Vec<usize>)>,
    left: int,
    at: int,
)
    requires
        0 < left <= all.len(),
        0 <= at <= sorted.len(),
        forall|s: int, t: int|
            0 <= s < t < all.len() ==> (#[trigger] all[s]).0 != (#[trigger] all[t]).0,
        forall|s: int, t: int|
            0 <= s < t < sorted.len() ==> (#[trigger] sorted[s]).0 < (#[trigger] sorted[t]).0,
        forall|s: int| 0 <= s < at ==> (#[trigger] sorted[s]).0 < all[left - 1].0,
        at < sorted.len() ==> sorted[at].0 >= all[left - 1].0,
        forall|s: int| 0 <= s < sorted.len() ==> all.skip(left).contains(#[trigger] sorted[s]),
        forall|t: int| left <= t < all.len() ==> sorted.contains(#[trigger] all[t]),
    ensures
        ({
            let now = sorted.insert(at, all[left - 1]);
            &&& forall|s: int, t: int|
                0 <= s < t < now.len() ==> (#[trigger] now[s]).0 < (#[trigger] now[t]).0
            &&& forall|s: int|
                0 <= s < now.len() ==> all.skip(left - 1).contains(#[trigger] now[s])
            &&& forall|t: int| left - 1 <= t < all.len() ==> now.contains(#[trigger] all[t])
        }),
{
    let group = all[left - 1];
    let now = sorted.insert(at, group);
    if at < sorted.len() {
        assert(all.skip(left).contains(sorted[at]));
        let t = choose|t: int| 0 <= t < all.skip(left).len() && all.skip(left)[t] == sorted[at];
        assert(all[left + t] == sorted[at]);
        assert(sorted[at].0 > group.0);
    }
    assert forall|s: int| 0 <= s < now.len() implies now[s] == if s < at {
        sorted[s]
    } else if s == at {
        group
    } else {
        sorted[s - 1]
    } by {}
    assert forall|s: int| at <= s < sorted.len() implies (#[trigger] sorted[s]).0 > group.0 by {
        assert(sorted[at].0 <= sorted[s].0);
    }
    assert(all.skip(left - 1)[0] == group);
    assert forall|s: int| 0 <= s < now.len() implies all.skip(left - 1).contains(
        #[trigger] now[s],
    ) by {
        if s != at {
            let o = if s < at {
                s
            } else {
                s - 1
            };
            assert(all.skip(left).contains(sorted[o]));
            let t = choose|t: int| 0 <= t < all.skip(left).len() && all.skip(left)[t] == sorted[o];
            assert(all.skip(left - 1)[t + 1] == sorted[o]);
        }
    }
    assert forall|t: int| left - 1 <= t < all.len() implies now.contains(#[trigger] all[t]) by {
        if t == left - 1 {
            assert(now[at] == all[t]);
        } else {
            assert(sorted.contains(all[t]));
            let s = choose|s: int| 0 <= s < sorted.len() && sorted[s] == all[t];
            if s < at {
                assert(now[s] == all[t]);
            } else {
                assert(now[s + 1] == all[t]);
            }
        }
    }
}

/// The members of every cluster, clusters in ascending order of their ids.
pub fn groups_by_cluster(clusters: &HashMap<usize, u32>) -> (sorted: Vec<(u32, Vec<usize>)>)
    ensures
        forall|s: int, t: int|
            0 <= s < t < sorted.len() ==> (#[trigger] sorted[s]).0 < (#[trigger] sorted[t]).0,
        forall|s: int|
            0 <= s < sorted.len() ==> {
                &&& (#[trigger] sorted[s]).1@.no_duplicates()
                &&& sorted[s].1.len() > 0
                &&& sorted[s].1@.to_set() == members(clusters@, sorted[s].0)
            },
        forall|ix: usize| #[trigger]
            clusters@.contains_key(ix) ==> has_group(sorted@, clusters@[ix]),
{
    let keys: Vec<usize> = node_indices(clusters);
    let mut groups: Vec<(u32, Vec<usize>)> = unordered_groups(&keys, clusters);
    let ghost all = groups@;
    let mut sorted: Vec<(u32, Vec<usize>)> = Vec::new();
    while groups.len() > 0
        invariant
            groups.len() <= all.len(),
            groups@ == all.take(groups.len() as int),
            forall|s: int, t: int|
                0 <= s < t < all.len() ==> (#[trigger] all[s]).0 != (#[trigger] all[t]).0,
            forall|s: int, t: int|
                0 <= s < t < sorted.len() ==> (#[trigger] sorted[s]).0 < (#[trigger] sorted[t]).0,
            forall|s: int|
                0 <= s < sorted.len() ==> all.skip(groups.len() as int).contains(
                    #[trigger] sorted[s],
                ),
            forall|t: int| groups.len() <= t < all.len() ==> sorted@.contains(#[trigger] all[t]),
        decreases groups.len(),
    {
        let ghost before = sorted@;
        let ghost left = groups.len();
        if let Some(group) = groups.pop() {
            assert(group == all[left - 1]);
            let mut at: usize = 0;
            while at < sorted.len() && sorted[at].0 < group.0
                invariant
                    at <= sorted.len(),
                    forall|s: int| 0 <= s < at ==> (#[trigger] sorted[s]).0 < group.0,
                decreases sorted.len() - at,
            {
                at += 1;
            }
            proof {
                lemma_insert_group(all, before, left as int, at as int);
            }
            sorted.insert(at, group);
        }
    }
    proof {
        assert forall|s: int| 0 <= s < sorted.len() implies {
            &&& (#[trigger] sorted[s]).1@.no_duplicates()
            &&& sorted[s].1.len() > 0
            &&& sorted[s].1@.to_set() == members(clusters@, sorted[s].0)
        } by {
            assert(all.skip(0) =~= all);
            let t = choose|t: int| 0 <= t < all.len() && sorted[s] == #[trigger] all[t];
            assert(holds(all[t], keys@, clusters@));
            assert forall|ix: usize| sorted[s].1@.to_set().contains(ix) <==> members(
                clusters@,
                sorted[s].0,
            ).contains(ix) by {
                assert(sorted[s].1@.contains(ix) <==> keys@.contains(ix) && clusters@[ix]
                    == sorted[s].0);
                assert(keys@.contains(ix) <==> clusters@.contains_key(ix));
            }
            assert(sorted[s].1@.to_set() =~= members(clusters@, sorted[s].0));
        }
        assert forall|ix: usize| #[trigger] clusters@.contains_key(ix) implies has_group(
            sorted@,
            clusters@[ix],
        ) by {
            assert(keys@.contains(ix));
            let k = choose|k: int| 0 <= k < keys.len() && keys[k] == ix;
            assert(has_group(all, clusters@[keys[k]]));
            let t = choose|t: int|
                0 <= t < all.len() && (#[trigger] all[t]).0 == clusters@[keys[k]];
            assert(sorted@.contains(all[t]));
            let s = choose|s: int| 0 <= s < sorted.len() && #[trigger] sorted[s] == all[t];
            assert(sorted[s].0 == clusters@[ix]);
        }
    }
    sorted
}

} // verus!
