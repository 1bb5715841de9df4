//! The Louvain method as a mathematical definition, and what follows from it.
//!
//! A node is greedily placed in the neighbouring community with the largest gain, node after
//! node, until a whole sweep moves nothing; the communities are then contracted into
//! super-nodes and the same is done on the smaller graph. A node leaves its community only
//! for a strictly larger gain; among equally good other communities the one with the
//! smallest number is taken.

use crate::level;
use crate::sums;
use vstd::prelude::*;

verus! {

pub open spec fn reaches(e: sums::Edge, comm: Seq<int>, i: int, c: int) -> bool {
    (e.0 == i && comm[e.1] == c) || (e.1 == i && comm[e.0] == c)
}

/// Community `c` may receive node `i`: it is its own, or that of a neighbour.
pub open spec fn candidate(l: level::Level, comm: Seq<int>, i: int, c: int) -> bool {
    c == comm[i] || exists|k: int|
        0 <= k < l.edges.len() && reaches(#[trigger] l.edges[k], comm, i, c)
}

/// Community `c` is taken rather than `d`.
pub open spec fn preferred(l: level::Level, comm: Seq<int>, i: int, c: int, d: int) -> bool {
    let gc = level::gain(l, comm, i, c);
    let gd = level::gain(l, comm, i, d);
    gc > gd || (gc == gd && (c == comm[i] || (d != comm[i] && c <= d)))
}

pub open spec fn is_best(l: level::Level, comm: Seq<int>, i: int, c: int) -> bool {
    &&& candidate(l, comm, i, c)
    &&& forall|d: int| #[trigger]
        candidate(l, comm, i, d) ==> preferred(l, comm, i, c, d)
}

/// The community that node `i` is placed in.
pub open spec fn best(l: level::Level, comm: Seq<int>, i: int) -> int {
    choose|c: int| is_best(l, comm, i, c)
}

/// The assignment after the nodes `0..upto` have been visited in order.
pub open spec fn sweep(l: level::Level, comm: Seq<int>, upto: int) -> Seq<int>
    decreases upto,
{
    if upto <= 0 {
        comm
    } else {
        let before = sweep(l, comm, upto - 1);
        before.update(upto - 1, best(l, before, upto - 1))
    }
}

/// The assignment after `k` sweeps over all nodes, from singletons.
pub open spec fn sweeps(l: level::Level, k: nat) -> Seq<int>
    decreases k,
{
    if k == 0 {
        level::singletons(l.n)
    } else {
        sweep(l, sweeps(l, (k - 1) as nat), l.n)
    }
}

/// The sweeps have come to rest at `comm`.
pub open spec fn settled(l: level::Level, comm: Seq<int>) -> bool {
    &&& exists|k: nat| comm == #[trigger] sweeps(l, k)
    &&& sweep(l, comm, l.n) == comm
}

/// Where the sweeps come to rest.
pub open spec fn settle(l: level::Level) -> Seq<int> {
    choose|comm: Seq<int>| settled(l, comm)
}

/// The distinct values of a sequence, in order of first appearance.
pub open spec fn firsts(s: Seq<int>) -> Seq<int>
    decreases s.len(),
{
    if s.len() == 0 {
        s
    } else {
        let f = firsts(s.drop_last());
        if f.contains(s.last()) {
            f
        } else {
            f.push(s.last())
        }
    }
}

/// The values of a sequence renumbered `0, 1, 2, ...` in order of first appearance.
pub open spec fn renumber(s: Seq<int>) -> Seq<int> {
    Seq::new(s.len(), |i: int| firsts(s).index_of(s[i]))
}

/// The edges between different groups, carried over to the groups.
pub open spec fn crossing(edges: Seq<sums::Edge>, r: Seq<int>) -> Seq<sums::Edge>
    decreases edges.len(),
{
    if edges.len() == 0 {
        Seq::empty()
    } else {
        let rest = crossing(edges.drop_last(), r);
        let e = edges.last();
        if r[e.0] == r[e.1] {
            rest
        } else {
            rest.push((r[e.0], r[e.1], e.2))
        }
    }
}

pub open spec fn member_loops(l: level::Level, r: Seq<int>, c: int) -> spec_fn(int) -> int {
    |i: int| level::if_in(r[i] == c, l.loops[i])
}

pub open spec fn inside_group(r: Seq<int>, c: int) -> spec_fn(sums::Edge) -> int {
    |e: sums::Edge| level::if_in(r[e.0] == c && r[e.1] == c, e.2)
}

/// All weight inside group `c`: the loops of its members and the edges among them.
pub open spec fn group_loop(l: level::Level, r: Seq<int>, c: int) -> int {
    sums::sum_to(l.n, member_loops(l, r, c)) + sums::sum_edges(l.edges, inside_group(r, c))
}

/// The level whose nodes are the groups `0..m` of `r`.
pub open spec fn contract(l: level::Level, r: Seq<int>, m: int) -> level::Level {
    level::Level {
        n: m,
        edges: crossing(l.edges, r),
        loops: Seq::new(m as nat, |c: int| group_loop(l, r, c)),
    }
}

pub open spec fn compose(up: Seq<int>, r: Seq<int>) -> Seq<int> {
    Seq::new(r.len(), |i: int| up[r[i]])
}

/// The community of every node once no level improves any more.
pub open spec fn labels(l: level::Level) -> Seq<int>
    decreases l.n,
{
    let comm = settle(l);
    if level::two_m(l) == 0 || comm == level::singletons(l.n) {
        level::singletons(l.n)
    } else {
        let r = renumber(comm);
        let m = firsts(comm).len() as int;
        if 0 <= m < l.n {
            compose(labels(contract(l, r, m)), r)
        } else {
            r
        }
    }
}

// ---------------------------------------------------------------------------
// Sequences of first appearances
// ---------------------------------------------------------------------------

pub proof fn lemma_firsts(s: Seq<int>)
    ensures
        firsts(s).no_duplicates(),
        firsts(s).len() <= s.len(),
        forall|v: int| firsts(s).contains(v) <==> s.contains(v),
    decreases s.len(),
{
    if s.len() > 0 {
        let p = s.drop_last();
        let f = firsts(p);
        lemma_firsts(p);
        assert forall|v: int| firsts(s).contains(v) <==> s.contains(v) by {
            assert(s =~= p.push(s.last()));
            if s.contains(v) {
                let k = choose|k: int| 0 <= k < s.len() && s[k] == v;
                if k < p.len() {
                    assert(p[k] == v);
                    assert(p.contains(v));
                    assert(f.contains(v));
                    let j = choose|j: int| 0 <= j < f.len() && f[j] == v;
                    assert(firsts(s)[j] == v);
                } else {
                    if !f.contains(v) {
                        assert(firsts(s)[f.len() as int] == v);
                    }
                }
            }
            if firsts(s).contains(v) {
                let j = choose|j: int| 0 <= j < firsts(s).len() && firsts(s)[j] == v;
                if j < f.len() {
                    assert(f[j] == v);
                    assert(f.contains(v));
                    assert(p.contains(v));
                    let k = choose|k: int| 0 <= k < p.len() && p[k] == v;
                    assert(s[k] == v);
                } else {
                    assert(s[s.len() - 1] == v);
                }
            }
        }
    }
}

/// The first appearances in a prefix come first.
pub proof fn lemma_firsts_prefix(s: Seq<int>, t: int)
    requires
        0 <= t <= s.len(),
    ensures
        firsts(s.take(t)).len() <= firsts(s).len(),
        firsts(s).take(firsts(s.take(t)).len() as int) == firsts(s.take(t)),
    decreases s.len(),
{
    if t == s.len() {
        assert(s.take(t) =~= s);
        assert(firsts(s).take(firsts(s).len() as int) =~= firsts(s));
    } else {
        assert(s.drop_last().take(t) =~= s.take(t));
        lemma_firsts_prefix(s.drop_last(), t);
        assert(firsts(s).take(firsts(s.take(t)).len() as int) =~= firsts(s.drop_last()).take(
            firsts(s.take(t)).len() as int,
        ));
    }
}

/// Renumbered values are indices of first appearances.
pub proof fn lemma_renumber(s: Seq<int>, i: int)
    requires
        0 <= i < s.len(),
    ensures
        0 <= renumber(s)[i] < firsts(s).len(),
        firsts(s)[renumber(s)[i]] == s[i],
        forall|k: int| 0 <= k < firsts(s).len() && firsts(s)[k] == s[i] ==> k == renumber(s)[i],
{
    lemma_firsts(s);
    assert(s.contains(s[i]));
    assert(firsts(s).contains(s[i]));
}

/// Renumbering keeps apart what was apart and together what was together.
pub proof fn lemma_renumber_same(s: Seq<int>, i: int, j: int)
    requires
        0 <= i < s.len(),
        0 <= j < s.len(),
    ensures
        renumber(s)[i] == renumber(s)[j] <==> s[i] == s[j],
{
    lemma_renumber(s, i);
    lemma_renumber(s, j);
}

/// Every number below the count of distinct values is used.
pub proof fn lemma_renumber_onto(s: Seq<int>, c: int) -> (i: int)
    requires
        0 <= c < firsts(s).len(),
    ensures
        0 <= i < s.len(),
        renumber(s)[i] == c,
{
    lemma_firsts(s);
    assert(firsts(s).contains(firsts(s)[c]));
    assert(s.contains(firsts(s)[c]));
    let i = choose|i: int| 0 <= i < s.len() && s[i] == firsts(s)[c];
    lemma_renumber(s, i);
    i
}

/// With as many distinct values as elements, no value occurs twice.
proof fn lemma_firsts_full(s: Seq<int>)
    requires
        firsts(s).len() == s.len(),
    ensures
        s.no_duplicates(),
    decreases s.len(),
{
    if s.len() > 0 {
        let p = s.drop_last();
        lemma_firsts(p);
        lemma_firsts_full(p);
        assert(!firsts(p).contains(s.last()));
        assert(!p.contains(s.last()));
        assert forall|i: int, j: int| 0 <= i < s.len() && 0 <= j < s.len() && i != j implies s[i]
            != s[j] by {
            if i < p.len() && j < p.len() {
                assert(p[i] != p[j]);
            } else if i < p.len() {
                assert(p[i] == s[i] && p.contains(p[i]));
            } else {
                assert(p[j] == s[j] && p.contains(p[j]));
            }
        }
    }
}

// ---------------------------------------------------------------------------
// One placement
// ---------------------------------------------------------------------------

pub proof fn lemma_candidate_range(l: level::Level, comm: Seq<int>, i: int, c: int)
    requires
        l.wf(),
        level::assignment(l, comm),
        0 <= i < l.n,
        candidate(l, comm, i, c),
    ensures
        0 <= c < l.n,
{
    if c != comm[i] {
        let k = choose|k: int|
            0 <= k < l.edges.len() && reaches(#[trigger] l.edges[k], comm, i, c);
        assert(0 <= l.edges[k].0 < l.n && 0 <= l.edges[k].1 < l.n);
    }
}

pub proof fn lemma_best_unique(l: level::Level, comm: Seq<int>, i: int, c: int)
    requires
        is_best(l, comm, i, c),
    ensures
        best(l, comm, i) == c,
{
    let d = best(l, comm, i);
    assert(is_best(l, comm, i, d));
    assert(candidate(l, comm, i, c));
    assert(candidate(l, comm, i, d));
}

/// Among the candidates below `upto` (and the own community) one is preferred to all.
proof fn lemma_best_below(l: level::Level, comm: Seq<int>, i: int, upto: int) -> (c: int)
    requires
        level::assignment(l, comm),
        0 <= i < l.n,
        0 <= upto <= l.n,
    ensures
        candidate(l, comm, i, c),
        forall|d: int|
            (d == comm[i] || 0 <= d < upto) && #[trigger] candidate(l, comm, i, d) ==> preferred(
                l,
                comm,
                i,
                c,
                d,
            ),
    decreases upto,
{
    if upto == 0 {
        comm[i]
    } else {
        let c = lemma_best_below(l, comm, i, upto - 1);
        assert(candidate(l, comm, i, comm[i]));
        if candidate(l, comm, i, upto - 1) && !preferred(l, comm, i, c, upto - 1) {
            upto - 1
        } else {
            c
        }
    }
}

pub proof fn lemma_best(l: level::Level, comm: Seq<int>, i: int)
    requires
        l.wf(),
        level::assignment(l, comm),
        0 <= i < l.n,
    ensures
        is_best(l, comm, i, best(l, comm, i)),
        0 <= best(l, comm, i) < l.n,
{
    let c = lemma_best_below(l, comm, i, l.n);
    assert forall|d: int| #[trigger] candidate(l, comm, i, d) implies preferred(
        l,
        comm,
        i,
        c,
        d,
    ) by {
        lemma_candidate_range(l, comm, i, d);
    }
    assert(is_best(l, comm, i, c));
    lemma_candidate_range(l, comm, i, best(l, comm, i));
}

/// Placing a node keeps the assignment valid and never lowers the score; a node that changes
/// its community raises it.
pub proof fn lemma_place(l: level::Level, comm: Seq<int>, i: int)
    requires
        l.wf(),
        level::assignment(l, comm),
        0 <= i < l.n,
    ensures
        level::assignment(l, comm.update(i, best(l, comm, i))),
        best(l, comm, i) == comm[i] ==> comm.update(i, best(l, comm, i)) == comm,
        best(l, comm, i) != comm[i] ==> level::score(l, comm.update(i, best(l, comm, i)))
            > level::score(l, comm),
{
    let c = best(l, comm, i);
    lemma_best(l, comm, i);
    if c == comm[i] {
        assert(comm.update(i, c) =~= comm);
    } else {
        assert(candidate(l, comm, i, comm[i]));
        assert(preferred(l, comm, i, c, comm[i]));
        level::lemma_move_gain(l, comm, i, c);
    }
}

pub proof fn lemma_sweep(l: level::Level, comm: Seq<int>, upto: int)
    requires
        l.wf(),
        level::assignment(l, comm),
        0 <= upto <= l.n,
    ensures
        level::assignment(l, sweep(l, comm, upto)),
        level::score(l, sweep(l, comm, upto)) >= level::score(l, comm),
        sweep(l, comm, upto) != comm ==> level::score(l, sweep(l, comm, upto)) > level::score(
            l,
            comm,
        ),
    decreases upto,
{
    if upto > 0 {
        lemma_sweep(l, comm, upto - 1);
        lemma_place(l, sweep(l, comm, upto - 1), upto - 1);
    }
}

/// A sweep that ends where it began moved no node at all.
pub proof fn lemma_sweep_still(l: level::Level, comm: Seq<int>, upto: int, i: int)
    requires
        l.wf(),
        level::assignment(l, comm),
        0 <= i < upto <= l.n,
        sweep(l, comm, upto) == comm,
    ensures
        best(l, comm, i) == comm[i],
    decreases upto,
{
    let before = sweep(l, comm, upto - 1);
    lemma_sweep(l, comm, upto - 1);
    lemma_place(l, before, upto - 1);
    assert(before == comm);
    if i == upto - 1 {
        assert(comm.update(i, best(l, comm, i))[i] == comm[i]);
    } else {
        lemma_sweep_still(l, comm, upto - 1, i);
    }
}

pub proof fn lemma_sweeps(l: level::Level, k: nat)
    requires
        l.wf(),
    ensures
        level::assignment(l, sweeps(l, k)),
        level::score(l, sweeps(l, k)) >= level::score(l, level::singletons(l.n)),
        sweeps(l, k) != level::singletons(l.n) ==> level::score(l, sweeps(l, k)) > level::score(
            l,
            level::singletons(l.n),
        ),
    decreases k,
{
    if k > 0 {
        lemma_sweeps(l, (k - 1) as nat);
        lemma_sweep(l, sweeps(l, (k - 1) as nat), l.n);
    }
}

proof fn lemma_sweeps_rest(l: level::Level, k: nat, j: nat)
    requires
        sweep(l, sweeps(l, k), l.n) == sweeps(l, k),
        k <= j,
    ensures
        sweeps(l, j) == sweeps(l, k),
    decreases j,
{
    if k < j {
        lemma_sweeps_rest(l, k, (j - 1) as nat);
    }
}

/// The sweeps come to rest at one place only.
pub proof fn lemma_settle_unique(l: level::Level, comm: Seq<int>)
    requires
        settled(l, comm),
    ensures
        settle(l) == comm,
{
    let other = settle(l);
    assert(settled(l, other));
    let k = choose|k: nat| comm == #[trigger] sweeps(l, k);
    let j = choose|j: nat| other == #[trigger] sweeps(l, j);
    if k <= j {
        lemma_sweeps_rest(l, k, j);
    } else {
        lemma_sweeps_rest(l, j, k);
    }
}

proof fn lemma_settle_from(l: level::Level, k: nat)
    requires
        l.wf(),
    ensures
        settled(l, settle(l)),
    decreases level::two_m(l) * level::two_m(l) - level::score(l, sweeps(l, k)),
{
    let comm = sweeps(l, k);
    lemma_sweeps(l, k);
    if sweep(l, comm, l.n) == comm {
        assert(settled(l, comm));
    } else {
        lemma_sweep(l, comm, l.n);
        assert(sweeps(l, k + 1) == sweep(l, comm, l.n));
        level::lemma_score_bound(l, sweeps(l, k + 1));
        lemma_settle_from(l, k + 1);
    }
}

/// The sweeps do come to rest, at a valid assignment that only the start can tie.
pub proof fn lemma_settle(l: level::Level)
    requires
        l.wf(),
    ensures
        settled(l, settle(l)),
        level::assignment(l, settle(l)),
        settle(l) != level::singletons(l.n) ==> level::score(l, settle(l)) > level::score(
            l,
            level::singletons(l.n),
        ),
{
    lemma_settle_from(l, 0);
    let k = choose|k: nat| settle(l) == #[trigger] sweeps(l, k);
    lemma_sweeps(l, k);
}

// ---------------------------------------------------------------------------
// Scores depend on the partition, not on the numbers
// ---------------------------------------------------------------------------

pub open spec fn same_partition(a: Seq<int>, b: Seq<int>) -> bool {
    &&& a.len() == b.len()
    &&& forall|i: int, j: int|
        0 <= i < a.len() && 0 <= j < a.len() ==> (#[trigger] a[i] == #[trigger] a[j] <==> b[i]
            == b[j])
}

pub proof fn lemma_score_partition(l: level::Level, a: Seq<int>, b: Seq<int>)
    requires
        l.wf(),
        a.len() == l.n,
        same_partition(a, b),
    ensures
        level::score(l, a) == level::score(l, b),
{
    assert forall|k: int| 0 <= k < l.edges.len() implies level::inside_of(a)(
        #[trigger] l.edges[k],
    ) == level::inside_of(b)(l.edges[k]) by {
        let e = l.edges[k];
        assert(0 <= e.0 < l.n && 0 <= e.1 < l.n);
        assert(a[e.0] == a[e.1] <==> b[e.0] == b[e.1]);
    }
    sums::lemma_sum_edges_ext(l.edges, level::inside_of(a), level::inside_of(b));
    let fa = level::product_terms(l, a);
    let fb = level::product_terms(l, b);
    assert forall|i: int| 0 <= i < l.n implies #[trigger] fa(i) == fb(i) by {
        let ta = level::member_degrees(l, a, a[i]);
        let tb = level::member_degrees(l, b, b[i]);
        assert forall|j: int| 0 <= j < l.n implies #[trigger] ta(j) == tb(j) by {
            assert(a[i] == a[j] <==> b[i] == b[j]);
        }
        sums::lemma_sum_to_ext(l.n, ta, tb);
    }
    sums::lemma_sum_to_ext(l.n, fa, fb);
}

/// A settled assignment other than singletons has fewer communities than nodes.
pub proof fn lemma_settle_shrinks(l: level::Level)
    requires
        l.wf(),
        settle(l) != level::singletons(l.n),
    ensures
        firsts(settle(l)).len() < l.n,
{
    let comm = settle(l);
    let own = level::singletons(l.n);
    lemma_settle(l);
    lemma_firsts(comm);
    if firsts(comm).len() == comm.len() {
        lemma_firsts_full(comm);
        assert(same_partition(comm, own)) by {
            assert forall|i: int, j: int| 0 <= i < comm.len() && 0 <= j < comm.len() implies (
            #[trigger] comm[i] == #[trigger] comm[j] <==> own[i] == own[j]) by {
                if i != j {
                    assert(comm[i] != comm[j]);
                }
            }
        }
        lemma_score_partition(l, comm, own);
    }
}

} // verus!
