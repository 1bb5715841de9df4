//! What the levels of community detection satisfy: at every level the local moves end only where
//! no single move raises the modularity, and what a level has put together stays together.

use crate::contraction;
use crate::level;
use crate::louvain;
use crate::louvain_laws;
use crate::sums;
use vstd::prelude::*;

verus! {

// ---------------------------------------------------------------------------
// Gains and modularity
// ---------------------------------------------------------------------------

/// Without self-loops the internal weight grows by what `x` links into `d`, less what it links
/// into its old community.
proof fn lemma_internal_exact(l: level::Level, comm: Seq<int>, x: int, d: int)
    requires
        l.wf(),
        l.simple(),
        comm.len() == l.n,
        0 <= x < l.n,
        comm[x] != d,
    ensures
        level::internal(l, comm.update(x, d)) == level::internal(l, comm) + level::weight_into(
            l,
            comm,
            x,
            d,
        ) - level::weight_into(l, comm, x, comm[x]),
{
    let c = comm[x];
    let next = comm.update(x, d);
    let f = level::inside_of(comm);
    let g = level::inside_of(next);
    let from = level::links_to(comm, x, c);
    let to = level::links_to(comm, x, d);
    let lhs = |e: sums::Edge| g(e) + from(e);
    let rhs = |e: sums::Edge| f(e) + to(e);
    assert forall|k: int| 0 <= k < l.edges.len() implies rhs(#[trigger] l.edges[k]) == lhs(
        l.edges[k],
    ) by {
        let e = l.edges[k];
        assert(0 <= e.0 < l.n && 0 <= e.1 < l.n && 0 <= e.2 && e.0 != e.1);
    }
    sums::lemma_sum_edges_ext(l.edges, rhs, lhs);
    sums::lemma_sum_edges_add(l.edges, g, from);
    sums::lemma_sum_edges_add(l.edges, f, to);
    sums::lemma_sum_edges_ext(l.edges, lhs, |e: sums::Edge| g(e) + from(e));
    sums::lemma_sum_edges_ext(l.edges, rhs, |e: sums::Edge| f(e) + to(e));
}

/// The gain of a placement measures modularity: moving a node to another community changes the
/// modularity by twice the difference of the two gains, over `(2m)^2`.
pub proof fn law_gain_measures_modularity(l: level::Level, comm: Seq<int>, x: int, d: int)
    requires
        l.wf(),
        l.simple(),
        comm.len() == l.n,
        0 <= x < l.n,
    ensures
        level::score(l, comm.update(x, d)) - level::score(l, comm) == 2 * (level::gain(
            l,
            comm,
            x,
            d,
        ) - level::gain(l, comm, x, comm[x])),
{
    if comm[x] == d {
        assert(comm.update(x, d) =~= comm);
    } else {
        let c = comm[x];
        let next = comm.update(x, d);
        lemma_internal_exact(l, comm, x, d);
        level::lemma_product_move(l, comm, x, d);
        let m2 = level::two_m(l);
        let kx = level::degree(l, x);
        let td = level::total(l, comm, d);
        let tc = level::total(l, comm, c);
        let wd = level::weight_into(l, comm, x, d);
        let wc = level::weight_into(l, comm, x, c);
        let i0 = level::internal(l, comm);
        let i1 = level::internal(l, next);
        assert(level::gain(l, comm, x, d) == wd * m2 - (td - 0) * kx);
        assert(level::gain(l, comm, x, c) == wc * m2 - (tc - kx) * kx);
        assert(m2 * (2 * i1) == m2 * (2 * i0) + 2 * (wd * m2 - wc * m2)) by (nonlinear_arith)
            requires
                i1 == i0 + wd - wc,
        ;
        assert(2 * (kx * (td - (tc - kx))) == 2 * ((td - 0) * kx - (tc - kx) * kx))
            by (nonlinear_arith);
    }
}

// ---------------------------------------------------------------------------
// Single moves
// ---------------------------------------------------------------------------

/// An edge joins the nodes `i` and `j`.
pub open spec fn adjacent(l: level::Level, i: int, j: int) -> bool {
    exists|k: int|
        0 <= k < l.edges.len() && ((#[trigger] l.edges[k]).0 == i && l.edges[k].1 == j
            || l.edges[k].0 == j && l.edges[k].1 == i)
}

/// The local moves of a level end only where they are stable: in the partition that a level
/// hands on, no node has a larger gain in the community of a neighbour than where it stands, so
/// moving a single node to a neighbour never raises the modularity.
pub proof fn law_local_moves_end_stable(l: level::Level, i: int, j: int)
    requires
        l.wf(),
        0 <= i < l.n,
        0 <= j < l.n,
        adjacent(l, i, j),
    ensures
        ({
            let comm = louvain::settle(l);
            level::gain(l, comm, i, comm[j]) <= level::gain(l, comm, i, comm[i])
        }),
        l.simple() ==> level::score(
            l,
            louvain::settle(l).update(i, louvain::settle(l)[j]),
        ) <= level::score(l, louvain::settle(l)),
{
    let comm = louvain::settle(l);
    louvain::lemma_settle(l);
    louvain::lemma_sweep_still(l, comm, l.n, i);
    louvain::lemma_best(l, comm, i);
    let k = choose|k: int|
        0 <= k < l.edges.len() && ((#[trigger] l.edges[k]).0 == i && l.edges[k].1 == j
            || l.edges[k].0 == j && l.edges[k].1 == i);
    assert(louvain::reaches(l.edges[k], comm, i, comm[j]));
    assert(louvain::candidate(l, comm, i, comm[j]));
    assert(louvain::preferred(l, comm, i, comm[i], comm[j]));
    if l.simple() {
        law_gain_measures_modularity(l, comm, i, comm[j]);
    }
}

/// Node `i` is placed greedily: it goes to the community of a neighbour or stays, no neighbour's
/// community has a larger gain, and it leaves only for a larger gain. Nothing else changes.
pub open spec fn placed(l: level::Level, before: Seq<int>, after: Seq<int>, i: int) -> bool {
    &&& after.len() == before.len()
    &&& forall|x: int| 0 <= x < before.len() && x != i ==> #[trigger] after[x] == before[x]
    &&& after[i] == before[i] || exists|j: int|
        0 <= j < l.n && #[trigger] adjacent(l, i, j) && before[j] == after[i]
    &&& forall|j: int|
        0 <= j < l.n && #[trigger] adjacent(l, i, j) ==> level::gain(l, before, i, before[j])
            <= level::gain(l, before, i, after[i])
    &&& after[i] != before[i] ==> level::gain(l, before, i, after[i]) > level::gain(
        l,
        before,
        i,
        before[i],
    )
}

/// Rounds over all nodes in order. The first round begins with every node alone, each begins
/// where the one before ended, and the last one moves no node.
pub open spec fn greedy_rounds(l: level::Level, rounds: Seq<Seq<Seq<int>>>) -> bool {
    &&& rounds.len() > 0
    &&& forall|q: int| 0 <= q < rounds.len() ==> (#[trigger] rounds[q]).len() == l.n + 1
    &&& rounds[0][0] == level::singletons(l.n)
    &&& forall|q: int|
        0 <= q < rounds.len() - 1 ==> rounds[q + 1][0] == (#[trigger] rounds[q])[l.n]
    &&& forall|q: int, i: int|
        0 <= q < rounds.len() && 0 <= i < l.n ==> placed(
            l,
            #[trigger] rounds[q][i],
            rounds[q][i + 1],
            i,
        )
    &&& rounds.last()[0] == rounds.last()[l.n]
}

proof fn lemma_placed(l: level::Level, comm: Seq<int>, i: int)
    requires
        l.wf(),
        level::assignment(l, comm),
        0 <= i < l.n,
    ensures
        placed(l, comm, comm.update(i, louvain::best(l, comm, i)), i),
{
    let c = louvain::best(l, comm, i);
    louvain::lemma_best(l, comm, i);
    if c != comm[i] {
        let k = choose|k: int|
            0 <= k < l.edges.len() && louvain::reaches(#[trigger] l.edges[k], comm, i, c);
        let e = l.edges[k];
        assert(0 <= e.0 < l.n && 0 <= e.1 < l.n);
        let j = if e.0 == i && comm[e.1] == c {
            e.1
        } else {
            e.0
        };
        assert(adjacent(l, i, j));
        assert(louvain::candidate(l, comm, i, comm[i]));
        assert(louvain::preferred(l, comm, i, c, comm[i]));
    }
    assert forall|j: int| 0 <= j < l.n && #[trigger] adjacent(l, i, j) implies level::gain(
        l,
        comm,
        i,
        comm[j],
    ) <= level::gain(l, comm, i, c) by {
        let k = choose|k: int|
            0 <= k < l.edges.len() && ((#[trigger] l.edges[k]).0 == i && l.edges[k].1 == j
                || l.edges[k].0 == j && l.edges[k].1 == i);
        assert(louvain::reaches(l.edges[k], comm, i, comm[j]));
        assert(louvain::candidate(l, comm, i, comm[j]));
        assert(louvain::preferred(l, comm, i, c, comm[j]));
    }
}

/// The local moves of a level are greedy rounds over its nodes, from single nodes to where a
/// whole round moves nothing.
pub proof fn law_local_moves_are_greedy(l: level::Level)
    requires
        l.wf(),
    ensures
        exists|rounds: Seq<Seq<Seq<int>>>| #[trigger]
            greedy_rounds(l, rounds) && rounds.last()[l.n] == louvain::settle(l),
{
    louvain::lemma_settle(l);
    let k = choose|k: nat| louvain::settle(l) == #[trigger] louvain::sweeps(l, k);
    let rounds = Seq::new(
        k + 1,
        |q: int|
            Seq::new((l.n + 1) as nat, |i: int| louvain::sweep(l, louvain::sweeps(l, q as nat), i)),
    );
    assert forall|q: int| 0 <= q < rounds.len() - 1 implies rounds[q + 1][0] == (
    #[trigger] rounds[q])[l.n] by {
        assert(louvain::sweeps(l, (q + 1) as nat) == louvain::sweep(
            l,
            louvain::sweeps(l, q as nat),
            l.n,
        ));
    }
    assert forall|q: int, i: int| 0 <= q < rounds.len() && 0 <= i < l.n implies placed(
        l,
        #[trigger] rounds[q][i],
        rounds[q][i + 1],
        i,
    ) by {
        louvain::lemma_sweeps(l, q as nat);
        let start = louvain::sweeps(l, q as nat);
        louvain::lemma_sweep(l, start, i);
        lemma_placed(l, louvain::sweep(l, start, i), i);
        assert(rounds[q][i + 1] == louvain::sweep(l, start, i + 1));
    }
    assert(louvain::sweeps(l, 0) == level::singletons(l.n));
    assert(greedy_rounds(l, rounds));
}

/// The local moves of a level never lower the modularity, and a level that moves a node raises
/// it.
pub proof fn law_local_moves_raise_modularity(l: level::Level)
    requires
        l.wf(),
    ensures
        level::score(l, louvain::settle(l)) >= level::score(l, level::singletons(l.n)),
        louvain::settle(l) != level::singletons(l.n) ==> level::score(l, louvain::settle(l))
            > level::score(l, level::singletons(l.n)),
{
    louvain::lemma_settle(l);
}

// ---------------------------------------------------------------------------
// From level to level
// ---------------------------------------------------------------------------

/// Contracting groups of nodes loses nothing: every partition of the groups has the modularity
/// that it has as a partition of the nodes, and the weight of the graph stays.
pub proof fn law_contraction_keeps_modularity(
    l: level::Level,
    r: Seq<int>,
    m: int,
    up: Seq<int>,
    down: Seq<int>,
)
    requires
        l.wf(),
        contraction::grouping(l, r, m),
        up.len() == m,
        down.len() == l.n,
        forall|i: int| 0 <= i < l.n ==> #[trigger] down[i] == up[r[i]],
    ensures
        louvain::contract(l, r, m).n == m,
        level::two_m(louvain::contract(l, r, m)) == level::two_m(l),
        level::score(louvain::contract(l, r, m), up) == level::score(l, down),
{
    assert(down =~= louvain::compose(up, r));
    contraction::lemma_contract_score(l, r, m, up);
    contraction::lemma_contract_two_m(l, r, m);
}

proof fn lemma_settle_partition(l: level::Level)
    requires
        l.wf(),
    ensures
        louvain::same_partition(louvain::settle(l), louvain::renumber(louvain::settle(l))),
        louvain::settle(l).len() == l.n,
{
    let comm = louvain::settle(l);
    louvain::lemma_settle(l);
    assert forall|i: int, j: int| 0 <= i < comm.len() && 0 <= j < comm.len() implies (
    #[trigger] comm[i] == #[trigger] comm[j] <==> louvain::renumber(comm)[i] == louvain::renumber(
        comm,
    )[j]) by {
        louvain::lemma_renumber_same(comm, i, j);
    }
}

/// What a level has put together stays together: two nodes in one community after the local
/// moves are in one community in the end.
pub proof fn law_levels_only_merge(l: level::Level, i: int, j: int)
    requires
        l.wf(),
        level::two_m(l) != 0,
        0 <= i < l.n,
        0 <= j < l.n,
        louvain::settle(l)[i] == louvain::settle(l)[j],
    ensures
        louvain_laws::communities(l)[i] == louvain_laws::communities(l)[j],
{
    louvain_laws::lemma_labels_len(l);
    louvain::lemma_renumber_same(louvain::labels(l), i, j);
    lemma_settle_partition(l);
    if louvain::settle(l) != level::singletons(l.n) {
        louvain_laws::lemma_labels_step(l);
        let comm = louvain::settle(l);
        assert(comm[i] == comm[j] <==> louvain::renumber(comm)[i] == louvain::renumber(comm)[j]);
    }
}

/// The communities of a graph are those of the graph whose nodes are the communities of the
/// first level; where the first level moves no node, or there is no weight, every node stands
/// alone.
pub proof fn law_communities_of_communities(l: level::Level, i: int, j: int)
    requires
        l.wf(),
        0 <= i < l.n,
        0 <= j < l.n,
    ensures
        ({
            let comm = louvain::settle(l);
            let r = louvain::renumber(comm);
            let top = louvain::contract(l, r, louvain::firsts(comm).len() as int);
            let same = louvain_laws::communities(l)[i] == louvain_laws::communities(l)[j];
            if level::two_m(l) == 0 || comm == level::singletons(l.n) {
                same <==> i == j
            } else {
                same <==> louvain_laws::communities(top)[r[i]] == louvain_laws::communities(
                    top,
                )[r[j]]
            }
        }),
{
    louvain_laws::lemma_labels_len(l);
    louvain::lemma_renumber_same(louvain::labels(l), i, j);
    let comm = louvain::settle(l);
    if level::two_m(l) != 0 && comm != level::singletons(l.n) {
        let r = louvain::renumber(comm);
        let m = louvain::firsts(comm).len() as int;
        let top = louvain::contract(l, r, m);
        louvain_laws::lemma_labels_step(l);
        assert(0 <= r[i] < m && 0 <= r[j] < m);
        louvain::lemma_renumber_same(louvain::labels(top), r[i], r[j]);
    }
}

// ---------------------------------------------------------------------------
// All levels at once
// ---------------------------------------------------------------------------

/// The partition `coarse` with the whole block of node `i` in the partition `fine` moved to
/// community `c`.
pub open spec fn with_block(coarse: Seq<int>, fine: Seq<int>, i: int, c: int) -> Seq<int> {
    Seq::new(
        coarse.len(),
        |x: int|
            if fine[x] == fine[i] {
                c
            } else {
                coarse[x]
            },
    )
}

/// No block of `fine` lies in two communities of `coarse`.
pub open spec fn coarsens(fine: Seq<int>, coarse: Seq<int>) -> bool {
    &&& fine.len() == coarse.len()
    &&& forall|i: int, j: int|
        0 <= i < fine.len() && 0 <= j < fine.len() && #[trigger] fine[i] == #[trigger] fine[j]
            ==> coarse[i] == coarse[j]
}

/// Moving one block of `fine` to the community of a neighbour does not raise the modularity of
/// `coarse`.
pub open spec fn no_block_moves(l: level::Level, fine: Seq<int>, coarse: Seq<int>) -> bool {
    forall|i: int, j: int|
        0 <= i < l.n && 0 <= j < l.n && #[trigger] adjacent(l, i, j) ==> level::score(
            l,
            with_block(coarse, fine, i, coarse[j]),
        ) <= level::score(l, coarse)
}

/// A way from single nodes to ever coarser partitions. Each of them is stable when the blocks of
/// the one before are moved, and the last one also when its own blocks are.
pub open spec fn stable_levels(l: level::Level, steps: Seq<Seq<int>>) -> bool {
    &&& steps.len() > 0
    &&& steps[0] == level::singletons(l.n)
    &&& forall|t: int|
        0 <= t < steps.len() - 1 ==> coarsens(#[trigger] steps[t], steps[t + 1])
            && no_block_moves(l, steps[t], steps[t + 1])
    &&& steps.last().len() == l.n
    &&& no_block_moves(l, steps.last(), steps.last())
}

/// Without weight all partitions are equally good.
proof fn lemma_no_weight(l: level::Level, comm: Seq<int>)
    requires
        l.wf(),
        level::two_m(l) == 0,
    ensures
        level::score(l, comm) == 0,
{
    let prod = level::product_terms(l, comm);
    assert forall|i: int| 0 <= i < l.n implies #[trigger] prod(i) == 0 by {
        level::lemma_bounds(l, comm, i, comm[i]);
        let t = level::total(l, comm, comm[i]);
        assert(level::degree(l, i) * t == 0) by (nonlinear_arith)
            requires
                level::degree(l, i) == 0,
        ;
    }
    sums::lemma_sum_to_zero(l.n, prod);
    let x = 2 * level::internal(l, comm);
    assert(level::two_m(l) * x == 0) by (nonlinear_arith)
        requires
            level::two_m(l) == 0,
    ;
}

/// Edges between different groups are edges of the contracted level.
proof fn lemma_crossing_has(edges: Seq<sums::Edge>, r: Seq<int>, j: int) -> (k: int)
    requires
        0 <= j < edges.len(),
        r[edges[j].0] != r[edges[j].1],
    ensures
        0 <= k < louvain::crossing(edges, r).len(),
        louvain::crossing(edges, r)[k] == (r[edges[j].0], r[edges[j].1], edges[j].2),
    decreases edges.len(),
{
    let rest = louvain::crossing(edges.drop_last(), r);
    if j < edges.len() - 1 {
        lemma_crossing_has(edges.drop_last(), r, j)
    } else {
        rest.len() as int
    }
}

proof fn lemma_adjacent_up(l: level::Level, r: Seq<int>, m: int, i: int, j: int)
    requires
        adjacent(l, i, j),
        r[i] != r[j],
    ensures
        adjacent(louvain::contract(l, r, m), r[i], r[j]),
{
    let k = choose|k: int|
        0 <= k < l.edges.len() && ((#[trigger] l.edges[k]).0 == i && l.edges[k].1 == j
            || l.edges[k].0 == j && l.edges[k].1 == i);
    let q = lemma_crossing_has(l.edges, r, k);
    let e = louvain::contract(l, r, m).edges[q];
    assert(e.0 == r[i] && e.1 == r[j] || e.0 == r[j] && e.1 == r[i]);
}

/// Stability of a contracted level is stability of blocks of nodes.
proof fn lemma_moves_below(l: level::Level, r: Seq<int>, m: int, fine: Seq<int>, coarse: Seq<int>)
    requires
        l.wf(),
        contraction::grouping(l, r, m),
        fine.len() == m,
        coarse.len() == m,
        coarsens(fine, coarse),
        no_block_moves(louvain::contract(l, r, m), fine, coarse),
    ensures
        no_block_moves(l, louvain::compose(fine, r), louvain::compose(coarse, r)),
{
    let top = louvain::contract(l, r, m);
    let f = louvain::compose(fine, r);
    let c = louvain::compose(coarse, r);
    assert forall|i: int, j: int|
        0 <= i < l.n && 0 <= j < l.n && #[trigger] adjacent(l, i, j) implies level::score(
        l,
        with_block(c, f, i, c[j]),
    ) <= level::score(l, c) by {
        assert(0 <= r[i] < m && 0 <= r[j] < m);
        if r[i] == r[j] {
            assert(with_block(c, f, i, c[j]) =~= c) by {
                assert forall|x: int| 0 <= x < l.n implies with_block(c, f, i, c[j])[x] == c[x] by {
                    assert(0 <= r[x] < m);
                    if fine[r[x]] == fine[r[i]] {
                        assert(coarse[r[x]] == coarse[r[i]]);
                    }
                }
            }
        } else {
            lemma_adjacent_up(l, r, m, i, j);
            let up = with_block(coarse, fine, r[i], coarse[r[j]]);
            assert(level::score(top, up) <= level::score(top, coarse));
            contraction::lemma_contract_score(l, r, m, up);
            contraction::lemma_contract_score(l, r, m, coarse);
            assert(louvain::compose(up, r) =~= with_block(c, f, i, c[j])) by {
                assert forall|x: int| 0 <= x < l.n implies louvain::compose(up, r)[x]
                    == with_block(c, f, i, c[j])[x] by {
                    assert(0 <= r[x] < m);
                }
            }
        }
    }
}

/// The first level is stable when single nodes are moved.
proof fn lemma_first_level(l: level::Level, r: Seq<int>)
    requires
        l.wf(),
        l.simple(),
        louvain::same_partition(louvain::settle(l), r),
        louvain::settle(l).len() == l.n,
    ensures
        no_block_moves(l, level::singletons(l.n), r),
{
    let own = level::singletons(l.n);
    let comm = louvain::settle(l);
    assert forall|i: int, j: int|
        0 <= i < l.n && 0 <= j < l.n && #[trigger] adjacent(l, i, j) implies level::score(
        l,
        with_block(r, own, i, r[j]),
    ) <= level::score(l, r) by {
        law_local_moves_end_stable(l, i, j);
        let a = comm.update(i, comm[j]);
        let b = with_block(r, own, i, r[j]);
        assert(b =~= r.update(i, r[j]));
        assert(louvain::same_partition(a, b)) by {
            assert forall|x: int, y: int| 0 <= x < a.len() && 0 <= y < a.len() implies (
            #[trigger] a[x] == #[trigger] a[y] <==> b[x] == b[y]) by {
                let p = if x == i {
                    j
                } else {
                    x
                };
                let q = if y == i {
                    j
                } else {
                    y
                };
                assert(comm[p] == comm[q] <==> r[p] == r[q]);
            }
        }
        louvain::lemma_score_partition(l, a, b);
        louvain::lemma_score_partition(l, comm, r);
    }
}

proof fn lemma_rest_level(l: level::Level)
    requires
        l.wf(),
        l.simple(),
        level::two_m(l) == 0 || louvain::settle(l) == level::singletons(l.n),
    ensures
        stable_levels(l, seq![level::singletons(l.n)]),
{
    let own = level::singletons(l.n);
    if level::two_m(l) == 0 {
        assert forall|i: int, j: int|
            0 <= i < l.n && 0 <= j < l.n && #[trigger] adjacent(l, i, j) implies level::score(
            l,
            with_block(own, own, i, own[j]),
        ) <= level::score(l, own) by {
            lemma_no_weight(l, with_block(own, own, i, own[j]));
            lemma_no_weight(l, own);
        }
    } else {
        lemma_first_level(l, own);
    }
}

proof fn lemma_levels(l: level::Level) -> (steps: Seq<Seq<int>>)
    requires
        l.wf(),
        l.simple(),
    ensures
        stable_levels(l, steps),
        steps.last() == louvain::labels(l),
    decreases l.n,
{
    let comm = louvain::settle(l);
    let own = level::singletons(l.n);
    if level::two_m(l) == 0 || comm == own {
        lemma_rest_level(l);
        seq![own]
    } else {
        let r = louvain::renumber(comm);
        let m = louvain::firsts(comm).len() as int;
        let top = louvain::contract(l, r, m);
        louvain_laws::lemma_labels_step(l);
        let above = lemma_levels(top);
        let steps = seq![own] + Seq::new(above.len(), |t: int| louvain::compose(above[t], r));
        lemma_settle_partition(l);
        assert(louvain::compose(level::singletons(m), r) =~= r);
        assert(steps[1] == r);
        lemma_first_level(l, r);
        assert forall|t: int| 0 <= t < above.len() implies (#[trigger] above[t]).len() == m by {
            lemma_step_len(top, above, t);
        }
        assert forall|t: int| 0 <= t < steps.len() - 1 implies coarsens(
            #[trigger] steps[t],
            steps[t + 1],
        ) && no_block_moves(l, steps[t], steps[t + 1]) by {
            if t > 0 {
                let f = above[t - 1];
                let c = above[t];
                assert(coarsens(f, c) && no_block_moves(top, f, c)) by {
                    assert(above[t - 1 + 1] == c);
                }
                assert(steps[t] == louvain::compose(f, r));
                assert(steps[t + 1] == louvain::compose(c, r));
                lemma_moves_below(l, r, m, f, c);
                assert forall|i: int, j: int|
                    0 <= i < l.n && 0 <= j < l.n && #[trigger] steps[t][i]
                        == #[trigger] steps[t][j] implies steps[t + 1][i] == steps[t + 1][j] by {
                    assert(0 <= r[i] < m && 0 <= r[j] < m);
                    assert(f[r[i]] == f[r[j]]);
                }
            }
        }
        let last = above.last();
        assert(steps.last() == louvain::compose(last, r));
        assert(coarsens(last, last));
        lemma_moves_below(l, r, m, last, last);
        steps
    }
}

proof fn lemma_step_len(l: level::Level, steps: Seq<Seq<int>>, t: int)
    requires
        0 <= l.n,
        stable_levels(l, steps),
        0 <= t < steps.len(),
    ensures
        steps[t].len() == l.n,
    decreases t,
{
    if t > 0 {
        lemma_step_len(l, steps, t - 1);
        assert(coarsens(steps[t - 1], steps[t - 1 + 1]));
    }
}

/// The communities of a graph without self-loops come about level by level: single nodes are
/// merged into communities, these into larger ones, and so on. No level ends while moving one of
/// its nodes, that is, one whole community of the level before, to the community of a neighbour
/// would raise the modularity, and the levels end only where this holds of the communities too.
pub proof fn law_every_level_is_stable(l: level::Level)
    requires
        l.wf(),
        l.simple(),
    ensures
        exists|steps: Seq<Seq<int>>| #[trigger]
            stable_levels(l, steps) && louvain::same_partition(
                steps.last(),
                louvain_laws::communities(l),
            ),
{
    let steps = lemma_levels(l);
    louvain_laws::lemma_communities_partition(l);
    assert(stable_levels(l, steps));
}

} // verus!
