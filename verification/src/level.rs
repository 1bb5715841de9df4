//! The mathematics of one level of community detection: a weighted multigraph,
//! an assignment of its nodes to communities, and the modularity of that assignment.

use crate::sums;
use vstd::prelude::*;

verus! {

/// A weighted undirected multigraph on the nodes `0..n`. `loops[i]` is the weight
/// that lies inside node `i` (edges contracted into it).
#[verifier::ext_equal]
pub struct Level {
    pub n: int,
    pub edges: Seq<sums::Edge>,
    pub loops: Seq<int>,
}

impl Level {
    pub open spec fn wf(self) -> bool {
        &&& self.n == self.loops.len()
        &&& forall|k: int|
            0 <= k < self.edges.len() ==> {
                &&& 0 <= (#[trigger] self.edges[k]).0 < self.n
                &&& 0 <= self.edges[k].1 < self.n
                &&& 0 <= self.edges[k].2
            }
        &&& forall|i: int| 0 <= i < self.n ==> 0 <= #[trigger] self.loops[i]
    }

    /// No edge joins a node to itself.
    pub open spec fn simple(self) -> bool {
        forall|k: int|
            0 <= k < self.edges.len() ==> (#[trigger] self.edges[k]).0 != self.edges[k].1
    }
}

/// An assignment gives every node a community number below the node count.
pub open spec fn assignment(l: Level, comm: Seq<int>) -> bool {
    &&& comm.len() == l.n
    &&& forall|i: int| 0 <= i < l.n ==> 0 <= #[trigger] comm[i] < l.n
}

/// Every node in a community of its own.
pub open spec fn singletons(n: int) -> Seq<int> {
    Seq::new(n as nat, |i: int| i)
}

pub open spec fn touch(e: sums::Edge, i: int) -> int {
    (if e.0 == i {
        e.2
    } else {
        0
    }) + (if e.1 == i {
        e.2
    } else {
        0
    })
}

pub open spec fn touch_at(i: int) -> spec_fn(sums::Edge) -> int {
    |e: sums::Edge| touch(e, i)
}

/// Weighted degree `k_i`: the weight of the edge ends at `i`, plus twice what lies inside `i`.
pub open spec fn degree(l: Level, i: int) -> int {
    sums::sum_edges(l.edges, touch_at(i)) + 2 * l.loops[i]
}

pub open spec fn degrees(l: Level) -> spec_fn(int) -> int {
    |i: int| degree(l, i)
}

/// `2m`: the sum of all weighted degrees.
pub open spec fn two_m(l: Level) -> int {
    sums::sum_to(l.n, degrees(l))
}

pub open spec fn link(e: sums::Edge, comm: Seq<int>, i: int, c: int) -> int {
    (if e.0 == i && comm[e.1] == c {
        e.2
    } else {
        0
    }) + (if e.1 == i && comm[e.0] == c {
        e.2
    } else {
        0
    })
}

pub open spec fn links_to(comm: Seq<int>, i: int, c: int) -> spec_fn(sums::Edge) -> int {
    |e: sums::Edge| link(e, comm, i, c)
}

/// `k_{i,in}`: the weight of the edges from `i` into community `c`.
pub open spec fn weight_into(l: Level, comm: Seq<int>, i: int, c: int) -> int {
    sums::sum_edges(l.edges, links_to(comm, i, c))
}

pub open spec fn if_in(b: bool, x: int) -> int {
    if b {
        x
    } else {
        0
    }
}

pub open spec fn member_degrees(l: Level, comm: Seq<int>, c: int) -> spec_fn(int) -> int {
    |i: int| if_in(comm[i] == c, degree(l, i))
}

/// `Sigma_tot`: the sum of the degrees of the members of community `c`.
pub open spec fn total(l: Level, comm: Seq<int>, c: int) -> int {
    sums::sum_to(l.n, member_degrees(l, comm, c))
}

pub open spec fn inside(e: sums::Edge, comm: Seq<int>) -> int {
    if_in(comm[e.0] == comm[e.1], e.2)
}

pub open spec fn inside_of(comm: Seq<int>) -> spec_fn(sums::Edge) -> int {
    |e: sums::Edge| inside(e, comm)
}

pub open spec fn edge_weight() -> spec_fn(sums::Edge) -> int {
    |e: sums::Edge| e.2
}

pub open spec fn loop_weights(l: Level) -> spec_fn(int) -> int {
    |i: int| l.loops[i]
}

/// The weight of the edges whose two ends share a community, and of all loops.
pub open spec fn internal(l: Level, comm: Seq<int>) -> int {
    sums::sum_edges(l.edges, inside_of(comm)) + sums::sum_to(l.n, loop_weights(l))
}

pub open spec fn product_terms(l: Level, comm: Seq<int>) -> spec_fn(int) -> int {
    |i: int| degree(l, i) * total(l, comm, comm[i])
}

/// `sum over i, j in the same community of k_i * k_j`.
pub open spec fn degree_product(l: Level, comm: Seq<int>) -> int {
    sums::sum_to(l.n, product_terms(l, comm))
}

/// Modularity times `(2m)^2`:
/// `2m * (sum over i, j in the same community of A_ij) - (sum over the same of k_i * k_j)`.
pub open spec fn score(l: Level, comm: Seq<int>) -> int {
    two_m(l) * (2 * internal(l, comm)) - degree_product(l, comm)
}

/// What node `i` gains, up to the positive factor `1 / (m * 2m)`, by being placed in
/// community `c` after it has been taken out of its own:
/// `2m * k_{i,in} - Sigma_tot * k_i`.
pub open spec fn gain(l: Level, comm: Seq<int>, i: int, c: int) -> int {
    weight_into(l, comm, i, c) * two_m(l) - (total(l, comm, c) - if_in(comm[i] == c, degree(l, i)))
        * degree(l, i)
}

pub proof fn lemma_degree_nonneg(l: Level, i: int)
    requires
        l.wf(),
        0 <= i < l.n,
    ensures
        0 <= degree(l, i),
{
    sums::lemma_sum_edges_nonneg(l.edges, touch_at(i));
    assert(0 <= l.loops[i]);
}

/// No part exceeds the whole: one degree and one community's total are at most `2m`.
pub proof fn lemma_bounds(l: Level, comm: Seq<int>, i: int, c: int)
    requires
        l.wf(),
        0 <= i < l.n,
    ensures
        0 <= degree(l, i) <= two_m(l),
        0 <= total(l, comm, c) <= two_m(l),
        0 <= weight_into(l, comm, i, c) <= degree(l, i),
        comm[i] == c ==> degree(l, i) <= total(l, comm, c),
{
    let deg = degrees(l);
    let part = member_degrees(l, comm, c);
    assert forall|j: int| 0 <= j < l.n implies 0 <= #[trigger] deg(j) by {
        lemma_degree_nonneg(l, j);
    }
    assert forall|j: int| 0 <= j < l.n implies 0 <= #[trigger] part(j) <= deg(j) by {
        lemma_degree_nonneg(l, j);
    }
    assert(deg(i) == degree(l, i));
    assert(part(i) == if_in(comm[i] == c, degree(l, i)));
    sums::lemma_sum_to_term(l.n, i, deg);
    sums::lemma_sum_to_term(l.n, i, part);
    sums::lemma_sum_to_nonneg(l.n, part);
    sums::lemma_sum_to_le(l.n, part, deg);
    sums::lemma_sum_edges_nonneg(l.edges, links_to(comm, i, c));
    sums::lemma_sum_edges_le(l.edges, links_to(comm, i, c), touch_at(i));
    assert(0 <= l.loops[i]);
}

/// `2m` counts every edge weight twice, and every loop twice.
pub proof fn lemma_two_m(l: Level)
    requires
        l.wf(),
    ensures
        two_m(l) == 2 * (sums::sum_edges(l.edges, edge_weight()) + sums::sum_to(
            l.n,
            loop_weights(l),
        )),
{
    let ends = |i: int| sums::sum_edges(l.edges, touch_at(i));
    let loops = loop_weights(l);
    let inner = |i: int| 2 * loops(i);
    sums::lemma_sum_to_ext(l.n, degrees(l), |i: int| ends(i) + inner(i));
    sums::lemma_sum_to_add(l.n, ends, inner);
    sums::lemma_sum_to_scale(l.n, 2, loops);
    let t = |e: sums::Edge, i: int| touch(e, i);
    let by_node = |i: int| sums::sum_edges(l.edges, |e: sums::Edge| t(e, i));
    let by_edge = |e: sums::Edge| sums::sum_to(l.n, |i: int| t(e, i));
    sums::lemma_sum_swap(l.n, l.edges, t);
    assert forall|i: int| 0 <= i < l.n implies #[trigger] ends(i) == by_node(i) by {
        sums::lemma_sum_edges_ext(l.edges, touch_at(i), |e: sums::Edge| t(e, i));
    }
    sums::lemma_sum_to_ext(l.n, ends, by_node);
    let w = edge_weight();
    let twice = |e: sums::Edge| w(e) + w(e);
    assert forall|k: int| 0 <= k < l.edges.len() implies by_edge(#[trigger] l.edges[k]) == twice(
        l.edges[k],
    ) by {
        let e = l.edges[k];
        lemma_touch_sum(l.n, e);
        sums::lemma_sum_to_ext(l.n, |i: int| t(e, i), |i: int| touch(e, i));
    }
    sums::lemma_sum_edges_ext(l.edges, by_edge, twice);
    sums::lemma_sum_edges_add(l.edges, w, w);
}

/// An edge has two ends.
proof fn lemma_touch_sum(n: int, e: sums::Edge)
    requires
        0 <= e.0 < n,
        0 <= e.1 < n,
    ensures
        sums::sum_to(n, |i: int| touch(e, i)) == e.2 + e.2,
{
    let f = |i: int| if_in(e.0 == i, e.2);
    let g = |i: int| if_in(e.1 == i, e.2);
    sums::lemma_sum_to_single(n, e.0, f);
    sums::lemma_sum_to_single(n, e.1, g);
    sums::lemma_sum_to_add(n, f, g);
    sums::lemma_sum_to_ext(n, |i: int| touch(e, i), |i: int| f(i) + g(i));
}

/// The score of an assignment never exceeds `(2m)^2`: modularity is at most one.
pub proof fn lemma_score_bound(l: Level, comm: Seq<int>)
    requires
        l.wf(),
    ensures
        score(l, comm) <= two_m(l) * two_m(l),
{
    lemma_two_m(l);
    sums::lemma_sum_edges_le(l.edges, inside_of(comm), edge_weight());
    let prod = product_terms(l, comm);
    assert forall|i: int| 0 <= i < l.n implies 0 <= #[trigger] prod(i) by {
        lemma_bounds(l, comm, i, comm[i]);
        let d = degree(l, i);
        let t = total(l, comm, comm[i]);
        assert(0 <= d * t) by (nonlinear_arith)
            requires
                0 <= d,
                0 <= t,
        ;
    }
    sums::lemma_sum_to_nonneg(l.n, prod);
    let deg = degrees(l);
    assert forall|i: int| 0 <= i < l.n implies 0 <= #[trigger] deg(i) by {
        lemma_degree_nonneg(l, i);
    }
    sums::lemma_sum_to_nonneg(l.n, deg);
    let m2 = two_m(l);
    let a = 2 * internal(l, comm);
    assert(m2 * a <= m2 * m2) by (nonlinear_arith)
        requires
            0 <= m2,
            a <= m2,
    ;
}

/// How the total of any community changes when node `x` moves to community `d`.
pub proof fn lemma_total_move(l: Level, comm: Seq<int>, x: int, d: int, c: int)
    requires
        comm.len() == l.n,
        0 <= x < l.n,
    ensures
        total(l, comm.update(x, d), c) == total(l, comm, c) + if_in(d == c, degree(l, x)) - if_in(
            comm[x] == c,
            degree(l, x),
        ),
{
    let next = comm.update(x, d);
    let f = member_degrees(l, comm, c);
    let g = member_degrees(l, next, c);
    assert forall|i: int| 0 <= i < l.n && i != x implies #[trigger] f(i) == g(i) by {
        assert(next[i] == comm[i]);
    }
    sums::lemma_sum_to_change(l.n, x, f, g);
    assert(f(x) == if_in(comm[x] == c, degree(l, x)));
    assert(g(x) == if_in(d == c, degree(l, x)));
}

/// How the degree product changes when node `x` moves to another community `d`.
pub proof fn lemma_product_move(l: Level, comm: Seq<int>, x: int, d: int)
    requires
        comm.len() == l.n,
        0 <= x < l.n,
        comm[x] != d,
    ensures
        degree_product(l, comm.update(x, d)) == degree_product(l, comm) + 2 * (degree(l, x) * (total(
            l,
            comm,
            d,
        ) - (total(l, comm, comm[x]) - degree(l, x)))),
{
    let c = comm[x];
    let next = comm.update(x, d);
    let kx = degree(l, x);
    let before = product_terms(l, comm);
    let after = product_terms(l, next);
    let into_d = member_degrees(l, comm, d);
    let into_c = member_degrees(l, comm, c);
    // For every other node the product changes by `kx * k_i` if it shares `d`, and by
    // `-kx * k_i` if it shares `c`.
    let up = |i: int| kx * into_d(i);
    let down = |i: int| (-kx) * into_c(i);
    let delta = |i: int| up(i) + down(i);
    let changed = |i: int| before(i) + delta(i);
    assert forall|i: int| 0 <= i < l.n && i != x implies #[trigger] after(i) == changed(i) by {
        assert(next[i] == comm[i]);
        lemma_total_move(l, comm, x, d, comm[i]);
        let ki = degree(l, i);
        let t = total(l, comm, comm[i]);
        if comm[i] == d {
            assert(ki * (t + kx) == ki * t + kx * ki) by (nonlinear_arith);
        } else if comm[i] == c {
            assert(ki * (t - kx) == ki * t + (-kx) * ki) by (nonlinear_arith);
        }
        assert(kx * 0 == 0) by (nonlinear_arith);
        assert((-kx) * 0 == 0) by (nonlinear_arith);
    }
    sums::lemma_sum_to_change(l.n, x, after, changed);
    sums::lemma_sum_to_add(l.n, before, delta);
    sums::lemma_sum_to_ext(l.n, changed, |i: int| before(i) + delta(i));
    sums::lemma_sum_to_add(l.n, up, down);
    sums::lemma_sum_to_ext(l.n, delta, |i: int| up(i) + down(i));
    sums::lemma_sum_to_scale(l.n, kx, into_d);
    sums::lemma_sum_to_scale(l.n, -kx, into_c);
    lemma_total_move(l, comm, x, d, d);
    let td = total(l, comm, d);
    let tc = total(l, comm, c);
    assert(after(x) == kx * (td + kx));
    assert(before(x) == kx * tc);
    assert(delta(x) == kx * 0 + (-kx) * kx);
    assert(degree_product(l, next) == degree_product(l, comm) + kx * td + (-kx) * tc + kx * (td
        + kx) - kx * tc - (kx * 0 + (-kx) * kx));
    assert(kx * td + (-kx) * tc + kx * (td + kx) - kx * tc - (kx * 0 + (-kx) * kx) == 2 * (kx * (td
        - (tc - kx)))) by (nonlinear_arith);
}

/// The internal weight grows by at least what `x` links into `d`, less what it links into its
/// old community.
proof fn lemma_internal_move(l: Level, comm: Seq<int>, x: int, d: int)
    requires
        l.wf(),
        comm.len() == l.n,
        0 <= x < l.n,
        comm[x] != d,
    ensures
        internal(l, comm.update(x, d)) >= internal(l, comm) + weight_into(l, comm, x, d)
            - weight_into(l, comm, x, comm[x]),
{
    let c = comm[x];
    let next = comm.update(x, d);
    let f = inside_of(comm);
    let g = inside_of(next);
    let from = links_to(comm, x, c);
    let to = links_to(comm, x, d);
    let lhs = |e: sums::Edge| g(e) + from(e);
    let rhs = |e: sums::Edge| f(e) + to(e);
    assert forall|k: int| 0 <= k < l.edges.len() implies rhs(#[trigger] l.edges[k]) <= lhs(
        l.edges[k],
    ) by {
        let e = l.edges[k];
        assert(0 <= e.0 < l.n && 0 <= e.1 < l.n && 0 <= e.2);
    }
    sums::lemma_sum_edges_le(l.edges, rhs, lhs);
    sums::lemma_sum_edges_add(l.edges, g, from);
    sums::lemma_sum_edges_add(l.edges, f, to);
    sums::lemma_sum_edges_ext(l.edges, lhs, |e: sums::Edge| g(e) + from(e));
    sums::lemma_sum_edges_ext(l.edges, rhs, |e: sums::Edge| f(e) + to(e));
}

/// Moving a node raises the score by at least twice the difference of the two gains.
pub proof fn lemma_move_gain(l: Level, comm: Seq<int>, x: int, d: int)
    requires
        l.wf(),
        comm.len() == l.n,
        0 <= x < l.n,
        comm[x] != d,
    ensures
        score(l, comm.update(x, d)) >= score(l, comm) + 2 * (gain(l, comm, x, d) - gain(
            l,
            comm,
            x,
            comm[x],
        )),
{
    let c = comm[x];
    let next = comm.update(x, d);
    lemma_internal_move(l, comm, x, d);
    lemma_product_move(l, comm, x, d);
    lemma_bounds(l, comm, x, c);
    let m2 = two_m(l);
    let kx = degree(l, x);
    let td = total(l, comm, d);
    let tc = total(l, comm, c);
    let wd = weight_into(l, comm, x, d);
    let wc = weight_into(l, comm, x, c);
    let i0 = internal(l, comm);
    let i1 = internal(l, next);
    assert(gain(l, comm, x, d) == wd * m2 - (td - 0) * kx);
    assert(gain(l, comm, x, c) == wc * m2 - (tc - kx) * kx);
    assert(m2 * (2 * i1) >= m2 * (2 * i0) + 2 * (wd * m2 - wc * m2)) by (nonlinear_arith)
        requires
            i1 >= i0 + wd - wc,
            0 <= m2,
    ;
    assert(2 * (kx * (td - (tc - kx))) == 2 * ((td - 0) * kx - (tc - kx) * kx))
        by (nonlinear_arith);
}

} // verus!
