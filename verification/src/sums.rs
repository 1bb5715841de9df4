//! Finite sums over index ranges and over weighted edge lists.

use vstd::prelude::*;

verus! {

/// A weighted edge `(a, b, w)` between the nodes `a` and `b`.
pub type Edge = (int, int, int);

/// `f(0) + f(1) + ... + f(n - 1)`.
pub open spec fn sum_to(n: int, f: spec_fn(int) -> int) -> int
    decreases n,
{
    if n <= 0 {
        0
    } else {
        sum_to(n - 1, f) + f(n - 1)
    }
}

/// The sum of `f` over every edge of the list.
pub open spec fn sum_edges(edges: Seq<Edge>, f: spec_fn(Edge) -> int) -> int
    decreases edges.len(),
{
    if edges.len() == 0 {
        0
    } else {
        sum_edges(edges.drop_last(), f) + f(edges.last())
    }
}

pub proof fn lemma_sum_to_ext(n: int, f: spec_fn(int) -> int, g: spec_fn(int) -> int)
    requires
        forall|i: int| 0 <= i < n ==> #[trigger] f(i) == g(i),
    ensures
        sum_to(n, f) == sum_to(n, g),
    decreases n,
{
    if n > 0 {
        lemma_sum_to_ext(n - 1, f, g);
        assert(f(n - 1) == g(n - 1));
    }
}

pub proof fn lemma_sum_to_le(n: int, f: spec_fn(int) -> int, g: spec_fn(int) -> int)
    requires
        forall|i: int| 0 <= i < n ==> #[trigger] f(i) <= g(i),
    ensures
        sum_to(n, f) <= sum_to(n, g),
    decreases n,
{
    if n > 0 {
        lemma_sum_to_le(n - 1, f, g);
        assert(f(n - 1) <= g(n - 1));
    }
}

pub proof fn lemma_sum_to_add(n: int, f: spec_fn(int) -> int, g: spec_fn(int) -> int)
    ensures
        sum_to(n, |i: int| f(i) + g(i)) == sum_to(n, f) + sum_to(n, g),
    decreases n,
{
    if n > 0 {
        lemma_sum_to_add(n - 1, f, g);
    }
}

pub proof fn lemma_sum_to_scale(n: int, k: int, f: spec_fn(int) -> int)
    ensures
        sum_to(n, |i: int| k * f(i)) == k * sum_to(n, f),
    decreases n,
{
    let g = |i: int| k * f(i);
    if n > 0 {
        lemma_sum_to_scale(n - 1, k, f);
        assert(k * (sum_to(n - 1, f) + f(n - 1)) == k * sum_to(n - 1, f) + k * f(n - 1))
            by (nonlinear_arith);
    } else {
        assert(k * 0 == 0) by (nonlinear_arith);
    }
}

pub proof fn lemma_sum_to_zero(n: int, f: spec_fn(int) -> int)
    requires
        forall|i: int| 0 <= i < n ==> #[trigger] f(i) == 0,
    ensures
        sum_to(n, f) == 0,
    decreases n,
{
    if n > 0 {
        lemma_sum_to_zero(n - 1, f);
        assert(f(n - 1) == 0);
    }
}

pub proof fn lemma_sum_to_nonneg(n: int, f: spec_fn(int) -> int)
    requires
        forall|i: int| 0 <= i < n ==> 0 <= #[trigger] f(i),
    ensures
        0 <= sum_to(n, f),
    decreases n,
{
    if n > 0 {
        lemma_sum_to_nonneg(n - 1, f);
        assert(0 <= f(n - 1));
    }
}

/// Only the term at `x` is non-zero.
pub proof fn lemma_sum_to_single(n: int, x: int, f: spec_fn(int) -> int)
    requires
        0 <= x < n,
        forall|i: int| 0 <= i < n && i != x ==> #[trigger] f(i) == 0,
    ensures
        sum_to(n, f) == f(x),
    decreases n,
{
    if x == n - 1 {
        lemma_sum_to_zero(n - 1, f);
    } else {
        lemma_sum_to_single(n - 1, x, f);
        assert(f(n - 1) == 0);
    }
}

/// One term of a sum of non-negative terms is at most the sum.
pub proof fn lemma_sum_to_term(n: int, x: int, f: spec_fn(int) -> int)
    requires
        0 <= x < n,
        forall|i: int| 0 <= i < n ==> 0 <= #[trigger] f(i),
    ensures
        f(x) <= sum_to(n, f),
    decreases n,
{
    if x == n - 1 {
        lemma_sum_to_nonneg(n - 1, f);
    } else {
        lemma_sum_to_term(n - 1, x, f);
        assert(0 <= f(n - 1));
    }
}

/// The sums differ only in the term at `x`.
pub proof fn lemma_sum_to_change(n: int, x: int, f: spec_fn(int) -> int, g: spec_fn(int) -> int)
    requires
        0 <= x < n,
        forall|i: int| 0 <= i < n && i != x ==> #[trigger] f(i) == g(i),
    ensures
        sum_to(n, f) - f(x) == sum_to(n, g) - g(x),
    decreases n,
{
    if x == n - 1 {
        lemma_sum_to_ext(n - 1, f, g);
    } else {
        lemma_sum_to_change(n - 1, x, f, g);
        assert(f(n - 1) == g(n - 1));
    }
}

pub proof fn lemma_sum_edges_ext(edges: Seq<Edge>, f: spec_fn(Edge) -> int, g: spec_fn(Edge) -> int)
    requires
        forall|k: int| 0 <= k < edges.len() ==> f(#[trigger] edges[k]) == g(edges[k]),
    ensures
        sum_edges(edges, f) == sum_edges(edges, g),
    decreases edges.len(),
{
    if edges.len() > 0 {
        let rest = edges.drop_last();
        assert forall|k: int| 0 <= k < rest.len() implies f(#[trigger] rest[k]) == g(rest[k]) by {
            assert(rest[k] == edges[k]);
        }
        lemma_sum_edges_ext(rest, f, g);
        assert(edges.last() == edges[edges.len() - 1]);
    }
}

pub proof fn lemma_sum_edges_le(edges: Seq<Edge>, f: spec_fn(Edge) -> int, g: spec_fn(Edge) -> int)
    requires
        forall|k: int| 0 <= k < edges.len() ==> f(#[trigger] edges[k]) <= g(edges[k]),
    ensures
        sum_edges(edges, f) <= sum_edges(edges, g),
    decreases edges.len(),
{
    if edges.len() > 0 {
        let rest = edges.drop_last();
        assert forall|k: int| 0 <= k < rest.len() implies f(#[trigger] rest[k]) <= g(rest[k]) by {
            assert(rest[k] == edges[k]);
        }
        lemma_sum_edges_le(rest, f, g);
        assert(edges.last() == edges[edges.len() - 1]);
    }
}

pub proof fn lemma_sum_edges_nonneg(edges: Seq<Edge>, f: spec_fn(Edge) -> int)
    requires
        forall|k: int| 0 <= k < edges.len() ==> 0 <= f(#[trigger] edges[k]),
    ensures
        0 <= sum_edges(edges, f),
    decreases edges.len(),
{
    lemma_sum_edges_none(edges, |e: Edge| 0int);
    lemma_sum_edges_le(edges, |e: Edge| 0int, f);
}

pub proof fn lemma_sum_edges_none(edges: Seq<Edge>, f: spec_fn(Edge) -> int)
    requires
        forall|k: int| 0 <= k < edges.len() ==> f(#[trigger] edges[k]) == 0,
    ensures
        sum_edges(edges, f) == 0,
    decreases edges.len(),
{
    if edges.len() > 0 {
        assert forall|k: int| 0 <= k < edges.drop_last().len() implies f(
            #[trigger] edges.drop_last()[k],
        ) == 0 by {
            assert(edges.drop_last()[k] == edges[k]);
        }
        lemma_sum_edges_none(edges.drop_last(), f);
        assert(edges.last() == edges[edges.len() - 1]);
    }
}

pub proof fn lemma_sum_edges_add(edges: Seq<Edge>, f: spec_fn(Edge) -> int, g: spec_fn(Edge) -> int)
    ensures
        sum_edges(edges, |e: Edge| f(e) + g(e)) == sum_edges(edges, f) + sum_edges(edges, g),
    decreases edges.len(),
{
    if edges.len() > 0 {
        lemma_sum_edges_add(edges.drop_last(), f, g);
    }
}

/// Summing over nodes and then edges is summing over edges and then nodes.
pub proof fn lemma_sum_swap(n: int, edges: Seq<Edge>, f: spec_fn(Edge, int) -> int)
    ensures
        sum_to(n, |i: int| sum_edges(edges, |e: Edge| f(e, i))) == sum_edges(
            edges,
            |e: Edge| sum_to(n, |i: int| f(e, i)),
        ),
    decreases edges.len(),
{
    let by_node = |i: int| sum_edges(edges, |e: Edge| f(e, i));
    if edges.len() == 0 {
        lemma_sum_to_zero(n, by_node);
    } else {
        let rest = edges.drop_last();
        let last = edges.last();
        let head = |i: int| sum_edges(rest, |e: Edge| f(e, i));
        let tail = |i: int| f(last, i);
        lemma_sum_swap(n, rest, f);
        lemma_sum_to_add(n, head, tail);
        lemma_sum_to_ext(n, by_node, |i: int| head(i) + tail(i));
    }
}

/// Replacing one edge replaces its term.
pub proof fn lemma_sum_edges_update(edges: Seq<Edge>, k: int, e: Edge, f: spec_fn(Edge) -> int)
    requires
        0 <= k < edges.len(),
    ensures
        sum_edges(edges.update(k, e), f) == sum_edges(edges, f) - f(edges[k]) + f(e),
    decreases edges.len(),
{
    let after = edges.update(k, e);
    if k == edges.len() - 1 {
        assert(after.drop_last() =~= edges.drop_last());
    } else {
        assert(after.drop_last() =~= edges.drop_last().update(k, e));
        lemma_sum_edges_update(edges.drop_last(), k, e, f);
    }
}

} // verus!
