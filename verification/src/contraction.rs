//! Contracting communities into super-nodes changes neither degrees nor modularity.

use crate::level;
use crate::louvain;
use crate::sums;
use vstd::prelude::*;

verus! {

/// `r` sorts the nodes of `l` into the groups `0..m`.
pub open spec fn grouping(l: level::Level, r: Seq<int>, m: int) -> bool {
    &&& r.len() == l.n
    &&& forall|i: int| 0 <= i < l.n ==> 0 <= #[trigger] r[i] < m
}

spec fn part(r: Seq<int>, f: spec_fn(int) -> int, c: int) -> spec_fn(int) -> int {
    |i: int| level::if_in(r[i] == c, f(i))
}

spec fn parts(n: int, r: Seq<int>, f: spec_fn(int) -> int) -> spec_fn(int) -> int {
    |c: int| sums::sum_to(n, part(r, f, c))
}

/// Summing group by group is summing over all nodes.
proof fn lemma_partition(n: int, m: int, r: Seq<int>, f: spec_fn(int) -> int)
    requires
        0 <= n <= r.len(),
        forall|i: int| 0 <= i < n ==> 0 <= #[trigger] r[i] < m,
    ensures
        sums::sum_to(m, parts(n, r, f)) == sums::sum_to(n, f),
    decreases n,
{
    if n == 0 {
        sums::lemma_sum_to_zero(m, parts(0, r, f));
    } else {
        let x = n - 1;
        let before = parts(x, r, f);
        let last = |c: int| level::if_in(r[x] == c, f(x));
        lemma_partition(x, m, r, f);
        assert forall|c: int| 0 <= c < m implies #[trigger] parts(n, r, f)(c) == (|c: int|
            before(c) + last(c))(c) by {
            assert(part(r, f, c)(x) == last(c));
        }
        sums::lemma_sum_to_ext(m, parts(n, r, f), |c: int| before(c) + last(c));
        sums::lemma_sum_to_add(m, before, last);
        assert(0 <= r[x] < m);
        sums::lemma_sum_to_single(m, r[x], last);
    }
}

spec fn lifted(r: Seq<int>, f: spec_fn(sums::Edge) -> int) -> spec_fn(sums::Edge) -> int {
    |e: sums::Edge|
        if r[e.0] == r[e.1] {
            0
        } else {
            f((r[e.0], r[e.1], e.2))
        }
}

proof fn lemma_crossing_sum(edges: Seq<sums::Edge>, r: Seq<int>, f: spec_fn(sums::Edge) -> int)
    ensures
        sums::sum_edges(louvain::crossing(edges, r), f) == sums::sum_edges(edges, lifted(r, f)),
    decreases edges.len(),
{
    if edges.len() > 0 {
        lemma_crossing_sum(edges.drop_last(), r, f);
        let rest = louvain::crossing(edges.drop_last(), r);
        let e = edges.last();
        if r[e.0] != r[e.1] {
            let all = louvain::crossing(edges, r);
            assert(all.drop_last() =~= rest);
            assert(all.last() == (r[e.0], r[e.1], e.2));
        }
    }
}

/// Every crossing edge comes from an edge.
proof fn lemma_crossing_from(edges: Seq<sums::Edge>, r: Seq<int>, k: int) -> (j: int)
    requires
        0 <= k < louvain::crossing(edges, r).len(),
    ensures
        0 <= j < edges.len(),
        r[edges[j].0] != r[edges[j].1],
        louvain::crossing(edges, r)[k] == (r[edges[j].0], r[edges[j].1], edges[j].2),
    decreases edges.len(),
{
    let rest = louvain::crossing(edges.drop_last(), r);
    if k < rest.len() {
        let j = lemma_crossing_from(edges.drop_last(), r, k);
        assert(edges.drop_last()[j] == edges[j]);
        j
    } else {
        edges.len() - 1
    }
}

pub proof fn lemma_contract_wf(l: level::Level, r: Seq<int>, m: int)
    requires
        l.wf(),
        grouping(l, r, m),
        0 <= m,
    ensures
        louvain::contract(l, r, m).wf(),
        louvain::contract(l, r, m).simple(),
{
    let up = louvain::contract(l, r, m);
    assert forall|k: int| 0 <= k < up.edges.len() implies {
        &&& 0 <= (#[trigger] up.edges[k]).0 < m
        &&& 0 <= up.edges[k].1 < m
        &&& 0 <= up.edges[k].2
        &&& up.edges[k].0 != up.edges[k].1
    } by {
        let j = lemma_crossing_from(l.edges, r, k);
        let e = l.edges[j];
        assert(0 <= e.0 < l.n && 0 <= e.1 < l.n && 0 <= e.2);
        assert(0 <= r[e.0] < m && 0 <= r[e.1] < m);
    }
    assert forall|c: int| 0 <= c < m implies 0 <= #[trigger] up.loops[c] by {
        sums::lemma_sum_to_nonneg(l.n, louvain::member_loops(l, r, c));
        sums::lemma_sum_edges_nonneg(l.edges, louvain::inside_group(r, c));
    }
}

/// The degree of a super-node is the total of its group.
pub proof fn lemma_contract_degree(l: level::Level, r: Seq<int>, m: int, c: int)
    requires
        l.wf(),
        grouping(l, r, m),
        0 <= c < m,
    ensures
        level::degree(louvain::contract(l, r, m), c) == level::total(l, r, c),
{
    // The total of the group, split into edge ends and loops.
    let ends = |i: int| level::if_in(r[i] == c, sums::sum_edges(l.edges, level::touch_at(i)));
    let loops = louvain::member_loops(l, r, c);
    let loops2 = |i: int| 2 * loops(i);
    assert forall|i: int| 0 <= i < l.n implies #[trigger] level::member_degrees(l, r, c)(i) == (
    |i: int| ends(i) + loops2(i))(i) by {}
    sums::lemma_sum_to_ext(l.n, level::member_degrees(l, r, c), |i: int| ends(i) + loops2(i));
    sums::lemma_sum_to_add(l.n, ends, loops2);
    sums::lemma_sum_to_scale(l.n, 2, loops);
    // The edge ends, counted edge by edge.
    let t = |e: sums::Edge, i: int| level::if_in(r[i] == c, level::touch(e, i));
    let by_node = |i: int| sums::sum_edges(l.edges, |e: sums::Edge| t(e, i));
    let by_edge = |e: sums::Edge| sums::sum_to(l.n, |i: int| t(e, i));
    sums::lemma_sum_swap(l.n, l.edges, t);
    assert forall|i: int| 0 <= i < l.n implies #[trigger] ends(i) == by_node(i) by {
        if r[i] == c {
            sums::lemma_sum_edges_ext(l.edges, level::touch_at(i), |e: sums::Edge| t(e, i));
        } else {
            sums::lemma_sum_edges_none(l.edges, |e: sums::Edge| t(e, i));
        }
    }
    sums::lemma_sum_to_ext(l.n, ends, by_node);
    // Each edge contributes its ends in the group: those of the crossing edges, and both ends
    // of the edges inside.
    let cross = lifted(r, level::touch_at(c));
    let within = louvain::inside_group(r, c);
    let twice = |e: sums::Edge| within(e) + within(e);
    assert forall|k: int| 0 <= k < l.edges.len() implies by_edge(#[trigger] l.edges[k]) == (
    |e: sums::Edge| cross(e) + twice(e))(l.edges[k]) by {
        let e = l.edges[k];
        assert(0 <= e.0 < l.n && 0 <= e.1 < l.n);
        let a = |i: int| level::if_in(e.0 == i, level::if_in(r[i] == c, e.2));
        let b = |i: int| level::if_in(e.1 == i, level::if_in(r[i] == c, e.2));
        sums::lemma_sum_to_single(l.n, e.0, a);
        sums::lemma_sum_to_single(l.n, e.1, b);
        sums::lemma_sum_to_add(l.n, a, b);
        sums::lemma_sum_to_ext(l.n, |i: int| t(e, i), |i: int| a(i) + b(i));
    }
    sums::lemma_sum_edges_ext(l.edges, by_edge, |e: sums::Edge| cross(e) + twice(e));
    sums::lemma_sum_edges_add(l.edges, cross, twice);
    sums::lemma_sum_edges_add(l.edges, within, within);
    lemma_crossing_sum(l.edges, r, level::touch_at(c));
}

pub proof fn lemma_contract_two_m(l: level::Level, r: Seq<int>, m: int)
    requires
        l.wf(),
        grouping(l, r, m),
    ensures
        level::two_m(louvain::contract(l, r, m)) == level::two_m(l),
{
    let up = louvain::contract(l, r, m);
    let deg = level::degrees(l);
    assert forall|c: int| 0 <= c < m implies #[trigger] level::degrees(up)(c) == parts(
        l.n,
        r,
        deg,
    )(c) by {
        lemma_contract_degree(l, r, m, c);
        sums::lemma_sum_to_ext(l.n, level::member_degrees(l, r, c), part(r, deg, c));
    }
    sums::lemma_sum_to_ext(m, level::degrees(up), parts(l.n, r, deg));
    lemma_partition(l.n, m, r, deg);
}

/// A community of super-nodes has the total of the nodes below it.
pub proof fn lemma_contract_total(l: level::Level, r: Seq<int>, m: int, up: Seq<int>, d: int)
    requires
        l.wf(),
        grouping(l, r, m),
        up.len() == m,
    ensures
        level::total(louvain::contract(l, r, m), up, d) == level::total(
            l,
            louvain::compose(up, r),
            d,
        ),
{
    let top = louvain::contract(l, r, m);
    let comp = louvain::compose(up, r);
    let f = level::member_degrees(l, comp, d);
    assert forall|c: int| 0 <= c < m implies #[trigger] level::member_degrees(top, up, d)(c)
        == parts(l.n, r, f)(c) by {
        lemma_contract_degree(l, r, m, c);
        if up[c] == d {
            assert forall|i: int| 0 <= i < l.n implies #[trigger] level::member_degrees(l, r, c)(
                i,
            ) == part(r, f, c)(i) by {
                assert(comp[i] == up[r[i]]);
            }
            sums::lemma_sum_to_ext(l.n, level::member_degrees(l, r, c), part(r, f, c));
        } else {
            assert forall|i: int| 0 <= i < l.n implies #[trigger] part(r, f, c)(i) == 0 by {
                assert(comp[i] == up[r[i]]);
            }
            sums::lemma_sum_to_zero(l.n, part(r, f, c));
        }
    }
    sums::lemma_sum_to_ext(m, level::member_degrees(top, up, d), parts(l.n, r, f));
    lemma_partition(l.n, m, r, f);
}

proof fn lemma_contract_product(l: level::Level, r: Seq<int>, m: int, up: Seq<int>)
    requires
        l.wf(),
        grouping(l, r, m),
        up.len() == m,
    ensures
        level::degree_product(louvain::contract(l, r, m), up) == level::degree_product(
            l,
            louvain::compose(up, r),
        ),
{
    let top = louvain::contract(l, r, m);
    let comp = louvain::compose(up, r);
    let f = level::product_terms(l, comp);
    assert forall|c: int| 0 <= c < m implies #[trigger] level::product_terms(top, up)(c) == parts(
        l.n,
        r,
        f,
    )(c) by {
        lemma_contract_degree(l, r, m, c);
        let t = level::total(top, up, up[c]);
        let members = level::member_degrees(l, r, c);
        sums::lemma_sum_to_scale(l.n, t, members);
        assert forall|i: int| 0 <= i < l.n implies #[trigger] part(r, f, c)(i) == (|i: int|
            t * members(i))(i) by {
            assert(comp[i] == up[r[i]]);
            if r[i] == c {
                lemma_contract_total(l, r, m, up, up[c]);
                let k = level::degree(l, i);
                assert(k * t == t * k) by (nonlinear_arith);
            } else {
                assert(t * 0 == 0) by (nonlinear_arith);
            }
        }
        sums::lemma_sum_to_ext(l.n, part(r, f, c), |i: int| t * members(i));
        let d = level::degree(top, c);
        assert(d * t == t * d) by (nonlinear_arith);
    }
    sums::lemma_sum_to_ext(m, level::product_terms(top, up), parts(l.n, r, f));
    lemma_partition(l.n, m, r, f);
}

proof fn lemma_contract_internal(l: level::Level, r: Seq<int>, m: int, up: Seq<int>)
    requires
        l.wf(),
        grouping(l, r, m),
        up.len() == m,
    ensures
        level::internal(louvain::contract(l, r, m), up) == level::internal(
            l,
            louvain::compose(up, r),
        ),
{
    let top = louvain::contract(l, r, m);
    let comp = louvain::compose(up, r);
    // The loops of the super-nodes: all loops, and the edges inside the groups.
    let loops = level::loop_weights(l);
    let inner = |c: int| sums::sum_edges(l.edges, louvain::inside_group(r, c));
    assert forall|c: int| 0 <= c < m implies #[trigger] level::loop_weights(top)(c) == (|c: int|
        parts(l.n, r, loops)(c) + inner(c))(c) by {
        sums::lemma_sum_to_ext(l.n, louvain::member_loops(l, r, c), part(r, loops, c));
    }
    sums::lemma_sum_to_ext(
        m,
        level::loop_weights(top),
        |c: int| parts(l.n, r, loops)(c) + inner(c),
    );
    sums::lemma_sum_to_add(m, parts(l.n, r, loops), inner);
    lemma_partition(l.n, m, r, loops);
    let t = |e: sums::Edge, c: int| level::if_in(r[e.0] == c && r[e.1] == c, e.2);
    let by_group = |c: int| sums::sum_edges(l.edges, |e: sums::Edge| t(e, c));
    let by_edge = |e: sums::Edge| sums::sum_to(m, |c: int| t(e, c));
    sums::lemma_sum_swap(m, l.edges, t);
    assert forall|c: int| 0 <= c < m implies #[trigger] inner(c) == by_group(c) by {
        sums::lemma_sum_edges_ext(
            l.edges,
            louvain::inside_group(r, c),
            |e: sums::Edge| t(e, c),
        );
    }
    sums::lemma_sum_to_ext(m, inner, by_group);
    // Together with the crossing edges that `up` joins: the edges that the composition joins.
    let cross = lifted(r, level::inside_of(up));
    assert forall|k: int| 0 <= k < l.edges.len() implies (|e: sums::Edge| cross(e) + by_edge(e))(
        #[trigger] l.edges[k],
    ) == level::inside_of(comp)(l.edges[k]) by {
        let e = l.edges[k];
        assert(0 <= e.0 < l.n && 0 <= e.1 < l.n);
        assert(comp[e.0] == up[r[e.0]] && comp[e.1] == up[r[e.1]]);
        if r[e.0] == r[e.1] {
            assert(0 <= r[e.0] < m);
            sums::lemma_sum_to_single(m, r[e.0], |c: int| t(e, c));
        } else {
            sums::lemma_sum_to_zero(m, |c: int| t(e, c));
        }
    }
    sums::lemma_sum_edges_ext(
        l.edges,
        |e: sums::Edge| cross(e) + by_edge(e),
        level::inside_of(comp),
    );
    sums::lemma_sum_edges_add(l.edges, cross, by_edge);
    lemma_crossing_sum(l.edges, r, level::inside_of(up));
}

/// An assignment of the super-nodes scores what the assignment of the nodes below scores.
pub proof fn lemma_contract_score(l: level::Level, r: Seq<int>, m: int, up: Seq<int>)
    requires
        l.wf(),
        grouping(l, r, m),
        up.len() == m,
    ensures
        level::score(louvain::contract(l, r, m), up) == level::score(l, louvain::compose(up, r)),
{
    lemma_contract_two_m(l, r, m);
    lemma_contract_internal(l, r, m, up);
    lemma_contract_product(l, r, m, up);
}

pub open spec fn joins(e: sums::Edge, comm: Seq<int>, c: int, d: int) -> bool {
    (comm[e.0] == c && comm[e.1] == d) || (comm[e.0] == d && comm[e.1] == c)
}

pub open spec fn joining(comm: Seq<int>, c: int, d: int) -> spec_fn(sums::Edge) -> int {
    |e: sums::Edge| level::if_in(joins(e, comm, c, d), e.2)
}

/// The weight of the edges between the communities `c` and `d`.
pub open spec fn between(l: level::Level, comm: Seq<int>, c: int, d: int) -> int {
    sums::sum_edges(l.edges, joining(comm, c, d))
}

pub proof fn lemma_contract_between(
    l: level::Level,
    r: Seq<int>,
    m: int,
    up: Seq<int>,
    c: int,
    d: int,
)
    requires
        l.wf(),
        grouping(l, r, m),
        up.len() == m,
        c != d,
    ensures
        between(louvain::contract(l, r, m), up, c, d) == between(l, louvain::compose(up, r), c, d),
{
    let comp = louvain::compose(up, r);
    lemma_crossing_sum(l.edges, r, joining(up, c, d));
    assert forall|k: int| 0 <= k < l.edges.len() implies lifted(r, joining(up, c, d))(
        #[trigger] l.edges[k],
    ) == joining(comp, c, d)(l.edges[k]) by {
        let e = l.edges[k];
        assert(0 <= e.0 < l.n && 0 <= e.1 < l.n);
        assert(comp[e.0] == up[r[e.0]] && comp[e.1] == up[r[e.1]]);
    }
    sums::lemma_sum_edges_ext(l.edges, lifted(r, joining(up, c, d)), joining(comp, c, d));
}

/// The sources of a crossing edge, for facts that hold of every edge.
pub proof fn lemma_crossing_source(l: level::Level, r: Seq<int>, m: int, k: int) -> (j: int)
    requires
        0 <= k < louvain::contract(l, r, m).edges.len(),
    ensures
        0 <= j < l.edges.len(),
        louvain::contract(l, r, m).edges[k] == (
            r[l.edges[j].0],
            r[l.edges[j].1],
            l.edges[j].2,
        ),
{
    lemma_crossing_from(l.edges, r, k)
}

} // verus!
