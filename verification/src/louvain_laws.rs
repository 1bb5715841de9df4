//! What the Louvain communities of a graph always satisfy.

use crate::contraction;
use crate::level;
use crate::louvain;
use crate::sums;
use vstd::prelude::*;

verus! {

/// The communities of a graph, numbered in order of first appearance.
pub open spec fn communities(l: level::Level) -> Seq<int> {
    louvain::renumber(louvain::labels(l))
}

/// How many communities a graph has.
pub open spec fn community_count(l: level::Level) -> int {
    louvain::firsts(louvain::labels(l)).len() as int
}

/// Merging the communities of `i` and `j` does not raise modularity:
/// `w * 2m <= Sigma_tot * Sigma_tot`.
pub open spec fn merge_no_better(l: level::Level, comm: Seq<int>, i: int, j: int) -> bool {
    contraction::between(l, comm, comm[i], comm[j]) * level::two_m(l) <= level::total(
        l,
        comm,
        comm[i],
    ) * level::total(l, comm, comm[j])
}

pub open spec fn stable(l: level::Level, comm: Seq<int>) -> bool {
    forall|i: int, j: int|
        0 <= i < l.n && 0 <= j < l.n && comm[i] != comm[j] ==> #[trigger] merge_no_better(
            l,
            comm,
            i,
            j,
        )
}

/// The set `s` of nodes is a union of connected components: no edge leaves it.
pub open spec fn closed_under_edges(l: level::Level, s: spec_fn(int) -> bool) -> bool {
    forall|k: int|
        0 <= k < l.edges.len() ==> s((#[trigger] l.edges[k]).0) == s(l.edges[k].1)
}

/// No community has members both inside and outside `s`.
pub open spec fn keeps_apart(comm: Seq<int>, s: spec_fn(int) -> bool) -> bool {
    forall|i: int, j: int|
        0 <= i < comm.len() && 0 <= j < comm.len() && #[trigger] comm[i] == #[trigger] comm[j]
            ==> s(i) == s(j)
}

// ---------------------------------------------------------------------------
// Helpers
// ---------------------------------------------------------------------------

proof fn lemma_grouping(l: level::Level, comm: Seq<int>)
    requires
        comm.len() == l.n,
    ensures
        contraction::grouping(l, louvain::renumber(comm), louvain::firsts(comm).len() as int),
{
    assert forall|i: int| 0 <= i < l.n implies 0 <= #[trigger] louvain::renumber(comm)[i]
        < louvain::firsts(comm).len() by {
        louvain::lemma_renumber(comm, i);
    }
}

pub proof fn lemma_labels_len(l: level::Level)
    requires
        l.wf(),
    ensures
        louvain::labels(l).len() == l.n,
{
    louvain::lemma_settle(l);
}

proof fn lemma_single_total(l: level::Level, c: int)
    requires
        0 <= c < l.n,
    ensures
        level::total(l, level::singletons(l.n), c) == level::degree(l, c),
{
    sums::lemma_sum_to_single(l.n, c, level::member_degrees(l, level::singletons(l.n), c));
}

/// A simple level without weight outside of its loops, seen from one node: the links into all
/// communities make up the edge ends.
proof fn lemma_links_sum(l: level::Level, i: int)
    requires
        l.wf(),
        0 <= i < l.n,
    ensures
        sums::sum_to(
            l.n,
            |d: int| level::weight_into(l, level::singletons(l.n), i, d),
        ) == level::degree(l, i) - 2 * l.loops[i],
{
    let own = level::singletons(l.n);
    let t = |e: sums::Edge, d: int| level::link(e, own, i, d);
    let by_node = |d: int| sums::sum_edges(l.edges, |e: sums::Edge| t(e, d));
    let by_edge = |e: sums::Edge| sums::sum_to(l.n, |d: int| t(e, d));
    sums::lemma_sum_swap(l.n, l.edges, t);
    let into = |d: int| level::weight_into(l, own, i, d);
    assert forall|d: int| 0 <= d < l.n implies #[trigger] into(d) == by_node(d) by {
        sums::lemma_sum_edges_ext(l.edges, level::links_to(own, i, d), |e: sums::Edge| t(e, d));
    }
    sums::lemma_sum_to_ext(l.n, into, by_node);
    sums::lemma_sum_to_ext(l.n, |d: int| level::weight_into(l, level::singletons(l.n), i, d), into);
    assert forall|k: int| 0 <= k < l.edges.len() implies by_edge(#[trigger] l.edges[k])
        == level::touch_at(i)(l.edges[k]) by {
        let e = l.edges[k];
        assert(0 <= e.0 < l.n && 0 <= e.1 < l.n);
        assert(own[e.0] == e.0 && own[e.1] == e.1);
        let a = |d: int| level::if_in(e.0 == i && e.1 == d, e.2);
        let b = |d: int| level::if_in(e.1 == i && e.0 == d, e.2);
        sums::lemma_sum_to_single(l.n, e.1, a);
        sums::lemma_sum_to_single(l.n, e.0, b);
        sums::lemma_sum_to_add(l.n, a, b);
        sums::lemma_sum_to_ext(l.n, |d: int| t(e, d), |d: int| a(d) + b(d));
    }
    sums::lemma_sum_edges_ext(l.edges, by_edge, level::touch_at(i));
}

/// In a simple level nothing links a node to itself.
proof fn lemma_no_own_link(l: level::Level, i: int)
    requires
        l.wf(),
        l.simple(),
        0 <= i < l.n,
    ensures
        level::weight_into(l, level::singletons(l.n), i, i) == 0,
{
    let own = level::singletons(l.n);
    let f = level::links_to(own, i, i);
    assert forall|k: int| 0 <= k < l.edges.len() implies f(#[trigger] l.edges[k]) == 0 by {
        let e = l.edges[k];
        assert(0 <= e.0 < l.n && 0 <= e.1 < l.n && e.0 != e.1);
        assert(own[e.0] == e.0 && own[e.1] == e.1);
    }
    sums::lemma_sum_edges_none(l.edges, f);
}

/// Where the singletons are at rest, no pair of nodes gains by a merge.
proof fn lemma_rest(l: level::Level, i: int, d: int)
    requires
        l.wf(),
        l.simple(),
        0 <= i < l.n,
        0 <= d < l.n,
        i != d,
        level::two_m(l) == 0 || louvain::settle(l) == level::singletons(l.n),
    ensures
        level::weight_into(l, level::singletons(l.n), i, d) * level::two_m(l) <= level::degree(l, i)
            * level::degree(l, d),
{
    let own = level::singletons(l.n);
    let w = level::weight_into(l, own, i, d);
    let m2 = level::two_m(l);
    let ki = level::degree(l, i);
    let kd = level::degree(l, d);
    level::lemma_bounds(l, own, i, d);
    level::lemma_bounds(l, own, d, i);
    assert(0 <= ki * kd) by (nonlinear_arith)
        requires
            0 <= ki,
            0 <= kd,
    ;
    if m2 == 0 {
        assert(w * m2 == 0) by (nonlinear_arith)
            requires
                m2 == 0,
        ;
    } else {
        louvain::lemma_settle(l);
        louvain::lemma_sweep_still(l, own, l.n, i);
        louvain::lemma_best(l, own, i);
        assert(louvain::is_best(l, own, i, i));
        if louvain::candidate(l, own, i, d) {
            assert(louvain::preferred(l, own, i, i, d));
            lemma_single_total(l, i);
            lemma_single_total(l, d);
            lemma_no_own_link(l, i);
            assert(own[i] == i && own[d] == d);
            let wi = level::weight_into(l, own, i, i);
            let ti = level::total(l, own, i);
            assert(level::gain(l, own, i, i) == 0) by {
                assert(wi * m2 - (ti - ki) * ki == 0) by (nonlinear_arith)
                    requires
                        wi == 0,
                        ti == ki,
                ;
            }
            assert(level::gain(l, own, i, d) == w * m2 - (kd - 0) * ki);
            assert((kd - 0) * ki == ki * kd) by (nonlinear_arith);
        } else {
            let f = level::links_to(own, i, d);
            assert forall|k: int| 0 <= k < l.edges.len() implies f(#[trigger] l.edges[k]) == 0 by {
                assert(!louvain::reaches(l.edges[k], own, i, d));
            }
            sums::lemma_sum_edges_none(l.edges, f);
            assert(w * m2 == 0) by (nonlinear_arith)
                requires
                    w == 0,
            ;
        }
    }
}

/// At rest, what lies inside a node is worth at least its expected share.
proof fn lemma_rest_node(l: level::Level, i: int)
    requires
        l.wf(),
        l.simple(),
        0 <= i < l.n,
        level::two_m(l) == 0 || louvain::settle(l) == level::singletons(l.n),
    ensures
        level::degree(l, i) * level::degree(l, i) <= level::two_m(l) * (2 * l.loops[i]),
{
    let own = level::singletons(l.n);
    let m2 = level::two_m(l);
    let ki = level::degree(l, i);
    let deg = level::degrees(l);
    let into = |d: int| level::weight_into(l, level::singletons(l.n), i, d);
    let lhs = |d: int| m2 * into(d);
    let all = |d: int| ki * deg(d);
    let but_own = |d: int| level::if_in(d == i, (-ki) * ki);
    let rhs = |d: int| all(d) + but_own(d);
    assert forall|d: int| 0 <= d < l.n implies #[trigger] lhs(d) <= rhs(d) by {
        let w = into(d);
        assert(m2 * w == w * m2) by (nonlinear_arith);
        if d == i {
            lemma_no_own_link(l, i);
            assert(w * m2 == 0) by (nonlinear_arith)
                requires
                    w == 0,
            ;
            assert(ki * ki + (-ki) * ki == 0) by (nonlinear_arith);
        } else {
            lemma_rest(l, i, d);
        }
    }
    sums::lemma_sum_to_le(l.n, lhs, rhs);
    sums::lemma_sum_to_scale(l.n, m2, into);
    lemma_links_sum(l, i);
    sums::lemma_sum_to_add(l.n, all, but_own);
    sums::lemma_sum_to_scale(l.n, ki, deg);
    sums::lemma_sum_to_single(l.n, i, but_own);
    let x = 2 * l.loops[i];
    assert(m2 * (ki - x) <= ki * m2 + (-ki) * ki);
    assert(ki * ki <= m2 * x) by (nonlinear_arith)
        requires
            m2 * (ki - x) <= ki * m2 + (-ki) * ki,
    ;
}

proof fn lemma_rest_score(l: level::Level)
    requires
        l.wf(),
        l.simple(),
        level::two_m(l) == 0 || louvain::settle(l) == level::singletons(l.n),
    ensures
        level::score(l, level::singletons(l.n)) >= 0,
{
    let own = level::singletons(l.n);
    let m2 = level::two_m(l);
    let loops = level::loop_weights(l);
    let twice = |i: int| 2 * loops(i);
    let bound = |i: int| m2 * twice(i);
    let prod = level::product_terms(l, own);
    assert forall|i: int| 0 <= i < l.n implies #[trigger] prod(i) <= bound(i) by {
        lemma_rest_node(l, i);
        lemma_single_total(l, i);
        assert(own[i] == i);
    }
    sums::lemma_sum_to_le(l.n, prod, bound);
    sums::lemma_sum_to_scale(l.n, m2, twice);
    sums::lemma_sum_to_scale(l.n, 2, loops);
    sums::lemma_sum_edges_nonneg(l.edges, level::inside_of(own));
    let s = sums::sum_to(l.n, loops);
    let inn = level::internal(l, own);
    let deg = level::degrees(l);
    assert forall|i: int| 0 <= i < l.n implies 0 <= #[trigger] deg(i) by {
        level::lemma_degree_nonneg(l, i);
    }
    sums::lemma_sum_to_nonneg(l.n, deg);
    assert(m2 * (2 * s) <= m2 * (2 * inn)) by (nonlinear_arith)
        requires
            s <= inn,
            0 <= m2,
    ;
}

proof fn lemma_rest_stable(l: level::Level)
    requires
        l.wf(),
        l.simple(),
        level::two_m(l) == 0 || louvain::settle(l) == level::singletons(l.n),
    ensures
        stable(l, level::singletons(l.n)),
{
    let own = level::singletons(l.n);
    assert forall|i: int, j: int|
        0 <= i < l.n && 0 <= j < l.n && own[i] != own[j] implies #[trigger] merge_no_better(
        l,
        own,
        i,
        j,
    ) by {
        lemma_rest(l, i, j);
        lemma_single_total(l, i);
        lemma_single_total(l, j);
        assert forall|k: int| 0 <= k < l.edges.len() implies contraction::joining(own, i, j)(
            #[trigger] l.edges[k],
        ) == level::links_to(own, i, j)(l.edges[k]) by {
            let e = l.edges[k];
            assert(0 <= e.0 < l.n && 0 <= e.1 < l.n);
            assert(own[e.0] == e.0 && own[e.1] == e.1);
        }
        sums::lemma_sum_edges_ext(
            l.edges,
            contraction::joining(own, i, j),
            level::links_to(own, i, j),
        );
    }
}

pub proof fn lemma_labels_step(l: level::Level)
    requires
        l.wf(),
        level::two_m(l) != 0,
        louvain::settle(l) != level::singletons(l.n),
    ensures
        ({
            let comm = louvain::settle(l);
            let r = louvain::renumber(comm);
            let m = louvain::firsts(comm).len() as int;
            let top = louvain::contract(l, r, m);
            &&& 0 <= m < l.n
            &&& contraction::grouping(l, r, m)
            &&& top.wf()
            &&& top.simple()
            &&& louvain::labels(top).len() == m
            &&& louvain::labels(l) == louvain::compose(louvain::labels(top), r)
        }),
{
    let comm = louvain::settle(l);
    let r = louvain::renumber(comm);
    let m = louvain::firsts(comm).len() as int;
    louvain::lemma_settle(l);
    louvain::lemma_settle_shrinks(l);
    lemma_grouping(l, comm);
    contraction::lemma_contract_wf(l, r, m);
    lemma_labels_len(louvain::contract(l, r, m));
}

proof fn lemma_labels_score(l: level::Level)
    requires
        l.wf(),
        l.simple(),
    ensures
        level::score(l, louvain::labels(l)) >= 0,
        stable(l, louvain::labels(l)),
    decreases l.n,
{
    let comm = louvain::settle(l);
    if level::two_m(l) == 0 || comm == level::singletons(l.n) {
        lemma_rest_score(l);
        lemma_rest_stable(l);
    } else {
        let r = louvain::renumber(comm);
        let m = louvain::firsts(comm).len() as int;
        let top = louvain::contract(l, r, m);
        let up = louvain::labels(top);
        lemma_labels_step(l);
        lemma_labels_score(top);
        contraction::lemma_contract_score(l, r, m, up);
        contraction::lemma_contract_two_m(l, r, m);
        let comp = louvain::labels(l);
        assert forall|i: int, j: int|
            0 <= i < l.n && 0 <= j < l.n && comp[i] != comp[j] implies #[trigger] merge_no_better(
            l,
            comp,
            i,
            j,
        ) by {
            assert(0 <= r[i] < m && 0 <= r[j] < m);
            assert(comp[i] == up[r[i]] && comp[j] == up[r[j]]);
            assert(merge_no_better(top, up, r[i], r[j]));
            contraction::lemma_contract_between(l, r, m, up, comp[i], comp[j]);
            contraction::lemma_contract_total(l, r, m, up, comp[i]);
            contraction::lemma_contract_total(l, r, m, up, comp[j]);
        }
    }
}

proof fn lemma_stable_partition(l: level::Level, a: Seq<int>, b: Seq<int>)
    requires
        l.wf(),
        a.len() == l.n,
        louvain::same_partition(a, b),
        stable(l, a),
    ensures
        stable(l, b),
{
    assert forall|i: int, j: int|
        0 <= i < l.n && 0 <= j < l.n && b[i] != b[j] implies #[trigger] merge_no_better(
        l,
        b,
        i,
        j,
    ) by {
        assert(a[i] == a[j] <==> b[i] == b[j]);
        assert(merge_no_better(l, a, i, j));
        lemma_total_partition(l, a, b, i);
        lemma_total_partition(l, a, b, j);
        assert forall|k: int| 0 <= k < l.edges.len() implies contraction::joining(a, a[i], a[j])(
            #[trigger] l.edges[k],
        ) == contraction::joining(b, b[i], b[j])(l.edges[k]) by {
            let e = l.edges[k];
            assert(0 <= e.0 < l.n && 0 <= e.1 < l.n);
            assert(a[e.0] == a[i] <==> b[e.0] == b[i]);
            assert(a[e.0] == a[j] <==> b[e.0] == b[j]);
            assert(a[e.1] == a[i] <==> b[e.1] == b[i]);
            assert(a[e.1] == a[j] <==> b[e.1] == b[j]);
        }
        sums::lemma_sum_edges_ext(
            l.edges,
            contraction::joining(a, a[i], a[j]),
            contraction::joining(b, b[i], b[j]),
        );
    }
}

proof fn lemma_total_partition(l: level::Level, a: Seq<int>, b: Seq<int>, i: int)
    requires
        a.len() == l.n,
        louvain::same_partition(a, b),
        0 <= i < l.n,
    ensures
        level::total(l, a, a[i]) == level::total(l, b, b[i]),
{
    let fa = level::member_degrees(l, a, a[i]);
    let fb = level::member_degrees(l, b, b[i]);
    assert forall|j: int| 0 <= j < l.n implies #[trigger] fa(j) == fb(j) by {
        assert(a[i] == a[j] <==> b[i] == b[j]);
    }
    sums::lemma_sum_to_ext(l.n, fa, fb);
}

pub proof fn lemma_communities_partition(l: level::Level)
    requires
        l.wf(),
    ensures
        louvain::same_partition(louvain::labels(l), communities(l)),
        communities(l).len() == l.n,
{
    let a = louvain::labels(l);
    lemma_labels_len(l);
    assert forall|i: int, j: int| 0 <= i < a.len() && 0 <= j < a.len() implies (#[trigger] a[i]
        == #[trigger] a[j] <==> communities(l)[i] == communities(l)[j]) by {
        louvain::lemma_renumber_same(a, i, j);
    }
}

// ---------------------------------------------------------------------------
// Laws
// ---------------------------------------------------------------------------

/// Louvain never produces negative modularity, on any graph without self-loops.
pub proof fn law_modularity_nonnegative(l: level::Level)
    requires
        l.wf(),
        l.simple(),
    ensures
        level::score(l, communities(l)) >= 0,
{
    lemma_labels_score(l);
    lemma_communities_partition(l);
    louvain::lemma_score_partition(l, louvain::labels(l), communities(l));
}

/// No two communities could be merged to a higher modularity, on any graph without self-loops.
pub proof fn law_no_merge_improves(l: level::Level, i: int, j: int)
    requires
        l.wf(),
        l.simple(),
        0 <= i < l.n,
        0 <= j < l.n,
        communities(l)[i] != communities(l)[j],
    ensures
        merge_no_better(l, communities(l), i, j),
{
    lemma_labels_score(l);
    lemma_communities_partition(l);
    lemma_stable_partition(l, louvain::labels(l), communities(l));
}

proof fn lemma_labels_improve(l: level::Level)
    requires
        l.wf(),
    ensures
        level::score(l, louvain::labels(l)) >= level::score(l, level::singletons(l.n)),
    decreases l.n,
{
    let comm = louvain::settle(l);
    if level::two_m(l) == 0 || comm == level::singletons(l.n) {
    } else {
        let r = louvain::renumber(comm);
        let m = louvain::firsts(comm).len() as int;
        let top = louvain::contract(l, r, m);
        lemma_labels_step(l);
        lemma_labels_improve(top);
        contraction::lemma_contract_score(l, r, m, louvain::labels(top));
        contraction::lemma_contract_score(l, r, m, level::singletons(m));
        assert(louvain::compose(level::singletons(m), r) =~= r);
        louvain::lemma_settle(l);
        assert(louvain::same_partition(comm, r)) by {
            assert forall|i: int, j: int| 0 <= i < comm.len() && 0 <= j < comm.len() implies (
            #[trigger] comm[i] == #[trigger] comm[j] <==> r[i] == r[j]) by {
                louvain::lemma_renumber_same(comm, i, j);
            }
        }
        louvain::lemma_score_partition(l, comm, r);
    }
}

/// Louvain never worsens the trivial partition in which every node stands alone.
pub proof fn law_never_below_singletons(l: level::Level)
    requires
        l.wf(),
    ensures
        level::score(l, communities(l)) >= level::score(l, level::singletons(l.n)),
{
    lemma_labels_improve(l);
    lemma_communities_partition(l);
    louvain::lemma_score_partition(l, louvain::labels(l), communities(l));
}

proof fn lemma_sweep_apart(
    l: level::Level,
    comm: Seq<int>,
    upto: int,
    s: spec_fn(int) -> bool,
)
    requires
        l.wf(),
        level::assignment(l, comm),
        0 <= upto <= l.n,
        closed_under_edges(l, s),
        keeps_apart(comm, s),
    ensures
        keeps_apart(louvain::sweep(l, comm, upto), s),
    decreases upto,
{
    if upto > 0 {
        lemma_sweep_apart(l, comm, upto - 1, s);
        louvain::lemma_sweep(l, comm, upto - 1);
        let before = louvain::sweep(l, comm, upto - 1);
        let x = upto - 1;
        let c = louvain::best(l, before, x);
        let after = before.update(x, c);
        louvain::lemma_best(l, before, x);
        // A member of the chosen community lies on the same side as `x`.
        assert forall|j: int| 0 <= j < l.n && before[j] == c implies s(j) == s(x) by {
            if c != before[x] {
                let k = choose|k: int|
                    0 <= k < l.edges.len() && louvain::reaches(#[trigger] l.edges[k], before, x, c);
                let e = l.edges[k];
                assert(0 <= e.0 < l.n && 0 <= e.1 < l.n);
                assert(s(e.0) == s(e.1));
                if e.0 == x && before[e.1] == c {
                    assert(before[j] == before[e.1]);
                } else {
                    assert(before[j] == before[e.0]);
                }
            } else {
                assert(before[j] == before[x]);
            }
        }
        assert forall|i: int, j: int|
            0 <= i < after.len() && 0 <= j < after.len() && #[trigger] after[i]
                == #[trigger] after[j] implies s(i) == s(j) by {
            if i != x && j != x {
                assert(before[i] == before[j]);
            } else if i != x {
                assert(before[i] == c);
            } else if j != x {
                assert(before[j] == c);
            }
        }
    }
}

proof fn lemma_sweeps_apart(l: level::Level, k: nat, s: spec_fn(int) -> bool)
    requires
        l.wf(),
        closed_under_edges(l, s),
    ensures
        keeps_apart(louvain::sweeps(l, k), s),
    decreases k,
{
    if k > 0 {
        lemma_sweeps_apart(l, (k - 1) as nat, s);
        louvain::lemma_sweeps(l, (k - 1) as nat);
        lemma_sweep_apart(l, louvain::sweeps(l, (k - 1) as nat), l.n, s);
    }
}

proof fn lemma_labels_apart(l: level::Level, s: spec_fn(int) -> bool)
    requires
        l.wf(),
        closed_under_edges(l, s),
    ensures
        keeps_apart(louvain::labels(l), s),
    decreases l.n,
{
    let comm = louvain::settle(l);
    if level::two_m(l) == 0 || comm == level::singletons(l.n) {
    } else {
        let r = louvain::renumber(comm);
        let m = louvain::firsts(comm).len() as int;
        let top = louvain::contract(l, r, m);
        let up = louvain::labels(top);
        lemma_labels_step(l);
        louvain::lemma_settle(l);
        let k = choose|k: nat| comm == #[trigger] louvain::sweeps(l, k);
        lemma_sweeps_apart(l, k, s);
        // A super-node lies on the side of its members.
        let side = |c: int| exists|i: int| 0 <= i < l.n && #[trigger] r[i] == c && s(i);
        assert forall|i: int| 0 <= i < l.n implies side(#[trigger] r[i]) == s(i) by {
            if side(r[i]) {
                let j = choose|j: int| 0 <= j < l.n && #[trigger] r[j] == r[i] && s(j);
                louvain::lemma_renumber_same(comm, i, j);
                assert(comm[i] == comm[j]);
            }
        }
        assert forall|q: int| 0 <= q < top.edges.len() implies side(
            (#[trigger] top.edges[q]).0,
        ) == side(top.edges[q].1) by {
            let j = contraction::lemma_crossing_source(l, r, m, q);
            let e = l.edges[j];
            assert(0 <= e.0 < l.n && 0 <= e.1 < l.n);
            assert(s(e.0) == s(e.1));
            assert(side(r[e.0]) == s(e.0));
            assert(side(r[e.1]) == s(e.1));
        }
        lemma_labels_apart(top, side);
        let comp = louvain::labels(l);
        assert forall|i: int, j: int|
            0 <= i < comp.len() && 0 <= j < comp.len() && #[trigger] comp[i] == #[trigger] comp[j]
                implies s(i) == s(j) by {
            assert(up[r[i]] == up[r[j]]);
            assert(side(r[i]) == side(r[j]));
        }
    }
}

/// Nodes that no path connects never share a community.
pub proof fn law_components_stay_apart(
    l: level::Level,
    s: spec_fn(int) -> bool,
    i: int,
    j: int,
)
    requires
        l.wf(),
        closed_under_edges(l, s),
        0 <= i < l.n,
        0 <= j < l.n,
        s(i) != s(j),
    ensures
        communities(l)[i] != communities(l)[j],
{
    lemma_labels_apart(l, s);
    lemma_communities_partition(l);
    let a = louvain::labels(l);
    assert(a[i] == a[j] <==> communities(l)[i] == communities(l)[j]);
}

/// Community numbers are dense: they run from zero to the community count, every one of them
/// is used, and a new one appears only after all smaller ones.
pub proof fn law_numbers_are_dense(l: level::Level)
    requires
        l.wf(),
    ensures
        communities(l).len() == l.n,
        forall|i: int| 0 <= i < l.n ==> 0 <= #[trigger] communities(l)[i] < community_count(l),
        forall|c: int| 0 <= c < community_count(l) ==> #[trigger] communities(l).contains(c),
        forall|i: int, c: int|
            0 <= i < l.n && 0 <= c < #[trigger] communities(l)[i] ==> #[trigger] communities(
                l,
            ).take(i).contains(c),
        community_count(l) <= l.n,
{
    let s = louvain::labels(l);
    lemma_labels_len(l);
    louvain::lemma_firsts(s);
    assert forall|i: int| 0 <= i < l.n implies 0 <= #[trigger] communities(l)[i] < community_count(
        l,
    ) by {
        louvain::lemma_renumber(s, i);
    }
    assert forall|c: int| 0 <= c < community_count(l) implies #[trigger] communities(l).contains(
        c,
    ) by {
        let i = louvain::lemma_renumber_onto(s, c);
        assert(communities(l)[i] == c);
    }
    assert forall|i: int, c: int|
        0 <= i < l.n && 0 <= c < #[trigger] communities(l)[i] implies #[trigger] communities(
        l,
    ).take(i).contains(c) by {
        let p = s.take(i);
        let f = louvain::firsts(s);
        let fp = louvain::firsts(p);
        louvain::lemma_firsts_prefix(s, i);
        louvain::lemma_firsts_prefix(s, i + 1);
        louvain::lemma_renumber(s, i);
        louvain::lemma_firsts(p);
        assert(s.take(i + 1).drop_last() =~= p);
        let f1 = louvain::firsts(s.take(i + 1));
        assert(s.take(i + 1).last() == s[i]);
        // `s[i]` is among the first appearances up to and with `i`, at its number.
        louvain::lemma_firsts(s.take(i + 1));
        assert(s.take(i + 1)[i] == s[i]);
        assert(s.take(i + 1).contains(s[i]));
        assert(f1.contains(s[i]));
        let k = choose|k: int| 0 <= k < f1.len() && f1[k] == s[i];
        assert(f.take(f1.len() as int)[k] == f[k]);
        assert(k == communities(l)[i]);
        assert(c < fp.len()) by {
            if c >= fp.len() {
                assert(f1.len() <= fp.len() + 1);
            }
        }
        assert(f.take(fp.len() as int)[c] == f[c]);
        assert(fp.contains(fp[c]));
        assert(p.contains(fp[c]));
        let j = choose|j: int| 0 <= j < p.len() && p[j] == fp[c];
        louvain::lemma_renumber(s, j);
        assert(communities(l)[j] == c);
        assert(communities(l).take(i)[j] == c);
    }
}

} // verus!
