//! Louvain community detection on plain edge lists.

use crate::contraction;
use crate::level;
use crate::louvain;
use crate::louvain_laws;
use crate::natural::Natural;
use crate::sums;
use vstd::prelude::*;

verus! {

pub open spec fn edge_of(e: (usize, usize, u128)) -> sums::Edge {
    (e.0 as int, e.1 as int, e.2 as int)
}

pub open spec fn edges_of(edges: Seq<(usize, usize, u128)>) -> Seq<sums::Edge> {
    Seq::new(edges.len(), |k: int| edge_of(edges[k]))
}

pub open spec fn ints_u128(s: Seq<u128>) -> Seq<int> {
    Seq::new(s.len(), |i: int| s[i] as int)
}

pub open spec fn values(s: Seq<Natural>) -> Seq<int> {
    Seq::new(s.len(), |i: int| s[i]@)
}

pub open spec fn ints(s: Seq<usize>) -> Seq<int> {
    Seq::new(s.len(), |i: int| s[i] as int)
}

/// The level that an edge list and a list of loop weights stand for.
pub open spec fn level_of(edges: Seq<(usize, usize, u128)>, loops: Seq<Natural>) -> level::Level {
    level::Level { n: loops.len() as int, edges: edges_of(edges), loops: values(loops) }
}

/// A well-formed level whose nodes can be indexed.
spec fn fits(l: level::Level) -> bool {
    l.wf() && l.n <= usize::MAX
}

// ---------------------------------------------------------------------------
// Adjacency
// ---------------------------------------------------------------------------

/// The far ends `(neighbour, weight)` of the edges at node `i`.
spec fn ends(edges: Seq<sums::Edge>, i: int) -> Seq<(int, int)>
    decreases edges.len(),
{
    if edges.len() == 0 {
        Seq::empty()
    } else {
        let e = edges.last();
        let s = ends(edges.drop_last(), i);
        let s1 = if e.0 == i {
            s.push((e.1, e.2))
        } else {
            s
        };
        if e.1 == i {
            s1.push((e.0, e.2))
        } else {
            s1
        }
    }
}

spec fn end_of(e: (usize, u128)) -> (int, int) {
    (e.0 as int, e.1 as int)
}

spec fn ends_of(s: Seq<(usize, u128)>) -> Seq<(int, int)> {
    Seq::new(s.len(), |k: int| end_of(s[k]))
}

spec fn sum_ends(s: Seq<(int, int)>, f: spec_fn((int, int)) -> int) -> int
    decreases s.len(),
{
    if s.len() == 0 {
        0
    } else {
        sum_ends(s.drop_last(), f) + f(s.last())
    }
}

spec fn end_weight() -> spec_fn((int, int)) -> int {
    |e: (int, int)| e.1
}

spec fn end_into(comm: Seq<int>, c: int) -> spec_fn((int, int)) -> int {
    |e: (int, int)| level::if_in(comm[e.0] == c, e.1)
}

proof fn lemma_push_end(s: Seq<(int, int)>, e: (int, int), f: spec_fn((int, int)) -> int)
    ensures
        sum_ends(s.push(e), f) == sum_ends(s, f) + f(e),
{
    assert(s.push(e).drop_last() =~= s);
}

/// The ends at a node carry its edge weight, and into each community what links it there.
proof fn lemma_ends(edges: Seq<sums::Edge>, comm: Seq<int>, i: int, c: int)
    ensures
        sum_ends(ends(edges, i), end_weight()) == sums::sum_edges(edges, level::touch_at(i)),
        sum_ends(ends(edges, i), end_into(comm, c)) == sums::sum_edges(
            edges,
            level::links_to(comm, i, c),
        ),
    decreases edges.len(),
{
    if edges.len() > 0 {
        lemma_ends(edges.drop_last(), comm, i, c);
        let e = edges.last();
        let s = ends(edges.drop_last(), i);
        lemma_push_end(s, (e.1, e.2), end_weight());
        lemma_push_end(s, (e.1, e.2), end_into(comm, c));
        let s1 = if e.0 == i {
            s.push((e.1, e.2))
        } else {
            s
        };
        lemma_push_end(s1, (e.0, e.2), end_weight());
        lemma_push_end(s1, (e.0, e.2), end_into(comm, c));
    }
}

/// The ends at a node lead to the communities that may receive it.
proof fn lemma_ends_reach(edges: Seq<sums::Edge>, comm: Seq<int>, i: int)
    ensures
        forall|t: int|
            0 <= t < ends(edges, i).len() ==> exists|k: int|
                0 <= k < edges.len() && louvain::reaches(
                    #[trigger] edges[k],
                    comm,
                    i,
                    comm[(#[trigger] ends(edges, i)[t]).0],
                ) && (edges[k].0 == ends(edges, i)[t].0 || edges[k].1 == ends(edges, i)[t].0)
                    && edges[k].2 == ends(edges, i)[t].1,
        forall|k: int, c: int|
            0 <= k < edges.len() && #[trigger] louvain::reaches(edges[k], comm, i, c)
                ==> exists|t: int|
                0 <= t < ends(edges, i).len() && comm[(#[trigger] ends(edges, i)[t]).0] == c,
    decreases edges.len(),
{
    if edges.len() > 0 {
        let p = edges.drop_last();
        let e = edges.last();
        lemma_ends_reach(p, comm, i);
        let s = ends(p, i);
        let all = ends(edges, i);
        let last = edges.len() - 1;
        assert forall|t: int| 0 <= t < all.len() implies exists|k: int|
            0 <= k < edges.len() && louvain::reaches(
                #[trigger] edges[k],
                comm,
                i,
                comm[(#[trigger] all[t]).0],
            ) && (edges[k].0 == all[t].0 || edges[k].1 == all[t].0) && edges[k].2 == all[t].1 by {
            if t < s.len() {
                assert(all[t] == s[t]);
                let k = choose|k: int|
                    0 <= k < p.len() && louvain::reaches(
                        #[trigger] p[k],
                        comm,
                        i,
                        comm[s[t].0],
                    ) && (p[k].0 == s[t].0 || p[k].1 == s[t].0) && p[k].2 == s[t].1;
                assert(edges[k] == p[k]);
            } else {
                assert(edges[last] == e);
            }
        }
        assert forall|k: int, c: int|
            0 <= k < edges.len() && #[trigger] louvain::reaches(edges[k], comm, i, c) implies exists|
            t: int,
        |
            0 <= t < all.len() && comm[(#[trigger] all[t]).0] == c by {
            if k < last {
                assert(p[k] == edges[k]);
                assert(louvain::reaches(p[k], comm, i, c));
                let t = choose|t: int| 0 <= t < s.len() && comm[(#[trigger] s[t]).0] == c;
                assert(all[t] == s[t]);
            } else if e.0 == i && comm[e.1] == c {
                assert(all[s.len() as int] == (e.1, e.2));
            } else {
                assert(all[all.len() - 1] == (e.0, e.2));
            }
        }
    }
}

spec fn adjacent(l: level::Level, adj: Seq<Vec<(usize, u128)>>) -> bool {
    &&& adj.len() == l.n
    &&& forall|i: int| 0 <= i < l.n ==> ends_of((#[trigger] adj[i])@) == ends(l.edges, i)
}

/// Adjacency lists of an edge list.
fn neighbours(edges: &Vec<(usize, usize, u128)>, n: usize) -> (adj: Vec<Vec<(usize, u128)>>)
    requires
        forall|k: int| 0 <= k < edges.len() ==> (#[trigger] edges[k]).0 < n && edges[k].1 < n,
    ensures
        adj.len() == n,
        forall|i: int| 0 <= i < n ==> ends_of((#[trigger] adj[i])@) == ends(edges_of(edges@), i),
{
    let mut adj: Vec<Vec<(usize, u128)>> = Vec::new();
    let mut i: usize = 0;
    while i < n
        invariant
            i <= n,
            adj.len() == i,
            forall|j: int| 0 <= j < i ==> (#[trigger] adj[j])@.len() == 0,
        decreases n - i,
    {
        adj.push(Vec::new());
        i += 1;
    }
    let ghost all = edges_of(edges@);
    proof {
        assert(all.take(0) =~= Seq::empty());
        assert forall|j: int| 0 <= j < n implies ends_of((#[trigger] adj[j])@) == ends(
            all.take(0),
            j,
        ) by {
            assert(ends_of(adj[j]@) =~= Seq::empty());
        }
    }
    let mut k: usize = 0;
    while k < edges.len()
        invariant
            k <= edges.len(),
            adj.len() == n,
            all == edges_of(edges@),
            forall|j: int| 0 <= j < edges.len() ==> (#[trigger] edges[j]).0 < n && edges[j].1 < n,
            forall|j: int|
                0 <= j < n ==> ends_of((#[trigger] adj[j])@) == ends(all.take(k as int), j),
        decreases edges.len() - k,
    {
        let (a, b, w) = edges[k];
        assert(edges[k as int].0 < n && edges[k as int].1 < n);
        let ghost before = adj@;
        adj[a].push((b, w));
        let ghost middle = adj@;
        adj[b].push((a, w));
        proof {
            let next = all.take(k + 1);
            assert(next.drop_last() =~= all.take(k as int));
            assert(next.last() == edge_of((a, b, w)));
            assert forall|j: int| 0 <= j < n implies ends_of((#[trigger] adj[j])@) == ends(
                next,
                j,
            ) by {
                let s = ends_of(before[j]@);
                let s1 = if a == j {
                    s.push((b as int, w as int))
                } else {
                    s
                };
                assert(ends_of(middle[j]@) =~= s1);
                let s2 = if b == j {
                    s1.push((a as int, w as int))
                } else {
                    s1
                };
                assert(ends_of(adj[j]@) =~= s2);
            }
        }
        k += 1;
    }
    assert(all.take(edges.len() as int) =~= all);
    adj
}

/// Weighted degrees.
fn degree_list(
    edges: &Vec<(usize, usize, u128)>,
    loops: &Vec<Natural>,
    adj: &Vec<Vec<(usize, u128)>>,
) -> (k: Vec<Natural>)
    requires
        fits(level_of(edges@, loops@)),
        adjacent(level_of(edges@, loops@), adj@),
    ensures
        k.len() == loops.len(),
        forall|i: int|
            0 <= i < k.len() ==> (#[trigger] k[i])@ == level::degree(level_of(edges@, loops@), i),
{
    let ghost l = level_of(edges@, loops@);
    let mut k: Vec<Natural> = Vec::new();
    let mut i: usize = 0;
    while i < loops.len()
        invariant
            l == level_of(edges@, loops@),
            fits(l),
            adjacent(l, adj@),
            i <= loops.len(),
            k.len() == i,
            forall|j: int| 0 <= j < i ==> (#[trigger] k[j])@ == level::degree(l, j),
        decreases loops.len() - i,
    {
        let ghost all = ends(l.edges, i as int);
        proof {
            assert(ends_of(adj[i as int]@) == all);
            lemma_ends(l.edges, Seq::empty(), i as int, 0);
            assert(l.loops[i as int] == loops[i as int]@);
            assert(all.take(0) =~= Seq::empty());
        }
        let mut sum: Natural = Natural::zero();
        let mut t: usize = 0;
        while t < adj[i].len()
            invariant
                l == level_of(edges@, loops@),
                fits(l),
                adjacent(l, adj@),
                i < loops.len(),
                t <= adj[i as int].len(),
                all == ends(l.edges, i as int),
                ends_of(adj[i as int]@) == all,
                sum@ == sum_ends(all.take(t as int), end_weight()),
                sum_ends(all, end_weight()) + 2 * loops[i as int]@ == level::degree(l, i as int),
            decreases adj[i as int].len() - t,
        {
            let w: u128 = adj[i][t].1;
            proof {
                assert(all[t as int] == end_of(adj[i as int]@[t as int]));
                assert(all.take(t + 1).drop_last() =~= all.take(t as int));
            }
            sum = sum.plus(&Natural::from_u128(w));
            t += 1;
        }
        assert(all.take(all.len() as int) =~= all);
        let twice: Natural = loops[i].plus(&loops[i]);
        k.push(sum.plus(&twice));
        i += 1;
    }
    k
}

/// `2m` from the degrees.
fn degree_sum(k: &Vec<Natural>, Ghost(l): Ghost<level::Level>) -> (sum: Natural)
    requires
        fits(l),
        k.len() == l.n,
        forall|i: int| 0 <= i < k.len() ==> (#[trigger] k[i])@ == level::degree(l, i),
    ensures
        sum@ == level::two_m(l),
{
    let mut sum: Natural = Natural::zero();
    let mut i: usize = 0;
    while i < k.len()
        invariant
            fits(l),
            k.len() == l.n,
            i <= k.len(),
            forall|j: int| 0 <= j < k.len() ==> (#[trigger] k[j])@ == level::degree(l, j),
            sum@ == sums::sum_to(i as int, level::degrees(l)),
        decreases k.len() - i,
    {
        proof {
            assert(level::degrees(l)(i as int) == k[i as int]@);
        }
        sum = sum.plus(&k[i]);
        i += 1;
    }
    sum
}

// ---------------------------------------------------------------------------
// Local moves
// ---------------------------------------------------------------------------

/// The gain of a placement, `2m * k_in - (total - own) * k`, as the difference of two numbers.
struct Gain {
    plus: Natural,
    minus: Natural,
}

impl Gain {
    spec fn view(&self) -> int {
        self.plus@ - self.minus@
    }

    fn new(into: &Natural, rest: &Natural, k: &Natural, two_m: &Natural) -> (g: Self)
        ensures
            g@ == into@ * two_m@ - rest@ * k@,
    {
        Gain { plus: into.times(two_m), minus: rest.times(k) }
    }

    /// Whether this gain is larger than another, and whether it is equal to it.
    fn against(&self, other: &Self) -> (res: (bool, bool))
        ensures
            res.0 == (self@ > other@),
            res.1 == (self@ == other@),
    {
        let mine: Natural = self.plus.plus(&other.minus);
        let theirs: Natural = other.plus.plus(&self.minus);
        (theirs.less_than(&mine), theirs.equals(&mine))
    }
}

/// What the sweeps keep: the assignment, the totals of its communities, and the degrees.
struct Placement {
    comm: Vec<usize>,
    totals: Vec<Natural>,
}

impl Placement {
    spec fn assigned(self) -> Seq<int> {
        ints(self.comm@)
    }

    spec fn wf(self, l: level::Level) -> bool {
        &&& level::assignment(l, self.assigned())
        &&& self.totals.len() == l.n
        &&& forall|c: int|
            0 <= c < l.n ==> (#[trigger] self.totals[c])@ == level::total(l, self.assigned(), c)
    }
}

/// The per-level tables that do not change while nodes move.
struct Tables {
    adj: Vec<Vec<(usize, u128)>>,
    k: Vec<Natural>,
    two_m: Natural,
}

impl Tables {
    spec fn wf(self, l: level::Level) -> bool {
        &&& fits(l)
        &&& adjacent(l, self.adj@)
        &&& self.k.len() == l.n
        &&& forall|i: int| 0 <= i < l.n ==> (#[trigger] self.k[i])@ == level::degree(l, i)
        &&& self.two_m@ == level::two_m(l)
    }
}

/// The community that node `i` is placed in. `into` is a scratch list of zeros, and is handed
/// back as one.
fn best_community(
    t: &Tables,
    p: &Placement,
    i: usize,
    into: &mut Vec<Natural>,
    Ghost(l): Ghost<level::Level>,
) -> (c: usize)
    requires
        t.wf(l),
        p.wf(l),
        i < l.n,
        old(into).len() == l.n,
        forall|c: int| 0 <= c < l.n ==> (#[trigger] old(into)[c])@ == 0,
    ensures
        final(into).len() == l.n,
        forall|c: int| 0 <= c < l.n ==> (#[trigger] final(into)[c])@ == 0,
        c == louvain::best(l, p.assigned(), i as int),
        c < l.n,
{
    let ghost comm = p.assigned();
    let ghost all = ends(l.edges, i as int);
    proof {
        assert(ends_of(t.adj[i as int]@) == all);
        lemma_ends_reach(l.edges, comm, i as int);
        assert(all.take(0) =~= Seq::empty());
        assert forall|q: int| 0 <= q < all.len() implies 0 <= (#[trigger] all[q]).0 < l.n by {
            let k = choose|k: int|
                0 <= k < l.edges.len() && louvain::reaches(
                    #[trigger] l.edges[k],
                    comm,
                    i as int,
                    comm[all[q].0],
                ) && (l.edges[k].0 == all[q].0 || l.edges[k].1 == all[q].0) && l.edges[k].2
                    == all[q].1;
            assert(0 <= l.edges[k].0 < l.n && 0 <= l.edges[k].1 < l.n);
        }
    }
    let deg: usize = t.adj[i].len();
    let mut s: usize = 0;
    while s < deg
        invariant
            t.wf(l),
            p.wf(l),
            i < l.n,
            comm == p.assigned(),
            all == ends(l.edges, i as int),
            ends_of(t.adj[i as int]@) == all,
            deg == t.adj[i as int].len(),
            forall|q: int| 0 <= q < all.len() ==> 0 <= (#[trigger] all[q]).0 < l.n,
            s <= deg,
            into.len() == l.n,
            forall|c: int|
                0 <= c < l.n ==> (#[trigger] into[c])@ == sum_ends(
                    all.take(s as int),
                    end_into(comm, c),
                ),
        decreases deg - s,
    {
        let (j, w) = t.adj[i][s];
        assert(all[s as int] == (j as int, w as int));
        let c: usize = p.comm[j];
        assert(comm[j as int] == c);
        let ghost before = into@;
        proof {
            assert(all.take(s + 1).drop_last() =~= all.take(s as int));
            assert(all.take(s + 1).last() == all[s as int]);
        }
        let more: Natural = into[c].plus(&Natural::from_u128(w));
        into.set(c, more);
        proof {
            assert forall|d: int| 0 <= d < l.n implies (#[trigger] into[d])@ == sum_ends(
                all.take(s + 1),
                end_into(comm, d),
            ) by {
                assert(before[d]@ == sum_ends(all.take(s as int), end_into(comm, d)));
            }
        }
        s += 1;
    }
    proof {
        assert(all.take(all.len() as int) =~= all);
        assert forall|c: int| 0 <= c < l.n implies (#[trigger] into[c])@ == level::weight_into(
            l,
            comm,
            i as int,
            c,
        ) by {
            lemma_ends(l.edges, comm, i as int, c);
        }
    }
    let own: usize = p.comm[i];
    assert(comm[i as int] == own);
    let k_i: &Natural = &t.k[i];
    proof {
        level::lemma_bounds(l, comm, i as int, own as int);
    }
    let mut best: usize = own;
    let others: Natural = p.totals[own].minus(k_i);
    let mut best_gain: Gain = Gain::new(&into[own], &others, k_i, &t.two_m);
    let mut s: usize = 0;
    while s < deg
        invariant
            t.wf(l),
            p.wf(l),
            i < l.n,
            comm == p.assigned(),
            all == ends(l.edges, i as int),
            ends_of(t.adj[i as int]@) == all,
            deg == t.adj[i as int].len(),
            forall|q: int| 0 <= q < all.len() ==> 0 <= (#[trigger] all[q]).0 < l.n,
            s <= deg,
            into.len() == l.n,
            forall|c: int|
                0 <= c < l.n ==> (#[trigger] into[c])@ == level::weight_into(l, comm, i as int, c),
            own == comm[i as int],
            k_i@ == level::degree(l, i as int),
            others@ == level::total(l, comm, own as int) - k_i@,
            best < l.n,
            best_gain@ == level::gain(l, comm, i as int, best as int),
            best == own || exists|q: int| 0 <= q < s && comm[(#[trigger] all[q]).0] == best,
            louvain::preferred(l, comm, i as int, best as int, own as int),
            forall|q: int|
                0 <= q < s ==> louvain::preferred(
                    l,
                    comm,
                    i as int,
                    best as int,
                    comm[(#[trigger] all[q]).0],
                ),
        decreases deg - s,
    {
        let j: usize = t.adj[i][s].0;
        assert(all[s as int].0 == j);
        let c: usize = p.comm[j];
        assert(comm[j as int] == c);
        let g: Gain = if c == own {
            Gain::new(&into[c], &others, k_i, &t.two_m)
        } else {
            Gain::new(&into[c], &p.totals[c], k_i, &t.two_m)
        };
        assert(g@ == level::gain(l, comm, i as int, c as int));
        let (larger, equal): (bool, bool) = g.against(&best_gain);
        if larger || (equal && best != own && (c == own || c < best)) {
            best = c;
            best_gain = g;
            assert(comm[all[s as int].0] == best);
        }
        s += 1;
    }
    proof {
        assert(louvain::candidate(l, comm, i as int, best as int)) by {
            if best != own {
                let q = choose|q: int| 0 <= q < deg && comm[(#[trigger] all[q]).0] == best;
                assert(comm[all[q].0] == best);
            }
        }
        assert forall|d: int| #[trigger] louvain::candidate(
            l,
            comm,
            i as int,
            d,
        ) implies louvain::preferred(l, comm, i as int, best as int, d) by {
            if d != own {
                let k = choose|k: int|
                    0 <= k < l.edges.len() && louvain::reaches(
                        #[trigger] l.edges[k],
                        comm,
                        i as int,
                        d,
                    );
                assert(louvain::reaches(l.edges[k], comm, i as int, d));
                let q = choose|q: int| 0 <= q < all.len() && comm[(#[trigger] all[q]).0] == d;
                assert(comm[all[q].0] == d);
            }
        }
        assert(louvain::is_best(l, comm, i as int, best as int));
        louvain::lemma_best_unique(l, comm, i as int, best as int);
    }
    let mut s: usize = 0;
    while s < deg
        invariant
            t.wf(l),
            p.wf(l),
            i < l.n,
            comm == p.assigned(),
            all == ends(l.edges, i as int),
            ends_of(t.adj[i as int]@) == all,
            deg == t.adj[i as int].len(),
            forall|q: int| 0 <= q < all.len() ==> 0 <= (#[trigger] all[q]).0 < l.n,
            s <= deg,
            into.len() == l.n,
            forall|c: int|
                0 <= c < l.n ==> (#[trigger] into[c])@ == 0 || (into[c]@ == level::weight_into(
                    l,
                    comm,
                    i as int,
                    c,
                ) && forall|q: int| 0 <= q < s ==> comm[(#[trigger] all[q]).0] != c),
        decreases deg - s,
    {
        let j: usize = t.adj[i][s].0;
        assert(all[s as int].0 == j);
        let c: usize = p.comm[j];
        assert(comm[j as int] == c);
        into.set(c, Natural::zero());
        s += 1;
    }
    proof {
        assert forall|c: int| 0 <= c < l.n implies (#[trigger] into[c])@ == 0 by {
            if into[c]@ != 0 {
                lemma_ends(l.edges, comm, i as int, c);
                lemma_sum_ends_none(all, end_into(comm, c));
            }
        }
    }
    best
}

proof fn lemma_sum_ends_none(s: Seq<(int, int)>, f: spec_fn((int, int)) -> int)
    requires
        forall|k: int| 0 <= k < s.len() ==> f(#[trigger] s[k]) == 0,
    ensures
        sum_ends(s, f) == 0,
    decreases s.len(),
{
    if s.len() > 0 {
        let p = s.drop_last();
        assert forall|k: int| 0 <= k < p.len() implies f(#[trigger] p[k]) == 0 by {
            assert(p[k] == s[k]);
        }
        lemma_sum_ends_none(p, f);
        assert(s.last() == s[s.len() - 1]);
    }
}

/// Visits every node once, in order, and places it. Says whether any node moved.
fn sweep_nodes(
    t: &Tables,
    p: &mut Placement,
    into: &mut Vec<Natural>,
    Ghost(l): Ghost<level::Level>,
) -> (moved: bool)
    requires
        t.wf(l),
        old(p).wf(l),
        old(into).len() == l.n,
        forall|c: int| 0 <= c < l.n ==> (#[trigger] old(into)[c])@ == 0,
    ensures
        final(into).len() == l.n,
        forall|c: int| 0 <= c < l.n ==> (#[trigger] final(into)[c])@ == 0,
        final(p).wf(l),
        final(p).assigned() == louvain::sweep(l, old(p).assigned(), l.n),
        moved <==> final(p).assigned() != old(p).assigned(),
{
    let ghost start = p.assigned();
    let n: usize = p.comm.len();
    let mut moved: bool = false;
    let mut i: usize = 0;
    while i < n
        invariant
            t.wf(l),
            p.wf(l),
            n == l.n,
            i <= n,
            level::assignment(l, start),
            into.len() == l.n,
            forall|c: int| 0 <= c < l.n ==> (#[trigger] into[c])@ == 0,
            p.assigned() == louvain::sweep(l, start, i as int),
            !moved ==> p.assigned() == start,
            moved ==> level::score(l, p.assigned()) > level::score(l, start),
        decreases n - i,
    {
        let ghost before = p.assigned();
        let c: usize = best_community(t, p, i, into, Ghost(l));
        let own: usize = p.comm[i];
        assert(before[i as int] == own);
        proof {
            louvain::lemma_place(l, before, i as int);
        }
        if c != own {
            let k_i: &Natural = &t.k[i];
            proof {
                level::lemma_bounds(l, before, i as int, own as int);
            }
            let less: Natural = p.totals[own].minus(k_i);
            p.totals.set(own, less);
            let more: Natural = p.totals[c].plus(k_i);
            p.totals.set(c, more);
            p.comm.set(i, c);
            proof {
                assert(p.assigned() =~= before.update(i as int, c as int));
                assert forall|d: int| 0 <= d < l.n implies (#[trigger] p.totals[d])@ == level::total(
                    l,
                    p.assigned(),
                    d,
                ) by {
                    level::lemma_total_move(l, before, i as int, c as int, d);
                }
            }
            moved = true;
        }
        i += 1;
    }
    moved
}

/// Sweeps from singletons until nothing moves.
fn settle_nodes(t: &Tables, n: usize, Ghost(l): Ghost<level::Level>) -> (res: (Vec<usize>, bool))
    requires
        t.wf(l),
        n == l.n,
    ensures
        ints(res.0@) == louvain::settle(l),
        level::assignment(l, ints(res.0@)),
        res.1 <==> louvain::settle(l) != level::singletons(l.n),
{
    let mut comm: Vec<usize> = Vec::new();
    let mut totals: Vec<Natural> = Vec::new();
    let mut into: Vec<Natural> = Vec::new();
    let mut i: usize = 0;
    while i < n
        invariant
            t.wf(l),
            n == l.n,
            i <= n,
            comm.len() == i,
            totals.len() == i,
            into.len() == i,
            forall|j: int| 0 <= j < i ==> #[trigger] comm[j] == j,
            forall|j: int| 0 <= j < i ==> (#[trigger] totals[j])@ == level::degree(l, j),
            forall|j: int| 0 <= j < i ==> (#[trigger] into[j])@ == 0,
        decreases n - i,
    {
        comm.push(i);
        totals.push(t.k[i].same());
        into.push(Natural::zero());
        i += 1;
    }
    let mut p = Placement { comm, totals };
    proof {
        assert(p.assigned() =~= level::singletons(l.n));
        assert forall|c: int| 0 <= c < l.n implies (#[trigger] p.totals[c])@ == level::total(
            l,
            p.assigned(),
            c,
        ) by {
            sums::lemma_sum_to_single(l.n, c, level::member_degrees(l, p.assigned(), c));
        }
        assert(louvain::sweeps(l, 0) == level::singletons(l.n));
        level::lemma_score_bound(l, p.assigned());
    }
    let mut improved: bool = true;
    let mut any_move: bool = false;
    let ghost mut rounds: nat = 0;
    while improved
        invariant
            t.wf(l),
            n == l.n,
            p.wf(l),
            into.len() == l.n,
            forall|j: int| 0 <= j < l.n ==> (#[trigger] into[j])@ == 0,
            p.assigned() == louvain::sweeps(l, rounds),
            !improved ==> louvain::sweep(l, p.assigned(), l.n) == p.assigned(),
            any_move <==> p.assigned() != level::singletons(l.n),
            level::score(l, p.assigned()) <= level::two_m(l) * level::two_m(l),
        decreases
                level::two_m(l) * level::two_m(l) - level::score(l, p.assigned()),
                improved as int,
    {
        let ghost before = p.assigned();
        improved = sweep_nodes(t, &mut p, &mut into, Ghost(l));
        proof {
            louvain::lemma_sweep(l, before, l.n);
            level::lemma_score_bound(l, p.assigned());
            rounds = rounds + 1;
            louvain::lemma_sweeps(l, rounds);
            louvain::lemma_sweeps(l, (rounds - 1) as nat);
        }
        if improved {
            any_move = true;
        }
    }
    proof {
        assert(louvain::settled(l, p.assigned()));
        louvain::lemma_settle_unique(l, p.assigned());
    }
    (p.comm, any_move)
}

// ---------------------------------------------------------------------------
// Aggregation
// ---------------------------------------------------------------------------

/// Renumbers the values of a list `0, 1, 2, ...` in order of first appearance, and counts them.
fn renumber_list(s: &Vec<usize>, bound: usize) -> (res: (Vec<usize>, usize))
    requires
        forall|i: int| 0 <= i < s.len() ==> #[trigger] s[i] < bound,
    ensures
        ints(res.0@) == louvain::renumber(ints(s@)),
        res.1 == louvain::firsts(ints(s@)).len(),
{
    let ghost all = ints(s@);
    let mut seen: Vec<Option<usize>> = Vec::new();
    let mut c: usize = 0;
    while c < bound
        invariant
            c <= bound,
            seen.len() == c,
            forall|d: int| 0 <= d < c ==> #[trigger] seen[d] is None,
        decreases bound - c,
    {
        seen.push(None);
        c += 1;
    }
    let mut out: Vec<usize> = Vec::new();
    let mut count: usize = 0;
    let mut i: usize = 0;
    assert(all.take(0) =~= Seq::empty());
    while i < s.len()
        invariant
            all == ints(s@),
            forall|j: int| 0 <= j < s.len() ==> #[trigger] s[j] < bound,
            seen.len() == bound,
            i <= s.len(),
            out.len() == i,
            count == louvain::firsts(all.take(i as int)).len(),
            count <= i,
            forall|d: int|
                0 <= d < bound ==> match #[trigger] seen[d] {
                    Some(k) => k < count && louvain::firsts(all.take(i as int))[k as int] == d,
                    None => !louvain::firsts(all.take(i as int)).contains(d),
                },
            forall|j: int|
                0 <= j < i ==> #[trigger] out[j] < count && louvain::firsts(
                    all.take(i as int),
                )[out[j] as int] == all[j],
        decreases s.len() - i,
    {
        let v: usize = s[i];
        let ghost f = louvain::firsts(all.take(i as int));
        let ghost g = louvain::firsts(all.take(i + 1));
        let ghost seen_before = seen@;
        let ghost out_before = out@;
        proof {
            assert(all.take(i + 1).drop_last() =~= all.take(i as int));
            assert(all.take(i + 1).last() == v);
        }
        match seen[v] {
            Some(k) => {
                assert(f.contains(f[k as int]));
                out.push(k);
            },
            None => {
                out.push(count);
                seen.set(v, Some(count));
                count += 1;
            },
        }
        proof {
            assert forall|d: int| 0 <= d < bound implies match #[trigger] seen[d] {
                Some(k) => k < count && g[k as int] == d,
                None => !g.contains(d),
            } by {
                let _ = seen_before[d];
            }
            assert forall|j: int| 0 <= j < i + 1 implies #[trigger] out[j] < count && g[out[j] as int]
                == all[j] by {
                if j < i {
                    assert(out[j] == out_before[j]);
                    assert(f[out_before[j] as int] == all[j]);
                }
            }
        }
        i += 1;
    }
    proof {
        assert(all.take(all.len() as int) =~= all);
        assert forall|j: int| 0 <= j < all.len() implies ints(out@)[j] == louvain::renumber(
            all,
        )[j] by {
            louvain::lemma_renumber(all, j);
            assert(out[j] < count);
        }
        assert(ints(out@) =~= louvain::renumber(all));
    }
    (out, count)
}

/// The weight that one more node adds to the loops of the groups.
proof fn lemma_loop_added(
    l: level::Level,
    g: Seq<int>,
    before: Seq<Natural>,
    after: Seq<Natural>,
    i: int,
)
    requires
        0 <= i < g.len(),
        0 <= g[i] < before.len(),
        after.len() == before.len(),
        forall|d: int|
            0 <= d < before.len() && d != g[i] ==> #[trigger] after[d] == before[d],
        after[g[i]]@ == before[g[i]]@ + l.loops[i],
        forall|d: int|
            0 <= d < before.len() ==> (#[trigger] before[d])@ == sums::sum_to(
                i,
                louvain::member_loops(l, g, d),
            ),
    ensures
        forall|d: int|
            0 <= d < after.len() ==> (#[trigger] after[d])@ == sums::sum_to(
                i + 1,
                louvain::member_loops(l, g, d),
            ),
{
    assert forall|d: int| 0 <= d < after.len() implies (#[trigger] after[d])@ == sums::sum_to(
        i + 1,
        louvain::member_loops(l, g, d),
    ) by {
        assert(before[d]@ == sums::sum_to(i, louvain::member_loops(l, g, d)));
    }
}

/// The loops of the members of every group `0..m` of `r`, summed.
#[verifier::spinoff_prover]
fn member_loops(
    loops: &Vec<Natural>,
    r: &Vec<usize>,
    m: usize,
    Ghost(l): Ghost<level::Level>,
) -> (res: Vec<Natural>)
    requires
        l.n == loops.len(),
        l.loops == values(loops@),
        contraction::grouping(l, ints(r@), m as int),
    ensures
        res.len() == m,
        forall|c: int|
            0 <= c < m ==> (#[trigger] res[c])@ == sums::sum_to(
                l.n,
                louvain::member_loops(l, ints(r@), c),
            ),
{
    let ghost g = ints(r@);
    let mut res: Vec<Natural> = Vec::new();
    let mut c: usize = 0;
    while c < m
        invariant
            c <= m,
            res.len() == c,
            forall|d: int| 0 <= d < c ==> (#[trigger] res[d])@ == 0,
        decreases m - c,
    {
        res.push(Natural::zero());
        c += 1;
    }
    let mut i: usize = 0;
    while i < loops.len()
        invariant
            g == ints(r@),
            l.n == loops.len(),
            l.loops == values(loops@),
            contraction::grouping(l, g, m as int),
            i <= loops.len(),
            res.len() == m,
            forall|d: int|
                0 <= d < m ==> (#[trigger] res[d])@ == sums::sum_to(
                    i as int,
                    louvain::member_loops(l, g, d),
                ),
        decreases loops.len() - i,
    {
        assert(0 <= g[i as int] < m);
        let c: usize = r[i];
        let ghost before = res@;
        let more: Natural = res[c].plus(&loops[i]);
        res.set(c, more);
        proof {
            assert(l.loops[i as int] == loops[i as int]@);
            lemma_loop_added(l, g, before, res@, i as int);
        }
        i += 1;
    }
    res
}

/// The loop weights of the groups when the first `k` edges have been sorted in.
spec fn loops_after(l: level::Level, g: Seq<int>, loops: Seq<Natural>, k: int) -> bool {
    forall|c: int|
        0 <= c < loops.len() ==> (#[trigger] loops[c])@ == sums::sum_to(
            l.n,
            louvain::member_loops(l, g, c),
        ) + sums::sum_edges(l.edges.take(k), louvain::inside_group(g, c))
}

/// What one more edge adds to the loops of the groups: its weight, where it lies in one group.
proof fn lemma_inside_added(
    l: level::Level,
    g: Seq<int>,
    before: Seq<Natural>,
    after: Seq<Natural>,
    k: int,
)
    requires
        0 <= k < l.edges.len(),
        loops_after(l, g, before, k),
        after.len() == before.len(),
        forall|d: int|
            0 <= d < before.len() ==> (#[trigger] after[d])@ == before[d]@ + level::if_in(
                g[l.edges[k].0] == d && g[l.edges[k].1] == d,
                l.edges[k].2,
            ),
    ensures
        loops_after(l, g, after, k + 1),
{
    let next = l.edges.take(k + 1);
    assert(next.drop_last() =~= l.edges.take(k));
    assert(next.last() == l.edges[k]);
    assert forall|c: int| 0 <= c < after.len() implies (#[trigger] after[c])@ == sums::sum_to(
        l.n,
        louvain::member_loops(l, g, c),
    ) + sums::sum_edges(next, louvain::inside_group(g, c)) by {
        assert(before[c]@ == sums::sum_to(l.n, louvain::member_loops(l, g, c))
            + sums::sum_edges(l.edges.take(k), louvain::inside_group(g, c)));
    }
}

/// Contracts the groups `0..m` of `r` into the nodes of a smaller level.
#[verifier::spinoff_prover]
fn contract_level(
    edges: &Vec<(usize, usize, u128)>,
    loops: &Vec<Natural>,
    r: &Vec<usize>,
    m: usize,
) -> (res: (Vec<(usize, usize, u128)>, Vec<Natural>))
    requires
        fits(level_of(edges@, loops@)),
        contraction::grouping(level_of(edges@, loops@), ints(r@), m as int),
    ensures
        level_of(res.0@, res.1@) == louvain::contract(
            level_of(edges@, loops@),
            ints(r@),
            m as int,
        ),
{
    let ghost l = level_of(edges@, loops@);
    let ghost g = ints(r@);
    let mut new_loops: Vec<Natural> = member_loops(loops, r, m, Ghost(l));
    let mut new_edges: Vec<(usize, usize, u128)> = Vec::new();
    let mut k: usize = 0;
    proof {
        assert(l.edges.take(0) =~= Seq::empty());
        assert(edges_of(new_edges@) =~= Seq::empty());
    }
    while k < edges.len()
        invariant
            l == level_of(edges@, loops@),
            g == ints(r@),
            l.wf(),
            contraction::grouping(l, g, m as int),
            k <= edges.len(),
            new_loops.len() == m,
            loops_after(l, g, new_loops@, k as int),
            edges_of(new_edges@) == louvain::crossing(l.edges.take(k as int), g),
        decreases edges.len() - k,
    {
        let (a, b, w): (usize, usize, u128) = edges[k];
        proof {
            let next = l.edges.take(k + 1);
            assert(l.edges[k as int] == edge_of(edges[k as int]));
            assert(0 <= l.edges[k as int].0 < l.n && 0 <= l.edges[k as int].1 < l.n);
            assert(next.drop_last() =~= l.edges.take(k as int));
            assert(next.last() == l.edges[k as int]);
            assert(0 <= g[a as int] < m);
        }
        let ra: usize = r[a];
        let rb: usize = r[b];
        assert(g[a as int] == ra && g[b as int] == rb);
        let ghost loops_before = new_loops@;
        let ghost edges_before = new_edges@;
        if ra == rb {
            let more: Natural = new_loops[ra].plus(&Natural::from_u128(w));
            new_loops.set(ra, more);
        } else {
            new_edges.push((ra, rb, w));
            assert(edges_of(new_edges@) =~= edges_of(edges_before).push(
                (ra as int, rb as int, w as int),
            ));
        }
        proof {
            lemma_inside_added(l, g, loops_before, new_loops@, k as int);
        }
        k += 1;
    }
    proof {
        assert(l.edges.take(l.edges.len() as int) =~= l.edges);
        let top = louvain::contract(l, g, m as int);
        assert(values(new_loops@) =~= top.loops);
        assert(level_of(new_edges@, new_loops@) =~= top);
    }
    (new_edges, new_loops)
}

// ---------------------------------------------------------------------------
// All levels
// ---------------------------------------------------------------------------

pub open spec fn no_loops(n: int) -> Seq<int> {
    Seq::new(n as nat, |i: int| 0int)
}

/// The level that a graph with `n` nodes and the given edges stands for.
pub open spec fn base_level(edges: Seq<sums::Edge>, n: int) -> level::Level {
    level::Level { n, edges, loops: no_loops(n) }
}

/// Community detection on an edge list: the community of every node, numbered in order of
/// first appearance, and the number of communities.
pub fn detect_communities(edges: Vec<(usize, usize, u128)>, n: usize) -> (res: (Vec<usize>, usize))
    requires
        base_level(edges_of(edges@), n as int).wf(),
    ensures
        ints(res.0@) == louvain_laws::communities(base_level(edges_of(edges@), n as int)),
        res.1 == louvain_laws::community_count(base_level(edges_of(edges@), n as int)),
{
    let ghost base = base_level(edges_of(edges@), n as int);
    let mut loops: Vec<Natural> = Vec::new();
    let mut node_community: Vec<usize> = Vec::new();
    let mut i: usize = 0;
    while i < n
        invariant
            i <= n,
            loops.len() == i,
            node_community.len() == i,
            forall|j: int| 0 <= j < i ==> (#[trigger] loops[j])@ == 0,
            forall|j: int| 0 <= j < i ==> #[trigger] node_community[j] == j,
        decreases n - i,
    {
        loops.push(Natural::zero());
        node_community.push(i);
        i += 1;
    }
    let mut edges: Vec<(usize, usize, u128)> = edges;
    proof {
        assert(level_of(edges@, loops@) =~= base);
        louvain_laws::lemma_labels_len(base);
    }
    let mut done: bool = false;
    while !done
        invariant
            base.wf(),
            base.n == n,
            louvain::labels(base).len() == n,
            fits(level_of(edges@, loops@)),
            node_community.len() == n,
            forall|j: int|
                0 <= j < n ==> #[trigger] node_community[j] < loops.len() && louvain::labels(
                    base,
                )[j] == louvain::labels(level_of(edges@, loops@))[node_community[j] as int],
            loops.len() <= n,
            done ==> louvain::labels(level_of(edges@, loops@)) == level::singletons(
                loops.len() as int,
            ),
        decreases loops.len(), !done as int,
    {
        let ghost l = level_of(edges@, loops@);
        proof {
            assert forall|k: int| 0 <= k < edges.len() implies (#[trigger] edges[k]).0 < loops.len()
                && edges[k].1 < loops.len() by {
                assert(l.edges[k] == edge_of(edges[k]));
                assert(0 <= l.edges[k].0 < l.n);
            }
        }
        let adj = neighbours(&edges, loops.len());
        let k = degree_list(&edges, &loops, &adj);
        let two_m: Natural = degree_sum(&k, Ghost(l));
        if two_m.is_zero() {
            done = true;
        } else {
            let t = Tables { adj, k, two_m };
            let (community, any_move) = settle_nodes(&t, loops.len(), Ghost(l));
            if !any_move {
                done = true;
            } else {
                proof {
                    assert forall|j: int| 0 <= j < community.len() implies #[trigger] community[j]
                        < loops.len() by {
                        assert(ints(community@)[j] == community[j]);
                    }
                }
                let (r, num_c) = renumber_list(&community, loops.len());
                let ghost g = ints(r@);
                proof {
                    louvain_laws::lemma_labels_step(l);
                }
                let (new_edges, new_loops) = contract_level(&edges, &loops, &r, num_c);
                let ghost top = level_of(new_edges@, new_loops@);
                proof {
                    contraction::lemma_contract_two_m(l, g, num_c as int);
                }
                let ghost before = node_community@;
                let mut j: usize = 0;
                while j < n
                    invariant
                        j <= n,
                        node_community.len() == n,
                        before.len() == n,
                        r.len() == l.n,
                        forall|q: int| 0 <= q < n ==> #[trigger] before[q] < l.n,
                        forall|q: int|
                            0 <= q < j ==> #[trigger] node_community[q] == r[before[q] as int],
                        forall|q: int| j <= q < n ==> #[trigger] node_community[q] == before[q],
                    decreases n - j,
                {
                    let super_ix: usize = node_community[j];
                    assert(super_ix == before[j as int]);
                    node_community.set(j, r[super_ix]);
                    j += 1;
                }
                proof {
                    assert forall|q: int| 0 <= q < n implies #[trigger] node_community[q]
                        < new_loops.len() && louvain::labels(base)[q] == louvain::labels(
                        top,
                    )[node_community[q] as int] by {
                        let b = before[q] as int;
                        assert(before[q] < loops.len());
                        assert(g[b] == r[b]);
                        assert(louvain::compose(louvain::labels(top), g)[b] == louvain::labels(
                            top,
                        )[g[b]]);
                    }
                }
                edges = new_edges;
                loops = new_loops;
            }
        }
    }
    proof {
        assert(ints(node_community@) =~= louvain::labels(base));
    }
    renumber_list(&node_community, n)
}

} // verus!
