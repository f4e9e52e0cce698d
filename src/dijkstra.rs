use vstd::prelude::*;

use crate::heap::{decrease_key, heap_ok, lemma_push_fresh, lemma_root_min, pop_min, pos_ok, same_members, sift_up};
use crate::graph::{allowed, is_allowed, max_rise, max_weight, Graph, MAX_COEFFICIENT, MAX_NODES};

verus! {

/// Which quantity a search minimises.
#[derive(Clone, Copy, Debug, PartialEq, Eq, Structural)]
pub enum Dijkstra {
    Elevation,
    Multiplier,
}

/// A Lagrangian multiplier `num / den`: an edge costs `den * weight + num * rise`.
/// A zero denominator stands for an infinite multiplier (rise only).
#[derive(Clone, Copy, Debug, PartialEq, Eq, Structural)]
pub struct Multiplier {
    pub num: u64,
    pub den: u64,
}

/// A found route: the visited nodes, the edges taken, the summed weight,
/// the summed positive rise, and the multiplier that produced it.
#[derive(Clone, Debug)]
pub struct DijkstraResult {
    pub path: Vec<usize>,
    pub edges: Vec<usize>,
    pub distance: u64,
    pub ele_rise: u64,
    pub multiplier: Option<Multiplier>,
}

pub open spec fn coefficients(min_of: Dijkstra, multiplier: Option<Multiplier>) -> Multiplier {
    match min_of {
        Dijkstra::Elevation => Multiplier { num: 1, den: 0 },
        Dijkstra::Multiplier => multiplier.unwrap(),
    }
}

pub open spec fn combined(k: Multiplier, weight: int, rise: int) -> int {
    k.den * weight + k.num * rise
}

pub open spec fn coefficient_ok(k: Multiplier) -> bool {
    k.num <= MAX_COEFFICIENT && k.den <= MAX_COEFFICIENT
}

pub open spec fn max_edge_cost(k: Multiplier) -> int {
    combined(k, max_weight(), max_rise())
}

pub open spec fn count_true(s: Seq<bool>) -> nat
    decreases s.len(),
{
    if s.len() == 0 {
        0
    } else {
        count_true(s.drop_last()) + if s.last() {
            1nat
        } else {
            0nat
        }
    }
}

proof fn lemma_count_le(s: Seq<bool>)
    ensures
        count_true(s) <= s.len(),
    decreases s.len(),
{
    if s.len() > 0 {
        lemma_count_le(s.drop_last());
    }
}

proof fn lemma_count_set(s: Seq<bool>, i: int)
    requires
        0 <= i < s.len(),
        !s[i],
    ensures
        count_true(s.update(i, true)) == count_true(s) + 1,
    decreases s.len(),
{
    let t = s.update(i, true);
    if i == s.len() - 1 {
        assert(t.drop_last() =~= s.drop_last());
    } else {
        assert(t.drop_last() =~= s.drop_last().update(i, true));
        lemma_count_set(s.drop_last(), i);
    }
}

proof fn lemma_count_none(s: Seq<bool>)
    requires
        forall|i: int| 0 <= i < s.len() ==> !#[trigger] s[i],
    ensures
        count_true(s) == 0,
    decreases s.len(),
{
    if s.len() > 0 {
        let t = s.drop_last();
        assert forall|i: int| 0 <= i < t.len() implies !#[trigger] t[i] by {
            assert(t[i] == s[i]);
        }
        lemma_count_none(t);
        assert(!s[s.len() - 1]);
    }
}

proof fn lemma_cost_bound(k: Multiplier, w: int, r: int)
    requires
        coefficient_ok(k),
        0 <= w <= max_weight(),
        0 <= r <= max_rise(),
    ensures
        0 <= combined(k, w, r) <= max_edge_cost(k),
        max_edge_cost(k) * MAX_NODES < u128::MAX,
{
    let d = k.den as int;
    let n = k.num as int;
    assert(0 <= d * w <= d * max_weight()) by (nonlinear_arith)
        requires 0 <= d, 0 <= w <= max_weight();
    assert(0 <= n * r <= n * max_rise()) by (nonlinear_arith)
        requires 0 <= n, 0 <= r <= max_rise();
    assert(d * max_weight() <= MAX_COEFFICIENT * max_weight()) by (nonlinear_arith)
        requires 0 <= d <= MAX_COEFFICIENT;
    assert(n * max_rise() <= MAX_COEFFICIENT * max_rise()) by (nonlinear_arith)
        requires 0 <= n <= MAX_COEFFICIENT;
    let m = max_edge_cost(k);
    assert(m <= MAX_COEFFICIENT * max_weight() + MAX_COEFFICIENT * max_rise());
    assert(0 <= m);
    assert(m * MAX_NODES <= (MAX_COEFFICIENT * max_weight() + MAX_COEFFICIENT * max_rise())
        * MAX_NODES) by (nonlinear_arith)
        requires 0 <= m <= MAX_COEFFICIENT * max_weight() + MAX_COEFFICIENT * max_rise();
}

proof fn lemma_mul_step(c: int, m: int, n: int)
    requires
        0 <= c < n,
        0 <= m,
    ensures
        c * m + m == (c + 1) * m,
        (c + 1) * m <= n * m,
        c * m <= n * m,
{
    assert(c * m + m == (c + 1) * m) by (nonlinear_arith);
    assert((c + 1) * m <= n * m) by (nonlinear_arith)
        requires 0 <= c < n, 0 <= m;
    assert(c * m <= n * m) by (nonlinear_arith)
        requires 0 <= c < n, 0 <= m;
}

impl Graph {
    pub open spec fn edge_cost(&self, mode: usize, use_distance: bool, k: Multiplier, e: int) -> int {
        combined(k, self.weight(e, mode, use_distance), self.rise(e))
    }

    pub open spec fn walk_cost(
        &self,
        mode: usize,
        use_distance: bool,
        k: Multiplier,
        p: Seq<usize>,
    ) -> int {
        combined(k, self.walk_weight(mode, use_distance, p), self.walk_rise(p))
    }

    /// `res` holds a walk from `start` to `end` and reports its nodes,
    /// weight and rise exactly.
    pub open spec fn describes(
        &self,
        mode: usize,
        use_distance: bool,
        start: usize,
        end: usize,
        res: DijkstraResult,
    ) -> bool {
        &&& self.is_walk(mode, start as int, end as int, res.edges@)
        &&& res.path@ == self.walk_nodes(start, res.edges@)
        &&& res.distance == self.walk_weight(mode, use_distance, res.edges@)
        &&& res.ele_rise == self.walk_rise(res.edges@)
    }

    /// `res` describes a walk from `start` to `end`, and no walk between the
    /// two costs less under `k`.
    pub open spec fn is_optimal(
        &self,
        mode: usize,
        use_distance: bool,
        k: Multiplier,
        start: usize,
        end: usize,
        res: DijkstraResult,
    ) -> bool {
        &&& self.describes(mode, use_distance, start, end, res)
        &&& forall|p: Seq<usize>|
            #[trigger] self.is_walk(mode, start as int, end as int, p) ==> self.walk_cost(
                mode,
                use_distance,
                k,
                res.edges@,
            ) <= self.walk_cost(mode, use_distance, k, p)
    }

    pub proof fn lemma_cost_push(
        &self,
        mode: usize,
        use_distance: bool,
        k: Multiplier,
        p: Seq<usize>,
    )
        requires
            p.len() > 0,
        ensures
            self.walk_cost(mode, use_distance, k, p) == self.walk_cost(
                mode,
                use_distance,
                k,
                p.drop_last(),
            ) + self.edge_cost(mode, use_distance, k, p.last() as int),
    {
        let w0 = self.walk_weight(mode, use_distance, p.drop_last());
        let r0 = self.walk_rise(p.drop_last());
        let w1 = self.weight(p.last() as int, mode, use_distance);
        let r1 = self.rise(p.last() as int);
        let d = k.den as int;
        let n = k.num as int;
        assert(d * (w0 + w1) + n * (r0 + r1) == (d * w0 + n * r0) + (d * w1 + n * r1))
            by (nonlinear_arith);
    }

    pub proof fn lemma_cost_prepend(
        &self,
        mode: usize,
        use_distance: bool,
        k: Multiplier,
        e: usize,
        p: Seq<usize>,
    )
        ensures
            self.walk_cost(mode, use_distance, k, seq![e] + p) == self.edge_cost(
                mode,
                use_distance,
                k,
                e as int,
            ) + self.walk_cost(mode, use_distance, k, p),
    {
        self.lemma_prepend(mode, use_distance, e, p);
        let w0 = self.walk_weight(mode, use_distance, p);
        let r0 = self.walk_rise(p);
        let w1 = self.weight(e as int, mode, use_distance);
        let r1 = self.rise(e as int);
        let d = k.den as int;
        let n = k.num as int;
        assert(d * (w1 + w0) + n * (r1 + r0) == (d * w1 + n * r1) + (d * w0 + n * r0))
            by (nonlinear_arith);
    }

    pub proof fn lemma_cost_nonneg(
        &self,
        mode: usize,
        use_distance: bool,
        k: Multiplier,
        p: Seq<usize>,
    )
        requires
            self.wf(),
            forall|i: int| 0 <= i < p.len() ==> #[trigger] p[i] < self.ways@.len(),
        ensures
            self.walk_cost(mode, use_distance, k, p) >= 0,
    {
        self.lemma_walk_nonneg(mode, use_distance, p);
        let w = self.walk_weight(mode, use_distance, p);
        let r = self.walk_rise(p);
        let d = k.den as int;
        let n = k.num as int;
        assert(d * w + n * r >= 0) by (nonlinear_arith)
            requires d >= 0, n >= 0, w >= 0, r >= 0;
    }

    /// The search invariant shared by the main loop and the reachability lemma.
    /// Edges leaving settled nodes have been relaxed, except the edges of
    /// node `x` from index `upto` on.
    #[verifier::opaque]
    pub open spec fn relaxed_except(
        &self,
        mode: usize,
        use_distance: bool,
        k: Multiplier,
        dist: Seq<u128>,
        settled: Seq<bool>,
        x: int,
        upto: int,
    ) -> bool {
        forall|e: int|
            0 <= e < self.ways@.len() && settled[self.ways@[e].source as int] && allowed(
                mode,
                self.ways@[e].travel_type,
            ) && (self.ways@[e].source != x || e < upto) ==> dist[#[trigger] self.ways@[e].target as int]
                != u128::MAX && dist[self.ways@[e].target as int] <= dist[self.ways@[e].source as int]
                + self.edge_cost(mode, use_distance, k, e)
    }

    /// Settled nodes carry their optimal cost.
    #[verifier::opaque]
    pub open spec fn search_base(
        &self,
        mode: usize,
        use_distance: bool,
        k: Multiplier,
        start: usize,
        dist: Seq<u128>,
        settled: Seq<bool>,
    ) -> bool {
        &&& dist.len() == self.nodes@.len()
        &&& settled.len() == self.nodes@.len()
        &&& start < self.nodes@.len()
        &&& dist[start as int] == 0
        &&& forall|u: int, p: Seq<usize>|
            0 <= u < self.nodes@.len() && settled[u] && #[trigger] self.is_walk(mode, start as int, u, p)
                ==> dist[u] <= self.walk_cost(mode, use_distance, k, p)
        &&& forall|u: int| 0 <= u < self.nodes@.len() && #[trigger] settled[u] ==> dist[u] != u128::MAX
    }

    pub open spec fn search_inv(
        &self,
        mode: usize,
        use_distance: bool,
        k: Multiplier,
        start: usize,
        dist: Seq<u128>,
        settled: Seq<bool>,
    ) -> bool {
        &&& self.search_base(mode, use_distance, k, start, dist, settled)
        &&& self.relaxed_except(mode, use_distance, k, dist, settled, -1, 0)
    }

    /// Any walk from the start into the unsettled part passes an unsettled
    /// node whose tentative cost is no larger than the walk's cost.
    pub proof fn lemma_reach(
        &self,
        mode: usize,
        use_distance: bool,
        k: Multiplier,
        start: usize,
        dist: Seq<u128>,
        settled: Seq<bool>,
        t: int,
        p: Seq<usize>,
    ) -> (v: int)
        requires
            self.wf(),
            self.search_inv(mode, use_distance, k, start, dist, settled),
            self.is_walk(mode, start as int, t, p),
            0 <= t < self.nodes@.len(),
            !settled[t],
        ensures
            0 <= v < self.nodes@.len(),
            !settled[v],
            dist[v] != u128::MAX,
            dist[v] <= self.walk_cost(mode, use_distance, k, p),
        decreases p.len(),
    {
        reveal(Graph::search_base);
        reveal(Graph::relaxed_except);
        if p.len() == 0 {
            assert(self.walk_weight(mode, use_distance, p) == 0);
            assert(self.walk_rise(p) == 0);
            assert(self.walk_cost(mode, use_distance, k, p) == 0);
            start as int
        } else {
            let e = p.last();
            assert(e == p[p.len() - 1]);
            let a = self.ways@[e as int].source as int;
            let q = p.drop_last();
            self.lemma_walk_drop_last(mode, start as int, t, p);
            self.lemma_cost_push(mode, use_distance, k, p);
            self.lemma_edge_bounds(e as int, mode, use_distance);
            assert(self.edge_cost(mode, use_distance, k, e as int) >= 0) by (nonlinear_arith)
                requires
                    self.weight(e as int, mode, use_distance) >= 0,
                    self.rise(e as int) >= 0,
                    k.den >= 0,
                    k.num >= 0,
            ;
            self.lemma_edge_ends(e as int);
            assert(a < self.nodes@.len());
            if settled[a] {
                assert(self.is_walk(mode, start as int, a, q));
                assert(dist[a] <= self.walk_cost(mode, use_distance, k, q));
                assert(self.ways@[e as int].target == t);
                assert(dist[t] <= dist[a] + self.edge_cost(mode, use_distance, k, e as int));
                t
            } else {
                self.lemma_reach(mode, use_distance, k, start, dist, settled, a, q)
            }
        }
    }
}

impl Graph {
    /// Each reached node other than the start has a predecessor edge from a
    /// settled node that explains its cost; ranks decrease along the links.
    #[verifier::opaque]
    pub open spec fn pred_inv(
        &self,
        mode: usize,
        use_distance: bool,
        k: Multiplier,
        start: usize,
        dist: Seq<u128>,
        settled: Seq<bool>,
        pred: Seq<usize>,
        rank: Seq<int>,
        count: int,
    ) -> bool {
        &&& pred.len() == self.nodes@.len()
        &&& rank.len() == self.nodes@.len()
        &&& forall|v: int|
            0 <= v < self.nodes@.len() && v != start && #[trigger] dist[v] != u128::MAX ==> {
                let e = pred[v] as int;
                let s = self.ways@[e].source as int;
                &&& 0 <= e < self.ways@.len()
                &&& 0 <= s < self.nodes@.len()
                &&& self.ways@[e].target == v
                &&& allowed(mode, self.ways@[e].travel_type)
                &&& settled[s]
                &&& dist[v] == dist[s] + self.edge_cost(mode, use_distance, k, e)
                &&& rank[s] < (if settled[v] {
                    rank[v]
                } else {
                    count
                })
            }
    }

    /// Settle ranks, the cost bound, and settled costs below open ones.
    #[verifier::opaque]
    pub open spec fn order_inv(
        &self,
        k: Multiplier,
        dist: Seq<u128>,
        settled: Seq<bool>,
        rank: Seq<int>,
        count: int,
    ) -> bool {
        &&& forall|v: int| 0 <= v < self.nodes@.len() && #[trigger] settled[v] ==> 0 <= rank[v] < count
        &&& forall|v: int|
            0 <= v < self.nodes@.len() && #[trigger] dist[v] != u128::MAX ==> dist[v] <= count
                * max_edge_cost(k)
        &&& forall|u: int, v: int|
            #![trigger dist[u], dist[v]]
            0 <= u < self.nodes@.len() && 0 <= v < self.nodes@.len() && settled[u] && !settled[v]
                && dist[v] != u128::MAX ==> dist[u] <= dist[v]
    }

    #[verifier::opaque]
    pub open spec fn state_inv(
        &self,
        mode: usize,
        use_distance: bool,
        k: Multiplier,
        start: usize,
        dist: Seq<u128>,
        settled: Seq<bool>,
        pred: Seq<usize>,
        rank: Seq<int>,
        count: int,
    ) -> bool {
        &&& self.pred_inv(mode, use_distance, k, start, dist, settled, pred, rank, count)
        &&& self.order_inv(k, dist, settled, rank, count)
    }

    /// Every open node (unsettled with a finite cost) sits in the frontier
    /// at the index `pos` records, and nothing else does.
    #[verifier::opaque]
    pub open spec fn frontier_inv(
        &self,
        dist: Seq<u128>,
        settled: Seq<bool>,
        frontier: Seq<usize>,
        pos: Seq<usize>,
    ) -> bool {
        &&& pos.len() == self.nodes@.len()
        &&& forall|v: int|
            0 <= v < self.nodes@.len() && !settled[v] && dist[v] != u128::MAX ==> #[trigger] pos[v]
                < frontier.len() && frontier[pos[v] as int] == v
        &&& forall|i: int|
            0 <= i < frontier.len() ==> #[trigger] frontier[i] < self.nodes@.len() && !settled[frontier[i] as int]
                && dist[frontier[i] as int] != u128::MAX && pos[frontier[i] as int] == i
    }

    proof fn lemma_frontier_pos(&self, dist: Seq<u128>, settled: Seq<bool>, f: Seq<usize>, pos: Seq<usize>)
        requires
            self.frontier_inv(dist, settled, f, pos),
        ensures
            pos_ok(f, pos, self.nodes@.len() as int),
    {
        reveal(Graph::frontier_inv);
    }

    proof fn lemma_not_in_frontier(&self, dist: Seq<u128>, settled: Seq<bool>, f: Seq<usize>, pos: Seq<usize>, t: int)
        requires
            self.frontier_inv(dist, settled, f, pos),
            dist.len() == self.nodes@.len(),
            0 <= t < dist.len(),
            dist[t] == u128::MAX,
        ensures
            forall|i: int| 0 <= i < f.len() ==> #[trigger] f[i] != t && f[i] < dist.len(),
    {
        reveal(Graph::frontier_inv);
        assert forall|i: int| 0 <= i < f.len() implies #[trigger] f[i] != t && f[i] < dist.len() by {
            assert(f[i] < self.nodes@.len());
        }
    }

    /// Reordering the frontier without changing who is in it keeps its invariant.
    proof fn lemma_frontier_members(
        &self,
        dist: Seq<u128>,
        settled: Seq<bool>,
        f: Seq<usize>,
        pos: Seq<usize>,
        g: Seq<usize>,
        q: Seq<usize>,
    )
        requires
            self.frontier_inv(dist, settled, f, pos),
            pos_ok(g, q, self.nodes@.len() as int),
            same_members(f, pos, g, q, self.nodes@.len() as int),
        ensures
            self.frontier_inv(dist, settled, g, q),
    {
        reveal(Graph::frontier_inv);
        let n = self.nodes@.len() as int;
        assert forall|v: int| 0 <= v < n && !settled[v] && dist[v] != u128::MAX implies #[trigger] q[v]
            < g.len() && g[q[v] as int] == v by {
            assert(crate::heap::member(f, pos, v));
            assert(crate::heap::member(g, q, v));
        }
        assert forall|i: int| 0 <= i < g.len() implies #[trigger] g[i] < n && !settled[g[i] as int]
            && dist[g[i] as int] != u128::MAX && q[g[i] as int] == i by {
            let v = g[i] as int;
            assert(crate::heap::member(g, q, v));
            assert(crate::heap::member(f, pos, v));
            assert(f[pos[v] as int] == v);
        }
    }

    /// Taking the root `x` out of the frontier and settling it keeps the invariant.
    proof fn lemma_frontier_pop(
        &self,
        dist: Seq<u128>,
        settled: Seq<bool>,
        f: Seq<usize>,
        pos: Seq<usize>,
        g: Seq<usize>,
        q: Seq<usize>,
        x: int,
    )
        requires
            self.frontier_inv(dist, settled, f, pos),
            pos_ok(g, q, self.nodes@.len() as int),
            dist.len() == self.nodes@.len(),
            settled.len() == self.nodes@.len(),
            0 <= x < self.nodes@.len(),
            forall|v: int|
                0 <= v < self.nodes@.len() ==> (#[trigger] crate::heap::member(g, q, v) <==> crate::heap::member(
                    f,
                    pos,
                    v,
                ) && v != x),
        ensures
            self.frontier_inv(dist, settled.update(x, true), g, q),
    {
        reveal(Graph::frontier_inv);
        let n = self.nodes@.len() as int;
        let s2 = settled.update(x, true);
        assert forall|v: int| 0 <= v < n && !s2[v] && dist[v] != u128::MAX implies #[trigger] q[v]
            < g.len() && g[q[v] as int] == v by {
            assert(crate::heap::member(f, pos, v));
            assert(crate::heap::member(g, q, v));
        }
        assert forall|i: int| 0 <= i < g.len() implies #[trigger] g[i] < n && !s2[g[i] as int]
            && dist[g[i] as int] != u128::MAX && q[g[i] as int] == i by {
            let v = g[i] as int;
            assert(crate::heap::member(g, q, v));
            assert(crate::heap::member(f, pos, v));
            assert(f[pos[v] as int] == v);
        }
    }

    /// Settling the cheapest open node `x` keeps the search state.
    proof fn lemma_settle(
        &self,
        mode: usize,
        use_distance: bool,
        k: Multiplier,
        start: usize,
        dist: Seq<u128>,
        settled: Seq<bool>,
        pred: Seq<usize>,
        rank: Seq<int>,
        count: int,
        frontier: Seq<usize>,
        pos: Seq<usize>,
        bi: int,
    )
        requires
            self.wf(),
            coefficient_ok(k),
            count == count_true(settled),
            self.search_inv(mode, use_distance, k, start, dist, settled),
            self.state_inv(mode, use_distance, k, start, dist, settled, pred, rank, count),
            self.frontier_inv(dist, settled, frontier, pos),
            0 <= bi < frontier.len(),
            forall|q: int|
                0 <= q < frontier.len() ==> dist[frontier[bi] as int] <= #[trigger] dist[frontier[q] as int],
        ensures
            ({
                let x = frontier[bi] as int;
                let s2 = settled.update(x, true);
                let r2 = rank.update(x, count);
                &&& 0 <= x < self.nodes@.len()
                &&& !settled[x]
                &&& count + 1 <= self.nodes@.len()
                &&& count_true(s2) == count + 1
                &&& dist[x] != u128::MAX
                &&& dist[x] <= count * max_edge_cost(k)
                &&& self.search_base(mode, use_distance, k, start, dist, s2)
                &&& self.relaxed_except(mode, use_distance, k, dist, s2, x, self.offset@[x] as int)
                &&& self.state_inv(mode, use_distance, k, start, dist, s2, pred, r2, count + 1)
                &&& forall|u: int| 0 <= u < self.nodes@.len() && #[trigger] s2[u] ==> dist[u] <= dist[x]
            }),
    {
        reveal(Graph::search_base);
        reveal(Graph::relaxed_except);
        reveal(Graph::state_inv);
        reveal(Graph::pred_inv);
        reveal(Graph::order_inv);
        reveal(Graph::frontier_inv);
        let x = frontier[bi] as int;
        let s2 = settled.update(x, true);
        let r2 = rank.update(x, count);
        let n = self.nodes@.len();
        assert(pos[x] == bi);
        lemma_count_set(settled, x);
        lemma_count_le(s2);
        assert forall|v: int| 0 <= v < n && !settled[v] && dist[v] != u128::MAX implies dist[x]
            <= #[trigger] dist[v] by {
            assert(frontier[pos[v] as int] == v);
        }
        assert forall|u: int, p: Seq<usize>|
            0 <= u < n && s2[u] && #[trigger] self.is_walk(mode, start as int, u, p) implies dist[u]
            <= self.walk_cost(mode, use_distance, k, p) by {
            if u == x {
                let v = self.lemma_reach(mode, use_distance, k, start, dist, settled, u, p);
            }
        }
        assert forall|u: int| 0 <= u < n && #[trigger] s2[u] implies dist[u] != u128::MAX by {}
        assert forall|e: int|
            0 <= e < self.ways@.len() && s2[self.ways@[e].source as int] && allowed(
                mode,
                self.ways@[e].travel_type,
            ) && (self.ways@[e].source != x || e < self.offset@[x] as int) implies dist[#[trigger] self.ways@[e].target as int]
                != u128::MAX && dist[self.ways@[e].target as int] <= dist[self.ways@[e].source as int]
                + self.edge_cost(mode, use_distance, k, e) by {
            self.lemma_edge_ends(e);
            if self.ways@[e].source == x {
                self.lemma_edge_in_range(e);
            }
        }
        lemma_cost_bound(k, 0, 0);
        lemma_mul_step(count, max_edge_cost(k), n as int);
        assert forall|v: int| 0 <= v < n && #[trigger] dist[v] != u128::MAX implies dist[v] <= (count
            + 1) * max_edge_cost(k) by {}
        assert forall|v: int| 0 <= v < n && #[trigger] s2[v] implies 0 <= r2[v] < count + 1 by {}
        assert forall|v: int|
            0 <= v < n && v != start && #[trigger] dist[v] != u128::MAX implies {
                let e = pred[v] as int;
                let s = self.ways@[e].source as int;
                &&& 0 <= e < self.ways@.len()
                &&& 0 <= s < self.nodes@.len()
                &&& self.ways@[e].target == v
                &&& allowed(mode, self.ways@[e].travel_type)
                &&& s2[s]
                &&& dist[v] == dist[s] + self.edge_cost(mode, use_distance, k, e)
                &&& r2[s] < (if s2[v] {
                    r2[v]
                } else {
                    count + 1
                })
            } by {
            let s = self.ways@[pred[v] as int].source as int;
            assert(settled[s]);
            assert(s != x);
        }
        assert forall|u: int, v: int|
            #![trigger dist[u], dist[v]]
            0 <= u < n && 0 <= v < n && s2[u] && !s2[v] && dist[v] != u128::MAX implies dist[u]
            <= dist[v] by {}
    }

    /// Relaxes every admissible edge out of the freshly settled node `x`.
    fn relax_from(
        &self,
        x: usize,
        start: usize,
        travel_type: usize,
        use_distance: bool,
        kn: u64,
        kd: u64,
        Ghost(k): Ghost<Multiplier>,
        dist: &mut Vec<u128>,
        pred: &mut Vec<usize>,
        frontier: &mut Vec<usize>,
        pos: &mut Vec<usize>,
        settled: &Vec<bool>,
        Ghost(rank): Ghost<Seq<int>>,
        count: usize,
    )
        requires
            self.wf(),
            kn == k.num,
            kd == k.den,
            coefficient_ok(k),
            x < self.nodes@.len(),
            settled@[x as int],
            rank[x as int] == count - 1,
            1 <= count <= self.nodes@.len(),
            old(dist)@[x as int] != u128::MAX,
            old(dist)@[x as int] <= (count - 1) * max_edge_cost(k),
            forall|u: int|
                0 <= u < self.nodes@.len() && #[trigger] settled@[u] ==> old(dist)@[u] <= old(
                    dist,
                )@[x as int],
            self.search_base(travel_type, use_distance, k, start, old(dist)@, settled@),
            self.relaxed_except(
                travel_type,
                use_distance,
                k,
                old(dist)@,
                settled@,
                x as int,
                self.offset@[x as int] as int,
            ),
            self.state_inv(
                travel_type,
                use_distance,
                k,
                start,
                old(dist)@,
                settled@,
                old(pred)@,
                rank,
                count as int,
            ),
            self.frontier_inv(old(dist)@, settled@, old(frontier)@, old(pos)@),
            heap_ok(old(dist)@, old(frontier)@),
            old(dist)@.len() == self.nodes@.len(),
            settled@.len() == self.nodes@.len(),
            old(pred)@.len() == self.nodes@.len(),
            old(pos)@.len() == self.nodes@.len(),
        ensures
            final(dist)@.len() == self.nodes@.len(),
            final(pred)@.len() == self.nodes@.len(),
            final(pos)@.len() == self.nodes@.len(),
            self.search_inv(travel_type, use_distance, k, start, final(dist)@, settled@),
            self.state_inv(
                travel_type,
                use_distance,
                k,
                start,
                final(dist)@,
                settled@,
                final(pred)@,
                rank,
                count as int,
            ),
            self.frontier_inv(final(dist)@, settled@, final(frontier)@, final(pos)@),
            heap_ok(final(dist)@, final(frontier)@),
    {
        let ghost mode = travel_type;
        let ghost ud = use_distance;
        let ghost n = self.nodes@.len();
        proof {
            self.lemma_range_source(x as int, 0);
        }
        let lo = self.offset[x];
        let hi = self.offset[x + 1];
        proof {
            lemma_cost_bound(k, 0, 0);
            lemma_mul_step(count - 1, max_edge_cost(k), n as int);
            self.lemma_offset_le(x as int + 1);
            assert(n * max_edge_cost(k) <= MAX_NODES * max_edge_cost(k)) by (nonlinear_arith)
                requires n <= MAX_NODES, max_edge_cost(k) >= 0;
        }
        let mut idx = lo;
        while idx < hi
            invariant
                self.wf(),
                mode == travel_type,
                ud == use_distance,
                kn == k.num,
                kd == k.den,
                coefficient_ok(k),
                n == self.nodes@.len(),
                x < n,
                settled@[x as int],
                rank[x as int] == count - 1,
                1 <= count <= n,
                hi <= self.ways@.len(),
                dist@.len() == n,
                settled@.len() == n,
                pred@.len() == n,
                pos@.len() == n,
                dist@[x as int] != u128::MAX,
                dist@[x as int] <= (count - 1) * max_edge_cost(k),
                lo <= idx <= hi,
                lo == self.offset@[x as int],
                hi == self.offset@[x as int + 1],
                dist@[x as int] == old(dist)@[x as int],
                (count - 1) * max_edge_cost(k) + max_edge_cost(k) == count * max_edge_cost(k),
                count * max_edge_cost(k) < u128::MAX,
                forall|u: int| 0 <= u < n && #[trigger] settled@[u] ==> dist@[u] <= dist@[x as int],
                self.search_base(mode, ud, k, start, dist@, settled@),
                self.relaxed_except(mode, ud, k, dist@, settled@, x as int, idx as int),
                self.state_inv(mode, ud, k, start, dist@, settled@, pred@, rank, count as int),
                self.frontier_inv(dist@, settled@, frontier@, pos@),
                heap_ok(dist@, frontier@),
            decreases hi - idx,
        {
            proof {
                self.lemma_range_source(x as int, idx as int);
            }
            let w = self.ways[idx];
            proof {
                self.lemma_edge_ends(idx as int);
            }
            if is_allowed(travel_type, w.travel_type) {
                let ew = self.edge_weight(idx, travel_type, use_distance);
                let er = self.edge_rise(idx);
                proof {
                    lemma_cost_bound(k, ew as int, er as int);
                    assert(kd as int * ew as int <= kd as int * max_weight()) by (nonlinear_arith)
                        requires ew <= max_weight(), kd >= 0;
                    assert(kn as int * er as int <= kn as int * max_rise()) by (nonlinear_arith)
                        requires er <= max_rise(), kn >= 0;
                }
                let c: u128 = kd as u128 * ew as u128 + kn as u128 * er as u128;
                assert(ew as int == self.weight(idx as int, mode, ud));
                assert(er as int == self.rise(idx as int));
                assert(c as int == kd as int * ew as int + kn as int * er as int);
                assert(c as int == self.edge_cost(mode, ud, k, idx as int));
                let nd = dist[x] + c;
                let t = w.target;
                if nd < dist[t] {
                    let ghost pre_dist = dist@;
                    let ghost pre_pred = pred@;
                    let ghost pre_frontier = frontier@;
                    let ghost pre_pos = pos@;
                    let was_open = dist[t] != u128::MAX;
                    let flen = frontier.len();
                    proof {
                        if settled@[t as int] {
                            assert(dist@[t as int] <= dist@[x as int]);
                        }
                        assert(!settled@[t as int]);
                        reveal(Graph::search_base);
                        assert(t != start);
                    }
                    proof {
                        self.lemma_frontier_pos(pre_dist, settled@, pre_frontier, pre_pos);
                        if !was_open {
                            self.lemma_not_in_frontier(pre_dist, settled@, pre_frontier, pre_pos, t as int);
                        }
                    }
                    dist.set(t, nd);
                    pred.set(t, idx);
                    if !was_open {
                        pos.set(t, frontier.len());
                        frontier.push(t);
                    }
                    let ghost mid_frontier = frontier@;
                    let ghost mid_pos = pos@;
                    proof {
                        self.lemma_relax_base(
                            mode, ud, k, start, x as int, idx as int, t as int, pre_dist, dist@,
                            settled@,
                        );
                        self.lemma_relax_state(
                            mode, ud, k, start, x as int, idx, t as int, count as int,
                            pre_dist, dist@, settled@, pre_pred, pred@, rank,
                        );
                        assert(pre_frontier.len() == flen as int);
                        self.lemma_relax_frontier(
                            t, nd, pre_dist, dist@, settled@, pre_frontier, frontier@,
                            pre_pos, pos@,
                        );
                        self.lemma_frontier_pos(dist@, settled@, mid_frontier, mid_pos);
                    }
                    if was_open {
                        proof {
                            reveal(Graph::frontier_inv);
                            assert(pos@[t as int] < frontier@.len() && frontier@[pos@[t as int] as int] == t);
                            assert(dist@ =~= pre_dist.update(t as int, dist@[t as int]));
                        }
                        decrease_key(frontier, pos, dist, t, Ghost(pre_dist));
                    } else {
                        proof {
                            assert(dist@ =~= pre_dist.update(t as int, dist@[t as int]));
                            lemma_push_fresh(pre_dist, dist@, pre_frontier, t);
                        }
                        sift_up(frontier, pos, dist, flen);
                    }
                    proof {
                        self.lemma_frontier_members(dist@, settled@, mid_frontier, mid_pos, frontier@, pos@);
                    }
                } else {
                    proof {
                        self.lemma_relax_skip(mode, ud, k, dist@, settled@, x as int, idx as int);
                    }
                }
            } else {
                proof {
                    self.lemma_relax_skip(mode, ud, k, dist@, settled@, x as int, idx as int);
                }
            }
            idx += 1;
        }
        proof {
            reveal(Graph::relaxed_except);
            assert forall|e: int|
                0 <= e < self.ways@.len() && settled@[self.ways@[e].source as int] && allowed(
                    mode,
                    self.ways@[e].travel_type,
                ) && (self.ways@[e].source != -1 || e < 0) implies dist@[#[trigger] self.ways@[e].target as int]
                    != u128::MAX && dist@[self.ways@[e].target as int] <= dist@[self.ways@[e].source as int]
                    + self.edge_cost(mode, ud, k, e) by {
                self.lemma_edge_in_range(e);
            }
        }
    }

    /// One successful relaxation of edge `idx` from `x` to `t`: settled
    /// costs stay optimal and relaxed edges stay relaxed.
    proof fn lemma_relax_base(
        &self,
        mode: usize,
        ud: bool,
        k: Multiplier,
        start: usize,
        x: int,
        idx: int,
        t: int,
        d0: Seq<u128>,
        d1: Seq<u128>,
        settled: Seq<bool>,
    )
        requires
            self.wf(),
            0 <= x < self.nodes@.len(),
            settled[x],
            self.offset@[x] <= idx < self.offset@[x + 1],
            idx < self.ways@.len(),
            self.ways@[idx].source == x,
            t == self.ways@[idx].target,
            allowed(mode, self.ways@[idx].travel_type),
            !settled[t],
            d0[x] != u128::MAX,
            d0[x] as int + self.edge_cost(mode, ud, k, idx) < d0[t],
            d1 == d0.update(t, (d0[x] + self.edge_cost(mode, ud, k, idx)) as u128),
            self.search_base(mode, ud, k, start, d0, settled),
            self.relaxed_except(mode, ud, k, d0, settled, x, idx),
        ensures
            self.search_base(mode, ud, k, start, d1, settled),
            self.relaxed_except(mode, ud, k, d1, settled, x, idx + 1),
    {
        reveal(Graph::search_base);
        reveal(Graph::relaxed_except);
        let n = self.nodes@.len();
        self.lemma_edge_ends(idx);
        assert(t != start);
        assert forall|u: int, p: Seq<usize>|
            0 <= u < n && settled[u] && #[trigger] self.is_walk(mode, start as int, u, p) implies d1[u]
            <= self.walk_cost(mode, ud, k, p) by {
            assert(u != t);
        }
        assert forall|u: int| 0 <= u < n && #[trigger] settled[u] implies d1[u] != u128::MAX by {
            assert(u != t);
        }
        assert forall|e: int|
            0 <= e < self.ways@.len() && settled[self.ways@[e].source as int] && allowed(
                mode,
                self.ways@[e].travel_type,
            ) && (self.ways@[e].source != x || e < idx + 1) implies d1[#[trigger] self.ways@[e].target as int]
                != u128::MAX && d1[self.ways@[e].target as int] <= d1[self.ways@[e].source as int]
                + self.edge_cost(mode, ud, k, e) by {
            self.lemma_edge_ends(e);
            assert(self.ways@[e].source != t);
        }
    }

    /// An edge that needs no update, or that the mode may not take, counts as relaxed.
    proof fn lemma_relax_skip(
        &self,
        mode: usize,
        ud: bool,
        k: Multiplier,
        dist: Seq<u128>,
        settled: Seq<bool>,
        x: int,
        idx: int,
    )
        requires
            self.relaxed_except(mode, ud, k, dist, settled, x, idx),
            0 <= idx < self.ways@.len(),
            self.ways@[idx].source == x,
            allowed(mode, self.ways@[idx].travel_type) ==> dist[self.ways@[idx].target as int]
                != u128::MAX && dist[self.ways@[idx].target as int] <= dist[x] + self.edge_cost(
                mode,
                ud,
                k,
                idx,
            ),
        ensures
            self.relaxed_except(mode, ud, k, dist, settled, x, idx + 1),
    {
        reveal(Graph::relaxed_except);
    }

    /// One successful relaxation keeps predecessor links, ranks, bounds and order.
        proof fn lemma_relax_state(
        &self,
        mode: usize,
        ud: bool,
        k: Multiplier,
        start: usize,
        x: int,
        idx: usize,
        t: int,
        count: int,
        d0: Seq<u128>,
        d1: Seq<u128>,
        settled: Seq<bool>,
        pred0: Seq<usize>,
        pred1: Seq<usize>,
        rank: Seq<int>,
    )
        requires
            self.wf(),
            0 <= x < self.nodes@.len(),
            settled[x],
            rank[x] == count - 1,
            (idx as int) < self.ways@.len(),
            self.ways@[idx as int].source == x,
            t == self.ways@[idx as int].target,
            allowed(mode, self.ways@[idx as int].travel_type),
            !settled[t],
            t != start,
            d0.len() == self.nodes@.len(),
            d0[x] != u128::MAX,
            d0[x] as int + self.edge_cost(mode, ud, k, idx as int) < d0[t],
            d0[x] as int + self.edge_cost(mode, ud, k, idx as int) <= count * max_edge_cost(k),
            self.edge_cost(mode, ud, k, idx as int) >= 0,
            d1 == d0.update(t, (d0[x] + self.edge_cost(mode, ud, k, idx as int)) as u128),
            pred1 == pred0.update(t, idx),
            forall|u: int| 0 <= u < self.nodes@.len() && #[trigger] settled[u] ==> d0[u] <= d0[x],
            self.state_inv(mode, ud, k, start, d0, settled, pred0, rank, count),
        ensures
            self.state_inv(mode, ud, k, start, d1, settled, pred1, rank, count),
    {
        reveal(Graph::state_inv);
        self.lemma_edge_ends(idx as int);
        self.lemma_relax_pred(mode, ud, k, start, x, idx, t, count, d0, d1, settled, pred0, pred1, rank);
        self.lemma_relax_order(mode, ud, k, start, x, idx, t, count, d0, d1, settled, pred0, pred1, rank);
    }

    /// One successful relaxation keeps predecessor links, ranks, bounds and order.
    #[verifier::rlimit(100)]
    proof fn lemma_relax_pred(
        &self,
        mode: usize,
        ud: bool,
        k: Multiplier,
        start: usize,
        x: int,
        idx: usize,
        t: int,
        count: int,
        d0: Seq<u128>,
        d1: Seq<u128>,
        settled: Seq<bool>,
        pred0: Seq<usize>,
        pred1: Seq<usize>,
        rank: Seq<int>,
    )
        requires
            0 <= t < self.nodes@.len(),
            0 <= x < self.nodes@.len(),
            settled[x],
            rank[x] == count - 1,
            (idx as int) < self.ways@.len(),
            self.ways@[idx as int].source == x,
            t == self.ways@[idx as int].target,
            allowed(mode, self.ways@[idx as int].travel_type),
            !settled[t],
            t != start,
            d0.len() == self.nodes@.len(),
            d0[x] != u128::MAX,
            d0[x] as int + self.edge_cost(mode, ud, k, idx as int) < d0[t],
            d0[x] as int + self.edge_cost(mode, ud, k, idx as int) <= count * max_edge_cost(k),
            self.edge_cost(mode, ud, k, idx as int) >= 0,
            d1 == d0.update(t, (d0[x] + self.edge_cost(mode, ud, k, idx as int)) as u128),
            pred1 == pred0.update(t, idx),
            forall|u: int| 0 <= u < self.nodes@.len() && #[trigger] settled[u] ==> d0[u] <= d0[x],
            self.pred_inv(mode, ud, k, start, d0, settled, pred0, rank, count),
        ensures
            self.pred_inv(mode, ud, k, start, d1, settled, pred1, rank, count),
    {
        reveal(Graph::pred_inv);
        let n = self.nodes@.len();
        assert(d1.len() == n);
        assert(pred0.len() == n);
        assert(x != t);
        assert(d1[x] == d0[x]);
        assert(pred1[t] == idx);
        assert(d1[t] == d1[x] + self.edge_cost(mode, ud, k, idx as int));
        assert forall|v: int|
            0 <= v < n && v != start && #[trigger] d1[v] != u128::MAX implies {
                let e = pred1[v] as int;
                let s = self.ways@[e].source as int;
                &&& 0 <= e < self.ways@.len()
                &&& 0 <= s < self.nodes@.len()
                &&& self.ways@[e].target == v
                &&& allowed(mode, self.ways@[e].travel_type)
                &&& settled[s]
                &&& d1[v] == d1[s] + self.edge_cost(mode, ud, k, e)
                &&& rank[s] < (if settled[v] {
                    rank[v]
                } else {
                    count
                })
            } by {
            if v != t {
                assert(d1[v] == d0[v]);
                assert(pred1[v] == pred0[v]);
                assert(d0[v] != u128::MAX);
                let e = pred0[v] as int;
                let s = self.ways@[e].source as int;
                assert(settled[s]);
                assert(s != t);
                assert(d1[s] == d0[s]);
            } else {
                assert(pred1[v] == idx);
                assert(self.ways@[idx as int].source as int == x);
            }
        }
    }

    /// One successful relaxation keeps ranks, bounds and order.
    proof fn lemma_relax_order(
        &self,
        mode: usize,
        ud: bool,
        k: Multiplier,
        start: usize,
        x: int,
        idx: usize,
        t: int,
        count: int,
        d0: Seq<u128>,
        d1: Seq<u128>,
        settled: Seq<bool>,
        pred0: Seq<usize>,
        pred1: Seq<usize>,
        rank: Seq<int>,
    )
        requires
            0 <= t < self.nodes@.len(),
            0 <= x < self.nodes@.len(),
            settled[x],
            rank[x] == count - 1,
            (idx as int) < self.ways@.len(),
            self.ways@[idx as int].source == x,
            t == self.ways@[idx as int].target,
            allowed(mode, self.ways@[idx as int].travel_type),
            !settled[t],
            t != start,
            d0.len() == self.nodes@.len(),
            d0[x] != u128::MAX,
            d0[x] as int + self.edge_cost(mode, ud, k, idx as int) < d0[t],
            d0[x] as int + self.edge_cost(mode, ud, k, idx as int) <= count * max_edge_cost(k),
            self.edge_cost(mode, ud, k, idx as int) >= 0,
            d1 == d0.update(t, (d0[x] + self.edge_cost(mode, ud, k, idx as int)) as u128),
            pred1 == pred0.update(t, idx),
            forall|u: int| 0 <= u < self.nodes@.len() && #[trigger] settled[u] ==> d0[u] <= d0[x],
            self.order_inv(k, d0, settled, rank, count),
        ensures
            self.order_inv(k, d1, settled, rank, count),
    {
        reveal(Graph::order_inv);
        let n = self.nodes@.len();
        assert(d1.len() == n);
        assert forall|v: int| 0 <= v < n && v != t implies #[trigger] d1[v] == d0[v] by {}
        assert forall|v: int| 0 <= v < n && #[trigger] d1[v] != u128::MAX implies d1[v] <= count
            * max_edge_cost(k) by {
            if v != t {
                assert(d0[v] != u128::MAX);
            }
        }
        assert forall|u: int, v: int|
            #![trigger d1[u], d1[v]]
            0 <= u < n && 0 <= v < n && settled[u] && !settled[v] && d1[v] != u128::MAX implies d1[u]
            <= d1[v] by {
            assert(u != t);
            if v != t {
                assert(d0[v] != u128::MAX);
                assert(d0[u] <= d0[v]);
            }
        }
    }

    /// One successful relaxation keeps the frontier index.
    proof fn lemma_relax_frontier(
        &self,
        t: usize,
        nd: u128,
        d0: Seq<u128>,
        d1: Seq<u128>,
        settled: Seq<bool>,
        f0: Seq<usize>,
        f1: Seq<usize>,
        q0: Seq<usize>,
        q1: Seq<usize>,
    )
        requires
            t < self.nodes@.len(),
            d0.len() == self.nodes@.len(),
            f0.len() <= usize::MAX,
            !settled[t as int],
            nd != u128::MAX,
            d1 == d0.update(t as int, nd),
            d0[t as int] == u128::MAX ==> f1 == f0.push(t) && q1 == q0.update(t as int, f0.len() as usize),
            d0[t as int] != u128::MAX ==> f1 == f0 && q1 == q0,
            self.frontier_inv(d0, settled, f0, q0),
        ensures
            self.frontier_inv(d1, settled, f1, q1),
    {
        reveal(Graph::frontier_inv);
        let n = self.nodes@.len();
        assert forall|v: int| 0 <= v < n && v != t as int implies #[trigger] d1[v] == d0[v] by {}
        assert(d1[t as int] == nd);
        assert(q0.len() == n);
        assert forall|v: int|
            0 <= v < n && !settled[v] && d1[v] != u128::MAX implies #[trigger] q1[v] < f1.len()
            && f1[q1[v] as int] == v by {
            if v != t as int {
                assert(d0[v] != u128::MAX);
                assert(q0[v] < f0.len());
                assert(f0[q0[v] as int] == v);
                if d0[t as int] == u128::MAX {
                    assert(q1[v] == q0[v]);
                    assert(f1[q0[v] as int] == f0[q0[v] as int]);
                }
            } else {
                if d0[t as int] == u128::MAX {
                    assert(q1[t as int] == f0.len());
                    assert(f1[f0.len() as int] == t);
                } else {
                    assert(q0[t as int] < f0.len());
                }
            }
        }
        assert forall|i: int| 0 <= i < f1.len() implies #[trigger] f1[i] < n && !settled[f1[i] as int]
            && d1[f1[i] as int] != u128::MAX && q1[f1[i] as int] == i by {
            if i < f0.len() {
                assert(f1[i] == f0[i]);
                assert(f0[i] < n && !settled[f0[i] as int] && d0[f0[i] as int] != u128::MAX && q0[f0[i] as int] == i);
                if f0[i] == t {
                    assert(d0[t as int] != u128::MAX);
                } else {
                    assert(d1[f0[i] as int] == d0[f0[i] as int]);
                    if d0[t as int] == u128::MAX {
                        assert(q1[f0[i] as int] == q0[f0[i] as int]);
                    }
                }
            } else {
                assert(d0[t as int] == u128::MAX);
                assert(i == f0.len());
                assert(f1[i] == t);
            }
        }
    }

    /// What the predecessor link of a settled node other than the start gives.
    proof fn lemma_pred_link(
        &self,
        mode: usize,
        ud: bool,
        k: Multiplier,
        start: usize,
        dist: Seq<u128>,
        settled: Seq<bool>,
        pred: Seq<usize>,
        rank: Seq<int>,
        count: int,
        v: int,
    )
        requires
            0 <= v < self.nodes@.len(),
            v != start,
            settled[v],
            forall|u: int| 0 <= u < self.nodes@.len() && #[trigger] settled[u] ==> dist[u] != u128::MAX,
            self.pred_inv(mode, ud, k, start, dist, settled, pred, rank, count),
            self.order_inv(k, dist, settled, rank, count),
        ensures
            pred.len() == self.nodes@.len(),
            ({
                let e = pred[v] as int;
                let s = self.ways@[e].source as int;
                &&& 0 <= e < self.ways@.len()
                &&& 0 <= s < self.nodes@.len()
                &&& self.ways@[e].target == v
                &&& allowed(mode, self.ways@[e].travel_type)
                &&& settled[s]
                &&& dist[v] == dist[s] + self.edge_cost(mode, ud, k, e)
                &&& 0 <= rank[s] < rank[v]
            }),
    {
        reveal(Graph::pred_inv);
        reveal(Graph::order_inv);
        assert(dist[v] != u128::MAX);
        let s = self.ways@[pred[v] as int].source as int;
        assert(settled[s]);
    }

    /// Ranks strictly increase along `ns`, so no node repeats in it.
    pub open spec fn ranks_increase(rank: Seq<int>, ns: Seq<usize>) -> bool {
        forall|i: int, j: int|
            0 <= i < j < ns.len() ==> rank[#[trigger] ns[i] as int] < rank[#[trigger] ns[j] as int]
    }

    /// Follows the predecessor links back from the settled node `end`; the
    /// edges come out in walk order and describe a walk of cost `dist[end]`.
    fn follow_preds(
        &self,
        start: usize,
        end: usize,
        travel_type: usize,
        use_distance: bool,
        Ghost(k): Ghost<Multiplier>,
        dist: &Vec<u128>,
        settled: &Vec<bool>,
        pred: &Vec<usize>,
        Ghost(rank): Ghost<Seq<int>>,
        count: usize,
    ) -> (edges: Vec<usize>)
        requires
            self.wf(),
            start < self.nodes@.len(),
            end < self.nodes@.len(),
            dist@.len() == self.nodes@.len(),
            settled@.len() == self.nodes@.len(),
            dist@[start as int] == 0,
            settled@[end as int],
            1 <= count <= self.nodes@.len(),
            forall|u: int| 0 <= u < self.nodes@.len() && #[trigger] settled@[u] ==> dist@[u] != u128::MAX,
            self.pred_inv(travel_type, use_distance, k, start, dist@, settled@, pred@, rank, count as int),
            self.order_inv(k, dist@, settled@, rank, count as int),
        ensures
            self.is_walk(travel_type, start as int, end as int, edges@),
            self.walk_cost(travel_type, use_distance, k, edges@) == dist@[end as int],
            edges@.len() < self.nodes@.len(),
            forall|i: int, j: int|
                0 <= i < j < self.walk_nodes(start, edges@).len() ==> #[trigger] self.walk_nodes(
                    start,
                    edges@,
                )[i] != #[trigger] self.walk_nodes(start, edges@)[j],
    {
        reveal(Graph::pred_inv);
        reveal(Graph::order_inv);
        let ghost mode = travel_type;
        let ghost ud = use_distance;
        let mut rev: Vec<usize> = Vec::new();
        let ghost mut suffix: Seq<usize> = Seq::empty();
        let mut cur = end;
        proof {
            assert(self.walk_weight(mode, ud, suffix) == 0);
            assert(self.walk_rise(suffix) == 0);
        }
        while cur != start
            invariant
                self.wf(),
                mode == travel_type,
                ud == use_distance,
                start < self.nodes@.len(),
                end < self.nodes@.len(),
                dist@.len() == self.nodes@.len(),
                settled@.len() == self.nodes@.len(),
                forall|u: int| 0 <= u < self.nodes@.len() && #[trigger] settled@[u] ==> dist@[u] != u128::MAX,
                self.pred_inv(mode, ud, k, start, dist@, settled@, pred@, rank, count as int),
                self.order_inv(k, dist@, settled@, rank, count as int),
                rank[end as int] < count,
                cur < self.nodes@.len(),
                settled@[cur as int],
                self.is_walk(mode, cur as int, end as int, suffix),
                self.walk_cost(mode, ud, k, suffix) + dist@[cur as int] == dist@[end as int],
                rev@.len() == suffix.len(),
                forall|i: int| 0 <= i < suffix.len() ==> #[trigger] suffix[i] == rev@[rev@.len() - 1 - i],
                rev@.len() + rank[cur as int] <= rank[end as int],
                0 <= rank[cur as int],
                Self::ranks_increase(rank, self.walk_nodes(cur, suffix)),
            decreases rank[cur as int],
        {
            proof {
                self.lemma_pred_link(mode, ud, k, start, dist@, settled@, pred@, rank, count as int, cur as int);
            }
            let e = pred[cur];
            let s = self.ways[e].source;
            proof {
                self.lemma_walk_prepend(mode, s as int, cur as int, end as int, e, suffix);
                self.lemma_cost_prepend(mode, ud, k, e, suffix);
                let old_ns = self.walk_nodes(cur, suffix);
                let new_ns = self.walk_nodes(s, seq![e] + suffix);
                assert(new_ns =~= seq![s] + old_ns);
                assert forall|i: int, j: int| 0 <= i < j < new_ns.len() implies rank[#[trigger] new_ns[i] as int]
                    < rank[#[trigger] new_ns[j] as int] by {
                    if i > 0 {
                        assert(new_ns[i] == old_ns[i - 1] && new_ns[j] == old_ns[j - 1]);
                    } else {
                        assert(new_ns[j] == old_ns[j - 1]);
                        assert(old_ns[0] == cur);
                        if j > 1 {
                            assert(rank[old_ns[0] as int] < rank[old_ns[j - 1] as int]);
                        }
                    }
                }
                let ns = seq![e] + suffix;
                assert forall|i: int| 0 <= i < ns.len() implies #[trigger] ns[i] == rev@.push(e)[rev@.len()
                    - i] by {
                    if i > 0 {
                        assert(ns[i] == suffix[i - 1]);
                    }
                }
                suffix = ns;
            }
            rev.push(e);
            cur = s;
        }
        let ghost walk = suffix;
        proof {
            let ns = self.walk_nodes(start, walk);
            assert forall|i: int, j: int| 0 <= i < j < ns.len() implies #[trigger] ns[i] != #[trigger] ns[j] by {
                assert(rank[ns[i] as int] < rank[ns[j] as int]);
            }
        }
        let mut edges: Vec<usize> = Vec::new();
        let len = rev.len();
        let mut i: usize = 0;
        while i < len
            invariant
                len == rev@.len(),
                len == walk.len(),
                i <= len,
                edges@ == walk.take(i as int),
                forall|q: int| 0 <= q < walk.len() ==> #[trigger] walk[q] == rev@[rev@.len() - 1 - q],
            decreases len - i,
        {
            edges.push(rev[len - 1 - i]);
            i += 1;
            proof {
                assert(edges@ =~= walk.take(i as int));
            }
        }
        proof {
            assert(edges@ =~= walk);
        }
        edges
    }

    /// Sums weight and rise along a walk and lists the nodes it visits.
    fn report_walk(&self, start: usize, travel_type: usize, use_distance: bool, edges: &Vec<usize>) -> (r: (
        u64,
        u64,
        Vec<usize>,
    ))
        requires
            self.wf(),
            edges@.len() <= MAX_NODES,
            forall|q: int| 0 <= q < edges@.len() ==> #[trigger] edges@[q] < self.ways@.len(),
        ensures
            r.0 == self.walk_weight(travel_type, use_distance, edges@),
            r.1 == self.walk_rise(edges@),
            r.2@ == self.walk_nodes(start, edges@),
    {
        let ghost mode = travel_type;
        let ghost ud = use_distance;
        let mut total_weight: u64 = 0;
        let mut total_rise: u64 = 0;
        let mut path: Vec<usize> = Vec::new();
        path.push(start);
        let len = edges.len();
        let mut j: usize = 0;
        proof {
            assert(edges@.take(0) =~= Seq::<usize>::empty());
            assert(path@ =~= self.walk_nodes(start, edges@.take(0)));
        }
        while j < len
            invariant
                self.wf(),
                mode == travel_type,
                ud == use_distance,
                j <= len,
                len == edges@.len(),
                len <= MAX_NODES,
                forall|q: int| 0 <= q < edges@.len() ==> #[trigger] edges@[q] < self.ways@.len(),
                total_weight == self.walk_weight(mode, ud, edges@.take(j as int)),
                total_rise == self.walk_rise(edges@.take(j as int)),
                path@ == self.walk_nodes(start, edges@.take(j as int)),
            decreases len - j,
        {
            let e = edges[j];
            let ew = self.edge_weight(e, travel_type, use_distance);
            let er = self.edge_rise(e);
            proof {
                let t = edges@.take(j as int + 1);
                assert(t.drop_last() =~= edges@.take(j as int));
                assert(t.last() == e);
                assert forall|q: int| 0 <= q < t.len() implies #[trigger] t[q] < self.ways@.len() by {
                    assert(t[q] == edges@[q]);
                }
                self.lemma_walk_nonneg(mode, ud, t);
                assert((j + 1) * max_weight() <= MAX_NODES * max_weight()) by (nonlinear_arith)
                    requires j + 1 <= MAX_NODES;
                assert((j + 1) * max_rise() <= MAX_NODES * max_rise()) by (nonlinear_arith)
                    requires j + 1 <= MAX_NODES;
            }
            total_weight = total_weight + ew;
            total_rise = total_rise + er;
            path.push(self.ways[e].target);
            j += 1;
            proof {
                assert(path@ =~= self.walk_nodes(start, edges@.take(j as int)));
            }
        }
        proof {
            assert(edges@.take(len as int) =~= edges@);
        }
        (total_weight, total_rise, path)
    }

    /// Shortest walk from `start` to `end` for travel mode `travel_type`
    /// under the cost that `min_of` and `multiplier` select; `None` exactly
    /// when no walk exists.
    pub fn dijkstra(
        &self,
        min_of: Dijkstra,
        start: usize,
        end: usize,
        travel_type: usize,
        use_distance: bool,
        multiplier: Option<Multiplier>,
    ) -> (r: Option<DijkstraResult>)
        requires
            self.wf(),
            start < self.nodes@.len(),
            end < self.nodes@.len(),
            travel_type <= 2,
            min_of == Dijkstra::Multiplier ==> multiplier.is_some(),
            coefficient_ok(coefficients(min_of, multiplier)),
        ensures
            match r {
                Some(res) => {
                    &&& self.is_optimal(
                        travel_type,
                        use_distance,
                        coefficients(min_of, multiplier),
                        start,
                        end,
                        res,
                    )
                    &&& res.multiplier == multiplier
                    &&& res.edges@.len() < self.nodes@.len()
                    &&& forall|i: int, j: int|
                        0 <= i < j < res.path@.len() ==> #[trigger] res.path@[i] != #[trigger] res.path@[j]
                    &&& start == end ==> res.edges@.len() == 0 && res.distance == 0 && res.ele_rise
                        == 0 && res.path@ == seq![start]
                },
                None => forall|p: Seq<usize>| !self.is_walk(travel_type, start as int, end as int, p),
            },
    {
        let ghost k = coefficients(min_of, multiplier);
        let ghost mode = travel_type;
        let ghost ud = use_distance;
        let (kn, kd): (u64, u64) = match min_of {
            Dijkstra::Elevation => (1, 0),
            Dijkstra::Multiplier => match multiplier {
                Some(m) => (m.num, m.den),
                None => (1, 0),
            },
        };
        let n = self.nodes.len();
        if start == end {
            let mut path: Vec<usize> = Vec::new();
            path.push(start);
            let res = DijkstraResult {
                path,
                edges: Vec::new(),
                distance: 0,
                ele_rise: 0,
                multiplier,
            };
            proof {
                assert(res.path@ =~= self.walk_nodes(start, res.edges@));
                assert(self.walk_weight(mode, ud, res.edges@) == 0);
                assert(self.walk_rise(res.edges@) == 0);
                assert forall|p: Seq<usize>| #[trigger]
                    self.is_walk(mode, start as int, end as int, p) implies self.walk_cost(
                    mode,
                    ud,
                    k,
                    res.edges@,
                ) <= self.walk_cost(mode, ud, k, p) by {
                    self.lemma_cost_nonneg(mode, ud, k, p);
                }
            }
            return Some(res);
        }
        let mut dist: Vec<u128> = Vec::new();
        let mut settled: Vec<bool> = Vec::new();
        let mut pred: Vec<usize> = Vec::new();
        let mut pos: Vec<usize> = Vec::new();
        let mut i: usize = 0;
        while i < n
            invariant
                i <= n,
                dist@.len() == i,
                settled@.len() == i,
                pred@.len() == i,
                pos@.len() == i,
                forall|j: int| 0 <= j < i ==> #[trigger] dist@[j] == u128::MAX,
                forall|j: int| 0 <= j < i ==> !#[trigger] settled@[j],
            decreases n - i,
        {
            dist.push(u128::MAX);
            settled.push(false);
            pred.push(0);
            pos.push(0);
            i += 1;
        }
        dist.set(start, 0);
        pos.set(start, 0);
        let mut frontier: Vec<usize> = Vec::new();
        frontier.push(start);
        let ghost mut rank: Seq<int> = Seq::new(n as nat, |j: int| 0);
        let mut count: usize = 0;
        proof {
            reveal(Graph::search_base);
            reveal(Graph::relaxed_except);
            reveal(Graph::state_inv);
            reveal(Graph::pred_inv);
            reveal(Graph::order_inv);
            reveal(Graph::frontier_inv);
            assert forall|j: int| 0 <= j < settled@.len() implies !#[trigger] settled@[j] by {}
            lemma_count_none(settled@);
            lemma_cost_bound(k, 0, 0);
            assert forall|v: int| 0 <= v < n && v != start implies #[trigger] dist@[v] == u128::MAX by {}
            assert forall|e: int| 0 <= e < self.ways@.len() implies !settled@[#[trigger] self.ways@[e].source as int] by {
                self.lemma_edge_ends(e);
            }
        }
        loop
            invariant
                self.wf(),
                mode == travel_type,
                ud == use_distance,
                k == coefficients(min_of, multiplier),
                n == self.nodes@.len(),
                kn == k.num,
                kd == k.den,
                coefficient_ok(k),
                start < n,
                end < n,
                start != end,
                dist@.len() == n,
                settled@.len() == n,
                pred@.len() == n,
                pos@.len() == n,
                rank.len() == n,
                count == count_true(settled@),
                self.search_inv(mode, ud, k, start, dist@, settled@),
                self.state_inv(mode, ud, k, start, dist@, settled@, pred@, rank, count as int),
                self.frontier_inv(dist@, settled@, frontier@, pos@),
                heap_ok(dist@, frontier@),
                !settled@[end as int],
            decreases n - count,
        {
            proof {
                lemma_count_le(settled@);
                reveal(Graph::frontier_inv);
            }
            if frontier.len() == 0 {
                proof {
                    assert forall|p: Seq<usize>| !self.is_walk(mode, start as int, end as int, p) by {
                        if self.is_walk(mode, start as int, end as int, p) {
                            let v = self.lemma_reach(mode, ud, k, start, dist@, settled@, end as int, p);
                            assert(pos@[v] < frontier@.len());
                        }
                    }
                }
                return None;
            }
            proof {
                assert forall|q: int| 0 <= q < frontier@.len() implies dist@[frontier@[0] as int]
                    <= #[trigger] dist@[frontier@[q] as int] by {
                    lemma_root_min(dist@, frontier@, q);
                }
            }
            let x = frontier[0];
            proof {
                self.lemma_settle(
                    mode, ud, k, start, dist@, settled@, pred@, rank, count as int, frontier@, pos@,
                    0,
                );
            }
            let ghost f_before = frontier@;
            let ghost p_before = pos@;
            proof {
                self.lemma_frontier_pos(dist@, settled@, frontier@, pos@);
            }
            let popped = pop_min(&mut frontier, &mut pos, &dist);
            proof {
                assert(popped == x);
                self.lemma_frontier_pop(dist@, settled@, f_before, p_before, frontier@, pos@, x as int);
            }
            settled.set(x, true);
            proof {
                rank = rank.update(x as int, count as int);
            }
            count += 1;
            if x == end {
                proof {
                    reveal(Graph::state_inv);
                    reveal(Graph::search_base);
                }
                let edges = self.follow_preds(
                    start,
                    end,
                    travel_type,
                    use_distance,
                    Ghost(k),
                    &dist,
                    &settled,
                    &pred,
                    Ghost(rank),
                    count,
                );
                proof {
                    assert forall|q: int| 0 <= q < edges@.len() implies #[trigger] edges@[q]
                        < self.ways@.len() by {}
                }
                let (distance, ele_rise, path) = self.report_walk(
                    start,
                    travel_type,
                    use_distance,
                    &edges,
                );
                let res = DijkstraResult { path, edges, distance, ele_rise, multiplier };
                proof {
                    assert forall|p: Seq<usize>| #[trigger]
                        self.is_walk(mode, start as int, end as int, p) implies self.walk_cost(
                        mode,
                        ud,
                        k,
                        res.edges@,
                    ) <= self.walk_cost(mode, ud, k, p) by {
                        assert(settled@[end as int]);
                    }
                }
                return Some(res);
            }
            self.relax_from(
                x,
                start,
                travel_type,
                use_distance,
                kn,
                kd,
                Ghost(k),
                &mut dist,
                &mut pred,
                &mut frontier,
                &mut pos,
                &settled,
                Ghost(rank),
                count,
            );
        }
    }

    /// Optimal costs obey the triangle inequality: the best route from `a`
    /// to `c` costs no more than the best route from `a` to `b` followed by
    /// the best route from `b` to `c`.
    pub proof fn lemma_triangle(
        &self,
        mode: usize,
        use_distance: bool,
        k: Multiplier,
        a: usize,
        b: usize,
        c: usize,
        ab: DijkstraResult,
        bc: DijkstraResult,
        ac: DijkstraResult,
    )
        requires
            self.is_optimal(mode, use_distance, k, a, b, ab),
            self.is_optimal(mode, use_distance, k, b, c, bc),
            self.is_optimal(mode, use_distance, k, a, c, ac),
        ensures
            self.walk_cost(mode, use_distance, k, ac.edges@) <= self.walk_cost(
                mode,
                use_distance,
                k,
                ab.edges@,
            ) + self.walk_cost(mode, use_distance, k, bc.edges@),
    {
        let p = ab.edges@;
        let q = bc.edges@;
        self.lemma_walk_concat(mode, a as int, b as int, c as int, p, q);
        self.lemma_concat(mode, use_distance, p, q);
        assert(self.is_walk(mode, a as int, c as int, p + q));
        let w1 = self.walk_weight(mode, use_distance, p);
        let w2 = self.walk_weight(mode, use_distance, q);
        let r1 = self.walk_rise(p);
        let r2 = self.walk_rise(q);
        let d = k.den as int;
        let n = k.num as int;
        assert(d * (w1 + w2) + n * (r1 + r2) == (d * w1 + n * r1) + (d * w2 + n * r2))
            by (nonlinear_arith);
    }
}

} // verus!
