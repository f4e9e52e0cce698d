use vstd::prelude::*;

use crate::grid::{coords_ok, SpatialGrid};

verus! {

/// Largest number of nodes a graph may hold; it keeps every path cost inside `u128`.
pub const MAX_NODES: usize = 1073741824;

/// Longest admissible edge, in metres.
pub const MAX_EDGE_DISTANCE: u64 = 1000000;

/// Largest absolute node elevation, in centimetres.
pub const MAX_ELEVATION: i32 = 4000000;

/// Largest multiplier numerator or denominator that the search accepts.
pub const MAX_COEFFICIENT: u64 = 0x3fff_ffff_ffff_ffff;

/// A road-network node. Coordinates are in units of 1e-7 degrees,
/// the elevation is in centimetres.
#[derive(Clone, Copy, Debug, PartialEq, Eq, Structural)]
pub struct Node {
    pub latitude: i32,
    pub longitude: i32,
    pub elevation: i32,
}

/// A directed edge. `speed` is in km/h, `distance` in metres.
#[derive(Clone, Copy, Debug, PartialEq, Eq, Structural)]
pub struct Way {
    pub source: usize,
    pub target: usize,
    pub speed: usize,
    pub distance: u64,
    pub travel_type: usize,
}

/// A coordinate pair in units of 1e-7 degrees.
#[derive(Clone, Copy, Debug, PartialEq, Eq, Structural)]
pub struct Position {
    pub latitude: i32,
    pub longitude: i32,
}

/// Whether an edge of travel type `tt` may be used by travel mode `mode`
/// (0 car, 1 bike, 2 foot).
pub open spec fn allowed(mode: usize, tt: usize) -> bool {
    if mode == 0 {
        tt == 0 || tt == 1 || tt == 5
    } else if mode == 1 {
        tt == 1 || tt == 2 || tt == 3 || tt == 5
    } else {
        tt == 3 || tt == 4 || tt == 5
    }
}

pub fn is_allowed(mode: usize, tt: usize) -> (r: bool)
    ensures
        r == allowed(mode, tt),
{
    if mode == 0 {
        tt == 0 || tt == 1 || tt == 5
    } else if mode == 1 {
        tt == 1 || tt == 2 || tt == 3 || tt == 5
    } else {
        tt == 3 || tt == 4 || tt == 5
    }
}

/// The speed (km/h) used for travel-time weights.
pub open spec fn effective_speed(mode: usize, speed: usize) -> int {
    if mode == 0 {
        speed as int
    } else if mode == 1 {
        if speed <= 20 { speed as int } else { 20 }
    } else {
        7
    }
}

/// Edge weight: metres when `use_distance`, otherwise milliseconds of travel;
/// an edge without a speed keeps its raw distance.
pub open spec fn weight_of(w: Way, mode: usize, use_distance: bool) -> int {
    if use_distance || w.speed == 0 {
        w.distance as int
    } else {
        (w.distance as int * 3600) / effective_speed(mode, w.speed)
    }
}

/// The positive elevation gain between two heights.
pub open spec fn rise_between(from: i32, to: i32) -> int {
    if to > from { to - from } else { 0 }
}

pub open spec fn max_weight() -> int {
    MAX_EDGE_DISTANCE as int * 3600
}

pub open spec fn max_rise() -> int {
    2 * MAX_ELEVATION as int
}

/// Why a graph could not be assembled.
#[derive(Clone, Copy, Debug, PartialEq, Eq, Structural)]
pub enum GraphError {
    /// The arrays do not form a well-formed bounded graph.
    Malformed,
}

/// An immutable road graph: nodes, edges grouped by source with their
/// offsets, and the spatial index of the nodes.
pub struct Graph {
    pub nodes: Vec<Node>,
    pub ways: Vec<Way>,
    pub offset: Vec<usize>,
    pub grid: SpatialGrid,
}

impl Graph {
    /// The compressed-sparse-row shape: offsets bracket the edges of each
    /// source and the edges are grouped by source.
    #[verifier::opaque]
    pub open spec fn csr_ok(nodes: Seq<Node>, ways: Seq<Way>, offset: Seq<usize>) -> bool {
        &&& offset.len() == nodes.len() + 1
        &&& offset[0] == 0
        &&& offset[nodes.len() as int] == ways.len()
        &&& forall|x: int, y: int| 0 <= x <= y <= nodes.len() ==> #[trigger] offset[x] <= #[trigger] offset[y]
        &&& forall|v: int, e: int|
            #![trigger ways[e], offset[v]]
            0 <= v < nodes.len() && offset[v] <= e < offset[v + 1] ==> ways[e].source == v
        &&& forall|e: int| 0 <= e < ways.len() ==> #[trigger] ways[e].source < nodes.len()
            && ways[e].target < nodes.len()
    }

    /// Limits that keep every cost computation inside machine integers.
    pub open spec fn bounded(nodes: Seq<Node>, ways: Seq<Way>) -> bool {
        &&& nodes.len() <= MAX_NODES
        &&& forall|e: int| 0 <= e < ways.len() ==> #[trigger] ways[e].distance <= MAX_EDGE_DISTANCE
        &&& forall|v: int|
            0 <= v < nodes.len() ==> -MAX_ELEVATION <= #[trigger] nodes[v].elevation
                <= MAX_ELEVATION && coords_ok(nodes[v].latitude, nodes[v].longitude)
    }

    pub open spec fn wf(&self) -> bool {
        &&& Self::csr_ok(self.nodes@, self.ways@, self.offset@)
        &&& Self::bounded(self.nodes@, self.ways@)
    }

    /// A well-formed graph whose spatial index lists its nodes.
    pub open spec fn valid(&self) -> bool {
        &&& self.wf()
        &&& self.grid.wf(self.nodes@)
    }

    pub open spec fn weight(&self, e: int, mode: usize, use_distance: bool) -> int {
        weight_of(self.ways@[e], mode, use_distance)
    }

    pub open spec fn rise(&self, e: int) -> int {
        rise_between(
            self.nodes@[self.ways@[e].source as int].elevation,
            self.nodes@[self.ways@[e].target as int].elevation,
        )
    }

    /// `p` is a sequence of edge indices forming a walk from `start` to `end`
    /// that only uses edges that travel mode `mode` may take.
    pub open spec fn is_walk(&self, mode: usize, start: int, end: int, p: Seq<usize>) -> bool {
        &&& forall|i: int|
            0 <= i < p.len() ==> #[trigger] p[i] < self.ways@.len() && allowed(
                mode,
                self.ways@[p[i] as int].travel_type,
            )
        &&& forall|i: int|
            0 <= i < p.len() - 1 ==> #[trigger] self.ways@[p[i] as int].target == self.ways@[p[i
                + 1] as int].source
        &&& p.len() == 0 ==> start == end
        &&& p.len() > 0 ==> self.ways@[p[0] as int].source == start && self.ways@[p.last() as int].target
            == end
    }

    pub open spec fn walk_weight(&self, mode: usize, use_distance: bool, p: Seq<usize>) -> int
        decreases p.len(),
    {
        if p.len() == 0 {
            0
        } else {
            self.walk_weight(mode, use_distance, p.drop_last()) + self.weight(
                p.last() as int,
                mode,
                use_distance,
            )
        }
    }

    pub open spec fn walk_rise(&self, p: Seq<usize>) -> int
        decreases p.len(),
    {
        if p.len() == 0 {
            0
        } else {
            self.walk_rise(p.drop_last()) + self.rise(p.last() as int)
        }
    }

    /// The nodes visited by walk `p` from `start`, both ends included.
    pub open spec fn walk_nodes(&self, start: usize, p: Seq<usize>) -> Seq<usize> {
        seq![start] + Seq::new(p.len(), |i: int| self.ways@[p[i] as int].target)
    }

    pub fn edge_weight(&self, e: usize, mode: usize, use_distance: bool) -> (r: u64)
        requires
            self.wf(),
            e < self.ways@.len(),
        ensures
            r == self.weight(e as int, mode, use_distance),
            r <= max_weight(),
    {
        reveal(Graph::csr_ok);
        let w = self.ways[e];
        if use_distance || w.speed == 0 {
            w.distance
        } else {
            let speed: u64 = if mode == 0 {
                w.speed as u64
            } else if mode == 1 {
                if w.speed <= 20 { w.speed as u64 } else { 20 }
            } else {
                7
            };
            proof {
                assert(speed as int == effective_speed(mode, w.speed));
                assert(speed >= 1);
                assert((w.distance as int * 3600) / (speed as int) <= w.distance as int * 3600)
                    by (nonlinear_arith)
                    requires speed >= 1, w.distance >= 0;
            }
            w.distance * 3600 / speed
        }
    }

    pub fn edge_rise(&self, e: usize) -> (r: u64)
        requires
            self.wf(),
            e < self.ways@.len(),
        ensures
            r == self.rise(e as int),
            r <= max_rise(),
    {
        reveal(Graph::csr_ok);
        let w = self.ways[e];
        let from = self.nodes[w.source].elevation;
        let to = self.nodes[w.target].elevation;
        if to > from {
            (to as i64 - from as i64) as u64
        } else {
            0
        }
    }

    pub proof fn lemma_edge_bounds(&self, e: int, mode: usize, use_distance: bool)
        requires
            self.wf(),
            0 <= e < self.ways@.len(),
        ensures
            0 <= self.weight(e, mode, use_distance) <= max_weight(),
            0 <= self.rise(e) <= max_rise(),
    {
        reveal(Graph::csr_ok);
        let w = self.ways@[e];
        if !(use_distance || w.speed == 0) {
            let sp = effective_speed(mode, w.speed);
            assert(sp >= 1);
            assert((w.distance as int * 3600) / sp <= w.distance as int * 3600) by (nonlinear_arith)
                requires sp >= 1, w.distance >= 0;
            assert((w.distance as int * 3600) / sp >= 0) by (nonlinear_arith)
                requires sp >= 1, w.distance >= 0;
        }
        assert(self.ways@[e].source < self.nodes@.len());
        assert(self.ways@[e].target < self.nodes@.len());
    }

    proof fn lemma_bucket(&self, e: int, v: int) -> (b: int)
        requires
            self.wf(),
            0 <= e < self.ways@.len(),
            0 <= v < self.nodes@.len(),
            self.offset@[v] <= e,
        ensures
            0 <= b < self.nodes@.len(),
            self.offset@[b] <= e < self.offset@[b + 1],
        decreases self.nodes@.len() - v,
    {
        reveal(Graph::csr_ok);
        assert(self.offset@[v] <= self.offset@[v + 1]);
        if e < self.offset@[v + 1] {
            v
        } else {
            if v + 1 == self.nodes@.len() {
                assert(false);
            }
            self.lemma_bucket(e, v + 1)
        }
    }

    /// Every edge lies inside the offset range of its own source.
    pub proof fn lemma_edge_in_range(&self, e: int)
        requires
            self.wf(),
            0 <= e < self.ways@.len(),
        ensures
            self.offset@[self.ways@[e].source as int] <= e < self.offset@[self.ways@[e].source
                + 1],
    {
        reveal(Graph::csr_ok);
        assert(self.nodes@.len() > 0) by {
            if self.nodes@.len() == 0 {
                assert(self.offset@[0] == self.ways@.len());
            }
        }
        let b = self.lemma_bucket(e, 0);
        assert(self.ways@[e].source == b);
    }

    pub proof fn lemma_walk_nonneg(&self, mode: usize, use_distance: bool, p: Seq<usize>)
        requires
            self.wf(),
            forall|i: int| 0 <= i < p.len() ==> #[trigger] p[i] < self.ways@.len(),
        ensures
            0 <= self.walk_weight(mode, use_distance, p) <= p.len() * max_weight(),
            0 <= self.walk_rise(p) <= p.len() * max_rise(),
        decreases p.len(),
    {
        if p.len() > 0 {
            let q = p.drop_last();
            assert forall|i: int| 0 <= i < q.len() implies #[trigger] q[i] < self.ways@.len() by {
                assert(q[i] == p[i]);
            }
            self.lemma_walk_nonneg(mode, use_distance, q);
            assert(p.last() == p[p.len() - 1]);
            self.lemma_edge_bounds(p.last() as int, mode, use_distance);
            assert(q.len() * max_weight() + max_weight() == p.len() * max_weight())
                by (nonlinear_arith)
                requires q.len() + 1 == p.len();
            assert(q.len() * max_rise() + max_rise() == p.len() * max_rise()) by (nonlinear_arith)
                requires q.len() + 1 == p.len();
        }
    }

    /// Dropping the last edge of a walk leaves a walk to that edge's source.
    pub proof fn lemma_walk_drop_last(&self, mode: usize, start: int, end: int, p: Seq<usize>)
        requires
            self.is_walk(mode, start, end, p),
            p.len() > 0,
        ensures
            self.is_walk(mode, start, self.ways@[p.last() as int].source as int, p.drop_last()),
    {
        let q = p.drop_last();
        assert forall|i: int| 0 <= i < q.len() implies #[trigger] q[i] < self.ways@.len()
            && allowed(mode, self.ways@[q[i] as int].travel_type) by {
            assert(q[i] == p[i]);
        }
        assert forall|i: int| 0 <= i < q.len() - 1 implies #[trigger] self.ways@[q[i] as int].target
            == self.ways@[q[i + 1] as int].source by {
            assert(q[i] == p[i] && q[i + 1] == p[i + 1]);
        }
        if q.len() > 0 {
            assert(q[0] == p[0]);
            assert(q.last() == p[p.len() - 2]);
            assert(self.ways@[p[p.len() - 2] as int].target == self.ways@[p[p.len() - 1] as int].source);
        }
    }

    /// Weight and rise of a walk with one more edge in front.
    pub proof fn lemma_prepend(&self, mode: usize, use_distance: bool, e: usize, p: Seq<usize>)
        ensures
            self.walk_weight(mode, use_distance, seq![e] + p) == self.weight(e as int, mode, use_distance)
                + self.walk_weight(mode, use_distance, p),
            self.walk_rise(seq![e] + p) == self.rise(e as int) + self.walk_rise(p),
        decreases p.len(),
    {
        let q = seq![e] + p;
        if p.len() == 0 {
            assert(q.drop_last() =~= Seq::<usize>::empty());
            assert(q.last() == e);
            assert(self.walk_weight(mode, use_distance, q.drop_last()) == 0);
            assert(self.walk_rise(q.drop_last()) == 0);
        } else {
            assert(q.drop_last() =~= seq![e] + p.drop_last());
            assert(q.last() == p.last());
            self.lemma_prepend(mode, use_distance, e, p.drop_last());
        }
        assert(self.walk_weight(mode, use_distance, q) == self.walk_weight(
            mode,
            use_distance,
            q.drop_last(),
        ) + self.weight(q.last() as int, mode, use_distance));
        assert(self.walk_rise(q) == self.walk_rise(q.drop_last()) + self.rise(q.last() as int));
    }

    /// Weight and rise of two walks joined end to end.
    pub proof fn lemma_concat(&self, mode: usize, use_distance: bool, p: Seq<usize>, q: Seq<usize>)
        ensures
            self.walk_weight(mode, use_distance, p + q) == self.walk_weight(mode, use_distance, p)
                + self.walk_weight(mode, use_distance, q),
            self.walk_rise(p + q) == self.walk_rise(p) + self.walk_rise(q),
        decreases q.len(),
    {
        if q.len() == 0 {
            assert(p + q =~= p);
        } else {
            assert((p + q).drop_last() =~= p + q.drop_last());
            assert((p + q).last() == q.last());
            self.lemma_concat(mode, use_distance, p, q.drop_last());
        }
    }

    /// Joining a walk to `mid` with a walk from `mid` gives a walk.
    pub proof fn lemma_walk_concat(
        &self,
        mode: usize,
        a: int,
        b: int,
        c: int,
        p: Seq<usize>,
        q: Seq<usize>,
    )
        requires
            self.is_walk(mode, a, b, p),
            self.is_walk(mode, b, c, q),
        ensures
            self.is_walk(mode, a, c, p + q),
    {
        let r = p + q;
        if p.len() == 0 {
            assert(r =~= q);
        } else if q.len() == 0 {
            assert(r =~= p);
        } else {
            assert forall|i: int| 0 <= i < r.len() implies #[trigger] r[i] < self.ways@.len()
                && allowed(mode, self.ways@[r[i] as int].travel_type) by {
                if i < p.len() {
                    assert(r[i] == p[i]);
                } else {
                    assert(r[i] == q[i - p.len()]);
                }
            }
            assert forall|i: int| 0 <= i < r.len() - 1 implies #[trigger] self.ways@[r[i] as int].target
                == self.ways@[r[i + 1] as int].source by {
                if i < p.len() - 1 {
                    assert(r[i] == p[i] && r[i + 1] == p[i + 1]);
                } else if i == p.len() - 1 {
                    assert(r[i] == p.last() && r[i + 1] == q[0]);
                } else {
                    assert(r[i] == q[i - p.len()] && r[i + 1] == q[i - p.len() + 1]);
                }
            }
            assert(r[0] == p[0]);
            assert(r.last() == q.last());
        }
    }

    /// An edge into the start of a walk extends it backwards.
    pub proof fn lemma_walk_prepend(&self, mode: usize, s: int, cur: int, end: int, e: usize, p: Seq<usize>)
        requires
            self.is_walk(mode, cur, end, p),
            e < self.ways@.len(),
            allowed(mode, self.ways@[e as int].travel_type),
            self.ways@[e as int].source == s,
            self.ways@[e as int].target == cur,
        ensures
            self.is_walk(mode, s, end, seq![e] + p),
    {
        let q = seq![e] + p;
        assert forall|i: int| 0 <= i < q.len() implies #[trigger] q[i] < self.ways@.len()
            && allowed(mode, self.ways@[q[i] as int].travel_type) by {
            if i > 0 {
                assert(q[i] == p[i - 1]);
            }
        }
        assert forall|i: int| 0 <= i < q.len() - 1 implies #[trigger] self.ways@[q[i] as int].target
            == self.ways@[q[i + 1] as int].source by {
            if i > 0 {
                assert(q[i] == p[i - 1] && q[i + 1] == p[i]);
            } else {
                assert(q[1] == p[0]);
            }
        }
        if p.len() == 0 {
            assert(q.last() == e);
        } else {
            assert(q.last() == p.last());
        }
    }

    /// Offsets never exceed the edge count.
    pub proof fn lemma_offset_le(&self, v: int)
        requires
            self.wf(),
            0 <= v <= self.nodes@.len(),
        ensures
            self.offset@[v] <= self.ways@.len(),
        decreases self.nodes@.len() - v,
    {
        reveal(Graph::csr_ok);
        if v < self.nodes@.len() {
            assert(self.offset@[v] <= self.offset@[v + 1]);
            self.lemma_offset_le(v + 1);
        }
    }

    /// The edges in the offset range of `v` leave `v`, and the range is ordered.
    pub proof fn lemma_range_source(&self, v: int, e: int)
        requires
            self.wf(),
            0 <= v < self.nodes@.len(),
        ensures
            self.offset@.len() == self.nodes@.len() + 1,
            self.offset@[v] <= self.offset@[v + 1] <= self.ways@.len(),
            self.offset@[v] <= e < self.offset@[v + 1] ==> self.ways@[e].source == v,
    {
        reveal(Graph::csr_ok);
        assert(self.offset@[v + 1] <= self.offset@[self.nodes@.len() as int]);
    }

    pub proof fn lemma_edge_ends(&self, e: int)
        requires
            self.wf(),
            0 <= e < self.ways@.len(),
        ensures
            self.ways@[e].source < self.nodes@.len(),
            self.ways@[e].target < self.nodes@.len(),
    {
        reveal(Graph::csr_ok);
        assert(Self::csr_ok(self.nodes@, self.ways@, self.offset@));
        assert(self.ways@[e].source < self.nodes@.len());
    }

    /// Checks the limits that make a graph's costs computable.
    fn check_bounds(nodes: &Vec<Node>, ways: &Vec<Way>) -> (r: bool)
        ensures
            r == Self::bounded(nodes@, ways@),
    {
        if nodes.len() > MAX_NODES {
            return false;
        }
        let mut e: usize = 0;
        while e < ways.len()
            invariant
                e <= ways@.len(),
                forall|j: int| 0 <= j < e ==> #[trigger] ways@[j].distance <= MAX_EDGE_DISTANCE,
            decreases ways@.len() - e,
        {
            if ways[e].distance > MAX_EDGE_DISTANCE {
                return false;
            }
            e += 1;
        }
        let mut v: usize = 0;
        while v < nodes.len()
            invariant
                v <= nodes@.len(),
                forall|j: int|
                    0 <= j < v ==> -MAX_ELEVATION <= #[trigger] nodes@[j].elevation <= MAX_ELEVATION
                        && coords_ok(nodes@[j].latitude, nodes@[j].longitude),
            decreases nodes@.len() - v,
        {
            let node = nodes[v];
            if node.elevation < -MAX_ELEVATION || node.elevation > MAX_ELEVATION
                || node.latitude < -crate::grid::MAX_LATITUDE
                || node.latitude > crate::grid::MAX_LATITUDE
                || node.longitude < -crate::grid::MAX_LONGITUDE
                || node.longitude > crate::grid::MAX_LONGITUDE {
                return false;
            }
            v += 1;
        }
        true
    }

    /// Whether every edge in `lo .. hi` leaves node `v`.
    fn check_group(ways: &Vec<Way>, lo: usize, hi: usize, v: usize) -> (r: bool)
        requires
            lo <= hi <= ways@.len(),
        ensures
            r == forall|j: int| lo <= j < hi ==> #[trigger] ways@[j].source == v,
    {
        let mut e = lo;
        while e < hi
            invariant
                lo <= e <= hi,
                hi <= ways@.len(),
                forall|j: int| lo <= j < e ==> #[trigger] ways@[j].source == v,
            decreases hi - e,
        {
            if ways[e].source != v {
                return false;
            }
            e += 1;
        }
        true
    }

    /// Whether every edge joins two of the `n` nodes.
    fn check_endpoints(ways: &Vec<Way>, n: usize) -> (r: bool)
        ensures
            r == forall|j: int| 0 <= j < ways@.len() ==> #[trigger] ways@[j].source < n && ways@[j].target < n,
    {
        let mut e: usize = 0;
        while e < ways.len()
            invariant
                e <= ways@.len(),
                forall|j: int| 0 <= j < e ==> #[trigger] ways@[j].source < n && ways@[j].target < n,
            decreases ways@.len() - e,
        {
            if ways[e].source >= n || ways[e].target >= n {
                return false;
            }
            e += 1;
        }
        true
    }

    /// Checks the compressed-sparse-row shape.
    fn check_csr(nodes: &Vec<Node>, ways: &Vec<Way>, offset: &Vec<usize>) -> (r: bool)
        ensures
            r == Self::csr_ok(nodes@, ways@, offset@),
    {
        let n = nodes.len();
        if offset.len() == 0 || offset.len() - 1 != n || offset[0] != 0 || offset[n] != ways.len() {
            proof {
                reveal(Graph::csr_ok);
            }
            return false;
        }
        let mut v: usize = 0;
        while v < n
            invariant
                n == nodes@.len(),
                offset@.len() == n + 1,
                offset@[0] == 0,
                offset@[n as int] == ways@.len(),
                v <= n,
                offset@[v as int] <= ways@.len(),
                forall|x: int, y: int| 0 <= x <= y <= v ==> #[trigger] offset@[x] <= #[trigger] offset@[y],
                forall|e: int|
                    0 <= e < offset@[v as int] ==> #[trigger] ways@[e].source < v && offset@[ways@[e].source as int]
                        <= e < offset@[ways@[e].source + 1],
            decreases n - v,
        {
            if offset[v] > offset[v + 1] || offset[v + 1] > ways.len() {
                proof {
                    reveal(Graph::csr_ok);
                    if Self::csr_ok(nodes@, ways@, offset@) {
                        assert(offset@[v as int + 1] <= offset@[n as int]);
                        assert(offset@[v as int] <= offset@[v as int + 1]);
                    }
                }
                return false;
            }
            if !Self::check_group(ways, offset[v], offset[v + 1], v) {
                proof {
                    reveal(Graph::csr_ok);
                    let j = choose|j: int|
                        offset@[v as int] <= j < offset@[v as int + 1] && #[trigger] ways@[j].source != v;
                    assert(offset@[v as int] <= j < offset@[v as int + 1] && ways@[j].source != v);
                }
                return false;
            }
            v += 1;
        }
        let r = Self::check_endpoints(ways, n);
        proof {
            reveal(Graph::csr_ok);
            if r {
                assert forall|u: int, e: int|
                    #![trigger ways@[e], offset@[u]]
                    0 <= u < n && offset@[u] <= e < offset@[u + 1] implies ways@[e].source == u by {
                    assert(offset@[u + 1] <= offset@[n as int]);
                    let s = ways@[e].source as int;
                    if s < u {
                        assert(offset@[s + 1] <= offset@[u]);
                    } else if s > u {
                        assert(offset@[u + 1] <= offset@[s]);
                    }
                }
            }
        }
        r
    }

    /// Assembles a graph from its arrays and indexes its nodes; the arrays
    /// are refused unless they form a well-formed bounded graph.
    pub fn new(nodes: Vec<Node>, ways: Vec<Way>, offset: Vec<usize>) -> (r: Result<Graph, GraphError>)
        ensures
            r is Ok <==> Self::csr_ok(nodes@, ways@, offset@) && Self::bounded(nodes@, ways@),
            r matches Ok(g) ==> g.valid() && g.nodes@ == nodes@ && g.ways@ == ways@ && g.offset@
                == offset@,
    {
        if !Self::check_bounds(&nodes, &ways) || !Self::check_csr(&nodes, &ways, &offset) {
            return Err(GraphError::Malformed);
        }
        proof {
            assert forall|v: int| 0 <= v < nodes@.len() implies coords_ok(
                #[trigger] nodes@[v].latitude,
                nodes@[v].longitude,
            ) by {
                assert(-MAX_ELEVATION <= nodes@[v].elevation);
            }
        }
        let grid = SpatialGrid::build(&nodes);
        Ok(Graph { nodes, ways, offset, grid })
    }

    pub fn get_nodes(&self, path: &Vec<usize>) -> (r: Vec<Node>)
        requires
            forall|i: int| 0 <= i < path@.len() ==> #[trigger] path@[i] < self.nodes@.len(),
        ensures
            r@.len() == path@.len(),
            forall|i: int| 0 <= i < path@.len() ==> #[trigger] r@[i] == self.nodes@[path@[i] as int],
    {
        let mut r: Vec<Node> = Vec::new();
        let mut i: usize = 0;
        while i < path.len()
            invariant
                i <= path@.len(),
                r@.len() == i,
                forall|j: int| 0 <= j < path@.len() ==> #[trigger] path@[j] < self.nodes@.len(),
                forall|j: int| 0 <= j < i ==> #[trigger] r@[j] == self.nodes@[path@[j] as int],
            decreases path@.len() - i,
        {
            r.push(self.nodes[path[i]]);
            i += 1;
        }
        r
    }

    pub fn get_node(&self, id: usize) -> (r: Node)
        requires
            id < self.nodes@.len(),
        ensures
            r == self.nodes@[id as int],
    {
        self.nodes[id]
    }

    /// The offset array has one entry per node plus one, never decreases,
    /// and ends at the edge count; every edge joins two nodes, and the edges
    /// are sorted by source.
    pub proof fn lemma_csr_shape(&self)
        requires
            self.wf(),
        ensures
            self.offset@.len() == self.nodes@.len() + 1,
            forall|x: int, y: int|
                0 <= x <= y <= self.nodes@.len() ==> #[trigger] self.offset@[x] <= #[trigger] self.offset@[y],
            self.offset@[self.nodes@.len() as int] == self.ways@.len(),
            forall|e: int|
                0 <= e < self.ways@.len() ==> #[trigger] self.ways@[e].source < self.nodes@.len()
                    && self.ways@[e].target < self.nodes@.len(),
            forall|i: int, j: int|
                0 <= i <= j < self.ways@.len() ==> #[trigger] self.ways@[i].source <= #[trigger] self.ways@[j].source,
    {
        reveal(Graph::csr_ok);
        assert forall|i: int, j: int|
            0 <= i <= j < self.ways@.len() implies #[trigger] self.ways@[i].source <= #[trigger] self.ways@[j].source by {
            self.lemma_edge_in_range(i);
            self.lemma_edge_in_range(j);
            let a = self.ways@[i].source as int;
            let b = self.ways@[j].source as int;
            if a > b {
                assert(self.offset@[b + 1] <= self.offset@[a]);
            }
        }
    }

    /// Node `v` is listed exactly once in the spatial index, under the cell
    /// of its own coordinates.
    pub proof fn lemma_grid_cell(&self, v: int)
        requires
            self.valid(),
            0 <= v < self.nodes@.len(),
        ensures
            ({
                let c = self.grid.cell_of@[v] as int;
                &&& self.grid.cells@[c] == crate::grid::cell_at(
                    self.nodes@[v].latitude,
                    self.nodes@[v].longitude,
                )
                &&& self.grid.members(c).contains(v as usize)
                &&& forall|d: int, j: int|
                    0 <= d < self.grid.cells@.len() && 0 <= j < self.grid.members(d).len()
                        && #[trigger] self.grid.members(d)[j] == v ==> d == c
                &&& forall|i: int, j: int|
                    0 <= i < j < self.grid.members(c).len() ==> self.grid.members(c)[i]
                        != self.grid.members(c)[j]
            }),
    {
        self.grid.lemma_node_in_one_cell(self.nodes@, v);
    }

    /// A grouping of bounded edges by source is a compressed-sparse-row layout.
    pub proof fn lemma_grouped_is_csr(
        nodes: Seq<Node>,
        input: Seq<Way>,
        ways: Seq<Way>,
        offset: Seq<usize>,
        order: Seq<usize>,
    )
        requires
            crate::csr::grouped(crate::builder::sources(input), nodes.len() as int, offset, order),
            ways.len() == order.len(),
            forall|j: int| 0 <= j < order.len() ==> #[trigger] ways[j] == input[order[j] as int],
            forall|i: int| 0 <= i < input.len() ==> #[trigger] input[i].source < nodes.len()
                && input[i].target < nodes.len(),
            input.len() <= usize::MAX,
        ensures
            Self::csr_ok(nodes, ways, offset),
    {
        reveal(Graph::csr_ok);
        let keys = crate::builder::sources(input);
        let n = nodes.len() as int;
        assert forall|v: int, e: int|
            #![trigger ways[e], offset[v]]
            0 <= v < n && offset[v] <= e < offset[v + 1] implies ways[e].source == v by {
            assert(order.subrange(offset[v] as int, offset[v + 1] as int) == crate::csr::bucket(keys, v));
            assert(order[e] == crate::csr::bucket(keys, v)[e - offset[v]]);
            crate::csr::lemma_bucket_members(keys, v);
        }
        assert forall|e: int| 0 <= e < ways.len() implies #[trigger] ways[e].source < n && ways[e].target
            < n by {
            crate::builder::lemma_order_in_range(keys, n, offset, order, e);
        }
    }
}

} // verus!
