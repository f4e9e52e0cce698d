use vstd::prelude::*;

use crate::dijkstra::{coefficient_ok, coefficients, Dijkstra, DijkstraResult, Multiplier};
use crate::graph::{max_rise, max_weight, Graph, MAX_COEFFICIENT, MAX_NODES};

verus! {

/// Why no route within the budget exists. (A destination that no walk
/// reaches is not an error: it yields an empty list of routes.)
#[derive(Clone, Copy, Debug, PartialEq, Eq, Structural)]
pub enum PlanError {
    /// Every walk climbs more than the budget; `min_rise` is the least climb.
    Infeasible { min_rise: u64 },
}

/// Two multipliers denote the same ratio (an absent one matches only an absent one).
pub open spec fn same_ratio(a: Option<Multiplier>, b: Option<Multiplier>) -> bool {
    match (a, b) {
        (Some(x), Some(y)) => x.num * y.den == y.num * x.den,
        (None, None) => true,
        _ => false,
    }
}

proof fn lemma_wide_product(a: u64, b: u64)
    ensures
        0 <= a as int * b as int <= u64::MAX as int * u64::MAX as int,
        u64::MAX as int * u64::MAX as int <= u128::MAX,
{
    assert(0 <= a as int * b as int <= u64::MAX as int * u64::MAX as int) by (nonlinear_arith);
}

fn same_multiplier(a: Option<Multiplier>, b: Option<Multiplier>) -> (r: bool)
    ensures
        r == same_ratio(a, b),
{
    match (a, b) {
        (Some(x), Some(y)) => {
            proof {
                lemma_wide_product(x.num, y.den);
                lemma_wide_product(y.num, x.den);
            }
            x.num as u128 * y.den as u128 == y.num as u128 * x.den as u128
        },
        (None, None) => true,
        _ => false,
    }
}

/// Whether two finite multipliers differ by more than one hundredth.
pub open spec fn differs_notably(a: Multiplier, b: Multiplier) -> bool {
    let lhs = a.num * b.den;
    let rhs = b.num * a.den;
    let diff = if lhs >= rhs {
        lhs - rhs
    } else {
        rhs - lhs
    };
    100 * diff > a.den * b.den
}

fn notable_change(a: Multiplier, b: Multiplier) -> (r: bool)
    ensures
        r == differs_notably(a, b),
{
    proof {
        lemma_wide_product(a.num, b.den);
        lemma_wide_product(b.num, a.den);
        lemma_wide_product(a.den, b.den);
    }
    let lhs = a.num as u128 * b.den as u128;
    let rhs = b.num as u128 * a.den as u128;
    let diff = if lhs >= rhs {
        lhs - rhs
    } else {
        rhs - lhs
    };
    let scale = a.den as u128 * b.den as u128;
    proof {
        let d = diff as int;
        let s = scale as int;
        assert((100 * d > s) == (d > s / 100)) by (nonlinear_arith)
            requires d >= 0, s >= 0;
    }
    diff > scale / 100
}

/// How one Lagrangian step moves the bracket between the low-climb route
/// and the short route.
#[derive(Clone, Copy, Debug, PartialEq, Eq, Structural)]
pub enum BracketMove {
    /// The new route fits the budget and replaces the low-climb end.
    Tighten,
    /// The new route exceeds the budget and replaces the short end.
    Loosen,
    /// The new route narrows nothing; the search is over.
    Stop,
}

/// The bracket update. A route within the budget replaces the low-climb end
/// when it climbs more (or as much, over a shorter distance); one above the
/// budget replaces the short end when it climbs less (or as much, over a
/// shorter distance). So across steps the low-climb end's rise never falls
/// and stays within the budget, and the short end's rise never grows and
/// stays above it.
pub fn bracket_step(
    ele_rise: u64,
    ele_distance: u64,
    dist_rise: u64,
    dist_distance: u64,
    latest_rise: u64,
    latest_distance: u64,
    max_elevation: u64,
) -> (r: BracketMove)
    ensures
        r == BracketMove::Tighten <==> latest_rise <= max_elevation && (latest_rise > ele_rise || (
        latest_rise == ele_rise && latest_distance < ele_distance)),
        r == BracketMove::Loosen <==> latest_rise > max_elevation && (latest_rise < dist_rise || (
        latest_rise == dist_rise && latest_distance < dist_distance)),
        r == BracketMove::Tighten ==> ele_rise <= latest_rise <= max_elevation,
        r == BracketMove::Loosen ==> max_elevation < latest_rise <= dist_rise,
{
    if latest_rise <= max_elevation {
        if latest_rise > ele_rise || (latest_rise == ele_rise && latest_distance < ele_distance) {
            BracketMove::Tighten
        } else {
            BracketMove::Stop
        }
    } else {
        if latest_rise < dist_rise || (latest_rise == dist_rise && latest_distance < dist_distance) {
            BracketMove::Loosen
        } else {
            BracketMove::Stop
        }
    }
}

fn same_edges(a: &Vec<usize>, b: &Vec<usize>) -> (r: bool)
    ensures
        r == (a@ == b@),
{
    if a.len() != b.len() {
        return false;
    }
    let mut i: usize = 0;
    while i < a.len()
        invariant
            a@.len() == b@.len(),
            i <= a@.len(),
            forall|j: int| 0 <= j < i ==> a@[j] == b@[j],
        decreases a@.len() - i,
    {
        if a[i] != b[i] {
            return false;
        }
        i += 1;
    }
    assert(a@ =~= b@);
    true
}

fn copy_result(res: &DijkstraResult) -> (r: DijkstraResult)
    ensures
        r.path@ == res.path@,
        r.edges@ == res.edges@,
        r.distance == res.distance,
        r.ele_rise == res.ele_rise,
        r.multiplier == res.multiplier,
{
    let mut path: Vec<usize> = Vec::new();
    let mut i: usize = 0;
    while i < res.path.len()
        invariant
            i <= res.path@.len(),
            path@ == res.path@.take(i as int),
        decreases res.path@.len() - i,
    {
        path.push(res.path[i]);
        i += 1;
        assert(path@ =~= res.path@.take(i as int));
    }
    let mut edges: Vec<usize> = Vec::new();
    let mut j: usize = 0;
    while j < res.edges.len()
        invariant
            j <= res.edges@.len(),
            edges@ == res.edges@.take(j as int),
        decreases res.edges@.len() - j,
    {
        edges.push(res.edges[j]);
        j += 1;
        assert(edges@ =~= res.edges@.take(j as int));
    }
    assert(path@ =~= res.path@);
    assert(edges@ =~= res.edges@);
    DijkstraResult {
        path,
        edges,
        distance: res.distance,
        ele_rise: res.ele_rise,
        multiplier: res.multiplier,
    }
}

impl Graph {
    /// A result that describes a walk from `start` to `end` within the climb budget.
    pub open spec fn fits(
        &self,
        mode: usize,
        use_distance: bool,
        start: usize,
        end: usize,
        res: DijkstraResult,
        budget: u64,
    ) -> bool {
        &&& self.describes(mode, use_distance, start, end, res)
        &&& res.ele_rise <= budget
    }

    /// Some walk joins `start` to `end` for the mode.
    pub open spec fn connected(&self, mode: usize, start: usize, end: usize) -> bool {
        exists|p: Seq<usize>| self.is_walk(mode, start as int, end as int, p)
    }

    /// Some walk joins `start` to `end` and climbs at most `budget`.
    pub open spec fn feasible(&self, mode: usize, start: usize, end: usize, budget: u64) -> bool {
        exists|p: Seq<usize>|
            self.is_walk(mode, start as int, end as int, p) && self.walk_rise(p) <= budget
    }

    proof fn lemma_result_bounds(&self, mode: usize, ud: bool, start: usize, end: usize, res: DijkstraResult)
        requires
            self.wf(),
            self.describes(mode, ud, start, end, res),
            res.edges@.len() < self.nodes@.len(),
        ensures
            res.distance <= MAX_COEFFICIENT,
            res.ele_rise <= MAX_COEFFICIENT,
    {
        let p = res.edges@;
        self.lemma_walk_nonneg(mode, ud, p);
        assert(p.len() * max_weight() <= MAX_NODES * max_weight()) by (nonlinear_arith)
            requires p.len() <= MAX_NODES;
        assert(p.len() * max_rise() <= MAX_NODES * max_rise()) by (nonlinear_arith)
            requires p.len() <= MAX_NODES;
    }

    /// A route optimal under a finite multiplier that climbs at least as
    /// much as another route is no longer than it.
    proof fn lemma_tighten_shortens(
        &self,
        mode: usize,
        ud: bool,
        m: Multiplier,
        start: usize,
        end: usize,
        r: DijkstraResult,
        e: DijkstraResult,
    )
        requires
            m.den > 0,
            self.is_optimal(mode, ud, m, start, end, r),
            self.describes(mode, ud, start, end, e),
            r.ele_rise >= e.ele_rise,
        ensures
            r.distance <= e.distance,
    {
        assert(self.is_walk(mode, start as int, end as int, e.edges@));
        let d = m.den as int;
        let k = m.num as int;
        let rd = r.distance as int;
        let rr = r.ele_rise as int;
        let ed = e.distance as int;
        let er = e.ele_rise as int;
        assert(d * rd + k * rr <= d * ed + k * er);
        assert(rd <= ed) by (nonlinear_arith)
            requires d > 0, k >= 0, rr >= er, d * rd + k * rr <= d * ed + k * er;
    }

    /// `p` is a walk of least weight from `start` to `end`.
    pub open spec fn weight_optimal(&self, mode: usize, use_distance: bool, start: usize, end: usize, p: Seq<usize>) -> bool {
        &&& self.is_walk(mode, start as int, end as int, p)
        &&& forall|q: Seq<usize>|
            #[trigger] self.is_walk(mode, start as int, end as int, q) ==> self.walk_weight(mode, use_distance, p)
                <= self.walk_weight(mode, use_distance, q)
    }

    /// `p` is a walk of least climb from `start` to `end`.
    pub open spec fn rise_optimal(&self, mode: usize, start: usize, end: usize, p: Seq<usize>) -> bool {
        &&& self.is_walk(mode, start as int, end as int, p)
        &&& forall|q: Seq<usize>|
            #[trigger] self.is_walk(mode, start as int, end as int, q) ==> self.walk_rise(p) <= self.walk_rise(q)
    }

    /// `p` is the only walk of least weight and also the only walk of least
    /// climb: the unique solution.
    pub open spec fn sole_best(&self, mode: usize, use_distance: bool, start: usize, end: usize, p: Seq<usize>) -> bool {
        &&& self.weight_optimal(mode, use_distance, start, end, p)
        &&& self.rise_optimal(mode, start, end, p)
        &&& forall|q: Seq<usize>| #[trigger] self.weight_optimal(mode, use_distance, start, end, q) ==> q == p
        &&& forall|q: Seq<usize>| #[trigger] self.rise_optimal(mode, start, end, q) ==> q == p
    }

    /// `res` is optimal for some admissible Lagrangian weighting.
    pub open spec fn lagrangian_optimal(
        &self,
        mode: usize,
        use_distance: bool,
        start: usize,
        end: usize,
        res: DijkstraResult,
    ) -> bool {
        exists|k: Multiplier|
            coefficient_ok(k) && #[trigger] self.is_optimal(mode, use_distance, k, start, end, res)
    }

    /// Two results report the same route.
    pub open spec fn same_route(a: DijkstraResult, b: DijkstraResult) -> bool {
        &&& a.path@ == b.path@
        &&& a.edges@ == b.edges@
        &&& a.distance == b.distance
        &&& a.ele_rise == b.ele_rise
    }

    /// What every non-empty answer of the planner satisfies: each route fits
    /// the budget and is optimal for some weighting; a single route when
    /// `all_paths` is unset; otherwise the list starts with a least-climbing
    /// route and its rises never decrease.
    pub open spec fn good_answer(
        &self,
        mode: usize,
        use_distance: bool,
        start: usize,
        end: usize,
        max_elevation: u64,
        all_paths: bool,
        v: Seq<DijkstraResult>,
    ) -> bool {
        &&& v.len() >= 1
        &&& !all_paths ==> v.len() == 1
        &&& forall|i: int|
            0 <= i < v.len() ==> self.fits(mode, use_distance, start, end, #[trigger] v[i], max_elevation)
        &&& forall|i: int|
            0 <= i < v.len() ==> self.lagrangian_optimal(mode, use_distance, start, end, #[trigger] v[i])
        &&& all_paths ==> self.is_optimal(mode, use_distance, Multiplier { num: 1, den: 0 }, start, end, v[0])
        &&& all_paths ==> forall|i: int, j: int|
            0 <= i <= j < v.len() ==> #[trigger] v[i].ele_rise <= #[trigger] v[j].ele_rise
        &&& all_paths ==> forall|i: int, j: int|
            0 <= i <= j < v.len() ==> #[trigger] v[j].distance <= #[trigger] v[i].distance
    }

    proof fn lemma_unit_costs(&self, mode: usize, ud: bool, p: Seq<usize>)
        ensures
            self.walk_cost(mode, ud, Multiplier { num: 0, den: 1 }, p) == self.walk_weight(mode, ud, p),
            self.walk_cost(mode, ud, Multiplier { num: 1, den: 0 }, p) == self.walk_rise(p),
    {
        let w = self.walk_weight(mode, ud, p);
        let r = self.walk_rise(p);
        assert(1 * w + 0 * r == w && 0 * w + 1 * r == r) by (nonlinear_arith);
    }

    /// The planner's decisions, given the result `shortest` of the search at
    /// multiplier 0 and the result `flattest` of the least-climb search:
    /// infeasible exactly when the least climb exceeds the budget; the one
    /// route when both searches agree; the shortest route alone when it fits
    /// and a single route is asked for; otherwise the Lagrangian bracket
    /// search between the two, which collects the trade-off routes found
    /// within the budget, starting from the flattest route and, when the
    /// shortest route fits, ending with it.
    pub fn plan_with(
        &self,
        start: usize,
        end: usize,
        travel_type: usize,
        use_distance: bool,
        max_elevation: u64,
        all_paths: bool,
        shortest: DijkstraResult,
        flattest: DijkstraResult,
    ) -> (r: Result<Vec<DijkstraResult>, PlanError>)
        requires
            self.wf(),
            start < self.nodes@.len(),
            end < self.nodes@.len(),
            travel_type <= 2,
            self.is_optimal(travel_type, use_distance, Multiplier { num: 0, den: 1 }, start, end, shortest),
            self.is_optimal(travel_type, use_distance, Multiplier { num: 1, den: 0 }, start, end, flattest),
            shortest.edges@.len() < self.nodes@.len(),
            flattest.edges@.len() < self.nodes@.len(),
            shortest.multiplier == Some(Multiplier { num: 0, den: 1 }),
            flattest.multiplier == Some(Multiplier { num: 1, den: 0 }),
        ensures
            r is Err <==> flattest.ele_rise > max_elevation,
            r matches Err(PlanError::Infeasible { min_rise }) ==> min_rise == flattest.ele_rise,
            r matches Ok(v) ==> self.good_answer(
                travel_type,
                use_distance,
                start,
                end,
                max_elevation,
                all_paths,
                v@,
            ),
            shortest.edges@ == flattest.edges@ && flattest.ele_rise <= max_elevation ==> (r is Ok
                && r->Ok_0@.len() == 1 && Self::same_route(r->Ok_0@[0], shortest)),
            !all_paths && shortest.ele_rise <= max_elevation ==> (r is Ok && r->Ok_0@.len() == 1
                && Self::same_route(r->Ok_0@[0], shortest)),
            all_paths && flattest.ele_rise <= max_elevation && shortest.edges@ != flattest.edges@ ==> (r is Ok
                && Self::same_route(r->Ok_0@[0], flattest)),
            all_paths && shortest.ele_rise <= max_elevation && shortest.edges@ != flattest.edges@ ==> (r is Ok
                && r->Ok_0@.len() >= 2 && Self::same_route(r->Ok_0@.last(), shortest)),
    {
        let ghost mode = travel_type;
        let ghost ud = use_distance;
        let ghost kz = Multiplier { num: 0, den: 1 };
        let ghost kr = Multiplier { num: 1, den: 0 };
        let d0 = shortest;
        let e0 = flattest;
        proof {
            assert forall|p: Seq<usize>| #[trigger]
                self.is_walk(mode, start as int, end as int, p) implies e0.ele_rise
                <= self.walk_rise(p) by {
                self.lemma_unit_costs(mode, ud, p);
                self.lemma_unit_costs(mode, ud, e0.edges@);
            }
            assert(self.is_walk(mode, start as int, end as int, d0.edges@));
            assert(coefficient_ok(kz) && coefficient_ok(kr));
            assert(self.lagrangian_optimal(mode, ud, start, end, d0));
            assert(self.lagrangian_optimal(mode, ud, start, end, e0));
        }
        if e0.ele_rise > max_elevation {
            return Err(PlanError::Infeasible { min_rise: e0.ele_rise });
        }
        if same_edges(&d0.edges, &e0.edges) {
            let mut v: Vec<DijkstraResult> = Vec::new();
            v.push(d0);
            proof {
                assert(self.is_optimal(mode, ud, kr, start, end, d0));
            }
            return Ok(v);
        }
        if d0.ele_rise <= max_elevation && !all_paths {
            let mut v: Vec<DijkstraResult> = Vec::new();
            v.push(d0);
            return Ok(v);
        }
        let ghost d_first = d0;
        let ghost e_first = e0;
        proof {
            assert(self.is_walk(mode, start as int, end as int, e0.edges@));
            assert(self.is_walk(mode, start as int, end as int, d0.edges@));
            assert(e0.ele_rise <= d0.ele_rise);
        }
        let mut found: Vec<DijkstraResult> = Vec::new();
        found.push(copy_result(&e0));
        proof {
            assert(self.is_optimal(mode, ud, kr, start, end, found@[0]));
        }
        let mut dist_result = d0;
        let mut ele_result = e0;
        let mut previous: Option<Multiplier> = None;
        proof {
            self.lemma_result_bounds(mode, ud, start, end, dist_result);
            self.lemma_result_bounds(mode, ud, start, end, ele_result);
        }
        loop
            invariant
                self.wf(),
                mode == travel_type,
                ud == use_distance,
                start < self.nodes@.len(),
                end < self.nodes@.len(),
                travel_type <= 2,
                found@.len() >= 1,
                self.is_optimal(mode, ud, kr, start, end, found@[0]),
                Self::same_route(found@[0], e_first),
                self.is_optimal(mode, ud, kz, start, end, d_first),
                d_first.edges@.len() < self.nodes@.len(),
                dist_result.ele_rise <= max_elevation ==> Self::same_route(dist_result, d_first),
                d_first.ele_rise <= max_elevation ==> Self::same_route(dist_result, d_first),
                forall|i: int|
                    0 <= i < found@.len() ==> self.fits(mode, ud, start, end, #[trigger] found@[i], max_elevation),
                forall|i: int|
                    0 <= i < found@.len() ==> self.lagrangian_optimal(mode, ud, start, end, #[trigger] found@[i]),
                forall|i: int, j: int|
                    0 <= i <= j < found@.len() ==> #[trigger] found@[i].ele_rise <= #[trigger] found@[j].ele_rise,
                forall|i: int| 0 <= i < found@.len() ==> #[trigger] found@[i].ele_rise <= ele_result.ele_rise,
                forall|i: int, j: int|
                    0 <= i <= j < found@.len() ==> #[trigger] found@[j].distance <= #[trigger] found@[i].distance,
                forall|i: int| 0 <= i < found@.len() ==> ele_result.distance <= #[trigger] found@[i].distance,
                self.fits(mode, ud, start, end, ele_result, max_elevation),
                self.lagrangian_optimal(mode, ud, start, end, ele_result),
                self.describes(mode, ud, start, end, dist_result),
                ele_result.ele_rise <= dist_result.ele_rise,
                dist_result.distance <= MAX_COEFFICIENT,
                dist_result.ele_rise <= MAX_COEFFICIENT,
                ele_result.distance <= MAX_COEFFICIENT,
            decreases dist_result.ele_rise - ele_result.ele_rise, ele_result.distance
                + dist_result.distance,
        {
            if ele_result.distance < dist_result.distance || ele_result.ele_rise == dist_result.ele_rise {
                break;
            }
            let m = Multiplier {
                num: ele_result.distance - dist_result.distance,
                den: dist_result.ele_rise - ele_result.ele_rise,
            };
            let latest = match self.dijkstra(
                Dijkstra::Multiplier,
                start,
                end,
                travel_type,
                use_distance,
                Some(m),
            ) {
                Some(res) => res,
                None => {
                    break;
                },
            };
            if same_multiplier(latest.multiplier, ele_result.multiplier) || same_multiplier(
                latest.multiplier,
                dist_result.multiplier,
            ) {
                break;
            }
            proof {
                self.lemma_result_bounds(mode, ud, start, end, latest);
                assert(coefficients(Dijkstra::Multiplier, Some(m)) == m);
                assert(self.lagrangian_optimal(mode, ud, start, end, latest));
            }
            match bracket_step(
                ele_result.ele_rise,
                ele_result.distance,
                dist_result.ele_rise,
                dist_result.distance,
                latest.ele_rise,
                latest.distance,
                max_elevation,
            ) {
                BracketMove::Tighten => {
                    if latest.ele_rise >= dist_result.ele_rise {
                        break;
                    }
                    proof {
                        self.lemma_tighten_shortens(mode, ud, m, start, end, latest, ele_result);
                    }
                    let notable = match previous {
                        Some(p) => notable_change(m, p),
                        None => true,
                    };
                    if notable {
                        let ghost before = found@;
                        let copy = copy_result(&latest);
                        proof {
                            assert(self.is_optimal(mode, ud, m, start, end, copy));
                        }
                        found.push(copy);
                        proof {
                            assert forall|i: int| 0 <= i < found@.len() implies self.lagrangian_optimal(
                                mode, ud, start, end, #[trigger] found@[i]) by {
                                if i < before.len() {
                                    assert(found@[i] == before[i]);
                                }
                            }
                            assert forall|i: int| 0 <= i < found@.len() implies self.fits(
                                mode, ud, start, end, #[trigger] found@[i], max_elevation) by {
                                if i < before.len() {
                                    assert(found@[i] == before[i]);
                                }
                            }
                            assert forall|i: int, j: int|
                                0 <= i <= j < found@.len() implies #[trigger] found@[i].ele_rise
                                <= #[trigger] found@[j].ele_rise by {
                                if j < before.len() {
                                    assert(found@[i] == before[i] && found@[j] == before[j]);
                                } else if i < before.len() {
                                    assert(found@[i] == before[i]);
                                }
                            }
                            assert forall|i: int, j: int|
                                0 <= i <= j < found@.len() implies #[trigger] found@[j].distance
                                <= #[trigger] found@[i].distance by {
                                if j < before.len() {
                                    assert(found@[i] == before[i] && found@[j] == before[j]);
                                } else if i < before.len() {
                                    assert(found@[i] == before[i]);
                                }
                            }
                            assert(found@[0] == before[0]);
                        }
                    }
                    ele_result = latest;
                },
                BracketMove::Loosen => {
                    dist_result = latest;
                },
                BracketMove::Stop => {
                    break;
                },
            }
            previous = Some(m);
        }
        if all_paths {
            if dist_result.ele_rise <= max_elevation {
                let ghost before = found@;
                proof {
                    assert forall|i: int| 0 <= i < before.len() implies dist_result.distance
                        <= #[trigger] before[i].distance by {
                        assert(self.is_walk(mode, start as int, end as int, before[i].edges@));
                        self.lemma_unit_costs(mode, ud, before[i].edges@);
                        self.lemma_unit_costs(mode, ud, d_first.edges@);
                    }
                    assert(self.is_optimal(mode, ud, kz, start, end, dist_result));
                    assert(self.lagrangian_optimal(mode, ud, start, end, dist_result));
                }
                found.push(dist_result);
                proof {
                    assert forall|i: int| 0 <= i < found@.len() implies self.lagrangian_optimal(
                        mode, ud, start, end, #[trigger] found@[i]) by {
                        if i < before.len() {
                            assert(found@[i] == before[i]);
                        }
                    }
                    assert forall|i: int| 0 <= i < found@.len() implies self.fits(
                        mode, ud, start, end, #[trigger] found@[i], max_elevation) by {
                        if i < before.len() {
                            assert(found@[i] == before[i]);
                        }
                    }
                    assert forall|i: int, j: int|
                        0 <= i <= j < found@.len() implies #[trigger] found@[i].ele_rise
                        <= #[trigger] found@[j].ele_rise by {
                        if j < before.len() {
                            assert(found@[i] == before[i] && found@[j] == before[j]);
                        } else if i < before.len() {
                            assert(found@[i] == before[i]);
                        }
                    }
                    assert forall|i: int, j: int|
                        0 <= i <= j < found@.len() implies #[trigger] found@[j].distance
                        <= #[trigger] found@[i].distance by {
                        if j < before.len() {
                            assert(found@[i] == before[i] && found@[j] == before[j]);
                        } else if i < before.len() {
                            assert(found@[i] == before[i]);
                        }
                    }
                    assert(found@[0] == before[0]);
                }
            }
            Ok(found)
        } else {
            let mut v: Vec<DijkstraResult> = Vec::new();
            v.push(ele_result);
            Ok(v)
        }
    }

    /// Elevation-constrained route planning by Lagrangian relaxation. An
    /// unreachable destination gives an empty list; every walk climbing more
    /// than `max_elevation` gives `Infeasible` with the least climb; otherwise
    /// the routes satisfy `good_answer`; the last route is a shortest one
    /// whenever every shortest walk fits the budget, and a walk that is the
    /// only shortest and the only least-climbing one comes back alone.
    pub fn find_optimal_path(
        &self,
        start: usize,
        end: usize,
        travel_type: usize,
        use_distance: bool,
        max_elevation: u64,
        all_paths: bool,
    ) -> (r: Result<Vec<DijkstraResult>, PlanError>)
        requires
            self.wf(),
            start < self.nodes@.len(),
            end < self.nodes@.len(),
            travel_type <= 2,
        ensures
            (r is Ok && r->Ok_0@.len() == 0) <==> !self.connected(travel_type, start, end),
            (r is Ok && r->Ok_0@.len() >= 1) <==> self.feasible(travel_type, start, end, max_elevation),
            r is Ok && r->Ok_0@.len() >= 1 ==> self.good_answer(
                travel_type,
                use_distance,
                start,
                end,
                max_elevation,
                all_paths,
                r->Ok_0@,
            ),
            r is Ok && r->Ok_0@.len() >= 1 && (forall|p: Seq<usize>|
                #[trigger] self.weight_optimal(travel_type, use_distance, start, end, p)
                    ==> self.walk_rise(p) <= max_elevation) ==> self.is_optimal(
                travel_type,
                use_distance,
                Multiplier { num: 0, den: 1 },
                start,
                end,
                r->Ok_0@.last(),
            ),
            forall|p: Seq<usize>|
                #[trigger] self.sole_best(travel_type, use_distance, start, end, p) && self.walk_rise(p)
                    <= max_elevation ==> (r is Ok && r->Ok_0@.len() == 1 && r->Ok_0@[0].edges@ == p),
            r matches Err(PlanError::Infeasible { min_rise }) ==> {
                &&& min_rise > max_elevation
                &&& forall|p: Seq<usize>|
                    #[trigger] self.is_walk(travel_type, start as int, end as int, p) ==> min_rise
                        <= self.walk_rise(p)
                &&& exists|p: Seq<usize>|
                    self.is_walk(travel_type, start as int, end as int, p) && self.walk_rise(p) == min_rise
            },
    {
        let ghost mode = travel_type;
        let ghost ud = use_distance;
        let zero = Multiplier { num: 0, den: 1 };
        let infinite = Multiplier { num: 1, den: 0 };
        let d0 = match self.dijkstra(Dijkstra::Multiplier, start, end, travel_type, use_distance, Some(zero)) {
            Some(d) => d,
            None => {
                return Ok(Vec::new());
            },
        };
        proof {
            assert(self.is_walk(mode, start as int, end as int, d0.edges@));
        }
        let e0 = match self.dijkstra(Dijkstra::Elevation, start, end, travel_type, use_distance, Some(infinite)) {
            Some(e) => e,
            None => {
                proof {
                    assert(!self.is_walk(mode, start as int, end as int, d0.edges@));
                }
                return Ok(Vec::new());
            },
        };
        let ghost kz = Multiplier { num: 0, den: 1 };
        let ghost kr = Multiplier { num: 1, den: 0 };
        proof {
            assert(coefficients(Dijkstra::Elevation, Some(infinite)) == kr);
            assert(coefficients(Dijkstra::Multiplier, Some(zero)) == kz);
            assert forall|p: Seq<usize>| #[trigger]
                self.is_walk(mode, start as int, end as int, p) implies e0.ele_rise
                <= self.walk_rise(p) by {
                self.lemma_unit_costs(mode, ud, p);
                self.lemma_unit_costs(mode, ud, e0.edges@);
            }
            assert forall|q: Seq<usize>| #[trigger]
                self.is_walk(mode, start as int, end as int, q) implies self.walk_weight(mode, ud, d0.edges@)
                <= self.walk_weight(mode, ud, q) by {
                self.lemma_unit_costs(mode, ud, q);
                self.lemma_unit_costs(mode, ud, d0.edges@);
            }
            assert(self.weight_optimal(mode, ud, start, end, d0.edges@));
            assert(self.is_walk(mode, start as int, end as int, e0.edges@));
        }
        let ghost d_view = d0;
        let ghost e_view = e0;
        let r = self.plan_with(start, end, travel_type, use_distance, max_elevation, all_paths, d0, e0);
        proof {
            assert forall|q: Seq<usize>| #[trigger] self.is_walk(mode, start as int, end as int, q) implies self.walk_rise(
                e_view.edges@) <= self.walk_rise(q) by {
                self.lemma_unit_costs(mode, ud, q);
                self.lemma_unit_costs(mode, ud, e_view.edges@);
            }
            assert(self.rise_optimal(mode, start, end, e_view.edges@));
            if r is Ok && r->Ok_0@.len() >= 1 && (forall|p: Seq<usize>|
                #[trigger] self.weight_optimal(mode, ud, start, end, p) ==> self.walk_rise(p) <= max_elevation) {
                assert(d_view.ele_rise <= max_elevation);
                if d_view.edges@ != e_view.edges@ {
                    assert(Self::same_route(r->Ok_0@.last(), d_view));
                } else {
                    assert(Self::same_route(r->Ok_0@[0], d_view));
                }
            }
            assert forall|p: Seq<usize>|
                #[trigger] self.sole_best(mode, ud, start, end, p) && self.walk_rise(p) <= max_elevation implies (r is Ok
                    && r->Ok_0@.len() == 1 && r->Ok_0@[0].edges@ == p) by {
                assert(d_view.edges@ == p);
                assert(e_view.edges@ == p);
            }
        }
        r
    }
}

} // verus!
