use vstd::prelude::*;

use crate::csr::bucket;
use crate::graph::{allowed, is_allowed, Graph};
use crate::grid::{cell_at, cell_key, cell_of_coords, cell_ok, coords_ok, key_of, Cell, SpatialGrid};

verus! {

broadcast use {
    vstd::std_specs::hash::group_hash_axioms,
    vstd::seq_lib::lemma_seq_contains_after_push,
    vstd::seq_lib::lemma_seq_empty_contains_nothing,
};

/// The position of the first least value, `None` for an empty list: the
/// nearest candidate, the first one seen winning a tie.
pub fn first_minimum(values: &Vec<u64>) -> (r: Option<usize>)
    ensures
        r is None <==> values@.len() == 0,
        r matches Some(i) ==> {
            &&& i < values@.len()
            &&& forall|j: int| 0 <= j < values@.len() ==> values@[i as int] <= #[trigger] values@[j]
            &&& forall|j: int| 0 <= j < i ==> values@[i as int] < #[trigger] values@[j]
        },
{
    if values.len() == 0 {
        return None;
    }
    let mut best: usize = 0;
    let mut j: usize = 1;
    while j < values.len()
        invariant
            best < j <= values@.len(),
            forall|q: int| 0 <= q < j ==> values@[best as int] <= #[trigger] values@[q],
            forall|q: int| 0 <= q < best ==> values@[best as int] < #[trigger] values@[q],
        decreases values@.len() - j,
    {
        if values[j] < values[best] {
            best = j;
        }
        j += 1;
    }
    Some(best)
}

/// No value occurs twice in `s`.
pub open spec fn no_repeats(s: Seq<usize>) -> bool {
    forall|i: int, j: int| 0 <= i < j < s.len() ==> #[trigger] s[i] != #[trigger] s[j]
}

pub open spec fn abs_diff(a: int, b: int) -> int {
    if a >= b {
        a - b
    } else {
        b - a
    }
}

/// Chebyshev distance between two cells, in cells.
pub open spec fn ring_dist(a: Cell, b: Cell) -> int {
    let x = abs_diff(a.lat as int, b.lat as int);
    let y = abs_diff(a.lon as int, b.lon as int);
    if x >= y {
        x
    } else {
        y
    }
}

/// Cell `c` comes before the offset `(dl, dn)` from `seed` in row-major order.
pub open spec fn scanned_before(c: Cell, seed: Cell, dl: int, dn: int) -> bool {
    let a = c.lat - seed.lat;
    let b = c.lon - seed.lon;
    a < dl || (a == dl && b < dn)
}

impl Graph {
    pub open spec fn node_cell(&self, v: int) -> Cell {
        cell_at(self.nodes@[v].latitude, self.nodes@[v].longitude)
    }

    /// Node `v` has an outgoing edge that travel mode `mode` may use.
    pub open spec fn admissible(&self, v: int, mode: usize) -> bool {
        exists|e: int|
            self.offset@[v] <= e < self.offset@[v + 1] && allowed(
                mode,
                #[trigger] self.ways@[e].travel_type,
            )
    }

    pub fn is_valid_node_for_travel_type(&self, v: usize, mode: usize) -> (r: bool)
        requires
            self.wf(),
            v < self.nodes@.len(),
        ensures
            r == self.admissible(v as int, mode),
    {
        proof {
            self.lemma_range_source(v as int, 0);
        }
        let lo = self.offset[v];
        let hi = self.offset[v + 1];
        let mut e = lo;
        while e < hi
            invariant
                lo <= e <= hi,
                lo == self.offset@[v as int],
                hi == self.offset@[v as int + 1],
                hi <= self.ways@.len(),
                forall|j: int| lo <= j < e ==> !allowed(mode, #[trigger] self.ways@[j].travel_type),
            decreases hi - e,
        {
            if is_allowed(mode, self.ways[e].travel_type) {
                return true;
            }
            e += 1;
        }
        false
    }

    /// Appends the admissible nodes listed under `cell`.
    fn add_valid_node_ids_from_cell(&self, node_ids: &mut Vec<usize>, cell: Cell, mode: usize)
        requires
            self.valid(),
            forall|x: usize|
                #[trigger] old(node_ids)@.contains(x) ==> x < self.nodes@.len() && self.node_cell(x as int)
                    != cell,
            no_repeats(old(node_ids)@),
        ensures
            forall|x: usize|
                #[trigger] final(node_ids)@.contains(x) <==> old(node_ids)@.contains(x) || (x
                    < self.nodes@.len() && self.admissible(x as int, mode) && self.node_cell(x as int)
                    == cell),
            no_repeats(final(node_ids)@),
    {
        if !(-9000 <= cell.lat && cell.lat <= 9000 && -18000 <= cell.lon && cell.lon <= 18000) {
            proof {
                assert forall|x: usize| x < self.nodes@.len() implies self.node_cell(x as int) != cell by {
                    self.lemma_node_cell_ok(x as int);
                }
            }
            return;
        }
        let key = key_of(cell);
        let c = match self.grid.index.get(&key) {
            Some(found) => *found,
            None => {
                proof {
                    assert forall|x: usize| x < self.nodes@.len() implies self.node_cell(x as int)
                        != cell by {
                        self.lemma_cell_listed(x as int);
                    }
                }
                return;
            },
        };
        proof {
            self.lemma_cell_members(c as int, cell);
        }
        let lo = self.grid.cell_offset[c];
        let hi = self.grid.cell_offset[c + 1];
        let ghost start = node_ids@;
        let mut j = lo;
        while j < hi
            invariant
                self.valid(),
                lo <= j <= hi,
                hi <= self.grid.cell_nodes@.len(),
                lo == self.grid.cell_offset@[c as int],
                hi == self.grid.cell_offset@[c as int + 1],
                forall|q: int| lo <= q < hi ==> #[trigger] self.grid.cell_nodes@[q] < self.nodes@.len(),
                forall|q: int| lo <= q < hi ==> self.node_cell(#[trigger] self.grid.cell_nodes@[q] as int) == cell,
                forall|q1: int, q2: int|
                    lo <= q1 < q2 < hi ==> #[trigger] self.grid.cell_nodes@[q1] != #[trigger] self.grid.cell_nodes@[q2],
                forall|x: usize|
                    #[trigger] start.contains(x) ==> x < self.nodes@.len() && self.node_cell(x as int) != cell,
                no_repeats(node_ids@),
                forall|x: usize|
                    #[trigger] node_ids@.contains(x) <==> start.contains(x) || (self.admissible(
                        x as int,
                        mode,
                    ) && exists|q: int| lo <= q < j && self.grid.cell_nodes@[q] == x),
            decreases hi - j,
        {
            let v = self.grid.cell_nodes[j];
            let keep = self.is_valid_node_for_travel_type(v, mode);
            if keep {
                proof {
                    if node_ids@.contains(v) {
                        assert(!start.contains(v));
                        let q = choose|q: int| lo <= q < j && self.grid.cell_nodes@[q] == v;
                        assert(self.grid.cell_nodes@[q] != self.grid.cell_nodes@[j as int]);
                    }
                }
                let ghost before = node_ids@;
                node_ids.push(v);
                proof {
                    assert forall|a: int, b: int| 0 <= a < b < node_ids@.len() implies #[trigger] node_ids@[a]
                        != #[trigger] node_ids@[b] by {
                        if b == before.len() {
                            assert(before.contains(before[a]));
                        } else {
                            assert(before[a] != before[b]);
                        }
                    }
                }
            }
            j += 1;
            proof {
                assert forall|x: usize|
                    #[trigger] node_ids@.contains(x) <==> start.contains(x) || (self.admissible(
                        x as int,
                        mode,
                    ) && exists|q: int| lo <= q < j && self.grid.cell_nodes@[q] == x) by {
                    if x == v && self.admissible(x as int, mode) {
                        assert(self.grid.cell_nodes@[j - 1] == x);
                    }
                    if exists|q: int| lo <= q < j && self.grid.cell_nodes@[q] == x {
                        let q = choose|q: int| lo <= q < j && self.grid.cell_nodes@[q] == x;
                        if q < j - 1 {
                            assert(exists|q2: int| lo <= q2 < j - 1 && self.grid.cell_nodes@[q2] == x);
                        }
                    }
                }
            }
        }
    }

    proof fn lemma_node_cell_ok(&self, v: int)
        requires
            self.valid(),
            0 <= v < self.nodes@.len(),
        ensures
            cell_ok(self.node_cell(v)),
    {
        reveal(SpatialGrid::wf);
        assert(self.grid.cell_of@[v] < self.grid.cells@.len());
    }

    /// Every node's cell is in the index.
    proof fn lemma_cell_listed(&self, v: int)
        requires
            self.valid(),
            0 <= v < self.nodes@.len(),
        ensures
            self.grid.index@.contains_key(cell_key(self.node_cell(v)) as i64),
    {
        reveal(SpatialGrid::wf);
        let c = self.grid.cell_of@[v] as int;
        assert(self.grid.cells@[c] == self.node_cell(v));
    }

    /// The members of the cell that the index maps `cell` to are exactly the
    /// nodes whose cell is `cell`.
    proof fn lemma_cell_members(&self, c: int, cell: Cell)
        requires
            self.valid(),
            cell_ok(cell),
            self.grid.index@.contains_key(cell_key(cell) as i64),
            self.grid.index@[cell_key(cell) as i64] == c,
        ensures
            0 <= c < self.grid.cells@.len(),
            self.grid.cells@.len() <= crate::graph::MAX_NODES,
            self.grid.cell_offset@.len() == self.grid.cells@.len() + 1,
            self.grid.cell_offset@[c] <= self.grid.cell_offset@[c + 1] <= self.grid.cell_nodes@.len(),
            forall|q: int|
                self.grid.cell_offset@[c] <= q < self.grid.cell_offset@[c + 1] ==> #[trigger] self.grid.cell_nodes@[q]
                    < self.nodes@.len(),
            forall|q: int|
                self.grid.cell_offset@[c] <= q < self.grid.cell_offset@[c + 1] ==> self.node_cell(
                    #[trigger] self.grid.cell_nodes@[q] as int,
                ) == cell,
            forall|q1: int, q2: int|
                self.grid.cell_offset@[c] <= q1 < q2 < self.grid.cell_offset@[c + 1]
                    ==> #[trigger] self.grid.cell_nodes@[q1] != #[trigger] self.grid.cell_nodes@[q2],
            forall|x: usize|
                x < self.nodes@.len() ==> (self.node_cell(x as int) == cell <==> exists|q: int|
                    self.grid.cell_offset@[c] <= q < self.grid.cell_offset@[c + 1]
                        && #[trigger] self.grid.cell_nodes@[q] == x),
    {
        reveal(SpatialGrid::wf);
        let g = self.grid;
        let keys = g.cell_of@;
        let m = g.cells@.len() as int;
        let lo = g.cell_offset@[c] as int;
        let hi = g.cell_offset@[c + 1] as int;
        assert(g.cell_offset@[c + 1] <= g.cell_offset@[m]);
        assert(cell_key(g.cells@[c]) == cell_key(cell));
        crate::grid::lemma_key_injective(g.cells@[c], cell);
        assert(g.members(c) == bucket(keys, c));
        crate::csr::lemma_bucket_members(keys, c);
        assert forall|q: int| lo <= q < hi implies #[trigger] g.cell_nodes@[q] < self.nodes@.len() by {
            assert(g.cell_nodes@[q] == bucket(keys, c)[q - lo]);
        }
        assert forall|q: int| lo <= q < hi implies self.node_cell(#[trigger] g.cell_nodes@[q] as int) == cell by {
            assert(g.cell_nodes@[q] == bucket(keys, c)[q - lo]);
            let x = g.cell_nodes@[q] as int;
            assert(keys[x] == c);
            assert(g.cells@[keys[x] as int] == self.node_cell(x));
        }
        crate::grid::lemma_bucket_increasing(keys, c);
        assert forall|q1: int, q2: int| lo <= q1 < q2 < hi implies #[trigger] g.cell_nodes@[q1]
            != #[trigger] g.cell_nodes@[q2] by {
            assert(g.cell_nodes@[q1] == bucket(keys, c)[q1 - lo]);
            assert(g.cell_nodes@[q2] == bucket(keys, c)[q2 - lo]);
        }
        assert forall|x: usize| x < self.nodes@.len() implies (self.node_cell(x as int) == cell <==> exists|q: int|
            lo <= q < hi && #[trigger] g.cell_nodes@[q] == x) by {
            let d = keys[x as int] as int;
            if self.node_cell(x as int) == cell {
                assert(g.cells@[d] == cell);
                assert(g.index@[cell_key(g.cells@[d]) as i64] == d);
                crate::grid::lemma_bucket_holds(keys, c, x as int);
                let j = choose|j: int| 0 <= j < bucket(keys, c).len() && bucket(keys, c)[j] == x;
                assert(g.cell_nodes@[lo + j] == x);
            }
            if exists|q: int| lo <= q < hi && #[trigger] g.cell_nodes@[q] == x {
                let q = choose|q: int| lo <= q < hi && #[trigger] g.cell_nodes@[q] == x;
                assert(g.cell_nodes@[q] == bucket(keys, c)[q - lo]);
                assert(keys[x as int] == c);
            }
        }
    }

    /// `out` lists exactly the admissible nodes at ring distance `d` from
    /// `seed`, and no admissible node lies closer.
    pub open spec fn nearest_ring(&self, out: Seq<usize>, seed: Cell, mode: usize, d: int) -> bool {
        &&& forall|x: usize|
            #[trigger] out.contains(x) <==> x < self.nodes@.len() && self.admissible(x as int, mode)
                && ring_dist(self.node_cell(x as int), seed) == d
        &&& forall|x: int|
            0 <= x < self.nodes@.len() && #[trigger] self.admissible(x, mode) ==> ring_dist(
                self.node_cell(x),
                seed,
            ) >= d
    }

    proof fn lemma_node_cell_listed(&self, v: int) -> (c: int)
        requires
            self.valid(),
            0 <= v < self.nodes@.len(),
        ensures
            0 <= c < self.grid.cells@.len(),
            self.grid.cells@[c] == self.node_cell(v),
    {
        reveal(SpatialGrid::wf);
        self.grid.cell_of@[v] as int
    }

    /// The admissible nodes whose cell lies at ring distance exactly `r`
    /// from `seed`.
    fn ring_nodes(&self, seed: Cell, r: i32, mode: usize) -> (out: Vec<usize>)
        requires
            self.valid(),
            cell_ok(seed),
            0 <= r <= 40000,
        ensures
            no_repeats(out@),
            forall|x: usize|
                #[trigger] out@.contains(x) <==> x < self.nodes@.len() && self.admissible(x as int, mode)
                    && ring_dist(self.node_cell(x as int), seed) == r,
    {
        let mut out: Vec<usize> = Vec::new();
        let mut dl: i32 = -r;
        while dl <= r
            invariant
                self.valid(),
                cell_ok(seed),
                0 <= r <= 40000,
                -r <= dl <= r + 1,
                no_repeats(out@),
                forall|x: usize|
                    #[trigger] out@.contains(x) <==> x < self.nodes@.len() && self.admissible(
                        x as int,
                        mode,
                    ) && ring_dist(self.node_cell(x as int), seed) == r && self.node_cell(x as int).lat
                        - seed.lat < dl,
            decreases r + 1 - dl,
        {
            let mut dn: i32 = -r;
            while dn <= r
                invariant
                    self.valid(),
                    cell_ok(seed),
                    0 <= r <= 40000,
                    -r <= dl <= r,
                    -r <= dn <= r + 1,
                    no_repeats(out@),
                    forall|x: usize|
                        #[trigger] out@.contains(x) <==> x < self.nodes@.len() && self.admissible(
                            x as int,
                            mode,
                        ) && ring_dist(self.node_cell(x as int), seed) == r && scanned_before(
                            self.node_cell(x as int),
                            seed,
                            dl as int,
                            dn as int,
                        ),
                decreases r + 1 - dn,
            {
                let adl = if dl < 0 {
                    -dl
                } else {
                    dl
                };
                let adn = if dn < 0 {
                    -dn
                } else {
                    dn
                };
                let cell = Cell { lat: seed.lat + dl, lon: seed.lon + dn };
                let ghost before = out@;
                if adl == r || adn == r {
                    proof {
                        assert forall|x: usize| #[trigger] out@.contains(x) implies x < self.nodes@.len()
                            && self.node_cell(x as int) != cell by {
                            if self.node_cell(x as int) == cell {
                                assert(self.node_cell(x as int).lat - seed.lat == dl);
                                assert(self.node_cell(x as int).lon - seed.lon == dn);
                            }
                        }
                    }
                    self.add_valid_node_ids_from_cell(&mut out, cell, mode);
                }
                proof {
                    assert forall|x: usize|
                        #[trigger] out@.contains(x) <==> x < self.nodes@.len() && self.admissible(
                            x as int,
                            mode,
                        ) && ring_dist(self.node_cell(x as int), seed) == r && scanned_before(
                            self.node_cell(x as int),
                            seed,
                            dl as int,
                            dn + 1,
                        ) by {
                        if x < self.nodes@.len() {
                            let nc = self.node_cell(x as int);
                            if nc == cell {
                                assert(nc.lat - seed.lat == dl && nc.lon - seed.lon == dn);
                            } else {
                                if nc.lat - seed.lat == dl && nc.lon - seed.lon == dn {
                                    assert(nc == cell);
                                }
                            }
                        }
                    }
                }
                dn += 1;
            }
            proof {
                assert forall|x: usize|
                    #[trigger] out@.contains(x) <==> x < self.nodes@.len() && self.admissible(
                        x as int,
                        mode,
                    ) && ring_dist(self.node_cell(x as int), seed) == r && self.node_cell(x as int).lat
                        - seed.lat < dl + 1 by {}
            }
            dl += 1;
        }
        out
    }

    /// Candidate nodes around a position: the admissible nodes of the
    /// nearest ring of grid cells, around the position's own cell, that
    /// holds any; empty when no node is admissible for the mode.
    pub fn get_adjacent_node_ids(&self, lat: i32, lon: i32, travel_type: usize) -> (out: Vec<usize>)
        requires
            self.valid(),
            coords_ok(lat, lon),
        ensures
            no_repeats(out@),
            out@.len() == 0 <==> forall|x: int|
                0 <= x < self.nodes@.len() ==> !#[trigger] self.admissible(x, travel_type),
            out@.len() > 0 ==> exists|d: int|
                #[trigger] self.nearest_ring(out@, cell_at(lat, lon), travel_type, d),
    {
        let seed = cell_of_coords(lat, lon);
        let mut max_r: i32 = 0;
        let mut c: usize = 0;
        proof {
            reveal(SpatialGrid::wf);
        }
        while c < self.grid.cells.len()
            invariant
                self.valid(),
                cell_ok(seed),
                c <= self.grid.cells@.len(),
                forall|q: int| 0 <= q < self.grid.cells@.len() ==> cell_ok(#[trigger] self.grid.cells@[q]),
                0 <= max_r <= 40000,
                forall|q: int| 0 <= q < c ==> ring_dist(#[trigger] self.grid.cells@[q], seed) <= max_r,
            decreases self.grid.cells@.len() - c,
        {
            let cell = self.grid.cells[c];
            let a = if cell.lat >= seed.lat {
                cell.lat - seed.lat
            } else {
                seed.lat - cell.lat
            };
            let b = if cell.lon >= seed.lon {
                cell.lon - seed.lon
            } else {
                seed.lon - cell.lon
            };
            let d = if a >= b {
                a
            } else {
                b
            };
            if d > max_r {
                max_r = d;
            }
            c += 1;
        }
        let mut r: i32 = 0;
        while r <= max_r
            invariant
                self.valid(),
                cell_ok(seed),
                seed == cell_at(lat, lon),
                0 <= r <= max_r + 1,
                max_r <= 40000,
                forall|q: int| 0 <= q < self.grid.cells@.len() ==> ring_dist(#[trigger] self.grid.cells@[q], seed) <= max_r,
                forall|x: int|
                    0 <= x < self.nodes@.len() && #[trigger] self.admissible(x, travel_type)
                        ==> ring_dist(self.node_cell(x), seed) >= r,
            decreases max_r + 1 - r,
        {
            let found = self.ring_nodes(seed, r, travel_type);
            if found.len() > 0 {
                proof {
                    let x = found@[0];
                    assert(found@.contains(x));
                    assert(self.nearest_ring(found@, seed, travel_type, r as int));
                }
                return found;
            }
            proof {
                assert forall|x: int|
                    0 <= x < self.nodes@.len() && #[trigger] self.admissible(x, travel_type) implies ring_dist(
                    self.node_cell(x),
                    seed,
                ) >= r + 1 by {
                    if ring_dist(self.node_cell(x), seed) == r {
                        assert(found@.contains(x as usize));
                    }
                }
            }
            r += 1;
        }
        proof {
            assert forall|x: int| 0 <= x < self.nodes@.len() implies !#[trigger] self.admissible(
                x,
                travel_type,
            ) by {
                let c = self.lemma_node_cell_listed(x);
            }
        }
        Vec::new()
    }
}

} // verus!
