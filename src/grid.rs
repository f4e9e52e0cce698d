use vstd::prelude::*;

use std::collections::HashMap;

use crate::csr::{bucket, group_by_key, grouped};
use crate::graph::{Node, MAX_NODES};

verus! {

broadcast use vstd::std_specs::hash::group_hash_axioms;

/// Largest absolute latitude, in units of 1e-7 degrees.
pub const MAX_LATITUDE: i32 = 900000000;

/// Largest absolute longitude, in units of 1e-7 degrees.
pub const MAX_LONGITUDE: i32 = 1800000000;

/// A grid cell, 0.01 degrees on each side, named by the floors of
/// latitude and longitude times one hundred.
#[derive(Clone, Copy, Debug, PartialEq, Eq, Structural)]
pub struct Cell {
    pub lat: i32,
    pub lon: i32,
}

pub open spec fn coords_ok(lat: i32, lon: i32) -> bool {
    -MAX_LATITUDE <= lat <= MAX_LATITUDE && -MAX_LONGITUDE <= lon <= MAX_LONGITUDE
}

/// ⌊lat · 100⌋ for a latitude given in 1e-7 degrees.
pub open spec fn cell_lat(lat: i32) -> int {
    (lat + 900000000) / 100000 - 9000
}

/// ⌊lon · 100⌋ for a longitude given in 1e-7 degrees.
pub open spec fn cell_lon(lon: i32) -> int {
    (lon + 1800000000) / 100000 - 18000
}

pub open spec fn cell_at(lat: i32, lon: i32) -> Cell {
    Cell { lat: cell_lat(lat) as i32, lon: cell_lon(lon) as i32 }
}

/// One integer per cell, distinct for distinct cells in range.
pub open spec fn cell_key(c: Cell) -> int {
    c.lat * 100000 + c.lon
}

pub open spec fn cell_ok(c: Cell) -> bool {
    -9000 <= c.lat <= 9000 && -18000 <= c.lon <= 18000
}

pub proof fn lemma_key_injective(a: Cell, b: Cell)
    requires
        -50000 < a.lon < 50000,
        -50000 < b.lon < 50000,
        cell_key(a) == cell_key(b),
    ensures
        a == b,
{
    let x = a.lat as int;
    let y = b.lat as int;
    let u = a.lon as int;
    let w = b.lon as int;
    assert(x == y) by (nonlinear_arith)
        requires
            x * 100000 + u == y * 100000 + w,
            -50000 < u < 50000,
            -50000 < w < 50000,
    ;
}

pub fn cell_of_coords(lat: i32, lon: i32) -> (c: Cell)
    requires
        coords_ok(lat, lon),
    ensures
        c == cell_at(lat, lon),
        cell_ok(c),
{
    let a = ((lat as i64 + 900000000) / 100000 - 9000) as i32;
    let b = ((lon as i64 + 1800000000) / 100000 - 18000) as i32;
    Cell { lat: a, lon: b }
}

pub fn key_of(c: Cell) -> (k: i64)
    requires
        cell_ok(c),
    ensures
        k == cell_key(c),
{
    c.lat as i64 * 100000 + c.lon as i64
}

/// Spatial index: every node is listed under the cell of its coordinates.
/// `cell_of[v]` is the cell index of node `v`; the nodes of cell `c` are
/// `cell_nodes[cell_offset[c] .. cell_offset[c + 1]]`, in increasing order.
pub struct SpatialGrid {
    pub cells: Vec<Cell>,
    pub cell_of: Vec<usize>,
    pub cell_offset: Vec<usize>,
    pub cell_nodes: Vec<usize>,
    pub index: HashMap<i64, usize>,
}

impl SpatialGrid {
    #[verifier::opaque]
    pub open spec fn wf(&self, nodes: Seq<Node>) -> bool {
        &&& self.cell_of@.len() == nodes.len()
        &&& self.cells@.len() <= nodes.len()
        &&& forall|v: int|
            0 <= v < nodes.len() ==> #[trigger] self.cell_of@[v] < self.cells@.len()
                && self.cells@[self.cell_of@[v] as int] == cell_at(nodes[v].latitude, nodes[v].longitude)
        &&& forall|c: int| 0 <= c < self.cells@.len() ==> cell_ok(#[trigger] self.cells@[c])
        &&& grouped(self.cell_of@, self.cells@.len() as int, self.cell_offset@, self.cell_nodes@)
        &&& forall|c: int|
            0 <= c < self.cells@.len() ==> #[trigger] self.index@.contains_key(
                cell_key(self.cells@[c]) as i64,
            ) && self.index@[cell_key(self.cells@[c]) as i64] == c
        &&& forall|k: i64|
            #[trigger] self.index@.contains_key(k) ==> self.index@[k] < self.cells@.len()
                && cell_key(self.cells@[self.index@[k] as int]) == k
    }

    /// The nodes listed under cell `c`.
    pub open spec fn members(&self, c: int) -> Seq<usize> {
        self.cell_nodes@.subrange(self.cell_offset@[c] as int, self.cell_offset@[c + 1] as int)
    }

    /// Builds the index of `nodes`.
    pub fn build(nodes: &Vec<Node>) -> (g: SpatialGrid)
        requires
            nodes@.len() <= MAX_NODES,
            forall|v: int|
                0 <= v < nodes@.len() ==> coords_ok(#[trigger] nodes@[v].latitude, nodes@[v].longitude),
        ensures
            g.wf(nodes@),
    {
        let n = nodes.len();
        let mut cells: Vec<Cell> = Vec::new();
        let mut cell_of: Vec<usize> = Vec::new();
        let mut index: HashMap<i64, usize> = HashMap::new();
        let mut v: usize = 0;
        while v < n
            invariant
                n == nodes@.len(),
                n <= MAX_NODES,
                v <= n,
                cell_of@.len() == v,
                cells@.len() <= v,
                forall|u: int|
                    0 <= u < nodes@.len() ==> coords_ok(#[trigger] nodes@[u].latitude, nodes@[u].longitude),
                forall|u: int|
                    0 <= u < v ==> #[trigger] cell_of@[u] < cells@.len() && cells@[cell_of@[u] as int]
                        == cell_at(nodes@[u].latitude, nodes@[u].longitude),
                forall|c: int| 0 <= c < cells@.len() ==> cell_ok(#[trigger] cells@[c]),
                forall|c: int|
                    0 <= c < cells@.len() ==> #[trigger] index@.contains_key(cell_key(cells@[c]) as i64)
                        && index@[cell_key(cells@[c]) as i64] == c,
                forall|k: i64|
                    #[trigger] index@.contains_key(k) ==> index@[k] < cells@.len() && cell_key(
                        cells@[index@[k] as int],
                    ) == k,
            decreases n - v,
        {
            let node = nodes[v];
            let cell = cell_of_coords(node.latitude, node.longitude);
            let key = key_of(cell);
            let ghost cells_before = cells@;
            let ghost index_before = index@;
            let c = match index.get(&key) {
                Some(found) => {
                    let c = *found;
                    proof {
                        lemma_key_injective(cells@[c as int], cell);
                    }
                    c
                },
                None => {
                    let c = cells.len();
                    cells.push(cell);
                    index.insert(key, c);
                    proof {
                        assert forall|d: int|
                            0 <= d < cells@.len() implies #[trigger] index@.contains_key(
                            cell_key(cells@[d]) as i64,
                        ) && index@[cell_key(cells@[d]) as i64] == d by {
                            if d < c {
                                assert(cells@[d] == cells_before[d]);
                                assert(index_before.contains_key(cell_key(cells@[d]) as i64));
                                assert(cell_key(cells@[d]) != key);
                            }
                        }
                        assert forall|k: i64| #[trigger] index@.contains_key(k) implies index@[k]
                            < cells@.len() && cell_key(cells@[index@[k] as int]) == k by {
                            if k != key {
                                assert(index_before.contains_key(k));
                                assert(cells@[index@[k] as int] == cells_before[index_before[k] as int]);
                            }
                        }
                    }
                    c
                },
            };
            cell_of.push(c);
            proof {
                assert forall|u: int|
                    0 <= u < v + 1 implies #[trigger] cell_of@[u] < cells@.len() && cells@[cell_of@[u] as int]
                    == cell_at(nodes@[u].latitude, nodes@[u].longitude) by {
                    if u < v {
                        assert(cells@[cell_of@[u] as int] == cells_before[cell_of@[u] as int]);
                    }
                }
            }
            v += 1;
        }
        let (cell_offset, cell_nodes) = group_by_key(&cell_of, cells.len());
        let g = SpatialGrid { cells, cell_of, cell_offset, cell_nodes, index };
        proof {
            reveal(SpatialGrid::wf);
        }
        g
    }

    /// Each node appears exactly once in the index, in the cell of its
    /// coordinates: at one position of that cell's list and in no other cell.
    pub proof fn lemma_node_in_one_cell(&self, nodes: Seq<Node>, v: int)
        requires
            self.wf(nodes),
            0 <= v < nodes.len(),
            nodes.len() <= usize::MAX,
        ensures
            ({
                let c = self.cell_of@[v] as int;
                &&& self.cells@[c] == cell_at(nodes[v].latitude, nodes[v].longitude)
                &&& self.members(c).contains(v as usize)
                &&& forall|d: int, j: int|
                    0 <= d < self.cells@.len() && 0 <= j < self.members(d).len()
                        && #[trigger] self.members(d)[j] == v ==> d == c
                &&& forall|i: int, j: int|
                    0 <= i < j < self.members(c).len() ==> self.members(c)[i] != self.members(c)[j]
            }),
    {
        reveal(SpatialGrid::wf);
        let c = self.cell_of@[v] as int;
        let m = self.cells@.len() as int;
        assert(self.members(c) == bucket(self.cell_of@, c));
        lemma_bucket_holds(self.cell_of@, c, v);
        assert forall|d: int, j: int|
            0 <= d < m && 0 <= j < self.members(d).len() && #[trigger] self.members(d)[j] == v implies d
            == c by {
            assert(self.members(d) == bucket(self.cell_of@, d));
            crate::csr::lemma_bucket_members(self.cell_of@, d);
        }
        lemma_bucket_increasing(self.cell_of@, c);
    }
}

/// A position lies in the bucket of its key.
pub proof fn lemma_bucket_holds(keys: Seq<usize>, b: int, v: int)
    requires
        0 <= v < keys.len(),
        keys[v] == b,
        keys.len() <= usize::MAX,
    ensures
        bucket(keys, b).contains(v as usize),
    decreases keys.len(),
{
    let d = keys.drop_last();
    if v == keys.len() - 1 {
        assert(bucket(keys, b).last() == v as usize);
        assert(bucket(keys, b)[bucket(keys, b).len() - 1] == v as usize);
    } else {
        lemma_bucket_holds(d, b, v);
        let j = choose|j: int| 0 <= j < bucket(d, b).len() && bucket(d, b)[j] == v as usize;
        assert(bucket(keys, b)[j] == v as usize);
    }
}

/// Bucket positions are strictly increasing, so none repeats.
pub proof fn lemma_bucket_increasing(keys: Seq<usize>, b: int)
    requires
        keys.len() <= usize::MAX,
    ensures
        forall|i: int, j: int|
            0 <= i < j < bucket(keys, b).len() ==> bucket(keys, b)[i] < bucket(keys, b)[j],
    decreases keys.len(),
{
    if keys.len() > 0 {
        let d = keys.drop_last();
        lemma_bucket_increasing(d, b);
        crate::csr::lemma_bucket_members(d, b);
        assert forall|i: int, j: int|
            0 <= i < j < bucket(keys, b).len() implies bucket(keys, b)[i] < bucket(keys, b)[j] by {
            assert(bucket(keys, b)[i] == bucket(d, b)[i]);
            if j < bucket(d, b).len() {
                assert(bucket(keys, b)[j] == bucket(d, b)[j]);
            } else {
                assert(bucket(d, b)[i] < d.len());
            }
        }
    }
}

} // verus!
