use vstd::prelude::*;

use std::collections::HashMap;

use crate::csr::{group_by_key, grouped};
use crate::graph::{Node, Way, MAX_NODES};
use crate::tags::{get_street_type, has_sidewalk, parse_one_way, parse_speed, SKIPPED_TYPE};

verus! {

broadcast use vstd::std_specs::hash::group_hash_axioms;

/// The edges between consecutive way nodes `a` and `b`: forward unless the
/// way is one-way against its order, backward unless it is one-way along it.
pub open spec fn pair_edges(
    a: usize,
    b: usize,
    speed: usize,
    travel_type: usize,
    one_way: bool,
    reverse_dir: bool,
) -> Seq<Way> {
    let fwd = Way { source: a, target: b, speed, distance: 0, travel_type };
    let bwd = Way { source: b, target: a, speed, distance: 0, travel_type };
    (if !one_way || !reverse_dir {
        seq![fwd]
    } else {
        Seq::empty()
    }) + (if !one_way || reverse_dir {
        seq![bwd]
    } else {
        Seq::empty()
    })
}

/// The edges a way over the dense node indices `idx` produces, pair by pair.
pub open spec fn way_edges(
    idx: Seq<usize>,
    speed: usize,
    travel_type: usize,
    one_way: bool,
    reverse_dir: bool,
) -> Seq<Way>
    decreases idx.len(),
{
    if idx.len() < 2 {
        Seq::empty()
    } else {
        way_edges(idx.drop_last(), speed, travel_type, one_way, reverse_dir) + pair_edges(
            idx[idx.len() - 2],
            idx[idx.len() - 1],
            speed,
            travel_type,
            one_way,
            reverse_dir,
        )
    }
}

/// How many positions of `s` hold an id that `ids` does not number yet.
pub open spec fn unknown_count(ids: Map<i64, usize>, s: Seq<i64>) -> nat
    decreases s.len(),
{
    if s.len() == 0 {
        0
    } else {
        unknown_count(ids, s.drop_last()) + if ids.contains_key(s.last()) {
            0nat
        } else {
            1nat
        }
    }
}

proof fn lemma_unknown_step(ids: Map<i64, usize>, s: Seq<i64>, i: int)
    requires
        0 <= i < s.len(),
    ensures
        unknown_count(ids, s.take(i + 1)) == unknown_count(ids, s.take(i)) + if ids.contains_key(s[i]) {
            0int
        } else {
            1int
        },
{
    assert(s.take(i + 1).drop_last() =~= s.take(i));
}

proof fn lemma_unknown_prefix(ids: Map<i64, usize>, s: Seq<i64>, i: int)
    requires
        0 <= i <= s.len(),
    ensures
        unknown_count(ids, s.take(i)) <= unknown_count(ids, s),
    decreases s.len() - i,
{
    if i < s.len() {
        lemma_unknown_step(ids, s, i);
        lemma_unknown_prefix(ids, s, i + 1);
    } else {
        assert(s.take(i) =~= s);
    }
}

/// A way over `idx` yields one edge per consecutive pair when it is one-way
/// and two otherwise.
pub proof fn lemma_way_edge_count(
    idx: Seq<usize>,
    speed: usize,
    travel_type: usize,
    one_way: bool,
    reverse_dir: bool,
)
    requires
        idx.len() >= 1,
    ensures
        way_edges(idx, speed, travel_type, one_way, reverse_dir).len() == (idx.len() - 1) * (if one_way {
            1int
        } else {
            2int
        }),
    decreases idx.len(),
{
    if idx.len() >= 2 {
        lemma_way_edge_count(idx.drop_last(), speed, travel_type, one_way, reverse_dir);
        let per: int = if one_way {
            1
        } else {
            2
        };
        assert((idx.len() - 2) * per + per == (idx.len() - 1) * per) by (nonlinear_arith);
    }
}

/// Why node data could not be recorded.
#[derive(Clone, Copy, Debug, PartialEq, Eq, Structural)]
pub enum BuildError {
    /// No elevation was ever resolved, so none can be carried forward.
    NoElevation,
}

/// The source of every edge, in order.
pub open spec fn sources(ways: Seq<Way>) -> Seq<usize> {
    Seq::new(ways.len(), |i: int| ways[i].source)
}

/// Collects the routable ways of an OSM extract: dense node indices in
/// first-seen order and the directed edges between them.
pub struct WayCollector {
    pub ids: HashMap<i64, usize>,
    pub amount_nodes: usize,
    pub ways: Vec<Way>,
}

impl WayCollector {
    pub open spec fn wf(&self) -> bool {
        &&& self.amount_nodes <= MAX_NODES
        &&& forall|k: i64| #[trigger] self.ids@.contains_key(k) ==> self.ids@[k] < self.amount_nodes
        &&& forall|k1: i64, k2: i64|
            #[trigger] self.ids@.contains_key(k1) && #[trigger] self.ids@.contains_key(k2) && k1 != k2
                ==> self.ids@[k1] != self.ids@[k2]
        &&& forall|i: int|
            0 <= i < self.ways@.len() ==> #[trigger] self.ways@[i].source < self.amount_nodes
                && self.ways@[i].target < self.amount_nodes
    }

    /// The dense indices of `osm` under the current numbering.
    pub open spec fn dense(&self, osm: Seq<i64>) -> Seq<usize> {
        Seq::new(osm.len(), |i: int| self.ids@[osm[i]])
    }

    pub fn new() -> (r: Self)
        ensures
            r.wf(),
            r.ids@ == Map::<i64, usize>::empty(),
            r.amount_nodes == 0,
            r.ways@.len() == 0,
    {
        WayCollector { ids: HashMap::new(), amount_nodes: 0, ways: Vec::new() }
    }

    /// The dense index of an OSM node id, assigning the next free index to
    /// an id not seen before.
    fn dense_id(&mut self, osm: i64) -> (r: usize)
        requires
            old(self).wf(),
            old(self).ids@.contains_key(osm) || old(self).amount_nodes < MAX_NODES,
        ensures
            final(self).wf(),
            final(self).ways@ == old(self).ways@,
            final(self).ids@.contains_key(osm),
            final(self).ids@[osm] == r,
            r < final(self).amount_nodes,
            old(self).ids@.contains_key(osm) ==> final(self).ids@ == old(self).ids@
                && final(self).amount_nodes == old(self).amount_nodes,
            !old(self).ids@.contains_key(osm) ==> final(self).ids@ == old(self).ids@.insert(
                osm,
                old(self).amount_nodes,
            ) && final(self).amount_nodes == old(self).amount_nodes + 1,
    {
        match self.ids.get(&osm) {
            Some(id) => *id,
            None => {
                let id = self.amount_nodes;
                self.ids.insert(osm, id);
                self.amount_nodes = id + 1;
                id
            },
        }
    }

    /// How many positions of `osm` hold ids not numbered yet.
    fn count_unknown(&self, osm: &Vec<i64>) -> (r: usize)
        ensures
            r == unknown_count(self.ids@, osm@),
    {
        let mut c: usize = 0;
        let mut i: usize = 0;
        while i < osm.len()
            invariant
                i <= osm@.len(),
                c == unknown_count(self.ids@, osm@.take(i as int)),
                c <= i,
            decreases osm@.len() - i,
        {
            proof {
                lemma_unknown_step(self.ids@, osm@, i as int);
            }
            if !self.ids.contains_key(&osm[i]) {
                c += 1;
            }
            i += 1;
        }
        proof {
            assert(osm@.take(osm@.len() as int) =~= osm@);
        }
        c
    }

    /// Adds the edges of one way over the OSM node ids `osm_nodes`. The way
    /// is refused unchanged when its positions holding ids not yet numbered,
    /// counted with repeats, could take the node count past the limit.
    pub fn add_way(
        &mut self,
        osm_nodes: &Vec<i64>,
        travel_type: usize,
        speed: usize,
        one_way: bool,
        reverse_dir: bool,
    ) -> (accepted: bool)
        requires
            old(self).wf(),
        ensures
            final(self).wf(),
            accepted == (old(self).amount_nodes + unknown_count(old(self).ids@, osm_nodes@) <= MAX_NODES),
            !accepted ==> final(self).ids@ == old(self).ids@ && final(self).amount_nodes == old(
                self,
            ).amount_nodes && final(self).ways@ == old(self).ways@,
            accepted ==> {
                &&& forall|k: i64| #[trigger]
                    old(self).ids@.contains_key(k) ==> final(self).ids@.contains_key(k)
                        && final(self).ids@[k] == old(self).ids@[k]
                &&& forall|i: int|
                    0 <= i < osm_nodes@.len() ==> final(self).ids@.contains_key(
                        #[trigger] osm_nodes@[i],
                    )
                &&& forall|k: i64| #[trigger]
                    final(self).ids@.contains_key(k) && !old(self).ids@.contains_key(k) ==> osm_nodes@.contains(k)
                        && old(self).amount_nodes <= final(self).ids@[k]
                &&& final(self).ways@ == old(self).ways@ + way_edges(
                    final(self).dense(osm_nodes@),
                    speed,
                    travel_type,
                    one_way,
                    reverse_dir,
                )
            },
    {
        let fresh = self.count_unknown(osm_nodes);
        if fresh > MAX_NODES - self.amount_nodes {
            return false;
        }
        let ghost old_ids = self.ids@;
        let ghost old_ways = self.ways@;
        let ghost base = self.amount_nodes;
        let n = osm_nodes.len();
        if n == 0 {
            proof {
                assert(self.dense(osm_nodes@).len() == 0);
                assert(self.ways@ =~= old_ways + Seq::<Way>::empty());
            }
            return true;
        }
        proof {
            lemma_unknown_step(old_ids, osm_nodes@, 0);
            lemma_unknown_prefix(old_ids, osm_nodes@, 1);
            assert(osm_nodes@.take(0) =~= Seq::<i64>::empty());
        }
        let mut prev = self.dense_id(osm_nodes[0]);
        proof {
            assert forall|k: i64| #[trigger]
                self.ids@.contains_key(k) && !old_ids.contains_key(k) implies osm_nodes@.take(
                1,
            ).contains(k) && base <= self.ids@[k] by {
                assert(osm_nodes@.take(1)[0] == osm_nodes@[0]);
            }
            assert(self.dense(osm_nodes@.take(1)) =~= seq![prev]);
            assert(self.ways@ =~= old_ways + way_edges(
                self.dense(osm_nodes@.take(1)),
                speed,
                travel_type,
                one_way,
                reverse_dir,
            ));
        }
        let mut i: usize = 1;
        while i < n
            invariant
                self.wf(),
                n == osm_nodes@.len(),
                1 <= i <= n,
                base <= self.amount_nodes <= base + unknown_count(old_ids, osm_nodes@.take(i as int)),
                base + unknown_count(old_ids, osm_nodes@) <= MAX_NODES,
                forall|k: i64| #[trigger]
                    old_ids.contains_key(k) ==> self.ids@.contains_key(k) && self.ids@[k]
                        == old_ids[k],
                forall|j: int| 0 <= j < i ==> self.ids@.contains_key(#[trigger] osm_nodes@[j]),
                forall|k: i64| #[trigger]
                    self.ids@.contains_key(k) && !old_ids.contains_key(k) ==> osm_nodes@.take(
                        i as int,
                    ).contains(k) && base <= self.ids@[k],
                prev == self.ids@[osm_nodes@[i - 1]],
                self.ways@ == old_ways + way_edges(
                    self.dense(osm_nodes@.take(i as int)),
                    speed,
                    travel_type,
                    one_way,
                    reverse_dir,
                ),
            decreases n - i,
        {
            let ghost before = self.dense(osm_nodes@.take(i as int));
            let ghost ids_before = self.ids@;
            proof {
                lemma_unknown_step(old_ids, osm_nodes@, i as int);
                lemma_unknown_prefix(old_ids, osm_nodes@, i as int + 1);
                if !ids_before.contains_key(osm_nodes@[i as int]) {
                    assert(!old_ids.contains_key(osm_nodes@[i as int]));
                }
            }
            let id = self.dense_id(osm_nodes[i]);
            proof {
                assert forall|j: int| 0 <= j < i implies #[trigger] self.ids@[osm_nodes@[j]]
                    == ids_before[osm_nodes@[j]] by {
                    assert(ids_before.contains_key(osm_nodes@[j]));
                }
                assert(self.dense(osm_nodes@.take(i as int)) =~= before);
                assert(self.ids@.contains_key(osm_nodes@[i - 1]));
                assert(prev < self.amount_nodes);
            }
            proof {
                assert forall|k: i64| #[trigger]
                    self.ids@.contains_key(k) && !old_ids.contains_key(k) implies osm_nodes@.take(
                    i as int + 1,
                ).contains(k) && base <= self.ids@[k] by {
                    if ids_before.contains_key(k) {
                        assert(self.ids@[k] == ids_before[k]);
                        assert(osm_nodes@.take(i as int).contains(k));
                        let j = choose|j: int| 0 <= j < i && osm_nodes@.take(i as int)[j] == k;
                        assert(osm_nodes@.take(i as int + 1)[j] == k);
                    } else {
                        assert(k == osm_nodes@[i as int]);
                        assert(osm_nodes@.take(i as int + 1)[i as int] == k);
                    }
                }
            }
            let ghost ways_before = self.ways@;
            if !one_way || !reverse_dir {
                self.ways.push(Way { source: prev, target: id, speed, distance: 0, travel_type });
            }
            if !one_way || reverse_dir {
                self.ways.push(Way { source: id, target: prev, speed, distance: 0, travel_type });
            }
            proof {
                let pe = pair_edges(prev, id, speed, travel_type, one_way, reverse_dir);
                assert(self.ways@ =~= ways_before + pe);
                assert forall|q: int| 0 <= q < self.ways@.len() implies #[trigger] self.ways@[q].source
                    < self.amount_nodes && self.ways@[q].target < self.amount_nodes by {
                    if q < ways_before.len() {
                        assert(self.ways@[q] == ways_before[q]);
                    } else {
                        assert(self.ways@[q] == pe[q - ways_before.len()]);
                    }
                }
                let now = self.dense(osm_nodes@.take(i as int + 1));
                assert(now.drop_last() =~= before);
                assert(now[now.len() - 2] == prev);
                assert(now[now.len() - 1] == id);
                assert(self.ways@ =~= old_ways + way_edges(
                    now,
                    speed,
                    travel_type,
                    one_way,
                    reverse_dir,
                ));
            }
            prev = id;
            i += 1;
        }
        proof {
            assert(osm_nodes@.take(n as int) =~= osm_nodes@);
        }
        true
    }

    /// Adds an OSM way from its tags; ways whose `highway` class is skipped
    /// are ignored. Returns whether the way's edges were added.
    pub fn add_osm_way(
        &mut self,
        highway: &str,
        sidewalk: Option<&str>,
        max_speed: Option<&str>,
        one_way: Option<&str>,
        osm_nodes: &Vec<i64>,
    ) -> (added: bool)
        requires
            old(self).wf(),
        ensures
            final(self).wf(),
            added == (crate::tags::street_type(
                highway@,
                match sidewalk {
                    Some(s) => crate::tags::sidewalk_present(s@),
                    None => false,
                },
            ) != SKIPPED_TYPE && old(self).amount_nodes + unknown_count(old(self).ids@, osm_nodes@) <= MAX_NODES),
            !added ==> final(self).ids@ == old(self).ids@ && final(self).ways@ == old(self).ways@,
            added ==> final(self).ways@ == old(self).ways@ + way_edges(
                final(self).dense(osm_nodes@),
                crate::tags::speed_of(
                    match max_speed {
                        Some(s) => s@,
                        None => ""@,
                    },
                    highway@,
                ) as usize,
                crate::tags::street_type(
                    highway@,
                    match sidewalk {
                        Some(s) => crate::tags::sidewalk_present(s@),
                        None => false,
                    },
                ) as usize,
                crate::tags::one_way_of(
                    match one_way {
                        Some(s) => s@,
                        None => ""@,
                    },
                ).0,
                crate::tags::one_way_of(
                    match one_way {
                        Some(s) => s@,
                        None => ""@,
                    },
                ).1,
            ),
    {
        let sw = match sidewalk {
            Some(s) => has_sidewalk(s),
            None => false,
        };
        let travel_type = get_street_type(highway, sw);
        if travel_type == SKIPPED_TYPE {
            return false;
        }
        let ms = match max_speed {
            Some(s) => s,
            None => "",
        };
        let speed = parse_speed(ms, highway);
        let ow = match one_way {
            Some(s) => s,
            None => "",
        };
        let (is_one_way, reverse_dir) = parse_one_way(ow);
        self.add_way(osm_nodes, travel_type, speed, is_one_way, reverse_dir)
    }

    /// The collected edges grouped by source, stably, with the offsets of
    /// each source's group and, for each grouped edge, its collection position.
    pub fn finish(&self) -> (r: (Vec<Way>, Vec<usize>, Vec<usize>))
        requires
            self.wf(),
        ensures
            grouped(sources(self.ways@), self.amount_nodes as int, r.1@, r.2@),
            r.0@.len() == r.2@.len(),
            forall|j: int| 0 <= j < r.2@.len() ==> #[trigger] r.0@[j] == self.ways@[r.2@[j] as int],
    {
        let mut keys: Vec<usize> = Vec::new();
        let mut i: usize = 0;
        while i < self.ways.len()
            invariant
                self.wf(),
                i <= self.ways@.len(),
                keys@ == sources(self.ways@).take(i as int),
            decreases self.ways@.len() - i,
        {
            keys.push(self.ways[i].source);
            i += 1;
            proof {
                assert(keys@ =~= sources(self.ways@).take(i as int));
            }
        }
        proof {
            assert(keys@ =~= sources(self.ways@));
        }
        let (offset, order) = group_by_key(&keys, self.amount_nodes);
        let mut sorted: Vec<Way> = Vec::new();
        let mut j: usize = 0;
        while j < order.len()
            invariant
                j <= order@.len(),
                grouped(sources(self.ways@), self.amount_nodes as int, offset@, order@),
                sorted@.len() == j,
                forall|q: int| 0 <= q < j ==> #[trigger] sorted@[q] == self.ways@[order@[q] as int],
            decreases order@.len() - j,
        {
            proof {
                crate::csr::lemma_bucket_members(sources(self.ways@), 0);
                lemma_order_in_range(sources(self.ways@), self.amount_nodes as int, offset@, order@, j as int);
            }
            sorted.push(self.ways[order[j]]);
            j += 1;
        }
        (sorted, offset, order)
    }
}

/// Every position a grouping lists is a position of the keys.
pub proof fn lemma_order_in_range(keys: Seq<usize>, m: int, offset: Seq<usize>, order: Seq<usize>, j: int)
    requires
        m >= 0,
        grouped(keys, m, offset, order),
        0 <= j < order.len(),
        keys.len() <= usize::MAX,
    ensures
        order[j] < keys.len(),
{
    if m == 0 {
        assert(offset[0] == keys.len());
    }
    let b = lemma_find_group(keys, m, offset, order, j, 0);
    assert(order.subrange(offset[b] as int, offset[b + 1] as int) == crate::csr::bucket(keys, b));
    assert(order[j] == crate::csr::bucket(keys, b)[j - offset[b]]);
    crate::csr::lemma_bucket_members(keys, b);
}

proof fn lemma_find_group(keys: Seq<usize>, m: int, offset: Seq<usize>, order: Seq<usize>, j: int, b: int) -> (g: int)
    requires
        grouped(keys, m, offset, order),
        0 <= j < order.len(),
        0 <= b < m,
        offset[b] <= j,
    ensures
        0 <= g < m,
        offset[g] <= j < offset[g + 1],
    decreases m - b,
{
    assert(offset[b] <= offset[b + 1]);
    if j < offset[b + 1] {
        b
    } else {
        assert(offset[m] == keys.len());
        if b + 1 == m {
            assert(false);
        }
        lemma_find_group(keys, m, offset, order, j, b + 1)
    }
}

/// Node records of the graph under construction, with the last elevation
/// seen so that a missing elevation can be carried forward.
pub struct NodeTable {
    pub nodes: Vec<Node>,
    pub last_elevation: Option<i32>,
}

impl NodeTable {
    pub fn new(count: usize) -> (r: Self)
        ensures
            r.nodes@.len() == count,
            r.last_elevation is None,
            forall|i: int| 0 <= i < count ==> #[trigger] r.nodes@[i] == (Node { latitude: 0, longitude: 0, elevation: 0 }),
    {
        let mut nodes: Vec<Node> = Vec::new();
        let mut i: usize = 0;
        while i < count
            invariant
                i <= count,
                nodes@.len() == i,
                forall|j: int| 0 <= j < i ==> #[trigger] nodes@[j] == (Node { latitude: 0, longitude: 0, elevation: 0 }),
            decreases count - i,
        {
            nodes.push(Node { latitude: 0, longitude: 0, elevation: 0 });
            i += 1;
        }
        NodeTable { nodes, last_elevation: None }
    }

    /// Records node `idx`. A missing elevation is replaced by the last one
    /// recorded; with none recorded yet the node is refused.
    pub fn set_node(&mut self, idx: usize, latitude: i32, longitude: i32, elevation: Option<i32>) -> (r: Result<(), BuildError>)
        requires
            idx < old(self).nodes@.len(),
        ensures
            final(self).nodes@.len() == old(self).nodes@.len(),
            r is Err <==> elevation is None && old(self).last_elevation is None,
            r is Err ==> final(self).nodes@ == old(self).nodes@,
            r is Ok ==> {
                let e = match elevation {
                    Some(x) => x,
                    None => old(self).last_elevation.unwrap(),
                };
                &&& final(self).nodes@ == old(self).nodes@.update(
                    idx as int,
                    Node { latitude, longitude, elevation: e },
                )
                &&& final(self).last_elevation == Some(e)
            },
    {
        let e = match elevation {
            Some(x) => x,
            None => match self.last_elevation {
                Some(l) => l,
                None => {
                    return Err(BuildError::NoElevation);
                },
            },
        };
        self.last_elevation = Some(e);
        self.nodes.set(idx, Node { latitude, longitude, elevation: e });
        Ok(())
    }
}

} // verus!
