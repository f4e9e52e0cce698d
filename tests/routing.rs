use elevation_router::locator::first_minimum;
use elevation_router::builder::{BuildError, NodeTable, WayCollector};
use elevation_router::dijkstra::{Dijkstra, Multiplier};
use elevation_router::graph::{Graph, GraphError, Node, Way};
use elevation_router::larac::PlanError;

const A: (i32, i32) = (520000000, 130000000);
const B: (i32, i32) = (520000000, 130100000);
const C: (i32, i32) = (520100000, 130100000);
const D: (i32, i32) = (520050000, 130050000);

fn edge_length(a: usize, b: usize) -> u64 {
    let (x, y) = if a < b { (a, b) } else { (b, a) };
    match (x, y) {
        (0, 1) => 700,
        (1, 2) => 1100,
        (0, 3) => 650,
        (2, 3) => 650,
        _ => 1000,
    }
}

/// A square A-B-C with a shortcut A-D-C over the hill D.
fn square() -> Graph {
    let mut wc = WayCollector::new();
    assert!(wc.add_way(&vec![1, 2, 3], 5, 50, false, false));
    assert!(wc.add_way(&vec![1, 4, 3], 5, 50, false, false));
    let mut nt = NodeTable::new(wc.amount_nodes);
    nt.set_node(0, A.0, A.1, Some(0)).unwrap();
    nt.set_node(1, B.0, B.1, Some(0)).unwrap();
    nt.set_node(2, C.0, C.1, Some(0)).unwrap();
    nt.set_node(3, D.0, D.1, Some(5000)).unwrap();
    let (mut ways, offset, _) = wc.finish();
    for w in ways.iter_mut() {
        w.distance = edge_length(w.source, w.target);
    }
    Graph::new(nt.nodes, ways, offset).unwrap()
}

fn by_distance() -> Option<Multiplier> {
    Some(Multiplier { num: 0, den: 1 })
}

#[test]
fn csr_layout_of_built_graph() {
    let g = square();
    assert_eq!(g.nodes.len(), 4);
    assert_eq!(g.offset.len(), g.nodes.len() + 1);
    assert_eq!(g.offset[4], g.ways.len());
    assert_eq!(g.ways.len(), 8);
    for i in 0..4 {
        assert!(g.offset[i] <= g.offset[i + 1]);
        for e in g.offset[i]..g.offset[i + 1] {
            assert_eq!(g.ways[e].source, i);
        }
    }
    for e in 1..g.ways.len() {
        assert!(g.ways[e - 1].source <= g.ways[e].source);
        assert!(g.ways[e].target < 4);
    }
}

#[test]
fn grid_lists_each_node_once() {
    let g = square();
    let mut seen = vec![0usize; g.nodes.len()];
    for c in 0..g.grid.cells.len() {
        for j in g.grid.cell_offset[c]..g.grid.cell_offset[c + 1] {
            let v = g.grid.cell_nodes[j];
            seen[v] += 1;
            let n = g.nodes[v];
            assert_eq!(g.grid.cells[c].lat, n.latitude.div_euclid(100000));
            assert_eq!(g.grid.cells[c].lon, n.longitude.div_euclid(100000));
        }
    }
    assert!(seen.iter().all(|&k| k == 1));
}

#[test]
fn same_start_and_end() {
    let g = square();
    let r = g.dijkstra(Dijkstra::Multiplier, 2, 2, 0, true, by_distance()).unwrap();
    assert_eq!(r.path, vec![2]);
    assert_eq!(r.distance, 0);
    assert_eq!(r.ele_rise, 0);
    assert!(r.edges.is_empty());
}

#[test]
fn shortest_by_distance_takes_the_hill() {
    let g = square();
    let r = g.dijkstra(Dijkstra::Multiplier, 0, 2, 0, true, by_distance()).unwrap();
    assert_eq!(r.path, vec![0, 3, 2]);
    assert_eq!(r.distance, 1300);
    assert_eq!(r.ele_rise, 5000);
    // the explicit perimeter walk is not shorter
    assert!(r.distance <= 700 + 1100);
}

#[test]
fn flattest_route_avoids_the_hill() {
    let g = square();
    let r = g.dijkstra(Dijkstra::Elevation, 0, 2, 0, true, None).unwrap();
    assert_eq!(r.path, vec![0, 1, 2]);
    assert_eq!(r.ele_rise, 0);
    assert_eq!(r.distance, 1800);
}

#[test]
fn travel_time_weights() {
    let g = square();
    let r = g.dijkstra(Dijkstra::Multiplier, 0, 1, 0, false, by_distance()).unwrap();
    // 700 m at 50 km/h is 50 400 ms
    assert_eq!(r.distance, 700 * 3600 / 50);
    let bike = g.dijkstra(Dijkstra::Multiplier, 0, 1, 1, false, by_distance()).unwrap();
    assert_eq!(bike.distance, 700 * 3600 / 20);
    let foot = g.dijkstra(Dijkstra::Multiplier, 0, 1, 2, false, by_distance()).unwrap();
    assert_eq!(foot.distance, 700 * 3600 / 7);
}

#[test]
fn triangle_inequality_on_square() {
    let g = square();
    for &(a, b, c) in &[(0usize, 1usize, 2usize), (1, 0, 3), (3, 2, 1), (0, 3, 1)] {
        let ab = g.dijkstra(Dijkstra::Multiplier, a, b, 0, true, by_distance()).unwrap();
        let bc = g.dijkstra(Dijkstra::Multiplier, b, c, 0, true, by_distance()).unwrap();
        let ac = g.dijkstra(Dijkstra::Multiplier, a, c, 0, true, by_distance()).unwrap();
        assert!(ac.distance <= ab.distance + bc.distance);
        let ab = g.dijkstra(Dijkstra::Elevation, a, b, 0, true, None).unwrap();
        let bc = g.dijkstra(Dijkstra::Elevation, b, c, 0, true, None).unwrap();
        let ac = g.dijkstra(Dijkstra::Elevation, a, c, 0, true, None).unwrap();
        assert!(ac.ele_rise <= ab.ele_rise + bc.ele_rise);
    }
}

#[test]
fn budget_zero_returns_perimeter() {
    let g = square();
    let r = g.find_optimal_path(0, 2, 0, true, 0, false).unwrap();
    assert_eq!(r.len(), 1);
    assert_eq!(r[0].path, vec![0, 1, 2]);
}

#[test]
fn unlimited_budget_returns_diagonal() {
    let g = square();
    let r = g.find_optimal_path(0, 2, 0, true, u64::MAX, false).unwrap();
    assert_eq!(r.len(), 1);
    assert_eq!(r[0].path, vec![0, 3, 2]);
}

#[test]
fn all_paths_within_budget() {
    let g = square();
    let r = g.find_optimal_path(0, 2, 0, true, 0, true).unwrap();
    assert!(!r.is_empty());
    assert!(r.iter().all(|p| p.ele_rise == 0));
    let wide = g.find_optimal_path(0, 2, 0, true, u64::MAX, true).unwrap();
    assert_eq!(wide.len(), 2);
    assert_eq!(wide[0].path, vec![0, 1, 2]);
    assert_eq!(wide[1].path, vec![0, 3, 2]);
}

#[test]
fn infeasible_budget_reports_least_climb() {
    let g = square();
    // from the foot of the hill up to its top every route climbs 50 m
    let r = g.find_optimal_path(0, 3, 0, true, 100, false);
    assert_eq!(r.unwrap_err(), PlanError::Infeasible { min_rise: 5000 });
}

#[test]
fn unreachable_target() {
    let mut wc = WayCollector::new();
    assert!(wc.add_way(&vec![1, 2], 5, 30, true, false));
    let mut nt = NodeTable::new(wc.amount_nodes);
    nt.set_node(0, A.0, A.1, Some(0)).unwrap();
    nt.set_node(1, B.0, B.1, Some(0)).unwrap();
    let (ways, offset, _) = wc.finish();
    let g = Graph::new(nt.nodes, ways, offset).unwrap();
    assert_eq!(g.find_optimal_path(1, 0, 0, true, 10, false).unwrap().len(), 0);
    assert_eq!(g.find_optimal_path(1, 0, 0, true, 10, true).unwrap().len(), 0);
    assert!(g.dijkstra(Dijkstra::Multiplier, 1, 0, 0, true, by_distance()).is_none());
    assert!(g.dijkstra(Dijkstra::Multiplier, 0, 1, 0, true, by_distance()).is_some());
}

#[test]
fn mode_restrictions_block_edges() {
    let mut wc = WayCollector::new();
    assert!(wc.add_way(&vec![1, 2], 4, 5, false, false));
    let mut nt = NodeTable::new(wc.amount_nodes);
    nt.set_node(0, A.0, A.1, Some(0)).unwrap();
    nt.set_node(1, B.0, B.1, Some(0)).unwrap();
    let (ways, offset, _) = wc.finish();
    let g = Graph::new(nt.nodes, ways, offset).unwrap();
    assert!(g.dijkstra(Dijkstra::Multiplier, 0, 1, 0, true, by_distance()).is_none());
    assert!(g.dijkstra(Dijkstra::Multiplier, 0, 1, 2, true, by_distance()).is_some());
}

#[test]
fn malformed_graph_is_refused() {
    let nodes = vec![Node { latitude: 0, longitude: 0, elevation: 0 }; 2];
    let ways = vec![Way { source: 1, target: 0, speed: 10, distance: 5, travel_type: 5 }];
    // offsets claim the edge belongs to node 0
    let r = Graph::new(nodes.clone(), ways.clone(), vec![0, 1, 1]);
    assert_eq!(r.err(), Some(GraphError::Malformed));
    assert!(Graph::new(nodes.clone(), ways.clone(), vec![0, 0, 1]).is_ok());
    let long = vec![Way { source: 1, target: 0, speed: 10, distance: 20_000_000, travel_type: 5 }];
    assert_eq!(Graph::new(nodes, long, vec![0, 0, 1]).err(), Some(GraphError::Malformed));
}

#[test]
fn missing_first_elevation_is_refused() {
    let mut nt = NodeTable::new(3);
    assert_eq!(nt.set_node(0, A.0, A.1, None), Err(BuildError::NoElevation));
    assert_eq!(nt.set_node(1, B.0, B.1, Some(1234)), Ok(()));
    assert_eq!(nt.set_node(2, C.0, C.1, None), Ok(()));
    assert_eq!(nt.nodes[2].elevation, 1234);
    assert_eq!(nt.nodes[0].elevation, 0);
}

#[test]
fn locator_finds_node_in_neighbouring_cell() {
    let mut wc = WayCollector::new();
    assert!(wc.add_way(&vec![10, 20], 5, 30, false, false));
    let mut nt = NodeTable::new(wc.amount_nodes);
    nt.set_node(0, 520050000, 130050000, Some(0)).unwrap();
    nt.set_node(1, 525000000, 135000000, Some(0)).unwrap();
    let (mut ways, offset, _) = wc.finish();
    for w in ways.iter_mut() {
        w.distance = 60000;
    }
    let g = Graph::new(nt.nodes, ways, offset).unwrap();
    // the query cell (5201, 1300) is empty; its neighbour (5200, 1300) holds node 0
    let found = g.get_adjacent_node_ids(520150000, 130050000, 0);
    assert_eq!(found, vec![0]);
    let here = g.get_adjacent_node_ids(525000000, 135000000, 2);
    assert_eq!(here, vec![1]);
}

#[test]
fn locator_finds_nothing_for_inadmissible_mode() {
    let mut wc = WayCollector::new();
    assert!(wc.add_way(&vec![10, 20], 0, 100, false, false));
    let mut nt = NodeTable::new(wc.amount_nodes);
    nt.set_node(0, 520050000, 130050000, Some(0)).unwrap();
    nt.set_node(1, 520060000, 130060000, Some(0)).unwrap();
    let (ways, offset, _) = wc.finish();
    let g = Graph::new(nt.nodes, ways, offset).unwrap();
    assert!(g.get_adjacent_node_ids(520050000, 130050000, 2).is_empty());
    assert_eq!(g.get_adjacent_node_ids(520050000, 130050000, 0).len(), 2);
}

#[test]
fn agreeing_searches_give_one_route() {
    let mut wc = WayCollector::new();
    assert!(wc.add_way(&vec![1, 2, 3], 5, 30, false, false));
    let mut nt = NodeTable::new(wc.amount_nodes);
    nt.set_node(0, A.0, A.1, Some(0)).unwrap();
    nt.set_node(1, B.0, B.1, Some(300)).unwrap();
    nt.set_node(2, C.0, C.1, Some(100)).unwrap();
    let (mut ways, offset, _) = wc.finish();
    for w in ways.iter_mut() {
        w.distance = 500;
    }
    let g = Graph::new(nt.nodes, ways, offset).unwrap();
    for &all in &[false, true] {
        let r = g.find_optimal_path(0, 2, 1, true, 300, all).unwrap();
        assert_eq!(r.len(), 1);
        assert_eq!(r[0].path, vec![0, 1, 2]);
        assert_eq!(r[0].ele_rise, 300);
        assert_eq!(r[0].distance, 1000);
    }
    assert_eq!(
        g.find_optimal_path(0, 2, 1, true, 299, true).unwrap_err(),
        PlanError::Infeasible { min_rise: 300 }
    );
}

#[test]
fn route_lists_rise_in_order() {
    let g = square();
    for &budget in &[0u64, 2500, 5000, u64::MAX] {
        let r = g.find_optimal_path(0, 2, 0, true, budget, true).unwrap();
        assert!(r[0].ele_rise == 0);
        for i in 1..r.len() {
            assert!(r[i - 1].ele_rise <= r[i].ele_rise);
            assert!(r[i].distance <= r[i - 1].distance);
            assert!(r[i].ele_rise <= budget);
        }
    }
}

/// Three routes from A to C: flat and long, a small hill, a steep short one.
fn three_routes() -> Graph {
    let mut wc = WayCollector::new();
    assert!(wc.add_way(&vec![1, 2, 5], 5, 50, false, false));
    assert!(wc.add_way(&vec![1, 3, 5], 5, 50, false, false));
    assert!(wc.add_way(&vec![1, 4, 5], 5, 50, false, false));
    let mut nt = NodeTable::new(wc.amount_nodes);
    nt.set_node(0, A.0, A.1, Some(0)).unwrap();
    nt.set_node(1, B.0, B.1, Some(0)).unwrap();
    nt.set_node(2, C.0, C.1, Some(0)).unwrap();
    nt.set_node(3, D.0, D.1, Some(1000)).unwrap();
    nt.set_node(4, 520060000, 130040000, Some(5000)).unwrap();
    let (mut ways, offset, _) = wc.finish();
    for w in ways.iter_mut() {
        let (x, y) = if w.source < w.target { (w.source, w.target) } else { (w.target, w.source) };
        w.distance = match (x, y) {
            (0, 1) | (1, 2) => 1000,
            (0, 3) | (2, 3) => 700,
            _ => 600,
        };
    }
    Graph::new(nt.nodes, ways, offset).unwrap()
}

#[test]
fn trade_off_routes_are_collected() {
    let g = three_routes();
    let all = g.find_optimal_path(0, 2, 0, true, u64::MAX, true).unwrap();
    let paths: Vec<Vec<usize>> = all.iter().map(|r| r.path.clone()).collect();
    assert_eq!(paths, vec![vec![0, 1, 2], vec![0, 3, 2], vec![0, 4, 2]]);
    let one = g.find_optimal_path(0, 2, 0, true, u64::MAX, false).unwrap();
    assert_eq!(one[0].path, vec![0, 4, 2]);
    let capped = g.find_optimal_path(0, 2, 0, true, 3000, false).unwrap();
    assert_eq!(capped.len(), 1);
    assert_eq!(capped[0].path, vec![0, 3, 2]);
    let capped_all = g.find_optimal_path(0, 2, 0, true, 3000, true).unwrap();
    let paths: Vec<Vec<usize>> = capped_all.iter().map(|r| r.path.clone()).collect();
    assert_eq!(paths, vec![vec![0, 1, 2], vec![0, 3, 2]]);
}

#[test]
fn nearest_candidate_pick() {
    assert_eq!(first_minimum(&vec![]), None);
    assert_eq!(first_minimum(&vec![5, 3, 7, 3]), Some(1));
    assert_eq!(first_minimum(&vec![2]), Some(0));
}
