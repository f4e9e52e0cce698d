use elevation_router::builder::WayCollector;
use elevation_router::graph::Way;

fn way(source: usize, target: usize) -> Way {
    Way { source, target, speed: 30, distance: 0, travel_type: 5 }
}

#[test]
fn two_way_way_gives_both_directions() {
    let mut wc = WayCollector::new();
    assert!(wc.add_osm_way("residential", None, None, None, &vec![100, 200, 300]));
    assert_eq!(wc.amount_nodes, 3);
    assert_eq!(wc.ways, vec![way(0, 1), way(1, 0), way(1, 2), way(2, 1)]);
}

#[test]
fn forward_one_way() {
    let mut wc = WayCollector::new();
    assert!(wc.add_osm_way("residential", None, None, Some("yes"), &vec![100, 200, 300]));
    assert_eq!(wc.ways, vec![way(0, 1), way(1, 2)]);
}

#[test]
fn reverse_one_way() {
    let mut wc = WayCollector::new();
    assert!(wc.add_osm_way("residential", None, None, Some("-1"), &vec![100, 200, 300]));
    assert_eq!(wc.ways, vec![way(1, 0), way(2, 1)]);
}

#[test]
fn shared_nodes_keep_their_index() {
    let mut wc = WayCollector::new();
    assert!(wc.add_way(&vec![7, 8], 1, 60, true, false));
    assert!(wc.add_way(&vec![9, 8, 7], 1, 60, true, false));
    assert_eq!(wc.amount_nodes, 3);
    assert_eq!(wc.ids.get(&7), Some(&0));
    assert_eq!(wc.ids.get(&8), Some(&1));
    assert_eq!(wc.ids.get(&9), Some(&2));
    let pairs: Vec<(usize, usize)> = wc.ways.iter().map(|w| (w.source, w.target)).collect();
    assert_eq!(pairs, vec![(0, 1), (2, 1), (1, 0)]);
}

#[test]
fn skipped_highway_adds_nothing() {
    let mut wc = WayCollector::new();
    assert!(!wc.add_osm_way("construction", None, None, None, &vec![1, 2]));
    assert_eq!(wc.amount_nodes, 0);
    assert!(wc.ways.is_empty());
}

#[test]
fn way_tags_set_speed_and_type() {
    let mut wc = WayCollector::new();
    assert!(wc.add_osm_way("cycleway", Some("yes"), Some("DE:walk"), Some("no"), &vec![5, 6]));
    assert_eq!(wc.ways[0].travel_type, 3);
    assert_eq!(wc.ways[0].speed, 7);
    assert_eq!(wc.ways.len(), 2);
}

#[test]
fn finish_groups_edges_by_source() {
    let mut wc = WayCollector::new();
    assert!(wc.add_way(&vec![1, 2, 3], 5, 30, false, false));
    assert!(wc.add_way(&vec![1, 3], 5, 30, true, false));
    let (ways, offset, order) = wc.finish();
    assert_eq!(offset, vec![0, 2, 4, 5]);
    assert_eq!(order, vec![0, 4, 1, 2, 3]);
    let pairs: Vec<(usize, usize)> = ways.iter().map(|w| (w.source, w.target)).collect();
    assert_eq!(pairs, vec![(0, 1), (0, 2), (1, 0), (1, 2), (2, 1)]);
}
