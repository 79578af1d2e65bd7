use backend::cache::edge_cache::{road_table, EdgeCache};
use backend::cache::graph_cache::GraphCache;
use backend::cache::img_cache::ImgCache;
use backend::cache::node_cache::{nodes_by_id, NodeCache};
use backend::domains::tow_truck_service::{cache_area, uses_edge_cache, TowTruckService};
use backend::models::graph::{Edge, Graph, Node};

fn road(a: i32, b: i32, w: i32) -> Edge {
    Edge { node_a_id: a, node_b_id: b, weight: w }
}

#[test]
fn node_cache_read_after_write() {
    let mut cache = NodeCache::new();
    assert!(cache.get_nodes(1).is_empty());
    let by_id = nodes_by_id(vec![Node { id: 4, x: 1, y: 2 }, Node { id: 4, x: 3, y: 4 }, Node { id: 5, x: 0, y: 0 }]);
    assert_eq!(by_id.len(), 2);
    cache.set_nodes(7, by_id);
    let got = cache.get_nodes(7);
    assert_eq!(got.get(&4), Some(&Node { id: 4, x: 3, y: 4 }));
    assert_eq!(got.len(), 2);
    assert!(cache.get_nodes(6).is_empty());
}

#[test]
fn edge_cache_store_and_read() {
    let mut cache = EdgeCache::new();
    cache.store_roads(2, road_table(vec![road(1, 2, 5), road(2, 3, 6)]));
    let got = cache.get_edges(2);
    assert_eq!(got.get(&2).unwrap().value().clone(), vec![road(2, 1, 5), road(2, 3, 6)]);
    assert_eq!(got.len(), 3);
    assert_eq!(cache.get_edges(1).len(), 0);
    // storing again keeps crossings not listed and replaces those listed
    cache.store_roads(2, road_table(vec![road(3, 4, 1)]));
    let got = cache.get_edges(2);
    assert_eq!(got.get(&1).unwrap().value().clone(), vec![road(1, 2, 5)]);
    assert_eq!(got.get(&3).unwrap().value().clone(), vec![road(3, 4, 1)]);
    assert_eq!(got.get(&4).unwrap().value().clone(), vec![road(4, 3, 1)]);
}

#[test]
fn edge_cache_update_weight() {
    let mut cache = EdgeCache::new();
    cache.store_roads(1, road_table(vec![road(1, 2, 5)]));
    cache.update_edge_weight(1, 2, 1, 9);
    let got = cache.get_edges(1);
    assert_eq!(got.get(&1).unwrap().value().clone(), vec![road(1, 2, 9)]);
    assert_eq!(got.get(&2).unwrap().value().clone(), vec![road(2, 1, 9)]);
}

#[test]
fn edge_cache_copy_is_separate() {
    let mut cache = EdgeCache::new();
    cache.store_roads(1, road_table(vec![road(1, 2, 5)]));
    let copy = cache.get_edges(1);
    cache.update_edge_weight(1, 1, 2, 8);
    assert_eq!(copy.get(&1).unwrap().value().clone(), vec![road(1, 2, 5)]);
}

#[test]
fn graph_cache_replace_update_get() {
    let mut cache = GraphCache::new();
    assert!(cache.get_graph(3).nodes.is_empty());
    let mut g = Graph::new();
    g.add_edge(road(1, 2, 5));
    g.add_node(Node { id: 1, x: 0, y: 0 });
    cache.replace_all([Graph::new(), Graph::new(), g, Graph::new(), Graph::new(), Graph::new(), Graph::new()]);
    cache.update_edge_weight(3, 1, 2, 6);
    let got = cache.get_graph(3);
    assert_eq!(got.nodes.len(), 1);
    assert_eq!(got.edges.get(&2).unwrap().value().clone(), vec![road(2, 1, 6)]);
    assert_eq!(cache.get_graph(1).edges.len(), 0);
}

#[test]
fn image_cache_set_get_remove() {
    let mut cache = ImgCache::new();
    assert_eq!(cache.get("a.png"), None);
    cache.set("a.png".to_string(), vec![1, 2, 3]);
    cache.set("b.png".to_string(), vec![4]);
    assert_eq!(cache.get("a.png"), Some(vec![1, 2, 3]));
    cache.set("a.png".to_string(), vec![9]);
    assert_eq!(cache.get("a.png"), Some(vec![9]));
    cache.remove("a.png");
    assert_eq!(cache.get("a.png"), None);
    assert_eq!(cache.get("b.png"), Some(vec![4]));
    cache.remove("missing");
    assert_eq!(cache.get("b.png"), Some(vec![4]));
}

#[test]
fn area_decisions() {
    assert!(uses_edge_cache(1));
    assert!(uses_edge_cache(3));
    assert!(!uses_edge_cache(4));
    assert!(uses_edge_cache(-2));
    assert_eq!(cache_area(1), Some(1));
    assert_eq!(cache_area(7), Some(7));
    assert_eq!(cache_area(0), None);
    assert_eq!(cache_area(8), None);
    assert_eq!(cache_area(-1), None);
}

#[test]
fn service_keeps_its_repositories() {
    let svc = TowTruckService::new(1u8, "orders", 3i64);
    assert_eq!(*svc.tow_truck_repository(), 1u8);
    assert_eq!(*svc.order_repository(), "orders");
    assert_eq!(*svc.map_repository(), 3i64);
}

#[test]
fn storing_the_same_roads_twice_changes_nothing() {
    let mut cache = EdgeCache::new();
    for area in 1..7 {
        cache.store_roads(area, road_table(vec![road(1, 2, area as i32), road(2, 3, 4)]));
    }
    let once: Vec<Vec<Edge>> = (1..=3).map(|k| cache.get_edges(2).get(&k).unwrap().value().clone()).collect();
    for area in 1..7 {
        cache.store_roads(area, road_table(vec![road(1, 2, area as i32), road(2, 3, 4)]));
    }
    let twice: Vec<Vec<Edge>> = (1..=3).map(|k| cache.get_edges(2).get(&k).unwrap().value().clone()).collect();
    assert_eq!(once, twice);
    assert_eq!(twice[1], vec![road(2, 1, 2), road(2, 3, 4)]);
    assert_eq!(cache.get_edges(7).len(), 0);
}
