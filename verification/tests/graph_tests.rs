use backend::models::graph::{Edge, Graph, Node, SearchError};
use backend::models::tow_truck::TowTruck;

fn truck(id: i32, node_id: i32) -> TowTruck {
    TowTruck { id, driver_id: id * 10, status: "available".to_string(), area_id: 1, node_id }
}

fn road(a: i32, b: i32, w: i32) -> Edge {
    Edge { node_a_id: a, node_b_id: b, weight: w }
}

fn line_graph() -> Graph {
    // 1 -5- 2 -5- 3 -1- 4, and 1 -20- 4
    let mut g = Graph::new();
    for id in 1..=5 {
        g.add_node(Node { id, x: id, y: 0 });
    }
    g.add_edge(road(1, 2, 5));
    g.add_edge(road(2, 3, 5));
    g.add_edge(road(3, 4, 1));
    g.add_edge(road(1, 4, 20));
    g
}

#[test]
fn add_edge_stores_both_directions() {
    let mut g = Graph::new();
    g.add_edge(road(1, 2, 7));
    assert_eq!(g.edges.get(&1).unwrap().value().clone(), vec![road(1, 2, 7)]);
    assert_eq!(g.edges.get(&2).unwrap().value().clone(), vec![road(2, 1, 7)]);
    assert_eq!(g.edges.len(), 2);
}

#[test]
fn add_node_replaces_same_id() {
    let mut g = Graph::new();
    g.add_node(Node { id: 3, x: 1, y: 1 });
    g.add_node(Node { id: 3, x: 9, y: 9 });
    assert_eq!(g.nodes.len(), 1);
    assert_eq!(g.nodes.get(&3), Some(&Node { id: 3, x: 9, y: 9 }));
}

#[test]
fn update_edge_weight_changes_both_directions() {
    let mut g = Graph::new();
    g.add_edge(road(1, 2, 7));
    g.add_edge(road(1, 3, 4));
    g.update_edge_weight(1, 2, 11);
    assert_eq!(g.edges.get(&1).unwrap().value().clone(), vec![road(1, 2, 11), road(1, 3, 4)]);
    assert_eq!(g.edges.get(&2).unwrap().value().clone(), vec![road(2, 1, 11)]);
    assert_eq!(g.edges.get(&3).unwrap().value().clone(), vec![road(3, 1, 4)]);
}

#[test]
fn update_edge_weight_of_unknown_road_changes_nothing() {
    let mut g = Graph::new();
    g.add_edge(road(1, 2, 7));
    g.update_edge_weight(5, 6, 1);
    assert_eq!(g.edges.get(&1).unwrap().value().clone(), vec![road(1, 2, 7)]);
    assert!(g.edges.get(&5).is_none());
}

#[test]
fn nearest_truck_by_road_distance() {
    let g = line_graph();
    // truck at 4 is 11 away (1-2-3-4), truck at 3 is 10 away.
    let found = g.find_nearest_tow_truck(vec![truck(1, 4), truck(2, 3)], 1);
    assert_eq!(found, Some(truck(2, 3)));
}

#[test]
fn nearest_truck_at_start_node() {
    let g = line_graph();
    let found = g.find_nearest_tow_truck(vec![truck(1, 4), truck(2, 1)], 1);
    assert_eq!(found, Some(truck(2, 1)));
}

#[test]
fn first_listed_truck_at_the_nearest_node() {
    let g = line_graph();
    let found = g.find_nearest_tow_truck(vec![truck(7, 2), truck(8, 2), truck(9, 3)], 1);
    assert_eq!(found, Some(truck(7, 2)));
}

#[test]
fn no_truck_reachable() {
    let g = line_graph();
    // node 5 has no roads
    assert_eq!(g.find_nearest_tow_truck(vec![truck(1, 5)], 1), None);
    assert_eq!(g.find_nearest_tow_truck(vec![], 1), None);
}

#[test]
fn start_node_without_roads() {
    let g = line_graph();
    assert_eq!(g.find_nearest_tow_truck(vec![truck(1, 2)], 42), None);
    assert_eq!(g.find_nearest_tow_truck(vec![truck(1, 42)], 42), Some(truck(1, 42)));
}

#[test]
fn weight_update_changes_the_answer() {
    let mut g = line_graph();
    g.update_edge_weight(2, 3, 50);
    // now 3 is reached via 4: 1-4 (20) + 4-3 (1) = 21; node 4 at 20
    let found = g.find_nearest_tow_truck(vec![truck(1, 3), truck(2, 4)], 1);
    assert_eq!(found, Some(truck(2, 4)));
}

#[test]
fn equal_distances_prefer_higher_node_id() {
    // 1 -3- 2 and 1 -3- 3: both trucks 3 away; the search settles node 3 first.
    let mut g = Graph::new();
    g.add_edge(road(1, 2, 3));
    g.add_edge(road(1, 3, 3));
    let found = g.find_nearest_tow_truck(vec![truck(1, 2), truck(2, 3)], 1);
    assert_eq!(found, Some(truck(2, 3)));
}

#[test]
fn nodes_map_does_not_change_the_answer() {
    let mut g = Graph::new();
    g.add_edge(road(1, 2, 3));
    let without = g.find_nearest_tow_truck(vec![truck(1, 2)], 1);
    g.add_node(Node { id: 1, x: 0, y: 0 });
    g.add_node(Node { id: 2, x: 0, y: 0 });
    let with = g.find_nearest_tow_truck(vec![truck(1, 2)], 1);
    assert_eq!(without, with);
    assert_eq!(with, Some(truck(1, 2)));
}

#[test]
fn add_nodes_and_edges_in_bulk() {
    let mut g = Graph::new();
    g.add_nodes(vec![Node { id: 1, x: 0, y: 0 }, Node { id: 2, x: 1, y: 1 }, Node { id: 1, x: 5, y: 5 }]);
    g.add_edges(vec![road(1, 2, 4), road(2, 3, 6)]);
    assert_eq!(g.nodes.len(), 2);
    assert_eq!(g.nodes.get(&1), Some(&Node { id: 1, x: 5, y: 5 }));
    assert_eq!(g.edges.get(&2).unwrap().value().clone(), vec![road(2, 1, 4), road(2, 3, 6)]);
    let copy = g.clone();
    assert_eq!(copy.edges.get(&3).unwrap().value().clone(), vec![road(3, 2, 6)]);
    assert_eq!(copy.nodes.len(), 2);
}

#[test]
fn nonnegative_weight_check() {
    let g = line_graph();
    assert!(g.reachable_weights_nonnegative_from(1));
    assert!(Graph::new().reachable_weights_nonnegative_from(1));
    let mut h = Graph::new();
    h.add_edge(road(1, 2, 3));
    h.add_edge(road(2, 3, -1));
    h.add_edge(road(7, 8, 1));
    assert!(!h.reachable_weights_nonnegative_from(1));
    assert!(!h.reachable_weights_nonnegative_from(3));
    // a negative road that the start does not reach does not count
    assert!(h.reachable_weights_nonnegative_from(7));
    assert!(h.reachable_weights_nonnegative_from(42));
}

#[test]
fn distance_of_exactly_max_is_out_of_range() {
    let mut g = Graph::new();
    g.add_edge(road(1, 2, i32::MAX));
    assert_eq!(g.find_nearest_tow_truck(vec![truck(1, 2)], 1), None);
    assert_eq!(g.find_nearest_tow_truck_checked(vec![truck(1, 2)], 1), Ok(None));
}

#[test]
fn checked_search_reports_overflow() {
    let mut g = Graph::new();
    g.add_edge(road(1, 2, i32::MAX - 1));
    g.add_edge(road(2, 3, 5));
    assert_eq!(
        g.find_nearest_tow_truck_checked(vec![truck(1, 3)], 1),
        Err(SearchError::DistanceOverflow)
    );
    // a truck reached before the overflowing road is still found
    assert_eq!(g.find_nearest_tow_truck_checked(vec![truck(1, 2)], 1), Ok(Some(truck(1, 2))));
}

#[test]
fn checked_search_agrees_when_nothing_overflows() {
    let g = line_graph();
    assert_eq!(
        g.find_nearest_tow_truck_checked(vec![truck(1, 4), truck(2, 3)], 1),
        Ok(Some(truck(2, 3)))
    );
}

#[test]
fn zero_weight_roads() {
    let mut g = Graph::new();
    g.add_edge(road(1, 2, 0));
    g.add_edge(road(2, 3, 0));
    g.add_edge(road(1, 4, 1));
    let found = g.find_nearest_tow_truck(vec![truck(1, 4), truck(2, 3)], 1);
    assert_eq!(found, Some(truck(2, 3)));
}

#[test]
fn self_loop_road() {
    let mut g = Graph::new();
    g.add_edge(road(5, 5, 2));
    assert_eq!(g.edges.get(&5).unwrap().value().clone(), vec![road(5, 5, 2), road(5, 5, 2)]);
    g.update_edge_weight(5, 5, 9);
    assert_eq!(g.edges.get(&5).unwrap().value().clone(), vec![road(5, 5, 9), road(5, 5, 9)]);
}

fn weights_between(g: &Graph, a: i32, b: i32) -> Vec<i32> {
    let mut ws: Vec<i32> = match g.edges.get(&a) {
        Some(list) => list.value().iter().filter(|e| e.node_b_id == b).map(|e| e.weight).collect(),
        None => Vec::new(),
    };
    ws.sort();
    ws
}

#[test]
fn roads_stay_undirected() {
    let mut g = Graph::new();
    g.add_edges(vec![road(1, 2, 4), road(2, 1, 6), road(2, 3, 1), road(3, 3, 2)]);
    g.update_edge_weight(2, 1, 8);
    g.add_edge(road(3, 1, 5));
    for a in 1..=3 {
        for b in 1..=3 {
            assert_eq!(weights_between(&g, a, b), weights_between(&g, b, a));
        }
    }
    assert_eq!(weights_between(&g, 1, 2), vec![8, 8]);
}

#[test]
fn weight_update_last_wins() {
    let mut once = Graph::new();
    once.add_edges(vec![road(1, 2, 4), road(2, 3, 1)]);
    let mut twice = once.clone();
    once.update_edge_weight(1, 2, 7);
    twice.update_edge_weight(1, 2, 3);
    twice.update_edge_weight(2, 1, 7);
    for a in 1..=3 {
        assert_eq!(
            once.edges.get(&a).unwrap().value().clone(),
            twice.edges.get(&a).unwrap().value().clone()
        );
    }
}

#[test]
fn roads_sit_under_their_first_crossing() {
    let mut g = Graph::new();
    g.add_edges(vec![road(1, 2, 4), road(2, 3, 1), road(4, 4, 2)]);
    g.update_edge_weight(3, 2, 9);
    g.add_edge(road(5, 1, 3));
    for entry in g.edges.iter() {
        for e in entry.value().iter() {
            assert_eq!(e.node_a_id, *entry.key());
        }
    }
    // each road a -> b of weight w occurs as often as b -> a of weight w
    for entry in g.edges.iter() {
        for e in entry.value().iter() {
            let there = entry.value().iter().filter(|x| **x == *e).count();
            let back = g.edges.get(&e.node_b_id).unwrap().value().iter()
                .filter(|x| **x == Edge { node_a_id: e.node_b_id, node_b_id: e.node_a_id, weight: e.weight })
                .count();
            assert_eq!(there, back);
        }
    }
}
