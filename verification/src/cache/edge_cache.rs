use vstd::prelude::*;
use dashmap::DashMap;
use crate::cache::node_cache::AREA_COUNT;
use crate::edge_table::{edge_table, edge_table_clone, edge_table_entries, edge_table_insert, edge_table_new};
use crate::models::laws::{law_add_roads_keeps_consistent, law_empty_consistent, law_roads_added_counts, roads_consistent};
use crate::models::paths::adjacency;
use crate::models::graph::{Edge, add_road, lemma_with_weight_keeps_crossings, reversed, roads_added, set_road_weight, with_weight};

verus! {

/// The roads of each area; area `a` (from 1) sits at `store[a - 1]`.
pub struct EdgeCache {
    pub store: [DashMap<i32, Vec<Edge>>; 7],
}

impl EdgeCache {
    /// The adjacency lists cached for `area_id`.
    pub open spec fn area(&self, area_id: int) -> Map<i32, Seq<Edge>> {
        edge_table(self.store@[area_id - 1])
    }

    /// Every area knows finitely many crossings with roads.
    pub open spec fn wf(&self) -> bool {
        forall|a: int| 1 <= a <= 7 ==> #[trigger] self.area(a).dom().finite()
    }

    pub fn new() -> (cache: Self)
        ensures
            forall|a: int| 1 <= a <= 7 ==> #[trigger] cache.area(a) == Map::<i32, Seq<Edge>>::empty(),
            cache.wf(),
    {
        EdgeCache {
            store: [
                edge_table_new(),
                edge_table_new(),
                edge_table_new(),
                edge_table_new(),
                edge_table_new(),
                edge_table_new(),
                edge_table_new(),
            ],
        }
    }

    /// A separate copy of the roads cached for `area_id`.
    pub fn get_edges(&self, area_id: usize) -> (edges: DashMap<i32, Vec<Edge>>)
        requires
            1 <= area_id <= AREA_COUNT,
        ensures
            edge_table(edges) == self.area(area_id as int),
    {
        edge_table_clone(&self.store[area_id - 1])
    }

    /// Gives every cached road between the two crossings of `area_id`, both
    /// ways, the new weight.
    pub fn update_edge_weight(&mut self, area_id: usize, node_a_id: i32, node_b_id: i32, weight: i32)
        requires
            1 <= area_id <= AREA_COUNT,
        ensures
            final(self).area(area_id as int) == with_weight(
                old(self).area(area_id as int),
                node_a_id,
                node_b_id,
                weight,
            ),
            forall|a: int| 1 <= a <= 7 && a != area_id ==> #[trigger] final(self).area(a) == old(
                self,
            ).area(a),
            old(self).wf() ==> final(self).wf(),
    {
        set_road_weight(&mut self.store[area_id - 1], node_a_id, node_b_id, weight);
        proof {
            lemma_with_weight_keeps_crossings(old(self).area(area_id as int), node_a_id, node_b_id, weight);
            if old(self).wf() {
                assert forall|a: int| 1 <= a <= 7 implies #[trigger] self.area(a).dom().finite() by {
                    assert(old(self).area(a).dom().finite());
                }
            }
        }
    }

    /// Stores the lists of `roads` in `area_id`: a crossing listed there gets
    /// that list, the other crossings of the area keep theirs.
    pub fn store_roads(&mut self, area_id: usize, roads: DashMap<i32, Vec<Edge>>)
        requires
            1 <= area_id <= AREA_COUNT,
        ensures
            final(self).area(area_id as int) == old(self).area(area_id as int).union_prefer_right(
                edge_table(roads),
            ),
            forall|a: int| 1 <= a <= 7 && a != area_id ==> #[trigger] final(self).area(a) == old(
                self,
            ).area(a),
            old(self).wf() && edge_table(roads).dom().finite() ==> final(self).wf(),
    {
        let mut entries = edge_table_entries(&roads);
        let ghost all = entries@;
        let ghost n = all.len();
        let ghost base = self.area(area_id as int);
        let ghost other = *self;
        let ghost new_roads = edge_table(roads);
        while entries.len() > 0
            invariant
                1 <= area_id <= AREA_COUNT,
                entries.len() <= n,
                n == all.len(),
                entries@ == all.subrange(0, entries.len() as int),
                new_roads == edge_table(roads),
                forall|j: int|
                    0 <= j < n ==> new_roads.contains_key(#[trigger] all[j].0) && all[j].1@
                        == new_roads[all[j].0],
                self.area(area_id as int) == base.union_prefer_right(
                    new_roads.restrict(
                        Set::new(|k: i32| exists|j: int| entries.len() <= j < n && #[trigger] all[j].0 == k),
                    ),
                ),
                forall|a: int| 1 <= a <= 7 && a != area_id ==> #[trigger] self.area(a) == other.area(a),
            decreases entries.len(),
        {
            let ghost m = entries.len() as int;
            let ghost before = self.area(area_id as int);
            let entry = entries.pop();
            match entry {
                Some(pair) => {
                    let (k, list) = pair;
                    proof {
                        assert(all[m - 1] == (k, list));
                        assert(entries@ == all.subrange(0, m - 1));
                    }
                    let ghost store_before = self.store;
                    let ghost self_before = *self;
                    assert(forall|a: int| 1 <= a <= 7 && a != area_id ==> #[trigger] self_before.area(a) == other.area(a));
                    edge_table_insert(&mut self.store[area_id - 1], k, list);
                    proof {
                        assert forall|a: int| 1 <= a <= 7 && a != area_id implies #[trigger] self.area(a) == other.area(a) by {
                            assert(self.store@[a - 1] == store_before@[a - 1]);
                            assert(self_before.area(a) == other.area(a));
                        }
                        let s_old = Set::new(|x: i32| exists|j: int| m <= j < n && #[trigger] all[j].0 == x);
                        let s_new = Set::new(|x: i32| exists|j: int| m - 1 <= j < n && #[trigger] all[j].0 == x);
                        assert(s_new =~= s_old.insert(k)) by {
                            assert forall|x: i32| s_new.contains(x) implies #[trigger] s_old.insert(k).contains(x) by {
                                let j = choose|j: int| m - 1 <= j < n && #[trigger] all[j].0 == x;
                                if j != m - 1 {
                                    assert(s_old.contains(x));
                                }
                            }
                            assert forall|x: i32| s_old.insert(k).contains(x) implies #[trigger] s_new.contains(x) by {
                                if x == k {
                                    assert(all[m - 1].0 == x);
                                } else {
                                    let j = choose|j: int| m <= j < n && #[trigger] all[j].0 == x;
                                    assert(all[j].0 == x);
                                }
                            }
                        }
                        assert(new_roads.contains_key(k) && list@ == new_roads[k]);
                        assert(self.area(area_id as int) =~= base.union_prefer_right(new_roads.restrict(s_new)));
                    }
                },
                None => {},
            }
        }
        proof {
            let s_all = Set::new(|k: i32| exists|j: int| 0 <= j < n && #[trigger] all[j].0 == k);
            assert(s_all =~= new_roads.dom()) by {
                assert forall|k: i32| new_roads.dom().contains(k) implies #[trigger] s_all.contains(k) by {
                    let j = choose|j: int| 0 <= j < all.len() && #[trigger] all[j].0 == k;
                }
            }
            assert(new_roads.restrict(s_all) =~= new_roads);
            if old(self).wf() && new_roads.dom().finite() {
                assert forall|a: int| 1 <= a <= 7 implies #[trigger] self.area(a).dom().finite() by {
                    if a == area_id {
                        assert(self.area(a).dom() =~= base.dom().union(new_roads.dom()));
                    } else {
                        assert(other.area(a) == old(self).area(a));
                    }
                }
            }
        }
    }
}

/// A new adjacency table holding each of `edges` in both directions.
pub fn road_table(edges: Vec<Edge>) -> (table: DashMap<i32, Vec<Edge>>)
    ensures
        edge_table(table) == roads_added(Map::empty(), edges@),
        edge_table(table).dom().finite(),
        roads_consistent(edge_table(table)),
        forall|k: i32, x: Edge|
            #[trigger] adjacency(edge_table(table), k).to_multiset().count(x) == (if x.node_a_id == k {
                edges@.to_multiset().count(x) + edges@.map_values(|e: Edge| reversed(e)).to_multiset().count(
                    x,
                )
            } else {
                0
            }),
{
    proof {
        assert forall|k: i32, x: Edge|
            #[trigger] adjacency(roads_added(Map::empty(), edges@), k).to_multiset().count(x) == (if x.node_a_id
                == k {
                edges@.to_multiset().count(x) + edges@.map_values(|e: Edge| reversed(e)).to_multiset().count(
                    x,
                )
            } else {
                0
            }) by {
            law_roads_added_counts(Map::empty(), edges@, k, x);
            let empty = adjacency(Map::<i32, Seq<Edge>>::empty(), k);
            assert(empty =~= Seq::<Edge>::empty());
            empty.to_multiset_ensures();
            assert(!empty.contains(x));
        }
        law_empty_consistent();
        law_add_roads_keeps_consistent(Map::empty(), edges@);
    }
    let mut table = edge_table_new();
    let mut i: usize = 0;
    while i < edges.len()
        invariant
            i <= edges.len(),
            edge_table(table) == roads_added(Map::empty(), edges@.subrange(0, i as int)),
            edge_table(table).dom().finite(),
        decreases edges.len() - i,
    {
        add_road(&mut table, edges[i]);
        proof {
            let s = edges@.subrange(0, i + 1 as int);
            assert(s.drop_last() =~= edges@.subrange(0, i as int));
        }
        i = i + 1;
    }
    proof {
        assert(edges@.subrange(0, edges@.len() as int) =~= edges@);
    }
    table
}

} // verus!
