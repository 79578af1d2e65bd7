use vstd::prelude::*;
use std::collections::{HashMap, HashSet};
use dashmap::DashMap;
use crate::edge_table::{
    edge_table, edge_table_clone, edge_table_get, edge_table_insert,
    edge_table_new, edge_table_push,
};
use crate::models::paths::{
    adjacency, lemma_overflow_breaks_fit, nearest_truck_answer, overflows_before_trucks,
    reachable_weights_nonnegative, reaches, relaxations_fit,
};
use crate::models::search::{
    State, distance_of, dist_of, lemma_begin_expansion, lemma_drop_stale, lemma_finish_expansion,
    lemma_none_reachable, lemma_overflow_witness, lemma_truck_found, relax_edge, search_inv, top_index,
    truck_index_at, expanding,
};
use crate::models::tow_truck::TowTruck;
use crate::models::reach::{
    lemma_reaches_start, lemma_reaches_step, lemma_scan_begin, lemma_scan_complete,
    lemma_scan_finish, scan_expanding, scan_inv,
};
use crate::models::laws::{
    has_id, law_add_road_counts, law_nodes_added_ids, law_nodes_added_last_wins,
    law_nodes_added_unlisted, law_roads_added_counts, law_add_road_keeps_consistent, law_add_roads_keeps_consistent, law_empty_consistent,
    law_weight_update_keeps_consistent, roads_consistent,
};

verus! {

broadcast use vstd::std_specs::hash::group_hash_axioms;

/// A crossing of the road network.
#[derive(Clone, Copy, Debug, Default, PartialEq, Eq, Structural)]
pub struct Node {
    pub id: i32,
    pub x: i32,
    pub y: i32,
}

/// A road from `node_a_id` to `node_b_id` and what it costs to drive it.
#[derive(Clone, Copy, Debug, Default, PartialEq, Eq, Structural)]
pub struct Edge {
    pub node_a_id: i32,
    pub node_b_id: i32,
    pub weight: i32,
}

/// The same road driven the other way.
pub open spec fn reversed(e: Edge) -> Edge {
    Edge { node_a_id: e.node_b_id, node_b_id: e.node_a_id, weight: e.weight }
}

/// `g` with `e` appended to the roads of its `node_a_id`.
pub open spec fn push_road(g: Map<i32, Seq<Edge>>, e: Edge) -> Map<i32, Seq<Edge>> {
    g.insert(e.node_a_id, adjacency(g, e.node_a_id).push(e))
}

/// `g` with road `e` added in both directions.
pub open spec fn with_road(g: Map<i32, Seq<Edge>>, e: Edge) -> Map<i32, Seq<Edge>> {
    push_road(push_road(g, e), reversed(e))
}

/// `g` with each of `edges`, in order, added in both directions.
pub open spec fn roads_added(g: Map<i32, Seq<Edge>>, edges: Seq<Edge>) -> Map<i32, Seq<Edge>>
    decreases edges.len(),
{
    if edges.len() == 0 {
        g
    } else {
        with_road(roads_added(g, edges.drop_last()), edges.last())
    }
}

/// `m` with each of `nodes`, in order, recorded under its id.
pub open spec fn nodes_added(m: Map<i32, Node>, nodes: Seq<Node>) -> Map<i32, Node>
    decreases nodes.len(),
{
    if nodes.len() == 0 {
        m
    } else {
        nodes_added(m, nodes.drop_last()).insert(nodes.last().id, nodes.last())
    }
}

/// `s` with every road that leads to `target` given weight `w`.
pub open spec fn reweighed(s: Seq<Edge>, target: i32, w: i32) -> Seq<Edge> {
    Seq::new(
        s.len(),
        |i: int|
            if s[i].node_b_id == target {
                Edge { node_a_id: s[i].node_a_id, node_b_id: s[i].node_b_id, weight: w }
            } else {
                s[i]
            },
    )
}

/// `g` with the roads listed under `key` that lead to `target` given weight `w`.
pub open spec fn reweigh_list(g: Map<i32, Seq<Edge>>, key: i32, target: i32, w: i32) -> Map<
    i32,
    Seq<Edge>,
> {
    if g.contains_key(key) {
        g.insert(key, reweighed(g[key], target, w))
    } else {
        g
    }
}

/// `g` with the roads between `a` and `b`, in both directions, given weight `w`.
pub open spec fn with_weight(g: Map<i32, Seq<Edge>>, a: i32, b: i32, w: i32) -> Map<
    i32,
    Seq<Edge>,
> {
    reweigh_list(reweigh_list(g, a, b, w), b, a, w)
}

/// Gives every road in `edges` that leads to `target` the weight `weight`.
fn reweigh(edges: &mut Vec<Edge>, target: i32, weight: i32)
    ensures
        final(edges)@ == reweighed(old(edges)@, target, weight),
{
    let ghost before = edges@;
    let mut i: usize = 0;
    while i < edges.len()
        invariant
            i <= edges.len(),
            edges.len() == before.len(),
            forall|k: int| 0 <= k < i ==> #[trigger] edges@[k] == reweighed(before, target, weight)[k],
            forall|k: int| i <= k < edges.len() ==> #[trigger] edges@[k] == before[k],
        decreases edges.len() - i,
    {
        let e = edges[i];
        if e.node_b_id == target {
            edges.set(i, Edge { node_a_id: e.node_a_id, node_b_id: e.node_b_id, weight });
        }
        i = i + 1;
    }
    assert(edges@ =~= reweighed(before, target, weight));
}

/// Sets the weight of every road between `node_a_id` and `node_b_id`, in both
/// directions, in an adjacency table.
pub fn set_road_weight(
    table: &mut DashMap<i32, Vec<Edge>>,
    node_a_id: i32,
    node_b_id: i32,
    weight: i32,
)
    ensures
        edge_table(*final(table)) == with_weight(edge_table(*old(table)), node_a_id, node_b_id, weight),
{
    let ghost g0 = edge_table(*table);
    match edge_table_get(table, node_a_id) {
        Some(edges) => {
            let mut edges = edges;
            reweigh(&mut edges, node_b_id, weight);
            edge_table_insert(table, node_a_id, edges);
        },
        None => {},
    }
    let ghost g1 = edge_table(*table);
    assert(g1 =~= reweigh_list(g0, node_a_id, node_b_id, weight));
    match edge_table_get(table, node_b_id) {
        Some(edges) => {
            let mut edges = edges;
            reweigh(&mut edges, node_a_id, weight);
            edge_table_insert(table, node_b_id, edges);
        },
        None => {},
    }
    assert(edge_table(*table) =~= reweigh_list(g1, node_b_id, node_a_id, weight));
}

/// Adds a road to an adjacency table in both directions: as given under its
/// first crossing, and reversed under its second.
pub fn add_road(table: &mut DashMap<i32, Vec<Edge>>, edge: Edge)
    ensures
        edge_table(*final(table)) == with_road(edge_table(*old(table)), edge),
{
    edge_table_push(table, edge.node_a_id, edge);
    let reverse_edge = Edge {
        node_a_id: edge.node_b_id,
        node_b_id: edge.node_a_id,
        weight: edge.weight,
    };
    edge_table_push(table, reverse_edge.node_a_id, reverse_edge);
}

/// Setting weights leaves the crossings that have roads as they were.
pub proof fn lemma_with_weight_keeps_crossings(g: Map<i32, Seq<Edge>>, a: i32, b: i32, w: i32)
    ensures
        with_weight(g, a, b, w).dom() == g.dom(),
{
    assert(reweigh_list(g, a, b, w).dom() =~= g.dom());
    assert(with_weight(g, a, b, w).dom() =~= g.dom());
}

/// Why a search gave no answer.
#[derive(Clone, Copy, Debug, PartialEq, Eq, Structural)]
pub enum SearchError {
    /// A distance the search had to compute does not fit in an `i32`.
    DistanceOverflow,
}

/// The road network of one area: its crossings by id, and for each crossing
/// the roads that leave it.
#[derive(Debug)]
pub struct Graph {
    pub nodes: HashMap<i32, Node>,
    pub edges: DashMap<i32, Vec<Edge>>,
}

impl Graph {
    /// The adjacency lists of the graph.
    pub open spec fn roads(&self) -> Map<i32, Seq<Edge>> {
        edge_table(self.edges)
    }

    /// The graph knows finitely many crossings with roads.
    pub open spec fn wf(&self) -> bool {
        self.roads().dom().finite()
    }

    pub fn new() -> (graph: Self)
        ensures
            graph.nodes@ == Map::<i32, Node>::empty(),
            graph.roads() == Map::<i32, Seq<Edge>>::empty(),
            graph.wf(),
            roads_consistent(graph.roads()),
    {
        proof {
            law_empty_consistent();
        }
        Graph { nodes: HashMap::new(), edges: edge_table_new() }
    }

    /// Gives every road between the two crossings, both ways, the new weight.
    pub fn update_edge_weight(&mut self, node_a_id: i32, node_b_id: i32, weight: i32)
        ensures
            final(self).nodes@ == old(self).nodes@,
            final(self).roads() == with_weight(old(self).roads(), node_a_id, node_b_id, weight),
            roads_consistent(old(self).roads()) ==> roads_consistent(final(self).roads()),
    {
        set_road_weight(&mut self.edges, node_a_id, node_b_id, weight);
        proof {
            if roads_consistent(old(self).roads()) {
                law_weight_update_keeps_consistent(old(self).roads(), node_a_id, node_b_id, weight);
            }
        }
    }

    /// Records a crossing under its id, replacing any crossing with that id.
    pub fn add_node(&mut self, node: Node)
        ensures
            final(self).nodes@ == old(self).nodes@.insert(node.id, node),
            final(self).roads() == old(self).roads(),
    {
        self.nodes.insert(node.id, node);
    }

    /// Adds a road in both directions: as given under its first crossing, and
    /// reversed under its second.
    pub fn add_edge(&mut self, edge: Edge)
        ensures
            final(self).nodes@ == old(self).nodes@,
            final(self).roads() == with_road(old(self).roads(), edge),
            roads_consistent(old(self).roads()) ==> roads_consistent(final(self).roads()),
            forall|k: i32, x: Edge|
                #[trigger] adjacency(final(self).roads(), k).to_multiset().count(x) == adjacency(
                    old(self).roads(),
                    k,
                ).to_multiset().count(x) + (if x == edge && k == edge.node_a_id {
                    1int
                } else {
                    0int
                }) + (if x == reversed(edge) && k == edge.node_b_id {
                    1int
                } else {
                    0int
                }),
    {
        proof {
            assert forall|k: i32, x: Edge|
                #[trigger] adjacency(with_road(old(self).roads(), edge), k).to_multiset().count(x)
                    == adjacency(old(self).roads(), k).to_multiset().count(x) + (if x == edge && k
                    == edge.node_a_id {
                    1int
                } else {
                    0int
                }) + (if x == reversed(edge) && k == edge.node_b_id {
                    1int
                } else {
                    0int
                }) by {
                law_add_road_counts(old(self).roads(), edge, k, x);
            }
        }
        add_road(&mut self.edges, edge);
        proof {
            if roads_consistent(old(self).roads()) {
                law_add_road_keeps_consistent(old(self).roads(), edge);
            }
        }
    }

    /// Records each of `nodes` in order, as `add_node` does.
    pub fn add_nodes(&mut self, nodes: Vec<Node>)
        ensures
            final(self).nodes@ == nodes_added(old(self).nodes@, nodes@),
            final(self).roads() == old(self).roads(),
            forall|k: i32|
                #[trigger] final(self).nodes@.contains_key(k) <==> old(self).nodes@.contains_key(k)
                    || exists|i: int| 0 <= i < nodes.len() && #[trigger] has_id(nodes@[i], k),
            forall|i: int|
                0 <= i < nodes.len() && (forall|j: int|
                    i < j < nodes.len() ==> !#[trigger] has_id(nodes@[j], nodes@[i].id))
                    ==> final(self).nodes@.contains_key(nodes@[i].id) && final(self).nodes@[nodes@[i].id]
                    == nodes@[i],
            forall|k: i32|
                old(self).nodes@.contains_key(k) && (forall|i: int|
                    0 <= i < nodes.len() ==> !#[trigger] has_id(nodes@[i], k))
                    ==> final(self).nodes@[k] == old(self).nodes@[k],
    {
        proof {
            let m = old(self).nodes@;
            assert forall|k: i32|
                #[trigger] nodes_added(m, nodes@).contains_key(k) <==> m.contains_key(k) || exists|i: int|
                    0 <= i < nodes.len() && #[trigger] has_id(nodes@[i], k) by {
                law_nodes_added_ids(m, nodes@, k);
            }
            assert forall|i: int|
                0 <= i < nodes.len() && (forall|j: int|
                    i < j < nodes.len() ==> !#[trigger] has_id(nodes@[j], nodes@[i].id)) implies nodes_added(
                    m,
                    nodes@,
                ).contains_key(nodes@[i].id) && nodes_added(m, nodes@)[nodes@[i].id] == nodes@[i] by {
                law_nodes_added_last_wins(m, nodes@, i);
            }
            assert forall|k: i32|
                m.contains_key(k) && (forall|i: int| 0 <= i < nodes.len() ==> !#[trigger] has_id(nodes@[i], k))
                    implies #[trigger] nodes_added(m, nodes@)[k] == m[k] by {
                law_nodes_added_unlisted(m, nodes@, k);
            }
        }
        let mut i: usize = 0;
        while i < nodes.len()
            invariant
                i <= nodes.len(),
                self.nodes@ == nodes_added(old(self).nodes@, nodes@.subrange(0, i as int)),
                self.roads() == old(self).roads(),
            decreases nodes.len() - i,
        {
            self.add_node(nodes[i]);
            proof {
                assert(nodes@.subrange(0, i + 1 as int).drop_last() =~= nodes@.subrange(0, i as int));
            }
            i = i + 1;
        }
        proof {
            assert(nodes@.subrange(0, nodes@.len() as int) =~= nodes@);
        }
    }

    /// Adds each of `edges` in order, both ways, as `add_edge` does.
    pub fn add_edges(&mut self, edges: Vec<Edge>)
        ensures
            final(self).nodes@ == old(self).nodes@,
            final(self).roads() == roads_added(old(self).roads(), edges@),
            old(self).wf() ==> final(self).wf(),
            roads_consistent(old(self).roads()) ==> roads_consistent(final(self).roads()),
            forall|k: i32, x: Edge|
                #[trigger] adjacency(final(self).roads(), k).to_multiset().count(x) == adjacency(
                    old(self).roads(),
                    k,
                ).to_multiset().count(x) + (if x.node_a_id == k {
                    edges@.to_multiset().count(x) + edges@.map_values(|e: Edge| reversed(e)).to_multiset().count(
                        x,
                    )
                } else {
                    0
                }),
    {
        proof {
            assert forall|k: i32, x: Edge|
                #[trigger] adjacency(roads_added(old(self).roads(), edges@), k).to_multiset().count(x)
                    == adjacency(old(self).roads(), k).to_multiset().count(x) + (if x.node_a_id == k {
                    edges@.to_multiset().count(x) + edges@.map_values(|e: Edge| reversed(e)).to_multiset().count(
                        x,
                    )
                } else {
                    0
                }) by {
                law_roads_added_counts(old(self).roads(), edges@, k, x);
            }
            if roads_consistent(old(self).roads()) {
                law_add_roads_keeps_consistent(old(self).roads(), edges@);
            }
        }
        let mut i: usize = 0;
        while i < edges.len()
            invariant
                i <= edges.len(),
                self.nodes@ == old(self).nodes@,
                self.roads() == roads_added(old(self).roads(), edges@.subrange(0, i as int)),
                old(self).wf() ==> self.wf(),
            decreases edges.len() - i,
        {
            self.add_edge(edges[i]);
            proof {
                assert(edges@.subrange(0, i + 1 as int).drop_last() =~= edges@.subrange(0, i as int));
            }
            i = i + 1;
        }
        proof {
            assert(edges@.subrange(0, edges@.len() as int) =~= edges@);
        }
    }

    /// Whether no road leaving a crossing that `from_node_id` reaches weighs
    /// less than 0: exactly the weight condition of the search.
    pub fn reachable_weights_nonnegative_from(&self, from_node_id: i32) -> (r: bool)
        requires
            self.wf(),
        ensures
            r == reachable_weights_nonnegative(self.roads(), from_node_id),
    {
        let ghost g = self.roads();
        let mut seen: HashSet<i32> = HashSet::new();
        seen.insert(from_node_id);
        let mut stack: Vec<i32> = Vec::new();
        stack.push(from_node_id);
        let ghost mut expanded: Set<i32> = Set::empty();
        proof {
            lemma_reaches_start(g, from_node_id);
            assert(stack@[0] == from_node_id);
            assert(scan_inv(g, from_node_id, seen@, stack@, expanded));
        }
        loop
            invariant
                g == self.roads(),
                g.dom().finite(),
                scan_inv(g, from_node_id, seen@, stack@, expanded),
            decreases g.dom().difference(expanded).len(), stack.len(),
        {
            let ghost old_stack = stack@;
            match stack.pop() {
                None => {
                    proof {
                        lemma_scan_complete(g, from_node_id, seen@, stack@, expanded);
                    }
                    return true;
                },
                Some(u) => {
                    proof {
                        lemma_scan_begin(g, from_node_id, seen@, old_stack, expanded);
                        assert(old_stack.drop_last() == stack@);
                    }
                    match edge_table_get(&self.edges, u) {
                        Some(list) => {
                            let mut j: usize = 0;
                            while j < list.len()
                                invariant
                                    g == self.roads(),
                                    j <= list.len(),
                                    list@ == adjacency(g, u),
                                    scan_expanding(
                                        g,
                                        from_node_id,
                                        seen@,
                                        stack@,
                                        expanded,
                                        u,
                                        list@.subrange(0, j as int),
                                    ),
                                decreases list.len() - j,
                            {
                                let e = list[j];
                                proof {
                                    assert(list@[j as int] == e);
                                    assert(adjacency(g, u).contains(e));
                                }
                                if e.weight < 0 {
                                    proof {
                                        assert(reaches(g, from_node_id, u));
                                    }
                                    return false;
                                }
                                let b = e.node_b_id;
                                let ghost seen0 = seen@;
                                let ghost stack0 = stack@;
                                let fresh = seen.insert(b);
                                if fresh {
                                    stack.push(b);
                                }
                                proof {
                                    lemma_reaches_step(g, from_node_id, u, e);
                                    let looked = list@.subrange(0, j + 1 as int);
                                    assert forall|k: int| 0 <= k < looked.len() implies (
                                    #[trigger] looked[k]).weight >= 0 && seen@.contains(
                                        looked[k].node_b_id,
                                    ) by {
                                        if k < j {
                                            assert(looked[k] == list@.subrange(0, j as int)[k]);
                                        }
                                    }
                                    assert forall|i: int| 0 <= i < stack@.len() implies seen@.contains(
                                        #[trigger] stack@[i],
                                    ) && !expanded.contains(stack@[i]) by {
                                        if i < stack0.len() {
                                            assert(stack@[i] == stack0[i]);
                                        }
                                    }
                                    if fresh {
                                        assert(!stack0.contains(b)) by {
                                            if stack0.contains(b) {
                                                let i = choose|i: int| 0 <= i < stack0.len() && stack0[i] == b;
                                            }
                                        }
                                        assert forall|x: int, y: int|
                                            0 <= x < stack@.len() && 0 <= y < stack@.len() && x != y implies stack@[x]
                                            != stack@[y] by {
                                            if x < stack0.len() && y < stack0.len() {
                                                assert(stack@[x] == stack0[x] && stack@[y] == stack0[y]);
                                            } else if x < stack0.len() {
                                                assert(stack@[x] == stack0[x]);
                                            } else {
                                                assert(stack@[y] == stack0[y]);
                                            }
                                        }
                                        assert(stack@[stack0.len() as int] == b);
                                        assert(!stack@.contains(u)) by {
                                            if stack@.contains(u) {
                                                let i = choose|i: int| 0 <= i < stack@.len() && stack@[i] == u;
                                                if i < stack0.len() {
                                                    assert(stack0[i] == u);
                                                }
                                            }
                                        }
                                        assert forall|v: i32| #[trigger] seen@.contains(v) implies expanded.contains(v)
                                            || stack@.contains(v) || v == u by {
                                            if v != b && !expanded.contains(v) && v != u {
                                                let i = choose|i: int| 0 <= i < stack0.len() && stack0[i] == v;
                                                assert(stack@[i] == v);
                                            }
                                        }
                                    }
                                }
                                j = j + 1;
                            }
                            proof {
                                assert(list@.subrange(0, list@.len() as int) =~= list@);
                                lemma_scan_finish(g, from_node_id, seen@, stack@, expanded, u, list@);
                                assert(g.dom().contains(u));
                                assert(g.dom().difference(expanded.insert(u)) =~= g.dom().difference(
                                    expanded,
                                ).remove(u));
                            }
                        },
                        None => {
                            proof {
                                assert(adjacency(g, u) =~= Seq::<Edge>::empty());
                                lemma_scan_finish(g, from_node_id, seen@, stack@, expanded, u, Seq::empty());
                                assert(g.dom().difference(expanded.insert(u)) =~= g.dom().difference(
                                    expanded,
                                ));
                            }
                        },
                    }
                    proof {
                        expanded = expanded.insert(u);
                    }
                },
            }
        }
    }

    /// Searches outward from `from_node_id`, cheapest first, and answers the
    /// first of `tow_trucks` standing at the first crossing reached that has
    /// a truck: a truck that no other can beat on road distance, or `None`
    /// where no truck can be reached for less than `i32::MAX`.
    pub fn find_nearest_tow_truck(&self, tow_trucks: Vec<TowTruck>, from_node_id: i32) -> (result:
        Option<TowTruck>)
        requires
            self.wf(),
            reachable_weights_nonnegative(self.roads(), from_node_id),
            relaxations_fit(self.roads(), from_node_id),
        ensures
            nearest_truck_answer(self.roads(), from_node_id, tow_trucks@, result),
    {
        match self.find_nearest_tow_truck_checked(tow_trucks, from_node_id) {
            Ok(answer) => answer,
            Err(_) => {
                proof {
                    assert(false);
                }
                None
            },
        }
    }

    /// The search of `find_nearest_tow_truck`, where a distance that does not
    /// fit in an `i32` is reported instead of computed: `Err` where the search
    /// gets to a crossing no farther than any truck and a road out of it
    /// leads beyond `i32::MAX`.
    pub fn find_nearest_tow_truck_checked(&self, tow_trucks: Vec<TowTruck>, from_node_id: i32) -> (result:
        Result<Option<TowTruck>, SearchError>)
        requires
            self.wf(),
            reachable_weights_nonnegative(self.roads(), from_node_id),
        ensures
            match result {
                Ok(answer) => nearest_truck_answer(self.roads(), from_node_id, tow_trucks@, answer),
                Err(_) => overflows_before_trucks(self.roads(), from_node_id, tow_trucks@),
            },
            relaxations_fit(self.roads(), from_node_id) ==> result is Ok,
    {
        let ghost g = self.roads();
        let ghost trucks = tow_trucks@;
        let mut candidates = tow_trucks;
        let mut distances: HashMap<i32, i32> = HashMap::new();
        for node_id in self.nodes.keys()
            invariant
                forall|v: i32| #[trigger] dist_of(distances@, v) == i32::MAX,
        {
            let ghost before = distances@;
            let key: i32 = *node_id;
            distances.insert(key, i32::MAX);
            proof {
                assert(vstd::std_specs::hash::obeys_key_model::<i32>());
                assert(distances@ == before.insert(key, i32::MAX));
                assert forall|v: i32| #[trigger] dist_of(distances@, v) == i32::MAX by {
                    assert(dist_of(before, v) == i32::MAX);
                }
            }
        }
        let ghost before = distances@;
        distances.insert(from_node_id, 0);
        proof {
            assert(distances@ == before.insert(from_node_id, 0));
            assert forall|v: i32| v != from_node_id implies #[trigger] dist_of(distances@, v) == i32::MAX by {
                assert(dist_of(before, v) == i32::MAX);
            }
        }
        let mut heap: Vec<State> = Vec::new();
        heap.push(State { cost: 0, position: from_node_id });
        let ghost mut done: Set<i32> = Set::empty();
        let ghost mut level: int = 0;
        proof {
            let d = distances@;
            assert(forall|v: i32| v != from_node_id ==> dist_of(d, v) == i32::MAX);
            assert(heap@[0] == State { cost: 0, position: from_node_id });
            assert(crate::models::paths::walk_to(g, from_node_id, from_node_id, Seq::empty()));
            assert(crate::models::paths::walk_cost(Seq::<Edge>::empty()) == 0);
            assert(search_inv(g, from_node_id, trucks, d, heap@, done, level));
        }
        loop
            invariant
                g == self.roads(),
                g.dom().finite(),
                reachable_weights_nonnegative(g, from_node_id),
                candidates@ == trucks,
                trucks == tow_trucks@,
                search_inv(g, from_node_id, trucks, distances@, heap@, done, level),
            decreases g.dom().difference(done).len(), heap.len(),
        {
            if heap.len() == 0 {
                proof {
                    lemma_none_reachable(g, from_node_id, trucks, distances@, heap@, done, level);
                }
                proof {
                    assert(nearest_truck_answer(g, from_node_id, trucks, None));
                }
                return Ok(None);
            }
            let top = top_index(&heap);
            let ghost old_heap = heap@;
            let state = heap.remove(top);
            let cost = state.cost;
            let position = state.position;
            match truck_index_at(&candidates, position) {
                Some(i) => {
                    proof {
                        lemma_truck_found(
                            g,
                            from_node_id,
                            trucks,
                            distances@,
                            old_heap,
                            done,
                            level,
                            top as int,
                            i as int,
                        );
                    }
                    let truck = candidates.remove(i);
                    proof {
                        assert(trucks[i as int] == truck);
                        assert(nearest_truck_answer(g, from_node_id, trucks, Some(truck)));
                    }
                    return Ok(Some(truck));
                },
                None => {},
            }
            let known = distance_of(&distances, position);
            if cost > known {
                proof {
                    lemma_drop_stale(g, from_node_id, trucks, distances@, old_heap, done, level, top as int);
                }
                continue;
            }
            proof {
                lemma_begin_expansion(g, from_node_id, trucks, distances@, old_heap, done, level, top as int);
            }
            let ghost heap_before = heap@;
            match edge_table_get(&self.edges, position) {
                Some(roads) => {
                    let mut i: usize = 0;
                    while i < roads.len()
                        invariant
                            i <= roads.len(),
                            roads@ == adjacency(g, position),
                            g == self.roads(),
                            trucks == tow_trucks@,
                            reachable_weights_nonnegative(g, from_node_id),
                            expanding(
                                g,
                                from_node_id,
                                trucks,
                                distances@,
                                heap@,
                                done,
                                position,
                                cost as int,
                                roads@.subrange(0, i as int),
                            ),
                        decreases roads.len() - i,
                    {
                        let e = roads[i];
                        proof {
                            assert(roads@[i as int] == e);
                            assert(adjacency(g, position).contains(e));
                        }
                        let fits = relax_edge(
                            &mut distances,
                            &mut heap,
                            cost,
                            e,
                            Ghost(g),
                            Ghost(from_node_id),
                            Ghost(trucks),
                            Ghost(done),
                            Ghost(position),
                            Ghost(roads@.subrange(0, i as int)),
                        );
                        if !fits {
                            proof {
                                lemma_overflow_witness(
                                    g,
                                    from_node_id,
                                    trucks,
                                    distances@,
                                    heap@,
                                    done,
                                    position,
                                    cost as int,
                                    roads@.subrange(0, i as int),
                                    e,
                                );
                                lemma_overflow_breaks_fit(g, from_node_id, trucks);
                            }
                            return Err(SearchError::DistanceOverflow);
                        }
                        proof {
                            assert(roads@.subrange(0, i as int).push(e) =~= roads@.subrange(
                                0,
                                i + 1 as int,
                            ));
                        }
                        i = i + 1;
                    }
                    proof {
                        assert(roads@.subrange(0, roads@.len() as int) =~= roads@);
                        lemma_finish_expansion(
                            g,
                            from_node_id,
                            trucks,
                            distances@,
                            heap@,
                            done,
                            position,
                            cost as int,
                            roads@,
                        );
                        assert(g.dom().contains(position));
                        assert(g.dom().difference(done.insert(position)) =~= g.dom().difference(
                            done,
                        ).remove(position));
                    }
                },
                None => {
                    proof {
                        assert(adjacency(g, position) =~= Seq::<Edge>::empty());
                        lemma_finish_expansion(
                            g,
                            from_node_id,
                            trucks,
                            distances@,
                            heap@,
                            done,
                            position,
                            cost as int,
                            Seq::empty(),
                        );
                        assert(g.dom().difference(done.insert(position)) =~= g.dom().difference(
                            done,
                        ));
                    }
                },
            }
            proof {
                done = done.insert(position);
                level = cost as int;
            }
        }
    }
}

impl Clone for Graph {
    fn clone(&self) -> (copy: Self)
        ensures
            copy.nodes@ == self.nodes@,
            copy.roads() == self.roads(),
    {
        Graph { nodes: self.nodes.clone(), edges: edge_table_clone(&self.edges) }
    }
}

} // verus!
