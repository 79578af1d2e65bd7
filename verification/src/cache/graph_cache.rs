use vstd::prelude::*;
use crate::cache::node_cache::AREA_COUNT;
use crate::models::graph::{Edge, Graph, Node, lemma_with_weight_keeps_crossings, with_weight};

verus! {

/// A whole road graph for each area; area `a` (from 1) sits at `store[a - 1]`.
pub struct GraphCache {
    store: [Graph; 7],
}

impl GraphCache {
    /// Every cached graph knows finitely many crossings with roads.
    #[verifier::type_invariant]
    spec fn graphs_wf(&self) -> bool {
        forall|a: int| 1 <= a <= 7 ==> #[trigger] self.store@[a - 1].wf()
    }

    /// The graph cached for `area_id`.
    pub closed spec fn area(&self, area_id: int) -> Graph {
        self.store@[area_id - 1]
    }

    pub fn new() -> (cache: Self)
        ensures
            forall|a: int|
                1 <= a <= 7 ==> (#[trigger] cache.area(a)).nodes@ == Map::<i32, Node>::empty()
                    && cache.area(a).roads() == Map::<i32, Seq<Edge>>::empty()
                    && cache.area(a).wf(),
    {
        GraphCache {
            store: [
                Graph::new(),
                Graph::new(),
                Graph::new(),
                Graph::new(),
                Graph::new(),
                Graph::new(),
                Graph::new(),
            ],
        }
    }

    /// Gives every road between the two crossings of the graph of `area_id`,
    /// both ways, the new weight.
    pub fn update_edge_weight(&mut self, area_id: usize, node_a_id: i32, node_b_id: i32, weight: i32)
        requires
            1 <= area_id <= AREA_COUNT,
        ensures
            final(self).area(area_id as int).nodes@ == old(self).area(area_id as int).nodes@,
            final(self).area(area_id as int).roads() == with_weight(
                old(self).area(area_id as int).roads(),
                node_a_id,
                node_b_id,
                weight,
            ),
            forall|a: int| 1 <= a <= 7 && a != area_id ==> #[trigger] final(self).area(a) == old(
                self,
            ).area(a),
    {
        proof {
            use_type_invariant(&*self);
        }
        let ghost before = self.store;
        assert(forall|a: int| 1 <= a <= 7 ==> #[trigger] before@[a - 1].wf());
        let mut graphs = [
            Graph::new(),
            Graph::new(),
            Graph::new(),
            Graph::new(),
            Graph::new(),
            Graph::new(),
            Graph::new(),
        ];
        std::mem::swap(&mut graphs, &mut self.store);
        proof {
            lemma_with_weight_keeps_crossings(
                before@[area_id - 1].roads(),
                node_a_id,
                node_b_id,
                weight,
            );
        }
        graphs[area_id - 1].update_edge_weight(node_a_id, node_b_id, weight);
        proof {
            assert(graphs@[area_id - 1].roads().dom() == before@[area_id - 1].roads().dom());
            assert forall|a: int| 1 <= a <= 7 implies #[trigger] graphs@[a - 1].wf() by {
                assert(before@[a - 1].wf());
                if a != area_id {
                    assert(graphs@[a - 1] == before@[a - 1]);
                }
            }
        }
        self.store = graphs;
    }

    /// A separate copy of the graph cached for `area_id`.
    pub fn get_graph(&self, area_id: usize) -> (graph: Graph)
        requires
            1 <= area_id <= AREA_COUNT,
        ensures
            graph.nodes@ == self.area(area_id as int).nodes@,
            graph.roads() == self.area(area_id as int).roads(),
            graph.wf(),
    {
        proof {
            use_type_invariant(self);
            assert(self.store@[area_id as int - 1].wf());
        }
        self.store[area_id - 1].clone()
    }

    /// Replaces every cached graph at once: area `a` gets `graphs[a - 1]`.
    pub fn replace_all(&mut self, graphs: [Graph; 7])
        requires
            forall|a: int| 1 <= a <= 7 ==> #[trigger] graphs@[a - 1].wf(),
        ensures
            forall|a: int| 1 <= a <= 7 ==> #[trigger] final(self).area(a) == graphs@[a - 1],
    {
        self.store = graphs;
    }
}

} // verus!
