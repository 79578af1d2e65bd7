use vstd::prelude::*;
use std::collections::HashMap;
use crate::models::graph::{Node, nodes_added};
use crate::models::laws::{has_id, law_nodes_added_ids, law_nodes_added_last_wins};

verus! {

broadcast use vstd::std_specs::hash::group_hash_axioms;

/// How many areas the caches keep apart.
pub const AREA_COUNT: usize = 7;

/// Keys crossings by their id; of two crossings with one id the later wins.
pub fn nodes_by_id(nodes: Vec<Node>) -> (by_id: HashMap<i32, Node>)
    ensures
        by_id@ == nodes_added(Map::empty(), nodes@),
        forall|k: i32|
            #[trigger] by_id@.contains_key(k) <==> exists|i: int|
                0 <= i < nodes.len() && #[trigger] has_id(nodes@[i], k),
        forall|i: int|
            0 <= i < nodes.len() && (forall|j: int|
                i < j < nodes.len() ==> !#[trigger] has_id(nodes@[j], nodes@[i].id)) ==> by_id@.contains_key(
                nodes@[i].id,
            ) && by_id@[nodes@[i].id] == nodes@[i],
{
    let mut by_id: HashMap<i32, Node> = HashMap::new();
    let mut i: usize = 0;
    while i < nodes.len()
        invariant
            i <= nodes.len(),
            by_id@ == nodes_added(Map::empty(), nodes@.subrange(0, i as int)),
        decreases nodes.len() - i,
    {
        let node = nodes[i];
        by_id.insert(node.id, node);
        proof {
            let s = nodes@.subrange(0, i + 1 as int);
            assert(s.drop_last() =~= nodes@.subrange(0, i as int));
            assert(s.last() == node);
        }
        i = i + 1;
    }
    proof {
        assert(nodes@.subrange(0, nodes@.len() as int) =~= nodes@);
        assert forall|k: i32|
            #[trigger] by_id@.contains_key(k) <==> exists|i: int|
                0 <= i < nodes.len() && #[trigger] has_id(nodes@[i], k) by {
            law_nodes_added_ids(Map::empty(), nodes@, k);
        }
        assert forall|i: int|
            0 <= i < nodes.len() && (forall|j: int|
                i < j < nodes.len() ==> !#[trigger] has_id(nodes@[j], nodes@[i].id)) implies by_id@.contains_key(
                nodes@[i].id,
            ) && by_id@[nodes@[i].id] == nodes@[i] by {
            law_nodes_added_last_wins(Map::empty(), nodes@, i);
        }
    }
    by_id
}

/// The crossings of each area, by id; area `a` (from 1) sits at `store[a - 1]`.
pub struct NodeCache {
    pub store: [HashMap<i32, Node>; 7],
}

impl NodeCache {
    /// The crossings cached for `area_id`.
    pub open spec fn area(&self, area_id: int) -> Map<i32, Node> {
        self.store@[area_id - 1]@
    }

    pub fn new() -> (cache: Self)
        ensures
            forall|a: int| 1 <= a <= 7 ==> #[trigger] cache.area(a) == Map::<i32, Node>::empty(),
    {
        NodeCache {
            store: [
                HashMap::new(),
                HashMap::new(),
                HashMap::new(),
                HashMap::new(),
                HashMap::new(),
                HashMap::new(),
                HashMap::new(),
            ],
        }
    }

    /// A copy of the crossings cached for `area_id`.
    pub fn get_nodes(&self, area_id: usize) -> (nodes: HashMap<i32, Node>)
        requires
            1 <= area_id <= AREA_COUNT,
        ensures
            nodes@ == self.area(area_id as int),
    {
        self.store[area_id - 1].clone()
    }

    /// Replaces the crossings cached for `area_id`.
    pub fn set_nodes(&mut self, area_id: usize, nodes: HashMap<i32, Node>)
        requires
            1 <= area_id <= AREA_COUNT,
        ensures
            final(self).area(area_id as int) == nodes@,
            forall|a: int| 1 <= a <= 7 && a != area_id ==> #[trigger] final(self).area(a) == old(
                self,
            ).area(a),
    {
        self.store[area_id - 1] = nodes;
    }
}

} // verus!
