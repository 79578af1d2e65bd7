//! Walks through an adjacency table, their costs, and what "the nearest tow
//! truck" means in terms of them.
use vstd::prelude::*;
use crate::models::graph::Edge;
use crate::models::tow_truck::TowTruck;

verus! {

/// The roads leaving `u`; a node the table does not know has none.
pub open spec fn adjacency(g: Map<i32, Seq<Edge>>, u: i32) -> Seq<Edge> {
    if g.contains_key(u) {
        g[u]
    } else {
        Seq::empty()
    }
}

/// The node that step `i` of walk `w` leaves from.
pub open spec fn step_source(from: i32, w: Seq<Edge>, i: int) -> i32 {
    if i == 0 {
        from
    } else {
        w[i - 1].node_b_id
    }
}

/// Where walk `w` from `from` ends.
pub open spec fn walk_end(from: i32, w: Seq<Edge>) -> i32 {
    if w.len() == 0 {
        from
    } else {
        w.last().node_b_id
    }
}

/// `w` is a walk from `from`: each step is one of the roads listed under the
/// node that the previous step arrived at.
pub open spec fn is_walk(g: Map<i32, Seq<Edge>>, from: i32, w: Seq<Edge>) -> bool {
    forall|i: int| 0 <= i < w.len() ==> adjacency(g, step_source(from, w, i)).contains(#[trigger] w[i])
}

/// `w` is a walk from `from` to `to`.
pub open spec fn walk_to(g: Map<i32, Seq<Edge>>, from: i32, to: i32, w: Seq<Edge>) -> bool {
    is_walk(g, from, w) && walk_end(from, w) == to
}

/// The sum of the weights of the steps of `w`.
pub open spec fn walk_cost(w: Seq<Edge>) -> int
    decreases w.len(),
{
    if w.len() == 0 {
        0
    } else {
        walk_cost(w.drop_last()) + w.last().weight
    }
}

/// Some walk from `from` to `to` costs exactly `c`.
pub open spec fn has_walk_of_cost(g: Map<i32, Seq<Edge>>, from: i32, to: i32, c: int) -> bool {
    exists|w: Seq<Edge>| walk_to(g, from, to, w) && walk_cost(w) == c
}

/// Some walk from `from` reaches `u`.
pub open spec fn reaches(g: Map<i32, Seq<Edge>>, from: i32, u: i32) -> bool {
    exists|w: Seq<Edge>| walk_to(g, from, u, w)
}

/// No road leaving a crossing that `from` reaches has a negative weight.
pub open spec fn reachable_weights_nonnegative(g: Map<i32, Seq<Edge>>, from: i32) -> bool {
    forall|u: i32, e: Edge|
        #[trigger] adjacency(g, u).contains(e) && reaches(g, from, u) ==> e.weight >= 0
}

/// Every road weighs more than 0.
pub open spec fn weights_positive(g: Map<i32, Seq<Edge>>) -> bool {
    forall|u: i32, e: Edge| #[trigger] adjacency(g, u).contains(e) ==> e.weight > 0
}

/// `w` is a walk from `from` and no walk to the same node costs less.
pub open spec fn is_shortest_walk(g: Map<i32, Seq<Edge>>, from: i32, w: Seq<Edge>) -> bool {
    &&& is_walk(g, from, w)
    &&& forall|w2: Seq<Edge>| #[trigger]
        walk_to(g, from, walk_end(from, w), w2) ==> walk_cost(w) <= walk_cost(w2)
}

/// Extending a shortest walk from `from` by any one road costs at most
/// `i32::MAX`: every tentative distance that the search computes fits in an
/// `i32`.
pub open spec fn relaxations_fit(g: Map<i32, Seq<Edge>>, from: i32) -> bool {
    forall|w: Seq<Edge>, e: Edge|
        #[trigger] is_shortest_walk(g, from, w) && #[trigger] adjacency(g, walk_end(from, w)).contains(e)
            ==> walk_cost(w) + e.weight <= i32::MAX
}

/// The search gets to a crossing no farther than any truck, along a shortest
/// walk, and one road out of it makes a distance beyond `i32::MAX`.
pub open spec fn overflows_before_trucks(
    g: Map<i32, Seq<Edge>>,
    from: i32,
    trucks: Seq<TowTruck>,
) -> bool {
    exists|w: Seq<Edge>, e: Edge|
        {
            &&& #[trigger] is_shortest_walk(g, from, w)
            &&& #[trigger] adjacency(g, walk_end(from, w)).contains(e)
            &&& walk_cost(w) + e.weight > i32::MAX
            &&& forall|j: int, w2: Seq<Edge>|
                0 <= j < trucks.len() && #[trigger] walk_to(g, from, trucks[j].node_id, w2)
                    ==> walk_cost(w) <= walk_cost(w2)
        }
}

/// Truck `i` stands at a node that some walk reaches, no walk to any truck's
/// node costs less than that walk, and no earlier truck stands at the same
/// node. Where every road weighs more than 0, no truck equally near stands
/// at a crossing with a higher id.
pub open spec fn is_nearest_truck(
    g: Map<i32, Seq<Edge>>,
    from: i32,
    trucks: Seq<TowTruck>,
    i: int,
) -> bool {
    &&& 0 <= i < trucks.len()
    &&& forall|j: int| 0 <= j < i ==> trucks[j].node_id != trucks[i].node_id
    &&& exists|w: Seq<Edge>|
        {
            &&& walk_to(g, from, trucks[i].node_id, w)
            &&& walk_cost(w) < i32::MAX
            &&& forall|j: int, w2: Seq<Edge>|
                0 <= j < trucks.len() && #[trigger] walk_to(g, from, trucks[j].node_id, w2)
                    ==> walk_cost(w) <= walk_cost(w2)
            &&& weights_positive(g) ==> forall|j: int, w2: Seq<Edge>|
                0 <= j < trucks.len() && #[trigger] walk_to(g, from, trucks[j].node_id, w2)
                    && walk_cost(w2) == walk_cost(w) ==> trucks[j].node_id <= trucks[i].node_id
        }
}

/// No walk from `from` reaches the node of any truck for less than
/// `i32::MAX` (a distance the search cannot record).
pub open spec fn no_truck_in_range(g: Map<i32, Seq<Edge>>, from: i32, trucks: Seq<TowTruck>) -> bool {
    forall|j: int, w: Seq<Edge>|
        0 <= j < trucks.len() && #[trigger] walk_to(g, from, trucks[j].node_id, w) ==> walk_cost(w)
            >= i32::MAX
}

/// What a search for the nearest truck may answer: the nearest truck, or
/// nothing exactly when no truck can be reached for less than `i32::MAX`.
pub open spec fn nearest_truck_answer(
    g: Map<i32, Seq<Edge>>,
    from: i32,
    trucks: Seq<TowTruck>,
    answer: Option<TowTruck>,
) -> bool {
    match answer {
        None => no_truck_in_range(g, from, trucks),
        Some(t) => exists|i: int| is_nearest_truck(g, from, trucks, i) && trucks[i] == t,
    }
}

pub proof fn lemma_walk_cost_push(w: Seq<Edge>, e: Edge)
    ensures
        walk_cost(w.push(e)) == walk_cost(w) + e.weight,
{
    assert(w.push(e).drop_last() =~= w);
}

pub proof fn lemma_walk_push(g: Map<i32, Seq<Edge>>, from: i32, w: Seq<Edge>, e: Edge)
    requires
        is_walk(g, from, w),
        adjacency(g, walk_end(from, w)).contains(e),
    ensures
        is_walk(g, from, w.push(e)),
        walk_end(from, w.push(e)) == e.node_b_id,
        walk_cost(w.push(e)) == walk_cost(w) + e.weight,
{
    lemma_walk_cost_push(w, e);
    let w2 = w.push(e);
    assert forall|i: int| 0 <= i < w2.len() implies adjacency(g, step_source(from, w2, i)).contains(
        #[trigger] w2[i],
    ) by {
        if i < w.len() {
            assert(w[i] == w2[i]);
            assert(step_source(from, w2, i) == step_source(from, w, i));
        }
    }
}

pub proof fn lemma_walk_drop_last(g: Map<i32, Seq<Edge>>, from: i32, w: Seq<Edge>)
    requires
        is_walk(g, from, w),
        w.len() > 0,
    ensures
        is_walk(g, from, w.drop_last()),
        adjacency(g, walk_end(from, w.drop_last())).contains(w.last()),
        w.drop_last().push(w.last()) == w,
{
    let w1 = w.drop_last();
    assert forall|i: int| 0 <= i < w1.len() implies adjacency(g, step_source(from, w1, i)).contains(
        #[trigger] w1[i],
    ) by {
        assert(w[i] == w1[i]);
        assert(step_source(from, w1, i) == step_source(from, w, i));
    }
    assert(w[w.len() - 1] == w.last());
    assert(step_source(from, w, w.len() - 1) == walk_end(from, w1));
    assert(w1.push(w.last()) =~= w);
}

/// An overflow before the trucks contradicts `relaxations_fit`.
pub proof fn lemma_overflow_breaks_fit(g: Map<i32, Seq<Edge>>, from: i32, trucks: Seq<TowTruck>)
    requires
        overflows_before_trucks(g, from, trucks),
    ensures
        !relaxations_fit(g, from),
{
    let (w, e) = choose|w: Seq<Edge>, e: Edge|
        {
            &&& #[trigger] is_shortest_walk(g, from, w)
            &&& #[trigger] adjacency(g, walk_end(from, w)).contains(e)
            &&& walk_cost(w) + e.weight > i32::MAX
            &&& forall|j: int, w2: Seq<Edge>|
                0 <= j < trucks.len() && #[trigger] walk_to(g, from, trucks[j].node_id, w2)
                    ==> walk_cost(w) <= walk_cost(w2)
        };
    assert(is_shortest_walk(g, from, w) && adjacency(g, walk_end(from, w)).contains(e));
}

} // verus!
