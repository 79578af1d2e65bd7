//! What the graph operations keep true across calls.
use vstd::prelude::*;
use vstd::multiset::Multiset;
use crate::models::graph::{
    Edge, Node, nodes_added, push_road, reversed, reweigh_list, reweighed, roads_added, with_road,
    with_weight,
};
use crate::models::paths::{adjacency, is_nearest_truck, nearest_truck_answer, no_truck_in_range, walk_to};
use crate::models::tow_truck::TowTruck;

verus! {

/// The weights of the roads in `s` that lead to `b`, counted with multiplicity.
pub open spec fn weights_to(s: Seq<Edge>, b: i32) -> Multiset<i32>
    decreases s.len(),
{
    if s.len() == 0 {
        Multiset::empty()
    } else if s.last().node_b_id == b {
        weights_to(s.drop_last(), b).insert(s.last().weight)
    } else {
        weights_to(s.drop_last(), b)
    }
}

/// The roads run both ways alike: for any two crossings, the roads from the
/// first to the second have the same weights, as often, as those back.
pub open spec fn undirected(g: Map<i32, Seq<Edge>>) -> bool {
    forall|a: i32, b: i32|
        #[trigger] weights_to(adjacency(g, a), b) == weights_to(adjacency(g, b), a)
}

/// `n` copies of `w`.
pub open spec fn copies(w: i32, n: nat) -> Multiset<i32>
    decreases n,
{
    if n == 0 {
        Multiset::empty()
    } else {
        copies(w, (n - 1) as nat).insert(w)
    }
}

proof fn lemma_weights_to_push(s: Seq<Edge>, e: Edge, b: i32)
    ensures
        weights_to(s.push(e), b) == if e.node_b_id == b {
            weights_to(s, b).insert(e.weight)
        } else {
            weights_to(s, b)
        },
{
    assert(s.push(e).drop_last() =~= s);
}

proof fn lemma_reweighed_drop_last(s: Seq<Edge>, t: i32, w: i32)
    requires
        s.len() > 0,
    ensures
        reweighed(s, t, w).drop_last() == reweighed(s.drop_last(), t, w),
        reweighed(s, t, w).last() == (if s.last().node_b_id == t {
            Edge { node_a_id: s.last().node_a_id, node_b_id: s.last().node_b_id, weight: w }
        } else {
            s.last()
        }),
{
    assert(reweighed(s, t, w).drop_last() =~= reweighed(s.drop_last(), t, w));
}

proof fn lemma_weights_to_reweighed(s: Seq<Edge>, t: i32, w: i32, b: i32)
    ensures
        weights_to(reweighed(s, t, w), b) == if b == t {
            copies(w, weights_to(s, t).len())
        } else {
            weights_to(s, b)
        },
    decreases s.len(),
{
    if s.len() > 0 {
        lemma_reweighed_drop_last(s, t, w);
        lemma_weights_to_reweighed(s.drop_last(), t, w, b);
        assert(reweighed(s, t, w).len() > 0);
        if s.last().node_b_id == t {
            assert(weights_to(s, t).len() == weights_to(s.drop_last(), t).len() + 1);
        }
    } else {
        assert(reweighed(s, t, w) =~= Seq::<Edge>::empty());
    }
}

proof fn lemma_reweighed_twice(s: Seq<Edge>, t: i32, w1: i32, w2: i32)
    ensures
        reweighed(reweighed(s, t, w1), t, w2) == reweighed(s, t, w2),
{
    assert(reweighed(reweighed(s, t, w1), t, w2) =~= reweighed(s, t, w2));
}

proof fn lemma_adjacency_reweigh_list(g: Map<i32, Seq<Edge>>, k: i32, t: i32, w: i32, x: i32)
    ensures
        adjacency(reweigh_list(g, k, t, w), x) == if x == k {
            reweighed(adjacency(g, k), t, w)
        } else {
            adjacency(g, x)
        },
        reweigh_list(g, k, t, w).dom() == g.dom(),
{
    assert(reweigh_list(g, k, t, w).dom() =~= g.dom());
    if !g.contains_key(k) {
        assert(reweighed(Seq::<Edge>::empty(), t, w) =~= Seq::<Edge>::empty());
    }
}

proof fn lemma_adjacency_push_road(g: Map<i32, Seq<Edge>>, e: Edge, x: i32)
    ensures
        adjacency(push_road(g, e), x) == if x == e.node_a_id {
            adjacency(g, x).push(e)
        } else {
            adjacency(g, x)
        },
{
}

/// The empty table is undirected.
pub proof fn law_empty_undirected()
    ensures
        undirected(Map::<i32, Seq<Edge>>::empty()),
{
    assert forall|a: i32, b: i32| #[trigger]
        weights_to(adjacency(Map::<i32, Seq<Edge>>::empty(), a), b) == weights_to(
            adjacency(Map::<i32, Seq<Edge>>::empty(), b),
            a,
        ) by {}
}

/// Adding a road in both directions (`Graph::add_edge`, `add_road`) keeps
/// the roads undirected.
pub proof fn law_add_road_keeps_undirected(g: Map<i32, Seq<Edge>>, e: Edge)
    requires
        undirected(g),
    ensures
        undirected(with_road(g, e)),
{
    let g1 = push_road(g, e);
    let r = reversed(e);
    let g2 = push_road(g1, r);
    assert forall|x: i32, y: i32| #[trigger]
        weights_to(adjacency(g2, x), y) == weights_to(adjacency(g2, y), x) by {
        assert(weights_to(adjacency(g, x), y) == weights_to(adjacency(g, y), x));
        lemma_adjacency_push_road(g, e, x);
        lemma_adjacency_push_road(g, e, y);
        lemma_adjacency_push_road(g1, r, x);
        lemma_adjacency_push_road(g1, r, y);
        if x == e.node_a_id {
            lemma_weights_to_push(adjacency(g, x), e, y);
        }
        if y == e.node_a_id {
            lemma_weights_to_push(adjacency(g, y), e, x);
        }
        if x == r.node_a_id {
            lemma_weights_to_push(adjacency(g1, x), r, y);
        }
        if y == r.node_a_id {
            lemma_weights_to_push(adjacency(g1, y), r, x);
        }
    }
}

/// Adding roads in bulk (`Graph::add_edges`, `road_table`) keeps the roads
/// undirected.
pub proof fn law_add_roads_keeps_undirected(g: Map<i32, Seq<Edge>>, edges: Seq<Edge>)
    requires
        undirected(g),
    ensures
        undirected(roads_added(g, edges)),
    decreases edges.len(),
{
    if edges.len() > 0 {
        law_add_roads_keeps_undirected(g, edges.drop_last());
        law_add_road_keeps_undirected(roads_added(g, edges.drop_last()), edges.last());
    }
}

/// Setting the weight of the roads between two crossings
/// (`update_edge_weight` of a graph or a cache) keeps the roads undirected.
pub proof fn law_weight_update_keeps_undirected(g: Map<i32, Seq<Edge>>, a: i32, b: i32, w: i32)
    requires
        undirected(g),
    ensures
        undirected(with_weight(g, a, b, w)),
{
    let g1 = reweigh_list(g, a, b, w);
    let g2 = reweigh_list(g1, b, a, w);
    assert forall|x: i32, y: i32| #[trigger]
        weights_to(adjacency(g2, x), y) == weights_to(adjacency(g2, y), x) by {
        assert(weights_to(adjacency(g, x), y) == weights_to(adjacency(g, y), x));
        lemma_adjacency_reweigh_list(g, a, b, w, x);
        lemma_adjacency_reweigh_list(g, a, b, w, y);
        lemma_adjacency_reweigh_list(g1, b, a, w, x);
        lemma_adjacency_reweigh_list(g1, b, a, w, y);
        if a == b {
            lemma_reweighed_twice(adjacency(g, a), a, w, w);
        }
        // after both steps, the list of x is that of g reweighed toward the
        // partner(s) of x
        assert(adjacency(g2, x) == if x == a && x == b {
            reweighed(adjacency(g, x), a, w)
        } else if x == a {
            reweighed(adjacency(g, x), b, w)
        } else if x == b {
            reweighed(adjacency(g, x), a, w)
        } else {
            adjacency(g, x)
        });
        assert(adjacency(g2, y) == if y == a && y == b {
            reweighed(adjacency(g, y), a, w)
        } else if y == a {
            reweighed(adjacency(g, y), b, w)
        } else if y == b {
            reweighed(adjacency(g, y), a, w)
        } else {
            adjacency(g, y)
        });
        if x == a && x == b {
            lemma_weights_to_reweighed(adjacency(g, x), a, w, y);
        } else if x == a {
            lemma_weights_to_reweighed(adjacency(g, x), b, w, y);
        } else if x == b {
            lemma_weights_to_reweighed(adjacency(g, x), a, w, y);
        }
        if y == a && y == b {
            lemma_weights_to_reweighed(adjacency(g, y), a, w, x);
        } else if y == a {
            lemma_weights_to_reweighed(adjacency(g, y), b, w, x);
        } else if y == b {
            lemma_weights_to_reweighed(adjacency(g, y), a, w, x);
        }
    }
}

/// Of two weight updates of the same pair of crossings, the later one wins.
pub proof fn law_weight_update_last_wins(g: Map<i32, Seq<Edge>>, a: i32, b: i32, w1: i32, w2: i32)
    ensures
        with_weight(with_weight(g, a, b, w1), a, b, w2) == with_weight(g, a, b, w2),
{
    let lhs = with_weight(with_weight(g, a, b, w1), a, b, w2);
    let rhs = with_weight(g, a, b, w2);
    let h1 = reweigh_list(g, a, b, w1);
    let h2 = reweigh_list(h1, b, a, w1);
    let h3 = reweigh_list(h2, a, b, w2);
    let k1 = reweigh_list(g, a, b, w2);
    assert forall|x: i32| #[trigger] lhs.contains_key(x) <==> rhs.contains_key(x) by {
        lemma_adjacency_reweigh_list(g, a, b, w1, x);
        lemma_adjacency_reweigh_list(h1, b, a, w1, x);
        lemma_adjacency_reweigh_list(h2, a, b, w2, x);
        lemma_adjacency_reweigh_list(h3, b, a, w2, x);
        lemma_adjacency_reweigh_list(g, a, b, w2, x);
        lemma_adjacency_reweigh_list(k1, b, a, w2, x);
    }
    assert forall|x: i32| lhs.contains_key(x) implies #[trigger] lhs[x] == rhs[x] by {
        lemma_adjacency_reweigh_list(g, a, b, w1, x);
        lemma_adjacency_reweigh_list(h1, b, a, w1, x);
        lemma_adjacency_reweigh_list(h2, a, b, w2, x);
        lemma_adjacency_reweigh_list(h3, b, a, w2, x);
        lemma_adjacency_reweigh_list(g, a, b, w2, x);
        lemma_adjacency_reweigh_list(k1, b, a, w2, x);
        let s = adjacency(g, x);
        lemma_reweighed_twice(s, a, w1, w2);
        lemma_reweighed_twice(s, b, w1, w2);
        lemma_reweighed_twice(reweighed(s, b, w1), a, w1, w2);
        lemma_reweighed_twice(reweighed(s, a, w1), b, w1, w2);
        lemma_reweighed_twice(s, a, w2, w2);
        if a != b {
            lemma_reweighed_commute(s, a, b, w1, w2);
            lemma_reweighed_commute(s, a, b, w2, w2);
            lemma_reweighed_commute(s, b, a, w1, w2);
        }
        assert(adjacency(lhs, x) == adjacency(rhs, x));
    }
    assert(lhs =~= rhs);
}

proof fn lemma_reweighed_commute(s: Seq<Edge>, a: i32, b: i32, w1: i32, w2: i32)
    requires
        a != b,
    ensures
        reweighed(reweighed(s, a, w1), b, w2) == reweighed(reweighed(s, b, w2), a, w1),
{
    assert(reweighed(reweighed(s, a, w1), b, w2) =~= reweighed(reweighed(s, b, w2), a, w1));
}


/// How often road `e` occurs in `s`.
pub open spec fn occurrences(s: Seq<Edge>, e: Edge) -> nat
    decreases s.len(),
{
    if s.len() == 0 {
        0
    } else if s.last() == e {
        occurrences(s.drop_last(), e) + 1
    } else {
        occurrences(s.drop_last(), e)
    }
}

/// Every stored road sits under its own first crossing.
pub open spec fn keyed_by_source(g: Map<i32, Seq<Edge>>) -> bool {
    forall|k: i32, e: Edge| #[trigger] adjacency(g, k).contains(e) ==> e.node_a_id == k
}

/// Every stored road sits under its own first crossing, and a road from `a`
/// to `b` of weight `w` occurs under `a` as often as the road from `b` to `a`
/// of weight `w` occurs under `b`.
pub open spec fn roads_consistent(g: Map<i32, Seq<Edge>>) -> bool {
    &&& keyed_by_source(g)
    &&& forall|a: i32, b: i32, w: i32|
        #[trigger] occurrences(adjacency(g, a), Edge { node_a_id: a, node_b_id: b, weight: w })
            == occurrences(adjacency(g, b), Edge { node_a_id: b, node_b_id: a, weight: w })
}

proof fn lemma_occurrences_as_weights(s: Seq<Edge>, a: i32, b: i32, w: i32)
    requires
        forall|i: int| 0 <= i < s.len() ==> (#[trigger] s[i]).node_a_id == a,
    ensures
        occurrences(s, Edge { node_a_id: a, node_b_id: b, weight: w }) == weights_to(s, b).count(w),
    decreases s.len(),
{
    if s.len() > 0 {
        let init = s.drop_last();
        assert forall|i: int| 0 <= i < init.len() implies (#[trigger] init[i]).node_a_id == a by {
            assert(init[i] == s[i]);
        }
        lemma_occurrences_as_weights(init, a, b, w);
        assert(s[s.len() - 1] == s.last());
    }
}

proof fn lemma_adjacency_keyed(g: Map<i32, Seq<Edge>>, a: i32)
    requires
        keyed_by_source(g),
    ensures
        forall|i: int| 0 <= i < adjacency(g, a).len() ==> (#[trigger] adjacency(g, a)[i]).node_a_id == a,
{
    assert forall|i: int| 0 <= i < adjacency(g, a).len() implies (#[trigger] adjacency(g, a)[i]).node_a_id
        == a by {
        assert(adjacency(g, a).contains(adjacency(g, a)[i]));
    }
}

/// For tables whose roads sit under their own first crossings, the count form
/// and the weight-multiset form of "the roads run both ways alike" agree.
pub proof fn lemma_consistent_iff_undirected(g: Map<i32, Seq<Edge>>)
    requires
        keyed_by_source(g),
    ensures
        roads_consistent(g) <==> undirected(g),
{
    if roads_consistent(g) {
        assert forall|a: i32, b: i32| #[trigger]
            weights_to(adjacency(g, a), b) == weights_to(adjacency(g, b), a) by {
            lemma_adjacency_keyed(g, a);
            lemma_adjacency_keyed(g, b);
            assert forall|w: i32| weights_to(adjacency(g, a), b).count(w) == weights_to(
                adjacency(g, b),
                a,
            ).count(w) by {
                lemma_occurrences_as_weights(adjacency(g, a), a, b, w);
                lemma_occurrences_as_weights(adjacency(g, b), b, a, w);
                assert(occurrences(adjacency(g, a), Edge { node_a_id: a, node_b_id: b, weight: w })
                    == occurrences(adjacency(g, b), Edge { node_a_id: b, node_b_id: a, weight: w }));
            }
            assert(weights_to(adjacency(g, a), b) =~= weights_to(adjacency(g, b), a));
        }
    }
    if undirected(g) {
        assert forall|a: i32, b: i32, w: i32|
            #[trigger] occurrences(adjacency(g, a), Edge { node_a_id: a, node_b_id: b, weight: w })
                == occurrences(adjacency(g, b), Edge { node_a_id: b, node_b_id: a, weight: w }) by {
            lemma_adjacency_keyed(g, a);
            lemma_adjacency_keyed(g, b);
            lemma_occurrences_as_weights(adjacency(g, a), a, b, w);
            lemma_occurrences_as_weights(adjacency(g, b), b, a, w);
            assert(weights_to(adjacency(g, a), b) == weights_to(adjacency(g, b), a));
        }
    }
}

proof fn lemma_add_road_keeps_keyed(g: Map<i32, Seq<Edge>>, e: Edge)
    requires
        keyed_by_source(g),
    ensures
        keyed_by_source(with_road(g, e)),
{
    let g1 = push_road(g, e);
    let r = reversed(e);
    let g2 = push_road(g1, r);
    assert forall|k: i32, x: Edge| #[trigger] adjacency(g1, k).contains(x) implies x.node_a_id == k by {
        lemma_adjacency_push_road(g, e, k);
        if k == e.node_a_id && x != e {
            let i = choose|i: int| 0 <= i < adjacency(g1, k).len() && adjacency(g1, k)[i] == x;
            assert(adjacency(g, k).contains(x)) by {
                assert(adjacency(g, k)[i] == x);
            }
        }
    }
    assert forall|k: i32, x: Edge| #[trigger] adjacency(g2, k).contains(x) implies x.node_a_id == k by {
        lemma_adjacency_push_road(g1, r, k);
        if k == r.node_a_id && x != r {
            let i = choose|i: int| 0 <= i < adjacency(g2, k).len() && adjacency(g2, k)[i] == x;
            assert(adjacency(g1, k).contains(x)) by {
                assert(adjacency(g1, k)[i] == x);
            }
        }
    }
}

proof fn lemma_reweigh_keeps_keyed(g: Map<i32, Seq<Edge>>, k0: i32, t: i32, w: i32)
    requires
        keyed_by_source(g),
    ensures
        keyed_by_source(reweigh_list(g, k0, t, w)),
{
    let g1 = reweigh_list(g, k0, t, w);
    assert forall|k: i32, x: Edge| #[trigger] adjacency(g1, k).contains(x) implies x.node_a_id == k by {
        lemma_adjacency_reweigh_list(g, k0, t, w, k);
        let i = choose|i: int| 0 <= i < adjacency(g1, k).len() && adjacency(g1, k)[i] == x;
        lemma_adjacency_keyed(g, k);
        if k == k0 {
            assert(x.node_a_id == adjacency(g, k)[i].node_a_id);
        } else {
            assert(adjacency(g, k)[i] == x);
        }
    }
}

/// The empty table (`Graph::new`) is consistent.
pub proof fn law_empty_consistent()
    ensures
        roads_consistent(Map::<i32, Seq<Edge>>::empty()),
{
    law_empty_undirected();
    lemma_consistent_iff_undirected(Map::<i32, Seq<Edge>>::empty());
}

/// Adding a road both ways (`Graph::add_edge`, `add_road`) keeps the roads
/// consistent.
pub proof fn law_add_road_keeps_consistent(g: Map<i32, Seq<Edge>>, e: Edge)
    requires
        roads_consistent(g),
    ensures
        roads_consistent(with_road(g, e)),
{
    lemma_consistent_iff_undirected(g);
    law_add_road_keeps_undirected(g, e);
    lemma_add_road_keeps_keyed(g, e);
    lemma_consistent_iff_undirected(with_road(g, e));
}

/// Adding roads in bulk (`Graph::add_edges`, `road_table`) keeps the roads
/// consistent.
pub proof fn law_add_roads_keeps_consistent(g: Map<i32, Seq<Edge>>, edges: Seq<Edge>)
    requires
        roads_consistent(g),
    ensures
        roads_consistent(roads_added(g, edges)),
    decreases edges.len(),
{
    if edges.len() > 0 {
        law_add_roads_keeps_consistent(g, edges.drop_last());
        law_add_road_keeps_consistent(roads_added(g, edges.drop_last()), edges.last());
    }
}

/// Setting the weight of the roads between two crossings
/// (`update_edge_weight` of a graph or a cache) keeps the roads consistent.
pub proof fn law_weight_update_keeps_consistent(g: Map<i32, Seq<Edge>>, a: i32, b: i32, w: i32)
    requires
        roads_consistent(g),
    ensures
        roads_consistent(with_weight(g, a, b, w)),
{
    lemma_consistent_iff_undirected(g);
    law_weight_update_keeps_undirected(g, a, b, w);
    lemma_reweigh_keeps_keyed(g, a, b, w);
    lemma_reweigh_keeps_keyed(reweigh_list(g, a, b, w), b, a, w);
    lemma_consistent_iff_undirected(with_weight(g, a, b, w));
}


/// Adding road `e` both ways puts one more `e` under its first crossing and
/// one more reversed `e` under its second; nothing else changes.
pub proof fn law_add_road_counts(g: Map<i32, Seq<Edge>>, e: Edge, k: i32, x: Edge)
    ensures
        adjacency(with_road(g, e), k).to_multiset().count(x) == adjacency(g, k).to_multiset().count(x)
            + (if x == e && k == e.node_a_id {
            1int
        } else {
            0int
        }) + (if x == reversed(e) && k == e.node_b_id {
            1int
        } else {
            0int
        }),
        with_road(g, e).dom() == g.dom().insert(e.node_a_id).insert(e.node_b_id),
{
    let g1 = push_road(g, e);
    let r = reversed(e);
    lemma_adjacency_push_road(g, e, k);
    lemma_adjacency_push_road(g1, r, k);
    adjacency(g, k).to_multiset_ensures();
    adjacency(g1, k).to_multiset_ensures();
    assert(with_road(g, e).dom() =~= g.dom().insert(e.node_a_id).insert(e.node_b_id));
}

/// Adding `roads` in order, both ways, to any table: under crossing `k`, road
/// `x` then occurs as often as it did before, plus, where `x` leaves `k`, once
/// for each listed road equal to `x` and once for each listed road whose
/// reversal is `x`. The crossings with roads are the old ones and both ends of
/// every listed road.
pub proof fn law_roads_added_counts(g: Map<i32, Seq<Edge>>, roads: Seq<Edge>, k: i32, x: Edge)
    ensures
        adjacency(roads_added(g, roads), k).to_multiset().count(x) == adjacency(g, k).to_multiset().count(
            x,
        ) + (if x.node_a_id == k {
            roads.to_multiset().count(x) + roads.map_values(|e: Edge| reversed(e)).to_multiset().count(
                x,
            )
        } else {
            0
        }),
    decreases roads.len(),
{
    if roads.len() == 0 {
        roads.to_multiset_ensures();
        roads.map_values(|e: Edge| reversed(e)).to_multiset_ensures();
        assert(!roads.contains(x));
        assert(!roads.map_values(|e: Edge| reversed(e)).contains(x));
    } else {
        let init = roads.drop_last();
        let e = roads.last();
        law_roads_added_counts(g, init, k, x);
        law_add_road_counts(roads_added(g, init), e, k, x);
        assert(init.push(e) =~= roads);
        init.to_multiset_ensures();
        let rv = init.map_values(|e: Edge| reversed(e));
        assert(roads.map_values(|e: Edge| reversed(e)) =~= rv.push(reversed(e)));
        rv.to_multiset_ensures();
        if x == e {
            assert(x.node_a_id == e.node_a_id);
        }
        if x == reversed(e) {
            assert(x.node_a_id == e.node_b_id);
        }
    }
}

/// Road `e` has `k` at one of its ends.
pub open spec fn touches(e: Edge, k: i32) -> bool {
    e.node_a_id == k || e.node_b_id == k
}

/// After adding `roads` both ways, the crossings with roads are the old ones
/// and both ends of every listed road.
pub proof fn law_roads_added_crossings(g: Map<i32, Seq<Edge>>, roads: Seq<Edge>, k: i32)
    ensures
        roads_added(g, roads).contains_key(k) <==> g.contains_key(k) || exists|i: int|
            0 <= i < roads.len() && #[trigger] touches(roads[i], k),
    decreases roads.len(),
{
    if roads.len() > 0 {
        let init = roads.drop_last();
        let e = roads.last();
        law_roads_added_crossings(g, init, k);
        assert(with_road(roads_added(g, init), e).dom() =~= roads_added(g, init).dom().insert(
            e.node_a_id,
        ).insert(e.node_b_id));
        assert(roads[roads.len() - 1] == e);
        assert(roads_added(g, roads) == with_road(roads_added(g, init), e));
        if touches(e, k) {
            assert(touches(roads[roads.len() - 1], k));
        }
        if exists|i: int| 0 <= i < init.len() && #[trigger] touches(init[i], k) {
            let i = choose|i: int| 0 <= i < init.len() && #[trigger] touches(init[i], k);
            assert(roads[i] == init[i]);
        }
        if exists|i: int| 0 <= i < roads.len() && #[trigger] touches(roads[i], k) {
            let i = choose|i: int| 0 <= i < roads.len() && #[trigger] touches(roads[i], k);
            if i < init.len() {
                assert(init[i] == roads[i]);
                assert(touches(init[i], k));
            }
        }
    }
}

/// Crossing `n` has id `k`.
pub open spec fn has_id(n: Node, k: i32) -> bool {
    n.id == k
}

/// Recording `nodes` in order under their ids records exactly the ids of `m`
/// and of the listed crossings.
pub proof fn law_nodes_added_ids(m: Map<i32, Node>, nodes: Seq<Node>, k: i32)
    ensures
        nodes_added(m, nodes).contains_key(k) <==> m.contains_key(k) || exists|i: int|
            0 <= i < nodes.len() && #[trigger] has_id(nodes[i], k),
    decreases nodes.len(),
{
    if nodes.len() > 0 {
        let init = nodes.drop_last();
        let n = nodes.last();
        law_nodes_added_ids(m, init, k);
        assert(nodes_added(m, nodes) == nodes_added(m, init).insert(n.id, n));
        assert(nodes[nodes.len() - 1] == n);
        if has_id(n, k) {
            assert(has_id(nodes[nodes.len() - 1], k));
        }
        if exists|i: int| 0 <= i < init.len() && #[trigger] has_id(init[i], k) {
            let i = choose|i: int| 0 <= i < init.len() && #[trigger] has_id(init[i], k);
            assert(nodes[i] == init[i]);
        }
        if exists|i: int| 0 <= i < nodes.len() && #[trigger] has_id(nodes[i], k) {
            let i = choose|i: int| 0 <= i < nodes.len() && #[trigger] has_id(nodes[i], k);
            if i < init.len() {
                assert(init[i] == nodes[i]);
                assert(has_id(init[i], k));
            }
        }
    }
}

/// A listed crossing that no later listed crossing shares an id with is what
/// its id ends up recorded as.
pub proof fn law_nodes_added_last_wins(m: Map<i32, Node>, nodes: Seq<Node>, i: int)
    requires
        0 <= i < nodes.len(),
        forall|j: int| i < j < nodes.len() ==> !#[trigger] has_id(nodes[j], nodes[i].id),
    ensures
        nodes_added(m, nodes).contains_key(nodes[i].id),
        nodes_added(m, nodes)[nodes[i].id] == nodes[i],
    decreases nodes.len(),
{
    let init = nodes.drop_last();
    let n = nodes.last();
    assert(nodes_added(m, nodes) == nodes_added(m, init).insert(n.id, n));
    assert(nodes[nodes.len() - 1] == n);
    if i < nodes.len() - 1 {
        assert(!has_id(nodes[nodes.len() - 1], nodes[i].id));
        assert(init[i] == nodes[i]);
        assert forall|j: int| i < j < init.len() implies !#[trigger] has_id(init[j], init[i].id) by {
            assert(init[j] == nodes[j]);
            assert(!has_id(nodes[j], nodes[i].id));
        }
        law_nodes_added_last_wins(m, init, i);
    }
}

/// An id that no listed crossing has keeps what `m` recorded under it.
pub proof fn law_nodes_added_unlisted(m: Map<i32, Node>, nodes: Seq<Node>, k: i32)
    requires
        forall|i: int| 0 <= i < nodes.len() ==> !#[trigger] has_id(nodes[i], k),
        m.contains_key(k),
    ensures
        nodes_added(m, nodes).contains_key(k),
        nodes_added(m, nodes)[k] == m[k],
    decreases nodes.len(),
{
    if nodes.len() > 0 {
        let init = nodes.drop_last();
        let n = nodes.last();
        assert(nodes_added(m, nodes) == nodes_added(m, init).insert(n.id, n));
        assert(nodes[nodes.len() - 1] == n);
        assert(!has_id(nodes[nodes.len() - 1], k));
        assert forall|i: int| 0 <= i < init.len() implies !#[trigger] has_id(init[i], k) by {
            assert(init[i] == nodes[i]);
        }
        law_nodes_added_unlisted(m, init, k);
    }
}

/// Listing one more crossing after `nodes` records it under its id on top of
/// what listing `nodes` recorded, whatever `m` held; nothing else changes.
pub proof fn law_nodes_added_one_more(m: Map<i32, Node>, nodes: Seq<Node>, n: Node)
    ensures
        nodes_added(m, nodes.push(n)).dom() == nodes_added(m, nodes).dom().insert(n.id),
        nodes_added(m, nodes.push(n))[n.id] == n,
        forall|k: i32|
            k != n.id && #[trigger] nodes_added(m, nodes).contains_key(k) ==> nodes_added(
                m,
                nodes.push(n),
            )[k] == nodes_added(m, nodes)[k],
{
    assert(nodes.push(n).drop_last() =~= nodes);
    assert(nodes_added(m, nodes.push(n)).dom() =~= nodes_added(m, nodes).dom().insert(n.id));
}

/// Listing one more road after `roads` appends it to the roads of its first
/// crossing and then its reversal to those of its second, on top of what
/// listing `roads` gave, whatever `g` held; no other crossing changes.
pub proof fn law_roads_added_one_more(g: Map<i32, Seq<Edge>>, roads: Seq<Edge>, e: Edge, k: i32)
    ensures
        roads_added(g, roads.push(e)).dom() == roads_added(g, roads).dom().insert(e.node_a_id).insert(
            e.node_b_id,
        ),
        adjacency(roads_added(g, roads.push(e)), k) == adjacency(roads_added(g, roads), k) + (if k
            == e.node_a_id {
            seq![e]
        } else {
            Seq::<Edge>::empty()
        }) + (if k == e.node_b_id {
            seq![Edge { node_a_id: e.node_b_id, node_b_id: e.node_a_id, weight: e.weight }]
        } else {
            Seq::<Edge>::empty()
        }),
{
    let before = roads_added(g, roads);
    let g1 = push_road(before, e);
    assert(roads.push(e).drop_last() =~= roads);
    assert(roads.push(e).last() == e);
    assert(roads_added(g, roads.push(e)) == with_road(before, e));
    lemma_adjacency_push_road(before, e, k);
    lemma_adjacency_push_road(g1, reversed(e), k);
    assert(with_road(before, e).dom() =~= before.dom().insert(e.node_a_id).insert(e.node_b_id));
    let a = adjacency(before, k);
    let ea: Seq<Edge> = if k == e.node_a_id { seq![e] } else { Seq::<Edge>::empty() };
    let eb: Seq<Edge> = if k == e.node_b_id { seq![reversed(e)] } else { Seq::<Edge>::empty() };
    assert(adjacency(g1, k) =~= a + ea);
    assert(adjacency(with_road(before, e), k) =~= a + ea + eb);
}

/// The search answers `None` exactly when no truck can be reached.
pub proof fn law_no_answer_iff_unreachable(
    g: Map<i32, Seq<Edge>>,
    from: i32,
    trucks: Seq<TowTruck>,
    answer: Option<TowTruck>,
)
    requires
        nearest_truck_answer(g, from, trucks, answer),
    ensures
        answer is None <==> no_truck_in_range(g, from, trucks),
{
    if let Some(t) = answer {
        let i = choose|i: int| is_nearest_truck(g, from, trucks, i) && trucks[i] == t;
        let w = choose|w: Seq<Edge>|
            {
                &&& walk_to(g, from, trucks[i].node_id, w)
                &&& forall|j: int, w2: Seq<Edge>|
                    0 <= j < trucks.len() && #[trigger] walk_to(g, from, trucks[j].node_id, w2)
                        ==> crate::models::paths::walk_cost(w) <= crate::models::paths::walk_cost(w2)
            };
        assert(walk_to(g, from, trucks[i].node_id, w));
    }
}

/// A truck that the search answers is one of the candidates, the first
/// of them standing at its crossing.
pub proof fn law_answer_is_first_candidate_at_its_crossing(
    g: Map<i32, Seq<Edge>>,
    from: i32,
    trucks: Seq<TowTruck>,
    t: TowTruck,
)
    requires
        nearest_truck_answer(g, from, trucks, Some(t)),
    ensures
        exists|i: int|
            0 <= i < trucks.len() && trucks[i] == t && forall|j: int|
                0 <= j < i ==> (#[trigger] trucks[j]).node_id != t.node_id,
{
    let i = choose|i: int| is_nearest_truck(g, from, trucks, i) && trucks[i] == t;
    assert(forall|j: int| 0 <= j < i ==> (#[trigger] trucks[j]).node_id != t.node_id);
}

} // verus!
