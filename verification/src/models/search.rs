//! The frontier of the nearest-truck search and the facts that keep it sound.
use vstd::prelude::*;
use std::collections::HashMap;
use crate::models::graph::Edge;
use crate::models::paths::{
    adjacency, has_walk_of_cost, is_shortest_walk, is_walk, lemma_walk_cost_push,
    lemma_walk_drop_last, lemma_walk_push, walk_cost, walk_end, walk_to, reaches,
    reachable_weights_nonnegative, weights_positive, is_nearest_truck, no_truck_in_range,
    overflows_before_trucks,
};
use crate::models::tow_truck::TowTruck;

verus! {

broadcast use vstd::std_specs::hash::group_hash_axioms;

/// A frontier entry: a node reached at some cost.
#[derive(Clone, Copy, PartialEq, Eq, Structural)]
pub struct State {
    pub cost: i32,
    pub position: i32,
}

/// `a` leaves the frontier no later than `b`: lower cost first, and among
/// equal costs the higher node id first (the order of a max-heap of states
/// compared by reversed cost, then by position).
pub open spec fn pops_no_later(a: State, b: State) -> bool {
    a.cost < b.cost || (a.cost == b.cost && a.position >= b.position)
}

impl State {
    /// Whether `self` leaves the frontier strictly before `other`.
    pub fn precedes(&self, other: &State) -> (r: bool)
        ensures
            r == (self.cost < other.cost || (self.cost == other.cost && self.position
                > other.position)),
    {
        self.cost < other.cost || (self.cost == other.cost && self.position > other.position)
    }
}

/// The tentative distance of `v`; a node without one counts as `i32::MAX`.
pub open spec fn dist_of(d: Map<i32, i32>, v: i32) -> i32 {
    if d.contains_key(v) {
        d[v]
    } else {
        i32::MAX
    }
}

/// A frontier entry is backed by a walk of its cost, is no cheaper than the
/// tentative distance of its node, and is not below the current level.
pub open spec fn entry_ok(
    g: Map<i32, Seq<Edge>>,
    from: i32,
    d: Map<i32, i32>,
    s: State,
    level: int,
) -> bool {
    &&& dist_of(d, s.position) <= s.cost < i32::MAX
    &&& level <= s.cost
    &&& has_walk_of_cost(g, from, s.position, s.cost as int)
}

/// A settled node: its distance is final, no walk to it is cheaper, and every
/// road out of it has been relaxed.
pub open spec fn settled(g: Map<i32, Seq<Edge>>, from: i32, d: Map<i32, i32>, u: i32, level: int) -> bool {
    &&& dist_of(d, u) <= level
    &&& 0 <= dist_of(d, u) < i32::MAX
    &&& forall|w: Seq<Edge>| #[trigger] walk_to(g, from, u, w) ==> dist_of(d, u) <= walk_cost(w)
    &&& forall|e: Edge|
        #[trigger] adjacency(g, u).contains(e) ==> dist_of(d, e.node_b_id) <= dist_of(d, u)
            + e.weight
}

/// Everything the search keeps true except that frontier entries exist for
/// the unsettled nodes with a finite tentative distance.
pub open spec fn search_core(
    g: Map<i32, Seq<Edge>>,
    from: i32,
    trucks: Seq<TowTruck>,
    d: Map<i32, i32>,
    heap: Seq<State>,
    done: Set<i32>,
    level: int,
) -> bool {
    &&& 0 <= level
    &&& dist_of(d, from) == 0
    &&& forall|k: int| 0 <= k < heap.len() ==> entry_ok(g, from, d, #[trigger] heap[k], level)
    &&& heap.no_duplicates()
    &&& forall|v: i32| #[trigger]
        dist_of(d, v) < i32::MAX ==> has_walk_of_cost(g, from, v, dist_of(d, v) as int)
    &&& forall|u: i32| #[trigger] done.contains(u) ==> settled(g, from, d, u, level)
    &&& forall|k: int|
        0 <= k < heap.len() && done.contains(#[trigger] heap[k].position) ==> heap[k].cost
            > dist_of(d, heap[k].position)
    &&& forall|j: int| 0 <= j < trucks.len() ==> !done.contains(#[trigger] trucks[j].node_id)
    &&& done.finite()
}

/// Every unsettled node with a finite tentative distance sits in the frontier
/// at that distance.
pub open spec fn frontier_complete(d: Map<i32, i32>, heap: Seq<State>, done: Set<i32>) -> bool {
    forall|v: i32|
        #[trigger] dist_of(d, v) < i32::MAX && !done.contains(v) ==> heap.contains(
            State { cost: dist_of(d, v), position: v },
        )
}

pub open spec fn search_inv(
    g: Map<i32, Seq<Edge>>,
    from: i32,
    trucks: Seq<TowTruck>,
    d: Map<i32, i32>,
    heap: Seq<State>,
    done: Set<i32>,
    level: int,
) -> bool {
    search_core(g, from, trucks, d, heap, done, level) && frontier_complete(d, heap, done)
}

/// While the search runs, the cheapest frontier entry costs no more than any
/// walk to a node that is not settled yet.
pub proof fn lemma_frontier_lower_bound(
    g: Map<i32, Seq<Edge>>,
    from: i32,
    trucks: Seq<TowTruck>,
    d: Map<i32, i32>,
    heap: Seq<State>,
    done: Set<i32>,
    level: int,
    c: int,
    w: Seq<Edge>,
)
    requires
        search_inv(g, from, trucks, d, heap, done, level),
        reachable_weights_nonnegative(g, from),
        c < i32::MAX,
        forall|k: int| 0 <= k < heap.len() ==> c <= #[trigger] heap[k].cost,
        is_walk(g, from, w),
        !done.contains(walk_end(from, w)),
    ensures
        c <= walk_cost(w),
    decreases w.len(),
{
    if w.len() == 0 {
        assert(dist_of(d, from) < i32::MAX);
        let s = State { cost: dist_of(d, from), position: from };
        assert(heap.contains(s));
        let k = choose|k: int| 0 <= k < heap.len() && heap[k] == s;
        assert(c <= heap[k].cost);
    } else {
        lemma_walk_drop_last(g, from, w);
        let w1 = w.drop_last();
        let e = w.last();
        let z = walk_end(from, w1);
        lemma_walk_cost_push(w1, e);
        assert(walk_to(g, from, z, w1));
        assert(reaches(g, from, z));
        assert(e.weight >= 0);
        if !done.contains(z) {
            lemma_frontier_lower_bound(g, from, trucks, d, heap, done, level, c, w1);
        } else {
            assert(settled(g, from, d, z, level));
            assert(walk_to(g, from, z, w1));
            assert(dist_of(d, z) <= walk_cost(w1));
            assert(dist_of(d, e.node_b_id) <= dist_of(d, z) + e.weight);
            let b = e.node_b_id;
            if dist_of(d, b) < i32::MAX {
                let s = State { cost: dist_of(d, b), position: b };
                assert(heap.contains(s));
                let k = choose|k: int| 0 <= k < heap.len() && heap[k] == s;
                assert(c <= heap[k].cost);
            }
        }
    }
}

/// Once the frontier is empty, every node that some walk reaches for less
/// than `i32::MAX` is settled.
pub proof fn lemma_exhausted_settles_all(
    g: Map<i32, Seq<Edge>>,
    from: i32,
    trucks: Seq<TowTruck>,
    d: Map<i32, i32>,
    heap: Seq<State>,
    done: Set<i32>,
    level: int,
    w: Seq<Edge>,
)
    requires
        search_inv(g, from, trucks, d, heap, done, level),
        heap.len() == 0,
        reachable_weights_nonnegative(g, from),
        is_walk(g, from, w),
        walk_cost(w) < i32::MAX,
    ensures
        done.contains(walk_end(from, w)),
    decreases w.len(),
{
    if w.len() == 0 {
        if !done.contains(from) {
            assert(heap.contains(State { cost: dist_of(d, from), position: from }));
        }
    } else {
        lemma_walk_drop_last(g, from, w);
        let w1 = w.drop_last();
        let e = w.last();
        let z = walk_end(from, w1);
        lemma_walk_cost_push(w1, e);
        assert(walk_to(g, from, z, w1));
        assert(reaches(g, from, z));
        assert(e.weight >= 0);
        lemma_exhausted_settles_all(g, from, trucks, d, heap, done, level, w1);
        assert(settled(g, from, d, z, level));
        assert(dist_of(d, z) <= walk_cost(w1));
        let b = e.node_b_id;
        assert(dist_of(d, b) <= dist_of(d, z) + e.weight);
        if !done.contains(b) {
            assert(heap.contains(State { cost: dist_of(d, b), position: b }));
        }
    }
}

/// The search while the roads out of `p`, settled at cost `c`, are being
/// relaxed; `relaxed` lists the roads handled so far.
pub open spec fn expanding(
    g: Map<i32, Seq<Edge>>,
    from: i32,
    trucks: Seq<TowTruck>,
    d: Map<i32, i32>,
    heap: Seq<State>,
    done: Set<i32>,
    p: i32,
    c: int,
    relaxed: Seq<Edge>,
) -> bool {
    &&& search_core(g, from, trucks, d, heap, done, c)
    &&& !done.contains(p)
    &&& dist_of(d, p) == c
    &&& 0 <= c < i32::MAX
    &&& has_walk_of_cost(g, from, p, c)
    &&& forall|w: Seq<Edge>| #[trigger] walk_to(g, from, p, w) ==> c <= walk_cost(w)
    &&& forall|j: int, w: Seq<Edge>|
        0 <= j < trucks.len() && #[trigger] walk_to(g, from, trucks[j].node_id, w) ==> c
            <= walk_cost(w)
    &&& forall|j: int| 0 <= j < trucks.len() ==> #[trigger] trucks[j].node_id != p
    &&& forall|k: int| 0 <= k < heap.len() && #[trigger] heap[k].position == p ==> heap[k].cost > c
    &&& forall|v: i32|
        #[trigger] dist_of(d, v) < i32::MAX && !done.contains(v) && v != p ==> heap.contains(
            State { cost: dist_of(d, v), position: v },
        )
    &&& forall|k: int|
        0 <= k < relaxed.len() ==> dist_of(d, #[trigger] relaxed[k].node_b_id) <= c + relaxed[k].weight
}

pub proof fn lemma_remove_from_frontier(s: Seq<State>, i: int)
    requires
        0 <= i < s.len(),
        s.no_duplicates(),
    ensures
        s.remove(i).len() == s.len() - 1,
        s.remove(i).no_duplicates(),
        forall|k: int|
            0 <= k < s.remove(i).len() ==> #[trigger] s.remove(i)[k] == s[if k < i {
                k
            } else {
                k + 1
            }],
        forall|x: State| s.contains(x) && x != s[i] ==> #[trigger] s.remove(i).contains(x),
{
    s.remove_ensures(i);
    let r = s.remove(i);
    assert forall|x: State| s.contains(x) && x != s[i] implies #[trigger] r.contains(x) by {
        let j = choose|j: int| 0 <= j < s.len() && s[j] == x;
        if j < i {
            assert(r[j] == x);
        } else {
            assert(r[j - 1] == x);
        }
    }
    assert forall|a: int, b: int| 0 <= a < r.len() && 0 <= b < r.len() && a != b implies r[a]
        != r[b] by {
        let ja = if a < i { a } else { a + 1 };
        let jb = if b < i { b } else { b + 1 };
        assert(r[a] == s[ja]);
        assert(r[b] == s[jb]);
    }
}

/// Dropping a frontier entry that is dearer than its node's tentative
/// distance keeps the search sound.
pub proof fn lemma_drop_stale(
    g: Map<i32, Seq<Edge>>,
    from: i32,
    trucks: Seq<TowTruck>,
    d: Map<i32, i32>,
    old_heap: Seq<State>,
    done: Set<i32>,
    level: int,
    top: int,
)
    requires
        search_inv(g, from, trucks, d, old_heap, done, level),
        0 <= top < old_heap.len(),
        old_heap[top].cost > dist_of(d, old_heap[top].position),
    ensures
        search_inv(g, from, trucks, d, old_heap.remove(top), done, level),
{
    lemma_remove_from_frontier(old_heap, top);
    let heap = old_heap.remove(top);
    assert forall|k: int| 0 <= k < heap.len() implies entry_ok(g, from, d, #[trigger] heap[k], level) by {
        let j = if k < top { k } else { k + 1 };
        assert(entry_ok(g, from, d, old_heap[j], level));
    }
    assert forall|k: int|
        0 <= k < heap.len() && done.contains(#[trigger] heap[k].position) implies heap[k].cost
        > dist_of(d, heap[k].position) by {
        let j = if k < top { k } else { k + 1 };
        assert(done.contains(old_heap[j].position));
    }
    assert forall|v: i32| #[trigger]
        dist_of(d, v) < i32::MAX && !done.contains(v) implies heap.contains(
        State { cost: dist_of(d, v), position: v },
    ) by {
        assert(old_heap.contains(State { cost: dist_of(d, v), position: v }));
    }
}

/// Taking the cheapest entry `(c, p)` off the frontier, where `c` is the
/// tentative distance of `p` and no truck stands at `p`, starts the
/// expansion of `p`.
pub proof fn lemma_begin_expansion(
    g: Map<i32, Seq<Edge>>,
    from: i32,
    trucks: Seq<TowTruck>,
    d: Map<i32, i32>,
    old_heap: Seq<State>,
    done: Set<i32>,
    level: int,
    top: int,
)
    requires
        search_inv(g, from, trucks, d, old_heap, done, level),
        reachable_weights_nonnegative(g, from),
        0 <= top < old_heap.len(),
        forall|k: int| 0 <= k < old_heap.len() ==> pops_no_later(old_heap[top], #[trigger] old_heap[k]),
        old_heap[top].cost == dist_of(d, old_heap[top].position),
        forall|j: int| 0 <= j < trucks.len() ==> #[trigger] trucks[j].node_id != old_heap[top].position,
    ensures
        expanding(
            g,
            from,
            trucks,
            d,
            old_heap.remove(top),
            done,
            old_heap[top].position,
            old_heap[top].cost as int,
            Seq::empty(),
        ),
{
    lemma_remove_from_frontier(old_heap, top);
    let heap = old_heap.remove(top);
    let p = old_heap[top].position;
    let c = old_heap[top].cost as int;
    assert(entry_ok(g, from, d, old_heap[top], level));
    assert forall|k: int| 0 <= k < old_heap.len() implies c <= #[trigger] old_heap[k].cost by {
        assert(pops_no_later(old_heap[top], old_heap[k]));
    }
    assert(!done.contains(p));
    assert forall|w: Seq<Edge>| #[trigger] walk_to(g, from, p, w) implies c <= walk_cost(w) by {
        lemma_frontier_lower_bound(g, from, trucks, d, old_heap, done, level, c, w);
    }
    assert forall|j: int, w: Seq<Edge>|
        0 <= j < trucks.len() && #[trigger] walk_to(g, from, trucks[j].node_id, w) implies c
        <= walk_cost(w) by {
        assert(!done.contains(trucks[j].node_id));
        lemma_frontier_lower_bound(g, from, trucks, d, old_heap, done, level, c, w);
    }
    assert forall|k: int| 0 <= k < heap.len() implies entry_ok(g, from, d, #[trigger] heap[k], c) by {
        let j = if k < top { k } else { k + 1 };
        assert(entry_ok(g, from, d, old_heap[j], level));
        assert(c <= old_heap[j].cost);
    }
    assert forall|u: i32| #[trigger] done.contains(u) implies settled(g, from, d, u, c) by {
        assert(settled(g, from, d, u, level));
    }
    assert forall|k: int|
        0 <= k < heap.len() && done.contains(#[trigger] heap[k].position) implies heap[k].cost
        > dist_of(d, heap[k].position) by {
        let j = if k < top { k } else { k + 1 };
        assert(done.contains(old_heap[j].position));
    }
    assert forall|k: int| 0 <= k < heap.len() && #[trigger] heap[k].position == p implies heap[k].cost
        > c by {
        let j = if k < top { k } else { k + 1 };
        assert(old_heap[j] != old_heap[top]);
        assert(entry_ok(g, from, d, old_heap[j], level));
    }
    assert forall|v: i32|
        #[trigger] dist_of(d, v) < i32::MAX && !done.contains(v) && v != p implies heap.contains(
        State { cost: dist_of(d, v), position: v },
    ) by {
        assert(old_heap.contains(State { cost: dist_of(d, v), position: v }));
    }
    assert(search_core(g, from, trucks, d, heap, done, c));
}

/// Once every road out of `p` is relaxed, `p` joins the settled nodes.
pub proof fn lemma_finish_expansion(
    g: Map<i32, Seq<Edge>>,
    from: i32,
    trucks: Seq<TowTruck>,
    d: Map<i32, i32>,
    heap: Seq<State>,
    done: Set<i32>,
    p: i32,
    c: int,
    relaxed: Seq<Edge>,
)
    requires
        expanding(g, from, trucks, d, heap, done, p, c, relaxed),
        relaxed == adjacency(g, p),
    ensures
        search_inv(g, from, trucks, d, heap, done.insert(p), c),
{
    let done2 = done.insert(p);
    assert forall|e: Edge| #[trigger] adjacency(g, p).contains(e) implies dist_of(d, e.node_b_id)
        <= dist_of(d, p) + e.weight by {
        let k = choose|k: int| 0 <= k < relaxed.len() && relaxed[k] == e;
        assert(dist_of(d, relaxed[k].node_b_id) <= c + relaxed[k].weight);
    }
    assert forall|u: i32| #[trigger] done2.contains(u) implies settled(g, from, d, u, c) by {
        if u != p {
            assert(done.contains(u));
        }
    }
    assert forall|k: int|
        0 <= k < heap.len() && done2.contains(#[trigger] heap[k].position) implies heap[k].cost
        > dist_of(d, heap[k].position) by {
        if heap[k].position != p {
            assert(done.contains(heap[k].position));
        }
    }
    assert forall|j: int| 0 <= j < trucks.len() implies !done2.contains(#[trigger] trucks[j].node_id) by {
        assert(trucks[j].node_id != p);
    }
    assert forall|v: i32| #[trigger]
        dist_of(d, v) < i32::MAX && !done2.contains(v) implies heap.contains(
        State { cost: dist_of(d, v), position: v },
    ) by {
        assert(v != p);
    }
}

/// Relaxes road `e` out of `p`: where reaching `e.node_b_id` through `p` is
/// cheaper than its tentative distance, record that and add it to the frontier.
/// Answers `false`, changing nothing, where the distance through `p` does not
/// fit in an `i32`.
pub(crate) fn relax_edge(
    distances: &mut HashMap<i32, i32>,
    heap: &mut Vec<State>,
    cost: i32,
    e: Edge,
    Ghost(g): Ghost<Map<i32, Seq<Edge>>>,
    Ghost(from): Ghost<i32>,
    Ghost(trucks): Ghost<Seq<TowTruck>>,
    Ghost(done): Ghost<Set<i32>>,
    Ghost(p): Ghost<i32>,
    Ghost(relaxed): Ghost<Seq<Edge>>,
) -> (fits: bool)
    requires
        expanding(g, from, trucks, old(distances)@, old(heap)@, done, p, cost as int, relaxed),
        adjacency(g, p).contains(e),
        reachable_weights_nonnegative(g, from),
    ensures
        fits ==> expanding(
            g,
            from,
            trucks,
            final(distances)@,
            final(heap)@,
            done,
            p,
            cost as int,
            relaxed.push(e),
        ),
        !fits ==> final(distances)@ == old(distances)@ && final(heap)@ == old(heap)@ && cost
            + e.weight > i32::MAX,
{
    let ghost c = cost as int;
    let ghost d0 = distances@;
    let ghost h0 = heap@;
    let ghost wp = choose|w: Seq<Edge>| walk_to(g, from, p, w) && walk_cost(w) == c;
    proof {
        assert forall|w2: Seq<Edge>| #[trigger]
            walk_to(g, from, walk_end(from, wp), w2) implies walk_cost(wp) <= walk_cost(w2) by {
            assert(walk_to(g, from, p, w2));
        }
        assert(is_shortest_walk(g, from, wp));
        assert(adjacency(g, walk_end(from, wp)).contains(e));
        assert(reaches(g, from, p));
        assert(e.weight >= 0);
        lemma_walk_push(g, from, wp, e);
    }
    let cand = match cost.checked_add(e.weight) {
        Some(sum) => sum,
        None => {
            return false;
        },
    };
    let b = e.node_b_id;
    let known = distance_of(distances, b);
    if cand < known {
        distances.insert(b, cand);
        heap.push(State { cost: cand, position: b });
        proof {
            let d1 = distances@;
            let h1 = heap@;
            let ns = State { cost: cand, position: b };
            assert(forall|v: i32| v != b ==> dist_of(d1, v) == dist_of(d0, v));
            assert(dist_of(d1, b) == cand);
            assert(b != p);
            assert(walk_to(g, from, b, wp.push(e)));
            assert(has_walk_of_cost(g, from, b, cand as int));
            assert forall|u: i32| #[trigger] done.contains(u) implies settled(g, from, d1, u, c) by {
                assert(settled(g, from, d0, u, c));
                assert(u != b);
                assert forall|e2: Edge| #[trigger] adjacency(g, u).contains(e2) implies dist_of(
                    d1,
                    e2.node_b_id,
                ) <= dist_of(d1, u) + e2.weight by {
                    assert(dist_of(d0, e2.node_b_id) <= dist_of(d0, u) + e2.weight);
                }
            }
            assert forall|k: int| 0 <= k < h1.len() implies entry_ok(g, from, d1, #[trigger] h1[k], c) by {
                if k < h0.len() {
                    assert(h1[k] == h0[k]);
                    assert(entry_ok(g, from, d0, h0[k], c));
                } else {
                    assert(h1[k] == ns);
                }
            }
            assert(!h0.contains(ns)) by {
                if h0.contains(ns) {
                    let k = choose|k: int| 0 <= k < h0.len() && h0[k] == ns;
                    assert(entry_ok(g, from, d0, h0[k], c));
                }
            }
            assert forall|x: int, y: int| 0 <= x < h1.len() && 0 <= y < h1.len() && x != y implies h1[x]
                != h1[y] by {
                if x < h0.len() && y < h0.len() {
                    assert(h1[x] == h0[x] && h1[y] == h0[y]);
                } else if x < h0.len() {
                    assert(h1[x] == h0[x]);
                } else {
                    assert(h1[y] == h0[y]);
                }
            }
            assert forall|v: i32| #[trigger]
                dist_of(d1, v) < i32::MAX implies has_walk_of_cost(g, from, v, dist_of(d1, v) as int) by {
                if v != b {
                    assert(dist_of(d1, v) == dist_of(d0, v));
                }
            }
            assert forall|k: int|
                0 <= k < h1.len() && done.contains(#[trigger] h1[k].position) implies h1[k].cost
                > dist_of(d1, h1[k].position) by {
                if k < h0.len() {
                    assert(h1[k] == h0[k]);
                }
            }
            assert forall|k: int| 0 <= k < h1.len() && #[trigger] h1[k].position == p implies h1[k].cost
                > c by {
                if k < h0.len() {
                    assert(h1[k] == h0[k]);
                }
            }
            assert forall|v: i32|
                #[trigger] dist_of(d1, v) < i32::MAX && !done.contains(v) && v != p implies h1.contains(
                State { cost: dist_of(d1, v), position: v },
            ) by {
                if v == b {
                    assert(h1[h0.len() as int] == ns);
                } else {
                    assert(dist_of(d1, v) == dist_of(d0, v));
                    let s = State { cost: dist_of(d0, v), position: v };
                    assert(h0.contains(s));
                    let k = choose|k: int| 0 <= k < h0.len() && h0[k] == s;
                    assert(h1[k] == s);
                }
            }
            let r2 = relaxed.push(e);
            assert forall|k: int| 0 <= k < r2.len() implies dist_of(d1, #[trigger] r2[k].node_b_id) <= c
                + r2[k].weight by {
                if k < relaxed.len() {
                    assert(r2[k] == relaxed[k]);
                    assert(dist_of(d0, relaxed[k].node_b_id) <= c + relaxed[k].weight);
                }
            }
            assert(search_core(g, from, trucks, d1, h1, done, c));
        }
    } else {
        proof {
            let r2 = relaxed.push(e);
            assert forall|k: int| 0 <= k < r2.len() implies dist_of(d0, #[trigger] r2[k].node_b_id) <= c
                + r2[k].weight by {
                if k < relaxed.len() {
                    assert(r2[k] == relaxed[k]);
                }
            }
        }
    }
    true
}

/// The first truck at the node just taken off the frontier is a nearest truck.
pub proof fn lemma_truck_found(
    g: Map<i32, Seq<Edge>>,
    from: i32,
    trucks: Seq<TowTruck>,
    d: Map<i32, i32>,
    heap: Seq<State>,
    done: Set<i32>,
    level: int,
    top: int,
    i: int,
)
    requires
        search_inv(g, from, trucks, d, heap, done, level),
        reachable_weights_nonnegative(g, from),
        0 <= top < heap.len(),
        forall|k: int| 0 <= k < heap.len() ==> pops_no_later(heap[top], #[trigger] heap[k]),
        0 <= i < trucks.len(),
        trucks[i].node_id == heap[top].position,
        forall|j: int| 0 <= j < i ==> trucks[j].node_id != heap[top].position,
    ensures
        is_nearest_truck(g, from, trucks, i),
{
    let c = heap[top].cost as int;
    let p = heap[top].position;
    assert(entry_ok(g, from, d, heap[top], level));
    assert forall|k: int| 0 <= k < heap.len() implies c <= #[trigger] heap[k].cost by {
        assert(pops_no_later(heap[top], heap[k]));
    }
    let w = choose|w: Seq<Edge>| walk_to(g, from, p, w) && walk_cost(w) == c;
    assert forall|j: int, w2: Seq<Edge>|
        0 <= j < trucks.len() && #[trigger] walk_to(g, from, trucks[j].node_id, w2) implies walk_cost(
        w,
    ) <= walk_cost(w2) by {
        assert(!done.contains(trucks[j].node_id));
        lemma_frontier_lower_bound(g, from, trucks, d, heap, done, level, c, w2);
    }
    if weights_positive(g) {
        assert forall|j: int, w2: Seq<Edge>|
            0 <= j < trucks.len() && #[trigger] walk_to(g, from, trucks[j].node_id, w2) && walk_cost(
                w2,
            ) == walk_cost(w) implies trucks[j].node_id <= trucks[i].node_id by {
            let q = trucks[j].node_id;
            assert(!done.contains(q));
            if w2.len() > 0 {
                lemma_walk_drop_last(g, from, w2);
                let w1 = w2.drop_last();
                let e = w2.last();
                let z = walk_end(from, w1);
                lemma_walk_cost_push(w1, e);
                assert(e.weight > 0);
                if !done.contains(z) {
                    lemma_frontier_lower_bound(g, from, trucks, d, heap, done, level, c, w1);
                }
                assert(settled(g, from, d, z, level));
                assert(walk_to(g, from, z, w1));
            }
            assert(dist_of(d, q) <= c);
            let s = State { cost: dist_of(d, q), position: q };
            assert(heap.contains(s));
            let k = choose|k: int| 0 <= k < heap.len() && heap[k] == s;
            assert(pops_no_later(heap[top], heap[k]));
        }
    }
}

/// With the frontier empty, no truck can be reached for less than `i32::MAX`.
pub proof fn lemma_none_reachable(
    g: Map<i32, Seq<Edge>>,
    from: i32,
    trucks: Seq<TowTruck>,
    d: Map<i32, i32>,
    heap: Seq<State>,
    done: Set<i32>,
    level: int,
)
    requires
        search_inv(g, from, trucks, d, heap, done, level),
        heap.len() == 0,
        reachable_weights_nonnegative(g, from),
    ensures
        no_truck_in_range(g, from, trucks),
{
    assert forall|j: int, w: Seq<Edge>|
        0 <= j < trucks.len() && #[trigger] walk_to(g, from, trucks[j].node_id, w) implies walk_cost(w)
        >= i32::MAX by {
        if walk_cost(w) < i32::MAX {
            lemma_exhausted_settles_all(g, from, trucks, d, heap, done, level, w);
            assert(!done.contains(trucks[j].node_id));
        }
    }
}

/// A road out of the crossing being expanded whose distance does not fit in
/// an `i32` is an overflow before any truck is reached.
pub proof fn lemma_overflow_witness(
    g: Map<i32, Seq<Edge>>,
    from: i32,
    trucks: Seq<TowTruck>,
    d: Map<i32, i32>,
    heap: Seq<State>,
    done: Set<i32>,
    p: i32,
    c: int,
    relaxed: Seq<Edge>,
    e: Edge,
)
    requires
        expanding(g, from, trucks, d, heap, done, p, c, relaxed),
        adjacency(g, p).contains(e),
        c + e.weight > i32::MAX,
    ensures
        overflows_before_trucks(g, from, trucks),
{
    let wp = choose|w: Seq<Edge>| walk_to(g, from, p, w) && walk_cost(w) == c;
    assert forall|w2: Seq<Edge>| #[trigger] walk_to(g, from, walk_end(from, wp), w2) implies walk_cost(
        wp,
    ) <= walk_cost(w2) by {
        assert(walk_to(g, from, p, w2));
    }
    assert(is_shortest_walk(g, from, wp));
    assert(adjacency(g, walk_end(from, wp)).contains(e));
}

/// The index of the entry that leaves the frontier next.
pub fn top_index(heap: &Vec<State>) -> (r: usize)
    requires
        heap.len() > 0,
    ensures
        r < heap.len(),
        forall|k: int| 0 <= k < heap.len() ==> pops_no_later(heap[r as int], #[trigger] heap[k]),
{
    let mut best: usize = 0;
    let mut i: usize = 1;
    while i < heap.len()
        invariant
            0 <= best < i <= heap.len(),
            forall|k: int| 0 <= k < i ==> pops_no_later(heap[best as int], #[trigger] heap[k]),
        decreases heap.len() - i,
    {
        if heap[i].precedes(&heap[best]) {
            best = i;
        }
        i = i + 1;
    }
    best
}

/// The index of the first truck standing at `node_id`, if any.
pub fn truck_index_at(trucks: &Vec<TowTruck>, node_id: i32) -> (r: Option<usize>)
    ensures
        match r {
            Some(i) => i < trucks.len() && trucks[i as int].node_id == node_id && forall|j: int|
                0 <= j < i ==> trucks[j].node_id != node_id,
            None => forall|j: int| 0 <= j < trucks.len() ==> trucks[j].node_id != node_id,
        },
{
    let mut i: usize = 0;
    while i < trucks.len()
        invariant
            i <= trucks.len(),
            forall|j: int| 0 <= j < i ==> trucks[j].node_id != node_id,
        decreases trucks.len() - i,
    {
        if trucks[i].node_id == node_id {
            return Some(i);
        }
        i = i + 1;
    }
    None
}

/// The tentative distance recorded for `v`, or `i32::MAX` where none is.
pub fn distance_of(d: &HashMap<i32, i32>, v: i32) -> (r: i32)
    ensures
        r == dist_of(d@, v),
{
    match d.get(&v) {
        Some(x) => *x,
        None => i32::MAX,
    }
}

} // verus!
