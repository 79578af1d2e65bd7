//! The scan of the crossings that a start crossing reaches, and what it
//! establishes about the roads leaving them.
use vstd::prelude::*;
use crate::models::graph::Edge;
use crate::models::paths::{
    adjacency, is_walk, lemma_walk_drop_last, lemma_walk_push, reachable_weights_nonnegative,
    reaches, walk_end, walk_to,
};

verus! {

/// The scan from `from`: `seen` holds crossings found reachable, `stack` those
/// still to look at, `expanded` those whose roads have all been looked at.
pub open spec fn scan_inv(
    g: Map<i32, Seq<Edge>>,
    from: i32,
    seen: Set<i32>,
    stack: Seq<i32>,
    expanded: Set<i32>,
) -> bool {
    &&& seen.contains(from)
    &&& forall|v: i32| #[trigger] seen.contains(v) ==> reaches(g, from, v)
    &&& forall|i: int|
        0 <= i < stack.len() ==> seen.contains(#[trigger] stack[i]) && !expanded.contains(stack[i])
    &&& stack.no_duplicates()
    &&& forall|v: i32| #[trigger] seen.contains(v) ==> expanded.contains(v) || stack.contains(v)
    &&& forall|u: i32| #[trigger] expanded.contains(u) ==> seen.contains(u)
    &&& forall|u: i32, e: Edge|
        expanded.contains(u) && #[trigger] adjacency(g, u).contains(e) ==> e.weight >= 0
            && seen.contains(e.node_b_id)
    &&& expanded.finite()
}

/// The scan while the roads of `u`, taken off the stack, are being looked
/// at; `looked` lists those looked at so far.
pub open spec fn scan_expanding(
    g: Map<i32, Seq<Edge>>,
    from: i32,
    seen: Set<i32>,
    stack: Seq<i32>,
    expanded: Set<i32>,
    u: i32,
    looked: Seq<Edge>,
) -> bool {
    &&& seen.contains(from)
    &&& forall|v: i32| #[trigger] seen.contains(v) ==> reaches(g, from, v)
    &&& forall|i: int|
        0 <= i < stack.len() ==> seen.contains(#[trigger] stack[i]) && !expanded.contains(stack[i])
    &&& stack.no_duplicates()
    &&& seen.contains(u) && !expanded.contains(u) && !stack.contains(u)
    &&& forall|v: i32|
        #[trigger] seen.contains(v) ==> expanded.contains(v) || stack.contains(v) || v == u
    &&& forall|x: i32| #[trigger] expanded.contains(x) ==> seen.contains(x)
    &&& forall|x: i32, e: Edge|
        expanded.contains(x) && #[trigger] adjacency(g, x).contains(e) ==> e.weight >= 0
            && seen.contains(e.node_b_id)
    &&& expanded.finite()
    &&& forall|k: int|
        0 <= k < looked.len() ==> (#[trigger] looked[k]).weight >= 0 && seen.contains(
            looked[k].node_b_id,
        )
}

/// Taking the last crossing off the stack starts looking at its roads.
pub proof fn lemma_scan_begin(
    g: Map<i32, Seq<Edge>>,
    from: i32,
    seen: Set<i32>,
    stack: Seq<i32>,
    expanded: Set<i32>,
)
    requires
        scan_inv(g, from, seen, stack, expanded),
        stack.len() > 0,
    ensures
        scan_expanding(g, from, seen, stack.drop_last(), expanded, stack.last(), Seq::empty()),
{
    let u = stack.last();
    let rest = stack.drop_last();
    assert(stack[stack.len() - 1] == u);
    assert forall|i: int| 0 <= i < rest.len() implies seen.contains(#[trigger] rest[i])
        && !expanded.contains(rest[i]) by {
        assert(rest[i] == stack[i]);
    }
    assert(!rest.contains(u)) by {
        if rest.contains(u) {
            let i = choose|i: int| 0 <= i < rest.len() && rest[i] == u;
            assert(stack[i] == u);
        }
    }
    assert forall|v: i32| #[trigger] seen.contains(v) implies expanded.contains(v) || rest.contains(v)
        || v == u by {
        if !expanded.contains(v) && v != u {
            let i = choose|i: int| 0 <= i < stack.len() && stack[i] == v;
            assert(i != stack.len() - 1);
            assert(rest[i] == v);
        }
    }
}

/// Once every road of `u` has been looked at, `u` is expanded.
pub proof fn lemma_scan_finish(
    g: Map<i32, Seq<Edge>>,
    from: i32,
    seen: Set<i32>,
    stack: Seq<i32>,
    expanded: Set<i32>,
    u: i32,
    looked: Seq<Edge>,
)
    requires
        scan_expanding(g, from, seen, stack, expanded, u, looked),
        looked == adjacency(g, u),
    ensures
        scan_inv(g, from, seen, stack, expanded.insert(u)),
{
    let ex = expanded.insert(u);
    assert forall|x: i32, e: Edge| ex.contains(x) && #[trigger] adjacency(g, x).contains(e) implies e.weight
        >= 0 && seen.contains(e.node_b_id) by {
        if x == u {
            let k = choose|k: int| 0 <= k < looked.len() && looked[k] == e;
        }
    }
}

/// Once nothing is left to look at, every reachable crossing has been
/// expanded, so every road leaving one weighs at least 0.
pub proof fn lemma_scan_complete(
    g: Map<i32, Seq<Edge>>,
    from: i32,
    seen: Set<i32>,
    stack: Seq<i32>,
    expanded: Set<i32>,
)
    requires
        scan_inv(g, from, seen, stack, expanded),
        stack.len() == 0,
    ensures
        reachable_weights_nonnegative(g, from),
{
    assert forall|u: i32, e: Edge| #[trigger]
        adjacency(g, u).contains(e) && reaches(g, from, u) implies e.weight >= 0 by {
        let w = choose|w: Seq<Edge>| walk_to(g, from, u, w);
        lemma_scan_reaches_expanded(g, from, seen, stack, expanded, w);
    }
}

proof fn lemma_scan_reaches_expanded(
    g: Map<i32, Seq<Edge>>,
    from: i32,
    seen: Set<i32>,
    stack: Seq<i32>,
    expanded: Set<i32>,
    w: Seq<Edge>,
)
    requires
        scan_inv(g, from, seen, stack, expanded),
        stack.len() == 0,
        is_walk(g, from, w),
    ensures
        expanded.contains(walk_end(from, w)),
    decreases w.len(),
{
    if w.len() == 0 {
        assert(seen.contains(from));
    } else {
        lemma_walk_drop_last(g, from, w);
        lemma_scan_reaches_expanded(g, from, seen, stack, expanded, w.drop_last());
        let z = walk_end(from, w.drop_last());
        assert(adjacency(g, z).contains(w.last()));
        assert(seen.contains(w.last().node_b_id));
    }
}

/// A road out of a reachable crossing leads to a reachable crossing.
pub proof fn lemma_reaches_step(g: Map<i32, Seq<Edge>>, from: i32, u: i32, e: Edge)
    requires
        reaches(g, from, u),
        adjacency(g, u).contains(e),
    ensures
        reaches(g, from, e.node_b_id),
{
    let w = choose|w: Seq<Edge>| walk_to(g, from, u, w);
    lemma_walk_push(g, from, w, e);
    assert(walk_to(g, from, e.node_b_id, w.push(e)));
}

/// The start crossing reaches itself.
pub proof fn lemma_reaches_start(g: Map<i32, Seq<Edge>>, from: i32)
    ensures
        reaches(g, from, from),
{
    assert(walk_to(g, from, from, Seq::<Edge>::empty()));
}

} // verus!
