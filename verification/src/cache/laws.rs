//! What a read of a cache gives back after a write.
use vstd::prelude::*;
use crate::cache::edge_cache::EdgeCache;
use crate::cache::graph_cache::GraphCache;
use crate::cache::img_cache::ImgCache;
use crate::cache::node_cache::NodeCache;
use crate::models::graph::{Edge, Graph, Node, roads_added};

verus! {

/// After `set_nodes(area, written)`, `get_nodes(area)` gives `written` back
/// and every other area reads as before.
pub proof fn law_node_cache_read_after_write(
    before: NodeCache,
    after: NodeCache,
    area: int,
    written: Map<i32, Node>,
    read: int,
)
    requires
        1 <= area <= 7,
        1 <= read <= 7,
        after.area(area) == written,
        forall|a: int| 1 <= a <= 7 && a != area ==> #[trigger] after.area(a) == before.area(a),
    ensures
        after.area(read) == if read == area {
            written
        } else {
            before.area(read)
        },
{
}

/// After `store_roads(area, road_table(edges))`, `get_edges(area)` gives the
/// old lists overridden by those that adding `edges` both ways builds; every
/// other area reads as before.
pub proof fn law_edge_cache_read_after_store(
    before: EdgeCache,
    after: EdgeCache,
    area: int,
    edges: Seq<Edge>,
    read: int,
)
    requires
        1 <= area <= 7,
        1 <= read <= 7,
        after.area(area) == before.area(area).union_prefer_right(roads_added(Map::empty(), edges)),
        forall|a: int| 1 <= a <= 7 && a != area ==> #[trigger] after.area(a) == before.area(a),
    ensures
        after.area(read) == if read == area {
            before.area(area).union_prefer_right(roads_added(Map::empty(), edges))
        } else {
            before.area(read)
        },
        read == area && before.area(area) == Map::<i32, Seq<Edge>>::empty() ==> after.area(read)
            == roads_added(Map::empty(), edges),
{
    if read == area && before.area(area) == Map::<i32, Seq<Edge>>::empty() {
        assert(after.area(read) =~= roads_added(Map::empty(), edges));
    }
}

/// Storing the same roads in an area a second time changes nothing: a list
/// stored under a crossing replaces the one there, so no road is doubled.
pub proof fn law_store_roads_twice(
    before: EdgeCache,
    once: EdgeCache,
    twice: EdgeCache,
    area: int,
    roads: Map<i32, Seq<Edge>>,
)
    requires
        1 <= area <= 7,
        once.area(area) == before.area(area).union_prefer_right(roads),
        forall|a: int| 1 <= a <= 7 && a != area ==> #[trigger] once.area(a) == before.area(a),
        twice.area(area) == once.area(area).union_prefer_right(roads),
        forall|a: int| 1 <= a <= 7 && a != area ==> #[trigger] twice.area(a) == once.area(a),
    ensures
        forall|a: int| 1 <= a <= 7 ==> #[trigger] twice.area(a) == once.area(a),
{
    assert(once.area(area).union_prefer_right(roads) =~= once.area(area));
}

/// The caches `before` and `after` differ by storing `tables[a - 1]` in each
/// area `a` from 1 to `tables.len()`, as loading the roads of those areas
/// (`road_table` then `store_roads`, area by area) does; the other areas are
/// as they were.
pub open spec fn stored_areas(before: EdgeCache, after: EdgeCache, tables: Seq<Map<i32, Seq<Edge>>>) -> bool {
    forall|a: int|
        1 <= a <= 7 ==> #[trigger] after.area(a) == if a <= tables.len() {
            before.area(a).union_prefer_right(tables[a - 1])
        } else {
            before.area(a)
        }
}

/// Loading the same roads for the same areas twice in a row leaves the edge
/// cache as the first load left it.
pub proof fn law_load_roads_twice(
    before: EdgeCache,
    once: EdgeCache,
    twice: EdgeCache,
    tables: Seq<Map<i32, Seq<Edge>>>,
)
    requires
        tables.len() <= 7,
        stored_areas(before, once, tables),
        stored_areas(once, twice, tables),
    ensures
        forall|a: int| 1 <= a <= 7 ==> #[trigger] twice.area(a) == once.area(a),
{
    assert forall|a: int| 1 <= a <= 7 implies #[trigger] twice.area(a) == once.area(a) by {
        if a <= tables.len() {
            assert(once.area(a).union_prefer_right(tables[a - 1]) =~= once.area(a));
        }
    }
}

/// Storing roads area by area, each store as `store_roads` ensures, gives
/// `stored_areas`.
pub proof fn law_stores_compose(
    caches: Seq<EdgeCache>,
    tables: Seq<Map<i32, Seq<Edge>>>,
)
    requires
        tables.len() <= 7,
        caches.len() == tables.len() + 1,
        forall|i: int|
            0 <= i < tables.len() ==> (#[trigger] caches[i + 1]).area(i + 1) == caches[i].area(
                i + 1,
            ).union_prefer_right(tables[i]),
        forall|i: int, a: int|
            0 <= i < tables.len() && 1 <= a <= 7 && a != i + 1 ==> #[trigger] caches[i + 1].area(a)
                == caches[i].area(a),
    ensures
        stored_areas(caches[0], caches[tables.len() as int], tables),
    decreases tables.len(),
{
    if tables.len() > 0 {
        let n = tables.len() as int;
        law_stores_compose(caches.drop_last(), tables.drop_last());
        assert(caches.drop_last()[n - 1] == caches[n - 1]);
        assert(caches.drop_last()[0] == caches[0]);
        assert forall|a: int| 1 <= a <= 7 implies #[trigger] caches[n].area(a) == if a <= n {
            caches[0].area(a).union_prefer_right(tables[a - 1])
        } else {
            caches[0].area(a)
        } by {
            assert(caches[n - 1].area(a) == if a <= n - 1 {
                caches[0].area(a).union_prefer_right(tables.drop_last()[a - 1])
            } else {
                caches[0].area(a)
            });
            if a < n {
                assert(tables.drop_last()[a - 1] == tables[a - 1]);
                assert(caches[n].area(a) == caches[n - 1].area(a));
            } else if a == n {
                assert(caches[n].area(a) == caches[n - 1].area(a).union_prefer_right(tables[n - 1]));
            } else {
                assert(caches[n].area(a) == caches[n - 1].area(a));
            }
        }
    }
}

/// Setting the same crossings in an area a second time changes nothing.
pub proof fn law_set_nodes_twice(
    once: NodeCache,
    twice: NodeCache,
    area: int,
    nodes: Map<i32, Node>,
)
    requires
        1 <= area <= 7,
        once.area(area) == nodes,
        twice.area(area) == nodes,
        forall|a: int| 1 <= a <= 7 && a != area ==> #[trigger] twice.area(a) == once.area(a),
    ensures
        forall|a: int| 1 <= a <= 7 ==> #[trigger] twice.area(a) == once.area(a),
{
}

/// After `replace_all(graphs)`, `get_graph(a)` gives a copy of `graphs[a - 1]`.
pub proof fn law_graph_cache_read_after_replace(after: GraphCache, graphs: Seq<Graph>, read: int)
    requires
        1 <= read <= 7,
        forall|a: int| 1 <= a <= 7 ==> #[trigger] after.area(a) == graphs[a - 1],
    ensures
        after.area(read).nodes@ == graphs[read - 1].nodes@,
        after.area(read).roads() == graphs[read - 1].roads(),
{
    assert(after.area(read) == graphs[read - 1]);
}

/// After `set(key, value)`, `get(key)` gives `value` and a read of any other
/// name gives what it gave before.
pub proof fn law_image_cache_read_after_set(
    before: ImgCache,
    after: ImgCache,
    key: Seq<char>,
    value: Seq<u8>,
    other: Seq<char>,
)
    requires
        after@ == before@.insert(key, value),
        key != other,
    ensures
        after@.contains_key(key) && after@[key] == value,
        after@.contains_key(other) == before@.contains_key(other),
        before@.contains_key(other) ==> after@[other] == before@[other],
{
}

/// After `remove(key)`, `get(key)` gives nothing and a read of any other name
/// gives what it gave before.
pub proof fn law_image_cache_read_after_remove(
    before: ImgCache,
    after: ImgCache,
    key: Seq<char>,
    other: Seq<char>,
)
    requires
        after@ == before@.remove(key),
        key != other,
    ensures
        !after@.contains_key(key),
        after@.contains_key(other) == before@.contains_key(other),
        before@.contains_key(other) ==> after@[other] == before@[other],
{
}

} // verus!
