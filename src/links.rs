//! The edges that walk along a platform between neighbouring nodes, and the
//! per-column table of the nearest nodes on either side.

use vstd::prelude::*;

use crate::graph::{add_edge, graph_edges, graph_node_count, NavGraph};
use crate::platform::{flat, flat_index, grid_ok, tiles_on_grid};
use crate::sort::sorted_by_column;
use crate::tile::{tile_distance, Tile};
use crate::walk::{
    lemma_reachable_edge, lemma_reachable_more_edges, lemma_reachable_self, lemma_reachable_symmetric,
    lemma_reachable_trans, lemma_total_weight_push, reachable, total_weight, EdgeSpec,
};
use vstd::seq_lib::to_multiset_contains;

verus! {

/// The platform that owns tile `t`, as the per-tile index records it.
pub open spec fn owner_at(size: Tile, index: Seq<usize>, t: Tile) -> int {
    index[flat(size, t.x as int, t.y as int)] as int
}

/// Node `m` stands on platform `p`.
pub open spec fn node_on(size: Tile, index: Seq<usize>, nodes: Seq<Tile>, m: int, p: int) -> bool {
    0 <= m < nodes.len() && owner_at(size, index, nodes[m]) == p
}

/// The number of nodes among the first `i` that stand on platform `p`.
pub open spec fn count_on(size: Tile, index: Seq<usize>, nodes: Seq<Tile>, p: int, i: int) -> nat
    decreases i,
{
    if i <= 0 {
        0
    } else {
        count_on(size, index, nodes, p, i - 1) + if owner_at(size, index, nodes[i - 1]) == p {
            1nat
        } else {
            0nat
        }
    }
}

/// The number of nodes among the first `i` that stand on a platform below `p`.
pub open spec fn count_below(size: Tile, index: Seq<usize>, nodes: Seq<Tile>, p: int, i: int) -> nat
    decreases i,
{
    if i <= 0 {
        0
    } else {
        count_below(size, index, nodes, p, i - 1) + if 0 <= owner_at(size, index, nodes[i - 1]) < p {
            1nat
        } else {
            0nat
        }
    }
}

pub(crate) proof fn lemma_count_below_step(size: Tile, index: Seq<usize>, nodes: Seq<Tile>, p: int, i: int)
    requires
        p >= 0,
    ensures
        count_below(size, index, nodes, p + 1, i) == count_below(size, index, nodes, p, i) + count_on(
            size,
            index,
            nodes,
            p,
            i,
        ),
    decreases i,
{
    if i > 0 {
        lemma_count_below_step(size, index, nodes, p, i - 1);
    }
}

pub(crate) proof fn lemma_count_below_bound(size: Tile, index: Seq<usize>, nodes: Seq<Tile>, p: int, i: int)
    requires
        i >= 0,
    ensures
        count_below(size, index, nodes, p, i) <= i,
    decreases i,
{
    if i > 0 {
        lemma_count_below_bound(size, index, nodes, p, i - 1);
    }
}

/// Edge `e` walks along a platform between two of its nodes that are
/// neighbours by column: no node of that platform stands strictly between them.
pub open spec fn is_walk_edge(size: Tile, index: Seq<usize>, nodes: Seq<Tile>, e: EdgeSpec) -> bool {
    let p = owner_at(size, index, nodes[e.0 as int]);
    &&& e.0 < nodes.len()
    &&& e.1 < nodes.len()
    &&& owner_at(size, index, nodes[e.1 as int]) == p
    &&& nodes[e.0 as int].x <= nodes[e.1 as int].x
    &&& e.2 == tile_distance(nodes[e.0 as int], nodes[e.1 as int])
    &&& forall|m: int|
        #[trigger] node_on(size, index, nodes, m, p) ==> !(nodes[e.0 as int].x < nodes[m].x < nodes[e.1 as int].x)
}

/// The nodes that stand on platform `p`, with their tiles, in index order.
fn nodes_on_platform(size: Tile, index: &Vec<usize>, nodes: &Vec<Tile>, p: usize) -> (r: Vec<(usize, Tile)>)
    requires
        grid_ok(size),
        index@.len() == size.x * size.y,
        tiles_on_grid(size, nodes@),
    ensures
        r@.len() == count_on(size, index@, nodes@, p as int, nodes@.len() as int),
        forall|k: int|
            0 <= k < r@.len() ==> node_on(size, index@, nodes@, (#[trigger] r@[k]).0 as int, p as int)
                && r@[k].1 == nodes@[r@[k].0 as int],
        forall|m: int| #[trigger] node_on(size, index@, nodes@, m, p as int) ==> r@.contains((m as usize, nodes@[m])),
{
    let mut r: Vec<(usize, Tile)> = Vec::new();
    let mut i: usize = 0;
    while i < nodes.len()
        invariant
            grid_ok(size),
            index@.len() == size.x * size.y,
            tiles_on_grid(size, nodes@),
            i <= nodes@.len(),
            r@.len() == count_on(size, index@, nodes@, p as int, i as int),
            forall|k: int|
                0 <= k < r@.len() ==> node_on(size, index@, nodes@, (#[trigger] r@[k]).0 as int, p as int)
                    && r@[k].1 == nodes@[r@[k].0 as int],
            forall|m: int|
                0 <= m < i && #[trigger] node_on(size, index@, nodes@, m, p as int) ==> r@.contains(
                    (m as usize, nodes@[m]),
                ),
        decreases nodes@.len() - i,
    {
        let t = nodes[i];
        assert(0 <= t.x < size.x && 0 <= t.y < size.y);
        let o = index[flat_index(size, t.x, t.y)];
        let ghost before = r@;
        if o == p {
            r.push((i, t));
            proof {
                assert forall|m: int|
                    0 <= m < i + 1 && #[trigger] node_on(size, index@, nodes@, m, p as int) implies r@.contains(
                        (m as usize, nodes@[m]),
                    ) by {
                    if m < i {
                        let k = choose|k: int| 0 <= k < before.len() && before[k] == (m as usize, nodes@[m]);
                        assert(r@[k] == before[k]);
                    } else {
                        assert(r@[before.len() as int] == (i, t));
                    }
                }
            }
        }
        i = i + 1;
    }
    r
}

/// `list` holds exactly the nodes of platform `p`, each with its tile.
pub open spec fn is_platform_nodes(size: Tile, index: Seq<usize>, nodes: Seq<Tile>, p: int, list: Seq<(usize, Tile)>) -> bool {
    &&& forall|k: int|
        0 <= k < list.len() ==> node_on(size, index, nodes, (#[trigger] list[k]).0 as int, p)
            && list[k].1 == nodes[list[k].0 as int]
    &&& forall|m: int| #[trigger] node_on(size, index, nodes, m, p) ==> list.contains((m as usize, nodes[m]))
}

/// The edges joining each item of `list` to the next, weighted by distance.
pub open spec fn chain_edges(list: Seq<(usize, Tile)>) -> Seq<EdgeSpec>
    decreases list.len(),
{
    if list.len() <= 1 {
        Seq::empty()
    } else {
        let a = list[list.len() - 2];
        let b = list[list.len() - 1];
        chain_edges(list.drop_last()).push((a.0 as nat, b.0 as nat, tile_distance(a.1, b.1)))
    }
}

/// The chain edges of each list in turn.
pub open spec fn chains(lists: Seq<Seq<(usize, Tile)>>) -> Seq<EdgeSpec>
    decreases lists.len(),
{
    if lists.len() == 0 {
        Seq::empty()
    } else {
        chains(lists.drop_last()) + chain_edges(lists.last())
    }
}

/// `list` is in ascending order of column.
pub open spec fn sorted_by_x(list: Seq<(usize, Tile)>) -> bool {
    forall|i: int, j: int| 0 <= i <= j < list.len() ==> list[i].1.x <= list[j].1.x
}

/// Joins each pair of neighbouring nodes (by column) of platform `p` with an
/// edge, and hands back the nodes of `p` sorted by column.
pub(crate) fn link_platform(g: &mut NavGraph, size: Tile, index: &Vec<usize>, nodes: &Vec<Tile>, p: usize) -> (r: Vec<(usize, Tile)>)
    requires
        grid_ok(size),
        index@.len() == size.x * size.y,
        tiles_on_grid(size, nodes@),
        graph_node_count(*old(g)) == nodes@.len(),
        nodes@.len() < NO_NODE,
        graph_edges(*old(g)).len() + count_on(size, index@, nodes@, p as int, nodes@.len() as int) < u32::MAX,
    ensures
        graph_node_count(*final(g)) == nodes@.len(),
        graph_edges(*final(g)).len() <= graph_edges(*old(g)).len() + count_on(
            size,
            index@,
            nodes@,
            p as int,
            nodes@.len() as int,
        ),
        graph_edges(*final(g)).len() >= graph_edges(*old(g)).len(),
        graph_edges(*final(g)).subrange(0, graph_edges(*old(g)).len() as int) == graph_edges(*old(g)),
        graph_edges(*final(g)) == graph_edges(*old(g)) + chain_edges(r@),
        r@.len() == count_on(size, index@, nodes@, p as int, nodes@.len() as int),
        forall|k: int|
            graph_edges(*old(g)).len() <= k < graph_edges(*final(g)).len() ==> is_walk_edge(
                size,
                index@,
                nodes@,
                #[trigger] graph_edges(*final(g))[k],
            ),
        total_weight(graph_edges(*final(g))) <= total_weight(graph_edges(*old(g))) + (graph_edges(
            *final(g),
        ).len() - graph_edges(*old(g)).len()) * 0x400_0000_0000,
        is_platform_nodes(size, index@, nodes@, p as int, r@),
        sorted_by_x(r@),
        forall|m1: int, m2: int|
            node_on(size, index@, nodes@, m1, p as int) && node_on(size, index@, nodes@, m2, p as int) ==> #[trigger] reachable(
                graph_edges(*final(g)),
                m1 as nat,
                m2 as nat,
            ),
{
    let list = nodes_on_platform(size, index, nodes, p);
    let sorted = sorted_by_column(list);
    let ghost lv = list@;
    proof {
        assert forall|k: int| 0 <= k < sorted@.len() implies node_on(size, index@, nodes@, (#[trigger] sorted@[k]).0 as int, p as int)
            && sorted@[k].1 == nodes@[sorted@[k].0 as int] by {
            to_multiset_contains(sorted@, sorted@[k]);
            to_multiset_contains(lv, sorted@[k]);
            let j = choose|j: int| 0 <= j < lv.len() && lv[j] == sorted@[k];
        }
        assert forall|m: int| #[trigger] node_on(size, index@, nodes@, m, p as int) implies sorted@.contains((m as usize, nodes@[m])) by {
            to_multiset_contains(sorted@, (m as usize, nodes@[m]));
            to_multiset_contains(lv, (m as usize, nodes@[m]));
        }
        to_multiset_contains(sorted@, sorted@[0]);
        assert(sorted@.len() == lv.len()) by {
            vstd::seq_lib::to_multiset_len(sorted@);
            vstd::seq_lib::to_multiset_len(lv);
        }
    }
    let ghost e0 = graph_edges(*g);
    let mut i: usize = 1;
    proof {
        if sorted@.len() > 0 {
            lemma_reachable_self(e0, sorted@[0].0 as nat);
            assert(chain_edges(sorted@.take(1)) =~= Seq::<EdgeSpec>::empty());
            assert(e0 + Seq::<EdgeSpec>::empty() =~= e0);
        }
    }
    while i < sorted.len()
        invariant
            grid_ok(size),
            index@.len() == size.x * size.y,
            tiles_on_grid(size, nodes@),
            graph_node_count(*g) == nodes@.len(),
            e0.len() + sorted@.len() < u32::MAX,
            sorted@.len() == count_on(size, index@, nodes@, p as int, nodes@.len() as int),
            is_platform_nodes(size, index@, nodes@, p as int, sorted@),
            sorted_by_x(sorted@),
            1 <= i,
            i <= sorted@.len() || i == 1,
            graph_edges(*g).len() == e0.len() + i - 1,
            graph_edges(*g).subrange(0, e0.len() as int) == e0,
            forall|k: int|
                e0.len() <= k < graph_edges(*g).len() ==> is_walk_edge(size, index@, nodes@, #[trigger] graph_edges(*g)[k]),
            total_weight(graph_edges(*g)) <= total_weight(e0) + (graph_edges(*g).len() - e0.len()) * 0x400_0000_0000,
            forall|k: int|
                0 <= k < i && k < sorted@.len() ==> #[trigger] reachable(graph_edges(*g), sorted@[0].0 as nat, sorted@[k].0 as nat),
            sorted@.len() > 0 ==> graph_edges(*g) == e0 + chain_edges(sorted@.take(i as int)),
            sorted@.len() == 0 ==> graph_edges(*g) == e0,
        decreases sorted@.len() - i,
    {
        let (node_src, src) = sorted[i - 1];
        let (node_dst, dst) = sorted[i];
        let weight = src.distance(&dst);
        let ghost before = graph_edges(*g);
        add_edge(g, node_src, node_dst, weight);
        proof {
            let e = (node_src as nat, node_dst as nat, weight as nat);
            lemma_total_weight_push(before, e);
            assert(graph_edges(*g).subrange(0, e0.len() as int) =~= before.subrange(0, e0.len() as int));
            let pp = p as int;
            assert forall|m: int| #[trigger] node_on(size, index@, nodes@, m, pp) implies !(src.x < nodes@[m].x < dst.x) by {
                let k = choose|k: int| 0 <= k < sorted@.len() && sorted@[k] == (m as usize, nodes@[m]);
                if k <= i - 1 {
                    assert(sorted@[k].1.x <= sorted@[i - 1].1.x);
                } else {
                    assert(sorted@[i as int].1.x <= sorted@[k].1.x);
                }
            }
            assert(node_on(size, index@, nodes@, node_src as int, pp));
            assert(node_on(size, index@, nodes@, node_dst as int, pp));
            assert(is_walk_edge(size, index@, nodes@, e));
            assert forall|k: int|
                e0.len() <= k < graph_edges(*g).len() implies is_walk_edge(size, index@, nodes@, #[trigger] graph_edges(*g)[k]) by {
                if k < before.len() {
                    assert(graph_edges(*g)[k] == before[k]);
                }
            }
            let after = graph_edges(*g);
            assert(after.subrange(0, before.len() as int) =~= before);
            let ii = i as int;
            assert(sorted@.take(ii + 1).drop_last() =~= sorted@.take(ii));
            assert(sorted@.take(ii + 1)[ii - 1] == sorted@[ii - 1]);
            assert(sorted@.take(ii + 1)[ii] == sorted@[ii]);
            assert(after =~= e0 + chain_edges(sorted@.take(ii + 1)));
            let first = sorted@[0].0 as nat;
            assert forall|k: int| 0 <= k < i + 1 && k < sorted@.len() implies #[trigger] reachable(after, first, sorted@[k].0 as nat) by {
                if k < i {
                    lemma_reachable_more_edges(before, after, first, sorted@[k].0 as nat);
                } else {
                    lemma_reachable_more_edges(before, after, first, sorted@[k - 1].0 as nat);
                    lemma_reachable_edge(after, before.len() as int);
                    lemma_reachable_trans(after, first, sorted@[k - 1].0 as nat, sorted@[k].0 as nat);
                }
            }
        }
        i = i + 1;
    }
    proof {
        if sorted@.len() > 0 {
            assert(sorted@.take(i as int) =~= sorted@);
        } else {
            assert(chain_edges(sorted@) =~= Seq::<EdgeSpec>::empty());
            assert(e0 + Seq::<EdgeSpec>::empty() =~= e0);
        }
        let edges = graph_edges(*g);
        assert forall|m1: int, m2: int|
            node_on(size, index@, nodes@, m1, p as int) && node_on(size, index@, nodes@, m2, p as int) implies #[trigger] reachable(
                edges,
                m1 as nat,
                m2 as nat,
            ) by {
            let k1 = choose|k: int| 0 <= k < sorted@.len() && sorted@[k] == (m1 as usize, nodes@[m1]);
            let k2 = choose|k: int| 0 <= k < sorted@.len() && sorted@[k] == (m2 as usize, nodes@[m2]);
            let first = sorted@[0].0 as nat;
            assert(sorted@[k1].0 as nat == m1 && sorted@[k2].0 as nat == m2);
            assert(reachable(edges, first, sorted@[k1].0 as nat));
            assert(reachable(edges, first, sorted@[k2].0 as nat));
            lemma_reachable_symmetric(edges, first, m1 as nat);
            lemma_reachable_trans(edges, m1 as nat, first, m2 as nat);
        }
    }
    sorted
}

/// The marker for "no node" in the per-column table.
pub const NO_NODE: usize = usize::MAX;

/// `e` is the nearest node of platform `p` at or left of column `c`, or
/// `NO_NODE` where `p` has none there.
pub open spec fn is_left_bracket(size: Tile, index: Seq<usize>, nodes: Seq<Tile>, p: int, c: int, e: usize) -> bool {
    if e == NO_NODE {
        forall|m: int| #[trigger] node_on(size, index, nodes, m, p) ==> nodes[m].x > c
    } else {
        &&& node_on(size, index, nodes, e as int, p)
        &&& nodes[e as int].x <= c
        &&& forall|m: int|
            #[trigger] node_on(size, index, nodes, m, p) && nodes[m].x <= c ==> nodes[m].x <= nodes[e as int].x
    }
}

/// `e` is the nearest node of platform `p` at or right of column `c`, or
/// `NO_NODE` where `p` has none there.
pub open spec fn is_right_bracket(size: Tile, index: Seq<usize>, nodes: Seq<Tile>, p: int, c: int, e: usize) -> bool {
    if e == NO_NODE {
        forall|m: int| #[trigger] node_on(size, index, nodes, m, p) ==> nodes[m].x < c
    } else {
        &&& node_on(size, index, nodes, e as int, p)
        &&& nodes[e as int].x >= c
        &&& forall|m: int|
            #[trigger] node_on(size, index, nodes, m, p) && nodes[m].x >= c ==> nodes[m].x >= nodes[e as int].x
    }
}

/// The entry for column `c` of platform `p`: the nearest nodes of `p` on either side.
pub open spec fn is_column_entry(size: Tile, index: Seq<usize>, nodes: Seq<Tile>, p: int, c: int, e: (usize, usize)) -> bool {
    is_left_bracket(size, index, nodes, p, c, e.0) && is_right_bracket(size, index, nodes, p, c, e.1)
}

/// Writes, for each column from `left` to `right` of platform `p`, the nearest
/// nodes of `p` on either side, at the table entries from `span_left` on.
pub(crate) fn fill_columns(
    table: &mut Vec<(usize, usize)>,
    span_left: usize,
    left: i32,
    right: i32,
    size: Tile,
    index: &Vec<usize>,
    nodes: &Vec<Tile>,
    p: usize,
    sorted: &Vec<(usize, Tile)>,
)
    requires
        left <= right,
        span_left + (right - left) <= old(table)@.len(),
        old(table)@.len() <= usize::MAX,
        nodes@.len() < NO_NODE,
        is_platform_nodes(size, index@, nodes@, p as int, sorted@),
        sorted_by_x(sorted@),
    ensures
        final(table)@.len() == old(table)@.len(),
        forall|c: int|
            left <= c < right ==> is_column_entry(
                size,
                index@,
                nodes@,
                p as int,
                c,
                #[trigger] final(table)@[span_left + (c - left)],
            ),
        forall|i: int|
            0 <= i < final(table)@.len() && !(span_left <= i < span_left + (right - left)) ==> #[trigger] final(table)@[i]
                == old(table)@[i],
{
    let ghost t0 = table@;
    let mut c: i32 = left;
    let mut j: usize = 0;
    while c < right
        invariant
            left <= c <= right,
            span_left + (right - left) <= t0.len(),
            t0.len() <= usize::MAX,
            nodes@.len() < NO_NODE,
            is_platform_nodes(size, index@, nodes@, p as int, sorted@),
            sorted_by_x(sorted@),
            table@.len() == t0.len(),
            j <= sorted@.len(),
            forall|k: int| 0 <= k < j ==> (#[trigger] sorted@[k]).1.x < c,
            forall|cc: int|
                left <= cc < c ==> is_column_entry(size, index@, nodes@, p as int, cc, #[trigger] table@[span_left + (cc - left)]),
            forall|i: int|
                0 <= i < table@.len() && !(span_left <= i < span_left + (c - left)) ==> #[trigger] table@[i] == t0[i],
        decreases right - c,
    {
        while j < sorted.len() && sorted[j].1.x < c
            invariant
                j <= sorted@.len(),
                forall|k: int| 0 <= k < j ==> (#[trigger] sorted@[k]).1.x < c,
            decreases sorted@.len() - j,
        {
            j = j + 1;
        }
        let entry = if j < sorted.len() && sorted[j].1.x == c {
            (sorted[j].0, sorted[j].0)
        } else {
            (if j > 0 {
                sorted[j - 1].0
            } else {
                NO_NODE
            }, if j < sorted.len() {
                sorted[j].0
            } else {
                NO_NODE
            })
        };
        proof {
            let pp = p as int;
            let cc = c as int;
            assert(is_column_entry(size, index@, nodes@, pp, cc, entry)) by {
                if j < sorted@.len() {
                    assert(node_on(size, index@, nodes@, sorted@[j as int].0 as int, pp));
                }
                if j > 0 {
                    assert(node_on(size, index@, nodes@, sorted@[j - 1].0 as int, pp));
                }
                assert forall|m: int| #[trigger] node_on(size, index@, nodes@, m, pp) implies {
                    &&& (nodes@[m].x <= cc ==> (entry.0 != NO_NODE && nodes@[m].x <= nodes@[entry.0 as int].x))
                    &&& (nodes@[m].x >= cc ==> (entry.1 != NO_NODE && nodes@[m].x >= nodes@[entry.1 as int].x))
                } by {
                    let k = choose|k: int| 0 <= k < sorted@.len() && sorted@[k] == (m as usize, nodes@[m]);
                    if k < j {
                        assert(sorted@[k].1.x <= sorted@[j - 1].1.x);
                    } else {
                        assert(sorted@[j as int].1.x <= sorted@[k].1.x);
                    }
                }
            }
        }
        let offset: usize = (c as i64 - left as i64) as usize;
        table.set(span_left + offset, entry);
        c = c + 1;
    }
}

/// Among the first `i` nodes, the one of platform `p` furthest right at or
/// left of column `c` (the first such on a tie), or `NO_NODE`.
pub open spec fn left_scan(size: Tile, index: Seq<usize>, nodes: Seq<Tile>, p: int, c: int, i: int) -> usize
    decreases i,
{
    if i <= 0 {
        NO_NODE
    } else {
        let prev = left_scan(size, index, nodes, p, c, i - 1);
        let m = i - 1;
        if node_on(size, index, nodes, m, p) && nodes[m].x <= c && (prev == NO_NODE || nodes[m].x
            > nodes[prev as int].x) {
            m as usize
        } else {
            prev
        }
    }
}

/// Among the first `i` nodes, the one of platform `p` furthest left at or
/// right of column `c` (the first such on a tie), or `NO_NODE`.
pub open spec fn right_scan(size: Tile, index: Seq<usize>, nodes: Seq<Tile>, p: int, c: int, i: int) -> usize
    decreases i,
{
    if i <= 0 {
        NO_NODE
    } else {
        let prev = right_scan(size, index, nodes, p, c, i - 1);
        let m = i - 1;
        if node_on(size, index, nodes, m, p) && nodes[m].x >= c && (prev == NO_NODE || nodes[m].x
            < nodes[prev as int].x) {
            m as usize
        } else {
            prev
        }
    }
}

proof fn lemma_scan_prefix(size: Tile, index: Seq<usize>, nodes: Seq<Tile>, p: int, c: int, i: int)
    requires
        0 <= i <= nodes.len(),
        nodes.len() < NO_NODE,
    ensures
        ({
            let l = left_scan(size, index, nodes, p, c, i);
            if l == NO_NODE {
                forall|m: int| 0 <= m < i && #[trigger] node_on(size, index, nodes, m, p) ==> nodes[m].x > c
            } else {
                &&& l < i
                &&& node_on(size, index, nodes, l as int, p)
                &&& nodes[l as int].x <= c
                &&& forall|m: int|
                    0 <= m < i && #[trigger] node_on(size, index, nodes, m, p) && nodes[m].x <= c ==> nodes[m].x
                        <= nodes[l as int].x
            }
        }),
        ({
            let r = right_scan(size, index, nodes, p, c, i);
            if r == NO_NODE {
                forall|m: int| 0 <= m < i && #[trigger] node_on(size, index, nodes, m, p) ==> nodes[m].x < c
            } else {
                &&& r < i
                &&& node_on(size, index, nodes, r as int, p)
                &&& nodes[r as int].x >= c
                &&& forall|m: int|
                    0 <= m < i && #[trigger] node_on(size, index, nodes, m, p) && nodes[m].x >= c ==> nodes[m].x
                        >= nodes[r as int].x
            }
        }),
    decreases i,
{
    if i > 0 {
        lemma_scan_prefix(size, index, nodes, p, c, i - 1);
    }
}

/// The scan over all nodes gives the nearest nodes of `p` on either side of `c`.
pub proof fn lemma_scan_brackets(size: Tile, index: Seq<usize>, nodes: Seq<Tile>, p: int, c: int)
    requires
        nodes.len() < NO_NODE,
    ensures
        is_column_entry(
            size,
            index,
            nodes,
            p,
            c,
            (
                left_scan(size, index, nodes, p, c, nodes.len() as int),
                right_scan(size, index, nodes, p, c, nodes.len() as int),
            ),
        ),
{
    lemma_scan_prefix(size, index, nodes, p, c, nodes.len() as int);
}

/// The nearest nodes of platform `p` on either side of column `c`, found by
/// looking at every node.
pub fn scan_column(size: Tile, index: &Vec<usize>, nodes: &Vec<Tile>, p: usize, c: i32) -> (r: (usize, usize))
    requires
        grid_ok(size),
        index@.len() == size.x * size.y,
        tiles_on_grid(size, nodes@),
        nodes@.len() < NO_NODE,
    ensures
        r == (
            left_scan(size, index@, nodes@, p as int, c as int, nodes@.len() as int),
            right_scan(size, index@, nodes@, p as int, c as int, nodes@.len() as int),
        ),
{
    let mut l: usize = NO_NODE;
    let mut r: usize = NO_NODE;
    let mut i: usize = 0;
    while i < nodes.len()
        invariant
            grid_ok(size),
            index@.len() == size.x * size.y,
            tiles_on_grid(size, nodes@),
            nodes@.len() < NO_NODE,
            i <= nodes@.len(),
            l == left_scan(size, index@, nodes@, p as int, c as int, i as int),
            r == right_scan(size, index@, nodes@, p as int, c as int, i as int),
        decreases nodes@.len() - i,
    {
        proof {
            lemma_scan_prefix(size, index@, nodes@, p as int, c as int, i as int);
        }
        let t = nodes[i];
        let o = index[flat_index(size, t.x, t.y)];
        if o == p && t.x <= c && (l == NO_NODE || t.x > nodes[l].x) {
            l = i;
        }
        if o == p && t.x >= c && (r == NO_NODE || t.x < nodes[r].x) {
            r = i;
        }
        i = i + 1;
    }
    (l, r)
}

} // verus!
