//! Building blocks of the construction: registering platforms and turning
//! stairs into nodes and edges.

use vstd::prelude::*;

use crate::graph::{add_edge, add_node, graph_edges, graph_node_count, new_graph, NavGraph};
use crate::platform::{
    clamp_relative, grid_ok, is_owner_index, last_tile, owner_of, paint_rect, painted,
    platform_rect, platform_rect_of, rect_in_grid, relative_clamped, tiles_on_grid, Platform,
};
use crate::tile::{tile_distance, Tile};
use crate::walk::{lemma_total_weight_push, total_weight, EdgeSpec};

verus! {

/// The rectangles of the platforms, relative to the grid.
pub open spec fn rects_of(position: Tile, size: Tile, platforms: Seq<(Tile, Tile)>) -> Seq<(Tile, Tile)> {
    platforms.map_values(|r: (Tile, Tile)| platform_rect(position, size, r))
}

/// Platform `k` records its id, its columns, and the interval of the
/// per-column table that follows those of the platforms before it.
pub open spec fn is_platform_entry(rects: Seq<(Tile, Tile)>, ps: Seq<Platform>, k: int) -> bool {
    &&& ps[k].id == k
    &&& ps[k].left == rects[k].0.x
    &&& ps[k].right == rects[k].1.x
    &&& ps[k].span_right == ps[k].span_left + (ps[k].right - ps[k].left)
    &&& ps[k].span_left == if k == 0 {
        0
    } else {
        ps[k - 1].span_right as int
    }
}

#[verifier::opaque]
pub open spec fn is_platform_list(rects: Seq<(Tile, Tile)>, ps: Seq<Platform>) -> bool {
    &&& ps.len() == rects.len()
    &&& forall|k: int| 0 <= k < ps.len() ==> #[trigger] is_platform_entry(rects, ps, k)
}

/// Spans come one after another: an earlier platform's span ends before a later one's starts.
pub proof fn lemma_span_order(rects: Seq<(Tile, Tile)>, ps: Seq<Platform>, a: int, b: int)
    requires
        is_platform_list(rects, ps),
        forall|k: int| 0 <= k < rects.len() ==> (#[trigger] rects[k]).0.x <= rects[k].1.x,
        0 <= a < b < ps.len(),
    ensures
        ps[a].span_right <= ps[b].span_left,
    decreases b - a,
{
    reveal(is_platform_list);
    assert(is_platform_entry(rects, ps, b));
    assert(is_platform_entry(rects, ps, b - 1));
    assert(rects[b - 1].0.x <= rects[b - 1].1.x);
    if a < b - 1 {
        lemma_span_order(rects, ps, a, b - 1);
    }
}

/// Every span lies within the table of all columns.
pub proof fn lemma_span_within(rects: Seq<(Tile, Tile)>, ps: Seq<Platform>, k: int)
    requires
        is_platform_list(rects, ps),
        forall|j: int| 0 <= j < rects.len() ==> (#[trigger] rects[j]).0.x <= rects[j].1.x,
        0 <= k < ps.len(),
    ensures
        ps[k].span_left <= ps[k].span_right <= span_total(ps),
        ps[k].span_right - ps[k].span_left == ps[k].right - ps[k].left,
        ps[k].id == k,
        ps[k].left == rects[k].0.x,
        ps[k].right == rects[k].1.x,
{
    reveal(is_platform_list);
    assert(is_platform_entry(rects, ps, k));
    assert(rects[k].0.x <= rects[k].1.x);
    if k < ps.len() - 1 {
        lemma_span_order(rects, ps, k, ps.len() - 1);
        assert(is_platform_entry(rects, ps, ps.len() - 1));
        assert(rects[ps.len() - 1].0.x <= rects[ps.len() - 1].1.x);
    }
}

/// The number of columns over all platforms.
pub open spec fn span_total(ps: Seq<Platform>) -> nat {
    if ps.len() == 0 {
        0
    } else {
        ps.last().span_right as nat
    }
}

proof fn lemma_owner_index_step(
    size: Tile,
    rects: Seq<(Tile, Tile)>,
    k: int,
    before: Seq<usize>,
    after: Seq<usize>,
)
    requires
        0 <= k < rects.len(),
        k <= usize::MAX,
        is_owner_index(size, rects.subrange(0, k), before),
        painted(size, before, after, rects[k].0, rects[k].1, k as usize),
    ensures
        is_owner_index(size, rects.subrange(0, k + 1), after),
{
    reveal(is_owner_index);
    let next = rects.subrange(0, k + 1);
    assert(next.drop_last() =~= rects.subrange(0, k));
    assert(next.last() == rects[k]);
    assert(next.len() > 0);
    assert forall|i: int| 0 <= i < after.len() implies #[trigger] after[i] == owner_of(
        next,
        i / (size.y as int),
        i % (size.y as int),
    ) by {
        assert(before[i] == owner_of(rects.subrange(0, k), i / (size.y as int), i % (size.y as int)));
    }
}

proof fn lemma_platform_list_step(rects: Seq<(Tile, Tile)>, k: int, list: Seq<Platform>)
    requires
        0 <= k < rects.len(),
        list.len() == k + 1,
        is_platform_list(rects.subrange(0, k), list.drop_last()),
        list[k].id == k,
        list[k].left == rects[k].0.x,
        list[k].right == rects[k].1.x,
        list[k].span_right == list[k].span_left + (list[k].right - list[k].left),
        list[k].span_left == span_total(list.drop_last()),
    ensures
        is_platform_list(rects.subrange(0, k + 1), list),
{
    reveal(is_platform_list);
    let next = rects.subrange(0, k + 1);
    let prev = list.drop_last();
    assert forall|j: int| 0 <= j < list.len() implies #[trigger] is_platform_entry(next, list, j) by {
        if j < k {
            assert(is_platform_entry(rects.subrange(0, k), prev, j));
            assert(rects.subrange(0, k)[j] == next[j]);
            assert(prev[j] == list[j]);
            if j > 0 {
                assert(prev[j - 1] == list[j - 1]);
            }
        } else {
            assert(next[j] == rects[k]);
            if k > 0 {
                assert(prev.last() == list[k - 1]);
            }
        }
    }
}

/// Registers the platforms in order: each takes the next id and owns the tiles
/// of its rectangle, over those of earlier ones.
pub(crate) fn register_platforms(position: Tile, size: Tile, platforms: &Vec<(Tile, Tile)>) -> (r: (Vec<usize>, Vec<Platform>))
    requires
        grid_ok(size),
        platforms@.len() * size.x <= usize::MAX,
    ensures
        is_owner_index(size, rects_of(position, size, platforms@), r.0@),
        is_platform_list(rects_of(position, size, platforms@), r.1@),
        span_total(r.1@) <= platforms@.len() * size.x,
{
    let ghost rects = rects_of(position, size, platforms@);
    let n = (size.x as usize) * (size.y as usize);
    let mut index: Vec<usize> = vec![0usize; n];
    let mut list: Vec<Platform> = Vec::new();
    let mut span_left: usize = 0;
    let mut k: usize = 0;
    proof {
        reveal(is_owner_index);
        reveal(is_platform_list);
        assert(rects.subrange(0, 0) =~= Seq::<(Tile, Tile)>::empty());
    }
    while k < platforms.len()
        invariant
            grid_ok(size),
            n == size.x * size.y,
            platforms@.len() * size.x <= usize::MAX,
            rects == rects_of(position, size, platforms@),
            k <= platforms@.len(),
            index@.len() == n,
            list@.len() == k,
            is_owner_index(size, rects.subrange(0, k as int), index@),
            forall|j: int| 0 <= j < rects.len() ==> rect_in_grid(size, #[trigger] rects[j].0, rects[j].1),
            is_platform_list(rects.subrange(0, k as int), list@),
            span_left == span_total(list@),
            span_left <= k * size.x,
        decreases platforms@.len() - k,
    {
        let r = platforms[k];
        let (from, to) = platform_rect_of(position, size, r);
        assert(span_left + (to.x - from.x) <= (k + 1) * size.x <= usize::MAX) by (nonlinear_arith)
            requires
                span_left <= k * size.x,
                to.x - from.x <= size.x,
                k < platforms@.len(),
                platforms@.len() * size.x <= usize::MAX,
                size.x >= 1,
        ;
        assert(rects[k as int] == (from, to));
        let ghost old_index = index@;
        let ghost old_list = list@;
        paint_rect(&mut index, size, from, to, k);
        let span_right: usize = span_left + (to.x - from.x) as usize;
        list.push(Platform { id: k, span_left, span_right, left: from.x, right: to.x });
        proof {
            lemma_owner_index_step(size, rects, k as int, old_index, index@);
            assert(list@.drop_last() =~= old_list);
            lemma_platform_list_step(rects, k as int, list@);
        }
        span_left = span_right;
        k = k + 1;
    }
    proof {
        assert(rects.subrange(0, platforms@.len() as int) =~= rects);
    }
    (index, list)
}

/// A stair end relative to the grid, clamped onto its tiles.
pub open spec fn stair_end(position: Tile, size: Tile, p: Tile) -> Tile {
    clamp_relative(p, position, last_tile(size))
}

/// Tile `p` is one of the two ends of stair `k`.
pub open spec fn is_end_of_stair(position: Tile, size: Tile, stairs: Seq<(Tile, Tile)>, p: Tile, k: int) -> bool {
    p == stair_end(position, size, stairs[k].0) || p == stair_end(position, size, stairs[k].1)
}

/// Tile `p` is an end of some stair.
pub open spec fn is_stair_end(position: Tile, size: Tile, stairs: Seq<(Tile, Tile)>, p: Tile) -> bool {
    exists|j: int| 0 <= j < stairs.len() && #[trigger] is_end_of_stair(position, size, stairs, p, j)
}

/// Edge `j` joins the nodes at the two ends of stair `j`, weighted by their distance.
pub open spec fn is_stair_edge(position: Tile, size: Tile, stairs: Seq<(Tile, Tile)>, nodes: Seq<Tile>, edges: Seq<EdgeSpec>, j: int) -> bool {
    let e = edges[j];
    &&& e.0 < nodes.len()
    &&& e.1 < nodes.len()
    &&& nodes[e.0 as int] == stair_end(position, size, stairs[j].0)
    &&& nodes[e.1 as int] == stair_end(position, size, stairs[j].1)
    &&& e.2 == tile_distance(nodes[e.0 as int], nodes[e.1 as int])
}

/// The ends of the stairs in order: the first end of stair 0, its second
/// end, the first end of stair 1, and so on, clamped onto the grid.
pub open spec fn stair_ends(position: Tile, size: Tile, stairs: Seq<(Tile, Tile)>) -> Seq<Tile> {
    Seq::new(
        2 * stairs.len(),
        |i: int|
            if i % 2 == 0 {
                stair_end(position, size, stairs[i / 2].0)
            } else {
                stair_end(position, size, stairs[i / 2].1)
            },
    )
}

/// The distinct tiles of `s`, in order of first occurrence.
pub open spec fn first_occurrences(s: Seq<Tile>) -> Seq<Tile>
    decreases s.len(),
{
    if s.len() == 0 {
        s
    } else {
        let p = first_occurrences(s.drop_last());
        if p.contains(s.last()) {
            p
        } else {
            p.push(s.last())
        }
    }
}

/// The node at tile `pos`, added to the graph if no node is there yet.
fn node_at(g: &mut NavGraph, nodes: &mut Vec<Tile>, pos: Tile) -> (r: usize)
    requires
        graph_node_count(*old(g)) == old(nodes)@.len(),
        old(nodes)@.len() < u32::MAX,
        old(nodes)@.no_duplicates(),
    ensures
        graph_node_count(*final(g)) == final(nodes)@.len(),
        graph_edges(*final(g)) == graph_edges(*old(g)),
        final(nodes)@.no_duplicates(),
        r < final(nodes)@.len(),
        final(nodes)@[r as int] == pos,
        old(nodes)@.contains(pos) ==> final(nodes)@ == old(nodes)@,
        !old(nodes)@.contains(pos) ==> final(nodes)@ == old(nodes)@.push(pos),
{
    let mut i: usize = 0;
    while i < nodes.len()
        invariant
            nodes@ == old(nodes)@,
            *g == *old(g),
            graph_node_count(*old(g)) == old(nodes)@.len(),
            old(nodes)@.no_duplicates(),
            i <= nodes@.len(),
            forall|k: int| 0 <= k < i ==> nodes@[k] != pos,
        decreases nodes@.len() - i,
    {
        if nodes[i] == pos {
            return i;
        }
        i = i + 1;
    }
    let r = add_node(g);
    nodes.push(pos);
    r
}

/// Adds a node for every distinct stair end and an edge for every stair.
pub(crate) fn build_stair_graph(position: Tile, size: Tile, stairs: &Vec<(Tile, Tile)>) -> (r: (NavGraph, Vec<Tile>, Ghost<Seq<int>>))
    requires
        grid_ok(size),
        stairs@.len() <= 0x10_0000,
    ensures
        graph_node_count(r.0) == r.1@.len(),
        r.1@ == first_occurrences(stair_ends(position, size, stairs@)),
        r.1@.len() <= 2 * stairs@.len(),
        r.1@.no_duplicates(),
        tiles_on_grid(size, r.1@),
        r.2@.len() == r.1@.len(),
        forall|i: int|
            0 <= i < r.1@.len() ==> 0 <= #[trigger] r.2@[i] < stairs@.len() && is_end_of_stair(
                position,
                size,
                stairs@,
                r.1@[i],
                r.2@[i],
            ),
        graph_edges(r.0).len() == stairs@.len(),
        forall|j: int| 0 <= j < stairs@.len() ==> is_stair_edge(position, size, stairs@, r.1@, graph_edges(r.0), j),
        total_weight(graph_edges(r.0)) <= stairs@.len() * 0x400_0000_0000,
{
    let mut g = new_graph();
    let mut nodes: Vec<Tile> = Vec::new();
    let extent = Tile { x: size.x - 1, y: size.y - 1 };
    let mut j: usize = 0;
    let ghost mut which: Seq<int> = Seq::empty();
    let ghost ends = stair_ends(position, size, stairs@);
    assert(ends.take(0) =~= Seq::<Tile>::empty());
    while j < stairs.len()
        invariant
            grid_ok(size),
            extent == last_tile(size),
            stairs@.len() <= 0x10_0000,
            j <= stairs@.len(),
            graph_node_count(g) == nodes@.len(),
            ends == stair_ends(position, size, stairs@),
            nodes@ == first_occurrences(ends.take(2 * j)),
            nodes@.len() <= 2 * j,
            nodes@.no_duplicates(),
            tiles_on_grid(size, nodes@),
            which.len() == nodes@.len(),
            forall|i: int|
                0 <= i < nodes@.len() ==> 0 <= #[trigger] which[i] < j && is_end_of_stair(
                    position,
                    size,
                    stairs@,
                    nodes@[i],
                    which[i],
                ),
            graph_edges(g).len() == j,
            forall|k: int| 0 <= k < j ==> is_stair_edge(position, size, stairs@, nodes@, graph_edges(g), k),
            total_weight(graph_edges(g)) <= j * 0x400_0000_0000,
        decreases stairs@.len() - j,
    {
        let (a, b) = stairs[j];
        let src = relative_clamped(a, position, extent);
        let dst = relative_clamped(b, position, extent);
        let ghost nodes0 = nodes@;
        let ghost edges0 = graph_edges(g);
        let node_src = node_at(&mut g, &mut nodes, src);
        let ghost nodes1 = nodes@;
        proof {
            let jj = j as int;
            assert(ends.take(2 * jj + 1).drop_last() =~= ends.take(2 * jj));
            assert((2 * jj) % 2 == 0 && (2 * jj) / 2 == jj);
            assert(ends.take(2 * jj + 1).last() == src);
            assert(nodes1 == first_occurrences(ends.take(2 * jj + 1)));
        }
        let node_dst = node_at(&mut g, &mut nodes, dst);
        proof {
            let jj = j as int;
            assert(ends.take(2 * jj + 2).drop_last() =~= ends.take(2 * jj + 1));
            assert((2 * jj + 1) % 2 == 1 && (2 * jj + 1) / 2 == jj);
            assert(ends.take(2 * jj + 2).last() == dst);
            assert(nodes@ == first_occurrences(ends.take(2 * jj + 2)));
        }
        let weight = src.distance(&dst);
        add_edge(&mut g, node_src, node_dst, weight);
        proof {
            lemma_total_weight_push(edges0, (node_src as nat, node_dst as nat, weight as nat));
            assert forall|k: int| 0 <= k < j + 1 implies is_stair_edge(position, size, stairs@, nodes@, graph_edges(g), k) by {
                if k < j {
                    assert(is_stair_edge(position, size, stairs@, nodes0, edges0, k));
                    assert(graph_edges(g)[k] == edges0[k]);
                    let e = edges0[k];
                    assert(nodes1[e.0 as int] == nodes0[e.0 as int]);
                    assert(nodes@[e.0 as int] == nodes1[e.0 as int]);
                    assert(nodes1[e.1 as int] == nodes0[e.1 as int]);
                    assert(nodes@[e.1 as int] == nodes1[e.1 as int]);
                }
            }
            let ghost which0 = which;
            which = which + Seq::new((nodes@.len() - nodes0.len()) as nat, |_i: int| j as int);
            assert forall|i: int| 0 <= i < nodes@.len() implies 0 <= #[trigger] which[i] < j + 1
                && is_end_of_stair(position, size, stairs@, nodes@[i], which[i]) by {
                if i < nodes0.len() {
                    assert(nodes@[i] == nodes0[i]);
                    assert(which[i] == which0[i]);
                } else {
                    assert(nodes@[i] == src || nodes@[i] == dst);
                    assert(which[i] == j);
                }
            }
        }
        j = j + 1;
    }
    assert(ends.take(2 * j) =~= ends);
    (g, nodes, Ghost(which))
}

} // verus!
