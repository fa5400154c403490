//! The graph-based planner: construction, lookups, and the movement intent.

use vstd::prelude::*;

use crate::construct::{
    first_occurrences, stair_ends, build_stair_graph, is_end_of_stair, is_platform_list, is_stair_edge, is_stair_end,
    lemma_span_order, lemma_span_within, rects_of, register_platforms, span_total,
};
use crate::graph::{graph_edges, graph_node_count, NavGraph};
use crate::intent::{
    horizontal_intent, horizontal_toward, vertical_intent, vertical_toward, MoveIntendHorizontal,
    MoveIntendVertical,
};
use crate::links::{
    chains, count_on, is_platform_nodes, sorted_by_x, count_below, fill_columns, is_column_entry, is_walk_edge, lemma_count_below_bound,
    lemma_count_below_step, lemma_scan_brackets, left_scan, link_platform, node_on, right_scan,
    scan_column, NO_NODE,
};
use crate::platform::{
    clamp_relative, flat, flat_index, grid_ok, is_owner_index, last_tile, rect_in_grid,
    lemma_owner_bound, platform_rect, relative_clamped, tiles_on_grid, Platform,
};
use crate::routes::{
    is_distance_matrix, is_distance_row, is_next_hop, is_next_hop_table, min_weight_at_least,
    next_hop_matrix, shortest_distance_matrix,
};
use crate::tile::{lemma_tile_distance_positive, tile_distance, Tile, DISTANCE_SCALE};
use crate::walk::{
    edges_within, lemma_reachable_more_edges, lemma_reachable_trans, reachable, total_weight, EdgeSpec,
};

verus! {

/// The navigation structure of a level: which platform owns each tile, the
/// stair graph, and the routing tables over it. Built once, read-only after.
pub struct PathFinder {
    /// The grid's first tile.
    pub position: Tile,
    /// The grid's size in tiles.
    pub size: Tile,
    /// The owning platform of each tile, column after column.
    pub platforms_index: Vec<usize>,
    pub platforms: Vec<Platform>,
    /// For each column of each platform (at the platform's span), the nearest
    /// nodes of that platform to the left and to the right.
    pub platform_to_nodes: Vec<(usize, usize)>,
    /// The tile of each node, relative to the grid.
    pub node_position: Vec<Tile>,
    pub graph: NavGraph,
    /// Shortest distance between every two nodes, `None` where unreachable.
    pub shortest_distance: Vec<Vec<Option<u64>>>,
    /// Next hop from every node toward every node, `None` where unreachable.
    pub next_step: Vec<Vec<Option<usize>>>,
    /// The platforms' rectangles, relative to the grid.
    pub rects: Ghost<Seq<(Tile, Tile)>>,
    /// For each platform, its nodes (with their tiles) in the column order in
    /// which the edges along it join them.
    pub walk_order: Ghost<Seq<Seq<(usize, Tile)>>>,
}

impl PathFinder {
    /// The number of nodes.
    pub open spec fn node_count(&self) -> nat {
        self.node_position@.len()
    }

    pub open spec fn edges(&self) -> Seq<EdgeSpec> {
        graph_edges(self.graph)
    }

    /// Every column of every platform has its entry in the per-column table.
    pub open spec fn columns_ok(&self) -> bool {
        forall|k: int, c: int|
            0 <= k < self.platforms@.len() && self.platforms@[k].left <= c < self.platforms@[k].right
                ==> is_column_entry(
                self.size,
                self.platforms_index@,
                self.node_position@,
                k,
                c,
                #[trigger] self.platform_to_nodes@[self.platforms@[k].span_left + (c - self.platforms@[k].left)],
            )
    }

    pub open spec fn wf(&self) -> bool {
        &&& grid_ok(self.size)
        &&& forall|k: int|
            0 <= k < self.rects@.len() ==> rect_in_grid(self.size, #[trigger] self.rects@[k].0, self.rects@[k].1)
        &&& is_owner_index(self.size, self.rects@, self.platforms_index@)
        &&& is_platform_list(self.rects@, self.platforms@)
        &&& self.platform_to_nodes@.len() == span_total(self.platforms@)
        &&& self.columns_ok()
        &&& graph_node_count(self.graph) == self.node_count()
        &&& self.node_count() < u32::MAX
        &&& self.node_position@.no_duplicates()
        &&& tiles_on_grid(self.size, self.node_position@)
        &&& edges_within(self.edges(), self.node_count())
        &&& min_weight_at_least(self.edges(), DISTANCE_SCALE as nat)
        &&& is_distance_matrix(self.edges(), self.node_count(), self.shortest_distance@)
        &&& is_next_hop_table(self.edges(), self.shortest_distance@, self.next_step@)
        &&& total_weight(self.edges()) <= u64::MAX
        &&& self.platforms_connected()
    }

    /// Any two nodes that stand on one platform are joined by the graph.
    pub open spec fn platforms_connected(&self) -> bool {
        forall|m1: int, m2: int|
            0 <= m1 < self.node_count() && 0 <= m2 < self.node_count() && self.owner(self.node_position@[m1])
                == self.owner(self.node_position@[m2]) && self.owner(self.node_position@[m1]) < self.platforms@.len()
                ==> #[trigger] reachable(self.edges(), m1 as nat, m2 as nat)
    }

    /// Some node of the platform of tile `rs` has a shortest distance to some
    /// node of the platform of tile `rd`.
    pub open spec fn platforms_joined(&self, rs: Tile, rd: Tile) -> bool {
        exists|a: int, b: int|
            0 <= a < self.node_count() && 0 <= b < self.node_count() && self.owner(self.node_position@[a])
                == self.owner(rs) && self.owner(self.node_position@[b]) == self.owner(rd)
                && (#[trigger] self.shortest_distance@[a]@[b]).is_some()
    }
}

/// Every edge between two distinct nodes joins two different tiles, so weighs
/// at least one tile.
proof fn lemma_min_weight(size: Tile, index: Seq<usize>, nodes: Seq<Tile>, edges: Seq<EdgeSpec>)
    requires
        nodes.no_duplicates(),
        forall|i: int|
            0 <= i < edges.len() ==> (#[trigger] edges[i]).0 < nodes.len() && edges[i].1 < nodes.len()
                && edges[i].2 == tile_distance(nodes[edges[i].0 as int], nodes[edges[i].1 as int]),
    ensures
        min_weight_at_least(edges, DISTANCE_SCALE as nat),
{
    assert forall|i: int| 0 <= i < edges.len() && edges[i].0 != edges[i].1 implies DISTANCE_SCALE <= #[trigger] edges[i].2 by {
        let e = edges[i];
        assert(nodes[e.0 as int] != nodes[e.1 as int]);
        lemma_tile_distance_positive(nodes[e.0 as int], nodes[e.1 as int]);
    }
}

impl PathFinder {
    /// Builds the navigation structure of a grid of `size` tiles whose first
    /// tile is `position`, from platform rectangles (first tile, size) and
    /// stairs (two end tiles).
    ///
    /// Platforms take ids in order and later ones own the tiles they share
    /// with earlier ones; tiles that no platform holds belong to platform 0.
    /// Each distinct stair end (clamped onto the grid) becomes one node. Edge
    /// `j` is stair `j`; the edges after the stairs join, on each platform,
    /// nodes that are neighbours by column. Weights are Euclidean distances.
    ///
    /// The per-column table of all platforms must fit in memory, and there
    /// may be at most 2^20 stairs: the graph indexes nodes and edges with
    /// `u32`, and sums of weights must fit in `u64`.
    pub fn new(position: Tile, size: Tile, platforms: Vec<(Tile, Tile)>, stairs: Vec<(Tile, Tile)>) -> (pf: PathFinder)
        requires
            grid_ok(size),
            platforms@.len() * size.x <= usize::MAX,
            stairs@.len() <= 0x10_0000,
        ensures
            pf.wf(),
            pf.position == position,
            pf.size == size,
            pf.rects@ == rects_of(position, size, platforms@),
            pf.edges().len() >= stairs@.len(),
            forall|j: int|
                0 <= j < stairs@.len() ==> is_stair_edge(position, size, stairs@, pf.node_position@, pf.edges(), j),
            forall|i: int|
                stairs@.len() <= i < pf.edges().len() ==> is_walk_edge(
                    size,
                    pf.platforms_index@,
                    pf.node_position@,
                    #[trigger] pf.edges()[i],
                ),
            forall|i: int|
                0 <= i < pf.node_count() ==> is_stair_end(position, size, stairs@, #[trigger] pf.node_position@[i]),
            pf.node_position@ == first_occurrences(stair_ends(position, size, stairs@)),
            pf.walk_order@.len() == pf.platforms@.len(),
            forall|q: int|
                0 <= q < pf.walk_order@.len() ==> {
                    &&& is_platform_nodes(size, pf.platforms_index@, pf.node_position@, q, #[trigger] pf.walk_order@[q])
                    &&& sorted_by_x(pf.walk_order@[q])
                    &&& pf.walk_order@[q].len() == count_on(
                        size,
                        pf.platforms_index@,
                        pf.node_position@,
                        q,
                        pf.node_count() as int,
                    )
                },
            pf.edges().subrange(stairs@.len() as int, pf.edges().len() as int) == chains(pf.walk_order@),
    {
        let ghost rects = rects_of(position, size, platforms@);
        let (index, plats) = register_platforms(position, size, &platforms);
        let (mut g, nodes, Ghost(origin)) = build_stair_graph(position, size, &stairs);
        proof {
            assert forall|k: int| 0 <= k < rects.len() implies rect_in_grid(size, #[trigger] rects[k].0, rects[k].1) by {
                assert(rects[k] == platform_rect(position, size, platforms@[k]));
            }
            reveal(is_platform_list);
            reveal(is_owner_index);
        }
        let ghost stair_edges = graph_edges(g);
        let ghost n = nodes@.len();
        let total = if plats.len() == 0 {
            0
        } else {
            plats[plats.len() - 1].span_right
        };
        let mut table: Vec<(usize, usize)> = vec![(NO_NODE, NO_NODE); total];
        let mut k: usize = 0;
        let ghost mut order: Seq<Seq<(usize, Tile)>> = Seq::empty();
        assert(graph_edges(g) =~= stair_edges + chains(order));
        while k < plats.len()
            invariant
                grid_ok(size),
                index@.len() == size.x * size.y,
                tiles_on_grid(size, nodes@),
                n == nodes@.len(),
                n <= 2 * stairs@.len(),
                stairs@.len() <= 0x10_0000,
                nodes@.no_duplicates(),
                is_platform_list(rects, plats@),
                plats@.len() == rects.len(),
                forall|j: int| 0 <= j < rects.len() ==> rect_in_grid(size, #[trigger] rects[j].0, rects[j].1),
                table@.len() == span_total(plats@),
                table@.len() <= usize::MAX,
                graph_node_count(g) == n,
                k <= plats@.len(),
                stair_edges.len() == stairs@.len(),
                graph_edges(g).len() >= stairs@.len(),
                graph_edges(g).len() <= stairs@.len() + count_below(size, index@, nodes@, k as int, n as int),
                graph_edges(g).subrange(0, stairs@.len() as int) == stair_edges,
                order.len() == k,
                graph_edges(g) == stair_edges + chains(order),
                forall|q: int|
                    0 <= q < k ==> {
                        &&& is_platform_nodes(size, index@, nodes@, q, #[trigger] order[q])
                        &&& sorted_by_x(order[q])
                        &&& order[q].len() == count_on(size, index@, nodes@, q, n as int)
                    },
                forall|i: int|
                    stairs@.len() <= i < graph_edges(g).len() ==> is_walk_edge(size, index@, nodes@, #[trigger] graph_edges(g)[i]),
                total_weight(graph_edges(g)) <= graph_edges(g).len() * 0x400_0000_0000,
                forall|q: int, m1: int, m2: int|
                    0 <= q < k && #[trigger] node_on(size, index@, nodes@, m1, q) && #[trigger] node_on(size, index@, nodes@, m2, q)
                        ==> reachable(graph_edges(g), m1 as nat, m2 as nat),
                forall|q: int, c: int|
                    0 <= q < k && plats@[q].left <= c < plats@[q].right ==> is_column_entry(
                        size,
                        index@,
                        nodes@,
                        q,
                        c,
                        #[trigger] table@[plats@[q].span_left + (c - plats@[q].left)],
                    ),
            decreases plats@.len() - k,
        {
            proof {
                lemma_count_below_step(size, index@, nodes@, k as int, n as int);
                lemma_count_below_bound(size, index@, nodes@, k as int + 1, n as int);
                lemma_span_within(rects, plats@, k as int);
            }
            let ghost e_before = graph_edges(g);
            let ghost t_before = table@;
            let sorted = link_platform(&mut g, size, &index, &nodes, k);
            proof {
                let order0 = order;
                order = order.push(sorted@);
                assert(order.drop_last() =~= order0);
                assert(graph_edges(g) =~= stair_edges + chains(order));
                assert forall|q: int| 0 <= q < k + 1 implies {
                    &&& is_platform_nodes(size, index@, nodes@, q, #[trigger] order[q])
                    &&& sorted_by_x(order[q])
                    &&& order[q].len() == count_on(size, index@, nodes@, q, n as int)
                } by {
                    if q < k {
                        assert(order[q] == order0[q]);
                    }
                }
            }
            let pl = plats[k];
            fill_columns(&mut table, pl.span_left, pl.left, pl.right, size, &index, &nodes, k, &sorted);
            proof {
                let ea = graph_edges(g);
                assert forall|i: int| 0 <= i < e_before.len() implies ea[i] == e_before[i] by {
                    assert(ea.subrange(0, e_before.len() as int)[i] == ea[i]);
                }
                assert forall|q: int, m1: int, m2: int|
                    0 <= q < k + 1 && #[trigger] node_on(size, index@, nodes@, m1, q) && #[trigger] node_on(size, index@, nodes@, m2, q)
                        implies reachable(ea, m1 as nat, m2 as nat) by {
                    if q < k {
                        lemma_reachable_more_edges(e_before, ea, m1 as nat, m2 as nat);
                    }
                }
                assert(ea.subrange(0, stairs@.len() as int) =~= e_before.subrange(0, stairs@.len() as int));
                assert forall|i: int|
                    stairs@.len() <= i < ea.len() implies is_walk_edge(size, index@, nodes@, #[trigger] ea[i]) by {
                    if i < e_before.len() {
                        assert(ea[i] == e_before[i]);
                    }
                }
                assert forall|q: int, c: int|
                    0 <= q < k + 1 && plats@[q].left <= c < plats@[q].right implies is_column_entry(
                        size,
                        index@,
                        nodes@,
                        q,
                        c,
                        #[trigger] table@[plats@[q].span_left + (c - plats@[q].left)],
                    ) by {
                    if q < k {
                        lemma_span_order(rects, plats@, q, k as int);
                        lemma_span_within(rects, plats@, q);
                        assert(table@[plats@[q].span_left + (c - plats@[q].left)] == t_before[plats@[q].span_left + (c - plats@[q].left)]);
                    }
                }
            }
            k = k + 1;
        }
        proof {
            lemma_count_below_bound(size, index@, nodes@, k as int, n as int);
            let edges = graph_edges(g);
            assert forall|i: int|
                0 <= i < edges.len() implies (#[trigger] edges[i]).0 < nodes@.len() && edges[i].1 < nodes@.len()
                    && edges[i].2 == tile_distance(nodes@[edges[i].0 as int], nodes@[edges[i].1 as int]) by {
                if i < stairs@.len() {
                    assert(edges.subrange(0, stairs@.len() as int)[i] == edges[i]);
                    assert(edges[i] == stair_edges[i]);
                    assert(is_stair_edge(position, size, stairs@, nodes@, stair_edges, i));
                } else {
                    assert(is_walk_edge(size, index@, nodes@, edges[i]));
                }
            }
            lemma_min_weight(size, index@, nodes@, edges);
            assert forall|m1: int, m2: int|
                0 <= m1 < nodes@.len() && 0 <= m2 < nodes@.len() && index@[flat(size, nodes@[m1].x as int, nodes@[m1].y as int)]
                    == index@[flat(size, nodes@[m2].x as int, nodes@[m2].y as int)]
                    && index@[flat(size, nodes@[m1].x as int, nodes@[m1].y as int)] < plats@.len()
                    implies #[trigger] reachable(edges, m1 as nat, m2 as nat) by {
                let q = index@[flat(size, nodes@[m1].x as int, nodes@[m1].y as int)] as int;
                assert(node_on(size, index@, nodes@, m1, q));
                assert(node_on(size, index@, nodes@, m2, q));
            }
            assert forall|j: int| 0 <= j < stairs@.len() implies is_stair_edge(position, size, stairs@, nodes@, edges, j) by {
                assert(edges.subrange(0, stairs@.len() as int)[j] == edges[j]);
                assert(is_stair_edge(position, size, stairs@, nodes@, stair_edges, j));
            }
            assert forall|i: int| 0 <= i < nodes@.len() implies is_stair_end(position, size, stairs@, #[trigger] nodes@[i]) by {
                let j = origin[i];
                assert(0 <= j < stairs@.len() && is_end_of_stair(position, size, stairs@, nodes@[i], j));
            }
        }
        proof {
            let edges = graph_edges(g);
            assert(edges.subrange(stairs@.len() as int, edges.len() as int) =~= chains(order));
        }
        let shortest_distance = shortest_distance_matrix(&g);
        let next_step = next_hop_matrix(&g, &shortest_distance);
        PathFinder {
            position,
            size,
            platforms_index: index,
            platforms: plats,
            platform_to_nodes: table,
            node_position: nodes,
            graph: g,
            shortest_distance,
            next_step,
            rects: Ghost(rects),
            walk_order: Ghost(order),
        }
    }
}

impl PathFinder {
    /// Tile `t` relative to the grid, clamped onto its tiles.
    pub open spec fn relative_tile(&self, t: Tile) -> Tile {
        clamp_relative(t, self.position, last_tile(self.size))
    }

    /// The platform that owns a tile of the grid.
    pub open spec fn owner(&self, t: Tile) -> int {
        self.platforms_index@[flat(self.size, t.x as int, t.y as int)] as int
    }

    /// The nearest nodes on either side of tile `t` on its platform: as the
    /// per-column table holds them, or, for a tile outside its platform's
    /// columns, as found by looking at every node.
    pub open spec fn column_entry(&self, t: Tile) -> (usize, usize) {
        let p = self.owner(t);
        if 0 <= p < self.platforms@.len() && self.platforms@[p].left <= t.x < self.platforms@[p].right {
            self.platform_to_nodes@[self.platforms@[p].span_left + (t.x - self.platforms@[p].left)]
        } else {
            let n = self.node_position@.len() as int;
            (
                left_scan(self.size, self.platforms_index@, self.node_position@, p, t.x as int, n),
                right_scan(self.size, self.platforms_index@, self.node_position@, p, t.x as int, n),
            )
        }
    }

    /// Node `n` with its distance to tile `t`; none for `NO_NODE`.
    pub open spec fn node_with_distance(&self, n: usize, t: Tile) -> Option<(usize, u64)> {
        if n == NO_NODE {
            None
        } else {
            Some((n, tile_distance(self.node_position@[n as int], t) as u64))
        }
    }

    /// The length of the way from `src` by its node, the graph, and the other
    /// node on to `dst`; none where a node is missing or the graph has no path.
    pub open spec fn route_length(&self, src: Option<(usize, u64)>, dst: Option<(usize, u64)>) -> Option<nat> {
        match (src, dst) {
            (Some((sn, sd)), Some((dn, dd))) => match self.shortest_distance@[sn as int]@[dn as int] {
                Some(d) => Some((sd + d + dd) as nat),
                None => None,
            },
            _ => None,
        }
    }

    /// `position` relative to the grid, clamped onto its tiles.
    pub fn relative_position(&self, position: Tile) -> (r: Tile)
        requires
            grid_ok(self.size),
        ensures
            r == self.relative_tile(position),
            0 <= r.x < self.size.x,
            0 <= r.y < self.size.y,
    {
        relative_clamped(position, self.position, Tile { x: self.size.x - 1, y: self.size.y - 1 })
    }

    fn owner_of_tile(&self, relative_position: Tile) -> (r: usize)
        requires
            self.wf(),
            0 <= relative_position.x < self.size.x,
            0 <= relative_position.y < self.size.y,
        ensures
            r == self.owner(relative_position),
            r < self.platforms@.len() || r == 0,
    {
        proof {
            reveal(is_owner_index);
            let i = flat(self.size, relative_position.x as int, relative_position.y as int);
            lemma_owner_bound(self.rects@, i / (self.size.y as int), i % (self.size.y as int));
            reveal(is_platform_list);
        }
        let i = flat_index(self.size, relative_position.x, relative_position.y);
        self.platforms_index[i]
    }

    /// A tile relative to the grid, clamped onto its tiles.
    pub open spec fn clamp_tile(&self, t: Tile) -> Tile {
        clamp_relative(t, Tile { x: 0, y: 0 }, last_tile(self.size))
    }

    /// The platform that owns a tile given relative to the grid; a tile off
    /// the grid counts as the nearest tile on it.
    pub fn get_platform(&self, relative_position: Tile) -> (r: &Platform)
        requires
            self.wf(),
            self.platforms@.len() > 0,
        ensures
            *r == self.platforms@[self.owner(self.clamp_tile(relative_position))],
            r.id == self.owner(self.clamp_tile(relative_position)),
    {
        let t = relative_clamped(relative_position, Tile { x: 0, y: 0 }, Tile { x: self.size.x - 1, y: self.size.y - 1 });
        let k = self.owner_of_tile(t);
        proof {
            lemma_span_within(self.rects@, self.platforms@, k as int);
        }
        &self.platforms[k]
    }

    /// The nearest nodes on either side of a tile on its platform, each with
    /// its distance to the tile.
    pub fn get_neighbor_nodes(&self, relative_position: Tile) -> (r: (Option<(usize, u64)>, Option<(usize, u64)>))
        requires
            self.wf(),
            0 <= relative_position.x < self.size.x,
            0 <= relative_position.y < self.size.y,
        ensures
            r.0 == self.node_with_distance(self.column_entry(relative_position).0, relative_position),
            r.1 == self.node_with_distance(self.column_entry(relative_position).1, relative_position),
    {
        let k = self.owner_of_tile(relative_position);
        let (n1, n2) = if k < self.platforms.len() && self.platforms[k].left <= relative_position.x
            && relative_position.x < self.platforms[k].right {
            proof {
                lemma_span_within(self.rects@, self.platforms@, k as int);
            }
            let pl = &self.platforms[k];
            let offset: usize = (relative_position.x as i64 - pl.left as i64) as usize;
            self.platform_to_nodes[pl.span_left + offset]
        } else {
            proof {
                reveal(is_owner_index);
            }
            scan_column(self.size, &self.platforms_index, &self.node_position, k, relative_position.x)
        };
        proof {
            self.lemma_entry_nodes(relative_position);
        }
        (self.node_with_distance_of(n1, relative_position), self.node_with_distance_of(n2, relative_position))
    }

    /// A column entry holds the nearest nodes of the tile's platform on
    /// either side of the tile's column.
    pub(crate) proof fn lemma_entry_is_bracket(&self, t: Tile)
        requires
            self.wf(),
            0 <= t.x < self.size.x,
            0 <= t.y < self.size.y,
        ensures
            is_column_entry(self.size, self.platforms_index@, self.node_position@, self.owner(t), t.x as int, self.column_entry(t)),
    {
        let p = self.owner(t);
        if 0 <= p < self.platforms@.len() && self.platforms@[p].left <= t.x < self.platforms@[p].right {
            assert(is_column_entry(
                self.size,
                self.platforms_index@,
                self.node_position@,
                p,
                t.x as int,
                self.platform_to_nodes@[self.platforms@[p].span_left + (t.x - self.platforms@[p].left)],
            ));
        } else {
            lemma_scan_brackets(self.size, self.platforms_index@, self.node_position@, p, t.x as int);
        }
    }

    /// Where the two tiles' platforms differ and are joined by the graph, some
    /// pair of nodes beside the tiles gives a way.
    pub(crate) proof fn lemma_joined_has_route(&self, rs: Tile, rd: Tile)
        requires
            self.wf(),
            0 <= rs.x < self.size.x,
            0 <= rs.y < self.size.y,
            0 <= rd.x < self.size.x,
            0 <= rd.y < self.size.y,
            self.owner(rs) != self.owner(rd),
            self.platforms_joined(rs, rd),
        ensures
            !self.no_route(rs, rd),
    {
        let n = self.node_count();
        let ps = self.owner(rs);
        let pd = self.owner(rd);
        let (a, b) = choose|a: int, b: int|
            0 <= a < n && 0 <= b < n && self.owner(self.node_position@[a]) == ps && self.owner(self.node_position@[b]) == pd
                && (#[trigger] self.shortest_distance@[a]@[b]).is_some();
        reveal(is_owner_index);
        lemma_owner_bound(self.rects@, flat(self.size, rs.x as int, rs.y as int) / (self.size.y as int), flat(self.size, rs.x as int, rs.y as int) % (self.size.y as int));
        lemma_owner_bound(self.rects@, flat(self.size, rd.x as int, rd.y as int) / (self.size.y as int), flat(self.size, rd.x as int, rd.y as int) % (self.size.y as int));
        crate::platform::lemma_flat_in_grid(self.size, rs.x as int, rs.y as int);
        crate::platform::lemma_flat_in_grid(self.size, rd.x as int, rd.y as int);
        reveal(is_platform_list);
        assert(ps < self.platforms@.len() && pd < self.platforms@.len());
        self.lemma_entry_is_bracket(rs);
        self.lemma_entry_is_bracket(rd);
        let es = self.column_entry(rs);
        let ed = self.column_entry(rd);
        assert(node_on(self.size, self.platforms_index@, self.node_position@, a, ps));
        assert(node_on(self.size, self.platforms_index@, self.node_position@, b, pd));
        let a2 = if es.0 != NO_NODE { es.0 } else { es.1 };
        let b2 = if ed.0 != NO_NODE { ed.0 } else { ed.1 };
        assert(a2 != NO_NODE);
        assert(b2 != NO_NODE);
        self.lemma_entry_on_platform(rs, a2);
        self.lemma_entry_on_platform(rd, b2);
        let edges = self.edges();
        assert(is_distance_row(edges, n, a as nat, self.shortest_distance@[a]@));
        assert(reachable(edges, a as nat, b as nat));
        assert(reachable(edges, a2 as nat, a as nat));
        assert(reachable(edges, b as nat, b2 as nat));
        lemma_reachable_trans(edges, a2 as nat, a as nat, b as nat);
        lemma_reachable_trans(edges, a2 as nat, b as nat, b2 as nat);
        assert(is_distance_row(edges, n, a2 as nat, self.shortest_distance@[a2 as int]@));
        assert(self.shortest_distance@[a2 as int]@[b2 as int].is_some());
        assert(self.pair_length(rs, rd, a2, b2).is_some());
    }

    /// The nodes in a column entry are nodes of the graph.
    pub(crate) proof fn lemma_entry_nodes(&self, t: Tile)
        requires
            self.wf(),
            0 <= t.x < self.size.x,
            0 <= t.y < self.size.y,
        ensures
            self.column_entry(t).0 == NO_NODE || self.column_entry(t).0 < self.node_count(),
            self.column_entry(t).1 == NO_NODE || self.column_entry(t).1 < self.node_count(),
    {
        self.lemma_entry_is_bracket(t);
    }

    fn node_with_distance_of(&self, n: usize, t: Tile) -> (r: Option<(usize, u64)>)
        requires
            n == NO_NODE || n < self.node_position@.len(),
        ensures
            r == self.node_with_distance(n, t),
    {
        if n == NO_NODE {
            None
        } else {
            Some((n, self.node_position[n].distance(&t)))
        }
    }
}

impl PathFinder {
    /// The length of the way from tile `rs` through nodes `a` and `b` to tile `rd`.
    pub open spec fn pair_length(&self, rs: Tile, rd: Tile, a: usize, b: usize) -> Option<nat> {
        self.route_length(self.node_with_distance(a, rs), self.node_with_distance(b, rd))
    }

    /// `a` (beside `rs`) and `b` (beside `rd`) give a way, and none of the
    /// other choices of nodes beside the two tiles gives a shorter one.
    pub open spec fn is_best_pair(&self, rs: Tile, rd: Tile, a: usize, b: usize) -> bool {
        let es = self.column_entry(rs);
        let ed = self.column_entry(rd);
        let l = self.pair_length(rs, rd, a, b);
        &&& a == es.0 || a == es.1
        &&& b == ed.0 || b == ed.1
        &&& l.is_some()
        &&& self.pair_length(rs, rd, es.0, ed.0).is_some() ==> l.unwrap() <= self.pair_length(rs, rd, es.0, ed.0).unwrap()
        &&& self.pair_length(rs, rd, es.0, ed.1).is_some() ==> l.unwrap() <= self.pair_length(rs, rd, es.0, ed.1).unwrap()
        &&& self.pair_length(rs, rd, es.1, ed.0).is_some() ==> l.unwrap() <= self.pair_length(rs, rd, es.1, ed.0).unwrap()
        &&& self.pair_length(rs, rd, es.1, ed.1).is_some() ==> l.unwrap() <= self.pair_length(rs, rd, es.1, ed.1).unwrap()
    }

    /// No choice of nodes beside the two tiles gives a way.
    pub open spec fn no_route(&self, rs: Tile, rd: Tile) -> bool {
        let es = self.column_entry(rs);
        let ed = self.column_entry(rd);
        &&& self.pair_length(rs, rd, es.0, ed.0).is_none()
        &&& self.pair_length(rs, rd, es.0, ed.1).is_none()
        &&& self.pair_length(rs, rd, es.1, ed.0).is_none()
        &&& self.pair_length(rs, rd, es.1, ed.1).is_none()
    }

    /// The move from node `a` to the adjacent node `h`: along the platform
    /// where both stand on it in different columns, else up or down the stair.
    pub open spec fn step_intent(&self, a: usize, h: usize) -> (MoveIntendHorizontal, MoveIntendVertical) {
        let pa = self.node_position@[a as int];
        let ph = self.node_position@[h as int];
        if self.owner(pa) == self.owner(ph) && pa.x != ph.x {
            (horizontal_toward(pa.x as int, ph.x as int), MoveIntendVertical::Stay)
        } else {
            (MoveIntendHorizontal::Stay, vertical_toward(pa.y as int, ph.y as int))
        }
    }

    /// Heading for `b` by way of `a` from grid column `column` (not clamped):
    /// walk to `a`'s column, and once there take the next hop from `a` toward `b`.
    pub open spec fn intent_via(&self, column: int, a: usize, b: usize) -> (MoveIntendHorizontal, MoveIntendVertical) {
        let pa = self.node_position@[a as int];
        if column != pa.x {
            (horizontal_toward(column, pa.x as int), MoveIntendVertical::Stay)
        } else {
            self.step_intent(a, self.next_step@[a as int]@[b as int].unwrap())
        }
    }

    /// Keeps the shorter of the best so far and the way through `a` and `b`;
    /// the earlier one on a tie.
    pub open spec fn keep_shorter(
        best: Option<(usize, usize, nat)>,
        a: usize,
        b: usize,
        length: Option<nat>,
    ) -> Option<(usize, usize, nat)> {
        match length {
            None => best,
            Some(l) => match best {
                Some(bb) if l >= bb.2 => best,
                _ => Some((a, b, l)),
            },
        }
    }

    /// The pair of nodes beside `rs` and `rd` that gives the shortest way,
    /// the first in the order (left, left), (left, right), (right, left),
    /// (right, right) on a tie; none where no pair gives a way.
    pub open spec fn chosen_pair(&self, rs: Tile, rd: Tile) -> Option<(usize, usize)> {
        let es = self.column_entry(rs);
        let ed = self.column_entry(rd);
        let b0 = Self::keep_shorter(None, es.0, ed.0, self.pair_length(rs, rd, es.0, ed.0));
        let b1 = Self::keep_shorter(b0, es.0, ed.1, self.pair_length(rs, rd, es.0, ed.1));
        let b2 = Self::keep_shorter(b1, es.1, ed.0, self.pair_length(rs, rd, es.1, ed.0));
        let b3 = Self::keep_shorter(b2, es.1, ed.1, self.pair_length(rs, rd, es.1, ed.1));
        match b3 {
            Some((a, b, _)) => Some((a, b)),
            None => None,
        }
    }

    /// The intent for an entity at `current` headed for `target`: on one
    /// platform, walk toward the target's column (nothing once there); across
    /// platforms, head by the chosen pair of nodes beside the two tiles, or do
    /// nothing where no pair gives a way.
    pub open spec fn intent(&self, current: Tile, target: Tile) -> (MoveIntendHorizontal, MoveIntendVertical) {
        let rs = self.relative_tile(current);
        let rd = self.relative_tile(target);
        if self.owner(rs) == self.owner(rd) {
            (horizontal_toward(current.x as int, target.x as int), MoveIntendVertical::Stay)
        } else {
            match self.chosen_pair(rs, rd) {
                None => (MoveIntendHorizontal::Stay, MoveIntendVertical::Stay),
                Some((a, b)) => self.intent_via(current.x - self.position.x, a, b),
            }
        }
    }

    /// The length of the way through the two given nodes, if the graph joins them.
    fn measure_distance(&self, src_pair: Option<(usize, u64)>, dst_pair: Option<(usize, u64)>) -> (r: Option<u128>)
        requires
            self.wf(),
            src_pair.is_some() ==> src_pair.unwrap().0 < self.node_count(),
            dst_pair.is_some() ==> dst_pair.unwrap().0 < self.node_count(),
        ensures
            r.is_some() == self.route_length(src_pair, dst_pair).is_some(),
            r.is_some() ==> r.unwrap() == self.route_length(src_pair, dst_pair).unwrap(),
    {
        match (src_pair, dst_pair) {
            (Some((sn, sd)), Some((dn, dd))) => {
                assert(is_distance_row(self.edges(), self.node_count(), sn as nat, self.shortest_distance@[sn as int]@));
                match self.shortest_distance[sn][dn] {
                    Some(d) => Some(sd as u128 + d as u128 + dd as u128),
                    None => None,
                }
            },
            _ => None,
        }
    }
}

impl PathFinder {
    /// The movement intent for this tick of an entity at tile `current` headed
    /// for tile `target`. Both tiles are clamped onto the grid to find their
    /// platforms and nodes; columns are compared as given. On one platform it
    /// walks toward the target's column and does nothing once there. Across platforms it takes the nodes beside either tile that give
    /// the shortest way, walks to the first, and from there follows the next
    /// hop: along the platform, or up or down a stair. Where no way exists it
    /// does nothing: the caller then drops the goal.
    pub fn resolve_intent(&self, current: Tile, target: Tile) -> (r: (MoveIntendHorizontal, MoveIntendVertical))
        requires
            self.wf(),
        ensures
            r == self.intent(current, target),
            self.owner(self.relative_tile(current)) != self.owner(self.relative_tile(target)) ==> {
                let rs = self.relative_tile(current);
                let rd = self.relative_tile(target);
                &&& self.chosen_pair(rs, rd).is_none() == self.no_route(rs, rd)
                &&& self.chosen_pair(rs, rd).is_some() ==> self.is_best_pair(
                    rs,
                    rd,
                    self.chosen_pair(rs, rd).unwrap().0,
                    self.chosen_pair(rs, rd).unwrap().1,
                )
                &&& self.platforms_joined(rs, rd) ==> r != (MoveIntendHorizontal::Stay, MoveIntendVertical::Stay)
            },
    {
        let rs = self.relative_position(current);
        let rd = self.relative_position(target);
        let ps = self.owner_of_tile(rs);
        let pd = self.owner_of_tile(rd);
        if ps == pd {
            return (horizontal_intent(current.x as i64, target.x as i64), MoveIntendVertical::Stay);
        }
        proof {
            if self.platforms_joined(rs, rd) {
                self.lemma_joined_has_route(rs, rd);
            }
        }
        match self.best_pair(rs, rd) {
            None => (MoveIntendHorizontal::Stay, MoveIntendVertical::Stay),
            Some((a, b)) => self.intent_by(current.x as i64 - self.position.x as i64, rs, rd, a, b),
        }
    }

    /// The nodes beside `rs` and `rd` that give the shortest way; the first
    /// found on a tie.
    fn best_pair(&self, rs: Tile, rd: Tile) -> (r: Option<(usize, usize)>)
        requires
            self.wf(),
            0 <= rs.x < self.size.x,
            0 <= rs.y < self.size.y,
            0 <= rd.x < self.size.x,
            0 <= rd.y < self.size.y,
        ensures
            r == self.chosen_pair(rs, rd),
            r.is_none() == self.no_route(rs, rd),
            r.is_some() ==> self.is_best_pair(rs, rd, r.unwrap().0, r.unwrap().1),
    {
        let (s1, s2) = self.get_neighbor_nodes(rs);
        let (d1, d2) = self.get_neighbor_nodes(rd);
        proof {
            self.lemma_entry_nodes(rs);
            self.lemma_entry_nodes(rd);
        }
        let mut best: Option<(usize, usize, u128)> = None;
        if let (Some((a, _)), Some((b, _))) = (s1, d1) {
            best = shorter(best, a, b, self.measure_distance(s1, d1));
        }
        if let (Some((a, _)), Some((b, _))) = (s1, d2) {
            best = shorter(best, a, b, self.measure_distance(s1, d2));
        }
        if let (Some((a, _)), Some((b, _))) = (s2, d1) {
            best = shorter(best, a, b, self.measure_distance(s2, d1));
        }
        if let (Some((a, _)), Some((b, _))) = (s2, d2) {
            best = shorter(best, a, b, self.measure_distance(s2, d2));
        }
        match best {
            None => None,
            Some((a, b, _)) => Some((a, b)),
        }
    }

    /// The intent of heading for `b` by way of `a` from grid column `column`.
    fn intent_by(&self, column: i64, rs: Tile, rd: Tile, a: usize, b: usize) -> (r: (MoveIntendHorizontal, MoveIntendVertical))
        requires
            self.wf(),
            0 <= rs.x < self.size.x,
            0 <= rs.y < self.size.y,
            0 <= rd.x < self.size.x,
            0 <= rd.y < self.size.y,
            self.owner(rs) != self.owner(rd),
            self.is_best_pair(rs, rd, a, b),
        ensures
            r == self.intent_via(column as int, a, b),
    {
        proof {
            self.lemma_entry_nodes(rs);
            self.lemma_entry_nodes(rd);
            self.lemma_entry_on_platform(rs, a);
            self.lemma_entry_on_platform(rd, b);
            assert(is_next_hop(self.edges(), self.shortest_distance@, a as nat, b as nat, self.next_step@[a as int]@[b as int]));
        }
        let pa = self.node_position[a];
        if column != pa.x as i64 {
            (horizontal_intent(column, pa.x as i64), MoveIntendVertical::Stay)
        } else {
            let h = self.next_step[a][b].unwrap();
            let ph = self.node_position[h];
            if self.owner_of_tile(pa) == self.owner_of_tile(ph) && pa.x != ph.x {
                (horizontal_intent(pa.x as i64, ph.x as i64), MoveIntendVertical::Stay)
            } else {
                (MoveIntendHorizontal::Stay, vertical_intent(pa.y, ph.y))
            }
        }
    }

    /// A node named in a column entry stands on the platform of that tile.
    pub(crate) proof fn lemma_entry_on_platform(&self, t: Tile, n: usize)
        requires
            self.wf(),
            0 <= t.x < self.size.x,
            0 <= t.y < self.size.y,
            n != NO_NODE,
            n == self.column_entry(t).0 || n == self.column_entry(t).1,
        ensures
            n < self.node_count(),
            self.owner(self.node_position@[n as int]) == self.owner(t),
    {
        self.lemma_entry_is_bracket(t);
    }
}

/// Keeps the shorter of the best so far and the way through `a` and `b`; the
/// earlier one on a tie.
fn shorter(best: Option<(usize, usize, u128)>, a: usize, b: usize, length: Option<u128>) -> (r: Option<(usize, usize, u128)>)
    ensures
        length.is_none() ==> r == best,
        length.is_some() && (best.is_none() || length.unwrap() < best.unwrap().2) ==> r == Some((a, b, length.unwrap())),
        length.is_some() && best.is_some() && length.unwrap() >= best.unwrap().2 ==> r == best,
{
    match length {
        None => best,
        Some(l) => match best {
            None => Some((a, b, l)),
            Some((_, _, bl)) => if l < bl {
                Some((a, b, l))
            } else {
                best
            },
        },
    }
}

} // verus!
