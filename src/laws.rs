//! Properties of the planner that hold for every level.

use vstd::arithmetic::div_mod::lemma_fundamental_div_mod_converse;
use vstd::prelude::*;

use crate::construct::is_platform_list;
use crate::links::NO_NODE;
use crate::path_finder::PathFinder;
use crate::platform::{in_rect, is_owner_index, lemma_owner_of_rect};
use crate::routes::{
    follow_next_hops, is_next_hop, lemma_distance_matrix_symmetric, lemma_next_hops_reach,
    lemma_tables_diagonal, min_weight_at_least,
};
use crate::intent::{MoveIntendHorizontal, MoveIntendVertical};
use crate::tile::{Tile, DISTANCE_SCALE};
use crate::walk::has_edge;

verus! {

/// A tile inside the rectangle of platform `k` belongs to platform `k`, so
/// `get_platform` returns platform `k` for it, unless a platform registered
/// after `k` covers the tile too: later platforms win.
pub proof fn lemma_platform_owns_its_tiles(pf: &PathFinder, k: int, t: Tile)
    requires
        pf.wf(),
        0 <= k < pf.platforms@.len(),
        in_rect(pf.rects@[k].0, pf.rects@[k].1, t.x as int, t.y as int),
        forall|j: int| k < j < pf.rects@.len() ==> !in_rect(#[trigger] pf.rects@[j].0, pf.rects@[j].1, t.x as int, t.y as int),
    ensures
        0 <= t.x < pf.size.x,
        0 <= t.y < pf.size.y,
        pf.clamp_tile(t) == t,
        pf.owner(pf.clamp_tile(t)) == k,
        pf.platforms@[k].id == k,
{
    reveal(is_owner_index);
    reveal(is_platform_list);
    assert(pf.rects@.len() == pf.platforms@.len());
    assert(crate::platform::rect_in_grid(pf.size, pf.rects@[k].0, pf.rects@[k].1));
    let sy = pf.size.y as int;
    let i = t.x * sy + t.y;
    let (x, y, sx) = (t.x as int, t.y as int, pf.size.x as int);
    assert(x * sy + y < sx * sy) by (nonlinear_arith)
        requires
            0 <= x < sx,
            0 <= y < sy,
    ;
    assert(x * sy >= 0) by (nonlinear_arith)
        requires
            0 <= x,
            0 <= sy,
    ;
    lemma_fundamental_div_mod_converse(i, sy, t.x as int, t.y as int);
    lemma_owner_of_rect(pf.rects@, k, t.x as int, t.y as int);
    assert(crate::construct::is_platform_entry(pf.rects@, pf.platforms@, k));
}

/// Shortest distances are the same both ways: the graph is undirected.
pub proof fn lemma_distance_symmetric(pf: &PathFinder, s: int, d: int)
    requires
        pf.wf(),
        0 <= s < pf.node_count(),
        0 <= d < pf.node_count(),
    ensures
        pf.shortest_distance@[s]@[d] == pf.shortest_distance@[d]@[s],
{
    lemma_distance_matrix_symmetric(pf.edges(), pf.node_count(), pf.shortest_distance@, s as nat, d as nat);
}

/// Every node is at distance zero from itself and is its own next hop.
pub proof fn lemma_distance_to_self(pf: &PathFinder, s: int)
    requires
        pf.wf(),
        0 <= s < pf.node_count(),
    ensures
        pf.shortest_distance@[s]@[s] == Some(0u64),
        pf.next_step@[s]@[s] == Some(s as usize),
{
    lemma_tables_diagonal(pf.edges(), pf.node_count(), pf.shortest_distance@, pf.next_step@, s as nat);
}

/// Following next hops from `s` toward a reachable `d` arrives at `d` (and
/// stays there) within `k` hops for every `k` with `k * w` at least the
/// shortest distance, where `w > 0` is at most the weight of every edge
/// between two distinct nodes: each hop shortens the remaining distance by at
/// least `w`, so the walk has no cycle.
pub proof fn lemma_next_hops_arrive(pf: &PathFinder, s: int, d: int, w: nat, k: nat)
    requires
        pf.wf(),
        0 <= s < pf.node_count(),
        0 <= d < pf.node_count(),
        pf.shortest_distance@[s]@[d].is_some(),
        w > 0,
        min_weight_at_least(pf.edges(), w),
        k * w >= pf.shortest_distance@[s]@[d].unwrap(),
    ensures
        follow_next_hops(pf.next_step@, s as nat, d as nat, k) == Some(d as nat),
{
    lemma_next_hops_reach(pf.edges(), pf.node_count(), pf.shortest_distance@, pf.next_step@, w, s as nat, d as nat, k);
}

/// Each next hop toward `d` strictly shortens the remaining distance, so the
/// walk of next hops never comes back to a node.
pub proof fn lemma_next_hop_shortens(pf: &PathFinder, s: int, d: int)
    requires
        pf.wf(),
        0 <= s < pf.node_count(),
        0 <= d < pf.node_count(),
        s != d,
        pf.shortest_distance@[s]@[d].is_some(),
    ensures
        pf.next_step@[s]@[d].is_some(),
        pf.next_step@[s]@[d].unwrap() != s,
        pf.next_step@[s]@[d].unwrap() < pf.node_count(),
        pf.shortest_distance@[pf.next_step@[s]@[d].unwrap() as int]@[d].is_some(),
        pf.shortest_distance@[pf.next_step@[s]@[d].unwrap() as int]@[d].unwrap() < pf.shortest_distance@[s]@[d].unwrap(),
{
    let edges = pf.edges();
    assert(is_next_hop(edges, pf.shortest_distance@, s as nat, d as nat, pf.next_step@[s]@[d]));
    let h = pf.next_step@[s]@[d].unwrap() as nat;
    let w = choose|w: nat|
        #[trigger] has_edge(edges, s as nat, h, w) && w + pf.shortest_distance@[h as int]@[d].unwrap() == pf.shortest_distance@[s]@[d].unwrap();
    let i = choose|i: int| 0 <= i < edges.len() && (edges[i] == (s as nat, h, w) || edges[i] == (h, s as nat, w));
    assert(edges[i].0 != edges[i].1);
    assert(edges[i].2 == w);
    assert(DISTANCE_SCALE <= edges[i].2);
}

/// Asking twice for the same two tiles gives the same intent: `resolve_intent`
/// reads the tables and the two tiles and nothing else, and changes nothing.
pub proof fn lemma_intent_repeatable(
    pf: &PathFinder,
    current: Tile,
    target: Tile,
    first: (MoveIntendHorizontal, MoveIntendVertical),
    second: (MoveIntendHorizontal, MoveIntendVertical),
)
    requires
        pf.wf(),
        first == pf.intent(current, target),
        second == pf.intent(current, target),
    ensures
        first == second,
{
}

/// An entity already at its goal tile gets no intent, and so drops the goal.
pub proof fn lemma_no_intent_at_goal(pf: &PathFinder, t: Tile)
    requires
        pf.wf(),
    ensures
        pf.intent(t, t) == (MoveIntendHorizontal::Stay, MoveIntendVertical::Stay),
{
}

/// Where the goal lies on another platform and no node of the entity's
/// platform is joined by the graph to any node of the goal's platform, the
/// entity gets no intent, and so drops the goal rather than wander.
pub proof fn lemma_no_intent_without_route(pf: &PathFinder, current: Tile, target: Tile)
    requires
        pf.wf(),
        pf.owner(pf.relative_tile(current)) != pf.owner(pf.relative_tile(target)),
        forall|a: int, b: int|
            0 <= a < pf.node_count() && 0 <= b < pf.node_count()
                && pf.owner(pf.node_position@[a]) == pf.owner(pf.relative_tile(current))
                && pf.owner(pf.node_position@[b]) == pf.owner(pf.relative_tile(target))
                ==> (#[trigger] pf.shortest_distance@[a]@[b]).is_none(),
    ensures
        pf.intent(current, target) == (MoveIntendHorizontal::Stay, MoveIntendVertical::Stay),
{
    let rs = pf.relative_tile(current);
    let rd = pf.relative_tile(target);
    assert(0 <= rs.x < pf.size.x && 0 <= rs.y < pf.size.y);
    assert(0 <= rd.x < pf.size.x && 0 <= rd.y < pf.size.y);
    let es = pf.column_entry(rs);
    let ed = pf.column_entry(rd);
    if es.0 != NO_NODE {
        pf.lemma_entry_on_platform(rs, es.0);
    }
    if es.1 != NO_NODE {
        pf.lemma_entry_on_platform(rs, es.1);
    }
    if ed.0 != NO_NODE {
        pf.lemma_entry_on_platform(rd, ed.0);
    }
    if ed.1 != NO_NODE {
        pf.lemma_entry_on_platform(rd, ed.1);
    }
    assert(pf.chosen_pair(rs, rd).is_none());
}

} // verus!
