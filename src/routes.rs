//! All-pairs shortest distances and the next-hop table built from them.

use vstd::prelude::*;

use crate::graph::{graph_edges, graph_node_count, neighbors, node_count, shortest_distances, NavGraph};
use crate::walk::{
    edges_within, has_edge, is_shortest, is_walk, lemma_first_step, lemma_reachable_symmetric,
    lemma_shortest_self, lemma_shortest_symmetric, lemma_shortest_unique, lemma_shortest_via_edge,
    reachable, total_weight, walk_cost, EdgeSpec,
};

verus! {

/// `row` holds, for every node `t` below `n`, the shortest distance from `s`
/// to `t`, or `None` where `t` cannot be reached.
pub open spec fn is_distance_row(edges: Seq<EdgeSpec>, n: nat, s: nat, row: Seq<Option<u64>>) -> bool {
    &&& row.len() == n
    &&& forall|t: int|
        0 <= t < n ==> (#[trigger] row[t].is_some() <==> reachable(edges, s, t as nat))
    &&& forall|t: int|
        0 <= t < n && #[trigger] row[t].is_some() ==> is_shortest(edges, s, t as nat, row[t].unwrap() as nat)
}

/// `m[s][d]` is the shortest distance from `s` to `d`, for all nodes below `n`.
pub open spec fn is_distance_matrix(edges: Seq<EdgeSpec>, n: nat, m: Seq<Vec<Option<u64>>>) -> bool {
    &&& m.len() == n
    &&& n <= usize::MAX
    &&& forall|s: int| 0 <= s < n ==> is_distance_row(edges, n, s as nat, #[trigger] m[s]@)
}

/// `h` is the step to take from `s` toward `d`: `s` itself when `s == d`;
/// otherwise, where `d` can be reached, a neighbour `n` of `s` such that an edge
/// to `n` and then a shortest walk from `n` make up a shortest walk to `d`;
/// `None` where `d` cannot be reached.
pub open spec fn is_next_hop(
    edges: Seq<EdgeSpec>,
    dist: Seq<Vec<Option<u64>>>,
    s: nat,
    d: nat,
    h: Option<usize>,
) -> bool {
    if s == d {
        h == Some(s as usize)
    } else if dist[s as int]@[d as int].is_none() {
        h.is_none()
    } else {
        &&& h.is_some()
        &&& h.unwrap() != s
        &&& h.unwrap() < dist.len()
        &&& dist[h.unwrap() as int]@[d as int].is_some()
        &&& exists|w: nat|
            has_edge(edges, s, h.unwrap() as nat, w) && w + dist[h.unwrap() as int]@[d as int].unwrap()
                == dist[s as int]@[d as int].unwrap()
    }
}

/// `t[s][d]` is a next hop from `s` toward `d`, for all nodes below `dist.len()`.
pub open spec fn is_next_hop_table(
    edges: Seq<EdgeSpec>,
    dist: Seq<Vec<Option<u64>>>,
    t: Seq<Vec<Option<usize>>>,
) -> bool {
    &&& t.len() == dist.len()
    &&& forall|s: int|
        0 <= s < t.len() ==> #[trigger] t[s]@.len() == dist.len()
    &&& forall|s: int, d: int|
        0 <= s < t.len() && 0 <= d < t.len() ==> is_next_hop(
            edges,
            dist,
            s as nat,
            d as nat,
            #[trigger] t[s]@[d],
        )
}

/// Runs a single-source shortest-path sweep from every node.
pub fn shortest_distance_matrix(g: &NavGraph) -> (m: Vec<Vec<Option<u64>>>)
    requires
        total_weight(graph_edges(*g)) <= u64::MAX,
    ensures
        is_distance_matrix(graph_edges(*g), graph_node_count(*g), m@),
{
    let n = node_count(g);
    let mut m: Vec<Vec<Option<u64>>> = Vec::new();
    let mut s: usize = 0;
    while s < n
        invariant
            n == graph_node_count(*g),
            total_weight(graph_edges(*g)) <= u64::MAX,
            s <= n,
            m@.len() == s,
            forall|k: int| 0 <= k < s ==> is_distance_row(graph_edges(*g), n as nat, k as nat, #[trigger] m@[k]@),
        decreases n - s,
    {
        let row = shortest_distances(g, s);
        m.push(row);
        s = s + 1;
    }
    m
}

/// Picks, among the neighbours of `s`, one that starts a shortest walk to `d`.
fn next_hop_toward(g: &NavGraph, dist: &Vec<Vec<Option<u64>>>, s: usize, d: usize) -> (h: Option<usize>)
    requires
        is_distance_matrix(graph_edges(*g), graph_node_count(*g), dist@),
        edges_within(graph_edges(*g), graph_node_count(*g)),
        s < dist@.len(),
        d < dist@.len(),
    ensures
        is_next_hop(graph_edges(*g), dist@, s as nat, d as nat, h),
{
    let ghost edges = graph_edges(*g);
    let ghost n = graph_node_count(*g);
    if s == d {
        return Some(s);
    }
    let total = match dist[s][d] {
        None => {
            return None;
        },
        Some(c) => c,
    };
    assert(is_distance_row(edges, n, s as nat, dist@[s as int]@));
    let list = neighbors(g, s);
    let mut best: Option<usize> = None;
    let mut best_cost: u128 = 0;
    let mut i: usize = 0;
    while i < list.len()
        invariant
            edges == graph_edges(*g),
            n == graph_node_count(*g),
            is_distance_matrix(edges, n, dist@),
            edges_within(edges, n),
            s < n,
            d < n,
            s != d,
            dist@[s as int]@[d as int] == Some(total),
            is_shortest(edges, s as nat, d as nat, total as nat),
            i <= list@.len(),
            forall|k: int|
                0 <= k < list@.len() ==> has_edge(edges, s as nat, #[trigger] list@[k].0 as nat, list@[k].1 as nat),
            best.is_some() ==> {
                &&& best.unwrap() != s
                &&& best.unwrap() < n
                &&& dist@[best.unwrap() as int]@[d as int].is_some()
                &&& exists|w: nat|
                    has_edge(edges, s as nat, best.unwrap() as nat, w) && w + dist@[best.unwrap() as int]@[d as int].unwrap()
                        == best_cost
            },
            best.is_some() ==> total <= best_cost,
            forall|k: int|
                0 <= k < i && list@[k].0 != s && list@[k].0 < n && (#[trigger] dist@[list@[k].0 as int])@[d as int].is_some()
                    ==> best.is_some() && best_cost <= list@[k].1 + dist@[list@[k].0 as int]@[d as int].unwrap(),
        decreases list@.len() - i,
    {
        let (nb, w) = list[i];
        if nb != s && nb < dist.len() {
            assert(is_distance_row(edges, n, nb as nat, dist@[nb as int]@));
            if let Some(rest) = dist[nb][d] {
                let cost: u128 = w as u128 + rest as u128;
                proof {
                    lemma_shortest_via_edge(edges, s as nat, nb as nat, d as nat, w as nat, total as nat, rest as nat);
                }
                if best.is_none() || cost < best_cost {
                    best = Some(nb);
                    best_cost = cost;
                }
            }
        }
        i = i + 1;
    }
    proof {
        let steps = choose|steps: Seq<EdgeSpec>| is_walk(edges, steps, s as nat, d as nat) && walk_cost(steps) == total;
        let (nb, w, rest) = lemma_first_step(edges, steps, s as nat, d as nat, total as nat);
        let j = choose|j: int| 0 <= j < edges.len() && (edges[j] == (s as nat, nb, w) || edges[j] == (nb, s as nat, w));
        assert(nb < n);
        assert(is_distance_row(edges, n, nb, dist@[nb as int]@));
        assert(reachable(edges, nb, d as nat));
        let c2 = dist@[nb as int]@[d as int].unwrap();
        assert(c2 <= walk_cost(rest));
        let k = choose|k: int| 0 <= k < list@.len() && list@[k].0 == nb && list@[k].1 == w;
        assert(best.is_some() && best_cost <= list@[k].1 + dist@[list@[k].0 as int]@[d as int].unwrap());
    }
    best
}

/// Builds the next-hop table over all node pairs.
pub fn next_hop_matrix(g: &NavGraph, dist: &Vec<Vec<Option<u64>>>) -> (t: Vec<Vec<Option<usize>>>)
    requires
        is_distance_matrix(graph_edges(*g), graph_node_count(*g), dist@),
        edges_within(graph_edges(*g), graph_node_count(*g)),
    ensures
        is_next_hop_table(graph_edges(*g), dist@, t@),
{
    let n = dist.len();
    let mut t: Vec<Vec<Option<usize>>> = Vec::new();
    let mut s: usize = 0;
    while s < n
        invariant
            n == dist@.len(),
            is_distance_matrix(graph_edges(*g), graph_node_count(*g), dist@),
            edges_within(graph_edges(*g), graph_node_count(*g)),
            s <= n,
            t@.len() == s,
            forall|k: int| 0 <= k < s ==> #[trigger] t@[k]@.len() == n,
            forall|k: int, d: int|
                0 <= k < s && 0 <= d < n ==> is_next_hop(
                    graph_edges(*g),
                    dist@,
                    k as nat,
                    d as nat,
                    #[trigger] t@[k]@[d],
                ),
        decreases n - s,
    {
        let mut row: Vec<Option<usize>> = Vec::new();
        let mut d: usize = 0;
        while d < n
            invariant
                n == dist@.len(),
                is_distance_matrix(graph_edges(*g), graph_node_count(*g), dist@),
                edges_within(graph_edges(*g), graph_node_count(*g)),
                s < n,
                d <= n,
                row@.len() == d,
                forall|e: int|
                    0 <= e < d ==> is_next_hop(graph_edges(*g), dist@, s as nat, e as nat, #[trigger] row@[e]),
            decreases n - d,
        {
            let h = next_hop_toward(g, dist, s, d);
            row.push(h);
            d = d + 1;
        }
        t.push(row);
        s = s + 1;
    }
    t
}

/// The node reached from `s` after `k` next hops toward `d`, or `None` where
/// the table has no hop on the way.
pub open spec fn follow_next_hops(t: Seq<Vec<Option<usize>>>, s: nat, d: nat, k: nat) -> Option<nat>
    decreases k,
{
    if k == 0 {
        Some(s)
    } else {
        match t[s as int]@[d as int] {
            Some(h) => follow_next_hops(t, h as nat, d, (k - 1) as nat),
            None => None,
        }
    }
}

/// Every edge between two distinct nodes weighs at least `m`.
pub open spec fn min_weight_at_least(edges: Seq<EdgeSpec>, m: nat) -> bool {
    forall|i: int| 0 <= i < edges.len() && edges[i].0 != edges[i].1 ==> m <= #[trigger] edges[i].2
}

/// Shortest distances are the same in both directions.
pub proof fn lemma_distance_matrix_symmetric(edges: Seq<EdgeSpec>, n: nat, m: Seq<Vec<Option<u64>>>, s: nat, d: nat)
    requires
        is_distance_matrix(edges, n, m),
        s < n,
        d < n,
    ensures
        m[s as int]@[d as int] == m[d as int]@[s as int],
{
    assert(is_distance_row(edges, n, s, m[s as int]@));
    assert(is_distance_row(edges, n, d, m[d as int]@));
    if reachable(edges, s, d) {
        lemma_reachable_symmetric(edges, s, d);
        let c1 = m[s as int]@[d as int].unwrap() as nat;
        let c2 = m[d as int]@[s as int].unwrap() as nat;
        lemma_shortest_symmetric(edges, s, d, c1);
        lemma_shortest_unique(edges, d, s, c1, c2);
    } else if reachable(edges, d, s) {
        lemma_reachable_symmetric(edges, d, s);
    }
}

/// A node is at distance zero from itself, and is its own next hop.
pub proof fn lemma_tables_diagonal(
    edges: Seq<EdgeSpec>,
    n: nat,
    m: Seq<Vec<Option<u64>>>,
    t: Seq<Vec<Option<usize>>>,
    s: nat,
)
    requires
        is_distance_matrix(edges, n, m),
        is_next_hop_table(edges, m, t),
        s < n,
    ensures
        m[s as int]@[s as int] == Some(0u64),
        t[s as int]@[s as int] == Some(s as usize),
{
    assert(is_distance_row(edges, n, s, m[s as int]@));
    lemma_shortest_self(edges, s);
    assert(is_walk(edges, Seq::<EdgeSpec>::empty(), s, s));
    assert(m[s as int]@[s as int].is_some());
    lemma_shortest_unique(edges, s, s, 0, m[s as int]@[s as int].unwrap() as nat);
    assert(is_next_hop(edges, m, s, s, t[s as int]@[s as int]));
}

proof fn lemma_follow_at_target(
    edges: Seq<EdgeSpec>,
    n: nat,
    m: Seq<Vec<Option<u64>>>,
    t: Seq<Vec<Option<usize>>>,
    d: nat,
    k: nat,
)
    requires
        is_distance_matrix(edges, n, m),
        is_next_hop_table(edges, m, t),
        d < n,
    ensures
        follow_next_hops(t, d, d, k) == Some(d),
    decreases k,
{
    if k > 0 {
        lemma_tables_diagonal(edges, n, m, t, d);
        lemma_follow_at_target(edges, n, m, t, d, (k - 1) as nat);
    }
}

/// Following next hops from `s` reaches `d` within `k` hops whenever `k`
/// edges of the least weight `w` cover the shortest distance: each hop brings
/// the distance down by at least `w`, so the walk has no cycle.
pub proof fn lemma_next_hops_reach(
    edges: Seq<EdgeSpec>,
    n: nat,
    m: Seq<Vec<Option<u64>>>,
    t: Seq<Vec<Option<usize>>>,
    w: nat,
    s: nat,
    d: nat,
    k: nat,
)
    requires
        is_distance_matrix(edges, n, m),
        is_next_hop_table(edges, m, t),
        min_weight_at_least(edges, w),
        w > 0,
        s < n,
        d < n,
        m[s as int]@[d as int].is_some(),
        k * w >= m[s as int]@[d as int].unwrap(),
    ensures
        follow_next_hops(t, s, d, k) == Some(d),
    decreases k,
{
    if s == d {
        lemma_follow_at_target(edges, n, m, t, d, k);
    } else {
        assert(is_next_hop(edges, m, s, d, t[s as int]@[d as int]));
        let h = t[s as int]@[d as int].unwrap() as nat;
        let ew = choose|ew: nat|
            has_edge(edges, s, h, ew) && ew + m[h as int]@[d as int].unwrap() == m[s as int]@[d as int].unwrap();
        let i = choose|i: int| 0 <= i < edges.len() && (edges[i] == (s, h, ew) || edges[i] == (h, s, ew));
        assert(edges[i].0 != edges[i].1);
        assert(edges[i].2 == ew);
        assert(w <= edges[i].2);
        let total = m[s as int]@[d as int].unwrap() as nat;
        assert(k > 0) by (nonlinear_arith)
            requires
                k * w >= total,
                total >= w,
                w > 0,
        ;
        let k1 = (k - 1) as nat;
        assert(k1 * w >= m[h as int]@[d as int].unwrap()) by (nonlinear_arith)
            requires
                k1 == k - 1,
                k * w >= total,
                total == ew + m[h as int]@[d as int].unwrap(),
                w <= ew,
        ;
        lemma_next_hops_reach(edges, n, m, t, w, h, d, k1);
    }
}

} // verus!
