//! The navigation graph, held in a petgraph `Graph`, and the calls into
//! petgraph that the library relies on.

use petgraph::algo::dijkstra;
use petgraph::graph::{NodeIndex, UnGraph};
use petgraph::visit::EdgeRef;
use vstd::prelude::*;

use crate::walk::{has_edge, is_shortest, reachable, total_weight, EdgeSpec};

verus! {

#[verifier::external_type_specification]
#[verifier::external_body]
#[verifier::reject_recursive_types(N)]
#[verifier::reject_recursive_types(E)]
#[verifier::reject_recursive_types(Ty)]
#[verifier::reject_recursive_types(Ix)]
pub struct ExGraph<N, E, Ty, Ix>(petgraph::Graph<N, E, Ty, Ix>);

#[verifier::external_type_specification]
#[verifier::external_body]
pub struct ExUndirected(petgraph::Undirected);

/// The navigation graph: undirected, weights in fixed-point tile units.
pub type NavGraph = petgraph::Graph<(), u64, petgraph::Undirected, u32>;

/// The edges of a graph in insertion order, as (endpoint, endpoint, weight).
pub uninterp spec fn graph_edges(g: NavGraph) -> Seq<EdgeSpec>;

/// The number of nodes of a graph.
pub uninterp spec fn graph_node_count(g: NavGraph) -> nat;

/// Relies on petgraph's `Graph::new_undirected`: a graph with no node and no edge.
#[verifier::external_body]
pub(crate) fn new_graph() -> (g: NavGraph)
    ensures
        graph_edges(g) == Seq::<EdgeSpec>::empty(),
        graph_node_count(g) == 0,
{
    UnGraph::new_undirected()
}

/// Relies on petgraph's `Graph::node_count`.
#[verifier::external_body]
pub(crate) fn node_count(g: &NavGraph) -> (r: usize)
    ensures
        r == graph_node_count(*g),
{
    g.node_count()
}

/// Relies on petgraph's `Graph::add_node`: the new node takes the next index;
/// it panics once the `u32` index space is used up.
#[verifier::external_body]
pub(crate) fn add_node(g: &mut NavGraph) -> (r: usize)
    requires
        graph_node_count(*old(g)) < u32::MAX,
    ensures
        r == graph_node_count(*old(g)),
        graph_node_count(*final(g)) == graph_node_count(*old(g)) + 1,
        graph_edges(*final(g)) == graph_edges(*old(g)),
{
    g.add_node(()).index()
}

/// Relies on petgraph's `Graph::add_edge`: the edge is appended; it panics on
/// an endpoint that is not a node, or once the `u32` index space is used up.
#[verifier::external_body]
pub(crate) fn add_edge(g: &mut NavGraph, a: usize, b: usize, w: u64)
    requires
        a < graph_node_count(*old(g)),
        b < graph_node_count(*old(g)),
        graph_edges(*old(g)).len() < u32::MAX,
    ensures
        graph_edges(*final(g)) == graph_edges(*old(g)).push((a as nat, b as nat, w as nat)),
        graph_node_count(*final(g)) == graph_node_count(*old(g)),
{
    g.add_edge(NodeIndex::new(a), NodeIndex::new(b), w);
}

/// Relies on petgraph's `Graph::edges`: on an undirected graph it yields every
/// edge at `a` once, with `a` as source, and nothing else.
#[verifier::external_body]
pub(crate) fn neighbors(g: &NavGraph, a: usize) -> (r: Vec<(usize, u64)>)
    requires
        a < graph_node_count(*g),
    ensures
        forall|i: int|
            0 <= i < r@.len() ==> has_edge(graph_edges(*g), a as nat, r@[i].0 as nat, r@[i].1 as nat),
        forall|j: int|
            0 <= j < graph_edges(*g).len() && graph_edges(*g)[j].0 == a ==> exists|i: int|
                0 <= i < r@.len() && r@[i].0 == graph_edges(*g)[j].1 && r@[i].1
                    == graph_edges(*g)[j].2,
        forall|j: int|
            0 <= j < graph_edges(*g).len() && graph_edges(*g)[j].1 == a ==> exists|i: int|
                0 <= i < r@.len() && r@[i].0 == graph_edges(*g)[j].0 && r@[i].1
                    == graph_edges(*g)[j].2,
{
    g.edges(NodeIndex::new(a)).map(|e| (e.target().index(), *e.weight())).collect()
}

/// Relies on petgraph's `algo::dijkstra` (no goal): it maps each node reachable
/// from `s` to the length of a shortest walk, and holds no other node. Its sums
/// stay below the total weight, which is required to fit in `u64`.
#[verifier::external_body]
pub(crate) fn shortest_distances(g: &NavGraph, s: usize) -> (r: Vec<Option<u64>>)
    requires
        s < graph_node_count(*g),
        total_weight(graph_edges(*g)) <= u64::MAX,
    ensures
        r@.len() == graph_node_count(*g),
        forall|t: int|
            0 <= t < r@.len() ==> (r@[t].is_some() <==> reachable(
                graph_edges(*g),
                s as nat,
                t as nat,
            )),
        forall|t: int|
            0 <= t < r@.len() && r@[t].is_some() ==> is_shortest(
                graph_edges(*g),
                s as nat,
                t as nat,
                r@[t].unwrap() as nat,
            ),
{
    let m = dijkstra(g, NodeIndex::new(s), None, |e| *e.weight());
    (0..g.node_count()).map(|t| m.get(&NodeIndex::new(t)).copied()).collect()
}

} // verus!
