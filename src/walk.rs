//! Walks, walk costs, reachability and shortest distances over a list of
//! undirected weighted edges, with the lemmas that relate them.

use vstd::prelude::*;

verus! {

/// An undirected, weighted edge: two endpoints (node indices) and a weight.
pub type EdgeSpec = (nat, nat, nat);

/// Some edge joins `a` and `b` with weight `w` (in either orientation).
pub open spec fn has_edge(edges: Seq<EdgeSpec>, a: nat, b: nat, w: nat) -> bool {
    exists|i: int| 0 <= i < edges.len() && (edges[i] == (a, b, w) || edges[i] == (b, a, w))
}

/// Every edge joins nodes below `n`.
pub open spec fn edges_within(edges: Seq<EdgeSpec>, n: nat) -> bool {
    forall|i: int| 0 <= i < edges.len() ==> edges[i].0 < n && edges[i].1 < n
}

/// `steps` walks from `s` to `d`: each step is `(from, to, weight)` along an edge.
pub open spec fn is_walk(edges: Seq<EdgeSpec>, steps: Seq<EdgeSpec>, s: nat, d: nat) -> bool
    decreases steps.len(),
{
    if steps.len() == 0 {
        s == d
    } else {
        &&& steps[0].0 == s
        &&& has_edge(edges, steps[0].0, steps[0].1, steps[0].2)
        &&& is_walk(edges, steps.drop_first(), steps[0].1, d)
    }
}

/// Sum of the weights along a walk.
pub open spec fn walk_cost(steps: Seq<EdgeSpec>) -> nat
    decreases steps.len(),
{
    if steps.len() == 0 {
        0
    } else {
        steps[0].2 + walk_cost(steps.drop_first())
    }
}

/// Sum of all edge weights.
pub open spec fn total_weight(edges: Seq<EdgeSpec>) -> nat
    decreases edges.len(),
{
    if edges.len() == 0 {
        0
    } else {
        edges.last().2 + total_weight(edges.drop_last())
    }
}

pub open spec fn reachable(edges: Seq<EdgeSpec>, s: nat, d: nat) -> bool {
    exists|steps: Seq<EdgeSpec>| is_walk(edges, steps, s, d)
}

/// `c` is the length of a shortest walk from `s` to `d`.
pub open spec fn is_shortest(edges: Seq<EdgeSpec>, s: nat, d: nat, c: nat) -> bool {
    &&& exists|steps: Seq<EdgeSpec>| is_walk(edges, steps, s, d) && walk_cost(steps) == c
    &&& forall|steps: Seq<EdgeSpec>| is_walk(edges, steps, s, d) ==> c <= walk_cost(steps)
}

/// The walk `steps` taken backwards.
pub open spec fn reverse_walk(steps: Seq<EdgeSpec>) -> Seq<EdgeSpec>
    decreases steps.len(),
{
    if steps.len() == 0 {
        steps
    } else {
        reverse_walk(steps.drop_first()).push((steps[0].1, steps[0].0, steps[0].2))
    }
}

pub proof fn lemma_walk_append(
    edges: Seq<EdgeSpec>,
    w1: Seq<EdgeSpec>,
    w2: Seq<EdgeSpec>,
    s: nat,
    m: nat,
    d: nat,
)
    requires
        is_walk(edges, w1, s, m),
        is_walk(edges, w2, m, d),
    ensures
        is_walk(edges, w1 + w2, s, d),
        walk_cost(w1 + w2) == walk_cost(w1) + walk_cost(w2),
    decreases w1.len(),
{
    if w1.len() == 0 {
        assert(w1 + w2 =~= w2);
    } else {
        lemma_walk_append(edges, w1.drop_first(), w2, w1[0].1, m, d);
        assert((w1 + w2).drop_first() =~= w1.drop_first() + w2);
        assert((w1 + w2)[0] == w1[0]);
    }
}

/// A walk of one step along an edge.
pub proof fn lemma_single_step(edges: Seq<EdgeSpec>, a: nat, b: nat, w: nat)
    requires
        has_edge(edges, a, b, w),
    ensures
        is_walk(edges, seq![(a, b, w)], a, b),
        walk_cost(seq![(a, b, w)]) == w,
{
    let one = seq![(a, b, w)];
    assert(one.drop_first() =~= Seq::<EdgeSpec>::empty());
    assert(is_walk(edges, one.drop_first(), b, b));
    assert(walk_cost(one.drop_first()) == 0);
}

pub proof fn lemma_has_edge_symmetric(edges: Seq<EdgeSpec>, a: nat, b: nat, w: nat)
    requires
        has_edge(edges, a, b, w),
    ensures
        has_edge(edges, b, a, w),
{
    let i = choose|i: int| 0 <= i < edges.len() && (edges[i] == (a, b, w) || edges[i] == (b, a, w));
    assert(0 <= i < edges.len() && (edges[i] == (b, a, w) || edges[i] == (a, b, w)));
}

pub proof fn lemma_walk_reverse(edges: Seq<EdgeSpec>, steps: Seq<EdgeSpec>, s: nat, d: nat)
    requires
        is_walk(edges, steps, s, d),
    ensures
        is_walk(edges, reverse_walk(steps), d, s),
        walk_cost(reverse_walk(steps)) == walk_cost(steps),
    decreases steps.len(),
{
    if steps.len() > 0 {
        let st = steps[0];
        let rest = steps.drop_first();
        lemma_walk_reverse(edges, rest, st.1, d);
        lemma_has_edge_symmetric(edges, st.0, st.1, st.2);
        lemma_single_step(edges, st.1, st.0, st.2);
        lemma_walk_append(edges, reverse_walk(rest), seq![(st.1, st.0, st.2)], d, st.1, s);
        assert(reverse_walk(rest) + seq![(st.1, st.0, st.2)] =~= reverse_walk(steps));
    }
}

pub proof fn lemma_reachable_symmetric(edges: Seq<EdgeSpec>, s: nat, d: nat)
    requires
        reachable(edges, s, d),
    ensures
        reachable(edges, d, s),
{
    let steps = choose|steps: Seq<EdgeSpec>| is_walk(edges, steps, s, d);
    lemma_walk_reverse(edges, steps, s, d);
}

pub proof fn lemma_shortest_symmetric(edges: Seq<EdgeSpec>, s: nat, d: nat, c: nat)
    requires
        is_shortest(edges, s, d, c),
    ensures
        is_shortest(edges, d, s, c),
{
    let steps = choose|steps: Seq<EdgeSpec>| is_walk(edges, steps, s, d) && walk_cost(steps) == c;
    lemma_walk_reverse(edges, steps, s, d);
    assert forall|other: Seq<EdgeSpec>| is_walk(edges, other, d, s) implies c <= walk_cost(
        other,
    ) by {
        lemma_walk_reverse(edges, other, d, s);
    }
}

pub proof fn lemma_shortest_unique(edges: Seq<EdgeSpec>, s: nat, d: nat, c1: nat, c2: nat)
    requires
        is_shortest(edges, s, d, c1),
        is_shortest(edges, s, d, c2),
    ensures
        c1 == c2,
{
    let w1 = choose|steps: Seq<EdgeSpec>| is_walk(edges, steps, s, d) && walk_cost(steps) == c1;
    let w2 = choose|steps: Seq<EdgeSpec>| is_walk(edges, steps, s, d) && walk_cost(steps) == c2;
    assert(c1 <= walk_cost(w2));
    assert(c2 <= walk_cost(w1));
}

/// The empty walk is a shortest walk from a node to itself.
pub proof fn lemma_shortest_self(edges: Seq<EdgeSpec>, s: nat)
    ensures
        is_shortest(edges, s, s, 0),
{
    let empty = Seq::<EdgeSpec>::empty();
    assert(is_walk(edges, empty, s, s) && walk_cost(empty) == 0);
}

/// A shortest distance is at most one edge plus the distance from that edge's far end.
pub proof fn lemma_shortest_via_edge(
    edges: Seq<EdgeSpec>,
    s: nat,
    n: nat,
    d: nat,
    w: nat,
    c: nat,
    c2: nat,
)
    requires
        is_shortest(edges, s, d, c),
        has_edge(edges, s, n, w),
        is_shortest(edges, n, d, c2),
    ensures
        c <= w + c2,
{
    let rest = choose|steps: Seq<EdgeSpec>| is_walk(edges, steps, n, d) && walk_cost(steps) == c2;
    lemma_single_step(edges, s, n, w);
    lemma_walk_append(edges, seq![(s, n, w)], rest, s, n, d);
}

/// A shortest walk between distinct nodes can start with an edge to another node.
pub proof fn lemma_first_step(edges: Seq<EdgeSpec>, steps: Seq<EdgeSpec>, s: nat, d: nat, c: nat) -> (r: (nat, nat, Seq<EdgeSpec>))
    requires
        s != d,
        is_shortest(edges, s, d, c),
        is_walk(edges, steps, s, d),
        walk_cost(steps) == c,
    ensures
        r.0 != s,
        has_edge(edges, s, r.0, r.1),
        is_walk(edges, r.2, r.0, d),
        r.1 + walk_cost(r.2) == c,
    decreases steps.len(),
{
    let st = steps[0];
    let rest = steps.drop_first();
    if st.1 == s {
        assert(is_walk(edges, rest, s, d));
        assert(c <= walk_cost(rest));
        lemma_first_step(edges, rest, s, d, c)
    } else {
        (st.1, st.2, rest)
    }
}

/// A walk stays a walk when edges are added.
pub proof fn lemma_walk_more_edges(edges: Seq<EdgeSpec>, more: Seq<EdgeSpec>, steps: Seq<EdgeSpec>, s: nat, d: nat)
    requires
        is_walk(edges, steps, s, d),
        edges.len() <= more.len(),
        more.subrange(0, edges.len() as int) == edges,
    ensures
        is_walk(more, steps, s, d),
    decreases steps.len(),
{
    if steps.len() > 0 {
        let st = steps[0];
        let i = choose|i: int| 0 <= i < edges.len() && (edges[i] == (st.0, st.1, st.2) || edges[i] == (st.1, st.0, st.2));
        assert(more.subrange(0, edges.len() as int)[i] == more[i]);
        lemma_walk_more_edges(edges, more, steps.drop_first(), st.1, d);
    }
}

pub proof fn lemma_reachable_more_edges(edges: Seq<EdgeSpec>, more: Seq<EdgeSpec>, s: nat, d: nat)
    requires
        reachable(edges, s, d),
        edges.len() <= more.len(),
        more.subrange(0, edges.len() as int) == edges,
    ensures
        reachable(more, s, d),
{
    let steps = choose|steps: Seq<EdgeSpec>| is_walk(edges, steps, s, d);
    lemma_walk_more_edges(edges, more, steps, s, d);
}

pub proof fn lemma_reachable_trans(edges: Seq<EdgeSpec>, s: nat, m: nat, d: nat)
    requires
        reachable(edges, s, m),
        reachable(edges, m, d),
    ensures
        reachable(edges, s, d),
{
    let w1 = choose|steps: Seq<EdgeSpec>| is_walk(edges, steps, s, m);
    let w2 = choose|steps: Seq<EdgeSpec>| is_walk(edges, steps, m, d);
    lemma_walk_append(edges, w1, w2, s, m, d);
}

pub proof fn lemma_reachable_self(edges: Seq<EdgeSpec>, s: nat)
    ensures
        reachable(edges, s, s),
{
    assert(is_walk(edges, Seq::<EdgeSpec>::empty(), s, s));
}

pub proof fn lemma_reachable_edge(edges: Seq<EdgeSpec>, i: int)
    requires
        0 <= i < edges.len(),
    ensures
        reachable(edges, edges[i].0, edges[i].1),
{
    lemma_single_step(edges, edges[i].0, edges[i].1, edges[i].2);
}

pub proof fn lemma_total_weight_push(edges: Seq<EdgeSpec>, e: EdgeSpec)
    ensures
        total_weight(edges.push(e)) == e.2 + total_weight(edges),
{
    assert(edges.push(e).drop_last() =~= edges);
}

} // verus!
