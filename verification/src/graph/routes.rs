use super::edge::Edge;
use super::edge_weighted_graph::{sound_lists, symmetric_lists};
use vstd::prelude::*;

verus! {

/// The vertex at which one arrives from `s` along the edges `es`.
pub open spec fn route_end(s: usize, es: Seq<Edge>) -> usize
    decreases es.len(),
{
    if es.len() == 0 {
        s
    } else {
        es.last().other_end(route_end(s, es.drop_last()))
    }
}

/// `es` can be walked through `adj` from `s`: each edge is in the list of
/// the vertex at which the edges before it arrive.
pub open spec fn is_route(adj: Seq<Seq<Edge>>, s: usize, es: Seq<Edge>) -> bool
    decreases es.len(),
{
    if es.len() == 0 {
        s < adj.len()
    } else {
        is_route(adj, s, es.drop_last()) && adj[route_end(s, es.drop_last()) as int].contains(es.last())
    }
}

/// The sum of the weights of `es`.
pub open spec fn total_weight(es: Seq<Edge>) -> nat
    decreases es.len(),
{
    if es.len() == 0 {
        0
    } else {
        total_weight(es.drop_last()) + es.last().cost() as nat
    }
}

/// `es` leads through `adj` from `s` to `t`.
pub open spec fn leads(adj: Seq<Seq<Edge>>, s: usize, t: usize, es: Seq<Edge>) -> bool {
    is_route(adj, s, es) && route_end(s, es) == t
}

/// Some route through `adj` leads from `a` to `b`.
pub open spec fn connects(adj: Seq<Seq<Edge>>, a: usize, b: usize) -> bool {
    exists|es: Seq<Edge>| leads(adj, a, b, es)
}

/// `d` is the least total weight of a route through `adj` from `s` to `t`.
pub open spec fn is_least_weight(adj: Seq<Seq<Edge>>, s: usize, t: usize, d: nat) -> bool {
    &&& exists|es: Seq<Edge>| leads(adj, s, t, es) && total_weight(es) == d
    &&& forall|es: Seq<Edge>| leads(adj, s, t, es) ==> total_weight(es) >= d
}

/// The weight of two lists of edges, one after the other, is the sum of
/// their weights.
pub proof fn lemma_weight_concat(a: Seq<Edge>, b: Seq<Edge>)
    ensures
        total_weight(a + b) == total_weight(a) + total_weight(b),
    decreases b.len(),
{
    if b.len() == 0 {
        assert(a + b =~= a);
    } else {
        lemma_weight_concat(a, b.drop_last());
        assert((a + b).drop_last() =~= a + b.drop_last());
        assert((a + b).last() == b.last());
    }
}

/// Two vertices have at most one least weight of a route between them.
pub proof fn lemma_least_weight_unique(adj: Seq<Seq<Edge>>, s: usize, t: usize, d1: nat, d2: nat)
    requires
        is_least_weight(adj, s, t, d1),
        is_least_weight(adj, s, t, d2),
    ensures
        d1 == d2,
{
    let first = choose|es: Seq<Edge>| leads(adj, s, t, es) && total_weight(es) == d1;
    let second = choose|es: Seq<Edge>| leads(adj, s, t, es) && total_weight(es) == d2;
    assert(total_weight(first) >= d2);
    assert(total_weight(second) >= d1);
}

/// A route through sound lists stays among the vertices.
pub proof fn lemma_route_stays(adj: Seq<Seq<Edge>>, s: usize, es: Seq<Edge>)
    requires
        sound_lists(adj),
        is_route(adj, s, es),
    ensures
        route_end(s, es) < adj.len(),
    decreases es.len(),
{
    if es.len() > 0 {
        lemma_route_stays(adj, s, es.drop_last());
        let u = route_end(s, es.drop_last()) as int;
        let k = choose|k: int| 0 <= k < adj[u].len() && adj[u][k] == es.last();
        assert(adj[u][k].touches(u as usize));
    }
}

/// Putting the edge `x`, which leads from `u` to `t`, before a route from
/// `t` gives a route from `u` that arrives where the other did and weighs
/// as much more as `x` does.
pub proof fn lemma_route_prepend(adj: Seq<Seq<Edge>>, u: usize, t: usize, x: Edge, es: Seq<Edge>)
    requires
        u < adj.len(),
        adj[u as int].contains(x),
        x.other_end(u) == t,
        is_route(adj, t, es),
    ensures
        is_route(adj, u, seq![x] + es),
        route_end(u, seq![x] + es) == route_end(t, es),
        total_weight(seq![x] + es) == x.cost() + total_weight(es),
    decreases es.len(),
{
    let all = seq![x] + es;
    if es.len() == 0 {
        assert(all.drop_last() =~= Seq::<Edge>::empty());
        assert(all.last() == x);
        assert(is_route(adj, u, all.drop_last()));
        assert(total_weight(all.drop_last()) == 0);
    } else {
        lemma_route_prepend(adj, u, t, x, es.drop_last());
        assert(all.drop_last() =~= seq![x] + es.drop_last());
        assert(all.last() == es.last());
    }
}

/// A route followed by a route from where it arrives is a route that arrives
/// where the second does.
pub proof fn lemma_route_concat(adj: Seq<Seq<Edge>>, s: usize, first: Seq<Edge>, second: Seq<Edge>)
    requires
        is_route(adj, s, first),
        is_route(adj, route_end(s, first), second),
    ensures
        is_route(adj, s, first + second),
        route_end(s, first + second) == route_end(route_end(s, first), second),
    decreases second.len(),
{
    if second.len() == 0 {
        assert(first + second =~= first);
    } else {
        lemma_route_concat(adj, s, first, second.drop_last());
        assert((first + second).drop_last() =~= first + second.drop_last());
        assert((first + second).last() == second.last());
    }
}

/// Through sound and symmetric lists every route can be gone back.
pub proof fn lemma_route_back(adj: Seq<Seq<Edge>>, s: usize, es: Seq<Edge>) -> (back: Seq<Edge>)
    requires
        sound_lists(adj),
        symmetric_lists(adj),
        is_route(adj, s, es),
    ensures
        leads(adj, route_end(s, es), s, back),
    decreases es.len(),
{
    if es.len() == 0 {
        es
    } else {
        let before = es.drop_last();
        let x = es.last();
        let u = route_end(s, before);
        lemma_route_stays(adj, s, before);
        let k = choose|k: int| 0 <= k < adj[u as int].len() && adj[u as int][k] == x;
        assert(adj[u as int][k].touches(u));
        assert(adj[adj[u as int][k].other_end(u) as int].contains(adj[u as int][k]));
        let t = x.other_end(u);
        let rest = lemma_route_back(adj, s, before);
        lemma_route_prepend(adj, t, u, x, rest);
        seq![x] + rest
    }
}

} // verus!
