use super::edge::Edge;
use super::edge_weighted_graph::{
    all_reported, lemma_all_reported_covers, lemma_reported_somewhere, sound_lists, symmetric_lists,
};
use super::routes::{
    connects, is_route, leads, lemma_route_back, lemma_route_concat, lemma_route_stays, route_end, total_weight,
    lemma_weight_concat,
};
use crate::fundamentals::uf::{canonical, least_members, lemma_roots_count_classes, merged, roots};
use vstd::prelude::*;

verus! {

/// The labelling `c` of the vertices gives the two ends of every edge of
/// `es` one label.
pub open spec fn respects(c: Seq<usize>, es: Seq<Edge>) -> bool {
    forall|i: int| 0 <= i < es.len() ==> c[(#[trigger] es[i]).first() as int] == c[es[i].second() as int]
}

/// The vertices `a` and `b` lie in one component of the graph of `n`
/// vertices with the edges `es`: no labelling of the vertices that gives the
/// two ends of every edge one label tells them apart.
pub open spec fn tied(n: nat, es: Seq<Edge>, a: int, b: int) -> bool {
    forall|c: Seq<usize>| c.len() == n && #[trigger] respects(c, es) ==> c[a] == c[b]
}

/// The vertices that are the first of their component.
pub open spec fn component_heads(n: nat, es: Seq<Edge>) -> Set<int> {
    Set::new(|v: int| 0 <= v < n && forall|u: int| 0 <= u < v ==> !#[trigger] tied(n, es, u, v))
}

/// The number of components of the graph of `n` vertices with the edges
/// `es`.
pub open spec fn component_count(n: nat, es: Seq<Edge>) -> nat {
    component_heads(n, es).len()
}

/// Every edge of `es` joins two vertices below `n`.
pub open spec fn edges_within(n: nat, es: Seq<Edge>) -> bool {
    forall|i: int| 0 <= i < es.len() ==> (#[trigger] es[i]).first() < n && es[i].second() < n
}

/// A labelling that gives the ends of every reported edge one label gives
/// the ends of every edge in a list one label.
pub proof fn lemma_entry_respected(adj: Seq<Seq<Edge>>, c: Seq<usize>, a: int, k: int)
    requires
        sound_lists(adj),
        symmetric_lists(adj),
        respects(c, all_reported(adj, adj.len() as int)),
        0 <= a < adj.len() <= usize::MAX,
        0 <= k < adj[a].len(),
    ensures
        c[a] == c[adj[a][k].other_end(a as usize) as int],
{
    let e = adj[a][k];
    let b = e.other_end(a as usize) as int;
    let es = all_reported(adj, adj.len() as int);
    assert(e.touches(a as usize));
    if b > a {
        lemma_all_reported_covers(adj, adj.len() as int, a, k);
        let i = choose|i: int| 0 <= i < es.len() && es[i] == e;
        assert(c[es[i].first() as int] == c[es[i].second() as int]);
    } else if b < a {
        assert(adj[b].contains(e));
        let j = choose|j: int| 0 <= j < adj[b].len() && adj[b][j] == e;
        lemma_all_reported_covers(adj, adj.len() as int, b, j);
        let i = choose|i: int| 0 <= i < es.len() && es[i] == e;
        assert(c[es[i].first() as int] == c[es[i].second() as int]);
    }
}

/// The edges reported from sound lists join vertices of the graph.
pub proof fn lemma_reported_within(adj: Seq<Seq<Edge>>)
    requires
        sound_lists(adj),
    ensures
        edges_within(adj.len(), all_reported(adj, adj.len() as int)),
{
    let es = all_reported(adj, adj.len() as int);
    assert forall|i: int| 0 <= i < es.len()
        implies (#[trigger] es[i]).first() < adj.len() && es[i].second() < adj.len() by {
        let a = lemma_reported_somewhere(adj, adj.len() as int, i);
        let k = choose|k: int| 0 <= k < adj[a].len() && adj[a][k] == es[i];
        assert(adj[a][k].touches(a as usize));
    }
}

/// Every element lies in the class of the element that stands for it, and
/// the two ends of every edge of `es` lie in one class.
pub open spec fn classes_hold(reps: Seq<usize>, es: Seq<Edge>) -> bool {
    &&& canonical(reps)
    &&& edges_within(reps.len(), es)
    &&& respects(reps, es)
}

/// The classes are no coarser than the components of `es`: a labelling that
/// gives the ends of every edge of `es` one label gives every element the
/// label of the element that stands for it.
pub open spec fn classes_tied(reps: Seq<usize>, es: Seq<Edge>) -> bool {
    forall|c: Seq<usize>, x: int|
        c.len() == reps.len() && #[trigger] respects(c, es) && 0 <= x < reps.len()
            ==> #[trigger] c[x] == c[reps[x] as int]
}

/// The edges of `part` are edges of `whole`.
pub open spec fn drawn_from(part: Seq<Edge>, whole: Seq<Edge>) -> bool {
    forall|i: int| 0 <= i < part.len() ==> whole.contains(#[trigger] part[i])
}

/// The edges `es` do not tie the ends of the edge `e`.
pub open spec fn apart(n: nat, es: Seq<Edge>, e: Edge) -> bool {
    !tied(n, es, e.first() as int, e.second() as int)
}

/// `f` is drawn from `es` and ties whatever `es` ties.
pub open spec fn spans(n: nat, es: Seq<Edge>, f: Seq<Edge>) -> bool {
    &&& drawn_from(f, es)
    &&& forall|a: int, b: int| 0 <= a < n && 0 <= b < n && tied(n, es, a, b) ==> #[trigger] tied(n, f, a, b)
}

/// `tree` was grown greedily from `es`: each of its edges is an edge of
/// `es` that ties what the edges before it do not, and no edge of `es` that
/// does so is lighter.
pub open spec fn greedy(n: nat, es: Seq<Edge>, tree: Seq<Edge>) -> bool {
    forall|q: int|
        0 <= q < tree.len() ==> {
            let e = #[trigger] tree[q];
            let before = tree.subrange(0, q);
            &&& es.contains(e)
            &&& apart(n, before, e)
            &&& forall|x: int|
                0 <= x < es.len() && apart(n, before, #[trigger] es[x]) ==> e.cost() <= es[x].cost()
        }
}

/// The classes of the graph of `n` vertices with the edges `es`, found by
/// joining the classes of the two ends of each edge in turn.
pub open spec fn classes(n: nat, es: Seq<Edge>) -> Seq<usize>
    decreases es.len(),
{
    if es.len() == 0 {
        Seq::new(n, |i: int| i as usize)
    } else {
        let r = classes(n, es.drop_last());
        let e = es.last();
        merged(r, r[e.first() as int], r[e.second() as int], r[e.first() as int])
    }
}

/// Accepting the edge `e` and making the classes of its ends one keeps the
/// classes those of the accepted edges.
pub proof fn lemma_accept(reps: Seq<usize>, es: Seq<Edge>, e: Edge, winner: usize)
    requires
        classes_hold(reps, es),
        classes_tied(reps, es),
        e.first() < reps.len(),
        e.second() < reps.len(),
        winner == reps[e.first() as int] || winner == reps[e.second() as int],
    ensures
        classes_hold(merged(reps, reps[e.first() as int], reps[e.second() as int], winner), es.push(e)),
        classes_tied(merged(reps, reps[e.first() as int], reps[e.second() as int], winner), es.push(e)),
{
    let a = reps[e.first() as int];
    let b = reps[e.second() as int];
    let after = merged(reps, a, b, winner);
    let more = es.push(e);
    assert forall|i: int| 0 <= i < more.len()
        implies after[(#[trigger] more[i]).first() as int] == after[more[i].second() as int]
        && more[i].first() < reps.len() && more[i].second() < reps.len() by {
        if i < es.len() {
            assert(more[i] == es[i]);
        }
    }
    assert forall|c: Seq<usize>, x: int|
        c.len() == after.len() && #[trigger] respects(c, more) && 0 <= x < after.len()
            implies #[trigger] c[x] == c[after[x] as int] by {
        assert(respects(c, es)) by {
            assert forall|i: int| 0 <= i < es.len()
                implies c[(#[trigger] es[i]).first() as int] == c[es[i].second() as int] by {
                assert(more[i] == es[i]);
            }
        }
        assert(more[es.len() as int] == e);
        assert(c[e.first() as int] == c[e.second() as int]);
        assert(c[e.first() as int] == c[a as int]);
        assert(c[e.second() as int] == c[b as int]);
        assert(c[x] == c[reps[x] as int]);
    }
}

/// Where the classes are those of the edges `es`, two vertices are tied by
/// `es` exactly if they lie in one class.
pub proof fn lemma_tied_is_class(reps: Seq<usize>, es: Seq<Edge>)
    requires
        classes_hold(reps, es),
        classes_tied(reps, es),
    ensures
        forall|a: int, b: int|
            0 <= a < reps.len() && 0 <= b < reps.len()
                ==> (#[trigger] tied(reps.len(), es, a, b) <==> reps[a] == reps[b]),
{
    let n = reps.len();
    assert forall|a: int, b: int| 0 <= a < n && 0 <= b < n
        implies (#[trigger] tied(n, es, a, b) <==> reps[a] == reps[b]) by {
        if reps[a] == reps[b] {
            assert forall|c: Seq<usize>| c.len() == n && #[trigger] respects(c, es) implies c[a] == c[b] by {
                assert(c[a] == c[reps[a] as int]);
                assert(c[b] == c[reps[b] as int]);
            }
        }
        if tied(n, es, a, b) {
            assert(respects(reps, es));
        }
    }
}

/// A labelling that gives the ends of every edge of `whole` one label does
/// so for the edges drawn from it.
pub proof fn lemma_respects_part(c: Seq<usize>, whole: Seq<Edge>, part: Seq<Edge>)
    requires
        respects(c, whole),
        drawn_from(part, whole),
    ensures
        respects(c, part),
{
    assert forall|j: int| 0 <= j < part.len()
        implies c[(#[trigger] part[j]).first() as int] == c[part[j].second() as int] by {
        let i = choose|i: int| 0 <= i < whole.len() && whole[i] == part[j];
        assert(c[whole[i].first() as int] == c[whole[i].second() as int]);
    }
}

/// What edges tie, more edges tie too.
pub proof fn lemma_tied_grows(n: nat, part: Seq<Edge>, whole: Seq<Edge>, a: int, b: int)
    requires
        drawn_from(part, whole),
        tied(n, part, a, b),
    ensures
        tied(n, whole, a, b),
{
    assert forall|c: Seq<usize>| c.len() == n && #[trigger] respects(c, whole) implies c[a] == c[b] by {
        lemma_respects_part(c, whole, part);
    }
}

/// Where the classes are those of the accepted edges `tree` and the two
/// ends of every edge of `es` lie in one class, `tree` ties what `es` ties,
/// and the classes are as many as the components of `es`.
pub proof fn lemma_spans(reps: Seq<usize>, tree: Seq<Edge>, es: Seq<Edge>)
    requires
        classes_hold(reps, tree),
        classes_tied(reps, tree),
        edges_within(reps.len(), es),
        respects(reps, es),
        drawn_from(tree, es),
    ensures
        forall|a: int, b: int|
            0 <= a < reps.len() && 0 <= b < reps.len()
                ==> (#[trigger] tied(reps.len(), tree, a, b) <==> reps[a] == reps[b]),
        forall|a: int, b: int|
            0 <= a < reps.len() && 0 <= b < reps.len()
                ==> (#[trigger] tied(reps.len(), es, a, b) <==> reps[a] == reps[b]),
        component_count(reps.len(), es) == roots(reps).len(),
{
    let n = reps.len();
    lemma_tied_is_class(reps, tree);
    assert forall|a: int, b: int| 0 <= a < n && 0 <= b < n
        implies (#[trigger] tied(n, es, a, b) <==> reps[a] == reps[b]) by {
        if reps[a] == reps[b] {
            assert(tied(n, tree, a, b));
            lemma_tied_grows(n, tree, es, a, b);
        }
        if tied(n, es, a, b) {
            assert(respects(reps, es));
        }
    }
    assert forall|v: int| component_heads(n, es).contains(v) <==> least_members(reps).contains(v) by {
        if 0 <= v < n {
            if component_heads(n, es).contains(v) {
                assert forall|u: int| 0 <= u < v implies #[trigger] reps[u] != reps[v] by {
                    assert(!tied(n, es, u, v));
                }
            }
            if least_members(reps).contains(v) {
                assert forall|u: int| 0 <= u < v implies !#[trigger] tied(n, es, u, v) by {
                    assert(reps[u] != reps[v]);
                }
            }
        }
    }
    assert(component_heads(n, es) =~= least_members(reps));
    lemma_roots_count_classes(reps);
}

/// The classes found by joining along the edges are those of the edges.
pub proof fn lemma_classes(n: nat, es: Seq<Edge>)
    requires
        n <= usize::MAX,
        edges_within(n, es),
    ensures
        classes(n, es).len() == n,
        classes_hold(classes(n, es), es),
        classes_tied(classes(n, es), es),
    decreases es.len(),
{
    if es.len() == 0 {
        let r = classes(n, es);
        assert forall|c: Seq<usize>, x: int| c.len() == r.len() && #[trigger] respects(c, es)
            && 0 <= x < r.len() implies #[trigger] c[x]
            == c[r[x] as int] by {
            assert(r[x] == x);
        }
    } else {
        let before = es.drop_last();
        let e = es.last();
        assert forall|i: int| 0 <= i < before.len()
            implies (#[trigger] before[i]).first() < n && before[i].second() < n by {
            assert(before[i] == es[i]);
        }
        lemma_classes(n, before);
        let r = classes(n, before);
        lemma_accept(r, before, e, r[e.first() as int]);
        assert(before.push(e) =~= es);
    }
}

/// Where a list of edges comes to tie two vertices that the edges before it
/// do not tie, one of its edges is the first with which they are tied.
pub proof fn lemma_first_tying(n: nat, base: Seq<Edge>, rest: Seq<Edge>, v: int, w: int) -> (j: int)
    requires
        !tied(n, base, v, w),
        tied(n, base + rest, v, w),
    ensures
        0 <= j < rest.len(),
        !tied(n, base + rest.subrange(0, j), v, w),
        tied(n, base + rest.subrange(0, j + 1), v, w),
    decreases rest.len(),
{
    if rest.len() == 0 {
        assert(base + rest =~= base);
        0
    } else if tied(n, base + rest.drop_last(), v, w) {
        let j = lemma_first_tying(n, base, rest.drop_last(), v, w);
        assert(rest.drop_last().subrange(0, j) =~= rest.subrange(0, j));
        assert(rest.drop_last().subrange(0, j + 1) =~= rest.subrange(0, j + 1));
        j
    } else {
        let j = rest.len() - 1;
        assert(rest.subrange(0, j) =~= rest.drop_last());
        assert(rest.subrange(0, j + 1) =~= rest);
        j
    }
}

/// Where the edge `f` comes to tie the ends of the edge `e`, which the edges
/// `es` do not tie, `e` in its place ties the ends of `f`, which `es` do not
/// tie either.
pub proof fn lemma_exchange(n: nat, es: Seq<Edge>, e: Edge, f: Edge)
    requires
        n <= usize::MAX,
        edges_within(n, es),
        e.first() < n,
        e.second() < n,
        f.first() < n,
        f.second() < n,
        apart(n, es, e),
        tied(n, es.push(f), e.first() as int, e.second() as int),
    ensures
        tied(n, es.push(e), f.first() as int, f.second() as int),
        !tied(n, es, f.first() as int, f.second() as int),
{
    let r = classes(n, es);
    lemma_classes(n, es);
    lemma_tied_is_class(r, es);
    let with_f = es.push(f);
    assert(with_f.drop_last() =~= es);
    assert(with_f.last() == f);
    assert forall|i: int| 0 <= i < with_f.len()
        implies (#[trigger] with_f[i]).first() < n && with_f[i].second() < n by {
        if i < es.len() {
            assert(with_f[i] == es[i]);
        }
    }
    lemma_classes(n, with_f);
    let r2 = classes(n, with_f);
    lemma_tied_is_class(r2, with_f);
    let v = e.first() as int;
    let w = e.second() as int;
    let x = f.first() as int;
    let y = f.second() as int;
    assert(r2 == merged(r, r[x], r[y], r[x]));
    assert(r[v] != r[w]);
    assert(r2[v] == r2[w]);
    assert(r[x] != r[y]);
    assert((r[v] == r[x] && r[w] == r[y]) || (r[v] == r[y] && r[w] == r[x]));
    let with_e = es.push(e);
    assert forall|c: Seq<usize>| c.len() == n && #[trigger] respects(c, with_e) implies c[x] == c[y] by {
        assert(respects(c, es)) by {
            assert forall|i: int| 0 <= i < es.len()
                implies c[(#[trigger] es[i]).first() as int] == c[es[i].second() as int] by {
                assert(with_e[i] == es[i]);
            }
        }
        assert(with_e[es.len() as int] == e);
        assert(c[v] == c[w]);
        assert(c[v] == c[r[v] as int]);
        assert(c[w] == c[r[w] as int]);
        assert(c[x] == c[r[x] as int]);
        assert(c[y] == c[r[y] as int]);
    }
}

/// Taking an edge out of a list takes its weight off the list's weight.
pub proof fn lemma_weight_remove(s: Seq<Edge>, j: int)
    requires
        0 <= j < s.len(),
    ensures
        total_weight(s.remove(j)) + s[j].cost() == total_weight(s),
{
    let head = s.subrange(0, j);
    let tail = s.subrange(j + 1, s.len() as int);
    assert(s =~= head.push(s[j]) + tail);
    assert(s.remove(j) =~= head + tail);
    lemma_weight_concat(head, tail);
    lemma_weight_concat(head.push(s[j]), tail);
    assert(head.push(s[j]).drop_last() =~= head);
}

/// A greedily grown list of edges weighs no more than its first `q` edges
/// together with any edges `rest` that make them tie what `es` ties.
pub proof fn lemma_greedy_stays_ahead(n: nat, es: Seq<Edge>, tree: Seq<Edge>, q: int, rest: Seq<Edge>)
    requires
        n <= usize::MAX,
        edges_within(n, es),
        greedy(n, es, tree),
        0 <= q <= tree.len(),
        spans(n, es, tree.subrange(0, q) + rest),
    ensures
        total_weight(tree) <= total_weight(tree.subrange(0, q)) + total_weight(rest),
    decreases tree.len() - q,
{
    let head = tree.subrange(0, q);
    if q == tree.len() {
        assert(head =~= tree);
    } else {
        let e = tree[q];
        let v = e.first() as int;
        let w = e.second() as int;
        let at = choose|x: int| 0 <= x < es.len() && es[x] == e;
        assert(es[at].first() < n && es[at].second() < n);
        assert(tied(n, es, v, w)) by {
            assert forall|c: Seq<usize>| c.len() == n && #[trigger] respects(c, es) implies c[v] == c[w] by {
                assert(c[es[at].first() as int] == c[es[at].second() as int]);
            }
        }
        assert(tied(n, head + rest, v, w));
        let j = lemma_first_tying(n, head, rest, v, w);
        let f = rest[j];
        let so_far = head + rest.subrange(0, j);
        assert(so_far.push(f) =~= head + rest.subrange(0, j + 1));
        assert((head + rest)[q + j] == f);
        let f_at = choose|x: int| 0 <= x < es.len() && es[x] == f;
        assert(es[f_at].first() < n && es[f_at].second() < n);
        assert(edges_within(n, so_far)) by {
            assert forall|i: int| 0 <= i < so_far.len()
                implies (#[trigger] so_far[i]).first() < n && so_far[i].second() < n by {
                assert(so_far[i] == (head + rest)[i]);
                let x = choose|x: int| 0 <= x < es.len() && es[x] == (head + rest)[i];
                assert(es[x].first() < n);
            }
        }
        lemma_exchange(n, so_far, e, f);
        assert(!tied(n, head, f.first() as int, f.second() as int)) by {
            if tied(n, head, f.first() as int, f.second() as int) {
                assert(drawn_from(head, so_far)) by {
                    assert forall|i: int| 0 <= i < head.len() implies so_far.contains(#[trigger] head[i]) by {
                        assert(so_far[i] == head[i]);
                    }
                }
                lemma_tied_grows(n, head, so_far, f.first() as int, f.second() as int);
            }
        }
        assert(e.cost() <= es[f_at].cost());
        let fewer = rest.remove(j);
        let next = tree.subrange(0, q + 1);
        assert(next =~= head.push(e));
        assert(next.drop_last() =~= head);
        assert(spans(n, es, next + fewer)) by {
            assert forall|i: int| 0 <= i < (next + fewer).len()
                implies es.contains(#[trigger] (next + fewer)[i]) by {
                if i < q {
                    assert((next + fewer)[i] == (head + rest)[i]);
                } else if i == q {
                    assert((next + fewer)[i] == es[at]);
                } else if i - q - 1 < j {
                    assert((next + fewer)[i] == (head + rest)[i - 1]);
                } else {
                    assert((next + fewer)[i] == (head + rest)[i]);
                }
            }
            assert forall|a: int, b: int| 0 <= a < n && 0 <= b < n && tied(n, es, a, b)
                implies #[trigger] tied(n, next + fewer, a, b) by {
                assert(tied(n, head + rest, a, b));
                assert forall|c: Seq<usize>| c.len() == n && #[trigger] respects(c, next + fewer)
                    implies c[a] == c[b] by {
                    assert(respects(c, so_far.push(e))) by {
                        assert forall|i: int| 0 <= i < so_far.push(e).len()
                            implies c[(#[trigger] so_far.push(e)[i]).first() as int]
                            == c[so_far.push(e)[i].second() as int] by {
                            if i < q {
                                assert(so_far.push(e)[i] == (next + fewer)[i]);
                            } else if i < q + j {
                                assert(so_far.push(e)[i] == (next + fewer)[i + 1]);
                            } else {
                                assert(so_far.push(e)[i] == (next + fewer)[q]);
                            }
                        }
                    }
                    assert(c[f.first() as int] == c[f.second() as int]);
                    assert(respects(c, head + rest)) by {
                        assert forall|i: int| 0 <= i < (head + rest).len()
                            implies c[(#[trigger] (head + rest)[i]).first() as int]
                            == c[(head + rest)[i].second() as int] by {
                            if i < q {
                                assert((head + rest)[i] == (next + fewer)[i]);
                            } else if i < q + j {
                                assert((head + rest)[i] == (next + fewer)[i + 1]);
                            } else if i == q + j {
                                assert((head + rest)[i] == f);
                            } else {
                                assert((head + rest)[i] == (next + fewer)[i]);
                            }
                        }
                    }
                }
            }
        }
        lemma_greedy_stays_ahead(n, es, tree, q + 1, fewer);
        lemma_weight_remove(rest, j);
    }
}

/// A greedily grown list of edges weighs no more than any edges drawn from
/// `es` that tie what `es` ties.
pub proof fn lemma_greedy_is_lightest(n: nat, es: Seq<Edge>, tree: Seq<Edge>, other: Seq<Edge>)
    requires
        n <= usize::MAX,
        edges_within(n, es),
        greedy(n, es, tree),
        spans(n, es, other),
    ensures
        total_weight(tree) <= total_weight(other),
{
    assert(tree.subrange(0, 0) + other =~= other);
    lemma_greedy_stays_ahead(n, es, tree, 0, other);
}

/// The first vertex from `i` on from which a route leads to `x`; the number
/// of vertices where there is none.
pub open spec fn first_reaching(adj: Seq<Seq<Edge>>, x: usize, i: int) -> int
    decreases adj.len() - i,
{
    if i < 0 || i >= adj.len() {
        adj.len() as int
    } else if connects(adj, i as usize, x) {
        i
    } else {
        first_reaching(adj, x, i + 1)
    }
}

/// `first_reaching` finds a vertex from which a route leads to `x`, if one
/// is left, and it finds the same for two vertices that the same vertices
/// reach.
pub proof fn lemma_first_reaching(adj: Seq<Seq<Edge>>, x: usize, y: usize, i: int)
    requires
        0 <= i <= adj.len() <= usize::MAX,
    ensures
        i <= first_reaching(adj, x, i) <= adj.len(),
        first_reaching(adj, x, i) < adj.len() ==> connects(adj, first_reaching(adj, x, i) as usize, x),
        i <= x < adj.len() ==> first_reaching(adj, x, i) <= x,
        (forall|z: usize| connects(adj, z, x) <==> connects(adj, z, y))
            ==> first_reaching(adj, x, i) == first_reaching(adj, y, i),
    decreases adj.len() - i,
{
    if i < adj.len() {
        lemma_first_reaching(adj, x, y, i + 1);
        if i == x {
            assert(leads(adj, x, x, Seq::<Edge>::empty()));
        }
    }
}

/// Along a route, a labelling that gives the ends of every reported edge
/// one label does not change.
pub proof fn lemma_route_keeps_label(adj: Seq<Seq<Edge>>, c: Seq<usize>, s: usize, es: Seq<Edge>)
    requires
        adj.len() <= usize::MAX,
        sound_lists(adj),
        symmetric_lists(adj),
        c.len() == adj.len(),
        respects(c, all_reported(adj, adj.len() as int)),
        is_route(adj, s, es),
    ensures
        c[s as int] == c[route_end(s, es) as int],
    decreases es.len(),
{
    if es.len() > 0 {
        let before = es.drop_last();
        lemma_route_keeps_label(adj, c, s, before);
        lemma_route_stays(adj, s, before);
        let u = route_end(s, before) as int;
        let k = choose|k: int| 0 <= k < adj[u].len() && adj[u][k] == es.last();
        lemma_entry_respected(adj, c, u, k);
    }
}

/// In a graph with sound and symmetric lists, two vertices are tied by the
/// reported edges exactly if a route leads from one to the other.
pub proof fn lemma_tied_is_connected(adj: Seq<Seq<Edge>>, a: usize, b: usize)
    requires
        adj.len() <= usize::MAX,
        sound_lists(adj),
        symmetric_lists(adj),
        a < adj.len(),
        b < adj.len(),
    ensures
        tied(adj.len(), all_reported(adj, adj.len() as int), a as int, b as int) <==> connects(adj, a, b),
{
    let n = adj.len();
    let es = all_reported(adj, n as int);
    if connects(adj, a, b) {
        let route = choose|route: Seq<Edge>| leads(adj, a, b, route);
        assert forall|c: Seq<usize>| c.len() == n && #[trigger] respects(c, es)
            implies c[a as int] == c[b as int] by {
            lemma_route_keeps_label(adj, c, a, route);
        }
    }
    if tied(n, es, a as int, b as int) {
        let c = Seq::new(n, |x: int| first_reaching(adj, x as usize, 0) as usize);
        assert forall|i: int| 0 <= i < es.len()
            implies c[(#[trigger] es[i]).first() as int] == c[es[i].second() as int] by {
            let e = es[i];
            let u = lemma_reported_somewhere(adj, n as int, i);
            let k = choose|k: int| 0 <= k < adj[u].len() && adj[u][k] == e;
            assert(adj[u][k].touches(u as usize));
            let from = u as usize;
            let v = e.other_end(from);
            assert(adj[adj[u][k].other_end(from) as int].contains(adj[u][k]));
            assert(e.other_end(v) == from);
            assert forall|z: usize| connects(adj, z, from) <==> connects(adj, z, v) by {
                if connects(adj, z, from) {
                    let r = choose|r: Seq<Edge>| leads(adj, z, from, r);
                    assert(r.push(e).drop_last() =~= r);
                    assert(leads(adj, z, v, r.push(e)));
                }
                if connects(adj, z, v) {
                    let r = choose|r: Seq<Edge>| leads(adj, z, v, r);
                    assert(r.push(e).drop_last() =~= r);
                    assert(leads(adj, z, from, r.push(e)));
                }
            }
            lemma_first_reaching(adj, from, v, 0);
            lemma_reported_within(adj);
        }
        lemma_first_reaching(adj, a, b, 0);
        lemma_first_reaching(adj, b, a, 0);
        assert(respects(c, es));
        let y = c[a as int];
        assert(c[b as int] == y);
        let to_a = choose|r: Seq<Edge>| leads(adj, y, a, r);
        let to_b = choose|r: Seq<Edge>| leads(adj, y, b, r);
        let back = lemma_route_back(adj, y, to_a);
        lemma_route_concat(adj, a, back, to_b);
        assert(leads(adj, a, b, back + to_b));
    }
}

} // verus!
