use super::edge::Edge;
use super::edge_weighted_graph::{pointed, share, EdgeWeightedGraph};
use super::routes::total_weight;
use super::spanning::{
    apart, classes_hold, classes_tied, component_count, drawn_from, edges_within, greedy, lemma_accept,
    lemma_greedy_is_lightest, lemma_reported_within, lemma_spans, lemma_tied_is_class, spans, tied,
};
use crate::fundamentals::order::lemma_pair_order;
use crate::fundamentals::queue::Queue;
use crate::fundamentals::uf::{lemma_single_class, merged, roots, WeightedQuickUnionUF};
use crate::sorting::merge;
use std::rc::Rc;
use vstd::prelude::*;

verus! {

/// A spanning forest of a graph, grown from its edges in the order of their
/// weights.
pub struct KruskalMST {
    pub weight: u128,
    mst: Queue<Rc<Edge>>,
    places: Ghost<Seq<usize>>,
}

/// The edge `q` of `tree` is the edge of `es` at `places[q]`; it ties what
/// the edges before it do not tie, and every edge of `es` that does so is
/// heavier, or as heavy and no earlier in `es`.
pub open spec fn taken_at(n: nat, es: Seq<Edge>, tree: Seq<Edge>, places: Seq<usize>, q: int) -> bool {
    let e = tree[q];
    let before = tree.subrange(0, q);
    &&& places[q] < es.len()
    &&& e == es[places[q] as int]
    &&& apart(n, before, e)
    &&& forall|x: int|
        0 <= x < es.len() && apart(n, before, #[trigger] es[x])
            ==> e.cost() <= es[x].cost() && (e.cost() == es[x].cost() ==> places[q] <= x)
}

/// `tree` was taken from `es` by ascending weight and, among edges of one
/// weight, in the order of `es`.
pub open spec fn taken_in_order(n: nat, es: Seq<Edge>, tree: Seq<Edge>, places: Seq<usize>) -> bool {
    &&& places.len() == tree.len()
    &&& forall|q: int| 0 <= q < tree.len() ==> #[trigger] taken_at(n, es, tree, places, q)
}

/// Edges taken in order were grown greedily.
pub proof fn lemma_in_order_is_greedy(n: nat, es: Seq<Edge>, tree: Seq<Edge>, places: Seq<usize>)
    requires
        taken_in_order(n, es, tree, places),
    ensures
        greedy(n, es, tree),
{
    assert forall|q: int| 0 <= q < tree.len() implies ({
        let e = #[trigger] tree[q];
        let before = tree.subrange(0, q);
        &&& es.contains(e)
        &&& apart(n, before, e)
        &&& forall|x: int|
            0 <= x < es.len() && apart(n, before, #[trigger] es[x]) ==> e.cost() <= es[x].cost()
    }) by {
        assert(taken_at(n, es, tree, places, q));
        assert(es[places[q] as int] == tree[q]);
    }
}

/// The sum of the weights in `keys`.
spec fn key_sum(keys: Seq<(u128, usize)>) -> nat {
    keys.fold_left(0nat, |acc: nat, k: (u128, usize)| acc + k.0 as nat)
}

/// For each edge of `es` its weight and its place.
spec fn keys_of(es: Seq<Edge>) -> Seq<(u128, usize)> {
    Seq::new(es.len(), |j: int| (es[j].cost(), j as usize))
}

/// Accepting the next edge in the order of the keys, where its ends lie in
/// two classes, keeps the accepted edges taken in order.
proof fn lemma_next_in_order(
    n: nat,
    es: Seq<Edge>,
    keys: Seq<(u128, usize)>,
    i: int,
    tree: Seq<Edge>,
    places: Seq<usize>,
    reps: Seq<usize>,
)
    requires
        n == reps.len(),
        edges_within(n, es),
        es.len() <= usize::MAX,
        keys.len() == es.len(),
        forall|p: int| 0 <= p < keys.len()
            ==> (#[trigger] keys[p]).1 < es.len() && keys[p].0 == es[keys[p].1 as int].cost(),
        forall|a: int, b: int|
            0 <= a < b < keys.len()
                ==> (#[trigger] keys[a]).0 < (#[trigger] keys[b]).0 || (keys[a].0 == keys[b].0
                && keys[a].1 <= keys[b].1),
        forall|x: int| 0 <= x < es.len() ==> keys.contains(#[trigger] keys_of(es)[x]),
        0 <= i < keys.len(),
        classes_hold(reps, tree),
        classes_tied(reps, tree),
        forall|p: int| 0 <= p < i
            ==> reps[es[(#[trigger] keys[p]).1 as int].first() as int]
                == reps[es[keys[p].1 as int].second() as int],
        reps[es[keys[i].1 as int].first() as int] != reps[es[keys[i].1 as int].second() as int],
        taken_in_order(n, es, tree, places),
    ensures
        taken_in_order(n, es, tree.push(es[keys[i].1 as int]), places.push(keys[i].1)),
{
    let e = es[keys[i].1 as int];
    let more = tree.push(e);
    let spots = places.push(keys[i].1);
    lemma_tied_is_class(reps, tree);
    assert forall|q: int| 0 <= q < more.len() implies #[trigger] taken_at(n, es, more, spots, q) by {
        if q < tree.len() {
            assert(taken_at(n, es, tree, places, q));
            assert(more.subrange(0, q) =~= tree.subrange(0, q));
            assert(more[q] == tree[q]);
            assert(spots[q] == places[q]);
        } else {
            assert(more.subrange(0, q) =~= tree);
            assert forall|x: int| 0 <= x < es.len()
                && apart(n, tree, #[trigger] es[x])
                implies e.cost() <= es[x].cost() && (e.cost() == es[x].cost() ==> keys[i].1 <= x) by {
                assert(keys.contains(keys_of(es)[x]));
                let p = choose|p: int| 0 <= p < keys.len() && keys[p] == keys_of(es)[x];
                assert(keys[p].1 == x);
                assert(keys[p].0 == es[x].cost());
                assert(keys[i].0 == e.cost());
                if p < i {
                    assert(reps[es[keys[p].1 as int].first() as int]
                        == reps[es[keys[p].1 as int].second() as int]);
                    assert(tied(n, tree, es[x].first() as int, es[x].second() as int));
                } else if p > i {
                    assert(keys[i].0 < keys[p].0 || (keys[i].0 == keys[p].0 && keys[i].1 <= keys[p].1));
                }
            }
        }
    }
}

/// The weights of the first keys sum to no more than those of all.
proof fn lemma_key_sum_prefix(keys: Seq<(u128, usize)>, i: int)
    requires
        0 <= i <= keys.len(),
    ensures
        key_sum(keys.subrange(0, i)) <= key_sum(keys),
        i < keys.len() ==> key_sum(keys.subrange(0, i + 1)) == key_sum(keys.subrange(0, i)) + keys[i].0,
    decreases keys.len() - i,
{
    if i < keys.len() {
        assert(keys.subrange(0, i + 1).drop_last() =~= keys.subrange(0, i));
        lemma_key_sum_prefix(keys, i + 1);
    } else {
        assert(keys.subrange(0, i) =~= keys);
    }
}

/// The keys of a list of edges weigh what the edges weigh.
proof fn lemma_key_sum_is_weight(es: Seq<Edge>)
    ensures
        key_sum(keys_of(es)) == total_weight(es),
    decreases es.len(),
{
    if es.len() > 0 {
        lemma_key_sum_is_weight(es.drop_last());
        assert(keys_of(es).drop_last() =~= keys_of(es.drop_last()));
    }
}

/// Keys in another order weigh the same.
proof fn lemma_key_sum_permuted(a: Seq<(u128, usize)>, b: Seq<(u128, usize)>)
    requires
        a.to_multiset() == b.to_multiset(),
    ensures
        key_sum(a) == key_sum(b),
{
    let f = |acc: nat, k: (u128, usize)| acc + k.0 as nat;
    assert(vstd::seq_lib::commutative_foldl(f));
    vstd::seq_lib::lemma_fold_left_permutation(a, b, f, 0nat);
}

impl KruskalMST {
    /// The accepted edges, in the order in which they were accepted.
    pub closed spec fn tree(&self) -> Seq<Edge> {
        pointed(self.mst@)
    }

    /// For each accepted edge its place among the edges of the graph.
    pub closed spec fn places(&self) -> Seq<usize> {
        self.places@
    }

    /// The sum that the field `weight` holds.
    pub closed spec fn total(&self) -> u128 {
        self.weight
    }

    /// Grows a spanning forest of `g`: the edges are taken by ascending
    /// weight, and one is accepted where its ends are not joined yet.
    pub fn new(g: EdgeWeightedGraph) -> (k: KruskalMST)
        requires
            g.wf(),
            total_weight(g.edge_list()) <= u128::MAX,
        ensures
            k.total() == total_weight(k.tree()),
            forall|j: int| 0 <= j < k.tree().len() ==> g.edge_list().contains(#[trigger] k.tree()[j]),
            forall|i: int, j: int|
                0 <= i < j < k.tree().len()
                    ==> (#[trigger] k.tree()[i]).cost() <= (#[trigger] k.tree()[j]).cost(),
            forall|a: int, b: int|
                0 <= a < g@.len() && 0 <= b < g@.len()
                    ==> (#[trigger] tied(g@.len(), k.tree(), a, b) <==> tied(
                    g@.len(),
                    g.edge_list(),
                    a,
                    b,
                )),
            k.tree().len() + component_count(g@.len(), g.edge_list()) == g@.len(),
            forall|other: Seq<Edge>| #[trigger] spans(g@.len(), g.edge_list(), other)
                ==> k.total() <= total_weight(other),
            taken_in_order(g@.len(), g.edge_list(), k.tree(), k.places()),
    {
        let mut kruskal = KruskalMST { weight: 0, mst: Queue::new(), places: Ghost(Seq::empty()) };
        let n: usize = g.get_v();
        let tmp = g.edges();
        let m: usize = tmp.len();
        let ghost es = g.edge_list();
        proof {
            g.lemma_wf();
            lemma_reported_within(g@);
            lemma_pair_order((0, 0), (0, 0));
        }
        let mut edges: Vec<(u128, usize)> = Vec::with_capacity(m);
        let mut j: usize = 0;
        while j < m
            invariant
                j <= m,
                m == es.len(),
                pointed(tmp@) == es,
                edges@ == keys_of(es).subrange(0, j as int),
            decreases m - j,
        {
            let e = tmp.get(j);
            assert(**e == es[j as int]);
            edges.push((e.weight(), j));
            assert(edges@ =~= keys_of(es).subrange(0, j + 1));
            j += 1;
        }
        let ghost unsorted = edges@;
        merge::sort(&mut edges);
        let ghost keys = edges@;
        proof {
            assert(unsorted =~= keys_of(es));
            lemma_key_sum_is_weight(es);
            lemma_key_sum_permuted(keys, unsorted);
            assert forall|i: int| 0 <= i < m
                implies (#[trigger] keys[i]).1 < m && keys[i].0 == es[keys[i].1 as int].cost() by {
                assert(keys.contains(keys[i]));
                vstd::seq_lib::to_multiset_contains(keys, keys[i]);
                vstd::seq_lib::to_multiset_contains(unsorted, keys[i]);
                assert(unsorted.contains(keys[i]));
            }
            assert forall|j: int| 0 <= j < m implies keys.contains(#[trigger] keys_of(es)[j]) by {
                assert(unsorted.contains(unsorted[j]));
                vstd::seq_lib::to_multiset_contains(keys, unsorted[j]);
                vstd::seq_lib::to_multiset_contains(unsorted, unsorted[j]);
            }
            assert forall|a: int, b: int| 0 <= a < b < m
                implies (#[trigger] keys[a]).0 < (#[trigger] keys[b]).0 || (keys[a].0
                == keys[b].0 && keys[a].1 <= keys[b].1) by {
                lemma_pair_order(keys[a], keys[b]);
            }
            assert(pointed(kruskal.mst@) =~= Seq::<Edge>::empty());
            assert(keys.subrange(0, 0) =~= Seq::<(u128, usize)>::empty());
            assert(taken_in_order(n as nat, es, pointed(kruskal.mst@), kruskal.places@));
        }
        let mut uf = WeightedQuickUnionUF::new(n);
        proof {
            uf.lemma_wf();
        }
        let mut i: usize = 0;
        while i < m && kruskal.mst.size() + 1 < n
            invariant
                i <= m,
                m == es.len(),
                n == g@.len(),
                n < usize::MAX,
                es == g.edge_list(),
                edges_within(n as nat, es),
                pointed(tmp@) == es,
                edges@ == keys,
                keys.len() == m,
                key_sum(keys) <= u128::MAX,
                forall|i: int| 0 <= i < m
                    ==> (#[trigger] keys[i]).1 < m && keys[i].0 == es[keys[i].1 as int].cost(),
                forall|a: int, b: int|
                    0 <= a < b < m ==> (#[trigger] keys[a]).0 < (#[trigger] keys[b]).0
                        || (keys[a].0 == keys[b].0 && keys[a].1
                        <= keys[b].1),
                forall|j: int| 0 <= j < m ==> keys.contains(#[trigger] keys_of(es)[j]),
                uf.wf(),
                uf@.len() == n,
                classes_hold(uf@, pointed(kruskal.mst@)),
                classes_tied(uf@, pointed(kruskal.mst@)),
                taken_in_order(n as nat, es, pointed(kruskal.mst@), kruskal.places@),
                forall|p: int| 0 <= p < i
                    ==> uf@[es[(#[trigger] keys[p]).1 as int].first() as int]
                        == uf@[es[keys[p].1 as int].second() as int],
                kruskal.mst@.len() + uf.components() == n,
                uf.components() == roots(uf@).len(),
                kruskal.weight == total_weight(pointed(kruskal.mst@)),
                kruskal.weight <= key_sum(keys.subrange(0, i as int)),
                drawn_from(pointed(kruskal.mst@), es),
                forall|a: int, b: int|
                    0 <= a < b < kruskal.mst@.len()
                        ==> (#[trigger] pointed(kruskal.mst@)[a]).cost() <= (#[trigger] pointed(
                        kruskal.mst@,
                    )[b]).cost(),
                forall|j: int, p: int|
                    0 <= j < kruskal.mst@.len() && i <= p < m
                        ==> (#[trigger] pointed(kruskal.mst@)[j]).cost() <= (#[trigger] keys[p]).0,
            decreases m - i,
        {
            let place: usize = edges[i].1;
            let edge = tmp.get(place);
            let ghost e = es[place as int];
            assert(**edge == e);
            let v: usize = edge.either();
            let w: usize = edge.other(v).unwrap();
            proof {
                lemma_key_sum_prefix(keys, i as int);
                lemma_key_sum_prefix(keys, i + 1);
            }
            let ghost before = uf@;
            let ghost tree = pointed(kruskal.mst@);
            if uf.find(v) != uf.find(w) {
                proof {
                    lemma_next_in_order(n as nat, es, keys, i as int, tree, kruskal.places@, before);
                }
                kruskal.places = Ghost(kruskal.places@.push(place));
                uf.union(v, w);
                kruskal.mst.enqueue(share(edge));
                kruskal.weight += edge.weight();
                proof {
                    uf.lemma_wf();
                    assert(pointed(kruskal.mst@) =~= tree.push(e));
                    assert(tree.push(e).drop_last() =~= tree);
                    let winner = if uf@ == merged(before, before[v as int], before[w as int],
                        before[v as int]) {
                        before[v as int]
                    } else {
                        before[w as int]
                    };
                    lemma_accept(before, tree, e, winner);
                    assert forall|p: int| 0 <= p < i + 1
                        implies uf@[es[(#[trigger] keys[p]).1 as int].first() as int]
                        == uf@[es[keys[p].1 as int].second() as int] by {
                        let x = es[keys[p].1 as int];
                        if p < i {
                            assert(before[x.first() as int] == before[x.second() as int]);
                        }
                    }
                    assert forall|j: int| 0 <= j < pointed(kruskal.mst@).len()
                        implies es.contains(#[trigger] pointed(kruskal.mst@)[j]) by {
                        if j < tree.len() {
                            assert(pointed(kruskal.mst@)[j] == tree[j]);
                        }
                    }
                }
            }
            i += 1;
        }
        proof {
            uf.lemma_wf();
            if i < m {
                assert forall|x: int| 0 <= x < es.len()
                    implies uf@[(#[trigger] es[x]).first() as int] == uf@[es[x].second() as int] by {
                    lemma_single_class(uf@, es[x].first() as int, es[x].second() as int);
                }
            } else {
                assert forall|x: int| 0 <= x < es.len()
                    implies uf@[(#[trigger] es[x]).first() as int] == uf@[es[x].second() as int] by {
                    assert(keys.contains(keys_of(es)[x]));
                    let p = choose|p: int| 0 <= p < m && keys[p] == keys_of(es)[x];
                    assert(uf@[es[keys[p].1 as int].first() as int]
                        == uf@[es[keys[p].1 as int].second() as int]);
                }
            }
            lemma_spans(uf@, pointed(kruskal.mst@), es);
            assert forall|other: Seq<Edge>| #[trigger] spans(n as nat, es, other)
                implies kruskal.weight <= total_weight(other) by {
                lemma_in_order_is_greedy(n as nat, es, pointed(kruskal.mst@), kruskal.places@);
                lemma_greedy_is_lightest(n as nat, es, pointed(kruskal.mst@), other);
            }
        }
        kruskal
    }

    /// The accepted edges: the lightest is dequeued first.
    pub fn edges(&mut self) -> (q: &mut Queue<Rc<Edge>>)
        ensures
            pointed(q@) == old(self).tree(),
            final(self).tree() == pointed(final(q)@),
            final(self).total() == old(self).total(),
            final(self).places() == old(self).places(),
    {
        &mut self.mst
    }
}

} // verus!
