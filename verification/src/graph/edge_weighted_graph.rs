use super::di_graph::GraphError;
use super::edge::Edge;
use super::routes::{lemma_weight_concat, total_weight};
use crate::fundamentals::bag::Bag;
use std::rc::Rc;
use vstd::prelude::*;
use vstd::std_specs::iter::IteratorSpec;
use vstd::std_specs::slice::into_iter_elts;

verus! {

/// An undirected graph over the vertices `0..v` whose edges carry weights.
/// Each vertex has a list of pointers to the edges that touch it; an edge is
/// one object, pointed to from the lists of both its endpoints.
pub struct EdgeWeightedGraph {
    pub v: usize,
    pub e: usize,
    adj: Vec<Bag<Rc<Edge>>>,
}

/// Another pointer to the edge that `e` points to.
///
/// Trusted: `Rc::clone` returns a pointer to the same allocation, so what it
/// points to is what `e` points to.
#[verifier::external_body]
pub(crate) fn share(e: &Rc<Edge>) -> (r: Rc<Edge>)
    ensures
        r == *e,
{
    Rc::clone(e)
}

/// The edges that a list of pointers points to.
pub open spec fn pointed(l: Seq<Rc<Edge>>) -> Seq<Edge> {
    Seq::new(l.len(), |k: int| *l[k])
}

/// Every edge in the list of a vertex touches it and joins two vertices of
/// the graph.
pub open spec fn sound_lists(adj: Seq<Seq<Edge>>) -> bool {
    forall|a: int, k: int|
        0 <= a < adj.len() && 0 <= k < adj[a].len() ==> {
            let e = #[trigger] adj[a][k];
            e.touches(a as usize) && e.first() < adj.len() && e.second() < adj.len()
        }
}

/// Every edge in the list of a vertex is in the list of its other end too.
pub open spec fn symmetric_lists(adj: Seq<Seq<Edge>>) -> bool {
    forall|a: int, k: int|
        0 <= a < adj.len() && 0 <= k < adj[a].len()
            ==> adj[(#[trigger] adj[a][k]).other_end(a as usize) as int].contains(
            adj[a][k],
        )
}

/// `adj` after the edge `e` has been added.
pub open spec fn with_edge(adj: Seq<Seq<Edge>>, e: Edge) -> Seq<Seq<Edge>> {
    let first = adj.update(e.first() as int, adj[e.first() as int].push(e));
    first.update(e.second() as int, first[e.second() as int].push(e))
}

/// The number of loops in `l`, the list of the vertex `a`.
pub open spec fn loops_in(l: Seq<Edge>, a: usize) -> nat
    decreases l.len(),
{
    if l.len() == 0 {
        0
    } else {
        loops_in(l.drop_last(), a) + if l.last().other_end(a) == a {
            1nat
        } else {
            0nat
        }
    }
}

/// The edges of `l`, the list of the vertex `a`, that are reported from `a`:
/// those that lead to a vertex after `a`, and of the loops every other one,
/// beginning with the first.
pub open spec fn reported(l: Seq<Edge>, a: usize) -> Seq<Edge>
    decreases l.len(),
{
    if l.len() == 0 {
        Seq::empty()
    } else {
        let rest = reported(l.drop_last(), a);
        let e = l.last();
        if e.other_end(a) > a || (e.other_end(a) == a && loops_in(l.drop_last(), a) % 2 == 0) {
            rest.push(e)
        } else {
            rest
        }
    }
}

/// In every list the loops stand in pairs.
pub open spec fn paired_loops(adj: Seq<Seq<Edge>>) -> bool {
    forall|a: int| 0 <= a < adj.len() ==> loops_in(#[trigger] adj[a], a as usize) % 2 == 0
}

/// The edges reported from the vertices below `upto`, in their order.
pub open spec fn all_reported(adj: Seq<Seq<Edge>>, upto: int) -> Seq<Edge>
    decreases upto,
{
    if upto <= 0 {
        Seq::empty()
    } else {
        all_reported(adj, upto - 1) + reported(adj[upto - 1], (upto - 1) as usize)
    }
}

/// What is reported from a list is in the list.
pub proof fn lemma_reported_in_list(l: Seq<Edge>, a: usize, i: int)
    requires
        0 <= i < reported(l, a).len(),
    ensures
        l.contains(reported(l, a)[i]),
    decreases l.len(),
{
    if l.len() > 0 {
        let rest = reported(l.drop_last(), a);
        if i < rest.len() {
            lemma_reported_in_list(l.drop_last(), a, i);
            let k = choose|k: int| 0 <= k < l.drop_last().len() && l.drop_last()[k] == rest[i];
            assert(l[k] == rest[i]);
        } else {
            assert(l[l.len() - 1] == l.last());
        }
    }
}

/// What is reported from the vertices below `upto` is in the list of one of
/// them.
pub proof fn lemma_reported_somewhere(adj: Seq<Seq<Edge>>, upto: int, i: int) -> (a: int)
    requires
        0 <= upto <= adj.len(),
        0 <= i < all_reported(adj, upto).len(),
    ensures
        0 <= a < upto,
        adj[a].contains(all_reported(adj, upto)[i]),
    decreases upto,
{
    let before = all_reported(adj, upto - 1);
    if i < before.len() {
        lemma_reported_somewhere(adj, upto - 1, i)
    } else {
        lemma_reported_in_list(adj[upto - 1], (upto - 1) as usize, i - before.len());
        upto - 1
    }
}

/// An edge of a list that leads to a later vertex is reported from the list.
pub proof fn lemma_reported_covers(l: Seq<Edge>, a: usize, k: int)
    requires
        0 <= k < l.len(),
        l[k].other_end(a) > a,
    ensures
        reported(l, a).contains(l[k]),
    decreases l.len(),
{
    let rest = reported(l.drop_last(), a);
    if k == l.len() - 1 {
        assert(rest.push(l.last())[rest.len() as int] == l[k]);
    } else {
        lemma_reported_covers(l.drop_last(), a, k);
        let i = choose|i: int| 0 <= i < rest.len() && rest[i] == l.drop_last()[k];
        assert(reported(l, a)[i] == l[k]);
    }
}

/// An edge of the list of a vertex below `upto` that leads to a later vertex
/// is among the edges reported from the vertices below `upto`.
pub proof fn lemma_all_reported_covers(adj: Seq<Seq<Edge>>, upto: int, a: int, k: int)
    requires
        0 <= a < upto <= adj.len(),
        upto <= usize::MAX,
        0 <= k < adj[a].len(),
        adj[a][k].other_end(a as usize) > a,
    ensures
        all_reported(adj, upto).contains(adj[a][k]),
    decreases upto,
{
    let before = all_reported(adj, upto - 1);
    let here = reported(adj[upto - 1], (upto - 1) as usize);
    if a == upto - 1 {
        lemma_reported_covers(adj[a], a as usize, k);
        let i = choose|i: int| 0 <= i < here.len() && here[i] == adj[a][k];
        assert((before + here)[before.len() + i] == adj[a][k]);
    } else {
        lemma_all_reported_covers(adj, upto - 1, a, k);
        let i = choose|i: int| 0 <= i < before.len() && before[i] == adj[a][k];
        assert((before + here)[i] == adj[a][k]);
    }
}

impl View for EdgeWeightedGraph {
    type V = Seq<Seq<Edge>>;

    /// For each vertex the edges that touch it, in the order in which they
    /// came.
    closed spec fn view(&self) -> Seq<Seq<Edge>> {
        Seq::new(self.adj@.len(), |a: int| pointed(self.adj@[a]@))
    }
}

impl EdgeWeightedGraph {
    /// The number of edges added so far.
    pub closed spec fn edge_count(&self) -> nat {
        self.e as nat
    }

    /// The edges of the graph, each once, as `edges` reports them.
    pub open spec fn edge_list(&self) -> Seq<Edge> {
        all_reported(self@, self@.len() as int)
    }

    /// The lists are as many as the vertices, they are sound and symmetric,
    /// and the edges are counted.
    pub closed spec fn wf(&self) -> bool {
        &&& self.adj@.len() == self.v
        &&& self.v < usize::MAX
        &&& sound_lists(self@)
        &&& symmetric_lists(self@)
        &&& paired_loops(self@)
        &&& self.e == self.edge_list().len()
    }

    /// What consistency means for the lists.
    pub proof fn lemma_wf(&self)
        requires
            self.wf(),
        ensures
            self@.len() < usize::MAX,
            sound_lists(self@),
            symmetric_lists(self@),
            self.edge_count() == self.edge_list().len(),
    {
    }

    /// The graph of `v` vertices without edges.
    pub fn new(v: usize) -> (g: EdgeWeightedGraph)
        requires
            v < usize::MAX,
        ensures
            g.wf(),
            g.edge_count() == 0,
            g.edge_list() == Seq::<Edge>::empty(),
            g@ == Seq::new(v as nat, |a: int| Seq::<Edge>::empty()),
    {
        let mut tmp: Vec<Bag<Rc<Edge>>> = Vec::with_capacity(v);
        let mut i: usize = 0;
        while i < v
            invariant
                i <= v,
                tmp@.len() == i,
                forall|a: int| 0 <= a < i ==> (#[trigger] tmp@[a])@ == Seq::<Rc<Edge>>::empty(),
            decreases v - i,
        {
            tmp.push(Bag::<Rc<Edge>>::new());
            i += 1;
        }
        let g = EdgeWeightedGraph { v, e: 0, adj: tmp };
        proof {
            assert(g@ =~~= Seq::new(v as nat, |a: int| Seq::<Edge>::empty()));
            lemma_nothing_reported(g@, v as int);
            assert(g.edge_list() =~= Seq::<Edge>::empty());
        }
        g
    }

    /// Adds the edge `e`: one object, entered in the lists of both its
    /// endpoints (twice in the one list, where it is a loop).
    pub fn add_edge(&mut self, e: Edge) -> (r: Result<(), GraphError>)
        requires
            old(self).wf(),
            old(self).edge_count() < usize::MAX,
        ensures
            final(self).wf(),
            final(self)@.len() == old(self)@.len(),
            r is Ok <==> e.first() < old(self)@.len() && e.second() < old(self)@.len(),
            r is Err ==> r == Err::<(), GraphError>(GraphError::OutOfRange) && *final(self) == *old(self),
            r is Ok ==> final(self)@ == with_edge(old(self)@, e),
            r is Ok ==> final(self).edge_count() == old(self).edge_count() + 1,
            r is Ok ==> final(self).edge_list().to_multiset() == old(self).edge_list().to_multiset().insert(e),
            r is Ok ==> total_weight(final(self).edge_list()) == total_weight(old(self).edge_list()) + e.cost(),
            r is Ok && e.first() != e.second()
                ==> final(self)@[e.first() as int] == old(self)@[e.first() as int].push(e)
                && final(self)@[e.second() as int] == old(self)@[e.second() as int].push(e),
            r is Ok && e.first() == e.second()
                ==> final(self)@[e.first() as int] == old(self)@[e.first() as int].push(e).push(e),
    {
        let v: usize = e.either();
        let w: usize = e.other(v).unwrap();
        if self.validate(v).is_err() || self.validate(w).is_err() {
            return Err(GraphError::OutOfRange);
        }
        let pointer: Rc<Edge> = Rc::new(e);
        self.adj[v].add(share(&pointer));
        self.adj[w].add(pointer);
        self.e += 1;
        proof {
            assert(self@ =~~= with_edge(old(self)@, e));
            lemma_with_edge_keeps(old(self)@, e);
            lemma_with_edge_reports_one(old(self)@, e);
        }
        Ok(())
    }

    /// The number of vertices.
    pub fn get_v(&self) -> (n: usize)
        requires
            self.wf(),
        ensures
            n == self@.len(),
    {
        self.v
    }

    /// The number of edges.
    pub fn get_e(&self) -> (n: usize)
        ensures
            n == self.edge_count(),
    {
        self.e
    }

    /// The edges that touch `v`, as a list.
    pub fn incident(&self, v: usize) -> (r: Result<&Bag<Rc<Edge>>, GraphError>)
        requires
            self.wf(),
        ensures
            v < self@.len() <==> r is Ok,
            r matches Ok(bag) ==> pointed(bag@) == self@[v as int],
            r is Err ==> r matches Err(GraphError::OutOfRange),
    {
        if self.validate(v).is_err() {
            return Err(GraphError::OutOfRange);
        }
        Ok(&self.adj[v])
    }

    /// The edges that touch `v`, in the order in which they came.
    pub fn adj(&self, v: usize) -> (r: Result<std::slice::Iter<'_, Rc<Edge>>, GraphError>)
        requires
            self.wf(),
        ensures
            v < self@.len() <==> r is Ok,
            r matches Ok(it) ==> pointed(into_iter_elts(it)) == self@[v as int]
                && IteratorSpec::decrease(&it) is Some
                && IteratorSpec::initial_value_relation(&it, &it),
            r is Err ==> r matches Err(GraphError::OutOfRange),
    {
        if self.validate(v).is_err() {
            return Err(GraphError::OutOfRange);
        }
        Ok(self.adj[v].iterator())
    }

    /// The number of edge ends at `v`: a loop counts twice.
    pub fn degree(&mut self, v: usize) -> (r: Result<usize, GraphError>)
        requires
            old(self).wf(),
        ensures
            *final(self) == *old(self),
            v < old(self)@.len() ==> r == Ok::<usize, GraphError>(old(self)@[v as int].len() as usize),
            v >= old(self)@.len() ==> r == Err::<usize, GraphError>(GraphError::OutOfRange),
    {
        if self.validate(v).is_err() {
            return Err(GraphError::OutOfRange);
        }
        Ok(self.adj[v].len())
    }

    /// Every edge once: an edge between two vertices is taken from the list
    /// of the lower one, and of the entries of a loop every other one.
    pub fn edges(&self) -> (list: Bag<Rc<Edge>>)
        requires
            self.wf(),
        ensures
            pointed(list@) == self.edge_list(),
            list@.len() == self.edge_count(),
    {
        let mut list = Bag::<Rc<Edge>>::new();
        let total: usize = self.v;
        let ghost adj = self@;
        let mut v: usize = 0;
        assert(pointed(list@) =~= all_reported(adj, 0));
        while v < total
            invariant
                adj == self@,
                sound_lists(adj),
                total == self.adj@.len(),
                v <= total,
                pointed(list@) == all_reported(adj, v as int),
            decreases total - v,
        {
            let bag = &self.adj[v];
            let n: usize = bag.len();
            let ghost l = adj[v as int];
            let ghost done = pointed(list@);
            let mut self_loops: usize = 0;
            let mut k: usize = 0;
            assert(l.subrange(0, 0) =~= Seq::<Edge>::empty());
            assert(done + reported(l.subrange(0, 0), v) =~= done);
            while k < n
                invariant
                    sound_lists(adj),
                    v < adj.len(),
                    l == adj[v as int],
                    pointed(bag@) == l,
                    n == l.len(),
                    k <= n,
                    self_loops == loops_in(l.subrange(0, k as int), v),
                    self_loops <= k,
                    pointed(list@) == done + reported(l.subrange(0, k as int), v),
                decreases n - k,
            {
                let e = bag.get(k);
                assert(**e == l[k as int]);
                assert(l[k as int].touches(v));
                let far: usize = e.other(v).unwrap();
                let ghost before = pointed(list@);
                proof {
                    lemma_reported_next(l, v, k as int);
                }
                if far > v {
                    list.add(share(e));
                    assert(pointed(list@) =~= before.push(**e));
                } else if far == v {
                    if self_loops % 2 == 0 {
                        list.add(share(e));
                        assert(pointed(list@) =~= before.push(**e));
                    }
                    self_loops += 1;
                }
                assert(pointed(list@) =~= done + reported(l.subrange(0, k + 1), v));
                k += 1;
            }
            assert(l.subrange(0, n as int) =~= l);
            v += 1;
        }
        list
    }

    /// Whether `v` is a vertex of the graph.
    fn validate(&self, v: usize) -> (r: Result<(), GraphError>)
        requires
            self.wf(),
        ensures
            v < self@.len() <==> r is Ok,
            r is Err ==> r matches Err(GraphError::OutOfRange),
    {
        if v >= self.v {
            Err(GraphError::OutOfRange)
        } else {
            Ok(())
        }
    }
}

/// What is reported from the first `k + 1` entries of a list, given what is
/// reported from the first `k`.
proof fn lemma_reported_next(l: Seq<Edge>, a: usize, k: int)
    requires
        0 <= k < l.len(),
    ensures
        loops_in(l.subrange(0, k + 1), a) == loops_in(l.subrange(0, k), a) + if l[k].other_end(a) == a {
            1nat
        } else {
            0nat
        },
        reported(l.subrange(0, k + 1), a) == if l[k].other_end(a) > a
            || (l[k].other_end(a) == a && loops_in(l.subrange(0, k), a) % 2 == 0) {
            reported(l.subrange(0, k), a).push(l[k])
        } else {
            reported(l.subrange(0, k), a)
        },
{
    assert(l.subrange(0, k + 1).drop_last() =~= l.subrange(0, k));
    assert(l.subrange(0, k + 1).last() == l[k]);
}

/// From lists without entries nothing is reported.
proof fn lemma_nothing_reported(adj: Seq<Seq<Edge>>, upto: int)
    requires
        0 <= upto <= adj.len(),
        forall|a: int| 0 <= a < adj.len() ==> (#[trigger] adj[a]).len() == 0,
    ensures
        all_reported(adj, upto).len() == 0,
        paired_loops(adj),
    decreases upto,
{
    if upto > 0 {
        lemma_nothing_reported(adj, upto - 1);
    }
}

/// Replacing the list of one vertex changes what is reported by what is
/// reported from that list.
proof fn lemma_reported_after_update(adj: Seq<Seq<Edge>>, a: int, l: Seq<Edge>, upto: int)
    requires
        0 <= a < adj.len(),
        0 <= upto <= adj.len(),
    ensures
        all_reported(adj.update(a, l), upto).len() == all_reported(adj, upto).len() + if a < upto {
            reported(l, a as usize).len() - reported(adj[a], a as usize).len()
        } else {
            0
        },
    decreases upto,
{
    if upto > 0 {
        lemma_reported_after_update(adj, a, l, upto - 1);
    }
}

/// Replacing the list of one vertex changes the weight of what is reported
/// by the weight of what is reported from that list.
proof fn lemma_weight_after_update(adj: Seq<Seq<Edge>>, a: int, l: Seq<Edge>, upto: int)
    requires
        0 <= a < adj.len(),
        0 <= upto <= adj.len(),
    ensures
        total_weight(all_reported(adj.update(a, l), upto))
            == total_weight(all_reported(adj, upto)) + if a < upto {
            total_weight(reported(l, a as usize)) - total_weight(reported(adj[a], a as usize))
        } else {
            0
        },
    decreases upto,
{
    if upto > 0 {
        lemma_weight_after_update(adj, a, l, upto - 1);
        let changed = adj.update(a, l);
        lemma_weight_concat(all_reported(changed, upto - 1), reported(changed[upto - 1],
            (upto - 1) as usize));
        lemma_weight_concat(all_reported(adj, upto - 1), reported(adj[upto - 1], (upto - 1) as usize));
    }
}

/// Replacing the list of one vertex by one from which the edge `e` is
/// reported besides, or nothing more, changes what is reported accordingly.
proof fn lemma_items_after_update(adj: Seq<Seq<Edge>>, a: int, l: Seq<Edge>, e: Edge, more: bool, upto: int)
    requires
        0 <= a < adj.len(),
        0 <= upto <= adj.len(),
        more ==> reported(l, a as usize) == reported(adj[a], a as usize).push(e),
        !more ==> reported(l, a as usize) == reported(adj[a], a as usize),
    ensures
        all_reported(adj.update(a, l), upto).to_multiset() == if a < upto && more {
            all_reported(adj, upto).to_multiset().insert(e)
        } else {
            all_reported(adj, upto).to_multiset()
        },
    decreases upto,
{
    broadcast use vstd::seq_lib::to_multiset_build;
    broadcast use vstd::multiset::group_multiset_axioms;

    if upto > 0 {
        lemma_items_after_update(adj, a, l, e, more, upto - 1);
        let changed = adj.update(a, l);
        let x = (upto - 1) as usize;
        vstd::seq_lib::lemma_multiset_commutative(all_reported(changed, upto - 1), reported(changed[upto - 1], x));
        vstd::seq_lib::lemma_multiset_commutative(all_reported(adj, upto - 1), reported(adj[upto - 1], x));
        assert(all_reported(changed, upto).to_multiset() =~= if a < upto && more {
            all_reported(adj, upto).to_multiset().insert(e)
        } else {
            all_reported(adj, upto).to_multiset()
        });
    } else {
        assert(all_reported(adj.update(a, l), upto) =~= all_reported(adj, upto));
    }
}

/// Adding an edge makes one more edge reported, and leaves the loops in
/// pairs.
proof fn lemma_with_edge_reports_one(adj: Seq<Seq<Edge>>, e: Edge)
    requires
        paired_loops(adj),
        e.first() < adj.len(),
        e.second() < adj.len(),
    ensures
        paired_loops(with_edge(adj, e)),
        all_reported(with_edge(adj, e), adj.len() as int).len()
            == all_reported(adj, adj.len() as int).len() + 1,
        total_weight(all_reported(with_edge(adj, e), adj.len() as int))
            == total_weight(all_reported(adj, adj.len() as int)) + e.cost(),
        all_reported(with_edge(adj, e), adj.len() as int).to_multiset()
            == all_reported(adj, adj.len() as int).to_multiset().insert(e),
{
    let v = e.first() as int;
    let w = e.second() as int;
    let n = adj.len() as int;
    let first = adj.update(v, adj[v].push(e));
    let after = with_edge(adj, e);
    assert(adj[v].push(e).drop_last() =~= adj[v]);
    assert(first[w].push(e).drop_last() =~= first[w]);
    lemma_reported_after_update(adj, v, adj[v].push(e), n);
    lemma_reported_after_update(first, w, first[w].push(e), n);
    lemma_weight_after_update(adj, v, adj[v].push(e), n);
    lemma_weight_after_update(first, w, first[w].push(e), n);
    assert(reported(adj[v], v as usize).push(e).drop_last() =~= reported(adj[v], v as usize));
    assert(reported(first[w], w as usize).push(e).drop_last() =~= reported(first[w], w as usize));
    let first_more = reported(adj[v].push(e), v as usize) != reported(adj[v], v as usize);
    let second_more = reported(first[w].push(e), w as usize) != reported(first[w], w as usize);
    lemma_items_after_update(adj, v, adj[v].push(e), e, first_more, n);
    lemma_items_after_update(first, w, first[w].push(e), e, second_more, n);
    assert(loops_in(adj[v], v as usize) % 2 == 0);
    assert(loops_in(adj[w], w as usize) % 2 == 0);
    assert forall|a: int| 0 <= a < after.len() implies loops_in(#[trigger] after[a], a as usize) % 2 == 0 by {
        if a != v && a != w {
            assert(after[a] == adj[a]);
        }
    }
}

/// Adding an edge between two vertices keeps the lists sound and symmetric.
proof fn lemma_with_edge_keeps(adj: Seq<Seq<Edge>>, e: Edge)
    requires
        sound_lists(adj),
        symmetric_lists(adj),
        e.first() < adj.len(),
        e.second() < adj.len(),
    ensures
        sound_lists(with_edge(adj, e)),
        symmetric_lists(with_edge(adj, e)),
{
    let after = with_edge(adj, e);
    let v = e.first() as int;
    let w = e.second() as int;
    assert forall|a: int, k: int| 0 <= a < after.len() && 0 <= k < after[a].len() implies {
        let x = #[trigger] after[a][k];
        x.touches(a as usize) && x.first() < after.len() && x.second() < after.len()
    } by {
        if k < adj[a].len() {
            assert(after[a][k] == adj[a][k]);
        }
    }
    assert forall|a: int| 0 <= a < adj.len()
        implies #[trigger] after[a].contains(e) || (a != v && a != w) by {
        if a == w {
            assert(after[a][after[a].len() - 1] == e);
        } else if a == v {
            assert(after[a][adj[a].len() as int] == e);
        }
    }
    assert forall|a: int, k: int| 0 <= a < after.len() && 0 <= k < after[a].len() implies after[(
    #[trigger] after[a][k]).other_end(a as usize) as int].contains(after[a][k]) by {
        if k < adj[a].len() {
            let x = adj[a][k];
            assert(after[a][k] == x);
            let b = x.other_end(a as usize) as int;
            assert(adj[b].contains(x));
            let j = choose|j: int| 0 <= j < adj[b].len() && adj[b][j] == x;
            assert(after[b][j] == x);
        } else {
            assert(after[a][k] == e);
            let b = e.other_end(a as usize) as int;
            assert(after[b].contains(e));
        }
    }
}

} // verus!
