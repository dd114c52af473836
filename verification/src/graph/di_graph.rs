use crate::fundamentals::bag::Bag;
use vstd::prelude::*;
use vstd::std_specs::iter::IteratorSpec;
use vstd::std_specs::slice::into_iter_elts;

verus! {

/// Why an operation on a graph was refused.
#[derive(Clone, Copy, Debug, PartialEq, Eq, Structural)]
pub enum GraphError {
    /// A vertex is not below the number of vertices.
    OutOfRange,
    /// The vertex is neither endpoint of the edge.
    InvalidEndpoint,
}

/// An undirected graph over the vertices `0..v`, held as one list of
/// neighbours for each vertex. Loops and parallel edges are kept and counted.
#[derive(Clone)]
pub struct Graph {
    v: usize,
    e: usize,
    adj: Vec<Bag<usize>>,
}

/// Every neighbour named in `adj` is a vertex of it.
pub open spec fn closed_lists(adj: Seq<Seq<usize>>) -> bool {
    forall|a: int, k: int| 0 <= a < adj.len() && 0 <= k < adj[a].len() ==> (#[trigger] adj[a][k]) < adj.len()
}

/// Every vertex is a neighbour of each of its neighbours.
pub open spec fn mutual_lists(adj: Seq<Seq<usize>>) -> bool {
    forall|a: int, k: int|
        0 <= a < adj.len() && 0 <= k < adj[a].len()
            ==> adj[(#[trigger] adj[a][k]) as int].contains(a as usize)
}

/// `p` walks through `adj`: it names at least one vertex, and each vertex
/// but the first is a neighbour of the one before it.
pub open spec fn is_walk(adj: Seq<Seq<usize>>, p: Seq<usize>) -> bool {
    &&& p.len() >= 1
    &&& forall|k: int| 0 <= k < p.len() ==> (#[trigger] p[k]) < adj.len()
    &&& forall|k: int| 0 <= k < p.len() - 1 ==> adj[p[k] as int].contains(#[trigger] p[k + 1])
}

/// `p` walks through `adj` from `s` to `t`.
pub open spec fn walks_between(adj: Seq<Seq<usize>>, s: usize, t: usize, p: Seq<usize>) -> bool {
    is_walk(adj, p) && p[0] == s && p.last() == t
}

/// Some walk through `adj` leads from `s` to `t`.
pub open spec fn reachable(adj: Seq<Seq<usize>>, s: usize, t: usize) -> bool {
    exists|p: Seq<usize>| walks_between(adj, s, t, p)
}

/// `d` is the least number of edges of a walk through `adj` from `s` to `t`.
pub open spec fn is_distance(adj: Seq<Seq<usize>>, s: usize, t: usize, d: nat) -> bool {
    &&& exists|p: Seq<usize>| walks_between(adj, s, t, p) && p.len() == d + 1
    &&& forall|p: Seq<usize>| walks_between(adj, s, t, p) ==> p.len() >= d + 1
}

/// Two vertices have at most one distance.
pub proof fn lemma_distance_unique(adj: Seq<Seq<usize>>, s: usize, t: usize, d1: nat, d2: nat)
    requires
        is_distance(adj, s, t, d1),
        is_distance(adj, s, t, d2),
    ensures
        d1 == d2,
{
    let first = choose|p: Seq<usize>| walks_between(adj, s, t, p) && p.len() == d1 + 1;
    let second = choose|p: Seq<usize>| walks_between(adj, s, t, p) && p.len() == d2 + 1;
    assert(first.len() >= d2 + 1);
    assert(second.len() >= d1 + 1);
}

/// `adj` after an edge between `v` and `w` has been added.
pub open spec fn with_edge(adj: Seq<Seq<usize>>, v: int, w: int) -> Seq<Seq<usize>> {
    let first = adj.update(v, adj[v].push(w as usize));
    first.update(w, first[w].push(v as usize))
}

impl View for Graph {
    type V = Seq<Seq<usize>>;

    /// The neighbours of each vertex, in the order in which the edges came.
    closed spec fn view(&self) -> Seq<Seq<usize>> {
        Seq::new(self.adj@.len(), |a: int| self.adj@[a]@)
    }
}

impl Graph {
    /// The number of edges added so far.
    pub closed spec fn edge_count(&self) -> nat {
        self.e as nat
    }

    /// The lists are as many as the vertices, name vertices only, and name
    /// each other.
    pub closed spec fn wf(&self) -> bool {
        &&& self.adj@.len() == self.v
        &&& closed_lists(self@)
        &&& mutual_lists(self@)
    }

    /// In a consistent graph every neighbour is a vertex, of which the
    /// vertex is a neighbour too.
    pub proof fn lemma_wf(&self)
        requires
            self.wf(),
        ensures
            closed_lists(self@),
            mutual_lists(self@),
    {
    }

    /// The graph of `v` vertices without edges.
    pub fn new(v: usize) -> (g: Graph)
        ensures
            g.wf(),
            g@ == Seq::new(v as nat, |a: int| Seq::<usize>::empty()),
            g.edge_count() == 0,
    {
        let mut g = Graph { v, e: 0, adj: Vec::new() };
        let mut i: usize = 0;
        while i < v
            invariant
                i <= v,
                g.v == v,
                g.e == 0,
                g.adj@.len() == i,
                forall|a: int| 0 <= a < i ==> (#[trigger] g.adj@[a])@ == Seq::<usize>::empty(),
            decreases v - i,
        {
            g.adj.push(Bag::<usize>::new());
            i += 1;
        }
        assert(g@ =~= Seq::new(v as nat, |a: int| Seq::<usize>::empty()));
        g
    }

    /// The number of edge ends at `v`: a loop counts twice.
    pub fn degree(&mut self, v: usize) -> (r: Result<usize, GraphError>)
        requires
            old(self).wf(),
        ensures
            *final(self) == *old(self),
            v < old(self)@.len() ==> r == Ok::<usize, GraphError>(old(self)@[v as int].len() as usize),
            v >= old(self)@.len() ==> r == Err::<usize, GraphError>(GraphError::OutOfRange),
    {
        if self.validate(v).is_err() {
            return Err(GraphError::OutOfRange);
        }
        Ok(self.adj[v].len())
    }

    /// The neighbours of `v`, as a list.
    pub fn adjacent(&self, v: usize) -> (r: Result<&Bag<usize>, GraphError>)
        requires
            self.wf(),
        ensures
            v < self@.len() <==> r is Ok,
            r matches Ok(bag) ==> bag@ == self@[v as int],
            v >= self@.len() ==> r == Err::<&Bag<usize>, GraphError>(GraphError::OutOfRange),
    {
        if self.validate(v).is_err() {
            return Err(GraphError::OutOfRange);
        }
        Ok(&self.adj[v])
    }

    /// The neighbours of `v`, in the order in which the edges came.
    pub fn adj_vertices(&self, v: usize) -> (r: Result<std::slice::Iter<'_, usize>, GraphError>)
        requires
            self.wf(),
        ensures
            v < self@.len() <==> r is Ok,
            r matches Ok(it) ==> into_iter_elts(it) == self@[v as int] && IteratorSpec::decrease(&it) is Some
                && IteratorSpec::initial_value_relation(&it, &it),
            v >= self@.len() ==> r matches Err(GraphError::OutOfRange),
    {
        if self.validate(v).is_err() {
            return Err(GraphError::OutOfRange);
        }
        Ok(self.adj[v].iterator())
    }

    /// Adds an edge between `v` and `w`.
    pub fn add_edge(&mut self, v: usize, w: usize) -> (r: Result<(), GraphError>)
        requires
            old(self).wf(),
            old(self).edge_count() < usize::MAX,
        ensures
            final(self).wf(),
            final(self)@.len() == old(self)@.len(),
            r is Ok <==> v < old(self)@.len() && w < old(self)@.len(),
            r is Err ==> r == Err::<(), GraphError>(GraphError::OutOfRange) && *final(self) == *old(self),
            r is Ok ==> final(self)@ == with_edge(old(self)@, v as int, w as int) && final(self).edge_count()
                == old(self).edge_count() + 1,
            r is Ok && v != w ==> final(self)@[v as int].len() == old(self)@[v as int].len() + 1,
            r is Ok && v != w ==> final(self)@[w as int].len() == old(self)@[w as int].len() + 1,
            r is Ok && v == w ==> final(self)@[v as int].len() == old(self)@[v as int].len() + 2,
    {
        if self.validate(v).is_err() || self.validate(w).is_err() {
            return Err(GraphError::OutOfRange);
        }
        self.e += 1;
        self.adj[v].add(w);
        self.adj[w].add(v);
        proof {
            assert(self@ =~= with_edge(old(self)@, v as int, w as int));
            lemma_with_edge_keeps(old(self)@, v as int, w as int);
        }
        Ok(())
    }

    /// Whether `p` is a vertex of the graph.
    fn validate(&self, p: usize) -> (r: Result<(), GraphError>)
        requires
            self.wf(),
        ensures
            p < self@.len() <==> r is Ok,
            r is Err ==> r matches Err(GraphError::OutOfRange),
    {
        if p >= self.v {
            Err(GraphError::OutOfRange)
        } else {
            Ok(())
        }
    }

    /// The number of vertices.
    pub fn get_v(&self) -> (n: usize)
        requires
            self.wf(),
        ensures
            n == self@.len(),
    {
        self.v
    }

    /// The number of edges.
    pub fn get_e(&self) -> (n: usize)
        ensures
            n == self.edge_count(),
    {
        self.e
    }
}

/// Adding an edge between two vertices keeps the lists closed and mutual.
proof fn lemma_with_edge_keeps(adj: Seq<Seq<usize>>, v: int, w: int)
    requires
        closed_lists(adj),
        mutual_lists(adj),
        0 <= v < adj.len() <= usize::MAX,
        0 <= w < adj.len(),
    ensures
        closed_lists(with_edge(adj, v, w)),
        mutual_lists(with_edge(adj, v, w)),
{
    let after = with_edge(adj, v, w);
    assert forall|a: int, k: int| 0 <= a < after.len() && 0 <= k < after[a].len()
        implies (#[trigger] after[a][k])
        < after.len() by {
        if k < adj[a].len() {
            assert(after[a][k] == adj[a][k]);
        }
    }
    assert(after[v].contains(w as usize)) by {
        assert(after[v][adj[v].len() as int] == w);
    }
    assert(after[w].contains(v as usize)) by {
        assert(after[w][after[w].len() - 1] == v);
    }
    assert forall|a: int, k: int| 0 <= a < after.len() && 0 <= k < after[a].len() implies after[(
    #[trigger] after[a][k]) as int].contains(a as usize) by {
        if k < adj[a].len() {
            let b = adj[a][k] as int;
            assert(after[a][k] == adj[a][k]);
            assert(adj[b].contains(a as usize));
            let j = choose|j: int| 0 <= j < adj[b].len() && adj[b][j] == a as usize;
            assert(after[b][j] == a as usize);
        }
    }
}

} // verus!
