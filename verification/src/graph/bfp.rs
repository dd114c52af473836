use super::di_graph::{closed_lists, is_distance, is_walk, reachable, walks_between, Graph, GraphError};
use crate::fundamentals::queue::Queue;
use crate::fundamentals::stack::Stack;
use vstd::prelude::*;
use vstd::set_lib::{lemma_int_range, lemma_len_subset, set_int_range};

verus! {

/// The paths with the fewest edges from one source to every vertex that can
/// be reached from it, found breadth first.
pub struct BFP {
    /// Whether the vertex can be reached.
    pub marked: Vec<bool>,
    /// The vertex before this one on its path; 0 where there is none.
    pub edge_to: Vec<usize>,
    /// The number of edges of its path; `usize::MAX` where there is none.
    pub dist_to: Vec<usize>,
    graph: Ghost<Seq<Seq<usize>>>,
    source: Ghost<usize>,
}

/// The marked vertices form a tree rooted at `s`: each but `s` hangs by an
/// edge of `adj` below a marked vertex that is one edge nearer to `s`.
spec fn is_tree(adj: Seq<Seq<usize>>, s: usize, m: Seq<bool>, e: Seq<usize>, d: Seq<usize>) -> bool {
    &&& m.len() == adj.len()
    &&& e.len() == adj.len()
    &&& d.len() == adj.len()
    &&& s < adj.len()
    &&& m[s as int]
    &&& d[s as int] == 0
    &&& forall|v: int|
        #![trigger m[v]]
        #![trigger e[v]]
        #![trigger d[v]]
        0 <= v < adj.len() ==> if m[v] {
            &&& d[v] < usize::MAX
            &&& v == s ==> e[v] == 0
            &&& v != s ==> {
                &&& e[v] < adj.len()
                &&& m[e[v] as int]
                &&& adj[e[v] as int].contains(v as usize)
                &&& d[v] == d[e[v] as int] + 1
            }
        } else {
            d[v] == usize::MAX && e[v] == 0
        }
}

/// Every neighbour of a marked vertex is marked, and at most one edge
/// farther away.
spec fn is_closed(adj: Seq<Seq<usize>>, m: Seq<bool>, d: Seq<usize>) -> bool {
    forall|u: int, j: int|
        0 <= u < adj.len() && m[u] && 0 <= j < adj[u].len()
            ==> m[(#[trigger] adj[u][j]) as int] && d[adj[u][j] as int]
            <= d[u] + 1
}

/// The vertices that `m` marks.
spec fn marked_set(m: Seq<bool>) -> Set<int> {
    Set::new(|i: int| 0 <= i < m.len() && m[i])
}

/// Along a walk from `s`, every vertex is marked and no farther from `s`
/// than its place in the walk.
proof fn lemma_walk_bound(
    adj: Seq<Seq<usize>>,
    s: usize,
    m: Seq<bool>,
    e: Seq<usize>,
    d: Seq<usize>,
    p: Seq<usize>,
    k: int,
)
    requires
        is_tree(adj, s, m, e, d),
        is_closed(adj, m, d),
        is_walk(adj, p),
        p[0] == s,
        0 <= k < p.len(),
    ensures
        m[p[k] as int],
        d[p[k] as int] <= k,
    decreases k,
{
    if k > 0 {
        lemma_walk_bound(adj, s, m, e, d, p, k - 1);
        let u = p[k - 1] as int;
        assert(adj[u].contains(p[k - 1 + 1]));
        let j = choose|j: int| 0 <= j < adj[u].len() && adj[u][j] == p[k];
        assert(m[adj[u][j] as int]);
    }
}

/// A walk from `s` to the marked vertex `v` along the tree; it has as many
/// edges as `d` says.
proof fn lemma_tree_walk(
    adj: Seq<Seq<usize>>,
    s: usize,
    m: Seq<bool>,
    e: Seq<usize>,
    d: Seq<usize>,
    v: usize,
) -> (p: Seq<usize>)
    requires
        is_tree(adj, s, m, e, d),
        v < adj.len(),
        m[v as int],
    ensures
        walks_between(adj, s, v, p),
        p.len() == d[v as int] + 1,
    decreases d[v as int],
{
    if v == s {
        seq![s]
    } else {
        let before = lemma_tree_walk(adj, s, m, e, d, e[v as int]);
        let p = before.push(v);
        assert forall|k: int| 0 <= k < p.len() - 1 implies adj[p[k] as int].contains(#[trigger] p[k + 1]) by {
            if k + 1 < before.len() {
                assert(adj[before[k] as int].contains(before[k + 1]));
            }
        }
        p
    }
}

/// What a finished search knows of the vertex `v`: it is marked exactly if
/// it can be reached, and then `d` holds its distance.
proof fn lemma_search_meaning(
    adj: Seq<Seq<usize>>,
    s: usize,
    m: Seq<bool>,
    e: Seq<usize>,
    d: Seq<usize>,
    v: usize,
)
    requires
        is_tree(adj, s, m, e, d),
        is_closed(adj, m, d),
        v < adj.len(),
    ensures
        m[v as int] <==> reachable(adj, s, v),
        m[v as int] ==> is_distance(adj, s, v, d[v as int] as nat),
        !m[v as int] ==> d[v as int] == usize::MAX,
{
    if m[v as int] {
        let p = lemma_tree_walk(adj, s, m, e, d, v);
        assert(walks_between(adj, s, v, p) && p.len() == d[v as int] as nat + 1);
        assert forall|w: Seq<usize>| walks_between(adj, s, v, w)
            implies w.len() >= d[v as int] as nat + 1 by {
            lemma_walk_bound(adj, s, m, e, d, w, w.len() - 1);
        }
    } else {
        if reachable(adj, s, v) {
            let w = choose|w: Seq<usize>| walks_between(adj, s, v, w);
            lemma_walk_bound(adj, s, m, e, d, w, w.len() - 1);
        }
    }
}

impl BFP {
    /// The graph that was searched.
    pub closed spec fn graph(&self) -> Seq<Seq<usize>> {
        self.graph@
    }

    /// The vertex from which it was searched.
    pub closed spec fn source(&self) -> usize {
        self.source@
    }

    /// The distance noted for the vertex `v`.
    pub closed spec fn dist(&self, v: int) -> usize {
        self.dist_to@[v]
    }

    /// The three tables describe a finished search of `graph()` from
    /// `source()`.
    pub closed spec fn wf(&self) -> bool {
        &&& is_tree(self.graph@, self.source@, self.marked@, self.edge_to@, self.dist_to@)
        &&& is_closed(self.graph@, self.marked@, self.dist_to@)
    }

    /// Searches `g` from `s`.
    pub fn new(g: &mut Graph, s: usize) -> (r: Result<BFP, GraphError>)
        requires
            old(g).wf(),
        ensures
            *final(g) == *old(g),
            s < old(g)@.len() <==> r is Ok,
            r is Err ==> r matches Err(GraphError::OutOfRange),
            r matches Ok(paths) ==> paths.wf() && paths.graph() == old(g)@ && paths.source() == s,
    {
        if s >= g.get_v() {
            return Err(GraphError::OutOfRange);
        }
        let tmp = Self::bfs(g, s);
        Ok(BFP { marked: tmp.0, edge_to: tmp.1, dist_to: tmp.2, graph: Ghost(g@), source: Ghost(s) })
    }

    /// The distance that stands for "no path".
    fn infinity() -> (d: usize)
        ensures
            d == usize::MAX,
    {
        usize::MAX
    }

    /// Whether `p` is a vertex of the graph that was searched.
    fn validate(&self, p: usize) -> (r: Result<(), GraphError>)
        requires
            self.wf(),
        ensures
            p < self.graph().len() <==> r is Ok,
            r is Err ==> r matches Err(GraphError::OutOfRange),
    {
        if p >= self.marked.len() {
            Err(GraphError::OutOfRange)
        } else {
            Ok(())
        }
    }

    /// Whether a path leads from the source to `v`.
    pub fn has_path_to(&self, v: usize) -> (r: Result<bool, GraphError>)
        requires
            self.wf(),
        ensures
            v < self.graph().len() ==> r == Ok::<bool, GraphError>(reachable(self.graph(), self.source(), v)),
            v >= self.graph().len() ==> r == Err::<bool, GraphError>(GraphError::OutOfRange),
    {
        match self.validate(v) {
            Err(_) => Err(GraphError::OutOfRange),
            Ok(()) => {
                proof {
                    lemma_search_meaning(self.graph@, self.source@, self.marked@, self.edge_to@,
                        self.dist_to@, v);
                }
                Ok(self.marked[v])
            },
        }
    }

    /// The least number of edges of a path from the source to `v`, or
    /// `usize::MAX` where there is no path.
    pub fn get_dist_to(&self, v: usize) -> (r: Result<usize, GraphError>)
        requires
            self.wf(),
        ensures
            v < self.graph().len() <==> r is Ok,
            v >= self.graph().len() ==> r == Err::<usize, GraphError>(GraphError::OutOfRange),
            r matches Ok(d) ==> d == self.dist(v as int),
            r matches Ok(d) ==> if reachable(self.graph(), self.source(), v) {
                d < usize::MAX && is_distance(self.graph(), self.source(), v, d as nat)
            } else {
                d == usize::MAX
            },
    {
        match self.validate(v) {
            Err(_) => Err(GraphError::OutOfRange),
            Ok(()) => {
                proof {
                    lemma_search_meaning(self.graph@, self.source@, self.marked@, self.edge_to@,
                        self.dist_to@, v);
                }
                Ok(self.dist_to[v])
            },
        }
    }

    /// A path with the fewest edges from the source to `v`, as a stack from
    /// which the source is popped first and `v` last; `None` where `v`
    /// cannot be reached.
    pub fn get_path_to(&self, v: usize) -> (r: Result<Option<Stack<usize>>, GraphError>)
        requires
            self.wf(),
        ensures
            v < self.graph().len() <==> r is Ok,
            v >= self.graph().len() ==> r matches Err(GraphError::OutOfRange),
            r matches Ok(None) <==> v < self.graph().len() && !reachable(self.graph(), self.source(), v),
            r matches Ok(Some(path)) ==> walks_between(self.graph(), self.source(), v, path@.reverse())
                && is_distance(self.graph(), self.source(), v, (path@.len() - 1) as nat),
            r matches Ok(Some(path)) ==> path@.len() == self.dist(v as int) + 1,
    {
        match self.validate(v) {
            Err(_) => {
                return Err(GraphError::OutOfRange);
            },
            Ok(()) => {},
        }
        proof {
            lemma_search_meaning(self.graph@, self.source@, self.marked@, self.edge_to@, self.dist_to@, v);
        }
        if !self.marked[v] {
            return Ok(None);
        }
        let ghost adj = self.graph@;
        let ghost total = self.dist_to@[v as int] as int;
        let mut x: usize = v;
        let mut stack = Stack::<usize>::new();
        while self.dist_to[x] != 0
            invariant
                self.wf(),
                adj == self.graph@,
                v < adj.len(),
                x < adj.len(),
                self.marked@[x as int],
                total == self.dist_to@[v as int],
                stack@.len() == total - self.dist_to@[x as int],
                forall|k: int| 0 <= k < stack@.len() ==> (#[trigger] stack@[k]) < adj.len(),
                stack@.len() > 0 ==> stack@[0] == v,
                stack@.len() == 0 ==> x == v,
                stack@.len() > 0 ==> adj[x as int].contains(stack@.last()),
                forall|k: int| 0 <= k < stack@.len() - 1
                    ==> adj[(#[trigger] stack@[k + 1]) as int].contains(stack@[k]),
            decreases self.dist_to@[x as int],
        {
            stack.push(x);
            x = self.edge_to[x];
        }
        stack.push(x);
        proof {
            let st = stack@;
            let p = st.reverse();
            assert(x == self.source@);
            assert(p.len() == st.len());
            assert forall|k: int| 0 <= k < p.len() implies (#[trigger] p[k]) < adj.len() by {
                assert(p[k] == st[st.len() - 1 - k]);
            }
            assert forall|k: int| 0 <= k < p.len() - 1
                implies adj[p[k] as int].contains(#[trigger] p[k + 1]) by {
                let i = st.len() - 2 - k;
                assert(p[k] == st[i + 1]);
                assert(p[k + 1] == st[i]);
                if i + 1 == st.len() - 1 {
                } else {
                    assert(adj[st[i + 1] as int].contains(st[i]));
                }
            }
            assert(p[0] == st[st.len() - 1]);
            assert(p.last() == st[0]);
        }
        Ok(Some(stack))
    }

    /// Marks every vertex that can be reached from `s`, with the vertex
    /// before it on a shortest path and the length of that path.
    fn bfs(g: &mut Graph, s: usize) -> (r: (Vec<bool>, Vec<usize>, Vec<usize>))
        requires
            old(g).wf(),
            s < old(g)@.len(),
        ensures
            *final(g) == *old(g),
            is_tree(old(g)@, s, r.0@, r.1@, r.2@),
            is_closed(old(g)@, r.0@, r.2@),
    {
        let n: usize = g.get_v();
        let ghost adj = g@;
        proof {
            g.lemma_wf();
        }
        let mut m: Vec<bool> = vec![false; n];
        let mut edge_to: Vec<usize> = vec![0; n];
        let mut dist_to: Vec<usize> = vec![Self::infinity(); n];
        let mut q = Queue::<usize>::new();
        m[s] = true;
        dist_to[s] = 0;
        q.enqueue(s);
        let ghost mut done: Seq<bool> = Seq::new(n as nat, |i: int| false);
        let ghost mut cnt: nat = 1;
        proof {
            assert(marked_set(m@) =~= Set::<int>::empty().insert(s as int));
            assert(q@ =~= seq![s]);
            assert(q@[0] == s);
        }
        while !q.is_empty()
            invariant
                *g == *old(g),
                g.wf(),
                adj == g@,
                adj.len() == n,
                closed_lists(adj),
                done.len() == n,
                is_tree(adj, s, m@, edge_to@, dist_to@),
                cnt == marked_set(m@).len(),
                marked_set(m@).finite(),
                cnt <= n,
                forall|v: int| 0 <= v < n && m@[v] ==> (#[trigger] dist_to@[v]) < cnt,
                q@.no_duplicates(),
                forall|k: int| 0 <= k < q@.len()
                    ==> (#[trigger] q@[k]) < n && m@[q@[k] as int] && !done[q@[k] as int],
                forall|v: int| 0 <= v < n && m@[v] && !(#[trigger] done[v]) ==> q@.contains(v as usize),
                forall|i: int, j: int|
                    0 <= i < j < q@.len()
                        ==> dist_to@[(#[trigger] q@[i]) as int] <= dist_to@[(#[trigger] q@[j]) as int],
                q@.len() > 0 ==> dist_to@[q@.last() as int] <= dist_to@[q@[0] as int] + 1,
                forall|u: int, j: int|
                    0 <= u < n && done[u] && 0 <= j < adj[u].len() ==> m@[(#[trigger] adj[u][j]) as int]
                        && dist_to@[adj[u][j] as int] <= dist_to@[u] + 1,
                forall|u: int|
                    0 <= u < n && (#[trigger] done[u]) ==> m@[u] && (q@.len() > 0
                        ==> dist_to@[u] <= dist_to@[q@[0] as int]),
            decreases n - cnt + q@.len(),
        {
            let ghost q_before = q@;
            let v: usize = q.dequeue().unwrap();
            let bag = g.adjacent(v).unwrap();
            let deg: usize = bag.len();
            let ghost far = dist_to@[v as int];
            let ghost seen = cnt;
            proof {
                assert forall|k: int| 0 <= k < q@.len() implies (#[trigger] q@[k]) != v by {
                    assert(q@[k] == q_before[k + 1]);
                }
                assert forall|x: int| 0 <= x < n && m@[x] && !(#[trigger] done[x]) && x != v
                    implies q@.contains(
                    x as usize,
                ) by {
                    let k = choose|k: int| 0 <= k < q_before.len() && q_before[k] == x as usize;
                    assert(q@[k - 1] == x as usize);
                }
                assert forall|k: int| 0 <= k < q@.len()
                    implies far <= dist_to@[(#[trigger] q@[k]) as int] <= far + 1 by {
                    assert(q@[k] == q_before[k + 1]);
                }
                assert forall|x: int| 0 <= x < n && m@[x] implies (#[trigger] dist_to@[x]) <= far + 1 by {
                    if !done[x] {
                        let k = choose|k: int| 0 <= k < q_before.len() && q_before[k] == x as usize;
                        assert(dist_to@[q_before[k] as int] <= far + 1);
                    }
                }
                assert forall|i: int, j: int| 0 <= i < j < q@.len()
                    implies dist_to@[(#[trigger] q@[i]) as int]
                    <= dist_to@[(#[trigger] q@[j]) as int] by {
                    assert(q@[i] == q_before[i + 1]);
                    assert(q@[j] == q_before[j + 1]);
                }
            }
            let mut j: usize = 0;
            while j < deg
                invariant
                    *g == *old(g),
                    g.wf(),
                    adj == g@,
                    adj.len() == n,
                    closed_lists(adj),
                    done.len() == n,
                    v < n,
                    bag@ == adj[v as int],
                    deg == bag@.len(),
                    j <= deg,
                    m@[v as int],
                    !done[v as int],
                    far == dist_to@[v as int],
                    is_tree(adj, s, m@, edge_to@, dist_to@),
                    cnt == marked_set(m@).len(),
                    marked_set(m@).finite(),
                    cnt <= n,
                    forall|x: int| 0 <= x < n && m@[x] ==> (#[trigger] dist_to@[x]) < cnt,
                    forall|x: int| 0 <= x < n && m@[x] ==> (#[trigger] dist_to@[x]) <= far + 1,
                    q@.no_duplicates(),
                    forall|k: int|
                        0 <= k < q@.len() ==> (#[trigger] q@[k]) < n && m@[q@[k] as int]
                            && !done[q@[k] as int] && q@[k]
                            != v,
                    forall|x: int| 0 <= x < n && m@[x] && !(#[trigger] done[x]) && x != v
                        ==> q@.contains(x as usize),
                    forall|a: int, b: int|
                        0 <= a < b < q@.len()
                            ==> dist_to@[(#[trigger] q@[a]) as int] <= dist_to@[(#[trigger] q@[b]) as int],
                    forall|k: int| 0 <= k < q@.len()
                        ==> far <= dist_to@[(#[trigger] q@[k]) as int] <= far + 1,
                    forall|u: int, i: int|
                        0 <= u < n && done[u] && 0 <= i < adj[u].len() ==> m@[(#[trigger] adj[u][i]) as int]
                            && dist_to@[adj[u][i] as int] <= dist_to@[u] + 1,
                    forall|u: int| 0 <= u < n && (#[trigger] done[u]) ==> m@[u] && dist_to@[u] <= far,
                    forall|i: int|
                        0 <= i < j ==> m@[(#[trigger] adj[v as int][i]) as int]
                            && dist_to@[adj[v as int][i] as int] <= far + 1,
                    q@.len() + seen + 1 == q_before.len() + cnt,
                decreases deg - j,
            {
                let w: usize = *bag.get(j);
                assert(w == adj[v as int][j as int]);
                if !m[w] {
                    let ghost m_before = m@;
                    let ghost q_mid = q@;
                    edge_to[w] = v;
                    dist_to[w] = dist_to[v] + 1;
                    m[w] = true;
                    q.enqueue(w);
                    proof {
                        assert(marked_set(m@) =~= marked_set(m_before).insert(w as int));
                        lemma_int_range(0, n as int);
                        lemma_len_subset(marked_set(m@), set_int_range(0, n as int));
                        cnt = cnt + 1;
                        assert(adj[v as int].contains(w));
                        assert forall|x: int| 0 <= x < n && m@[x] && !(#[trigger] done[x]) && x != v
                            implies q@.contains(
                            x as usize,
                        ) by {
                            if x == w {
                                assert(q@[q@.len() - 1] == w);
                            } else {
                                let k = choose|k: int| 0 <= k < q_mid.len() && q_mid[k] == x as usize;
                                assert(q@[k] == x as usize);
                            }
                        }
                    }
                }
                j += 1;
            }
            proof {
                done = done.update(v as int, true);
            }
        }
        (m, edge_to, dist_to)
    }
}

} // verus!
