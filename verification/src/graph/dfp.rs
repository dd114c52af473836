use super::di_graph::{closed_lists, is_walk, reachable, walks_between, Graph, GraphError};
use crate::fundamentals::stack::Stack;
use vstd::prelude::*;

verus! {

/// The vertices that can be reached from one source, found depth first, each
/// with the vertex from which it was found.
pub struct DFP {
    /// Whether the vertex can be reached.
    pub marked: Vec<bool>,
    /// The vertex from which this one was found; 0 where there is none.
    pub edge_to: Vec<usize>,
}

/// The marked vertices form a tree rooted at `s`: each but `s` hangs by an
/// edge of `adj` below a marked vertex of smaller depth.
pub open spec fn is_tree(adj: Seq<Seq<usize>>, s: usize, m: Seq<bool>, e: Seq<usize>,
    depth: Seq<nat>) -> bool {
    &&& m.len() == adj.len()
    &&& e.len() == adj.len()
    &&& depth.len() == adj.len()
    &&& s < adj.len()
    &&& m[s as int]
    &&& forall|v: int|
        #![trigger m[v]]
        #![trigger e[v]]
        0 <= v < adj.len() ==> if m[v] && v != s {
            &&& e[v] < adj.len()
            &&& m[e[v] as int]
            &&& adj[e[v] as int].contains(v as usize)
            &&& depth[e[v] as int] < depth[v]
        } else {
            e[v] == 0
        }
}

/// Every neighbour of a marked vertex is marked.
spec fn is_closed(adj: Seq<Seq<usize>>, m: Seq<bool>) -> bool {
    forall|u: int, j: int| 0 <= u < adj.len() && m[u] && 0 <= j < adj[u].len()
        ==> m[(#[trigger] adj[u][j]) as int]
}

/// `m` marks the vertices that can be reached from `s`, and `e` describes a
/// tree of them.
pub open spec fn is_search(adj: Seq<Seq<usize>>, s: usize, m: Seq<bool>, e: Seq<usize>) -> bool {
    &&& m.len() == adj.len()
    &&& e.len() == adj.len()
    &&& forall|v: int| 0 <= v < adj.len() ==> (#[trigger] m[v] <==> reachable(adj, s, v as usize))
    &&& exists|depth: Seq<nat>| is_tree(adj, s, m, e, depth)
}

/// The entries of the lists that the cursors `next` have not passed yet, in
/// the lists of the vertices below `upto`.
spec fn pending(adj: Seq<Seq<usize>>, next: Seq<usize>, upto: int) -> int
    decreases upto,
{
    if upto <= 0 {
        0
    } else {
        pending(adj, next, upto - 1) + adj[upto - 1].len() - next[upto - 1]
    }
}

/// Moving the cursor of `v` on by one leaves one entry less.
proof fn lemma_pending_step(adj: Seq<Seq<usize>>, next: Seq<usize>, v: int, upto: int)
    requires
        0 <= v < next.len(),
        next.len() == adj.len(),
        0 <= upto <= adj.len(),
        next[v] < usize::MAX,
    ensures
        pending(adj, next.update(v, (next[v] + 1) as usize), upto) == pending(adj, next, upto) - if v < upto {
            1int
        } else {
            0int
        },
    decreases upto,
{
    if upto > 0 {
        lemma_pending_step(adj, next, v, upto - 1);
    }
}

/// Cursors within their lists leave no less than nothing.
proof fn lemma_pending_bound(adj: Seq<Seq<usize>>, next: Seq<usize>, upto: int)
    requires
        next.len() == adj.len(),
        0 <= upto <= adj.len(),
        forall|v: int| 0 <= v < adj.len() ==> (#[trigger] next[v]) <= adj[v].len(),
    ensures
        pending(adj, next, upto) >= 0,
    decreases upto,
{
    if upto > 0 {
        lemma_pending_bound(adj, next, upto - 1);
    }
}

/// Along a walk from `s` through closed marks every vertex is marked.
proof fn lemma_walk_marked(adj: Seq<Seq<usize>>, s: usize, m: Seq<bool>, p: Seq<usize>, k: int)
    requires
        m.len() == adj.len(),
        s < adj.len(),
        m[s as int],
        is_closed(adj, m),
        is_walk(adj, p),
        p[0] == s,
        0 <= k < p.len(),
    ensures
        m[p[k] as int],
    decreases k,
{
    if k > 0 {
        lemma_walk_marked(adj, s, m, p, k - 1);
        let u = p[k - 1] as int;
        assert(adj[u].contains(p[k - 1 + 1]));
        let j = choose|j: int| 0 <= j < adj[u].len() && adj[u][j] == p[k];
        assert(m[adj[u][j] as int]);
    }
}

/// A walk from `s` to the marked vertex `v` along the tree.
proof fn lemma_tree_walk(adj: Seq<Seq<usize>>, s: usize, m: Seq<bool>, e: Seq<usize>, depth: Seq<nat>,
    v: usize) -> (p:
    Seq<usize>)
    requires
        is_tree(adj, s, m, e, depth),
        v < adj.len(),
        m[v as int],
    ensures
        walks_between(adj, s, v, p),
    decreases depth[v as int],
{
    if v == s {
        seq![s]
    } else {
        let before = lemma_tree_walk(adj, s, m, e, depth, e[v as int]);
        let p = before.push(v);
        assert forall|k: int| 0 <= k < p.len() - 1 implies adj[p[k] as int].contains(#[trigger] p[k + 1]) by {
            if k + 1 < before.len() {
                assert(adj[before[k] as int].contains(before[k + 1]));
            }
        }
        p
    }
}

/// A closed tree of marks is a search.
proof fn lemma_search(adj: Seq<Seq<usize>>, s: usize, m: Seq<bool>, e: Seq<usize>, depth: Seq<nat>)
    requires
        adj.len() <= usize::MAX,
        is_tree(adj, s, m, e, depth),
        is_closed(adj, m),
    ensures
        is_search(adj, s, m, e),
{
    assert forall|v: int| 0 <= v < adj.len() implies (#[trigger] m[v] <==> reachable(adj, s, v as usize)) by {
        if m[v] {
            let p = lemma_tree_walk(adj, s, m, e, depth, v as usize);
            assert(walks_between(adj, s, v as usize, p));
        }
        let t = v as usize;
        if reachable(adj, s, t) {
            let p = choose|p: Seq<usize>| walks_between(adj, s, t, p);
            lemma_walk_marked(adj, s, m, p, p.len() - 1);
        }
    }
}

impl DFP {
    /// Searches `g` from `s`.
    pub fn new(g: &mut Graph, s: usize) -> (r: Result<DFP, GraphError>)
        requires
            old(g).wf(),
        ensures
            *final(g) == *old(g),
            s < old(g)@.len() <==> r is Ok,
            r is Err ==> r matches Err(GraphError::OutOfRange),
            r matches Ok(paths) ==> is_search(old(g)@, s, paths.marked@, paths.edge_to@),
    {
        if s >= g.get_v() {
            return Err(GraphError::OutOfRange);
        }
        let tmp = Self::dfs(g, s);
        Ok(DFP { marked: tmp.0, edge_to: tmp.1 })
    }

    /// Marks every vertex that can be reached from `s`, with the vertex
    /// from which it was found.
    fn dfs(g: &mut Graph, s: usize) -> (r: (Vec<bool>, Vec<usize>))
        requires
            old(g).wf(),
            s < old(g)@.len(),
        ensures
            *final(g) == *old(g),
            is_search(old(g)@, s, r.0@, r.1@),
    {
        let n: usize = g.get_v();
        let ghost adj = g@;
        proof {
            g.lemma_wf();
        }
        let mut m: Vec<bool> = vec![false; n];
        let mut edge_to: Vec<usize> = vec![0; n];
        let mut next: Vec<usize> = vec![0; n];
        let mut stack = Stack::<usize>::new();
        m[s] = true;
        stack.push(s);
        let ghost mut depth: Seq<nat> = Seq::new(n as nat, |i: int| 0nat);
        proof {
            lemma_pending_bound(adj, next@, n as int);
            assert(stack@[0] == s);
        }
        while !stack.is_empty()
            invariant
                *g == *old(g),
                g.wf(),
                adj == g@,
                adj.len() == n,
                closed_lists(adj),
                next@.len() == n,
                is_tree(adj, s, m@, edge_to@, depth),
                forall|k: int| 0 <= k < stack@.len() ==> (#[trigger] stack@[k]) < n && m@[stack@[k] as int],
                forall|v: int| 0 <= v < n ==> (#[trigger] next@[v]) <= adj[v].len(),
                forall|v: int| 0 <= v < n && m@[v] && (#[trigger] next@[v]) < adj[v].len()
                    ==> stack@.contains(v as usize),
                forall|v: int, i: int| 0 <= v < n && 0 <= i < next@[v] ==> m@[(#[trigger] adj[v][i]) as int],
                pending(adj, next@, n as int) >= 0,
            decreases 2 * pending(adj, next@, n as int) + stack@.len(),
        {
            let v: usize = *stack.peek().unwrap();
            let bag = g.adjacent(v).unwrap();
            assert(v == stack@[stack@.len() - 1]);
            if next[v] < bag.len() {
                let w: usize = *bag.get(next[v]);
                let ghost cursors = next@;
                let ghost held = stack@;
                proof {
                    lemma_pending_step(adj, next@, v as int, n as int);
                }
                next[v] = next[v] + 1;
                assert(w == adj[v as int][cursors[v as int] as int]);
                if !m[w] {
                    m[w] = true;
                    edge_to[w] = v;
                    stack.push(w);
                    proof {
                        depth = depth.update(w as int, depth[v as int] + 1);
                        assert(adj[v as int].contains(w));
                        assert forall|x: int| 0 <= x < n && m@[x]
                            && (#[trigger] next@[x]) < adj[x].len() implies stack@.contains(
                            x as usize,
                        ) by {
                            if x == w {
                                assert(stack@[stack@.len() - 1] == w);
                            } else {
                                assert(cursors[x] <= next@[x]);
                                if x == v {
                                    assert(stack@[held.len() - 1] == v);
                                } else {
                                    assert(next@[x] == cursors[x]);
                                    let k = choose|k: int| 0 <= k < held.len() && held[k] == x as usize;
                                    assert(stack@[k] == x as usize);
                                }
                            }
                        }
                    }
                } else {
                    proof {
                        assert forall|x: int| 0 <= x < n && m@[x]
                            && (#[trigger] next@[x]) < adj[x].len() implies stack@.contains(
                            x as usize,
                        ) by {
                            if x == v {
                                assert(stack@[held.len() - 1] == v);
                            } else {
                                assert(next@[x] == cursors[x]);
                            }
                        }
                    }
                }
                proof {
                    lemma_pending_bound(adj, next@, n as int);
                }
            } else {
                let ghost held = stack@;
                stack.pop();
                proof {
                    assert forall|x: int| 0 <= x < n && m@[x] && (#[trigger] next@[x]) < adj[x].len()
                        implies stack@.contains(
                        x as usize,
                    ) by {
                        let k = choose|k: int| 0 <= k < held.len() && held[k] == x as usize;
                        assert(stack@[k] == x as usize);
                    }
                }
            }
        }
        proof {
            assert forall|u: int, j: int| 0 <= u < n && m@[u] && 0 <= j < adj[u].len()
                implies m@[(#[trigger] adj[u][j]) as int] by {
                if next@[u] < adj[u].len() {
                    assert(stack@.contains(u as usize));
                }
            }
            lemma_search(adj, s, m@, edge_to@, depth);
        }
        (m, edge_to)
    }
}

} // verus!
