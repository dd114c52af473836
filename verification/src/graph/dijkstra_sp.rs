use super::di_graph::GraphError;
use super::edge::Edge;
use super::edge_weighted_graph::{pointed, sound_lists, EdgeWeightedGraph};
use super::routes::{
    is_least_weight, is_route, leads, lemma_route_prepend, lemma_route_stays, route_end, total_weight,
};
use crate::fundamentals::order::{lawful, lemma_u128_order};
use crate::fundamentals::stack::Stack;
use crate::sorting::index_min_pq::IndexMinPQ;
use vstd::prelude::*;
use vstd::set_lib::{lemma_int_range, lemma_len_subset, set_int_range};

verus! {

/// The routes of least total weight from one source to every vertex that can
/// be reached from it.
pub struct DijkstraSP {
    dist_to: Vec<u128>,
    edge_to: Vec<Option<Edge>>,
    pq: IndexMinPQ<u128>,
    graph: Ghost<Seq<Seq<Edge>>>,
    source: Ghost<usize>,
    hops: Ghost<Seq<nat>>,
}

/// The vertex `v` hangs in the tree: by its edge, below a vertex whose
/// distance and that edge's weight make up its own; without an edge it is
/// the root or has no distance.
spec fn hangs(adj: Seq<Seq<Edge>>, s: usize, d: Seq<u128>, e: Seq<Option<Edge>>, hops: Seq<nat>,
    v: int) -> bool {
    match e[v] {
        Some(x) => {
            let u = x.other_end(v as usize);
            &&& x.touches(v as usize)
            &&& u < adj.len()
            &&& adj[u as int].contains(x)
            &&& d[u as int] < u128::MAX
            &&& d[v] == d[u as int] + x.cost()
            &&& hops[v] == hops[u as int] + 1
        },
        None => v == s || d[v] == u128::MAX,
    }
}

/// The vertices with a distance below `u128::MAX` form a tree rooted at
/// `s`, in which every vertex hangs.
spec fn is_tree(adj: Seq<Seq<Edge>>, s: usize, d: Seq<u128>, e: Seq<Option<Edge>>, hops: Seq<nat>) -> bool {
    &&& d.len() == adj.len()
    &&& e.len() == adj.len()
    &&& hops.len() == adj.len()
    &&& s < adj.len()
    &&& d[s as int] == 0
    &&& e[s as int] is None
    &&& forall|v: int| 0 <= v < adj.len() ==> #[trigger] hangs(adj, s, d, e, hops, v)
}

/// No edge that leaves a vertex with a distance below `u128::MAX` leads to a
/// vertex that lies farther away than the edge is long.
spec fn is_relaxed(adj: Seq<Seq<Edge>>, d: Seq<u128>) -> bool {
    forall|u: int, k: int|
        0 <= u < adj.len() && d[u] < u128::MAX && 0 <= k < adj[u].len()
            ==> d[(#[trigger] adj[u][k]).other_end(
            u as usize,
        ) as int] <= d[u] + adj[u][k].cost()
}

/// The vertices that `settled` marks.
spec fn settled_set(settled: Seq<bool>) -> Set<int> {
    Set::new(|i: int| 0 <= i < settled.len() && settled[i])
}

/// No route from `s` weighs less than the distance of the vertex at which
/// it arrives.
proof fn lemma_route_bound(
    adj: Seq<Seq<Edge>>,
    s: usize,
    d: Seq<u128>,
    e: Seq<Option<Edge>>,
    hops: Seq<nat>,
    es: Seq<Edge>,
)
    requires
        sound_lists(adj),
        is_tree(adj, s, d, e, hops),
        is_relaxed(adj, d),
        is_route(adj, s, es),
    ensures
        route_end(s, es) < adj.len(),
        d[route_end(s, es) as int] <= total_weight(es),
    decreases es.len(),
{
    lemma_route_stays(adj, s, es);
    if es.len() > 0 {
        let before = es.drop_last();
        lemma_route_bound(adj, s, d, e, hops, before);
        let u = route_end(s, before) as int;
        let k = choose|k: int| 0 <= k < adj[u].len() && adj[u][k] == es.last();
        if d[u] < u128::MAX {
            assert(d[adj[u][k].other_end(u as usize) as int] <= d[u] + adj[u][k].cost());
        }
    }
}

/// A route from `s` to the vertex `v` along the tree; it weighs what `d`
/// says.
proof fn lemma_tree_route(
    adj: Seq<Seq<Edge>>,
    s: usize,
    d: Seq<u128>,
    e: Seq<Option<Edge>>,
    hops: Seq<nat>,
    v: usize,
) -> (es: Seq<Edge>)
    requires
        is_tree(adj, s, d, e, hops),
        v < adj.len(),
        d[v as int] < u128::MAX,
    ensures
        leads(adj, s, v, es),
        total_weight(es) == d[v as int],
    decreases hops[v as int],
{
    assert(hangs(adj, s, d, e, hops, v as int));
    match e[v as int] {
        None => Seq::empty(),
        Some(x) => {
            let u = x.other_end(v);
            let before = lemma_tree_route(adj, s, d, e, hops, u);
            let es = before.push(x);
            assert(es.drop_last() =~= before);
            assert(es.last() == x);
            es
        },
    }
}

/// Some route through `adj` from `s` to `t` weighs less than `u128::MAX`.
pub open spec fn light_route_exists(adj: Seq<Seq<Edge>>, s: usize, t: usize) -> bool {
    exists|es: Seq<Edge>| leads(adj, s, t, es) && total_weight(es) < u128::MAX
}

/// What a finished search knows of the vertex `v`: its distance is the
/// least weight of a route to it, or `u128::MAX` where no route weighs less.
proof fn lemma_search_meaning(
    adj: Seq<Seq<Edge>>,
    s: usize,
    d: Seq<u128>,
    e: Seq<Option<Edge>>,
    hops: Seq<nat>,
    v: usize,
)
    requires
        sound_lists(adj),
        is_tree(adj, s, d, e, hops),
        is_relaxed(adj, d),
        v < adj.len(),
    ensures
        d[v as int] < u128::MAX ==> is_least_weight(adj, s, v, d[v as int] as nat),
        d[v as int] == u128::MAX ==> forall|es: Seq<Edge>| leads(adj, s, v, es)
            ==> total_weight(es) >= u128::MAX,
        d[v as int] < u128::MAX <==> light_route_exists(adj, s, v),
{
    assert forall|es: Seq<Edge>| leads(adj, s, v, es) implies total_weight(es) >= d[v as int] by {
        lemma_route_bound(adj, s, d, e, hops, es);
    }
    if d[v as int] < u128::MAX {
        let es = lemma_tree_route(adj, s, d, e, hops, v);
        assert(leads(adj, s, v, es) && total_weight(es) == d[v as int] as nat);
    }
}

/// What `relax` makes of the tables when it looks at the edge `x` from `v`.
spec fn relaxed(
    d: Seq<u128>,
    e: Seq<Option<Edge>>,
    hops: Seq<nat>,
    waiting: Map<usize, u128>,
    x: Edge,
    v: usize,
) -> (Seq<u128>, Seq<Option<Edge>>, Seq<nat>, Map<usize, u128>) {
    let w = x.other_end(v);
    if d[v as int] + x.cost() < d[w as int] {
        let sum = (d[v as int] + x.cost()) as u128;
        (d.update(w as int, sum), e.update(w as int, Some(x)), hops.update(w as int, hops[v as int] + 1),
            waiting.insert(w, sum))
    } else {
        (d, e, hops, waiting)
    }
}

/// What holds between two vertices being taken from the queue: the settled
/// vertices are done with, the others wait in the queue with their distance
/// as far as they have one, and no settled vertex lies farther away than one
/// that is not.
spec fn searching(
    adj: Seq<Seq<Edge>>,
    s: usize,
    d: Seq<u128>,
    e: Seq<Option<Edge>>,
    hops: Seq<nat>,
    settled: Seq<bool>,
    waiting: Map<usize, u128>,
) -> bool {
    let n = adj.len();
    &&& sound_lists(adj)
    &&& n <= usize::MAX
    &&& settled.len() == n
    &&& is_tree(adj, s, d, e, hops)
    &&& forall|v: int| 0 <= v < n ==> ((#[trigger] e[v]) matches Some(x)
        ==> settled[x.other_end(v as usize) as int])
    &&& forall|i: int| 0 <= i < n
        ==> (waiting.contains_key(i as usize) <==> !(#[trigger] settled[i]) && d[i] < u128::MAX)
    &&& forall|i: int| 0 <= i < n && waiting.contains_key(i as usize)
        ==> waiting[i as usize] == #[trigger] d[i]
    &&& forall|u: int, k: int|
        0 <= u < n && settled[u] && 0 <= k < adj[u].len()
            ==> d[(#[trigger] adj[u][k]).other_end(u as usize) as int] <= d[u]
            + adj[u][k].cost()
    &&& forall|u: int| 0 <= u < n && (#[trigger] settled[u]) ==> d[u] < u128::MAX
    &&& forall|u: int, x: int|
        0 <= u < n && 0 <= x < n && (#[trigger] settled[u]) && !(#[trigger] settled[x]) ==> d[u] <= d[x]
    &&& !settled[s as int] ==> forall|i: int| 0 <= i < n && (#[trigger] d[i]) < u128::MAX ==> i == s
}

/// What holds while the edges of the vertex `v`, just taken from the queue,
/// are looked at, when the first `k` of them have been.
spec fn scanning(
    adj: Seq<Seq<Edge>>,
    s: usize,
    d: Seq<u128>,
    e: Seq<Option<Edge>>,
    hops: Seq<nat>,
    settled: Seq<bool>,
    waiting: Map<usize, u128>,
    v: usize,
    k: int,
) -> bool {
    let n = adj.len();
    &&& sound_lists(adj)
    &&& n <= usize::MAX
    &&& settled.len() == n
    &&& v < n
    &&& settled[v as int]
    &&& settled[s as int]
    &&& 0 <= k <= adj[v as int].len()
    &&& is_tree(adj, s, d, e, hops)
    &&& forall|y: int| 0 <= y < n ==> ((#[trigger] e[y]) matches Some(x)
        ==> settled[x.other_end(y as usize) as int])
    &&& forall|i: int| 0 <= i < n
        ==> (waiting.contains_key(i as usize) <==> !(#[trigger] settled[i]) && d[i] < u128::MAX)
    &&& forall|i: int| 0 <= i < n && waiting.contains_key(i as usize)
        ==> waiting[i as usize] == #[trigger] d[i]
    &&& forall|u: int, j: int|
        0 <= u < n && settled[u] && u != v && 0 <= j < adj[u].len()
            ==> d[(#[trigger] adj[u][j]).other_end(u as usize) as int]
            <= d[u] + adj[u][j].cost()
    &&& forall|j: int|
        0 <= j < k ==> d[(#[trigger] adj[v as int][j]).other_end(v) as int]
            <= d[v as int] + adj[v as int][j].cost()
    &&& forall|u: int| 0 <= u < n && (#[trigger] settled[u]) ==> d[u] <= d[v as int] < u128::MAX
    &&& forall|x: int| 0 <= x < n && !(#[trigger] settled[x]) ==> d[v as int] <= d[x]
}

/// Taking the nearest waiting vertex from the queue begins the look at its
/// edges.
proof fn lemma_taken(
    adj: Seq<Seq<Edge>>,
    s: usize,
    d: Seq<u128>,
    e: Seq<Option<Edge>>,
    hops: Seq<nat>,
    settled: Seq<bool>,
    waiting: Map<usize, u128>,
    v: usize,
)
    requires
        searching(adj, s, d, e, hops, settled, waiting),
        v < adj.len(),
        waiting.contains_key(v),
        forall|j: usize| waiting.contains_key(j) ==> waiting[v] <= #[trigger] waiting[j],
    ensures
        scanning(adj, s, d, e, hops, settled.update(v as int, true), waiting.remove(v), v, 0),
{
    let n = adj.len();
    let after = settled.update(v as int, true);
    assert forall|x: int| 0 <= x < n && !(#[trigger] after[x]) implies d[v as int] <= d[x] by {
        assert(!settled[x]);
        if waiting.contains_key(x as usize) {
            assert(waiting[v] <= waiting[x as usize]);
        }
    }
    assert forall|u: int| 0 <= u < n && (#[trigger] after[u]) implies d[u] <= d[v as int] < u128::MAX by {
        assert(!settled[v as int]);
        if u != v {
            assert(settled[u]);
        }
    }
    assert forall|y: int| 0 <= y < n implies ((#[trigger] e[y]) matches Some(x)
        ==> after[x.other_end(y as usize) as int]) by {
        assert(hangs(adj, s, d, e, hops, y));
        match e[y] {
            Some(x) => {
                assert(settled[x.other_end(y as usize) as int]);
            },
            None => {},
        }
    }
    assert forall|i: int| 0 <= i < n
        implies (waiting.remove(v).contains_key(i as usize) <==> !(#[trigger] after[i])
        && d[i] < u128::MAX) by {
        assert(waiting.contains_key(i as usize) <==> !settled[i] && d[i] < u128::MAX);
    }
    assert(after[s as int]) by {
        if !settled[s as int] {
            assert(d[v as int] < u128::MAX);
        }
    }
}

/// Looking at the next edge of `v` keeps what holds during the look.
proof fn lemma_looked(
    adj: Seq<Seq<Edge>>,
    s: usize,
    d: Seq<u128>,
    e: Seq<Option<Edge>>,
    hops: Seq<nat>,
    settled: Seq<bool>,
    waiting: Map<usize, u128>,
    v: usize,
    k: int,
)
    requires
        scanning(adj, s, d, e, hops, settled, waiting, v, k),
        k < adj[v as int].len(),
    ensures
        ({
            let next = relaxed(d, e, hops, waiting, adj[v as int][k], v);
            scanning(adj, s, next.0, next.1, next.2, settled, next.3, v, k + 1)
        }),
{
    let n = adj.len();
    let edge = adj[v as int][k];
    let w = edge.other_end(v);
    let next = relaxed(d, e, hops, waiting, edge, v);
    let (d2, e2, h2, w2) = next;
    assert(edge.touches(v) && edge.first() < n && edge.second() < n);
    if d[v as int] + edge.cost() < d[w as int] {
        assert(!settled[w as int]);
        assert(adj[v as int].contains(edge));
        assert(edge.other_end(w) == v);
        assert forall|y: int| 0 <= y < n implies ((#[trigger] e2[y]) matches Some(x)
            ==> settled[x.other_end(y as usize) as int]) by {
            if y != w {
                assert(e2[y] == e[y]);
            }
        }
        assert forall|u: int, j: int| 0 <= u < n && settled[u] && u != v && 0 <= j < adj[u].len() implies d2[(
        #[trigger] adj[u][j]).other_end(u as usize) as int] <= d2[u] + adj[u][j].cost() by {
            let t = adj[u][j].other_end(u as usize) as int;
            assert(d[t] <= d[u] + adj[u][j].cost());
            assert(adj[u][j].touches(u as usize));
        }
        assert forall|j: int| 0 <= j < k + 1
            implies d2[(#[trigger] adj[v as int][j]).other_end(v) as int] <= d2[v as int]
            + adj[v as int][j].cost() by {
            let t = adj[v as int][j].other_end(v) as int;
            assert(adj[v as int][j].touches(v));
            if j < k {
                assert(d[t] <= d[v as int] + adj[v as int][j].cost());
            }
        }
        assert forall|y: int| 0 <= y < n implies #[trigger] hangs(adj, s, d2, e2, h2, y) by {
            assert(hangs(adj, s, d, e, hops, y));
            assert(hangs(adj, s, d, e, hops, v as int));
            if y != w {
                assert(e2[y] == e[y]);
                assert(d2[y] == d[y]);
                match e[y] {
                    Some(x) => {
                        assert(settled[x.other_end(y as usize) as int]);
                    },
                    None => {},
                }
            }
        }
        assert forall|i: int| 0 <= i < n
            implies (w2.contains_key(i as usize) <==> !(#[trigger] settled[i]) && d2[i]
            < u128::MAX) by {
            assert(waiting.contains_key(i as usize) <==> !settled[i] && d[i] < u128::MAX);
        }
        assert forall|i: int| 0 <= i < n && w2.contains_key(i as usize)
            implies w2[i as usize] == #[trigger] d2[i] by {
            if i != w {
                assert(waiting[i as usize] == d[i]);
            }
        }
        assert forall|u: int| 0 <= u < n && (#[trigger] settled[u])
            implies d2[u] <= d2[v as int] < u128::MAX by {
            assert(d[u] <= d[v as int]);
        }
        assert forall|x: int| 0 <= x < n && !(#[trigger] settled[x]) implies d2[v as int] <= d2[x] by {
            assert(d[v as int] <= d[x]);
        }
        assert(is_tree(adj, s, d2, e2, h2));
        assert(scanning(adj, s, d2, e2, h2, settled, w2, v, k + 1));
    } else {
        assert(d2 == d && e2 == e && h2 == hops && w2 == waiting);
        lemma_looked_in_vain(adj, s, d, e, hops, settled, waiting, v, k);
    }
}

/// An edge of `v` that shortens nothing leaves everything as it was.
proof fn lemma_looked_in_vain(
    adj: Seq<Seq<Edge>>,
    s: usize,
    d: Seq<u128>,
    e: Seq<Option<Edge>>,
    hops: Seq<nat>,
    settled: Seq<bool>,
    waiting: Map<usize, u128>,
    v: usize,
    k: int,
)
    requires
        scanning(adj, s, d, e, hops, settled, waiting, v, k),
        k < adj[v as int].len(),
        d[v as int] + adj[v as int][k].cost() >= d[adj[v as int][k].other_end(v) as int],
    ensures
        scanning(adj, s, d, e, hops, settled, waiting, v, k + 1),
{
    assert forall|j: int| 0 <= j < k + 1
        implies d[(#[trigger] adj[v as int][j]).other_end(v) as int] <= d[v as int]
        + adj[v as int][j].cost() by {
        if j < k {
            assert(d[adj[v as int][j].other_end(v) as int] <= d[v as int] + adj[v as int][j].cost());
        }
    }
}

/// When all edges of `v` have been looked at, the next vertex can be taken.
proof fn lemma_scanned(
    adj: Seq<Seq<Edge>>,
    s: usize,
    d: Seq<u128>,
    e: Seq<Option<Edge>>,
    hops: Seq<nat>,
    settled: Seq<bool>,
    waiting: Map<usize, u128>,
    v: usize,
)
    requires
        scanning(adj, s, d, e, hops, settled, waiting, v, adj[v as int].len() as int),
    ensures
        searching(adj, s, d, e, hops, settled, waiting),
{
    let n = adj.len();
    assert forall|u: int, k: int| 0 <= u < n && settled[u] && 0 <= k < adj[u].len() implies d[(
    #[trigger] adj[u][k]).other_end(u as usize) as int] <= d[u] + adj[u][k].cost() by {
        if u == v {
            assert(d[adj[v as int][k].other_end(v) as int] <= d[v as int] + adj[v as int][k].cost());
        }
    }
    assert forall|u: int, x: int| 0 <= u < n && 0 <= x < n && (#[trigger] settled[u])
        && !(#[trigger] settled[x]) implies d[u]
        <= d[x] by {
        assert(d[u] <= d[v as int]);
        assert(d[v as int] <= d[x]);
    }
}

/// When the queue is empty, the search is finished.
proof fn lemma_finished(
    adj: Seq<Seq<Edge>>,
    s: usize,
    d: Seq<u128>,
    e: Seq<Option<Edge>>,
    hops: Seq<nat>,
    settled: Seq<bool>,
    waiting: Map<usize, u128>,
)
    requires
        searching(adj, s, d, e, hops, settled, waiting),
        forall|i: usize| !waiting.contains_key(i),
    ensures
        is_relaxed(adj, d),
{
    let n = adj.len();
    assert forall|u: int, k: int| 0 <= u < n && d[u] < u128::MAX && 0 <= k < adj[u].len() implies d[(
    #[trigger] adj[u][k]).other_end(u as usize) as int] <= d[u] + adj[u][k].cost() by {
        assert(!waiting.contains_key(u as usize));
        assert(settled[u]);
    }
}

impl DijkstraSP {
    /// The graph that was searched.
    pub closed spec fn graph(&self) -> Seq<Seq<Edge>> {
        self.graph@
    }

    /// The vertex from which it was searched.
    pub closed spec fn source(&self) -> usize {
        self.source@
    }

    /// The distance noted for the vertex `v`.
    pub closed spec fn dist(&self, v: int) -> u128 {
        self.dist_to@[v]
    }

    /// The tables describe a finished search of `graph()` from `source()`.
    pub closed spec fn wf(&self) -> bool {
        &&& sound_lists(self.graph@)
        &&& is_tree(self.graph@, self.source@, self.dist_to@, self.edge_to@, self.hops@)
        &&& is_relaxed(self.graph@, self.dist_to@)
    }

    /// Searches `g` from `s`.
    pub fn new(g: EdgeWeightedGraph, s: usize) -> (r: Result<DijkstraSP, GraphError>)
        requires
            g.wf(),
        ensures
            s < g@.len() <==> r is Ok,
            r is Err ==> r matches Err(GraphError::OutOfRange),
            r matches Ok(paths) ==> paths.wf() && paths.graph() == g@ && paths.source() == s,
    {
        let n: usize = g.get_v();
        if s >= n {
            return Err(GraphError::OutOfRange);
        }
        let ghost adj = g@;
        proof {
            g.lemma_wf();
            lemma_u128_order(0, 0);
        }
        let mut dist_to: Vec<u128> = vec![u128::MAX; n];
        let mut edge_to: Vec<Option<Edge>> = Vec::with_capacity(n);
        let mut i: usize = 0;
        while i < n
            invariant
                i <= n,
                edge_to@.len() == i,
                forall|k: int| 0 <= k < i ==> (#[trigger] edge_to@[k]) is None,
            decreases n - i,
        {
            edge_to.push(None);
            i += 1;
        }
        dist_to[s] = 0;
        let pq = IndexMinPQ::<u128>::new(n);
        let mut tmp = DijkstraSP {
            dist_to,
            edge_to,
            pq,
            graph: Ghost(adj),
            source: Ghost(s),
            hops: Ghost(Seq::new(n as nat, |i: int| 0nat)),
        };
        let first: u128 = tmp.dist_to[s];
        let _ = tmp.pq.insert(s, first);
        let ghost mut settled: Seq<bool> = Seq::new(n as nat, |i: int| false);
        let ghost mut cnt: nat = 0;
        proof {
            assert(settled_set(settled) =~= Set::<int>::empty());
        }
        while !tmp.pq.is_empty()
            invariant
                g.wf(),
                adj == g@,
                adj.len() == n,
                lawful::<u128>(),
                tmp.graph@ == adj,
                tmp.source@ == s,
                tmp.pq.wf(),
                tmp.pq.capacity() == n,
                searching(adj, s, tmp.dist_to@, tmp.edge_to@, tmp.hops@, settled, tmp.pq@),
                cnt == settled_set(settled).len(),
                settled_set(settled).finite(),
                cnt <= n,
            decreases n - cnt,
        {
            proof {
                tmp.pq.lemma_in_range();
            }
            let ghost waiting = tmp.pq@;
            let v: usize = tmp.pq.delete_min().unwrap();
            proof {
                assert forall|j: usize| waiting.contains_key(j)
                    implies waiting[v] <= #[trigger] waiting[j] by {
                    lemma_u128_order(waiting[v], waiting[j]);
                }
                lemma_taken(adj, s, tmp.dist_to@, tmp.edge_to@, tmp.hops@, settled, waiting, v);
                assert(!settled[v as int]);
                assert(settled_set(settled.update(v as int, true)) =~= settled_set(settled).insert(v as int));
                settled = settled.update(v as int, true);
                lemma_int_range(0, n as int);
                lemma_len_subset(settled_set(settled), set_int_range(0, n as int));
                cnt = cnt + 1;
            }
            let bag = g.incident(v).unwrap();
            let deg: usize = bag.len();
            let mut k: usize = 0;
            while k < deg
                invariant
                    adj.len() == n,
                    lawful::<u128>(),
                    tmp.graph@ == adj,
                    tmp.source@ == s,
                    tmp.pq.wf(),
                    tmp.pq.capacity() == n,
                    v < n,
                    pointed(bag@) == adj[v as int],
                    deg == bag@.len(),
                    k <= deg,
                    scanning(adj, s, tmp.dist_to@, tmp.edge_to@, tmp.hops@, settled, tmp.pq@, v, k as int),
                decreases deg - k,
            {
                let e = bag.get(k);
                let ghost edge = adj[v as int][k as int];
                assert(**e == edge);
                assert(edge.touches(v) && edge.first() < n && edge.second() < n);
                proof {
                    lemma_looked(adj, s, tmp.dist_to@, tmp.edge_to@, tmp.hops@, settled, tmp.pq@, v,
                        k as int);
                }
                tmp.relax(e, v);
                k += 1;
            }
            proof {
                lemma_scanned(adj, s, tmp.dist_to@, tmp.edge_to@, tmp.hops@, settled, tmp.pq@, v);
            }
        }
        proof {
            assert(tmp.pq@.dom() =~= Set::<usize>::empty());
            lemma_finished(adj, s, tmp.dist_to@, tmp.edge_to@, tmp.hops@, settled, tmp.pq@);
        }
        Ok(tmp)
    }

    /// The least total weight of a route from the source to `v`, or
    /// `u128::MAX` where no route weighs less.
    pub fn get_distance_to(&self, v: usize) -> (r: Result<u128, GraphError>)
        requires
            self.wf(),
        ensures
            v < self.graph().len() <==> r is Ok,
            r is Err ==> r matches Err(GraphError::OutOfRange),
            r matches Ok(d) ==> d == self.dist(v as int),
            r matches Ok(d) ==> {
                &&& d < u128::MAX ==> is_least_weight(self.graph(), self.source(), v, d as nat)
                &&& d == u128::MAX ==> forall|es: Seq<Edge>|
                    leads(self.graph(), self.source(), v, es) ==> total_weight(es) >= u128::MAX
            },
    {
        if v >= self.dist_to.len() {
            return Err(GraphError::OutOfRange);
        }
        proof {
            lemma_search_meaning(self.graph@, self.source@, self.dist_to@, self.edge_to@, self.hops@, v);
        }
        Ok(self.dist_to[v])
    }

    /// Whether a route of a total weight below `u128::MAX` leads from the
    /// source to `v`.
    pub fn has_path_to(&self, v: usize) -> (r: Result<bool, GraphError>)
        requires
            self.wf(),
        ensures
            v < self.graph().len() <==> r is Ok,
            r is Err ==> r matches Err(GraphError::OutOfRange),
            r matches Ok(b) ==> (b <==> light_route_exists(self.graph(), self.source(), v)),
            r matches Ok(b) ==> (b <==> self.dist(v as int) < u128::MAX),
    {
        if v >= self.dist_to.len() {
            return Err(GraphError::OutOfRange);
        }
        proof {
            lemma_search_meaning(self.graph@, self.source@, self.dist_to@, self.edge_to@, self.hops@, v);
        }
        Ok(self.dist_to[v] < u128::MAX)
    }

    /// A route of least total weight from the source to `v`, as a stack
    /// from which the edge that leaves the source is popped first; `None`
    /// where no route weighs less than `u128::MAX`.
    pub fn path_to(&self, v: usize) -> (r: Result<Option<Stack<Edge>>, GraphError>)
        requires
            self.wf(),
        ensures
            v < self.graph().len() <==> r is Ok,
            r is Err ==> r matches Err(GraphError::OutOfRange),
            r matches Ok(None) <==> v < self.graph().len()
                && !light_route_exists(self.graph(), self.source(), v),
            r matches Ok(Some(path)) ==> leads(self.graph(), self.source(), v, path@.reverse()),
            r matches Ok(Some(path)) ==> total_weight(path@.reverse()) == self.dist(v as int),
            r matches Ok(Some(path)) ==> is_least_weight(
                self.graph(),
                self.source(),
                v,
                total_weight(path@.reverse()),
            ),
    {
        if v >= self.dist_to.len() {
            return Err(GraphError::OutOfRange);
        }
        proof {
            lemma_search_meaning(self.graph@, self.source@, self.dist_to@, self.edge_to@, self.hops@, v);
        }
        if !(self.dist_to[v] < u128::MAX) {
            return Ok(None);
        }
        let ghost adj = self.graph@;
        let mut s = Stack::<Edge>::new();
        let mut x: usize = v;
        let mut going: bool = true;
        proof {
            assert(s@.reverse() =~= Seq::<Edge>::empty());
        }
        while going
            invariant
                self.wf(),
                adj == self.graph@,
                v < adj.len(),
                x < adj.len(),
                self.dist_to@[x as int] < u128::MAX,
                leads(adj, x, v, s@.reverse()),
                total_weight(s@.reverse()) + self.dist_to@[x as int] == self.dist_to@[v as int],
                !going ==> x == self.source@,
            decreases self.hops@[x as int] + (if going { 1nat } else { 0nat }),
        {
            assert(hangs(adj, self.source@, self.dist_to@, self.edge_to@, self.hops@, x as int));
            match &self.edge_to[x] {
                Some(e) => {
                    let ghost before = s@;
                    let ghost child = x;
                    s.push(e.clone());
                    x = e.other(x).unwrap();
                    proof {
                        assert(s@.reverse() =~= seq![*e] + before.reverse());
                        lemma_route_prepend(adj, x, child, *e, before.reverse());
                    }
                },
                None => {
                    going = false;
                },
            }
        }
        Ok(Some(s))
    }

    /// Shortens the distance of the vertex at the other end of `e` where the
    /// way over `v` and `e` is shorter, and puts that vertex in the queue
    /// with its new distance.
    fn relax(&mut self, e: &Edge, v: usize)
        requires
            old(self).pq.wf(),
            old(self).pq.capacity() == old(self).dist_to@.len(),
            old(self).edge_to@.len() == old(self).dist_to@.len(),
            old(self).hops@.len() == old(self).dist_to@.len(),
            v < old(self).dist_to@.len(),
            e.touches(v),
            e.other_end(v) < old(self).dist_to@.len(),
            lawful::<u128>(),
            forall|i: int|
                0 <= i < old(self).dist_to@.len() && old(self).pq@.contains_key(i as usize)
                    ==> old(self).pq@[i as usize]
                    == #[trigger] old(self).dist_to@[i],
        ensures
            final(self).pq.wf(),
            final(self).pq.capacity() == old(self).pq.capacity(),
            final(self).graph == old(self).graph,
            final(self).source == old(self).source,
            (final(self).dist_to@, final(self).edge_to@, final(self).hops@, final(self).pq@) == relaxed(
                old(self).dist_to@,
                old(self).edge_to@,
                old(self).hops@,
                old(self).pq@,
                *e,
                v,
            ),
    {
        let w: usize = e.other(v).unwrap();
        let shorter: Option<u128> = self.dist_to[v].checked_add(e.weight());
        match shorter {
            Some(sum) => {
                if self.dist_to[w] > sum {
                    proof {
                        lemma_u128_order(sum, self.dist_to@[w as int]);
                    }
                    self.dist_to[w] = sum;
                    self.edge_to[w] = Some(e.clone());
                    self.hops = Ghost(self.hops@.update(w as int, self.hops@[v as int] + 1));
                    if self.pq.contains(w).unwrap() {
                        let _ = self.pq.decrease_key(w, sum);
                    } else {
                        let _ = self.pq.insert(w, sum);
                    }
                }
            },
            None => {},
        }
    }
}

} // verus!
