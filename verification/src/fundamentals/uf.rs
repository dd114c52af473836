use vstd::prelude::*;
use vstd::set_lib::{lemma_int_range, lemma_len_subset, set_int_range};

verus! {

/// A partition of `0..n` into classes that can be merged: every element
/// belongs to a tree whose root stands for its class, and the smaller of two
/// trees is hung below the larger.
pub struct WeightedQuickUnionUF {
    parent: Vec<usize>,
    size: Vec<usize>,
    count: usize,
    rep: Ghost<Seq<usize>>,
    depth: Ghost<Seq<nat>>,
}

/// The elements that stand for themselves: one for each class.
pub open spec fn roots(reps: Seq<usize>) -> Set<int> {
    Set::new(|i: int| 0 <= i < reps.len() && reps[i] == i)
}

/// The elements that `r` stands for.
pub open spec fn class_of(reps: Seq<usize>, r: int) -> Set<int> {
    Set::new(|i: int| 0 <= i < reps.len() && reps[i] == r)
}

/// Every element is stood for by an element that stands for itself.
pub open spec fn canonical(reps: Seq<usize>) -> bool {
    forall|i: int| 0 <= i < reps.len()
        ==> (#[trigger] reps[i]) < reps.len() && reps[reps[i] as int] == reps[i]
}

/// `reps` after the classes of `a` and `b` have become one, for which
/// `winner` stands.
pub open spec fn merged(reps: Seq<usize>, a: usize, b: usize, winner: usize) -> Seq<usize> {
    Seq::new(
        reps.len(),
        |i: int|
            if reps[i] == a || reps[i] == b {
                winner
            } else {
                reps[i]
            },
    )
}

impl View for WeightedQuickUnionUF {
    type V = Seq<usize>;

    /// For each element, the element that stands for its class.
    closed spec fn view(&self) -> Seq<usize> {
        self.rep@
    }
}

impl WeightedQuickUnionUF {
    /// The trees agree with the classes they stand for, every path to a root
    /// is finite, each root knows the size of its class, and the classes are
    /// counted.
    pub closed spec fn wf(&self) -> bool {
        let n = self.parent@.len();
        &&& self.size@.len() == n
        &&& self.rep@.len() == n
        &&& self.depth@.len() == n
        &&& forall|i: int|
            #![trigger self.parent@[i]]
            #![trigger self.rep@[i]]
            #![trigger self.size@[i]]
            0 <= i < n ==> {
                &&& self.parent@[i] < n
                &&& self.rep@[i] < n
                &&& self.rep@[self.parent@[i] as int] == self.rep@[i]
                &&& self.parent@[self.rep@[i] as int] == self.rep@[i]
                &&& (self.parent@[i] == i <==> self.rep@[i] == i)
                &&& (self.parent@[i] != i ==> self.depth@[self.parent@[i] as int] < self.depth@[i])
                &&& (self.parent@[i] == i ==> self.size@[i] == class_of(self.rep@, i).len())
            }
        &&& self.count == roots(self.rep@).len()
    }

    /// The number of classes.
    pub closed spec fn components(&self) -> nat {
        self.count as nat
    }

    /// In a consistent structure the representatives are canonical and the
    /// classes are as many as the roots.
    pub proof fn lemma_wf(&self)
        requires
            self.wf(),
        ensures
            canonical(self@),
            self.components() == roots(self@).len(),
    {
    }

    /// The partition of `0..n` in which every element is alone.
    pub fn new(n: usize) -> (uf: WeightedQuickUnionUF)
        ensures
            uf.wf(),
            uf@ == Seq::new(n as nat, |i: int| i as usize),
            uf.components() == n,
    {
        let mut parent: Vec<usize> = Vec::with_capacity(n);
        let mut size: Vec<usize> = Vec::with_capacity(n);
        let mut i: usize = 0;
        while i < n
            invariant
                i <= n,
                parent@.len() == i,
                size@.len() == i,
                forall|k: int| 0 <= k < i ==> (#[trigger] parent@[k]) == k && size@[k] == 1,
            decreases n - i,
        {
            parent.push(i);
            size.push(1);
            i += 1;
        }
        let ghost rep = Seq::new(n as nat, |i: int| i as usize);
        let uf = WeightedQuickUnionUF {
            parent,
            size,
            count: n,
            rep: Ghost(rep),
            depth: Ghost(Seq::new(n as nat, |i: int| 0nat)),
        };
        proof {
            lemma_int_range(0, n as int);
            assert(roots(rep) =~= set_int_range(0, n as int));
            assert forall|k: int| 0 <= k < n implies class_of(rep, k).len() == 1 by {
                assert(class_of(rep, k) =~= Set::<int>::empty().insert(k));
            }
        }
        uf
    }

    /// The number of classes.
    pub fn count(&self) -> (c: usize)
        requires
            self.wf(),
        ensures
            c == self.components(),
            c == roots(self@).len(),
    {
        self.count
    }

    /// The element that stands for the class of `p`.
    pub fn find(&self, p: usize) -> (r: usize)
        requires
            self.wf(),
            p < self@.len(),
        ensures
            r == self@[p as int],
    {
        let mut cur: usize = p;
        while self.parent[cur] != cur
            invariant
                self.wf(),
                cur < self.parent@.len(),
                self.rep@[cur as int] == self.rep@[p as int],
            decreases self.depth@[cur as int],
        {
            cur = self.parent[cur];
        }
        cur
    }

    /// Whether `p` and `q` are in one class.
    pub fn connected(&self, p: usize, q: usize) -> (b: bool)
        requires
            self.wf(),
            p < self@.len(),
            q < self@.len(),
        ensures
            b == (self@[p as int] == self@[q as int]),
    {
        self.find(p) == self.find(q)
    }

    /// Makes the classes of `p` and `q` one.
    pub fn union(&mut self, p: usize, q: usize)
        requires
            old(self).wf(),
            p < old(self)@.len(),
            q < old(self)@.len(),
        ensures
            final(self).wf(),
            final(self)@.len() == old(self)@.len(),
            old(self)@[p as int] == old(self)@[q as int] ==> final(self)@ == old(self)@,
            old(self)@[p as int] == old(self)@[q as int] ==> final(self).components() == old(self).components(),
            old(self)@[p as int] != old(self)@[q as int] ==> final(self).components() + 1 == old(self).components(),
            old(self)@[p as int] != old(self)@[q as int] ==> {
                let a = old(self)@[p as int];
                let b = old(self)@[q as int];
                final(self)@ == merged(old(self)@, a, b, a) || final(self)@ == merged(old(self)@, a, b, b)
            },
    {
        let rp: usize = self.find(p);
        let rq: usize = self.find(q);
        if rp == rq {
            return;
        }
        let (small, large): (usize, usize) = if self.size[rp] < self.size[rq] {
            (rp, rq)
        } else {
            (rq, rp)
        };
        let total: usize = self.parent.len();
        let ghost n = total as int;
        let ghost before = self.rep@;
        let ghost after = merged(before, rp, rq, large);
        let ghost lift = self.depth@[large as int] + 1;
        let ghost levels = Seq::new(
            n as nat,
            |i: int|
                if before[i] == small {
                    self.depth@[i] + lift
                } else {
                    self.depth@[i]
                },
        );
        proof {
            let a = class_of(before, small as int);
            let b = class_of(before, large as int);
            lemma_int_range(0, n);
            vstd::set_lib::lemma_set_subset_finite(set_int_range(0, n), a);
            vstd::set_lib::lemma_set_subset_finite(set_int_range(0, n), b);
            vstd::set_lib::lemma_set_subset_finite(set_int_range(0, n), a + b);
            vstd::set_lib::lemma_set_disjoint_lens(a, b);
            assert(a.disjoint(b));
            lemma_len_subset(a + b, set_int_range(0, n));
            assert(a.len() + b.len() == (a + b).len() <= n);
            assert(self.size@[small as int] == a.len());
            assert(self.size@[large as int] == b.len());
            assert(class_of(after, large as int) =~= a + b);
            assert forall|r: int| 0 <= r < n && r != small && r != large && before[r] == r
                implies class_of(after, r)
                =~= class_of(before, r) by {}
            vstd::set_lib::lemma_set_subset_finite(set_int_range(0, n), roots(before));
            assert(roots(after) =~= roots(before).remove(small as int));
            assert(roots(before).contains(small as int));
        }
        let grown: usize = self.size[large] + self.size[small];
        self.parent[small] = large;
        self.size[large] = grown;
        self.count = self.count - 1;
        self.rep = Ghost(after);
        self.depth = Ghost(levels);
    }
}

/// The elements before which no element of their class stands: one for each
/// class.
pub open spec fn least_members(reps: Seq<usize>) -> Set<int> {
    Set::new(|v: int| 0 <= v < reps.len() && forall|u: int| 0 <= u < v ==> #[trigger] reps[u] != reps[v])
}

/// The first element from `i` on for which `r` stands; the length of `reps`
/// where there is none.
pub open spec fn first_of(reps: Seq<usize>, r: int, i: int) -> int
    decreases reps.len() - i,
{
    if i < 0 || i >= reps.len() {
        reps.len() as int
    } else if reps[i] == r {
        i
    } else {
        first_of(reps, r, i + 1)
    }
}

/// `first_of` finds the first element for which `r` stands, if any is left.
pub proof fn lemma_first_of(reps: Seq<usize>, r: int, i: int)
    requires
        0 <= i <= reps.len(),
    ensures
        i <= first_of(reps, r, i) <= reps.len(),
        first_of(reps, r, i) < reps.len() ==> reps[first_of(reps, r, i)] == r,
        forall|j: int| i <= j < first_of(reps, r, i) ==> reps[j] != r,
    decreases reps.len() - i,
{
    if i < reps.len() && reps[i] != r {
        lemma_first_of(reps, r, i + 1);
    }
}

/// There are as many classes, counted by their roots, as there are elements
/// that come first in their class.
pub proof fn lemma_roots_count_classes(reps: Seq<usize>)
    requires
        canonical(reps),
    ensures
        roots(reps).finite(),
        least_members(reps).finite(),
        roots(reps).len() == least_members(reps).len(),
{
    let n = reps.len() as int;
    let f = |r: int| first_of(reps, r, 0);
    lemma_int_range(0, n);
    vstd::set_lib::lemma_set_subset_finite(set_int_range(0, n), roots(reps));
    assert forall|r1: int, r2: int| roots(reps).contains(r1) && roots(reps).contains(r2)
        && #[trigger] f(r1) == #[trigger] f(
        r2,
    ) implies r1 == r2 by {
        lemma_first_of(reps, r1, 0);
        lemma_first_of(reps, r2, 0);
    }
    assert(vstd::relations::injective_on(f, roots(reps)));
    assert forall|v: int| roots(reps).map(f).contains(v) <==> least_members(reps).contains(v) by {
        if roots(reps).map(f).contains(v) {
            let r = choose|r: int| roots(reps).contains(r) && f(r) == v;
            lemma_first_of(reps, r, 0);
            assert(least_members(reps).contains(v));
        }
        if least_members(reps).contains(v) {
            let r = reps[v] as int;
            lemma_first_of(reps, r, 0);
            assert(roots(reps).contains(r));
            assert(f(r) == v);
        }
    }
    assert(roots(reps).map(f) =~= least_members(reps));
    vstd::set_lib::lemma_map_size(roots(reps), least_members(reps), f);
}

/// Where all elements are in one class, one element stands for them all.
pub proof fn lemma_single_class(reps: Seq<usize>, a: int, b: int)
    requires
        canonical(reps),
        roots(reps).len() <= 1,
        0 <= a < reps.len(),
        0 <= b < reps.len(),
    ensures
        reps[a] == reps[b],
{
    let n = reps.len() as int;
    lemma_int_range(0, n);
    vstd::set_lib::lemma_set_subset_finite(set_int_range(0, n), roots(reps));
    if reps[a] != reps[b] {
        let two = Set::<int>::empty().insert(reps[a] as int).insert(reps[b] as int);
        assert(two.subset_of(roots(reps)));
        lemma_len_subset(two, roots(reps));
    }
}

} // verus!
