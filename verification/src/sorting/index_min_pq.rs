use crate::fundamentals::order::{
    at_most, greater, lawful, lemma_at_most_reflexive, lemma_at_most_total, lemma_at_most_transitive,
};
use vstd::prelude::*;

verus! {

/// Why an operation of the queue was refused.
#[derive(Clone, Copy, Debug, PartialEq, Eq, Structural)]
pub enum PqError {
    /// The index is not below the queue's capacity.
    OutOfRange,
    /// The index already has a key.
    Occupied,
    /// The index has no key.
    Vacant,
    /// The queue holds nothing.
    Empty,
}

/// A minimum-priority queue over the indices `0..max_n`: each index holds at
/// most one key, and the index with the least key is found in constant time.
///
/// `pq[1..=n]` is a binary heap of indices ordered by their keys, `qp` is its
/// inverse and `keys[i]` is the key of index `i`.
pub struct IndexMinPQ<T> {
    max_n: usize,
    n: usize,
    pq: Vec<usize>,
    qp: Vec<Option<usize>>,
    keys: Vec<Option<T>>,
}

/// The key stored for the index that sits at heap position `pos`.
spec fn key_at<T>(pq: Seq<usize>, keys: Seq<Option<T>>, pos: int) -> T {
    keys[pq[pos] as int]->0
}

/// The key at `parent` is at most the key at `child`.
spec fn in_order<T: Ord>(pq: Seq<usize>, keys: Seq<Option<T>>, parent: int, child: int) -> bool {
    at_most(key_at(pq, keys, parent), key_at(pq, keys, child))
}

/// Every position of the heap `pq[1..=n]` holds a key at least that of its parent.
spec fn heap_ordered<T: Ord>(pq: Seq<usize>, keys: Seq<Option<T>>, n: int) -> bool {
    forall|c: int| 2 <= c <= n ==> #[trigger] in_order(pq, keys, c / 2, c)
}

/// The heap is ordered but for the links that touch position `k`; the
/// children of `k` are no smaller than the parent of `k`.
spec fn ordered_around<T: Ord>(pq: Seq<usize>, keys: Seq<Option<T>>, n: int, k: int) -> bool {
    &&& forall|c: int| 2 <= c <= n && c != k && c / 2 != k ==> #[trigger] in_order(pq, keys, c / 2, c)
    &&& forall|c: int| 2 <= c <= n && c / 2 == k && k >= 2 ==> #[trigger] in_order(pq, keys, k / 2, c)
}

/// The heap is ordered but for the links from position `k` to its children;
/// the children of `k` are no smaller than the parent of `k`.
spec fn ordered_above<T: Ord>(pq: Seq<usize>, keys: Seq<Option<T>>, n: int, k: int) -> bool {
    &&& forall|c: int| 2 <= c <= n && c / 2 != k ==> #[trigger] in_order(pq, keys, c / 2, c)
    &&& forall|c: int| 2 <= c <= n && c / 2 == k && k >= 2 ==> #[trigger] in_order(pq, keys, k / 2, c)
}

/// The links from position `k` to its children are ordered.
spec fn ordered_below<T: Ord>(pq: Seq<usize>, keys: Seq<Option<T>>, n: int, k: int) -> bool {
    forall|c: int| 2 <= c <= n && c / 2 == k ==> #[trigger] in_order(pq, keys, k, c)
}

/// `pq[1..=n]` and `qp` are inverse to each other, and exactly the indices
/// that `qp` places have a key.
spec fn linked<T>(max_n: int, n: int, pq: Seq<usize>, qp: Seq<Option<usize>>, keys: Seq<Option<T>>) -> bool {
    &&& 0 <= n <= max_n
    &&& pq.len() == max_n + 1
    &&& qp.len() == max_n + 1
    &&& keys.len() == max_n + 1
    &&& forall|p: int| 1 <= p <= n ==> (#[trigger] pq[p]) < max_n && qp[pq[p] as int] == Some(p as usize)
    &&& forall|i: int| 0 <= i <= max_n ==> ((#[trigger] qp[i]) matches Some(p)
        ==> 1 <= p <= n && pq[p as int] == i)
    &&& forall|i: int| 0 <= i <= max_n ==> ((#[trigger] keys[i]) is Some <==> qp[i] is Some)
    &&& qp[max_n] is None
}

impl<T> View for IndexMinPQ<T> {
    type V = Map<usize, T>;

    /// The key of each index that has one.
    closed spec fn view(&self) -> Map<usize, T> {
        Map::new(
            |i: usize| i < self.keys@.len() && self.keys@[i as int] is Some,
            |i: usize| self.keys@[i as int]->0,
        )
    }
}

impl<T: Ord> IndexMinPQ<T> {
    /// The number of indices that the queue was made for.
    pub closed spec fn capacity(&self) -> nat {
        self.max_n as nat
    }

    /// The index that `min_index` reports: the one at the heap's root.
    pub closed spec fn front(&self) -> usize {
        self.pq@[1]
    }

    /// The representation is consistent: the heap and its inverse agree, the
    /// size counts the keys, and, where `T` is lawfully ordered, the heap is
    /// ordered.
    pub closed spec fn wf(&self) -> bool {
        &&& linked(self.max_n as int, self.n as int, self.pq@, self.qp@, self.keys@)
        &&& self@.dom().finite()
        &&& self@.dom().len() == self.n
        &&& lawful::<T>() ==> heap_ordered(self.pq@, self.keys@, self.n as int)
    }

    /// `i` has a key that no key in the queue precedes.
    pub open spec fn is_least(&self, i: usize) -> bool {
        &&& self@.contains_key(i)
        &&& lawful::<T>() ==> forall|j: usize| self@.contains_key(j)
            ==> at_most(self@[i], #[trigger] self@[j])
    }

    /// In a consistent queue only indices below the capacity have keys.
    pub proof fn lemma_in_range(&self)
        requires
            self.wf(),
        ensures
            forall|i: usize| self@.contains_key(i) ==> i < self.capacity(),
    {
        assert forall|i: usize| self@.contains_key(i) implies i < self.capacity() by {
            assert(self.keys@[i as int] is Some);
        }
    }

    /// A queue for the indices `0..max_n`, holding nothing.
    pub fn new(max_n: usize) -> (q: IndexMinPQ<T>)
        requires
            max_n < usize::MAX,
        ensures
            q.wf(),
            q.capacity() == max_n,
            q@ == Map::<usize, T>::empty(),
    {
        let mut pq: Vec<usize> = Vec::new();
        let mut qp: Vec<Option<usize>> = Vec::new();
        let mut keys: Vec<Option<T>> = Vec::new();
        let mut k: usize = 0;
        while k < max_n + 1
            invariant
                max_n < usize::MAX,
                k <= max_n + 1,
                pq@.len() == k,
                qp@.len() == k,
                keys@.len() == k,
                forall|i: int| 0 <= i < k ==> (#[trigger] qp@[i]) is None,
                forall|i: int| 0 <= i < k ==> (#[trigger] keys@[i]) is None,
            decreases max_n + 1 - k,
        {
            pq.push(0);
            qp.push(None);
            keys.push(None);
            k += 1;
        }
        let q = IndexMinPQ { max_n, n: 0, pq, qp, keys };
        assert(q@ =~= Map::<usize, T>::empty());
        q
    }

    /// Whether the queue holds nothing.
    pub fn is_empty(&self) -> (b: bool)
        requires
            self.wf(),
        ensures
            b == (self@.len() == 0),
            b == (self@ == Map::<usize, T>::empty()),
    {
        proof {
            if self.n == 0 {
                assert(self@.dom() =~= Set::<usize>::empty());
                assert(self@ =~= Map::<usize, T>::empty());
            }
        }
        self.n == 0
    }

    /// The number of indices that have a key.
    pub fn size(&self) -> (n: usize)
        requires
            self.wf(),
        ensures
            n == self@.len(),
    {
        self.n
    }

    /// Whether `i` is an index that the queue was made for.
    fn validate(&self, i: usize) -> (r: Result<(), PqError>)
        ensures
            i < self.capacity() <==> r is Ok,
            r is Err ==> r matches Err(PqError::OutOfRange),
    {
        if i >= self.max_n {
            Err(PqError::OutOfRange)
        } else {
            Ok(())
        }
    }

    /// Whether `i` has a key.
    pub fn contains(&self, i: usize) -> (r: Result<bool, PqError>)
        requires
            self.wf(),
        ensures
            i < self.capacity() ==> r == Ok::<bool, PqError>(self@.contains_key(i)),
            i >= self.capacity() ==> r == Err::<bool, PqError>(PqError::OutOfRange),
    {
        if self.validate(i).is_err() {
            return Err(PqError::OutOfRange);
        }
        Ok(self.qp[i].is_some())
    }

    /// Gives `i` the key `key`.
    pub fn insert(&mut self, i: usize, key: T) -> (r: Result<(), PqError>)
        requires
            old(self).wf(),
        ensures
            final(self).wf(),
            final(self).capacity() == old(self).capacity(),
            r is Ok <==> i < old(self).capacity() && !old(self)@.contains_key(i),
            r is Ok ==> final(self)@ == old(self)@.insert(i, key),
            r is Err ==> final(self)@ == old(self)@,
            r == Err::<(), PqError>(PqError::OutOfRange) <==> i >= old(self).capacity(),
            r == Err::<(), PqError>(PqError::Occupied)
                <==> i < old(self).capacity() && old(self)@.contains_key(i),
    {
        if self.validate(i).is_err() {
            return Err(PqError::OutOfRange);
        }
        if self.qp[i].is_some() {
            return Err(PqError::Occupied);
        }
        proof {
            lemma_bounded_set_len(self@.dom().insert(i), self.max_n as nat);
        }
        self.n += 1;
        let top: usize = self.n;
        self.qp[i] = Some(top);
        self.pq[top] = i;
        self.keys[i] = Some(key);
        assert(self@ =~= old(self)@.insert(i, key));
        assert(lawful::<T>() ==> ordered_around(self.pq@, self.keys@, self.n as int, top as int)) by {
            if lawful::<T>() {
                assert forall|c: int| 2 <= c <= self.n && c != top && c / 2 != top
                    implies #[trigger] in_order(
                    self.pq@,
                    self.keys@,
                    c / 2,
                    c,
                ) by {
                    assert(in_order(old(self).pq@, old(self).keys@, c / 2, c));
                }
            }
        }
        self.swim(top);
        Ok(())
    }

    /// The index whose key is least.
    pub fn min_index(&self) -> (r: Result<usize, PqError>)
        requires
            self.wf(),
        ensures
            self@.len() == 0 <==> r == Err::<usize, PqError>(PqError::Empty),
            self@.len() != 0 ==> r == Ok::<usize, PqError>(self.front()) && self.is_least(self.front()),
    {
        if self.n == 0 {
            return Err(PqError::Empty);
        }
        proof {
            self.lemma_front_least();
        }
        Ok(self.pq[1])
    }

    /// The least key, if the queue holds any.
    pub fn min_key(&self) -> (r: Option<&T>)
        requires
            self.wf(),
        ensures
            self@.len() == 0 <==> r is None,
            self@.len() != 0 ==> r == Some(&self@[self.front()]) && self.is_least(self.front()),
    {
        if self.n == 0 {
            return None;
        }
        proof {
            self.lemma_front_least();
        }
        self.keys[self.pq[1]].as_ref()
    }

    /// Takes out the index whose key is least, and returns it.
    pub fn delete_min(&mut self) -> (r: Result<usize, PqError>)
        requires
            old(self).wf(),
        ensures
            final(self).wf(),
            final(self).capacity() == old(self).capacity(),
            old(self)@.len() == 0 <==> r == Err::<usize, PqError>(PqError::Empty),
            old(self)@.len() == 0 ==> final(self)@ == old(self)@,
            old(self)@.len() != 0 ==> r == Ok::<usize, PqError>(old(self).front()) && old(self).is_least(
                old(self).front(),
            ) && final(self)@ == old(self)@.remove(old(self).front()),
    {
        if self.n == 0 {
            return Err(PqError::Empty);
        }
        proof {
            self.lemma_front_least();
        }
        let min: usize = self.pq[1];
        let last: usize = self.n;
        self.exch(1, last);
        self.qp[min] = None;
        self.keys[min] = None;
        self.n = last - 1;
        assert(self@ =~= old(self)@.remove(min));
        assert(lawful::<T>() ==> ordered_above(self.pq@, self.keys@, self.n as int, 1)) by {
            if lawful::<T>() {
                assert forall|c: int| 2 <= c <= self.n && c / 2 != 1 implies #[trigger] in_order(
                    self.pq@,
                    self.keys@,
                    c / 2,
                    c,
                ) by {
                    assert(in_order(old(self).pq@, old(self).keys@, c / 2, c));
                }
            }
        }
        self.sink(1);
        Ok(min)
    }

    /// The key of `i`, if it has one.
    pub fn key_of(&self, i: usize) -> (r: Result<Option<&T>, PqError>)
        requires
            self.wf(),
        ensures
            i >= self.capacity() <==> r == Err::<Option<&T>, PqError>(PqError::OutOfRange),
            i < self.capacity() && self@.contains_key(i) ==> r == Ok::<Option<&T>, PqError>(Some(&self@[i])),
            i < self.capacity() && !self@.contains_key(i) ==> r == Ok::<Option<&T>, PqError>(None),
    {
        if self.validate(i).is_err() {
            return Err(PqError::OutOfRange);
        }
        Ok(self.keys[i].as_ref())
    }

    /// Replaces the key of `i` by `key`, whichever of the two is larger.
    pub fn change_key(&mut self, i: usize, key: T) -> (r: Result<(), PqError>)
        requires
            old(self).wf(),
        ensures
            final(self).wf(),
            final(self).capacity() == old(self).capacity(),
            r is Ok <==> old(self)@.contains_key(i),
            r is Ok ==> final(self)@ == old(self)@.insert(i, key),
            r is Err ==> final(self)@ == old(self)@,
            r == Err::<(), PqError>(PqError::OutOfRange) <==> i >= old(self).capacity(),
            r == Err::<(), PqError>(PqError::Vacant)
                <==> i < old(self).capacity() && !old(self)@.contains_key(i),
    {
        if self.validate(i).is_err() {
            return Err(PqError::OutOfRange);
        }
        let pos: usize = match self.qp[i] {
            Some(p) => p,
            None => {
                return Err(PqError::Vacant);
            },
        };
        self.keys[i] = Some(key);
        assert(self@ =~= old(self)@.insert(i, key));
        assert(self@.dom() =~= old(self)@.dom());
        proof {
            if lawful::<T>() {
                lemma_rekeyed(old(self).keys@, self.keys@, self.pq@, self.qp@, self.max_n as int,
                    self.n as int, pos as int);
            }
        }
        self.swim(pos);
        self.sink(pos);
        Ok(())
    }

    /// Replaces the key of `i` by `key`, which is at most the one it had.
    pub fn decrease_key(&mut self, i: usize, key: T) -> (r: Result<(), PqError>)
        requires
            old(self).wf(),
            lawful::<T>() && old(self)@.contains_key(i) ==> at_most(key, old(self)@[i]),
        ensures
            final(self).wf(),
            final(self).capacity() == old(self).capacity(),
            r is Ok <==> old(self)@.contains_key(i),
            r is Ok ==> final(self)@ == old(self)@.insert(i, key),
            r is Err ==> final(self)@ == old(self)@,
            r == Err::<(), PqError>(PqError::OutOfRange) <==> i >= old(self).capacity(),
            r == Err::<(), PqError>(PqError::Vacant)
                <==> i < old(self).capacity() && !old(self)@.contains_key(i),
    {
        if self.validate(i).is_err() {
            return Err(PqError::OutOfRange);
        }
        let pos: usize = match self.qp[i] {
            Some(p) => p,
            None => {
                return Err(PqError::Vacant);
            },
        };
        self.keys[i] = Some(key);
        assert(self@ =~= old(self)@.insert(i, key));
        assert(self@.dom() =~= old(self)@.dom());
        proof {
            if lawful::<T>() {
                lemma_rekeyed(old(self).keys@, self.keys@, self.pq@, self.qp@, self.max_n as int,
                    self.n as int, pos as int);
                assert forall|c: int| 2 <= c <= self.n && c / 2 == pos implies #[trigger] in_order(
                    self.pq@,
                    self.keys@,
                    pos as int,
                    c,
                ) by {
                    assert(in_order(self.pq@, old(self).keys@, c / 2, c));
                    lemma_at_most_transitive(key, old(self)@[i], key_at(self.pq@, self.keys@, c));
                }
            }
        }
        self.swim(pos);
        Ok(())
    }

    /// Replaces the key of `i` by `key`, which is at least the one it had.
    pub fn increase_key(&mut self, i: usize, key: T) -> (r: Result<(), PqError>)
        requires
            old(self).wf(),
            lawful::<T>() && old(self)@.contains_key(i) ==> at_most(old(self)@[i], key),
        ensures
            final(self).wf(),
            final(self).capacity() == old(self).capacity(),
            r is Ok <==> old(self)@.contains_key(i),
            r is Ok ==> final(self)@ == old(self)@.insert(i, key),
            r is Err ==> final(self)@ == old(self)@,
            r == Err::<(), PqError>(PqError::OutOfRange) <==> i >= old(self).capacity(),
            r == Err::<(), PqError>(PqError::Vacant)
                <==> i < old(self).capacity() && !old(self)@.contains_key(i),
    {
        if self.validate(i).is_err() {
            return Err(PqError::OutOfRange);
        }
        let pos: usize = match self.qp[i] {
            Some(p) => p,
            None => {
                return Err(PqError::Vacant);
            },
        };
        self.keys[i] = Some(key);
        assert(self@ =~= old(self)@.insert(i, key));
        assert(self@.dom() =~= old(self)@.dom());
        proof {
            if lawful::<T>() {
                lemma_rekeyed(old(self).keys@, self.keys@, self.pq@, self.qp@, self.max_n as int,
                    self.n as int, pos as int);
                if pos >= 2 {
                    assert(in_order(self.pq@, old(self).keys@, pos as int / 2, pos as int));
                    lemma_at_most_transitive(
                        key_at(self.pq@, self.keys@, pos as int / 2),
                        old(self)@[i],
                        key,
                    );
                }
            }
        }
        self.sink(pos);
        Ok(())
    }

    /// Takes `i` and its key out of the queue.
    pub fn delete(&mut self, i: usize) -> (r: Result<(), PqError>)
        requires
            old(self).wf(),
        ensures
            final(self).wf(),
            final(self).capacity() == old(self).capacity(),
            r is Ok <==> old(self)@.contains_key(i),
            r is Ok ==> final(self)@ == old(self)@.remove(i),
            r is Err ==> final(self)@ == old(self)@,
            r == Err::<(), PqError>(PqError::OutOfRange) <==> i >= old(self).capacity(),
            r == Err::<(), PqError>(PqError::Vacant)
                <==> i < old(self).capacity() && !old(self)@.contains_key(i),
    {
        if self.validate(i).is_err() {
            return Err(PqError::OutOfRange);
        }
        let pos: usize = match self.qp[i] {
            Some(p) => p,
            None => {
                return Err(PqError::Vacant);
            },
        };
        let last: usize = self.n;
        self.exch(pos, last);
        self.qp[i] = None;
        self.keys[i] = None;
        self.n = last - 1;
        assert(self@ =~= old(self)@.remove(i));
        if pos < last {
            proof {
                if lawful::<T>() {
                    lemma_refilled(
                        old(self).pq@,
                        old(self).keys@,
                        self.pq@,
                        self.keys@,
                        last as int,
                        pos as int,
                    );
                }
            }
            self.swim(pos);
            self.sink(pos);
        } else {
            assert(lawful::<T>() ==> heap_ordered(self.pq@, self.keys@, self.n as int)) by {
                if lawful::<T>() {
                    assert forall|c: int| 2 <= c <= self.n implies #[trigger] in_order(
                        self.pq@,
                        self.keys@,
                        c / 2,
                        c,
                    ) by {
                        assert(in_order(old(self).pq@, old(self).keys@, c / 2, c));
                    }
                }
            }
        }
        Ok(())
    }

    /// In a consistent queue that holds something, no key precedes the key of
    /// the index at the root.
    proof fn lemma_front_least(&self)
        requires
            self.wf(),
            self.n >= 1,
        ensures
            self.is_least(self.front()),
    {
        if lawful::<T>() {
            assert forall|j: usize| self@.contains_key(j)
                implies at_most(self@[self.front()], #[trigger] self@[j]) by {
                let p = self.qp@[j as int]->0;
                lemma_root_least(self.pq@, self.keys@, self.n as int, p as int);
            }
        }
    }

    /// Exchanges the indices at heap positions `i` and `j`.
    fn exch(&mut self, i: usize, j: usize)
        requires
            linked(old(self).max_n as int, old(self).n as int, old(self).pq@, old(self).qp@, old(self).keys@),
            1 <= i <= old(self).n,
            1 <= j <= old(self).n,
        ensures
            linked(final(self).max_n as int, final(self).n as int, final(self).pq@, final(self).qp@,
                final(self).keys@),
            final(self).pq@ == old(self).pq@.update(i as int, old(self).pq@[j as int]).update(
                j as int,
                old(self).pq@[i as int],
            ),
            final(self).keys@ == old(self).keys@,
            final(self).n == old(self).n,
            final(self).max_n == old(self).max_n,
    {
        let a: usize = self.pq[i];
        let b: usize = self.pq[j];
        self.pq[i] = b;
        self.pq[j] = a;
        self.qp[b] = Some(i);
        self.qp[a] = Some(j);
    }

    /// Moves the index at heap position `k` towards the root until its key
    /// is no smaller than its parent's.
    fn swim(&mut self, k: usize)
        requires
            linked(old(self).max_n as int, old(self).n as int, old(self).pq@, old(self).qp@, old(self).keys@),
            1 <= k <= old(self).n,
            lawful::<T>() ==> ordered_around(old(self).pq@, old(self).keys@, old(self).n as int, k as int),
        ensures
            linked(final(self).max_n as int, final(self).n as int, final(self).pq@, final(self).qp@,
                final(self).keys@),
            final(self).keys@ == old(self).keys@,
            final(self).n == old(self).n,
            final(self).max_n == old(self).max_n,
            lawful::<T>() ==> ordered_above(final(self).pq@, final(self).keys@, final(self).n as int,
                k as int),
            lawful::<T>() && ordered_below(old(self).pq@, old(self).keys@, old(self).n as int, k as int)
                ==> heap_ordered(final(self).pq@, final(self).keys@, final(self).n as int),
    {
        let mut tmp: usize = k;
        let mut rising: bool = true;
        while rising && tmp > 1
            invariant
                linked(self.max_n as int, self.n as int, self.pq@, self.qp@, self.keys@),
                self.keys@ == old(self).keys@,
                self.n == old(self).n,
                self.max_n == old(self).max_n,
                1 <= tmp <= k <= self.n,
                lawful::<T>() ==> ordered_around(self.pq@, self.keys@, self.n as int, tmp as int),
                tmp != k ==> lawful::<T>() ==> ordered_below(self.pq@, self.keys@, self.n as int, tmp as int),
                tmp == k ==> self.pq@ == old(self).pq@,
                !rising ==> tmp > 1 && (lawful::<T>() ==> in_order(
                    self.pq@,
                    self.keys@,
                    tmp as int / 2,
                    tmp as int,
                )),
            decreases tmp + (if rising { 1nat } else { 0nat }),
        {
            let parent: usize = tmp / 2;
            if self.greater(parent, tmp) {
                let ghost before = self.pq@;
                self.exch(parent, tmp);
                proof {
                    if lawful::<T>() {
                        lemma_lift(before, self.pq@, self.keys@, self.n as int, tmp as int);
                    }
                }
                tmp = parent;
            } else {
                rising = false;
            }
        }
        proof {
            if lawful::<T>() {
                lemma_settled_above(
                    old(self).pq@,
                    self.pq@,
                    self.keys@,
                    self.n as int,
                    k as int,
                    tmp as int,
                );
            }
        }
    }

    /// Moves the index at heap position `k` towards the leaves until its key
    /// is no larger than its children's.
    fn sink(&mut self, k: usize)
        requires
            linked(old(self).max_n as int, old(self).n as int, old(self).pq@, old(self).qp@, old(self).keys@),
            1 <= k,
            lawful::<T>() ==> ordered_above(old(self).pq@, old(self).keys@, old(self).n as int, k as int),
        ensures
            linked(final(self).max_n as int, final(self).n as int, final(self).pq@, final(self).qp@,
                final(self).keys@),
            final(self).keys@ == old(self).keys@,
            final(self).n == old(self).n,
            final(self).max_n == old(self).max_n,
            lawful::<T>() ==> heap_ordered(final(self).pq@, final(self).keys@, final(self).n as int),
    {
        let mut tmp: usize = k;
        let mut falling: bool = true;
        while falling && tmp <= self.n / 2
            invariant
                linked(self.max_n as int, self.n as int, self.pq@, self.qp@, self.keys@),
                self.keys@ == old(self).keys@,
                self.n == old(self).n,
                self.max_n == old(self).max_n,
                1 <= tmp,
                falling ==> lawful::<T>() ==> ordered_above(self.pq@, self.keys@, self.n as int, tmp as int),
                !falling ==> lawful::<T>() ==> heap_ordered(self.pq@, self.keys@, self.n as int),
            decreases self.n - tmp + (if falling { 1nat } else { 0nat }),
        {
            let mut j: usize = 2 * tmp;
            if j < self.n && self.greater(j, j + 1) {
                j += 1;
            }
            if !self.greater(tmp, j) {
                proof {
                    if lawful::<T>() {
                        lemma_rests(self.pq@, self.keys@, self.n as int, tmp as int, j as int);
                    }
                }
                falling = false;
            } else {
                let ghost before = self.pq@;
                self.exch(tmp, j);
                proof {
                    if lawful::<T>() {
                        lemma_drop(before, self.pq@, self.keys@, self.n as int, tmp as int, j as int);
                    }
                }
                tmp = j;
            }
        }
    }

    /// Whether the key at heap position `i` sorts after the key at `j`.
    fn greater(&self, i: usize, j: usize) -> (r: bool)
        requires
            linked(self.max_n as int, self.n as int, self.pq@, self.qp@, self.keys@),
            1 <= i <= self.n,
            1 <= j <= self.n,
        ensures
            lawful::<T>() ==> r == !in_order(self.pq@, self.keys@, i as int, j as int),
    {
        match (&self.keys[self.pq[i]], &self.keys[self.pq[j]]) {
            (Some(a), Some(b)) => greater(a, b),
            _ => false,
        }
    }
}

/// After the key at `k` has risen over its larger parent, the heap is
/// ordered around the parent's position and below it.
proof fn lemma_lift<T: Ord>(before: Seq<usize>, after: Seq<usize>, keys: Seq<Option<T>>, n: int, k: int)
    requires
        lawful::<T>(),
        2 <= k <= n < before.len(),
        after == before.update(k / 2, before[k]).update(k, before[k / 2]),
        ordered_around(before, keys, n, k),
        !in_order(before, keys, k / 2, k),
    ensures
        ordered_around(after, keys, n, k / 2),
        ordered_below(after, keys, n, k / 2),
{
    let p = k / 2;
    let a = key_at(before, keys, p);
    let b = key_at(before, keys, k);
    lemma_at_most_total(a, b);
    assert forall|c: int| 2 <= c <= n && c / 2 == p implies #[trigger] in_order(after, keys, p, c) by {
        if c != k {
            assert(in_order(before, keys, c / 2, c));
            lemma_at_most_transitive(b, a, key_at(before, keys, c));
        }
    }
    assert forall|c: int| 2 <= c <= n && c != p && c / 2 != p implies #[trigger] in_order(
        after,
        keys,
        c / 2,
        c,
    ) by {
        if c / 2 == k {
            assert(in_order(before, keys, k / 2, c));
        } else {
            assert(in_order(before, keys, c / 2, c));
        }
    }
    assert forall|c: int| 2 <= c <= n && c / 2 == p && p >= 2 implies #[trigger] in_order(
        after,
        keys,
        p / 2,
        c,
    ) by {
        assert(in_order(before, keys, p / 2, p));
        if c != k {
            assert(in_order(before, keys, c / 2, c));
            lemma_at_most_transitive(key_at(before, keys, p / 2), a, key_at(before, keys, c));
        }
    }
}

/// Once the rising key rests at `at`, the heap is ordered above the position
/// `k` it started from, and wholly ordered where the links below `k` were.
proof fn lemma_settled_above<T: Ord>(
    start: Seq<usize>,
    pq: Seq<usize>,
    keys: Seq<Option<T>>,
    n: int,
    k: int,
    at: int,
)
    requires
        lawful::<T>(),
        1 <= at <= k <= n,
        ordered_around(pq, keys, n, at),
        at != k ==> ordered_below(pq, keys, n, at),
        at == k ==> pq == start,
        at == 1 || in_order(pq, keys, at / 2, at),
    ensures
        ordered_above(pq, keys, n, k),
        ordered_below(start, keys, n, k) ==> heap_ordered(pq, keys, n),
{
    if at != k || ordered_below(start, keys, n, k) {
        assert forall|c: int| 2 <= c <= n implies #[trigger] in_order(pq, keys, c / 2, c) by {
            if c / 2 == at {
                assert(in_order(pq, keys, at, c));
            }
        }
        assert forall|c: int| 2 <= c <= n && c / 2 == k && k >= 2 implies #[trigger] in_order(
            pq,
            keys,
            k / 2,
            c,
        ) by {
            assert(in_order(pq, keys, k / 2, k));
            assert(in_order(pq, keys, c / 2, c));
            lemma_at_most_transitive(key_at(pq, keys, k / 2), key_at(pq, keys, k), key_at(pq, keys, c));
        }
    }
}

/// Where the key at `k` is at most that of its smaller child `j`, nothing is
/// left to order.
proof fn lemma_rests<T: Ord>(pq: Seq<usize>, keys: Seq<Option<T>>, n: int, k: int, j: int)
    requires
        lawful::<T>(),
        1 <= k,
        2 * k <= n,
        j == 2 * k || j == 2 * k + 1,
        j <= n,
        ordered_above(pq, keys, n, k),
        in_order(pq, keys, k, j),
        j == 2 * k && j < n ==> in_order(pq, keys, j, j + 1),
        j == 2 * k + 1 ==> !in_order(pq, keys, j - 1, j),
    ensures
        heap_ordered(pq, keys, n),
{
    assert forall|c: int| 2 <= c <= n implies #[trigger] in_order(pq, keys, c / 2, c) by {
        if c / 2 == k && c != j {
            let x = key_at(pq, keys, k);
            let y = key_at(pq, keys, j);
            let z = key_at(pq, keys, c);
            lemma_at_most_total(z, y);
            lemma_at_most_transitive(x, y, z);
        }
    }
}

/// After the key at `k` has fallen below its smaller child `j`, the heap is
/// ordered above `j`.
proof fn lemma_drop<T: Ord>(before: Seq<usize>, after: Seq<usize>, keys: Seq<Option<T>>, n: int, k: int,
    j: int)
    requires
        lawful::<T>(),
        1 <= k,
        2 * k <= n < before.len(),
        j == 2 * k || j == 2 * k + 1,
        j <= n,
        after == before.update(k, before[j]).update(j, before[k]),
        ordered_above(before, keys, n, k),
        !in_order(before, keys, k, j),
        j == 2 * k && j < n ==> in_order(before, keys, j, j + 1),
        j == 2 * k + 1 ==> !in_order(before, keys, j - 1, j),
    ensures
        ordered_above(after, keys, n, j),
{
    let a = key_at(before, keys, k);
    let b = key_at(before, keys, j);
    lemma_at_most_total(a, b);
    assert forall|c: int| 2 <= c <= n && c / 2 != j implies #[trigger] in_order(after, keys, c / 2, c) by {
        if c / 2 == k {
            if c != j {
                let z = key_at(before, keys, c);
                lemma_at_most_total(z, b);
            }
        } else if c == k {
            assert(in_order(before, keys, k / 2, j));
        } else {
            assert(in_order(before, keys, c / 2, c));
        }
    }
    assert forall|c: int| 2 <= c <= n && c / 2 == j && j >= 2 implies #[trigger] in_order(
        after,
        keys,
        j / 2,
        c,
    ) by {
        assert(in_order(before, keys, c / 2, c));
    }
}

/// In an ordered heap the key at the root is at most the key at any position.
proof fn lemma_root_least<T: Ord>(pq: Seq<usize>, keys: Seq<Option<T>>, n: int, p: int)
    requires
        lawful::<T>(),
        heap_ordered(pq, keys, n),
        1 <= p <= n,
    ensures
        in_order(pq, keys, 1, p),
    decreases p,
{
    if p == 1 {
        lemma_at_most_reflexive(key_at(pq, keys, 1));
    } else {
        lemma_root_least(pq, keys, n, p / 2);
        assert(in_order(pq, keys, p / 2, p));
        lemma_at_most_transitive(key_at(pq, keys, 1), key_at(pq, keys, p / 2), key_at(pq, keys, p));
    }
}

/// A finite set of indices below `bound` has at most `bound` members.
proof fn lemma_bounded_set_len(s: Set<usize>, bound: nat)
    requires
        s.finite(),
        forall|x: usize| s.contains(x) ==> x < bound,
    ensures
        s.len() <= bound,
    decreases bound,
{
    if bound == 0 {
        assert(s =~= Set::<usize>::empty());
    } else {
        let top = (bound - 1) as usize;
        if bound - 1 <= usize::MAX && s.contains(top) {
            lemma_bounded_set_len(s.remove(top), (bound - 1) as nat);
        } else {
            lemma_bounded_set_len(s, (bound - 1) as nat);
        }
    }
}

/// After the key of the index at position `pos` of an ordered heap has been
/// replaced, the heap is still ordered around `pos`.
proof fn lemma_rekeyed<T: Ord>(
    before: Seq<Option<T>>,
    after: Seq<Option<T>>,
    pq: Seq<usize>,
    qp: Seq<Option<usize>>,
    max_n: int,
    n: int,
    pos: int,
)
    requires
        lawful::<T>(),
        linked(max_n, n, pq, qp, before),
        max_n <= usize::MAX,
        heap_ordered(pq, before, n),
        1 <= pos <= n,
        after.len() == before.len(),
        forall|i: int| 0 <= i < before.len() && i != pq[pos] ==> after[i] == before[i],
    ensures
        ordered_around(pq, after, n, pos),
        forall|c: int| 1 <= c <= n && c != pos ==> key_at(pq, after, c) == key_at(pq, before, c),
{
    assert forall|c: int| 1 <= c <= n && c != pos implies key_at(pq, after, c) == key_at(pq, before, c) by {
        assert(qp[pq[c] as int] == Some(c as usize));
        assert(qp[pq[pos] as int] == Some(pos as usize));
    }
    assert forall|c: int| 2 <= c <= n && c != pos && c / 2 != pos implies #[trigger] in_order(
        pq,
        after,
        c / 2,
        c,
    ) by {
        assert(in_order(pq, before, c / 2, c));
    }
    assert forall|c: int| 2 <= c <= n && c / 2 == pos && pos >= 2 implies #[trigger] in_order(
        pq,
        after,
        pos / 2,
        c,
    ) by {
        assert(in_order(pq, before, pos / 2, pos));
        assert(in_order(pq, before, c / 2, c));
        lemma_at_most_transitive(key_at(pq, before, pos / 2), key_at(pq, before, pos), key_at(pq, before, c));
    }
}

/// After the last position of an ordered heap has been moved into position
/// `pos` and the heap shortened by one, it is ordered around `pos`.
proof fn lemma_refilled<T: Ord>(
    before_pq: Seq<usize>,
    before_keys: Seq<Option<T>>,
    pq: Seq<usize>,
    keys: Seq<Option<T>>,
    last: int,
    pos: int,
)
    requires
        lawful::<T>(),
        heap_ordered(before_pq, before_keys, last),
        1 <= pos < last < before_pq.len(),
        pq.len() == before_pq.len(),
        forall|c: int| 1 <= c < last && c != pos ==> pq[c] == before_pq[c] && key_at(pq, keys, c) == key_at(
            before_pq,
            before_keys,
            c,
        ),
    ensures
        ordered_around(pq, keys, last - 1, pos),
{
    assert forall|c: int| 2 <= c <= last - 1 && c != pos && c / 2 != pos implies #[trigger] in_order(
        pq,
        keys,
        c / 2,
        c,
    ) by {
        assert(in_order(before_pq, before_keys, c / 2, c));
    }
    assert forall|c: int| 2 <= c <= last - 1 && c / 2 == pos && pos >= 2 implies #[trigger] in_order(
        pq,
        keys,
        pos / 2,
        c,
    ) by {
        assert(in_order(before_pq, before_keys, pos / 2, pos));
        assert(in_order(before_pq, before_keys, c / 2, c));
        lemma_at_most_transitive(
            key_at(before_pq, before_keys, pos / 2),
            key_at(before_pq, before_keys, pos),
            key_at(before_pq, before_keys, c),
        );
    }
}

} // verus!
