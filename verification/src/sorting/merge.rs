use crate::fundamentals::order::{
    at_most, lawful, lemma_at_most_reflexive, lemma_at_most_total, lemma_at_most_transitive, precedes, sorted,
    sorted_between,
};
use vstd::prelude::*;

verus! {

/// Sorts `list` in ascending order, by merging.
pub fn sort<T>(list: &mut Vec<T>) where T: Copy, T: Ord
    ensures
        final(list)@.to_multiset() == old(list)@.to_multiset(),
        final(list)@.len() == old(list)@.len(),
        lawful::<T>() ==> sorted(final(list)@),
{
    let n: usize = list.len();
    if n == 0 {
        return;
    }
    let mut aux: Vec<T> = duplicate(list);
    m_sort(list, &mut aux, 0, n - 1);
    assert(list@.subrange(0, n as int) =~= list@);
    assert(old(list)@.subrange(0, n as int) =~= old(list)@);
}

/// A sorted copy of `list`, which stays as it is.
pub fn index_sort<T>(list: &Vec<T>) -> (index: Vec<T>) where T: Copy, T: Ord
    ensures
        index@.to_multiset() == list@.to_multiset(),
        index@.len() == list@.len(),
        lawful::<T>() ==> sorted(index@),
{
    let mut index: Vec<T> = duplicate(list);
    sort(&mut index);
    index
}

/// Sorts the items of `list` from `lo` to `hi`, both included.
fn m_sort<T>(list: &mut Vec<T>, aux: &mut Vec<T>, lo: usize, hi: usize) where T: Copy, T: Ord
    requires
        hi < old(list)@.len(),
        old(aux)@.len() == old(list)@.len(),
    ensures
        final(list)@.len() == old(list)@.len(),
        final(aux)@.len() == old(list)@.len(),
        forall|k: int| 0 <= k < old(list)@.len() && !(lo <= k <= hi) ==> final(list)@[k] == old(list)@[k],
        lo <= hi ==> final(list)@.subrange(lo as int, hi + 1).to_multiset() == old(list)@.subrange(
            lo as int,
            hi + 1,
        ).to_multiset(),
        lo > hi ==> final(list)@ == old(list)@,
        lawful::<T>() ==> sorted_between(final(list)@, lo as int, hi + 1),
    decreases hi - lo,
{
    if hi <= lo {
        return;
    }
    let mid: usize = lo + (hi - lo) / 2;
    let ghost start = list@;
    m_sort(list, aux, lo, mid);
    let ghost half = list@;
    m_sort(list, aux, mid + 1, hi);
    let ghost both = list@;
    proof {
        assert(both.subrange(lo as int, mid + 1) =~= half.subrange(lo as int, mid + 1));
        assert(half.subrange(mid + 1, hi + 1) =~= start.subrange(mid + 1, hi + 1));
        lemma_split_items(both, lo as int, mid + 1, hi + 1);
        lemma_split_items(start, lo as int, mid + 1, hi + 1);
    }
    merge(list, aux, lo, mid, hi);
}

/// Merges the sorted runs `lo..=mid` and `mid+1..=hi` of `list` into one.
fn merge<T>(list: &mut Vec<T>, aux: &mut Vec<T>, lo: usize, mid: usize, hi: usize) where T: Copy, T: Ord
    requires
        lo <= mid < hi < old(list)@.len(),
        old(aux)@.len() == old(list)@.len(),
        lawful::<T>() ==> sorted_between(old(list)@, lo as int, mid + 1),
        lawful::<T>() ==> sorted_between(old(list)@, mid + 1, hi + 1),
    ensures
        final(list)@.len() == old(list)@.len(),
        final(aux)@.len() == old(list)@.len(),
        forall|k: int| 0 <= k < old(list)@.len() && !(lo <= k <= hi) ==> final(list)@[k] == old(list)@[k],
        final(list)@.subrange(lo as int, hi + 1).to_multiset() == old(list)@.subrange(
            lo as int,
            hi + 1,
        ).to_multiset(),
        lawful::<T>() ==> sorted_between(final(list)@, lo as int, hi + 1),
{
    let n: usize = list.len();
    let mut c: usize = lo;
    while c <= hi
        invariant
            lo <= c <= hi + 1,
            hi < n == list@.len(),
            list@ == old(list)@,
            aux@.len() == list@.len(),
            forall|k: int| lo <= k < c ==> aux@[k] == list@[k],
        decreases hi + 1 - c,
    {
        aux[c] = list[c];
        c += 1;
    }
    let ghost src = aux@;
    let mut i: usize = lo;
    let mut j: usize = mid + 1;
    let mut k: usize = lo;
    proof {
        broadcast use vstd::multiset::group_multiset_axioms;
        assert(list@.subrange(lo as int, lo as int) =~= Seq::<T>::empty());
        assert(src.subrange(lo as int, lo as int) =~= Seq::<T>::empty());
        assert(src.subrange(mid + 1, mid + 1) =~= Seq::<T>::empty());
        assert(Seq::<T>::empty() + Seq::<T>::empty() =~= Seq::<T>::empty());
        vstd::seq_lib::lemma_multiset_commutative(Seq::<T>::empty(), Seq::<T>::empty());
        assert(list@.subrange(lo as int, k as int).to_multiset()
            =~= src.subrange(lo as int, i as int).to_multiset().add(
            src.subrange(mid + 1, j as int).to_multiset(),
        ));
    }
    while k <= hi
        invariant
            n == list@.len(),
            lo <= i <= mid + 1,
            mid + 1 <= j <= hi + 1,
            lo <= k <= hi + 1,
            k - lo == (i - lo) + (j - (mid + 1)),
            lo <= mid < hi < list@.len(),
            list@.len() == old(list)@.len(),
            aux@ == src,
            src.len() == list@.len(),
            forall|x: int| lo <= x <= hi ==> src[x] == old(list)@[x],
            forall|x: int| 0 <= x < list@.len() && !(lo <= x < k) ==> list@[x] == old(list)@[x],
            list@.subrange(lo as int, k as int).to_multiset()
                == src.subrange(lo as int, i as int).to_multiset().add(
                src.subrange(mid + 1, j as int).to_multiset(),
            ),
            lawful::<T>() ==> sorted_between(src, lo as int, mid + 1),
            lawful::<T>() ==> sorted_between(src, mid + 1, hi + 1),
            lawful::<T>() ==> sorted_between(list@, lo as int, k as int),
            lawful::<T>() ==> forall|x: int, y: int|
                lo <= x < k && i <= y <= mid ==> at_most(#[trigger] list@[x], #[trigger] src[y]),
            lawful::<T>() ==> forall|x: int, y: int|
                lo <= x < k && j <= y <= hi ==> at_most(#[trigger] list@[x], #[trigger] src[y]),
        decreases hi + 1 - k,
    {
        let ghost before = list@;
        let from_right: bool = if i > mid {
            true
        } else if j > hi {
            false
        } else {
            less(&aux[j], &aux[i])
        };
        if from_right {
            list[k] = aux[j];
            proof {
                lemma_taken(before, list@, src, lo as int, k as int, i as int, mid + 1, j as int, true);
                if lawful::<T>() {
                    if i <= mid {
                        lemma_at_most_total(src[j as int], src[i as int]);
                        assert forall|y: int| i <= y <= mid
                            implies at_most(src[j as int], #[trigger] src[y]) by {
                            if y > i {
                                assert(at_most(src[i as int], src[y]));
                                lemma_at_most_transitive(src[j as int], src[i as int], src[y]);
                            }
                        }
                    }
                    lemma_at_most_reflexive(src[j as int]);
                    assert forall|x: int, y: int| lo <= x < k + 1 && j + 1 <= y <= hi implies at_most(
                        #[trigger] list@[x],
                        #[trigger] src[y],
                    ) by {
                        if x == k {
                            assert(at_most(src[j as int], src[y]));
                        } else {
                            assert(list@[x] == before[x]);
                        }
                    }
                    assert forall|x: int, y: int| lo <= x < k + 1 && i <= y <= mid implies at_most(
                        #[trigger] list@[x],
                        #[trigger] src[y],
                    ) by {
                        if x != k {
                            assert(list@[x] == before[x]);
                        }
                    }
                    assert forall|x: int, y: int| lo <= x < y < k + 1 implies at_most(
                        #[trigger] list@[x],
                        #[trigger] list@[y],
                    ) by {
                        assert(list@[x] == before[x]);
                        if y == k {
                            assert(at_most(before[x], src[j as int]));
                        } else {
                            assert(list@[y] == before[y]);
                        }
                    }
                }
            }
            j += 1;
        } else {
            list[k] = aux[i];
            proof {
                lemma_taken(before, list@, src, lo as int, k as int, i as int, mid + 1, j as int, false);
                if lawful::<T>() {
                    if j <= hi {
                        lemma_at_most_total(src[j as int], src[i as int]);
                        assert forall|y: int| j <= y <= hi
                            implies at_most(src[i as int], #[trigger] src[y]) by {
                            if y > j {
                                assert(at_most(src[j as int], src[y]));
                                lemma_at_most_transitive(src[i as int], src[j as int], src[y]);
                            }
                        }
                    }
                    lemma_at_most_reflexive(src[i as int]);
                    assert forall|x: int, y: int| lo <= x < k + 1 && i + 1 <= y <= mid implies at_most(
                        #[trigger] list@[x],
                        #[trigger] src[y],
                    ) by {
                        if x == k {
                            assert(at_most(src[i as int], src[y]));
                        } else {
                            assert(list@[x] == before[x]);
                        }
                    }
                    assert forall|x: int, y: int| lo <= x < k + 1 && j <= y <= hi implies at_most(
                        #[trigger] list@[x],
                        #[trigger] src[y],
                    ) by {
                        if x != k {
                            assert(list@[x] == before[x]);
                        }
                    }
                    assert forall|x: int, y: int| lo <= x < y < k + 1 implies at_most(
                        #[trigger] list@[x],
                        #[trigger] list@[y],
                    ) by {
                        assert(list@[x] == before[x]);
                        if y == k {
                            assert(at_most(before[x], src[i as int]));
                        } else {
                            assert(list@[y] == before[y]);
                        }
                    }
                }
            }
            i += 1;
        }
        k += 1;
    }
    proof {
        assert(src.subrange(lo as int, mid + 1) =~= old(list)@.subrange(lo as int, mid + 1));
        assert(src.subrange(mid + 1, hi + 1) =~= old(list)@.subrange(mid + 1, hi + 1));
        lemma_split_items(old(list)@, lo as int, mid + 1, hi + 1);
    }
}

/// A copy of `list`.
fn duplicate<T: Copy>(list: &Vec<T>) -> (copy: Vec<T>)
    ensures
        copy@ == list@,
{
    let mut copy: Vec<T> = Vec::with_capacity(list.len());
    let mut i: usize = 0;
    while i < list.len()
        invariant
            i <= list@.len(),
            copy@ == list@.subrange(0, i as int),
        decreases list@.len() - i,
    {
        copy.push(list[i]);
        assert(copy@ =~= list@.subrange(0, i + 1));
        i += 1;
    }
    assert(copy@ =~= list@);
    copy
}

/// Whether `v` sorts strictly before `w`.
fn less<T: Ord>(v: &T, w: &T) -> (r: bool)
    ensures
        lawful::<T>() ==> r == precedes(*v, *w),
{
    crate::fundamentals::order::less(v, w)
}

/// The items of a range are those of its two parts.
proof fn lemma_split_items<T>(s: Seq<T>, lo: int, mid: int, hi: int)
    requires
        0 <= lo <= mid <= hi <= s.len(),
    ensures
        s.subrange(lo, hi).to_multiset()
            == s.subrange(lo, mid).to_multiset().add(s.subrange(mid, hi).to_multiset()),
{
    assert(s.subrange(lo, hi) =~= s.subrange(lo, mid) + s.subrange(mid, hi));
    vstd::seq_lib::lemma_multiset_commutative(s.subrange(lo, mid), s.subrange(mid, hi));
}

/// Writing the next item of one run behind the merged items adds it to them.
proof fn lemma_taken<T>(
    before: Seq<T>,
    after: Seq<T>,
    src: Seq<T>,
    lo: int,
    k: int,
    i: int,
    first: int,
    j: int,
    from_right: bool,
)
    requires
        0 <= lo <= k < before.len(),
        before.len() == src.len(),
        lo <= i <= first <= j <= src.len(),
        from_right ==> j < src.len(),
        !from_right ==> i < first,
        after == before.update(k, if from_right { src[j] } else { src[i] }),
        before.subrange(lo, k).to_multiset() == src.subrange(lo, i).to_multiset().add(
            src.subrange(first, j).to_multiset(),
        ),
    ensures
        from_right ==> after.subrange(lo, k + 1).to_multiset() == src.subrange(lo, i).to_multiset().add(
            src.subrange(first, j + 1).to_multiset(),
        ),
        !from_right ==> after.subrange(lo, k + 1).to_multiset() == src.subrange(lo, i + 1).to_multiset().add(
            src.subrange(first, j).to_multiset(),
        ),
{
    broadcast use vstd::seq_lib::to_multiset_build;
    broadcast use vstd::multiset::group_multiset_axioms;

    let x = if from_right { src[j] } else { src[i] };
    assert(after.subrange(lo, k + 1) =~= before.subrange(lo, k).push(x));
    if from_right {
        assert(src.subrange(first, j + 1) =~= src.subrange(first, j).push(x));
        assert(after.subrange(lo, k + 1).to_multiset() =~= src.subrange(lo, i).to_multiset().add(
            src.subrange(first, j + 1).to_multiset(),
        ));
    } else {
        assert(src.subrange(lo, i + 1) =~= src.subrange(lo, i).push(x));
        assert(after.subrange(lo, k + 1).to_multiset() =~= src.subrange(lo, i + 1).to_multiset().add(
            src.subrange(first, j).to_multiset(),
        ));
    }
}

} // verus!
