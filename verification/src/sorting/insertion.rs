use crate::fundamentals::order::{
    at_most, lawful, lemma_at_most_total, lemma_at_most_transitive, lemma_swap_in_range, precedes, sorted,
    sorted_between, swapped,
};
use vstd::prelude::*;

verus! {

/// Sorts `list` in ascending order, by insertion.
pub fn sort<T: Ord>(list: &mut Vec<T>)
    ensures
        final(list)@.to_multiset() == old(list)@.to_multiset(),
        final(list)@.len() == old(list)@.len(),
        lawful::<T>() ==> sorted(final(list)@),
{
    let n: usize = list.len();
    sort_range(list, 0, n);
    assert(list@.subrange(0, n as int) =~= list@);
    assert(old(list)@.subrange(0, n as int) =~= old(list)@);
}

/// Sorts the items of `list` from `lo` up to, not including, `hi`, and
/// leaves the others where they are.
pub fn sort_slice<T: Ord>(list: &mut Vec<T>, lo: i32, hi: i32)
    requires
        0 <= lo,
        lo + 1 < hi ==> hi <= old(list)@.len(),
    ensures
        final(list)@.len() == old(list)@.len(),
        forall|k: int| 0 <= k < old(list)@.len() && !(lo <= k < hi) ==> final(list)@[k] == old(list)@[k],
        lo + 1 < hi ==> final(list)@.subrange(lo as int, hi as int).to_multiset() == old(list)@.subrange(
            lo as int,
            hi as int,
        ).to_multiset(),
        lo + 1 >= hi ==> final(list)@ == old(list)@,
        lawful::<T>() ==> sorted_between(final(list)@, lo as int, hi as int),
{
    if lo < hi && lo + 1 < hi {
        sort_range(list, lo as usize, hi as usize);
    }
}

/// A sorted copy of `list`, which stays as it is.
pub fn index_sort<T: Ord>(list: &Vec<T>) -> (index: Vec<T>) where T: Copy
    ensures
        index@.to_multiset() == list@.to_multiset(),
        index@.len() == list@.len(),
        lawful::<T>() ==> sorted(index@),
{
    let mut index: Vec<T> = Vec::with_capacity(list.len());
    let mut i: usize = 0;
    while i < list.len()
        invariant
            i <= list@.len(),
            index@ == list@.subrange(0, i as int),
        decreases list@.len() - i,
    {
        index.push(list[i]);
        assert(index@ =~= list@.subrange(0, i + 1));
        i += 1;
    }
    assert(index@ =~= list@);
    sort(&mut index);
    index
}

/// Insertion sort on the items from `lo` up to, not including, `hi`.
fn sort_range<T: Ord>(list: &mut Vec<T>, lo: usize, hi: usize)
    requires
        lo <= hi <= old(list)@.len(),
    ensures
        final(list)@.len() == old(list)@.len(),
        forall|k: int| 0 <= k < old(list)@.len() && !(lo <= k < hi) ==> final(list)@[k] == old(list)@[k],
        final(list)@.subrange(lo as int, hi as int).to_multiset() == old(list)@.subrange(
            lo as int,
            hi as int,
        ).to_multiset(),
        lawful::<T>() ==> sorted_between(final(list)@, lo as int, hi as int),
{
    if hi == lo {
        return;
    }
    let mut i: usize = lo + 1;
    while i < hi
        invariant
            lo < i <= hi <= list@.len(),
            list@.len() == old(list)@.len(),
            forall|k: int| 0 <= k < old(list)@.len() && !(lo <= k < hi) ==> list@[k] == old(list)@[k],
            list@.subrange(lo as int, hi as int).to_multiset() == old(list)@.subrange(
                lo as int,
                hi as int,
            ).to_multiset(),
            lawful::<T>() ==> sorted_between(list@, lo as int, i as int),
        decreases hi - i,
    {
        let mut j: usize = i;
        let mut moving: bool = true;
        while moving && j > lo
            invariant
                lo <= j <= i < hi <= list@.len(),
                list@.len() == old(list)@.len(),
                forall|k: int| 0 <= k < old(list)@.len() && !(lo <= k < hi) ==> list@[k] == old(list)@[k],
                list@.subrange(lo as int, hi as int).to_multiset() == old(list)@.subrange(
                    lo as int,
                    hi as int,
                ).to_multiset(),
                lawful::<T>() ==> forall|a: int, b: int|
                    lo <= a < b <= i && a != j && b != j
                        ==> at_most(#[trigger] list@[a], #[trigger] list@[b]),
                lawful::<T>() ==> forall|b: int| j < b <= i ==> at_most(list@[j as int], #[trigger] list@[b]),
                !moving ==> j > lo && (lawful::<T>() ==> at_most(list@[j - 1], list@[j as int])),
            decreases j - lo + (if moving { 1nat } else { 0nat }),
        {
            if less(&list[j], &list[j - 1]) {
                let ghost before = list@;
                exch(list, j, j - 1);
                proof {
                    lemma_swap_in_range(before, lo as int, hi as int, j as int, j - 1);
                    if lawful::<T>() {
                        lemma_at_most_total(before[j as int], before[j - 1]);
                        assert forall|b: int| j - 1 < b <= i
                            implies at_most(list@[j - 1], #[trigger] list@[b]) by {
                            if b > j {
                                assert(at_most(before[j as int], before[b]));
                            }
                        }
                    }
                }
                j = j - 1;
            } else {
                proof {
                    if lawful::<T>() {
                        lemma_at_most_total(list@[j as int], list@[j - 1]);
                    }
                }
                moving = false;
            }
        }
        proof {
            if lawful::<T>() {
                assert forall|a: int, b: int| lo <= a < b < i + 1 implies at_most(
                    #[trigger] list@[a],
                    #[trigger] list@[b],
                ) by {
                    if a == j {
                    } else if b == j {
                        if a < j - 1 {
                            assert(at_most(list@[a], list@[j - 1]));
                            lemma_at_most_transitive(list@[a], list@[j - 1], list@[j as int]);
                        }
                    }
                }
            }
        }
        i += 1;
    }
}

/// Whether `v` sorts strictly before `w`.
fn less<T: Ord>(v: &T, w: &T) -> (r: bool)
    ensures
        lawful::<T>() ==> r == precedes(*v, *w),
{
    crate::fundamentals::order::less(v, w)
}

/// Exchanges the items at `i` and `j`.
fn exch<T: Ord>(a: &mut Vec<T>, i: usize, j: usize)
    requires
        i < old(a)@.len(),
        j < old(a)@.len(),
    ensures
        final(a)@ == swapped(old(a)@, i as int, j as int),
{
    if i < j {
        let (low, high) = a.as_mut_slice().split_at_mut(j);
        core::mem::swap(&mut low[i], &mut high[0]);
    } else if j < i {
        let (low, high) = a.as_mut_slice().split_at_mut(i);
        core::mem::swap(&mut low[j], &mut high[0]);
    }
}

} // verus!
