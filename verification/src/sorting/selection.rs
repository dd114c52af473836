use crate::fundamentals::order::{
    at_most, lawful, lemma_at_most_reflexive, lemma_at_most_total, lemma_at_most_transitive,
    lemma_swap_keeps_items, precedes, sorted, sorted_between, swapped,
};
use vstd::prelude::*;

verus! {

/// Sorts `list` in ascending order, by selection.
pub fn sort<T: Ord>(list: &mut Vec<T>)
    ensures
        final(list)@.to_multiset() == old(list)@.to_multiset(),
        final(list)@.len() == old(list)@.len(),
        lawful::<T>() ==> sorted(final(list)@),
{
    let n: usize = list.len();
    let mut i: usize = 0;
    while i < n
        invariant
            i <= n == list@.len(),
            list@.to_multiset() == old(list)@.to_multiset(),
            list@.len() == old(list)@.len(),
            lawful::<T>() ==> sorted_between(list@, 0, i as int),
            lawful::<T>() ==> forall|a: int, b: int|
                0 <= a < i <= b < n ==> at_most(#[trigger] list@[a], #[trigger] list@[b]),
        decreases n - i,
    {
        let mut min: usize = i;
        let mut j: usize = i + 1;
        proof {
            if lawful::<T>() {
                lemma_at_most_reflexive(list@[i as int]);
            }
        }
        while j < n
            invariant
                i <= min < j <= n == list@.len(),
                i < n,
                lawful::<T>() ==> forall|b: int| i <= b < j
                    ==> at_most(list@[min as int], #[trigger] list@[b]),
            decreases n - j,
        {
            if less(&list[j], &list[min]) {
                proof {
                    if lawful::<T>() {
                        lemma_at_most_total(list@[j as int], list@[min as int]);
                        lemma_at_most_reflexive(list@[j as int]);
                        assert forall|b: int| i <= b < j + 1
                            implies at_most(list@[j as int], #[trigger] list@[b]) by {
                            if b < j {
                                lemma_at_most_transitive(list@[j as int], list@[min as int], list@[b]);
                            }
                        }
                    }
                }
                min = j;
            } else {
                proof {
                    if lawful::<T>() {
                        lemma_at_most_total(list@[j as int], list@[min as int]);
                    }
                }
            }
            j += 1;
        }
        let ghost before = list@;
        exch(list, i, min);
        proof {
            lemma_swap_keeps_items(before, i as int, min as int);
            if lawful::<T>() {
                assert forall|a: int, b: int| 0 <= a < b < i + 1 implies at_most(
                    #[trigger] list@[a],
                    #[trigger] list@[b],
                ) by {
                    if b == i {
                        assert(at_most(before[a], before[min as int]));
                    } else {
                        assert(at_most(before[a], before[b]));
                    }
                }
                assert forall|a: int, b: int| 0 <= a < i + 1 <= b < n implies at_most(
                    #[trigger] list@[a],
                    #[trigger] list@[b],
                ) by {
                    if a == i {
                        if b == min {
                            assert(at_most(before[min as int], before[i as int]));
                        } else {
                            assert(at_most(before[min as int], before[b]));
                        }
                    } else {
                        if b == min {
                            assert(at_most(before[a], before[i as int]));
                        } else {
                            assert(at_most(before[a], before[b]));
                        }
                    }
                }
            }
        }
        i += 1;
    }
}

/// Whether `v` sorts strictly before `w`.
fn less<T: Ord>(v: &T, w: &T) -> (r: bool)
    ensures
        lawful::<T>() ==> r == precedes(*v, *w),
{
    crate::fundamentals::order::less(v, w)
}

/// Exchanges the items at `i` and `j`.
fn exch<T: Ord>(a: &mut Vec<T>, i: usize, j: usize)
    requires
        i < old(a)@.len(),
        j < old(a)@.len(),
    ensures
        final(a)@ == swapped(old(a)@, i as int, j as int),
{
    if i < j {
        let (low, high) = a.as_mut_slice().split_at_mut(j);
        core::mem::swap(&mut low[i], &mut high[0]);
    } else if j < i {
        let (low, high) = a.as_mut_slice().split_at_mut(i);
        core::mem::swap(&mut low[j], &mut high[0]);
    }
}

} // verus!
