use core::cmp::Ordering;
use vstd::prelude::*;
use vstd::std_specs::cmp::PartialOrdSpec;

verus! {

/// The comparison of `T` is the one its specification describes.
pub open spec fn faithful<T: PartialOrd>() -> bool {
    T::obeys_partial_cmp_spec()
}

/// `x` lies strictly before `y`.
pub open spec fn before<T: PartialOrd>(x: T, y: T) -> bool {
    x.partial_cmp_spec(&y) == Some(Ordering::Less)
}

/// `x` lies strictly after `y`.
pub open spec fn after<T: PartialOrd>(x: T, y: T) -> bool {
    x.partial_cmp_spec(&y) == Some(Ordering::Greater)
}

/// `x` lies before `y` or beside it.
pub open spec fn not_after<T: PartialOrd>(x: T, y: T) -> bool {
    x.partial_cmp_spec(&y) == Some(Ordering::Less) || x.partial_cmp_spec(&y) == Some(Ordering::Equal)
}

/// The comparison of `T` is faithful, and a value that lies before (after)
/// another lies before (after) everything that the other is at most (at
/// least).
pub open spec fn searchable<T: PartialOrd>() -> bool {
    &&& faithful::<T>()
    &&& forall|x: T, y: T, z: T| before(x, y) && #[trigger] not_after(y, z) ==> #[trigger] before(x, z)
    &&& forall|x: T, y: T, z: T| after(x, y) && #[trigger] not_after(z, y) ==> #[trigger] after(x, z)
}

/// Each item of `s` is at most every later one.
pub open spec fn ascending<T: PartialOrd>(s: Seq<T>) -> bool {
    forall|i: int, j: int| 0 <= i < j < s.len() ==> not_after(#[trigger] s[i], #[trigger] s[j])
}

/// `key` lies neither before nor after `item`.
pub open spec fn matches_key<T: PartialOrd>(key: T, item: T) -> bool {
    !before(key, item) && !after(key, item)
}

/// An index of `array` at which `key` is found, by bisection; `array` is
/// taken to be in ascending order.
pub fn index_of<T>(array: &[T], key: T) -> (r: Option<usize>) where T: PartialOrd
    ensures
        r matches Some(i) ==> i < array@.len() && (faithful::<T>() ==> matches_key(key, array@[i as int])),
        r is None && searchable::<T>() && ascending(array@) ==> forall|i: int|
            0 <= i < array@.len() ==> !matches_key(key, #[trigger] array@[i]),
{
    let mut lo: usize = 0;
    let mut hi: usize = array.len();
    while lo < hi
        invariant
            lo <= hi <= array@.len(),
            searchable::<T>() && ascending(array@) ==> forall|i: int|
                0 <= i < lo ==> after(key, #[trigger] array@[i]),
            searchable::<T>() && ascending(array@) ==> forall|i: int|
                hi <= i < array@.len() ==> before(key, #[trigger] array@[i]),
        decreases hi - lo,
    {
        let middle: usize = lo + (hi - lo) / 2;
        let current: &T = &array[middle];
        if key < *current {
            proof {
                if searchable::<T>() && ascending(array@) {
                    assert forall|i: int| middle <= i < array@.len()
                        implies before(key, #[trigger] array@[i]) by {
                        if i > middle {
                            assert(not_after(array@[middle as int], array@[i]));
                        }
                    }
                }
            }
            hi = middle;
        } else if key > *current {
            proof {
                if searchable::<T>() && ascending(array@) {
                    assert forall|i: int| 0 <= i < middle + 1 implies after(key, #[trigger] array@[i]) by {
                        if i < middle {
                            assert(not_after(array@[i], array@[middle as int]));
                        }
                    }
                }
            }
            lo = middle + 1;
        } else {
            return Some(middle);
        }
    }
    None
}

} // verus!
