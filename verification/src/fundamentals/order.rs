use core::cmp::Ordering;
use vstd::laws_cmp::{obeys_cmp, obeys_cmp_ord, obeys_cmp_partial_ord, obeys_partial_cmp_spec_properties};
use vstd::laws_eq::obeys_eq_spec_properties;
use vstd::prelude::*;
use vstd::std_specs::cmp::{OrdSpec, PartialEqSpec, PartialOrdSpec};

verus! {

/// The comparison of `T` is the one its specification describes, and that
/// specification is a total preorder.
pub open spec fn lawful<T: Ord>() -> bool {
    obeys_cmp::<T>()
}

/// `a` sorts strictly before `b`.
pub open spec fn precedes<T: Ord>(a: T, b: T) -> bool {
    a.cmp_spec(&b) == Ordering::Less
}

/// `a` does not sort after `b`.
pub open spec fn at_most<T: Ord>(a: T, b: T) -> bool {
    a.cmp_spec(&b) != Ordering::Greater
}

/// A lawful comparison returns what its specification says.
pub proof fn lemma_lawful_is_faithful<T: Ord>()
    requires
        lawful::<T>(),
    ensures
        T::obeys_cmp_spec(),
{
    reveal(obeys_cmp_ord);
}

/// Every value is at most itself.
pub proof fn lemma_at_most_reflexive<T: Ord>(a: T)
    requires
        lawful::<T>(),
    ensures
        at_most(a, a),
{
    reveal(obeys_cmp_ord);
    reveal(obeys_partial_cmp_spec_properties);
    assert(a.partial_cmp_spec(&a) == Some(a.cmp_spec(&a)));
}

/// Of two values, one is at most the other; where one strictly precedes the
/// other, the other is not at most the first.
pub proof fn lemma_at_most_total<T: Ord>(a: T, b: T)
    requires
        lawful::<T>(),
    ensures
        at_most(a, b) || at_most(b, a),
        precedes(a, b) <==> !at_most(b, a),
        precedes(a, b) ==> at_most(a, b),
{
    reveal(obeys_cmp_ord);
    reveal(obeys_partial_cmp_spec_properties);
    assert(a.partial_cmp_spec(&b) == Some(a.cmp_spec(&b)));
    assert(b.partial_cmp_spec(&a) == Some(b.cmp_spec(&a)));
}

/// `at_most` is transitive.
pub proof fn lemma_at_most_transitive<T: Ord>(a: T, b: T, c: T)
    requires
        lawful::<T>(),
        at_most(a, b),
        at_most(b, c),
    ensures
        at_most(a, c),
{
    reveal(obeys_cmp_ord);
    reveal(obeys_cmp_partial_ord);
    reveal(obeys_partial_cmp_spec_properties);
    reveal(obeys_eq_spec_properties);
    assert(a.partial_cmp_spec(&b) == Some(a.cmp_spec(&b)));
    assert(b.partial_cmp_spec(&a) == Some(b.cmp_spec(&a)));
    assert(b.partial_cmp_spec(&c) == Some(b.cmp_spec(&c)));
    assert(c.partial_cmp_spec(&b) == Some(c.cmp_spec(&b)));
    assert(a.partial_cmp_spec(&c) == Some(a.cmp_spec(&c)));
    assert(c.partial_cmp_spec(&a) == Some(c.cmp_spec(&a)));
    if a.cmp_spec(&c) == Ordering::Greater {
        // then c < a
        assert(c.partial_cmp_spec(&a) == Some(Ordering::Less));
        if a.cmp_spec(&b) == Ordering::Less {
            // c < a < b, so c < b, against b <= c
            assert(c.partial_cmp_spec(&b) == Some(Ordering::Less));
            assert(b.partial_cmp_spec(&c) == Some(Ordering::Greater));
        } else {
            assert(a.eq_spec(&b));
            if b.cmp_spec(&c) == Ordering::Less {
                // b < c < a, so b < a, against a == b
                assert(b.partial_cmp_spec(&a) == Some(Ordering::Less));
                assert(a.partial_cmp_spec(&b) == Some(Ordering::Greater));
            } else {
                assert(b.eq_spec(&c));
                assert(a.eq_spec(&c));
            }
        }
    }
}

/// `precedes` is transitive, and nothing precedes itself.
pub proof fn lemma_precedes_transitive<T: Ord>(a: T, b: T, c: T)
    requires
        lawful::<T>(),
        precedes(a, b),
        precedes(b, c),
    ensures
        precedes(a, c),
        !precedes(a, a),
{
    reveal(obeys_cmp_ord);
    reveal(obeys_partial_cmp_spec_properties);
    assert(a.partial_cmp_spec(&b) == Some(a.cmp_spec(&b)));
    assert(b.partial_cmp_spec(&c) == Some(b.cmp_spec(&c)));
    assert(a.partial_cmp_spec(&c) == Some(a.cmp_spec(&c)));
    assert(a.partial_cmp_spec(&a) == Some(a.cmp_spec(&a)));
}

/// Whether `v` sorts strictly before `w`.
pub fn less<T: Ord>(v: &T, w: &T) -> (r: bool)
    ensures
        lawful::<T>() ==> r == precedes(*v, *w),
{
    proof {
        reveal(obeys_cmp_ord);
    }
    match v.cmp(w) {
        Ordering::Less => true,
        _ => false,
    }
}

/// Whether `v` sorts strictly after `w`.
pub fn greater<T: Ord>(v: &T, w: &T) -> (r: bool)
    ensures
        lawful::<T>() ==> r == !at_most(*v, *w),
{
    proof {
        reveal(obeys_cmp_ord);
    }
    match v.cmp(w) {
        Ordering::Greater => true,
        _ => false,
    }
}

/// On machine integers the order is the usual one.
pub proof fn lemma_u128_order(a: u128, b: u128)
    ensures
        lawful::<u128>(),
        at_most(a, b) <==> a <= b,
        precedes(a, b) <==> a < b,
{
    broadcast use vstd::laws_cmp::group_laws_cmp;
}

/// Pairs of machine integers are ordered by their first parts, and where
/// those are equal by their second.
pub proof fn lemma_pair_order(a: (u128, usize), b: (u128, usize))
    ensures
        lawful::<(u128, usize)>(),
        at_most(a, b) <==> a.0 < b.0 || (a.0 == b.0 && a.1 <= b.1),
{
    broadcast use vstd::laws_cmp::group_laws_cmp;
}

/// The items of `s` from `lo` up to, not including, `hi` are in ascending order.
pub open spec fn sorted_between<T: Ord>(s: Seq<T>, lo: int, hi: int) -> bool {
    forall|i: int, j: int| lo <= i < j < hi ==> at_most(#[trigger] s[i], #[trigger] s[j])
}

/// The items of `s` are in ascending order.
pub open spec fn sorted<T: Ord>(s: Seq<T>) -> bool {
    sorted_between(s, 0, s.len() as int)
}

/// `s` with the items at `i` and `j` exchanged.
pub open spec fn swapped<T>(s: Seq<T>, i: int, j: int) -> Seq<T> {
    s.update(i, s[j]).update(j, s[i])
}

/// Exchanging two items changes neither which items a sequence holds nor
/// how often.
pub proof fn lemma_swap_keeps_items<T>(s: Seq<T>, i: int, j: int)
    requires
        0 <= i < s.len(),
        0 <= j < s.len(),
    ensures
        swapped(s, i, j).to_multiset() == s.to_multiset(),
{
    broadcast use vstd::seq_lib::to_multiset_update;
    broadcast use vstd::multiset::group_multiset_axioms;

    let mid = s.update(i, s[j]);
    assert(mid.to_multiset() == s.to_multiset().insert(s[j]).remove(s[i]));
    assert(swapped(s, i, j).to_multiset() == mid.to_multiset().insert(s[i]).remove(mid[j]));
    s.to_multiset_ensures();
    assert(s.to_multiset().count(s[i]) > 0);
    assert(s.to_multiset().count(s[j]) > 0);
    assert(swapped(s, i, j).to_multiset() =~= s.to_multiset());
}

/// Exchanging two items inside a range exchanges them in the subrange.
pub proof fn lemma_swap_in_range<T>(s: Seq<T>, lo: int, hi: int, i: int, j: int)
    requires
        0 <= lo <= i < hi <= s.len(),
        lo <= j < hi,
    ensures
        swapped(s, i, j).subrange(lo, hi).to_multiset() == s.subrange(lo, hi).to_multiset(),
{
    assert(swapped(s, i, j).subrange(lo, hi) =~= swapped(s.subrange(lo, hi), i - lo, j - lo));
    lemma_swap_keeps_items(s.subrange(lo, hi), i - lo, j - lo);
}

} // verus!
