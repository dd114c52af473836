use vstd::prelude::*;
use vstd::std_specs::iter::IteratorSpec;
use vstd::std_specs::slice::into_iter_elts;

verus! {

/// An append-only collection that hands its items back in the order in which
/// they were added.
#[derive(Clone)]
pub struct Bag<T> {
    elements: Vec<T>,
}

impl<T> View for Bag<T> {
    type V = Seq<T>;

    /// The items, oldest first.
    closed spec fn view(&self) -> Seq<T> {
        self.elements@
    }
}

impl<T> Default for Bag<T> {
    /// An empty bag.
    fn default() -> (bag: Bag<T>)
        ensures
            bag@ == Seq::<T>::empty(),
    {
        Bag { elements: Vec::new() }
    }
}

impl<T> Bag<T> {
    /// An empty bag.
    pub fn new() -> (bag: Bag<T>)
        ensures
            bag@ == Seq::<T>::empty(),
    {
        Bag { elements: Vec::new() }
    }

    /// A bag of references to the items of `v`, in their order.
    pub fn new_from_vec(v: &Vec<T>) -> (bag: Bag<&T>)
        ensures
            bag@.len() == v@.len(),
            forall|i: int| 0 <= i < v@.len() ==> *(#[trigger] bag@[i]) == v@[i],
    {
        let mut b: Bag<&T> = Bag { elements: Vec::new() };
        let mut k: usize = 0;
        while k < v.len()
            invariant
                k <= v@.len(),
                b.elements@.len() == k,
                forall|i: int| 0 <= i < k ==> *(#[trigger] b.elements@[i]) == v@[i],
            decreases v@.len() - k,
        {
            b.elements.push(&v[k]);
            k += 1;
        }
        b
    }

    /// A bag of clones of the items of `v`, in their order.
    pub fn new_from_vec_clone(v: &Vec<T>) -> (bag: Bag<T>) where T: Clone
        ensures
            bag@.len() == v@.len(),
            forall|i: int| 0 <= i < v@.len() ==> cloned(v@[i], #[trigger] bag@[i]),
    {
        let mut b: Bag<T> = Bag { elements: Vec::new() };
        let mut k: usize = 0;
        while k < v.len()
            invariant
                k <= v@.len(),
                b.elements@.len() == k,
                forall|i: int| 0 <= i < k ==> cloned(v@[i], #[trigger] b.elements@[i]),
            decreases v@.len() - k,
        {
            b.elements.push(v[k].clone());
            k += 1;
        }
        b
    }

    /// Appends `item`.
    pub fn add(&mut self, item: T)
        ensures
            final(self)@ == old(self)@.push(item),
    {
        self.elements.push(item);
    }

    /// Whether the bag holds nothing.
    pub fn is_empty(&mut self) -> (b: bool)
        ensures
            b == (old(self)@.len() == 0),
            *final(self) == *old(self),
    {
        self.elements.is_empty()
    }

    /// The number of items held.
    pub fn size(&mut self) -> (n: usize)
        ensures
            n == old(self)@.len(),
            *final(self) == *old(self),
    {
        self.elements.len()
    }

    /// The number of items held, read through a shared reference.
    pub fn len(&self) -> (n: usize)
        ensures
            n == self@.len(),
    {
        self.elements.len()
    }

    /// The item that was added as the `i`-th, counting from zero.
    pub fn get(&self, i: usize) -> (item: &T)
        requires
            i < self@.len(),
        ensures
            *item == self@[i as int],
    {
        &self.elements[i]
    }

    /// An iterator over the items, oldest first.
    pub fn iterator(&self) -> (it: std::slice::Iter<'_, T>)
        ensures
            into_iter_elts(it) == self@,
            IteratorSpec::decrease(&it) is Some,
            IteratorSpec::initial_value_relation(&it, &it),
    {
        let it = self.elements.iter();
        it
    }

    /// Clones of the items, oldest first.
    pub fn as_vec(&self) -> (v: Vec<T>) where T: Clone
        ensures
            v@.len() == self@.len(),
            forall|i: int| 0 <= i < self@.len() ==> cloned(self@[i], #[trigger] v@[i]),
    {
        let mut out: Vec<T> = Vec::new();
        let mut k: usize = 0;
        while k < self.elements.len()
            invariant
                k <= self.elements@.len(),
                out@.len() == k,
                forall|i: int| 0 <= i < k ==> cloned(self.elements@[i], #[trigger] out@[i]),
            decreases self.elements@.len() - k,
        {
            out.push(self.elements[k].clone());
            k += 1;
        }
        out
    }
}

} // verus!
