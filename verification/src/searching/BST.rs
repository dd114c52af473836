use crate::fundamentals::order::{
    at_most, lawful, lemma_at_most_reflexive, lemma_at_most_total, lemma_lawful_is_faithful,
        lemma_at_most_transitive, lemma_precedes_transitive,
    precedes,
};
use core::cmp::Ordering;
use vstd::prelude::*;
use vstd::std_specs::cmp::OrdSpec;

verus! {

/// A key and its value.
struct Value<T, K>(T, K);

/// A tree: nothing, or a node.
type Link<T, K> = Option<Box<Node<T, K>>>;

/// A key with its value, the tree of the keys before it and the tree of the
/// keys after it.
struct Node<T, K>(Value<T, K>, Link<T, K>, Link<T, K>);

/// The order of `T` is lawful, and only identical values compare as equal.
pub open spec fn exact<T: Ord>() -> bool {
    &&& lawful::<T>()
    &&& forall|a: T, b: T| #[trigger] a.cmp_spec(&b) == Ordering::Equal <==> a == b
}

/// Under an exact order, of two different values one precedes the other,
/// never both, and one that precedes is at most.
pub proof fn lemma_exact<T: Ord>(a: T, b: T)
    requires
        exact::<T>(),
    ensures
        a == b || precedes(a, b) || precedes(b, a),
        !(precedes(a, b) && precedes(b, a)),
        precedes(a, b) ==> a != b,
        precedes(a, b) ==> at_most(a, b),
        at_most(a, b) && a != b ==> precedes(a, b),
        at_most(a, b) <==> !precedes(b, a),
{
    lemma_at_most_total(a, b);
    lemma_at_most_total(b, a);
    lemma_at_most_reflexive(a);
}

/// What the tree below `link` maps each of its keys to.
spec fn content<T, K>(link: Link<T, K>) -> Map<T, K>
    decreases link,
{
    match link {
        None => Map::empty(),
        Some(node) => content(node.1).union_prefer_right(content(node.2)).insert(node.0.0, node.0.1),
    }
}

/// The tree below `link` is a search tree: in every node the keys to the
/// left precede the node's key, and that precedes the keys to the right.
spec fn ordered<T: Ord, K>(link: Link<T, K>) -> bool
    decreases link,
{
    match link {
        None => true,
        Some(node) => {
            &&& ordered(node.1)
            &&& ordered(node.2)
            &&& forall|k: T| content(node.1).contains_key(k) ==> precedes(k, node.0.0)
            &&& forall|k: T| content(node.2).contains_key(k) ==> precedes(node.0.0, k)
        },
    }
}

/// The key at the top of the tree below `link`.
spec fn top_key<T, K>(link: Link<T, K>) -> Option<T> {
    match link {
        None => None,
        Some(node) => Some(node.0.0),
    }
}

/// In a search tree, a key that precedes the top key is looked for to the
/// left, one that the top key precedes to the right.
proof fn lemma_sides<T: Ord, K>(link: Link<T, K>, key: T)
    requires
        exact::<T>(),
        ordered(link),
        link is Some,
    ensures
        ({
            let node = link->0;
            &&& !content(node.1).contains_key(node.0.0)
            &&& !content(node.2).contains_key(node.0.0)
            &&& content(link).contains_key(node.0.0) && content(link)[node.0.0] == node.0.1
            &&& precedes(key, node.0.0)
                ==> !content(node.2).contains_key(key) && (content(link).contains_key(key)
                <==> content(node.1).contains_key(key)) && (content(node.1).contains_key(key)
                    ==> content(link)[key]
                == content(node.1)[key])
            &&& precedes(node.0.0, key)
                ==> !content(node.1).contains_key(key) && (content(link).contains_key(key)
                <==> content(node.2).contains_key(key)) && (content(node.2).contains_key(key)
                    ==> content(link)[key]
                == content(node.2)[key])
        }),
{
    let node = link->0;
    lemma_exact(key, node.0.0);
    lemma_exact(node.0.0, node.0.0);
    if content(node.1).contains_key(node.0.0) {
        assert(precedes(node.0.0, node.0.0));
    }
    if content(node.2).contains_key(node.0.0) {
        assert(precedes(node.0.0, node.0.0));
    }
    if content(node.2).contains_key(key) {
        assert(precedes(node.0.0, key));
    }
    if content(node.1).contains_key(key) {
        assert(precedes(key, node.0.0));
    }
}

/// The keys to the left of a search tree's top do not occur to its right.
proof fn lemma_apart<T: Ord, K>(link: Link<T, K>)
    requires
        exact::<T>(),
        ordered(link),
        link is Some,
    ensures
        forall|k: T| content((link->0).1).contains_key(k) ==> !content((link->0).2).contains_key(k),
{
    let node = link->0;
    assert forall|k: T| content(node.1).contains_key(k) implies !content(node.2).contains_key(k) by {
        lemma_exact(k, node.0.0);
        if content(node.2).contains_key(k) {
            assert(precedes(node.0.0, k));
        }
    }
}

impl<T: Ord, K> Node<T, K> {
    /// A node without children.
    fn new(key: T, val: K) -> (n: Self)
        ensures
            n.0.0 == key,
            n.0.1 == val,
            n.1 is None,
            n.2 is None,
    {
        Node(Value(key, val), None, None)
    }

    /// How `key` stands to the key of this node.
    fn cmp_to_key(&self, key: &T) -> (o: Ordering)
        ensures
            exact::<T>() ==> (o == Ordering::Less <==> precedes(*key, self.0.0)),
            exact::<T>() ==> (o == Ordering::Greater <==> precedes(self.0.0, *key)),
            exact::<T>() ==> (o == Ordering::Equal <==> *key == self.0.0),
    {
        proof {
            if exact::<T>() {
                lemma_lawful_is_faithful::<T>();
                lemma_at_most_total(*key, self.0.0);
                lemma_at_most_total(self.0.0, *key);
            }
        }
        key.cmp(&self.0.0)
    }
}

/// A map from keys to values, held as a binary search tree that is not
/// balanced.
pub struct BST2<T, K> {
    root: Link<T, K>,
}

impl<T, K> View for BST2<T, K> {
    type V = Map<T, K>;

    /// The value of each key.
    closed spec fn view(&self) -> Map<T, K> {
        content(self.root)
    }
}

impl<T: Ord, K> Default for BST2<T, K> {
    /// The empty map.
    fn default() -> (t: BST2<T, K>)
        ensures
            t.wf(),
            t@ == Map::<T, K>::empty(),
            t.root_key() is None,
    {
        BST2 { root: None }
    }
}

impl<T: Ord, K> BST2<T, K> {
    /// Where the order of `T` is exact, the tree is a search tree.
    pub closed spec fn wf(&self) -> bool {
        exact::<T>() ==> ordered(self.root)
    }

    /// The key at the root, if the tree holds any.
    pub closed spec fn root_key(&self) -> Option<T> {
        top_key(self.root)
    }

    /// `k` is a key of the map that no key precedes.
    pub open spec fn is_least(m: Map<T, K>, k: T) -> bool {
        m.contains_key(k) && forall|j: T| m.contains_key(j) ==> at_most(k, j)
    }

    /// `k` is a key of the map that precedes no key.
    pub open spec fn is_greatest(m: Map<T, K>, k: T) -> bool {
        m.contains_key(k) && forall|j: T| m.contains_key(j) ==> at_most(j, k)
    }

    /// The empty map.
    pub fn new() -> (t: BST2<T, K>)
        ensures
            t.wf(),
            t@ == Map::<T, K>::empty(),
            t.root_key() is None,
    {
        BST2 { root: None }
    }

    /// Maps `key` to `val` in the tree below `curr`.
    fn _put(key: T, val: K, curr: &mut Link<T, K>)
        requires
            exact::<T>() ==> ordered(*old(curr)),
        ensures
            exact::<T>() ==> ordered(*final(curr)),
            exact::<T>() ==> content(*final(curr)) == content(*old(curr)).insert(key, val),
            exact::<T>() ==> top_key(*final(curr)) == if *old(curr) is Some {
                top_key(*old(curr))
            } else {
                Some(key)
            },
        decreases *old(curr),
    {
        proof {
            if exact::<T>() && *old(curr) is Some {
                lemma_sides(*old(curr), key);
                lemma_apart(*old(curr));
            }
        }
        match curr {
            Some(node) => {
                let ghost left = content(node.1);
                let ghost right = content(node.2);
                let ghost top = node.0.0;
                match node.cmp_to_key(&key) {
                    Ordering::Less => {
                        Self::_put(key, val, &mut node.1);
                        proof {
                            if exact::<T>() {
                                assert(content(node.1).union_prefer_right(right).insert(top, node.0.1)
                                    =~= left.union_prefer_right(
                                    right,
                                ).insert(top, node.0.1).insert(key, val));
                            }
                        }
                    },
                    Ordering::Greater => {
                        Self::_put(key, val, &mut node.2);
                        proof {
                            if exact::<T>() {
                                assert(left.union_prefer_right(content(node.2)).insert(top, node.0.1)
                                    =~= left.union_prefer_right(
                                    right,
                                ).insert(top, node.0.1).insert(key, val));
                            }
                        }
                    },
                    Ordering::Equal => {
                        let ghost held = node.0.1;
                        node.0.1 = val;
                        proof {
                            if exact::<T>() {
                                assert(left.union_prefer_right(right).insert(top, val)
                                    =~= left.union_prefer_right(right).insert(
                                    top,
                                    held,
                                ).insert(key, val));
                            }
                        }
                    },
                }
            },
            None => {
                *curr = Some(Box::new(Node::new(key, val)));
                proof {
                    assert(content::<T, K>(None) =~= Map::<T, K>::empty());
                    let leaf = (*curr)->0;
                    assert(content(leaf.1) =~= Map::<T, K>::empty());
                    assert(content(leaf.2) =~= Map::<T, K>::empty());
                    assert(content(*curr) =~= Map::<T, K>::empty().insert(key, val));
                }
            },
        }
    }

    /// Maps `key` to `val`.
    pub fn put(&mut self, key: T, val: K)
        requires
            old(self).wf(),
        ensures
            final(self).wf(),
            exact::<T>() ==> final(self)@ == old(self)@.insert(key, val),
            exact::<T>() ==> final(self).root_key() == if old(self).root_key() is Some {
                old(self).root_key()
            } else {
                Some(key)
            },
    {
        Self::_put(key, val, &mut self.root);
    }

    /// The value of `key` in the tree below `curr`.
    fn _get<'a>(key: &'a T, curr: &'a Link<T, K>) -> (r: Option<&'a K>)
        requires
            exact::<T>() ==> ordered(*curr),
        ensures
            exact::<T>() ==> r == if content(*curr).contains_key(*key) {
                Some(&content(*curr)[*key])
            } else {
                None
            },
    {
        let mut current = curr;
        loop
            invariant
                exact::<T>() ==> ordered(*current),
                exact::<T>() ==> content(*curr).contains_key(*key) == content(*current).contains_key(*key),
                exact::<T>() && content(*curr).contains_key(*key)
                    ==> content(*curr)[*key] == content(*current)[*key],
            decreases *current,
        {
            proof {
                if exact::<T>() && current is Some {
                    lemma_sides(*current, *key);
                }
            }
            match current {
                Some(node) => {
                    match node.cmp_to_key(key) {
                        Ordering::Less => {
                            current = &node.1;
                        },
                        Ordering::Greater => {
                            current = &node.2;
                        },
                        Ordering::Equal => {
                            return Some(&node.0.1);
                        },
                    }
                },
                None => {
                    return None;
                },
            }
        }
    }

    /// The value of `key` in the tree below `curr`, to be changed in place.
    fn _get_mut(key: T, curr: &mut Link<T, K>) -> (r: Option<&mut K>)
        requires
            exact::<T>() ==> ordered(*old(curr)),
        ensures
            exact::<T>() ==> ordered(*final(curr)),
            exact::<T>() ==> top_key(*final(curr)) == top_key(*old(curr)),
            exact::<T>() ==> match r {
                Some(v) => content(*old(curr)).contains_key(key) && *v == content(*old(curr))[key]
                    && content(*final(curr))
                    == content(*old(curr)).insert(key, *final(v)),
                None => !content(*old(curr)).contains_key(key)
                    && content(*final(curr)) == content(*old(curr)),
            },
        decreases *old(curr),
    {
        proof {
            if exact::<T>() && *old(curr) is Some {
                lemma_sides(*old(curr), key);
                lemma_apart(*old(curr));
            }
        }
        match curr {
            Some(node) => {
                let ghost left = content(node.1);
                let ghost right = content(node.2);
                let ghost top = node.0.0;
                let ghost held = node.0.1;
                match node.cmp_to_key(&key) {
                    Ordering::Less => {
                        match Self::_get_mut(key, &mut node.1) {
                            Some(v) => {
                                proof {
                                    if exact::<T>() {
                                        assert(left.insert(key,
                                            *final(v)).union_prefer_right(right).insert(top, held)
                                            =~= left.union_prefer_right(right).insert(top, held).insert(key,
                                                *final(v)));
                                    }
                                }
                                Some(v)
                            },
                            None => None,
                        }
                    },
                    Ordering::Greater => {
                        match Self::_get_mut(key, &mut node.2) {
                            Some(v) => {
                                proof {
                                    if exact::<T>() {
                                        assert(left.union_prefer_right(right.insert(key,
                                            *final(v))).insert(top, held)
                                            =~= left.union_prefer_right(right).insert(top, held).insert(key,
                                                *final(v)));
                                    }
                                }
                                Some(v)
                            },
                            None => None,
                        }
                    },
                    Ordering::Equal => {
                        let r = &mut node.0.1;
                        proof {
                            if exact::<T>() {
                                assert(left.union_prefer_right(right).insert(top, *final(r))
                                    =~= left.union_prefer_right(
                                    right,
                                ).insert(top, held).insert(key, *final(r)));
                            }
                        }
                        Some(r)
                    },
                }
            },
            None => None,
        }
    }

    /// The value at the root, if the tree holds any.
    pub fn get_root<'a>(&'a self) -> (r: Option<&'a K>)
        requires
            self.wf(),
        ensures
            exact::<T>() ==> r == match self.root_key() {
                Some(k) => Some(&self@[k]),
                None => None,
            },
    {
        proof {
            if exact::<T>() && self.root is Some {
                lemma_sides(self.root, (self.root->0).0.0);
            }
        }
        match &self.root {
            Some(n) => self.get(&n.0.0),
            None => None,
        }
    }

    /// The value of `key`, if it has one.
    pub fn get<'a>(&'a self, key: &'a T) -> (r: Option<&'a K>)
        requires
            self.wf(),
        ensures
            exact::<T>() ==> r == if self@.contains_key(*key) {
                Some(&self@[*key])
            } else {
                None
            },
    {
        Self::_get(key, &self.root)
    }

    /// The value of `key`, to be changed in place, if it has one.
    pub fn get_mut(&mut self, key: T) -> (r: Option<&mut K>)
        requires
            old(self).wf(),
        ensures
            final(self).wf(),
            exact::<T>() ==> final(self).root_key() == old(self).root_key(),
            exact::<T>() ==> match r {
                Some(v) => old(self)@.contains_key(key) && *v == old(self)@[key]
                    && final(self)@ == old(self)@.insert(
                    key,
                    *final(v),
                ),
                None => !old(self)@.contains_key(key) && final(self)@ == old(self)@,
            },
    {
        Self::_get_mut(key, &mut self.root)
    }

    /// Takes `key` out of the map, and returns the value it had.
    pub fn remove(&mut self, key: &T) -> (r: Option<K>)
        requires
            old(self).wf(),
        ensures
            final(self).wf(),
            exact::<T>() ==> final(self)@ == old(self)@.remove(*key),
            exact::<T>() ==> r == if old(self)@.contains_key(*key) {
                Some(old(self)@[*key])
            } else {
                None
            },
            exact::<T>() && old(self).root_key() != Some(*key)
                ==> final(self).root_key() == old(self).root_key(),
    {
        match Self::_remove(key, &mut self.root) {
            Some(res) => {
                let node: Node<T, K> = *res;
                Some(node.0.1)
            },
            None => None,
        }
    }

    /// Takes the node of `key` out of the tree below `curr`. A node with two
    /// children gives its place to the node of the next key.
    fn _remove(key: &T, curr: &mut Link<T, K>) -> (r: Option<Box<Node<T, K>>>)
        requires
            exact::<T>() ==> ordered(*old(curr)),
        ensures
            exact::<T>() ==> ordered(*final(curr)),
            exact::<T>() ==> content(*final(curr)) == content(*old(curr)).remove(*key),
            exact::<T>() ==> match r {
                Some(node) => content(*old(curr)).contains_key(*key) && node.0.1 == content(*old(curr))[*key],
                None => !content(*old(curr)).contains_key(*key),
            },
            exact::<T>() && top_key(*old(curr)) != Some(*key)
                ==> top_key(*final(curr)) == top_key(*old(curr)),
        decreases *old(curr),
    {
        proof {
            if exact::<T>() && *old(curr) is Some {
                lemma_sides(*old(curr), *key);
                lemma_apart(*old(curr));
            }
        }
        let way: Ordering = match curr {
            Some(node) => node.cmp_to_key(key),
            None => {
                proof {
                    assert(content(*curr).remove(*key) =~= content(*curr));
                }
                return None;
            },
        };
        match way {
            Ordering::Less => match curr {
                Some(node) => {
                    let ghost left = content(node.1);
                    let ghost right = content(node.2);
                    let r = Self::_remove(key, &mut node.1);
                    proof {
                        if exact::<T>() {
                            assert(left.remove(*key).union_prefer_right(right).insert(node.0.0, node.0.1)
                                =~= left.union_prefer_right(
                                right,
                            ).insert(node.0.0, node.0.1).remove(*key));
                        }
                    }
                    r
                },
                None => None,
            },
            Ordering::Greater => match curr {
                Some(node) => {
                    let ghost left = content(node.1);
                    let ghost right = content(node.2);
                    let r = Self::_remove(key, &mut node.2);
                    proof {
                        if exact::<T>() {
                            assert(left.union_prefer_right(right.remove(*key)).insert(node.0.0, node.0.1)
                                =~= left.union_prefer_right(
                                right,
                            ).insert(node.0.0, node.0.1).remove(*key));
                        }
                    }
                    r
                },
                None => None,
            },
            Ordering::Equal => {
                let mut node: Box<Node<T, K>> = curr.take().unwrap();
                let ghost left = content(node.1);
                let ghost right = content(node.2);
                let ghost top = node.0.0;
                let ghost held = node.0.1;
                match (node.1.take(), node.2.take()) {
                    (Some(lower), Some(upper)) => {
                        let mut right_tree: Link<T, K> = Some(upper);
                        let mut successor: Box<Node<T, K>> = Self::_take_min(&mut right_tree).unwrap();
                        let ghost rest = content(right_tree);
                        let ghost next = successor.0.0;
                        successor.1 = Some(lower);
                        successor.2 = right_tree;
                        proof {
                            if exact::<T>() {
                                assert forall|k: T| left.contains_key(k) implies precedes(k, next) by {
                                    lemma_precedes_transitive(k, top, next);
                                }
                                assert forall|k: T| rest.contains_key(k) implies precedes(next, k) by {
                                    lemma_exact(next, k);
                                }
                                assert(left.union_prefer_right(rest).insert(next, successor.0.1)
                                    =~= left.union_prefer_right(
                                    right,
                                ).insert(top, held).remove(*key));
                            }
                        }
                        *curr = Some(successor);
                    },
                    (Some(lower), None) => {
                        proof {
                            if exact::<T>() {
                                assert(right =~= Map::<T, K>::empty());
                                assert(left =~= left.union_prefer_right(right).insert(top,
                                    held).remove(*key));
                            }
                        }
                        *curr = Some(lower);
                    },
                    (None, Some(upper)) => {
                        proof {
                            if exact::<T>() {
                                assert(left =~= Map::<T, K>::empty());
                                assert(right =~= left.union_prefer_right(right).insert(top,
                                    held).remove(*key));
                            }
                        }
                        *curr = Some(upper);
                    },
                    (None, None) => {
                        proof {
                            if exact::<T>() {
                                assert(Map::<T, K>::empty()
                                    =~= left.union_prefer_right(right).insert(top, held).remove(*key));
                            }
                        }
                    },
                }
                Some(node)
            },
        }
    }

    /// Takes the node of the least key out of the tree below `curr`; what
    /// hung to its right takes its place.
    fn _take_min(curr: &mut Link<T, K>) -> (r: Link<T, K>)
        requires
            exact::<T>() ==> ordered(*old(curr)),
        ensures
            *old(curr) is None <==> r is None,
            *old(curr) is None ==> *final(curr) is None,
            exact::<T>() ==> ordered(*final(curr)),
            exact::<T>() ==> match r {
                Some(node) => Self::is_least(content(*old(curr)), node.0.0)
                    && node.0.1 == content(*old(curr))[node.0.0]
                    && content(*final(curr)) == content(*old(curr)).remove(node.0.0),
                None => true,
            },
        decreases *old(curr),
    {
        let goes_on: bool = match curr {
            Some(node) => node.1.is_some(),
            None => {
                return None;
            },
        };
        proof {
            if exact::<T>() {
                lemma_sides(*old(curr), ((*old(curr))->0).0.0);
                lemma_apart(*old(curr));
            }
        }
        if goes_on {
            match curr {
                Some(node) => {
                    let ghost left = content(node.1);
                    let ghost right = content(node.2);
                    let r = Self::_take_min(&mut node.1);
                    proof {
                        if exact::<T>() {
                            let low = (r->0).0.0;
                            assert(left.remove(low).union_prefer_right(right).insert(node.0.0, node.0.1)
                                =~= left.union_prefer_right(
                                right,
                            ).insert(node.0.0, node.0.1).remove(low));
                            assert forall|j: T| content(*old(curr)).contains_key(j)
                                implies at_most(low, j) by {
                                lemma_exact(low, node.0.0);
                                if !left.contains_key(j) {
                                    if j == node.0.0 {
                                    } else {
                                        lemma_exact(node.0.0, j);
                                        lemma_at_most_transitive(low, node.0.0, j);
                                    }
                                }
                            }
                        }
                    }
                    r
                },
                None => None,
            }
        } else {
            let mut node: Box<Node<T, K>> = curr.take().unwrap();
            let ghost right = content(node.2);
            *curr = node.2.take();
            proof {
                if exact::<T>() {
                    assert(content(node.1) =~= Map::<T, K>::empty());
                    assert(right =~= content(*old(curr)).remove(node.0.0));
                    assert forall|j: T| content(*old(curr)).contains_key(j) implies at_most(node.0.0, j) by {
                        lemma_exact(node.0.0, j);
                        lemma_at_most_reflexive(node.0.0);
                    }
                }
            }
            Some(node)
        }
    }

    /// Takes the node of the greatest key out of the tree below `curr`; what
    /// hung to its left takes its place.
    fn _take_max(curr: &mut Link<T, K>) -> (r: Link<T, K>)
        requires
            exact::<T>() ==> ordered(*old(curr)),
        ensures
            *old(curr) is None <==> r is None,
            *old(curr) is None ==> *final(curr) is None,
            exact::<T>() ==> ordered(*final(curr)),
            exact::<T>() ==> match r {
                Some(node) => Self::is_greatest(content(*old(curr)), node.0.0)
                    && node.0.1 == content(*old(curr))[node.0.0]
                    && content(*final(curr)) == content(*old(curr)).remove(node.0.0),
                None => true,
            },
        decreases *old(curr),
    {
        let goes_on: bool = match curr {
            Some(node) => node.2.is_some(),
            None => {
                return None;
            },
        };
        proof {
            if exact::<T>() {
                lemma_sides(*old(curr), ((*old(curr))->0).0.0);
                lemma_apart(*old(curr));
            }
        }
        if goes_on {
            match curr {
                Some(node) => {
                    let ghost left = content(node.1);
                    let ghost right = content(node.2);
                    let r = Self::_take_max(&mut node.2);
                    proof {
                        if exact::<T>() {
                            let high = (r->0).0.0;
                            assert(left.union_prefer_right(right.remove(high)).insert(node.0.0, node.0.1)
                                =~= left.union_prefer_right(
                                right,
                            ).insert(node.0.0, node.0.1).remove(high));
                            assert forall|j: T| content(*old(curr)).contains_key(j)
                                implies at_most(j, high) by {
                                lemma_exact(node.0.0, high);
                                if !right.contains_key(j) {
                                    if j == node.0.0 {
                                    } else {
                                        lemma_exact(j, node.0.0);
                                        lemma_at_most_transitive(j, node.0.0, high);
                                    }
                                }
                            }
                        }
                    }
                    r
                },
                None => None,
            }
        } else {
            let mut node: Box<Node<T, K>> = curr.take().unwrap();
            let ghost left = content(node.1);
            *curr = node.1.take();
            proof {
                if exact::<T>() {
                    assert(content(node.2) =~= Map::<T, K>::empty());
                    assert(left =~= content(*old(curr)).remove(node.0.0));
                    assert forall|j: T| content(*old(curr)).contains_key(j) implies at_most(j, node.0.0) by {
                        lemma_exact(j, node.0.0);
                        lemma_at_most_reflexive(node.0.0);
                    }
                }
            }
            Some(node)
        }
    }

    /// Takes the least key out of the map, and returns the value it had.
    pub fn take_min(&mut self) -> (r: Option<K>)
        requires
            old(self).wf(),
        ensures
            final(self).wf(),
            exact::<T>() ==> (r is None <==> old(self)@ == Map::<T, K>::empty()),
            exact::<T>() ==> (r matches Some(v) ==> exists|k: T|
                #[trigger] Self::is_least(old(self)@, k) && v == old(self)@[k]
                    && final(self)@ == old(self)@.remove(k)),
            r is None ==> final(self)@ == old(self)@,
    {
        proof {
            if self.root is None {
                assert(content(self.root) =~= Map::<T, K>::empty());
            } else if exact::<T>() {
                lemma_sides(self.root, (self.root->0).0.0);
            }
        }
        match Self::_take_min(&mut self.root) {
            Some(x) => {
                let node: Node<T, K> = *x;
                proof {
                    if exact::<T>() {
                        assert(Self::is_least(old(self)@, node.0.0));
                    }
                }
                Some(node.0.1)
            },
            None => None,
        }
    }

    /// Takes the greatest key out of the map, and returns the value it had.
    pub fn take_max(&mut self) -> (r: Option<K>)
        requires
            old(self).wf(),
        ensures
            final(self).wf(),
            exact::<T>() ==> (r is None <==> old(self)@ == Map::<T, K>::empty()),
            exact::<T>() ==> (r matches Some(v) ==> exists|k: T|
                #[trigger] Self::is_greatest(old(self)@, k) && v == old(self)@[k]
                    && final(self)@ == old(self)@.remove(k)),
            r is None ==> final(self)@ == old(self)@,
    {
        proof {
            if self.root is None {
                assert(content(self.root) =~= Map::<T, K>::empty());
            } else if exact::<T>() {
                lemma_sides(self.root, (self.root->0).0.0);
            }
        }
        match Self::_take_max(&mut self.root) {
            Some(x) => {
                let node: Node<T, K> = *x;
                proof {
                    if exact::<T>() {
                        assert(Self::is_greatest(old(self)@, node.0.0));
                    }
                }
                Some(node.0.1)
            },
            None => None,
        }
    }
}

} // verus!
