use super::di_graph::GraphError;
use core::cmp::Ordering;
use vstd::prelude::*;

verus! {

/// An edge between two vertices, with a weight.
#[derive(Clone, Copy, Debug)]
pub struct Edge {
    v: usize,
    w: usize,
    pub weight: u128,
}

impl Edge {
    /// The endpoint that `either` returns.
    pub closed spec fn first(&self) -> usize {
        self.v
    }

    /// The other endpoint; for a loop, the same.
    pub closed spec fn second(&self) -> usize {
        self.w
    }

    /// The weight.
    pub closed spec fn cost(&self) -> u128 {
        self.weight
    }

    /// `x` is an endpoint of the edge.
    pub open spec fn touches(&self, x: usize) -> bool {
        x == self.first() || x == self.second()
    }

    /// The endpoint opposite `x`.
    pub open spec fn other_end(&self, x: usize) -> usize {
        if x == self.first() {
            self.second()
        } else {
            self.first()
        }
    }

    /// The edge between `v` and `w` of weight `weight`.
    pub fn new(v: usize, w: usize, weight: u128) -> (e: Edge)
        ensures
            e.first() == v,
            e.second() == w,
            e.cost() == weight,
    {
        Edge { v, w, weight }
    }

    /// One endpoint.
    pub fn either(&self) -> (x: usize)
        ensures
            x == self.first(),
    {
        self.v
    }

    /// The endpoint opposite `vertex`.
    pub fn other(&self, vertex: usize) -> (r: Result<usize, GraphError>)
        ensures
            self.touches(vertex) ==> r == Ok::<usize, GraphError>(self.other_end(vertex)),
            !self.touches(vertex) ==> r == Err::<usize, GraphError>(GraphError::InvalidEndpoint),
    {
        if vertex == self.v {
            Ok(self.w)
        } else if vertex == self.w {
            Ok(self.v)
        } else {
            Err(GraphError::InvalidEndpoint)
        }
    }

    /// How the weight of this edge stands to the weight of `that`.
    pub fn cmp(&self, that: &Edge) -> (o: Ordering)
        ensures
            o == Ordering::Less <==> self.cost() < that.cost(),
            o == Ordering::Equal <==> self.cost() == that.cost(),
            o == Ordering::Greater <==> self.cost() > that.cost(),
    {
        if self.weight < that.weight {
            Ordering::Less
        } else if self.weight == that.weight {
            Ordering::Equal
        } else {
            Ordering::Greater
        }
    }

    /// The weight.
    pub fn weight(&self) -> (x: u128)
        ensures
            x == self.cost(),
    {
        self.weight
    }

    /// A copy of the edge.
    pub fn clone(&self) -> (e: Edge)
        ensures
            e == *self,
    {
        Edge { v: self.v, w: self.w, weight: self.weight }
    }
}

} // verus!
