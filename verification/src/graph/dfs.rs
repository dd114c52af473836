use super::dfp::DFP;
use super::di_graph::{reachable, Graph, GraphError};
use vstd::prelude::*;

verus! {

/// The vertices that can be reached from one source, found depth first.
pub struct DFS {
    /// Whether the vertex can be reached.
    pub marked: Vec<bool>,
}

impl DFS {
    /// Searches `g` from `s`.
    pub fn new(g: &mut Graph, s: usize) -> (r: Result<DFS, GraphError>)
        requires
            old(g).wf(),
        ensures
            *final(g) == *old(g),
            s < old(g)@.len() <==> r is Ok,
            r is Err ==> r matches Err(GraphError::OutOfRange),
            r matches Ok(found) ==> found.marked@.len() == old(g)@.len() && forall|v: int|
                0 <= v < old(g)@.len()
                    ==> (#[trigger] found.marked@[v] <==> reachable(old(g)@, s, v as usize)),
    {
        if s >= g.get_v() {
            return Err(GraphError::OutOfRange);
        }
        Ok(DFS { marked: Self::dfs(g, s) })
    }

    /// Marks every vertex that can be reached from `s`.
    fn dfs(g: &mut Graph, s: usize) -> (m: Vec<bool>)
        requires
            old(g).wf(),
            s < old(g)@.len(),
        ensures
            *final(g) == *old(g),
            m@.len() == old(g)@.len(),
            forall|v: int| 0 <= v < old(g)@.len()
                ==> (#[trigger] m@[v] <==> reachable(old(g)@, s, v as usize)),
    {
        DFP::new(g, s).unwrap().marked
    }
}

} // verus!
