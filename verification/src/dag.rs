//! The acyclicity oracle: a mirror of the graph's topology kept in a
//! `daggy::Dag`, which refuses any edge that would close a directed cycle.
//!
//! The engine stores nodes and edges itself; the mirror carries the same
//! edge list (same indices, in the same order) and is consulted when an
//! edge is added.  The model of a mirror is its node count and its edge
//! list as `(source, target)` pairs.

use vstd::prelude::*;

use crate::paths::acyclic;
use crate::paths::reaches;

verus! {

/// A mirror of the graph's topology: node count and edge list only, held
/// in a `daggy::Dag` whose edge insertion performs the cycle check.
#[verifier::external_body]
pub struct DagMirror {
    inner: daggy::Dag<(), u8>,
}

/// The number of nodes a mirror holds.
pub uninterp spec fn dag_node_count(d: DagMirror) -> int;

/// The edges a mirror holds, as `(source, target)` pairs in insertion
/// order, later removals moving the last pair into the removed slot.
pub uninterp spec fn dag_edges(d: DagMirror) -> Seq<(int, int)>;

impl DagMirror {
    /// Relies on `daggy::Dag::new` creating a graph with no nodes and no
    /// edges.
    #[verifier::external_body]
    pub(crate) fn new() -> (d: DagMirror)
        ensures
            dag_node_count(d) == 0,
            dag_edges(d) == Seq::<(int, int)>::empty(),
    {
        DagMirror { inner: daggy::Dag::new() }
    }

    /// Relies on `daggy::Dag::add_node` appending one node under the next
    /// index and leaving the edges alone.
    #[verifier::external_body]
    pub(crate) fn add_node(&mut self) -> (r: usize)
        requires
            dag_node_count(*old(self)) < 0x7fff_ffff,
        ensures
            r == dag_node_count(*old(self)),
            dag_node_count(*final (self)) == dag_node_count(*old(self)) + 1,
            dag_edges(*final (self)) == dag_edges(*old(self)),
    {
        self.inner.add_node(()).index()
    }

    /// Relies on `daggy::Dag::add_edge`: when no path leads from `b` back
    /// to `a` (daggy's cycle check, `a == b` counting as such a path), the
    /// edge `a -> b` is appended under the next edge index and `true` is
    /// returned; otherwise the graph is unchanged and `false` is returned.
    /// daggy skips the explicit path search where the graph's shape rules a
    /// path out (`a` without parents, `b` without children, or the edge
    /// already present); on an acyclic graph, as required here, those are
    /// exactly the cases where no path from `b` to `a` can exist.
    #[verifier::external_body]
    pub(crate) fn add_edge(&mut self, a: usize, b: usize, w: u8) -> (r: bool)
        requires
            a < dag_node_count(*old(self)),
            b < dag_node_count(*old(self)),
            dag_edges(*old(self)).len() < 0x7fff_ffff,
            acyclic(dag_edges(*old(self))),
        ensures
            dag_node_count(*final (self)) == dag_node_count(*old(self)),
            r ==> dag_edges(*final (self)) == dag_edges(*old(self)).push((a as int, b as int)),
            r ==> !reaches(dag_edges(*old(self)), b as int, a as int),
            !r ==> dag_edges(*final (self)) == dag_edges(*old(self)),
            !r ==> reaches(dag_edges(*old(self)), b as int, a as int),
    {
        self.inner.add_edge(daggy::NodeIndex::new(a), daggy::NodeIndex::new(b), w).is_ok()
    }

    /// Relies on `daggy::Dag::remove_edge`, which forwards to petgraph's
    /// `Graph::remove_edge`: the edge at index `e` is removed and the edge
    /// at the last index is moved into its place.
    #[verifier::external_body]
    pub(crate) fn remove_edge(&mut self, e: usize)
        requires
            e < dag_edges(*old(self)).len(),
        ensures
            dag_node_count(*final (self)) == dag_node_count(*old(self)),
            dag_edges(*final (self)) == dag_edges(*old(self)).update(
                e as int,
                dag_edges(*old(self)).last(),
            ).drop_last(),
    {
        let _ = self.inner.remove_edge(daggy::EdgeIndex::new(e));
    }
}

} // verus!
