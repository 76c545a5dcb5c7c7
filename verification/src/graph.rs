//! The task graph: nodes, typed wires, and the construction API.
//!
//! The graph owns the node set and the edge set, keeps at most one incoming
//! edge per `(child, slot)` pair, admits an edge only when the producer's
//! declared output fingerprint equals the consumer's declared input
//! fingerprint at the wired slot, and stays acyclic.

use vstd::prelude::*;

use crate::any::TypeInfo;
use crate::any::Value;
use crate::curry::CurriedTask;
use crate::curry::TryTask;
use crate::dag::dag_edges;
use crate::dag::dag_node_count;
use crate::dag::DagMirror;
use crate::error::Error;
use crate::error::ErrorWithTask;
use crate::paths::acyclic;
use crate::paths::lemma_acyclic_push;
use crate::paths::lemma_acyclic_sub;
use crate::paths::lemma_not_reaches_no_incoming;
use crate::paths::reaches;
use crate::tuple::TupleIndex;

verus! {

/// Node identifier: the position of the node in the graph's node list.
/// Handles are stable: nodes are never removed.
pub type NodeIndex = usize;

/// Edge payload: the input index within the consumer's input list.
pub type Edge = TupleIndex;

/// Node type.
///
/// A node is either a curried task waiting for inputs, running (with its
/// declared output type), or the recorded successful output of a completed
/// task.
pub enum Node<V> {
    /// A curried task; the only state in which dependencies may be edited.
    Curry(CurriedTask<V>),
    /// A running node: the task has been handed out for execution and only
    /// its declared output fingerprint is kept here.
    Running(TypeInfo),
    /// A successful output from a completed task.
    Value {
        /// The output value.
        value: Value<V>,
        /// The declared output fingerprint.
        type_info: TypeInfo,
    },
}

/// One wire: the parent's output feeds the child's input slot.
#[derive(Clone, Copy)]
pub struct EdgeRec {
    /// The producing node.
    pub parent: NodeIndex,
    /// The consuming node.
    pub child: NodeIndex,
    /// The consumed input position.
    pub slot: Edge,
}

/// The declared shape of a node's task, kept for every node whatever its
/// state: the input fingerprint identities, in slot order, and the output
/// fingerprint identity.
pub struct Decl {
    /// The identity of each declared input.
    pub inputs: Seq<std::any::TypeId>,
    /// The identity of the declared output.
    pub output: std::any::TypeId,
}

/// The declared shape of a task.
pub open spec fn decl_of(task: TryTask) -> Decl {
    Decl {
        inputs: task.inputs@.map_values(|t: TypeInfo| t.spec_id()),
        output: task.output.spec_id(),
    }
}

/// The node's state matches its declaration.
pub open spec fn node_matches_decl<V>(n: Node<V>, d: Decl) -> bool {
    match n {
        Node::Curry(ct) => {
            &&& ct.wf()
            &&& ct.spec_types().len() == d.inputs.len()
            &&& forall|i: int|
                0 <= i < d.inputs.len() ==> (#[trigger] ct.spec_types()[i]).spec_id()
                    == d.inputs[i]
            &&& ct.spec_output().spec_id() == d.output
        },
        Node::Running(ti) => ti.spec_id() == d.output,
        Node::Value { value: _, type_info } => type_info.spec_id() == d.output,
    }
}

/// The node's stored output fingerprint, available in every state.
pub open spec fn node_output_info<V>(n: Node<V>) -> TypeInfo {
    match n {
        Node::Curry(ct) => ct.spec_output(),
        Node::Running(ti) => ti,
        Node::Value { value: _, type_info } => type_info,
    }
}

/// The edge `e` names `(child, slot)`.
pub open spec fn dep_matches(e: EdgeRec, child: int, slot: int) -> bool {
    e.child as int == child && e.slot as int == slot
}

/// An async task DAG.
pub struct TryGraph<V> {
    pub(crate) nodes: Vec<Node<V>>,
    pub(crate) edges: Vec<EdgeRec>,
    pub(crate) mirror: DagMirror,
    pub(crate) decls: Ghost<Seq<Decl>>,
}

impl<V> TryGraph<V> {
    /// The nodes, in creation order.
    pub open(crate) spec fn spec_nodes(self) -> Seq<Node<V>> {
        self.nodes@
    }

    /// The wires.
    pub open(crate) spec fn spec_edges(self) -> Seq<EdgeRec> {
        self.edges@
    }

    /// The declared shape of every node's task.
    pub open(crate) spec fn spec_decls(self) -> Seq<Decl> {
        self.decls@
    }

    /// The wires as `(parent, child)` pairs.
    pub open spec fn spec_pairs(self) -> Seq<(int, int)> {
        Seq::new(
            self.spec_edges().len(),
            |k: int| (self.spec_edges()[k].parent as int, self.spec_edges()[k].child as int),
        )
    }

    /// The edge `k` is internally consistent: its endpoints exist, its slot
    /// is one of the child's declared inputs, and the parent's declared
    /// output fingerprint is the child's declared input fingerprint there.
    pub open spec fn edge_ok(self, e: EdgeRec) -> bool {
        &&& (e.parent as int) < self.spec_nodes().len()
        &&& (e.child as int) < self.spec_nodes().len()
        &&& (e.slot as int) < self.spec_decls()[e.child as int].inputs.len()
        &&& self.spec_decls()[e.parent as int].output == self.spec_decls()[
            e.child as int
        ].inputs[e.slot as int]
    }

    /// The graph's invariant: one declaration per node, every node matching
    /// its declaration, every wire type-correct, at most one wire per
    /// `(child, slot)`, the mirror aligned with the wires, and no cycle.
    pub open(crate) spec fn wf(self) -> bool {
        &&& self.spec_decls().len() == self.spec_nodes().len()
        &&& self.spec_nodes().len() < 0x7fff_ffff
        &&& self.spec_edges().len() < 0x7fff_ffff
        &&& dag_node_count(self.mirror) == self.spec_nodes().len() as int
        &&& dag_edges(self.mirror) == self.spec_pairs()
        &&& forall|k: int|
            0 <= k < self.spec_edges().len() ==> self.edge_ok(#[trigger] self.spec_edges()[k])
        &&& forall|k1: int, k2: int|
            0 <= k1 < k2 < self.spec_edges().len() ==> !(dep_matches(
                #[trigger] self.spec_edges()[k1],
                self.spec_edges()[k2].child as int,
                #[trigger] self.spec_edges()[k2].slot as int,
            ))
        &&& forall|i: int|
            0 <= i < self.spec_nodes().len() ==> node_matches_decl(
                #[trigger] self.spec_nodes()[i],
                self.spec_decls()[i],
            )
        &&& acyclic(self.spec_pairs())
    }

    /// Some wire feeds `(child, slot)`.
    pub open spec fn spec_has_dep(self, child: int, slot: int) -> bool {
        exists|k: int|
            0 <= k < self.spec_edges().len() && dep_matches(
                #[trigger] self.spec_edges()[k],
                child,
                slot,
            )
    }

    /// The producer wired into `(child, slot)`.
    pub open spec fn spec_dep_parent(self, child: int, slot: int) -> int {
        self.spec_edges()[
            choose|k: int|
                0 <= k < self.spec_edges().len() && dep_matches(
                    #[trigger] self.spec_edges()[k],
                    child,
                    slot,
                )
        ].parent as int
    }

    /// Creates an empty graph.
    pub fn new() -> (g: TryGraph<V>)
        ensures
            g.wf(),
            g.spec_nodes().len() == 0,
            g.spec_edges().len() == 0,
    {
        let g = TryGraph {
            nodes: Vec::new(),
            edges: Vec::new(),
            mirror: DagMirror::new(),
            decls: Ghost(Seq::empty()),
        };
        proof {
            assert(g.spec_pairs() =~= Seq::<(int, int)>::empty());
            crate::paths::lemma_acyclic_empty();
        }
        g
    }

    /// Adds a task without dependencies and returns the node's handle.
    pub fn add_try_task(&mut self, task: TryTask) -> (r: NodeIndex)
        requires
            old(self).wf(),
            task.wf(),
            old(self).spec_nodes().len() + 1 < 0x7fff_ffff,
        ensures
            final (self).wf(),
            r as int == old(self).spec_nodes().len(),
            final (self).spec_edges() == old(self).spec_edges(),
            final (self).spec_decls() == old(self).spec_decls().push(decl_of(task)),
            final (self).spec_nodes().len() == old(self).spec_nodes().len() + 1,
            forall|i: int|
                0 <= i < old(self).spec_nodes().len() ==> final (self).spec_nodes()[i] == old(
                    self,
                ).spec_nodes()[i],
            final (self).spec_nodes().last() matches Node::Curry(ct) && {
                &&& ct.spec_tag() == task.tag
                &&& ct.spec_output() == task.output
                &&& ct.spec_types() == task.inputs@
                &&& forall|i: int|
                    0 <= i < ct.spec_cells().len() ==> (#[trigger] ct.spec_cells()[i]) is None
            },
    {
        let idx = self.mirror.add_node();
        let ct = CurriedTask::new(task);
        self.nodes.push(Node::Curry(ct));
        proof {
            self.decls@ = self.decls@.push(decl_of(task));
        }
        assert(final (self).spec_pairs() =~= old(self).spec_pairs());
        idx
    }

    /// Checks that `child` may take a new dependency at `index` from a
    /// producer whose declared output fingerprint is `output_type_info`.
    pub fn type_check(&self, child: NodeIndex, index: Edge, output_type_info: TypeInfo) -> (r:
        Result<(), Error>)
        requires
            self.wf(),
            (child as int) < self.spec_nodes().len(),
        ensures
            match r {
                Ok(()) => {
                    &&& self.spec_nodes()[child as int] is Curry
                    &&& (index as int) < self.spec_decls()[child as int].inputs.len()
                    &&& output_type_info.spec_id() == self.spec_decls()[child as int].inputs[
                        index as int
                    ]
                },
                Err(e) => match e {
                    Error::HasStarted(i) => i == child && !(self.spec_nodes()[
                        child as int
                    ] is Curry),
                    Error::OutOfRange(len) => {
                        &&& self.spec_nodes()[child as int] is Curry
                        &&& (index as int) >= self.spec_decls()[child as int].inputs.len()
                        &&& len as int == self.spec_decls()[child as int].inputs.len()
                    },
                    Error::TypeMismatch { input, output } => {
                        &&& self.spec_nodes()[child as int] is Curry
                        &&& (index as int) < self.spec_decls()[child as int].inputs.len()
                        &&& input.spec_id() == self.spec_decls()[child as int].inputs[index as int]
                        &&& output == output_type_info
                        &&& output_type_info.spec_id() != self.spec_decls()[child as int].inputs[
                            index as int
                        ]
                    },
                    Error::WouldCycle => false,
                },
            },
    {
        match &self.nodes[child] {
            Node::Curry(curry) => {
                match curry.input_type_info(index) {
                    None => Err(Error::OutOfRange(curry.num_inputs())),
                    Some(input_type_info) => check_type_equality(input_type_info, output_type_info),
                }
            },
            _ => Err(Error::HasStarted(child)),
        }
    }

    /// The declared output fingerprint of `index`, known in every state.
    pub fn output_type_info(&self, index: NodeIndex) -> (r: TypeInfo)
        requires
            self.wf(),
            (index as int) < self.spec_nodes().len(),
        ensures
            r == node_output_info(self.spec_nodes()[index as int]),
            r.spec_id() == self.spec_decls()[index as int].output,
    {
        match &self.nodes[index] {
            Node::Curry(curry) => curry.output_type_info(),
            Node::Running(type_info) => *type_info,
            Node::Value { value: _, type_info } => *type_info,
        }
    }

    /// Gets the output value of `node`.
    ///
    /// Returns `None` if the node's task hasn't finished running or the
    /// recorded value's fingerprint differs from `expected`.
    pub fn get_value(&self, node: NodeIndex, expected: &TypeInfo) -> (r: Option<V>) where
        V: Copy

        requires
            self.wf(),
            (node as int) < self.spec_nodes().len(),
        ensures
            r == (match self.spec_nodes()[node as int] {
                Node::Value { value, type_info: _ } => if value.info.spec_id()
                    == expected.spec_id() {
                    Some(value.data)
                } else {
                    None
                },
                _ => None,
            }),
    {
        match &self.nodes[node] {
            Node::Value { value, type_info: _ } => {
                match crate::any::downcast(*value, expected) {
                    Ok(data) => Some(data),
                    Err(_) => None,
                }
            },
            _ => None,
        }
    }

    /// Finds the index of the wire feeding `(child, index)`, if any.
    fn find_dependency(&self, child: NodeIndex, index: Edge) -> (r: Option<usize>)
        ensures
            match r {
                Some(k) => (k as int) < self.spec_edges().len() && dep_matches(
                    self.spec_edges()[k as int],
                    child as int,
                    index as int,
                ),
                None => !self.spec_has_dep(child as int, index as int),
            },
    {
        let mut k: usize = 0;
        while k < self.edges.len()
            invariant
                k <= self.spec_edges().len(),
                forall|j: int|
                    0 <= j < k ==> !dep_matches(
                        #[trigger] self.spec_edges()[j],
                        child as int,
                        index as int,
                    ),
            decreases self.spec_edges().len() - k,
        {
            let e = self.edges[k];
            if e.child == child && e.slot == index {
                return Some(k);
            }
            k = k + 1;
        }
        None
    }

    /// Removes `child`'s dependency at `index` if it has one.
    ///
    /// Returns `true` if `child` had a dependency at `index` before the
    /// removal.  No other wire, node or declaration is touched.
    pub fn remove_dependency(&mut self, child: NodeIndex, index: Edge) -> (r: bool)
        requires
            old(self).wf(),
        ensures
            final (self).wf(),
            final (self).spec_nodes() == old(self).spec_nodes(),
            final (self).spec_decls() == old(self).spec_decls(),
            r == old(self).spec_has_dep(child as int, index as int),
            !final (self).spec_has_dep(child as int, index as int),
            same_deps_except(*old(self), *final (self), child as int, index as int),
            !r ==> *final (self) == *old(self),
            r ==> final (self).spec_edges().len() == old(self).spec_edges().len() - 1,
    {
        match self.find_dependency(child, index) {
            None => {
                proof {
                    lemma_same_deps_refl(*self, child as int, index as int);
                }
                false
            },
            Some(k) => {
                self.mirror.remove_edge(k);
                let _ = self.edges.swap_remove(k);
                proof {
                    lemma_remove_dep_ok(*old(self), *self, k as int, child as int, index as int);
                }
                true
            },
        }
    }

    /// Sets `parent` as `child`'s dependency at `index`.
    ///
    /// Any wire already feeding `(child, index)` is replaced.  On every
    /// error (`HasStarted`, `OutOfRange`, `TypeMismatch` or `WouldCycle`)
    /// the graph is exactly as it was before the call.
    pub fn update_dependency(&mut self, parent: NodeIndex, child: NodeIndex, index: Edge) -> (r:
        Result<(), Error>)
        requires
            old(self).wf(),
            (parent as int) < old(self).spec_nodes().len(),
            (child as int) < old(self).spec_nodes().len(),
            old(self).spec_edges().len() + 1 < 0x7fff_ffff,
        ensures
            final (self).wf(),
            final (self).spec_nodes() == old(self).spec_nodes(),
            final (self).spec_decls() == old(self).spec_decls(),
            match r {
                Ok(()) => {
                    &&& old(self).spec_nodes()[child as int] is Curry
                    &&& (index as int) < old(self).spec_decls()[child as int].inputs.len()
                    &&& !reaches(old(self).spec_pairs(), child as int, parent as int)
                    &&& final (self).spec_has_dep(child as int, index as int)
                    &&& final (self).spec_dep_parent(child as int, index as int) == parent as int
                    &&& same_deps_except(*old(self), *final (self), child as int, index as int)
                },
                Err(e) => {
                    &&& same_graph(*old(self), *final (self))
                    &&& match e {
                        Error::HasStarted(i) => i == child && !(old(self).spec_nodes()[
                            child as int
                        ] is Curry),
                        Error::OutOfRange(len) => {
                            &&& old(self).spec_nodes()[child as int] is Curry
                            &&& (index as int) >= old(self).spec_decls()[child as int].inputs.len()
                            &&& len as int == old(self).spec_decls()[child as int].inputs.len()
                        },
                        Error::TypeMismatch { input, output } => {
                            &&& old(self).spec_nodes()[child as int] is Curry
                            &&& (index as int) < old(self).spec_decls()[child as int].inputs.len()
                            &&& input.spec_id() == old(self).spec_decls()[child as int].inputs[
                                index as int
                            ]
                            &&& output == node_output_info(old(self).spec_nodes()[parent as int])
                            &&& output.spec_id() != old(self).spec_decls()[child as int].inputs[
                                index as int
                            ]
                        },
                        Error::WouldCycle => {
                            &&& old(self).spec_nodes()[child as int] is Curry
                            &&& (index as int) < old(self).spec_decls()[child as int].inputs.len()
                            &&& reaches(old(self).spec_pairs(), child as int, parent as int)
                        },
                    }
                },
            },
    {
        let out_info = self.output_type_info(parent);
        match self.type_check(child, index, out_info) {
            Err(e) => {
                return Err(e);
            },
            Ok(()) => {},
        }
        let existing = self.find_dependency(child, index);
        let ok = self.mirror.add_edge(parent, child, index);
        if !ok {
            return Err(Error::WouldCycle);
        }
        let new_edge = EdgeRec { parent, child, slot: index };
        self.edges.push(new_edge);
        match existing {
            None => {
                proof {
                    lemma_update_dep_fresh(*old(self), *self, new_edge);
                }
            },
            Some(k) => {
                self.mirror.remove_edge(k);
                let _ = self.edges.swap_remove(k);
                proof {
                    lemma_update_dep_replace(*old(self), *self, new_edge, k as int);
                }
            },
        }
        Ok(())
    }

    /// Adds a task and wires it as `child`'s dependency at `index`.
    ///
    /// Any wire already feeding `(child, index)` is replaced; the old
    /// producer node remains in the graph.  On error the graph is unchanged
    /// and the task is handed back unconsumed.
    pub fn add_parent_try_task(&mut self, task: TryTask, child: NodeIndex, index: Edge) -> (r:
        Result<NodeIndex, ErrorWithTask<TryTask>>)
        requires
            old(self).wf(),
            task.wf(),
            (child as int) < old(self).spec_nodes().len(),
            old(self).spec_nodes().len() + 1 < 0x7fff_ffff,
            old(self).spec_edges().len() + 1 < 0x7fff_ffff,
        ensures
            final (self).wf(),
            match r {
                Ok(idx) => {
                    &&& idx as int == old(self).spec_nodes().len()
                    &&& old(self).spec_nodes()[child as int] is Curry
                    &&& (index as int) < old(self).spec_decls()[child as int].inputs.len()
                    &&& task.output.spec_id() == old(self).spec_decls()[child as int].inputs[
                        index as int
                    ]
                    &&& final (self).spec_decls() == old(self).spec_decls().push(decl_of(task))
                    &&& final (self).spec_nodes().len() == old(self).spec_nodes().len() + 1
                    &&& forall|i: int|
                        0 <= i < old(self).spec_nodes().len() ==> final (self).spec_nodes()[i]
                            == old(self).spec_nodes()[i]
                    &&& final (self).spec_nodes().last() matches Node::Curry(ct) && {
                        &&& ct.spec_tag() == task.tag
                        &&& ct.spec_output() == task.output
                        &&& ct.spec_types() == task.inputs@
                        &&& forall|i: int|
                            0 <= i < ct.spec_cells().len() ==> (#[trigger] ct.spec_cells()[
                                i
                            ]) is None
                    }
                    &&& final (self).spec_has_dep(child as int, index as int)
                    &&& final (self).spec_dep_parent(child as int, index as int) == idx as int
                    &&& same_deps_except(*old(self), *final (self), child as int, index as int)
                },
                Err(e) => {
                    &&& same_graph(*old(self), *final (self))
                    &&& e.task == task
                    &&& match e.error {
                        Error::HasStarted(i) => i == child && !(old(self).spec_nodes()[
                            child as int
                        ] is Curry),
                        Error::OutOfRange(len) => {
                            &&& old(self).spec_nodes()[child as int] is Curry
                            &&& (index as int) >= old(self).spec_decls()[child as int].inputs.len()
                            &&& len as int == old(self).spec_decls()[child as int].inputs.len()
                        },
                        Error::TypeMismatch { input, output } => {
                            &&& old(self).spec_nodes()[child as int] is Curry
                            &&& (index as int) < old(self).spec_decls()[child as int].inputs.len()
                            &&& input.spec_id() == old(self).spec_decls()[child as int].inputs[
                                index as int
                            ]
                            &&& output == task.output
                            &&& output.spec_id() != old(self).spec_decls()[child as int].inputs[
                                index as int
                            ]
                        },
                        Error::WouldCycle => false,
                    }
                },
            },
    {
        let out_info = task.output;
        match self.type_check(child, index, out_info) {
            Err(error) => {
                return Err(ErrorWithTask { error, task });
            },
            Ok(()) => {},
        }
        let _ = self.remove_dependency(child, index);
        let ghost mid = *self;
        let new_idx = self.add_try_task(task);
        let ghost grown = *self;
        let ok = self.mirror.add_edge(new_idx, child, index);
        proof {
            assert forall|x: (int, int)| #[trigger] grown.spec_pairs().contains(x) implies x.1
                != new_idx as int by {
                let j = choose|j: int|
                    0 <= j < grown.spec_pairs().len() && grown.spec_pairs()[j] == x;
                assert(grown.edge_ok(grown.spec_edges()[j]));
                assert(mid.spec_edges() == grown.spec_edges());
                assert(mid.edge_ok(mid.spec_edges()[j]));
            }
            lemma_not_reaches_no_incoming(grown.spec_pairs(), child as int, new_idx as int);
        }
        if !ok {
            return unreached();
        }
        let e = EdgeRec { parent: new_idx, child, slot: index };
        self.edges.push(e);
        proof {
            lemma_update_dep_fresh(grown, *self, e);
            assert(same_deps_except(*old(self), *self, child as int, index as int)) by {
                assert forall|c2: int, s2: int|
                    !(c2 == child as int && s2 == index as int) implies (
                #[trigger] self.spec_has_dep(c2, s2)) == old(self).spec_has_dep(c2, s2) && (
                self.spec_has_dep(c2, s2) ==> self.spec_dep_parent(c2, s2) == old(
                    self,
                ).spec_dep_parent(c2, s2)) by {
                    assert((#[trigger] mid.spec_has_dep(c2, s2)) == old(self).spec_has_dep(c2, s2)
                        && (mid.spec_has_dep(c2, s2) ==> mid.spec_dep_parent(c2, s2) == old(
                        self,
                    ).spec_dep_parent(c2, s2)));
                    assert(grown.spec_has_dep(c2, s2) == mid.spec_has_dep(c2, s2) && (
                    grown.spec_has_dep(c2, s2) ==> grown.spec_dep_parent(c2, s2)
                        == mid.spec_dep_parent(c2, s2))) by {
                        assert(grown.spec_edges() == mid.spec_edges());
                    }
                    assert((#[trigger] self.spec_has_dep(c2, s2)) == grown.spec_has_dep(c2, s2)
                        && (self.spec_has_dep(c2, s2) ==> self.spec_dep_parent(c2, s2)
                        == grown.spec_dep_parent(c2, s2)));
                }
            }
        }
        Ok(new_idx)
    }

    /// Adds a task and wires `parent` as its dependency at `index`.
    ///
    /// `parent` need not still be editable: its declared output type is
    /// known in every state.  On error the graph is unchanged and the task
    /// is handed back unconsumed.
    pub fn add_child_try_task(&mut self, parent: NodeIndex, task: TryTask, index: Edge) -> (r:
        Result<NodeIndex, ErrorWithTask<TryTask>>)
        requires
            old(self).wf(),
            task.wf(),
            (parent as int) < old(self).spec_nodes().len(),
            old(self).spec_nodes().len() + 1 < 0x7fff_ffff,
            old(self).spec_edges().len() + 1 < 0x7fff_ffff,
        ensures
            final (self).wf(),
            match r {
                Ok(idx) => {
                    &&& idx as int == old(self).spec_nodes().len()
                    &&& (index as int) < task.inputs@.len()
                    &&& task.inputs@[index as int].spec_id() == old(self).spec_decls()[
                        parent as int
                    ].output
                    &&& final (self).spec_decls() == old(self).spec_decls().push(decl_of(task))
                    &&& final (self).spec_nodes().len() == old(self).spec_nodes().len() + 1
                    &&& forall|i: int|
                        0 <= i < old(self).spec_nodes().len() ==> final (self).spec_nodes()[i]
                            == old(self).spec_nodes()[i]
                    &&& final (self).spec_nodes().last() matches Node::Curry(ct) && {
                        &&& ct.spec_tag() == task.tag
                        &&& ct.spec_output() == task.output
                        &&& ct.spec_types() == task.inputs@
                        &&& forall|i: int|
                            0 <= i < ct.spec_cells().len() ==> (#[trigger] ct.spec_cells()[
                                i
                            ]) is None
                    }
                    &&& final (self).spec_has_dep(idx as int, index as int)
                    &&& final (self).spec_dep_parent(idx as int, index as int) == parent as int
                    &&& same_deps_except(*old(self), *final (self), idx as int, index as int)
                },
                Err(e) => {
                    &&& same_graph(*old(self), *final (self))
                    &&& e.task == task
                    &&& match e.error {
                        Error::OutOfRange(len) => {
                            &&& (index as int) >= task.inputs@.len()
                            &&& len as int == task.inputs@.len()
                        },
                        Error::TypeMismatch { input, output } => {
                            &&& (index as int) < task.inputs@.len()
                            &&& input == task.inputs@[index as int]
                            &&& output == node_output_info(old(self).spec_nodes()[parent as int])
                            &&& input.spec_id() != old(self).spec_decls()[parent as int].output
                        },
                        _ => false,
                    }
                },
            },
    {
        if (index as usize) >= task.inputs.len() {
            let len = task.inputs.len() as u8;
            return Err(ErrorWithTask { error: Error::OutOfRange(len), task });
        }
        let input_info = task.inputs[index as usize];
        let out_info = self.output_type_info(parent);
        match check_type_equality(input_info, out_info) {
            Err(error) => {
                return Err(ErrorWithTask { error, task });
            },
            Ok(()) => {},
        }
        let new_idx = self.add_try_task(task);
        let ghost grown = *self;
        let ok = self.mirror.add_edge(parent, new_idx, index);
        proof {
            assert forall|x: (int, int)| #[trigger] grown.spec_pairs().contains(x) implies x.0
                != new_idx as int by {
                let j = choose|j: int|
                    0 <= j < grown.spec_pairs().len() && grown.spec_pairs()[j] == x;
                assert(old(self).edge_ok(old(self).spec_edges()[j]));
            }
            crate::paths::lemma_not_reaches_no_outgoing(
                grown.spec_pairs(),
                new_idx as int,
                parent as int,
            );
        }
        if !ok {
            return unreached();
        }
        let e = EdgeRec { parent, child: new_idx, slot: index };
        self.edges.push(e);
        proof {
            assert(!grown.spec_has_dep(new_idx as int, index as int)) by {
                if grown.spec_has_dep(new_idx as int, index as int) {
                    let j = choose|j: int|
                        0 <= j < grown.spec_edges().len() && dep_matches(
                            #[trigger] grown.spec_edges()[j],
                            new_idx as int,
                            index as int,
                        );
                    assert(old(self).edge_ok(old(self).spec_edges()[j]));
                }
            }
            lemma_update_dep_fresh(grown, *self, e);
            assert(same_deps_except(*old(self), *self, new_idx as int, index as int)) by {
                assert forall|c2: int, s2: int|
                    !(c2 == new_idx as int && s2 == index as int) implies (
                #[trigger] self.spec_has_dep(c2, s2)) == old(self).spec_has_dep(c2, s2) && (
                self.spec_has_dep(c2, s2) ==> self.spec_dep_parent(c2, s2) == old(
                    self,
                ).spec_dep_parent(c2, s2)) by {
                    assert(grown.spec_edges() == old(self).spec_edges());
                    assert((#[trigger] grown.spec_has_dep(c2, s2)) == old(self).spec_has_dep(
                        c2,
                        s2,
                    ) && (grown.spec_has_dep(c2, s2) ==> grown.spec_dep_parent(c2, s2) == old(
                        self,
                    ).spec_dep_parent(c2, s2)));
                    assert((#[trigger] self.spec_has_dep(c2, s2)) == grown.spec_has_dep(c2, s2)
                        && (self.spec_has_dep(c2, s2) ==> self.spec_dep_parent(c2, s2)
                        == grown.spec_dep_parent(c2, s2)));
                }
            }
        }
        Ok(new_idx)
    }

    /// Converts the graph into its list of nodes, in handle order, so the
    /// caller can retrieve the run's outcome per node.
    pub fn into_nodes(self) -> (r: Vec<Node<V>>)
        ensures
            r@ == self.spec_nodes(),
    {
        let TryGraph { nodes, edges: _, mirror: _, decls: _ } = self;
        nodes
    }
}

/// Checks that a consumer's declared `input` fingerprint and a producer's
/// declared `output` fingerprint agree.
pub fn check_type_equality(input: TypeInfo, output: TypeInfo) -> (r: Result<(), Error>)
    ensures
        match r {
            Ok(()) => input.spec_id() == output.spec_id(),
            Err(e) => {
                &&& input.spec_id() != output.spec_id()
                &&& e == (Error::TypeMismatch { input, output })
            },
        },
{
    if input.same_id(&output) {
        Ok(())
    } else {
        Err(Error::TypeMismatch { input, output })
    }
}

/// The two graphs are the same in every respect the model sees: nodes,
/// wires, declarations, and the mirror's topology.
pub open(crate) spec fn same_graph<V>(g0: TryGraph<V>, g1: TryGraph<V>) -> bool {
    &&& g1.spec_nodes() == g0.spec_nodes()
    &&& g1.spec_edges() == g0.spec_edges()
    &&& g1.spec_decls() == g0.spec_decls()
    &&& dag_node_count(g1.mirror) == dag_node_count(g0.mirror)
    &&& dag_edges(g1.mirror) == dag_edges(g0.mirror)
}

/// Outside `(child, slot)`, the two graphs wire the same dependencies to
/// the same producers.
pub open spec fn same_deps_except<V>(
    g0: TryGraph<V>,
    g1: TryGraph<V>,
    child: int,
    slot: int,
) -> bool {
    forall|c: int, s: int|
        !(c == child && s == slot) ==> (#[trigger] g1.spec_has_dep(c, s)) == g0.spec_has_dep(c, s)
            && (g1.spec_has_dep(c, s) ==> g1.spec_dep_parent(c, s) == g0.spec_dep_parent(c, s))
}

/// A graph's wiring agrees with itself everywhere.
proof fn lemma_same_deps_refl<V>(g: TryGraph<V>, child: int, slot: int)
    ensures
        same_deps_except(g, g, child, slot),
{
}

/// The wire at `k` is the only wire into its `(child, slot)` pair, and it
/// decides `spec_dep_parent` there.
pub(crate) proof fn lemma_dep_at<V>(g: TryGraph<V>, k: int, c: int, s: int)
    requires
        g.wf(),
        0 <= k < g.spec_edges().len(),
        dep_matches(g.spec_edges()[k], c, s),
    ensures
        g.spec_has_dep(c, s),
        g.spec_dep_parent(c, s) == g.spec_edges()[k].parent as int,
        forall|j: int|
            0 <= j < g.spec_edges().len() && dep_matches(#[trigger] g.spec_edges()[j], c, s) ==> j
                == k,
{
    assert(g.spec_has_dep(c, s));
    assert forall|j: int|
        0 <= j < g.spec_edges().len() && dep_matches(
            #[trigger] g.spec_edges()[j],
            c,
            s,
        ) implies j == k by {
        if j < k {
            assert(dep_matches(
                g.spec_edges()[j],
                g.spec_edges()[k].child as int,
                g.spec_edges()[k].slot as int,
            ));
            assert(false);
        } else if k < j {
            assert(dep_matches(
                g.spec_edges()[k],
                g.spec_edges()[j].child as int,
                g.spec_edges()[j].slot as int,
            ));
            assert(false);
        }
    }
    let k2 = choose|k2: int|
        0 <= k2 < g.spec_edges().len() && dep_matches(#[trigger] g.spec_edges()[k2], c, s);
    assert(k2 == k);
}

/// Removing the wire at `k` by swap-removal keeps the invariant, empties
/// `(c, s)`, and leaves every other pair wired as before.
proof fn lemma_remove_dep_ok<V>(g0: TryGraph<V>, g1: TryGraph<V>, k: int, c: int, s: int)
    requires
        g0.wf(),
        0 <= k < g0.spec_edges().len(),
        dep_matches(g0.spec_edges()[k], c, s),
        g1.spec_nodes() == g0.spec_nodes(),
        g1.spec_decls() == g0.spec_decls(),
        g1.spec_edges() == g0.spec_edges().update(k, g0.spec_edges().last()).drop_last(),
        dag_node_count(g1.mirror) == dag_node_count(g0.mirror),
        dag_edges(g1.mirror) == dag_edges(g0.mirror).update(
            k,
            dag_edges(g0.mirror).last(),
        ).drop_last(),
    ensures
        g1.wf(),
        g0.spec_has_dep(c, s),
        !g1.spec_has_dep(c, s),
        same_deps_except(g0, g1, c, s),
{
    let n = g0.spec_edges().len() as int;
    lemma_dep_at(g0, k, c, s);
    // Each new index reads an old edge.
    let m = |j: int| if j == k { n - 1 } else { j };
    assert forall|j: int| 0 <= j < n - 1 implies g1.spec_edges()[j] == g0.spec_edges()[m(j)]
        && 0 <= m(j) < n && m(j) != k || (j == k && k == n - 1) by {}
    // Mirror stays aligned with the wires.
    assert(dag_edges(g1.mirror) =~= g1.spec_pairs()) by {
        assert(dag_edges(g0.mirror) == g0.spec_pairs());
        assert(dag_edges(g1.mirror).len() == n - 1);
        assert(g1.spec_pairs().len() == n - 1);
        assert forall|j: int| 0 <= j < n - 1 implies dag_edges(g1.mirror)[j] == g1.spec_pairs()[
            j
        ] by {
            assert(g0.spec_pairs()[j] == (
                g0.spec_edges()[j].parent as int,
                g0.spec_edges()[j].child as int,
            ));
            assert(g0.spec_pairs()[n - 1] == (
                g0.spec_edges()[n - 1].parent as int,
                g0.spec_edges()[n - 1].child as int,
            ));
        }
    }
    // Acyclicity is inherited.
    assert(g1.spec_pairs() =~= g0.spec_pairs().update(k, g0.spec_pairs().last()).drop_last());
    crate::paths::lemma_sub_edges_swap_remove(g0.spec_pairs(), k);
    lemma_acyclic_sub(g1.spec_pairs(), g0.spec_pairs());
    // Every wire of the new graph is a wire of the old one.
    assert forall|j: int| 0 <= j < g1.spec_edges().len() implies g1.edge_ok(
        #[trigger] g1.spec_edges()[j],
    ) by {
        let e = g1.spec_edges()[j];
        if j == k && k < n - 1 {
            assert(e == g0.spec_edges()[n - 1]);
            assert(g0.edge_ok(g0.spec_edges()[n - 1]));
        } else {
            assert(e == g0.spec_edges()[j]);
            assert(g0.edge_ok(g0.spec_edges()[j]));
        }
    }
    // At most one wire per (child, slot).
    assert forall|k1: int, k2: int| 0 <= k1 < k2 < g1.spec_edges().len() implies !(dep_matches(
        #[trigger] g1.spec_edges()[k1],
        g1.spec_edges()[k2].child as int,
        #[trigger] g1.spec_edges()[k2].slot as int,
    )) by {
        let m1 = if k1 == k { n - 1 } else { k1 };
        let m2 = if k2 == k { n - 1 } else { k2 };
        assert(g1.spec_edges()[k1] == g0.spec_edges()[m1]);
        assert(g1.spec_edges()[k2] == g0.spec_edges()[m2]);
        if dep_matches(
            g1.spec_edges()[k1],
            g1.spec_edges()[k2].child as int,
            g1.spec_edges()[k2].slot as int,
        ) {
            if m1 < m2 {
                assert(dep_matches(
                    g0.spec_edges()[m1],
                    g0.spec_edges()[m2].child as int,
                    g0.spec_edges()[m2].slot as int,
                ));
            } else {
                assert(m2 < m1);
                assert(dep_matches(
                    g0.spec_edges()[m2],
                    g0.spec_edges()[m1].child as int,
                    g0.spec_edges()[m1].slot as int,
                ));
            }
            assert(false);
        }
    }
    assert(g1.wf());
    // (c, s) is no longer wired.
    assert(!g1.spec_has_dep(c, s)) by {
        if g1.spec_has_dep(c, s) {
            let j = choose|j: int|
                0 <= j < g1.spec_edges().len() && dep_matches(#[trigger] g1.spec_edges()[j], c, s);
            let mj = if j == k { n - 1 } else { j };
            assert(g1.spec_edges()[j] == g0.spec_edges()[mj]);
            assert(dep_matches(g0.spec_edges()[mj], c, s));
            lemma_dep_at(g0, k, c, s);
            assert(mj == k);
            assert(false);
        }
    }
    // Every other pair keeps its producer.
    assert forall|c2: int, s2: int| !(c2 == c && s2 == s) implies (#[trigger] g1.spec_has_dep(
        c2,
        s2,
    )) == g0.spec_has_dep(c2, s2) && (g1.spec_has_dep(c2, s2) ==> g1.spec_dep_parent(c2, s2)
        == g0.spec_dep_parent(c2, s2)) by {
        if g0.spec_has_dep(c2, s2) {
            let j0 = choose|j0: int|
                0 <= j0 < g0.spec_edges().len() && dep_matches(
                    #[trigger] g0.spec_edges()[j0],
                    c2,
                    s2,
                );
            assert(j0 != k);
            let j1 = if j0 == n - 1 {
                k
            } else {
                j0
            };
            assert(g1.spec_edges()[j1] == g0.spec_edges()[j0]);
            assert(dep_matches(g1.spec_edges()[j1], c2, s2));
            assert(g1.spec_has_dep(c2, s2));
            lemma_dep_at(g1, j1, c2, s2);
            lemma_dep_at(g0, j0, c2, s2);
        }
        if g1.spec_has_dep(c2, s2) {
            let j1 = choose|j1: int|
                0 <= j1 < g1.spec_edges().len() && dep_matches(
                    #[trigger] g1.spec_edges()[j1],
                    c2,
                    s2,
                );
            let mj = if j1 == k { n - 1 } else { j1 };
            assert(g1.spec_edges()[j1] == g0.spec_edges()[mj]);
            assert(dep_matches(g0.spec_edges()[mj], c2, s2));
            assert(g0.spec_has_dep(c2, s2));
        }
    }
}

/// Appending a wire into an unwired `(child, slot)` keeps the invariant.
proof fn lemma_update_dep_fresh<V>(g0: TryGraph<V>, g1: TryGraph<V>, e: EdgeRec)
    requires
        g0.wf(),
        (e.parent as int) < g0.spec_nodes().len(),
        (e.child as int) < g0.spec_nodes().len(),
        (e.slot as int) < g0.spec_decls()[e.child as int].inputs.len(),
        g0.spec_decls()[e.parent as int].output == g0.spec_decls()[e.child as int].inputs[
            e.slot as int
        ],
        !g0.spec_has_dep(e.child as int, e.slot as int),
        !reaches(g0.spec_pairs(), e.child as int, e.parent as int),
        g0.spec_edges().len() + 1 < 0x7fff_ffff,
        g1.spec_nodes() == g0.spec_nodes(),
        g1.spec_decls() == g0.spec_decls(),
        g1.spec_edges() == g0.spec_edges().push(e),
        dag_node_count(g1.mirror) == dag_node_count(g0.mirror),
        dag_edges(g1.mirror) == dag_edges(g0.mirror).push((e.parent as int, e.child as int)),
    ensures
        g1.wf(),
        g1.spec_has_dep(e.child as int, e.slot as int),
        g1.spec_dep_parent(e.child as int, e.slot as int) == e.parent as int,
        same_deps_except(g0, g1, e.child as int, e.slot as int),
{
    let n = g0.spec_edges().len() as int;
    assert(dag_edges(g1.mirror) =~= g1.spec_pairs()) by {
        assert(dag_edges(g0.mirror) == g0.spec_pairs());
        assert forall|j: int| 0 <= j < n + 1 implies dag_edges(g1.mirror)[j] == g1.spec_pairs()[
            j
        ] by {
            if j < n {
                assert(g0.spec_pairs()[j] == (
                    g0.spec_edges()[j].parent as int,
                    g0.spec_edges()[j].child as int,
                ));
            }
        }
    }
    assert(g1.spec_pairs() =~= g0.spec_pairs().push((e.parent as int, e.child as int)));
    lemma_acyclic_push(g0.spec_pairs(), e.parent as int, e.child as int);
    assert forall|j: int| 0 <= j < g1.spec_edges().len() implies g1.edge_ok(
        #[trigger] g1.spec_edges()[j],
    ) by {
        if j < n {
            assert(g1.spec_edges()[j] == g0.spec_edges()[j]);
            assert(g0.edge_ok(g0.spec_edges()[j]));
        }
    }
    assert forall|k1: int, k2: int| 0 <= k1 < k2 < g1.spec_edges().len() implies !(dep_matches(
        #[trigger] g1.spec_edges()[k1],
        g1.spec_edges()[k2].child as int,
        #[trigger] g1.spec_edges()[k2].slot as int,
    )) by {
        if k2 < n {
            assert(g1.spec_edges()[k1] == g0.spec_edges()[k1]);
            assert(g1.spec_edges()[k2] == g0.spec_edges()[k2]);
            if dep_matches(
                g1.spec_edges()[k1],
                g1.spec_edges()[k2].child as int,
                g1.spec_edges()[k2].slot as int,
            ) {
                assert(dep_matches(
                    g0.spec_edges()[k1],
                    g0.spec_edges()[k2].child as int,
                    g0.spec_edges()[k2].slot as int,
                ));
                assert(false);
            }
        } else {
            assert(k2 == n && g1.spec_edges()[k2] == e);
            assert(g1.spec_edges()[k1] == g0.spec_edges()[k1]);
            if dep_matches(
                g1.spec_edges()[k1],
                g1.spec_edges()[k2].child as int,
                g1.spec_edges()[k2].slot as int,
            ) {
                assert(dep_matches(g0.spec_edges()[k1], e.child as int, e.slot as int));
                assert(g0.spec_has_dep(e.child as int, e.slot as int));
                assert(false);
            }
        }
    }
    assert(g1.wf());
    assert(dep_matches(g1.spec_edges()[n], e.child as int, e.slot as int));
    lemma_dep_at(g1, n, e.child as int, e.slot as int);
    assert forall|c2: int, s2: int| !(c2 == e.child as int && s2 == e.slot as int) implies (
    #[trigger] g1.spec_has_dep(c2, s2)) == g0.spec_has_dep(c2, s2) && (g1.spec_has_dep(c2, s2)
        ==> g1.spec_dep_parent(c2, s2) == g0.spec_dep_parent(c2, s2)) by {
        if g0.spec_has_dep(c2, s2) {
            let j0 = choose|j0: int|
                0 <= j0 < g0.spec_edges().len() && dep_matches(
                    #[trigger] g0.spec_edges()[j0],
                    c2,
                    s2,
                );
            assert(g1.spec_edges()[j0] == g0.spec_edges()[j0]);
            assert(dep_matches(g1.spec_edges()[j0], c2, s2));
            assert(g1.spec_has_dep(c2, s2));
            lemma_dep_at(g1, j0, c2, s2);
            lemma_dep_at(g0, j0, c2, s2);
        }
        if g1.spec_has_dep(c2, s2) {
            let j1 = choose|j1: int|
                0 <= j1 < g1.spec_edges().len() && dep_matches(
                    #[trigger] g1.spec_edges()[j1],
                    c2,
                    s2,
                );
            assert(j1 != n);
            assert(g1.spec_edges()[j1] == g0.spec_edges()[j1]);
            assert(dep_matches(g0.spec_edges()[j1], c2, s2));
            assert(g0.spec_has_dep(c2, s2));
        }
    }
}

/// Replacing the wire at `k` (appending the new wire, then swap-removing
/// the old one) keeps the invariant and rewires only `(child, slot)`.
proof fn lemma_update_dep_replace<V>(g0: TryGraph<V>, g1: TryGraph<V>, e: EdgeRec, k: int)
    requires
        g0.wf(),
        (e.parent as int) < g0.spec_nodes().len(),
        (e.child as int) < g0.spec_nodes().len(),
        (e.slot as int) < g0.spec_decls()[e.child as int].inputs.len(),
        g0.spec_decls()[e.parent as int].output == g0.spec_decls()[e.child as int].inputs[
            e.slot as int
        ],
        0 <= k < g0.spec_edges().len(),
        dep_matches(g0.spec_edges()[k], e.child as int, e.slot as int),
        !reaches(g0.spec_pairs(), e.child as int, e.parent as int),
        g0.spec_edges().len() + 1 < 0x7fff_ffff,
        g1.spec_nodes() == g0.spec_nodes(),
        g1.spec_decls() == g0.spec_decls(),
        g1.spec_edges() == g0.spec_edges().push(e).update(
            k,
            g0.spec_edges().push(e).last(),
        ).drop_last(),
        dag_node_count(g1.mirror) == dag_node_count(g0.mirror),
        dag_edges(g1.mirror) == dag_edges(g0.mirror).push((e.parent as int, e.child as int)).update(
            k,
            dag_edges(g0.mirror).push((e.parent as int, e.child as int)).last(),
        ).drop_last(),
    ensures
        g1.wf(),
        g1.spec_has_dep(e.child as int, e.slot as int),
        g1.spec_dep_parent(e.child as int, e.slot as int) == e.parent as int,
        same_deps_except(g0, g1, e.child as int, e.slot as int),
{
    let n = g0.spec_edges().len() as int;
    assert(g1.spec_edges() =~= g0.spec_edges().update(k, e));
    let newpair = (e.parent as int, e.child as int);
    assert(dag_edges(g1.mirror) =~= g0.spec_pairs().update(k, newpair)) by {
        assert(dag_edges(g0.mirror) == g0.spec_pairs());
    }
    assert(dag_edges(g1.mirror) =~= g1.spec_pairs()) by {
        assert forall|j: int| 0 <= j < n implies dag_edges(g1.mirror)[j] == g1.spec_pairs()[j] by {
            if j != k {
                assert(g1.spec_edges()[j] == g0.spec_edges()[j]);
                assert(g0.spec_pairs()[j] == (
                    g0.spec_edges()[j].parent as int,
                    g0.spec_edges()[j].child as int,
                ));
            }
        }
    }
    // Acyclicity: the new wiring is a sub-list of the old wiring plus the
    // new pair.
    lemma_acyclic_push(g0.spec_pairs(), e.parent as int, e.child as int);
    let pushed = g0.spec_pairs().push(newpair);
    assert(g1.spec_pairs() =~= pushed.update(k, pushed.last()).drop_last());
    crate::paths::lemma_sub_edges_swap_remove(pushed, k);
    lemma_acyclic_sub(g1.spec_pairs(), pushed);
    assert forall|j: int| 0 <= j < g1.spec_edges().len() implies g1.edge_ok(
        #[trigger] g1.spec_edges()[j],
    ) by {
        if j != k {
            assert(g1.spec_edges()[j] == g0.spec_edges()[j]);
            assert(g0.edge_ok(g0.spec_edges()[j]));
        }
    }
    assert forall|k1: int, k2: int| 0 <= k1 < k2 < g1.spec_edges().len() implies !(dep_matches(
        #[trigger] g1.spec_edges()[k1],
        g1.spec_edges()[k2].child as int,
        #[trigger] g1.spec_edges()[k2].slot as int,
    )) by {
        if dep_matches(
            g1.spec_edges()[k1],
            g1.spec_edges()[k2].child as int,
            g1.spec_edges()[k2].slot as int,
        ) {
            if k1 != k && k2 != k {
                assert(dep_matches(
                    g0.spec_edges()[k1],
                    g0.spec_edges()[k2].child as int,
                    g0.spec_edges()[k2].slot as int,
                ));
            } else if k1 == k {
                // The new wire and an old wire share (child, slot).
                assert(g1.spec_edges()[k1] == e);
                assert(g1.spec_edges()[k2] == g0.spec_edges()[k2]);
                assert(dep_matches(g0.spec_edges()[k2], e.child as int, e.slot as int));
                lemma_dep_at(g0, k, e.child as int, e.slot as int);
            } else {
                assert(g1.spec_edges()[k2] == e);
                assert(g1.spec_edges()[k1] == g0.spec_edges()[k1]);
                assert(dep_matches(g0.spec_edges()[k1], e.child as int, e.slot as int));
                lemma_dep_at(g0, k, e.child as int, e.slot as int);
            }
            assert(false);
        }
    }
    assert(g1.wf());
    assert(dep_matches(g1.spec_edges()[k], e.child as int, e.slot as int));
    lemma_dep_at(g1, k, e.child as int, e.slot as int);
    assert forall|c2: int, s2: int| !(c2 == e.child as int && s2 == e.slot as int) implies (
    #[trigger] g1.spec_has_dep(c2, s2)) == g0.spec_has_dep(c2, s2) && (g1.spec_has_dep(c2, s2)
        ==> g1.spec_dep_parent(c2, s2) == g0.spec_dep_parent(c2, s2)) by {
        if g0.spec_has_dep(c2, s2) {
            let j0 = choose|j0: int|
                0 <= j0 < g0.spec_edges().len() && dep_matches(
                    #[trigger] g0.spec_edges()[j0],
                    c2,
                    s2,
                );
            assert(j0 != k) by {
                if j0 == k {
                    assert(dep_matches(g0.spec_edges()[k], e.child as int, e.slot as int));
                    assert(c2 == e.child as int && s2 == e.slot as int);
                }
            }
            assert(g1.spec_edges()[j0] == g0.spec_edges()[j0]);
            assert(dep_matches(g1.spec_edges()[j0], c2, s2));
            assert(g1.spec_has_dep(c2, s2));
            lemma_dep_at(g1, j0, c2, s2);
            lemma_dep_at(g0, j0, c2, s2);
        }
        if g1.spec_has_dep(c2, s2) {
            let j1 = choose|j1: int|
                0 <= j1 < g1.spec_edges().len() && dep_matches(
                    #[trigger] g1.spec_edges()[j1],
                    c2,
                    s2,
                );
            assert(j1 != k) by {
                if j1 == k {
                    assert(g1.spec_edges()[k] == e);
                    assert(c2 == e.child as int && s2 == e.slot as int);
                }
            }
            assert(g1.spec_edges()[j1] == g0.spec_edges()[j1]);
            assert(dep_matches(g0.spec_edges()[j1], c2, s2));
            assert(g0.spec_has_dep(c2, s2));
        }
    }
}


/// Law: removing the wire at `(child, slot)` and then wiring a fresh
/// producer there leaves the graph wired as if only the second wire had
/// ever been made at `(child, slot)`: that pair leads to the new producer,
/// and every other pair leads exactly where it led at the start.
pub proof fn lemma_replace_dependency<V>(
    g0: TryGraph<V>,
    g1: TryGraph<V>,
    g2: TryGraph<V>,
    child: int,
    slot: int,
    p: int,
)
    requires
        same_deps_except(g0, g1, child, slot),
        !g1.spec_has_dep(child, slot),
        same_deps_except(g1, g2, child, slot),
        g2.spec_has_dep(child, slot),
        g2.spec_dep_parent(child, slot) == p,
    ensures
        same_deps_except(g0, g2, child, slot),
        g2.spec_has_dep(child, slot),
        g2.spec_dep_parent(child, slot) == p,
{
    assert forall|c: int, s: int| !(c == child && s == slot) implies (#[trigger] g2.spec_has_dep(
        c,
        s,
    )) == g0.spec_has_dep(c, s) && (g2.spec_has_dep(c, s) ==> g2.spec_dep_parent(c, s)
        == g0.spec_dep_parent(c, s)) by {
        assert((#[trigger] g1.spec_has_dep(c, s)) == g0.spec_has_dep(c, s) && (g1.spec_has_dep(
            c,
            s,
        ) ==> g1.spec_dep_parent(c, s) == g0.spec_dep_parent(c, s)));
        assert((#[trigger] g2.spec_has_dep(c, s)) == g1.spec_has_dep(c, s) && (g2.spec_has_dep(
            c,
            s,
        ) ==> g2.spec_dep_parent(c, s) == g1.spec_dep_parent(c, s)));
    }
}

/// Law: the fingerprint stored with a finished node's value equals the
/// node's declared output fingerprint.
pub proof fn lemma_ready_fingerprint<V>(g: TryGraph<V>, i: int)
    requires
        g.wf(),
        0 <= i < g.spec_nodes().len(),
        g.spec_nodes()[i] is Value,
    ensures
        node_output_info(g.spec_nodes()[i]).spec_id() == g.spec_decls()[i].output,
{
}

/// Law: along every wire, the producer's declared output fingerprint is the
/// consumer's declared input fingerprint at the wired slot.
pub proof fn lemma_edge_types_agree<V>(g: TryGraph<V>, k: int)
    requires
        g.wf(),
        0 <= k < g.spec_edges().len(),
    ensures
        g.spec_decls()[g.spec_edges()[k].parent as int].output == g.spec_decls()[
            g.spec_edges()[k].child as int
        ].inputs[g.spec_edges()[k].slot as int],
{
}

} // verus!
