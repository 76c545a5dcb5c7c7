//! The run engine: a verified state machine over the graph.
//!
//! The engine decides which nodes to start and routes every completed
//! output; the caller owns the futures.  A run begins with
//! [`TryGraph::start_run`], which hands out one start order per node whose
//! inputs are already complete.  The caller runs each ordered task (in any
//! order, concurrently if it wishes) and reports each success through
//! [`TryGraph::complete`], which fans the output into the dependent slots,
//! records the finished value, and hands out the start orders for every
//! node that became ready.  The run is over when no order is outstanding.
//! On a task error the caller simply stops reporting: the unfinished nodes
//! stay running, as cancelled tasks' nodes do.

use vstd::prelude::*;

use crate::any::Value;
use crate::curry::CurriedTask;
use crate::graph::Edge;
use crate::graph::node_matches_decl;
use crate::graph::Node;
use crate::graph::NodeIndex;
use crate::graph::TryGraph;
use crate::tuple::InsertErrorKind;
use crate::tuple::TupleIndex;

verus! {

/// An instruction to the caller: run the task declared under `tag` with
/// these inputs, and report the output for `node`.
#[derive(Debug)]
pub struct StartOrder<V> {
    /// The node whose task is to be run.
    pub node: NodeIndex,
    /// The caller's identifier for the computation.
    pub tag: u64,
    /// The gathered inputs, in slot order.
    pub inputs: Vec<V>,
}

/// The [`DependencyError`] kind.
#[derive(Debug)]
pub enum DependencyErrorKind {
    /// The completed output's fingerprint does not match the child's
    /// expected input type.
    TypeMismatch {
        /// The expected type's identity, for programmatic use.
        expected: std::any::TypeId,
        /// The expected type's name, human readable.
        expected_name: &'static str,
        /// The actual output type's name, human readable.
        actual_name: &'static str,
    },
    /// The wired slot index is not one of the child's inputs.
    OutOfRange {
        /// The child's task's number of inputs.
        len: TupleIndex,
    },
}

/// A dependency hand-off failed while fanning out a completed output.
#[derive(Debug)]
pub struct DependencyError {
    /// The depended node.
    pub parent: NodeIndex,
    /// The dependent node.
    pub child: NodeIndex,
    /// The dependency slot.
    pub index: Edge,
    /// The error kind.
    pub kind: DependencyErrorKind,
}

/// The node `n1` is `n0` started: `n0` was a ready curried task and `n1`
/// records it as running under its declared output fingerprint.
pub open spec fn started_of<V>(n0: Node<V>, n1: Node<V>) -> bool {
    match n0 {
        Node::Curry(ct) => ct.spec_ready() && n1 == Node::Running::<V>(ct.spec_output()),
        _ => false,
    }
}

/// What a start order says about the curried task it came from.
pub open spec fn order_of<V>(o: StartOrder<V>, i: int, ct: CurriedTask<V>) -> bool {
    &&& o.node as int == i
    &&& o.tag == ct.spec_tag()
    &&& o.inputs@.len() == ct.spec_cells().len()
    &&& forall|s: int|
        0 <= s < o.inputs@.len() ==> ct.spec_cells()[s] == Some(#[trigger] o.inputs@[s])
}

/// The edge `e` wires `p`'s output into slot `s` of `c`.
pub open spec fn fed_edge(e: crate::graph::EdgeRec, p: int, c: int, s: int) -> bool {
    e.parent as int == p && e.child as int == c && e.slot as int == s
}

/// Among the first `bound` wires, one wires `p`'s output into `(c, s)`.
pub open spec fn fed_by_upto<V>(g: TryGraph<V>, p: int, c: int, s: int, bound: int) -> bool {
    exists|k: int|
        0 <= k < bound && k < g.spec_edges().len() && fed_edge(#[trigger] g.spec_edges()[k], p, c, s)
}

/// Some wire feeds `p`'s output into `(c, s)`.
pub open spec fn fed_by<V>(g: TryGraph<V>, p: int, c: int, s: int) -> bool {
    fed_by_upto(g, p, c, s, g.spec_edges().len() as int)
}

/// Every cell is filled.
pub open spec fn all_some<V>(cells: Seq<Option<V>>) -> bool {
    forall|s: int| 0 <= s < cells.len() ==> (#[trigger] cells[s]) is Some
}

/// The cells of the curried task `ct0` after `p`'s output `data` has been
/// fanned out along the first `bound` wires into child `c`.
pub open spec fn fanned_cells<V>(
    g: TryGraph<V>,
    p: int,
    c: int,
    ct0: CurriedTask<V>,
    data: V,
    bound: int,
) -> Seq<Option<V>> {
    Seq::new(
        ct0.spec_cells().len(),
        |s: int|
            if fed_by_upto(g, p, c, s, bound) {
                Some(data)
            } else {
                ct0.spec_cells()[s]
            },
    )
}

/// Among the first `bound` wires, one leads from `p` into `c`.
pub open spec fn fed_any<V>(g: TryGraph<V>, p: int, c: int, bound: int) -> bool {
    exists|k: int|
        0 <= k < bound && k < g.spec_edges().len() && (#[trigger] g.spec_edges()[k]).parent as int
            == p && g.spec_edges()[k].child as int == c
}

/// How fanning `p`'s output `data` along the first `bound` wires carries
/// node `c` from state `n0` to state `n1`: a curried node receives the
/// output in each of its wired slots and starts once a wired hand-off
/// completes it; every other node is untouched.
pub open spec fn fanned_node<V>(
    g: TryGraph<V>,
    p: int,
    c: int,
    data: V,
    n0: Node<V>,
    n1: Node<V>,
    bound: int,
) -> bool {
    match n0 {
        Node::Curry(ct0) => {
            let cells1 = fanned_cells(g, p, c, ct0, data, bound);
            if all_some(cells1) && fed_any(g, p, c, bound) {
                n1 == Node::Running::<V>(ct0.spec_output())
            } else {
                n1 matches Node::Curry(ct1) && {
                    &&& ct1.spec_tag() == ct0.spec_tag()
                    &&& ct1.spec_types() == ct0.spec_types()
                    &&& ct1.spec_output() == ct0.spec_output()
                    &&& ct1.spec_cells() == cells1
                }
            }
        },
        _ => n1 == n0,
    }
}

/// At bound zero nothing has been fanned: every node stands as it was.
proof fn lemma_fan_zero<V>(g: TryGraph<V>, p: int, c: int, data: V, n0: Node<V>)
    ensures
        fanned_node(g, p, c, data, n0, n0, 0),
{
    match n0 {
        Node::Curry(ct0) => {
            let cells1 = fanned_cells(g, p, c, ct0, data, 0);
            assert(cells1 =~= ct0.spec_cells());
            assert(!fed_any(g, p, c, 0));
        },
        _ => {},
    }
}

/// Raising the bound past a wire that does not lead from `p` into `c`
/// changes nothing for `c`.
proof fn lemma_fan_bound_bump<V>(
    g: TryGraph<V>,
    p: int,
    c: int,
    data: V,
    n0: Node<V>,
    n1: Node<V>,
    k: int,
)
    requires
        0 <= k < g.spec_edges().len(),
        !(g.spec_edges()[k].parent as int == p && g.spec_edges()[k].child as int == c),
        fanned_node(g, p, c, data, n0, n1, k),
    ensures
        fanned_node(g, p, c, data, n0, n1, k + 1),
{
    assert forall|s: int| #[trigger] fed_by_upto(g, p, c, s, k + 1) implies fed_by_upto(
        g,
        p,
        c,
        s,
        k,
    ) by {
        let j = choose|j: int|
            0 <= j < k + 1 && j < g.spec_edges().len() && fed_edge(
                #[trigger] g.spec_edges()[j],
                p,
                c,
                s,
            );
        assert(j < k);
    }
    assert(fed_any(g, p, c, k + 1) == fed_any(g, p, c, k)) by {
        if fed_any(g, p, c, k + 1) {
            let j = choose|j: int|
                0 <= j < k + 1 && j < g.spec_edges().len() && (#[trigger] g.spec_edges()[
                    j
                ]).parent as int == p && g.spec_edges()[j].child as int == c;
            assert(j < k);
            assert(fed_any(g, p, c, k));
        }
        if fed_any(g, p, c, k) {
            let j = choose|j: int|
                0 <= j < k && j < g.spec_edges().len() && (#[trigger] g.spec_edges()[
                    j
                ]).parent as int == p && g.spec_edges()[j].child as int == c;
            assert(fed_any(g, p, c, k + 1));
        }
    }
    match n0 {
        Node::Curry(ct0) => {
            assert(fanned_cells(g, p, c, ct0, data, k + 1) =~= fanned_cells(g, p, c, ct0, data, k));
        },
        _ => {},
    }
}

/// Raising the bound keeps every filled cell filled and every feeding wire
/// counted.
proof fn lemma_fan_monotone<V>(g: TryGraph<V>, p: int, c: int, ct0: CurriedTask<V>, data: V, k: int)
    requires
        k >= 0,
        all_some(fanned_cells(g, p, c, ct0, data, k)),
        fed_any(g, p, c, k),
    ensures
        all_some(fanned_cells(g, p, c, ct0, data, k + 1)),
        fed_any(g, p, c, k + 1),
{
    let f0 = fanned_cells(g, p, c, ct0, data, k);
    let f1 = fanned_cells(g, p, c, ct0, data, k + 1);
    assert forall|s: int| 0 <= s < f1.len() implies (#[trigger] f1[s]) is Some by {
        assert(f0[s] is Some);
        if !fed_by_upto(g, p, c, s, k + 1) {
            assert(!fed_by_upto(g, p, c, s, k)) by {
                if fed_by_upto(g, p, c, s, k) {
                    let j = choose|j: int|
                        0 <= j < k && j < g.spec_edges().len() && fed_edge(
                            #[trigger] g.spec_edges()[j],
                            p,
                            c,
                            s,
                        );
                    assert(fed_by_upto(g, p, c, s, k + 1));
                }
            }
        }
    }
    let j = choose|j: int|
        0 <= j < k && j < g.spec_edges().len() && (#[trigger] g.spec_edges()[j]).parent as int == p
            && g.spec_edges()[j].child as int == c;
    assert(fed_any(g, p, c, k + 1));
}

impl<V: Copy> TryGraph<V> {
    /// Starts node `i` if it holds a ready curried task: the task is taken
    /// out, the node becomes running, and the start order is returned.
    /// Any other node is left untouched.
    fn try_start_node(&mut self, i: NodeIndex) -> (r: Option<StartOrder<V>>)
        requires
            old(self).wf(),
            (i as int) < old(self).spec_nodes().len(),
        ensures
            final (self).wf(),
            final (self).spec_edges() == old(self).spec_edges(),
            final (self).spec_decls() == old(self).spec_decls(),
            final (self).mirror == old(self).mirror,
            final (self).spec_nodes().len() == old(self).spec_nodes().len(),
            forall|j: int|
                0 <= j < old(self).spec_nodes().len() && j != i as int ==> final (
                    self
                ).spec_nodes()[j] == old(self).spec_nodes()[j],
            match r {
                Some(o) => {
                    &&& old(self).spec_nodes()[i as int] matches Node::Curry(ct) && {
                        &&& ct.spec_ready()
                        &&& order_of(o, i as int, ct)
                        &&& started_of(
                            old(self).spec_nodes()[i as int],
                            final (self).spec_nodes()[i as int],
                        )
                    }
                },
                None => {
                    &&& *final (self) == *old(self)
                    &&& (old(self).spec_nodes()[i as int] matches Node::Curry(ct)
                        ==> !ct.spec_ready())
                },
            },
    {
        let can_start = match &self.nodes[i] {
            Node::Curry(ct) => ct.ready(),
            _ => false,
        };
        if !can_start {
            return None;
        }
        let info = match &self.nodes[i] {
            Node::Curry(ct) => ct.output_type_info(),
            _ => unreached(),
        };
        let mut taken = Node::Running(info);
        std::mem::swap(&mut taken, &mut self.nodes[i]);
        match taken {
            Node::Curry(ct) => {
                match ct.call() {
                    Ok((tag, inputs)) => {
                        proof {
                            assert(final (self).spec_nodes() =~= old(self).spec_nodes().update(
                                i as int,
                                Node::Running(info),
                            ));
                        }
                        Some(StartOrder { node: i, tag, inputs })
                    },
                    Err(_) => unreached(),
                }
            },
            _ => unreached(),
        }
    }

    /// Begins a run: starts every node whose inputs are already complete
    /// (typically the zero-input tasks) and hands out their start orders.
    pub fn start_run(&mut self) -> (orders: Vec<StartOrder<V>>)
        requires
            old(self).wf(),
        ensures
            final (self).wf(),
            final (self).spec_edges() == old(self).spec_edges(),
            final (self).spec_decls() == old(self).spec_decls(),
            final (self).spec_nodes().len() == old(self).spec_nodes().len(),
            forall|i: int|
                0 <= i < old(self).spec_nodes().len() ==> started_of(
                    old(self).spec_nodes()[i],
                    #[trigger] final (self).spec_nodes()[i],
                ) || final (self).spec_nodes()[i] == old(self).spec_nodes()[i],
            forall|i: int|
                0 <= i < old(self).spec_nodes().len() && (old(self).spec_nodes()[
                    i
                ] matches Node::Curry(ct) && ct.spec_ready()) ==> started_of(
                    old(self).spec_nodes()[i],
                    #[trigger] final (self).spec_nodes()[i],
                ),
            forall|j: int|
                0 <= j < orders@.len() ==> {
                    let o = #[trigger] orders@[j];
                    &&& (o.node as int) < old(self).spec_nodes().len()
                    &&& (old(self).spec_nodes()[o.node as int] matches Node::Curry(ct)
                        && order_of(o, o.node as int, ct))
                    &&& final (self).spec_nodes()[o.node as int] is Running
                },
            forall|i: int|
                0 <= i < old(self).spec_nodes().len() && ((#[trigger] old(self).spec_nodes()[
                    i
                ]) matches Node::Curry(ct) && ct.spec_ready()) ==> exists|j: int|
                    0 <= j < orders@.len() && (#[trigger] orders@[j]).node as int == i,
            forall|j1: int, j2: int|
                0 <= j1 < j2 < orders@.len() ==> (#[trigger] orders@[j1]).node != (
                #[trigger] orders@[j2]).node,
            all_pending_empty(*old(self)) ==> run_inv(*final (self)),
    {
        let mut orders: Vec<StartOrder<V>> = Vec::new();
        let mut i: usize = 0;
        let n = self.nodes.len();
        while i < n
            invariant
                self.wf(),
                n == self.spec_nodes().len(),
                i <= n,
                self.spec_edges() == old(self).spec_edges(),
                self.spec_decls() == old(self).spec_decls(),
                self.spec_nodes().len() == old(self).spec_nodes().len(),
                forall|j: int|
                    i <= j < n ==> #[trigger] self.spec_nodes()[j] == old(self).spec_nodes()[j],
                forall|j: int|
                    0 <= j < i ==> started_of(
                        old(self).spec_nodes()[j],
                        #[trigger] self.spec_nodes()[j],
                    ) || self.spec_nodes()[j] == old(self).spec_nodes()[j],
                forall|j: int|
                    0 <= j < i && (old(self).spec_nodes()[j] matches Node::Curry(ct)
                        && ct.spec_ready()) ==> started_of(
                        old(self).spec_nodes()[j],
                        #[trigger] self.spec_nodes()[j],
                    ),
                forall|j: int|
                    0 <= j < orders@.len() ==> (old(self).spec_nodes()[
                        (#[trigger] orders@[j]).node as int
                    ] matches Node::Curry(ct) && order_of(orders@[j], orders@[j].node as int, ct)
                        && (orders@[j].node as int) < i && self.spec_nodes()[
                        orders@[j].node as int
                    ] is Running),
                forall|j: int|
                    0 <= j < i && ((#[trigger] old(self).spec_nodes()[j]) matches Node::Curry(ct)
                        && ct.spec_ready()) ==> exists|m: int|
                        0 <= m < orders@.len() && (#[trigger] orders@[m]).node as int == j,
                forall|j1: int, j2: int|
                    0 <= j1 < j2 < orders@.len() ==> (#[trigger] orders@[j1]).node != (
                    #[trigger] orders@[j2]).node,
            decreases n - i,
        {
            let r = self.try_start_node(i);
            let ghost orders0 = orders@;
            match r {
                Some(o) => {
                    orders.push(o);
                },
                None => {},
            }
            proof {
                assert forall|j: int|
                    0 <= j < i + 1 && ((#[trigger] old(self).spec_nodes()[
                        j
                    ]) matches Node::Curry(ct) && ct.spec_ready()) implies exists|m: int|
                    0 <= m < orders@.len() && (#[trigger] orders@[m]).node as int == j by {
                    if j < i {
                        let m0 = choose|m0: int|
                            0 <= m0 < orders0.len() && (#[trigger] orders0[m0]).node as int == j;
                        assert(orders@[m0].node as int == j);
                    } else {
                        assert(orders@[orders@.len() - 1].node as int == i);
                    }
                }
            }
            i = i + 1;
        }
        proof {
            if all_pending_empty(*old(self)) {
                lemma_start_establishes_inv(*old(self), *self);
            }
        }
        orders
    }

    /// Reports the successful completion of `node` with `output`.
    ///
    /// The output is recorded as the node's value under its declared output
    /// fingerprint, a copy of it is curried into each dependent slot wired
    /// to `node`, and every dependent that thereby becomes ready is started;
    /// their start orders are handed back.  When the reported output's
    /// fingerprint differs from the declared one and a still-curried
    /// dependent is wired to `node`, the hand-off fails: the output is still
    /// recorded, but no slot is filled, no dependent is started, and the
    /// mismatch is described.  Start orders already outstanding are
    /// unaffected either way.
    pub fn complete(&mut self, node: NodeIndex, output: Value<V>) -> (r: Result<
        Vec<StartOrder<V>>,
        DependencyError,
    >)
        requires
            old(self).wf(),
            (node as int) < old(self).spec_nodes().len(),
            old(self).spec_nodes()[node as int] is Running,
        ensures
            final (self).wf(),
            final (self).spec_edges() == old(self).spec_edges(),
            final (self).spec_decls() == old(self).spec_decls(),
            final (self).spec_nodes().len() == old(self).spec_nodes().len(),
            old(self).spec_nodes()[node as int] matches Node::Running(ti) && final (
                self
            ).spec_nodes()[node as int] == (Node::Value { value: output, type_info: ti }),
            (r is Err) <==> (output.info.spec_id() != old(self).spec_decls()[node as int].output
                && exists|k: int|
                0 <= k < old(self).spec_edges().len() && (#[trigger] old(self).spec_edges()[
                    k
                ]).parent as int == node as int && old(self).spec_nodes()[old(self).spec_edges()[
                    k
                ].child as int] is Curry),
            r matches Ok(orders) ==> {
                &&& forall|i: int|
                    0 <= i < old(self).spec_nodes().len() && i != node as int ==> fanned_node(
                        *old(self),
                        node as int,
                        i,
                        output.data,
                        old(self).spec_nodes()[i],
                        #[trigger] final (self).spec_nodes()[i],
                        old(self).spec_edges().len() as int,
                    )
                &&& forall|j: int|
                    0 <= j < orders@.len() ==> order_sound(
                        *old(self),
                        node as int,
                        output.data,
                        #[trigger] orders@[j],
                    ) && final (self).spec_nodes()[orders@[j].node as int] is Running
                &&& forall|i: int|
                    0 <= i < old(self).spec_nodes().len() && (#[trigger] old(self).spec_nodes()[
                        i
                    ]) is Curry && final (self).spec_nodes()[i] is Running ==> exists|j: int|
                        0 <= j < orders@.len() && (#[trigger] orders@[j]).node as int == i
                &&& forall|j1: int, j2: int|
                    0 <= j1 < j2 < orders@.len() ==> (#[trigger] orders@[j1]).node != (
                    #[trigger] orders@[j2]).node
            },
            r matches Err(err) ==> {
                &&& forall|i: int|
                    0 <= i < old(self).spec_nodes().len() && i != node as int ==> node_unmoved(
                        old(self).spec_nodes()[i],
                        #[trigger] final (self).spec_nodes()[i],
                    )
                &&& err.parent == node
                &&& (err.child as int) < old(self).spec_nodes().len()
                &&& old(self).spec_nodes()[err.child as int] is Curry
                &&& exists|k: int|
                    0 <= k < old(self).spec_edges().len() && fed_edge(
                        #[trigger] old(self).spec_edges()[k],
                        node as int,
                        err.child as int,
                        err.index as int,
                    )
                &&& err.kind matches DependencyErrorKind::TypeMismatch {
                    expected,
                    expected_name: _,
                    actual_name,
                } && {
                    &&& expected == old(self).spec_decls()[err.child as int].inputs[
                        err.index as int
                    ]
                    &&& actual_name == output.info.spec_name()
                }
            },
            run_inv(*old(self)) && r is Ok ==> run_inv(*final (self)),
    {
        let ghost g0 = *old(self);
        let info = match &self.nodes[node] {
            Node::Running(ti) => *ti,
            _ => unreached(),
        };
        let mut orders: Vec<StartOrder<V>> = Vec::new();
        let m = self.edges.len();
        let mut k: usize = 0;
        proof {
            assert forall|i: int|
                0 <= i < g0.spec_nodes().len() && i != node as int implies fanned_node(
                    g0,
                    node as int,
                    i,
                    output.data,
                    g0.spec_nodes()[i],
                    #[trigger] self.spec_nodes()[i],
                    0,
                ) by {
                lemma_fan_zero(g0, node as int, i, output.data, g0.spec_nodes()[i]);
            }
        }
        while k < m
            invariant
                self.wf(),
                g0 == *old(self),
                g0.wf(),
                (node as int) < g0.spec_nodes().len(),
                g0.spec_nodes()[node as int] matches Node::Running(ti) && info == ti,
                m == g0.spec_edges().len(),
                k <= m,
                self.spec_edges() == g0.spec_edges(),
                self.spec_decls() == g0.spec_decls(),
                self.spec_nodes().len() == g0.spec_nodes().len(),
                self.spec_nodes()[node as int] == g0.spec_nodes()[node as int],
                forall|i: int|
                    0 <= i < g0.spec_nodes().len() && i != node as int ==> fanned_node(
                        g0,
                        node as int,
                        i,
                        output.data,
                        g0.spec_nodes()[i],
                        #[trigger] self.spec_nodes()[i],
                        k as int,
                    ),
                output.info.spec_id() != g0.spec_decls()[node as int].output ==> forall|j: int|
                    0 <= j < k && (#[trigger] g0.spec_edges()[j]).parent as int == node as int
                        ==> !(g0.spec_nodes()[g0.spec_edges()[j].child as int] is Curry),
                forall|j: int|
                    0 <= j < orders@.len() ==> order_sound(
                        g0,
                        node as int,
                        output.data,
                        #[trigger] orders@[j],
                    ) && self.spec_nodes()[orders@[j].node as int] is Running,
                forall|i: int|
                    0 <= i < g0.spec_nodes().len() && (#[trigger] g0.spec_nodes()[i]) is Curry
                        && self.spec_nodes()[i] is Running ==> exists|j: int|
                        0 <= j < orders@.len() && (#[trigger] orders@[j]).node as int == i,
                forall|j1: int, j2: int|
                    0 <= j1 < j2 < orders@.len() ==> (#[trigger] orders@[j1]).node != (
                    #[trigger] orders@[j2]).node,
            decreases m - k,
        {
            let ghost selfk = *self;
            let e = self.edges[k];
            proof {
                lemma_no_self_edge(selfk, k as int);
                assert(selfk.edge_ok(selfk.spec_edges()[k as int]));
                assert(g0.edge_ok(g0.spec_edges()[k as int]));
            }
            if e.parent == node {
                let child = e.child;
                proof {
                    assert(node_matches_decl(
                        selfk.spec_nodes()[child as int],
                        selfk.spec_decls()[child as int],
                    ));
                    assert(node_matches_decl(
                        g0.spec_nodes()[child as int],
                        g0.spec_decls()[child as int],
                    ));
                }
                let mut mismatch: Option<(std::any::TypeId, &'static str)> = None;
                match &mut self.nodes[child] {
                    Node::Curry(ct) => {
                        match ct.curry(e.slot, output) {
                            Ok(()) => {},
                            Err(ie) => {
                                match ie.kind {
                                    InsertErrorKind::TypeMismatch { expected, expected_name } => {
                                        mismatch = Some((expected, expected_name));
                                    },
                                    InsertErrorKind::OutOfRange => {
                                        proof {
                                            assert(false);
                                        }
                                    },
                                }
                            },
                        }
                    },
                    _ => {},
                }
                let ghost selfmid = *self;
                proof {
                    // The hand-off touched at most the child's cells: the
                    // graph invariant still holds.
                    assert forall|i: int| 0 <= i < selfmid.spec_nodes().len() implies
                        node_matches_decl(
                            #[trigger] selfmid.spec_nodes()[i],
                            selfmid.spec_decls()[i],
                        ) by {
                        if i != child as int {
                            assert(selfmid.spec_nodes()[i] == selfk.spec_nodes()[i]);
                            assert(node_matches_decl(
                                selfk.spec_nodes()[i],
                                selfk.spec_decls()[i],
                            ));
                        }
                    }
                    assert forall|k2: int| 0 <= k2 < selfmid.spec_edges().len() implies
                        selfmid.edge_ok(#[trigger] selfmid.spec_edges()[k2]) by {
                        assert(selfk.edge_ok(selfk.spec_edges()[k2]));
                    }
                    assert(selfmid.spec_pairs() =~= selfk.spec_pairs());
                    assert(selfmid.wf());
                }
                if let Some((expected, expected_name)) = mismatch {
                    let err = DependencyError {
                        parent: node,
                        child,
                        index: e.slot,
                        kind: DependencyErrorKind::TypeMismatch {
                            expected,
                            expected_name,
                            actual_name: output.info.name(),
                        },
                    };
                    self.nodes[node] = Node::Value { value: output, type_info: info };
                    proof {
                        assert(g0.spec_nodes()[child as int] is Curry);
                        assert(output.info.spec_id() != g0.spec_decls()[node as int].output) by {
                            let ct0 = g0.spec_nodes()[child as int]->Curry_0;
                            let ctk = selfk.spec_nodes()[child as int]->Curry_0;
                            assert(ctk.spec_types() == ct0.spec_types());
                            assert(expected == ctk.spec_types()[e.slot as int].spec_id());
                        }
                        lemma_mismatch_untouched(g0, selfk, node as int, output.data, k as int);
                        assert forall|i: int|
                            0 <= i < g0.spec_nodes().len() && i != node as int implies node_unmoved(
                                g0.spec_nodes()[i],
                                #[trigger] self.spec_nodes()[i],
                            ) by {
                            assert(self.spec_nodes()[i] == selfk.spec_nodes()[i]);
                        }
                        assert(fed_edge(
                            g0.spec_edges()[k as int],
                            node as int,
                            child as int,
                            e.slot as int,
                        ));
                        assert(expected == g0.spec_decls()[child as int].inputs[e.slot as int]) by {
                            let ct0 = g0.spec_nodes()[child as int]->Curry_0;
                            let ctk = selfk.spec_nodes()[child as int]->Curry_0;
                            assert(ctk.spec_types() == ct0.spec_types());
                        }
                        // the invariant still holds of the exit state
                        assert forall|i: int| 0 <= i < self.spec_nodes().len() implies
                            node_matches_decl(
                                #[trigger] self.spec_nodes()[i],
                                self.spec_decls()[i],
                            ) by {
                            if i != node as int {
                                assert(selfmid.spec_nodes()[i] == self.spec_nodes()[i]);
                                assert(node_matches_decl(
                                    selfmid.spec_nodes()[i],
                                    selfmid.spec_decls()[i],
                                ));
                            }
                        }
                        assert forall|k2: int| 0 <= k2 < self.spec_edges().len() implies
                            self.edge_ok(#[trigger] self.spec_edges()[k2]) by {
                            assert(selfmid.edge_ok(selfmid.spec_edges()[k2]));
                        }
                        assert(self.spec_pairs() =~= selfmid.spec_pairs());
                        assert(self.wf());
                    }
                    return Err(err);
                }
                let started = self.try_start_node(child);
                let ghost orders0 = orders@;
                match started {
                    Some(o) => {
                        orders.push(o);
                    },
                    None => {},
                }
                proof {
                    let ghost p = node as int;
                    let ghost ci = child as int;
                    let ghost slot = e.slot as int;
                    let ghost data = output.data;
                    assert(fed_edge(g0.spec_edges()[k as int], p, ci, slot));
                    // The child's transition steps the fan-out bound.
                    assert forall|i: int|
                        0 <= i < g0.spec_nodes().len() && i != p implies fanned_node(
                            g0,
                            p,
                            i,
                            data,
                            g0.spec_nodes()[i],
                            #[trigger] self.spec_nodes()[i],
                            k as int + 1,
                        ) by {
                        if i != ci {
                            assert(self.spec_nodes()[i] == selfk.spec_nodes()[i]);
                            lemma_fan_bound_bump(
                                g0,
                                p,
                                i,
                                data,
                                g0.spec_nodes()[i],
                                self.spec_nodes()[i],
                                k as int,
                            );
                        } else {
                            match g0.spec_nodes()[ci] {
                                Node::Curry(ct0) => {
                                    let fk = fanned_cells(g0, p, ci, ct0, data, k as int);
                                    let fk1 = fanned_cells(g0, p, ci, ct0, data, k as int + 1);
                                    if selfk.spec_nodes()[ci] is Curry {
                                        let ctk = selfk.spec_nodes()[ci]->Curry_0;
                                        assert(ctk.spec_cells() == fk);
                                        let cta = selfmid.spec_nodes()[ci]->Curry_0;
                                        assert(cta.spec_cells() == ctk.spec_cells().update(
                                            slot,
                                            Some(data),
                                        ));
                                        assert(fk1 =~= fk.update(slot, Some(data))) by {
                                            assert forall|s: int| 0 <= s < fk1.len() implies fk1[s]
                                                == fk.update(slot, Some(data))[s] by {
                                                if s == slot {
                                                    assert(fed_by_upto(g0, p, ci, s, k as int + 1));
                                                } else {
                                                    if fed_by_upto(g0, p, ci, s, k as int + 1) {
                                                        let j = choose|j: int|
                                                            0 <= j < k as int + 1 && j
                                                                < g0.spec_edges().len() && fed_edge(
                                                                #[trigger] g0.spec_edges()[j],
                                                                p,
                                                                ci,
                                                                s,
                                                            );
                                                        assert(j < k as int);
                                                        assert(fed_by_upto(g0, p, ci, s, k as int));
                                                    } else {
                                                        if fed_by_upto(g0, p, ci, s, k as int) {
                                                            let j = choose|j: int|
                                                                0 <= j < k as int && j
                                                                    < g0.spec_edges().len()
                                                                    && fed_edge(
                                                                    #[trigger] g0.spec_edges()[j],
                                                                    p,
                                                                    ci,
                                                                    s,
                                                                );
                                                            assert(fed_by_upto(
                                                                g0,
                                                                p,
                                                                ci,
                                                                s,
                                                                k as int + 1,
                                                            ));
                                                        }
                                                    }
                                                }
                                            }
                                        }
                                        assert(cta.spec_cells() == fk1);
                                        assert(fed_any(g0, p, ci, k as int + 1));
                                        match started {
                                            Some(o) => {
                                                assert(all_some(fk1));
                                            },
                                            None => {
                                                assert(!all_some(fk1)) by {
                                                    if all_some(fk1) {
                                                        assert(cta.spec_ready());
                                                    }
                                                }
                                            },
                                        }
                                    } else {
                                        // already started before this wire
                                        assert(all_some(fk) && fed_any(g0, p, ci, k as int));
                                        lemma_fan_monotone(g0, p, ci, ct0, data, k as int);
                                        assert(self.spec_nodes()[ci] == selfk.spec_nodes()[ci]);
                                    }
                                },
                                _ => {
                                    assert(selfk.spec_nodes()[ci] == g0.spec_nodes()[ci]);
                                    assert(self.spec_nodes()[ci] == selfk.spec_nodes()[ci]);
                                },
                            }
                        }
                    }
                    // Under a mismatched output no curried child has been
                    // seen: this wire's child was not curried either.
                    if output.info.spec_id() != g0.spec_decls()[p].output {
                        assert forall|j: int|
                            0 <= j < k as int + 1 && (#[trigger] g0.spec_edges()[j]).parent as int
                                == p implies !(g0.spec_nodes()[
                                g0.spec_edges()[j].child as int
                            ] is Curry) by {
                            if j == k as int {
                                if g0.spec_nodes()[ci] is Curry {
                                    let ct0 = g0.spec_nodes()[ci]->Curry_0;
                                    if selfk.spec_nodes()[ci] is Curry {
                                        let ctk = selfk.spec_nodes()[ci]->Curry_0;
                                        assert(ctk.spec_types() == ct0.spec_types());
                                        assert(ctk.spec_types()[slot].spec_id()
                                            == g0.spec_decls()[ci].inputs[slot]);
                                        assert(g0.spec_decls()[ci].inputs[slot]
                                            == g0.spec_decls()[p].output);
                                        assert(false);
                                    } else {
                                        assert(all_some(fanned_cells(g0, p, ci, ct0, data, k as int))
                                            && fed_any(g0, p, ci, k as int));
                                        let j2 = choose|j2: int|
                                            0 <= j2 < k as int && j2 < g0.spec_edges().len() && (
                                            #[trigger] g0.spec_edges()[j2]).parent as int == p
                                                && g0.spec_edges()[j2].child as int == ci;
                                        assert(!(g0.spec_nodes()[ci] is Curry));
                                        assert(false);
                                    }
                                }
                            }
                        }
                    }
                    // Earlier orders still point at running nodes.
                    assert forall|j: int| 0 <= j < orders@.len() implies order_sound(
                        g0,
                        p,
                        data,
                        #[trigger] orders@[j],
                    ) && self.spec_nodes()[orders@[j].node as int] is Running by {
                        if j < orders0.len() {
                            assert(orders@[j] == orders0[j]);
                            assert(selfk.spec_nodes()[orders0[j].node as int] is Running);
                            if orders0[j].node as int == ci {
                                assert(self.spec_nodes()[ci] == selfk.spec_nodes()[ci]);
                            } else {
                                assert(self.spec_nodes()[orders0[j].node as int]
                                    == selfk.spec_nodes()[orders0[j].node as int]);
                            }
                        } else {
                            // the freshly issued order
                            let o = orders@[j];
                            let ct0 = g0.spec_nodes()[ci]->Curry_0;
                            let cta = selfmid.spec_nodes()[ci]->Curry_0;
                            let fk1 = fanned_cells(g0, p, ci, ct0, data, k as int + 1);
                            assert(cta.spec_cells() == fk1);
                            assert(o.tag == cta.spec_tag());
                            assert forall|s: int|
                                0 <= s < o.inputs@.len() && !fed_by(g0, p, ci, s) implies ct0.spec_cells()[
                                s
                            ] == Some(#[trigger] o.inputs@[s]) by {
                                assert(cta.spec_cells()[s] == Some(o.inputs@[s]));
                                assert(!fed_by_upto(g0, p, ci, s, k as int + 1)) by {
                                    if fed_by_upto(g0, p, ci, s, k as int + 1) {
                                        let j2 = choose|j2: int|
                                            0 <= j2 < k as int + 1 && j2 < g0.spec_edges().len()
                                                && fed_edge(
                                                #[trigger] g0.spec_edges()[j2],
                                                p,
                                                ci,
                                                s,
                                            );
                                        assert(fed_by(g0, p, ci, s));
                                    }
                                }
                            }
                            assert forall|s: int|
                                0 <= s < o.inputs@.len() && fed_by(g0, p, ci, s) implies (
                            #[trigger] o.inputs@[s]) == data || ct0.spec_cells()[s] == Some(
                                o.inputs@[s],
                            ) by {
                                assert(cta.spec_cells()[s] == Some(o.inputs@[s]));
                            }
                            assert(order_sound(g0, p, data, o));
                        }
                    }
                    // A node that started during this call has an order.
                    assert forall|i: int|
                        0 <= i < g0.spec_nodes().len() && (#[trigger] g0.spec_nodes()[
                            i
                        ]) is Curry && self.spec_nodes()[i] is Running implies exists|j: int|
                        0 <= j < orders@.len() && (#[trigger] orders@[j]).node as int == i by {
                        if selfk.spec_nodes()[i] is Running {
                            let j0 = choose|j0: int|
                                0 <= j0 < orders0.len() && (#[trigger] orders0[j0]).node as int
                                    == i;
                            assert(orders@[j0].node as int == i);
                        } else {
                            assert(i == ci);
                            assert(orders@[orders@.len() - 1].node as int == i);
                        }
                    }
                    assert forall|j1: int, j2: int|
                        0 <= j1 < j2 < orders@.len() implies (#[trigger] orders@[j1]).node != (
                    #[trigger] orders@[j2]).node by {
                        if j2 == orders0.len() {
                            assert(orders@[j1] == orders0[j1]);
                            assert(selfk.spec_nodes()[orders0[j1].node as int] is Running);
                            assert(selfk.spec_nodes()[orders@[j2].node as int] is Curry);
                        }
                    }
                }
            } else {
                proof {
                    assert forall|i: int|
                        0 <= i < g0.spec_nodes().len() && i != node as int implies fanned_node(
                            g0,
                            node as int,
                            i,
                            output.data,
                            g0.spec_nodes()[i],
                            #[trigger] self.spec_nodes()[i],
                            k as int + 1,
                        ) by {
                        lemma_fan_bound_bump(
                            g0,
                            node as int,
                            i,
                            output.data,
                            g0.spec_nodes()[i],
                            self.spec_nodes()[i],
                            k as int,
                        );
                    }
                }
            }
            k = k + 1;
        }
        let ghost endloop = *self;
        self.nodes[node] = Node::Value { value: output, type_info: info };
        proof {
            assert(final (self).spec_nodes()[node as int] == (Node::Value {
                value: output,
                type_info: info,
            }));
            assert forall|i: int| 0 <= i < self.spec_nodes().len() implies node_matches_decl(
                #[trigger] self.spec_nodes()[i],
                self.spec_decls()[i],
            ) by {
                if i != node as int {
                    assert(self.spec_nodes()[i] == endloop.spec_nodes()[i]);
                    assert(node_matches_decl(endloop.spec_nodes()[i], endloop.spec_decls()[i]));
                }
            }
            assert forall|k2: int| 0 <= k2 < self.spec_edges().len() implies self.edge_ok(
                #[trigger] self.spec_edges()[k2],
            ) by {
                assert(endloop.edge_ok(endloop.spec_edges()[k2]));
            }
            assert(self.spec_pairs() =~= endloop.spec_pairs());
            assert(self.wf());
            if output.info.spec_id() != g0.spec_decls()[node as int].output {
                assert forall|k2: int|
                    0 <= k2 < g0.spec_edges().len() && (#[trigger] g0.spec_edges()[
                        k2
                    ]).parent as int == node as int implies !(g0.spec_nodes()[g0.spec_edges()[
                    k2
                ].child as int] is Curry) by {}
            }
            if run_inv(g0) {
                lemma_complete_preserves_inv(g0, *self, node as int, output);
            }
        }
                Ok(orders)
    }
}


/// One wire's view of the mid-run invariant: a curried consumer's cell is
/// filled exactly when the wired producer has finished.
pub open spec fn edge_inv_filled<V>(g: TryGraph<V>, e: crate::graph::EdgeRec) -> bool {
    g.spec_nodes()[e.child as int] matches Node::Curry(ct) ==> ((ct.spec_cells()[
        e.slot as int
    ] is Some) <==> g.spec_nodes()[e.parent as int] is Value)
}

/// One wire's view of the mid-run invariant: every producer of a node that
/// has started has finished.
pub open spec fn edge_inv_started<V>(g: TryGraph<V>, e: crate::graph::EdgeRec) -> bool {
    !(g.spec_nodes()[e.child as int] is Curry) ==> g.spec_nodes()[e.parent as int] is Value
}

/// The mid-run invariant: every node that is ready has been started, a
/// curried node's cell is filled exactly when its wired producer has
/// finished, and a started node's producers have all finished.  It is
/// established by [`TryGraph::start_run`] on a graph none of whose nodes
/// has gathered an input yet, and preserved by every successful
/// [`TryGraph::complete`].
pub open spec fn run_inv<V>(g: TryGraph<V>) -> bool {
    &&& forall|i: int|
        0 <= i < g.spec_nodes().len() ==> ((#[trigger] g.spec_nodes()[i]) matches Node::Curry(ct)
            ==> !ct.spec_ready())
    &&& forall|k: int|
        0 <= k < g.spec_edges().len() ==> edge_inv_filled(g, #[trigger] g.spec_edges()[k])
    &&& forall|k: int|
        0 <= k < g.spec_edges().len() ==> edge_inv_started(g, #[trigger] g.spec_edges()[k])
}

/// A graph before any run: every node is still curried and no input has
/// been gathered.
pub open spec fn all_pending_empty<V>(g: TryGraph<V>) -> bool {
    forall|i: int|
        0 <= i < g.spec_nodes().len() ==> ((#[trigger] g.spec_nodes()[i]) matches Node::Curry(ct)
            && forall|s: int|
            0 <= s < ct.spec_cells().len() ==> (#[trigger] ct.spec_cells()[s]) is None)
}

/// Every declared input slot of every node is wired to a producer.
pub open spec fn fully_wired<V>(g: TryGraph<V>) -> bool {
    forall|i: int, s: int|
        0 <= i < g.spec_nodes().len() && 0 <= s < g.spec_decls()[i].inputs.len()
            ==> #[trigger] g.spec_has_dep(i, s)
}

/// Beginning a run on a graph with no gathered input establishes the
/// mid-run invariant.
proof fn lemma_start_establishes_inv<V>(g0: TryGraph<V>, g1: TryGraph<V>)
    requires
        g0.wf(),
        all_pending_empty(g0),
        g1.spec_edges() == g0.spec_edges(),
        g1.spec_decls() == g0.spec_decls(),
        g1.spec_nodes().len() == g0.spec_nodes().len(),
        forall|i: int|
            0 <= i < g0.spec_nodes().len() ==> started_of(
                g0.spec_nodes()[i],
                #[trigger] g1.spec_nodes()[i],
            ) || g1.spec_nodes()[i] == g0.spec_nodes()[i],
        forall|i: int|
            0 <= i < g0.spec_nodes().len() && ((#[trigger] g0.spec_nodes()[
                i
            ]) matches Node::Curry(ct) && ct.spec_ready()) ==> started_of(
                g0.spec_nodes()[i],
                #[trigger] g1.spec_nodes()[i],
            ),
    ensures
        run_inv(g1),
{
    assert forall|i: int|
        0 <= i < g1.spec_nodes().len() implies ((#[trigger] g1.spec_nodes()[
        i
    ]) matches Node::Curry(ct) ==> !ct.spec_ready()) by {
        if g1.spec_nodes()[i] is Curry {
            assert(g1.spec_nodes()[i] == g0.spec_nodes()[i]);
        }
    }
    assert forall|k: int| 0 <= k < g1.spec_edges().len() implies edge_inv_filled(
        g1,
        #[trigger] g1.spec_edges()[k],
    ) by {
        let e = g1.spec_edges()[k];
        assert(g0.edge_ok(e));
        if g1.spec_nodes()[e.child as int] is Curry {
            assert(g1.spec_nodes()[e.child as int] == g0.spec_nodes()[e.child as int]);
            assert(!(g1.spec_nodes()[e.parent as int] is Value)) by {
                assert(g0.spec_nodes()[e.parent as int] is Curry);
            }
        }
    }
    assert forall|k: int| 0 <= k < g1.spec_edges().len() implies edge_inv_started(
        g1,
        #[trigger] g1.spec_edges()[k],
    ) by {
        let e = g1.spec_edges()[k];
        assert(g0.edge_ok(e));
        if !(g1.spec_nodes()[e.child as int] is Curry) {
            let ct = g0.spec_nodes()[e.child as int]->Curry_0;
            assert(started_of(g0.spec_nodes()[e.child as int], g1.spec_nodes()[e.child as int]));
            assert(ct.spec_ready());
            assert(node_matches_decl(
                g0.spec_nodes()[e.child as int],
                g0.spec_decls()[e.child as int],
            ));
            assert(ct.spec_cells()[e.slot as int] is Some);
            assert(ct.spec_cells()[e.slot as int] is None);
            assert(false);
        }
    }
}

/// A successful completion preserves the mid-run invariant.
proof fn lemma_complete_preserves_inv<V>(g0: TryGraph<V>, g1: TryGraph<V>, p: int, output: Value<V>)
    requires
        g0.wf(),
        run_inv(g0),
        0 <= p < g0.spec_nodes().len(),
        g0.spec_nodes()[p] is Running,
        g1.spec_edges() == g0.spec_edges(),
        g1.spec_decls() == g0.spec_decls(),
        g1.spec_nodes().len() == g0.spec_nodes().len(),
        g1.spec_nodes()[p] is Value,
        forall|i: int|
            0 <= i < g0.spec_nodes().len() && i != p ==> fanned_node(
                g0,
                p,
                i,
                output.data,
                g0.spec_nodes()[i],
                #[trigger] g1.spec_nodes()[i],
                g0.spec_edges().len() as int,
            ),
    ensures
        run_inv(g1),
{
    let m = g0.spec_edges().len() as int;
    // No curried node of the new state is ready.
    assert forall|i: int|
        0 <= i < g1.spec_nodes().len() implies ((#[trigger] g1.spec_nodes()[
        i
    ]) matches Node::Curry(ct1) ==> !ct1.spec_ready()) by {
        if g1.spec_nodes()[i] is Curry {
            assert(i != p);
            let ct0 = g0.spec_nodes()[i]->Curry_0;
            let ct1 = g1.spec_nodes()[i]->Curry_0;
            let f = fanned_cells(g0, p, i, ct0, output.data, m);
            assert(ct1.spec_cells() == f);
            if ct1.spec_ready() {
                assert(all_some(f)) by {
                    assert forall|s: int| 0 <= s < f.len() implies (#[trigger] f[s]) is Some by {
                        assert(ct1.spec_cells()[s] is Some);
                    }
                }
                assert(!fed_any(g0, p, i, m));
                assert(ct0.spec_ready()) by {
                    assert forall|s: int|
                        0 <= s < ct0.spec_cells().len() implies (#[trigger] ct0.spec_cells()[
                        s
                    ]) is Some by {
                        assert(!fed_by_upto(g0, p, i, s, m)) by {
                            if fed_by_upto(g0, p, i, s, m) {
                                let j = choose|j: int|
                                    0 <= j < m && j < g0.spec_edges().len() && fed_edge(
                                        #[trigger] g0.spec_edges()[j],
                                        p,
                                        i,
                                        s,
                                    );
                                assert(fed_any(g0, p, i, m));
                            }
                        }
                        assert(f[s] is Some);
                    }
                }
                assert(false);
            }
        }
    }
    // A finished producer in the old state is finished in the new one, and
    // no producer loses progress.
    assert forall|i: int| 0 <= i < g0.spec_nodes().len() implies ((#[trigger] g1.spec_nodes()[
        i
    ] is Value) == (g0.spec_nodes()[i] is Value || i == p)) by {
        if i != p {
            match g0.spec_nodes()[i] {
                Node::Curry(ct0) => {
                    assert(!(g1.spec_nodes()[i] is Value));
                },
                _ => {
                    assert(g1.spec_nodes()[i] == g0.spec_nodes()[i]);
                },
            }
        }
    }
    assert forall|k: int| 0 <= k < g1.spec_edges().len() implies edge_inv_filled(
        g1,
        #[trigger] g1.spec_edges()[k],
    ) by {
        let e = g1.spec_edges()[k];
        assert(g0.edge_ok(e));
        let c = e.child as int;
        let s = e.slot as int;
        let pr = e.parent as int;
        if g1.spec_nodes()[c] is Curry {
            assert(c != p);
            let ct0 = g0.spec_nodes()[c]->Curry_0;
            let ct1 = g1.spec_nodes()[c]->Curry_0;
            let f = fanned_cells(g0, p, c, ct0, output.data, m);
            assert(ct1.spec_cells() == f);
            if pr == p {
                assert(fed_by_upto(g0, p, c, s, m)) by {
                    assert(fed_edge(g0.spec_edges()[k], p, c, s));
                }
                assert(ct1.spec_cells()[s] is Some);
            } else {
                assert(!fed_by_upto(g0, p, c, s, m)) by {
                    if fed_by_upto(g0, p, c, s, m) {
                        let j = choose|j: int|
                            0 <= j < m && j < g0.spec_edges().len() && fed_edge(
                                #[trigger] g0.spec_edges()[j],
                                p,
                                c,
                                s,
                            );
                        assert(crate::graph::dep_matches(g0.spec_edges()[j], c, s));
                        assert(crate::graph::dep_matches(g0.spec_edges()[k], c, s));
                        crate::graph::lemma_dep_at(g0, k, c, s);
                        assert(j == k);
                        assert(false);
                    }
                }
                assert(ct1.spec_cells()[s] == ct0.spec_cells()[s]);
                assert(edge_inv_filled(g0, g0.spec_edges()[k]));
            }
        }
    }
    assert forall|k: int| 0 <= k < g1.spec_edges().len() implies edge_inv_started(
        g1,
        #[trigger] g1.spec_edges()[k],
    ) by {
        let e = g1.spec_edges()[k];
        assert(g0.edge_ok(e));
        let c = e.child as int;
        let s = e.slot as int;
        let pr = e.parent as int;
        if !(g1.spec_nodes()[c] is Curry) {
            assert(edge_inv_started(g0, g0.spec_edges()[k]));
            assert(edge_inv_filled(g0, g0.spec_edges()[k]));
            if c == p {
                assert(!(g0.spec_nodes()[c] is Curry));
                assert(g0.spec_nodes()[pr] is Value);
            } else {
                match g0.spec_nodes()[c] {
                    Node::Curry(ct0) => {
                        // started during this completion
                        let f = fanned_cells(g0, p, c, ct0, output.data, m);
                        assert(all_some(f) && fed_any(g0, p, c, m));
                        if pr != p {
                            assert(!fed_by_upto(g0, p, c, s, m)) by {
                                if fed_by_upto(g0, p, c, s, m) {
                                    let j = choose|j: int|
                                        0 <= j < m && j < g0.spec_edges().len() && fed_edge(
                                            #[trigger] g0.spec_edges()[j],
                                            p,
                                            c,
                                            s,
                                        );
                                    assert(crate::graph::dep_matches(g0.spec_edges()[j], c, s));
                                    assert(crate::graph::dep_matches(g0.spec_edges()[k], c, s));
                                    crate::graph::lemma_dep_at(g0, k, c, s);
                                    assert(j == k);
                                    assert(false);
                                }
                            }
                            assert(f[s] is Some);
                            assert(ct0.spec_cells()[s] is Some);
                            assert(g0.spec_nodes()[pr] is Value);
                        }
                    },
                    _ => {
                        assert(g0.spec_nodes()[pr] is Value);
                    },
                }
            }
            assert(g1.spec_nodes()[pr] is Value);
        }
    }
}

/// Law: once a run with no outstanding completion has ended, a graph whose
/// every declared input slot is wired has every node finished.
pub proof fn lemma_run_completion<V>(g: TryGraph<V>)
    requires
        g.wf(),
        run_inv(g),
        fully_wired(g),
        forall|i: int| 0 <= i < g.spec_nodes().len() ==> !((#[trigger] g.spec_nodes()[i]) is Running),
    ensures
        forall|i: int| 0 <= i < g.spec_nodes().len() ==> (#[trigger] g.spec_nodes()[i]) is Value,
{
    let n = g.spec_nodes().len() as int;
    let pend = Set::new(|x: int| 0 <= x < n && g.spec_nodes()[x] is Curry);
    assert forall|x: int| #[trigger] pend.contains(x) implies exists|y: int|
        #[trigger] pend.contains(y) && g.spec_pairs().contains((y, x)) by {
        let ct = g.spec_nodes()[x]->Curry_0;
        assert(node_matches_decl(g.spec_nodes()[x], g.spec_decls()[x]));
        assert(!ct.spec_ready());
        let s = choose|s: int| 0 <= s < ct.spec_cells().len() && !((#[trigger] ct.spec_cells()[s]) is Some);
        assert(g.spec_has_dep(x, s));
        let k = choose|k: int|
            0 <= k < g.spec_edges().len() && crate::graph::dep_matches(
                #[trigger] g.spec_edges()[k],
                x,
                s,
            );
        let e = g.spec_edges()[k];
        let y = e.parent as int;
        assert(g.edge_ok(e));
        assert(edge_inv_filled(g, e));
        assert(!(g.spec_nodes()[y] is Value));
        assert(!(g.spec_nodes()[y] is Running));
        assert(pend.contains(y));
        assert(g.spec_pairs()[k] == (y, x));
        assert(g.spec_pairs().contains((y, x)));
    }
    assert forall|i: int| 0 <= i < g.spec_nodes().len() implies (#[trigger] g.spec_nodes()[
        i
    ]) is Value by {
        if g.spec_nodes()[i] is Curry {
            assert(pend.contains(i));
            crate::paths::lemma_self_feeding_set_cycles(g.spec_pairs(), pend, i, n);
            assert(false);
        }
    }
}

/// Finished producers along an explicit walk ending at a started node.
proof fn lemma_walk_producers_finished<V>(g: TryGraph<V>, p: Seq<int>)
    requires
        g.wf(),
        run_inv(g),
        crate::paths::is_path(g.spec_pairs(), p),
        0 <= p.last() < g.spec_nodes().len(),
        !(g.spec_nodes()[p.last()] is Curry),
    ensures
        forall|j: int| 0 <= j < p.len() - 1 ==> g.spec_nodes()[#[trigger] p[j]] is Value,
    decreases p.len(),
{
    if p.len() >= 2 {
        let n = p.len() as int;
        crate::paths::lemma_path_edge(g.spec_pairs(), p, n - 2);
        let k = choose|k: int|
            0 <= k < g.spec_pairs().len() && g.spec_pairs()[k] == (p[n - 2], p[n - 1]);
        let e = g.spec_edges()[k];
        assert(e.parent as int == p[n - 2] && e.child as int == p[n - 1]);
        assert(g.edge_ok(e));
        assert(edge_inv_started(g, e));
        assert(g.spec_nodes()[p[n - 2]] is Value);
        let p1 = p.drop_last();
        assert forall|kk: int| 0 <= kk < p1.len() - 1 implies #[trigger] g.spec_pairs().contains(
            (p1[kk], p1[kk + 1]),
        ) by {
            crate::paths::lemma_path_edge(g.spec_pairs(), p, kk);
        }
        assert(crate::paths::is_path(g.spec_pairs(), p1));
        assert(p1.last() == p[n - 2]);
        lemma_walk_producers_finished(g, p1);
        assert forall|j: int| 0 <= j < p.len() - 1 implies g.spec_nodes()[
            #[trigger] p[j]
        ] is Value by {
            if j < n - 2 {
                assert(p1[j] == p[j]);
                assert(g.spec_nodes()[p1[j]] is Value);
            }
        }
    }
}

/// Law: a transitive producer of any node that has started its task has
/// already finished: the producer completed before the consumer started.
pub proof fn lemma_producers_finish_first<V>(g: TryGraph<V>, a: int, b: int)
    requires
        g.wf(),
        run_inv(g),
        a != b,
        0 <= b < g.spec_nodes().len(),
        crate::paths::reaches(g.spec_pairs(), a, b),
        !(g.spec_nodes()[b] is Curry),
    ensures
        g.spec_nodes()[a] is Value,
{
    let p = choose|p: Seq<int>|
        #[trigger] crate::paths::is_path(g.spec_pairs(), p) && p.first() == a && p.last() == b;
    lemma_walk_producers_finished(g, p);
    if p.len() == 1 {
        assert(a == b);
        assert(false);
    } else {
        assert(g.spec_nodes()[p[0]] is Value);
    }
}

/// What an issued start order must say: it belongs to a node that was a
/// curried task, carries the task's tag, and each of its inputs is either
/// the cell gathered beforehand or, in a slot wired to the completed node,
/// the completed output itself.
pub open spec fn order_sound<V>(g0: TryGraph<V>, p: int, data: V, o: StartOrder<V>) -> bool {
    &&& (o.node as int) < g0.spec_nodes().len()
    &&& o.node as int != p
    &&& g0.spec_nodes()[o.node as int] matches Node::Curry(ct0) && {
        &&& o.tag == ct0.spec_tag()
        &&& o.inputs@.len() == ct0.spec_cells().len()
        &&& forall|s: int|
            0 <= s < o.inputs@.len() && !fed_by(g0, p, o.node as int, s) ==> ct0.spec_cells()[s]
                == Some(#[trigger] o.inputs@[s])
        &&& forall|s: int|
            0 <= s < o.inputs@.len() && fed_by(g0, p, o.node as int, s) ==> (#[trigger] o.inputs@[
                s
            ]) == data || ct0.spec_cells()[s] == Some(o.inputs@[s])
    }
}

/// The node `n1` holds the same state as `n0`: the same finished or
/// running record, or a curried task of the same declaration with the same
/// gathered cells.
pub open spec fn node_unmoved<V>(n0: Node<V>, n1: Node<V>) -> bool {
    match n0 {
        Node::Curry(ct0) => n1 matches Node::Curry(ct1) && {
            &&& ct1.spec_tag() == ct0.spec_tag()
            &&& ct1.spec_types() == ct0.spec_types()
            &&& ct1.spec_output() == ct0.spec_output()
            &&& ct1.spec_cells() == ct0.spec_cells()
        },
        _ => n1 == n0,
    }
}

/// While every wire from `p` seen so far led to a node that was no longer
/// curried, no hand-off has changed anything.
proof fn lemma_mismatch_untouched<V>(g0: TryGraph<V>, g1: TryGraph<V>, p: int, data: V, k: int)
    requires
        0 <= k <= g0.spec_edges().len(),
        g1.spec_nodes().len() == g0.spec_nodes().len(),
        forall|i: int|
            0 <= i < g0.spec_nodes().len() && i != p ==> fanned_node(
                g0,
                p,
                i,
                data,
                g0.spec_nodes()[i],
                #[trigger] g1.spec_nodes()[i],
                k,
            ),
        forall|j: int|
            0 <= j < k && (#[trigger] g0.spec_edges()[j]).parent as int == p ==> !(g0.spec_nodes()[
                g0.spec_edges()[j].child as int
            ] is Curry),
    ensures
        forall|i: int|
            0 <= i < g0.spec_nodes().len() && i != p ==> node_unmoved(
                g0.spec_nodes()[i],
                #[trigger] g1.spec_nodes()[i],
            ),
{
    assert forall|i: int| 0 <= i < g0.spec_nodes().len() && i != p implies node_unmoved(
        g0.spec_nodes()[i],
        #[trigger] g1.spec_nodes()[i],
    ) by {
        match g0.spec_nodes()[i] {
            Node::Curry(ct0) => {
                assert(!fed_any(g0, p, i, k)) by {
                    if fed_any(g0, p, i, k) {
                        let j = choose|j: int|
                            0 <= j < k && j < g0.spec_edges().len() && (#[trigger] g0.spec_edges()[
                                j
                            ]).parent as int == p && g0.spec_edges()[j].child as int == i;
                        assert(!(g0.spec_nodes()[i] is Curry));
                    }
                }
                let cells1 = fanned_cells(g0, p, i, ct0, data, k);
                assert(cells1 =~= ct0.spec_cells()) by {
                    assert forall|s: int| 0 <= s < cells1.len() implies cells1[s]
                        == ct0.spec_cells()[s] by {
                        if fed_by_upto(g0, p, i, s, k) {
                            let j = choose|j: int|
                                0 <= j < k && j < g0.spec_edges().len() && fed_edge(
                                    #[trigger] g0.spec_edges()[j],
                                    p,
                                    i,
                                    s,
                                );
                            assert(!(g0.spec_nodes()[i] is Curry));
                        }
                    }
                }
            },
            _ => {},
        }
    }
}

/// A wire never leads a node to itself.
proof fn lemma_no_self_edge<V>(g: TryGraph<V>, k: int)
    requires
        g.wf(),
        0 <= k < g.spec_edges().len(),
    ensures
        g.spec_edges()[k].parent != g.spec_edges()[k].child,
{
    if g.spec_edges()[k].parent == g.spec_edges()[k].child {
        let x = g.spec_edges()[k].parent as int;
        let p = seq![x, x];
        assert(g.spec_pairs()[k] == (x, x));
        assert(g.spec_pairs().contains((x, x)));
        assert(crate::paths::is_path(g.spec_pairs(), p));
        assert(false);
    }
}

} // verus!
