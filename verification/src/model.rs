//! The mathematical model of a computation graph, and the backward pass stated
//! over it.

use crate::engine::{Op, Side, Value};
use crate::scalar::{is_one, is_product, is_sum, is_zero, Scalar};
use crate::topology::INDEX_END;
use vstd::prelude::*;

verus! {

/// What a computation graph is to its contracts: the nodes in the order of
/// their handles and, for each node, the handles of its operands from left to
/// right.
pub struct GraphView<T: Scalar> {
    pub nodes: Seq<Value<T>>,
    pub operands: Seq<Seq<nat>>,
}

impl<T: Scalar> GraphView<T> {
    /// The number of nodes; the handles are the numbers below it.
    pub open spec fn len(self) -> nat {
        self.nodes.len()
    }

    /// The value of node `i`.
    pub open spec fn value(self, i: int) -> T {
        self.nodes[i].data
    }

    /// The gradient accumulated for node `i`.
    pub open spec fn grad(self, i: int) -> T {
        self.nodes[i].grad
    }

    /// The handle of the operand of node `i` on `side`.
    pub open spec fn operand(self, i: int, side: Side) -> int {
        match side {
            Side::Left => self.operands[i][0] as int,
            Side::Right => self.operands[i][1] as int,
        }
    }

    /// The value of the operand of node `i` that is not on `side`, if there is
    /// one.
    pub open spec fn other_value(self, i: int, side: Side) -> Option<T> {
        match side {
            Side::Left => if self.operands[i].len() == 2 {
                Some(self.value(self.operands[i][1] as int))
            } else {
                None
            },
            Side::Right => Some(self.value(self.operands[i][0] as int)),
        }
    }

    /// A leaf has no operands, a computed node as many as its operator takes,
    /// and every operand was inserted before the node itself.
    pub open spec fn node_ok(self, i: int) -> bool {
        &&& match self.nodes[i].op {
            None => self.operands[i].len() == 0,
            Some(op) => self.operands[i].len() == op.arity(),
        }
        &&& forall|k: int| 0 <= k < self.operands[i].len() ==> (#[trigger] self.operands[i][k]) < i
    }

    /// Every node is as `node_ok` says: the order of insertion is a
    /// topological order.
    pub open spec fn well_formed(self) -> bool {
        &&& self.operands.len() == self.nodes.len()
        &&& forall|i: int| 0 <= i < self.nodes.len() ==> #[trigger] self.node_ok(i)
    }

    /// Some node has `i` among its operands.
    pub open spec fn has_consumer(self, i: int) -> bool {
        exists|j: int| 0 <= j < self.operands.len() && (#[trigger] self.operands[j]).contains(i as nat)
    }

    /// The edges that end in node `i`, operand to result, left operand first.
    pub open spec fn node_edges(self, i: int) -> Seq<(nat, nat)> {
        Seq::new(self.operands[i].len(), |k: int| (self.operands[i][k], i as nat))
    }

    /// The edges that end in the first `n` nodes, in the order of insertion.
    pub open spec fn edges_upto(self, n: int) -> Seq<(nat, nat)>
        decreases n,
    {
        if n <= 0 {
            Seq::empty()
        } else {
            self.edges_upto(n - 1) + self.node_edges(n - 1)
        }
    }

    /// All edges, in the order of insertion.
    pub open spec fn edges(self) -> Seq<(nat, nat)> {
        self.edges_upto(self.nodes.len() as int)
    }

    /// One more node fits, and `edges` more edges: petgraph counts both in
    /// `u32` and keeps the largest for "none".
    pub open spec fn has_room(self, edges: nat) -> bool {
        &&& self.nodes.len() < INDEX_END
        &&& self.edges().len() + edges <= INDEX_END
    }

    /// `self` is `before` with one node appended.
    pub open spec fn extends(self, before: Self, node: Value<T>, operands: Seq<nat>) -> bool {
        &&& self.nodes == before.nodes.push(node)
        &&& self.operands == before.operands.push(operands)
    }

    /// `other` holds every node of this graph, unchanged and with the same
    /// operands, and may hold more after them.
    pub open spec fn grows_to(self, other: Self) -> bool {
        &&& self.nodes.len() <= other.nodes.len()
        &&& self.operands.len() <= other.operands.len()
        &&& forall|i: int| 0 <= i < self.nodes.len() ==> #[trigger] other.nodes[i] == self.nodes[i]
        &&& forall|i: int|
            0 <= i < self.operands.len() ==> #[trigger] other.operands[i] == self.operands[i]
    }

    /// The value of node `i` is what its operator gives for the values of its
    /// operands. A leaf's value is as good as any.
    pub open spec fn consistent(self, i: int) -> bool {
        match self.nodes[i].op {
            None => true,
            Some(op) => op.forward_rel(
                self.value(self.operands[i][0] as int),
                if self.operands[i].len() == 2 {
                    Some(self.value(self.operands[i][1] as int))
                } else {
                    None
                },
                self.value(i),
            ),
        }
    }

    /// Node `i` is a leaf with the label `id` and a zero gradient.
    pub open spec fn is_leaf_at(self, i: int, id: &'static str) -> bool {
        &&& 0 <= i < self.nodes.len()
        &&& self.nodes[i].op is None
        &&& self.nodes[i].id == id
        &&& self.operands[i] == Seq::<nat>::empty()
        &&& is_zero(self.grad(i))
    }

    /// Node `i` is the result of `op` on the nodes `operands`: it has the
    /// label `id`, a zero gradient, and the value that `op` gives for the
    /// values of those nodes.
    pub open spec fn is_result_at(self, i: int, op: Op, operands: Seq<nat>, id: &'static str) -> bool {
        &&& 0 <= i < self.nodes.len()
        &&& self.nodes[i].op == Some(op)
        &&& self.nodes[i].id == id
        &&& self.operands[i] == operands
        &&& is_zero(self.grad(i))
        &&& self.consistent(i)
    }

    /// The same graph with the gradient of node `i` replaced.
    pub open spec fn with_grad(self, i: int, g: T) -> Self {
        GraphView {
            nodes: self.nodes.update(i, Value { grad: g, ..self.nodes[i] }),
            operands: self.operands,
        }
    }

    /// `other` differs from this graph in gradients at most: same nodes, same
    /// values, operators and labels, same operands.
    pub open spec fn same_but_grads(self, other: Self) -> bool {
        &&& other.operands == self.operands
        &&& other.nodes.len() == self.nodes.len()
        &&& forall|k: int|
            0 <= k < self.nodes.len() ==> #[trigger] other.nodes[k] == (Value {
                grad: other.nodes[k].grad,
                ..self.nodes[k]
            })
    }

    /// `after` is this graph once `c` has been added to the gradient of node
    /// `target`: added, never written over it.
    pub open spec fn accumulates(self, target: int, c: T, after: Self) -> bool {
        &&& is_sum(self.grad(target), c, after.grad(target))
        &&& after == self.with_grad(target, after.grad(target))
    }

    /// `after` is this graph once node `i` has handed its operand on `side`
    /// that operand's share of the gradient of `i`. Nothing changes where `i`
    /// is a leaf or nothing flows to that side.
    pub open spec fn operand_step(self, i: int, side: Side, after: Self) -> bool {
        match self.nodes[i].op {
            Some(op) if op.flows(side) => {
                let target = self.operand(i, side);
                exists|c: T|
                    op.local_rel(
                        side,
                        self.value(target),
                        self.grad(i),
                        self.other_value(i, side),
                        c,
                    ) && #[trigger] self.accumulates(target, c, after)
            },
            _ => after == self,
        }
    }

    /// `after` is this graph once node `i` has handed on its gradient: first to
    /// its left operand, then to its right one.
    pub open spec fn node_step(self, i: int, after: Self) -> bool {
        exists|mid: Self| #[trigger]
            self.operand_step(i, Side::Left, mid) && mid.operand_step(i, Side::Right, after)
    }

    /// `now` is what this graph has become once the nodes from the last one
    /// down to node `i` have each handed on their gradient, in that order.
    pub open spec fn swept(self, i: int, now: Self) -> bool
        decreases self.nodes.len() - i,
    {
        if i >= self.nodes.len() {
            now == self
        } else {
            exists|mid: Self| self.swept(i + 1, mid) && #[trigger] mid.node_step(i, now)
        }
    }

    /// The first node in the order of insertion that no node consumes, among
    /// the nodes from `from` on.
    pub open spec fn first_sink_from(self, from: int) -> Option<int>
        decreases self.nodes.len() - from,
    {
        if from >= self.nodes.len() {
            None
        } else if !self.has_consumer(from) {
            Some(from)
        } else {
            self.first_sink_from(from + 1)
        }
    }

    /// The node that a backward pass starts from when none is named: the first
    /// one that no node consumes.
    pub open spec fn root(self) -> Option<int> {
        self.first_sink_from(0)
    }

    /// Node `i` is the one node that no node consumes.
    pub open spec fn sole_sink(self, i: int) -> bool {
        &&& 0 <= i < self.nodes.len()
        &&& forall|k: int| 0 <= k < self.nodes.len() ==> (#[trigger] self.has_consumer(k) <==> k != i)
    }

    /// `after` is this graph after a backward pass from `root`: the gradient of
    /// `root` set to one, then every node, from the last down to the first,
    /// handing on its gradient.
    pub open spec fn backward_from(self, root: int, after: Self) -> bool {
        exists|one: T| is_one(one) && #[trigger] self.with_grad(root, one).swept(0, after)
    }

    /// Every gradient of `after` is one and the same zero, and nothing else
    /// differs from this graph.
    pub open spec fn cleared(self, after: Self) -> bool {
        &&& after.operands == self.operands
        &&& after.nodes.len() == self.nodes.len()
        &&& exists|z: T| #[trigger]
            is_zero(z) && forall|i: int|
                0 <= i < self.nodes.len() ==> after.nodes[i] == (Value {
                    grad: z,
                    ..self.nodes[i]
                })
    }

    /// Node `j` has `target` as its operand on `side`, and its operator hands
    /// gradient to that side.
    pub open spec fn feeds(self, j: int, side: Side, target: int) -> bool {
        self.nodes[j].op matches Some(op) && op.flows(side) && self.operand(j, side) == target
    }

    /// `share` may be what node `j` hands to its operand on `side`, computed
    /// from the gradient that `j` has in this graph.
    pub open spec fn share_of(self, j: int, side: Side, share: T) -> bool {
        self.nodes[j].op matches Some(op) && op.local_rel(
            side,
            self.value(self.operand(j, side)),
            self.grad(j),
            self.other_value(j, side),
            share,
        )
    }

    /// Node `j` turns the gradient `prev` of node `target` into `acc` by its
    /// share for the operand on `side`: `acc` is `prev` plus that share where
    /// `target` is that operand and gradient flows to it, and `prev` itself
    /// otherwise. The share is computed from the gradient that `j` has in this
    /// graph.
    pub open spec fn share_added(self, j: int, side: Side, target: int, prev: T, acc: T) -> bool {
        match self.nodes[j].op {
            Some(op) if op.flows(side) && self.operand(j, side) == target => {
                exists|c: T|
                    op.local_rel(
                        side,
                        self.value(target),
                        self.grad(j),
                        self.other_value(j, side),
                        c,
                    ) && #[trigger] is_sum(prev, c, acc)
            },
            _ => acc == prev,
        }
    }

    /// Node `j` turns the gradient `prev` of node `target` into `acc`: by its
    /// share for the left operand, then by its share for the right one.
    pub open spec fn handed(self, j: int, target: int, prev: T, acc: T) -> bool {
        exists|mid: T| #[trigger]
            self.share_added(j, Side::Left, target, prev, mid) && self.share_added(
                j,
                Side::Right,
                target,
                mid,
                acc,
            )
    }

    /// `acc` is the gradient that node `target` had in this graph, plus the
    /// shares of the nodes from the last one down to node `j`, one after the
    /// other, each share computed from the gradient that its node has in
    /// `done`.
    pub open spec fn gathered(self, done: Self, target: int, j: int, acc: T) -> bool
        decreases self.nodes.len() - j,
    {
        if j >= self.nodes.len() {
            acc == self.grad(target)
        } else {
            exists|prev: T|
                self.gathered(done, target, j + 1, prev) && #[trigger] done.handed(
                    j,
                    target,
                    prev,
                    acc,
                )
        }
    }

    /// The same graph with the value of node `i` replaced.
    pub open spec fn with_value(self, i: int, v: T) -> Self {
        GraphView {
            nodes: self.nodes.update(i, Value { data: v, ..self.nodes[i] }),
            operands: self.operands,
        }
    }

    /// `after` is this graph once the value of node `p` has moved by its
    /// gradient times `rate`.
    pub open spec fn nudged(self, p: int, rate: T, after: Self) -> bool {
        &&& after == self.with_value(p, after.value(p))
        &&& exists|step: T|
            is_product(self.grad(p), rate, step) && #[trigger] is_sum(
                self.value(p),
                step,
                after.value(p),
            )
    }

    /// `now` is this graph once the first `k` of `params` have been nudged,
    /// one after the other.
    pub open spec fn descended(self, params: Seq<usize>, k: int, rate: T, now: Self) -> bool
        decreases k,
    {
        if k <= 0 {
            now == self
        } else {
            exists|mid: Self|
                self.descended(params, k - 1, rate, mid) && #[trigger] mid.nudged(
                    params[k - 1] as int,
                    rate,
                    now,
                )
        }
    }

    /// `v` may be one plus one.
    pub open spec fn is_two(v: T) -> bool {
        exists|one: T| is_one(one) && #[trigger] is_sum(one, one, v)
    }

    /// The five nodes from `at` on are one sample's term of a squared-error
    /// loss: a leaf `y` with the value `truth`, the error `y - pred`, a leaf
    /// with the value two, the error raised to it, and that square added to
    /// the node `total`.
    pub open spec fn is_loss_term(self, at: int, pred: int, truth: T, total: int) -> bool {
        &&& self.is_leaf_at(at, "y")
        &&& self.value(at) == truth
        &&& self.is_result_at(at + 1, Op::SUB, seq![at as nat, pred as nat], "E")
        &&& self.is_leaf_at(at + 2, "2")
        &&& Self::is_two(self.value(at + 2))
        &&& self.is_result_at(at + 3, Op::POW, seq![(at + 1) as nat, (at + 2) as nat], "SE")
        &&& self.is_result_at(at + 4, Op::ADD, seq![(at + 3) as nat, total as nat], "L")
    }
}

} // verus!
