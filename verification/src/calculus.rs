//! The derivative that a backward pass computes.
//!
//! Where the arithmetic of the scalars is exact, the gradients of a backward
//! pass are derivatives: the gradient of a node is the derivative of the root
//! in that node, as the rules for sums, differences and products give it. The
//! proof follows one quantity through the pass, the potential: what the nodes
//! have yet to hand on, each weighted with its own derivative. Every step of
//! the pass leaves it as it is.

use crate::engine::{Op, Side};
use crate::model::GraphView;
use crate::scalar::{
    is_difference, is_negation, is_one, is_product, is_sum, is_zero, Scalar,
};
use vstd::prelude::*;

verus! {

/// Under `val` the scalars are integers and their arithmetic is that of the
/// integers: nothing is rounded and nothing wraps.
pub open spec fn exact<T: Scalar>(val: spec_fn(T) -> int) -> bool {
    &&& forall|z: T| #[trigger] is_zero(z) ==> val(z) == 0
    &&& forall|o: T| #[trigger] is_one(o) ==> val(o) == 1
    &&& forall|a: T, b: T, r: T| #[trigger] is_sum(a, b, r) ==> val(r) == val(a) + val(b)
    &&& forall|a: T, b: T, r: T| #[trigger] is_difference(a, b, r) ==> val(r) == val(a) - val(b)
    &&& forall|a: T, b: T, r: T| #[trigger] is_product(a, b, r) ==> val(r) == val(a) * val(b)
    &&& forall|a: T, r: T| #[trigger] is_negation(a, r) ==> val(r) == -val(a)
}

/// What a result of `op` with the gradient `g` hands to its operand on
/// `side`, in exact arithmetic: `g` for a sum, `g` or `-g` for a difference,
/// and `g` times the other operand for a product.
pub open spec fn share_value(op: Op, side: Side, g: int, other: int) -> int {
    match op {
        Op::ADD => g,
        Op::SUB => match side {
            Side::Left => g,
            Side::Right => -g,
        },
        Op::MUL => other * g,
        _ => 0,
    }
}

impl<T: Scalar> GraphView<T> {
    /// Every computed node is a sum, a difference or a product.
    pub open spec fn polynomial(self) -> bool {
        forall|i: int|
            0 <= i < self.nodes.len() ==> match (#[trigger] self.nodes[i]).op {
                Some(Op::POW) | Some(Op::TANH) => false,
                _ => true,
            }
    }

    /// The derivative of node `i` in the node `wrt`: one for the node itself,
    /// zero for a leaf, and for any other computed node what the rule of its
    /// operator makes of the derivatives of its operands.
    pub open spec fn derivative(self, val: spec_fn(T) -> int, wrt: int, i: int) -> int
        decreases i,
    {
        if i < 0 || i >= self.nodes.len() {
            0
        } else if i == wrt {
            1
        } else {
            match self.nodes[i].op {
                None => 0,
                Some(op) => {
                    let l = self.operands[i][0] as int;
                    let r = self.operands[i][1] as int;
                    if l < i && r < i {
                        match op {
                            Op::ADD => self.derivative(val, wrt, l) + self.derivative(val, wrt, r),
                            Op::SUB => self.derivative(val, wrt, l) - self.derivative(val, wrt, r),
                            Op::MUL => self.derivative(val, wrt, l) * val(self.value(r)) + val(
                                self.value(l),
                            ) * self.derivative(val, wrt, r),
                            _ => 0,
                        }
                    } else {
                        0
                    }
                },
            }
        }
    }

    /// What the gradient of node `m` counts for when the nodes from `stage`
    /// on have had their turn: nothing for a computed node that has handed it
    /// on, the gradient itself for every other node and for `wrt`, whose
    /// gradient is what the proof is after.
    pub open spec fn pending(self, val: spec_fn(T) -> int, wrt: int, stage: int, m: int) -> int {
        if m < stage || m == wrt || self.nodes[m].op is None {
            val(self.grad(m))
        } else {
            0
        }
    }

    /// The potential of the first `upto` nodes at a stage: what the gradient
    /// of each counts for, times the node's derivative in `wrt`.
    pub open spec fn potential(self, val: spec_fn(T) -> int, wrt: int, stage: int, upto: int) -> int
        decreases upto,
    {
        if upto <= 0 {
            0
        } else {
            self.potential(val, wrt, stage, upto - 1) + self.pending(val, wrt, stage, upto - 1)
                * self.derivative(val, wrt, upto - 1)
        }
    }

    /// A node that was inserted before `wrt` does not depend on it.
    pub proof fn lemma_derivative_below(self, val: spec_fn(T) -> int, wrt: int, i: int)
        requires
            self.well_formed(),
            i < wrt,
        ensures
            self.derivative(val, wrt, i) == 0,
        decreases i,
    {
        if 0 <= i < self.nodes.len() {
            assert(self.node_ok(i));
            match self.nodes[i].op {
                None => {},
                Some(op) => {
                    let l = self.operands[i][0] as int;
                    let r = self.operands[i][1] as int;
                    if l < i && r < i {
                        self.lemma_derivative_below(val, wrt, l);
                        self.lemma_derivative_below(val, wrt, r);
                        assert(0 * val(self.value(r)) + val(self.value(l)) * 0 == 0);
                    }
                },
            }
        }
    }

    /// Derivatives do not depend on gradients.
    pub proof fn lemma_derivative_same(self, other: Self, val: spec_fn(T) -> int, wrt: int, i: int)
        requires
            self.same_but_grads(other),
        ensures
            other.derivative(val, wrt, i) == self.derivative(val, wrt, i),
        decreases i,
    {
        if 0 <= i < self.nodes.len() {
            self.lemma_same_data(other);
            assert(other.nodes[i].op == self.nodes[i].op);
            match self.nodes[i].op {
                None => {},
                Some(op) => {
                    let l = self.operands[i][0] as int;
                    let r = self.operands[i][1] as int;
                    if l < i && r < i {
                        self.lemma_derivative_same(other, val, wrt, l);
                        self.lemma_derivative_same(other, val, wrt, r);
                        assert(other.value(l) == self.value(l));
                        assert(other.value(r) == self.value(r));
                    }
                },
            }
        }
    }

    /// Where two graphs, each at its stage, agree in what every node but `p`
    /// has yet to hand on, and `p` has `more` to hand on in the second, the
    /// potential of the second is larger by `more` times the derivative of
    /// `p`.
    pub proof fn lemma_potential_differs(
        self,
        other: Self,
        val: spec_fn(T) -> int,
        wrt: int,
        stage: int,
        other_stage: int,
        p: int,
        more: int,
        upto: int,
    )
        requires
            self.same_but_grads(other),
            0 <= upto <= self.len(),
            forall|m: int|
                0 <= m < upto && m != p ==> other.pending(val, wrt, other_stage, m)
                    == self.pending(val, wrt, stage, m),
            other.pending(val, wrt, other_stage, p) == self.pending(val, wrt, stage, p) + more,
        ensures
            other.potential(val, wrt, other_stage, upto) == self.potential(val, wrt, stage, upto)
                + if 0 <= p < upto {
                more * self.derivative(val, wrt, p)
            } else {
                0
            },
        decreases upto,
    {
        if upto > 0 {
            let m = upto - 1;
            self.lemma_potential_differs(other, val, wrt, stage, other_stage, p, more, m);
            self.lemma_derivative_same(other, val, wrt, m);
            if m == p {
                let d = self.derivative(val, wrt, p);
                let w = self.pending(val, wrt, stage, p);
                assert((w + more) * d == w * d + more * d) by (nonlinear_arith);
            }
        }
    }

    /// A step for one operand raises the potential by the share that it hands
    /// over, times the derivative of the operand.
    pub proof fn lemma_operand_step_potential(
        self,
        val: spec_fn(T) -> int,
        wrt: int,
        j: int,
        side: Side,
        after: Self,
    )
        requires
            self.well_formed(),
            self.polynomial(),
            exact(val),
            0 <= j < self.len(),
            self.operand_step(j, side, after),
        ensures
            after.potential(val, wrt, j, self.len() as int) == self.potential(
                val,
                wrt,
                j,
                self.len() as int,
            ) + match self.nodes[j].op {
                Some(op) => share_value(
                    op,
                    side,
                    val(self.grad(j)),
                    val(self.other_value(j, side)->0),
                ) * self.derivative(val, wrt, self.operand(j, side)),
                None => 0,
            },
    {
        let n = self.len() as int;
        assert(self.node_ok(j));
        self.lemma_operand_step_frame(j, side, after);
        match self.nodes[j].op {
            Some(op) => {
                assert(op.flows(side));
                let t = self.operand(j, side);
                assert(self.operands[j][0] < j && self.operands[j][1] < j);
                let c = choose|c: T|
                    op.local_rel(side, self.value(t), self.grad(j), self.other_value(j, side), c)
                        && #[trigger] self.accumulates(t, c, after);
                assert(val(c) == share_value(
                    op,
                    side,
                    val(self.grad(j)),
                    val(self.other_value(j, side)->0),
                ));
                assert(val(after.grad(t)) == val(self.grad(t)) + val(c));
                assert forall|m: int| 0 <= m < n && m != t implies after.pending(val, wrt, j, m)
                    == self.pending(val, wrt, j, m) by {
                    assert(after.nodes[m] == self.nodes[m]);
                }
                self.lemma_potential_differs(after, val, wrt, j, j, t, val(c), n);
            },
            None => {
                assert(after == self);
            },
        }
    }

    /// A node's turn leaves the potential as it is: what the node had to hand
    /// on, times its own derivative, is what its operands receive, each share
    /// times the derivative of the operand that receives it.
    pub proof fn lemma_node_step_potential(self, val: spec_fn(T) -> int, wrt: int, j: int, after: Self)
        requires
            self.well_formed(),
            self.polynomial(),
            exact(val),
            0 <= j < self.len(),
            self.node_step(j, after),
        ensures
            after.potential(val, wrt, j, self.len() as int) == self.potential(
                val,
                wrt,
                j + 1,
                self.len() as int,
            ),
    {
        let n = self.len() as int;
        let g = val(self.grad(j));
        assert(self.node_ok(j));
        let mid = choose|mid: Self| #[trigger]
            self.operand_step(j, Side::Left, mid) && mid.operand_step(j, Side::Right, after);
        self.lemma_operand_step_frame(j, Side::Left, mid);
        self.lemma_same_data(mid);
        self.lemma_operand_step_potential(val, wrt, j, Side::Left, mid);
        assert(mid.polynomial()) by {
            assert forall|i: int| 0 <= i < mid.nodes.len() implies match (#[trigger] mid.nodes[i]).op {
                Some(Op::POW) | Some(Op::TANH) => false,
                _ => true,
            } by {
                assert(mid.nodes[i].op == self.nodes[i].op);
            }
        }
        mid.lemma_operand_step_potential(val, wrt, j, Side::Right, after);
        // the node's turn has come: it has nothing left to hand on
        let gone = if self.nodes[j].op is None || j == wrt {
            0
        } else {
            -g
        };
        assert(self.same_but_grads(self));
        self.lemma_potential_differs(self, val, wrt, j + 1, j, j, gone, n);
        match self.nodes[j].op {
            Some(op) => {
                let l = self.operands[j][0] as int;
                let r = self.operands[j][1] as int;
                assert(l < j && r < j);
                let dl = self.derivative(val, wrt, l);
                let dr = self.derivative(val, wrt, r);
                let dj = self.derivative(val, wrt, j);
                let vl = val(self.value(l));
                let vr = val(self.value(r));
                self.lemma_derivative_same(mid, val, wrt, r);
                assert(mid.grad(j) == self.grad(j));
                assert(mid.value(l) == self.value(l));
                assert(mid.operand(j, Side::Right) == r);
                assert(mid.other_value(j, Side::Right) == Some(self.value(l)));
                assert(self.other_value(j, Side::Left) == Some(self.value(r)));
                let left = share_value(op, Side::Left, g, vr);
                let right = share_value(op, Side::Right, g, vl);
                if j == wrt {
                    // nothing below the node depends on it
                    self.lemma_derivative_below(val, wrt, l);
                    self.lemma_derivative_below(val, wrt, r);
                    assert(left * 0 + right * 0 == 0);
                } else {
                    assert(-g * dj + left * dl + right * dr == 0) by {
                        match op {
                            Op::ADD => {
                                assert(-g * (dl + dr) + g * dl + g * dr == 0) by (nonlinear_arith);
                            },
                            Op::SUB => {
                                assert(-g * (dl - dr) + g * dl + (-g) * dr == 0)
                                    by (nonlinear_arith);
                            },
                            Op::MUL => {
                                assert(-g * (dl * vr + vl * dr) + (vr * g) * dl + (vl * g) * dr
                                    == 0) by (nonlinear_arith);
                            },
                            _ => {},
                        }
                    }
                }
            },
            None => {},
        }
    }

    /// A sweep leaves the potential as it is.
    pub proof fn lemma_sweep_potential(self, val: spec_fn(T) -> int, wrt: int, i: int, now: Self)
        requires
            self.well_formed(),
            self.polynomial(),
            exact(val),
            0 <= i <= self.len(),
            self.swept(i, now),
        ensures
            now.potential(val, wrt, i, self.len() as int) == self.potential(
                val,
                wrt,
                self.len() as int,
                self.len() as int,
            ),
        decreases self.len() - i,
    {
        if i < self.len() {
            let mid = choose|mid: Self| self.swept(i + 1, mid) && #[trigger] mid.node_step(i, now);
            self.lemma_sweep_potential(val, wrt, i + 1, mid);
            self.lemma_swept_frame(i + 1, mid);
            self.lemma_same_data(mid);
            assert(mid.polynomial()) by {
                assert forall|k: int| 0 <= k < mid.nodes.len() implies match (
                #[trigger] mid.nodes[k]).op {
                    Some(Op::POW) | Some(Op::TANH) => false,
                    _ => true,
                } by {
                    assert(mid.nodes[k].op == self.nodes[k].op);
                }
            }
            mid.lemma_node_step_potential(val, wrt, i, now);
        }
    }

    /// Where at most node `p` has anything to hand on that counts, the
    /// potential is what `p` has, times its derivative.
    pub proof fn lemma_potential_of_one(
        self,
        val: spec_fn(T) -> int,
        wrt: int,
        stage: int,
        p: int,
        upto: int,
    )
        requires
            0 <= upto <= self.len(),
            forall|m: int|
                0 <= m < upto && m != p ==> self.pending(val, wrt, stage, m) == 0
                    || self.derivative(val, wrt, m) == 0,
        ensures
            self.potential(val, wrt, stage, upto) == if 0 <= p < upto {
                self.pending(val, wrt, stage, p) * self.derivative(val, wrt, p)
            } else {
                0
            },
        decreases upto,
    {
        if upto > 0 {
            let m = upto - 1;
            self.lemma_potential_of_one(val, wrt, stage, p, m);
            if m != p {
                let w = self.pending(val, wrt, stage, m);
                let d = self.derivative(val, wrt, m);
                assert(w * d == 0) by (nonlinear_arith)
                    requires
                        w == 0 || d == 0,
                ;
            }
        }
    }

    /// Gradients are derivatives. In a graph of sums, differences and
    /// products over exact arithmetic, a backward pass that starts with every
    /// gradient at zero leaves at each node the derivative of the root in that
    /// node.
    pub proof fn lemma_gradient_is_derivative(
        self,
        val: spec_fn(T) -> int,
        root: int,
        done: Self,
        node: int,
    )
        requires
            self.well_formed(),
            self.polynomial(),
            exact(val),
            forall|m: int| 0 <= m < self.len() ==> val(#[trigger] self.grad(m)) == 0,
            0 <= root < self.len(),
            0 <= node < self.len(),
            self.backward_from(root, done),
        ensures
            val(done.grad(node)) == self.derivative(val, node, root),
    {
        let n = self.len() as int;
        let one = choose|one: T| is_one(one) && #[trigger] self.with_grad(root, one).swept(0, done);
        let seeded = self.with_grad(root, one);
        assert(self.same_but_grads(seeded));
        self.lemma_same_data(seeded);
        assert forall|i: int| 0 <= i < seeded.nodes.len() implies #[trigger] seeded.node_ok(i) by {
            assert(self.node_ok(i));
        }
        assert(seeded.polynomial()) by {
            assert forall|k: int| 0 <= k < seeded.nodes.len() implies match (
            #[trigger] seeded.nodes[k]).op {
                Some(Op::POW) | Some(Op::TANH) => false,
                _ => true,
            } by {
                assert(seeded.nodes[k].op == self.nodes[k].op);
            }
        }
        seeded.lemma_sweep_potential(val, node, 0, done);
        // before the sweep only the gradient of the root is not zero
        assert forall|m: int| 0 <= m < n && m != root implies seeded.pending(val, node, n, m) == 0
            || seeded.derivative(val, node, m) == 0 by {
            assert(seeded.grad(m) == self.grad(m));
        }
        seeded.lemma_potential_of_one(val, node, n, root, n);
        self.lemma_derivative_same(seeded, val, node, root);
        assert(seeded.pending(val, node, n, root) == 1);
        assert(1 * seeded.derivative(val, node, root) == seeded.derivative(val, node, root));
        // after it only leaves and `node` count, and no other leaf depends
        // on `node`
        seeded.lemma_swept_frame(0, done);
        seeded.lemma_same_data(done);
        assert forall|m: int| 0 <= m < n && m != node implies done.pending(val, node, 0, m) == 0
            || done.derivative(val, node, m) == 0 by {
            assert(done.nodes[m].op == self.nodes[m].op);
        }
        done.lemma_potential_of_one(val, node, 0, node, n);
        assert(done.derivative(val, node, node) == 1);
        assert(done.pending(val, node, 0, node) == val(done.grad(node)));
        assert(val(done.grad(node)) * 1 == val(done.grad(node)));
    }
}

} // verus!
