//! What holds of every computation graph and every backward pass.

use crate::engine::{Op, Side, Value};
use crate::model::GraphView;
use crate::scalar::{
    deterministic, is_difference, is_one, is_power, is_product, is_sum, is_tanh, is_zero, Scalar,
};
use vstd::prelude::*;

verus! {

impl<T: Scalar> GraphView<T> {
    /// When a node hands a share to one operand, gradients change and nothing
    /// else, and only below the node: the operand was inserted before it.
    pub proof fn lemma_operand_step_frame(self, i: int, side: Side, after: Self)
        requires
            self.well_formed(),
            0 <= i < self.len(),
            self.operand_step(i, side, after),
        ensures
            after.well_formed(),
            self.same_but_grads(after),
            forall|k: int|
                0 <= k < self.len() && !(self.operands[i].contains(k as nat))
                    ==> #[trigger] after.nodes[k] == self.nodes[k],
            forall|k: int| i <= k < self.len() ==> #[trigger] after.nodes[k] == self.nodes[k],
    {
        assert(self.node_ok(i));
        match self.nodes[i].op {
            Some(op) if op.flows(side) => {
                let target = self.operand(i, side);
                assert(self.operands[i].contains(target as nat)) by {
                    match side {
                        Side::Left => {
                            assert(self.operands[i][0] == target);
                        },
                        Side::Right => {
                            assert(self.operands[i][1] == target);
                        },
                    }
                }
                assert(target < i);
                assert(after == self.with_grad(target, after.grad(target)));
                assert forall|j: int| 0 <= j < after.nodes.len() implies #[trigger] after.node_ok(
                    j,
                ) by {
                    assert(self.node_ok(j));
                }
            },
            _ => {},
        }
    }

    /// When a node hands on its gradient, gradients change and nothing else,
    /// and only those of its operands.
    pub proof fn lemma_node_step_frame(self, i: int, after: Self)
        requires
            self.well_formed(),
            0 <= i < self.len(),
            self.node_step(i, after),
        ensures
            after.well_formed(),
            self.same_but_grads(after),
            forall|k: int|
                0 <= k < self.len() && !(self.operands[i].contains(k as nat))
                    ==> #[trigger] after.nodes[k] == self.nodes[k],
            forall|k: int| i <= k < self.len() ==> #[trigger] after.nodes[k] == self.nodes[k],
    {
        let mid = choose|mid: Self| #[trigger]
            self.operand_step(i, Side::Left, mid) && mid.operand_step(i, Side::Right, after);
        self.lemma_operand_step_frame(i, Side::Left, mid);
        mid.lemma_operand_step_frame(i, Side::Right, after);
        assert forall|k: int| 0 <= k < self.nodes.len() implies #[trigger] after.nodes[k] == (
        Value { grad: after.nodes[k].grad, ..self.nodes[k] }) by {
            assert(mid.nodes[k] == (Value {
                grad: mid.nodes[k].grad,
                ..self.nodes[k]
            }));
        }
    }

    /// A sweep changes gradients and nothing else.
    pub proof fn lemma_swept_frame(self, i: int, now: Self)
        requires
            self.well_formed(),
            0 <= i <= self.len(),
            self.swept(i, now),
        ensures
            now.well_formed(),
            self.same_but_grads(now),
        decreases self.len() - i,
    {
        if i < self.len() {
            let mid = choose|mid: Self| self.swept(i + 1, mid) && #[trigger] mid.node_step(i, now);
            self.lemma_swept_frame(i + 1, mid);
            mid.lemma_node_step_frame(i, now);
            assert forall|k: int| 0 <= k < self.nodes.len() implies #[trigger] now.nodes[k] == (
            Value { grad: now.nodes[k].grad, ..self.nodes[k] }) by {
                assert(mid.nodes[k] == (Value {
                    grad: mid.nodes[k].grad,
                    ..self.nodes[k]
                }));
            }
        }
    }

    /// No node consumes the node that was inserted last.
    pub proof fn lemma_last_is_sink(self)
        requires
            self.well_formed(),
            self.len() > 0,
        ensures
            !self.has_consumer(self.len() - 1),
    {
        let last = self.len() - 1;
        if self.has_consumer(last) {
            let j = choose|j: int|
                0 <= j < self.operands.len() && (#[trigger] self.operands[j]).contains(last as nat);
            let k = choose|k: int| 0 <= k < self.operands[j].len() && self.operands[j][k] == last;
            assert(self.node_ok(j));
            assert(self.operands[j][k] < j);
        }
    }

    /// The search for a root from `from` on stops at the first node that no
    /// node consumes.
    pub proof fn lemma_first_sink(self, from: int, sink: int)
        requires
            0 <= from <= sink < self.len(),
            !self.has_consumer(sink),
            forall|k: int| from <= k < sink ==> #[trigger] self.has_consumer(k),
        ensures
            self.first_sink_from(from) == Some(sink),
        decreases sink - from,
    {
        if from < sink {
            assert(self.has_consumer(from));
            self.lemma_first_sink(from + 1, sink);
        }
    }

    /// A graph with a node has a root.
    pub proof fn lemma_root_exists(self)
        requires
            self.well_formed(),
            self.len() > 0,
        ensures
            self.root() matches Some(r) && 0 <= r < self.len() && !self.has_consumer(r),
    {
        self.lemma_last_is_sink();
        self.lemma_sink_found(0);
    }

    /// Where the nodes from `from` on hold one that no node consumes, the
    /// search from `from` finds one.
    pub proof fn lemma_sink_found(self, from: int)
        requires
            0 <= from < self.len(),
            !self.has_consumer(self.len() - 1),
        ensures
            self.first_sink_from(from) matches Some(r) && from <= r < self.len()
                && !self.has_consumer(r),
        decreases self.len() - from,
    {
        if self.has_consumer(from) {
            self.lemma_sink_found(from + 1);
        }
    }

    /// Where every node but the last is consumed, as in a graph built by
    /// applying one operator after the other to what is there, the root is the
    /// node that was inserted last, and it is the only candidate.
    pub proof fn lemma_root_is_last(self)
        requires
            self.well_formed(),
            self.len() > 0,
            forall|k: int| 0 <= k < self.len() - 1 ==> #[trigger] self.has_consumer(k),
        ensures
            self.root() == Some(self.len() - 1),
            self.sole_sink(self.len() - 1),
    {
        self.lemma_last_is_sink();
        self.lemma_first_sink(0, self.len() - 1);
    }

    /// Where the search for a root ends at the last node, that node is the
    /// only one that no node consumes.
    pub proof fn lemma_sole_sink(self, first: int)
        requires
            self.well_formed(),
            self.len() > 0,
            self.root() == Some(first),
            first == self.len() - 1,
        ensures
            self.sole_sink(first),
    {
        self.lemma_last_is_sink();
        self.lemma_before_root(0, first);
    }

    /// Every node that the search passes before it stops is consumed.
    pub proof fn lemma_before_root(self, from: int, found: int)
        requires
            0 <= from <= self.len(),
            self.first_sink_from(from) == Some(found),
        ensures
            from <= found < self.len(),
            !self.has_consumer(found),
            forall|k: int| from <= k < found ==> #[trigger] self.has_consumer(k),
        decreases self.len() - from,
    {
        if from < self.len() && self.has_consumer(from) {
            self.lemma_before_root(from + 1, found);
        }
    }

    /// What a node contributes to `target` by one operand is what the step for
    /// that operand did to the gradient of `target`.
    pub proof fn lemma_share_of_step(self, i: int, side: Side, after: Self, target: int)
        requires
            self.well_formed(),
            0 <= i < self.len(),
            0 <= target < self.len(),
            self.operand_step(i, side, after),
        ensures
            self.share_added(i, side, target, self.grad(target), after.grad(target)),
    {
        assert(self.node_ok(i));
        match self.nodes[i].op {
            Some(op) if op.flows(side) => {
                let t = self.operand(i, side);
                assert(self.operands[i].contains(t as nat)) by {
                    match side {
                        Side::Left => {
                            assert(self.operands[i][0] == t);
                        },
                        Side::Right => {
                            assert(self.operands[i][1] == t);
                        },
                    }
                }
                let c = choose|c: T|
                    op.local_rel(side, self.value(t), self.grad(i), self.other_value(i, side), c)
                        && #[trigger] self.accumulates(t, c, after);
                if t == target {
                    assert(is_sum(self.grad(target), c, after.grad(target)));
                }
            },
            _ => {},
        }
    }

    /// A share depends on the graph only through what a backward pass leaves
    /// alone and through the gradient of the node that hands it on.
    pub proof fn lemma_share_source(self, other: Self, j: int, side: Side, target: int, prev: T, acc: T)
        requires
            self.well_formed(),
            self.same_but_grads(other),
            0 <= j < self.len(),
            0 <= target < self.len(),
            self.grad(j) == other.grad(j),
            self.share_added(j, side, target, prev, acc),
        ensures
            other.share_added(j, side, target, prev, acc),
    {
        self.lemma_same_data(other);
        assert(other.nodes[j].op == self.nodes[j].op);
        assert(self.node_ok(j));
        match self.nodes[j].op {
            Some(op) if op.flows(side) && self.operand(j, side) == target => {
                assert(self.operands[j][0] < j);
                if self.operands[j].len() == 2 {
                    assert(self.operands[j][1] < j);
                }
                assert(other.other_value(j, side) == self.other_value(j, side));
                let c = choose|c: T|
                    op.local_rel(
                        side,
                        self.value(target),
                        self.grad(j),
                        self.other_value(j, side),
                        c,
                    ) && #[trigger] is_sum(prev, c, acc);
                assert(op.local_rel(
                    side,
                    other.value(target),
                    other.grad(j),
                    other.other_value(j, side),
                    c,
                ));
            },
            _ => {},
        }
    }

    /// Graphs that differ in gradients at most have the same values and
    /// operators.
    pub proof fn lemma_same_data(self, other: Self)
        requires
            self.same_but_grads(other),
        ensures
            forall|k: int| 0 <= k < self.len() ==> #[trigger] other.value(k) == self.value(k),
            forall|k: int| 0 <= k < self.len() ==> (#[trigger] other.nodes[k]).op == self.nodes[k].op,
    {
        assert forall|k: int| 0 <= k < self.len() implies #[trigger] other.value(k) == self.value(
            k,
        ) by {
            assert(other.nodes[k] == (Value { grad: other.nodes[k].grad, ..self.nodes[k] }));
        }
        assert forall|k: int| 0 <= k < self.len() implies (#[trigger] other.nodes[k]).op
            == self.nodes[k].op by {
            assert(other.nodes[k] == (Value { grad: other.nodes[k].grad, ..self.nodes[k] }));
        }
    }

    /// What a node contributes to `target` is what its step did to the
    /// gradient of `target`; its own gradient is the same before and after.
    pub proof fn lemma_handed_of_step(self, i: int, after: Self, target: int)
        requires
            self.well_formed(),
            0 <= i < self.len(),
            0 <= target < self.len(),
            self.node_step(i, after),
        ensures
            after.handed(i, target, self.grad(target), after.grad(target)),
    {
        let mid = choose|mid: Self| #[trigger]
            self.operand_step(i, Side::Left, mid) && mid.operand_step(i, Side::Right, after);
        self.lemma_node_step_frame(i, after);
        self.lemma_operand_step_frame(i, Side::Left, mid);
        mid.lemma_operand_step_frame(i, Side::Right, after);
        self.lemma_share_of_step(i, Side::Left, mid, target);
        mid.lemma_share_of_step(i, Side::Right, after, target);
        self.lemma_share_source(
            after,
            i,
            Side::Left,
            target,
            self.grad(target),
            mid.grad(target),
        );
        mid.lemma_share_source(
            after,
            i,
            Side::Right,
            target,
            mid.grad(target),
            after.grad(target),
        );
    }

    /// What was gathered from the nodes from `j` on depends on `done` only
    /// through the gradients of those nodes.
    pub proof fn lemma_gathered_source(self, done: Self, other: Self, target: int, j: int, acc: T)
        requires
            done.well_formed(),
            done.same_but_grads(other),
            done.len() == self.len(),
            0 <= j,
            0 <= target < self.len(),
            forall|k: int| j <= k < self.len() ==> #[trigger] done.grad(k) == other.grad(k),
            self.gathered(done, target, j, acc),
        ensures
            self.gathered(other, target, j, acc),
        decreases self.len() - j,
    {
        if j < self.len() {
            let prev = choose|prev: T|
                self.gathered(done, target, j + 1, prev) && #[trigger] done.handed(
                    j,
                    target,
                    prev,
                    acc,
                );
            self.lemma_gathered_source(done, other, target, j + 1, prev);
            let mid = choose|mid: T| #[trigger]
                done.share_added(j, Side::Left, target, prev, mid) && done.share_added(
                    j,
                    Side::Right,
                    target,
                    mid,
                    acc,
                );
            assert(done.grad(j) == other.grad(j));
            done.lemma_share_source(other, j, Side::Left, target, prev, mid);
            done.lemma_share_source(other, j, Side::Right, target, mid, acc);
            assert(other.handed(j, target, prev, acc));
        }
    }

    /// After the nodes from the last one down to node `i` have handed on their
    /// gradient, every gradient is what it was plus the shares of those nodes,
    /// each computed from the gradient that its node has now.
    pub proof fn lemma_gathered_so_far(self, i: int, now: Self, target: int)
        requires
            self.well_formed(),
            0 <= i <= self.len(),
            0 <= target < self.len(),
            self.swept(i, now),
        ensures
            self.gathered(now, target, i, now.grad(target)),
        decreases self.len() - i,
    {
        if i < self.len() {
            let mid = choose|mid: Self| self.swept(i + 1, mid) && #[trigger] mid.node_step(i, now);
            self.lemma_gathered_so_far(i + 1, mid, target);
            self.lemma_swept_frame(i + 1, mid);
            mid.lemma_node_step_frame(i, now);
            self.lemma_gathered_source(mid, now, target, i + 1, mid.grad(target));
            mid.lemma_handed_of_step(i, now, target);
        }
    }

    /// Accumulation. After a sweep over the whole graph, the gradient of every
    /// node is what it was before plus the share of each of its consumers, and
    /// each share is computed from the gradient that the consumer has at the
    /// end: every consumer had all of its own gradient before it handed any
    /// on, and no share was written over another.
    pub proof fn lemma_gradients_gathered(self, done: Self, target: int)
        requires
            self.well_formed(),
            0 <= target < self.len(),
            self.swept(0, done),
        ensures
            self.gathered(done, target, 0, done.grad(target)),
    {
        self.lemma_gathered_so_far(0, done, target);
    }

    /// Accumulation in a backward pass. After a pass from `root`, the
    /// gradient of every node is what it was when the root had been seeded,
    /// plus the share of each of its consumers, computed from the gradient that
    /// the consumer ends with.
    pub proof fn lemma_pass_gathers(self, root: int, done: Self, target: int)
        requires
            self.well_formed(),
            0 <= root < self.len(),
            0 <= target < self.len(),
            self.backward_from(root, done),
        ensures
            exists|one: T|
                is_one(one) && #[trigger] self.with_grad(root, one).gathered(
                    done,
                    target,
                    0,
                    done.grad(target),
                ),
    {
        let one = choose|one: T| is_one(one) && #[trigger] self.with_grad(root, one).swept(0, done);
        let seeded = self.with_grad(root, one);
        assert forall|i: int| 0 <= i < seeded.nodes.len() implies #[trigger] seeded.node_ok(i) by {
            assert(self.node_ok(i));
        }
        seeded.lemma_gradients_gathered(done, target);
    }

    /// A node that no node consumes keeps its gradient through a sweep: the
    /// root of a backward pass ends with the one that it was seeded with.
    pub proof fn lemma_sink_keeps_gradient(self, done: Self, sink: int)
        requires
            self.well_formed(),
            0 <= sink < self.len(),
            !self.has_consumer(sink),
            self.swept(0, done),
        ensures
            done.grad(sink) == self.grad(sink),
    {
        self.lemma_gradients_gathered(done, sink);
        self.lemma_swept_frame(0, done);
        self.lemma_same_data(done);
        assert forall|j: int| 0 <= j < self.len() implies !done.feeds(j, Side::Left, sink)
            && !done.feeds(j, Side::Right, sink) by {
            assert(self.node_ok(j));
            if done.feeds(j, Side::Left, sink) {
                assert(self.operands[j][0] == sink);
                assert(self.operands[j].contains(sink as nat));
            }
            if done.feeds(j, Side::Right, sink) {
                assert(self.operands[j][1] == sink);
                assert(self.operands[j].contains(sink as nat));
            }
        }
        self.lemma_gathered_skip(done, sink, 0, self.len() as int, done.grad(sink));
    }

    /// Nodes that do not consume `target` gather nothing for it.
    pub proof fn lemma_gathered_skip(self, done: Self, target: int, from: int, to: int, acc: T)
        requires
            0 <= from <= to <= self.len(),
            self.gathered(done, target, from, acc),
            forall|j: int|
                from <= j < to ==> !done.feeds(j, Side::Left, target) && !done.feeds(
                    j,
                    Side::Right,
                    target,
                ),
        ensures
            self.gathered(done, target, to, acc),
        decreases to - from,
    {
        if from < to {
            let prev = choose|prev: T|
                self.gathered(done, target, from + 1, prev) && #[trigger] done.handed(
                    from,
                    target,
                    prev,
                    acc,
                );
            assert(!done.feeds(from, Side::Left, target) && !done.feeds(from, Side::Right, target));
            self.lemma_gathered_skip(done, target, from + 1, to, acc);
        }
    }

    /// A node that consumes `target` on one side only gathers one share for
    /// it.
    pub proof fn lemma_gathered_one(self, done: Self, target: int, j: int, side: Side, acc: T) -> (r:
        (T, T))
        requires
            0 <= j < self.len(),
            self.gathered(done, target, j, acc),
            done.feeds(j, side, target),
            !done.feeds(
                j,
                match side {
                    Side::Left => Side::Right,
                    Side::Right => Side::Left,
                },
                target,
            ),
        ensures
            self.gathered(done, target, j + 1, r.0),
            done.share_of(j, side, r.1),
            is_sum(r.0, r.1, acc),
    {
        let prev = choose|prev: T|
            self.gathered(done, target, j + 1, prev) && #[trigger] done.handed(j, target, prev, acc);
        let mid = choose|mid: T| #[trigger]
            done.share_added(j, Side::Left, target, prev, mid) && done.share_added(
                j,
                Side::Right,
                target,
                mid,
                acc,
            );
        let op = done.nodes[j].op->0;
        match side {
            Side::Left => {
                let c = choose|c: T|
                    op.local_rel(
                        Side::Left,
                        done.value(target),
                        done.grad(j),
                        done.other_value(j, Side::Left),
                        c,
                    ) && #[trigger] is_sum(prev, c, mid);
                (prev, c)
            },
            Side::Right => {
                let c = choose|c: T|
                    op.local_rel(
                        Side::Right,
                        done.value(target),
                        done.grad(j),
                        done.other_value(j, Side::Right),
                        c,
                    ) && #[trigger] is_sum(mid, c, acc);
                (prev, c)
            },
        }
    }

    /// Accumulation through two consumers. Where exactly two nodes consume
    /// `target`, each on one side, the gradient of `target` after a sweep is
    /// what it was before, plus the share of the later consumer, plus the share
    /// of the earlier one: the sum of both paths.
    pub proof fn lemma_two_consumers(
        self,
        done: Self,
        target: int,
        early: int,
        early_side: Side,
        late: int,
        late_side: Side,
    )
        requires
            self.well_formed(),
            self.swept(0, done),
            0 <= target < self.len(),
            0 <= early < late < self.len(),
            self.feeds(early, early_side, target),
            self.feeds(late, late_side, target),
            forall|j: int, side: Side|
                0 <= j < self.len() && #[trigger] self.feeds(j, side, target) ==> (j == early
                    && side == early_side) || (j == late && side == late_side),
        ensures
            exists|late_share: T, between: T, early_share: T|
                done.share_of(late, late_side, late_share) && #[trigger] is_sum(
                    self.grad(target),
                    late_share,
                    between,
                ) && done.share_of(early, early_side, early_share) && #[trigger] is_sum(
                    between,
                    early_share,
                    done.grad(target),
                ),
    {
        self.lemma_gradients_gathered(done, target);
        self.lemma_swept_frame(0, done);
        self.lemma_same_data(done);
        assert forall|j: int, side: Side| 0 <= j < self.len() implies done.feeds(j, side, target)
            == self.feeds(j, side, target) by {}
        self.lemma_gathered_skip(done, target, 0, early, done.grad(target));
        let first = self.lemma_gathered_one(done, target, early, early_side, done.grad(target));
        self.lemma_gathered_skip(done, target, early + 1, late, first.0);
        let second = self.lemma_gathered_one(done, target, late, late_side, first.0);
        self.lemma_gathered_skip(done, target, late + 1, self.len() as int, second.0);
        assert(second.0 == self.grad(target));
        assert(is_sum(self.grad(target), second.1, first.0));
        assert(is_sum(first.0, first.1, done.grad(target)));
    }

    /// With arithmetic that has one result for each input, an operand
    /// receives one share.
    pub proof fn lemma_one_share(op: Op, side: Side, me: T, g: T, other: Option<T>, a: T, b: T)
        requires
            deterministic::<T>(),
            op.local_rel(side, me, g, other, a),
            op.local_rel(side, me, g, other, b),
        ensures
            a == b,
    {
        match op {
            Op::POW => {
                let y = other->0;
                let (one, e, p, yp) = choose|one: T, e: T, p: T, yp: T|
                    is_one(one) && #[trigger] is_difference(y, one, e) && is_power(me, e, p)
                        && #[trigger] is_product(y, p, yp) && is_product(yp, g, a);
                let (one_b, e_b, p_b, yp_b) = choose|one: T, e: T, p: T, yp: T|
                    is_one(one) && #[trigger] is_difference(y, one, e) && is_power(me, e, p)
                        && #[trigger] is_product(y, p, yp) && is_product(yp, g, b);
                assert(one == one_b);
                assert(e == e_b);
                assert(p == p_b);
                assert(yp == yp_b);
            },
            Op::TANH => {
                let (t, tt, one, d) = choose|t: T, tt: T, one: T, d: T|
                    is_tanh(me, t) && #[trigger] is_product(t, t, tt) && is_one(one)
                        && #[trigger] is_difference(one, tt, d) && is_product(d, g, a);
                let (t_b, tt_b, one_b, d_b) = choose|t: T, tt: T, one: T, d: T|
                    is_tanh(me, t) && #[trigger] is_product(t, t, tt) && is_one(one)
                        && #[trigger] is_difference(one, tt, d) && is_product(d, g, b);
                assert(t == t_b);
                assert(tt == tt_b);
                assert(one == one_b);
                assert(d == d_b);
            },
            _ => {},
        }
    }

    /// With such arithmetic, a step for one operand has one outcome.
    pub proof fn lemma_one_operand_step(self, i: int, side: Side, a: Self, b: Self)
        requires
            deterministic::<T>(),
            self.operand_step(i, side, a),
            self.operand_step(i, side, b),
        ensures
            a == b,
    {
        match self.nodes[i].op {
            Some(op) if op.flows(side) => {
                let t = self.operand(i, side);
                let ca = choose|c: T|
                    op.local_rel(side, self.value(t), self.grad(i), self.other_value(i, side), c)
                        && #[trigger] self.accumulates(t, c, a);
                let cb = choose|c: T|
                    op.local_rel(side, self.value(t), self.grad(i), self.other_value(i, side), c)
                        && #[trigger] self.accumulates(t, c, b);
                Self::lemma_one_share(
                    op,
                    side,
                    self.value(t),
                    self.grad(i),
                    self.other_value(i, side),
                    ca,
                    cb,
                );
            },
            _ => {},
        }
    }

    /// With such arithmetic, a node's step has one outcome.
    pub proof fn lemma_one_node_step(self, i: int, a: Self, b: Self)
        requires
            deterministic::<T>(),
            self.node_step(i, a),
            self.node_step(i, b),
        ensures
            a == b,
    {
        let ma = choose|mid: Self| #[trigger]
            self.operand_step(i, Side::Left, mid) && mid.operand_step(i, Side::Right, a);
        let mb = choose|mid: Self| #[trigger]
            self.operand_step(i, Side::Left, mid) && mid.operand_step(i, Side::Right, b);
        self.lemma_one_operand_step(i, Side::Left, ma, mb);
        ma.lemma_one_operand_step(i, Side::Right, a, b);
    }

    /// With such arithmetic, a sweep has one outcome.
    pub proof fn lemma_one_sweep(self, i: int, a: Self, b: Self)
        requires
            deterministic::<T>(),
            self.swept(i, a),
            self.swept(i, b),
        ensures
            a == b,
        decreases self.len() - i,
    {
        if i < self.len() {
            let ma = choose|mid: Self| self.swept(i + 1, mid) && #[trigger] mid.node_step(i, a);
            let mb = choose|mid: Self| self.swept(i + 1, mid) && #[trigger] mid.node_step(i, b);
            self.lemma_one_sweep(i + 1, ma, mb);
            ma.lemma_one_node_step(i, a, b);
        }
    }

    /// With such arithmetic, a backward pass from a given root has one
    /// outcome.
    pub proof fn lemma_one_pass(self, root: int, a: Self, b: Self)
        requires
            deterministic::<T>(),
            self.backward_from(root, a),
            self.backward_from(root, b),
        ensures
            a == b,
    {
        let one_a = choose|one: T| is_one(one) && #[trigger] self.with_grad(root, one).swept(0, a);
        let one_b = choose|one: T| is_one(one) && #[trigger] self.with_grad(root, one).swept(0, b);
        assert(one_a == one_b);
        self.with_grad(root, one_a).lemma_one_sweep(0, a, b);
    }

    /// Clearing forgets the gradients: whatever a graph's gradients were,
    /// clearing it gives what clearing any graph gives that differs from it in
    /// gradients at most.
    pub proof fn lemma_cleared_forgets(self, other: Self, after: Self)
        requires
            self.same_but_grads(other),
            other.cleared(after),
        ensures
            self.cleared(after),
    {
        let z = choose|z: T| #[trigger]
            is_zero(z) && forall|i: int|
                0 <= i < other.nodes.len() ==> after.nodes[i] == (Value {
                    grad: z,
                    ..other.nodes[i]
                });
        assert forall|i: int| 0 <= i < self.nodes.len() implies after.nodes[i] == (Value {
            grad: z,
            ..self.nodes[i]
        }) by {
            assert(other.nodes[i] == (Value { grad: other.nodes[i].grad, ..self.nodes[i] }));
        }
    }

    /// After clearing, every gradient is zero.
    pub proof fn lemma_cleared_is_zero(self, after: Self, i: int)
        requires
            self.cleared(after),
            0 <= i < self.len(),
        ensures
            is_zero(after.grad(i)),
            after.value(i) == self.value(i),
    {
    }

    /// Clearing and passing again repeats the first pass. A graph is cleared
    /// and goes through a backward pass; it is cleared once more and goes
    /// through a pass from the same root. Then the second pass starts from a
    /// graph that clearing the first graph could have given as well; and with
    /// arithmetic that has one result for each input, it ends with the very
    /// gradients of the first pass: nothing of the first pass is left to add
    /// to.
    pub proof fn lemma_pass_repeats(
        self,
        cleared: Self,
        first: Self,
        cleared_again: Self,
        second: Self,
        root: int,
    )
        requires
            self.well_formed(),
            0 <= root < self.len(),
            self.cleared(cleared),
            cleared.backward_from(root, first),
            first.cleared(cleared_again),
            cleared_again.backward_from(root, second),
        ensures
            self.cleared(cleared_again),
            deterministic::<T>() ==> second == first,
    {
        let z = choose|z: T| #[trigger]
            is_zero(z) && forall|i: int|
                0 <= i < self.nodes.len() ==> cleared.nodes[i] == (Value {
                    grad: z,
                    ..self.nodes[i]
                });
        assert(self.same_but_grads(cleared));
        assert forall|i: int| 0 <= i < cleared.nodes.len() implies #[trigger] cleared.node_ok(
            i,
        ) by {
            assert(self.node_ok(i));
        }
        let one = choose|one: T|
            is_one(one) && #[trigger] cleared.with_grad(root, one).swept(0, first);
        let seeded = cleared.with_grad(root, one);
        assert forall|i: int| 0 <= i < seeded.nodes.len() implies #[trigger] seeded.node_ok(i) by {
            assert(cleared.node_ok(i));
        }
        seeded.lemma_swept_frame(0, first);
        assert(cleared.same_but_grads(first)) by {
            assert forall|k: int| 0 <= k < cleared.nodes.len() implies #[trigger] first.nodes[k]
                == (Value { grad: first.nodes[k].grad, ..cleared.nodes[k] }) by {
                assert(first.nodes[k] == (Value { grad: first.nodes[k].grad, ..seeded.nodes[k] }));
            }
        }
        assert(self.same_but_grads(first)) by {
            assert forall|k: int| 0 <= k < self.nodes.len() implies #[trigger] first.nodes[k] == (
            Value { grad: first.nodes[k].grad, ..self.nodes[k] }) by {
                assert(first.nodes[k] == (Value { grad: first.nodes[k].grad, ..cleared.nodes[k] }));
            }
        }
        self.lemma_cleared_forgets(first, cleared_again);
        if deterministic::<T>() {
            let z2 = choose|z: T| #[trigger]
                is_zero(z) && forall|i: int|
                    0 <= i < self.nodes.len() ==> cleared_again.nodes[i] == (Value {
                        grad: z,
                        ..self.nodes[i]
                    });
            assert(z == z2);
            assert(cleared_again.nodes =~= cleared.nodes);
            assert(cleared_again == cleared);
            cleared.lemma_one_pass(root, first, second);
        }
    }

    /// A leaf stays what it is when nodes are appended.
    pub proof fn lemma_leaf_kept(self, after: Self, i: int, id: &'static str)
        requires
            self.operands.len() == self.nodes.len(),
            self.grows_to(after),
            self.is_leaf_at(i, id),
        ensures
            after.is_leaf_at(i, id),
            after.value(i) == self.value(i),
    {
        assert(after.nodes[i] == self.nodes[i]);
        assert(after.operands[i] == self.operands[i]);
    }

    /// A result stays what it is when nodes are appended.
    pub proof fn lemma_result_kept(self, after: Self, i: int, op: Op, operands: Seq<nat>, id: &'static str)
        requires
            self.operands.len() == self.nodes.len(),
            self.grows_to(after),
            self.is_result_at(i, op, operands, id),
            operands.len() == op.arity(),
            forall|k: int| 0 <= k < operands.len() ==> (#[trigger] operands[k]) < self.len(),
        ensures
            after.is_result_at(i, op, operands, id),
            after.value(i) == self.value(i),
    {
        assert(after.nodes[i] == self.nodes[i]);
        assert(after.operands[i] == self.operands[i]);
        assert(operands[0] < self.len());
        assert(after.nodes[operands[0] as int] == self.nodes[operands[0] as int]);
        if operands.len() == 2 {
            assert(operands[1] < self.len());
            assert(after.nodes[operands[1] as int] == self.nodes[operands[1] as int]);
        }
    }

    /// A term of a loss stays what it is when nodes are appended.
    pub proof fn lemma_loss_term_kept(self, after: Self, at: int, pred: int, truth: T, total: int)
        requires
            self.operands.len() == self.nodes.len(),
            self.grows_to(after),
            self.is_loss_term(at, pred, truth, total),
            0 <= pred < self.len(),
            0 <= total < self.len(),
        ensures
            after.is_loss_term(at, pred, truth, total),
    {
        self.lemma_leaf_kept(after, at, "y");
        self.lemma_result_kept(after, at + 1, Op::SUB, seq![at as nat, pred as nat], "E");
        self.lemma_leaf_kept(after, at + 2, "2");
        self.lemma_result_kept(
            after,
            at + 3,
            Op::POW,
            seq![(at + 1) as nat, (at + 2) as nat],
            "SE",
        );
        self.lemma_result_kept(
            after,
            at + 4,
            Op::ADD,
            seq![(at + 3) as nat, total as nat],
            "L",
        );
    }
}

} // verus!
