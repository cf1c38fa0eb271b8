//! The computation graph: scalar nodes in an arena, the operators that make
//! one node from others, and the backward pass.

use crate::model::GraphView;
use crate::scalar::{
    is_difference, is_negation, is_one, is_power, is_product, is_sum, is_tanh, is_zero, Scalar,
};
use crate::topology::{
    connected, dag_edges, dag_parents, has_child, is_path, Topology, INDEX_END,
};
use vstd::prelude::*;
use vstd::string::StringExecFns;

verus! {

/// The operators that can make a node.
#[derive(Clone, Copy, Debug, PartialEq, Eq, Structural)]
pub enum Op {
    ADD,
    MUL,
    SUB,
    POW,
    TANH,
}

/// The place of an operand: binary operators have both, `TANH` only the left.
#[derive(Clone, Copy, Debug, PartialEq, Eq, Structural)]
pub enum Side {
    Left,
    Right,
}

impl Op {
    /// The number of operands: one for `TANH`, two for the others.
    pub open spec fn arity(self) -> nat {
        if self is TANH {
            1
        } else {
            2
        }
    }

    /// The operator's sign: what `as_str` returns.
    pub open spec fn symbol(self) -> Seq<char> {
        match self {
            Op::ADD => "+"@,
            Op::MUL => "*"@,
            Op::SUB => "-"@,
            Op::POW => "^"@,
            Op::TANH => "tanh"@,
        }
    }

    /// Whether the operator takes two operands.
    pub fn is_binary(&self) -> (b: bool)
        ensures
            b == (self.arity() == 2),
    {
        match self {
            Op::TANH => false,
            _ => true,
        }
    }

    /// The operator's sign in a diagram.
    pub fn as_str(&self) -> (s: &'static str)
        ensures
            s@ == self.symbol(),
    {
        match self {
            Op::ADD => "+",
            Op::MUL => "*",
            Op::SUB => "-",
            Op::POW => "^",
            Op::TANH => "tanh",
        }
    }

    /// `r` may be the value of a node that `self` makes from operands with the
    /// values `x` and, for a binary operator, `y`.
    pub open spec fn forward_rel<T: Scalar>(self, x: T, y: Option<T>, r: T) -> bool {
        match self {
            Op::ADD => y is Some && is_sum(x, y->0, r),
            Op::MUL => y is Some && is_product(x, y->0, r),
            Op::SUB => y is Some && is_difference(x, y->0, r),
            Op::POW => y is Some && is_power(x, y->0, r),
            Op::TANH => y is None && is_tanh(x, r),
        }
    }

    /// The value of the node that the operator makes from operands with the
    /// values `x` and `y`.
    pub fn forward<T: Scalar>(&self, x: T, y: Option<T>) -> (r: T)
        requires
            y is Some <==> self.arity() == 2,
        ensures
            self.forward_rel(x, y, r),
    {
        match self {
            Op::ADD => x.plus(y.unwrap()),
            Op::MUL => x.times(y.unwrap()),
            Op::SUB => x.minus(y.unwrap()),
            Op::POW => x.powf(y.unwrap()),
            Op::TANH => x.tanh(),
        }
    }

    /// Whether a result hands any gradient to its operand on `side`. The
    /// exponent of `POW` is a constant: nothing flows to it.
    pub open spec fn flows(self, side: Side) -> bool {
        match side {
            Side::Left => true,
            Side::Right => self is ADD || self is SUB || self is MUL,
        }
    }

    /// `c` may be `(y * x^(y - 1)) * g`.
    pub open spec fn power_rule<T: Scalar>(x: T, g: T, y: T, c: T) -> bool {
        exists|one: T, e: T, p: T, yp: T|
            is_one(one) && #[trigger] is_difference(y, one, e) && is_power(x, e, p)
                && #[trigger] is_product(y, p, yp) && is_product(yp, g, c)
    }

    /// `c` may be `(1 - tanh(x)^2) * g`.
    pub open spec fn tanh_rule<T: Scalar>(x: T, g: T, c: T) -> bool {
        exists|t: T, tt: T, one: T, d: T|
            is_tanh(x, t) && #[trigger] is_product(t, t, tt) && is_one(one)
                && #[trigger] is_difference(one, tt, d) && is_product(d, g, c)
    }

    /// `c` may be what a result of `self` with the gradient `g` hands to its
    /// operand on `side`, where `me` is that operand's value and `other` the
    /// value of the operand on the other side.
    pub open spec fn local_rel<T: Scalar>(self, side: Side, me: T, g: T, other: Option<T>, c: T) -> bool {
        match self {
            Op::ADD => c == g,
            Op::SUB => match side {
                Side::Left => c == g,
                Side::Right => is_negation(g, c),
            },
            Op::MUL => other is Some && is_product(other->0, g, c),
            Op::POW => other is Some && Op::power_rule(me, g, other->0, c),
            Op::TANH => Op::tanh_rule(me, g, c),
        }
    }
}

/// What has a local derivative: a rule that turns the gradient of a result
/// into the share of one of its operands.
pub trait GradFn<T: Scalar> {
    /// The operands that the rule is made for.
    spec fn accepts(&self, side: Side, other: Option<T>) -> bool;

    /// `part` may be what `backward` returns.
    spec fn shares(&self, side: Side, me: T, g: T, other: Option<T>, part: Option<T>) -> bool;

    /// What a result with the gradient `g` hands to its operand on `side`,
    /// where `me` is that operand's value and `other` the value of the operand
    /// on the other side; `None` where nothing flows to that side.
    fn backward(&self, side: Side, me: T, g: T, other: Option<T>) -> (part: Option<T>)
        requires
            self.accepts(side, other),
        ensures
            self.shares(side, me, g, other, part),
    ;
}

impl<T: Scalar> GradFn<T> for Op {
    /// A binary operator has a value on the other side, `TANH` has none and no
    /// right operand.
    open spec fn accepts(&self, side: Side, other: Option<T>) -> bool {
        &&& other is Some <==> self.arity() == 2
        &&& side is Right ==> self.arity() == 2
    }

    /// A share where gradient flows, as the operator's rule gives it.
    open spec fn shares(&self, side: Side, me: T, g: T, other: Option<T>, part: Option<T>) -> bool {
        &&& part is Some <==> self.flows(side)
        &&& part is Some ==> self.local_rel(side, me, g, other, part->0)
    }

    fn backward(&self, side: Side, me: T, g: T, other: Option<T>) -> (part: Option<T>) {
        match self {
            Op::ADD => Some(g),
            Op::SUB => match side {
                Side::Left => Some(g),
                Side::Right => Some(g.negated()),
            },
            Op::MUL => Some(other.unwrap().times(g)),
            Op::POW => match side {
                Side::Left => {
                    let y = other.unwrap();
                    let one = T::one();
                    let e = y.minus(one);
                    let p = me.powf(e);
                    let yp = y.times(p);
                    let c = yp.times(g);
                    assert(is_difference(y, one, e) && is_product(y, p, yp));
                    Some(c)
                },
                Side::Right => None,
            },
            Op::TANH => {
                let t = me.tanh();
                let tt = t.times(t);
                let one = T::one();
                let d = one.minus(tt);
                let c = d.times(g);
                assert(is_product(t, t, tt) && is_difference(one, tt, d));
                Some(c)
            },
        }
    }
}

/// The weight of an edge: it carries nothing.
pub struct Empty;

impl Empty {
    /// The empty text: an `Empty` shows as nothing.
    pub fn to_text(&self) -> (text: String)
        ensures
            text@ == Seq::<char>::empty(),
    {
        String::new()
    }
}

/// A scalar node: a value, the gradient accumulated for it, the operator that
/// made it (none for a leaf) and a label for diagrams.
#[derive(Copy)]
pub struct Value<T: Scalar> {
    pub data: T,
    pub grad: T,
    pub op: Option<Op>,
    pub id: &'static str,
}

impl<T: Scalar> Clone for Value<T> {
    fn clone(&self) -> (v: Self)
        ensures
            v == *self,
    {
        *self
    }
}

impl<T: Scalar> Value<T> {
    /// The node in one line, with its value and its gradient as given.
    pub open spec fn text(self, data: Seq<char>, grad: Seq<char>) -> Seq<char> {
        "Value "@ + self.id@ + " { data: "@ + data + ", grad: "@ + grad + " }"@
    }

    /// The node in one line, with `data` and `grad` as the text of its value
    /// and of its gradient.
    pub fn to_text(&self, data: &str, grad: &str) -> (line: String)
        ensures
            line@ == self.text(data@, grad@),
    {
        let mut line = String::from_str("Value ");
        line.append(self.id);
        line.append(" { data: ");
        line.append(data);
        line.append(", grad: ");
        line.append(grad);
        line.append(" }");
        line
    }

    /// A node of these four parts.
    pub fn new(data: T, grad: T, op: Option<Op>, id: &'static str) -> (v: Self)
        ensures
            v == (Value { data, grad, op, id }),
    {
        Self { data, grad, op, id }
    }
}

/// Why a backward pass did not run.
#[derive(Clone, Copy, Debug, PartialEq, Eq, Structural)]
pub enum PassError {
    /// No root was named, and the graph does not have exactly one node that no
    /// node consumes.
    AmbiguousRoot,
}

/// The computation graph. It owns the nodes, in an arena indexed by handle,
/// and the edges from operand to result.
pub struct ComputationGraph<T: Scalar> {
    nodes: Vec<Value<T>>,
    graph: Topology,
}

impl<T: Scalar> Default for ComputationGraph<T> {
    /// An empty graph.
    fn default() -> (cg: Self)
        ensures
            cg.wf(),
            cg@.nodes.len() == 0,
            cg@.operands.len() == 0,
    {
        Self::new()
    }
}

impl<T: Scalar> View for ComputationGraph<T> {
    type V = GraphView<T>;

    closed spec fn view(&self) -> GraphView<T> {
        GraphView {
            nodes: self.nodes@,
            operands: Seq::new(
                dag_parents(self.graph).len(),
                |i: int| dag_parents(self.graph)[i].reverse(),
            ),
        }
    }
}

/// Every edge leads to a node with a larger index.
spec fn ascending(parents: Seq<Seq<nat>>) -> bool {
    forall|j: int, k: int|
        0 <= j < parents.len() && 0 <= k < parents[j].len() ==> (#[trigger] parents[j][k]) < j
}

/// Along a path in a graph whose edges ascend, the nodes do not descend.
proof fn lemma_path_ascends(parents: Seq<Seq<nat>>, path: Seq<nat>, k: int)
    requires
        ascending(parents),
        is_path(parents, path),
        0 <= k < path.len(),
    ensures
        path[0] <= path[k],
    decreases k,
{
    if k > 0 {
        lemma_path_ascends(parents, path, k - 1);
        let j = path[k] as int;
        let at = choose|at: int| 0 <= at < parents[j].len() && parents[j][at] == path[k - 1];
        assert(parents[j][at] < j);
    }
}

/// In a graph whose edges ascend, no node reaches one with a smaller index.
proof fn lemma_no_way_down(parents: Seq<Seq<nat>>, from: nat, to: nat)
    requires
        ascending(parents),
        to < from,
    ensures
        !connected(parents, from, to),
{
    if connected(parents, from, to) {
        let path = choose|path: Seq<nat>| #[trigger]
            is_path(parents, path) && path.first() == from && path.last() == to;
        lemma_path_ascends(parents, path, path.len() - 1);
    }
}

/// The edges that end in the first `n` nodes depend on those nodes alone.
proof fn lemma_edges_of_prefix<T: Scalar>(a: GraphView<T>, b: GraphView<T>, n: int)
    requires
        n <= a.operands.len(),
        n <= b.operands.len(),
        forall|i: int| 0 <= i < n ==> a.operands[i] == b.operands[i],
    ensures
        a.edges_upto(n) == b.edges_upto(n),
    decreases n,
{
    if n > 0 {
        lemma_edges_of_prefix(a, b, n - 1);
        assert(a.node_edges(n - 1) =~= b.node_edges(n - 1));
    }
}

impl<T: Scalar> ComputationGraph<T> {
    /// The edges are stored as the model says, and the model is well formed.
    pub closed spec fn wf(&self) -> bool {
        &&& dag_parents(self.graph).len() == self.nodes@.len()
        &&& dag_edges(self.graph) == self@.edges()
        &&& self@.well_formed()
    }

    /// A well-formed graph has a well-formed model.
    pub proof fn lemma_wf(&self)
        requires
            self.wf(),
        ensures
            self@.well_formed(),
    {
    }

    /// An empty graph.
    pub fn new() -> (cg: Self)
        ensures
            cg.wf(),
            cg@.nodes.len() == 0,
            cg@.operands.len() == 0,
    {
        let cg = Self { nodes: Vec::new(), graph: Topology::new() };
        assert(cg@.edges() =~= Seq::<(nat, nat)>::empty());
        cg
    }

    /// The number of nodes: the handles are the numbers below it.
    pub fn len(&self) -> (n: usize)
        ensures
            n == self@.len(),
    {
        self.nodes.len()
    }

    /// Appends a leaf with the value `data` and a zero gradient, and returns
    /// its handle.
    pub fn new_value(&mut self, data: T, id: &'static str) -> (node: usize)
        requires
            old(self).wf(),
            old(self)@.len() < INDEX_END,
        ensures
            final(self).wf(),
            node == old(self)@.len(),
            final(self)@.extends(
                old(self)@,
                Value { data, grad: final(self)@.grad(node as int), op: None, id },
                Seq::empty(),
            ),
            is_zero(final(self)@.grad(node as int)),
            old(self)@.grows_to(final(self)@),
            final(self)@.is_leaf_at(node as int, id),
            final(self)@.edges() == old(self)@.edges(),
    {
        let grad = T::zero();
        let new_node = Value::new(data, grad, None, id);
        let node = self.graph.add_node();
        self.nodes.push(new_node);
        proof {
            let before = old(self)@;
            let after = self@;
            assert(Seq::<nat>::empty().reverse() =~= Seq::<nat>::empty());
            assert(after.operands =~= before.operands.push(Seq::empty()));
            lemma_edges_of_prefix(after, before, node as int);
            assert(after.node_edges(node as int) =~= Seq::<(nat, nat)>::empty());
            assert(after.edges() =~= before.edges());
            assert forall|i: int| 0 <= i < after.nodes.len() implies #[trigger] after.node_ok(i) by {
                if i < node {
                    assert(before.node_ok(i));
                }
            }
        }
        node
    }

    /// The operands of a result, as one list from left to right.
    pub open spec fn operand_list(lhs: usize, rhs: Option<usize>) -> Seq<nat> {
        match rhs {
            Some(r) => seq![lhs as nat, r as nat],
            None => seq![lhs as nat],
        }
    }

    /// Applies `op` to the node `lhs` and, for a binary operator, the node
    /// `rhs`: appends the result, with the value that the operator gives for
    /// the operands' values and a zero gradient, and the edges from each
    /// operand to it. Returns the result's handle.
    pub fn new_computation(
        &mut self,
        lhs: usize,
        rhs: Option<usize>,
        op: Op,
        id: &'static str,
    ) -> (out: usize)
        requires
            old(self).wf(),
            lhs < old(self)@.len(),
            rhs matches Some(r) ==> r < old(self)@.len(),
            rhs is Some <==> op.arity() == 2,
            old(self)@.has_room(op.arity()),
        ensures
            final(self).wf(),
            out == old(self)@.len(),
            final(self)@.extends(
                old(self)@,
                Value {
                    data: final(self)@.value(out as int),
                    grad: final(self)@.grad(out as int),
                    op: Some(op),
                    id,
                },
                Self::operand_list(lhs, rhs),
            ),
            op.forward_rel(
                old(self)@.value(lhs as int),
                match rhs {
                    Some(r) => Some(old(self)@.value(r as int)),
                    None => None,
                },
                final(self)@.value(out as int),
            ),
            is_zero(final(self)@.grad(out as int)),
            old(self)@.grows_to(final(self)@),
            final(self)@.is_result_at(out as int, op, Self::operand_list(lhs, rhs), id),
            final(self)@.edges() == old(self)@.edges() + Seq::new(
                op.arity(),
                |k: int| (Self::operand_list(lhs, rhs)[k], out as nat),
            ),
    {
        let x = self.nodes[lhs].data;
        let y = match rhs {
            Some(r) => Some(self.nodes[r].data),
            None => None,
        };
        let data = op.forward(x, y);
        let out_node = Value::new(data, T::zero(), Some(op), id);
        let ghost before = self@;
        assert forall|j: int, k: int|
            0 <= j < dag_parents(self.graph).len() && 0 <= k < dag_parents(
                self.graph,
            )[j].len() implies (#[trigger] dag_parents(self.graph)[j][k]) < j by {
            let ops = before.operands[j];
            assert(before.node_ok(j));
            assert(ops[ops.len() - 1 - k] == dag_parents(self.graph)[j][k]);
        }
        let out = self.graph.add_node();
        self.nodes.push(out_node);
        proof {
            assert(ascending(dag_parents(self.graph)));
            lemma_no_way_down(dag_parents(self.graph), out as nat, lhs as nat);
        }
        let ghost parents_one = dag_parents(self.graph);
        match self.graph.add_edge(lhs, out) {
            Ok(_) => {},
            Err(_) => {
                assert(false);
            },
        }
        match rhs {
            Some(r) => {
                proof {
                    assert(seq![lhs as nat] + parents_one[out as int] =~= seq![lhs as nat]);
                    assert(ascending(dag_parents(self.graph)));
                    lemma_no_way_down(dag_parents(self.graph), out as nat, r as nat);
                }
                match self.graph.add_edge(r, out) {
                    Ok(_) => {},
                    Err(_) => {
                        assert(false);
                    },
                }
            },
            None => {},
        }
        proof {
            let after = self@;
            let list = Self::operand_list(lhs, rhs);
            assert(Seq::<nat>::empty().reverse() =~= Seq::<nat>::empty());
            assert(dag_parents(self.graph)[out as int].reverse() =~= list);
            assert(after.operands =~= before.operands.push(list));
            lemma_edges_of_prefix(after, before, out as int);
            assert(after.node_edges(out as int) =~= Seq::new(
                list.len(),
                |k: int| (list[k], out as nat),
            ));
            assert(dag_edges(self.graph) =~= after.edges());
            assert forall|i: int| 0 <= i < after.nodes.len() implies #[trigger] after.node_ok(i) by {
                if i < out {
                    assert(before.node_ok(i));
                }
            }
        }
        out
    }

    /// The value of a node.
    pub fn get_node_data(&self, node: usize) -> (data: T)
        requires
            node < self@.len(),
        ensures
            data == self@.value(node as int),
    {
        self.nodes[node].data
    }

    /// The gradient accumulated for a node.
    pub fn get_node_grad(&self, node: usize) -> (grad: T)
        requires
            node < self@.len(),
        ensures
            grad == self@.grad(node as int),
    {
        self.nodes[node].grad
    }

    /// The label of a node.
    pub fn get_node_id(&self, node: usize) -> (id: &'static str)
        requires
            node < self@.len(),
        ensures
            id == self@.nodes[node as int].id,
    {
        self.nodes[node].id
    }

    /// The operator that made a node, or `None` for a leaf.
    pub fn get_node_op(&self, node: usize) -> (op: Option<Op>)
        requires
            node < self@.len(),
        ensures
            op == self@.nodes[node as int].op,
    {
        self.nodes[node].op
    }

    /// Replaces the gradient of a node.
    pub fn set_node_grad(&mut self, node: usize, grad: T)
        requires
            old(self).wf(),
            node < old(self)@.len(),
        ensures
            final(self).wf(),
            final(self)@ == old(self)@.with_grad(node as int, grad),
    {
        let n = self.nodes[node];
        self.nodes.set(node, Value::new(n.data, grad, n.op, n.id));
        proof {
            let before = old(self)@;
            let after = self@;
            assert(after.nodes =~= before.with_grad(node as int, grad).nodes);
            lemma_edges_of_prefix(after, before, before.nodes.len() as int);
            assert forall|i: int| 0 <= i < after.nodes.len() implies #[trigger] after.node_ok(i) by {
                assert(before.node_ok(i));
            }
        }
    }

    /// The handles of the left and the right operand of a node, as far as it
    /// has them.
    pub fn operands(&self, node: usize) -> (r: (Option<usize>, Option<usize>))
        requires
            self.wf(),
            node < self@.len(),
        ensures
            r.0 is Some <==> self@.operands[node as int].len() >= 1,
            r.1 is Some <==> self@.operands[node as int].len() == 2,
            r.0 matches Some(lhs) ==> lhs == self@.operand(node as int, Side::Left),
            r.1 matches Some(rhs) ==> rhs == self@.operand(node as int, Side::Right),
    {
        proof {
            assert(self@.node_ok(node as int));
        }
        let ghost list = dag_parents(self.graph)[node as int];
        let mut walk = self.graph.parents(node);
        let newest = walk.walk_next(&self.graph);
        let older = walk.walk_next(&self.graph);
        match (newest, older) {
            (Some(rhs), Some(lhs)) => {
                assert(list.skip(1)[0] == list[1]);
                (Some(lhs), Some(rhs))
            },
            (Some(lhs), None) => (Some(lhs), None),
            _ => (None, None),
        }
    }

    /// Whether some node has `node` among its operands.
    pub fn has_consumer(&self, node: usize) -> (b: bool)
        requires
            self.wf(),
            node < self@.len(),
        ensures
            b == self@.has_consumer(node as int),
    {
        let edge = self.graph.first_outgoing(node);
        proof {
            let parents = dag_parents(self.graph);
            if has_child(parents, node as nat) {
                let j = choose|j: int|
                    0 <= j < parents.len() && (#[trigger] parents[j]).contains(node as nat);
                let k = choose|k: int| 0 <= k < parents[j].len() && parents[j][k] == node as nat;
                assert(self@.operands[j][parents[j].len() - 1 - k] == node as nat);
                assert(self@.operands[j].contains(node as nat));
            }
            if self@.has_consumer(node as int) {
                let j = choose|j: int|
                    0 <= j < self@.operands.len() && (#[trigger] self@.operands[j]).contains(
                        node as nat,
                    );
                let list = self@.operands[j];
                let k = choose|k: int| 0 <= k < list.len() && list[k] == node as nat;
                assert(parents[j][list.len() - 1 - k] == node as nat);
                assert(parents[j].contains(node as nat));
            }
        }
        edge != INDEX_END
    }

    /// Adds `c` to the gradient of `target`.
    fn accumulate(&mut self, target: usize, c: T)
        requires
            old(self).wf(),
            target < old(self)@.len(),
        ensures
            final(self).wf(),
            old(self)@.accumulates(target as int, c, final(self)@),
    {
        let sum = self.nodes[target].grad.plus(c);
        self.set_node_grad(target, sum);
    }

    /// Lets one node hand on its gradient: each operand that the operator's
    /// rule gives a share has that share added to its gradient, the left
    /// operand first. A leaf hands on nothing.
    pub fn backward_one_level(&mut self, out: usize)
        requires
            old(self).wf(),
            out < old(self)@.len(),
        ensures
            final(self).wf(),
            old(self)@.node_step(out as int, final(self)@),
    {
        let ghost before = self@;
        let node = self.nodes[out];
        proof {
            assert(before.node_ok(out as int));
        }
        match node.op {
            None => {
                assert(before.operand_step(out as int, Side::Left, before));
            },
            Some(op) => {
                let (left, right) = self.operands(out);
                let lhs = left.unwrap();
                let x = self.nodes[lhs].data;
                let y = match right {
                    Some(rhs) => Some(self.nodes[rhs].data),
                    None => None,
                };
                let g = node.grad;
                let share = op.backward(Side::Left, x, g, y);
                self.accumulate(lhs, share.unwrap());
                let ghost mid = self@;
                proof {
                    // the left operand is not the node itself: its gradient
                    // is still the one that was read
                    assert(before.operands[out as int][0] < out);
                    assert(before.operand_step(out as int, Side::Left, mid));
                    assert(mid.nodes[out as int] == before.nodes[out as int]);
                }
                match right {
                    Some(rhs) => {
                        assert(mid.value(rhs as int) == y->0);
                        assert(mid.other_value(out as int, Side::Right) == Some(x));
                        match op.backward(Side::Right, y.unwrap(), g, Some(x)) {
                            Some(c) => {
                                self.accumulate(rhs, c);
                                assert(mid.accumulates(rhs as int, c, self@));
                                assert(mid.operand(out as int, Side::Right) == rhs);
                                assert(op.local_rel(
                                    Side::Right,
                                    mid.value(rhs as int),
                                    mid.grad(out as int),
                                    mid.other_value(out as int, Side::Right),
                                    c,
                                ));
                                assert(mid.operand_step(out as int, Side::Right, self@));
                            },
                            None => {
                                assert(mid.operand_step(out as int, Side::Right, self@));
                            },
                        }
                    },
                    None => {
                        assert(mid.operand_step(out as int, Side::Right, self@));
                    },
                }
            },
        }
    }

    /// Lets every node hand on its gradient, from the node inserted last down
    /// to the first: each node's consumers come before the node itself.
    pub fn propagate(&mut self)
        requires
            old(self).wf(),
        ensures
            final(self).wf(),
            old(self)@.swept(0, final(self)@),
    {
        let mut i = self.nodes.len();
        while i > 0
            invariant
                self.wf(),
                old(self)@.well_formed(),
                i <= self@.len(),
                self@.len() == old(self)@.len(),
                old(self)@.swept(i as int, self@),
            decreases i,
        {
            i -= 1;
            let ghost mid = self@;
            self.backward_one_level(i);
            proof {
                mid.lemma_node_step_frame(i as int, self@);
                assert(mid.node_step(i as int, self@));
            }
        }
    }

    /// The node that a backward pass starts from when none is named: the first
    /// node, in the order of insertion, that no node consumes.
    pub fn root(&self) -> (r: Option<usize>)
        requires
            self.wf(),
        ensures
            r matches Some(i) ==> self@.root() == Some(i as int),
            r is None ==> self@.root() is None,
    {
        let mut i: usize = 0;
        while i < self.nodes.len()
            invariant
                self.wf(),
                i <= self@.len(),
                self@.first_sink_from(i as int) == self@.root(),
            decreases self@.len() - i,
        {
            if !self.has_consumer(i) {
                return Some(i);
            }
            i += 1;
        }
        None
    }

    /// Seeds the backward pass: sets the gradient of the root to one, and
    /// returns the root.
    pub fn set_rootgrad_to_one(&mut self) -> (root: usize)
        requires
            old(self).wf(),
            old(self)@.len() > 0,
        ensures
            final(self).wf(),
            old(self)@.root() == Some(root as int),
            is_one(final(self)@.grad(root as int)),
            final(self)@ == old(self)@.with_grad(root as int, final(self)@.grad(root as int)),
    {
        proof {
            self@.lemma_root_exists();
        }
        let root = match self.root() {
            Some(r) => r,
            None => 0,
        };
        self.set_node_grad(root, T::one());
        root
    }

    /// The backward pass from the root: seeds the root with one and lets every
    /// node hand on its gradient.
    pub fn backward_full_pass(&mut self)
        requires
            old(self).wf(),
            old(self)@.len() > 0,
        ensures
            final(self).wf(),
            old(self)@.root() matches Some(root) && old(self)@.backward_from(root, final(self)@),
    {
        let root = self.set_rootgrad_to_one();
        let ghost seeded = self@;
        self.propagate();
        proof {
            let one = seeded.grad(root as int);
            assert(old(self)@.with_grad(root as int, one).swept(0, self@));
        }
    }

    /// Sets every gradient to zero, as is needed before a graph goes through
    /// another backward pass.
    pub fn reset_gradients(&mut self)
        requires
            old(self).wf(),
        ensures
            final(self).wf(),
            old(self)@.cleared(final(self)@),
    {
        let zero = T::zero();
        let mut i: usize = 0;
        while i < self.nodes.len()
            invariant
                self.wf(),
                i <= self@.len(),
                self@.operands == old(self)@.operands,
                self@.nodes.len() == old(self)@.nodes.len(),
                forall|k: int|
                    0 <= k < i ==> #[trigger] self@.nodes[k] == (Value {
                        grad: zero,
                        ..old(self)@.nodes[k]
                    }),
                forall|k: int| i <= k < self@.len() ==> #[trigger] self@.nodes[k] == old(self)@.nodes[k],
            decreases self@.len() - i,
        {
            self.set_node_grad(i, zero);
            i += 1;
        }
        assert(is_zero(zero));
    }

    /// The backward pass from `root` or, where none is named, from the one
    /// node that no node consumes. Without a named root, a graph that has no
    /// such node or several is refused and left as it is.
    pub fn run_backward_pass(&mut self, root: Option<usize>) -> (r: Result<usize, PassError>)
        requires
            old(self).wf(),
            root matches Some(given) ==> given < old(self)@.len(),
        ensures
            final(self).wf(),
            r matches Ok(start) ==> old(self)@.backward_from(start as int, final(self)@),
            r matches Ok(start) ==> match root {
                Some(given) => start == given,
                None => old(self)@.sole_sink(start as int),
            },
            r is Err ==> final(self)@ == old(self)@,
            r is Err <==> root is None && forall|i: int| !old(self)@.sole_sink(i),
    {
        let start = match root {
            Some(given) => given,
            None => {
                let n = self.nodes.len();
                if n == 0 {
                    return Err(PassError::AmbiguousRoot);
                }
                proof {
                    self@.lemma_last_is_sink();
                    self@.lemma_root_exists();
                }
                let first = match self.root() {
                    Some(first) => first,
                    None => 0,
                };
                if first != n - 1 {
                    assert forall|i: int| !self@.sole_sink(i) by {
                        if self@.sole_sink(i) {
                            assert(self@.has_consumer(first as int) <==> first != i);
                            assert(self@.has_consumer(n - 1) <==> n - 1 != i);
                        }
                    }
                    return Err(PassError::AmbiguousRoot);
                }
                proof {
                    self@.lemma_sole_sink(first as int);
                }
                first
            },
        };
        self.set_node_grad(start, T::one());
        let ghost seeded = self@;
        self.propagate();
        proof {
            let one = seeded.grad(start as int);
            assert(old(self)@.with_grad(start as int, one).swept(0, self@));
        }
        Ok(start)
    }

    /// Replaces the value of a node.
    fn set_node_data(&mut self, node: usize, data: T)
        requires
            old(self).wf(),
            node < old(self)@.len(),
        ensures
            final(self).wf(),
            final(self)@ == old(self)@.with_value(node as int, data),
    {
        let n = self.nodes[node];
        self.nodes.set(node, Value::new(data, n.grad, n.op, n.id));
        proof {
            let before = old(self)@;
            let after = self@;
            assert(after.nodes =~= before.with_value(node as int, data).nodes);
            lemma_edges_of_prefix(after, before, before.nodes.len() as int);
            assert forall|i: int| 0 <= i < after.nodes.len() implies #[trigger] after.node_ok(i) by {
                assert(before.node_ok(i));
            }
        }
    }

    /// One step of gradient descent: the value of each node of `params`, in
    /// turn, moves by its gradient times `rate`.
    pub fn gradient_descent_step(&mut self, params: &[usize], rate: T)
        requires
            old(self).wf(),
            forall|k: int| 0 <= k < params@.len() ==> (#[trigger] params@[k]) < old(self)@.len(),
        ensures
            final(self).wf(),
            old(self)@.descended(params@, params@.len() as int, rate, final(self)@),
    {
        let mut k: usize = 0;
        while k < params.len()
            invariant
                self.wf(),
                k <= params@.len(),
                self@.len() == old(self)@.len(),
                forall|k: int| 0 <= k < params@.len() ==> (#[trigger] params@[k]) < old(self)@.len(),
                old(self)@.descended(params@, k as int, rate, self@),
            decreases params@.len() - k,
        {
            let param = params[k];
            let ghost mid = self@;
            let step = self.nodes[param].grad.times(rate);
            let moved = self.nodes[param].data.plus(step);
            self.set_node_data(param, moved);
            proof {
                assert(is_sum(mid.value(param as int), step, self@.value(param as int)));
                assert(mid.nudged(param as int, rate, self@));
            }
            k += 1;
            proof {
                assert(mid.nudged(params@[k - 1] as int, rate, self@));
            }
        }
    }

    /// Appends the squared-error loss of the predictions `pred` against the
    /// values `truth`, pair by pair as far as both reach: a leaf `result` with
    /// the value zero, then for each pair the five nodes of its term, each term
    /// added to the sum of those before it. Returns the handle of the last
    /// sum: the loss.
    pub fn loss_computation(&mut self, pred: &[usize], truth: &[T]) -> (loss: usize)
        requires
            old(self).wf(),
            forall|k: int|
                0 <= k < pred@.len() && k < truth@.len() ==> (#[trigger] pred@[k]) < old(self)@.len(),
            old(self)@.len() + 1 + 5 * vstd::math::min(pred@.len() as int, truth@.len() as int)
                <= INDEX_END,
            old(self)@.edges().len() + 6 * vstd::math::min(pred@.len() as int, truth@.len() as int)
                <= INDEX_END,
        ensures
            final(self).wf(),
            old(self)@.grows_to(final(self)@),
            final(self)@.len() == old(self)@.len() + 1 + 5 * vstd::math::min(
                pred@.len() as int,
                truth@.len() as int,
            ),
            loss == final(self)@.len() - 1,
            final(self)@.is_leaf_at(old(self)@.len() as int, "result"),
            is_zero(final(self)@.value(old(self)@.len() as int)),
            forall|k: int|
                0 <= k < pred@.len() && k < truth@.len() ==> #[trigger] final(self)@.is_loss_term(
                    old(self)@.len() + 1 + 5 * k,
                    pred@[k] as int,
                    truth@[k],
                    old(self)@.len() + 5 * k,
                ),
    {
        let ghost before = self@;
        let ghost base = self@.len() as int;
        let ghost m = vstd::math::min(pred@.len() as int, truth@.len() as int);
        let mut result = self.new_value(T::zero(), "result");
        let mut k: usize = 0;
        while k < pred.len() && k < truth.len()
            invariant
                self.wf(),
                before.well_formed(),
                base == before.len(),
                m == vstd::math::min(pred@.len() as int, truth@.len() as int),
                k <= m,
                before.grows_to(self@),
                self@.len() == base + 1 + 5 * k,
                self@.edges().len() == before.edges().len() + 6 * k,
                base + 1 + 5 * m <= INDEX_END,
                before.edges().len() + 6 * m <= INDEX_END,
                result == base + 5 * k,
                forall|j: int| 0 <= j < m ==> (#[trigger] pred@[j]) < base,
                self@.is_leaf_at(base, "result"),
                is_zero(self@.value(base)),
                forall|j: int|
                    0 <= j < k ==> #[trigger] self@.is_loss_term(
                        base + 1 + 5 * j,
                        pred@[j] as int,
                        truth@[j],
                        base + 5 * j,
                    ),
            decreases m - k,
        {
            let ghost start = self@;
            proof {
                self.lemma_wf();
            }
            let ypred = pred[k];
            let y_truth = self.new_value(truth[k], "y");
            let ghost with_y = self@;
            proof {
                self.lemma_wf();
            }
            let error = self.new_computation(y_truth, Some(ypred), Op::SUB, "E");
            let ghost with_error = self@;
            proof {
                self.lemma_wf();
            }
            let one = T::one();
            let two = self.new_value(one.plus(one), "2");
            let ghost with_two = self@;
            proof {
                self.lemma_wf();
            }
            let sq_error = self.new_computation(error, Some(two), Op::POW, "SE");
            let ghost with_square = self@;
            proof {
                self.lemma_wf();
            }
            result = self.new_computation(sq_error, Some(result), Op::ADD, "L");
            proof {
                let now = self@;
                let at = base + 1 + 5 * k;
                with_y.lemma_leaf_kept(now, at, "y");
                with_error.lemma_result_kept(
                    now,
                    at + 1,
                    Op::SUB,
                    seq![at as nat, ypred as nat],
                    "E",
                );
                with_two.lemma_leaf_kept(now, at + 2, "2");
                assert(is_sum(one, one, now.value(at + 2)));
                with_square.lemma_result_kept(
                    now,
                    at + 3,
                    Op::POW,
                    seq![(at + 1) as nat, (at + 2) as nat],
                    "SE",
                );
                assert(now.is_loss_term(at, ypred as int, truth@[k as int], base + 5 * k));
                assert forall|j: int| 0 <= j < k implies #[trigger] now.is_loss_term(
                    base + 1 + 5 * j,
                    pred@[j] as int,
                    truth@[j],
                    base + 5 * j,
                ) by {
                    assert(pred@[j] < base);
                    start.lemma_loss_term_kept(
                        now,
                        base + 1 + 5 * j,
                        pred@[j] as int,
                        truth@[j],
                        base + 5 * j,
                    );
                }
                start.lemma_leaf_kept(now, base, "result");
            }
            k += 1;
        }
        result
    }

    /// The number of edges.
    pub fn edge_count(&self) -> (n: usize)
        requires
            self.wf(),
        ensures
            n == self@.edges().len(),
    {
        self.graph.edge_count()
    }

    /// Source and target of the edge `k`, the edges counted in the order of
    /// their insertion.
    pub fn edge(&self, k: usize) -> (ends: (usize, usize))
        requires
            self.wf(),
            k < self@.edges().len(),
        ensures
            (ends.0 as nat, ends.1 as nat) == self@.edges()[k as int],
            ends.0 < self@.len(),
            ends.1 < self@.len(),
    {
        match self.graph.edge_endpoints(k) {
            Some(ends) => ends,
            None => (0, 0),
        }
    }
}

} // verus!
