use micrograd::engine::{ComputationGraph, Empty, GradFn, Op, PassError, Side, Value};
use micrograd::scalar::Scalar;

#[derive(Clone, Copy, Debug, PartialEq)]
struct Real(f64);

impl Scalar for Real {
    fn zero() -> Self {
        Real(0.0)
    }

    fn one() -> Self {
        Real(1.0)
    }

    fn plus(self, rhs: Self) -> Self {
        Real(self.0 + rhs.0)
    }

    fn minus(self, rhs: Self) -> Self {
        Real(self.0 - rhs.0)
    }

    fn times(self, rhs: Self) -> Self {
        Real(self.0 * rhs.0)
    }

    fn negated(self) -> Self {
        Real(-self.0)
    }

    fn powf(self, exponent: Self) -> Self {
        Real(self.0.powf(exponent.0))
    }

    fn tanh(self) -> Self {
        Real(self.0.tanh())
    }
}

fn binary(op: Op, a: f64, b: f64) -> f64 {
    let mut cg = ComputationGraph::<Real>::new();
    let x = cg.new_value(Real(a), "a");
    let y = cg.new_value(Real(b), "b");
    let out = cg.new_computation(x, Some(y), op, "out");
    cg.get_node_data(out).0
}

#[test]
fn add_matches_its_closed_form() {
    assert_eq!(binary(Op::ADD, -2.0, 3.0), 1.0);
    assert_eq!(binary(Op::ADD, 0.0, 0.0), 0.0);
    assert_eq!(binary(Op::ADD, 0.25, -0.75), -0.5);
}

#[test]
fn sub_matches_its_closed_form() {
    assert_eq!(binary(Op::SUB, -2.0, 3.0), -5.0);
    assert_eq!(binary(Op::SUB, 0.0, 1.5), -1.5);
    assert_eq!(binary(Op::SUB, 0.25, 0.75), -0.5);
}

#[test]
fn mul_matches_its_closed_form() {
    assert_eq!(binary(Op::MUL, -2.0, 3.0), -6.0);
    assert_eq!(binary(Op::MUL, 0.0, 17.0), 0.0);
    assert_eq!(binary(Op::MUL, 0.5, -0.25), -0.125);
}

#[test]
fn pow_matches_its_closed_form() {
    assert_eq!(binary(Op::POW, -2.0, 3.0), -8.0);
    assert_eq!(binary(Op::POW, 0.0, 2.0), 0.0);
    assert_eq!(binary(Op::POW, 0.25, 0.5), 0.5);
    assert_eq!(binary(Op::POW, 5.0, 0.0), 1.0);
}

#[test]
fn pow_of_zero_to_a_negative_power_is_infinite() {
    assert_eq!(binary(Op::POW, 0.0, -1.0), f64::INFINITY);
}

#[test]
fn tanh_matches_its_closed_form() {
    let mut cg = ComputationGraph::<Real>::new();
    let x = cg.new_value(Real(0.5), "x");
    let zero = cg.new_value(Real(0.0), "zero");
    let t = cg.new_computation(x, None, Op::TANH, "t");
    let t0 = cg.new_computation(zero, None, Op::TANH, "t0");
    assert_eq!(cg.get_node_data(t), Real(0.5f64.tanh()));
    assert_eq!(cg.get_node_data(t0), Real(0.0));
}

#[test]
fn forward_of_each_operator() {
    assert_eq!(Op::ADD.forward(Real(1.5), Some(Real(2.0))), Real(3.5));
    assert_eq!(Op::SUB.forward(Real(1.5), Some(Real(2.0))), Real(-0.5));
    assert_eq!(Op::MUL.forward(Real(1.5), Some(Real(2.0))), Real(3.0));
    assert_eq!(Op::POW.forward(Real(1.5), Some(Real(2.0))), Real(2.25));
    assert_eq!(Op::TANH.forward(Real(1.5), None), Real(1.5f64.tanh()));
}

#[test]
fn local_derivative_of_each_operator() {
    let g = Real(4.0);
    let x = Real(3.0);
    let y = Real(2.0);
    assert_eq!(Op::ADD.backward(Side::Left, x, g, Some(y)), Some(Real(4.0)));
    assert_eq!(Op::ADD.backward(Side::Right, y, g, Some(x)), Some(Real(4.0)));
    assert_eq!(Op::SUB.backward(Side::Left, x, g, Some(y)), Some(Real(4.0)));
    assert_eq!(Op::SUB.backward(Side::Right, y, g, Some(x)), Some(Real(-4.0)));
    assert_eq!(Op::MUL.backward(Side::Left, x, g, Some(y)), Some(Real(8.0)));
    assert_eq!(Op::MUL.backward(Side::Right, y, g, Some(x)), Some(Real(12.0)));
    // 4 * 2 * 3^(2 - 1)
    assert_eq!(Op::POW.backward(Side::Left, x, g, Some(y)), Some(Real(24.0)));
    assert_eq!(Op::POW.backward(Side::Right, y, g, Some(x)), None);
    let t = 3.0f64.tanh();
    assert_eq!(Op::TANH.backward(Side::Left, x, g, None), Some(Real((1.0 - t * t) * 4.0)));
}

#[test]
fn operator_signs() {
    assert_eq!(Op::ADD.as_str(), "+");
    assert_eq!(Op::MUL.as_str(), "*");
    assert_eq!(Op::SUB.as_str(), "-");
    assert_eq!(Op::POW.as_str(), "^");
    assert_eq!(Op::TANH.as_str(), "tanh");
    assert!(Op::ADD.is_binary());
    assert!(Op::POW.is_binary());
    assert!(!Op::TANH.is_binary());
}

#[test]
fn value_new_keeps_its_fields() {
    let v = Value::new(Real(1.5), Real(0.25), Some(Op::MUL), "v");
    assert_eq!(v.data, Real(1.5));
    assert_eq!(v.grad, Real(0.25));
    assert_eq!(v.op, Some(Op::MUL));
    assert_eq!(v.id, "v");
    let w = v.clone();
    assert_eq!(w.data, Real(1.5));
    assert_eq!(v.to_text("1.5000", "0.2500"), "Value v { data: 1.5000, grad: 0.2500 }");
    assert_eq!(Empty.to_text(), "");
}

#[test]
fn handles_count_up_from_zero() {
    let mut cg = ComputationGraph::<Real>::default();
    assert_eq!(cg.len(), 0);
    let a = cg.new_value(Real(1.0), "a");
    let b = cg.new_value(Real(2.0), "b");
    let c = cg.new_computation(a, Some(b), Op::ADD, "c");
    let d = cg.new_computation(c, None, Op::TANH, "d");
    assert_eq!((a, b, c, d), (0, 1, 2, 3));
    assert_eq!(cg.len(), 4);
    assert_eq!(cg.get_node_id(c), "c");
    assert_eq!(cg.get_node_op(a), None);
    assert_eq!(cg.get_node_op(c), Some(Op::ADD));
    assert_eq!(cg.get_node_op(d), Some(Op::TANH));
    assert_eq!(cg.get_node_grad(c), Real(0.0));
}

#[test]
fn operands_come_back_left_to_right() {
    let mut cg = ComputationGraph::<Real>::new();
    let a = cg.new_value(Real(1.0), "a");
    let b = cg.new_value(Real(2.0), "b");
    let c = cg.new_computation(b, Some(a), Op::SUB, "c");
    let d = cg.new_computation(c, None, Op::TANH, "d");
    let e = cg.new_computation(a, Some(a), Op::MUL, "e");
    assert_eq!(cg.operands(a), (None, None));
    assert_eq!(cg.operands(c), (Some(b), Some(a)));
    assert_eq!(cg.operands(d), (Some(c), None));
    assert_eq!(cg.operands(e), (Some(a), Some(a)));
}

#[test]
fn edges_are_kept_in_the_order_of_insertion() {
    let mut cg = ComputationGraph::<Real>::new();
    let a = cg.new_value(Real(1.0), "a");
    let b = cg.new_value(Real(2.0), "b");
    assert_eq!(cg.edge_count(), 0);
    let c = cg.new_computation(b, Some(a), Op::SUB, "c");
    let d = cg.new_computation(c, None, Op::TANH, "d");
    assert_eq!(cg.edge_count(), 3);
    assert_eq!(cg.edge(0), (b, c));
    assert_eq!(cg.edge(1), (a, c));
    assert_eq!(cg.edge(2), (c, d));
}

#[test]
fn consumers_are_found() {
    let mut cg = ComputationGraph::<Real>::new();
    let a = cg.new_value(Real(1.0), "a");
    let b = cg.new_value(Real(2.0), "b");
    let lone = cg.new_value(Real(3.0), "lone");
    let c = cg.new_computation(a, Some(b), Op::ADD, "c");
    assert!(cg.has_consumer(a));
    assert!(cg.has_consumer(b));
    assert!(!cg.has_consumer(lone));
    assert!(!cg.has_consumer(c));
}

#[test]
fn shared_operand_accumulates_both_paths() {
    let mut cg = ComputationGraph::<Real>::new();
    let a = cg.new_value(Real(-2.0), "a");
    let b = cg.new_value(Real(3.0), "b");
    let d = cg.new_computation(a, Some(b), Op::MUL, "d");
    let e = cg.new_computation(a, Some(b), Op::ADD, "e");
    let f = cg.new_computation(d, Some(e), Op::MUL, "f");
    assert_eq!(cg.get_node_data(d), Real(-6.0));
    assert_eq!(cg.get_node_data(e), Real(1.0));
    assert_eq!(cg.get_node_data(f), Real(-6.0));

    cg.backward_full_pass();
    assert_eq!(cg.get_node_grad(f), Real(1.0));
    assert_eq!(cg.get_node_grad(d), Real(1.0));
    assert_eq!(cg.get_node_grad(e), Real(-6.0));
    assert_eq!(cg.get_node_grad(a), Real(-3.0));
    assert_eq!(cg.get_node_grad(b), Real(-8.0));
}

#[test]
fn gradient_of_a_is_the_sum_of_its_two_paths() {
    // through d = a * b alone, and through e = a + b alone
    let mut left = ComputationGraph::<Real>::new();
    let a = left.new_value(Real(-2.0), "a");
    let b = left.new_value(Real(3.0), "b");
    let d = left.new_computation(a, Some(b), Op::MUL, "d");
    left.set_node_grad(d, Real(1.0));
    left.backward_one_level(d);
    let through_d = left.get_node_grad(a).0;

    let mut right = ComputationGraph::<Real>::new();
    let a = right.new_value(Real(-2.0), "a");
    let b = right.new_value(Real(3.0), "b");
    let e = right.new_computation(a, Some(b), Op::ADD, "e");
    right.set_node_grad(e, Real(-6.0));
    right.backward_one_level(e);
    let through_e = right.get_node_grad(a).0;

    let mut cg = ComputationGraph::<Real>::new();
    let a = cg.new_value(Real(-2.0), "a");
    let b = cg.new_value(Real(3.0), "b");
    let d = cg.new_computation(a, Some(b), Op::MUL, "d");
    let e = cg.new_computation(a, Some(b), Op::ADD, "e");
    cg.new_computation(d, Some(e), Op::MUL, "f");
    cg.backward_full_pass();
    assert_eq!(through_d, 3.0);
    assert_eq!(through_e, -6.0);
    assert_eq!(cg.get_node_grad(a).0, through_e + through_d);
}

#[test]
fn operand_used_on_both_sides_receives_both_shares() {
    let mut cg = ComputationGraph::<Real>::new();
    let a = cg.new_value(Real(3.0), "a");
    let sq = cg.new_computation(a, Some(a), Op::MUL, "a*a");
    cg.backward_full_pass();
    assert_eq!(cg.get_node_grad(sq), Real(1.0));
    assert_eq!(cg.get_node_grad(a), Real(6.0));
}

#[test]
fn tanh_hands_on_one_minus_square() {
    let mut cg = ComputationGraph::<Real>::new();
    let x1 = cg.new_value(Real(2.0), "x1");
    let w1 = cg.new_value(Real(-3.0), "w1");
    let b = cg.new_value(Real(6.5), "b");
    let xw = cg.new_computation(x1, Some(w1), Op::MUL, "x1*w1");
    let n = cg.new_computation(xw, Some(b), Op::ADD, "n");
    let o = cg.new_computation(n, None, Op::TANH, "o");
    assert_eq!(cg.get_node_data(n), Real(0.5));

    let started = cg.run_backward_pass(Some(o));
    assert_eq!(started, Ok(o));
    let t = 0.5f64.tanh();
    assert_eq!(cg.get_node_grad(o), Real(1.0));
    assert_eq!(cg.get_node_grad(n), Real(1.0 - t * t));
    assert_eq!(cg.get_node_grad(b), Real(1.0 - t * t));
    assert_eq!(cg.get_node_grad(x1), Real(-3.0 * (1.0 - t * t)));
    assert_eq!(cg.get_node_grad(w1), Real(2.0 * (1.0 - t * t)));
}

#[test]
fn subtraction_negates_the_share_of_its_right_operand() {
    let mut cg = ComputationGraph::<Real>::new();
    let a = cg.new_value(Real(5.0), "a");
    let b = cg.new_value(Real(2.0), "b");
    let c = cg.new_computation(a, Some(b), Op::SUB, "c");
    cg.set_node_grad(c, Real(4.0));
    cg.propagate();
    assert_eq!(cg.get_node_grad(a), Real(4.0));
    assert_eq!(cg.get_node_grad(b), Real(-4.0));
}

#[test]
fn no_gradient_flows_to_an_exponent() {
    let mut cg = ComputationGraph::<Real>::new();
    let x = cg.new_value(Real(2.0), "x");
    let three = cg.new_value(Real(3.0), "3");
    let cube = cg.new_computation(x, Some(three), Op::POW, "x^3");
    assert_eq!(cg.run_backward_pass(None), Ok(cube));
    assert_eq!(cg.get_node_grad(x), Real(12.0));
    assert_eq!(cg.get_node_grad(three), Real(0.0));
}

#[test]
fn a_leaf_hands_on_nothing() {
    let mut cg = ComputationGraph::<Real>::new();
    let a = cg.new_value(Real(5.0), "a");
    let b = cg.new_value(Real(2.0), "b");
    cg.set_node_grad(b, Real(7.0));
    cg.backward_one_level(b);
    assert_eq!(cg.get_node_grad(a), Real(0.0));
    assert_eq!(cg.get_node_grad(b), Real(7.0));
}

#[test]
fn one_level_reaches_the_operands_only() {
    let mut cg = ComputationGraph::<Real>::new();
    let a = cg.new_value(Real(5.0), "a");
    let b = cg.new_value(Real(2.0), "b");
    let c = cg.new_computation(a, Some(b), Op::MUL, "c");
    let d = cg.new_computation(c, Some(a), Op::ADD, "d");
    cg.set_node_grad(d, Real(1.0));
    cg.backward_one_level(d);
    assert_eq!(cg.get_node_grad(c), Real(1.0));
    assert_eq!(cg.get_node_grad(a), Real(1.0));
    assert_eq!(cg.get_node_grad(b), Real(0.0));
    cg.backward_one_level(c);
    assert_eq!(cg.get_node_grad(a), Real(3.0));
    assert_eq!(cg.get_node_grad(b), Real(5.0));
}

#[test]
fn set_node_grad_replaces_one_gradient() {
    let mut cg = ComputationGraph::<Real>::new();
    let a = cg.new_value(Real(5.0), "a");
    let b = cg.new_value(Real(2.0), "b");
    cg.set_node_grad(a, Real(0.5));
    assert_eq!(cg.get_node_grad(a), Real(0.5));
    assert_eq!(cg.get_node_grad(b), Real(0.0));
    assert_eq!(cg.get_node_data(a), Real(5.0));
}

#[test]
fn reset_clears_every_gradient() {
    let mut cg = ComputationGraph::<Real>::new();
    let a = cg.new_value(Real(-2.0), "a");
    let b = cg.new_value(Real(3.0), "b");
    let d = cg.new_computation(a, Some(b), Op::MUL, "d");
    cg.backward_full_pass();
    cg.reset_gradients();
    for node in [a, b, d] {
        assert_eq!(cg.get_node_grad(node), Real(0.0));
    }
    assert_eq!(cg.get_node_data(d), Real(-6.0));
}

#[test]
fn a_pass_after_reset_repeats_the_first() {
    let mut cg = ComputationGraph::<Real>::new();
    let a = cg.new_value(Real(-2.0), "a");
    let b = cg.new_value(Real(3.0), "b");
    let d = cg.new_computation(a, Some(b), Op::MUL, "d");
    let e = cg.new_computation(a, Some(b), Op::ADD, "e");
    let f = cg.new_computation(d, Some(e), Op::MUL, "f");
    cg.backward_full_pass();
    let first: Vec<Real> = [a, b, d, e, f].iter().map(|n| cg.get_node_grad(*n)).collect();
    cg.reset_gradients();
    cg.backward_full_pass();
    let second: Vec<Real> = [a, b, d, e, f].iter().map(|n| cg.get_node_grad(*n)).collect();
    assert_eq!(first, second);
    assert_eq!(second[0], Real(-3.0));
}

#[test]
fn a_pass_without_reset_adds_to_what_is_there() {
    let mut cg = ComputationGraph::<Real>::new();
    let a = cg.new_value(Real(-2.0), "a");
    let b = cg.new_value(Real(3.0), "b");
    cg.new_computation(a, Some(b), Op::MUL, "d");
    cg.backward_full_pass();
    cg.backward_full_pass();
    assert_eq!(cg.get_node_grad(a), Real(6.0));
    assert_eq!(cg.get_node_grad(b), Real(-4.0));
}

#[test]
fn root_of_a_chain_is_the_last_node() {
    let mut cg = ComputationGraph::<Real>::new();
    let a = cg.new_value(Real(1.0), "a");
    let b = cg.new_value(Real(2.0), "b");
    let c = cg.new_computation(a, Some(b), Op::ADD, "c");
    let d = cg.new_computation(c, None, Op::TANH, "d");
    let e = cg.new_computation(d, Some(d), Op::MUL, "e");
    assert_eq!(cg.root(), Some(e));
    assert_eq!(cg.set_rootgrad_to_one(), e);
    assert_eq!(cg.get_node_grad(e), Real(1.0));
    assert_eq!(e, cg.len() - 1);
}

#[test]
fn root_is_the_first_node_without_consumer() {
    let mut cg = ComputationGraph::<Real>::new();
    assert_eq!(cg.root(), None);
    let a = cg.new_value(Real(1.0), "a");
    let lone = cg.new_value(Real(2.0), "lone");
    let c = cg.new_computation(a, None, Op::TANH, "c");
    assert_eq!(cg.root(), Some(lone));
    assert_eq!(cg.set_rootgrad_to_one(), lone);
    assert_eq!(cg.get_node_grad(lone), Real(1.0));
    assert_eq!(cg.get_node_grad(c), Real(0.0));
}

#[test]
fn unnamed_root_with_two_sinks_is_refused() {
    let mut cg = ComputationGraph::<Real>::new();
    let a = cg.new_value(Real(1.0), "a");
    let b = cg.new_value(Real(2.0), "b");
    assert_eq!(cg.run_backward_pass(None), Err(PassError::AmbiguousRoot));
    assert_eq!(cg.get_node_grad(a), Real(0.0));
    assert_eq!(cg.get_node_grad(b), Real(0.0));
}

#[test]
fn unnamed_root_of_an_empty_graph_is_refused() {
    let mut cg = ComputationGraph::<Real>::new();
    assert_eq!(cg.run_backward_pass(None), Err(PassError::AmbiguousRoot));
}

#[test]
fn a_named_root_is_taken_among_several_sinks() {
    let mut cg = ComputationGraph::<Real>::new();
    let a = cg.new_value(Real(2.0), "a");
    let b = cg.new_value(Real(3.0), "b");
    let c = cg.new_computation(a, Some(b), Op::MUL, "c");
    let d = cg.new_computation(a, Some(b), Op::ADD, "d");
    assert_eq!(cg.run_backward_pass(Some(c)), Ok(c));
    assert_eq!(cg.get_node_grad(c), Real(1.0));
    assert_eq!(cg.get_node_grad(d), Real(0.0));
    assert_eq!(cg.get_node_grad(a), Real(3.0));
    assert_eq!(cg.get_node_grad(b), Real(2.0));
}

#[test]
fn the_one_sink_is_found_as_root() {
    let mut cg = ComputationGraph::<Real>::new();
    let a = cg.new_value(Real(2.0), "a");
    let b = cg.new_value(Real(3.0), "b");
    let c = cg.new_computation(a, Some(b), Op::SUB, "c");
    assert_eq!(cg.run_backward_pass(None), Ok(c));
    assert_eq!(cg.get_node_grad(a), Real(1.0));
    assert_eq!(cg.get_node_grad(b), Real(-1.0));
}

fn scenario(a: f64, b: f64, c: f64) -> (ComputationGraph<Real>, [usize; 3], usize) {
    // r = tanh(a * b - c) ^ 2 + a * c
    let mut cg = ComputationGraph::<Real>::new();
    let na = cg.new_value(Real(a), "a");
    let nb = cg.new_value(Real(b), "b");
    let nc = cg.new_value(Real(c), "c");
    let two = cg.new_value(Real(2.0), "2");
    let ab = cg.new_computation(na, Some(nb), Op::MUL, "ab");
    let d = cg.new_computation(ab, Some(nc), Op::SUB, "d");
    let t = cg.new_computation(d, None, Op::TANH, "t");
    let sq = cg.new_computation(t, Some(two), Op::POW, "sq");
    let ac = cg.new_computation(na, Some(nc), Op::MUL, "ac");
    let r = cg.new_computation(sq, Some(ac), Op::ADD, "r");
    (cg, [na, nb, nc], r)
}

#[test]
fn gradients_agree_with_finite_differences() {
    let at = [0.7, -1.3, 0.4];
    let (mut cg, leaves, r) = scenario(at[0], at[1], at[2]);
    assert_eq!(cg.run_backward_pass(Some(r)), Ok(r));
    let eps = 1e-6;
    for i in 0..3 {
        let mut up = at;
        let mut down = at;
        up[i] += eps;
        down[i] -= eps;
        let (cg_up, _, r_up) = scenario(up[0], up[1], up[2]);
        let (cg_down, _, r_down) = scenario(down[0], down[1], down[2]);
        let slope = (cg_up.get_node_data(r_up).0 - cg_down.get_node_data(r_down).0) / (2.0 * eps);
        let grad = cg.get_node_grad(leaves[i]).0;
        assert!((grad - slope).abs() < 1e-6, "leaf {}: {} against {}", i, grad, slope);
    }
}

#[test]
fn descent_moves_each_parameter_by_its_gradient_times_the_rate() {
    let mut cg = ComputationGraph::<Real>::new();
    let a = cg.new_value(Real(-2.0), "a");
    let b = cg.new_value(Real(3.0), "b");
    let d = cg.new_computation(a, Some(b), Op::MUL, "d");
    cg.backward_full_pass();
    cg.gradient_descent_step(&[a, b], Real(-0.05));
    assert_eq!(cg.get_node_data(a), Real(-2.0 + 3.0 * -0.05));
    assert_eq!(cg.get_node_data(b), Real(3.0 + -2.0 * -0.05));
    assert_eq!(cg.get_node_data(d), Real(-6.0));
    assert_eq!(cg.get_node_grad(a), Real(3.0));
}

#[test]
fn descent_moves_a_parameter_once_for_each_mention() {
    let mut cg = ComputationGraph::<Real>::new();
    let a = cg.new_value(Real(1.0), "a");
    cg.set_node_grad(a, Real(2.0));
    cg.gradient_descent_step(&[a, a], Real(0.5));
    assert_eq!(cg.get_node_data(a), Real(3.0));
    cg.gradient_descent_step(&[], Real(0.5));
    assert_eq!(cg.get_node_data(a), Real(3.0));
}

#[test]
fn loss_is_the_sum_of_squared_errors() {
    let mut cg = ComputationGraph::<Real>::new();
    let first = cg.new_value(Real(0.5), "p");
    let second = cg.new_value(Real(-1.0), "q");
    let loss = cg.loss_computation(&[first, second], &[Real(1.0), Real(2.0)]);
    // (1 - 0.5)^2 + (2 - -1)^2
    assert_eq!(cg.get_node_data(loss), Real(9.25));
    assert_eq!(cg.len(), 2 + 1 + 5 * 2);
    assert_eq!(loss, cg.len() - 1);
    assert_eq!(cg.get_node_id(2), "result");
    assert_eq!(cg.get_node_data(2), Real(0.0));
    assert_eq!(cg.get_node_id(3), "y");
    assert_eq!(cg.get_node_data(3), Real(1.0));
    assert_eq!(cg.get_node_id(4), "E");
    assert_eq!(cg.operands(4), (Some(3), Some(first)));
    assert_eq!(cg.get_node_op(4), Some(Op::SUB));
    assert_eq!(cg.get_node_id(5), "2");
    assert_eq!(cg.get_node_data(5), Real(2.0));
    assert_eq!(cg.get_node_id(6), "SE");
    assert_eq!(cg.get_node_op(6), Some(Op::POW));
    assert_eq!(cg.operands(6), (Some(4), Some(5)));
    assert_eq!(cg.get_node_id(7), "L");
    assert_eq!(cg.get_node_op(7), Some(Op::ADD));
    assert_eq!(cg.operands(7), (Some(6), Some(2)));
    assert_eq!(cg.operands(12), (Some(11), Some(7)));
}

#[test]
fn loss_pairs_predictions_and_truths_as_far_as_both_reach() {
    let mut cg = ComputationGraph::<Real>::new();
    let first = cg.new_value(Real(0.5), "p");
    let second = cg.new_value(Real(-1.0), "q");
    let loss = cg.loss_computation(&[first, second], &[Real(1.0)]);
    assert_eq!(cg.get_node_data(loss), Real(0.25));
    assert_eq!(cg.len(), 2 + 1 + 5);
    let none = cg.loss_computation(&[], &[Real(1.0)]);
    assert_eq!(cg.get_node_data(none), Real(0.0));
    assert_eq!(cg.get_node_id(none), "result");
}

#[test]
fn loss_hands_its_gradient_back_to_the_predictions() {
    let mut cg = ComputationGraph::<Real>::new();
    let p = cg.new_value(Real(0.5), "p");
    let loss = cg.loss_computation(&[p], &[Real(2.0)]);
    assert_eq!(cg.run_backward_pass(Some(loss)), Ok(loss));
    // d/dp (2 - p)^2 = -2 (2 - p)
    assert_eq!(cg.get_node_grad(p), Real(-3.0));
}

#[derive(Clone, Copy, Debug, PartialEq)]
struct Whole(i64);

impl Scalar for Whole {
    fn zero() -> Self {
        Whole(0)
    }

    fn one() -> Self {
        Whole(1)
    }

    fn plus(self, rhs: Self) -> Self {
        Whole(self.0 + rhs.0)
    }

    fn minus(self, rhs: Self) -> Self {
        Whole(self.0 - rhs.0)
    }

    fn times(self, rhs: Self) -> Self {
        Whole(self.0 * rhs.0)
    }

    fn negated(self) -> Self {
        Whole(-self.0)
    }

    fn powf(self, exponent: Self) -> Self {
        Whole(self.0.pow(exponent.0 as u32))
    }

    fn tanh(self) -> Self {
        self
    }
}

#[test]
fn gradients_of_a_polynomial_are_its_derivatives() {
    // r = (a * b - c) * a + b
    let mut cg = ComputationGraph::<Whole>::new();
    let a = cg.new_value(Whole(3), "a");
    let b = cg.new_value(Whole(-4), "b");
    let c = cg.new_value(Whole(5), "c");
    let ab = cg.new_computation(a, Some(b), Op::MUL, "ab");
    let d = cg.new_computation(ab, Some(c), Op::SUB, "d");
    let e = cg.new_computation(d, Some(a), Op::MUL, "e");
    let r = cg.new_computation(e, Some(b), Op::ADD, "r");
    assert_eq!(cg.get_node_data(r), Whole(-55));
    cg.reset_gradients();
    assert_eq!(cg.run_backward_pass(None), Ok(r));
    // 2ab - c, a^2 + 1, -a
    assert_eq!(cg.get_node_grad(a), Whole(-29));
    assert_eq!(cg.get_node_grad(b), Whole(10));
    assert_eq!(cg.get_node_grad(c), Whole(-3));
    // and of the nodes in between: dr/dr, dr/de, dr/dd, dr/d(ab)
    assert_eq!(cg.get_node_grad(r), Whole(1));
    assert_eq!(cg.get_node_grad(e), Whole(1));
    assert_eq!(cg.get_node_grad(d), Whole(3));
    assert_eq!(cg.get_node_grad(ab), Whole(3));
}
