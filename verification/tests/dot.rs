use micrograd::dot::to_decimal;
use micrograd::engine::{ComputationGraph, Op};
use micrograd::scalar::Scalar;

#[derive(Clone, Copy, Debug, PartialEq)]
struct Real(f64);

impl Scalar for Real {
    fn zero() -> Self {
        Real(0.0)
    }

    fn one() -> Self {
        Real(1.0)
    }

    fn plus(self, rhs: Self) -> Self {
        Real(self.0 + rhs.0)
    }

    fn minus(self, rhs: Self) -> Self {
        Real(self.0 - rhs.0)
    }

    fn times(self, rhs: Self) -> Self {
        Real(self.0 * rhs.0)
    }

    fn negated(self) -> Self {
        Real(-self.0)
    }

    fn powf(self, exponent: Self) -> Self {
        Real(self.0.powf(exponent.0))
    }

    fn tanh(self) -> Self {
        Real(self.0.tanh())
    }
}

fn diagram(cg: &ComputationGraph<Real>) -> String {
    let mut data = Vec::new();
    let mut grad = Vec::new();
    for i in 0..cg.len() {
        data.push(format!("{:.4}", cg.get_node_data(i).0));
        grad.push(format!("{:.4}", cg.get_node_grad(i).0));
    }
    cg.dag_to_dot(&data, &grad)
}

#[test]
fn decimal_digits() {
    assert_eq!(to_decimal(0), "0");
    assert_eq!(to_decimal(7), "7");
    assert_eq!(to_decimal(10), "10");
    assert_eq!(to_decimal(999), "999");
    assert_eq!(to_decimal(1203405), "1203405");
    assert_eq!(to_decimal(4294967295), "4294967295");
}

#[test]
fn diagram_of_an_empty_graph() {
    let cg = ComputationGraph::<Real>::new();
    assert_eq!(diagram(&cg), "digraph {\nrankdir=\"LR\"\nnode [shape=record]\n\n}");
}

#[test]
fn diagram_of_a_product() {
    let mut cg = ComputationGraph::<Real>::new();
    let a = cg.new_value(Real(-2.0), "a");
    let b = cg.new_value(Real(3.0), "b");
    cg.new_computation(a, Some(b), Op::MUL, "d");
    cg.backward_full_pass();
    let expected = [
        "digraph {",
        "rankdir=\"LR\"",
        "node [shape=record]",
        "    0 [label=\"{ a | data: -2.0000 | grad: 3.0000 }\"]",
        "    1 [label=\"{ b | data: 3.0000 | grad: -2.0000 }\"]",
        "    2 [label=\"{ d | data: -6.0000 | grad: 1.0000 }\"]",
        "    2999 [label=\"*\" shape=circle]",
        "",
        "    0 -> 2999",
        "    2999 -> 2",
        "    1 -> 2999",
        "",
        "}",
    ]
    .join("\n");
    assert_eq!(diagram(&cg), expected);
}

#[test]
fn diagram_draws_each_circle_to_its_result_once() {
    let mut cg = ComputationGraph::<Real>::new();
    let a = cg.new_value(Real(0.5), "a");
    let t = cg.new_computation(a, None, Op::TANH, "t");
    cg.new_computation(t, Some(a), Op::SUB, "s");
    let text = diagram(&cg);
    let expected = [
        "digraph {",
        "rankdir=\"LR\"",
        "node [shape=record]",
        "    0 [label=\"{ a | data: 0.5000 | grad: 0.0000 }\"]",
        "    1 [label=\"{ t | data: 0.4621 | grad: 0.0000 }\"]",
        "    1999 [label=\"tanh\" shape=circle]",
        "    2 [label=\"{ s | data: -0.0379 | grad: 0.0000 }\"]",
        "    2999 [label=\"-\" shape=circle]",
        "",
        "    0 -> 1999",
        "    1999 -> 1",
        "    1 -> 2999",
        "    2999 -> 2",
        "    0 -> 2999",
        "",
        "}",
    ]
    .join("\n");
    assert_eq!(text, expected);
    assert_eq!(text.matches("2999 -> 2").count(), 1);
}

#[test]
fn diagram_takes_the_numbers_as_they_are_given() {
    let mut cg = ComputationGraph::<Real>::new();
    cg.new_value(Real(1.0), "only");
    let text = cg.dag_to_dot(&["one".to_string()], &["none".to_string()]);
    assert_eq!(
        text,
        "digraph {\nrankdir=\"LR\"\nnode [shape=record]\n    0 [label=\"{ only | data: one | grad: none }\"]\n\n}"
    );
}
