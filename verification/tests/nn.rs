use micrograd::engine::{ComputationGraph, Op};
use micrograd::nn::{Layer, Neuron, MLP};
use micrograd::scalar::Scalar;
use std::cell::Cell;

#[derive(Clone, Copy, Debug, PartialEq)]
struct Real(f64);

impl Scalar for Real {
    fn zero() -> Self {
        Real(0.0)
    }

    fn one() -> Self {
        Real(1.0)
    }

    fn plus(self, rhs: Self) -> Self {
        Real(self.0 + rhs.0)
    }

    fn minus(self, rhs: Self) -> Self {
        Real(self.0 - rhs.0)
    }

    fn times(self, rhs: Self) -> Self {
        Real(self.0 * rhs.0)
    }

    fn negated(self) -> Self {
        Real(-self.0)
    }

    fn powf(self, exponent: Self) -> Self {
        Real(self.0.powf(exponent.0))
    }

    fn tanh(self) -> Self {
        Real(self.0.tanh())
    }
}

#[test]
fn neuron_inserts_its_weights_then_its_bias() {
    let mut cg = ComputationGraph::<Real>::new();
    cg.new_value(Real(9.0), "before");
    let next = Cell::new(0.0);
    let sample = || {
        next.set(next.get() + 0.25);
        Real(next.get())
    };
    let neuron = Neuron::new(3, true, &mut cg, &sample);
    assert_eq!(neuron.weights, vec![1, 2, 3]);
    assert_eq!(neuron.b, 4);
    assert!(neuron.non_lin);
    assert_eq!(cg.len(), 5);
    assert_eq!(cg.edge_count(), 0);
    for (k, w) in neuron.weights.iter().enumerate() {
        assert_eq!(cg.get_node_id(*w), "w");
        assert_eq!(cg.get_node_op(*w), None);
        assert_eq!(cg.get_node_data(*w), Real(0.25 * (k + 1) as f64));
        assert_eq!(cg.get_node_grad(*w), Real(0.0));
    }
    assert_eq!(cg.get_node_id(neuron.b), "b");
    assert_eq!(cg.get_node_data(neuron.b), Real(1.0));
    assert_eq!(neuron.parameters(), vec![1, 2, 3, 4]);
    assert_eq!(neuron.to_text(), "Neuron { weights: [1, 2, 3], b: 4, non_lin: true }");
}

#[test]
fn neuron_without_weights() {
    let mut cg = ComputationGraph::<Real>::new();
    let sample = || Real(0.5);
    let neuron = Neuron::new(0, false, &mut cg, &sample);
    assert_eq!(neuron.weights, Vec::<usize>::new());
    assert_eq!(neuron.b, 0);
    assert_eq!(neuron.to_text(), "Neuron { weights: [], b: 0, non_lin: false }");
    let x = cg.new_value(Real(3.0), "x");
    let out = neuron.call(&[x], &mut cg);
    // 0 + b
    assert_eq!(cg.get_node_data(out), Real(0.5));
    assert_eq!(cg.len(), 4);
}

#[test]
fn neuron_sums_inputs_times_weights_plus_bias() {
    let mut cg = ComputationGraph::<Real>::new();
    let w0 = cg.new_value(Real(0.5), "w");
    let w1 = cg.new_value(Real(-1.5), "w");
    let b = cg.new_value(Real(0.25), "b");
    let x0 = cg.new_value(Real(2.0), "x");
    let x1 = cg.new_value(Real(3.0), "x");
    let linear = Neuron { weights: vec![w0, w1], b, non_lin: false };
    let out = linear.call(&[x0, x1], &mut cg);
    // 2 * 0.5 + 3 * -1.5 + 0.25
    assert_eq!(cg.get_node_data(out), Real(-3.25));
    assert_eq!(out, cg.len() - 1);
    assert_eq!(cg.len(), 5 + 2 + 2 * 2);

    assert_eq!(cg.get_node_id(5), "");
    assert_eq!(cg.get_node_data(5), Real(0.0));
    assert_eq!(cg.get_node_op(6), Some(Op::MUL));
    assert_eq!(cg.get_node_id(6), "xi*wi");
    assert_eq!(cg.operands(6), (Some(x0), Some(w0)));
    assert_eq!(cg.get_node_op(7), Some(Op::ADD));
    assert_eq!(cg.operands(7), (Some(5), Some(6)));
    assert_eq!(cg.operands(8), (Some(x1), Some(w1)));
    assert_eq!(cg.operands(9), (Some(7), Some(8)));
    assert_eq!(cg.get_node_id(10), "xw+b");
    assert_eq!(cg.operands(10), (Some(9), Some(b)));

    let squashed = Neuron { weights: vec![w0, w1], b, non_lin: true };
    let out = squashed.call(&[x0, x1], &mut cg);
    assert_eq!(cg.get_node_data(out), Real((-3.25f64).tanh()));
    assert_eq!(cg.get_node_op(out), Some(Op::TANH));
    assert_eq!(cg.operands(out), (Some(out - 1), None));
}

#[test]
fn neuron_pairs_weights_and_inputs_as_far_as_both_reach() {
    let mut cg = ComputationGraph::<Real>::new();
    let w0 = cg.new_value(Real(0.5), "w");
    let w1 = cg.new_value(Real(-1.5), "w");
    let b = cg.new_value(Real(0.25), "b");
    let x0 = cg.new_value(Real(2.0), "x");
    let neuron = Neuron { weights: vec![w0, w1], b, non_lin: false };
    let out = neuron.call(&[x0], &mut cg);
    assert_eq!(cg.get_node_data(out), Real(1.25));
    assert_eq!(cg.len(), 4 + 2 + 2);
    let short = Neuron { weights: vec![w0], b, non_lin: false };
    let out = short.call(&[x0, x0, x0], &mut cg);
    assert_eq!(cg.get_node_data(out), Real(1.25));
}

#[test]
fn layer_makes_one_neuron_for_each_width() {
    let mut cg = ComputationGraph::<Real>::new();
    let sample = || Real(0.5);
    let layer = Layer::new(&[2, 0, 1], &mut cg, &sample);
    assert_eq!(layer.neuron_count(), 3);
    assert_eq!(layer.neurons[0].weights, vec![0, 1]);
    assert_eq!(layer.neurons[0].b, 2);
    assert_eq!(layer.neurons[1].weights, Vec::<usize>::new());
    assert_eq!(layer.neurons[1].b, 3);
    assert_eq!(layer.neurons[2].weights, vec![4]);
    assert_eq!(layer.neurons[2].b, 5);
    assert!(layer.neurons.iter().all(|n| n.non_lin));
    assert_eq!(cg.len(), 6);
    assert_eq!(layer.parameters(), vec![0, 1, 2, 3, 4, 5]);
    assert_eq!(
        layer.to_text(),
        "Layer { neurons: [Neuron { weights: [0, 1], b: 2, non_lin: true }, \
         Neuron { weights: [], b: 3, non_lin: true }, \
         Neuron { weights: [4], b: 5, non_lin: true }, ] }"
    );
}

#[test]
fn layer_calls_every_neuron_on_the_same_inputs() {
    let mut cg = ComputationGraph::<Real>::new();
    let sample = || Real(0.5);
    let layer = Layer::new(&[2, 1], &mut cg, &sample);
    let x0 = cg.new_value(Real(1.0), "x");
    let x1 = cg.new_value(Real(-3.0), "x");
    let before = cg.len();
    let outs = layer.call(&[x0, x1], &mut cg);
    assert_eq!(outs.len(), 2);
    // first neuron: 2 + 2 * 2 + 1 nodes, second: 2 + 2 * 1 + 1
    assert_eq!(outs, vec![before + 7 - 1, before + 7 + 5 - 1]);
    assert_eq!(cg.len(), before + 12);
    assert_eq!(cg.get_node_data(outs[0]), Real((0.5f64 - 1.5 + 0.5).tanh()));
    assert_eq!(cg.get_node_data(outs[1]), Real((0.5f64 + 0.5).tanh()));
}

#[test]
fn empty_layer() {
    let mut cg = ComputationGraph::<Real>::new();
    let sample = || Real(0.5);
    let layer = Layer::new(&[], &mut cg, &sample);
    assert_eq!(layer.neuron_count(), 0);
    assert_eq!(layer.call(&[], &mut cg), Vec::<usize>::new());
    assert_eq!(cg.len(), 0);
    assert_eq!(layer.to_text(), "Layer { neurons: [] }");
}

#[test]
fn perceptron_inserts_the_parameters_of_every_layer() {
    let mut cg = ComputationGraph::<Real>::new();
    let sample = || Real(0.5);
    let first: [usize; 2] = [3, 3];
    let second: [usize; 1] = [2];
    let mlp: MLP<2> = MLP::new(&[&first, &second], &mut cg, &sample);
    assert_eq!(mlp.layers.len(), 2);
    assert_eq!(mlp.layers[0].neuron_count(), 2);
    assert_eq!(mlp.layers[1].neuron_count(), 1);
    assert_eq!(cg.len(), 4 + 4 + 3);
    assert_eq!(cg.edge_count(), 0);
    assert_eq!(mlp.parameters(), (0..11).collect::<Vec<usize>>());
    assert_eq!(mlp.layers[1].neurons[0].weights, vec![8, 9]);
    assert_eq!(mlp.layers[1].neurons[0].b, 10);
}

#[test]
fn perceptron_feeds_each_layer_the_outputs_of_the_one_before() {
    let mut cg = ComputationGraph::<Real>::new();
    let sample = || Real(0.5);
    let first: [usize; 2] = [2, 2];
    let second: [usize; 1] = [2];
    let mlp: MLP<2> = MLP::new(&[&first, &second], &mut cg, &sample);
    let params = cg.len();
    let outs = mlp.call(&[Real(1.0), Real(-2.0)], &mut cg);
    assert_eq!(outs.len(), 1);
    assert_eq!(cg.get_node_id(params), "x");
    assert_eq!(cg.get_node_data(params), Real(1.0));
    assert_eq!(cg.get_node_data(params + 1), Real(-2.0));
    let hidden = (0.5f64 * 1.0 + 0.5 * -2.0 + 0.5).tanh();
    let out = (0.5 * hidden + 0.5 * hidden + 0.5).tanh();
    assert_eq!(cg.get_node_data(outs[0]), Real(out));
    // two inputs, two neurons of seven nodes, one neuron of seven nodes
    assert_eq!(cg.len(), params + 2 + 7 + 7 + 7);
    assert_eq!(outs[0], cg.len() - 1);
}

#[test]
fn training_step_lowers_the_loss() {
    let mut cg = ComputationGraph::<Real>::new();
    let next = Cell::new(0.0);
    let sample = || {
        next.set(next.get() + 0.125);
        Real(next.get() - 0.5)
    };
    let first: [usize; 2] = [2, 2];
    let second: [usize; 1] = [2];
    let mlp: MLP<2> = MLP::new(&[&first, &second], &mut cg, &sample);
    let params = mlp.parameters();
    let inputs = [[1.0, -2.0], [0.5, 0.25]];
    let truth = [Real(1.0), Real(-1.0)];

    let mut losses = Vec::new();
    for _ in 0..2 {
        let mut preds = Vec::new();
        for input in &inputs {
            let x: Vec<Real> = input.iter().map(|v| Real(*v)).collect();
            preds.push(mlp.call(&x, &mut cg)[0]);
        }
        let loss = cg.loss_computation(&preds, &truth);
        losses.push(cg.get_node_data(loss).0);
        cg.reset_gradients();
        assert_eq!(cg.run_backward_pass(Some(loss)), Ok(loss));
        cg.gradient_descent_step(&params, Real(-0.05));
    }
    assert!(losses[1] < losses[0], "{:?}", losses);
}
