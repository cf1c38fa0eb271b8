//! Neurons, layers and multi-layer perceptrons, built as nodes of a
//! computation graph.
//!
//! A model inserts its parameters as leaves when it is made, and appends the
//! nodes of a forward pass each time it is called. The contracts say where in
//! the graph those nodes stand and what each of them is.

use crate::dot::{decimal, to_decimal};
use crate::engine::{ComputationGraph, Op};
use crate::model::GraphView;
use crate::scalar::{is_zero, Scalar};
use crate::topology::INDEX_END;
use vstd::prelude::*;
use vstd::string::StringExecFns;

verus! {

/// The smaller of two lengths.
pub open spec fn shorter(a: nat, b: nat) -> nat {
    if a <= b {
        a
    } else {
        b
    }
}

/// The `count` nodes of `g` from `at` on are leaves labelled `id`, each with a
/// value that `sample` may have returned.
#[verifier::opaque]
pub open spec fn leaves_drawn<T: Scalar, F: Fn() -> T>(
    g: GraphView<T>,
    at: int,
    count: int,
    id: &'static str,
    sample: F,
) -> bool {
    forall|k: int|
        0 <= k < count ==> #[trigger] g.is_leaf_at(at + k, id) && call_ensures(
            sample,
            (),
            g.value(at + k),
        )
}

/// Drawn leaves stay what they are when nodes are appended, and one more leaf
/// after them makes one more.
pub proof fn lemma_leaves_drawn<T: Scalar, F: Fn() -> T>(
    g: GraphView<T>,
    after: GraphView<T>,
    at: int,
    count: int,
    more: int,
    id: &'static str,
    sample: F,
)
    requires
        g.operands.len() == g.nodes.len(),
        g.grows_to(after),
        leaves_drawn(g, at, count, id, sample),
        more == count || (more == count + 1 && after.is_leaf_at(at + count, id) && call_ensures(
            sample,
            (),
            after.value(at + count),
        )),
    ensures
        leaves_drawn(after, at, more, id, sample),
{
    reveal(leaves_drawn);
    assert forall|k: int| 0 <= k < more implies #[trigger] after.is_leaf_at(at + k, id)
        && call_ensures(sample, (), after.value(at + k)) by {
        if k < count {
            assert(g.is_leaf_at(at + k, id));
            g.lemma_leaf_kept(after, at + k, id);
        }
    }
}

/// No leaves are drawn leaves.
pub proof fn lemma_no_leaves_drawn<T: Scalar, F: Fn() -> T>(
    g: GraphView<T>,
    at: int,
    id: &'static str,
    sample: F,
)
    ensures
        leaves_drawn(g, at, 0, id, sample),
{
    reveal(leaves_drawn);
}

/// The first `n` of some handles in decimal digits, a comma and a blank
/// between them.
pub open spec fn list_text(items: Seq<usize>, n: int) -> Seq<char>
    decreases n,
{
    if n <= 0 {
        Seq::empty()
    } else if n == 1 {
        decimal(items[0] as nat)
    } else {
        list_text(items, n - 1) + ", "@ + decimal(items[n - 1] as nat)
    }
}

/// A neuron: the handles of its weights and of its bias, and whether it ends
/// in a hyperbolic tangent.
pub struct Neuron {
    pub weights: Vec<usize>,
    pub b: usize,
    pub non_lin: bool,
}

impl Neuron {
    /// The number of weights that meet an input, of `inputs` inputs.
    pub open spec fn pairs(&self, inputs: nat) -> nat {
        shorter(self.weights@.len(), inputs)
    }

    /// The number of nodes that one call appends.
    pub open spec fn span(&self, inputs: nat) -> nat {
        2 + 2 * self.pairs(inputs) + if self.non_lin {
            1nat
        } else {
            0nat
        }
    }

    /// The number of edges that one call appends.
    pub open spec fn edge_span(&self, inputs: nat) -> nat {
        2 + 4 * self.pairs(inputs) + if self.non_lin {
            1nat
        } else {
            0nat
        }
    }

    /// The weights and the bias are among the first `len` nodes.
    pub open spec fn below(&self, len: int) -> bool {
        &&& self.b < len
        &&& forall|k: int| 0 <= k < self.weights@.len() ==> (#[trigger] self.weights@[k]) < len
    }

    /// The handles of the neuron's parameters: the weights, then the bias.
    pub open spec fn parameter_handles(&self) -> Seq<usize> {
        self.weights@.push(self.b)
    }

    /// The neuron's parameters are the `width + 1` leaves of `g` from `at` on:
    /// the weights, labelled `w`, then the bias, labelled `b`, each with a
    /// value that `sample` may have returned.
    pub open spec fn made_at<T: Scalar, F: Fn() -> T>(
        &self,
        g: GraphView<T>,
        at: int,
        width: nat,
        non_lin: bool,
        sample: F,
    ) -> bool {
        &&& self.weights@ == Seq::new(width, |k: int| (at + k) as usize)
        &&& self.b == at + width
        &&& self.non_lin == non_lin
        &&& leaves_drawn(g, at, width as int, "w", sample)
        &&& leaves_drawn(g, at + width, 1, "b", sample)
    }

    /// The two nodes of the pair `k` of a call whose nodes start at `at`: the
    /// product of input and weight, and the sum so far plus that product.
    pub open spec fn pair_at<T: Scalar>(&self, g: GraphView<T>, at: int, k: int, x: Seq<usize>) -> bool {
        &&& g.is_result_at(
            at + 1 + 2 * k,
            Op::MUL,
            seq![x[k] as nat, self.weights@[k] as nat],
            "xi*wi",
        )
        &&& g.is_result_at(
            at + 2 + 2 * k,
            Op::ADD,
            seq![(at + 2 * k) as nat, (at + 1 + 2 * k) as nat],
            "",
        )
    }

    /// The nodes of `g` from `at` on start a call of this neuron on the inputs
    /// `x`: a leaf with the value zero, then the first `n` pairs of input and
    /// weight, summed one after the other.
    #[verifier::opaque]
    pub open spec fn summed_at<T: Scalar>(&self, g: GraphView<T>, at: int, x: Seq<usize>, n: int) -> bool {
        &&& g.is_leaf_at(at, "")
        &&& is_zero(g.value(at))
        &&& forall|k: int| 0 <= k < n ==> #[trigger] self.pair_at(g, at, k, x)
    }

    /// The nodes of `g` from `at` on are one call of this neuron on the inputs
    /// `x`: the sum of the pairs of input and weight, as far as both reach,
    /// the bias added to that sum, and, for a neuron that ends in one, the
    /// hyperbolic tangent of the result.
    pub open spec fn called_at<T: Scalar>(&self, g: GraphView<T>, at: int, x: Seq<usize>) -> bool {
        let m = self.pairs(x.len()) as int;
        &&& self.summed_at(g, at, x, m)
        &&& g.is_result_at(
            at + 1 + 2 * m,
            Op::ADD,
            seq![(at + 2 * m) as nat, self.b as nat],
            "xw+b",
        )
        &&& self.non_lin ==> g.is_result_at(
            at + 2 + 2 * m,
            Op::TANH,
            seq![(at + 1 + 2 * m) as nat],
            "",
        )
    }

    /// A started sum stays what it is when nodes are appended.
    pub proof fn lemma_summed_kept<T: Scalar>(
        &self,
        g: GraphView<T>,
        after: GraphView<T>,
        at: int,
        x: Seq<usize>,
        n: int,
    )
        requires
            g.operands.len() == g.nodes.len(),
            g.grows_to(after),
            0 <= at,
            0 <= n <= self.pairs(x.len()),
            self.summed_at(g, at, x, n),
            self.below(g.len() as int),
            forall|k: int| 0 <= k < n ==> (#[trigger] x[k]) < g.len(),
        ensures
            self.summed_at(after, at, x, n),
    {
        reveal(Neuron::summed_at);
        g.lemma_leaf_kept(after, at, "");
        assert forall|k: int| 0 <= k < n implies #[trigger] self.pair_at(after, at, k, x) by {
            assert(self.pair_at(g, at, k, x));
            assert(x[k] < g.len());
            assert(self.weights@[k] < g.len());
            g.lemma_result_kept(
                after,
                at + 1 + 2 * k,
                Op::MUL,
                seq![x[k] as nat, self.weights@[k] as nat],
                "xi*wi",
            );
            g.lemma_result_kept(
                after,
                at + 2 + 2 * k,
                Op::ADD,
                seq![(at + 2 * k) as nat, (at + 1 + 2 * k) as nat],
                "",
            );
        }
    }

    /// A leaf with the value zero starts a sum.
    pub proof fn lemma_summed_start<T: Scalar>(&self, g: GraphView<T>, at: int, x: Seq<usize>)
        requires
            g.is_leaf_at(at, ""),
            is_zero(g.value(at)),
        ensures
            self.summed_at(g, at, x, 0),
    {
        reveal(Neuron::summed_at);
    }

    /// A started sum and one more pair after it are a sum of one more pair.
    pub proof fn lemma_summed_step<T: Scalar>(&self, g: GraphView<T>, at: int, x: Seq<usize>, n: int)
        requires
            0 <= n,
            self.summed_at(g, at, x, n),
            self.pair_at(g, at, n, x),
        ensures
            self.summed_at(g, at, x, n + 1),
    {
        reveal(Neuron::summed_at);
    }

    /// A call stays what it is when nodes are appended.
    pub proof fn lemma_called_kept<T: Scalar>(
        &self,
        g: GraphView<T>,
        after: GraphView<T>,
        at: int,
        x: Seq<usize>,
    )
        requires
            g.operands.len() == g.nodes.len(),
            g.grows_to(after),
            0 <= at,
            at + self.span(x.len()) <= g.len(),
            self.called_at(g, at, x),
            self.below(at),
            forall|k: int| 0 <= k < self.pairs(x.len()) ==> (#[trigger] x[k]) < at,
        ensures
            self.called_at(after, at, x),
    {
        let m = self.pairs(x.len()) as int;
        self.lemma_summed_kept(g, after, at, x, m);
        g.lemma_result_kept(
            after,
            at + 1 + 2 * m,
            Op::ADD,
            seq![(at + 2 * m) as nat, self.b as nat],
            "xw+b",
        );
        if self.non_lin {
            g.lemma_result_kept(
                after,
                at + 2 + 2 * m,
                Op::TANH,
                seq![(at + 1 + 2 * m) as nat],
                "",
            );
        }
    }

    /// A neuron's parameters stay what they are when nodes are appended.
    pub proof fn lemma_made_kept<T: Scalar, F: Fn() -> T>(
        &self,
        g: GraphView<T>,
        after: GraphView<T>,
        at: int,
        width: nat,
        non_lin: bool,
        sample: F,
    )
        requires
            g.operands.len() == g.nodes.len(),
            g.grows_to(after),
            self.made_at(g, at, width, non_lin, sample),
        ensures
            self.made_at(after, at, width, non_lin, sample),
    {
        lemma_leaves_drawn(g, after, at, width as int, width as int, "w", sample);
        lemma_leaves_drawn(g, after, at + width, 1, 1, "b", sample);
    }

    /// The parameters of a neuron made at `at` are the nodes from `at` on.
    pub proof fn lemma_made_below<T: Scalar, F: Fn() -> T>(
        &self,
        g: GraphView<T>,
        at: int,
        width: nat,
        non_lin: bool,
        sample: F,
    )
        requires
            0 <= at,
            at + width + 1 <= INDEX_END,
            self.made_at(g, at, width, non_lin, sample),
        ensures
            self.below(at + width + 1),
    {
    }

    /// The neuron in one line: the handles of its weights, the handle of its
    /// bias, and whether it ends in a hyperbolic tangent.
    pub open spec fn text(&self) -> Seq<char> {
        "Neuron { weights: ["@ + list_text(self.weights@, self.weights@.len() as int) + "], b: "@
            + decimal(self.b as nat) + ", non_lin: "@ + if self.non_lin {
            "true"@
        } else {
            "false"@
        } + " }"@
    }

    /// The neuron in one line.
    pub fn to_text(&self) -> (line: String)
        ensures
            line@ == self.text(),
    {
        let mut list = String::new();
        let mut k: usize = 0;
        while k < self.weights.len()
            invariant
                k <= self.weights@.len(),
                list@ == list_text(self.weights@, k as int),
            decreases self.weights@.len() - k,
        {
            let number = to_decimal(self.weights[k]);
            if k == 0 {
                list.append(number.as_str());
                assert(list@ =~= number@);
            } else {
                let ghost so_far = list@;
                list.append(", ");
                list.append(number.as_str());
                assert(list@ == so_far + ", "@ + number@);
            }
            k += 1;
        }
        let mut line = String::from_str("Neuron { weights: [");
        line.append(list.as_str());
        line.append("], b: ");
        line.append(to_decimal(self.b).as_str());
        line.append(", non_lin: ");
        line.append(if self.non_lin {
            "true"
        } else {
            "false"
        });
        line.append(" }");
        line
    }

    /// The handles of the nodes that training moves: the weights, then the
    /// bias.
    pub fn parameters(&self) -> (params: Vec<usize>)
        ensures
            params@ == self.parameter_handles(),
    {
        let mut params: Vec<usize> = Vec::new();
        let mut k: usize = 0;
        while k < self.weights.len()
            invariant
                k <= self.weights@.len(),
                params@ == self.weights@.take(k as int),
            decreases self.weights@.len() - k,
        {
            params.push(self.weights[k]);
            k += 1;
            assert(params@ =~= self.weights@.take(k as int));
        }
        assert(self.weights@.take(k as int) =~= self.weights@);
        params.push(self.b);
        params
    }

    /// Inserts the parameters of a neuron with `num_weights` weights, each
    /// with a value drawn by `sample`.
    pub fn new<T: Scalar, F: Fn() -> T>(
        num_weights: usize,
        non_lin: bool,
        cg: &mut ComputationGraph<T>,
        sample: &F,
    ) -> (neuron: Self)
        requires
            old(cg).wf(),
            call_requires(*sample, ()),
            old(cg)@.len() + num_weights + 1 <= INDEX_END,
        ensures
            final(cg).wf(),
            old(cg)@.grows_to(final(cg)@),
            final(cg)@.len() == old(cg)@.len() + num_weights + 1,
            final(cg)@.edges() == old(cg)@.edges(),
            neuron.made_at(final(cg)@, old(cg)@.len() as int, num_weights as nat, non_lin, *sample),
            neuron.below(final(cg)@.len() as int),
    {
        let ghost before = cg@;
        let ghost base = cg@.len() as int;
        let mut weights: Vec<usize> = Vec::new();
        let mut i: usize = 0;
        proof {
            lemma_no_leaves_drawn(cg@, base, "w", *sample);
        }
        while i < num_weights
            invariant
                cg.wf(),
                call_requires(*sample, ()),
                base == before.len(),
                base + num_weights + 1 <= INDEX_END,
                i <= num_weights,
                before.grows_to(cg@),
                cg@.len() == base + i,
                cg@.edges() == before.edges(),
                weights@ == Seq::new(i as nat, |k: int| (base + k) as usize),
                leaves_drawn(cg@, base, i as int, "w", *sample),
            decreases num_weights - i,
        {
            let ghost start = cg@;
            proof {
                cg.lemma_wf();
            }
            let w = cg.new_value(sample(), "w");
            weights.push(w);
            proof {
                assert(weights@ =~= Seq::new((i + 1) as nat, |k: int| (base + k) as usize));
                lemma_leaves_drawn(start, cg@, base, i as int, i + 1, "w", *sample);
            }
            i += 1;
        }
        let ghost start = cg@;
        proof {
            cg.lemma_wf();
        }
        let b = cg.new_value(sample(), "b");
        proof {
            lemma_leaves_drawn(start, cg@, base, i as int, i as int, "w", *sample);
            lemma_no_leaves_drawn(start, base + num_weights, "b", *sample);
            lemma_leaves_drawn(start, cg@, base + num_weights, 0, 1, "b", *sample);
        }
        Self { weights, b, non_lin }
    }

    /// Applies the neuron to the inputs `x`: appends the weighted sum of the
    /// inputs, pair by pair as far as weights and inputs both reach, plus the
    /// bias and, for a neuron that ends in one, the hyperbolic tangent of it.
    /// Returns the handle of the last node: the neuron's output.
    pub fn call<T: Scalar>(&self, x: &[usize], cg: &mut ComputationGraph<T>) -> (out: usize)
        requires
            old(cg).wf(),
            self.below(old(cg)@.len() as int),
            forall|k: int| 0 <= k < self.pairs(x@.len()) ==> (#[trigger] x@[k]) < old(cg)@.len(),
            old(cg)@.len() + self.span(x@.len()) <= INDEX_END,
            old(cg)@.edges().len() + self.edge_span(x@.len()) <= INDEX_END,
        ensures
            final(cg).wf(),
            old(cg)@.grows_to(final(cg)@),
            final(cg)@.len() == old(cg)@.len() + self.span(x@.len()),
            final(cg)@.edges().len() == old(cg)@.edges().len() + self.edge_span(x@.len()),
            out == final(cg)@.len() - 1,
            self.called_at(final(cg)@, old(cg)@.len() as int, x@),
    {
        let ghost before = cg@;
        let ghost base = cg@.len() as int;
        let ghost m = self.pairs(x@.len()) as int;
        let mut xw_sum = cg.new_value(T::zero(), "");
        proof {
            self.lemma_summed_start(cg@, base, x@);
        }
        let mut k: usize = 0;
        while k < self.weights.len() && k < x.len()
            invariant
                cg.wf(),
                base == before.len(),
                m == self.pairs(x@.len()),
                k <= m,
                self.below(base),
                forall|j: int| 0 <= j < m ==> (#[trigger] x@[j]) < base,
                base + self.span(x@.len()) <= INDEX_END,
                before.edges().len() + self.edge_span(x@.len()) <= INDEX_END,
                before.grows_to(cg@),
                cg@.len() == base + 1 + 2 * k,
                cg@.edges().len() == before.edges().len() + 4 * k,
                xw_sum == base + 2 * k,
                self.summed_at(cg@, base, x@, k as int),
            decreases m - k,
        {
            let ghost start = cg@;
            proof {
                cg.lemma_wf();
            }
            let x_i = x[k];
            let w_i = self.weights[k];
            let xw_product = cg.new_computation(x_i, Some(w_i), Op::MUL, "xi*wi");
            let ghost with_product = cg@;
            proof {
                cg.lemma_wf();
            }
            xw_sum = cg.new_computation(xw_sum, Some(xw_product), Op::ADD, "");
            proof {
                let now = cg@;
                with_product.lemma_result_kept(
                    now,
                    base + 1 + 2 * k,
                    Op::MUL,
                    seq![x_i as nat, w_i as nat],
                    "xi*wi",
                );
                assert(self.pair_at(now, base, k as int, x@));
                self.lemma_summed_kept(start, now, base, x@, k as int);
                self.lemma_summed_step(now, base, x@, k as int);
            }
            k += 1;
        }
        let ghost summed = cg@;
        proof {
            cg.lemma_wf();
        }
        let mut xw_bias_sum = cg.new_computation(xw_sum, Some(self.b), Op::ADD, "xw+b");
        let ghost with_bias = cg@;
        proof {
            cg.lemma_wf();
            self.lemma_summed_kept(summed, with_bias, base, x@, m);
        }
        if self.non_lin {
            xw_bias_sum = cg.new_computation(xw_bias_sum, None, Op::TANH, "");
            proof {
                self.lemma_summed_kept(with_bias, cg@, base, x@, m);
                with_bias.lemma_result_kept(
                    cg@,
                    base + 1 + 2 * m,
                    Op::ADD,
                    seq![(base + 2 * m) as nat, self.b as nat],
                    "xw+b",
                );
            }
        }
        xw_bias_sum
    }
}

/// A layer: neurons that all see the same inputs.
pub struct Layer {
    pub neurons: Vec<Neuron>,
}

/// The number of leaves that hold the parameters of the first `n` neurons of
/// the given widths: for each neuron its weights and its bias.
pub open spec fn params_upto(widths: Seq<usize>, n: int) -> nat
    decreases n,
{
    if n <= 0 {
        0
    } else {
        params_upto(widths, n - 1) + widths[n - 1] as nat + 1
    }
}

/// The count of parameters grows with the number of neurons.
pub proof fn lemma_params_grow(widths: Seq<usize>, i: int, n: int)
    requires
        0 <= i <= n,
    ensures
        params_upto(widths, i) <= params_upto(widths, n),
    decreases n - i,
{
    if i < n {
        lemma_params_grow(widths, i, n - 1);
    }
}

/// Every handle of `x` is among the first `len` nodes.
pub open spec fn all_below(x: Seq<usize>, len: int) -> bool {
    forall|k: int| 0 <= k < x.len() ==> (#[trigger] x[k]) < len
}

impl Layer {
    /// The number of nodes that a call appends for the first `n` neurons.
    pub open spec fn span_upto(&self, inputs: nat, n: int) -> nat
        decreases n,
    {
        if n <= 0 {
            0
        } else {
            self.span_upto(inputs, n - 1) + self.neurons@[n - 1].span(inputs)
        }
    }

    /// The number of edges that a call appends for the first `n` neurons.
    pub open spec fn edge_span_upto(&self, inputs: nat, n: int) -> nat
        decreases n,
    {
        if n <= 0 {
            0
        } else {
            self.edge_span_upto(inputs, n - 1) + self.neurons@[n - 1].edge_span(inputs)
        }
    }

    /// The number of nodes that one call appends.
    pub open spec fn span(&self, inputs: nat) -> nat {
        self.span_upto(inputs, self.neurons@.len() as int)
    }

    /// The number of edges that one call appends.
    pub open spec fn edge_span(&self, inputs: nat) -> nat {
        self.edge_span_upto(inputs, self.neurons@.len() as int)
    }

    /// The counts grow with the number of neurons.
    pub proof fn lemma_spans_grow(&self, inputs: nat, i: int, n: int)
        requires
            0 <= i <= n,
        ensures
            self.span_upto(inputs, i) <= self.span_upto(inputs, n),
            self.edge_span_upto(inputs, i) <= self.edge_span_upto(inputs, n),
        decreases n - i,
    {
        if i < n {
            self.lemma_spans_grow(inputs, i, n - 1);
        }
    }

    /// The parameters of every neuron are among the first `len` nodes.
    pub open spec fn below(&self, len: int) -> bool {
        forall|j: int| 0 <= j < self.neurons@.len() ==> (#[trigger] self.neurons@[j]).below(len)
    }

    /// Parameters among the first nodes are among the first nodes of more.
    pub proof fn lemma_below_more(&self, len: int, more: int)
        requires
            self.below(len),
            len <= more,
        ensures
            self.below(more),
    {
        assert forall|j: int| 0 <= j < self.neurons@.len() implies (#[trigger] self.neurons@[j]).below(
            more,
        ) by {
            assert(self.neurons@[j].below(len));
        }
    }

    /// The handles of the outputs of a call whose nodes start at `at`: for
    /// each neuron, the last node of its call.
    pub open spec fn outputs(&self, at: int, inputs: nat) -> Seq<usize> {
        Seq::new(
            self.neurons@.len(),
            |j: int| (at + self.span_upto(inputs, j + 1) - 1) as usize,
        )
    }

    /// The nodes of `g` from `at` on are the calls of the first `n` neurons on
    /// the inputs `x`, one after the other.
    #[verifier::opaque]
    pub open spec fn called_upto<T: Scalar>(&self, g: GraphView<T>, at: int, x: Seq<usize>, n: int) -> bool {
        forall|j: int|
            0 <= j < n ==> (#[trigger] self.neurons@[j]).called_at(
                g,
                at + self.span_upto(x.len(), j),
                x,
            )
    }

    /// The nodes of `g` from `at` on are one call of this layer on the inputs
    /// `x`: the calls of its neurons, one after the other.
    pub open spec fn called_at<T: Scalar>(&self, g: GraphView<T>, at: int, x: Seq<usize>) -> bool {
        self.called_upto(g, at, x, self.neurons@.len() as int)
    }

    /// The calls of the first neurons stay what they are when nodes are
    /// appended, and the call of the next neuron after them makes one more.
    pub proof fn lemma_called_upto<T: Scalar>(
        &self,
        g: GraphView<T>,
        after: GraphView<T>,
        at: int,
        x: Seq<usize>,
        n: int,
        more: int,
    )
        requires
            g.operands.len() == g.nodes.len(),
            g.grows_to(after),
            0 <= at,
            0 <= n <= self.neurons@.len(),
            at + self.span_upto(x.len(), n) <= g.len(),
            self.called_upto(g, at, x, n),
            self.below(at),
            all_below(x, at),
            more == n || (more == n + 1 && n < self.neurons@.len() && self.neurons@[n].called_at(
                after,
                at + self.span_upto(x.len(), n),
                x,
            )),
        ensures
            self.called_upto(after, at, x, more),
    {
        reveal(Layer::called_upto);
        assert forall|j: int| 0 <= j < more implies (#[trigger] self.neurons@[j]).called_at(
            after,
            at + self.span_upto(x.len(), j),
            x,
        ) by {
            if j < n {
                let neuron = self.neurons@[j];
                self.lemma_spans_grow(x.len(), j + 1, n);
                assert(neuron.below(at));
                neuron.lemma_called_kept(g, after, at + self.span_upto(x.len(), j), x);
            }
        }
    }

    /// No calls are the calls of no neurons.
    pub proof fn lemma_called_none<T: Scalar>(&self, g: GraphView<T>, at: int, x: Seq<usize>)
        ensures
            self.called_upto(g, at, x, 0),
    {
        reveal(Layer::called_upto);
    }

    /// The parameters of the first `n` of `neurons` are the leaves of `g` from
    /// `at` on, neuron after neuron, for neurons of the given widths that end
    /// in a hyperbolic tangent.
    #[verifier::opaque]
    pub open spec fn made_upto<T: Scalar, F: Fn() -> T>(
        neurons: Seq<Neuron>,
        g: GraphView<T>,
        at: int,
        widths: Seq<usize>,
        n: int,
        sample: F,
    ) -> bool {
        forall|j: int|
            0 <= j < n ==> (#[trigger] neurons[j]).made_at(
                g,
                at + params_upto(widths, j),
                widths[j] as nat,
                true,
                sample,
            )
    }

    /// The parameters of the layer's neurons are the leaves of `g` from `at`
    /// on, neuron after neuron, for neurons of the given widths.
    pub open spec fn made_at<T: Scalar, F: Fn() -> T>(
        &self,
        g: GraphView<T>,
        at: int,
        widths: Seq<usize>,
        sample: F,
    ) -> bool {
        &&& self.neurons@.len() == widths.len()
        &&& Self::made_upto(self.neurons@, g, at, widths, widths.len() as int, sample)
    }

    /// The parameters of the first neurons stay what they are when nodes are
    /// appended, and the parameters of one more neuron after them make one
    /// more.
    pub proof fn lemma_made_upto<T: Scalar, F: Fn() -> T>(
        neurons: Seq<Neuron>,
        longer: Seq<Neuron>,
        g: GraphView<T>,
        after: GraphView<T>,
        at: int,
        widths: Seq<usize>,
        n: int,
        sample: F,
    )
        requires
            g.operands.len() == g.nodes.len(),
            g.grows_to(after),
            0 <= n <= neurons.len(),
            Self::made_upto(neurons, g, at, widths, n, sample),
            longer == neurons || (n == neurons.len() && longer.len() == n + 1 && longer.take(n)
                == neurons && longer[n].made_at(
                after,
                at + params_upto(widths, n),
                widths[n] as nat,
                true,
                sample,
            )),
        ensures
            Self::made_upto(longer, after, at, widths, longer.len() as int - neurons.len() + n, sample),
    {
        reveal(Layer::made_upto);
        let more = longer.len() as int - neurons.len() + n;
        assert forall|j: int| 0 <= j < more implies (#[trigger] longer[j]).made_at(
            after,
            at + params_upto(widths, j),
            widths[j] as nat,
            true,
            sample,
        ) by {
            if j < n {
                assert(longer[j] == neurons[j]) by {
                    if longer != neurons {
                        assert(longer.take(n)[j] == longer[j]);
                    }
                }
                neurons[j].lemma_made_kept(
                    g,
                    after,
                    at + params_upto(widths, j),
                    widths[j] as nat,
                    true,
                    sample,
                );
            }
        }
    }

    /// No parameters are the parameters of no neurons.
    pub proof fn lemma_made_none<T: Scalar, F: Fn() -> T>(
        neurons: Seq<Neuron>,
        g: GraphView<T>,
        at: int,
        widths: Seq<usize>,
        sample: F,
    )
        ensures
            Self::made_upto(neurons, g, at, widths, 0, sample),
    {
        reveal(Layer::made_upto);
    }

    /// The parameters of a layer made at `at` are nodes from `at` on, as many
    /// as its widths ask for.
    pub proof fn lemma_made_below<T: Scalar, F: Fn() -> T>(
        &self,
        g: GraphView<T>,
        at: int,
        widths: Seq<usize>,
        sample: F,
    )
        requires
            0 <= at,
            at + params_upto(widths, widths.len() as int) <= INDEX_END,
            self.made_at(g, at, widths, sample),
        ensures
            self.below(at + params_upto(widths, widths.len() as int)),
    {
        reveal(Layer::made_upto);
        assert forall|j: int| 0 <= j < self.neurons@.len() implies (#[trigger] self.neurons@[j]).below(
            at + params_upto(widths, widths.len() as int),
        ) by {
            lemma_params_grow(widths, j + 1, widths.len() as int);
            lemma_params_grow(widths, 0, j);
            self.neurons@[j].lemma_made_below(
                g,
                at + params_upto(widths, j),
                widths[j] as nat,
                true,
                sample,
            );
        }
    }

    /// A layer's parameters stay what they are when nodes are appended.
    pub proof fn lemma_made_kept<T: Scalar, F: Fn() -> T>(
        &self,
        g: GraphView<T>,
        after: GraphView<T>,
        at: int,
        widths: Seq<usize>,
        sample: F,
    )
        requires
            g.operands.len() == g.nodes.len(),
            g.grows_to(after),
            self.made_at(g, at, widths, sample),
        ensures
            self.made_at(after, at, widths, sample),
    {
        Self::lemma_made_upto(
            self.neurons@,
            self.neurons@,
            g,
            after,
            at,
            widths,
            widths.len() as int,
            sample,
        );
    }

    /// A call stays what it is when nodes are appended.
    pub proof fn lemma_called_kept<T: Scalar>(
        &self,
        g: GraphView<T>,
        after: GraphView<T>,
        at: int,
        x: Seq<usize>,
    )
        requires
            g.operands.len() == g.nodes.len(),
            g.grows_to(after),
            0 <= at,
            at + self.span(x.len()) <= g.len(),
            self.called_at(g, at, x),
            self.below(at),
            all_below(x, at),
        ensures
            self.called_at(after, at, x),
    {
        let n = self.neurons@.len() as int;
        self.lemma_called_upto(g, after, at, x, n, n);
    }

    /// The handles of the parameters of the first `n` neurons.
    pub open spec fn parameter_handles_upto(&self, n: int) -> Seq<usize>
        decreases n,
    {
        if n <= 0 {
            Seq::empty()
        } else {
            self.parameter_handles_upto(n - 1) + self.neurons@[n - 1].parameter_handles()
        }
    }

    /// The handles of the parameters of all neurons, neuron after neuron.
    pub open spec fn parameter_handles(&self) -> Seq<usize> {
        self.parameter_handles_upto(self.neurons@.len() as int)
    }

    /// The handles of the nodes that training moves: the parameters of all
    /// neurons, neuron after neuron.
    pub fn parameters(&self) -> (params: Vec<usize>)
        ensures
            params@ == self.parameter_handles(),
    {
        let mut params: Vec<usize> = Vec::new();
        let mut j: usize = 0;
        while j < self.neurons.len()
            invariant
                j <= self.neurons@.len(),
                params@ == self.parameter_handles_upto(j as int),
            decreases self.neurons@.len() - j,
        {
            let mut more = self.neurons[j].parameters();
            params.append(&mut more);
            j += 1;
        }
        params
    }

    /// The first `n` neurons, each in one line and followed by a comma and a
    /// blank.
    pub open spec fn neurons_text(&self, n: int) -> Seq<char>
        decreases n,
    {
        if n <= 0 {
            Seq::empty()
        } else {
            self.neurons_text(n - 1) + self.neurons@[n - 1].text() + ", "@
        }
    }

    /// The layer in one line: its neurons, one after the other.
    pub open spec fn text(&self) -> Seq<char> {
        "Layer { neurons: ["@ + self.neurons_text(self.neurons@.len() as int) + "] }"@
    }

    /// The layer in one line.
    pub fn to_text(&self) -> (line: String)
        ensures
            line@ == self.text(),
    {
        let mut list = String::new();
        let mut j: usize = 0;
        while j < self.neurons.len()
            invariant
                j <= self.neurons@.len(),
                list@ == self.neurons_text(j as int),
            decreases self.neurons@.len() - j,
        {
            list.append(self.neurons[j].to_text().as_str());
            list.append(", ");
            j += 1;
        }
        let mut line = String::from_str("Layer { neurons: [");
        line.append(list.as_str());
        line.append("] }");
        line
    }

    /// The number of neurons.
    pub fn neuron_count(&self) -> (n: usize)
        ensures
            n == self.neurons@.len(),
    {
        self.neurons.len()
    }

    /// Inserts the parameters of a layer with one neuron for each of the given
    /// numbers of weights. Every neuron ends in a hyperbolic tangent.
    pub fn new<T: Scalar, F: Fn() -> T>(
        weights: &[usize],
        cg: &mut ComputationGraph<T>,
        sample: &F,
    ) -> (layer: Self)
        requires
            old(cg).wf(),
            call_requires(*sample, ()),
            old(cg)@.len() + params_upto(weights@, weights@.len() as int) <= INDEX_END,
        ensures
            final(cg).wf(),
            old(cg)@.grows_to(final(cg)@),
            final(cg)@.len() == old(cg)@.len() + params_upto(weights@, weights@.len() as int),
            final(cg)@.edges() == old(cg)@.edges(),
            layer.made_at(final(cg)@, old(cg)@.len() as int, weights@, *sample),
            layer.below(final(cg)@.len() as int),
    {
        let ghost before = cg@;
        let ghost base = cg@.len() as int;
        let mut neurons: Vec<Neuron> = Vec::new();
        let mut i: usize = 0;
        proof {
            Self::lemma_made_none(neurons@, cg@, base, weights@, *sample);
        }
        while i < weights.len()
            invariant
                cg.wf(),
                call_requires(*sample, ()),
                base == before.len(),
                base + params_upto(weights@, weights@.len() as int) <= INDEX_END,
                i <= weights@.len(),
                before.grows_to(cg@),
                cg@.len() == base + params_upto(weights@, i as int),
                cg@.edges() == before.edges(),
                neurons@.len() == i,
                Self::made_upto(neurons@, cg@, base, weights@, i as int, *sample),
            decreases weights@.len() - i,
        {
            let ghost start = cg@;
            let ghost made = neurons@;
            proof {
                cg.lemma_wf();
                lemma_params_grow(weights@, i + 1, weights@.len() as int);
            }
            let neuron = Neuron::new(weights[i], true, cg, sample);
            neurons.push(neuron);
            proof {
                assert(neurons@.take(i as int) =~= made);
                Self::lemma_made_upto(made, neurons@, start, cg@, base, weights@, i as int, *sample);
            }
            i += 1;
        }
        let layer = Self { neurons };
        proof {
            layer.lemma_made_below(cg@, base, weights@, *sample);
        }
        layer
    }

    /// Applies every neuron of the layer to the inputs `x`, and returns the
    /// handles of their outputs.
    pub fn call<T: Scalar>(&self, x: &[usize], cg: &mut ComputationGraph<T>) -> (outs: Vec<usize>)
        requires
            old(cg).wf(),
            self.below(old(cg)@.len() as int),
            all_below(x@, old(cg)@.len() as int),
            old(cg)@.len() + self.span(x@.len()) <= INDEX_END,
            old(cg)@.edges().len() + self.edge_span(x@.len()) <= INDEX_END,
        ensures
            final(cg).wf(),
            old(cg)@.grows_to(final(cg)@),
            final(cg)@.len() == old(cg)@.len() + self.span(x@.len()),
            final(cg)@.edges().len() == old(cg)@.edges().len() + self.edge_span(x@.len()),
            self.called_at(final(cg)@, old(cg)@.len() as int, x@),
            outs@ == self.outputs(old(cg)@.len() as int, x@.len()),
    {
        let ghost before = cg@;
        let ghost base = cg@.len() as int;
        let ghost inputs = x@.len();
        let mut neuron_activations: Vec<usize> = Vec::new();
        let mut i: usize = 0;
        proof {
            self.lemma_called_none(cg@, base, x@);
        }
        while i < self.neurons.len()
            invariant
                cg.wf(),
                base == before.len(),
                inputs == x@.len(),
                self.below(base),
                all_below(x@, base),
                base + self.span(inputs) <= INDEX_END,
                before.edges().len() + self.edge_span(inputs) <= INDEX_END,
                i <= self.neurons@.len(),
                before.grows_to(cg@),
                cg@.len() == base + self.span_upto(inputs, i as int),
                cg@.edges().len() == before.edges().len() + self.edge_span_upto(inputs, i as int),
                neuron_activations@ == self.outputs(base, inputs).take(i as int),
                self.called_upto(cg@, base, x@, i as int),
            decreases self.neurons@.len() - i,
        {
            let ghost start = cg@;
            let neuron = &self.neurons[i];
            proof {
                cg.lemma_wf();
                self.lemma_spans_grow(inputs, i + 1, self.neurons@.len() as int);
                assert(neuron.below(base));
            }
            let out = neuron.call(x, cg);
            neuron_activations.push(out);
            proof {
                assert(neuron_activations@ =~= self.outputs(base, inputs).take(i + 1));
                self.lemma_called_upto(start, cg@, base, x@, i as int, i + 1);
            }
            i += 1;
        }
        assert(neuron_activations@ =~= self.outputs(base, inputs));
        neuron_activations
    }
}

/// A multi-layer perceptron of `L` layers: each layer sees the outputs of the
/// one before it, the first one the inputs.
pub struct MLP<const L: usize> {
    pub layers: Vec<Layer>,
}

/// The widths that a perceptron is built from: for each layer, the number of
/// weights of each of its neurons.
pub open spec fn widths_of<const L: usize>(counts: &[&[usize]; L]) -> Seq<Seq<usize>> {
    Seq::new(L as nat, |i: int| counts@[i]@)
}

/// The number of leaves that hold the parameters of the first `n` layers.
pub open spec fn layer_params_upto(counts: Seq<Seq<usize>>, n: int) -> nat
    decreases n,
{
    if n <= 0 {
        0
    } else {
        layer_params_upto(counts, n - 1) + params_upto(counts[n - 1], counts[n - 1].len() as int)
    }
}

/// The count of parameters grows with the number of layers.
pub proof fn lemma_layer_params_grow(counts: Seq<Seq<usize>>, i: int, n: int)
    requires
        0 <= i <= n,
    ensures
        layer_params_upto(counts, i) <= layer_params_upto(counts, n),
    decreases n - i,
{
    if i < n {
        lemma_layer_params_grow(counts, i, n - 1);
    }
}

/// The first `n` of the `x.len()` nodes of `g` from `at` on are leaves
/// labelled `x` with the values of `x`, in their order.
#[verifier::opaque]
pub open spec fn leaves_given<T: Scalar>(g: GraphView<T>, at: int, x: Seq<T>, n: int) -> bool {
    forall|k: int| 0 <= k < n ==> #[trigger] g.is_leaf_at(at + k, "x") && g.value(at + k) == x[k]
}

/// Given leaves stay what they are when nodes are appended, and one more leaf
/// after them makes one more.
pub proof fn lemma_leaves_given<T: Scalar>(
    g: GraphView<T>,
    after: GraphView<T>,
    at: int,
    x: Seq<T>,
    n: int,
    more: int,
)
    requires
        g.operands.len() == g.nodes.len(),
        g.grows_to(after),
        leaves_given(g, at, x, n),
        more == n || (more == n + 1 && after.is_leaf_at(at + n, "x") && after.value(at + n)
            == x[n]),
    ensures
        leaves_given(after, at, x, more),
{
    reveal(leaves_given);
    assert forall|k: int| 0 <= k < more implies #[trigger] after.is_leaf_at(at + k, "x")
        && after.value(at + k) == x[k] by {
        if k < n {
            assert(g.is_leaf_at(at + k, "x"));
            g.lemma_leaf_kept(after, at + k, "x");
        }
    }
}

/// No leaves are given leaves.
pub proof fn lemma_no_leaves_given<T: Scalar>(g: GraphView<T>, at: int, x: Seq<T>)
    ensures
        leaves_given(g, at, x, 0),
{
    reveal(leaves_given);
}

impl<const L: usize> MLP<L> {
    /// The number of inputs that layer `i` sees when the perceptron is called
    /// on `inputs` inputs: the number of neurons of the layer before it.
    pub open spec fn inputs_of(&self, i: int, inputs: nat) -> nat {
        if i <= 0 {
            inputs
        } else {
            self.layers@[i - 1].neurons@.len()
        }
    }

    /// The number of nodes that a call appends for the first `n` layers.
    pub open spec fn span_upto(&self, inputs: nat, n: int) -> nat
        decreases n,
    {
        if n <= 0 {
            0
        } else {
            self.span_upto(inputs, n - 1) + self.layers@[n - 1].span(self.inputs_of(n - 1, inputs))
        }
    }

    /// The number of edges that a call appends for the first `n` layers.
    pub open spec fn edge_span_upto(&self, inputs: nat, n: int) -> nat
        decreases n,
    {
        if n <= 0 {
            0
        } else {
            self.edge_span_upto(inputs, n - 1) + self.layers@[n - 1].edge_span(
                self.inputs_of(n - 1, inputs),
            )
        }
    }

    /// The counts grow with the number of layers.
    pub proof fn lemma_spans_grow(&self, inputs: nat, i: int, n: int)
        requires
            0 <= i <= n,
        ensures
            self.span_upto(inputs, i) <= self.span_upto(inputs, n),
            self.edge_span_upto(inputs, i) <= self.edge_span_upto(inputs, n),
        decreases n - i,
    {
        if i < n {
            self.lemma_spans_grow(inputs, i, n - 1);
        }
    }

    /// The handles that layer `i` sees when the inputs are the `inputs` leaves
    /// from `at` on and the layers' nodes follow them: those leaves for the
    /// first layer, the outputs of the layer before for the others.
    pub open spec fn seen_by(&self, i: int, at: int, inputs: nat) -> Seq<usize> {
        if i <= 0 {
            Seq::new(inputs, |k: int| (at + k) as usize)
        } else {
            self.layers@[i - 1].outputs(
                at + inputs + self.span_upto(inputs, i - 1),
                self.inputs_of(i - 1, inputs),
            )
        }
    }

    /// What a layer sees are as many nodes as it has inputs, all appended
    /// before its own.
    pub proof fn lemma_seen_below(&self, i: int, at: int, inputs: nat)
        requires
            0 <= i <= self.layers@.len(),
            0 <= at,
            at + inputs + self.span_upto(inputs, i) <= INDEX_END,
        ensures
            self.seen_by(i, at, inputs).len() == self.inputs_of(i, inputs),
            all_below(self.seen_by(i, at, inputs), at + inputs + self.span_upto(inputs, i)),
    {
        let seen = self.seen_by(i, at, inputs);
        assert forall|k: int| 0 <= k < seen.len() implies (#[trigger] seen[k]) < at + inputs
            + self.span_upto(inputs, i) by {
            if i > 0 {
                let layer = self.layers@[i - 1];
                let width = self.inputs_of(i - 1, inputs);
                layer.lemma_spans_grow(width, k + 1, layer.neurons@.len() as int);
                layer.lemma_spans_grow(width, 0, k);
                assert(layer.span_upto(width, k + 1) == layer.span_upto(width, k)
                    + layer.neurons@[k].span(width));
            }
        }
    }

    /// There are `L` layers, and the parameters of each are among the first
    /// `len` nodes.
    pub open spec fn below(&self, len: int) -> bool {
        &&& self.layers@.len() == L
        &&& forall|i: int| 0 <= i < self.layers@.len() ==> (#[trigger] self.layers@[i]).below(len)
    }

    /// The parameters of the first `n` of `layers` are the leaves of `g` from
    /// `at` on, layer after layer, for layers of the given widths.
    #[verifier::opaque]
    pub open spec fn made_upto<T: Scalar, F: Fn() -> T>(
        layers: Seq<Layer>,
        g: GraphView<T>,
        at: int,
        counts: Seq<Seq<usize>>,
        n: int,
        sample: F,
    ) -> bool {
        forall|i: int|
            0 <= i < n ==> (#[trigger] layers[i]).made_at(
                g,
                at + layer_params_upto(counts, i),
                counts[i],
                sample,
            )
    }

    /// The parameters of the layers are the leaves of `g` from `at` on, layer
    /// after layer, for layers of the given widths.
    pub open spec fn made_at<T: Scalar, F: Fn() -> T>(
        &self,
        g: GraphView<T>,
        at: int,
        counts: Seq<Seq<usize>>,
        sample: F,
    ) -> bool {
        &&& self.layers@.len() == counts.len()
        &&& Self::made_upto(self.layers@, g, at, counts, counts.len() as int, sample)
    }

    /// The parameters of the first layers stay what they are when nodes are
    /// appended, and the parameters of one more layer after them make one
    /// more.
    pub proof fn lemma_made_upto<T: Scalar, F: Fn() -> T>(
        layers: Seq<Layer>,
        longer: Seq<Layer>,
        g: GraphView<T>,
        after: GraphView<T>,
        at: int,
        counts: Seq<Seq<usize>>,
        n: int,
        sample: F,
    )
        requires
            g.operands.len() == g.nodes.len(),
            g.grows_to(after),
            0 <= n <= layers.len(),
            Self::made_upto(layers, g, at, counts, n, sample),
            longer == layers || (n == layers.len() && longer.len() == n + 1 && longer.take(n)
                == layers && longer[n].made_at(
                after,
                at + layer_params_upto(counts, n),
                counts[n],
                sample,
            )),
        ensures
            Self::made_upto(longer, after, at, counts, longer.len() as int - layers.len() + n, sample),
    {
        reveal(MLP::made_upto);
        let more = longer.len() as int - layers.len() + n;
        assert forall|i: int| 0 <= i < more implies (#[trigger] longer[i]).made_at(
            after,
            at + layer_params_upto(counts, i),
            counts[i],
            sample,
        ) by {
            if i < n {
                assert(longer[i] == layers[i]) by {
                    if longer != layers {
                        assert(longer.take(n)[i] == longer[i]);
                    }
                }
                layers[i].lemma_made_kept(
                    g,
                    after,
                    at + layer_params_upto(counts, i),
                    counts[i],
                    sample,
                );
            }
        }
    }

    /// No parameters are the parameters of no layers.
    pub proof fn lemma_made_none<T: Scalar, F: Fn() -> T>(
        layers: Seq<Layer>,
        g: GraphView<T>,
        at: int,
        counts: Seq<Seq<usize>>,
        sample: F,
    )
        ensures
            Self::made_upto(layers, g, at, counts, 0, sample),
    {
        reveal(MLP::made_upto);
    }

    /// The parameters of a perceptron made at `at` are nodes from `at` on, as
    /// many as its widths ask for.
    pub proof fn lemma_made_below<T: Scalar, F: Fn() -> T>(
        &self,
        g: GraphView<T>,
        at: int,
        counts: Seq<Seq<usize>>,
        sample: F,
    )
        requires
            0 <= at,
            counts.len() == L,
            at + layer_params_upto(counts, counts.len() as int) <= INDEX_END,
            self.made_at(g, at, counts, sample),
        ensures
            self.below(at + layer_params_upto(counts, counts.len() as int)),
    {
        reveal(MLP::made_upto);
        let end = at + layer_params_upto(counts, counts.len() as int);
        assert forall|i: int| 0 <= i < self.layers@.len() implies (#[trigger] self.layers@[i]).below(
            end,
        ) by {
            lemma_layer_params_grow(counts, i + 1, counts.len() as int);
            lemma_layer_params_grow(counts, 0, i);
            self.layers@[i].lemma_made_below(
                g,
                at + layer_params_upto(counts, i),
                counts[i],
                sample,
            );
            self.layers@[i].lemma_below_more(
                at + layer_params_upto(counts, i) + params_upto(counts[i], counts[i].len() as int),
                end,
            );
        }
    }

    /// After the `inputs` leaves from `at` on, the nodes of `g` are the calls
    /// of the first `n` layers, one after the other, each on what it sees.
    #[verifier::opaque]
    pub open spec fn called_upto<T: Scalar>(&self, g: GraphView<T>, at: int, inputs: nat, n: int) -> bool {
        forall|i: int|
            0 <= i < n ==> (#[trigger] self.layers@[i]).called_at(
                g,
                at + inputs + self.span_upto(inputs, i),
                self.seen_by(i, at, inputs),
            )
    }

    /// The nodes of `g` from `at` on are one call of this perceptron on the
    /// values `x`: a leaf labelled `x` for each value, then the calls of the
    /// layers, one after the other, each on the outputs of the one before.
    pub open spec fn called_at<T: Scalar>(&self, g: GraphView<T>, at: int, x: Seq<T>) -> bool {
        &&& leaves_given(g, at, x, x.len() as int)
        &&& self.called_upto(g, at, x.len(), self.layers@.len() as int)
    }

    /// The calls of the first layers stay what they are when nodes are
    /// appended, and the call of the next layer after them makes one more.
    pub proof fn lemma_called_upto<T: Scalar>(
        &self,
        g: GraphView<T>,
        after: GraphView<T>,
        at: int,
        inputs: nat,
        n: int,
        more: int,
    )
        requires
            g.operands.len() == g.nodes.len(),
            g.grows_to(after),
            0 <= at,
            0 <= n <= self.layers@.len(),
            g.len() == at + inputs + self.span_upto(inputs, n),
            g.len() <= INDEX_END,
            self.called_upto(g, at, inputs, n),
            self.below(at),
            more == n || (more == n + 1 && n < self.layers@.len() && self.layers@[n].called_at(
                after,
                at + inputs + self.span_upto(inputs, n),
                self.seen_by(n, at, inputs),
            )),
        ensures
            self.called_upto(after, at, inputs, more),
    {
        reveal(MLP::called_upto);
        assert forall|i: int| 0 <= i < more implies (#[trigger] self.layers@[i]).called_at(
            after,
            at + inputs + self.span_upto(inputs, i),
            self.seen_by(i, at, inputs),
        ) by {
            if i < n {
                let layer = self.layers@[i];
                let start = at + inputs + self.span_upto(inputs, i);
                self.lemma_spans_grow(inputs, i + 1, n);
                self.lemma_seen_below(i, at, inputs);
                layer.lemma_below_more(at, start);
                layer.lemma_called_kept(g, after, start, self.seen_by(i, at, inputs));
            }
        }
    }

    /// No calls are the calls of no layers.
    pub proof fn lemma_called_none<T: Scalar>(&self, g: GraphView<T>, at: int, inputs: nat)
        ensures
            self.called_upto(g, at, inputs, 0),
    {
        reveal(MLP::called_upto);
    }

    /// The handles of the parameters of the first `n` layers.
    pub open spec fn parameter_handles_upto(&self, n: int) -> Seq<usize>
        decreases n,
    {
        if n <= 0 {
            Seq::empty()
        } else {
            self.parameter_handles_upto(n - 1) + self.layers@[n - 1].parameter_handles()
        }
    }

    /// The handles of the nodes that training moves: the parameters of all
    /// layers, layer after layer.
    pub fn parameters(&self) -> (params: Vec<usize>)
        ensures
            params@ == self.parameter_handles_upto(self.layers@.len() as int),
    {
        let mut params: Vec<usize> = Vec::new();
        let mut i: usize = 0;
        while i < self.layers.len()
            invariant
                i <= self.layers@.len(),
                params@ == self.parameter_handles_upto(i as int),
            decreases self.layers@.len() - i,
        {
            let mut more = self.layers[i].parameters();
            params.append(&mut more);
            i += 1;
        }
        params
    }

    /// Inserts the parameters of a perceptron: one layer for each entry of
    /// `neuron_layer_count`, with one neuron for each number of weights in it.
    pub fn new<T: Scalar, F: Fn() -> T>(
        neuron_layer_count: &[&[usize]; L],
        cg: &mut ComputationGraph<T>,
        sample: &F,
    ) -> (mlp: Self)
        requires
            old(cg).wf(),
            call_requires(*sample, ()),
            old(cg)@.len() + layer_params_upto(widths_of(neuron_layer_count), L as int)
                <= INDEX_END,
        ensures
            final(cg).wf(),
            old(cg)@.grows_to(final(cg)@),
            final(cg)@.len() == old(cg)@.len() + layer_params_upto(
                widths_of(neuron_layer_count),
                L as int,
            ),
            final(cg)@.edges() == old(cg)@.edges(),
            mlp.made_at(
                final(cg)@,
                old(cg)@.len() as int,
                widths_of(neuron_layer_count),
                *sample,
            ),
            mlp.below(final(cg)@.len() as int),
    {
        let ghost before = cg@;
        let ghost base = cg@.len() as int;
        let ghost counts = widths_of(neuron_layer_count);
        let mut layers: Vec<Layer> = Vec::new();
        let mut i: usize = 0;
        proof {
            Self::lemma_made_none(layers@, cg@, base, counts, *sample);
        }
        while i < L
            invariant
                cg.wf(),
                call_requires(*sample, ()),
                base == before.len(),
                counts == widths_of(neuron_layer_count),
                base + layer_params_upto(counts, L as int) <= INDEX_END,
                i <= L,
                before.grows_to(cg@),
                cg@.len() == base + layer_params_upto(counts, i as int),
                cg@.edges() == before.edges(),
                layers@.len() == i,
                Self::made_upto(layers@, cg@, base, counts, i as int, *sample),
            decreases L - i,
        {
            let ghost start = cg@;
            let ghost made = layers@;
            proof {
                cg.lemma_wf();
                lemma_layer_params_grow(counts, i + 1, L as int);
            }
            let layer = Layer::new(neuron_layer_count[i], cg, sample);
            layers.push(layer);
            proof {
                assert(layers@.take(i as int) =~= made);
                Self::lemma_made_upto(made, layers@, start, cg@, base, counts, i as int, *sample);
            }
            i += 1;
        }
        let mlp = Self { layers };
        proof {
            mlp.lemma_made_below(cg@, base, counts, *sample);
        }
        mlp
    }

    /// Applies the perceptron to the values `x`: appends a leaf for each
    /// value, then the calls of the layers, each on the outputs of the one
    /// before. Returns the handles of the outputs of the last layer.
    pub fn call<T: Scalar>(&self, x: &[T], cg: &mut ComputationGraph<T>) -> (outs: Vec<usize>)
        requires
            old(cg).wf(),
            self.below(old(cg)@.len() as int),
            old(cg)@.len() + x@.len() + self.span_upto(x@.len(), L as int) <= INDEX_END,
            old(cg)@.edges().len() + self.edge_span_upto(x@.len(), L as int) <= INDEX_END,
        ensures
            final(cg).wf(),
            old(cg)@.grows_to(final(cg)@),
            final(cg)@.len() == old(cg)@.len() + x@.len() + self.span_upto(x@.len(), L as int),
            final(cg)@.edges().len() == old(cg)@.edges().len() + self.edge_span_upto(
                x@.len(),
                L as int,
            ),
            self.called_at(final(cg)@, old(cg)@.len() as int, x@),
            outs@ == self.seen_by(L as int, old(cg)@.len() as int, x@.len()),
    {
        let ghost before = cg@;
        let ghost base = cg@.len() as int;
        let ghost n = x@.len();
        let mut layer_activations: Vec<usize> = Vec::new();
        let mut k: usize = 0;
        proof {
            lemma_no_leaves_given(cg@, base, x@);
        }
        while k < x.len()
            invariant
                cg.wf(),
                base == before.len(),
                n == x@.len(),
                base + n <= INDEX_END,
                k <= n,
                before.grows_to(cg@),
                cg@.len() == base + k,
                cg@.edges() == before.edges(),
                layer_activations@ == self.seen_by(0, base, n).take(k as int),
                leaves_given(cg@, base, x@, k as int),
            decreases n - k,
        {
            let ghost start = cg@;
            proof {
                cg.lemma_wf();
            }
            let leaf = cg.new_value(x[k], "x");
            layer_activations.push(leaf);
            proof {
                assert(layer_activations@ =~= self.seen_by(0, base, n).take(k + 1));
                lemma_leaves_given(start, cg@, base, x@, k as int, k + 1);
            }
            k += 1;
        }
        proof {
            assert(layer_activations@ =~= self.seen_by(0, base, n));
            self.lemma_called_none(cg@, base, n);
        }
        let mut i: usize = 0;
        while i < self.layers.len()
            invariant
                cg.wf(),
                self.below(base),
                base == before.len(),
                n == x@.len(),
                base + n + self.span_upto(n, L as int) <= INDEX_END,
                before.edges().len() + self.edge_span_upto(n, L as int) <= INDEX_END,
                i <= L,
                before.grows_to(cg@),
                cg@.len() == base + n + self.span_upto(n, i as int),
                cg@.edges().len() == before.edges().len() + self.edge_span_upto(n, i as int),
                layer_activations@ == self.seen_by(i as int, base, n),
                leaves_given(cg@, base, x@, n as int),
                self.called_upto(cg@, base, n, i as int),
            decreases L - i,
        {
            let ghost start = cg@;
            let layer = &self.layers[i];
            proof {
                cg.lemma_wf();
                self.lemma_spans_grow(n, i + 1, L as int);
                self.lemma_seen_below(i as int, base, n);
                layer.lemma_below_more(base, start.len() as int);
            }
            layer_activations = layer.call(layer_activations.as_slice(), cg);
            proof {
                lemma_leaves_given(start, cg@, base, x@, n as int, n as int);
                self.lemma_called_upto(start, cg@, base, n, i as int, i + 1);
            }
            i += 1;
        }
        layer_activations
    }
}

} // verus!
