//! A computation graph as the text of a Graphviz diagram.

use crate::engine::ComputationGraph;
use crate::model::GraphView;
use crate::scalar::Scalar;
use vstd::prelude::*;
use vstd::string::StringExecFns;

verus! {

/// The character of a decimal digit.
pub open spec fn digit(d: nat) -> char {
    if d == 0 {
        '0'
    } else if d == 1 {
        '1'
    } else if d == 2 {
        '2'
    } else if d == 3 {
        '3'
    } else if d == 4 {
        '4'
    } else if d == 5 {
        '5'
    } else if d == 6 {
        '6'
    } else if d == 7 {
        '7'
    } else if d == 8 {
        '8'
    } else {
        '9'
    }
}

/// A number in decimal digits, without leading zeros.
pub open spec fn decimal(n: nat) -> Seq<char>
    decreases n,
{
    if n < 10 {
        seq![digit(n)]
    } else {
        decimal(n / 10).push(digit(n % 10))
    }
}

/// The views of some strings.
pub open spec fn texts(strings: Seq<String>) -> Seq<Seq<char>> {
    Seq::new(strings.len(), |i: int| strings[i]@)
}

/// The record of node `i`, with its label, its value and its gradient as
/// given; for a computed node also a circle with the operator's sign. The
/// circle of node `i` is named by the digits of `i` and `999`.
pub open spec fn dot_node<T: Scalar>(g: GraphView<T>, i: int, data: Seq<char>, grad: Seq<char>) -> Seq<
    char,
> {
    "\n    "@ + decimal(i as nat) + " [label=\"{ "@ + g.nodes[i].id@ + " | data: "@ + data
        + " | grad: "@ + grad + " }\"]"@ + match g.nodes[i].op {
        Some(op) => "\n    "@ + decimal(i as nat) + "999 [label=\""@ + op.symbol()
            + "\" shape=circle]"@,
        None => Seq::empty(),
    }
}

/// The records of the first `n` nodes.
pub open spec fn dot_nodes<T: Scalar>(
    g: GraphView<T>,
    data: Seq<Seq<char>>,
    grad: Seq<Seq<char>>,
    n: int,
) -> Seq<char>
    decreases n,
{
    if n <= 0 {
        Seq::empty()
    } else {
        dot_nodes(g, data, grad, n - 1) + dot_node(g, n - 1, data[n - 1], grad[n - 1])
    }
}

/// No edge before edge `k` has the target of edge `k`.
pub open spec fn first_into(edges: Seq<(nat, nat)>, k: int) -> bool {
    forall|j: int| 0 <= j < k ==> (#[trigger] edges[j]).1 != edges[k].1
}

/// The arrow of edge `k`, from its source to the circle of its target; for
/// the first edge into a target also the arrow from the circle to the target.
pub open spec fn dot_edge(edges: Seq<(nat, nat)>, k: int) -> Seq<char> {
    "\n    "@ + decimal(edges[k].0) + " -> "@ + decimal(edges[k].1) + "999\n"@ + if first_into(
        edges,
        k,
    ) {
        "    "@ + decimal(edges[k].1) + "999 -> "@ + decimal(edges[k].1)
    } else {
        Seq::empty()
    }
}

/// The arrows of the first `n` edges.
pub open spec fn dot_edges(edges: Seq<(nat, nat)>, n: int) -> Seq<char>
    decreases n,
{
    if n <= 0 {
        Seq::empty()
    } else {
        dot_edges(edges, n - 1) + dot_edge(edges, n - 1)
    }
}

/// The whole diagram.
pub open spec fn dot_text<T: Scalar>(g: GraphView<T>, data: Seq<Seq<char>>, grad: Seq<Seq<char>>) -> Seq<
    char,
> {
    "digraph {\nrankdir=\"LR\"\nnode [shape=record]"@ + dot_nodes(g, data, grad, g.len() as int)
        + "\n"@ + dot_edges(g.edges(), g.edges().len() as int) + "\n}"@
}

/// One decimal digit as text.
fn digit_str(d: usize) -> (s: &'static str)
    requires
        d < 10,
    ensures
        s@ == seq![digit(d as nat)],
{
    proof {
        reveal_strlit("0");
        reveal_strlit("1");
        reveal_strlit("2");
        reveal_strlit("3");
        reveal_strlit("4");
        reveal_strlit("5");
        reveal_strlit("6");
        reveal_strlit("7");
        reveal_strlit("8");
        reveal_strlit("9");
    }
    let s = if d == 0 {
        "0"
    } else if d == 1 {
        "1"
    } else if d == 2 {
        "2"
    } else if d == 3 {
        "3"
    } else if d == 4 {
        "4"
    } else if d == 5 {
        "5"
    } else if d == 6 {
        "6"
    } else if d == 7 {
        "7"
    } else if d == 8 {
        "8"
    } else {
        "9"
    };
    assert(s@ =~= seq![digit(d as nat)]);
    s
}

/// A number in decimal digits.
pub fn to_decimal(n: usize) -> (s: String)
    ensures
        s@ == decimal(n as nat),
    decreases n,
{
    if n < 10 {
        String::from_str(digit_str(n))
    } else {
        let mut s = to_decimal(n / 10);
        s.append(digit_str(n % 10));
        assert(s@ =~= decimal(n as nat));
        s
    }
}

/// Whether `seen` holds `x`.
fn holds(seen: &Vec<usize>, x: usize) -> (b: bool)
    ensures
        b == seen@.contains(x),
{
    let mut i: usize = 0;
    while i < seen.len()
        invariant
            i <= seen@.len(),
            forall|j: int| 0 <= j < i ==> seen@[j] != x,
        decreases seen@.len() - i,
    {
        if seen[i] == x {
            return true;
        }
        i += 1;
    }
    false
}

impl<T: Scalar> ComputationGraph<T> {
    /// The record of one node.
    fn dot_node_text(&self, i: usize, data: &str, grad: &str) -> (line: String)
        requires
            i < self@.len(),
        ensures
            line@ == dot_node(self@, i as int, data@, grad@),
    {
        let number = to_decimal(i);
        let mut line = String::from_str("\n    ");
        line.append(number.as_str());
        line.append(" [label=\"{ ");
        line.append(self.get_node_id(i));
        line.append(" | data: ");
        line.append(data);
        line.append(" | grad: ");
        line.append(grad);
        line.append(" }\"]");
        match self.get_node_op(i) {
            Some(op) => {
                let mut circle = String::from_str("\n    ");
                circle.append(number.as_str());
                circle.append("999 [label=\"");
                circle.append(op.as_str());
                circle.append("\" shape=circle]");
                line.append(circle.as_str());
            },
            None => {
                assert(line@ + Seq::<char>::empty() =~= line@);
            },
        }
        line
    }

    /// The arrow, or the two arrows, of one edge.
    fn dot_edge_text(&self, k: usize, first: bool) -> (line: String)
        requires
            self.wf(),
            k < self@.edges().len(),
            first == first_into(self@.edges(), k as int),
        ensures
            line@ == dot_edge(self@.edges(), k as int),
    {
        let (source, target) = self.edge(k);
        let to = to_decimal(target);
        let mut line = String::from_str("\n    ");
        line.append(to_decimal(source).as_str());
        line.append(" -> ");
        line.append(to.as_str());
        line.append("999\n");
        if first {
            let mut from_circle = String::from_str("    ");
            from_circle.append(to.as_str());
            from_circle.append("999 -> ");
            from_circle.append(to.as_str());
            line.append(from_circle.as_str());
        } else {
            assert(line@ + Seq::<char>::empty() =~= line@);
        }
        line
    }

    /// The graph as a Graphviz diagram: a record for each node, with its
    /// label and with `data[i]` and `grad[i]` as the text of its value and of
    /// its gradient, a circle for each operator, and the arrows from operand
    /// to operator to result.
    pub fn dag_to_dot(&self, data: &[String], grad: &[String]) -> (content: String)
        requires
            self.wf(),
            data@.len() == self@.len(),
            grad@.len() == self@.len(),
        ensures
            content@ == dot_text(self@, texts(data@), texts(grad@)),
    {
        let mut content = String::from_str("digraph {\nrankdir=\"LR\"\nnode [shape=record]");
        let n = self.len();
        let mut i: usize = 0;
        while i < n
            invariant
                n == self@.len(),
                data@.len() == n,
                grad@.len() == n,
                i <= n,
                content@ == "digraph {\nrankdir=\"LR\"\nnode [shape=record]"@ + dot_nodes(
                    self@,
                    texts(data@),
                    texts(grad@),
                    i as int,
                ),
            decreases n - i,
        {
            let line = self.dot_node_text(i, data[i].as_str(), grad[i].as_str());
            let ghost head = "digraph {\nrankdir=\"LR\"\nnode [shape=record]"@;
            let ghost so_far = dot_nodes(self@, texts(data@), texts(grad@), i as int);
            content.append(line.as_str());
            i += 1;
            assert(content@ =~= head + (so_far + line@));
        }
        content.append("\n");
        let ghost nodes_part = content@;
        let m = self.edge_count();
        let mut seen: Vec<usize> = Vec::new();
        let mut k: usize = 0;
        while k < m
            invariant
                self.wf(),
                m == self@.edges().len(),
                k <= m,
                content@ == nodes_part + dot_edges(self@.edges(), k as int),
                forall|t: usize|
                    seen@.contains(t) <==> exists|j: int|
                        0 <= j < k && (#[trigger] self@.edges()[j]).1 == t,
            decreases m - k,
        {
            let (_, target) = self.edge(k);
            let first = !holds(&seen, target);
            if first {
                let ghost before = seen@;
                seen.push(target);
                assert forall|t: usize| seen@.contains(t) <==> exists|j: int|
                    0 <= j < k + 1 && (#[trigger] self@.edges()[j]).1 == t by {
                    if seen@.contains(t) {
                        let at = choose|at: int| 0 <= at < seen@.len() && seen@[at] == t;
                        if at < before.len() {
                            assert(before[at] == t);
                            assert(before.contains(t));
                        } else {
                            assert(self@.edges()[k as int].1 == t);
                        }
                    }
                    if exists|j: int| 0 <= j < k + 1 && (#[trigger] self@.edges()[j]).1 == t {
                        let j = choose|j: int| 0 <= j < k + 1 && (#[trigger] self@.edges()[j]).1 == t;
                        if j < k {
                            assert(before.contains(t));
                            let at = choose|at: int| 0 <= at < before.len() && before[at] == t;
                            assert(seen@[at] == t);
                        } else {
                            assert(seen@[before.len() as int] == t);
                        }
                    }
                }
            } else {
                assert forall|t: usize| seen@.contains(t) <==> exists|j: int|
                    0 <= j < k + 1 && (#[trigger] self@.edges()[j]).1 == t by {
                    if exists|j: int| 0 <= j < k + 1 && (#[trigger] self@.edges()[j]).1 == t {
                        let j = choose|j: int| 0 <= j < k + 1 && (#[trigger] self@.edges()[j]).1 == t;
                        if j == k {
                            assert(seen@.contains(target));
                        }
                    }
                }
            }
            let line = self.dot_edge_text(k, first);
            let ghost so_far = dot_edges(self@.edges(), k as int);
            content.append(line.as_str());
            k += 1;
            assert(content@ =~= nodes_part + (so_far + line@));
        }
        content.append("\n}");
        content
    }
}

} // verus!
