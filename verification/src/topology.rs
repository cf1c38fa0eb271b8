//! The edge set of a computation graph, kept in a `daggy::Dag`.
//!
//! The graph itself and the functions that touch it are trusted: Verus reads
//! their contracts and not their bodies. Each contract says what the source of
//! daggy and petgraph shows of the one function that the body calls. The
//! contracts speak of three names: what a graph holds, dealt out by node and
//! by edge, and what a walker has left.

use daggy::petgraph::Direction;
use daggy::{Dag, EdgeIndex, NodeIndex, Parents, Walker, WouldCycle};
use crate::engine::Empty;
use vstd::prelude::*;

verus! {

/// A `daggy::Dag<Empty, Empty, u32>`. Verus sees none of it; the two names
/// below say what it holds.
#[verifier::external_body]
pub struct Topology {
    dag: Dag<Empty, Empty, u32>,
}

/// A `daggy::Parents` walker: a cursor into the list of edges that enter one
/// node. It borrows nothing from the graph it was made for.
#[verifier::external_body]
pub struct ParentWalk {
    walk: Parents<Empty, Empty, u32>,
}

/// `daggy::WouldCycle`, the error of `Dag::add_edge`.
#[verifier::external_type_specification]
#[verifier::external_body]
#[verifier::reject_recursive_types(E)]
pub struct ExWouldCycle<E>(WouldCycle<E>);

/// For each node, by index, the sources of the edges that enter it, in the
/// order in which a `Parents` walker hands them out.
pub uninterp spec fn dag_parents(d: Topology) -> Seq<Seq<nat>>;

/// The edges as `(source, target)`, in the order of their indices.
pub uninterp spec fn dag_edges(d: Topology) -> Seq<(nat, nat)>;

/// The sources that a walker has yet to hand out when it is stepped through `d`.
pub uninterp spec fn walk_rest(w: ParentWalk, d: Topology) -> Seq<nat>;

/// The index that petgraph keeps for "no node" and "no edge": the largest `u32`.
pub const INDEX_END: usize = 0xFFFF_FFFF;

/// `path` leads along edges from its first node to its last.
pub open spec fn is_path(parents: Seq<Seq<nat>>, path: Seq<nat>) -> bool {
    &&& path.len() >= 1
    &&& forall|k: int| 0 <= k < path.len() ==> (#[trigger] path[k]) < parents.len()
    &&& forall|k: int|
        0 <= k < path.len() - 1 ==> parents[path[k + 1] as int].contains(#[trigger] path[k])
}

/// Some path leads from `from` to `to`; a node reaches itself.
pub open spec fn connected(parents: Seq<Seq<nat>>, from: nat, to: nat) -> bool {
    exists|path: Seq<nat>| #[trigger]
        is_path(parents, path) && path.first() == from && path.last() == to
}

/// Some edge leaves `node`.
pub open spec fn has_child(parents: Seq<Seq<nat>>, node: nat) -> bool {
    exists|j: int| 0 <= j < parents.len() && (#[trigger] parents[j]).contains(node)
}

impl Topology {
    /// `Dag::new`: a graph without nodes or edges.
    #[verifier::external_body]
    pub(crate) fn new() -> (d: Topology)
        ensures
            dag_parents(d) == Seq::<Seq<nat>>::empty(),
            dag_edges(d) == Seq::<(nat, nat)>::empty(),
    {
        Topology { dag: Dag::new() }
    }

    /// `Dag::add_node`: the new node takes the next index and has no edges.
    /// petgraph panics when the index would be the largest `u32`.
    #[verifier::external_body]
    pub(crate) fn add_node(&mut self) -> (index: usize)
        requires
            dag_parents(*old(self)).len() < INDEX_END,
        ensures
            index == dag_parents(*old(self)).len(),
            dag_parents(*final(self)) == dag_parents(*old(self)).push(Seq::empty()),
            dag_edges(*final(self)) == dag_edges(*old(self)),
    {
        self.dag.add_node(Empty).index()
    }

    /// `Dag::add_edge`, for the edge `from -> to`. daggy refuses the edge, and
    /// leaves the graph as it was, exactly when `to` already reaches `from`.
    /// Otherwise petgraph appends it to the edge array and puts it at the head
    /// of the list of edges that enter `to`. It panics on a node that does not
    /// exist and when the edge's index would be the largest `u32`.
    #[verifier::external_body]
    pub(crate) fn add_edge(&mut self, from: usize, to: usize) -> (r: Result<
        usize,
        WouldCycle<Empty>,
    >)
        requires
            from < dag_parents(*old(self)).len(),
            to < dag_parents(*old(self)).len(),
            dag_edges(*old(self)).len() < INDEX_END,
        ensures
            r is Err <==> connected(dag_parents(*old(self)), to as nat, from as nat),
            r is Err ==> dag_parents(*final(self)) == dag_parents(*old(self)) && dag_edges(
                *final(self),
            ) == dag_edges(*old(self)),
            r is Ok ==> r->Ok_0 == dag_edges(*old(self)).len(),
            r is Ok ==> dag_edges(*final(self)) == dag_edges(*old(self)).push(
                (from as nat, to as nat),
            ),
            r is Ok ==> dag_parents(*final(self)) == dag_parents(*old(self)).update(
                to as int,
                seq![from as nat] + dag_parents(*old(self))[to as int],
            ),
    {
        match self.dag.add_edge(NodeIndex::new(from), NodeIndex::new(to), Empty) {
            Ok(edge) => Ok(edge.index()),
            Err(refused) => Err(refused),
        }
    }

    /// `Dag::parents`: a walker that stands before the first edge that enters
    /// `child`.
    #[verifier::external_body]
    pub(crate) fn parents(&self, child: usize) -> (w: ParentWalk)
        requires
            child < dag_parents(*self).len(),
        ensures
            walk_rest(w, *self) == dag_parents(*self)[child as int],
    {
        ParentWalk { walk: self.dag.parents(NodeIndex::new(child)) }
    }

    /// The first edge that leaves `node`, as petgraph's `Node::next_edge` gives
    /// it from `Dag::raw_nodes`: `INDEX_END` exactly when no edge leaves the node,
    /// otherwise the index of such an edge.
    #[verifier::external_body]
    pub(crate) fn first_outgoing(&self, node: usize) -> (edge: usize)
        requires
            node < dag_parents(*self).len(),
        ensures
            edge == INDEX_END <==> !has_child(dag_parents(*self), node as nat),
            edge != INDEX_END ==> edge < dag_edges(*self).len() && dag_edges(*self)[edge as int].0
                == node,
    {
        self.dag.raw_nodes()[node].next_edge(Direction::Outgoing).index()
    }

    /// `Dag::edge_count`.
    #[verifier::external_body]
    pub(crate) fn edge_count(&self) -> (n: usize)
        ensures
            n == dag_edges(*self).len(),
    {
        self.dag.edge_count()
    }

    /// `Dag::edge_endpoints`: source and target of the edge with this index.
    #[verifier::external_body]
    pub(crate) fn edge_endpoints(&self, edge: usize) -> (ends: Option<(usize, usize)>)
        requires
            edge < dag_edges(*self).len(),
        ensures
            ends is Some,
            ends matches Some(pair) ==> (pair.0 as nat, pair.1 as nat) == dag_edges(*self)[edge as int],
            ends matches Some(pair) ==> pair.0 < dag_parents(*self).len(),
            ends matches Some(pair) ==> pair.1 < dag_parents(*self).len(),
    {
        self.dag.edge_endpoints(EdgeIndex::new(edge)).map(|(a, b)| (a.index(), b.index()))
    }
}

impl ParentWalk {
    /// `Walker::walk_next` of `daggy::Parents`: hands out the next source, if
    /// one is left, and moves past it.
    #[verifier::external_body]
    pub(crate) fn walk_next(&mut self, d: &Topology) -> (next: Option<usize>)
        ensures
            walk_rest(*old(self), *d).len() == 0 ==> next is None && walk_rest(*final(self), *d)
                == walk_rest(*old(self), *d),
            walk_rest(*old(self), *d).len() > 0 ==> next == Some(
                walk_rest(*old(self), *d)[0] as usize,
            ) && walk_rest(*final(self), *d) == walk_rest(*old(self), *d).skip(1),
    {
        self.walk.walk_next(&d.dag).map(|(_, source)| source.index())
    }
}

} // verus!
