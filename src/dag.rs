//! The acyclic graph of daggy that holds the "needs" edges, seen through the
//! list of its edges and its number of nodes.
use vstd::prelude::*;

use crate::paths::{acyclic, edge_rel, reaches};
use daggy::petgraph::graph::NodeIndex;
use daggy::Dag;

verus! {

/// The graph that the dependency graph keeps its edges in: a daggy `Dag`,
/// which refuses an edge that would close a cycle. What a node stands for is
/// kept beside it, under the node's index.
#[verifier::external_body]
pub struct DependencyDag {
    dag: Dag<(), ()>,
}

/// The edges of a graph, each as (source, target), in the order of insertion.
pub uninterp spec fn dag_edges(g: DependencyDag) -> Seq<(nat, nat)>;

/// The number of nodes of a graph; they are numbered from zero.
pub uninterp spec fn dag_node_count(g: DependencyDag) -> nat;

/// A direction along the edges.
pub enum Direction {
    /// From a node to the nodes that it needs.
    Outgoing,
    /// From a node to the nodes that need it.
    Incoming,
}

/// `a` has an edge to some node.
pub open spec fn has_out_edge(edges: Seq<(nat, nat)>, a: nat) -> bool {
    exists|b: nat| #[trigger] edges.contains((a, b))
}

/// Each element is smaller than the next.
pub open spec fn increasing(s: Seq<usize>) -> bool {
    forall|i: int, j: int| 0 <= i < j < s.len() ==> s[i] < s[j]
}

/// Relies on `Dag::new`: a new graph has neither nodes nor edges.
#[verifier::external_body]
pub(crate) fn new_dag() -> (g: DependencyDag)
    ensures
        dag_edges(g) == Seq::<(nat, nat)>::empty(),
        dag_node_count(g) == 0,
{
    DependencyDag { dag: Dag::new() }
}

/// Relies on `Dag::add_node` (petgraph's `Graph::add_node`): the new node takes
/// the next index; it panics when the index type is full.
#[verifier::external_body]
pub(crate) fn add_node(g: &mut DependencyDag) -> (ix: usize)
    requires
        dag_node_count(*old(g)) < u32::MAX,
    ensures
        ix == dag_node_count(*old(g)),
        dag_node_count(*final(g)) == dag_node_count(*old(g)) + 1,
        dag_edges(*final(g)) == dag_edges(*old(g)),
{
    g.dag.add_node(()).index()
}

/// Relies on `Dag::add_edge`: the edge `a -> b` is refused exactly when `a`
/// can already be reached from `b` (with `a == b` among those cases), and is
/// appended to the edges otherwise. petgraph panics on an index out of range
/// or when the edge index type is full.
#[verifier::external_body]
pub(crate) fn add_edge(g: &mut DependencyDag, a: usize, b: usize) -> (added: bool)
    requires
        a < dag_node_count(*old(g)),
        b < dag_node_count(*old(g)),
        dag_edges(*old(g)).len() < u32::MAX,
        acyclic(edge_rel(dag_edges(*old(g)))),
    ensures
        added == !reaches(edge_rel(dag_edges(*old(g))), b as nat, a as nat),
        added ==> dag_edges(*final(g)) == dag_edges(*old(g)).push((a as nat, b as nat)),
        !added ==> dag_edges(*final(g)) == dag_edges(*old(g)),
        dag_node_count(*final(g)) == dag_node_count(*old(g)),
{
    g.dag.add_edge(NodeIndex::new(a), NodeIndex::new(b), ()).is_ok()
}

/// Relies on petgraph's `Graph::neighbors_directed`: the nodes at the other
/// end of the edges that leave (`Outgoing`) or enter (`Incoming`) node `ix`.
#[verifier::external_body]
pub(crate) fn neighbors(g: &DependencyDag, ix: usize, dir: Direction) -> (r: Vec<usize>)
    requires
        ix < dag_node_count(*g),
    ensures
        forall|j: usize|
            r@.contains(j) <==> match dir {
                Direction::Outgoing => dag_edges(*g).contains((ix as nat, j as nat)),
                Direction::Incoming => dag_edges(*g).contains((j as nat, ix as nat)),
            },
{
    let dir = match dir {
        Direction::Outgoing => daggy::petgraph::Direction::Outgoing,
        Direction::Incoming => daggy::petgraph::Direction::Incoming,
    };
    g.dag.graph().neighbors_directed(NodeIndex::new(ix), dir).map(|n| n.index()).collect()
}

/// Relies on petgraph's `Graph::externals` with `Outgoing`: the nodes without
/// an outgoing edge, in increasing order.
#[verifier::external_body]
pub(crate) fn sinks(g: &DependencyDag) -> (r: Vec<usize>)
    ensures
        increasing(r@),
        forall|j: usize|
            r@.contains(j) <==> (dag_node_count(*g) > j && !has_out_edge(dag_edges(*g), j as nat)),
{
    g.dag.graph().externals(daggy::petgraph::Direction::Outgoing).map(|n| n.index()).collect()
}

} // verus!
