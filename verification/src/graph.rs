//! Directed graphs of the `petgraph` crate, used to order chosen alternatives.

use vstd::prelude::*;
use petgraph::graph::NodeIndex;
use petgraph::Graph;

verus! {

#[verifier::external_type_specification]
#[verifier::external_body]
#[verifier::reject_recursive_types(N)]
#[verifier::reject_recursive_types(E)]
#[verifier::reject_recursive_types(Ty)]
#[verifier::reject_recursive_types(Ix)]
pub struct ExGraph<N, E, Ty, Ix>(Graph<N, E, Ty, Ix>);

#[verifier::external_type_specification]
#[verifier::external_body]
pub struct ExDirected(petgraph::Directed);

/// The node weights of an order graph, by node index.
pub uninterp spec fn graph_nodes(g: Graph<(usize, usize), bool>) -> Seq<(usize, usize)>;

/// The edges of an order graph, as (source, target) node indices, in the order they were added.
pub uninterp spec fn graph_edges(g: Graph<(usize, usize), bool>) -> Seq<(usize, usize)>;

/// Largest number of nodes or edges a graph with the default index type holds.
pub const GRAPH_CAPACITY: usize = 4294967295;

/// `order` lists every node `0..n` once, each before the targets of its edges.
pub open spec fn is_topological_order(order: Seq<usize>, n: nat, edges: Seq<(usize, usize)>) -> bool {
    &&& order.len() == n
    &&& order.no_duplicates()
    &&& forall|i: int| 0 <= i < order.len() ==> #[trigger] order[i] < n
    &&& forall|k: int| 0 <= k < edges.len() ==> exists|i: int, j: int|
            0 <= i < j < order.len() && order[i] == (#[trigger] edges[k]).0 && order[j] == edges[k].1
}

/// `Graph::new`: a directed graph without nodes or edges.
#[verifier::external_body]
pub fn order_graph_new() -> (g: Graph<(usize, usize), bool>)
    ensures
        graph_nodes(g) == Seq::<(usize, usize)>::empty(),
        graph_edges(g) == Seq::<(usize, usize)>::empty(),
{
    Graph::new()
}

/// `Graph::add_node`: appends a node of weight `w`; its index is the former
/// node count. It panics when the count reaches the index type's maximum.
#[verifier::external_body]
pub fn order_graph_add_node(g: &mut Graph<(usize, usize), bool>, w: (usize, usize)) -> (r: usize)
    requires
        graph_nodes(*old(g)).len() < GRAPH_CAPACITY,
    ensures
        r == graph_nodes(*old(g)).len(),
        graph_nodes(*final(g)) == graph_nodes(*old(g)).push(w),
        graph_edges(*final(g)) == graph_edges(*old(g)),
{
    g.add_node(w).index()
}

/// `Graph::add_edge`: appends the edge `a -> b`. It panics when a node does
/// not exist or the edge count reaches the index type's maximum.
#[verifier::external_body]
pub fn order_graph_add_edge(g: &mut Graph<(usize, usize), bool>, a: usize, b: usize)
    requires
        a < graph_nodes(*old(g)).len(),
        b < graph_nodes(*old(g)).len(),
        graph_edges(*old(g)).len() < GRAPH_CAPACITY,
    ensures
        graph_nodes(*final(g)) == graph_nodes(*old(g)),
        graph_edges(*final(g)) == graph_edges(*old(g)).push((a, b)),
{
    g.add_edge(NodeIndex::new(a), NodeIndex::new(b), true);
}

/// `Graph::raw_nodes`, read at index `i`: the weight of node `i`.
#[verifier::external_body]
pub fn order_graph_weight(g: &Graph<(usize, usize), bool>, i: usize) -> (r: (usize, usize))
    requires
        i < graph_nodes(*g).len(),
    ensures
        r == graph_nodes(*g)[i as int],
{
    g.raw_nodes()[i].weight
}

/// `petgraph::algo::toposort`: when the graph is acyclic, every node once,
/// each before its successors; otherwise no such order exists.
#[verifier::external_body]
pub fn order_graph_toposort(g: &Graph<(usize, usize), bool>) -> (r: Option<Vec<usize>>)
    ensures
        r matches Some(order) ==> is_topological_order(order@, graph_nodes(*g).len(), graph_edges(*g)),
        r is None ==> !exists|o: Seq<usize>| is_topological_order(o, graph_nodes(*g).len(), graph_edges(*g)),
{
    match petgraph::algo::toposort(&*g, None) {
        Ok(order) => Some(order.iter().map(|v| v.index()).collect()),
        Err(_) => None,
    }
}

} // verus!
