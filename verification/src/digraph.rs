//! The directed graphs of `petgraph`, over string nodes.

use petgraph::graph::DiGraph;
use petgraph::graph::NodeIndex;
use vstd::prelude::*;

verus! {

/// `petgraph::graph::Graph`, the type behind `DiGraph`.
#[verifier::external_type_specification]
#[verifier::external_body]
#[verifier::reject_recursive_types(N)]
#[verifier::reject_recursive_types(E)]
#[verifier::reject_recursive_types(Ty)]
#[verifier::reject_recursive_types(Ix)]
pub struct ExGraph<N, E, Ty, Ix>(petgraph::graph::Graph<N, E, Ty, Ix>);

/// `petgraph::Directed`, the marker of directed graphs.
#[verifier::external_type_specification]
#[verifier::external_body]
pub struct ExDirected(petgraph::Directed);

/// The weights of the nodes of a graph, by node index.
pub uninterp spec fn node_names(g: DiGraph<String, ()>) -> Seq<Seq<char>>;

/// The edges of a graph as pairs of node indices, in the order in which they were added.
pub uninterp spec fn edge_list(g: DiGraph<String, ()>) -> Seq<(int, int)>;

/// `DiGraph::new` makes a graph without nodes and without edges.
#[verifier::external_body]
pub(crate) fn new_graph() -> (g: DiGraph<String, ()>)
    ensures
        node_names(g) == Seq::<Seq<char>>::empty(),
        edge_list(g) == Seq::<(int, int)>::empty(),
{
    DiGraph::new()
}

/// `Graph::add_node` appends a node with the given weight and returns its index. It panics when
/// the graph already holds as many nodes as its 32-bit index type can number.
#[verifier::external_body]
pub(crate) fn add_node(g: &mut DiGraph<String, ()>, name: String) -> (index: usize)
    requires
        node_names(*old(g)).len() < u32::MAX,
    ensures
        index == node_names(*old(g)).len(),
        node_names(*final(g)) == node_names(*old(g)).push(name@),
        edge_list(*final(g)) == edge_list(*old(g)),
{
    g.add_node(name).index()
}

/// `Graph::add_edge` appends an edge between two nodes that exist. It panics when a node does
/// not exist, or when the graph already holds as many edges as its 32-bit index type can number.
#[verifier::external_body]
pub(crate) fn add_edge(g: &mut DiGraph<String, ()>, from: usize, to: usize)
    requires
        from < node_names(*old(g)).len(),
        to < node_names(*old(g)).len(),
        edge_list(*old(g)).len() < u32::MAX,
    ensures
        node_names(*final(g)) == node_names(*old(g)),
        edge_list(*final(g)) == edge_list(*old(g)).push((from as int, to as int)),
{
    g.add_edge(NodeIndex::new(from), NodeIndex::new(to), ());
}

/// Indexing a graph by the index of a node that exists gives the weight of that node.
#[verifier::external_body]
pub(crate) fn node_name(g: &DiGraph<String, ()>, index: usize) -> (name: &String)
    requires
        index < node_names(*g).len(),
    ensures
        name@ == node_names(*g)[index as int],
{
    &g[NodeIndex::new(index)]
}

/// A walk along edges: each node is the source of an edge to the next one.
pub open spec fn is_walk(edges: Seq<(int, int)>, walk: Seq<int>) -> bool {
    forall|i: int|
        0 <= i < walk.len() - 1 ==> edges.contains((#[trigger] walk[i], walk[i + 1]))
}

/// A node lies on a cycle when a walk of one edge or more leads from it back to it.
pub open spec fn on_cycle(edges: Seq<(int, int)>, node: int) -> bool {
    exists|walk: Seq<int>|
        #[trigger] is_walk(edges, walk) && walk.len() >= 2 && walk.first() == node && walk.last()
            == node
}

/// A list of all nodes below `count`, each once, in which every edge leads forward.
pub open spec fn is_topological(count: nat, edges: Seq<(int, int)>, order: Seq<usize>) -> bool {
    &&& order.len() == count
    &&& order.no_duplicates()
    &&& forall|i: int| 0 <= i < order.len() ==> #[trigger] order[i] < count
    &&& forall|i: int, j: int|
        0 <= i < order.len() && 0 <= j < order.len() && edges.contains(
            (#[trigger] order[i] as int, #[trigger] order[j] as int),
        ) ==> i < j
}

/// The sources of the edges that lead to `node`, the edge that was added last first.
pub open spec fn incoming(edges: Seq<(int, int)>, node: int) -> Seq<int>
    decreases edges.len(),
{
    if edges.len() == 0 {
        Seq::empty()
    } else if edges.last().1 == node {
        seq![edges.last().0] + incoming(edges.drop_last(), node)
    } else {
        incoming(edges.drop_last(), node)
    }
}

/// `petgraph::algo::toposort` lists every node of an acyclic graph, each before its successors.
/// Of a graph with a cycle it returns the `Cycle` error, whose `node_id` lies on a cycle.
#[verifier::external_body]
pub(crate) fn toposort(g: &DiGraph<String, ()>) -> (r: Result<Vec<usize>, usize>)
    ensures
        match r {
            Ok(order) => is_topological(node_names(*g).len(), edge_list(*g), order@),
            Err(node) => node < node_names(*g).len() && on_cycle(edge_list(*g), node as int),
        },
{
    match petgraph::algo::toposort(g, None) {
        Ok(order) => Ok(order.into_iter().map(|node| node.index()).collect()),
        Err(cycle) => Err(cycle.node_id().index()),
    }
}

/// `Graph::neighbors_directed` with the direction `Incoming` gives the sources of the edges that
/// lead to a node, in reverse order of their addition.
#[verifier::external_body]
pub(crate) fn incoming_neighbors(g: &DiGraph<String, ()>, node: usize) -> (r: Vec<usize>)
    requires
        node < node_names(*g).len(),
    ensures
        r@.map_values(|i: usize| i as int) == incoming(edge_list(*g), node as int),
{
    g.neighbors_directed(NodeIndex::new(node), petgraph::Direction::Incoming)
        .map(|source| source.index())
        .collect()
}

} // verus!
