//! The dependency graph: files as nodes, imports as directed edges, held in a
//! `petgraph` graph.

use crate::reach::{edges_in_bounds, is_scc_decomposition};
use crate::text::position_of;
use petgraph::algo::tarjan_scc;
use petgraph::graph::{Graph, NodeIndex};
use petgraph::Directed;
use vstd::prelude::*;

verus! {

/// `petgraph::graph::Graph`, declared so that a graph can be held and handed
/// on. Nothing of its inside is known; what it holds is named by
/// `graph_nodes` and `graph_edges`.
#[verifier::external_type_specification]
#[verifier::external_body]
#[verifier::reject_recursive_types(N)]
#[verifier::reject_recursive_types(E)]
#[verifier::reject_recursive_types(Ty)]
#[verifier::reject_recursive_types(Ix)]
pub struct ExGraph<N, E, Ty, Ix>(Graph<N, E, Ty, Ix>);

/// `petgraph::Directed`, the marker of a graph with directed edges.
#[verifier::external_type_specification]
#[verifier::external_body]
pub struct ExDirected(Directed);

/// The node weights of a graph, by node index: the path of each file.
pub uninterp spec fn graph_nodes(graph: Graph<String, ()>) -> Seq<Seq<char>>;

/// The edges of a graph in the order in which they were added, each as the
/// indices of its source and its target.
pub uninterp spec fn graph_edges(graph: Graph<String, ()>) -> Seq<(int, int)>;

/// The largest number of nodes, and of edges, that a graph with 32-bit
/// indices takes.
pub const GRAPH_CAPACITY: usize = 0xffff_ffff;

/// Calls `petgraph::graph::Graph::new`. Trusted: the new graph has no node
/// and no edge.
#[verifier::external_body]
fn graph_new() -> (graph: Graph<String, ()>)
    ensures
        graph_nodes(graph) == Seq::<Seq<char>>::empty(),
        graph_edges(graph) == Seq::<(int, int)>::empty(),
{
    Graph::new()
}

/// Calls `petgraph::graph::Graph::node_count`. Trusted: it is the number of
/// node weights.
#[verifier::external_body]
fn graph_node_count(graph: &Graph<String, ()>) -> (count: usize)
    ensures
        count == graph_nodes(*graph).len(),
{
    graph.node_count()
}

/// The strongly connected components that `petgraph::algo::tarjan_scc` gives
/// for a graph of `nodes` nodes with the given edges, in the order in which it
/// gives them, each with its nodes in the order in which it lists them.
pub uninterp spec fn tarjan_components(nodes: nat, edges: Seq<(int, int)>) -> Seq<Seq<int>>;

/// The node indices of a list of components, as integers.
pub open spec fn components_view(components: Seq<Vec<usize>>) -> Seq<Seq<int>> {
    components.map_values(|c: Vec<usize>| c@.map_values(|v: usize| v as int))
}

/// Calls `petgraph::graph::Graph::edge_count`. Trusted: it is the number of
/// edges.
#[verifier::external_body]
fn graph_edge_count(graph: &Graph<String, ()>) -> (count: usize)
    ensures
        count == graph_edges(*graph).len(),
{
    graph.edge_count()
}

/// Calls `petgraph::graph::Graph::add_node`, which panics on a full graph.
/// Trusted: the node is appended with `path` as its weight, its index is the
/// number of nodes before the call, and the edges stay.
#[verifier::external_body]
fn graph_add_node(graph: &mut Graph<String, ()>, path: String) -> (index: usize)
    requires
        graph_nodes(*old(graph)).len() < GRAPH_CAPACITY,
    ensures
        index == graph_nodes(*old(graph)).len(),
        graph_nodes(*final(graph)) == graph_nodes(*old(graph)).push(path@),
        graph_edges(*final(graph)) == graph_edges(*old(graph)),
{
    graph.add_node(path).index()
}

/// Calls `petgraph::graph::Graph::add_edge`, which panics on a node that does
/// not exist and on a full graph. Trusted: the edge is appended, and the
/// nodes stay.
#[verifier::external_body]
fn graph_add_edge(graph: &mut Graph<String, ()>, from: usize, to: usize)
    requires
        from < graph_nodes(*old(graph)).len(),
        to < graph_nodes(*old(graph)).len(),
        graph_edges(*old(graph)).len() < GRAPH_CAPACITY,
    ensures
        graph_nodes(*final(graph)) == graph_nodes(*old(graph)),
        graph_edges(*final(graph)) == graph_edges(*old(graph)).push((from as int, to as int)),
{
    graph.add_edge(NodeIndex::new(from), NodeIndex::new(to), ());
}

/// Calls `petgraph::graph::Graph::contains_edge`. Trusted: it tells whether
/// an edge from `from` to `to` was added.
#[verifier::external_body]
fn graph_contains_edge(graph: &Graph<String, ()>, from: usize, to: usize) -> (present: bool)
    requires
        from < graph_nodes(*graph).len(),
        to < graph_nodes(*graph).len(),
    ensures
        present == graph_edges(*graph).contains((from as int, to as int)),
{
    graph.contains_edge(NodeIndex::new(from), NodeIndex::new(to))
}

/// Reads a node weight with `petgraph`'s index operator, which panics on a
/// node that does not exist. Trusted: it is the weight the node was added
/// with.
#[verifier::external_body]
fn graph_node_weight(graph: &Graph<String, ()>, index: usize) -> (path: String)
    requires
        index < graph_nodes(*graph).len(),
    ensures
        path@ == graph_nodes(*graph)[index as int],
{
    graph[NodeIndex::new(index)].clone()
}

/// Calls `petgraph::algo::tarjan_scc`. Trusted: the result depends on the
/// number of nodes and on the edges alone, and it is the decomposition of the
/// graph into its strongly connected components. The search is recursive: it
/// goes as deep as the longest chain of imports, and nothing here bounds the
/// stack that it needs.
#[verifier::external_body]
fn graph_components(graph: &Graph<String, ()>) -> (components: Vec<Vec<usize>>)
    requires
        edges_in_bounds(graph_nodes(*graph).len(), graph_edges(*graph)),
    ensures
        components_view(components@) == tarjan_components(
            graph_nodes(*graph).len(),
            graph_edges(*graph),
        ),
        is_scc_decomposition(
            graph_nodes(*graph).len(),
            graph_edges(*graph),
            components_view(components@),
        ),
{
    tarjan_scc(graph).into_iter().map(|c| c.into_iter().map(|n| n.index()).collect()).collect()
}

/// The mathematical value of a dependency graph.
pub struct GraphView {
    /// The path of each node, by node index.
    pub nodes: Seq<Seq<char>>,
    /// The edges in the order in which they were added, as pairs of node
    /// indices, importer first.
    pub edges: Seq<(int, int)>,
}

/// The nodes after `path` has been made a node: unchanged where it was one
/// already, else with `path` as the new last node.
pub open spec fn with_node(nodes: Seq<Seq<char>>, path: Seq<char>) -> Seq<Seq<char>> {
    if nodes.contains(path) {
        nodes
    } else {
        nodes.push(path)
    }
}

/// In a list without duplicates, an item is found where it stands.
pub proof fn lemma_index_of(list: Seq<Seq<char>>, item: Seq<char>, at: int)
    requires
        list.no_duplicates(),
        0 <= at < list.len(),
        list[at] == item,
    ensures
        list.index_of(item) == at,
{
    assert(list.contains(item));
}

/// Adding a node keeps the nodes distinct and the old indices in place.
pub proof fn lemma_with_node(nodes: Seq<Seq<char>>, path: Seq<char>)
    requires
        nodes.no_duplicates(),
    ensures
        with_node(nodes, path).no_duplicates(),
        with_node(nodes, path).contains(path),
        nodes.len() <= with_node(nodes, path).len() <= nodes.len() + 1,
        forall|i: int| 0 <= i < nodes.len() ==> with_node(nodes, path)[i] == nodes[i],
        0 <= with_node(nodes, path).index_of(path) < with_node(nodes, path).len(),
        with_node(nodes, path)[with_node(nodes, path).index_of(path)] == path,
{
    let after = with_node(nodes, path);
    if !nodes.contains(path) {
        assert(after[nodes.len() as int] == path);
        assert forall|i: int, j: int|
            0 <= i < after.len() && 0 <= j < after.len() && i != j implies after[i] != after[j] by {
            if i < nodes.len() && j < nodes.len() {
            } else if i < nodes.len() {
                assert(nodes.contains(after[i]));
            } else {
                assert(nodes.contains(after[j]));
            }
        }
    }
    assert(after.contains(path));
}

/// The directed graph of files and imports, with the table that finds the
/// node of a path.
pub struct DependencyGraph {
    graph: Graph<String, ()>,
    node_indices: Vec<String>,
}

impl View for DependencyGraph {
    type V = GraphView;

    closed spec fn view(&self) -> GraphView {
        GraphView { nodes: graph_nodes(self.graph), edges: graph_edges(self.graph) }
    }
}

impl DependencyGraph {
    /// The table of node indices lists the paths of the nodes, in order.
    pub closed spec fn index_agrees(&self) -> bool {
        self.node_indices.deep_view() == graph_nodes(self.graph)
    }

    /// The graph is well formed: the index table agrees with the nodes, no
    /// path has two nodes, and every edge joins two nodes of the graph.
    pub open spec fn wf(&self) -> bool {
        &&& self.index_agrees()
        &&& self@.nodes.no_duplicates()
        &&& edges_in_bounds(self@.nodes.len(), self@.edges)
    }

    /// The empty graph.
    pub fn new() -> (graph: DependencyGraph)
        ensures
            graph.wf(),
            graph@.nodes == Seq::<Seq<char>>::empty(),
            graph@.edges == Seq::<(int, int)>::empty(),
    {
        let graph = DependencyGraph { graph: graph_new(), node_indices: Vec::new() };
        assert(graph.node_indices.deep_view() =~= Seq::<Seq<char>>::empty());
        graph
    }

    /// The number of nodes.
    pub fn node_count(&self) -> (count: usize)
        ensures
            count == self@.nodes.len(),
    {
        graph_node_count(&self.graph)
    }

    /// The number of edges.
    pub fn edge_count(&self) -> (count: usize)
        ensures
            count == self@.edges.len(),
    {
        graph_edge_count(&self.graph)
    }

    /// The index of the node of `path`, if the graph has one.
    pub fn node_index(&self, path: &str) -> (index: Option<usize>)
        requires
            self.wf(),
        ensures
            index matches Some(i) ==> i < self@.nodes.len() && self@.nodes[i as int] == path@,
            index is None <==> !self@.nodes.contains(path@),
    {
        let found = position_of(&self.node_indices, path);
        proof {
            let nodes = self.node_indices.deep_view();
            assert forall|j: int| 0 <= j < nodes.len() implies nodes[j]
                == self.node_indices[j]@ by {}
            match found {
                Some(i) => {
                    assert(nodes[i as int] == path@);
                },
                None => {
                    assert(!nodes.contains(path@));
                },
            }
        }
        found
    }

    /// The path of a node.
    pub fn node_path(&self, index: usize) -> (path: String)
        requires
            index < self@.nodes.len(),
        ensures
            path@ == self@.nodes[index as int],
    {
        graph_node_weight(&self.graph, index)
    }

    /// Makes `path` a node unless it is one already, and returns its index.
    pub fn ensure_node(&mut self, path: &str) -> (index: usize)
        requires
            old(self).wf(),
            old(self)@.nodes.contains(path@) || old(self)@.nodes.len() < GRAPH_CAPACITY,
        ensures
            final(self).wf(),
            final(self)@.nodes == with_node(old(self)@.nodes, path@),
            final(self)@.edges == old(self)@.edges,
            index < final(self)@.nodes.len(),
            final(self)@.nodes[index as int] == path@,
    {
        match self.node_index(path) {
            Some(index) => index,
            None => {
                let ghost before = self.node_indices.deep_view();
                let index = graph_add_node(&mut self.graph, path.to_owned());
                self.node_indices.push(path.to_owned());
                proof {
                    assert(self.node_indices.deep_view() =~= before.push(path@));
                    let nodes = self@.nodes;
                    assert forall|i: int, j: int|
                        0 <= i < nodes.len() && 0 <= j < nodes.len() && i != j implies nodes[i]
                        != nodes[j] by {
                        if i < before.len() && j < before.len() {
                        } else if i < before.len() {
                            assert(before.contains(nodes[i]));
                        } else {
                            assert(before.contains(nodes[j]));
                        }
                    }
                }
                index
            },
        }
    }

    /// Adds an edge from node `from` to node `to`.
    pub fn add_edge(&mut self, from: usize, to: usize)
        requires
            old(self).wf(),
            from < old(self)@.nodes.len(),
            to < old(self)@.nodes.len(),
            old(self)@.edges.len() < GRAPH_CAPACITY,
        ensures
            final(self).wf(),
            final(self)@.nodes == old(self)@.nodes,
            final(self)@.edges == old(self)@.edges.push((from as int, to as int)),
    {
        graph_add_edge(&mut self.graph, from, to);
    }

    /// Whether the graph has an edge from node `from` to node `to`.
    pub fn has_edge(&self, from: usize, to: usize) -> (present: bool)
        requires
            from < self@.nodes.len(),
            to < self@.nodes.len(),
        ensures
            present == self@.edges.contains((from as int, to as int)),
    {
        graph_contains_edge(&self.graph, from, to)
    }

    /// The strongly connected components of the graph, as lists of node
    /// indices.
    pub fn components(&self) -> (components: Vec<Vec<usize>>)
        requires
            self.wf(),
        ensures
            components_view(components@) == tarjan_components(self@.nodes.len(), self@.edges),
            is_scc_decomposition(self@.nodes.len(), self@.edges, components_view(components@)),
    {
        graph_components(&self.graph)
    }
}

} // verus!
