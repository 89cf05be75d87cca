//! Graph kernels over compressed sparse rows: building the rows from an edge
//! list, renaming nodes by degree, and counting triangles range by range.
use vstd::prelude::*;

pub mod actions;
pub mod csr;
pub mod graph;
pub mod input;
pub mod relabel;
pub mod triangle_count;

use crate::graph::{id_bound, total_slots, CsrLayout, DirectedCsrGraph, EdgeList, UndirectedCsrGraph};

verus! {

/// A node id.
pub type Node = usize;

/// A node id as an index.
pub fn as_usize(node: Node) -> (r: usize)
    ensures
        r == node,
{
    node
}

/// Counts of a graph.
pub trait Graph {
    spec fn valid(&self) -> bool;

    spec fn nodes(&self) -> nat;

    spec fn edges(&self) -> nat;

    fn node_count(&self) -> (r: Node)
        requires
            self.valid(),
        ensures
            r == self.nodes(),
    ;

    fn edge_count(&self) -> (r: Node)
        requires
            self.valid(),
        ensures
            r == self.edges(),
    ;
}

/// A graph whose nodes each have one neighbour list.
pub trait UndirectedGraph: Graph {
    spec fn adjacent(&self, node: int) -> Seq<Node>;

    fn degree(&self, node: Node) -> (r: Node)
        requires
            self.valid(),
            node < self.nodes(),
        ensures
            r == self.adjacent(node as int).len(),
    ;

    fn neighbors(&self, node: Node) -> (r: &[Node])
        requires
            self.valid(),
            node < self.nodes(),
        ensures
            r@ == self.adjacent(node as int),
    ;
}

/// A graph whose nodes each have out- and in-neighbour lists.
pub trait DirectedGraph: Graph {
    spec fn out_adjacent(&self, node: int) -> Seq<Node>;

    spec fn in_adjacent(&self, node: int) -> Seq<Node>;

    fn out_degree(&self, node: Node) -> (r: Node)
        requires
            self.valid(),
            node < self.nodes(),
        ensures
            r == self.out_adjacent(node as int).len(),
    ;

    fn out_neighbors(&self, node: Node) -> (r: &[Node])
        requires
            self.valid(),
            node < self.nodes(),
        ensures
            r@ == self.out_adjacent(node as int),
    ;

    fn in_degree(&self, node: Node) -> (r: Node)
        requires
            self.valid(),
            node < self.nodes(),
        ensures
            r == self.in_adjacent(node as int).len(),
    ;

    fn in_neighbors(&self, node: Node) -> (r: &[Node])
        requires
            self.valid(),
            node < self.nodes(),
        ensures
            r@ == self.in_adjacent(node as int),
    ;
}

impl Graph for UndirectedCsrGraph {
    open spec fn valid(&self) -> bool {
        self.wf()
    }

    open spec fn nodes(&self) -> nat {
        self.csr.nodes()
    }

    open spec fn edges(&self) -> nat {
        self.edges as nat
    }

    fn node_count(&self) -> (r: Node) {
        self.csr.node_count()
    }

    fn edge_count(&self) -> (r: Node) {
        self.edges
    }
}

impl UndirectedGraph for UndirectedCsrGraph {
    open spec fn adjacent(&self, node: int) -> Seq<Node> {
        self.csr.adj(node)
    }

    fn degree(&self, node: Node) -> (r: Node) {
        self.csr.degree(node)
    }

    fn neighbors(&self, node: Node) -> (r: &[Node]) {
        self.csr.neighbors(node)
    }
}

impl Graph for DirectedCsrGraph {
    open spec fn valid(&self) -> bool {
        self.wf()
    }

    open spec fn nodes(&self) -> nat {
        self.out.nodes()
    }

    open spec fn edges(&self) -> nat {
        self.out.targets@.len()
    }

    fn node_count(&self) -> (r: Node) {
        self.out.node_count()
    }

    fn edge_count(&self) -> (r: Node) {
        self.out.targets.len()
    }
}

impl DirectedGraph for DirectedCsrGraph {
    open spec fn out_adjacent(&self, node: int) -> Seq<Node> {
        self.out.adj(node)
    }

    open spec fn in_adjacent(&self, node: int) -> Seq<Node> {
        self.inc.adj(node)
    }

    fn out_degree(&self, node: Node) -> (r: Node) {
        self.out.degree(node)
    }

    fn out_neighbors(&self, node: Node) -> (r: &[Node]) {
        self.out.neighbors(node)
    }

    fn in_degree(&self, node: Node) -> (r: Node) {
        self.inc.degree(node)
    }

    fn in_neighbors(&self, node: Node) -> (r: &[Node]) {
        self.inc.neighbors(node)
    }
}

/// A graph type that can be built from an edge list.
pub trait FromEdgeList: Sized {
    /// The graph holds exactly the edges of `edges`, laid out as `layout` asks.
    spec fn built_from_edges(&self, edges: Seq<(usize, usize)>, layout: CsrLayout) -> bool;

    /// The edge lists this graph type can hold.
    spec fn fits(edges: Seq<(usize, usize)>) -> bool;

    fn from_edges(edge_list: &EdgeList, layout: CsrLayout) -> (r: Result<Self, Error>)
        ensures
            Self::fits(edge_list.edges@) ==> (r matches Ok(g) && g.built_from_edges(
                edge_list.edges@,
                layout,
            )),
            !Self::fits(edge_list.edges@) ==> r is Err,
    ;
}

impl FromEdgeList for UndirectedCsrGraph {
    open spec fn built_from_edges(&self, edges: Seq<(usize, usize)>, layout: CsrLayout) -> bool {
        self.built_from(edges, layout)
    }

    open spec fn fits(edges: Seq<(usize, usize)>) -> bool {
        id_bound(edges) < usize::MAX && total_slots(edges, true, true) <= usize::MAX
    }

    fn from_edges(edge_list: &EdgeList, layout: CsrLayout) -> (r: Result<Self, Error>) {
        UndirectedCsrGraph::from_edge_list(edge_list, layout)
    }
}

impl FromEdgeList for DirectedCsrGraph {
    open spec fn built_from_edges(&self, edges: Seq<(usize, usize)>, layout: CsrLayout) -> bool {
        self.built_from(edges, layout)
    }

    open spec fn fits(edges: Seq<(usize, usize)>) -> bool {
        id_bound(edges) < usize::MAX
    }

    fn from_edges(edge_list: &EdgeList, layout: CsrLayout) -> (r: Result<Self, Error>) {
        DirectedCsrGraph::from_edge_list(edge_list, layout)
    }
}

/// Builds a graph of type `G` with ascending neighbour lists.
pub fn create_graph<G: FromEdgeList>(edge_list: EdgeList) -> (r: Result<G, Error>)
    ensures
        G::fits(edge_list.edges@) ==> (r matches Ok(g) && g.built_from_edges(
            edge_list.edges@,
            CsrLayout::Sorted,
        )),
        !G::fits(edge_list.edges@) ==> r is Err,
{
    G::from_edges(&edge_list, CsrLayout::Sorted)
}

/// Why building or querying a graph failed.
#[derive(Clone, Copy, Debug, PartialEq, Eq, Structural)]
pub enum Error {
    /// A node id is too large for the node id type.
    IdOverflow,
    /// The neighbour storage cannot be sized.
    AllocFailure,
    /// A node id is not below the node count.
    OutOfRange,
    /// The graph's layout does not allow the algorithm.
    LayoutViolation,
    /// No graph of that name is held.
    UnknownGraph,
    /// A malformed request.
    InvalidArgument,
}

} // verus!
