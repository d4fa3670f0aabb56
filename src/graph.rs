//! The graph model: nodes in an arena, edges that refer to nodes by position.
use vstd::prelude::*;

verus! {

/// A position in a graph's node collection.
#[derive(Clone, Copy, Debug, PartialEq, Eq, Structural)]
pub struct NodeIndex(pub usize);

/// A directed edge between two node positions.
#[derive(Clone, Copy, Debug)]
pub struct Edge {
    pub from: NodeIndex,
    pub to: NodeIndex,
}

/// A vertex: its outbound edges, in order, and the text it is drawn with.
#[derive(Debug)]
pub struct Node {
    pub edges: Vec<Edge>,
    pub label: String,
}

/// An ordered collection of nodes; position 0 is the root of the traversal.
#[derive(Debug)]
pub struct Graph {
    pub nodes: Vec<Node>,
}

/// Why a graph could not be rendered.
#[derive(Clone, Copy, Debug, PartialEq, Eq, Structural)]
pub enum DotError {
    /// The graph has no node, so there is no root to start from.
    EmptyGraph,
    /// An edge names this position, which is not a node of the graph.
    DanglingEdge(usize),
}

impl NodeIndex {
    /// The position this index stands for.
    pub fn index(&self) -> (r: usize)
        ensures
            r == self.0,
    {
        self.0
    }
}

impl Edge {
    /// An edge from position `from` to position `to`.
    pub fn new(from: usize, to: usize) -> (r: Edge)
        ensures
            r.from.0 == from,
            r.to.0 == to,
    {
        Edge { from: NodeIndex(from), to: NodeIndex(to) }
    }
}

impl Node {
    /// A node with the given label and no edges.
    pub fn new(label: String) -> (r: Node)
        ensures
            r.label@ == label@,
            r.edges@.len() == 0,
    {
        Node { edges: Vec::new(), label }
    }

    /// Appends an edge from `from` to `to` after the node's other edges.
    pub fn add_edge(&mut self, from: usize, to: usize)
        ensures
            final(self).label@ == old(self).label@,
            final(self).edges@ == old(self).edges@.push(Edge::new_spec(from, to)),
    {
        self.edges.push(Edge::new(from, to));
    }
}

impl Edge {
    /// The edge that `Edge::new(from, to)` returns.
    pub open spec fn new_spec(from: usize, to: usize) -> Edge {
        Edge { from: NodeIndex(from), to: NodeIndex(to) }
    }
}

/// Number of nodes.
pub open spec fn node_count(g: &Graph) -> int {
    g.nodes@.len() as int
}

/// The label text of the node at position `i`.
pub open spec fn label_of(g: &Graph, i: int) -> Seq<char> {
    g.nodes@[i].label@
}

/// The outbound edges of the node at position `u`.
pub open spec fn edges_of(g: &Graph, u: int) -> Seq<Edge> {
    g.nodes@[u].edges@
}

/// Both endpoints of `e` are nodes of `g`.
pub open spec fn edge_in_range(g: &Graph, e: Edge) -> bool {
    e.from.0 < node_count(g) && e.to.0 < node_count(g)
}

/// Every edge of every node has both endpoints in range.
pub open spec fn edges_valid(g: &Graph) -> bool {
    forall|i: int, j: int|
        0 <= i < node_count(g) && 0 <= j < edges_of(g, i).len() ==> edge_in_range(
            g,
            #[trigger] edges_of(g, i)[j],
        )
}

/// Every edge that comes before edge `j` of node `i` (nodes in order, then
/// each node's edges in order) has both endpoints in range.
pub open spec fn edges_valid_before(g: &Graph, i: int, j: int) -> bool {
    &&& forall|a: int, b: int|
        0 <= a < i && 0 <= b < edges_of(g, a).len() ==> edge_in_range(
            g,
            #[trigger] edges_of(g, a)[b],
        )
    &&& forall|b: int| 0 <= b < j ==> edge_in_range(g, #[trigger] edges_of(g, i)[b])
}

/// The out-of-range position that edge `e` is reported by: its target if that
/// is out of range, else its source.
pub open spec fn dangling_position(g: &Graph, e: Edge) -> usize {
    if e.to.0 >= node_count(g) {
        e.to.0
    } else {
        e.from.0
    }
}

/// Edge `j` of node `i` is the first edge with an endpoint out of range.
pub open spec fn is_first_dangling(g: &Graph, i: int, j: int) -> bool {
    &&& 0 <= i < node_count(g)
    &&& 0 <= j < edges_of(g, i).len()
    &&& !edge_in_range(g, edges_of(g, i)[j])
    &&& edges_valid_before(g, i, j)
}

impl Graph {
    /// A graph holding `nodes` in order.
    pub fn new(nodes: Vec<Node>) -> (r: Graph)
        ensures
            r.nodes@ == nodes@,
    {
        Graph { nodes }
    }

    /// The position reported for the first edge, in node order and then edge
    /// order, that has an endpoint outside the graph; `None` if there is none.
    pub fn first_dangling(&self) -> (r: Option<usize>)
        ensures
            r.is_none() <==> edges_valid(self),
            r matches Some(p) ==> exists|i: int, j: int|
                is_first_dangling(self, i, j) && p == dangling_position(self, #[trigger] edges_of(self, i)[j]),
    {
        let n = self.nodes.len();
        let mut i: usize = 0;
        while i < n
            invariant
                n == node_count(self),
                0 <= i <= n,
                edges_valid_before(self, i as int, 0),
            decreases n - i,
        {
            let edges = &self.nodes[i].edges;
            let mut j: usize = 0;
            while j < edges.len()
                invariant
                    n == node_count(self),
                    0 <= i < n,
                    edges@ == edges_of(self, i as int),
                    0 <= j <= edges@.len(),
                    edges_valid_before(self, i as int, j as int),
                decreases edges@.len() - j,
            {
                let e = edges[j];
                if e.to.0 >= n {
                    assert(is_first_dangling(self, i as int, j as int));
                    return Some(e.to.0);
                }
                if e.from.0 >= n {
                    assert(is_first_dangling(self, i as int, j as int));
                    return Some(e.from.0);
                }
                j = j + 1;
            }
            proof {
                assert forall|a: int, b: int|
                    0 <= a < i + 1 && 0 <= b < edges_of(self, a).len() implies edge_in_range(
                    self,
                    #[trigger] edges_of(self, a)[b],
                ) by {
                    if a == i {
                        assert(edges_valid_before(self, i as int, j as int));
                    }
                }
            }
            i = i + 1;
        }
        None
    }
}

} // verus!
