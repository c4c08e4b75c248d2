//! What the resolver asks of the archive graph.
//!
//! The graph itself lives outside the library: it is memory mapped and far larger than
//! anything a proof could hold. The library reaches it through the two traits below,
//! which promise nothing. What a function computes is stated for every [`GraphModel`]
//! that the answers given by the graph agree with (see [`graph_is`]).

use vstd::prelude::*;

verus! {

/// The kind of a node.
#[derive(Clone, Copy, PartialEq, Eq, Structural, Debug)]
pub enum NodeType {
    Content,
    Directory,
    Origin,
    Release,
    Revision,
    Snapshot,
}

/// A label on an edge. Only directory entries carry something that is read here: the id
/// of the entry's name in the label table.
#[derive(Clone, Copy, PartialEq, Eq, Structural, Debug)]
pub enum EdgeLabel {
    Branch,
    DirEntry { name: u64 },
    Visit,
}

/// The code of a node type, as it is kept in a [`crate::ntf::common::DirMap`].
pub open spec fn type_code(t: NodeType) -> u8 {
    match t {
        NodeType::Content => 0,
        NodeType::Directory => 1,
        NodeType::Origin => 2,
        NodeType::Release => 3,
        NodeType::Revision => 4,
        NodeType::Snapshot => 5,
    }
}

impl NodeType {
    /// The code of this node type.
    pub fn code(self) -> (r: u8)
        ensures
            r == type_code(self),
    {
        match self {
            NodeType::Content => 0,
            NodeType::Directory => 1,
            NodeType::Origin => 2,
            NodeType::Release => 3,
            NodeType::Revision => 4,
            NodeType::Snapshot => 5,
        }
    }
}

/// Forward access to the archive graph and to its node properties.
///
/// No method promises anything about what it returns: see [`graph_is`].
pub trait Graph {
    /// The number of nodes; node ids are below it.
    fn num_nodes(&self) -> usize;

    /// The type of a node.
    fn node_type(&self, node: usize) -> NodeType;

    /// The successors of a node, in the order of the graph.
    fn successors(&self, node: usize) -> Vec<usize>;

    /// The successors of a node, each with the labels of its arc.
    fn labeled_successors(&self, node: usize) -> Vec<(usize, Vec<EdgeLabel>)>;

    /// The bytes of the name with the given id.
    fn label_name(&self, id: u64) -> Vec<u8>;

    /// The node with the given SWHID, if the text is a SWHID and the graph has its node.
    fn node_id(&self, swhid: &str) -> Option<usize>;

    /// The SWHID of a node, in its text form.
    fn swhid(&self, node: usize) -> String;

    /// The hash in the SWHID of a node.
    fn hash(&self, node: usize) -> [u8; 20];
}

/// Access to the transposed graph as well.
pub trait BackwardGraph: Graph {
    /// The predecessors of a node.
    fn predecessors(&self, node: usize) -> Vec<usize>;
}

/// A graph as mathematics sees it: one answer to every question.
pub struct GraphModel {
    pub num_nodes: usize,
    pub node_type: spec_fn(usize) -> NodeType,
    pub succ: spec_fn(usize) -> Seq<usize>,
    pub pred: spec_fn(usize) -> Seq<usize>,
    pub labels: spec_fn(usize) -> Seq<(usize, Seq<EdgeLabel>)>,
    pub label_name: spec_fn(u64) -> Seq<u8>,
    pub node_id: spec_fn(Seq<char>) -> Option<usize>,
    pub swhid: spec_fn(usize) -> Seq<char>,
    pub hash: spec_fn(usize) -> Seq<u8>,
}

/// Labelled successors as mathematics sees them.
pub open spec fn labels_view(v: Seq<(usize, Vec<EdgeLabel>)>) -> Seq<(usize, Seq<EdgeLabel>)> {
    v.map_values(|p: (usize, Vec<EdgeLabel>)| (p.0, p.1@))
}

/// Whatever `graph` answers to a forward question is the answer that `g` gives.
pub open spec fn graph_is<G: Graph>(graph: &G, g: GraphModel) -> bool {
    &&& forall|r: usize| #[trigger] call_ensures(G::num_nodes, (graph,), r) ==> r == g.num_nodes
    &&& forall|n: usize, r: NodeType| #[trigger]
        call_ensures(G::node_type, (graph, n), r) ==> r == (g.node_type)(n)
    &&& forall|n: usize, r: Vec<usize>| #[trigger]
        call_ensures(G::successors, (graph, n), r) ==> r@ == (g.succ)(n)
    &&& forall|n: usize, r: Vec<(usize, Vec<EdgeLabel>)>| #[trigger]
        call_ensures(G::labeled_successors, (graph, n), r) ==> labels_view(r@) == (g.labels)(n)
    &&& forall|id: u64, r: Vec<u8>| #[trigger]
        call_ensures(G::label_name, (graph, id), r) ==> r@ == (g.label_name)(id)
    &&& forall|s: &str, r: Option<usize>| #[trigger]
        call_ensures(G::node_id, (graph, s), r) ==> r == (g.node_id)(s@)
    &&& forall|n: usize, r: String| #[trigger]
        call_ensures(G::swhid, (graph, n), r) ==> r@ == (g.swhid)(n)
    &&& forall|n: usize, r: [u8; 20]| #[trigger]
        call_ensures(G::hash, (graph, n), r) ==> r@ == (g.hash)(n)
}

/// Whatever `graph` answers to any question is the answer that `g` gives.
pub open spec fn bidirectional_is<G: BackwardGraph>(graph: &G, g: GraphModel) -> bool {
    &&& graph_is(graph, g)
    &&& forall|n: usize, r: Vec<usize>| #[trigger]
        call_ensures(G::predecessors, (graph, n), r) ==> r@ == (g.pred)(n)
}

/// Every successor that `graph` may answer and say to be a directory is below `bound`.
pub open spec fn directories_within<G: Graph>(graph: &G, bound: nat) -> bool {
    forall|n: usize, r: Vec<usize>, i: int, t: NodeType|
        #![trigger call_ensures(G::successors, (graph, n), r), call_ensures(G::node_type, (graph, r@[i]), t)]
        call_ensures(G::successors, (graph, n), r) && 0 <= i < r@.len() && call_ensures(
            G::node_type,
            (graph, r@[i]),
            t,
        ) && t == NodeType::Directory ==> r@[i] < bound
}

} // verus!
