//! The graph and its handles.

use crate::model::{GraphModel, NodeModel, Op};
use vstd::prelude::*;

verus! {

/// Names one node of a [`Graph`]. It means nothing to a graph that did not hand it out.
#[derive(Clone, Copy, Debug, PartialEq, Eq, Structural)]
pub struct Handle {
    pub(crate) index: usize,
}

impl View for Handle {
    type V = int;

    open(crate) spec fn view(&self) -> int {
        self.index as int
    }
}

/// The positions that `handles` name.
pub open spec fn positions(handles: Seq<Handle>) -> Seq<int> {
    handles.map_values(|h: Handle| h@)
}

/// What a node computes.
#[derive(Debug, PartialEq, Eq)]
pub enum Operation {
    /// A leaf whose value the caller supplies, with its name.
    Input(String),
    Add(Handle, Handle),
    Mul(Handle, Handle),
    Sin(Handle),
    /// Base, then exponent.
    Pow(Handle, Handle),
}

impl View for Operation {
    type V = Op;

    open spec fn view(&self) -> Op {
        match self {
            Operation::Input(name) => Op::Input(name@),
            Operation::Add(a, b) => Op::Add(a@, b@),
            Operation::Mul(a, b) => Op::Mul(a@, b@),
            Operation::Sin(a) => Op::Sin(a@),
            Operation::Pow(a, b) => Op::Pow(a@, b@),
        }
    }
}

/// Why a call was turned down.
#[derive(Debug, PartialEq, Eq)]
pub enum GraphError {
    /// An evaluation needed the input `input`, called `name`, which has no value.
    UnsetInput { input: Handle, name: String },
    /// A value was offered to a node that is no input.
    NotAnInput,
}

/// One vertex of the graph.
#[derive(Debug)]
pub struct Node {
    pub(crate) op: Operation,
    pub(crate) dependents: Vec<Handle>,
    pub(crate) cache: Option<u32>,
}

impl View for Node {
    type V = NodeModel;

    open(crate) spec fn view(&self) -> NodeModel {
        NodeModel { op: self.op@, dependents: positions(self.dependents@), cache: self.cache }
    }
}

/// The nodes of one computation graph, each named by a [`Handle`].
#[derive(Debug)]
pub struct Graph {
    pub(crate) nodes: Vec<Node>,
}

impl View for Graph {
    type V = GraphModel;

    open(crate) spec fn view(&self) -> GraphModel {
        GraphModel {
            ops: Seq::new(self.nodes@.len(), |i: int| self.nodes@[i]@.op),
            dependents: Seq::new(self.nodes@.len(), |i: int| self.nodes@[i]@.dependents),
            caches: Seq::new(self.nodes@.len(), |i: int| self.nodes@[i]@.cache),
        }
    }
}

impl Node {
    /// What the node computes.
    pub fn operation(&self) -> (op: &Operation)
        ensures
            op@ == self@.op,
    {
        &self.op
    }

    /// The nodes that were registered as reading this node, oldest first.
    pub fn dependents(&self) -> (handles: &Vec<Handle>)
        ensures
            positions(handles@) == self@.dependents,
    {
        &self.dependents
    }

    /// The value that the node holds, if it holds one.
    pub fn cache(&self) -> (value: Option<u32>)
        ensures
            value == self@.cache,
    {
        self.cache
    }
}

impl Handle {
    /// The position of the node in its graph.
    pub fn index(&self) -> (i: usize)
        ensures
            i == self@,
    {
        self.index
    }
}

impl Graph {
    /// A graph without nodes.
    pub fn new() -> (g: Graph)
        ensures
            g@ == GraphModel::empty(),
            g@.wf(),
    {
        let g = Graph { nodes: Vec::new() };
        proof {
            assert(g@.ops =~= Seq::empty());
            assert(g@.dependents =~= Seq::empty());
            assert(g@.caches =~= Seq::empty());
        }
        g
    }

    /// The number of nodes.
    pub fn len(&self) -> (n: usize)
        ensures
            n == self@.len(),
    {
        self.nodes.len()
    }

    /// Whether `h` names a node of this graph.
    pub fn contains(&self, h: Handle) -> (b: bool)
        ensures
            b == self@.contains(h@),
    {
        h.index < self.nodes.len()
    }

    /// Node `h`, if it is a node of this graph.
    pub fn node(&self, h: Handle) -> (r: Option<&Node>)
        ensures
            match r {
                Some(node) => self@.contains(h@) && node@ == self@.node(h@),
                None => !self@.contains(h@),
            },
    {
        if h.index < self.nodes.len() {
            Some(&self.nodes[h.index])
        } else {
            None
        }
    }

    /// The value that node `h` holds, if it is a node of this graph and holds one.
    pub fn cached(&self, h: Handle) -> (value: Option<u32>)
        ensures
            value == if self@.contains(h@) {
                self@.caches[h@]
            } else {
                None
            },
    {
        if h.index < self.nodes.len() {
            self.nodes[h.index].cache
        } else {
            None
        }
    }
}

} // verus!
