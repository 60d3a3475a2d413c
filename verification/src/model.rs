//! The mathematical model of a computation graph.
//!
//! A graph is a sequence of nodes. A node is named by its position, and the operands of a
//! node always stand before it, so the operand edges cannot form a cycle.

use vstd::prelude::*;

verus! {

/// What a node computes. Operands are given by their positions in the graph.
pub enum Op {
    /// A leaf whose value the caller supplies, with its name.
    Input(Seq<char>),
    Add(int, int),
    Mul(int, int),
    Sin(int),
    /// Base, then exponent.
    Pow(int, int),
}

impl Op {
    /// The first operand, if there is one.
    pub open spec fn first(self) -> Option<int> {
        match self {
            Op::Input(_) => None,
            Op::Add(a, _) => Some(a),
            Op::Mul(a, _) => Some(a),
            Op::Sin(a) => Some(a),
            Op::Pow(a, _) => Some(a),
        }
    }

    /// The second operand, if there is one.
    pub open spec fn second(self) -> Option<int> {
        match self {
            Op::Input(_) => None,
            Op::Add(_, b) => Some(b),
            Op::Mul(_, b) => Some(b),
            Op::Sin(_) => None,
            Op::Pow(_, b) => Some(b),
        }
    }

    /// Whether `k` is an operand of this operation.
    pub open spec fn reads(self, k: int) -> bool {
        self.first() == Some(k) || self.second() == Some(k)
    }

    /// An operation reads its first and its second operand.
    pub proof fn lemma_reads_operands(self)
        ensures
            self.first() matches Some(a) ==> self.reads(a),
            self.second() matches Some(b) ==> self.reads(b),
    {
    }
}

/// One node: what it computes, who reads it, and what it holds.
pub struct NodeModel {
    /// What the node computes.
    pub op: Op,
    /// The nodes that were registered as reading this node, oldest first.
    pub dependents: Seq<int>,
    /// The value that the node holds, if it holds one.
    pub cache: Option<u32>,
}

/// A graph as three sequences of one length, each indexed by node position.
pub struct GraphModel {
    /// The operation of each node.
    pub ops: Seq<Op>,
    /// For each node, the nodes that were registered as reading it, oldest first.
    pub dependents: Seq<Seq<int>>,
    /// For each node, the value it holds, if it holds one.
    pub caches: Seq<Option<u32>>,
}

impl GraphModel {
    /// The graph without nodes.
    pub open spec fn empty() -> GraphModel {
        GraphModel { ops: Seq::empty(), dependents: Seq::empty(), caches: Seq::empty() }
    }

    /// The number of nodes.
    pub open spec fn len(self) -> int {
        self.ops.len() as int
    }

    /// Whether `n` names a node of this graph.
    pub open spec fn contains(self, n: int) -> bool {
        0 <= n < self.ops.len()
    }

    /// Node `n`.
    pub open spec fn node(self, n: int) -> NodeModel {
        NodeModel { op: self.ops[n], dependents: self.dependents[n], cache: self.caches[n] }
    }

    /// Whether node `n` is an input.
    pub open spec fn is_input(self, n: int) -> bool {
        self.contains(n) && self.ops[n] is Input
    }

    /// Whether node `n` holds a value.
    pub open spec fn cached(self, n: int) -> bool {
        self.contains(n) && self.caches[n] is Some
    }

    /// The edges are sound: operands stand before the node that reads them, every operand
    /// records its reader as a dependent, and every recorded dependent is such a reader.
    pub open spec fn structured(self) -> bool {
        &&& self.dependents.len() == self.ops.len()
        &&& self.caches.len() == self.ops.len()
        &&& forall|n: int, k: int|
            self.contains(n) && #[trigger] self.ops[n].reads(k) ==> 0 <= k < n
                && self.dependents[k].contains(n)
        &&& forall|k: int, j: int|
            self.contains(k) && 0 <= j < self.dependents[k].len() ==> self.contains(
                #[trigger] self.dependents[k][j],
            ) && self.ops[self.dependents[k][j]].reads(k)
    }

    /// A node that holds a value has operands that hold values.
    pub open spec fn cache_closed(self) -> bool {
        forall|n: int, k: int|
            self.cached(n) && #[trigger] self.ops[n].reads(k) ==> self.cached(k)
    }

    /// The invariant of every graph that the library hands out.
    pub open spec fn wf(self) -> bool {
        self.structured() && self.cache_closed()
    }

    /// Whether the value of node `n` depends on node `m`: `m` is `n` itself, or an operand
    /// of `n` depends on `m`.
    pub open spec fn depends_on(self, n: int, m: int) -> bool {
        reaches(self.ops, n, m)
    }
}

/// Whether `m` is reached from `n` along operand edges that lead to earlier positions.
pub open spec fn reaches(ops: Seq<Op>, n: int, m: int) -> bool
    decreases n,
{
    n == m || (0 <= n < ops.len() && {
        ||| (ops[n].first() matches Some(a) && 0 <= a < n && reaches(ops, a, m))
        ||| (ops[n].second() matches Some(b) && 0 <= b < n && reaches(ops, b, m))
    })
}

} // verus!
