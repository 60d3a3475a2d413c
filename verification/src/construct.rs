//! Construction: inputs first, then operators over nodes that exist.

use crate::graph::{Graph, Handle, Node, Operation};
use crate::model::{GraphModel, Op};
use vstd::prelude::*;

verus! {

impl GraphModel {
    /// This graph with `d` recorded as one more dependent of node `k`.
    pub open spec fn registered(self, k: int, d: int) -> GraphModel {
        GraphModel { dependents: self.dependents.update(k, self.dependents[k].push(d)), ..self }
    }

    /// This graph with one more node, which computes `op`, holds no value and has no
    /// dependents, and which each operand of `op` records as a dependent, once for each
    /// place it takes among the operands.
    pub open spec fn attach(self, op: Op) -> GraphModel {
        let n = self.len();
        let grown = GraphModel {
            ops: self.ops.push(op),
            dependents: self.dependents.push(Seq::empty()),
            caches: self.caches.push(None),
        };
        let linked = match op.first() {
            Some(a) => grown.registered(a, n),
            None => grown,
        };
        match op.second() {
            Some(b) => linked.registered(b, n),
            None => linked,
        }
    }

    /// What `attach` yields, node by node.
    pub proof fn lemma_attach_nodes(self, op: Op)
        requires
            self.structured(),
            forall|k: int| op.reads(k) ==> self.contains(k),
        ensures
            self.attach(op).ops == self.ops.push(op),
            self.attach(op).caches == self.caches.push(None),
            self.attach(op).dependents.len() == self.len() + 1,
            self.attach(op).dependents[self.len()] == Seq::<int>::empty(),
            forall|k: int|
                #![trigger self.attach(op).dependents[k]]
                self.contains(k) ==> self.attach(op).dependents[k] == {
                    let once = if op.first() == Some(k) {
                        self.dependents[k].push(self.len())
                    } else {
                        self.dependents[k]
                    };
                    if op.second() == Some(k) {
                        once.push(self.len())
                    } else {
                        once
                    }
                },
    {
        if op.first() is Some {
            assert(op.reads(op.first().unwrap()));
        }
        if op.second() is Some {
            assert(op.reads(op.second().unwrap()));
        }
    }

    /// A new node over nodes of a sound graph leaves the graph sound.
    pub proof fn lemma_attach_wf(self, op: Op)
        requires
            self.wf(),
            forall|k: int| op.reads(k) ==> self.contains(k),
        ensures
            self.attach(op).wf(),
    {
        let n = self.len();
        let post = self.attach(op);
        self.lemma_attach_nodes(op);
        assert forall|i: int, k: int| post.contains(i) && #[trigger] post.ops[i].reads(k) implies 0
            <= k < i && post.dependents[k].contains(i) by {
            if i < n {
                let j = choose|j: int|
                    0 <= j < self.dependents[k].len() && self.dependents[k][j] == i;
                assert(post.dependents[k][j] == i);
            } else {
                let last = post.dependents[k].len() - 1;
                assert(post.dependents[k][last] == n);
            }
        }
    }
}

impl Node {
    /// A node that computes `op` and has no dependents yet.
    pub(crate) fn new(op: Operation, cache: Option<u32>) -> (node: Node)
        ensures
            node.op == op,
            node.dependents@ == Seq::<Handle>::empty(),
            node.cache == cache,
    {
        Node { op, dependents: Vec::new(), cache }
    }
}

impl Graph {
    /// Moves `node` into the graph and returns its handle.
    fn wrap(&mut self, node: Node) -> (h: Handle)
        requires
            old(self)@.structured(),
            node.dependents@.len() == 0,
        ensures
            h@ == old(self)@.len(),
            final(self)@.ops == old(self)@.ops.push(node.op@),
            final(self)@.dependents == old(self)@.dependents.push(Seq::empty()),
            final(self)@.caches == old(self)@.caches.push(node.cache),
    {
        let h = Handle { index: self.nodes.len() };
        self.nodes.push(node);
        proof {
            assert(self@.dependents[old(self)@.len()] =~= Seq::empty());
        }
        h
    }

    /// Records `node` as a dependent of `operand`.
    fn add_dependent_node(&mut self, node: Handle, operand: Handle)
        requires
            old(self)@.contains(operand@),
        ensures
            final(self)@ == old(self)@.registered(operand@, node@),
    {
        self.nodes[operand.index].dependents.push(node);
        proof {
            let post = old(self)@.registered(operand@, node@);
            assert(self@.ops =~= post.ops);
            assert(self@.caches =~= post.caches);
            assert(self@.dependents =~~= post.dependents);
        }
    }

    /// A new input called `name`. It has no value until one is set.
    pub fn create_input(&mut self, name: &str) -> (h: Handle)
        requires
            old(self)@.wf(),
        ensures
            final(self)@.wf(),
            h@ == old(self)@.len(),
            final(self)@ == old(self)@.attach(Op::Input(name@)),
    {
        let h = self.wrap(Node::new(Operation::Input(name.to_owned()), None));
        proof {
            old(self)@.lemma_attach_wf(Op::Input(name@));
        }
        h
    }

    /// A new node for the sum of `a` and `b`, which may be one node.
    pub fn add(&mut self, a: Handle, b: Handle) -> (h: Handle)
        requires
            old(self)@.wf(),
            old(self)@.contains(a@),
            old(self)@.contains(b@),
        ensures
            final(self)@.wf(),
            h@ == old(self)@.len(),
            final(self)@ == old(self)@.attach(Op::Add(a@, b@)),
    {
        let h = self.wrap(Node::new(Operation::Add(a, b), None));
        self.add_dependent_node(h, a);
        self.add_dependent_node(h, b);
        proof {
            old(self)@.lemma_attach_wf(Op::Add(a@, b@));
        }
        h
    }

    /// A new node for the product of `a` and `b`, which may be one node.
    pub fn mul(&mut self, a: Handle, b: Handle) -> (h: Handle)
        requires
            old(self)@.wf(),
            old(self)@.contains(a@),
            old(self)@.contains(b@),
        ensures
            final(self)@.wf(),
            h@ == old(self)@.len(),
            final(self)@ == old(self)@.attach(Op::Mul(a@, b@)),
    {
        let h = self.wrap(Node::new(Operation::Mul(a, b), None));
        self.add_dependent_node(h, a);
        self.add_dependent_node(h, b);
        proof {
            old(self)@.lemma_attach_wf(Op::Mul(a@, b@));
        }
        h
    }

    /// A new node for `base` raised to the power `exp`, which may be one node.
    pub fn pow_f32(&mut self, base: Handle, exp: Handle) -> (h: Handle)
        requires
            old(self)@.wf(),
            old(self)@.contains(base@),
            old(self)@.contains(exp@),
        ensures
            final(self)@.wf(),
            h@ == old(self)@.len(),
            final(self)@ == old(self)@.attach(Op::Pow(base@, exp@)),
    {
        let h = self.wrap(Node::new(Operation::Pow(base, exp), None));
        self.add_dependent_node(h, base);
        self.add_dependent_node(h, exp);
        proof {
            old(self)@.lemma_attach_wf(Op::Pow(base@, exp@));
        }
        h
    }

    /// A new node for the sine of `a`.
    pub fn sin(&mut self, a: Handle) -> (h: Handle)
        requires
            old(self)@.wf(),
            old(self)@.contains(a@),
        ensures
            final(self)@.wf(),
            h@ == old(self)@.len(),
            final(self)@ == old(self)@.attach(Op::Sin(a@)),
    {
        let h = self.wrap(Node::new(Operation::Sin(a), None));
        self.add_dependent_node(h, a);
        proof {
            old(self)@.lemma_attach_wf(Op::Sin(a@));
        }
        h
    }
}

} // verus!
