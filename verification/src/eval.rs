//! Lazy, memoized evaluation.

use crate::graph::{Graph, GraphError, Handle, Operation};
use crate::model::{GraphModel, Op};
use crate::reach::{
    lemma_reaches_earlier, lemma_reaches_operand, lemma_reaches_transitive, lemma_reaches_via,
    operand_towards,
};
use vstd::prelude::*;

verus! {

/// One operator applied to the values of its operands. The values are the bit patterns of
/// single-precision numbers; the library carries them and never looks inside.
#[derive(Clone, Copy, Debug, PartialEq, Eq)]
pub enum Application {
    Add(u32, u32),
    Mul(u32, u32),
    Sin(u32),
    /// Base, then exponent.
    Pow(u32, u32),
}

/// What a caller's arithmetic may return for an application.
pub open spec fn outcomes<F: Fn(Application) -> u32>(apply: F) -> spec_fn(
    Application,
    u32,
) -> bool {
    |t: Application, r: u32| apply.ensures((t,), r)
}

impl GraphModel {
    /// The value that node `n` holds. Meaningful only where it holds one.
    pub open spec fn value(self, n: int) -> u32 {
        self.caches[n].unwrap()
    }

    /// The operator of node `n` applied to the values that its operands hold. An input
    /// applies nothing.
    pub open spec fn application(self, n: int) -> Option<Application> {
        match self.ops[n] {
            Op::Input(_) => None,
            Op::Add(a, b) => Some(Application::Add(self.value(a), self.value(b))),
            Op::Mul(a, b) => Some(Application::Mul(self.value(a), self.value(b))),
            Op::Sin(a) => Some(Application::Sin(self.value(a))),
            Op::Pow(a, b) => Some(Application::Pow(self.value(a), self.value(b))),
        }
    }

    /// Node `n` holds a value that `rel` allows for its operator on the values of its
    /// operands.
    pub open spec fn produced(self, rel: spec_fn(Application, u32) -> bool, n: int) -> bool {
        &&& self.cached(n)
        &&& self.application(n) matches Some(t)
        &&& rel(t, self.value(n))
    }

    /// Every value held by a node that is no input is one that `rel` allows.
    pub open spec fn consistent(self, rel: spec_fn(Application, u32) -> bool) -> bool {
        forall|n: int| #[trigger] self.cached(n) && !self.is_input(n) ==> self.produced(rel, n)
    }

    /// What node `n` stands for under the arithmetic `f`: an input stands for the value it
    /// holds, an operator for `f` of that operator on what its operands stand for. The
    /// values that other nodes hold play no part in it.
    pub open spec fn denotes(self, f: spec_fn(Application) -> u32, n: int) -> u32
        decreases n,
    {
        if !self.contains(n) {
            0
        } else {
            let x = match self.ops[n].first() {
                Some(a) if 0 <= a < n => self.denotes(f, a),
                _ => 0,
            };
            let y = match self.ops[n].second() {
                Some(b) if 0 <= b < n => self.denotes(f, b),
                _ => 0,
            };
            match self.ops[n] {
                Op::Input(_) => self.value(n),
                Op::Add(_, _) => f(Application::Add(x, y)),
                Op::Mul(_, _) => f(Application::Mul(x, y)),
                Op::Sin(_) => f(Application::Sin(x)),
                Op::Pow(_, _) => f(Application::Pow(x, y)),
            }
        }
    }

    /// The first input without a value that an evaluation of node `n` would need, going
    /// through the operands depth first and in order.
    pub open spec fn missing(self, n: int) -> Option<int>
        decreases n,
    {
        if !self.contains(n) {
            None
        } else if self.ops[n] is Input {
            if self.caches[n] is None {
                Some(n)
            } else {
                None
            }
        } else {
            let left = match self.ops[n].first() {
                Some(a) if 0 <= a < n => self.missing(a),
                _ => None,
            };
            if left is Some {
                left
            } else {
                match self.ops[n].second() {
                    Some(b) if 0 <= b < n => self.missing(b),
                    _ => None,
                }
            }
        }
    }

    /// Whether every input that node `n` depends on holds a value.
    pub open spec fn ready(self, n: int) -> bool {
        forall|i: int| self.depends_on(n, i) && #[trigger] self.is_input(i) ==> self.cached(i)
    }

    /// `e` reports the input that an evaluation of node `n` finds missing.
    pub open spec fn reports(self, n: int, e: GraphError) -> bool {
        &&& e matches GraphError::UnsetInput { input, name }
        &&& self.missing(n) == Some(input@)
        &&& self.ops[input@] == Op::Input(name@)
    }

    /// `post` is this graph after a successful evaluation of `root` to `value`: the nodes
    /// that held a value keep it, the other nodes that `root` depends on now hold one that
    /// `rel` allows, and nothing else has changed.
    pub open spec fn evaluates(
        self,
        root: int,
        rel: spec_fn(Application, u32) -> bool,
        post: GraphModel,
        value: u32,
    ) -> bool {
        &&& post.ops == self.ops
        &&& post.dependents == self.dependents
        &&& post.caches.len() == self.caches.len()
        &&& post.caches[root] == Some(value)
        &&& forall|m: int|
            #![trigger post.caches[m]]
            self.contains(m) ==> if self.cached(m) {
                post.caches[m] == self.caches[m]
            } else if self.depends_on(root, m) {
                post.produced(rel, m)
            } else {
                post.caches[m] is None
            }
    }

    /// The input that an evaluation finds missing is an input without a value that the
    /// node depends on.
    pub proof fn lemma_missing_found(self, n: int)
        requires
            self.missing(n) is Some,
        ensures
            self.depends_on(n, self.missing(n).unwrap()),
            self.is_input(self.missing(n).unwrap()),
            !self.cached(self.missing(n).unwrap()),
        decreases n,
    {
        if !(self.ops[n] is Input) {
            let a = self.ops[n].first();
            if a is Some && 0 <= a.unwrap() < n && self.missing(a.unwrap()) is Some {
                self.lemma_missing_found(a.unwrap());
            } else {
                self.lemma_missing_found(self.ops[n].second().unwrap());
            }
        }
    }

    /// Where an evaluation finds no input missing, every input that the node depends on
    /// holds a value.
    pub proof fn lemma_missing_none(self, n: int, i: int)
        requires
            self.missing(n) is None,
            self.depends_on(n, i),
            self.is_input(i),
        ensures
            self.cached(i),
        decreases n,
    {
        if n != i {
            lemma_reaches_via(self.ops, n, i);
            self.lemma_missing_none(operand_towards(self.ops, n, i), i);
        }
    }

    /// An evaluation finds an input missing exactly where some input that the node depends
    /// on holds no value.
    pub proof fn lemma_ready(self, n: int)
        ensures
            self.ready(n) <==> self.missing(n) is None,
    {
        if self.missing(n) is None {
            assert forall|i: int|
                self.depends_on(n, i) && #[trigger] self.is_input(i) implies self.cached(i) by {
                self.lemma_missing_none(n, i);
            }
        } else {
            self.lemma_missing_found(n);
        }
    }

    /// A node that holds a value needs no input that is without one.
    pub proof fn lemma_cached_not_missing(self, n: int)
        requires
            self.wf(),
            self.cached(n),
        ensures
            self.missing(n) is None,
        decreases n,
    {
        self.ops[n].lemma_reads_operands();
        if self.ops[n].first() matches Some(a) {
            self.lemma_cached_not_missing(self.ops[n].first().unwrap());
        }
        if self.ops[n].second() matches Some(b) {
            self.lemma_cached_not_missing(self.ops[n].second().unwrap());
        }
    }

    /// What a node stands for depends on the operations and on the values of the inputs
    /// that it depends on, and on nothing else.
    pub proof fn lemma_denotes_frame(
        self,
        other: GraphModel,
        f: spec_fn(Application) -> u32,
        n: int,
    )
        requires
            other.ops == self.ops,
            forall|i: int|
                self.depends_on(n, i) && #[trigger] self.is_input(i) ==> other.caches[i]
                    == self.caches[i],
        ensures
            other.denotes(f, n) == self.denotes(f, n),
        decreases n,
    {
        if self.contains(n) {
            if self.ops[n] is Input {
                assert(self.is_input(n));
            } else {
                if self.ops[n].first() matches Some(a) && 0 <= a < n {
                    self.lemma_denotes_frame(other, f, self.ops[n].first().unwrap());
                }
                if self.ops[n].second() matches Some(b) && 0 <= b < n {
                    self.lemma_denotes_frame(other, f, self.ops[n].second().unwrap());
                }
            }
        }
    }

    /// Which input is missing depends on the operations and on the values of the inputs
    /// alone.
    pub proof fn lemma_missing_frame(self, other: GraphModel, n: int)
        requires
            other.ops == self.ops,
            forall|i: int| #[trigger] self.is_input(i) ==> other.caches[i] == self.caches[i],
        ensures
            other.missing(n) == self.missing(n),
        decreases n,
    {
        if self.contains(n) {
            if self.ops[n] is Input {
                assert(self.is_input(n));
            } else {
                if self.ops[n].first() matches Some(a) && 0 <= a < n {
                    self.lemma_missing_frame(other, self.ops[n].first().unwrap());
                }
                if self.ops[n].second() matches Some(b) && 0 <= b < n {
                    self.lemma_missing_frame(other, self.ops[n].second().unwrap());
                }
            }
        }
    }
}

/// `post` is `pre` after part of an evaluation of node `n`: values that were held are kept,
/// and each new value belongs to a node that `n` depends on and is one that `rel` allows.
spec fn advances(
    pre: GraphModel,
    n: int,
    rel: spec_fn(Application, u32) -> bool,
    post: GraphModel,
) -> bool {
    &&& post.ops == pre.ops
    &&& post.dependents == pre.dependents
    &&& post.caches.len() == pre.caches.len()
    &&& forall|m: int| #[trigger] pre.cached(m) ==> post.caches[m] == pre.caches[m]
    &&& forall|m: int|
        !pre.cached(m) && #[trigger] post.cached(m) ==> pre.depends_on(n, m) && post.produced(
            rel,
            m,
        )
}

/// The part of `log` from position `from` on lists exactly the nodes that hold a value in
/// `post` and held none in `pre`.
spec fn journal(pre: GraphModel, post: GraphModel, log: Seq<usize>, from: int) -> bool {
    &&& 0 <= from <= log.len()
    &&& forall|j: int|
        from <= j < log.len() ==> !pre.cached(#[trigger] log[j] as int) && post.cached(
            log[j] as int,
        )
    &&& forall|m: int|
        !pre.cached(m) && #[trigger] post.cached(m) ==> exists|j: int|
            from <= j < log.len() && #[trigger] log[j] == m
}

/// An advance towards an operand is an advance towards the node that reads it.
proof fn lemma_advances_lift(
    pre: GraphModel,
    k: int,
    n: int,
    rel: spec_fn(Application, u32) -> bool,
    post: GraphModel,
)
    requires
        pre.structured(),
        pre.contains(n),
        pre.ops[n].reads(k),
        advances(pre, k, rel, post),
    ensures
        advances(pre, n, rel, post),
{
    assert forall|m: int| !pre.cached(m) && #[trigger] post.cached(m) implies pre.depends_on(
        n,
        m,
    ) by {
        lemma_reaches_operand(pre.ops, n, k);
        lemma_reaches_transitive(pre.ops, n, k, m);
    }
}

/// A value that `rel` allows stays one when other nodes gain values.
proof fn lemma_produced_stays(
    pre: GraphModel,
    post: GraphModel,
    rel: spec_fn(Application, u32) -> bool,
    m: int,
)
    requires
        pre.wf(),
        post.ops == pre.ops,
        forall|i: int| #[trigger] pre.cached(i) ==> post.caches[i] == pre.caches[i],
        pre.produced(rel, m),
    ensures
        post.produced(rel, m),
{
    pre.ops[m].lemma_reads_operands();
}

/// Two advances towards one node, one after the other, are an advance towards it.
proof fn lemma_advances_twice(
    pre: GraphModel,
    mid: GraphModel,
    post: GraphModel,
    n: int,
    rel: spec_fn(Application, u32) -> bool,
)
    requires
        mid.wf(),
        advances(pre, n, rel, mid),
        advances(mid, n, rel, post),
    ensures
        advances(pre, n, rel, post),
{
    assert forall|m: int| #[trigger] pre.cached(m) implies post.caches[m] == pre.caches[m] by {
        assert(mid.cached(m));
    }
    assert forall|m: int| !pre.cached(m) && #[trigger] post.cached(m) implies pre.depends_on(
        n,
        m,
    ) && post.produced(rel, m) by {
        if mid.cached(m) {
            lemma_produced_stays(mid, post, rel, m);
        }
    }
}

/// An advance gives no input a value, so it leaves the missing inputs as they were.
proof fn lemma_advances_missing(
    pre: GraphModel,
    n: int,
    rel: spec_fn(Application, u32) -> bool,
    post: GraphModel,
    k: int,
)
    requires
        pre.structured(),
        advances(pre, n, rel, post),
    ensures
        post.missing(k) == pre.missing(k),
{
    assert forall|i: int| #[trigger] pre.is_input(i) implies post.caches[i] == pre.caches[i] by {
        assert(pre.cached(i) || !post.cached(i));
    }
    pre.lemma_missing_frame(post, k);
}

/// Storing an allowed value in node `n`, once its operands hold theirs, completes an advance
/// towards `n`.
proof fn lemma_store(
    pre: GraphModel,
    mid: GraphModel,
    post: GraphModel,
    n: int,
    rel: spec_fn(Application, u32) -> bool,
    value: u32,
)
    requires
        pre.wf(),
        mid.wf(),
        pre.contains(n),
        !mid.cached(n),
        advances(pre, n, rel, mid),
        forall|k: int| #[trigger] pre.ops[n].reads(k) ==> mid.cached(k),
        mid.application(n) matches Some(t) && rel(t, value),
        post.ops == mid.ops,
        post.dependents == mid.dependents,
        post.caches == mid.caches.update(n, Some(value)),
    ensures
        post.wf(),
        advances(pre, n, rel, post),
{
    pre.ops[n].lemma_reads_operands();
    assert forall|m: int| !pre.cached(m) && #[trigger] post.cached(m) implies pre.depends_on(n, m)
        && post.produced(rel, m) by {
        if m != n {
            assert(mid.cached(m));
            lemma_produced_stays(mid, post, rel, m);
        }
    }
}

/// An advance towards a node gives no value to the nodes that stand after it.
proof fn lemma_advances_later(
    pre: GraphModel,
    k: int,
    rel: spec_fn(Application, u32) -> bool,
    post: GraphModel,
    n: int,
)
    requires
        advances(pre, k, rel, post),
        k < n,
        !pre.cached(n),
    ensures
        !post.cached(n),
{
    if post.cached(n) {
        lemma_reaches_earlier(pre.ops, k, n);
    }
}

/// The journal of an advance followed by the journal of the next is the journal of both.
proof fn lemma_journal_twice(
    pre: GraphModel,
    mid: GraphModel,
    post: GraphModel,
    mid_log: Seq<usize>,
    log: Seq<usize>,
    from: int,
)
    requires
        journal(pre, mid, mid_log, from),
        journal(mid, post, log, mid_log.len() as int),
        log.subrange(0, mid_log.len() as int) == mid_log,
        forall|m: int| #[trigger] pre.cached(m) ==> mid.cached(m),
        forall|m: int| #[trigger] mid.cached(m) ==> post.cached(m),
    ensures
        journal(pre, post, log, from),
        log.subrange(0, from) == mid_log.subrange(0, from),
{
    assert forall|j: int| 0 <= j < mid_log.len() implies log[j] == mid_log[j] by {
        assert(log.subrange(0, mid_log.len() as int)[j] == mid_log[j]);
    }
    assert(log.subrange(0, from) =~= mid_log.subrange(0, from));
    assert forall|j: int| from <= j < log.len() implies !pre.cached(#[trigger] log[j] as int)
        && post.cached(log[j] as int) by {
        if j < mid_log.len() {
            assert(mid.cached(mid_log[j] as int));
        } else {
            assert(!mid.cached(log[j] as int));
        }
    }
    assert forall|m: int| !pre.cached(m) && #[trigger] post.cached(m) implies exists|j: int|
        from <= j < log.len() && #[trigger] log[j] == m by {
        if mid.cached(m) {
            let j = choose|j: int| from <= j < mid_log.len() && #[trigger] mid_log[j] == m;
            assert(log[j] == m);
        }
    }
}

/// Storing a value in a node without one adds that node to the journal.
proof fn lemma_journal_store(
    pre: GraphModel,
    mid: GraphModel,
    post: GraphModel,
    mid_log: Seq<usize>,
    from: int,
    n: usize,
    value: u32,
)
    requires
        journal(pre, mid, mid_log, from),
        forall|m: int| #[trigger] pre.cached(m) ==> mid.cached(m),
        mid.structured(),
        mid.contains(n as int),
        !mid.cached(n as int),
        post.ops == mid.ops,
        post.caches == mid.caches.update(n as int, Some(value)),
    ensures
        journal(pre, post, mid_log.push(n), from),
        mid_log.push(n).subrange(0, from) == mid_log.subrange(0, from),
{
    let log = mid_log.push(n);
    assert(log.subrange(0, from) =~= mid_log.subrange(0, from));
    assert forall|j: int| from <= j < log.len() implies !pre.cached(#[trigger] log[j] as int)
        && post.cached(log[j] as int) by {
        if j < mid_log.len() {
            assert(mid.cached(mid_log[j] as int));
        }
    }
    assert forall|m: int| !pre.cached(m) && #[trigger] post.cached(m) implies exists|j: int|
        from <= j < log.len() && #[trigger] log[j] == m by {
        if m == n {
            assert(log[mid_log.len() as int] == m);
        } else {
            assert(mid.cached(m));
            let j = choose|j: int| from <= j < mid_log.len() && #[trigger] mid_log[j] == m;
            assert(log[j] == m);
        }
    }
}

impl Graph {
    /// Evaluates node `n`, filling the caches of the nodes it depends on and listing each
    /// node that it fills in `log`. Stops at the first input without a value and reports it.
    fn traverse<F: Fn(Application) -> u32>(
        &mut self,
        n: Handle,
        apply: &F,
        log: &mut Vec<usize>,
    ) -> (r: Result<u32, GraphError>)
        requires
            old(self)@.wf(),
            old(self)@.contains(n@),
            old(self)@.cached(n@) || forall|t: Application| apply.requires((t,)),
        ensures
            final(self)@.wf(),
            advances(old(self)@, n@, outcomes(*apply), final(self)@),
            journal(old(self)@, final(self)@, final(log)@, old(log)@.len() as int),
            final(log)@.subrange(0, old(log)@.len() as int) == old(log)@,
            match r {
                Ok(v) => final(self)@.caches[n@] == Some(v) && old(self)@.missing(n@) is None,
                Err(e) => old(self)@.reports(n@, e),
            },
        decreases n@, 1int,
    {
        let ghost before = self@;
        let ghost rel = outcomes(*apply);
        if let Some(v) = self.nodes[n.index].cache {
            proof {
                before.lemma_cached_not_missing(n@);
            }
            return Ok(v);
        }
        let value: u32 = match &self.nodes[n.index].op {
            Operation::Input(name) => {
                return Err(GraphError::UnsetInput { input: n, name: name.clone() });
            },
            Operation::Add(a, b) => {
                let (a, b) = (*a, *b);
                match self.traverse_pair(n, a, b, apply, log) {
                    Ok((x, y)) => apply(Application::Add(x, y)),
                    Err(e) => {
                        return Err(e);
                    },
                }
            },
            Operation::Mul(a, b) => {
                let (a, b) = (*a, *b);
                match self.traverse_pair(n, a, b, apply, log) {
                    Ok((x, y)) => apply(Application::Mul(x, y)),
                    Err(e) => {
                        return Err(e);
                    },
                }
            },
            Operation::Sin(a) => {
                let a = *a;
                assert(before.ops[n@].reads(a@));
                let r = self.traverse(a, apply, log);
                proof {
                    lemma_advances_later(before, a@, rel, self@, n@);
                    lemma_advances_lift(before, a@, n@, rel, self@);
                }
                match r {
                    Ok(x) => apply(Application::Sin(x)),
                    Err(e) => {
                        return Err(e);
                    },
                }
            },
            Operation::Pow(a, b) => {
                let (a, b) = (*a, *b);
                match self.traverse_pair(n, a, b, apply, log) {
                    Ok((x, y)) => apply(Application::Pow(x, y)),
                    Err(e) => {
                        return Err(e);
                    },
                }
            },
        };
        let ghost mid = self@;
        let ghost mid_log = log@;
        self.nodes[n.index].cache = Some(value);
        log.push(n.index);
        proof {
            assert(self@.ops =~= mid.ops);
            assert(self@.dependents =~= mid.dependents);
            assert(self@.caches =~= mid.caches.update(n@, Some(value)));
            lemma_store(before, mid, self@, n@, rel, value);
            let from = old(log)@.len() as int;
            lemma_journal_store(before, mid, self@, mid_log, from, n.index, value);
        }
        Ok(value)
    }

    /// Evaluates the two operands `a` and `b` of node `n`, in this order.
    fn traverse_pair<F: Fn(Application) -> u32>(
        &mut self,
        n: Handle,
        a: Handle,
        b: Handle,
        apply: &F,
        log: &mut Vec<usize>,
    ) -> (r: Result<(u32, u32), GraphError>)
        requires
            old(self)@.wf(),
            old(self)@.contains(n@),
            !old(self)@.cached(n@),
            old(self)@.ops[n@].first() == Some(a@),
            old(self)@.ops[n@].second() == Some(b@),
            forall|t: Application| apply.requires((t,)),
        ensures
            final(self)@.wf(),
            advances(old(self)@, n@, outcomes(*apply), final(self)@),
            journal(old(self)@, final(self)@, final(log)@, old(log)@.len() as int),
            final(log)@.subrange(0, old(log)@.len() as int) == old(log)@,
            !final(self)@.cached(n@),
            match r {
                Ok((x, y)) => {
                    &&& final(self)@.caches[a@] == Some(x)
                    &&& final(self)@.caches[b@] == Some(y)
                    &&& old(self)@.missing(n@) is None
                },
                Err(e) => old(self)@.reports(n@, e),
            },
        decreases n@, 0int,
    {
        let ghost before = self@;
        let ghost rel = outcomes(*apply);
        assert(before.ops[n@].reads(a@));
        assert(before.ops[n@].reads(b@));
        let x = match self.traverse(a, apply, log) {
            Ok(x) => x,
            Err(i) => {
                proof {
                    lemma_advances_later(before, a@, rel, self@, n@);
                    lemma_advances_lift(before, a@, n@, rel, self@);
                }
                return Err(i);
            },
        };
        let ghost mid = self@;
        let ghost mid_log = log@;
        let r = self.traverse(b, apply, log);
        proof {
            lemma_advances_later(before, a@, rel, mid, n@);
            lemma_advances_later(mid, b@, rel, self@, n@);
            lemma_advances_lift(before, a@, n@, rel, mid);
            lemma_advances_lift(mid, b@, n@, rel, self@);
            lemma_advances_twice(before, mid, self@, n@, rel);
            lemma_advances_missing(before, a@, rel, mid, b@);
            lemma_journal_twice(before, mid, self@, mid_log, log@, old(log)@.len() as int);
        }
        match r {
            Ok(y) => {
                assert(mid.cached(a@));
                Ok((x, y))
            },
            Err(i) => Err(i),
        }
    }

    /// Takes back the values that the nodes listed in `log` were given.
    fn discard(&mut self, log: &Vec<usize>, Ghost(before): Ghost<GraphModel>)
        requires
            before.structured(),
            old(self)@.ops == before.ops,
            old(self)@.dependents == before.dependents,
            old(self)@.caches.len() == before.caches.len(),
            forall|m: int| #[trigger] before.cached(m) ==> old(self)@.caches[m] == before.caches[m],
            journal(before, old(self)@, log@, 0),
        ensures
            final(self)@ == before,
    {
        let ghost mid = self@;
        let mut j: usize = 0;
        assert forall|m: int|
            #![trigger mid.caches[m]]
            before.contains(m) implies mid.caches[m] == before.caches[m] || exists|k: int|
            0 <= k < log.len() && #[trigger] log@[k] == m by {
            assert(before.cached(m) || !mid.cached(m) || exists|k: int|
                0 <= k < log.len() && #[trigger] log@[k] == m);
        }
        while j < log.len()
            invariant
                j <= log.len(),
                before.structured(),
                mid.ops == before.ops,
                mid.caches.len() == before.caches.len(),
                self@.ops == before.ops,
                self@.dependents == before.dependents,
                self@.caches.len() == before.caches.len(),
                journal(before, mid, log@, 0),
                forall|m: int|
                    #![trigger self@.caches[m]]
                    before.contains(m) ==> self@.caches[m] == before.caches[m] || (self@.caches[m]
                        == mid.caches[m] && exists|k: int|
                        j <= k < log.len() && #[trigger] log@[k] == m),
            decreases log.len() - j,
        {
            let m = log[j];
            let ghost prev = self@;
            self.nodes[m].cache = None;
            proof {
                assert forall|i: int|
                    #![trigger self@.caches[i]]
                    before.contains(i) implies self@.caches[i] == before.caches[i] || (
                    self@.caches[i] == mid.caches[i] && exists|k: int|
                        j + 1 <= k < log.len() && #[trigger] log@[k] == i) by {
                    if i == m {
                        assert(!before.cached(m as int));
                    } else if prev.caches[i] != before.caches[i] {
                        let k = choose|k: int| j <= k < log.len() && #[trigger] log@[k] == i;
                        assert(j + 1 <= k);
                    }
                }
            }
            j += 1;
        }
        assert(self@.caches =~= before.caches);
    }

    /// The value of node `root`.
    ///
    /// Where `root` holds a value, that value is returned and nothing changes. Otherwise the
    /// nodes without a value that `root` depends on are evaluated, operands before the node
    /// that reads them and each node once: `apply` is called with the operator of the node
    /// and the values of its operands, and the node keeps what `apply` returns.
    ///
    /// An input without a value cannot be evaluated. Where `root` depends on one, the first
    /// such input is reported, and the graph is left as it was.
    ///
    /// `apply` must accept every application, unless `root` holds a value: then it is not
    /// called.
    pub fn compute<F: Fn(Application) -> u32>(
        &mut self,
        root: Handle,
        apply: F,
    ) -> (r: Result<u32, GraphError>)
        requires
            old(self)@.wf(),
            old(self)@.contains(root@),
            old(self)@.cached(root@) || forall|t: Application| apply.requires((t,)),
        ensures
            final(self)@.wf(),
            r is Ok <==> old(self)@.ready(root@),
            match r {
                Ok(value) => old(self)@.evaluates(root@, outcomes(apply), final(self)@, value),
                Err(e) => old(self)@.reports(root@, e) && final(self)@ == old(self)@,
            },
            old(self)@.cached(root@) ==> r == Ok::<u32, GraphError>(old(self)@.value(root@))
                && final(self)@ == old(self)@,
    {
        let ghost before = self@;
        proof {
            before.lemma_ready(root@);
        }
        let mut log: Vec<usize> = Vec::new();
        match self.traverse(root, &apply, &mut log) {
            Ok(value) => {
                proof {
                    let after = self@;
                    if before.cached(root@) {
                        assert forall|m: int| 0 <= m < before.caches.len() implies after.caches[m]
                            == before.caches[m] by {
                            if !before.cached(m) && after.cached(m) {
                                before.lemma_cached_below(root@, m);
                            }
                        }
                        assert(after.caches =~= before.caches);
                    }
                    assert forall|m: int|
                        #![trigger after.caches[m]]
                        before.contains(m) implies if before.cached(m) {
                        after.caches[m] == before.caches[m]
                    } else if before.depends_on(root@, m) {
                        after.produced(outcomes(apply), m)
                    } else {
                        after.caches[m] is None
                    } by {
                        if !before.cached(m) {
                            if before.depends_on(root@, m) {
                                after.lemma_cached_below(root@, m);
                            } else {
                                assert(!after.cached(m));
                            }
                        }
                    }
                }
                Ok(value)
            },
            Err(e) => {
                proof {
                    if before.cached(root@) {
                        before.lemma_cached_not_missing(root@);
                    }
                }
                self.discard(&log, Ghost(before));
                Err(e)
            },
        }
    }
}

} // verus!
