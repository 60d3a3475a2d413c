//! What holds of every graph, stated over the model and proved from the contracts.

use crate::eval::Application;
use crate::model::{GraphModel, Op};
use crate::reach::{
    lemma_reaches_earlier, lemma_reaches_operand, lemma_reaches_transitive, lemma_reaches_via,
};
use vstd::prelude::*;

verus! {

/// `rel` allows at most one value for each application.
pub open spec fn deterministic(rel: spec_fn(Application, u32) -> bool) -> bool {
    forall|t: Application, v: u32, w: u32| #[trigger] rel(t, v) && #[trigger] rel(t, w) ==> v == w
}

/// `rel` allows for an application no value but the one that `f` gives.
pub open spec fn follows(
    rel: spec_fn(Application, u32) -> bool,
    f: spec_fn(Application) -> u32,
) -> bool {
    forall|t: Application, v: u32| #[trigger] rel(t, v) ==> v == f(t)
}

/// An evaluation leaves a sound graph sound.
pub proof fn lemma_evaluates_wf(
    g: GraphModel,
    root: int,
    rel: spec_fn(Application, u32) -> bool,
    post: GraphModel,
    value: u32,
)
    requires
        g.wf(),
        g.evaluates(root, rel, post, value),
    ensures
        post.wf(),
{
    assert forall|m: int, k: int|
        post.cached(m) && #[trigger] post.ops[m].reads(k) implies post.cached(k) by {
        if !g.cached(m) {
            lemma_reaches_operand(g.ops, m, k);
            lemma_reaches_transitive(g.ops, root, m, k);
        }
    }
}

/// In a graph without nodes every value is one that `rel` allows: there is none.
pub proof fn law_empty_consistent(rel: spec_fn(Application, u32) -> bool)
    ensures
        GraphModel::empty().consistent(rel),
        GraphModel::empty().wf(),
{
}

/// An evaluation keeps every value one that `rel` allows, where the values were such
/// before.
pub proof fn law_evaluation_keeps_consistent(
    g: GraphModel,
    root: int,
    rel: spec_fn(Application, u32) -> bool,
    post: GraphModel,
    value: u32,
)
    requires
        g.wf(),
        g.consistent(rel),
        g.evaluates(root, rel, post, value),
    ensures
        post.consistent(rel),
{
    assert forall|n: int| #[trigger] post.cached(n) && !post.is_input(n) implies post.produced(
        rel,
        n,
    ) by {
        g.ops[n].lemma_reads_operands();
    }
}

/// Setting an input keeps every value one that `rel` allows.
pub proof fn law_set_keeps_consistent(
    g: GraphModel,
    i: int,
    value: u32,
    rel: spec_fn(Application, u32) -> bool,
)
    requires
        g.wf(),
        g.is_input(i),
        g.consistent(rel),
    ensures
        g.assigned(i, value).consistent(rel),
{
    let post = g.assigned(i, value);
    assert forall|n: int| #[trigger] post.cached(n) && !post.is_input(n) implies post.produced(
        rel,
        n,
    ) by {
        assert(g.cached(n));
        g.ops[n].lemma_reads_operands();
        if g.ops[n].first() matches Some(a) {
            g.lemma_operand_independent(n, g.ops[n].first().unwrap(), i);
        }
        if g.ops[n].second() matches Some(b) {
            g.lemma_operand_independent(n, g.ops[n].second().unwrap(), i);
        }
    }
}

/// A new node keeps every value one that `rel` allows.
pub proof fn law_construction_keeps_consistent(
    g: GraphModel,
    op: Op,
    rel: spec_fn(Application, u32) -> bool,
)
    requires
        g.wf(),
        forall|k: int| op.reads(k) ==> g.contains(k),
        g.consistent(rel),
    ensures
        g.attach(op).consistent(rel),
{
    let post = g.attach(op);
    g.lemma_attach_nodes(op);
    assert forall|n: int| #[trigger] post.cached(n) && !post.is_input(n) implies post.produced(
        rel,
        n,
    ) by {
        assert(g.cached(n));
        g.ops[n].lemma_reads_operands();
    }
}

/// No value is stale: where every value is one that an arithmetic following `f` allows, a
/// node that holds a value holds what it stands for under `f` with the inputs as they are.
pub proof fn law_held_value_is_current(
    g: GraphModel,
    rel: spec_fn(Application, u32) -> bool,
    f: spec_fn(Application) -> u32,
    n: int,
)
    requires
        g.wf(),
        g.consistent(rel),
        follows(rel, f),
        g.cached(n),
    ensures
        g.caches[n] == Some(g.denotes(f, n)),
    decreases n,
{
    if !g.is_input(n) {
        assert(g.produced(rel, n));
        g.ops[n].lemma_reads_operands();
        if g.ops[n].first() matches Some(a) {
            law_held_value_is_current(g, rel, f, g.ops[n].first().unwrap());
        }
        if g.ops[n].second() matches Some(b) {
            law_held_value_is_current(g, rel, f, g.ops[n].second().unwrap());
        }
    }
}

/// Evaluation is right: in such a graph, and with such an arithmetic, an evaluation of a
/// node returns what the node stands for under `f`.
pub proof fn law_evaluation_denotes(
    g: GraphModel,
    root: int,
    rel: spec_fn(Application, u32) -> bool,
    f: spec_fn(Application) -> u32,
    post: GraphModel,
    value: u32,
)
    requires
        g.wf(),
        g.contains(root),
        g.consistent(rel),
        follows(rel, f),
        g.evaluates(root, rel, post, value),
    ensures
        value == g.denotes(f, root),
        forall|n: int| post.denotes(f, n) == g.denotes(f, n),
{
    lemma_evaluates_wf(g, root, rel, post, value);
    law_evaluation_keeps_consistent(g, root, rel, post, value);
    law_held_value_is_current(post, rel, f, root);
    assert forall|n: int| post.denotes(f, n) == g.denotes(f, n) by {
        assert forall|i: int| #[trigger] g.is_input(i) implies post.caches[i] == g.caches[i] by {
            assert(g.cached(i) || !post.produced(rel, i));
        }
        g.lemma_denotes_frame(post, f, n);
    }
}

/// Setting an input changes what a node stands for only where the node depends on that
/// input.
pub proof fn law_set_denotes(
    g: GraphModel,
    i: int,
    value: u32,
    f: spec_fn(Application) -> u32,
    n: int,
)
    requires
        g.wf(),
        g.is_input(i),
        !g.depends_on(n, i) || g.caches[i] == Some(value),
    ensures
        g.assigned(i, value).denotes(f, n) == g.denotes(f, n),
{
    let post = g.assigned(i, value);
    assert forall|k: int| g.depends_on(n, k) && #[trigger] g.is_input(k) implies post.caches[k]
        == g.caches[k] by {
        if k != i && g.depends_on(k, i) {
            lemma_reaches_via(g.ops, k, i);
        }
    }
    g.lemma_denotes_frame(post, f, n);
}

/// Memoization: a second evaluation of a node, with nothing set in between, returns the
/// value of the first and leaves the graph as the first left it. This holds whatever
/// arithmetic the second evaluation is given, so it applies none.
pub proof fn law_memoized(
    g: GraphModel,
    root: int,
    rel: spec_fn(Application, u32) -> bool,
    mid: GraphModel,
    first: u32,
    again: spec_fn(Application, u32) -> bool,
    post: GraphModel,
    second: u32,
)
    requires
        g.wf(),
        g.contains(root),
        g.evaluates(root, rel, mid, first),
        mid.evaluates(root, again, post, second),
    ensures
        second == first,
        post == mid,
        mid.ready(root),
{
    lemma_evaluates_wf(g, root, rel, mid, first);
    assert forall|m: int| 0 <= m < mid.caches.len() implies post.caches[m] == mid.caches[m] by {
        if !mid.cached(m) && mid.depends_on(root, m) {
            mid.lemma_cached_below(root, m);
        }
    }
    assert(post.caches =~= mid.caches);
    mid.lemma_cached_not_missing(root);
    mid.lemma_ready(root);
}

/// Where the arithmetic allows one value for each application, two evaluations of a node
/// in one graph agree on every node.
pub proof fn lemma_evaluates_agree(
    g: GraphModel,
    root: int,
    rel: spec_fn(Application, u32) -> bool,
    one: GraphModel,
    value: u32,
    other: GraphModel,
    other_value: u32,
    m: int,
)
    requires
        g.wf(),
        deterministic(rel),
        g.evaluates(root, rel, one, value),
        g.evaluates(root, rel, other, other_value),
        g.contains(m),
    ensures
        one.caches[m] == other.caches[m],
    decreases m,
{
    if !g.cached(m) && g.depends_on(root, m) {
        g.ops[m].lemma_reads_operands();
        if g.ops[m].first() matches Some(a) {
            let a = g.ops[m].first().unwrap();
            lemma_evaluates_agree(g, root, rel, one, value, other, other_value, a);
        }
        if g.ops[m].second() matches Some(b) {
            let b = g.ops[m].second().unwrap();
            lemma_evaluates_agree(g, root, rel, one, value, other, other_value, b);
        }
    }
}

/// Evaluation is determined: where the arithmetic allows one value for each application,
/// an evaluation of a node can return one value only and leave one graph only.
pub proof fn law_evaluation_determined(
    g: GraphModel,
    root: int,
    rel: spec_fn(Application, u32) -> bool,
    one: GraphModel,
    value: u32,
    other: GraphModel,
    other_value: u32,
)
    requires
        g.wf(),
        g.contains(root),
        deterministic(rel),
        g.evaluates(root, rel, one, value),
        g.evaluates(root, rel, other, other_value),
    ensures
        value == other_value,
        one == other,
{
    assert forall|m: int| 0 <= m < one.caches.len() implies one.caches[m] == other.caches[m] by {
        lemma_evaluates_agree(g, root, rel, one, value, other, other_value, m);
    }
    assert(one.caches =~= other.caches);
}

/// Invalidation is complete: after an input was set, no other node that depends on it
/// holds a value.
pub proof fn law_invalidation_complete(g: GraphModel, i: int, value: u32, n: int)
    requires
        g.wf(),
        g.is_input(i),
        g.depends_on(n, i),
        n != i,
    ensures
        g.contains(n),
        g.assigned(i, value).caches[n] is None,
{
    lemma_reaches_earlier(g.ops, n, i);
}

/// The nodes that lose their values are those that a walk from the input along recorded
/// dependents comes to.
pub proof fn law_invalidation_follows_dependents(g: GraphModel, i: int, value: u32, n: int)
    requires
        g.wf(),
        g.is_input(i),
        g.contains(n),
        n != i,
    ensures
        g.walk_reaches(i, n) ==> g.assigned(i, value).caches[n] is None,
        !g.walk_reaches(i, n) ==> g.assigned(i, value).caches[n] == g.caches[n],
{
    if g.walk_reaches(i, n) {
        g.lemma_walk_sound(i, n);
    }
    if g.depends_on(n, i) {
        g.lemma_walk_complete(i, n);
    }
}

/// Invalidation is precise: a node that does not depend on the input that was set keeps
/// what it held.
pub proof fn law_invalidation_precise(g: GraphModel, i: int, value: u32, n: int)
    requires
        g.wf(),
        g.is_input(i),
        g.contains(n),
        !g.depends_on(n, i),
    ensures
        g.assigned(i, value).caches[n] == g.caches[n],
{
}

/// The input that was set holds the new value.
pub proof fn law_set_holds(g: GraphModel, i: int, value: u32)
    requires
        g.wf(),
        g.is_input(i),
    ensures
        g.assigned(i, value).caches[i] == Some(value),
        g.assigned(i, value).ops == g.ops,
        g.assigned(i, value).dependents == g.dependents,
{
}

/// Sharing: a product of a node with itself evaluates to what the arithmetic allows for
/// the product of that node's value with itself.
pub proof fn law_sharing(
    g: GraphModel,
    x: int,
    square: int,
    rel: spec_fn(Application, u32) -> bool,
    post: GraphModel,
    value: u32,
)
    requires
        g.wf(),
        g.consistent(rel),
        g.contains(square),
        g.ops[square] == Op::Mul(x, x),
        g.evaluates(square, rel, post, value),
    ensures
        post.cached(x),
        rel(Application::Mul(post.value(x), post.value(x)), value),
{
    lemma_evaluates_wf(g, square, rel, post, value);
    law_evaluation_keeps_consistent(g, square, rel, post, value);
    assert(post.ops[square].reads(x));
}

/// Setting an input twice to one value is the same as setting it once.
pub proof fn law_set_idempotent(g: GraphModel, i: int, value: u32)
    requires
        g.wf(),
        g.is_input(i),
    ensures
        g.assigned(i, value).assigned(i, value) == g.assigned(i, value),
{
    let once = g.assigned(i, value);
    let twice = once.assigned(i, value);
    assert(twice.caches =~= once.caches);
}

/// Setting an input to the value it holds still takes the values from the nodes that
/// depend on it, and, where the arithmetic allows one value for each application, an
/// evaluation after it gives every node that held a value the same value again.
pub proof fn law_set_same_value(
    g: GraphModel,
    i: int,
    value: u32,
    rel: spec_fn(Application, u32) -> bool,
    root: int,
    post: GraphModel,
    result: u32,
    n: int,
)
    requires
        g.wf(),
        g.consistent(rel),
        deterministic(rel),
        g.is_input(i),
        g.caches[i] == Some(value),
        g.assigned(i, value).evaluates(root, rel, post, result),
        g.cached(n),
    ensures
        n != i && g.depends_on(n, i) ==> g.assigned(i, value).caches[n] is None,
        post.cached(n) ==> post.caches[n] == g.caches[n],
    decreases n,
{
    let set = g.assigned(i, value);
    g.lemma_assigned_wf(i, value);
    law_set_keeps_consistent(g, i, value, rel);
    lemma_evaluates_wf(set, root, rel, post, result);
    law_evaluation_keeps_consistent(set, root, rel, post, result);
    if post.cached(n) && n != i && g.depends_on(n, i) {
        lemma_reaches_via(g.ops, n, i);
        g.ops[n].lemma_reads_operands();
        if g.ops[n].first() matches Some(a) {
            let a = g.ops[n].first().unwrap();
            law_set_same_value(g, i, value, rel, root, post, result, a);
        }
        if g.ops[n].second() matches Some(b) {
            let b = g.ops[n].second().unwrap();
            law_set_same_value(g, i, value, rel, root, post, result, b);
        }
    }
}

/// Acyclicity: two nodes that depend on each other are one node.
pub proof fn law_acyclic(g: GraphModel, n: int, m: int)
    requires
        g.depends_on(n, m),
        g.depends_on(m, n),
    ensures
        n == m,
{
    lemma_reaches_earlier(g.ops, n, m);
    lemma_reaches_earlier(g.ops, m, n);
}

/// Acyclicity: no operand of a node depends on that node, so no node is, directly or
/// through other nodes, an operand of itself.
pub proof fn law_no_node_reads_itself(g: GraphModel, n: int, k: int)
    requires
        g.wf(),
        g.contains(n),
        g.ops[n].reads(k),
    ensures
        k < n,
        !g.depends_on(k, n),
{
    if g.depends_on(k, n) {
        lemma_reaches_earlier(g.ops, k, n);
    }
}

/// Acyclicity is kept by construction: a new node stands after all nodes that were there,
/// and nothing that was there depends on it.
pub proof fn law_new_node_is_last(g: GraphModel, op: Op, m: int)
    requires
        g.wf(),
        forall|k: int| op.reads(k) ==> g.contains(k),
        g.contains(m),
    ensures
        g.attach(op).wf(),
        g.attach(op).len() == g.len() + 1,
        g.attach(op).ops[g.len()] == op,
        g.attach(op).ops[m] == g.ops[m],
        g.attach(op).caches[m] == g.caches[m],
        !g.attach(op).depends_on(m, g.len()),
{
    g.lemma_attach_wf(op);
    g.lemma_attach_nodes(op);
    if g.attach(op).depends_on(m, g.len()) {
        lemma_reaches_earlier(g.attach(op).ops, m, g.len());
    }
}

} // verus!
