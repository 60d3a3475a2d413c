//! Facts about which nodes depend on which.

use crate::model::{reaches, GraphModel, Op};
use vstd::prelude::*;

verus! {

/// The operand through which `n` depends on another node `m`.
pub open spec fn operand_towards(ops: Seq<Op>, n: int, m: int) -> int {
    if ops[n].first() matches Some(a) && 0 <= a < n && reaches(ops, a, m) {
        ops[n].first().unwrap()
    } else {
        ops[n].second().unwrap()
    }
}

/// A node that depends on another node does so through one of its operands.
pub proof fn lemma_reaches_via(ops: Seq<Op>, n: int, m: int)
    requires
        reaches(ops, n, m),
        n != m,
    ensures
        0 <= operand_towards(ops, n, m) < n < ops.len(),
        ops[n].reads(operand_towards(ops, n, m)),
        reaches(ops, operand_towards(ops, n, m), m),
{
}

/// A node depends only on itself and on nodes that stand before it.
pub proof fn lemma_reaches_earlier(ops: Seq<Op>, n: int, m: int)
    requires
        reaches(ops, n, m),
    ensures
        m <= n,
        n != m ==> 0 <= m && n < ops.len(),
    decreases n,
{
    if n != m {
        lemma_reaches_via(ops, n, m);
        lemma_reaches_earlier(ops, operand_towards(ops, n, m), m);
    }
}

/// Dependence is transitive.
pub proof fn lemma_reaches_transitive(ops: Seq<Op>, n: int, k: int, m: int)
    requires
        reaches(ops, n, k),
        reaches(ops, k, m),
    ensures
        reaches(ops, n, m),
    decreases n,
{
    if n != k {
        lemma_reaches_via(ops, n, k);
        lemma_reaches_transitive(ops, operand_towards(ops, n, k), k, m);
    }
}

/// A node depends on each of its operands, where these stand before it.
pub proof fn lemma_reaches_operand(ops: Seq<Op>, n: int, k: int)
    requires
        0 <= n < ops.len(),
        ops[n].reads(k),
        0 <= k < n,
    ensures
        reaches(ops, n, k),
{
    assert(reaches(ops, k, k));
}

impl GraphModel {
    /// A node that does not depend on `m` has no operand that depends on `m`.
    pub proof fn lemma_operand_independent(self, n: int, k: int, m: int)
        requires
            self.structured(),
            self.contains(n),
            self.ops[n].reads(k),
            !self.depends_on(n, m),
        ensures
            !self.depends_on(k, m),
    {
        if self.depends_on(k, m) {
            lemma_reaches_operand(self.ops, n, k);
            lemma_reaches_transitive(self.ops, n, k, m);
        }
    }

    /// Every recorded dependent of a node stands after it and depends on it.
    pub proof fn lemma_dependent_depends(self, k: int, j: int)
        requires
            self.structured(),
            self.contains(k),
            0 <= j < self.dependents[k].len(),
        ensures
            k < self.dependents[k][j] < self.len(),
            self.depends_on(self.dependents[k][j], k),
    {
        let d = self.dependents[k][j];
        lemma_reaches_operand(self.ops, d, k);
    }

    /// A node that depends on another node `k` depends on one of the recorded dependents of
    /// `k`, so a walk along the dependents of `k` finds it.
    pub proof fn lemma_dependents_cover(self, n: int, k: int) -> (j: int)
        requires
            self.structured(),
            self.depends_on(n, k),
            n != k,
        ensures
            self.contains(k),
            0 <= j < self.dependents[k].len(),
            self.depends_on(n, self.dependents[k][j]),
        decreases n,
    {
        lemma_reaches_earlier(self.ops, n, k);
        lemma_reaches_via(self.ops, n, k);
        let through = operand_towards(self.ops, n, k);
        if through == k {
            let j = choose|j: int| 0 <= j < self.dependents[k].len() && self.dependents[k][j] == n;
            j
        } else {
            let j = self.lemma_dependents_cover(through, k);
            lemma_reaches_operand(self.ops, n, through);
            lemma_reaches_transitive(self.ops, n, through, self.dependents[k][j]);
            j
        }
    }

    /// Where a node holds a value, so does every node that it depends on.
    pub proof fn lemma_cached_below(self, n: int, m: int)
        requires
            self.wf(),
            self.cached(n),
            self.depends_on(n, m),
        ensures
            self.cached(m),
        decreases n,
    {
        if n != m {
            lemma_reaches_via(self.ops, n, m);
            self.lemma_cached_below(operand_towards(self.ops, n, m), m);
        }
    }

    /// Whether a walk from node `k` along recorded dependents comes to node `n`.
    pub open spec fn walk_reaches(self, k: int, n: int) -> bool
        decreases self.len() - k,
    {
        k == n || (self.contains(k) && exists|j: int|
            0 <= j < self.dependents[k].len() && k < (#[trigger] self.dependents[k][j])
                < self.len() && self.walk_reaches(self.dependents[k][j], n))
    }

    /// A walk along recorded dependents only comes to nodes that depend on its start.
    pub proof fn lemma_walk_sound(self, k: int, n: int)
        requires
            self.structured(),
            self.walk_reaches(k, n),
        ensures
            self.depends_on(n, k),
        decreases self.len() - k,
    {
        if k != n {
            let j = choose|j: int|
                0 <= j < self.dependents[k].len() && k < (#[trigger] self.dependents[k][j])
                    < self.len() && self.walk_reaches(self.dependents[k][j], n);
            let d = self.dependents[k][j];
            self.lemma_walk_sound(d, n);
            self.lemma_dependent_depends(k, j);
            lemma_reaches_transitive(self.ops, n, d, k);
        }
    }

    /// A walk along recorded dependents comes to every node that depends on its start.
    pub proof fn lemma_walk_complete(self, k: int, n: int)
        requires
            self.structured(),
            self.depends_on(n, k),
        ensures
            self.walk_reaches(k, n),
        decreases self.len() - k,
    {
        if k != n {
            let j = self.lemma_dependents_cover(n, k);
            self.lemma_dependent_depends(k, j);
            self.lemma_walk_complete(self.dependents[k][j], n);
        }
    }
}

} // verus!
