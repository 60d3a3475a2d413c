//! Setting an input, and the invalidation that goes with it.

use crate::graph::{Graph, GraphError, Handle, Operation};
use crate::model::GraphModel;
use crate::reach::lemma_reaches_transitive;
use vstd::prelude::*;

verus! {

impl GraphModel {
    /// This graph after node `n` and every node that depends on it have lost their values.
    pub open spec fn cleared(self, n: int) -> GraphModel {
        GraphModel {
            caches: Seq::new(
                self.caches.len(),
                |m: int|
                    if self.depends_on(m, n) {
                        None
                    } else {
                        self.caches[m]
                    },
            ),
            ..self
        }
    }

    /// This graph after input `i` was set to `value`: the nodes that depend on `i` have lost
    /// their values, and `i` holds `value`.
    pub open spec fn assigned(self, i: int, value: u32) -> GraphModel {
        GraphModel { caches: self.cleared(i).caches.update(i, Some(value)), ..self }
    }

    /// From position `n` on, a node without a value has no node with a value depending on
    /// it.
    spec fn settled_from(self, n: int) -> bool {
        forall|m: int, x: int|
            n <= m && !self.cached(m) && #[trigger] self.depends_on(x, m) ==> !self.cached(x)
    }

    /// Whether `m` is node `n` or depends on one of the first `j` dependents of `n`.
    spec fn touched(self, n: int, j: int, m: int) -> bool {
        m == n || exists|i: int|
            0 <= i < j && self.depends_on(m, #[trigger] self.dependents[n][i])
    }

    /// In a sound graph a node without a value has no node with a value depending on it.
    proof fn lemma_settled(self)
        requires
            self.wf(),
        ensures
            self.settled_from(0),
    {
        assert forall|m: int, x: int|
            0 <= m && !self.cached(m) && #[trigger] self.depends_on(x, m) implies !self.cached(
            x,
        ) by {
            if self.cached(x) {
                self.lemma_cached_below(x, m);
            }
        }
    }

    /// Setting an input of a sound graph leaves the graph sound.
    pub proof fn lemma_assigned_wf(self, i: int, value: u32)
        requires
            self.wf(),
            self.is_input(i),
        ensures
            self.assigned(i, value).wf(),
    {
        let post = self.assigned(i, value);
        assert forall|m: int, k: int|
            post.cached(m) && #[trigger] post.ops[m].reads(k) implies post.cached(k) by {
            self.lemma_operand_independent(m, k, i);
        }
    }
}

impl Graph {
    /// Takes the value from node `n` and from every node that depends on it. A node that
    /// holds no value is not gone into: nothing that depends on it holds one.
    fn clear_cache(&mut self, n: Handle)
        requires
            old(self)@.structured(),
            old(self)@.contains(n@),
            old(self)@.settled_from(n@),
        ensures
            final(self)@ == old(self)@.cleared(n@),
        decreases old(self)@.len() - n@,
    {
        let ghost before = self@;
        if self.nodes[n.index].cache.is_none() {
            proof {
                assert forall|m: int| 0 <= m < before.caches.len() implies before.caches[m]
                    == before.cleared(n@).caches[m] by {
                    if before.depends_on(m, n@) {
                        assert(!before.cached(m));
                    }
                }
                assert(before.caches =~= before.cleared(n@).caches);
            }
            return ;
        }
        self.nodes[n.index].cache = None;
        let count = self.nodes[n.index].dependents.len();
        proof {
            assert(self@.ops =~= before.ops);
            assert(self@.dependents =~= before.dependents);
            assert(self@.caches =~= before.caches.update(n@, None));
            assert forall|m: int, x: int|
                n@ + 1 <= m && !self@.cached(m) && #[trigger] self@.depends_on(
                    x,
                    m,
                ) implies !self@.cached(x) by {
                assert(!before.cached(m));
                assert(before.depends_on(x, m));
            }
        }
        let mut j: usize = 0;
        while j < count
            invariant
                j <= count,
                count == before.dependents[n@].len(),
                before == old(self)@,
                before.structured(),
                before.contains(n@),
                self@.ops == before.ops,
                self@.dependents == before.dependents,
                self@.caches.len() == before.caches.len(),
                self.nodes@.len() == before.len(),
                count == self.nodes@[n@].dependents@.len(),
                self@.settled_from(n@ + 1),
                forall|m: int|
                    #![trigger self@.caches[m]]
                    before.contains(m) ==> self@.caches[m] == if before.touched(n@, j as int, m) {
                        None
                    } else {
                        before.caches[m]
                    },
            decreases count - j,
        {
            let d = self.nodes[n.index].dependents[j];
            let ghost prev = self@;
            proof {
                before.lemma_dependent_depends(n@, j as int);
            }
            self.clear_cache(d);
            proof {
                assert forall|m: int, x: int|
                    n@ + 1 <= m && !self@.cached(m) && #[trigger] self@.depends_on(
                        x,
                        m,
                    ) implies !self@.cached(x) by {
                    if prev.cached(m) {
                        lemma_reaches_transitive(prev.ops, x, m, d@);
                    } else {
                        assert(prev.depends_on(x, m));
                    }
                }
                assert forall|m: int|
                    #![trigger self@.caches[m]]
                    before.contains(m) implies self@.caches[m] == if before.touched(
                    n@,
                    j + 1,
                    m,
                ) {
                    None
                } else {
                    before.caches[m]
                } by {
                    if before.touched(n@, j as int, m) {
                        if m != n@ {
                            let i = choose|i: int|
                                0 <= i < j && before.depends_on(
                                    m,
                                    #[trigger] before.dependents[n@][i],
                                );
                            assert(0 <= i < j + 1);
                        }
                        assert(before.touched(n@, j + 1, m));
                    } else if before.depends_on(m, d@) {
                        assert(before.touched(n@, j + 1, m));
                    } else if before.touched(n@, j + 1, m) {
                        let i = choose|i: int|
                            0 <= i < j + 1 && before.depends_on(
                                m,
                                #[trigger] before.dependents[n@][i],
                            );
                        assert(i == j);
                    }
                }
            }
            j += 1;
        }
        proof {
            assert forall|m: int| 0 <= m < before.caches.len() implies self@.caches[m]
                == before.cleared(n@).caches[m] by {
                if before.touched(n@, count as int, m) {
                    if m != n@ {
                        let i = choose|i: int|
                            0 <= i < count && before.depends_on(
                                m,
                                #[trigger] before.dependents[n@][i],
                            );
                        before.lemma_dependent_depends(n@, i);
                        lemma_reaches_transitive(before.ops, m, before.dependents[n@][i], n@);
                    }
                } else if before.depends_on(m, n@) {
                    let i = before.lemma_dependents_cover(m, n@);
                    assert(before.touched(n@, count as int, m));
                }
            }
            assert(self@.caches =~= before.cleared(n@).caches);
        }
    }

    /// Gives input `input` the value `value`.
    ///
    /// Every node that depends on `input` loses its value, whatever `input` held before, and
    /// every other node keeps what it holds. A node that is no input is turned down, and
    /// the graph is left as it was.
    pub fn set(&mut self, input: Handle, value: u32) -> (r: Result<(), GraphError>)
        requires
            old(self)@.wf(),
            old(self)@.contains(input@),
        ensures
            final(self)@.wf(),
            match r {
                Ok(_) => old(self)@.is_input(input@) && final(self)@ == old(self)@.assigned(
                    input@,
                    value,
                ),
                Err(e) => e == GraphError::NotAnInput && !old(self)@.is_input(input@)
                    && final(self)@ == old(self)@,
            },
    {
        match &self.nodes[input.index].op {
            Operation::Input(_) => {},
            _ => {
                return Err(GraphError::NotAnInput);
            },
        }
        proof {
            old(self)@.lemma_settled();
        }
        self.clear_cache(input);
        let ghost mid = self@;
        self.nodes[input.index].cache = Some(value);
        proof {
            assert(self@.ops =~= mid.ops);
            assert(self@.dependents =~= mid.dependents);
            assert(self@.caches =~= mid.caches.update(input@, Some(value)));
            old(self)@.lemma_assigned_wf(input@, value);
        }
        Ok(())
    }
}

} // verus!
