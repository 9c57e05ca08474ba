//! Disposal of scopes.

use vstd::prelude::*;
use crate::handle::{ScopeId, Status};
use crate::coherence::coherent_dispose;
use crate::preserve::lemma_dispose;
use crate::runtime::{index_set, Runtime};

verus! {

impl Runtime {
    /// The sources of node `i` that lead to a slot that holds a node.
    fn live_sources(&self, i: usize) -> (kept: Vec<usize>)
        requires
            i < self.nodes@.len(),
            forall|k: int|
                0 <= k < self.nodes@[i as int].sources@.len() ==> self.nodes@[i as int].sources@[k]
                    < self.nodes@.len(),
        ensures
            forall|s: int|
                index_set(kept@).contains(s) <==> (index_set(self.nodes@[i as int].sources@).contains(s)
                    && self.nodes@[s].live),
    {
        let mut kept: Vec<usize> = Vec::new();
        let mut k: usize = 0;
        let n = self.nodes[i].sources.len();
        while k < n
            invariant
                i < self.nodes@.len(),
                n == self.nodes@[i as int].sources@.len(),
                k <= n,
                forall|k: int|
                    0 <= k < self.nodes@[i as int].sources@.len() ==> self.nodes@[i as int].sources@[k]
                        < self.nodes@.len(),
                forall|m: int|
                    0 <= m < kept@.len() ==> index_set(self.nodes@[i as int].sources@).contains(
                        #[trigger] kept@[m] as int,
                    ) && self.nodes@[kept@[m] as int].live,
                forall|m: int|
                    0 <= m < k && self.nodes@[self.nodes@[i as int].sources@[m] as int].live
                        ==> index_set(kept@).contains(#[trigger] self.nodes@[i as int].sources@[m] as int),
            decreases n - k,
        {
            let s = self.nodes[i].sources[k];
            let ghost before = kept@;
            if self.nodes[s].live {
                kept.push(s);
                proof {
                    assert(kept@[before.len() as int] == s);
                    assert(self.nodes@[i as int].sources@[k as int] == s);
                }
            }
            proof {
                assert forall|m: int|
                    0 <= m < k + 1 && self.nodes@[self.nodes@[i as int].sources@[m] as int].live implies index_set(
                    kept@,
                ).contains(#[trigger] self.nodes@[i as int].sources@[m] as int) by {
                    if m < k {
                        let x = self.nodes@[i as int].sources@[m];
                        assert(index_set(before).contains(x as int));
                        let j = choose|j: int| 0 <= j < before.len() && #[trigger] before[j] as int == x as int;
                        assert(kept@[j] == before[j]);
                    } else {
                        assert(kept@[before.len() as int] == s);
                    }
                }
            }
            k += 1;
        }
        kept
    }

    /// Disposes the scope: every node created in it is removed from the
    /// graph, together with every edge that led to it.
    pub fn dispose(&mut self, scope: ScopeId)
        requires
            old(self).wf(),
        ensures
            final(self).wf(),
            final(self)@ == old(self)@.dispose(scope.id),
    {
        let ghost goal = old(self)@.dispose(scope.id);
        let n = self.nodes.len();
        let mut i: usize = 0;
        while i < n
            invariant
                i <= n,
                n == self.nodes@.len(),
                n == old(self).nodes@.len(),
                self.scopes == old(self).scopes,
                forall|j: int| i <= j < n ==> self.nodes@[j] == old(self).nodes@[j],
                forall|j: int|
                    0 <= j < i && old(self)@.doomed(scope.id, j) ==> #[trigger] self.nodes@[j]@
                        == old(self)@.slots[j].retired(),
                forall|j: int|
                    0 <= j < i && !old(self)@.doomed(scope.id, j) ==> #[trigger] self.nodes@[j] == old(
                        self,
                    ).nodes@[j],
            decreases n - i,
        {
            if self.nodes[i].live && self.nodes[i].scope == scope.id {
                self.nodes[i].live = false;
                self.nodes[i].written = false;
                self.nodes[i].status = Status::Clean;
                self.nodes[i].sources = Vec::new();
                self.nodes[i].seen = Ghost(Map::empty());
                proof {
                    assert(self.nodes@[i as int]@.sources =~= Set::<int>::empty());
                }
            }
            i += 1;
        }
        let ghost mid = *self;
        let mut i: usize = 0;
        while i < n
            invariant
                i <= n,
                n == self.nodes@.len(),
                n == old(self).nodes@.len(),
                n == mid.nodes@.len(),
                old(self).wf(),
                goal == old(self)@.dispose(scope.id),
                self.scopes == old(self).scopes,
                forall|j: int|
                    0 <= j < n && old(self)@.doomed(scope.id, j) ==> #[trigger] mid.nodes@[j]@ == old(
                        self,
                    )@.slots[j].retired(),
                forall|j: int|
                    0 <= j < n && !old(self)@.doomed(scope.id, j) ==> #[trigger] mid.nodes@[j] == old(
                        self,
                    ).nodes@[j],
                forall|j: int| 0 <= j < n ==> #[trigger] self.nodes@[j].live == mid.nodes@[j].live,
                forall|j: int| i <= j < n ==> self.nodes@[j] == mid.nodes@[j],
                forall|j: int| 0 <= j < i ==> #[trigger] self.nodes@[j]@ == goal.slots[j],
            decreases n - i,
        {
            proof {
                assert(old(self)@.slot_inv(i as int));
            }
            if self.nodes[i].live {
                proof {
                    assert(!old(self)@.doomed(scope.id, i as int));
                    assert(self.nodes@[i as int] == old(self).nodes@[i as int]);
                    assert forall|k: int| 0 <= k < self.nodes@[i as int].sources@.len() implies self.nodes@[i as int].sources@[k]
                        < self.nodes@.len() by {
                        let s = self.nodes@[i as int].sources@[k];
                        assert(old(self)@.slots[i as int].sources.contains(s as int));
                    }
                }
                let ghost before = *self;
                let kept = self.live_sources(i);
                self.nodes[i].sources = kept;
                self.nodes[i].seen = Ghost(
                    old(self)@.slots[i as int].seen.restrict(
                        old(self)@.surviving(scope.id, i as int),
                    ),
                );
                proof {
                    assert forall|s: int| self.nodes@[i as int]@.sources.contains(s) == goal.slots[i as int].sources.contains(
                        s,
                    ) by {
                        if old(self)@.slots[i as int].sources.contains(s) {
                            assert(old(self)@.has(s));
                            assert(before.nodes@[s].live == mid.nodes@[s].live);
                            if old(self)@.doomed(scope.id, s) {
                                assert(mid.nodes@[s]@ == old(self)@.slots[s].retired());
                            } else {
                                assert(mid.nodes@[s] == old(self).nodes@[s]);
                            }
                        }
                    }
                    assert(self.nodes@[i as int]@.sources =~= goal.slots[i as int].sources);
                }
            } else {
                proof {
                    if old(self)@.doomed(scope.id, i as int) {
                        assert(mid.nodes@[i as int]@ == old(self)@.slots[i as int].retired());
                    } else {
                        assert(mid.nodes@[i as int] == old(self).nodes@[i as int]);
                        assert(self.nodes@[i as int]@.sources =~= goal.slots[i as int].sources);
                        assert(old(self)@.slot_coherent(i as int));
                        assert(self.nodes@[i as int]@.seen =~= goal.slots[i as int].seen);
                    }
                }
            }
            i += 1;
        }
        proof {
            assert(self@.slots =~= goal.slots);
            lemma_dispose(old(self)@, scope.id);
            coherent_dispose(old(self)@, scope.id);
        }
    }
}

} // verus!
