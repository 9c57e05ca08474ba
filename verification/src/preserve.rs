//! Every operation keeps the graph invariant.

use vstd::prelude::*;
use crate::handle::{Kind, Read, Status};
use crate::model::{Graph, Slot};

verus! {

/// Handing out a scope keeps the invariant.
pub proof fn lemma_open_scope(g: Graph)
    requires
        g.inv(),
    ensures
        g.open_scope().inv(),
{
    let h = g.open_scope();
    assert forall|i: int| 0 <= i < h.slots.len() implies #[trigger] h.slot_inv(i) by {
        assert(g.slot_inv(i));
    }
}

/// A write to a live cell keeps the invariant.
pub proof fn lemma_write(g: Graph, i: int, value: i64)
    requires
        g.inv(),
        g.has(i),
        g.slots[i].kind == Kind::Cell,
    ensures
        g.write(i, value).inv(),
{
    let h = g.write(i, value);
    assert forall|k: int| 0 <= k < h.slots.len() implies #[trigger] h.slot_inv(k) by {
        assert(g.slot_inv(k));
        assert(g.slot_inv(i));
    }
}

/// The first reusable slot is where the next node goes.
pub proof fn lemma_next_index_reused(g: Graph, i: int)
    requires
        g.first_reusable(i),
    ensures
        g.next_index() == i,
{
    let c = choose|k: int| g.first_reusable(k);
    assert(g.first_reusable(c));
    if c < i {
        assert(!g.reusable(c));
    }
    if i < c {
        assert(!g.reusable(i));
    }
}

/// With no reusable slot the next node goes to the end.
pub proof fn lemma_next_index_appended(g: Graph)
    requires
        forall|i: int| !g.reusable(i),
    ensures
        g.next_index() == g.slots.len(),
{
}

/// Where the next node goes depends on the slots only.
pub proof fn lemma_next_id_of_same_slots(g: Graph, h: Graph)
    requires
        g.slots == h.slots,
    ensures
        g.next_id() == h.next_id(),
{
    assert forall|j: int| g.reusable(j) == h.reusable(j) by {}
    assert forall|i: int| g.first_reusable(i) == h.first_reusable(i) by {
        if g.first_reusable(i) {
            assert forall|j: int| 0 <= j < i implies !h.reusable(j) by {
                assert(!g.reusable(j));
            }
        }
        if h.first_reusable(i) {
            assert forall|j: int| 0 <= j < i implies !g.reusable(j) by {
                assert(!h.reusable(j));
            }
        }
    }
    if exists|i: int| g.first_reusable(i) {
        let i = choose|i: int| g.first_reusable(i);
        assert(h.first_reusable(i));
        lemma_next_index_reused(g, i);
        lemma_next_index_reused(h, i);
    }
}

/// The slot where the next node goes holds no node, and no edge leads to it.
pub proof fn lemma_next_index_vacant(g: Graph)
    requires
        g.inv(),
    ensures
        0 <= g.next_index() <= g.slots.len(),
        !g.has(g.next_index()),
        forall|i: int, j: int|
            0 <= i < g.slots.len() && #[trigger] g.slots[i].sources.contains(j) ==> j
                != g.next_index(),
{
    if exists|i: int| g.first_reusable(i) {
        let c = choose|k: int| g.first_reusable(k);
        assert(g.first_reusable(c));
    }
    assert forall|i: int, j: int|
        0 <= i < g.slots.len() && #[trigger] g.slots[i].sources.contains(j) implies j
        != g.next_index() by {
        assert(g.slot_inv(i));
    }
}

/// Placing a new node keeps the invariant, if the node reads only live
/// cells and memos and is up to date only if all of them are.
pub proof fn lemma_place(g: Graph, slot: Slot)
    requires
        g.inv(),
        slot.live,
        slot.kind == Kind::Cell ==> slot.sources =~= Set::<int>::empty() && slot.status
            == Status::Clean,
        !slot.written,
        forall|j: int| #[trigger]
            slot.sources.contains(j) ==> g.has(j) && g.slots[j].kind != Kind::Effect,
        slot.status == Status::Clean ==> forall|j: int| #[trigger]
            slot.sources.contains(j) ==> g.slots[j].status == Status::Clean,
    ensures
        g.place(slot).inv(),
{
    let h = g.place(slot);
    let n = g.next_index();
    lemma_next_index_vacant(g);
    assert forall|i: int| 0 <= i < h.slots.len() implies #[trigger] h.slot_inv(i) by {
        if i != n {
            assert(g.slot_inv(i));
        }
    }
}

/// The reads of a run that are kept as edges lead to live cells and memos,
/// and all of them are up to date if every read was fresh.
pub proof fn lemma_read_set(g: Graph, reads: Seq<Read>)
    ensures
        forall|j: int| #[trigger]
            g.read_set(reads).contains(j) ==> g.has(j) && g.slots[j].kind != Kind::Effect,
        g.all_fresh(reads) ==> forall|j: int| #[trigger]
            g.read_set(reads).contains(j) ==> g.slots[j].status == Status::Clean,
{
    assert forall|j: int| #[trigger] g.read_set(reads).contains(j) implies g.has(j)
        && g.slots[j].kind != Kind::Effect && (g.all_fresh(reads) ==> g.slots[j].status
        == Status::Clean) by {
        let k = choose|k: int|
            0 <= k < reads.len() && g.readable(#[trigger] reads[k].node) && reads[k].node.index as int
                == j;
        assert(g.readable(reads[k].node));
        if g.all_fresh(reads) {
            assert(g.fresh(reads[k]));
        }
    }
}

/// Creating a cell keeps the invariant.
pub proof fn lemma_create_cell(g: Graph, scope: u64, initial: i64)
    requires
        g.inv(),
    ensures
        g.create_cell(scope, initial).inv(),
{
    lemma_place(
        g,
        Slot {
            live: true,
            generation: g.next_generation(),
            kind: Kind::Cell,
            scope,
            value: initial,
            written: false,
            status: Status::Clean,
            sources: Set::empty(),
            seen: Map::empty(),
        },
    );
}

/// Creating a memo or an effect keeps the invariant.
pub proof fn lemma_create_computation(g: Graph, kind: Kind, scope: u64, reads: Seq<Read>, value: i64)
    requires
        g.inv(),
        kind != Kind::Cell,
    ensures
        g.create_computation(kind, scope, reads, value).inv(),
{
    lemma_read_set(g, reads);
    lemma_place(
        g,
        Slot {
            live: true,
            generation: g.next_generation(),
            kind,
            scope,
            value,
            written: false,
            status: g.status_after(reads),
            sources: g.read_set(reads),
            seen: g.read_map(reads),
        },
    );
}

/// Taking in the run of a computation that waited for it keeps the
/// invariant.
pub proof fn lemma_commit(g: Graph, c: int, reads: Seq<Read>, value: i64)
    requires
        g.inv(),
        g.has(c),
        g.slots[c].kind != Kind::Cell,
        g.slots[c].status == Status::Dirty,
    ensures
        g.commit(c, reads, value).inv(),
{
    let h = g.commit(c, reads, value);
    lemma_read_set(g, reads);
    assert(g.slot_inv(c));
    assert forall|i: int| 0 <= i < h.slots.len() implies #[trigger] h.slot_inv(i) by {
        assert(g.slot_inv(i));
        if g.all_fresh(reads) {
            if i == c {
                assert forall|j: int| #[trigger] h.slots[i].sources.contains(j) implies h.slots[j].status
                    == Status::Clean by {
                    assert(g.read_set(reads).contains(j));
                    assert(j != c);
                    if g.edge(c, j) {
                        assert(g.slot_inv(j));
                    }
                }
            } else {
                assert forall|j: int| #[trigger] h.slots[i].sources.contains(j) implies (h.has(j)
                    && h.slots[j].kind != Kind::Effect) by {
                    assert(g.slots[i].sources.contains(j));
                }
                if h.slots[i].status == Status::Clean {
                    assert forall|j: int| #[trigger] h.slots[i].sources.contains(j) implies h.slots[j].status
                        == Status::Clean by {
                        assert(g.slots[i].sources.contains(j));
                        assert(j != c);
                        if g.edge(c, j) {
                            assert(g.slot_inv(j));
                        }
                    }
                }
            }
        } else {
            if i != c {
                assert forall|j: int| #[trigger] h.slots[i].sources.contains(j) implies (h.has(j)
                    && h.slots[j].kind != Kind::Effect) by {
                    assert(g.slots[i].sources.contains(j));
                }
            }
        }
    }
}

/// Marking a suspected computation up to date keeps the invariant, if
/// everything it read is up to date.
pub proof fn lemma_settle(g: Graph, i: int)
    requires
        g.inv(),
        g.ready(i),
    ensures
        g.settle(i).inv(),
{
    let h = g.settle(i);
    assert forall|k: int| 0 <= k < h.slots.len() implies #[trigger] h.slot_inv(k) by {
        assert(g.slot_inv(k));
        assert(g.slot_inv(i));
    }
}

/// Disposing a scope keeps the invariant.
pub proof fn lemma_dispose(g: Graph, scope: u64)
    requires
        g.inv(),
    ensures
        g.dispose(scope).inv(),
{
    let h = g.dispose(scope);
    assert forall|k: int| 0 <= k < h.slots.len() implies #[trigger] h.slot_inv(k) by {
        assert(g.slot_inv(k));
        assert forall|j: int| #[trigger] h.slots[k].sources.contains(j) implies h.has(j)
            && h.slots[j].kind != Kind::Effect && (h.slots[k].status == Status::Clean
            ==> h.slots[j].status == Status::Clean) by {
            assert(g.slots[k].sources.contains(j));
        }
    }
}

} // verus!
