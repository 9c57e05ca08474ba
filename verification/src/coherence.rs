//! Every operation keeps the second graph invariant: a computation that
//! does not have to run again saw what the nodes it read still hold.

use vstd::prelude::*;
use crate::handle::{Kind, Read, Status};
use crate::model::{Graph, Slot};
use crate::preserve::{lemma_next_index_vacant, lemma_read_set};

verus! {

/// Handing out a scope keeps the invariant.
pub proof fn coherent_open_scope(g: Graph)
    requires
        g.coherent(),
    ensures
        g.open_scope().coherent(),
{
    let h = g.open_scope();
    assert forall|i: int| 0 <= i < h.slots.len() implies #[trigger] h.slot_coherent(i) by {
        assert(g.slot_coherent(i));
    }
}

/// Placing a new node keeps the invariant, if the node remembers a value
/// for each slot it read, and, unless it has to run again, the value that
/// slot holds.
pub proof fn coherent_place(g: Graph, slot: Slot)
    requires
        g.inv(),
        g.coherent(),
        slot.seen.dom() =~= slot.sources,
        slot.status != Status::Dirty ==> forall|j: int| #[trigger]
            slot.sources.contains(j) ==> g.slots[j].written || g.slots[j].value == slot.seen[j],
        forall|j: int| #[trigger] slot.sources.contains(j) ==> g.has(j),
    ensures
        g.place(slot).coherent(),
{
    let h = g.place(slot);
    let n = g.next_index();
    lemma_next_index_vacant(g);
    assert forall|i: int| 0 <= i < h.slots.len() implies #[trigger] h.slot_coherent(i) by {
        if i != n {
            assert(g.slot_coherent(i));
            assert(g.slot_inv(i));
        }
    }
}

/// Creating a cell keeps the invariant.
pub proof fn coherent_create_cell(g: Graph, scope: u64, initial: i64)
    requires
        g.inv(),
        g.coherent(),
    ensures
        g.create_cell(scope, initial).coherent(),
{
    coherent_place(
        g,
        Slot {
            live: true,
            generation: g.next_generation(),
            kind: Kind::Cell,
            scope,
            value: initial,
            written: false,
            status: Status::Clean,
            sources: Set::empty(),
            seen: Map::empty(),
        },
    );
}

/// What a run saw in a slot is what one of its reads of that slot gave;
/// if every read was fresh, it is what the slot holds.
pub proof fn lemma_read_map(g: Graph, reads: Seq<Read>, j: int)
    requires
        g.read_set(reads).contains(j),
    ensures
        g.read_map(reads).dom() =~= g.read_set(reads),
        exists|k: int| g.kept_read(reads, j, k) && g.read_map(reads)[j] == reads[k].value,
        g.all_fresh(reads) ==> g.read_map(reads)[j] == g.slots[j].value,
{
    let w = choose|k: int|
        0 <= k < reads.len() && g.readable(#[trigger] reads[k].node) && reads[k].node.index as int
            == j;
    assert(g.kept_read(reads, j, w));
    let k = choose|k: int| g.kept_read(reads, j, k);
    assert(g.kept_read(reads, j, k));
    if g.all_fresh(reads) {
        assert(g.fresh(reads[k]));
    }
}

/// Creating a memo or an effect keeps the invariant.
pub proof fn coherent_create_computation(
    g: Graph,
    kind: Kind,
    scope: u64,
    reads: Seq<Read>,
    value: i64,
)
    requires
        g.inv(),
        g.coherent(),
    ensures
        g.create_computation(kind, scope, reads, value).coherent(),
{
    let slot = Slot {
        live: true,
        generation: g.next_generation(),
        kind,
        scope,
        value,
        written: false,
        status: g.status_after(reads),
        sources: g.read_set(reads),
        seen: g.read_map(reads),
    };
    lemma_read_set(g, reads);
    assert forall|j: int|
        slot.status != Status::Dirty && #[trigger] slot.sources.contains(j) implies g.slots[j].value
        == slot.seen[j] by {
        lemma_read_map(g, reads, j);
    }
    coherent_place(g, slot);
}

/// A write to a live cell keeps the invariant.
pub proof fn coherent_write(g: Graph, i: int, value: i64)
    requires
        g.inv(),
        g.coherent(),
        g.has(i),
    ensures
        g.write(i, value).coherent(),
{
    let h = g.write(i, value);
    assert forall|k: int| 0 <= k < h.slots.len() implies #[trigger] h.slot_coherent(k) by {
        assert(g.slot_coherent(k));
        assert(g.slot_inv(k));
    }
}

/// Taking in the run of a computation that waited for it keeps the
/// invariant.
pub proof fn coherent_commit(g: Graph, c: int, reads: Seq<Read>, value: i64)
    requires
        g.inv(),
        g.coherent(),
        g.has(c),
        g.slots[c].kind != Kind::Cell,
        g.slots[c].status == Status::Dirty,
    ensures
        g.commit(c, reads, value).coherent(),
{
    let h = g.commit(c, reads, value);
    lemma_read_set(g, reads);
    assert forall|i: int| 0 <= i < h.slots.len() implies #[trigger] h.slot_coherent(i) by {
        assert(g.slot_coherent(i));
        assert(g.slot_inv(i));
        if i == c {
            assert forall|j: int|
                h.slots[i].status != Status::Dirty && #[trigger] h.slots[i].sources.contains(
                    j,
                ) implies h.slots[j].value == h.slots[i].seen[j] by {
                lemma_read_map(g, reads, j);
                assert(j != c);
            }
            if g.read_set(reads) =~= Set::<int>::empty() {
                assert(g.read_map(reads).dom() =~= g.read_set(reads));
            } else {
                let j = choose|j: int| g.read_set(reads).contains(j);
                lemma_read_map(g, reads, j);
            }
        } else if h.slots[i].status != Status::Dirty {
            assert forall|j: int| #[trigger] h.slots[i].sources.contains(j) implies h.slots[j].written
                || h.slots[j].value == h.slots[i].seen[j] by {
                assert(g.slots[i].sources.contains(j));
                if j == c {
                    assert(g.edge(c, i));
                }
            }
        }
    }
}

/// Marking a suspected computation up to date keeps the invariant.
pub proof fn coherent_settle(g: Graph, i: int)
    requires
        g.inv(),
        g.coherent(),
        g.has(i),
        g.slots[i].status == Status::Check,
    ensures
        g.settle(i).coherent(),
{
    let h = g.settle(i);
    assert forall|k: int| 0 <= k < h.slots.len() implies #[trigger] h.slot_coherent(k) by {
        assert(g.slot_coherent(k));
        assert(g.slot_inv(k));
    }
}

/// Ending the batch keeps the invariant.
pub proof fn coherent_end_batch(g: Graph)
    requires
        g.inv(),
        g.coherent(),
    ensures
        g.end_batch().coherent(),
{
    let h = g.end_batch();
    assert forall|i: int| 0 <= i < h.slots.len() implies #[trigger] h.slot_coherent(i) by {
        assert(g.slot_coherent(i));
        assert(g.slot_inv(i));
        if h.slots[i].status != Status::Dirty {
            assert forall|j: int| #[trigger] h.slots[i].sources.contains(j) implies h.slots[j].value
                == h.slots[i].seen[j] by {
                if g.slots[j].written {
                    assert(g.has(i)) by {
                        if !g.slots[i].live {
                            assert(g.slots[i].sources =~= Set::<int>::empty());
                        }
                    }
                    assert(g.edge(j, i));
                    assert(g.touched(i));
                }
            }
        }
    }
}

/// Disposing a scope keeps the invariant.
pub proof fn coherent_dispose(g: Graph, scope: u64)
    requires
        g.inv(),
        g.coherent(),
    ensures
        g.dispose(scope).coherent(),
{
    let h = g.dispose(scope);
    assert forall|k: int| 0 <= k < h.slots.len() implies #[trigger] h.slot_coherent(k) by {
        assert(g.slot_coherent(k));
        assert(g.slot_inv(k));
        if !g.doomed(scope, k) {
            assert(h.slots[k].seen.dom() =~= h.slots[k].sources);
            assert forall|j: int|
                h.slots[k].status != Status::Dirty && #[trigger] h.slots[k].sources.contains(
                    j,
                ) implies h.slots[j].written || h.slots[j].value == h.slots[k].seen[j] by {
                assert(g.slots[k].sources.contains(j));
            }
        }
    }
}

} // verus!
