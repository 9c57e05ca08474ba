//! What holds of keyed lists when they are brought in line with new items.

use vstd::prelude::*;
use crate::handle::NodeId;
use crate::keyed::{arrange, distinct_keys, first_at, fresh_row, has_key, prune, row_of, Row};
use crate::model::Graph;
use crate::preserve::{
    lemma_create_cell, lemma_dispose, lemma_next_id_of_same_slots, lemma_next_index_vacant,
    lemma_open_scope,
};

verus! {

/// Some item among the first `k` has the key.
pub open spec fn names_key(items: Seq<(u64, i64)>, k: int, key: u64) -> bool {
    exists|m: int| 0 <= m < k && (#[trigger] items[m]).0 == key
}

/// The first row with a key that some row has does have that key.
pub proof fn lemma_row_of_has_key(rows: Seq<Row>, key: u64)
    requires
        has_key(rows, key),
    ensures
        row_of(rows, key).key == key,
        exists|i: int| 0 <= i < rows.len() && #[trigger] rows[i] == row_of(rows, key),
{
    let w = choose|i: int| 0 <= i < rows.len() && (#[trigger] rows[i]).key == key;
    lemma_first_exists(rows, key, w);
    let c = choose|i: int| first_at(rows, key, i);
    assert(first_at(rows, key, c));
    assert(rows[c] == row_of(rows, key));
}

/// If row `w` has the key, some row is the first that has it.
proof fn lemma_first_exists(rows: Seq<Row>, key: u64, w: int)
    requires
        0 <= w < rows.len(),
        rows[w].key == key,
    ensures
        exists|i: int| first_at(rows, key, i),
    decreases w,
{
    if exists|j: int| 0 <= j < w && (#[trigger] rows[j]).key == key {
        let j = choose|j: int| 0 <= j < w && (#[trigger] rows[j]).key == key;
        lemma_first_exists(rows, key, j);
    } else {
        assert(first_at(rows, key, w));
    }
}

/// The rows that come out have distinct keys, and their keys are the keys
/// of the items: every item's key has a row, and every row has the key of
/// an item. New rows are made only for keys that had no row, so the
/// graph only grows, and what was in it stays as it was.
pub proof fn lemma_arrange(before: Seq<Row>, g: Graph, items: Seq<(u64, i64)>, k: nat)
    requires
        g.inv(),
        k <= items.len(),
    ensures
        ({
            let (g1, rows) = arrange(before, g, items, k);
            &&& g1.inv()
            &&& distinct_keys(rows)
            &&& forall|m: int| 0 <= m < k ==> has_key(rows, (#[trigger] items[m]).0)
            &&& forall|i: int| 0 <= i < rows.len() ==> names_key(items, k as int, (#[trigger] rows[i]).key)
            &&& forall|i: int|
                0 <= i < rows.len() ==> (#[trigger] rows[i]) == (if has_key(before, rows[i].key) {
                    row_of(before, rows[i].key)
                } else {
                    rows[i]
                })
            &&& g.slots.len() <= g1.slots.len()
            &&& forall|i: int| g.has(i) ==> #[trigger] g1.slots[i] == g.slots[i]
            &&& (forall|m: int| 0 <= m < k ==> has_key(before, (#[trigger] items[m]).0)) ==> g1 == g
        }),
    decreases k,
{
    if k > 0 {
        lemma_arrange(before, g, items, (k - 1) as nat);
        let (g0, rows0) = arrange(before, g, items, (k - 1) as nat);
        let (g1, rows) = arrange(before, g, items, k);
        let (key, item) = items[k - 1];
        if has_key(rows0, key) {
            assert forall|i: int| 0 <= i < rows.len() implies names_key(
                items,
                k as int,
                (#[trigger] rows[i]).key,
            ) by {
                let m = choose|m: int| 0 <= m < k - 1 && (#[trigger] items[m]).0 == rows[i].key;
                assert(0 <= m < k && items[m].0 == rows[i].key);
            }
        } else {
            let row = if has_key(before, key) {
                row_of(before, key)
            } else {
                fresh_row(g0, key)
            };
            if has_key(before, key) {
                lemma_row_of_has_key(before, key);
            }
            assert(row.key == key);
            assert(rows == rows0.push(row));
            assert forall|i: int, j: int| 0 <= i < j < rows.len() implies (#[trigger] rows[i]).key
                != (#[trigger] rows[j]).key by {
                if j == rows0.len() {
                    assert(rows0[i].key != key);
                } else {
                    assert(rows0[i].key != rows0[j].key);
                }
            }
            assert forall|m: int| 0 <= m < k implies has_key(rows, (#[trigger] items[m]).0) by {
                if m < k - 1 {
                    let i = choose|i: int| 0 <= i < rows0.len() && (#[trigger] rows0[i]).key == items[m].0;
                    assert(rows[i].key == items[m].0);
                } else {
                    assert(rows[rows0.len() as int].key == key);
                }
            }
            assert forall|i: int| 0 <= i < rows.len() implies names_key(
                items,
                k as int,
                (#[trigger] rows[i]).key,
            ) by {
                if i < rows0.len() {
                    let m = choose|m: int| 0 <= m < k - 1 && (#[trigger] items[m]).0 == rows0[i].key;
                    assert(0 <= m < k && items[m].0 == rows[i].key);
                } else {
                    assert(items[k - 1].0 == rows[i].key);
                }
            }
            if !has_key(before, key) {
                let h = g0.open_scope();
                lemma_open_scope(g0);
                lemma_create_cell(h, g0.scopes, item);
                lemma_next_index_vacant(h);
                assert forall|i: int| g.has(i) implies #[trigger] g1.slots[i] == g.slots[i] by {
                    assert(g0.slots[i] == g.slots[i]);
                    assert(h.has(i));
                }
            }
        }
    }
}

/// Disposing scopes removes nodes and brings none back.
pub proof fn lemma_prune(g: Graph, before: Seq<Row>, after: Seq<Row>, k: nat)
    requires
        g.inv(),
        k <= before.len(),
    ensures
        ({
            let h = prune(g, before, after, k);
            &&& h.inv()
            &&& h.slots.len() == g.slots.len()
            &&& h.scopes == g.scopes
            &&& forall|i: int| h.has(i) ==> g.has(i)
            &&& forall|i: int|
                0 <= i < g.slots.len() ==> (#[trigger] h.slots[i]).scope == g.slots[i].scope
                    && h.slots[i].generation == g.slots[i].generation
            &&& forall|i: int, r: int|
                #![trigger h.slots[i], before[r]]
                0 <= r < k && !has_key(after, before[r].key) && 0 <= i < h.slots.len() ==> !h.doomed(
                    before[r].scope.id,
                    i,
                )
            &&& forall|i: int|
                g.has(i) && (forall|r: int|
                    0 <= r < k && !has_key(after, (#[trigger] before[r]).key) ==> before[r].scope.id
                        != g.slots[i].scope) ==> h.has(i) && (#[trigger] h.slots[i]).generation
                    == g.slots[i].generation && h.slots[i].value == g.slots[i].value
                    && h.slots[i].kind == g.slots[i].kind && h.slots[i].scope == g.slots[i].scope
                    && h.slots[i].status == g.slots[i].status && h.slots[i].written
                    == g.slots[i].written
            &&& (forall|r: int| 0 <= r < k ==> has_key(after, (#[trigger] before[r]).key)) ==> h == g
        }),
    decreases k,
{
    if k > 0 {
        lemma_prune(g, before, after, (k - 1) as nat);
        let h0 = prune(g, before, after, (k - 1) as nat);
        let h = prune(g, before, after, k);
        if !has_key(after, before[k - 1].key) {
            lemma_dispose(h0, before[k - 1].scope.id);
            assert forall|i: int, r: int|
                #![trigger h.slots[i], before[r]]
                0 <= r < k && !has_key(after, before[r].key) && 0 <= i < h.slots.len() implies !h.doomed(
                before[r].scope.id,
                i,
            ) by {
                if r < k - 1 {
                    assert(!h0.doomed(before[r].scope.id, i));
                }
            }
            assert forall|i: int|
                g.has(i) && (forall|r: int|
                    0 <= r < k && !has_key(after, (#[trigger] before[r]).key) ==> before[r].scope.id
                        != g.slots[i].scope) implies h.has(i) && (#[trigger] h.slots[i]).generation
                == g.slots[i].generation && h.slots[i].value == g.slots[i].value && h.slots[i].kind
                == g.slots[i].kind && h.slots[i].scope == g.slots[i].scope && h.slots[i].status
                == g.slots[i].status && h.slots[i].written == g.slots[i].written by {
                assert(before[k - 1].scope.id != g.slots[i].scope);
                assert forall|r: int|
                    0 <= r < k - 1 && !has_key(after, (#[trigger] before[r]).key) implies before[r].scope.id
                    != g.slots[i].scope by {}
                assert(h0.has(i));
                assert(h0.slots[i].scope == g.slots[i].scope);
            }
        } else {
            assert forall|i: int|
                g.has(i) && (forall|r: int|
                    0 <= r < k && !has_key(after, (#[trigger] before[r]).key) ==> before[r].scope.id
                        != g.slots[i].scope) implies h.has(i) && (#[trigger] h.slots[i]).generation
                == g.slots[i].generation && h.slots[i].value == g.slots[i].value && h.slots[i].kind
                == g.slots[i].kind && h.slots[i].scope == g.slots[i].scope && h.slots[i].status
                == g.slots[i].status && h.slots[i].written == g.slots[i].written by {
                assert forall|r: int|
                    0 <= r < k - 1 && !has_key(after, (#[trigger] before[r]).key) implies before[r].scope.id
                    != g.slots[i].scope by {}
            }
        }
    }
}

/// Keyed reuse. When the items name exactly the keys that have rows, in
/// whatever order, nothing is created and nothing is disposed: the graph
/// stays as it was, and every row that comes out is the row that its key
/// had before. Only the order of the rows follows the items.
pub proof fn law_keyed_reuse(before: Seq<Row>, g: Graph, items: Seq<(u64, i64)>)
    requires
        g.inv(),
        forall|m: int| 0 <= m < items.len() ==> has_key(before, (#[trigger] items[m]).0),
        forall|r: int|
            0 <= r < before.len() ==> names_key(items, items.len() as int, (#[trigger] before[r]).key),
    ensures
        ({
            let (g1, rows) = arrange(before, g, items, items.len());
            &&& g1 == g
            &&& prune(g1, before, rows, before.len()) == g
            &&& distinct_keys(rows)
            &&& forall|i: int|
                0 <= i < rows.len() ==> has_key(before, (#[trigger] rows[i]).key) && rows[i]
                    == row_of(before, rows[i].key)
            &&& forall|r: int| 0 <= r < before.len() ==> has_key(rows, (#[trigger] before[r]).key)
        }),
{
    let (g1, rows) = arrange(before, g, items, items.len());
    lemma_arrange(before, g, items, items.len());
    assert forall|r: int| 0 <= r < before.len() implies has_key(rows, (#[trigger] before[r]).key) by {
        let m = choose|m: int| 0 <= m < items.len() && (#[trigger] items[m]).0 == before[r].key;
        assert(has_key(rows, items[m].0));
    }
    assert forall|i: int| 0 <= i < rows.len() implies has_key(before, (#[trigger] rows[i]).key)
        && rows[i] == row_of(before, rows[i].key) by {
        let m = choose|m: int| 0 <= m < items.len() && (#[trigger] items[m]).0 == rows[i].key;
        assert(has_key(before, items[m].0));
    }
    lemma_prune(g1, before, rows, before.len());
}

/// Row disposal. When no item names the key of a row, then after the
/// list was brought in line no node of that row's scope is left: every
/// handle to one of them names no live node.
pub proof fn law_row_disposal(before: Seq<Row>, g: Graph, items: Seq<(u64, i64)>, r: int, id: NodeId)
    requires
        g.inv(),
        0 <= r < before.len(),
        !names_key(items, items.len() as int, before[r].key),
        g.live(id),
        g.slots[id.index as int].scope == before[r].scope.id,
    ensures
        ({
            let (g1, rows) = arrange(before, g, items, items.len());
            let h = prune(g1, before, rows, before.len());
            &&& !has_key(rows, before[r].key)
            &&& forall|i: int| 0 <= i < h.slots.len() ==> !#[trigger] h.doomed(before[r].scope.id, i)
            &&& !h.live(id)
            &&& !h.readable(id)
            &&& !h.writable(id)
        }),
{
    let (g1, rows) = arrange(before, g, items, items.len());
    let h = prune(g1, before, rows, before.len());
    lemma_arrange(before, g, items, items.len());
    if has_key(rows, before[r].key) {
        let i = choose|i: int| 0 <= i < rows.len() && (#[trigger] rows[i]).key == before[r].key;
        assert(names_key(items, items.len() as int, rows[i].key));
    }
    lemma_prune(g1, before, rows, before.len());
    assert forall|i: int| 0 <= i < h.slots.len() implies !#[trigger] h.doomed(
        before[r].scope.id,
        i,
    ) by {
        let _ = (h.slots[i], before[r]);
    }
    let i = id.index as int;
    assert(g1.slots[i] == g.slots[i]);
    assert(h.slots[i].scope == g1.slots[i].scope);
    assert(!h.doomed(before[r].scope.id, i));
}

/// Rows that stay keep what they own. When an item names the key of a
/// row, and no two rows share a scope, every node of that row's scope is
/// alive after the list was brought in line, under the same handle, with
/// the value and the status it had.
pub proof fn law_kept_rows_keep_their_nodes(
    before: Seq<Row>,
    g: Graph,
    items: Seq<(u64, i64)>,
    r: int,
    id: NodeId,
)
    requires
        g.inv(),
        0 <= r < before.len(),
        names_key(items, items.len() as int, before[r].key),
        forall|i: int, j: int|
            0 <= i < j < before.len() ==> (#[trigger] before[i]).scope != (#[trigger] before[j]).scope,
        g.live(id),
        g.slots[id.index as int].scope == before[r].scope.id,
    ensures
        ({
            let (g1, rows) = arrange(before, g, items, items.len());
            let h = prune(g1, before, rows, before.len());
            &&& has_key(rows, before[r].key)
            &&& h.live(id)
            &&& h.slots[id.index as int].kind == g.slots[id.index as int].kind
            &&& h.slots[id.index as int].value == g.slots[id.index as int].value
            &&& h.slots[id.index as int].status == g.slots[id.index as int].status
            &&& h.slots[id.index as int].scope == g.slots[id.index as int].scope
        }),
{
    let (g1, rows) = arrange(before, g, items, items.len());
    let h = prune(g1, before, rows, before.len());
    lemma_arrange(before, g, items, items.len());
    let m = choose|m: int| 0 <= m < items.len() && (#[trigger] items[m]).0 == before[r].key;
    assert(has_key(rows, items[m].0));
    lemma_prune(g1, before, rows, before.len());
    let i = id.index as int;
    assert(g1.slots[i] == g.slots[i]);
    assert forall|q: int|
        0 <= q < before.len() && !has_key(rows, (#[trigger] before[q]).key) implies before[q].scope.id
        != g1.slots[i].scope by {
        if q < r {
            assert(before[q].scope != before[r].scope);
        } else if r < q {
            assert(before[r].scope != before[q].scope);
        }
    }
}

/// With room left for as many scopes and slots as there are items, the
/// graph grows by at most one scope and one slot per item, and no scope
/// number is lost.
proof fn lemma_arrange_grows(before: Seq<Row>, g: Graph, items: Seq<(u64, i64)>, k: nat)
    requires
        g.inv(),
        k <= items.len(),
        g.scopes + items.len() <= u64::MAX,
    ensures
        ({
            let g1 = arrange(before, g, items, k).0;
            &&& g.scopes <= g1.scopes <= g.scopes + k
            &&& g.slots.len() <= g1.slots.len() <= g.slots.len() + k
        }),
    decreases k,
{
    if k > 0 {
        lemma_arrange_grows(before, g, items, (k - 1) as nat);
        lemma_arrange(before, g, items, (k - 1) as nat);
        let g0 = arrange(before, g, items, (k - 1) as nat).0;
        lemma_open_scope(g0);
        lemma_next_index_vacant(g0.open_scope());
    }
}

/// Once a key that had no row was given its new row, the row stays in
/// the list, and its cell stays in the graph, while the rest of the items
/// are gone through.
proof fn lemma_new_row_stays(before: Seq<Row>, g: Graph, items: Seq<(u64, i64)>, m: int, k: nat)
    requires
        g.inv(),
        0 <= m < k <= items.len(),
        g.scopes + items.len() <= u64::MAX,
        g.slots.len() + items.len() < usize::MAX,
        !has_key(before, items[m].0),
        forall|j: int| 0 <= j < m ==> (#[trigger] items[j]).0 != items[m].0,
    ensures
        ({
            let gm = arrange(before, g, items, m as nat).0;
            let (g1, rows) = arrange(before, g, items, k);
            let row = fresh_row(gm, items[m].0);
            &&& exists|p: int| 0 <= p < rows.len() && #[trigger] rows[p] == row
            &&& row.scope.id >= g.scopes
            &&& g1.writable(row.writer.node)
            &&& g1.slots[row.writer.node.index as int].value == items[m].1
            &&& g1.slots[row.writer.node.index as int].scope == row.scope.id
        }),
    decreases k,
{
    let key = items[m].0;
    let gm = arrange(before, g, items, m as nat).0;
    let row = fresh_row(gm, key);
    lemma_arrange(before, g, items, m as nat);
    lemma_arrange_grows(before, g, items, m as nat);
    let (g0, rows0) = arrange(before, g, items, (k - 1) as nat);
    let (g1, rows) = arrange(before, g, items, k);
    lemma_arrange(before, g, items, (k - 1) as nat);
    lemma_arrange_grows(before, g, items, (k - 1) as nat);
    if k == m + 1 {
        if has_key(rows0, key) {
            let i = choose|i: int| 0 <= i < rows0.len() && (#[trigger] rows0[i]).key == key;
            assert(names_key(items, m, rows0[i].key));
        }
        let h = gm.open_scope();
        lemma_open_scope(gm);
        lemma_next_index_vacant(h);
        lemma_next_index_vacant(gm);
        lemma_next_id_of_same_slots(gm, h);
        assert(rows == rows0.push(row));
        assert(rows[rows0.len() as int] == row);
    } else {
        lemma_new_row_stays(before, g, items, m, (k - 1) as nat);
        let p = choose|p: int| 0 <= p < rows0.len() && #[trigger] rows0[p] == row;
        let (key1, item1) = items[k - 1];
        if has_key(rows0, key1) {
            assert(rows[p] == row);
        } else {
            assert(rows[p] == rows0[p]);
            if !has_key(before, key1) {
                let h = g0.open_scope();
                lemma_open_scope(g0);
                lemma_next_index_vacant(h);
                assert(h.has(row.writer.node.index as int));
            }
        }
    }
}

/// New rows. When an item names a key that had no row, the row it gets
/// has a scope that was never handed out before and, in it, a live cell
/// that holds the item: of items with the same key, the first. This needs
/// room for the new scopes and slots, and the scopes of the old rows to
/// be scopes that the graph handed out.
pub proof fn law_new_rows_hold_their_items(
    before: Seq<Row>,
    g: Graph,
    items: Seq<(u64, i64)>,
    m: int,
)
    requires
        g.inv(),
        0 <= m < items.len(),
        g.scopes + items.len() <= u64::MAX,
        g.slots.len() + items.len() < usize::MAX,
        forall|r: int| 0 <= r < before.len() ==> (#[trigger] before[r]).scope.id < g.scopes,
        !has_key(before, items[m].0),
        forall|j: int| 0 <= j < m ==> (#[trigger] items[j]).0 != items[m].0,
    ensures
        ({
            let (g1, rows) = arrange(before, g, items, items.len());
            let h = prune(g1, before, rows, before.len());
            let row = row_of(rows, items[m].0);
            &&& has_key(rows, items[m].0)
            &&& row.key == items[m].0
            &&& row.scope.id >= g.scopes
            &&& row.reader.node == row.writer.node
            &&& h.writable(row.writer.node)
            &&& h.slots[row.writer.node.index as int].value == items[m].1
            &&& h.slots[row.writer.node.index as int].scope == row.scope.id
        }),
{
    let key = items[m].0;
    let gm = arrange(before, g, items, m as nat).0;
    let (g1, rows) = arrange(before, g, items, items.len());
    let h = prune(g1, before, rows, before.len());
    let fresh = fresh_row(gm, key);
    lemma_new_row_stays(before, g, items, m, items.len());
    lemma_arrange(before, g, items, items.len());
    let p = choose|p: int| 0 <= p < rows.len() && #[trigger] rows[p] == fresh;
    assert(rows[p].key == key);
    assert(first_at(rows, key, p)) by {
        assert forall|j: int| 0 <= j < p implies (#[trigger] rows[j]).key != key by {
            assert(rows[j].key != rows[p].key);
        }
    }
    let c = choose|i: int| first_at(rows, key, i);
    assert(first_at(rows, key, c));
    if c < p {
        assert(rows[c].key != rows[p].key);
    }
    if p < c {
        assert(rows[p].key != key);
    }
    assert(row_of(rows, key) == fresh);
    lemma_prune(g1, before, rows, before.len());
    let i = fresh.writer.node.index as int;
    assert(g1.has(i));
    assert forall|r: int|
        0 <= r < before.len() && !has_key(rows, (#[trigger] before[r]).key) implies before[r].scope.id
        != g1.slots[i].scope by {
        assert(before[r].scope.id < g.scopes);
    }
}

/// Every row's scope is one that the graph handed out.
pub open spec fn scopes_known(rows: Seq<Row>, g: Graph) -> bool {
    forall|r: int| 0 <= r < rows.len() ==> (#[trigger] rows[r]).scope.id < g.scopes
}

/// No two rows share a scope.
pub open spec fn distinct_scopes(rows: Seq<Row>) -> bool {
    forall|i: int, j: int|
        0 <= i < j < rows.len() ==> (#[trigger] rows[i]).scope != (#[trigger] rows[j]).scope
}

/// The scopes of the rows stay apart while the items are gone through.
proof fn lemma_scopes_apart(before: Seq<Row>, g: Graph, items: Seq<(u64, i64)>, k: nat)
    requires
        g.inv(),
        k <= items.len(),
        g.scopes + items.len() <= u64::MAX,
        scopes_known(before, g),
        distinct_scopes(before),
    ensures
        ({
            let (g1, rows) = arrange(before, g, items, k);
            &&& scopes_known(rows, g1)
            &&& distinct_scopes(rows)
            &&& forall|i: int|
                0 <= i < rows.len() && (#[trigger] rows[i]).scope.id < g.scopes ==> has_key(
                    before,
                    rows[i].key,
                ) && rows[i] == row_of(before, rows[i].key)
        }),
    decreases k,
{
    if k > 0 {
        lemma_scopes_apart(before, g, items, (k - 1) as nat);
        lemma_arrange(before, g, items, (k - 1) as nat);
        lemma_arrange(before, g, items, k);
        lemma_arrange_grows(before, g, items, (k - 1) as nat);
        lemma_arrange_grows(before, g, items, k);
        let (g0, rows0) = arrange(before, g, items, (k - 1) as nat);
        let (g1, rows) = arrange(before, g, items, k);
        let (key, item) = items[k - 1];
        if !has_key(rows0, key) {
            let n = rows0.len() as int;
            if has_key(before, key) {
                lemma_row_of_has_key(before, key);
                let row = row_of(before, key);
                assert(rows == rows0.push(row));
                assert(row.scope.id < g.scopes);
                assert forall|i: int, j: int| 0 <= i < j < rows.len() implies (
                #[trigger] rows[i]).scope != (#[trigger] rows[j]).scope by {
                    if j == n {
                        assert(rows0[i].key != key);
                        if rows0[i].scope.id < g.scopes {
                            lemma_row_of_has_key(before, rows0[i].key);
                            let a = choose|a: int|
                                0 <= a < before.len() && #[trigger] before[a] == row_of(
                                    before,
                                    rows0[i].key,
                                );
                            let b = choose|b: int| 0 <= b < before.len() && #[trigger] before[b] == row;
                            assert(before[a].key != before[b].key);
                            if a < b {
                                assert(before[a].scope != before[b].scope);
                            } else {
                                assert(before[b].scope != before[a].scope);
                            }
                        }
                    } else {
                        assert(rows0[i].scope != rows0[j].scope);
                    }
                }
            } else {
                let row = fresh_row(g0, key);
                assert(rows == rows0.push(row));
                assert forall|i: int, j: int| 0 <= i < j < rows.len() implies (
                #[trigger] rows[i]).scope != (#[trigger] rows[j]).scope by {
                    if j == n {
                        assert(rows0[i].scope.id < g0.scopes);
                    } else {
                        assert(rows0[i].scope != rows0[j].scope);
                    }
                }
                assert forall|r: int| 0 <= r < rows.len() implies (#[trigger] rows[r]).scope.id
                    < g1.scopes by {
                    if r < n {
                        assert(rows0[r].scope.id < g0.scopes);
                    }
                }
            }
        }
    }
}

/// Scopes stay apart. When every row's scope was handed out by the graph
/// and no two rows share one, the same holds of the rows that come out,
/// with room left for the new scopes.
pub proof fn law_rows_keep_their_scopes_apart(before: Seq<Row>, g: Graph, items: Seq<(u64, i64)>)
    requires
        g.inv(),
        g.scopes + items.len() <= u64::MAX,
        scopes_known(before, g),
        distinct_scopes(before),
    ensures
        ({
            let (g1, rows) = arrange(before, g, items, items.len());
            let h = prune(g1, before, rows, before.len());
            &&& scopes_known(rows, h)
            &&& distinct_scopes(rows)
        }),
{
    let (g1, rows) = arrange(before, g, items, items.len());
    lemma_scopes_apart(before, g, items, items.len());
    lemma_arrange(before, g, items, items.len());
    lemma_prune(g1, before, rows, before.len());
}

} // verus!
