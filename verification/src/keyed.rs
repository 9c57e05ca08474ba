//! A keyed list of rows: each row owns a scope with one cell that holds its
//! item. When the list is given a new sequence of items, rows are matched
//! by key: a row whose key stays keeps its scope and its cell, a row whose
//! key is gone is disposed, and a key that is new gets a new row.

use vstd::prelude::*;
use crate::handle::{ReadHandle, ScopeId, WriteHandle};
use crate::model::Graph;
use crate::preserve::{lemma_next_id_of_same_slots, lemma_next_index_vacant};
use crate::runtime::Runtime;

verus! {

/// One row of a keyed list.
#[derive(Clone, Copy, PartialEq, Eq, Structural, Debug)]
pub struct Row {
    pub key: u64,
    /// The scope that owns what belongs to the row.
    pub scope: ScopeId,
    /// Reads the cell that holds the row's item.
    pub reader: ReadHandle,
    /// Writes the cell that holds the row's item.
    pub writer: WriteHandle,
}

/// Some row has the key.
pub open spec fn has_key(rows: Seq<Row>, key: u64) -> bool {
    exists|i: int| 0 <= i < rows.len() && (#[trigger] rows[i]).key == key
}

/// Row `i` is the first with the key.
pub open spec fn first_at(rows: Seq<Row>, key: u64, i: int) -> bool {
    &&& 0 <= i < rows.len()
    &&& rows[i].key == key
    &&& forall|j: int| 0 <= j < i ==> (#[trigger] rows[j]).key != key
}

/// The first row with the key.
pub open spec fn row_of(rows: Seq<Row>, key: u64) -> Row {
    rows[choose|i: int| first_at(rows, key, i)]
}

/// No two rows have the same key.
pub open spec fn distinct_keys(rows: Seq<Row>) -> bool {
    forall|i: int, j: int|
        0 <= i < j < rows.len() ==> (#[trigger] rows[i]).key != (#[trigger] rows[j]).key
}

/// The row that a new key gets in graph `g`: a new scope, and a new cell
/// in it.
pub open spec fn fresh_row(g: Graph, key: u64) -> Row {
    Row {
        key,
        scope: ScopeId { id: g.scopes },
        reader: ReadHandle { node: g.next_id() },
        writer: WriteHandle { node: g.next_id() },
    }
}

/// The graph and the rows after the first `k` items were gone through: an
/// item whose key was seen before among the items is passed over, one
/// whose key has a row in `before` takes that row, any other gets a new
/// row.
pub open spec fn arrange(before: Seq<Row>, g: Graph, items: Seq<(u64, i64)>, k: nat) -> (
    Graph,
    Seq<Row>,
)
    decreases k,
{
    if k == 0 {
        (g, Seq::empty())
    } else {
        let (g1, rows) = arrange(before, g, items, (k - 1) as nat);
        let (key, item) = items[k - 1];
        if has_key(rows, key) {
            (g1, rows)
        } else if has_key(before, key) {
            (g1, rows.push(row_of(before, key)))
        } else {
            (g1.open_scope().create_cell(g1.scopes, item), rows.push(fresh_row(g1, key)))
        }
    }
}

/// The graph after the scopes of the first `k` rows of `before` whose key
/// has no row in `after` were disposed.
pub open spec fn prune(g: Graph, before: Seq<Row>, after: Seq<Row>, k: nat) -> Graph
    decreases k,
{
    if k == 0 {
        g
    } else {
        let g1 = prune(g, before, after, (k - 1) as nat);
        if has_key(after, before[k - 1].key) {
            g1
        } else {
            g1.dispose(before[k - 1].scope.id)
        }
    }
}

/// A list of rows with distinct keys.
pub struct KeyedList {
    pub(crate) rows: Vec<Row>,
}

/// Where the first row with the key is, if there is one.
fn find(rows: &Vec<Row>, key: u64) -> (at: Option<usize>)
    ensures
        match at {
            Some(i) => first_at(rows@, key, i as int),
            None => !has_key(rows@, key),
        },
{
    let mut i: usize = 0;
    while i < rows.len()
        invariant
            i <= rows@.len(),
            forall|j: int| 0 <= j < i ==> (#[trigger] rows@[j]).key != key,
        decreases rows@.len() - i,
    {
        if rows[i].key == key {
            return Some(i);
        }
        i += 1;
    }
    None
}

/// The first row with the key is the row at the first place that has it.
proof fn lemma_row_of(rows: Seq<Row>, key: u64, i: int)
    requires
        first_at(rows, key, i),
    ensures
        row_of(rows, key) == rows[i],
        has_key(rows, key),
{
    let c = choose|c: int| first_at(rows, key, c);
    assert(first_at(rows, key, c));
    if c < i {
        assert(rows[c].key != key);
    }
    if i < c {
        assert(rows[i].key != key);
    }
}

/// Pushing a row with a key that no row has keeps the keys distinct.
proof fn lemma_push_distinct(rows: Seq<Row>, row: Row)
    requires
        distinct_keys(rows),
        !has_key(rows, row.key),
    ensures
        distinct_keys(rows.push(row)),
{
    let next = rows.push(row);
    assert forall|i: int, j: int| 0 <= i < j < next.len() implies (#[trigger] next[i]).key != (
    #[trigger] next[j]).key by {
        if j == rows.len() {
            assert(rows[i].key != row.key);
        } else {
            assert(rows[i].key != rows[j].key);
        }
    }
}

impl KeyedList {
    /// The rows, in order.
    pub open(crate) spec fn view(&self) -> Seq<Row> {
        self.rows@
    }

    /// No two rows have the same key.
    pub open(crate) spec fn wf(&self) -> bool {
        distinct_keys(self@)
    }

    /// A list without rows.
    pub fn new() -> (list: KeyedList)
        ensures
            list@ == Seq::<Row>::empty(),
            list.wf(),
    {
        KeyedList { rows: Vec::new() }
    }

    /// How many rows there are.
    pub fn len(&self) -> (n: usize)
        ensures
            n == self@.len(),
    {
        self.rows.len()
    }

    /// The row at a position.
    pub fn row(&self, position: usize) -> (row: Option<Row>)
        ensures
            position < self@.len() ==> row == Some(self@[position as int]),
            position >= self@.len() ==> row.is_none(),
    {
        if position < self.rows.len() {
            Some(self.rows[position])
        } else {
            None
        }
    }

    /// The position of the row with the key.
    pub fn position(&self, key: u64) -> (at: Option<usize>)
        ensures
            match at {
                Some(i) => first_at(self@, key, i as int),
                None => !has_key(self@, key),
            },
    {
        find(&self.rows, key)
    }

    /// Adds a row for the key at the end of the list: a new scope and, in
    /// it, a new cell that holds `item`. A key that has a row already gets
    /// no second one.
    pub fn insert(&mut self, rt: &mut Runtime, key: u64, item: i64) -> (row: Option<Row>)
        requires
            old(rt).wf(),
            old(self).wf(),
            old(rt)@.slots.len() < usize::MAX,
            old(rt)@.scopes < u64::MAX,
        ensures
            final(rt).wf(),
            final(self).wf(),
            has_key(old(self)@, key) ==> row.is_none() && final(self)@ == old(self)@ && final(rt)@
                == old(rt)@,
            !has_key(old(self)@, key) ==> row == Some(fresh_row(old(rt)@, key)) && final(self)@
                == old(self)@.push(fresh_row(old(rt)@, key)) && final(rt)@ == old(
                rt,
            )@.open_scope().create_cell(old(rt)@.scopes, item),
    {
        if find(&self.rows, key).is_some() {
            return None;
        }
        proof {
            lemma_next_index_vacant(rt@);
            lemma_next_id_of_same_slots(rt@, rt@.open_scope());
            lemma_push_distinct(self@, fresh_row(rt@, key));
        }
        let scope = rt.create_scope();
        let (reader, writer) = rt.create_cell(scope, item);
        let row = Row { key, scope, reader, writer };
        self.rows.push(row);
        Some(row)
    }

    /// Takes the row with the key out of the list and disposes its scope.
    pub fn remove(&mut self, rt: &mut Runtime, key: u64) -> (row: Option<Row>)
        requires
            old(rt).wf(),
            old(self).wf(),
        ensures
            final(rt).wf(),
            final(self).wf(),
            !has_key(old(self)@, key) ==> row.is_none() && final(self)@ == old(self)@ && final(rt)@
                == old(rt)@,
            has_key(old(self)@, key) ==> row == Some(row_of(old(self)@, key)) && !has_key(
                final(self)@,
                key,
            ) && final(rt)@ == old(rt)@.dispose(row_of(old(self)@, key).scope.id) && exists|i: int|
                first_at(old(self)@, key, i) && final(self)@ == old(self)@.remove(i),
    {
        match find(&self.rows, key) {
            None => None,
            Some(i) => {
                proof {
                    lemma_row_of(self@, key, i as int);
                }
                let row = self.rows.remove(i);
                rt.dispose(row.scope);
                proof {
                    let before = old(self)@;
                    let after = self@;
                    assert(after == before.remove(i as int));
                    assert forall|a: int, b: int| 0 <= a < b < after.len() implies (
                    #[trigger] after[a]).key != (#[trigger] after[b]).key by {
                        let a0 = if a < i { a } else { a + 1 };
                        let b0 = if b < i { b } else { b + 1 };
                        assert(after[a] == before[a0]);
                        assert(after[b] == before[b0]);
                        assert(before[a0].key != before[b0].key);
                    }
                    if has_key(after, key) {
                        let a = choose|a: int| 0 <= a < after.len() && (#[trigger] after[a]).key == key;
                        let a0 = if a < i { a } else { a + 1 };
                        assert(after[a] == before[a0]);
                        if a0 < i {
                            assert(before[a0].key != before[i as int].key);
                        } else {
                            assert(before[i as int].key != before[a0].key);
                        }
                    }
                }
                Some(row)
            },
        }
    }

    /// Brings the list in line with `items`, a sequence of keys with their
    /// items.
    ///
    /// The rows come out in the order of `items`; of items with the same
    /// key the first counts. A key that had a row keeps that row as it is:
    /// its scope and its cell are not touched, and the item given for it is
    /// not looked at. A key that had none gets a new scope and, in it, a
    /// new cell that holds its item. Then the scope of every row whose key
    /// is gone is disposed.
    pub fn reconcile(&mut self, rt: &mut Runtime, items: &Vec<(u64, i64)>)
        requires
            old(rt).wf(),
            old(rt)@.slots.len() + items@.len() < usize::MAX,
            old(rt)@.scopes + items@.len() <= u64::MAX,
        ensures
            final(rt).wf(),
            final(self).wf(),
            final(self)@ == arrange(old(self)@, old(rt)@, items@, items@.len()).1,
            final(rt)@ == prune(
                arrange(old(self)@, old(rt)@, items@, items@.len()).0,
                old(self)@,
                final(self)@,
                old(self)@.len(),
            ),
    {
        let ghost before = self@;
        let ghost g0 = rt@;
        let mut next: Vec<Row> = Vec::new();
        let mut k: usize = 0;
        while k < items.len()
            invariant
                k <= items@.len(),
                before == self@,
                g0.slots.len() + items@.len() < usize::MAX,
                g0.scopes + items@.len() <= u64::MAX,
                rt.wf(),
                (rt@, next@) == arrange(before, g0, items@, k as nat),
                rt@.slots.len() <= g0.slots.len() + k,
                rt@.scopes <= g0.scopes + k,
                distinct_keys(next@),
            decreases items@.len() - k,
        {
            let (key, item) = items[k];
            let ghost g1 = rt@;
            let ghost rows = next@;
            proof {
                assert(arrange(before, g0, items@, (k + 1) as nat) == {
                    let (ga, ra) = arrange(before, g0, items@, k as nat);
                    let (key, item) = items@[k as int];
                    if has_key(ra, key) {
                        (ga, ra)
                    } else if has_key(before, key) {
                        (ga, ra.push(row_of(before, key)))
                    } else {
                        (ga.open_scope().create_cell(ga.scopes, item), ra.push(fresh_row(ga, key)))
                    }
                });
            }
            if find(&next, key).is_none() {
                match find(&self.rows, key) {
                    Some(j) => {
                        proof {
                            lemma_row_of(before, key, j as int);
                            lemma_push_distinct(rows, before[j as int]);
                        }
                        next.push(self.rows[j]);
                    },
                    None => {
                        proof {
                            lemma_next_index_vacant(g1);
                            lemma_next_id_of_same_slots(g1, g1.open_scope());
                        }
                        let scope = rt.create_scope();
                        let (reader, writer) = rt.create_cell(scope, item);
                        let row = Row { key, scope, reader, writer };
                        proof {
                            assert(row == fresh_row(g1, key));
                            lemma_push_distinct(rows, row);
                        }
                        next.push(row);
                    },
                }
            }
            k += 1;
        }
        let ghost g1 = rt@;
        let n = self.rows.len();
        let mut j: usize = 0;
        while j < n
            invariant
                j <= n,
                n == before.len(),
                before == self@,
                rt.wf(),
                rt@ == prune(g1, before, next@, j as nat),
            decreases n - j,
        {
            let row = self.rows[j];
            if find(&next, row.key).is_none() {
                rt.dispose(row.scope);
            }
            j += 1;
        }
        self.rows = next;
    }
}

} // verus!
