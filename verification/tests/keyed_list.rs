use reactive_core::handle::{EngineError, NodeId, ScopeId};
use reactive_core::keyed::{KeyedList, Row};
use reactive_core::runtime::{ReadLog, Runtime};

const A: i64 = 101;
const B: i64 = 102;
const C: i64 = 103;

fn three_rows(rt: &mut Runtime) -> KeyedList {
    let mut list = KeyedList::new();
    list.reconcile(rt, &vec![(1, A), (2, B), (3, C)]);
    list
}

fn rows_of(list: &KeyedList) -> Vec<Row> {
    (0..list.len()).map(|i| list.row(i).unwrap()).collect()
}

#[test]
fn a_list_is_built_in_the_order_of_its_items() {
    let mut rt = Runtime::new();
    let list = three_rows(&mut rt);
    assert_eq!(list.len(), 3);
    let rows = rows_of(&list);
    assert_eq!(rows.iter().map(|r| r.key).collect::<Vec<_>>(), vec![1, 2, 3]);
    assert_eq!(rows.iter().map(|r| r.scope).collect::<Vec<_>>(), vec![
        ScopeId { id: 0 },
        ScopeId { id: 1 },
        ScopeId { id: 2 }
    ]);
    for (i, row) in rows.iter().enumerate() {
        assert_eq!(row.reader.node, NodeId { index: i, generation: 0 });
        assert_eq!(row.writer.node, row.reader.node);
        assert_eq!(rt.scope_of(row.reader.node), Some(row.scope));
    }
    assert_eq!(rt.read(rows[0].reader), Ok(A));
    assert_eq!(rt.read(rows[1].reader), Ok(B));
    assert_eq!(rt.read(rows[2].reader), Ok(C));
    assert_eq!(list.row(3), None);
    assert_eq!(list.position(2), Some(1));
    assert_eq!(list.position(9), None);
}

#[test]
fn reordering_keeps_every_row() {
    let mut rt = Runtime::new();
    let mut list = three_rows(&mut rt);
    let before = rows_of(&list);
    // Local state of a row: written through the row's own handle.
    rt.write(before[0].writer, 555).unwrap();
    let slots = rt.slot_count();
    let scopes = rt.scope_count();

    list.reconcile(&mut rt, &vec![(3, C), (1, A), (2, B)]);
    let after = rows_of(&list);
    assert_eq!(after, vec![before[2], before[0], before[1]]);
    assert_eq!(rt.slot_count(), slots);
    assert_eq!(rt.scope_count(), scopes);
    for row in &before {
        assert!(rt.is_alive(row.reader.node));
    }
    assert_eq!(rt.read(before[0].reader), Ok(555));
    assert_eq!(rt.read(before[1].reader), Ok(B));
    assert_eq!(rt.read(before[2].reader), Ok(C));
    assert_eq!(list.position(3), Some(0));
    assert_eq!(list.position(1), Some(1));
    assert_eq!(list.position(2), Some(2));
}

#[test]
fn a_removed_row_is_disposed() {
    let mut rt = Runtime::new();
    let mut list = three_rows(&mut rt);
    let before = rows_of(&list);
    list.reconcile(&mut rt, &vec![(1, A), (3, C)]);
    assert_eq!(rows_of(&list), vec![before[0], before[2]]);
    assert!(!rt.is_alive(before[1].reader.node));
    assert_eq!(rt.write(before[1].writer, 9), Err(EngineError::UseAfterDispose));
    assert_eq!(rt.read(before[1].reader), Err(EngineError::UseAfterDispose));
    assert!(!rt.resolve(before[1].writer, 9));
    assert_eq!(rt.write(before[0].writer, 7), Ok(()));
    assert_eq!(rt.read(before[0].reader), Ok(7));
    assert_eq!(rt.read(before[2].reader), Ok(C));
}

#[test]
fn what_a_removed_row_owned_goes_with_it() {
    let mut rt = Runtime::new();
    let mut list = three_rows(&mut rt);
    let rows = rows_of(&list);
    let (inside, outside) = {
        let mut log = ReadLog::new();
        let v = rt.read_tracked(&mut log, rows[1].reader).unwrap();
        let inside = rt.create_memo(rows[1].scope, &log, v + 1);
        let outside = rt.create_memo(rows[0].scope, &log, v + 2);
        (inside, outside)
    };
    assert!(rt.depends_on(outside.node, rows[1].reader.node));
    list.reconcile(&mut rt, &vec![(1, A), (3, C)]);
    assert_eq!(rt.read(inside), Err(EngineError::UseAfterDispose));
    assert_eq!(rt.read(outside), Ok(B + 2));
    assert!(!rt.depends_on(outside.node, rows[1].reader.node));
}

#[test]
fn a_new_key_gets_a_new_row_and_old_rows_stay() {
    let mut rt = Runtime::new();
    let mut list = three_rows(&mut rt);
    let before = rows_of(&list);
    list.reconcile(&mut rt, &vec![(4, 104), (1, 999), (2, B), (3, C)]);
    let after = rows_of(&list);
    assert_eq!(after.len(), 4);
    assert_eq!(after[0].key, 4);
    assert_eq!(after[0].scope, ScopeId { id: 3 });
    assert_eq!(after[0].reader.node, NodeId { index: 3, generation: 0 });
    assert_eq!(rt.read(after[0].reader), Ok(104));
    assert_eq!(&after[1..], &before[..]);
    // The item given for a key that has a row is not written to the row.
    assert_eq!(rt.read(before[0].reader), Ok(A));
}

#[test]
fn a_key_that_comes_back_gets_a_new_row() {
    let mut rt = Runtime::new();
    let mut list = three_rows(&mut rt);
    let before = rows_of(&list);
    list.reconcile(&mut rt, &vec![(1, A), (3, C)]);
    list.reconcile(&mut rt, &vec![(1, A), (2, 202), (3, C)]);
    let after = rows_of(&list);
    assert_eq!(after[0], before[0]);
    assert_eq!(after[2], before[2]);
    assert_ne!(after[1], before[1]);
    assert_eq!(after[1].key, 2);
    assert_eq!(after[1].scope, ScopeId { id: 3 });
    assert_eq!(after[1].reader.node, NodeId { index: 1, generation: 1 });
    assert_eq!(rt.read(after[1].reader), Ok(202));
    assert_eq!(rt.read(before[1].reader), Err(EngineError::UseAfterDispose));
    assert_eq!(rt.write(before[1].writer, 1), Err(EngineError::UseAfterDispose));
    assert_eq!(rt.read(after[1].reader), Ok(202));
}

#[test]
fn of_items_with_one_key_the_first_counts() {
    let mut rt = Runtime::new();
    let mut list = KeyedList::new();
    list.reconcile(&mut rt, &vec![(5, 1), (6, 2), (5, 3), (6, 4), (7, 5)]);
    let rows = rows_of(&list);
    assert_eq!(rows.iter().map(|r| r.key).collect::<Vec<_>>(), vec![5, 6, 7]);
    assert_eq!(rt.read(rows[0].reader), Ok(1));
    assert_eq!(rt.read(rows[1].reader), Ok(2));
    assert_eq!(rt.read(rows[2].reader), Ok(5));
    assert_eq!(rt.slot_count(), 3);
}

#[test]
fn an_empty_sequence_disposes_every_row() {
    let mut rt = Runtime::new();
    let mut list = three_rows(&mut rt);
    let before = rows_of(&list);
    list.reconcile(&mut rt, &vec![]);
    assert_eq!(list.len(), 0);
    for row in &before {
        assert_eq!(rt.read(row.reader), Err(EngineError::UseAfterDispose));
    }
    list.reconcile(&mut rt, &vec![]);
    assert_eq!(list.len(), 0);
}

#[test]
fn rows_are_added_and_removed_one_by_one() {
    let mut rt = Runtime::new();
    let mut list = KeyedList::new();
    let first = list.insert(&mut rt, 0, 1).unwrap();
    let second = list.insert(&mut rt, 1, 2).unwrap();
    assert_eq!(list.insert(&mut rt, 0, 50), None);
    assert_eq!(list.len(), 2);
    assert_eq!(first.scope, ScopeId { id: 0 });
    assert_eq!(second.scope, ScopeId { id: 1 });
    assert_eq!(rt.read(first.reader), Ok(1));
    assert_eq!(rt.read(second.reader), Ok(2));
    rt.update(first.writer, |n| n + 1).unwrap();

    assert_eq!(list.remove(&mut rt, 7), None);
    assert_eq!(list.remove(&mut rt, 0), Some(first));
    assert_eq!(list.len(), 1);
    assert_eq!(list.row(0), Some(second));
    assert_eq!(rt.write(first.writer, 3), Err(EngineError::UseAfterDispose));
    assert_eq!(rt.read(second.reader), Ok(2));
    assert_eq!(list.remove(&mut rt, 0), None);
    let third = list.insert(&mut rt, 2, 3).unwrap();
    assert_eq!(third.scope, ScopeId { id: 2 });
    assert_eq!(third.reader.node, NodeId { index: 0, generation: 1 });
    assert_eq!(rows_of(&list), vec![second, third]);
}
