use reactive_core::demo::parse_number;
use reactive_core::handle::{EngineError, Outcome, Step};
use reactive_core::runtime::{ReadLog, Runtime};
use reactive_core::word::Word;

#[test]
fn every_value_comes_back_from_its_word() {
    for value in [0_i64, 1, -1, i64::MIN, i64::MAX] {
        assert_eq!(i64::from_word(value.to_word()), Some(value));
    }
    for value in [0_i32, 7, -7, i32::MIN, i32::MAX] {
        assert_eq!(value.to_word(), value as i64);
        assert_eq!(i32::from_word(value.to_word()), Some(value));
    }
    for value in [false, true] {
        assert_eq!(bool::from_word(value.to_word()), Some(value));
    }
    for value in [None, Some(0), Some(1), Some(-1), Some(i32::MIN), Some(i32::MAX)] {
        assert_eq!(<Option<i32>>::from_word(value.to_word()), Some(value));
    }
}

#[test]
fn a_word_that_stands_for_nothing_gives_nothing() {
    assert_eq!(i32::from_word(2_147_483_648), None);
    assert_eq!(i32::from_word(-2_147_483_649), None);
    assert_eq!(bool::from_word(2), None);
    assert_eq!(bool::from_word(-1), None);
    assert_eq!(true.to_word(), 1);
    assert_eq!(false.to_word(), 0);
    assert_eq!(<Option<i32>>::from_word(2_147_483_648), None);
    assert_eq!(<Option<i32>>::from_word(i64::MIN), Some(None));
    assert_eq!(<Option<i32>>::from_word(i64::MIN + 1), None);
    assert_eq!(None::<i32>.to_word(), i64::MIN);
}

#[test]
fn a_cell_holds_a_flag() {
    let mut rt = Runtime::new();
    let scope = rt.create_scope();
    let (red, set_red) = rt.create_cell_of(scope, false);
    assert_eq!(rt.read_of::<bool>(red), Ok(Some(false)));
    let now = rt.read_of::<bool>(red).unwrap().unwrap();
    assert_eq!(rt.write_of(set_red, !now), Ok(()));
    assert_eq!(rt.read_of::<bool>(red), Ok(Some(true)));
    assert_eq!(rt.read(red), Ok(1));
    // Read as another type, the word may stand for nothing.
    rt.write(set_red, 5).unwrap();
    assert_eq!(rt.read_of::<bool>(red), Ok(None));
    assert_eq!(rt.read_of::<i32>(red), Ok(Some(5)));
    rt.dispose(scope);
    assert_eq!(rt.read_of::<bool>(red), Err(EngineError::UseAfterDispose));
    assert_eq!(rt.write_of(set_red, true), Err(EngineError::UseAfterDispose));
}

#[test]
fn what_was_typed_flows_through_the_graph_number_or_not() {
    let mut rt = Runtime::new();
    let scope = rt.create_scope();
    let (typed, set_typed) = rt.create_cell_of(scope, Some(0_i32));
    // The memo shows ten times the number, or passes the lack of one on.
    let shown_of = |typed: Option<i32>| typed.map(|n| n * 10);
    let mut log = ReadLog::new();
    let seen = rt.read_tracked_of::<Option<i32>>(&mut log, typed).unwrap().unwrap();
    let shown = rt.create_memo_of(scope, &log, shown_of(seen));
    assert_eq!(rt.read_of::<Option<i32>>(shown), Ok(Some(Some(0))));
    assert!(rt.depends_on(shown.node, typed.node));

    for (text, expected) in [("12", Some(120)), ("x", None), ("", None), ("-3", Some(-30))] {
        rt.write_of(set_typed, parse_number(text)).unwrap();
        rt.end_batch();
        if let Ok(Step::Run(node)) = rt.advance() {
            assert_eq!(node, shown.node);
            log.clear();
            let seen = rt.read_tracked_of::<Option<i32>>(&mut log, typed).unwrap().unwrap();
            let outcome = rt.finish_memo_of(shown, &log, shown_of(seen)).unwrap();
            assert_ne!(outcome, Outcome::Stale);
        }
        assert_eq!(rt.advance(), Ok(Step::Idle));
        assert_eq!(rt.read_of::<Option<i32>>(shown), Ok(Some(expected)), "{:?}", text);
    }
}
