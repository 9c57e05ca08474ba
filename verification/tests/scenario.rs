use reactive_core::handle::{EngineError, NodeId, Outcome, ReadHandle, Step};
use reactive_core::runtime::{ReadLog, Runtime};

/// Runs `double = count * 2` once and returns the log and the value.
fn run_double(rt: &Runtime, count: ReadHandle) -> (ReadLog, i64) {
    let mut log = ReadLog::new();
    let c = rt.read_tracked(&mut log, count).unwrap();
    (log, c * 2)
}

/// Runs the effect once: reads `double` and appends it to `out`.
fn run_logger(rt: &Runtime, double: ReadHandle, out: &mut Vec<i64>) -> ReadLog {
    let mut log = ReadLog::new();
    let d = rt.read_tracked(&mut log, double).unwrap();
    out.push(d);
    log
}

/// Ends the batch and runs whatever has to run.
fn flush(rt: &mut Runtime, count: ReadHandle, double: ReadHandle, logger: NodeId, out: &mut Vec<i64>) {
    rt.end_batch();
    loop {
        match rt.advance().unwrap() {
            Step::Idle => break,
            Step::Settled(_) => {}
            Step::Run(node) => {
                if node == double.node {
                    let (log, v) = run_double(rt, count);
                    rt.finish_memo(double, &log, v).unwrap();
                } else {
                    assert_eq!(node, logger);
                    let log = run_logger(rt, double, out);
                    assert_eq!(rt.finish_effect(logger, &log), Ok(Outcome::Unchanged));
                }
            }
        }
    }
}

#[test]
fn counter_memo_effect_end_to_end() {
    let mut rt = Runtime::new();
    let scope = rt.create_scope();
    let (count, set_count) = rt.create_cell(scope, 0);
    let (log, v) = run_double(&rt, count);
    let double = rt.create_memo(scope, &log, v);
    let mut out = Vec::new();
    let log = run_logger(&rt, double, &mut out);
    let logger = rt.create_effect(scope, &log);
    assert_eq!(out, vec![0]);
    out.clear();

    assert_eq!(rt.write(set_count, 5), Ok(()));
    flush(&mut rt, count, double, logger, &mut out);
    assert_eq!(out, vec![10]);

    assert_eq!(rt.write(set_count, 5), Ok(()));
    flush(&mut rt, count, double, logger, &mut out);
    assert_eq!(out, vec![10]);

    rt.dispose(scope);
    assert_eq!(rt.write(set_count, 7), Err(EngineError::UseAfterDispose));
    assert_eq!(rt.read(count), Err(EngineError::UseAfterDispose));
    assert_eq!(rt.read(double), Err(EngineError::UseAfterDispose));
}
