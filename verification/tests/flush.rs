use reactive_core::handle::{EngineError, NodeId, ReadHandle, ScopeId, Status};
use reactive_core::host::Bodies;
use reactive_core::runtime::{ReadLog, Runtime};

/// What a body does, written as data.
enum Body {
    /// Reads one node and adds a number.
    Add(ReadHandle, i64),
    /// Reads two nodes and adds them up.
    Sum(ReadHandle, ReadHandle),
    /// Reads one node and writes it down.
    Note(ReadHandle),
}

struct Program {
    bodies: Vec<(NodeId, Body)>,
    runs: Vec<NodeId>,
    notes: Vec<i64>,
}

impl Program {
    fn new() -> Program {
        Program { bodies: Vec::new(), runs: Vec::new(), notes: Vec::new() }
    }

    fn eval(&mut self, rt: &Runtime, body: &Body, log: &mut ReadLog) -> i64 {
        match *body {
            Body::Add(a, n) => rt.read_tracked(log, a).unwrap() + n,
            Body::Sum(a, b) => rt.read_tracked(log, a).unwrap() + rt.read_tracked(log, b).unwrap(),
            Body::Note(a) => {
                let v = rt.read_tracked(log, a).unwrap();
                self.notes.push(v);
                0
            }
        }
    }

    fn memo(&mut self, rt: &mut Runtime, scope: ScopeId, body: Body) -> ReadHandle {
        let mut log = ReadLog::new();
        let value = self.eval(rt, &body, &mut log);
        let handle = rt.create_memo(scope, &log, value);
        self.bodies.push((handle.node, body));
        handle
    }

    fn effect(&mut self, rt: &mut Runtime, scope: ScopeId, body: Body) -> NodeId {
        let mut log = ReadLog::new();
        self.eval(rt, &body, &mut log);
        let node = rt.create_effect(scope, &log);
        self.bodies.push((node, body));
        node
    }
}

impl Bodies for Program {
    fn run(&mut self, rt: &Runtime, node: NodeId, log: &mut ReadLog) -> i64 {
        let at = self.bodies.iter().position(|(n, _)| *n == node).unwrap();
        let body = std::mem::replace(&mut self.bodies[at].1, Body::Note(ReadHandle { node }));
        let value = self.eval(rt, &body, log);
        self.bodies[at].1 = body;
        self.runs.push(node);
        value
    }
}

#[test]
fn a_flush_runs_what_a_batch_touched_in_order() {
    let mut rt = Runtime::new();
    let mut program = Program::new();
    let scope = rt.create_scope();
    let (x, set_x) = rt.create_cell(scope, 1);
    let (y, set_y) = rt.create_cell(scope, 10);
    let plus = program.memo(&mut rt, scope, Body::Add(x, 1));
    let sum = program.memo(&mut rt, scope, Body::Sum(plus, y));
    let note = program.effect(&mut rt, scope, Body::Note(sum));
    assert_eq!(program.notes, vec![12]);

    rt.write(set_x, 2).unwrap();
    rt.write(set_y, 20).unwrap();
    assert_eq!(rt.flush(&mut program, 100), Ok(true));
    assert_eq!(program.runs, vec![plus.node, sum.node, note]);
    assert_eq!(program.notes, vec![12, 23]);
    assert_eq!(rt.read(sum), Ok(23));
    assert_eq!(rt.read(x), Ok(2));
    assert_eq!(rt.read(y), Ok(20));
    assert!(!rt.is_busy());

    assert_eq!(rt.flush(&mut program, 0), Ok(true));
    assert_eq!(program.runs.len(), 3);
}

#[test]
fn a_flush_stops_when_its_budget_is_spent() {
    let mut rt = Runtime::new();
    let mut program = Program::new();
    let scope = rt.create_scope();
    let (x, set_x) = rt.create_cell(scope, 1);
    let plus = program.memo(&mut rt, scope, Body::Add(x, 1));
    let more = program.memo(&mut rt, scope, Body::Add(plus, 1));
    rt.write(set_x, 5).unwrap();
    assert_eq!(rt.flush(&mut program, 0), Ok(false));
    assert!(rt.is_busy());
    assert_eq!(program.runs, vec![]);
    assert_eq!(rt.status_of(plus.node), Some(Status::Dirty));
    assert_eq!(rt.flush(&mut program, 1), Ok(false));
    assert_eq!(program.runs, vec![plus.node]);
    assert_eq!(rt.read(plus), Ok(6));
    assert_eq!(rt.read(more), Ok(3));
    assert_eq!(rt.flush(&mut program, 1), Ok(true));
    assert_eq!(program.runs, vec![plus.node, more.node]);
    assert_eq!(rt.read(more), Ok(7));
}

#[test]
fn a_flush_reports_a_ring() {
    let mut rt = Runtime::new();
    let mut program = Program::new();
    let scope = rt.create_scope();
    let (x, set_x) = rt.create_cell(scope, 1);
    let first = program.memo(&mut rt, scope, Body::Add(x, 1));
    let second = program.memo(&mut rt, scope, Body::Add(first, 1));
    // From now on the first memo reads the second as well.
    program.bodies[0].1 = Body::Sum(x, second);
    rt.write(set_x, 2).unwrap();
    assert_eq!(rt.flush(&mut program, 100), Err(EngineError::CyclicDependency));
    assert!(rt.is_busy());
    assert_eq!(rt.read(x), Ok(2));
    rt.dispose(scope);
    assert_eq!(rt.flush(&mut program, 100), Ok(true));
}
