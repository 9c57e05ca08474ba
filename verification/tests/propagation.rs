use reactive_core::handle::{EngineError, Kind, NodeId, Outcome, ReadHandle, Status, Step};
use reactive_core::runtime::{ReadLog, Runtime};
use std::cell::RefCell;
use std::rc::Rc;

type Body = Box<dyn Fn(&Runtime, &mut ReadLog) -> i64>;

/// A small host for the engine: it keeps the bodies of the computations and
/// runs whichever the engine hands out.
struct Host {
    rt: Runtime,
    bodies: Vec<(NodeId, Body)>,
    runs: Vec<NodeId>,
}

impl Host {
    fn new() -> Host {
        Host { rt: Runtime::new(), bodies: Vec::new(), runs: Vec::new() }
    }

    fn memo(&mut self, scope: reactive_core::handle::ScopeId, body: Body) -> ReadHandle {
        let mut log = ReadLog::new();
        let value = body(&self.rt, &mut log);
        let handle = self.rt.create_memo(scope, &log, value);
        self.bodies.push((handle.node, body));
        handle
    }

    fn effect(&mut self, scope: reactive_core::handle::ScopeId, body: Body) -> NodeId {
        let mut log = ReadLog::new();
        body(&self.rt, &mut log);
        let node = self.rt.create_effect(scope, &log);
        self.bodies.push((node, body));
        node
    }

    fn run(&mut self, node: NodeId) -> Outcome {
        let at = self.bodies.iter().position(|(n, _)| *n == node).unwrap();
        let mut log = ReadLog::new();
        let value = (self.bodies[at].1)(&self.rt, &mut log);
        self.runs.push(node);
        match self.rt.kind_of(node) {
            Some(Kind::Memo) => self.rt.finish_memo(ReadHandle { node }, &log, value).unwrap(),
            Some(Kind::Effect) => self.rt.finish_effect(node, &log).unwrap(),
            other => panic!("not a computation: {:?}", other),
        }
    }

    /// Ends the batch and runs what has to run; returns the steps taken.
    fn flush(&mut self) -> Result<Vec<Step>, EngineError> {
        self.rt.end_batch();
        self.drain()
    }

    fn drain(&mut self) -> Result<Vec<Step>, EngineError> {
        let mut steps = Vec::new();
        loop {
            let step = self.rt.advance()?;
            match step {
                Step::Idle => return Ok(steps),
                Step::Settled(_) => steps.push(step),
                Step::Run(node) => {
                    steps.push(step);
                    self.run(node);
                }
            }
        }
    }
}

fn get(rt: &Runtime, log: &mut ReadLog, h: ReadHandle) -> i64 {
    rt.read_tracked(log, h).unwrap()
}

#[test]
fn two_writes_in_one_batch_run_the_effect_once_with_the_last_value() {
    let mut host = Host::new();
    let scope = host.rt.create_scope();
    let (x, set_x) = host.rt.create_cell(scope, 1);
    let seen = Rc::new(RefCell::new(Vec::new()));
    let sink = seen.clone();
    let effect = host.effect(
        scope,
        Box::new(move |rt, log| {
            let v = get(rt, log, x);
            sink.borrow_mut().push(v);
            0
        }),
    );
    assert_eq!(*seen.borrow(), vec![1]);

    host.rt.write(set_x, 2).unwrap();
    host.rt.write(set_x, 3).unwrap();
    assert_eq!(host.rt.status_of(effect), Some(Status::Clean));
    let steps = host.flush().unwrap();
    assert_eq!(steps, vec![Step::Run(effect)]);
    assert_eq!(*seen.borrow(), vec![1, 3]);
    assert_eq!(host.rt.advance(), Ok(Step::Idle));
}

#[test]
fn a_write_that_goes_back_to_the_old_value_still_runs_the_effect_once() {
    let mut host = Host::new();
    let scope = host.rt.create_scope();
    let (x, set_x) = host.rt.create_cell(scope, 1);
    let count = Rc::new(RefCell::new(0));
    let sink = count.clone();
    let effect = host.effect(
        scope,
        Box::new(move |rt, log| {
            get(rt, log, x);
            *sink.borrow_mut() += 1;
            0
        }),
    );
    host.rt.write(set_x, 2).unwrap();
    host.rt.write(set_x, 1).unwrap();
    let steps = host.flush().unwrap();
    assert_eq!(steps, vec![Step::Run(effect)]);
    assert_eq!(*count.borrow(), 2);
    assert_eq!(host.rt.read(x), Ok(1));
}

#[test]
fn writing_the_value_a_cell_holds_runs_nothing() {
    let mut host = Host::new();
    let scope = host.rt.create_scope();
    let (x, set_x) = host.rt.create_cell(scope, 4);
    let effect = host.effect(scope, Box::new(move |rt, log| get(rt, log, x)));
    host.rt.write(set_x, 4).unwrap();
    let steps = host.flush().unwrap();
    assert_eq!(steps, vec![]);
    assert_eq!(host.runs, vec![]);
    assert_eq!(host.rt.status_of(effect), Some(Status::Clean));
}

#[test]
fn a_memo_that_keeps_its_value_spares_its_dependents() {
    let mut host = Host::new();
    let scope = host.rt.create_scope();
    let (x, set_x) = host.rt.create_cell(scope, 4);
    let half = host.memo(scope, Box::new(move |rt, log| get(rt, log, x) / 2));
    let seen = Rc::new(RefCell::new(Vec::new()));
    let sink = seen.clone();
    let effect = host.effect(
        scope,
        Box::new(move |rt, log| {
            let v = get(rt, log, half);
            sink.borrow_mut().push(v);
            0
        }),
    );
    assert_eq!(*seen.borrow(), vec![2]);

    host.rt.write(set_x, 5).unwrap();
    host.rt.end_batch();
    assert_eq!(host.rt.status_of(half.node), Some(Status::Dirty));
    assert_eq!(host.rt.status_of(effect), Some(Status::Check));
    assert_eq!(host.rt.advance(), Ok(Step::Run(half.node)));
    assert_eq!(host.run(half.node), Outcome::Unchanged);
    assert_eq!(host.rt.status_of(effect), Some(Status::Check));
    assert_eq!(host.rt.advance(), Ok(Step::Settled(effect)));
    assert_eq!(host.rt.advance(), Ok(Step::Idle));
    assert_eq!(*seen.borrow(), vec![2]);

    host.rt.write(set_x, 6).unwrap();
    let steps = host.flush().unwrap();
    assert_eq!(steps, vec![Step::Run(half.node), Step::Run(effect)]);
    assert_eq!(*seen.borrow(), vec![2, 3]);
}

#[test]
fn a_computation_follows_the_cells_it_read_last() {
    let mut host = Host::new();
    let scope = host.rt.create_scope();
    let (use_b, set_use_b) = host.rt.create_cell(scope, 0);
    let (a, set_a) = host.rt.create_cell(scope, 10);
    let (b, set_b) = host.rt.create_cell(scope, 20);
    let pick = host.memo(
        scope,
        Box::new(move |rt, log| {
            if get(rt, log, use_b) == 0 {
                get(rt, log, a)
            } else {
                get(rt, log, b)
            }
        }),
    );
    assert_eq!(host.rt.read(pick), Ok(10));
    assert!(host.rt.depends_on(pick.node, a.node));
    assert!(host.rt.depends_on(pick.node, use_b.node));
    assert!(!host.rt.depends_on(pick.node, b.node));

    host.rt.write(set_b, 21).unwrap();
    assert_eq!(host.flush().unwrap(), vec![]);

    host.rt.write(set_use_b, 1).unwrap();
    assert_eq!(host.flush().unwrap(), vec![Step::Run(pick.node)]);
    assert_eq!(host.rt.read(pick), Ok(21));
    assert!(!host.rt.depends_on(pick.node, a.node));
    assert!(host.rt.depends_on(pick.node, b.node));
    assert!(host.rt.depends_on(pick.node, use_b.node));

    host.rt.write(set_a, 11).unwrap();
    assert_eq!(host.flush().unwrap(), vec![]);
    assert_eq!(host.rt.read(pick), Ok(21));

    host.rt.write(set_b, 22).unwrap();
    assert_eq!(host.flush().unwrap(), vec![Step::Run(pick.node)]);
    assert_eq!(host.rt.read(pick), Ok(22));
}

#[test]
fn a_diamond_is_seen_whole() {
    let mut host = Host::new();
    let scope = host.rt.create_scope();
    let (x, set_x) = host.rt.create_cell(scope, 1);
    let seen = Rc::new(RefCell::new(Vec::new()));
    let sink = seen.clone();
    // The effect is created before the memos it will come to read, so that
    // arena order alone would run it first.
    let (left_slot, set_left_slot) = host.rt.create_cell(scope, -1);
    let _ = (left_slot, set_left_slot);
    let plus = host.memo(scope, Box::new(move |rt, log| get(rt, log, x) + 1));
    let twice = host.memo(scope, Box::new(move |rt, log| get(rt, log, x) * 2));
    let effect = host.effect(
        scope,
        Box::new(move |rt, log| {
            let p = get(rt, log, plus);
            let t = get(rt, log, twice);
            let direct = get(rt, log, x);
            sink.borrow_mut().push((direct, p, t));
            0
        }),
    );
    host.rt.write(set_x, 5).unwrap();
    let steps = host.flush().unwrap();
    assert_eq!(steps, vec![Step::Run(plus.node), Step::Run(twice.node), Step::Run(effect)]);
    assert_eq!(*seen.borrow(), vec![(1, 2, 2), (5, 6, 10)]);
}

#[test]
fn a_dependent_in_an_earlier_slot_waits_for_its_source() {
    let mut host = Host::new();
    let scope = host.rt.create_scope();
    let spare = host.rt.create_scope();
    // Take slot 0 and free it again, so that a later node lands in front of
    // the nodes it reads.
    let (_, _) = host.rt.create_cell(spare, 0);
    let (x, set_x) = host.rt.create_cell(scope, 1);
    let plus = host.memo(scope, Box::new(move |rt, log| get(rt, log, x) + 1));
    host.rt.dispose(spare);
    let seen = Rc::new(RefCell::new(Vec::new()));
    let sink = seen.clone();
    let effect = host.effect(
        scope,
        Box::new(move |rt, log| {
            let p = get(rt, log, plus);
            let direct = get(rt, log, x);
            sink.borrow_mut().push((direct, p));
            0
        }),
    );
    assert_eq!(effect.index, 0);
    assert_eq!(effect.generation, 1);
    host.rt.write(set_x, 7).unwrap();
    let steps = host.flush().unwrap();
    assert_eq!(steps, vec![Step::Run(plus.node), Step::Run(effect)]);
    assert_eq!(*seen.borrow(), vec![(1, 2), (7, 8)]);
}

#[test]
fn a_run_that_read_an_unsettled_node_is_refused_and_repeated() {
    let mut host = Host::new();
    let scope = host.rt.create_scope();
    let (x, set_x) = host.rt.create_cell(scope, 1);
    let (open, set_open) = host.rt.create_cell(scope, 0);
    let spare = host.rt.create_scope();
    let (_, _) = host.rt.create_cell(spare, 0);
    let plus = host.memo(scope, Box::new(move |rt, log| get(rt, log, x) + 1));
    host.rt.dispose(spare);
    // Lands in the freed slot in front of `plus`, and reads `plus` only
    // once `open` is set, so no edge to `plus` is recorded yet.
    let late = host.memo(
        scope,
        Box::new(move |rt, log| {
            if get(rt, log, open) == 0 {
                0
            } else {
                get(rt, log, plus)
            }
        }),
    );
    assert!(late.node.index < plus.node.index);
    host.rt.write(set_x, 5).unwrap();
    host.rt.write(set_open, 1).unwrap();
    host.rt.end_batch();
    assert_eq!(host.rt.advance(), Ok(Step::Run(late.node)));
    assert_eq!(host.run(late.node), Outcome::Stale);
    assert_eq!(host.rt.read(late), Ok(0));
    assert_eq!(host.rt.status_of(late.node), Some(Status::Dirty));
    assert_eq!(host.rt.advance(), Ok(Step::Run(plus.node)));
    assert_eq!(host.run(plus.node), Outcome::Changed);
    assert_eq!(host.rt.advance(), Ok(Step::Run(late.node)));
    assert_eq!(host.run(late.node), Outcome::Changed);
    assert_eq!(host.rt.read(late), Ok(6));
    assert_eq!(host.rt.advance(), Ok(Step::Idle));
}

#[test]
fn computations_that_wait_for_each_other_are_reported() {
    let mut host = Host::new();
    let scope = host.rt.create_scope();
    let (x, set_x) = host.rt.create_cell(scope, 0);
    let slot: Rc<RefCell<Option<ReadHandle>>> = Rc::new(RefCell::new(None));
    let later = slot.clone();
    let first = host.memo(
        scope,
        Box::new(move |rt, log| {
            let base = get(rt, log, x);
            match *later.borrow() {
                Some(other) => base + get(rt, log, other),
                None => base,
            }
        }),
    );
    let second = host.memo(scope, Box::new(move |rt, log| get(rt, log, first) + 1));
    *slot.borrow_mut() = Some(second);
    host.rt.write(set_x, 1).unwrap();
    assert_eq!(host.flush(), Err(EngineError::CyclicDependency));
    assert_eq!(host.rt.advance(), Err(EngineError::CyclicDependency));
    assert!(host.rt.depends_on(first.node, second.node));
    assert!(host.rt.depends_on(second.node, first.node));
    // The rest of the graph still works.
    assert_eq!(host.rt.read(x), Ok(1));
    host.rt.dispose(scope);
    assert_eq!(host.rt.advance(), Ok(Step::Idle));
}

#[test]
fn a_memo_that_reads_itself_is_reported() {
    let mut host = Host::new();
    let scope = host.rt.create_scope();
    let (x, set_x) = host.rt.create_cell(scope, 0);
    let slot: Rc<RefCell<Option<ReadHandle>>> = Rc::new(RefCell::new(None));
    let later = slot.clone();
    let me = host.memo(
        scope,
        Box::new(move |rt, log| {
            let base = get(rt, log, x);
            match *later.borrow() {
                Some(own) => base + get(rt, log, own),
                None => base,
            }
        }),
    );
    *slot.borrow_mut() = Some(me);
    host.rt.write(set_x, 1).unwrap();
    assert_eq!(host.flush(), Err(EngineError::CyclicDependency));
    assert_eq!(host.runs, vec![me.node]);
}

#[test]
fn a_run_nobody_asked_for_is_not_taken_in() {
    let mut host = Host::new();
    let scope = host.rt.create_scope();
    let (x, _) = host.rt.create_cell(scope, 3);
    let twice = host.memo(scope, Box::new(move |rt, log| get(rt, log, x) * 2));
    let effect = host.effect(scope, Box::new(move |rt, log| get(rt, log, twice)));
    let log = ReadLog::new();
    assert_eq!(host.rt.finish_memo(twice, &log, 99), Ok(Outcome::NotDue));
    assert_eq!(host.rt.read(twice), Ok(6));
    assert!(host.rt.depends_on(twice.node, x.node));
    assert_eq!(host.rt.finish_effect(effect, &log), Ok(Outcome::NotDue));
    // A memo is no effect and an effect is no memo.
    assert_eq!(host.rt.finish_effect(twice.node, &log), Ok(Outcome::NotDue));
    assert_eq!(host.rt.finish_memo(ReadHandle { node: effect }, &log, 1), Ok(Outcome::NotDue));
    assert_eq!(host.rt.finish_memo(x, &log, 1), Ok(Outcome::NotDue));
}
