use reactive_core::handle::{NodeId, ReadHandle, WriteHandle};
use reactive_core::host::Bodies;
use reactive_core::runtime::{ReadLog, Runtime};

/// A memo that adds up two of the nodes before it; which two depends on
/// whether the cell it looks at first holds an even number.
#[derive(Clone, Copy)]
struct Rule {
    switch: usize,
    even: (usize, usize),
    odd: (usize, usize),
}

struct Net {
    cells: Vec<(ReadHandle, WriteHandle)>,
    /// Readers of all nodes: first the cells, then the memos.
    readers: Vec<ReadHandle>,
    rules: Vec<Rule>,
    runs: Vec<usize>,
}

impl Net {
    fn picks(&self, rule: Rule, switch: i64) -> (usize, usize) {
        if switch % 2 == 0 {
            rule.even
        } else {
            rule.odd
        }
    }

    fn eval(&self, rt: &Runtime, rule: Rule, log: &mut ReadLog) -> i64 {
        let switch = rt.read_tracked(log, self.cells[rule.switch].0).unwrap();
        let (a, b) = self.picks(rule, switch);
        let a = rt.read_tracked(log, self.readers[a]).unwrap();
        let b = rt.read_tracked(log, self.readers[b]).unwrap();
        (a + b) % 1000
    }

    /// What memo `m` should hold, worked out from the cells alone.
    fn expected(&self, rt: &Runtime, node: usize) -> i64 {
        if node < self.cells.len() {
            return rt.read(self.cells[node].0).unwrap();
        }
        let rule = self.rules[node - self.cells.len()];
        let switch = rt.read(self.cells[rule.switch].0).unwrap();
        let (a, b) = self.picks(rule, switch);
        (self.expected(rt, a) + self.expected(rt, b)) % 1000
    }
}

impl Bodies for Net {
    fn run(&mut self, rt: &Runtime, node: NodeId, log: &mut ReadLog) -> i64 {
        let at = self.readers.iter().position(|r| r.node == node).unwrap();
        let m = at - self.cells.len();
        self.runs[m] += 1;
        self.eval(rt, self.rules[m], log)
    }
}

struct Dice(u64);

impl Dice {
    fn roll(&mut self, below: usize) -> usize {
        self.0 = self.0.wrapping_mul(6364136223846793005).wrapping_add(1442695040888963407);
        ((self.0 >> 33) as usize) % below
    }
}

fn build(dice: &mut Dice, cells: usize, memos: usize) -> (Runtime, Net) {
    let mut rt = Runtime::new();
    let scope = rt.create_scope();
    let mut net = Net { cells: Vec::new(), readers: Vec::new(), rules: Vec::new(), runs: Vec::new() };
    for _ in 0..cells {
        let ends = rt.create_cell(scope, dice.roll(10) as i64);
        net.cells.push(ends);
        net.readers.push(ends.0);
    }
    for m in 0..memos {
        let below = cells + m;
        let rule = Rule {
            switch: dice.roll(cells),
            even: (dice.roll(below), dice.roll(below)),
            odd: (dice.roll(below), dice.roll(below)),
        };
        let mut log = ReadLog::new();
        let value = net.eval(&rt, rule, &mut log);
        let memo = rt.create_memo(scope, &log, value);
        net.readers.push(memo);
        net.rules.push(rule);
        net.runs.push(0);
    }
    (rt, net)
}

fn check_all(rt: &Runtime, net: &Net) {
    for node in 0..net.readers.len() {
        assert_eq!(rt.read(net.readers[node]), Ok(net.expected(rt, node)), "node {}", node);
    }
}

#[test]
fn after_every_batch_each_memo_holds_what_the_cells_give() {
    let mut dice = Dice(2024);
    for round in 0..40 {
        let cells = 2 + dice.roll(5);
        let memos = 1 + dice.roll(12);
        let (mut rt, mut net) = build(&mut dice, cells, memos);
        check_all(&rt, &net);
        for _batch in 0..25 {
            let writes = 1 + dice.roll(4);
            for _ in 0..writes {
                let cell = dice.roll(cells);
                rt.write(net.cells[cell].1, dice.roll(10) as i64).unwrap();
            }
            for count in net.runs.iter_mut() {
                *count = 0;
            }
            assert_eq!(rt.flush(&mut net, 10_000), Ok(true), "round {}", round);
            assert!(!rt.is_busy());
            check_all(&rt, &net);
            // No memo ran twice: none was handed out before what it reads
            // had settled.
            assert!(net.runs.iter().all(|&count| count <= 1), "runs {:?}", net.runs);
        }
    }
}

#[test]
fn a_memo_runs_only_if_something_it_reads_changed() {
    let mut dice = Dice(7);
    for _round in 0..40 {
        let cells = 2 + dice.roll(4);
        let memos = 1 + dice.roll(10);
        let (mut rt, mut net) = build(&mut dice, cells, memos);
        for _batch in 0..20 {
            let before: Vec<i64> = net.readers.iter().map(|r| rt.read(*r).unwrap()).collect();
            let cell = dice.roll(cells);
            rt.write(net.cells[cell].1, dice.roll(10) as i64).unwrap();
            for count in net.runs.iter_mut() {
                *count = 0;
            }
            // What each memo read when it last ran.
            let sources: Vec<Vec<usize>> = (0..memos)
                .map(|m| {
                    (0..net.readers.len())
                        .filter(|&s| rt.depends_on(net.readers[cells + m].node, net.readers[s].node))
                        .collect()
                })
                .collect();
            assert_eq!(rt.flush(&mut net, 10_000), Ok(true));
            let after: Vec<i64> = net.readers.iter().map(|r| rt.read(*r).unwrap()).collect();
            for m in 0..memos {
                let moved = sources[m].iter().any(|&s| before[s] != after[s]);
                assert_eq!(net.runs[m] == 1, moved, "memo {}", m);
            }
        }
    }
}
