//! The program that the compiler builds: one function in static single
//! assignment form, and what it means to run it.

use vstd::prelude::*;

verus! {

/// A value of the program: a constant, a parameter of the function, or the
/// result of an instruction.
#[derive(Debug, PartialEq, Eq, Clone, Copy)]
pub enum Value {
    Const(u64),
    Param(usize),
    Inst(usize),
}

/// One way into a merge point: the value that arrives, and the block that
/// control comes from.
#[derive(Debug, PartialEq, Eq, Clone, Copy)]
pub struct Edge {
    pub value: Value,
    pub from: usize,
}

/// An instruction. Its place in the program's list is the name of its
/// result.
#[derive(Debug, PartialEq, Eq, Clone, Copy)]
pub enum Inst {
    /// The operand plus one, wrapping around.
    Incr(Value),
    /// The operand minus one; the operand is not zero.
    Decr(Value),
    /// A merge point: the value of the edge that control came in by. The
    /// second edge may be added after the first.
    Phi { first: Edge, second: Option<Edge> },
    /// Reports the value of a variable; it has no result.
    Report { var: usize, value: Value },
}

/// How a block ends.
#[derive(Debug, PartialEq, Eq, Clone, Copy)]
pub enum Terminator {
    Jump(usize),
    /// Goes to `equal` where the value `lhs` is the number `rhs`, else to
    /// `differ`. The number is a wide integer: one that no value can be
    /// sends every run to `differ`.
    Branch { lhs: Value, rhs: i128, equal: usize, differ: usize },
    Return,
}

/// What a block is there for.
#[derive(Debug, PartialEq, Eq, Clone, Copy)]
pub enum Label {
    Entry,
    AlreadyZero,
    NotZero,
    Loop,
    InnerLoop,
    LoopExit,
}

/// A basic block: the instructions from `start` up to `end` in the
/// program's list, and the way out once it has one.
#[derive(Debug, PartialEq, Eq, Clone, Copy)]
pub struct Block {
    pub label: Label,
    pub start: usize,
    pub end: usize,
    pub term: Option<Terminator>,
}

/// A value that a run has reported.
#[derive(Debug, PartialEq, Eq, Clone, Copy)]
pub struct Report {
    pub var: usize,
    pub value: u64,
}

/// How a run ended.
#[derive(Debug, PartialEq, Eq)]
pub enum Outcome {
    /// The function returned, after these reports.
    Finished(Vec<Report>),
    /// The program is broken at the place the run came to.
    Fault,
    /// The run entered more blocks than it was allowed.
    OutOfFuel,
}

/// How a run ended, with the reports as a sequence.
pub enum OutcomeView {
    Finished(Seq<Report>),
    Fault,
    OutOfFuel,
}

impl View for Outcome {
    type V = OutcomeView;

    open spec fn view(&self) -> OutcomeView {
        match self {
            Outcome::Finished(reports) => OutcomeView::Finished(reports@),
            Outcome::Fault => OutcomeView::Fault,
            Outcome::OutOfFuel => OutcomeView::OutOfFuel,
        }
    }
}

/// The state of a run: the result of each instruction, as far as it has
/// been run, and the reports made.
pub struct Machine {
    pub env: Seq<Option<u64>>,
    pub out: Seq<Report>,
}

/// The names of a list of strings, each as the sequence of its characters.
pub open spec fn texts(names: Seq<String>) -> Seq<Seq<char>> {
    Seq::new(names.len(), |i: int| names[i]@)
}

/// One more than `x`, wrapping around at 64 bits.
pub open spec fn succ(x: u64) -> u64 {
    if x == u64::MAX {
        0
    } else {
        (x + 1) as u64
    }
}

/// What a value is in a state of the run. The result of an instruction
/// that has not been run is no value.
pub open spec fn eval(v: Value, env: Seq<Option<u64>>, args: Seq<u64>) -> Option<u64> {
    match v {
        Value::Const(c) => Some(c),
        Value::Param(k) => if k < args.len() {
            Some(args[k as int])
        } else {
            None
        },
        Value::Inst(i) => if i < env.len() {
            env[i as int]
        } else {
            None
        },
    }
}

/// The value that a merge point takes when control comes from `pred`.
pub open spec fn incoming(first: Edge, second: Option<Edge>, pred: usize) -> Option<Value> {
    if first.from == pred {
        Some(first.value)
    } else {
        match second {
            Some(e) => if e.from == pred {
                Some(e.value)
            } else {
                None
            },
            None => None,
        }
    }
}

/// A program, as sequences.
#[verifier::ext_equal]
pub struct ProgramView {
    pub names: Seq<Seq<char>>,
    pub params: nat,
    pub insts: Seq<Inst>,
    pub blocks: Seq<Block>,
}

impl ProgramView {
    /// The value names something that has a value.
    pub open spec fn value_ok(self, v: Value) -> bool {
        match v {
            Value::Const(_) => true,
            Value::Param(k) => k < self.params,
            Value::Inst(i) => i < self.insts.len() && !(self.insts[i as int] is Report),
        }
    }

    /// The operands of the instruction `i` have values, and what else it
    /// names is there.
    pub open spec fn inst_ok(self, i: int) -> bool {
        match self.insts[i] {
            Inst::Incr(v) => self.value_ok(v),
            Inst::Decr(v) => self.value_ok(v),
            Inst::Phi { first, second } => {
                &&& self.value_ok(first.value)
                &&& first.from < self.blocks.len()
                &&& match second {
                    Some(e) => self.value_ok(e.value) && e.from < self.blocks.len(),
                    None => true,
                }
            },
            Inst::Report { var, value } => var < self.names.len() && self.value_ok(value),
        }
    }

    /// The blocks that the terminator names are there, and its operands
    /// have values.
    pub open spec fn term_ok(self, t: Terminator) -> bool {
        match t {
            Terminator::Jump(b) => b < self.blocks.len(),
            Terminator::Return => true,
            Terminator::Branch { lhs, rhs, equal, differ } => {
                &&& self.value_ok(lhs)
                &&& equal < self.blocks.len()
                &&& differ < self.blocks.len()
            },
        }
    }

    /// The block `b` lies inside the list of instructions, and its
    /// terminator, if it has one, is in order.
    pub open spec fn block_ok(self, b: int) -> bool {
        let block = self.blocks[b];
        &&& block.start <= block.end <= self.insts.len()
        &&& match block.term {
            Some(t) => self.term_ok(t),
            None => true,
        }
    }

    /// Whatever the program names is there: it has an entry block, every
    /// instruction and every block is in order, and the lists are no
    /// longer than the machine can index.
    pub open spec fn sound(self) -> bool {
        &&& 0 < self.blocks.len() <= usize::MAX
        &&& self.insts.len() <= usize::MAX
        &&& forall|i: int| 0 <= i < self.insts.len() ==> #[trigger] self.inst_ok(i)
        &&& forall|b: int| 0 <= b < self.blocks.len() ==> #[trigger] self.block_ok(b)
    }

    /// The block `a` ends with a jump or a branch to the block `b`.
    pub open spec fn goes(self, a: int, b: int) -> bool {
        match self.blocks[a].term {
            Some(Terminator::Jump(to)) => to == b,
            Some(Terminator::Branch { lhs, rhs, equal, differ }) => equal == b || differ == b,
            _ => false,
        }
    }

    /// The instruction `i` stands in the block `b`.
    pub open spec fn holds(self, b: int, i: int) -> bool {
        self.blocks[b].start <= i < self.blocks[b].end
    }

    /// The instruction `i` stands in a block.
    pub open spec fn housed(self, i: int) -> bool {
        exists|b: int| 0 <= b < self.blocks.len() && #[trigger] self.holds(b, i)
    }

    /// Where the instruction `i` of the block `b` is a merge point, its
    /// edges come from blocks that go to `b`, from a different block
    /// each, and every block that goes to `b` has an edge.
    pub open spec fn fed(self, b: int, i: int) -> bool {
        match self.insts[i] {
            Inst::Phi { first, second } => {
                &&& self.goes(first.from as int, b)
                &&& match second {
                    Some(e) => self.goes(e.from as int, b) && e.from != first.from,
                    None => true,
                }
                &&& forall|a: int|
                    0 <= a < self.blocks.len() && #[trigger] self.goes(a, b) ==> a == first.from
                        || match second {
                        Some(e) => a == e.from,
                        None => false,
                    }
            },
            _ => true,
        }
    }

    /// The merge points of the block `b` come before its other
    /// instructions.
    pub open spec fn merges_first(self, b: int) -> bool {
        forall|i: int, j: int|
            self.blocks[b].start <= j < i < self.blocks[b].end && #[trigger] self.insts[i] is Phi
                ==> #[trigger] self.insts[j] is Phi
    }

    /// The blocks and the instructions fit together: no block goes to
    /// the entry block, every instruction stands in one block and in no
    /// other, the merge points of a block come first in it, and each is
    /// fed by the blocks that go to its block.
    pub open spec fn linked(self) -> bool {
        &&& forall|a: int| 0 <= a < self.blocks.len() ==> !#[trigger] self.goes(a, 0)
        &&& forall|i: int| 0 <= i < self.insts.len() ==> #[trigger] self.housed(i)
        &&& forall|b: int, c: int, i: int|
            0 <= b < self.blocks.len() && 0 <= c < self.blocks.len() && #[trigger] self.holds(b, i)
                && #[trigger] self.holds(c, i) ==> b == c
        &&& forall|b: int, i: int|
            0 <= b < self.blocks.len() && #[trigger] self.holds(b, i) ==> self.fed(b, i)
        &&& forall|b: int| 0 <= b < self.blocks.len() ==> #[trigger] self.merges_first(b)
    }

    /// The result of the instruction `d` is there at the end of the block
    /// `a`: it is among the results `avail[a]` that are there when the
    /// block is entered, or the block holds the instruction.
    pub open spec fn ready(self, avail: Seq<Set<int>>, a: int, d: int) -> bool {
        avail[a].contains(d) || self.holds(a, d)
    }

    /// The value, if it is the result of an instruction, is there at the
    /// end of the block `a`.
    pub open spec fn value_ready(self, avail: Seq<Set<int>>, a: int, v: Value) -> bool {
        match v {
            Value::Inst(d) => self.ready(avail, a, d as int),
            _ => true,
        }
    }

    /// The instruction `i` of the block `b` uses only results that are
    /// there: an operand is there when the block is entered or comes from
    /// an earlier instruction of the block, and the value of an edge of a
    /// merge point is there at the end of the block that the edge comes
    /// from.
    pub open spec fn uses_ready(self, avail: Seq<Set<int>>, b: int, i: int) -> bool {
        match self.insts[i] {
            Inst::Phi { first, second } => {
                &&& self.value_ready(avail, first.from as int, first.value)
                &&& match second {
                    Some(e) => self.value_ready(avail, e.from as int, e.value),
                    None => true,
                }
            },
            Inst::Incr(v) => self.operand_ready(avail, b, i, v),
            Inst::Decr(v) => self.operand_ready(avail, b, i, v),
            Inst::Report { var, value } => self.operand_ready(avail, b, i, value),
        }
    }

    /// The operand `v` of the instruction `i` of the block `b` is there.
    pub open spec fn operand_ready(self, avail: Seq<Set<int>>, b: int, i: int, v: Value) -> bool {
        match v {
            Value::Inst(d) => avail[b].contains(d as int) || self.blocks[b].start <= d < i,
            _ => true,
        }
    }

    /// The value that the terminator of the block `b` tests is there at
    /// the end of the block.
    pub open spec fn test_ready(self, avail: Seq<Set<int>>, b: int) -> bool {
        match self.blocks[b].term {
            Some(Terminator::Branch { lhs, rhs, equal, differ }) => self.value_ready(avail, b, lhs),
            _ => true,
        }
    }

    /// What is there when the block `b` is entered is there at the end
    /// of the block `a`.
    pub open spec fn passes(self, avail: Seq<Set<int>>, a: int, b: int) -> bool {
        forall|d: int| #[trigger] avail[b].contains(d) ==> self.ready(avail, a, d)
    }

    /// The sets `avail`, one for each block, say which results are there
    /// when the block is entered: none at the entry of the program, and
    /// in a block that another goes to only what is there at the end of
    /// that other block. With them, every instruction and every
    /// terminator uses only results that are there.
    pub open spec fn scoped(self, avail: Seq<Set<int>>) -> bool {
        &&& avail.len() == self.blocks.len()
        &&& forall|d: int| !#[trigger] avail[0].contains(d)
        &&& forall|a: int, b: int|
            0 <= a < self.blocks.len() && 0 <= b < self.blocks.len() && #[trigger] self.goes(a, b)
                ==> self.passes(avail, a, b)
        &&& forall|b: int, i: int|
            0 <= b < self.blocks.len() && #[trigger] self.holds(b, i) ==> self.uses_ready(
                avail,
                b,
                i,
            )
        &&& forall|b: int| 0 <= b < self.blocks.len() ==> #[trigger] self.test_ready(avail, b)
    }

    /// Every value is made before it is used, whatever way the run takes:
    /// there are sets of results for the blocks with which the program is
    /// scoped.
    pub open spec fn well_scoped(self) -> bool {
        exists|avail: Seq<Set<int>>| self.scoped(avail)
    }

    /// The blocks of `path` are a way that a run can take from the entry
    /// of the program: each goes to the next.
    pub open spec fn is_path(self, path: Seq<int>) -> bool {
        &&& path.len() > 0
        &&& path[0] == 0
        &&& forall|k: int| 0 <= k < path.len() ==> 0 <= #[trigger] path[k] < self.blocks.len()
        &&& forall|k: int| 0 <= k < path.len() - 1 ==> self.goes(#[trigger] path[k], path[k + 1])
    }

    /// The program is sound, linked and well scoped, and nothing is left
    /// open: every block has a terminator and every merge point has both
    /// its edges.
    pub open spec fn complete(self) -> bool {
        &&& self.sound()
        &&& self.linked()
        &&& self.well_scoped()
        &&& forall|b: int| 0 <= b < self.blocks.len() ==> (#[trigger] self.blocks[b]).term is Some
        &&& forall|i: int|
            0 <= i < self.insts.len() ==> match #[trigger] self.insts[i] {
                Inst::Phi { first, second } => second is Some,
                _ => true,
            }
    }

    /// The state after the instruction `id`, run in a block that control
    /// entered from `pred` in the state `entry`. Merge points read the
    /// state at entry, so that those of one block do not see each other;
    /// `None` is a fault.
    pub open spec fn step(
        self,
        args: Seq<u64>,
        id: int,
        pred: usize,
        entry: Seq<Option<u64>>,
        m: Machine,
    ) -> Option<Machine> {
        if !(0 <= id < self.insts.len() && id < m.env.len()) {
            None
        } else {
            match self.insts[id] {
                Inst::Incr(v) => match eval(v, m.env, args) {
                    Some(x) => Some(Machine { env: m.env.update(id, Some(succ(x))), out: m.out }),
                    None => None,
                },
                Inst::Decr(v) => match eval(v, m.env, args) {
                    Some(x) => if x == 0 {
                        None
                    } else {
                        Some(Machine { env: m.env.update(id, Some((x - 1) as u64)), out: m.out })
                    },
                    None => None,
                },
                Inst::Phi { first, second } => match incoming(first, second, pred) {
                    Some(v) => match eval(v, entry, args) {
                        Some(x) => Some(Machine { env: m.env.update(id, Some(x)), out: m.out }),
                        None => None,
                    },
                    None => None,
                },
                Inst::Report { var, value } => match eval(value, m.env, args) {
                    Some(x) => Some(Machine { env: m.env, out: m.out.push(Report { var, value: x }) }),
                    None => None,
                },
            }
        }
    }

    /// The state after the instructions from `from` up to `to`.
    pub open spec fn exec_range(
        self,
        args: Seq<u64>,
        from: int,
        to: int,
        pred: usize,
        entry: Seq<Option<u64>>,
        m: Machine,
    ) -> Option<Machine>
        decreases to - from,
    {
        if from >= to {
            Some(m)
        } else {
            match self.step(args, from, pred, entry, m) {
                Some(next) => self.exec_range(args, from + 1, to, pred, entry, next),
                None => None,
            }
        }
    }

    /// The block that control goes to from the end of a block, `None` at
    /// a return; the outer `None` is a fault.
    pub open spec fn target(t: Terminator, env: Seq<Option<u64>>, args: Seq<u64>) -> Option<Option<usize>> {
        match t {
            Terminator::Jump(b) => Some(Some(b)),
            Terminator::Return => Some(None),
            Terminator::Branch { lhs, rhs, equal, differ } => match eval(lhs, env, args) {
                Some(l) => Some(
                    Some(
                        if l as int == rhs as int {
                            equal
                        } else {
                            differ
                        },
                    ),
                ),
                None => None,
            },
        }
    }

    /// How the run ends that enters `block` from `pred` in the state `m`
    /// and may enter `fuel` blocks.
    pub open spec fn run_from(
        self,
        args: Seq<u64>,
        block: usize,
        pred: usize,
        m: Machine,
        fuel: nat,
    ) -> OutcomeView
        decreases fuel,
    {
        if fuel == 0 {
            OutcomeView::OutOfFuel
        } else if block >= self.blocks.len() {
            OutcomeView::Fault
        } else {
            let b = self.blocks[block as int];
            match self.exec_range(args, b.start as int, b.end as int, pred, m.env, m) {
                None => OutcomeView::Fault,
                Some(after) => match b.term {
                    None => OutcomeView::Fault,
                    Some(t) => match Self::target(t, after.env, args) {
                        None => OutcomeView::Fault,
                        Some(None) => OutcomeView::Finished(after.out),
                        Some(Some(next)) => self.run_from(args, next, block, after, (fuel - 1) as nat),
                    },
                },
            }
        }
    }

    /// The state in which a run starts.
    pub open spec fn start(self) -> Machine {
        Machine { env: Seq::new(self.insts.len(), |i: int| None::<u64>), out: Seq::empty() }
    }

    /// How the run of the program on `args` ends, when it may enter `fuel`
    /// blocks. The number of arguments is that of the parameters.
    pub open spec fn run(self, args: Seq<u64>, fuel: nat) -> OutcomeView {
        if args.len() != self.params {
            OutcomeView::Fault
        } else {
            self.run_from(args, 0, 0, self.start(), fuel)
        }
    }
}

/// In a scoped program, a result that is there when a block is entered
/// was made on the way: whatever way the run takes from the entry of the
/// program to the block, a block that it passes before holds the
/// instruction.
pub proof fn lemma_made_on_the_way(p: ProgramView, avail: Seq<Set<int>>, path: Seq<int>, d: int)
    requires
        p.scoped(avail),
        p.is_path(path),
        avail[path.last()].contains(d),
    ensures
        exists|k: int| 0 <= k < path.len() - 1 && p.holds(#[trigger] path[k], d),
    decreases path.len(),
{
    let n = path.len() - 1;
    if n > 0 {
        let shorter = path.drop_last();
        assert(p.goes(path[n - 1], path[n - 1 + 1]));
        assert(0 <= path[n - 1] < p.blocks.len() && 0 <= path[n] < p.blocks.len());
        assert(p.passes(avail, path[n - 1], path[n]));
        assert(p.ready(avail, path[n - 1], d));
        if p.holds(path[n - 1], d) {
            assert(0 <= n - 1 < path.len() - 1 && p.holds(path[n - 1], d));
        } else {
            assert(p.is_path(shorter)) by {
                assert forall|k: int| 0 <= k < shorter.len() - 1 implies p.goes(
                    #[trigger] shorter[k],
                    shorter[k + 1],
                ) by {
                    assert(p.goes(path[k], path[k + 1]));
                }
            }
            lemma_made_on_the_way(p, avail, shorter, d);
            let k = choose|k: int| 0 <= k < shorter.len() - 1 && p.holds(#[trigger] shorter[k], d);
            assert(p.holds(path[k], d));
        }
    }
}

/// The operand of an instruction.
pub open spec fn operand(inst: Inst) -> Option<Value> {
    match inst {
        Inst::Incr(v) => Some(v),
        Inst::Decr(v) => Some(v),
        Inst::Report { var, value } => Some(value),
        Inst::Phi { first, second } => None,
    }
}

/// In a well scoped program an operand is made before it is used: where
/// the instruction `i` of a block has the result of the instruction `d`
/// as its operand, then on every way from the entry of the program to
/// the block, a block passed before holds `d`, or `d` stands before `i`
/// in the block itself.
pub proof fn lemma_operand_made_before_use(p: ProgramView, path: Seq<int>, i: int, d: usize)
    requires
        p.well_scoped(),
        p.is_path(path),
        p.holds(path.last(), i),
        operand(p.insts[i]) == Some(Value::Inst(d)),
    ensures
        (exists|k: int| 0 <= k < path.len() - 1 && p.holds(#[trigger] path[k], d as int))
            || p.blocks[path.last()].start <= d < i,
{
    let avail = choose|avail: Seq<Set<int>>| p.scoped(avail);
    let b = path.last();
    assert(0 <= path[path.len() - 1] < p.blocks.len());
    assert(p.uses_ready(avail, b, i));
    if avail[b].contains(d as int) {
        lemma_made_on_the_way(p, avail, path, d as int);
    }
}

/// In a well scoped program the value of an edge of a merge point is
/// made before control takes the edge: where the edge comes from the
/// last block of a way from the entry of the program and has the result
/// of the instruction `d` as its value, a block on the way holds `d`.
pub proof fn lemma_edge_made_before_use(
    p: ProgramView,
    path: Seq<int>,
    b: int,
    i: int,
    edge: Edge,
    d: usize,
)
    requires
        p.well_scoped(),
        p.is_path(path),
        0 <= b < p.blocks.len(),
        p.holds(b, i),
        match p.insts[i] {
            Inst::Phi { first, second } => edge == first || second == Some(edge),
            _ => false,
        },
        edge.from == path.last(),
        edge.value == Value::Inst(d),
    ensures
        exists|k: int| 0 <= k < path.len() && p.holds(#[trigger] path[k], d as int),
{
    let avail = choose|avail: Seq<Set<int>>| p.scoped(avail);
    let a = path.last();
    assert(p.uses_ready(avail, b, i));
    assert(p.ready(avail, a, d as int));
    if avail[a].contains(d as int) {
        lemma_made_on_the_way(p, avail, path, d as int);
        let k = choose|k: int| 0 <= k < path.len() - 1 && p.holds(#[trigger] path[k], d as int);
        assert(0 <= k < path.len() && p.holds(path[k], d as int));
    } else {
        assert(p.holds(path[path.len() - 1], d as int));
    }
}

/// In a well scoped program a value that a branch tests is made before
/// the test: where the last block of a way from the entry of the program
/// tests the result of the instruction `d`, a block on the way holds `d`.
pub proof fn lemma_test_made_before_use(p: ProgramView, path: Seq<int>, d: usize)
    requires
        p.well_scoped(),
        p.is_path(path),
        match p.blocks[path.last()].term {
            Some(Terminator::Branch { lhs, rhs, equal, differ }) => lhs == Value::Inst(d),
            _ => false,
        },
    ensures
        exists|k: int| 0 <= k < path.len() && p.holds(#[trigger] path[k], d as int),
{
    let avail = choose|avail: Seq<Set<int>>| p.scoped(avail);
    let a = path.last();
    assert(0 <= path[path.len() - 1] < p.blocks.len());
    assert(p.test_ready(avail, a));
    assert(p.ready(avail, a, d as int));
    if avail[a].contains(d as int) {
        lemma_made_on_the_way(p, avail, path, d as int);
        let k = choose|k: int| 0 <= k < path.len() - 1 && p.holds(#[trigger] path[k], d as int);
        assert(0 <= k < path.len() && p.holds(path[k], d as int));
    } else {
        assert(p.holds(path[path.len() - 1], d as int));
    }
}

/// A program: one function, whose first block is the entry.
#[derive(Debug, PartialEq, Eq)]
pub struct Program {
    /// The variables, by index.
    pub names: Vec<String>,
    /// The number of parameters of the function.
    pub params: usize,
    pub insts: Vec<Inst>,
    pub blocks: Vec<Block>,
}

impl View for Program {
    type V = ProgramView;

    open spec fn view(&self) -> ProgramView {
        ProgramView {
            names: texts(self.names@),
            params: self.params as nat,
            insts: self.insts@,
            blocks: self.blocks@,
        }
    }
}

/// A value as a wide integer.
fn wide(x: u64) -> (r: i128)
    ensures
        r == x,
{
    x as i128
}

/// Reads a value in a state of the run.
fn read(v: Value, env: &Vec<Option<u64>>, args: &Vec<u64>) -> (r: Option<u64>)
    ensures
        r == eval(v, env@, args@),
{
    match v {
        Value::Const(c) => Some(c),
        Value::Param(k) => if k < args.len() {
            Some(args[k])
        } else {
            None
        },
        Value::Inst(i) => if i < env.len() {
            env[i]
        } else {
            None
        },
    }
}

/// A copy of a state of the run.
fn snapshot(env: &Vec<Option<u64>>) -> (r: Vec<Option<u64>>)
    ensures
        r@ == env@,
{
    let mut r: Vec<Option<u64>> = Vec::new();
    let mut i: usize = 0;
    while i < env.len()
        invariant
            i <= env.len(),
            r@ == env@.take(i as int),
        decreases env.len() - i,
    {
        r.push(env[i]);
        assert(env@.take(i + 1) == env@.take(i as int).push(env@[i as int]));
        i += 1;
    }
    assert(env@.take(i as int) == env@);
    r
}

impl Program {
    /// Runs the program on `args` for at most `fuel` blocks.
    #[verifier::loop_isolation(false)]
    pub fn run(&self, args: &Vec<u64>, fuel: u64) -> (r: Outcome)
        ensures
            r@ == self@.run(args@, fuel as nat),
    {
        if args.len() != self.params {
            return Outcome::Fault;
        }
        let mut env: Vec<Option<u64>> = Vec::new();
        while env.len() < self.insts.len()
            invariant
                env.len() <= self.insts.len(),
                forall|i: int| 0 <= i < env.len() ==> env[i] is None,
            decreases self.insts.len() - env.len(),
        {
            env.push(None);
        }
        assert(env@ == self@.start().env);
        let mut out: Vec<Report> = Vec::new();
        let mut block: usize = 0;
        let mut pred: usize = 0;
        let mut left: u64 = fuel;
        loop
            invariant
                args.len() == self.params,
                self@.run_from(args@, block, pred, Machine { env: env@, out: out@ }, left as nat)
                    == self@.run(args@, fuel as nat),
            decreases left,
        {
            if left == 0 {
                return Outcome::OutOfFuel;
            }
            if block >= self.blocks.len() {
                return Outcome::Fault;
            }
            let b: Block = self.blocks[block];
            let entry = snapshot(&env);
            let ghost m0 = Machine { env: env@, out: out@ };
            assert(self@.run_from(args@, block, pred, m0, left as nat) == self@.run(
                args@,
                fuel as nat,
            ));
            let mut pc: usize = b.start;
            while pc < b.end
                invariant
                    self@.exec_range(
                        args@,
                        pc as int,
                        b.end as int,
                        pred,
                        entry@,
                        Machine { env: env@, out: out@ },
                    ) == self@.exec_range(args@, b.start as int, b.end as int, pred, entry@, m0),
                decreases b.end - pc,
            {
                if pc >= self.insts.len() || pc >= env.len() {
                    return Outcome::Fault;
                }
                match self.insts[pc] {
                    Inst::Incr(v) => match read(v, &env, args) {
                        Some(x) => {
                            env.set(pc, Some(x.wrapping_add(1)));
                        },
                        None => {
                            return Outcome::Fault;
                        },
                    },
                    Inst::Decr(v) => match read(v, &env, args) {
                        Some(x) => {
                            if x == 0 {
                                return Outcome::Fault;
                            }
                            env.set(pc, Some(x - 1));
                        },
                        None => {
                            return Outcome::Fault;
                        },
                    },
                    Inst::Phi { first, second } => {
                        let v = if first.from == pred {
                            first.value
                        } else {
                            match second {
                                Some(e) => {
                                    if e.from != pred {
                                        return Outcome::Fault;
                                    }
                                    e.value
                                },
                                None => {
                                    return Outcome::Fault;
                                },
                            }
                        };
                        match read(v, &entry, args) {
                            Some(x) => {
                                env.set(pc, Some(x));
                            },
                            None => {
                                return Outcome::Fault;
                            },
                        }
                    },
                    Inst::Report { var, value } => match read(value, &env, args) {
                        Some(x) => {
                            out.push(Report { var, value: x });
                        },
                        None => {
                            return Outcome::Fault;
                        },
                    },
                }
                pc += 1;
            }
            let next = match b.term {
                None => {
                    return Outcome::Fault;
                },
                Some(Terminator::Return) => {
                    return Outcome::Finished(out);
                },
                Some(Terminator::Jump(t)) => t,
                Some(Terminator::Branch { lhs, rhs, equal, differ }) => {
                    match read(lhs, &env, args) {
                        Some(l) => if wide(l) == rhs {
                            equal
                        } else {
                            differ
                        },
                        None => {
                            return Outcome::Fault;
                        },
                    }
                },
            };
            pred = block;
            block = next;
            left -= 1;
        }
    }
}

} // verus!
