//! The code generator: it takes the statements in source order and builds
//! the program, keeping for every variable the value that stands for it at
//! the point reached.

use crate::ir::{
    texts, Block, Edge, Inst, Label, Outcome, Program, ProgramView, Terminator, Value,
};
use crate::order::{
    lemma_bind_wf, lemma_close_while_wf, lemma_decr_wf, lemma_finalize_wf, lemma_incr_wf,
    lemma_initial_wf, lemma_open_while_wf,
};
use vstd::prelude::*;

verus! {

/// Why the generator refused an operation.
#[derive(Debug, PartialEq, Eq, Clone, Copy)]
pub enum BuildError {
    /// The name is not in the variable table.
    UnknownVariable,
    /// The variable table names a variable twice.
    DuplicateVariable,
    /// An `end` without an open loop.
    UnmatchedEnd,
    /// The program ends inside a loop.
    UnclosedLoop,
    /// The program was finished before.
    Finished,
}

/// An open loop: its merge points are the instructions from `phis` on, one
/// for each variable; `header` tests the bound and `exit` is where control
/// goes when the variable has reached it.
#[derive(Debug, PartialEq, Eq, Clone, Copy)]
pub struct LoopContext {
    pub phis: usize,
    pub header: usize,
    pub exit: usize,
}

/// The place of `name` in `names`, if it is among them.
pub open spec fn index_of(names: Seq<Seq<char>>, name: Seq<char>) -> Option<int> {
    if exists|i: int| 0 <= i < names.len() && names[i] == name {
        Some(choose|i: int| 0 <= i < names.len() && names[i] == name)
    } else {
        None
    }
}

/// No name occurs twice.
pub open spec fn distinct(names: Seq<Seq<char>>) -> bool {
    forall|i: int, j: int| 0 <= i < j < names.len() ==> names[i] != names[j]
}

/// The frame whose values are the `n` instructions from `first` on.
pub open spec fn results(first: usize, n: nat) -> Seq<Value> {
    Seq::new(n, |j: int| Value::Inst((first + j) as usize))
}

/// The value that a variable starts with: the last parameter that `inputs`
/// names for it, or zero.
pub open spec fn initial_value(inputs: Seq<Seq<char>>, name: Seq<char>) -> Value
    decreases inputs.len(),
{
    if inputs.len() == 0 {
        Value::Const(0)
    } else if inputs.last() == name {
        Value::Param((inputs.len() - 1) as usize)
    } else {
        initial_value(inputs.drop_last(), name)
    }
}

/// The state of the generator, as sequences.
#[verifier::ext_equal]
pub struct ConverterView {
    pub program: ProgramView,
    /// The block that instructions are added to.
    pub current: usize,
    /// The scope stack: for each enclosing loop and for the function, the
    /// value of every variable; the last frame is the live one.
    pub frames: Seq<Seq<Value>>,
    /// The open loops, innermost last.
    pub loops: Seq<LoopContext>,
    pub finished: bool,
}

impl ConverterView {
    /// The number of variables.
    pub open spec fn width(self) -> nat {
        self.program.names.len()
    }

    /// The live frame.
    pub open spec fn top(self) -> Seq<Value> {
        self.frames.last()
    }

    /// The name of the next instruction.
    pub open spec fn next_inst(self) -> usize {
        self.program.insts.len() as usize
    }

    /// The name of the next block.
    pub open spec fn next_block(self) -> usize {
        self.program.blocks.len() as usize
    }

    /// With `insts` added at the end of the current block.
    pub open spec fn emit_all(self, insts: Seq<Inst>) -> ConverterView {
        let b = self.program.blocks[self.current as int];
        ConverterView {
            program: ProgramView {
                insts: self.program.insts + insts,
                blocks: self.program.blocks.update(
                    self.current as int,
                    Block { end: (b.end + insts.len()) as usize, ..b },
                ),
                ..self.program
            },
            ..self
        }
    }

    /// With `inst` added at the end of the current block.
    pub open spec fn emit(self, inst: Inst) -> ConverterView {
        self.emit_all(seq![inst])
    }

    /// With the variable `var` bound to `v` in the live frame.
    pub open spec fn bind(self, var: int, v: Value) -> ConverterView {
        ConverterView {
            frames: self.frames.update(self.frames.len() - 1, self.top().update(var, v)),
            ..self
        }
    }

    /// With the current block ended by `t`.
    pub open spec fn seal(self, t: Terminator) -> ConverterView {
        let b = self.program.blocks[self.current as int];
        ConverterView {
            program: ProgramView {
                blocks: self.program.blocks.update(self.current as int, Block { term: Some(t), ..b }),
                ..self.program
            },
            ..self
        }
    }

    /// With a new, empty block at the end of the list of blocks.
    pub open spec fn open_block(self, label: Label) -> ConverterView {
        ConverterView {
            program: ProgramView {
                blocks: self.program.blocks.push(
                    Block { label, start: self.next_inst(), end: self.next_inst(), term: None },
                ),
                ..self.program
            },
            ..self
        }
    }

    /// With `block` as the current block, its instructions starting at
    /// the end of the list.
    pub open spec fn enter(self, block: usize) -> ConverterView {
        let b = self.program.blocks[block as int];
        ConverterView {
            program: ProgramView {
                blocks: self.program.blocks.update(
                    block as int,
                    Block { start: self.next_inst(), end: self.next_inst(), ..b },
                ),
                ..self.program
            },
            current: block,
            ..self
        }
    }

    /// `var = var + 1`: one instruction, and the variable bound to it.
    pub open spec fn incr(self, var: int) -> ConverterView {
        self.emit(Inst::Incr(self.top()[var])).bind(var, Value::Inst(self.next_inst()))
    }

    /// `if var != 0 { var = var - 1 }`: a test against zero, a block that
    /// subtracts, and a merge point of the old value and the new one,
    /// which the variable is bound to.
    pub open spec fn decr(self, var: int) -> ConverterView {
        let v = self.top()[var];
        let from = self.current;
        let skip = self.next_block();
        let no_skip = (skip + 1) as usize;
        let less = self.next_inst();
        let merged = (less + 1) as usize;
        self.open_block(Label::AlreadyZero).open_block(Label::NotZero).seal(
            Terminator::Branch { lhs: v, rhs: 0, equal: skip, differ: no_skip },
        ).enter(no_skip).emit(Inst::Decr(v)).seal(Terminator::Jump(skip)).enter(skip).emit(
            Inst::Phi {
                first: Edge { value: v, from },
                second: Some(Edge { value: Value::Inst(less), from: no_skip }),
            },
        ).bind(var, Value::Inst(merged))
    }

    /// `var = 0`.
    pub open spec fn clear(self, var: int) -> ConverterView {
        self.bind(var, Value::Const(0))
    }

    /// `to = from`.
    pub open spec fn copy(self, from: int, to: int) -> ConverterView {
        self.bind(to, self.top()[from])
    }

    /// The merge points at the head of a loop: one for each variable, fed
    /// by the value in `frame` along the edge from `from`.
    pub open spec fn merge_points(frame: Seq<Value>, from: usize) -> Seq<Inst> {
        Seq::new(
            frame.len(),
            |j: int| Inst::Phi { first: Edge { value: frame[j], from }, second: None },
        )
    }

    /// `while var != bound`: control goes on to a header block that holds
    /// a merge point for each variable and tests that of `var` against the
    /// bound; the body is entered with the merge points as the values of
    /// the variables, in a frame of its own.
    pub open spec fn open_while(self, var: int, bound: i128) -> ConverterView {
        let from = self.current;
        let header = self.next_block();
        let body = (header + 1) as usize;
        let exit = (header + 2) as usize;
        let phis = self.next_inst();
        let inner = self.open_block(Label::Loop).seal(Terminator::Jump(header)).enter(
            header,
        ).emit_all(Self::merge_points(self.top(), from)).open_block(Label::InnerLoop).open_block(
            Label::LoopExit,
        ).seal(
            Terminator::Branch {
                lhs: Value::Inst((phis + var) as usize),
                rhs: bound,
                equal: exit,
                differ: body,
            },
        ).enter(body);
        ConverterView {
            frames: inner.frames.push(results(phis, self.width())),
            loops: inner.loops.push(LoopContext { phis, header, exit }),
            ..inner
        }
    }

    /// The instructions with the second edge of each merge point of `ctx`
    /// set: the value in `frame`, along the edge from `from`.
    pub open spec fn link_back(
        insts: Seq<Inst>,
        ctx: LoopContext,
        frame: Seq<Value>,
        from: usize,
    ) -> Seq<Inst> {
        Seq::new(
            insts.len(),
            |i: int|
                if ctx.phis <= i < ctx.phis + frame.len() {
                    match insts[i] {
                        Inst::Phi { first, second } => Inst::Phi {
                            first,
                            second: Some(Edge { value: frame[i - ctx.phis], from }),
                        },
                        other => other,
                    }
                } else {
                    insts[i]
                },
        )
    }

    /// `end`: control goes back to the header of the innermost loop, each
    /// of its merge points gets the value at the end of the body as its
    /// second edge, and the code after the loop starts in the exit block
    /// with the merge points as the values of the variables. The frame of
    /// the body and that from before the loop give way to one frame.
    pub open spec fn close_while(self) -> ConverterView {
        let ctx = self.loops.last();
        let sealed = self.seal(Terminator::Jump(ctx.header));
        let linked = ConverterView {
            program: ProgramView {
                insts: Self::link_back(self.program.insts, ctx, self.top(), self.current),
                ..sealed.program
            },
            ..sealed
        }.enter(ctx.exit);
        ConverterView {
            frames: self.frames.drop_last().drop_last().push(results(ctx.phis, self.width())),
            loops: self.loops.drop_last(),
            ..linked
        }
    }

    /// The reports at the end of the program: one for each variable, in
    /// the order of the table.
    pub open spec fn reports(frame: Seq<Value>) -> Seq<Inst> {
        Seq::new(frame.len(), |j: int| Inst::Report { var: j as usize, value: frame[j] })
    }

    /// The end of the program: the reports, and the return.
    pub open spec fn finalize(self) -> ConverterView {
        ConverterView {
            finished: true,
            ..self.emit_all(Self::reports(self.top())).seal(Terminator::Return)
        }
    }

    /// The loop `k` is open: its blocks are there, its exit block waits
    /// for its code, and its merge points wait for their second edge.
    pub open spec fn loop_ok(self, k: int) -> bool {
        let ctx = self.loops[k];
        let p = self.program;
        &&& 0 < ctx.header < p.blocks.len()
        &&& ctx.exit < p.blocks.len()
        &&& ctx.exit != self.current
        &&& ctx.header != self.current
        &&& p.blocks[ctx.header as int].term is Some
        &&& p.blocks[ctx.header as int].start == ctx.phis
        &&& p.blocks[ctx.header as int].end == ctx.phis + self.width()
        &&& p.blocks[ctx.exit as int].term is None
        &&& p.blocks[ctx.exit as int].start == p.blocks[ctx.exit as int].end
        &&& ctx.phis + self.width() <= p.insts.len()
        &&& forall|j: int|
            0 <= j < self.width() ==> match #[trigger] p.insts[ctx.phis + j] {
                Inst::Phi { first, second } => second is None,
                _ => false,
            }
    }

    /// Two open loops share neither their exit block nor a merge point:
    /// the inner one was opened later.
    pub open spec fn phis_apart(self, k: int, l: int) -> bool {
        &&& self.loops[k].exit != self.loops[l].exit
        &&& self.loops[k].phis + self.width() <= self.loops[l].phis
    }

    /// The block `b` belongs to an open loop as its exit block.
    pub open spec fn is_exit(self, b: int) -> bool {
        exists|k: int| 0 <= k < self.loops.len() && (#[trigger] self.loops[k]).exit == b
    }

    /// The instruction `i` is among the merge points of an open loop.
    pub open spec fn is_open_phi(self, i: int) -> bool {
        exists|k: int|
            0 <= k < self.loops.len() && (#[trigger] self.loops[k]).phis <= i < self.loops[k].phis
                + self.width()
    }

    /// What is there at the end of the block `a` is there at the end of
    /// the block `b`.
    pub open spec fn covers(self, avail: Seq<Set<int>>, a: int, b: int) -> bool {
        forall|d: int| #[trigger] self.program.ready(avail, a, d) ==> self.program.ready(avail, b, d)
    }

    /// What is there at the end of the block `a` is there when the block
    /// `b` is entered.
    pub open spec fn enters(self, avail: Seq<Set<int>>, a: int, b: int) -> bool {
        forall|d: int| #[trigger] self.program.ready(avail, a, d) ==> avail[b].contains(d)
    }

    /// The open loop `k` is scoped: what is there behind its header is
    /// there at the point reached, so that control can go back; it is
    /// just what is there in the exit block; and what is there behind
    /// the header of an enclosing loop is there in the header.
    pub open spec fn loop_scoped(self, avail: Seq<Set<int>>, k: int) -> bool {
        let ctx = self.loops[k];
        &&& self.covers(avail, ctx.header as int, self.current as int)
        &&& self.enters(avail, ctx.header as int, ctx.exit as int)
        &&& self.program.passes(avail, ctx.header as int, ctx.exit as int)
        &&& forall|l: int|
            0 <= l < k ==> self.enters(avail, (#[trigger] self.loops[l]).header as int, ctx.header as int)
    }

    /// The program is scoped with the sets `avail`, the values of the
    /// live frame are there at the point reached, and the open loops are
    /// scoped.
    pub open spec fn scoped_now(self, avail: Seq<Set<int>>) -> bool {
        &&& self.program.scoped(avail)
        &&& !self.finished ==> forall|j: int|
            0 <= j < self.width() ==> self.program.value_ready(
                avail,
                self.current as int,
                #[trigger] self.top()[j],
            )
        &&& forall|k: int| 0 <= k < self.loops.len() ==> #[trigger] self.loop_scoped(avail, k)
    }

    /// The frame holds a value for each variable.
    pub open spec fn frame_ok(self, f: int) -> bool {
        &&& self.frames[f].len() == self.width()
        &&& forall|j: int|
            0 <= j < self.width() ==> self.program.value_ok(#[trigger] self.frames[f][j])
    }

    /// What holds of the generator between two operations.
    pub open spec fn wf(self) -> bool {
        let p = self.program;
        &&& distinct(p.names)
        &&& p.sound()
        &&& p.linked()
        &&& exists|avail: Seq<Set<int>>| self.scoped_now(avail)
        &&& self.frames.len() == self.loops.len() + 1
        &&& self.loops.len() < p.blocks.len()
        &&& forall|f: int| 0 <= f < self.frames.len() ==> #[trigger] self.frame_ok(f)
        &&& self.current < p.blocks.len()
        &&& !self.finished ==> p.blocks[self.current as int].term is None
            && p.blocks[self.current as int].end == p.insts.len()
        &&& forall|k: int| 0 <= k < self.loops.len() ==> #[trigger] self.loop_ok(k)
        &&& forall|k: int, l: int|
            0 <= k < l < self.loops.len() ==> #[trigger] self.phis_apart(k, l)
        &&& forall|b: int|
            0 <= b < p.blocks.len() && (#[trigger] p.blocks[b]).term is None ==> (b
                == self.current && !self.finished) || self.is_exit(b)
        &&& forall|i: int|
            0 <= i < p.insts.len() ==> match #[trigger] p.insts[i] {
                Inst::Phi { first, second } => second is None ==> self.is_open_phi(i),
                _ => true,
            }
        &&& self.finished ==> self.loops.len() == 0
    }

    /// The generator before the first statement: the entry block, and a
    /// frame that binds each variable to the last parameter given for it,
    /// or to zero.
    pub open spec fn initial(names: Seq<Seq<char>>, inputs: Seq<Seq<char>>) -> ConverterView {
        ConverterView {
            program: ProgramView {
                names,
                params: inputs.len(),
                insts: Seq::empty(),
                blocks: seq![Block { label: Label::Entry, start: 0, end: 0, term: None }],
            },
            current: 0,
            frames: seq![Seq::new(names.len(), |j: int| initial_value(inputs, names[j]))],
            loops: Seq::empty(),
            finished: false,
        }
    }

    /// Why an `end` is refused, if it is.
    pub open spec fn end_refused(self) -> Option<BuildError> {
        if self.finished {
            Some(BuildError::Finished)
        } else if self.loops.len() == 0 {
            Some(BuildError::UnmatchedEnd)
        } else {
            None
        }
    }

    /// Why the end of the program is refused, if it is.
    pub open spec fn eof_refused(self) -> Option<BuildError> {
        if self.finished {
            Some(BuildError::Finished)
        } else if self.loops.len() > 0 {
            Some(BuildError::UnclosedLoop)
        } else {
            None
        }
    }

    /// The generator for a variable table and a list of inputs, or why
    /// there is none: the table names a variable twice, or an input is
    /// not in the table.
    pub open spec fn create(names: Seq<Seq<char>>, inputs: Seq<Seq<char>>) -> Result<
        ConverterView,
        BuildError,
    > {
        if !distinct(names) {
            Err(BuildError::DuplicateVariable)
        } else if exists|k: int| 0 <= k < inputs.len() && index_of(names, #[trigger] inputs[k]) is None {
            Err(BuildError::UnknownVariable)
        } else {
            Ok(Self::initial(names, inputs))
        }
    }

    /// The place of a variable, or why an operation on it is refused.
    pub open spec fn variable(self, name: Seq<char>) -> Result<int, BuildError> {
        if self.finished {
            Err(BuildError::Finished)
        } else {
            match index_of(self.program.names, name) {
                Some(i) => Ok(i),
                None => Err(BuildError::UnknownVariable),
            }
        }
    }
}

/// A name that is found at a place in a table without repetition has that
/// place as its index.
pub proof fn lemma_index_of(names: Seq<Seq<char>>, name: Seq<char>, i: int)
    requires
        distinct(names),
        0 <= i < names.len(),
        names[i] == name,
    ensures
        index_of(names, name) == Some(i),
{
    let j = choose|j: int| 0 <= j < names.len() && names[j] == name;
    if j < i {
        assert(names[j] != names[i]);
    } else if i < j {
        assert(names[i] != names[j]);
    }
}

/// The place of `name` in `names`.
fn find(names: &Vec<String>, name: &str) -> (r: Option<usize>)
    ensures
        match r {
            Some(i) => i < names.len() && names[i as int]@ == name@,
            None => forall|i: int| 0 <= i < names.len() ==> names[i]@ != name@,
        },
{
    let wanted = name.to_owned();
    let mut i: usize = 0;
    while i < names.len()
        invariant
            i <= names.len(),
            wanted@ == name@,
            forall|j: int| 0 <= j < i ==> names[j]@ != name@,
        decreases names.len() - i,
    {
        if names[i] == wanted {
            return Some(i);
        }
        i += 1;
    }
    None
}

/// The names of a list of string slices, each as the sequence of its
/// characters.
pub open spec fn slice_texts(names: Seq<&str>) -> Seq<Seq<char>> {
    Seq::new(names.len(), |i: int| names[i]@)
}

/// The frame whose values are the `n` instructions from `first` on.
fn results_frame(first: usize, n: usize) -> (r: Vec<Value>)
    requires
        first + n <= usize::MAX,
    ensures
        r@ == results(first, n as nat),
{
    let mut r: Vec<Value> = Vec::new();
    let mut j: usize = 0;
    while j < n
        invariant
            j <= n,
            first + n <= usize::MAX,
            r@ == results(first, j as nat),
        decreases n - j,
    {
        r.push(Value::Inst(first + j));
        j += 1;
        assert(r@ == results(first, j as nat));
    }
    r
}

/// The code generator.
pub struct Converter {
    program: Program,
    current: usize,
    saved: Vec<Vec<Value>>,
    top: Vec<Value>,
    loops: Vec<LoopContext>,
    finished: bool,
}

impl View for Converter {
    type V = ConverterView;

    closed spec fn view(&self) -> ConverterView {
        ConverterView {
            program: self.program@,
            current: self.current,
            frames: Seq::new(self.saved.len() as nat, |k: int| self.saved[k]@).push(self.top@),
            loops: self.loops@,
            finished: self.finished,
        }
    }
}

impl Converter {
    /// What holds of the generator between two operations.
    pub open spec fn wf(&self) -> bool {
        self@.wf()
    }

    /// A generator for the variables `varib`, of which `inputs` start as
    /// the parameters of the function, in this order, and the others as
    /// zero.
    pub fn new(varib: Vec<&str>, inputs: &Vec<&str>) -> (r: Result<Converter, BuildError>)
        ensures
            match r {
                Ok(c) => c.wf() && ConverterView::create(slice_texts(varib@), slice_texts(inputs@))
                    == Ok::<ConverterView, BuildError>(c@),
                Err(e) => ConverterView::create(slice_texts(varib@), slice_texts(inputs@)) == Err::<
                    ConverterView,
                    BuildError,
                >(e),
            },
    {
        let ghost all = slice_texts(varib@);
        let ghost ins = slice_texts(inputs@);
        let mut names: Vec<String> = Vec::new();
        let mut i: usize = 0;
        while i < varib.len()
            invariant
                i <= varib.len(),
                all == slice_texts(varib@),
                names.len() == i,
                texts(names@) == all.take(i as int),
                distinct(all.take(i as int)),
            decreases varib.len() - i,
        {
            match find(&names, varib[i]) {
                Some(j) => {
                    assert(texts(names@)[j as int] == all[i as int]);
                    assert(all.take(i as int)[j as int] == all[j as int]);
                    assert(all[j as int] == all[i as int]);
                    return Err(BuildError::DuplicateVariable);
                },
                None => {},
            }
            let ghost before = names@;
            names.push(varib[i].to_owned());
            proof {
                let longer = all.take(i + 1);
                assert forall|a: int| 0 <= a < longer.len() implies texts(names@)[a] == longer[a] by {
                    if a < i {
                        assert(texts(before)[a] == all.take(i as int)[a]);
                    }
                }
                assert(texts(names@) == longer);
                assert forall|a: int, b: int| 0 <= a < b < longer.len() implies longer[a]
                    != longer[b] by {
                    if b < i {
                        assert(all.take(i as int)[a] != all.take(i as int)[b]);
                    } else {
                        assert(texts(before)[a] == all[a]);
                    }
                }
            }
            i += 1;
        }
        assert(all.take(i as int) == all);
        let n = names.len();
        let mut top: Vec<Value> = Vec::new();
        while top.len() < n
            invariant
                top.len() <= n,
                forall|j: int| 0 <= j < top.len() ==> top[j] == Value::Const(0),
            decreases n - top.len(),
        {
            top.push(Value::Const(0));
        }
        let mut k: usize = 0;
        assert(ins.take(0).len() == 0);
        while k < inputs.len()
            invariant
                k <= inputs.len(),
                ins == slice_texts(inputs@),
                all == slice_texts(varib@),
                texts(names@) == all,
                distinct(all),
                n == names.len(),
                top.len() == n,
                forall|j: int| 0 <= j < n ==> top[j] == initial_value(ins.take(k as int), all[j]),
                forall|q: int| 0 <= q < k ==> index_of(all, #[trigger] ins[q]) is Some,
            decreases inputs.len() - k,
        {
            let at = match find(&names, inputs[k]) {
                Some(at) => at,
                None => {
                    assert(index_of(all, ins[k as int]) is None) by {
                        if index_of(all, ins[k as int]) is Some {
                            let w = choose|w: int| 0 <= w < all.len() && all[w] == ins[k as int];
                            assert(texts(names@)[w] == ins[k as int]);
                        }
                    }
                    return Err(BuildError::UnknownVariable);
                },
            };
            top.set(at, Value::Param(k));
            proof {
                assert(texts(names@)[at as int] == ins[k as int]);
                lemma_index_of(all, ins[k as int], at as int);
                let longer = ins.take(k + 1);
                assert(longer.drop_last() == ins.take(k as int));
                assert(longer.last() == ins[k as int]);
                assert forall|j: int| 0 <= j < n implies top[j] == initial_value(longer, all[j]) by {
                    if j != at {
                        assert(all[j] != all[at as int]);
                    }
                }
            }
            k += 1;
        }
        assert(ins.take(k as int) == ins);
        let mut blocks: Vec<Block> = Vec::new();
        blocks.push(Block { label: Label::Entry, start: 0, end: 0, term: None });
        let c = Converter {
            program: Program { names, params: inputs.len(), insts: Vec::new(), blocks },
            current: 0,
            saved: Vec::new(),
            top,
            loops: Vec::new(),
            finished: false,
        };
        proof {
            assert(c.top@ == Seq::new(all.len(), |j: int| initial_value(ins, all[j])));
            assert(c@.frames == ConverterView::initial(all, ins).frames);
            assert(c@ == ConverterView::initial(all, ins));
            lemma_initial_wf(all, ins);
        }
        Ok(c)
    }

    /// The program as far as it is built.
    pub fn program(&self) -> (r: &Program)
        ensures
            r@ == self@.program,
    {
        &self.program
    }

    /// Runs the program as far as it is built on `args`, for at most
    /// `fuel` blocks. A program that is not finished does not return.
    pub fn run(&self, args: &Vec<u64>, fuel: u64) -> (r: Outcome)
        ensures
            r@ == self@.program.run(args@, fuel as nat),
    {
        self.program.run(args, fuel)
    }

    /// Gives up the generator for the program as far as it is built.
    pub fn into_program(self) -> (r: Program)
        ensures
            r@ == self@.program,
    {
        self.program
    }

    /// Tells whether the end of the program has been emitted.
    pub fn is_finished(&self) -> (r: bool)
        ensures
            r == self@.finished,
    {
        self.finished
    }

    /// The depth of the scope stack: one more than the number of open
    /// loops.
    pub fn depth(&self) -> (r: usize)
        requires
            self.wf(),
        ensures
            r == self@.frames.len(),
            r == self@.loops.len() + 1,
    {
        self.loops.len() + 1
    }

    /// The value that stands for each variable at the point reached.
    pub fn frame(&self) -> (r: &Vec<Value>)
        ensures
            r@ == self@.top(),
    {
        &self.top
    }

    /// The place of a variable, or why an operation on it is refused.
    fn variable(&self, name: &str) -> (r: Result<usize, BuildError>)
        requires
            self.wf(),
        ensures
            match r {
                Ok(i) => self@.variable(name@) == Ok::<int, BuildError>(i as int) && i
                    < self@.width(),
                Err(e) => self@.variable(name@) == Err::<int, BuildError>(e),
            },
    {
        if self.finished {
            return Err(BuildError::Finished);
        }
        match find(&self.program.names, name) {
            Some(i) => {
                proof {
                    assert(texts(self.program.names@)[i as int] == name@);
                    lemma_index_of(self@.program.names, name@, i as int);
                }
                Ok(i)
            },
            None => {
                assert(index_of(self@.program.names, name@) is None);
                Err(BuildError::UnknownVariable)
            },
        }
    }

    /// Adds `inst` at the end of the current block and returns its name.
    fn emit(&mut self, inst: Inst) -> (id: usize)
        requires
            old(self).current < old(self).program.blocks.len(),
            old(self).program.blocks[old(self).current as int].end < old(self).program.insts.len()
                + 1,
        ensures
            final(self)@ == old(self)@.emit(inst),
            id == old(self)@.next_inst(),
            old(self)@.program.insts.len() < usize::MAX,
    {
        let id = self.program.insts.len();
        let b = self.program.blocks[self.current];
        self.program.insts.push(inst);
        assert(self.program.insts.len() == id + 1);
        self.program.blocks.set(self.current, Block { end: b.end + 1, ..b });
        assert(self@.frames == old(self)@.frames);
        assert(self@.program.insts == old(self)@.program.insts + seq![inst]);
        id
    }

    /// Binds the variable `var` to `v` in the live frame.
    fn bind(&mut self, var: usize, v: Value)
        requires
            var < old(self).top.len(),
        ensures
            final(self)@ == old(self)@.bind(var as int, v),
    {
        self.top.set(var, v);
        assert(self@.frames == old(self)@.frames.update(
            old(self)@.frames.len() - 1,
            old(self)@.top().update(var as int, v),
        ));
    }

    /// `var = var + 1`
    pub fn add_incr(&mut self, var: &str) -> (r: Result<(), BuildError>)
        requires
            old(self).wf(),
        ensures
            final(self).wf(),
            match old(self)@.variable(var@) {
                Ok(i) => r is Ok && final(self)@ == old(self)@.incr(i),
                Err(e) => r == Err::<(), BuildError>(e) && final(self)@ == old(self)@,
            },
    {
        let i = match self.variable(var) {
            Ok(i) => i,
            Err(e) => {
                return Err(e);
            },
        };
        assert(self@.frame_ok(self@.frames.len() - 1));
        let v = self.top[i];
        let id = self.emit(Inst::Incr(v));
        self.bind(i, Value::Inst(id));
        proof {
            lemma_incr_wf(old(self)@, i as int);
        }
        Ok(())
    }

    /// Ends the current block with `t`.
    fn seal(&mut self, t: Terminator)
        requires
            old(self).current < old(self).program.blocks.len(),
        ensures
            final(self)@ == old(self)@.seal(t),
    {
        let b = self.program.blocks[self.current];
        self.program.blocks.set(self.current, Block { term: Some(t), ..b });
        assert(self@.frames == old(self)@.frames);
    }

    /// Adds an empty block and returns its name.
    fn open_block(&mut self, label: Label) -> (id: usize)
        ensures
            final(self)@ == old(self)@.open_block(label),
            id == old(self)@.next_block(),
            old(self)@.program.blocks.len() < usize::MAX,
    {
        let id = self.program.blocks.len();
        let at = self.program.insts.len();
        self.program.blocks.push(Block { label, start: at, end: at, term: None });
        assert(self.program.blocks.len() == id + 1);
        assert(self@.frames == old(self)@.frames);
        id
    }

    /// Makes `block` the current block.
    fn enter(&mut self, block: usize)
        requires
            block < old(self).program.blocks.len(),
        ensures
            final(self)@ == old(self)@.enter(block),
    {
        let b = self.program.blocks[block];
        let at = self.program.insts.len();
        self.program.blocks.set(block, Block { start: at, end: at, ..b });
        self.current = block;
        assert(self@.frames == old(self)@.frames);
    }

    /// `if var != 0 { var = var - 1 }`
    pub fn add_decr(&mut self, var: &str) -> (r: Result<(), BuildError>)
        requires
            old(self).wf(),
        ensures
            final(self).wf(),
            match old(self)@.variable(var@) {
                Ok(i) => r is Ok && final(self)@ == old(self)@.decr(i),
                Err(e) => r == Err::<(), BuildError>(e) && final(self)@ == old(self)@,
            },
    {
        let i = match self.variable(var) {
            Ok(i) => i,
            Err(e) => {
                return Err(e);
            },
        };
        assert(self@.frame_ok(self@.frames.len() - 1));
        let v = self.top[i];
        let from = self.current;
        let skip = self.open_block(Label::AlreadyZero);
        let no_skip = self.open_block(Label::NotZero);
        self.seal(Terminator::Branch { lhs: v, rhs: 0, equal: skip, differ: no_skip });
        self.enter(no_skip);
        let less = self.emit(Inst::Decr(v));
        self.seal(Terminator::Jump(skip));
        self.enter(skip);
        let merged = self.emit(
            Inst::Phi {
                first: Edge { value: v, from },
                second: Some(Edge { value: Value::Inst(less), from: no_skip }),
            },
        );
        self.bind(i, Value::Inst(merged));
        proof {
            lemma_decr_wf(old(self)@, i as int);
        }
        Ok(())
    }

    /// `var = 0`
    pub fn add_clear(&mut self, var: &str) -> (r: Result<(), BuildError>)
        requires
            old(self).wf(),
        ensures
            final(self).wf(),
            match old(self)@.variable(var@) {
                Ok(i) => r is Ok && final(self)@ == old(self)@.clear(i),
                Err(e) => r == Err::<(), BuildError>(e) && final(self)@ == old(self)@,
            },
    {
        let i = match self.variable(var) {
            Ok(i) => i,
            Err(e) => {
                return Err(e);
            },
        };
        assert(self@.frame_ok(self@.frames.len() - 1));
        self.bind(i, Value::Const(0));
        proof {
            lemma_bind_wf(old(self)@, i as int, Value::Const(0));
        }
        Ok(())
    }

    /// `to = from`
    pub fn add_copy(&mut self, from: &str, to: &str) -> (r: Result<(), BuildError>)
        requires
            old(self).wf(),
        ensures
            final(self).wf(),
            match (old(self)@.variable(from@), old(self)@.variable(to@)) {
                (Ok(i), Ok(j)) => r is Ok && final(self)@ == old(self)@.copy(i, j),
                (Err(e), _) => r == Err::<(), BuildError>(e) && final(self)@ == old(self)@,
                (_, Err(e)) => r == Err::<(), BuildError>(e) && final(self)@ == old(self)@,
            },
    {
        let i = match self.variable(from) {
            Ok(i) => i,
            Err(e) => {
                return Err(e);
            },
        };
        let j = match self.variable(to) {
            Ok(j) => j,
            Err(e) => {
                return Err(e);
            },
        };
        assert(self@.frame_ok(self@.frames.len() - 1));
        let v = self.top[i];
        self.bind(j, v);
        proof {
            assert(old(self)@.top()[i as int] == v);
            lemma_bind_wf(old(self)@, j as int, v);
        }
        Ok(())
    }

    /// Adds the merge points of a loop at the end of the current block:
    /// one for each variable, fed by its value along the edge from
    /// `from`.
    #[verifier::loop_isolation(false)]
    fn emit_merge_points(&mut self, from: usize)
        requires
            old(self).current < old(self).program.blocks.len(),
            old(self).program.blocks[old(self).current as int].end
                == old(self).program.insts.len(),
        ensures
            final(self)@ == old(self)@.emit_all(
                ConverterView::merge_points(old(self)@.top(), from),
            ),
            old(self)@.program.insts.len() + old(self)@.top().len() <= usize::MAX,
    {
        let n = self.top.len();
        let ghost frame = self.top@;
        let mut j: usize = 0;
        assert(self@ == old(self)@.emit_all(ConverterView::merge_points(frame, from).take(0))) by {
            assert(self@.program.insts == old(self)@.program.insts
                + ConverterView::merge_points(frame, from).take(0));
            assert(self@.program.blocks == old(self)@.emit_all(
                ConverterView::merge_points(frame, from).take(0),
            ).program.blocks);
        }
        while j < n
            invariant
                j <= n,
                n == frame.len(),
                self.top@ == frame,
                frame == old(self)@.top(),
                self.current == old(self).current,
                self.current < self.program.blocks.len(),
                old(self).program.blocks[old(self).current as int].end
                    == old(self).program.insts.len(),
                self.program.insts.len() == old(self).program.insts.len() + j,
                self.program.blocks[self.current as int].end == self.program.insts.len(),
                self@ == old(self)@.emit_all(
                    ConverterView::merge_points(frame, from).take(j as int),
                ),
            decreases n - j,
        {
            let v = self.top[j];
            self.emit(Inst::Phi { first: Edge { value: v, from }, second: None });
            proof {
                let all = ConverterView::merge_points(frame, from);
                assert(self.program.insts.len() == old(self).program.insts.len() + j + 1);
                assert(all.take(j + 1) == all.take(j as int).push(all[j as int]));
                assert(self@.program.insts == old(self)@.program.insts + all.take(j + 1));
                assert(self@.program.blocks == old(self)@.emit_all(
                    all.take(j + 1),
                ).program.blocks);
            }
            j += 1;
        }
        assert(ConverterView::merge_points(frame, from).take(n as int)
            == ConverterView::merge_points(frame, from));
    }

    /// `while var != check`
    pub fn add_while(&mut self, var: &str, check: i128) -> (r: Result<(), BuildError>)
        requires
            old(self).wf(),
        ensures
            final(self).wf(),
            match old(self)@.variable(var@) {
                Ok(i) => r is Ok && final(self)@ == old(self)@.open_while(i, check),
                Err(e) => r == Err::<(), BuildError>(e) && final(self)@ == old(self)@,
            },
    {
        let i = match self.variable(var) {
            Ok(i) => i,
            Err(e) => {
                return Err(e);
            },
        };
        assert(self@.frame_ok(self@.frames.len() - 1));
        let n = self.top.len();
        let from = self.current;
        let header = self.open_block(Label::Loop);
        self.seal(Terminator::Jump(header));
        self.enter(header);
        let phis = self.program.insts.len();
        self.emit_merge_points(from);
        let body = self.open_block(Label::InnerLoop);
        let exit = self.open_block(Label::LoopExit);
        self.seal(
            Terminator::Branch {
                lhs: Value::Inst(phis + i),
                rhs: check,
                equal: exit,
                differ: body,
            },
        );
        self.enter(body);
        let ghost inner = self@;
        let mut frame = results_frame(phis, n);
        std::mem::swap(&mut self.top, &mut frame);
        self.saved.push(frame);
        self.loops.push(LoopContext { phis, header, exit });
        proof {
            assert(self@.frames == inner.frames.push(results(phis, n as nat)));
            lemma_open_while_wf(old(self)@, i as int, check);
        }
        Ok(())
    }

    /// Gives each merge point of the loop `ctx` its second edge: the
    /// value of its variable in the live frame, along the edge from
    /// `from`.
    fn link_back(&mut self, ctx: LoopContext, from: usize)
        requires
            ctx.phis + old(self).top.len() <= old(self).program.insts.len(),
        ensures
            final(self)@ == (ConverterView {
                program: ProgramView {
                    insts: ConverterView::link_back(
                        old(self)@.program.insts,
                        ctx,
                        old(self)@.top(),
                        from,
                    ),
                    ..old(self)@.program
                },
                ..old(self)@
            }),
    {
        let n = self.top.len();
        let ghost frame = self.top@;
        let ghost insts = self.program.insts@;
        let mut j: usize = 0;
        assert(self.program.insts@ == ConverterView::link_back(insts, ctx, frame.take(0), from));
        while j < n
            invariant
                j <= n,
                n == frame.len(),
                self.top@ == frame,
                frame == old(self)@.top(),
                insts == old(self)@.program.insts,
                ctx.phis + n <= insts.len(),
                self.program.insts.len() == insts.len(),
                self.program.insts@ == ConverterView::link_back(
                    insts,
                    ctx,
                    frame.take(j as int),
                    from,
                ),
                self.program.names == old(self).program.names,
                self.program.params == old(self).program.params,
                self.program.blocks == old(self).program.blocks,
                self.current == old(self).current,
                self.saved == old(self).saved,
                self.loops == old(self).loops,
                self.finished == old(self).finished,
            decreases n - j,
        {
            let id = ctx.phis + j;
            match self.program.insts[id] {
                Inst::Phi { first, second } => {
                    let v = self.top[j];
                    self.program.insts.set(
                        id,
                        Inst::Phi { first, second: Some(Edge { value: v, from }) },
                    );
                },
                _ => {},
            }
            assert(self.program.insts@ == ConverterView::link_back(
                insts,
                ctx,
                frame.take(j + 1),
                from,
            ));
            j += 1;
        }
        assert(frame.take(n as int) == frame);
        assert(self@.frames == old(self)@.frames);
    }

    /// `end`
    pub fn add_end(&mut self) -> (r: Result<(), BuildError>)
        requires
            old(self).wf(),
        ensures
            final(self).wf(),
            match old(self)@.end_refused() {
                None => r is Ok && final(self)@ == old(self)@.close_while(),
                Some(e) => r == Err::<(), BuildError>(e) && final(self)@ == old(self)@,
            },
    {
        if self.finished {
            return Err(BuildError::Finished);
        }
        let ctx = match self.loops.pop() {
            Some(ctx) => ctx,
            None => {
                assert(self@ == old(self)@);
                return Err(BuildError::UnmatchedEnd);
            },
        };
        proof {
            assert(old(self)@.loop_ok(old(self)@.loops.len() - 1));
            assert(old(self)@.frame_ok(old(self)@.frames.len() - 1));
        }
        let n = self.top.len();
        let from = self.current;
        self.seal(Terminator::Jump(ctx.header));
        self.link_back(ctx, from);
        self.enter(ctx.exit);
        self.saved.pop();
        self.top = results_frame(ctx.phis, n);
        proof {
            assert(self@.frames == old(self)@.frames.drop_last().drop_last().push(
                results(ctx.phis, n as nat),
            ));
            assert(self@.loops == old(self)@.loops.drop_last());
            assert(self@.program == old(self)@.close_while().program);
            lemma_close_while_wf(old(self)@);
        }
        Ok(())
    }

    /// Adds the reports at the end of the current block: one for each
    /// variable, of its value in the live frame.
    #[verifier::loop_isolation(false)]
    fn emit_reports(&mut self)
        requires
            old(self).current < old(self).program.blocks.len(),
            old(self).program.blocks[old(self).current as int].end
                == old(self).program.insts.len(),
        ensures
            final(self)@ == old(self)@.emit_all(ConverterView::reports(old(self)@.top())),
            old(self)@.program.insts.len() + old(self)@.top().len() <= usize::MAX,
    {
        let n = self.top.len();
        let ghost frame = self.top@;
        let mut j: usize = 0;
        assert(self@ == old(self)@.emit_all(ConverterView::reports(frame).take(0))) by {
            assert(self@.program.insts == old(self)@.program.insts + ConverterView::reports(
                frame,
            ).take(0));
            assert(self@.program.blocks == old(self)@.emit_all(
                ConverterView::reports(frame).take(0),
            ).program.blocks);
        }
        while j < n
            invariant
                j <= n,
                n == frame.len(),
                self.top@ == frame,
                frame == old(self)@.top(),
                self.current == old(self).current,
                self.current < self.program.blocks.len(),
                old(self).program.blocks[old(self).current as int].end
                    == old(self).program.insts.len(),
                self.program.insts.len() == old(self).program.insts.len() + j,
                self.program.blocks[self.current as int].end == self.program.insts.len(),
                self@ == old(self)@.emit_all(ConverterView::reports(frame).take(j as int)),
            decreases n - j,
        {
            let v = self.top[j];
            self.emit(Inst::Report { var: j, value: v });
            proof {
                let all = ConverterView::reports(frame);
                assert(self.program.insts.len() == old(self).program.insts.len() + j + 1);
                assert(all.take(j + 1) == all.take(j as int).push(all[j as int]));
                assert(self@.program.insts == old(self)@.program.insts + all.take(j + 1));
                assert(self@.program.blocks == old(self)@.emit_all(
                    all.take(j + 1),
                ).program.blocks);
            }
            j += 1;
        }
        assert(ConverterView::reports(frame).take(n as int) == ConverterView::reports(frame));
    }

    /// The end of the program: every variable is reported, in the order
    /// of the table, and the function returns. The program is then
    /// complete.
    pub fn add_eof(&mut self) -> (r: Result<(), BuildError>)
        requires
            old(self).wf(),
        ensures
            final(self).wf(),
            match old(self)@.eof_refused() {
                None => r is Ok && final(self)@ == old(self)@.finalize()
                    && final(self)@.program.complete(),
                Some(e) => r == Err::<(), BuildError>(e) && final(self)@ == old(self)@,
            },
    {
        if self.finished {
            return Err(BuildError::Finished);
        }
        if self.loops.len() > 0 {
            return Err(BuildError::UnclosedLoop);
        }
        assert(self@.frame_ok(self@.frames.len() - 1));
        self.emit_reports();
        self.seal(Terminator::Return);
        self.finished = true;
        proof {
            assert(self@.frames == old(self)@.frames);
            lemma_finalize_wf(old(self)@);
        }
        Ok(())
    }
}

/// The value can be bound to a variable: it is a constant, or the value
/// of a variable in the live frame.
pub open spec fn bindable(c: ConverterView, v: Value) -> bool {
    v is Const || exists|j: int| 0 <= j < c.width() && #[trigger] c.top()[j] == v
}

} // verus!
