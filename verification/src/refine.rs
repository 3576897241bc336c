//! The generated program does what the source program means.

use crate::convert::{bindable, initial_value, results, ConverterView, LoopContext};
use crate::ir::{
    eval, incoming, succ, Block, Edge, Inst, Label, Machine, OutcomeView, ProgramView, Report,
    Terminator, Value,
};
use crate::meaning::{blocks_all, emit_all, insts_all, means_all, scoped_all, Node};
use crate::order::{
    lemma_bind_wf, lemma_close_while_wf, lemma_decr_wf, lemma_finalize_wf, lemma_incr_wf,
    lemma_initial_value, lemma_initial_wf, lemma_open_while_wf,
};
use vstd::prelude::*;

verus! {

/// The instruction `b` is `a`, or `a` with the second edge of a merge
/// point added.
pub open spec fn keeps_inst(a: Inst, b: Inst) -> bool {
    a == b || match a {
        Inst::Phi { first, second } => second is None && match b {
            Inst::Phi { first: same, second: added } => same == first,
            _ => false,
        },
        _ => false,
    }
}

/// The program `q` keeps what `p` holds: its instructions, but for second
/// edges added to merge points; its finished blocks; and the start of its
/// block `cur`, which may have grown.
pub open spec fn keeps(p: ProgramView, q: ProgramView, cur: usize) -> bool {
    &&& q.names == p.names
    &&& q.params == p.params
    &&& p.insts.len() <= q.insts.len()
    &&& p.blocks.len() <= q.blocks.len()
    &&& forall|i: int| 0 <= i < p.insts.len() ==> keeps_inst(p.insts[i], #[trigger] q.insts[i])
    &&& forall|b: int|
        0 <= b < p.blocks.len() && p.blocks[b].term is Some ==> #[trigger] q.blocks[b]
            == p.blocks[b]
    &&& cur < p.blocks.len()
    &&& q.blocks[cur as int].start == p.blocks[cur as int].start
    &&& q.blocks[cur as int].end >= p.blocks[cur as int].end
}

/// A program keeps itself.
pub proof fn lemma_keeps_self(p: ProgramView, cur: usize)
    requires
        cur < p.blocks.len(),
    ensures
        keeps(p, p, cur),
{
}

/// What is kept is kept on: if `q` keeps `p` and `r` keeps `q`, then `r`
/// keeps `p`, provided that the block `cur` of `p` is finished in `q` or
/// is the block that `r` keeps the start of.
pub proof fn lemma_keeps_on(p: ProgramView, q: ProgramView, r: ProgramView, cur: usize, then: usize)
    requires
        keeps(p, q, cur),
        keeps(q, r, then),
        then == cur || q.blocks[cur as int].term is Some,
    ensures
        keeps(p, r, cur),
{
    assert forall|i: int| 0 <= i < p.insts.len() implies keeps_inst(p.insts[i], #[trigger] r.insts[i]) by {
        assert(keeps_inst(p.insts[i], q.insts[i]));
        assert(keeps_inst(q.insts[i], r.insts[i]));
    }
    assert forall|b: int| 0 <= b < p.blocks.len() && p.blocks[b].term is Some implies #[trigger] r.blocks[b]
        == p.blocks[b] by {
        assert(q.blocks[b] == p.blocks[b]);
        assert(r.blocks[b] == q.blocks[b]);
    }
    if then != cur {
        assert(r.blocks[cur as int] == q.blocks[cur as int]);
    }
}

/// A run of instructions is the run of its first part, then that of the
/// rest.
pub proof fn lemma_range_split(
    p: ProgramView,
    args: Seq<u64>,
    from: int,
    mid: int,
    to: int,
    pred: usize,
    entry: Seq<Option<u64>>,
    m: Machine,
)
    requires
        from <= mid <= to,
    ensures
        p.exec_range(args, from, to, pred, entry, m) == match p.exec_range(
            args,
            from,
            mid,
            pred,
            entry,
            m,
        ) {
            Some(half) => p.exec_range(args, mid, to, pred, entry, half),
            None => None,
        },
    decreases mid - from,
{
    if from < mid {
        match p.step(args, from, pred, entry, m) {
            Some(next) => {
                lemma_range_split(p, args, from + 1, mid, to, pred, entry, next);
            },
            None => {},
        }
    }
}

/// The run of the program `q` stands at the point that the generator `c`
/// has reached: it entered the current block of `c` from `pred` in the
/// state `m`, the instructions that `c` holds of that block lead to the
/// state `after`, and there the variables have the values `s`.
pub open spec fn at(
    q: ProgramView,
    c: ConverterView,
    args: Seq<u64>,
    pred: usize,
    m: Machine,
    after: Machine,
    s: Seq<u64>,
) -> bool {
    let b = c.program.blocks[c.current as int];
    &&& q.insts.len() <= usize::MAX
    &&& q.blocks.len() <= usize::MAX
    &&& m.env.len() == q.insts.len()
    &&& after.env.len() == q.insts.len()
    &&& q.exec_range(args, b.start as int, b.end as int, pred, m.env, m) == Some(after)
    &&& s.len() == c.width()
    &&& forall|j: int|
        0 <= j < c.width() ==> eval(#[trigger] c.top()[j], after.env, args) == Some(s[j])
}

/// A value that the program has is not touched by a write to an
/// instruction that the program does not hold yet.
pub proof fn lemma_eval_kept(
    p: ProgramView,
    v: Value,
    env: Seq<Option<u64>>,
    args: Seq<u64>,
    id: int,
    x: Option<u64>,
)
    requires
        p.value_ok(v),
        p.insts.len() <= id < env.len(),
    ensures
        eval(v, env.update(id, x), args) == eval(v, env, args),
{
}

/// After `incr` the run stands at the point reached, with the variable
/// one larger.
pub proof fn lemma_incr_at(
    q: ProgramView,
    c: ConverterView,
    var: int,
    args: Seq<u64>,
    pred: usize,
    m: Machine,
    after: Machine,
    s: Seq<u64>,
) -> (next: Machine)
    requires
        c.wf(),
        !c.finished,
        0 <= var < c.width(),
        keeps(c.incr(var).program, q, c.current),
        at(q, c, args, pred, m, after, s),
    ensures
        at(q, c.incr(var), args, pred, m, next, s.update(var, succ(s[var]))),
        next.out == after.out,
{
    let d = c.incr(var);
    let b = c.program.blocks[c.current as int];
    let id = c.program.insts.len() as int;
    let v = c.top()[var];
    assert(c.frame_ok(c.frames.len() - 1));
    assert(c.program.block_ok(c.current as int));
    assert(d.program.insts[id] == Inst::Incr(v));
    assert(keeps_inst(d.program.insts[id], q.insts[id]));
    let next = Machine { env: after.env.update(id, Some(succ(s[var]))), out: after.out };
    lemma_range_split(q, args, b.start as int, b.end as int, b.end + 1, pred, m.env, m);
    assert(eval(v, after.env, args) == Some(s[var]));
    assert(q.step(args, id, pred, m.env, after) == Some(next));
    assert(q.exec_range(args, id + 1, id + 1, pred, m.env, next) == Some(next));
    assert(q.exec_range(args, id, id + 1, pred, m.env, after) == Some(next));
    let t = s.update(var, succ(s[var]));
    assert forall|j: int| 0 <= j < d.width() implies eval(#[trigger] d.top()[j], next.env, args)
        == Some(t[j]) by {
        if j != var {
            assert(d.top()[j] == c.top()[j]);
            assert(c.program.value_ok(c.top()[j]));
            lemma_eval_kept(c.program, c.top()[j], after.env, args, id, Some(succ(s[var])));
        }
    }
    next
}

/// After a variable is bound to a value that the program has, the run
/// stands at the point reached, with the variable at what the value is.
pub proof fn lemma_bind_at(
    q: ProgramView,
    c: ConverterView,
    var: int,
    v: Value,
    x: u64,
    args: Seq<u64>,
    pred: usize,
    m: Machine,
    after: Machine,
    s: Seq<u64>,
)
    requires
        c.wf(),
        0 <= var < c.width(),
        at(q, c, args, pred, m, after, s),
        eval(v, after.env, args) == Some(x),
    ensures
        at(q, c.bind(var, v), args, pred, m, after, s.update(var, x)),
{
    let d = c.bind(var, v);
    let t = s.update(var, x);
    assert(c.frame_ok(c.frames.len() - 1));
    assert forall|j: int| 0 <= j < d.width() implies eval(#[trigger] d.top()[j], after.env, args)
        == Some(t[j]) by {
        if j != var {
            assert(d.top()[j] == c.top()[j]);
        }
    }
}

/// Where a run goes on: a run that enters the block `from` as given, and
/// may enter `count` blocks or more, ends as the run that enters the block
/// `to` as given and may enter that much less; one that may enter fewer
/// runs out of fuel.
pub open spec fn leads(
    q: ProgramView,
    args: Seq<u64>,
    from: usize,
    pred: usize,
    m: Machine,
    count: nat,
    to: usize,
    pred2: usize,
    m2: Machine,
) -> bool {
    forall|fuel: nat| #[trigger]
        q.run_from(args, from, pred, m, fuel) == if fuel >= count {
            q.run_from(args, to, pred2, m2, (fuel - count) as nat)
        } else {
            OutcomeView::OutOfFuel
        }
}

/// One value less, but not below zero.
pub open spec fn pred_or_zero(x: u64) -> u64 {
    if x == 0 {
        0
    } else {
        (x - 1) as u64
    }
}

/// Where the run stands when a part of the program has been passed: the
/// block it is in, the block it came from, the state at the entry of the
/// block and the state at the point reached, and the number of blocks
/// entered on the way.
pub struct Stand {
    pub pred: usize,
    pub m: Machine,
    pub after: Machine,
    pub count: nat,
}

/// After `decr` the run stands at the point reached, with the variable
/// one smaller unless it was zero.
pub proof fn lemma_decr_at(
    q: ProgramView,
    c: ConverterView,
    var: int,
    args: Seq<u64>,
    pred: usize,
    m: Machine,
    after: Machine,
    s: Seq<u64>,
) -> (next: Stand)
    requires
        c.wf(),
        !c.finished,
        0 <= var < c.width(),
        keeps(c.decr(var).program, q, c.decr(var).current),
        at(q, c, args, pred, m, after, s),
    ensures
        at(q, c.decr(var), args, next.pred, next.m, next.after, s.update(var, pred_or_zero(s[var]))),
        leads(q, args, c.current, pred, m, next.count, c.decr(var).current, next.pred, next.m),
        next.after.out == after.out,
{
    let d = c.decr(var);
    let p = c.program;
    let cur = c.current;
    let skip = c.next_block();
    let no_skip = (skip + 1) as usize;
    let less = c.next_inst();
    let merged = (less + 1) as usize;
    let v = c.top()[var];
    let x = s[var];
    assert(c.frame_ok(c.frames.len() - 1));
    assert(p.block_ok(cur as int));
    assert(p.value_ok(v));
    assert(eval(v, after.env, args) == Some(x));
    assert(d.program.insts == p.insts.push(Inst::Decr(v)).push(
        Inst::Phi {
            first: Edge { value: v, from: cur },
            second: Some(Edge { value: Value::Inst(less), from: no_skip }),
        },
    ));
    assert(d.program.blocks.len() == p.blocks.len() + 2);
    let branch = Terminator::Branch { lhs: v, rhs: 0, equal: skip, differ: no_skip };
    assert(d.program.blocks[cur as int] == Block { term: Some(branch), ..p.blocks[cur as int] });
    assert(d.program.blocks[no_skip as int] == Block {
        label: Label::NotZero,
        start: less,
        end: merged,
        term: Some(Terminator::Jump(skip)),
    });
    assert(d.program.blocks[skip as int].start == merged);
    assert(d.program.blocks[skip as int].end == merged + 1);
    assert(d.current == skip);
    assert(q.blocks[cur as int] == d.program.blocks[cur as int]);
    assert(q.blocks[no_skip as int] == d.program.blocks[no_skip as int]);
    assert(keeps_inst(d.program.insts[less as int], q.insts[less as int]));
    assert(keeps_inst(d.program.insts[merged as int], q.insts[merged as int]));
    let t = s.update(var, pred_or_zero(x));
    if x == 0 {
        let done = Machine { env: after.env.update(merged as int, Some(0u64)), out: after.out };
        assert(q.step(args, merged as int, cur, after.env, after) == Some(done));
        assert(q.exec_range(args, merged + 1, merged + 1, cur, after.env, done) == Some(done));
        assert(q.exec_range(args, merged as int, merged + 1, cur, after.env, after) == Some(done));
        assert forall|j: int| 0 <= j < d.width() implies eval(
            #[trigger] d.top()[j],
            done.env,
            args,
        ) == Some(t[j]) by {
            if j != var {
                assert(d.top()[j] == c.top()[j]);
                assert(p.value_ok(c.top()[j]));
            }
        }
        assert(ProgramView::target(branch, after.env, args) == Some(Some(skip)));
        lemma_block_leads(q, args, cur, pred, m, after, skip);
        Stand { pred: cur, m: after, after: done, count: 1 }
    } else {
        let y = (x - 1) as u64;
        let sub = Machine { env: after.env.update(less as int, Some(y)), out: after.out };
        assert(q.step(args, less as int, cur, after.env, after) == Some(sub));
        assert(q.exec_range(args, less + 1, less + 1, cur, after.env, sub) == Some(sub));
        assert(q.exec_range(args, less as int, less + 1, cur, after.env, after) == Some(sub));
        let done = Machine { env: sub.env.update(merged as int, Some(y)), out: after.out };
        assert(q.step(args, merged as int, no_skip, sub.env, sub) == Some(done));
        assert(q.exec_range(args, merged + 1, merged + 1, no_skip, sub.env, done) == Some(done));
        assert(q.exec_range(args, merged as int, merged + 1, no_skip, sub.env, sub) == Some(done));
        assert forall|j: int| 0 <= j < d.width() implies eval(
            #[trigger] d.top()[j],
            done.env,
            args,
        ) == Some(t[j]) by {
            if j != var {
                assert(d.top()[j] == c.top()[j]);
                assert(p.value_ok(c.top()[j]));
            }
        }
        assert(ProgramView::target(branch, after.env, args) == Some(Some(no_skip)));
        lemma_block_leads(q, args, cur, pred, m, after, no_skip);
        assert(ProgramView::target(Terminator::Jump(skip), sub.env, args) == Some(Some(skip)));
        lemma_block_leads(q, args, no_skip, cur, after, sub, skip);
        lemma_leads_on(q, args, cur, pred, m, 1, no_skip, cur, after, 1, skip, no_skip, sub);
        Stand { pred: no_skip, m: sub, after: done, count: 2 }
    }
}

/// What a part of the program leaves of the generator `c` in the
/// generator `d` that it leads to: the generator is in order and open,
/// the program has grown by `insts` instructions and `blocks` blocks and
/// keeps what it held, the loops are the same, and so are the frames but
/// for the live one.
pub open spec fn grown(c: ConverterView, d: ConverterView, insts: nat, blocks: nat) -> bool {
    &&& d.wf()
    &&& !d.finished
    &&& keeps(c.program, d.program, c.current)
    &&& d.program.insts.len() == c.program.insts.len() + insts
    &&& d.program.blocks.len() == c.program.blocks.len() + blocks
    &&& d.loops == c.loops
    &&& d.frames.drop_last() == c.frames.drop_last()
    &&& (d.current == c.current || d.program.blocks[c.current as int].term is Some)
}

/// What `incr` leaves of the generator.
pub proof fn lemma_incr_grown(c: ConverterView, var: int)
    requires
        c.wf(),
        !c.finished,
        0 <= var < c.width(),
        c.program.insts.len() + 1 <= usize::MAX,
    ensures
        grown(c, c.incr(var), 1, 0),
{
    lemma_incr_wf(c, var);
    let d = c.incr(var);
    assert(c.program.block_ok(c.current as int));
    assert(d.frames.drop_last() == c.frames.drop_last());
}

/// What `decr` leaves of the generator.
pub proof fn lemma_decr_grown(c: ConverterView, var: int)
    requires
        c.wf(),
        !c.finished,
        0 <= var < c.width(),
        c.program.insts.len() + 2 <= usize::MAX,
        c.program.blocks.len() + 2 <= usize::MAX,
    ensures
        grown(c, c.decr(var), 2, 2),
{
    lemma_decr_wf(c, var);
    let d = c.decr(var);
    let p = c.program;
    let q = d.program;
    assert(p.block_ok(c.current as int));
    assert(q.blocks.len() == p.blocks.len() + 2);
    assert(q.insts.len() == p.insts.len() + 2);
    assert(forall|i: int| 0 <= i < p.insts.len() ==> q.insts[i] == p.insts[i]);
    assert(forall|b: int| 0 <= b < p.blocks.len() && b != c.current ==> q.blocks[b] == p.blocks[b]);
    assert(q.blocks[c.current as int].term is Some);
    assert(q.blocks[c.current as int].start == p.blocks[c.current as int].start);
    assert(q.blocks[c.current as int].end == p.blocks[c.current as int].end);
    assert(d.frames.drop_last() == c.frames.drop_last());
}

/// What binding a variable leaves of the generator.
pub proof fn lemma_bind_grown(c: ConverterView, var: int, v: Value)
    requires
        c.wf(),
        !c.finished,
        0 <= var < c.width(),
        bindable(c, v),
    ensures
        grown(c, c.bind(var, v), 0, 0),
{
    lemma_bind_wf(c, var, v);
    assert(c.bind(var, v).frames.drop_last() == c.frames.drop_last());
}

/// What `while` leaves of the generator: a loop more, and a frame more.
pub proof fn lemma_open_while_grown(c: ConverterView, var: int, bound: i128)
    requires
        c.wf(),
        !c.finished,
        0 <= var < c.width(),
        c.program.insts.len() + c.width() <= usize::MAX,
        c.program.blocks.len() + 3 <= usize::MAX,
    ensures
        ({
            let d = c.open_while(var, bound);
            &&& d.wf()
            &&& !d.finished
            &&& keeps(c.program, d.program, c.current)
            &&& d.program.insts.len() == c.program.insts.len() + c.width()
            &&& d.program.blocks.len() == c.program.blocks.len() + 3
            &&& d.loops.drop_last() == c.loops
            &&& d.loops.len() == c.loops.len() + 1
            &&& d.frames.drop_last() == c.frames
            &&& d.program.blocks[c.current as int].term is Some
        }),
{
    lemma_open_while_wf(c, var, bound);
    let d = c.open_while(var, bound);
    let p = c.program;
    let q = d.program;
    assert(c.frame_ok(c.frames.len() - 1));
    assert(p.block_ok(c.current as int));
    assert(q.insts == p.insts + ConverterView::merge_points(c.top(), c.current));
    assert(q.blocks.len() == p.blocks.len() + 3);
    assert(forall|i: int| 0 <= i < p.insts.len() ==> q.insts[i] == p.insts[i]);
    assert(forall|b: int| 0 <= b < p.blocks.len() && b != c.current ==> q.blocks[b] == p.blocks[b]);
    assert(q.blocks[c.current as int].term is Some);
    assert(q.blocks[c.current as int].start == p.blocks[c.current as int].start);
    assert(q.blocks[c.current as int].end == p.blocks[c.current as int].end);
    assert(d.loops.drop_last() == c.loops);
    assert(d.frames.drop_last() == c.frames);
}

/// What `end` leaves of the generator: a loop less, and a frame less.
pub proof fn lemma_close_while_grown(c: ConverterView)
    requires
        c.wf(),
        !c.finished,
        c.loops.len() > 0,
    ensures
        ({
            let d = c.close_while();
            &&& d.wf()
            &&& !d.finished
            &&& keeps(c.program, d.program, c.current)
            &&& d.program.insts.len() == c.program.insts.len()
            &&& d.program.blocks.len() == c.program.blocks.len()
            &&& d.loops == c.loops.drop_last()
            &&& d.frames.drop_last() == c.frames.drop_last().drop_last()
            &&& d.program.blocks[c.current as int].term is Some
        }),
{
    lemma_close_while_wf(c);
    let d = c.close_while();
    let p = c.program;
    let q = d.program;
    let last = c.loops.len() - 1;
    let ctx = c.loops[last];
    assert(c.loop_ok(last));
    assert(c.frame_ok(c.frames.len() - 1));
    assert(p.block_ok(c.current as int));
    assert(q.insts == ConverterView::link_back(p.insts, ctx, c.top(), c.current));
    assert forall|i: int| 0 <= i < p.insts.len() implies keeps_inst(p.insts[i], #[trigger] q.insts[i]) by {
        if ctx.phis <= i < ctx.phis + c.width() {
            let j = i - ctx.phis;
            assert(match p.insts[ctx.phis + j] {
                Inst::Phi { first, second } => second is None,
                _ => false,
            });
            assert(p.insts[i] == p.insts[ctx.phis + j]);
            assert(c.top().len() == c.width());
            assert(q.insts[i] == ConverterView::link_back(p.insts, ctx, c.top(), c.current)[i]);
            assert(q.insts[i] is Phi);
        } else {
            assert(c.top().len() == c.width());
            assert(q.insts[i] == ConverterView::link_back(p.insts, ctx, c.top(), c.current)[i]);
            assert(q.insts[i] == p.insts[i]);
        }
    }
    assert forall|b: int| 0 <= b < p.blocks.len() && p.blocks[b].term is Some implies #[trigger] q.blocks[b]
        == p.blocks[b] by {}
    assert(q.blocks[c.current as int].term is Some);
    assert(q.blocks[c.current as int].start == p.blocks[c.current as int].start);
    assert(q.blocks[c.current as int].end == p.blocks[c.current as int].end);
    assert(d.frames.drop_last() == c.frames.drop_last().drop_last());
}

/// What is grown is grown on.
pub proof fn lemma_grown_on(
    c: ConverterView,
    d: ConverterView,
    e: ConverterView,
    insts: nat,
    blocks: nat,
    more_insts: nat,
    more_blocks: nat,
)
    requires
        grown(c, d, insts, blocks),
        grown(d, e, more_insts, more_blocks),
    ensures
        grown(c, e, insts + more_insts, blocks + more_blocks),
{
    lemma_keeps_on(c.program, d.program, e.program, c.current, d.current);
    if d.current != c.current && e.current != c.current {
        assert(e.program.blocks[c.current as int] == d.program.blocks[c.current as int]);
    }
}

/// What a statement leaves of the generator.
pub proof fn lemma_emit_grown(c: ConverterView, node: Node)
    requires
        c.wf(),
        !c.finished,
        node.scoped(c.width()),
        c.program.insts.len() + node.insts(c.width()) <= usize::MAX,
        c.program.blocks.len() + node.blocks() <= usize::MAX,
    ensures
        grown(c, node.emit(c), node.insts(c.width()), node.blocks()),
    decreases node,
{
    assert(c.frame_ok(c.frames.len() - 1));
    match node {
        Node::Incr(i) => {
            lemma_incr_grown(c, i);
        },
        Node::Decr(i) => {
            lemma_decr_grown(c, i);
        },
        Node::Clear(i) => {
            lemma_bind_grown(c, i, Value::Const(0));
        },
        Node::Copy { from, to } => {
            lemma_bind_grown(c, to, c.top()[from]);
        },
        Node::Skip => {
            lemma_keeps_self(c.program, c.current);
        },
        Node::Loop { var, bound, body } => {
            let c1 = c.open_while(var, bound);
            lemma_open_while_grown(c, var, bound);
            lemma_emit_all_grown(c1, body);
            let c2 = emit_all(body, c1);
            lemma_close_while_grown(c2);
            let c3 = c2.close_while();
            lemma_keeps_on(c.program, c1.program, c2.program, c.current, c1.current);
            assert(c2.program.blocks[c.current as int] == c1.program.blocks[c.current as int]);
            lemma_keeps_on(c.program, c2.program, c3.program, c.current, c2.current);
            assert(c3.program.blocks[c.current as int].term is Some) by {
                if c2.current != c.current {
                    assert(c3.program.blocks[c.current as int]
                        == c2.program.blocks[c.current as int]);
                }
            }
            assert(c3.loops == c.loops);
            assert(c3.frames.drop_last() == c.frames.drop_last());
        },
    }
}

/// What a list of statements leaves of the generator.
pub proof fn lemma_emit_all_grown(c: ConverterView, nodes: Seq<Node>)
    requires
        c.wf(),
        !c.finished,
        scoped_all(nodes, c.width()),
        c.program.insts.len() + insts_all(nodes, c.width()) <= usize::MAX,
        c.program.blocks.len() + blocks_all(nodes) <= usize::MAX,
    ensures
        grown(c, emit_all(nodes, c), insts_all(nodes, c.width()), blocks_all(nodes)),
    decreases nodes,
{
    if nodes.len() == 0 {
        lemma_keeps_self(c.program, c.current);
    } else {
        lemma_emit_grown(c, nodes[0]);
        let d = nodes[0].emit(c);
        lemma_emit_all_grown(d, nodes.skip(1));
        lemma_grown_on(
            c,
            d,
            emit_all(nodes, c),
            nodes[0].insts(c.width()),
            nodes[0].blocks(),
            insts_all(nodes.skip(1), c.width()),
            blocks_all(nodes.skip(1)),
        );
    }
}

/// Where a run leads, it leads on.
pub proof fn lemma_leads_on(
    q: ProgramView,
    args: Seq<u64>,
    a: usize,
    pred_a: usize,
    m_a: Machine,
    first: nat,
    b: usize,
    pred_b: usize,
    m_b: Machine,
    second: nat,
    c: usize,
    pred_c: usize,
    m_c: Machine,
)
    requires
        leads(q, args, a, pred_a, m_a, first, b, pred_b, m_b),
        leads(q, args, b, pred_b, m_b, second, c, pred_c, m_c),
    ensures
        leads(q, args, a, pred_a, m_a, first + second, c, pred_c, m_c),
{
    assert forall|fuel: nat| #[trigger]
        q.run_from(args, a, pred_a, m_a, fuel) == if fuel >= first + second {
            q.run_from(args, c, pred_c, m_c, (fuel - (first + second)) as nat)
        } else {
            OutcomeView::OutOfFuel
        } by {
        if fuel >= first {
            assert(q.run_from(args, a, pred_a, m_a, fuel) == q.run_from(
                args,
                b,
                pred_b,
                m_b,
                (fuel - first) as nat,
            ));
            let left = (fuel - first) as nat;
            assert(q.run_from(args, b, pred_b, m_b, left) == if left >= second {
                q.run_from(args, c, pred_c, m_c, (left - second) as nat)
            } else {
                OutcomeView::OutOfFuel
            });
        }
    }
}

/// A run stays where it is at no cost.
pub proof fn lemma_leads_self(q: ProgramView, args: Seq<u64>, a: usize, pred: usize, m: Machine)
    ensures
        leads(q, args, a, pred, m, 0, a, pred, m),
{
}

/// A block whose instructions succeed and whose terminator names a block
/// leads to that block.
pub proof fn lemma_block_leads(
    q: ProgramView,
    args: Seq<u64>,
    b: usize,
    pred: usize,
    m: Machine,
    after: Machine,
    next: usize,
)
    requires
        b < q.blocks.len(),
        q.exec_range(
            args,
            q.blocks[b as int].start as int,
            q.blocks[b as int].end as int,
            pred,
            m.env,
            m,
        ) == Some(after),
        q.blocks[b as int].term is Some,
        ProgramView::target(q.blocks[b as int].term->0, after.env, args) == Some(Some(next)),
    ensures
        leads(q, args, b, pred, m, 1, next, b, after),
{
}

/// The value that the instruction takes as a merge point when control
/// comes from `pred`.
pub open spec fn merge_value(inst: Inst, pred: usize) -> Option<Value> {
    match inst {
        Inst::Phi { first, second } => incoming(first, second, pred),
        _ => None,
    }
}

/// The state with the `values` written to the instructions from `first`
/// on.
pub open spec fn written(env: Seq<Option<u64>>, first: int, values: Seq<u64>) -> Seq<
    Option<u64>,
> {
    Seq::new(
        env.len(),
        |i: int|
            if first <= i < first + values.len() {
                Some(values[i - first])
            } else {
                env[i]
            },
    )
}

/// The merge points of a block take their values together: each reads the
/// state in which the block was entered.
pub proof fn lemma_merge_points(
    q: ProgramView,
    args: Seq<u64>,
    first: int,
    values: Seq<u64>,
    done: int,
    pred: usize,
    m: Machine,
)
    requires
        0 <= first,
        0 <= done <= values.len(),
        first + values.len() <= q.insts.len(),
        m.env.len() == q.insts.len(),
        forall|j: int|
            0 <= j < values.len() ==> match merge_value(#[trigger] q.insts[first + j], pred) {
                Some(v) => eval(v, m.env, args) == Some(values[j]),
                None => false,
            },
    ensures
        q.exec_range(
            args,
            first + done,
            first + values.len(),
            pred,
            m.env,
            Machine { env: written(m.env, first, values.take(done)), out: m.out },
        ) == Some(Machine { env: written(m.env, first, values), out: m.out }),
    decreases values.len() - done,
{
    let now = Machine { env: written(m.env, first, values.take(done)), out: m.out };
    if done == values.len() {
        assert(values.take(done) == values);
    } else {
        let id = first + done;
        assert(merge_value(q.insts[first + done], pred) is Some);
        let stepped = Machine { env: now.env.update(id, Some(values[done])), out: m.out };
        assert(q.step(args, id, pred, m.env, now) == Some(stepped));
        assert(stepped.env == written(m.env, first, values.take(done + 1)));
        lemma_merge_points(q, args, first, values, done + 1, pred, m);
    }
}

/// The shape of the program after `while`.
pub proof fn lemma_open_while_shape(c: ConverterView, var: int, bound: i128)
    requires
        c.wf(),
        !c.finished,
        0 <= var < c.width(),
        c.program.insts.len() + c.width() <= usize::MAX,
        c.program.blocks.len() + 3 <= usize::MAX,
    ensures
        ({
            let d = c.open_while(var, bound);
            let header = c.next_block();
            let body = (header + 1) as usize;
            let exit = (header + 2) as usize;
            let phis = c.next_inst();
            &&& d.current == body
            &&& d.top() == results(phis, c.width())
            &&& d.loops.last() == (LoopContext { phis, header, exit })
            &&& d.program.insts == c.program.insts + ConverterView::merge_points(
                c.top(),
                c.current,
            )
            &&& d.program.blocks[c.current as int] == (Block {
                term: Some(Terminator::Jump(header)),
                ..c.program.blocks[c.current as int]
            })
            &&& d.program.blocks[header as int].start == phis
            &&& d.program.blocks[header as int].end == phis + c.width()
            &&& d.program.blocks[header as int].term == Some(
                Terminator::Branch {
                    lhs: Value::Inst((phis + var) as usize),
                    rhs: bound,
                    equal: exit,
                    differ: body,
                },
            )
            &&& d.program.blocks[body as int].start == phis + c.width()
            &&& d.program.blocks[body as int].end == phis + c.width()
        }),
{
    assert(c.frame_ok(c.frames.len() - 1));
    assert(c.program.block_ok(c.current as int));
}

/// The shape of the program after `end`.
pub proof fn lemma_close_while_shape(c: ConverterView)
    requires
        c.wf(),
        !c.finished,
        c.loops.len() > 0,
    ensures
        ({
            let d = c.close_while();
            let ctx = c.loops.last();
            &&& d.current == ctx.exit
            &&& d.top() == results(ctx.phis, c.width())
            &&& d.program.blocks[c.current as int] == (Block {
                term: Some(Terminator::Jump(ctx.header)),
                ..c.program.blocks[c.current as int]
            })
            &&& d.program.blocks[ctx.exit as int].start == c.program.insts.len()
            &&& d.program.blocks[ctx.exit as int].end == c.program.insts.len()
            &&& forall|j: int|
                0 <= j < c.width() ==> match c.program.insts[ctx.phis + j] {
                    Inst::Phi { first, second } => #[trigger] d.program.insts[ctx.phis + j]
                        == (Inst::Phi {
                        first,
                        second: Some(Edge { value: c.top()[j], from: c.current }),
                    }),
                    _ => false,
                }
        }),
{
    let d = c.close_while();
    let last = c.loops.len() - 1;
    let ctx = c.loops[last];
    assert(c.loop_ok(last));
    assert(c.frame_ok(c.frames.len() - 1));
    assert(c.program.block_ok(c.current as int));
    assert forall|j: int| 0 <= j < c.width() implies match c.program.insts[ctx.phis + j] {
        Inst::Phi { first, second } => #[trigger] d.program.insts[ctx.phis + j] == (Inst::Phi {
            first,
            second: Some(Edge { value: c.top()[j], from: c.current }),
        }),
        _ => false,
    } by {
        assert(match c.program.insts[ctx.phis + j] {
            Inst::Phi { first, second } => second is None,
            _ => false,
        });
        assert(d.program.insts[ctx.phis + j] == ConverterView::link_back(
            c.program.insts,
            ctx,
            c.top(),
            c.current,
        )[ctx.phis + j]);
    }
}

/// The room that a statement needs in the generator `c`.
pub open spec fn room(c: ConverterView, insts: nat, blocks: nat) -> bool {
    &&& c.program.insts.len() + insts <= usize::MAX
    &&& c.program.blocks.len() + blocks <= usize::MAX
}

/// The generator with a loop under way: its head emitted, its body
/// emitted, and the loop closed.
pub struct LoopParts {
    pub opened: ConverterView,
    pub inside: ConverterView,
    pub closed: ConverterView,
    pub header: usize,
    pub inner: usize,
    pub exit: usize,
    pub phis: usize,
}

/// The parts of the loop `node`, emitted from the generator `c`.
pub open spec fn parts(c: ConverterView, node: Node) -> LoopParts {
    let opened = c.open_while(node->var, node->bound);
    let inside = emit_all(node->body, opened);
    let header = c.next_block();
    LoopParts {
        opened,
        inside,
        closed: inside.close_while(),
        header,
        inner: (header + 1) as usize,
        exit: (header + 2) as usize,
        phis: c.next_inst(),
    }
}

/// The loop `node` is emitted from the generator `c`, and the program `q`
/// keeps its code.
pub open spec fn looping(q: ProgramView, c: ConverterView, node: Node) -> bool {
    &&& c.wf()
    &&& !c.finished
    &&& node is Loop
    &&& node.scoped(c.width())
    &&& room(c, node.insts(c.width()), node.blocks())
    &&& keeps(node.emit(c).program, q, node.emit(c).current)
    &&& q.insts.len() <= usize::MAX
    &&& q.blocks.len() <= usize::MAX
}

/// The run enters the header of a loop whose merge points are the
/// instructions from `phis` on, from the block `pred` in the state `m`,
/// and the merge points take the values `s`.
pub open spec fn arrives(
    q: ProgramView,
    args: Seq<u64>,
    phis: int,
    pred: usize,
    m: Machine,
    s: Seq<u64>,
) -> bool {
    &&& m.env.len() == q.insts.len()
    &&& forall|j: int|
        0 <= j < s.len() ==> match merge_value(#[trigger] q.insts[phis + j], pred) {
            Some(v) => eval(v, m.env, args) == Some(s[j]),
            None => false,
        }
}

/// The code of a loop, as a program that keeps it holds it: the block
/// before the loop jumps to the header, the header holds the merge points
/// and tests the variable against the bound, the last block of the body
/// jumps back to the header, and each merge point takes the value from
/// before the loop along the first edge and that from the end of the body
/// along the second.
pub proof fn lemma_loop_parts(q: ProgramView, c: ConverterView, node: Node)
    requires
        looping(q, c, node),
    ensures
        ({
            let l = parts(c, node);
            let n = c.width();
            &&& l.closed == node.emit(c)
            &&& l.opened.wf()
            &&& !l.opened.finished
            &&& l.opened.width() == n
            &&& scoped_all(node->body, n)
            &&& room(l.opened, insts_all(node->body, n), blocks_all(node->body))
            &&& l.opened.current == l.inner
            &&& l.opened.top() == results(l.phis, n)
            &&& l.opened.program.blocks[l.inner as int].start == l.phis + n
            &&& l.opened.program.blocks[l.inner as int].end == l.phis + n
            &&& l.inside.wf()
            &&& l.inside.width() == n
            &&& l.inside.top().len() == n
            &&& l.inside.current != c.current
            &&& keeps(l.inside.program, q, l.inside.current)
            &&& l.closed.current == l.exit
            &&& l.closed.width() == n
            &&& l.closed.top() == results(l.phis, n)
            &&& l.closed.program.blocks[l.exit as int].start == l.inside.program.insts.len()
            &&& l.closed.program.blocks[l.exit as int].end == l.inside.program.insts.len()
            &&& l.phis + n <= q.insts.len()
            &&& c.current < q.blocks.len()
            &&& l.header < q.blocks.len()
            &&& l.inside.current < q.blocks.len()
            &&& q.blocks[c.current as int] == (Block {
                term: Some(Terminator::Jump(l.header)),
                ..c.program.blocks[c.current as int]
            })
            &&& q.blocks[l.header as int].start == l.phis
            &&& q.blocks[l.header as int].end == l.phis + n
            &&& q.blocks[l.header as int].term == Some(
                Terminator::Branch {
                    lhs: Value::Inst((l.phis + node->var) as usize),
                    rhs: node->bound,
                    equal: l.exit,
                    differ: l.inner,
                },
            )
            &&& q.blocks[l.inside.current as int] == (Block {
                term: Some(Terminator::Jump(l.header)),
                ..l.inside.program.blocks[l.inside.current as int]
            })
            &&& forall|j: int|
                0 <= j < n ==> #[trigger] q.insts[l.phis + j] == (Inst::Phi {
                    first: Edge { value: c.top()[j], from: c.current },
                    second: Some(Edge { value: l.inside.top()[j], from: l.inside.current }),
                })
        }),
{
    let l = parts(c, node);
    let n = c.width();
    let c1 = l.opened;
    let c2 = l.inside;
    let c3 = l.closed;
    assert(c.frame_ok(c.frames.len() - 1));
    lemma_open_while_grown(c, node->var, node->bound);
    lemma_open_while_shape(c, node->var, node->bound);
    lemma_emit_all_grown(c1, node->body);
    lemma_close_while_grown(c2);
    lemma_close_while_shape(c2);
    assert(c2.frame_ok(c2.frames.len() - 1));
    lemma_keeps_on(c1.program, c2.program, c3.program, c1.current, c2.current);
    lemma_keeps_on(c2.program, c3.program, q, c2.current, c3.current);
    assert(c2.loops.last() == (LoopContext { phis: l.phis, header: l.header, exit: l.exit }));
    assert(c2.program.blocks[c.current as int] == c1.program.blocks[c.current as int]);
    assert(c3.program.blocks[c.current as int] == c1.program.blocks[c.current as int]);
    assert(c3.program.blocks[l.header as int] == c1.program.blocks[l.header as int]);
    assert(q.blocks[c.current as int] == c1.program.blocks[c.current as int]);
    assert(q.blocks[l.header as int] == c1.program.blocks[l.header as int]);
    assert(q.blocks[c2.current as int] == c3.program.blocks[c2.current as int]);
    assert forall|j: int| 0 <= j < n implies #[trigger] q.insts[l.phis + j] == (Inst::Phi {
        first: Edge { value: c.top()[j], from: c.current },
        second: Some(Edge { value: c2.top()[j], from: c2.current }),
    }) by {
        assert(c1.program.insts[l.phis + j] == ConverterView::merge_points(
            c.top(),
            c.current,
        )[j]);
        assert(keeps_inst(c1.program.insts[l.phis + j], c2.program.insts[l.phis + j]));
        assert(c3.program.insts[l.phis + j] is Phi);
        assert(keeps_inst(c3.program.insts[l.phis + j], q.insts[l.phis + j]));
    }
}

/// From the point before a loop the run goes to the header, where the
/// merge points take the values of the variables.
pub proof fn lemma_loop_entered(
    q: ProgramView,
    c: ConverterView,
    node: Node,
    args: Seq<u64>,
    pred: usize,
    m: Machine,
    after: Machine,
    s: Seq<u64>,
)
    requires
        looping(q, c, node),
        at(q, c, args, pred, m, after, s),
    ensures
        leads(q, args, c.current, pred, m, 1, parts(c, node).header, c.current, after),
        arrives(q, args, parts(c, node).phis as int, c.current, after, s),
{
    let l = parts(c, node);
    lemma_loop_parts(q, c, node);
    assert(c.program.block_ok(c.current as int));
    lemma_block_leads(q, args, c.current, pred, m, after, l.header);
    assert forall|j: int| 0 <= j < s.len() implies match merge_value(
        #[trigger] q.insts[l.phis + j],
        c.current,
    ) {
        Some(v) => eval(v, after.env, args) == Some(s[j]),
        None => false,
    } by {
        assert(eval(c.top()[j], after.env, args) == Some(s[j]));
    }
}

/// From the end of the body of a loop the run goes back to the header,
/// where the merge points take the values of the variables.
pub proof fn lemma_loop_repeated(
    q: ProgramView,
    c: ConverterView,
    node: Node,
    args: Seq<u64>,
    pred: usize,
    m: Machine,
    after: Machine,
    s: Seq<u64>,
)
    requires
        looping(q, c, node),
        at(q, parts(c, node).inside, args, pred, m, after, s),
    ensures
        leads(
            q,
            args,
            parts(c, node).inside.current,
            pred,
            m,
            1,
            parts(c, node).header,
            parts(c, node).inside.current,
            after,
        ),
        arrives(q, args, parts(c, node).phis as int, parts(c, node).inside.current, after, s),
{
    let l = parts(c, node);
    lemma_loop_parts(q, c, node);
    assert(l.inside.program.block_ok(l.inside.current as int));
    lemma_block_leads(q, args, l.inside.current, pred, m, after, l.header);
    assert forall|j: int| 0 <= j < s.len() implies match merge_value(
        #[trigger] q.insts[l.phis + j],
        l.inside.current,
    ) {
        Some(v) => eval(v, after.env, args) == Some(s[j]),
        None => false,
    } by {
        assert(eval(l.inside.top()[j], after.env, args) == Some(s[j]));
    }
}

/// In the header of a loop the merge points take their values, and the
/// run goes to the point behind the loop where the variable has reached
/// the bound, else to the start of the body; at either point the
/// variables have the values that the merge points took.
pub proof fn lemma_loop_tested(
    q: ProgramView,
    c: ConverterView,
    node: Node,
    args: Seq<u64>,
    pred: usize,
    m: Machine,
    s: Seq<u64>,
) -> (tested: Machine)
    requires
        looping(q, c, node),
        s.len() == c.width(),
        arrives(q, args, parts(c, node).phis as int, pred, m, s),
    ensures
        tested.out == m.out,
        s[node->var] == node->bound ==> leads(
            q,
            args,
            parts(c, node).header,
            pred,
            m,
            1,
            parts(c, node).exit,
            parts(c, node).header,
            tested,
        ) && at(q, node.emit(c), args, parts(c, node).header, tested, tested, s),
        s[node->var] != node->bound ==> leads(
            q,
            args,
            parts(c, node).header,
            pred,
            m,
            1,
            parts(c, node).inner,
            parts(c, node).header,
            tested,
        ) && at(q, parts(c, node).opened, args, parts(c, node).header, tested, tested, s),
{
    let l = parts(c, node);
    let n = c.width();
    lemma_loop_parts(q, c, node);
    lemma_merge_points(q, args, l.phis as int, s, 0, pred, m);
    assert(written(m.env, l.phis as int, s.take(0)) == m.env);
    let tested = Machine { env: written(m.env, l.phis as int, s), out: m.out };
    assert(q.exec_range(args, l.phis as int, l.phis + n, pred, m.env, m) == Some(tested));
    assert(eval(Value::Inst((l.phis + node->var) as usize), tested.env, args) == Some(
        s[node->var],
    ));
    assert forall|j: int| 0 <= j < n implies eval(
        #[trigger] results(l.phis, n)[j],
        tested.env,
        args,
    ) == Some(s[j]) by {}
    if s[node->var] == node->bound {
        lemma_block_leads(q, args, l.header, pred, m, tested, l.exit);
        let at_exit = l.inside.program.insts.len() as int;
        assert(q.exec_range(args, at_exit, at_exit, l.header, tested.env, tested) == Some(tested));
    } else {
        lemma_block_leads(q, args, l.header, pred, m, tested, l.inner);
        assert(q.exec_range(args, l.phis + n, l.phis + n, l.header, tested.env, tested) == Some(
            tested,
        ));
    }
    tested
}

/// The code of a statement does what the statement means: a run that
/// stands at the point where the generator was before the statement,
/// with the variables at `s`, comes to stand at the point where the
/// generator is after it, with the variables at what the statement makes
/// of `s`. This holds in every program `q` that keeps the code.
pub proof fn lemma_node_at(
    q: ProgramView,
    c: ConverterView,
    node: Node,
    args: Seq<u64>,
    pred: usize,
    m: Machine,
    after: Machine,
    s: Seq<u64>,
    fuel: nat,
) -> (next: Stand)
    requires
        c.wf(),
        !c.finished,
        node.scoped(c.width()),
        room(c, node.insts(c.width()), node.blocks()),
        keeps(node.emit(c).program, q, node.emit(c).current),
        at(q, c, args, pred, m, after, s),
        node.means(s, fuel) is Some,
    ensures
        at(q, node.emit(c), args, next.pred, next.m, next.after, node.means(s, fuel)->0),
        leads(q, args, c.current, pred, m, next.count, node.emit(c).current, next.pred, next.m),
        next.after.out == after.out,
    decreases fuel, node, 1nat,
{
    assert(c.frame_ok(c.frames.len() - 1));
    lemma_leads_self(q, args, c.current, pred, m);
    match node {
        Node::Incr(i) => {
            let done = lemma_incr_at(q, c, i, args, pred, m, after, s);
            Stand { pred, m, after: done, count: 0 }
        },
        Node::Decr(i) => lemma_decr_at(q, c, i, args, pred, m, after, s),
        Node::Clear(i) => {
            lemma_bind_at(q, c, i, Value::Const(0), 0, args, pred, m, after, s);
            Stand { pred, m, after, count: 0 }
        },
        Node::Copy { from, to } => {
            lemma_bind_at(q, c, to, c.top()[from], s[from], args, pred, m, after, s);
            Stand { pred, m, after, count: 0 }
        },
        Node::Skip => Stand { pred, m, after, count: 0 },
        Node::Loop { var, bound, body } => {
            let l = parts(c, node);
            lemma_loop_parts(q, c, node);
            lemma_loop_entered(q, c, node, args, pred, m, after, s);
            let done = lemma_loop_at(q, c, node, args, c.current, after, s, fuel);
            lemma_leads_on(
                q,
                args,
                c.current,
                pred,
                m,
                1,
                l.header,
                c.current,
                after,
                done.count,
                l.exit,
                done.pred,
                done.m,
            );
            Stand { count: 1 + done.count, ..done }
        },
    }
}

/// The code of a list of statements does what the statements mean.
pub proof fn lemma_nodes_at(
    q: ProgramView,
    c: ConverterView,
    nodes: Seq<Node>,
    args: Seq<u64>,
    pred: usize,
    m: Machine,
    after: Machine,
    s: Seq<u64>,
    fuel: nat,
) -> (next: Stand)
    requires
        c.wf(),
        !c.finished,
        scoped_all(nodes, c.width()),
        room(c, insts_all(nodes, c.width()), blocks_all(nodes)),
        keeps(emit_all(nodes, c).program, q, emit_all(nodes, c).current),
        at(q, c, args, pred, m, after, s),
        means_all(nodes, s, fuel) is Some,
    ensures
        at(q, emit_all(nodes, c), args, next.pred, next.m, next.after, means_all(nodes, s, fuel)->0),
        leads(q, args, c.current, pred, m, next.count, emit_all(nodes, c).current, next.pred, next.m),
        next.after.out == after.out,
    decreases fuel, nodes, 1nat,
{
    if nodes.len() == 0 {
        lemma_leads_self(q, args, c.current, pred, m);
        Stand { pred, m, after, count: 0 }
    } else {
        let d = nodes[0].emit(c);
        let e = emit_all(nodes, c);
        lemma_emit_grown(c, nodes[0]);
        lemma_emit_all_grown(d, nodes.skip(1));
        lemma_keeps_on(d.program, e.program, q, d.current, e.current);
        let one = lemma_node_at(q, c, nodes[0], args, pred, m, after, s, fuel);
        let rest = lemma_nodes_at(
            q,
            d,
            nodes.skip(1),
            args,
            one.pred,
            one.m,
            one.after,
            nodes[0].means(s, fuel)->0,
            fuel,
        );
        lemma_leads_on(
            q,
            args,
            c.current,
            pred,
            m,
            one.count,
            d.current,
            one.pred,
            one.m,
            rest.count,
            e.current,
            rest.pred,
            rest.m,
        );
        Stand { count: one.count + rest.count, ..rest }
    }
}

/// The code of a loop does what the loop means, from the head of the
/// loop on: a run that enters the header from `pred` in the state `m`,
/// where the merge points take the values `s`, comes to stand at the
/// point behind the loop with the variables at what the loop makes of
/// `s`.
pub proof fn lemma_loop_at(
    q: ProgramView,
    c: ConverterView,
    node: Node,
    args: Seq<u64>,
    pred: usize,
    m: Machine,
    s: Seq<u64>,
    fuel: nat,
) -> (next: Stand)
    requires
        looping(q, c, node),
        s.len() == c.width(),
        arrives(q, args, parts(c, node).phis as int, pred, m, s),
        node.means(s, fuel) is Some,
    ensures
        at(q, node.emit(c), args, next.pred, next.m, next.after, node.means(s, fuel)->0),
        leads(
            q,
            args,
            parts(c, node).header,
            pred,
            m,
            next.count,
            parts(c, node).exit,
            next.pred,
            next.m,
        ),
        next.after.out == m.out,
    decreases fuel, node, 0nat,
{
    let l = parts(c, node);
    lemma_loop_parts(q, c, node);
    let tested = lemma_loop_tested(q, c, node, args, pred, m, s);
    if s[node->var] == node->bound {
        Stand { pred: l.header, m: tested, after: tested, count: 1 }
    } else {
        let less = (fuel - 1) as nat;
        let body = lemma_nodes_at(
            q,
            l.opened,
            node->body,
            args,
            l.header,
            tested,
            tested,
            s,
            less,
        );
        let again = means_all(node->body, s, less)->0;
        lemma_loop_repeated(q, c, node, args, body.pred, body.m, body.after, again);
        let rest = lemma_loop_at(q, c, node, args, l.inside.current, body.after, again, less);
        lemma_leads_on(
            q,
            args,
            l.header,
            pred,
            m,
            1,
            l.inner,
            l.header,
            tested,
            body.count,
            l.inside.current,
            body.pred,
            body.m,
        );
        lemma_leads_on(
            q,
            args,
            l.header,
            pred,
            m,
            1 + body.count,
            l.inside.current,
            body.pred,
            body.m,
            1,
            l.header,
            l.inside.current,
            body.after,
        );
        lemma_leads_on(
            q,
            args,
            l.header,
            pred,
            m,
            1 + body.count + 1,
            l.header,
            l.inside.current,
            body.after,
            rest.count,
            l.exit,
            rest.pred,
            rest.m,
        );
        Stand { count: 1 + body.count + 1 + rest.count, ..rest }
    }
}

/// A run that enters the block `from` as given runs out of fuel when it
/// may enter `fuel` blocks or fewer.
pub open spec fn starves(
    q: ProgramView,
    args: Seq<u64>,
    from: usize,
    pred: usize,
    m: Machine,
    fuel: nat,
) -> bool {
    forall|f: nat| f <= fuel ==> #[trigger] q.run_from(args, from, pred, m, f) == OutcomeView::OutOfFuel
}

/// A run that leads to one that starves starves too.
pub proof fn lemma_leads_to_starve(
    q: ProgramView,
    args: Seq<u64>,
    a: usize,
    pred_a: usize,
    m_a: Machine,
    count: nat,
    b: usize,
    pred_b: usize,
    m_b: Machine,
    fuel: nat,
)
    requires
        leads(q, args, a, pred_a, m_a, count, b, pred_b, m_b),
        starves(q, args, b, pred_b, m_b, fuel),
    ensures
        starves(q, args, a, pred_a, m_a, fuel + count),
{
    assert forall|f: nat| f <= fuel + count implies #[trigger] q.run_from(args, a, pred_a, m_a, f)
        == OutcomeView::OutOfFuel by {
        if f >= count {
            assert(q.run_from(args, b, pred_b, m_b, (f - count) as nat) == OutcomeView::OutOfFuel);
        }
    }
}

/// The code of a statement runs on as long as the statement does: where
/// the reckoning of what the statement means does not end within `fuel`,
/// the run does not get through its code within `fuel` blocks.
pub proof fn lemma_node_stuck(
    q: ProgramView,
    c: ConverterView,
    node: Node,
    args: Seq<u64>,
    pred: usize,
    m: Machine,
    after: Machine,
    s: Seq<u64>,
    fuel: nat,
)
    requires
        c.wf(),
        !c.finished,
        node.scoped(c.width()),
        room(c, node.insts(c.width()), node.blocks()),
        keeps(node.emit(c).program, q, node.emit(c).current),
        at(q, c, args, pred, m, after, s),
        node.means(s, fuel) is None,
    ensures
        starves(q, args, c.current, pred, m, fuel),
    decreases fuel, node, 1nat,
{
    lemma_loop_entered(q, c, node, args, pred, m, after, s);
    lemma_loop_stuck(q, c, node, args, c.current, after, s, fuel);
    lemma_leads_to_starve(
        q,
        args,
        c.current,
        pred,
        m,
        1,
        parts(c, node).header,
        c.current,
        after,
        fuel,
    );
}

/// The code of a list of statements runs on as long as the statements do.
pub proof fn lemma_nodes_stuck(
    q: ProgramView,
    c: ConverterView,
    nodes: Seq<Node>,
    args: Seq<u64>,
    pred: usize,
    m: Machine,
    after: Machine,
    s: Seq<u64>,
    fuel: nat,
)
    requires
        c.wf(),
        !c.finished,
        scoped_all(nodes, c.width()),
        room(c, insts_all(nodes, c.width()), blocks_all(nodes)),
        keeps(emit_all(nodes, c).program, q, emit_all(nodes, c).current),
        at(q, c, args, pred, m, after, s),
        means_all(nodes, s, fuel) is None,
    ensures
        starves(q, args, c.current, pred, m, fuel),
    decreases fuel, nodes, 1nat,
{
    let d = nodes[0].emit(c);
    let e = emit_all(nodes, c);
    lemma_emit_grown(c, nodes[0]);
    lemma_emit_all_grown(d, nodes.skip(1));
    lemma_keeps_on(d.program, e.program, q, d.current, e.current);
    match nodes[0].means(s, fuel) {
        None => {
            lemma_node_stuck(q, c, nodes[0], args, pred, m, after, s, fuel);
        },
        Some(next) => {
            let one = lemma_node_at(q, c, nodes[0], args, pred, m, after, s, fuel);
            lemma_nodes_stuck(q, d, nodes.skip(1), args, one.pred, one.m, one.after, next, fuel);
            lemma_leads_to_starve(
                q,
                args,
                c.current,
                pred,
                m,
                one.count,
                d.current,
                one.pred,
                one.m,
                fuel,
            );
        },
    }
}

/// The code of a loop runs on as long as the loop does, from the head of
/// the loop on.
pub proof fn lemma_loop_stuck(
    q: ProgramView,
    c: ConverterView,
    node: Node,
    args: Seq<u64>,
    pred: usize,
    m: Machine,
    s: Seq<u64>,
    fuel: nat,
)
    requires
        looping(q, c, node),
        s.len() == c.width(),
        arrives(q, args, parts(c, node).phis as int, pred, m, s),
        node.means(s, fuel) is None,
    ensures
        starves(q, args, parts(c, node).header, pred, m, fuel),
    decreases fuel, node, 0nat,
{
    let l = parts(c, node);
    if fuel > 0 {
        lemma_loop_parts(q, c, node);
        let tested = lemma_loop_tested(q, c, node, args, pred, m, s);
        let less = (fuel - 1) as nat;
        match means_all(node->body, s, less) {
            None => {
                lemma_nodes_stuck(q, l.opened, node->body, args, l.header, tested, tested, s, less);
            },
            Some(again) => {
                let body = lemma_nodes_at(
                    q,
                    l.opened,
                    node->body,
                    args,
                    l.header,
                    tested,
                    tested,
                    s,
                    less,
                );
                lemma_loop_repeated(q, c, node, args, body.pred, body.m, body.after, again);
                lemma_loop_stuck(q, c, node, args, l.inside.current, body.after, again, less);
                lemma_leads_to_starve(
                    q,
                    args,
                    l.inside.current,
                    body.pred,
                    body.m,
                    1,
                    l.header,
                    l.inside.current,
                    body.after,
                    less,
                );
                lemma_leads_to_starve(
                    q,
                    args,
                    l.inner,
                    l.header,
                    tested,
                    body.count,
                    l.inside.current,
                    body.pred,
                    body.m,
                    less + 1,
                );
            },
        }
        lemma_leads_to_starve(q, args, l.header, pred, m, 1, l.inner, l.header, tested, less);
    }
}

/// The reports of the values `s`, one for each variable in the order of
/// the table.
pub open spec fn reports_of(s: Seq<u64>) -> Seq<Report> {
    Seq::new(s.len(), |j: int| Report { var: j as usize, value: s[j] })
}

/// The reports at the end of a program report the values of the
/// variables.
pub proof fn lemma_reports(
    q: ProgramView,
    args: Seq<u64>,
    first: int,
    frame: Seq<Value>,
    s: Seq<u64>,
    done: int,
    pred: usize,
    entry: Seq<Option<u64>>,
    m: Machine,
)
    requires
        0 <= first,
        0 <= done <= s.len(),
        frame.len() == s.len(),
        first + s.len() <= q.insts.len(),
        m.env.len() == q.insts.len(),
        forall|j: int|
            0 <= j < s.len() ==> #[trigger] q.insts[first + j] == (Inst::Report {
                var: j as usize,
                value: frame[j],
            }),
        forall|j: int| 0 <= j < s.len() ==> eval(#[trigger] frame[j], m.env, args) == Some(s[j]),
    ensures
        q.exec_range(
            args,
            first + done,
            first + s.len(),
            pred,
            entry,
            Machine { env: m.env, out: m.out + reports_of(s).take(done) },
        ) == Some(Machine { env: m.env, out: m.out + reports_of(s) }),
    decreases s.len() - done,
{
    let now = Machine { env: m.env, out: m.out + reports_of(s).take(done) };
    if done == s.len() {
        assert(reports_of(s).take(done) == reports_of(s));
    } else {
        let id = first + done;
        assert(q.insts[first + done] == Inst::Report { var: done as usize, value: frame[done] });
        assert(eval(frame[done], m.env, args) == Some(s[done]));
        let stepped = Machine {
            env: m.env,
            out: now.out.push(Report { var: done as usize, value: s[done] }),
        };
        assert(q.step(args, id, pred, entry, now) == Some(stepped));
        assert(stepped.out == m.out + reports_of(s).take(done + 1));
        lemma_reports(q, args, first, frame, s, done + 1, pred, entry, m);
    }
}

/// The values that the variables start with, when the program is run on
/// `args`: the argument of the last parameter given for a variable, or
/// zero.
pub open spec fn initial_state(
    names: Seq<Seq<char>>,
    inputs: Seq<Seq<char>>,
    args: Seq<u64>,
) -> Seq<u64> {
    Seq::new(
        names.len(),
        |j: int|
            match initial_value(inputs, names[j]) {
                Value::Param(k) => args[k as int],
                _ => 0,
            },
    )
}

/// The generator after a whole program: its statements, and the end.
pub open spec fn generated(
    names: Seq<Seq<char>>,
    inputs: Seq<Seq<char>>,
    program: Seq<Node>,
) -> ConverterView {
    emit_all(program, ConverterView::initial(names, inputs)).finalize()
}

/// The program is one that the generator takes: no variable is named
/// twice, every input and every variable of a statement is in the table,
/// and the code fits into the lists of the machine.
pub open spec fn accepted(names: Seq<Seq<char>>, inputs: Seq<Seq<char>>, program: Seq<Node>) -> bool {
    &&& ConverterView::create(names, inputs) is Ok
    &&& scoped_all(program, names.len())
    &&& names.len() <= usize::MAX
    &&& inputs.len() <= usize::MAX
    &&& insts_all(program, names.len()) + names.len() <= usize::MAX
    &&& 1 + blocks_all(program) <= usize::MAX
}

/// The generated program does what the source program means. Where the
/// source program, started with the variables at their initial values,
/// ends with the variables at some values, every run of the generated
/// program that may enter enough blocks returns after it has reported
/// exactly these values, in the order of the table, and every other run
/// runs out of fuel: none meets a fault. The generated program is
/// complete.
pub proof fn lemma_generated_means(
    names: Seq<Seq<char>>,
    inputs: Seq<Seq<char>>,
    program: Seq<Node>,
    args: Seq<u64>,
    fuel: nat,
) -> (enough: nat)
    requires
        accepted(names, inputs, program),
        args.len() == inputs.len(),
        means_all(program, initial_state(names, inputs, args), fuel) is Some,
    ensures
        generated(names, inputs, program).wf(),
        generated(names, inputs, program).program.complete(),
        forall|f: nat| #[trigger]
            generated(names, inputs, program).program.run(args, f) == if f >= enough {
                OutcomeView::Finished(
                    reports_of(means_all(program, initial_state(names, inputs, args), fuel)->0),
                )
            } else {
                OutcomeView::OutOfFuel
            },
{
    let c = ConverterView::initial(names, inputs);
    let e = emit_all(program, c);
    let d = e.finalize();
    let q = d.program;
    let n = names.len();
    let s = initial_state(names, inputs, args);
    let t = means_all(program, s, fuel)->0;
    lemma_initial_wf(names, inputs);
    lemma_emit_all_grown(c, program);
    lemma_finalize_wf(e);
    assert(e.frame_ok(e.frames.len() - 1));
    assert(e.program.block_ok(e.current as int));
    assert(q.insts == e.program.insts + ConverterView::reports(e.top()));
    assert(q.blocks[e.current as int] == Block {
        end: (e.program.insts.len() + n) as usize,
        term: Some(Terminator::Return),
        ..e.program.blocks[e.current as int]
    });
    assert(keeps(e.program, q, e.current)) by {
        assert(forall|i: int| 0 <= i < e.program.insts.len() ==> q.insts[i] == e.program.insts[i]);
    }
    let start = q.start();
    assert(at(q, c, args, 0, start, start, s)) by {
        assert(q.exec_range(args, 0, 0, 0, start.env, start) == Some(start));
        assert forall|j: int| 0 <= j < n implies eval(#[trigger] c.top()[j], start.env, args)
            == Some(s[j]) by {
            lemma_initial_value(inputs, names[j]);
        }
    }
    let stand = lemma_nodes_at(q, c, program, args, 0, start, start, s, fuel);
    let first = e.program.insts.len() as int;
    let b = e.program.blocks[e.current as int];
    assert(stand.after.out == Seq::<Report>::empty());
    assert(reports_of(t).take(0) == Seq::<Report>::empty());
    assert(stand.after.out + reports_of(t).take(0) == stand.after.out);
    lemma_reports(q, args, first, e.top(), t, 0, stand.pred, stand.m.env, stand.after);
    lemma_range_split(q, args, b.start as int, first, first + n, stand.pred, stand.m.env, stand.m);
    let last = Machine { env: stand.after.env, out: stand.after.out + reports_of(t) };
    assert(last.out == reports_of(t));
    assert(q.exec_range(args, b.start as int, first + n, stand.pred, stand.m.env, stand.m) == Some(
        last,
    ));
    assert forall|f: nat| #[trigger]
        q.run(args, f) == if f >= stand.count + 1 {
            OutcomeView::Finished(reports_of(t))
        } else {
            OutcomeView::OutOfFuel
        } by {
        assert(q.run_from(args, 0, 0, start, f) == if f >= stand.count {
            q.run_from(args, e.current, stand.pred, stand.m, (f - stand.count) as nat)
        } else {
            OutcomeView::OutOfFuel
        });
        assert(ProgramView::target(Terminator::Return, last.env, args) == Some(None::<usize>));
    }
    stand.count + 1
}

/// The generated program runs on as long as the source program does:
/// where the reckoning of what the source program means does not end
/// within `fuel`, no run of the generated program ends within `fuel`
/// blocks. So a source program that never ends gives a program that never
/// returns.
pub proof fn lemma_generated_runs_on(
    names: Seq<Seq<char>>,
    inputs: Seq<Seq<char>>,
    program: Seq<Node>,
    args: Seq<u64>,
    fuel: nat,
)
    requires
        accepted(names, inputs, program),
        args.len() == inputs.len(),
        means_all(program, initial_state(names, inputs, args), fuel) is None,
    ensures
        forall|f: nat|
            f <= fuel ==> #[trigger] generated(names, inputs, program).program.run(args, f)
                == OutcomeView::OutOfFuel,
{
    let c = ConverterView::initial(names, inputs);
    let e = emit_all(program, c);
    let d = e.finalize();
    let q = d.program;
    let n = names.len();
    let s = initial_state(names, inputs, args);
    lemma_initial_wf(names, inputs);
    lemma_emit_all_grown(c, program);
    lemma_finalize_wf(e);
    assert(e.frame_ok(e.frames.len() - 1));
    assert(e.program.block_ok(e.current as int));
    assert(q.insts == e.program.insts + ConverterView::reports(e.top()));
    assert(keeps(e.program, q, e.current)) by {
        assert(forall|i: int| 0 <= i < e.program.insts.len() ==> q.insts[i] == e.program.insts[i]);
    }
    let start = q.start();
    assert(at(q, c, args, 0, start, start, s)) by {
        assert(q.exec_range(args, 0, 0, 0, start.env, start) == Some(start));
        assert forall|j: int| 0 <= j < n implies eval(#[trigger] c.top()[j], start.env, args)
            == Some(s[j]) by {
            lemma_initial_value(inputs, names[j]);
        }
    }
    lemma_nodes_stuck(q, c, program, args, 0, start, start, s, fuel);
    assert forall|f: nat| f <= fuel implies #[trigger] q.run(args, f) == OutcomeView::OutOfFuel by {
        assert(q.run_from(args, 0, 0, start, f) == OutcomeView::OutOfFuel);
    }
}

} // verus!
