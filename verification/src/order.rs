//! The generator stays in order: each of its operations keeps what holds
//! of it between two operations.

use crate::convert::{
    bindable, distinct, index_of, initial_value, results, ConverterView, LoopContext,
};
use crate::ir::{Edge, Inst, ProgramView, Terminator, Value};
use vstd::prelude::*;

verus! {

/// What stays linked when a program grows: where the program `q` has the
/// instructions and the blocks of the linked program `p`, each old block
/// holding the old instructions that it held, and no block goes to an old
/// block but as it did in `p`, the old part of `q` is linked. The block
/// `hot`, if it is one, is left out: its instructions and the blocks that
/// go to it may have changed.
pub proof fn lemma_linked_old(p: ProgramView, q: ProgramView, hot: int)
    requires
        p.sound(),
        p.linked(),
        p.insts.len() <= q.insts.len(),
        p.blocks.len() <= q.blocks.len(),
        forall|i: int|
            0 <= i < p.insts.len() && !(0 <= hot < p.blocks.len() && p.holds(hot, i))
                ==> #[trigger] q.insts[i] == p.insts[i],
        forall|b: int, i: int|
            0 <= b < p.blocks.len() && 0 <= i < p.insts.len() ==> #[trigger] q.holds(b, i)
                == p.holds(b, i),
        forall|a: int, b: int|
            0 <= a < q.blocks.len() && 0 <= b < p.blocks.len() && b != hot ==> #[trigger] q.goes(
                a,
                b,
            ) == (a < p.blocks.len() && p.goes(a, b)),
        hot != 0,
    ensures
        forall|a: int| 0 <= a < q.blocks.len() ==> !#[trigger] q.goes(a, 0),
        forall|i: int| 0 <= i < p.insts.len() ==> #[trigger] q.housed(i),
        forall|b: int, c: int, i: int|
            0 <= b < p.blocks.len() && 0 <= c < p.blocks.len() && 0 <= i < p.insts.len()
                && #[trigger] q.holds(b, i) && #[trigger] q.holds(c, i) ==> b == c,
        forall|b: int, i: int|
            0 <= b < p.blocks.len() && b != hot && 0 <= i < p.insts.len() && #[trigger] q.holds(
                b,
                i,
            ) ==> q.fed(b, i),
{
    assert forall|a: int| 0 <= a < q.blocks.len() implies !#[trigger] q.goes(a, 0) by {
        if a < p.blocks.len() {
            assert(!p.goes(a, 0));
        }
    }
    assert forall|i: int| 0 <= i < p.insts.len() implies #[trigger] q.housed(i) by {
        assert(p.housed(i));
        let b = choose|b: int| 0 <= b < p.blocks.len() && #[trigger] p.holds(b, i);
        assert(q.holds(b, i));
    }
    assert forall|b: int, c: int, i: int|
        0 <= b < p.blocks.len() && 0 <= c < p.blocks.len() && 0 <= i < p.insts.len()
            && #[trigger] q.holds(b, i) && #[trigger] q.holds(c, i) implies b == c by {
        assert(p.holds(b, i) && p.holds(c, i));
    }
    assert forall|b: int, i: int|
        0 <= b < p.blocks.len() && b != hot && 0 <= i < p.insts.len() && #[trigger] q.holds(
            b,
            i,
        ) implies q.fed(b, i) by {
        assert(p.holds(b, i));
        assert(p.fed(b, i));
        if 0 <= hot < p.blocks.len() && p.holds(hot, i) {
            assert(p.holds(b, i) && p.holds(hot, i));
        }
        assert(q.insts[i] == p.insts[i]);
        match p.insts[i] {
            Inst::Phi { first, second } => {
                assert(p.inst_ok(i));
                assert(q.goes(first.from as int, b));
                assert forall|a: int| 0 <= a < q.blocks.len() && #[trigger] q.goes(
                    a,
                    b,
                ) implies a == first.from || match second {
                    Some(e) => a == e.from,
                    None => false,
                } by {
                    assert(p.goes(a, b));
                }
            },
            _ => {},
        }
    }
}

/// What stays scoped when a program grows: where the program `q` has the
/// instructions and the blocks of the program `p`, which is scoped with
/// `avail`, each old block holding the old instructions that it held, and
/// `more` gives the old blocks the sets of `avail`, then what was there at
/// the end of an old block still is, and the old instructions use only
/// what is there. The block `hot`, if it is one, is left out: its
/// instructions and the blocks that go to it may have changed.
pub proof fn lemma_scoped_old(
    p: ProgramView,
    q: ProgramView,
    avail: Seq<Set<int>>,
    more: Seq<Set<int>>,
    hot: int,
)
    requires
        p.sound(),
        p.linked(),
        p.scoped(avail),
        p.insts.len() <= q.insts.len(),
        p.blocks.len() <= q.blocks.len(),
        more.len() == q.blocks.len(),
        forall|b: int| 0 <= b < p.blocks.len() ==> #[trigger] more[b] == avail[b],
        forall|i: int|
            0 <= i < p.insts.len() && !(0 <= hot < p.blocks.len() && p.holds(hot, i))
                ==> #[trigger] q.insts[i] == p.insts[i],
        forall|b: int, i: int|
            0 <= b < p.blocks.len() && 0 <= i < p.insts.len() ==> #[trigger] q.holds(b, i)
                == p.holds(b, i),
        forall|b: int, i: int|
            0 <= b < p.blocks.len() && #[trigger] p.holds(b, i) ==> q.blocks[b].start
                == p.blocks[b].start,
        forall|a: int, b: int|
            0 <= a < q.blocks.len() && 0 <= b < p.blocks.len() && b != hot ==> #[trigger] q.goes(
                a,
                b,
            ) == (a < p.blocks.len() && p.goes(a, b)),
    ensures
        forall|d: int| !#[trigger] more[0].contains(d),
        forall|a: int, d: int|
            0 <= a < p.blocks.len() && p.ready(avail, a, d) ==> #[trigger] q.ready(more, a, d),
        forall|a: int, b: int|
            0 <= a < q.blocks.len() && 0 <= b < p.blocks.len() && b != hot && #[trigger] q.goes(
                a,
                b,
            ) ==> q.passes(more, a, b),
        forall|b: int, i: int|
            0 <= b < p.blocks.len() && b != hot && 0 <= i < p.insts.len() && #[trigger] q.holds(
                b,
                i,
            ) ==> q.uses_ready(more, b, i),
{
    assert forall|d: int| !#[trigger] more[0].contains(d) by {
        assert(more[0] == avail[0]);
    }
    assert forall|a: int, d: int| 0 <= a < p.blocks.len() && p.ready(avail, a, d) implies #[trigger] q.ready(
        more,
        a,
        d,
    ) by {
        assert(more[a] == avail[a]);
        if p.holds(a, d) {
            assert(p.block_ok(a));
            assert(q.holds(a, d));
        }
    }
    assert forall|a: int, b: int|
        0 <= a < q.blocks.len() && 0 <= b < p.blocks.len() && b != hot && #[trigger] q.goes(
            a,
            b,
        ) implies q.passes(more, a, b) by {
        assert(p.goes(a, b));
        assert(p.passes(avail, a, b));
        assert forall|d: int| #[trigger] more[b].contains(d) implies q.ready(more, a, d) by {
            assert(more[b] == avail[b]);
            assert(avail[b].contains(d));
            assert(p.ready(avail, a, d));
        }
    }
    assert forall|b: int, i: int|
        0 <= b < p.blocks.len() && b != hot && 0 <= i < p.insts.len() && #[trigger] q.holds(
            b,
            i,
        ) implies q.uses_ready(more, b, i) by {
        assert(p.holds(b, i));
        assert(p.uses_ready(avail, b, i));
        assert(more[b] == avail[b]);
        assert(p.inst_ok(i));
        if 0 <= hot < p.blocks.len() && p.holds(hot, i) {
            assert(p.holds(b, i) && p.holds(hot, i));
        }
        assert(q.insts[i] == p.insts[i]);
        match p.insts[i] {
            Inst::Phi { first, second } => {
                match first.value {
                    Value::Inst(d) => {
                        assert(p.ready(avail, first.from as int, d as int));
                        assert(q.ready(more, first.from as int, d as int));
                    },
                    _ => {},
                }
                match second {
                    Some(e) => match e.value {
                        Value::Inst(d) => {
                            assert(p.ready(avail, e.from as int, d as int));
                            assert(q.ready(more, e.from as int, d as int));
                        },
                        _ => {},
                    },
                    None => {},
                }
            },
            _ => {},
        }
    }
}

/// The terminator of an old block that is as it was tests what is there,
/// in a program that has grown.
pub proof fn lemma_test_kept(
    p: ProgramView,
    q: ProgramView,
    avail: Seq<Set<int>>,
    more: Seq<Set<int>>,
    b: int,
)
    requires
        0 <= b < p.blocks.len() <= q.blocks.len(),
        p.test_ready(avail, b),
        q.blocks[b].term == p.blocks[b].term,
        forall|a: int, d: int|
            0 <= a < p.blocks.len() && p.ready(avail, a, d) ==> #[trigger] q.ready(more, a, d),
    ensures
        q.test_ready(more, b),
{
    match p.blocks[b].term {
        Some(Terminator::Branch { lhs, rhs, equal, differ }) => {
            match lhs {
                Value::Inst(d) => {
                    assert(p.ready(avail, b, d as int));
                    assert(q.ready(more, b, d as int));
                },
                _ => {},
            }
        },
        _ => {},
    }
}

/// An open loop stays scoped when the generator goes on: the loops up
/// to it and the sets of the old blocks are as they were, what is there at
/// the end of their headers is what was there, and it is there at the new
/// point.
pub proof fn lemma_loop_scoped_kept(
    c: ConverterView,
    d: ConverterView,
    avail: Seq<Set<int>>,
    more: Seq<Set<int>>,
    k: int,
)
    requires
        c.wf(),
        0 <= k < c.loops.len(),
        k < d.loops.len(),
        forall|l: int| 0 <= l <= k ==> #[trigger] d.loops[l] == c.loops[l],
        c.program.blocks.len() <= more.len(),
        forall|b: int| 0 <= b < c.program.blocks.len() ==> #[trigger] more[b] == avail[b],
        c.loop_scoped(avail, k),
        forall|l: int, x: int|
            0 <= l <= k ==> #[trigger] d.program.ready(more, c.loops[l].header as int, x)
                == c.program.ready(avail, c.loops[l].header as int, x),
        forall|x: int|
            #[trigger] c.program.ready(avail, c.loops[k].header as int, x) ==> d.program.ready(
                more,
                d.current as int,
                x,
            ),
    ensures
        d.loop_scoped(more, k),
{
    let ctx = c.loops[k];
    assert(c.loop_ok(k));
    assert(more[ctx.exit as int] == avail[ctx.exit as int]);
    assert(more[ctx.header as int] == avail[ctx.header as int]);
    assert(d.loops[k] == ctx);
    assert forall|x: int| #[trigger] d.program.ready(more, ctx.header as int, x) implies d.program.ready(
        more,
        d.current as int,
        x,
    ) by {
        assert(c.program.ready(avail, ctx.header as int, x));
    }
    assert forall|x: int| #[trigger] d.program.ready(more, ctx.header as int, x) implies more[ctx.exit as int].contains(
        x,
    ) by {
        assert(c.program.ready(avail, ctx.header as int, x));
    }
    assert forall|x: int| #[trigger] more[ctx.exit as int].contains(x) implies d.program.ready(
        more,
        ctx.header as int,
        x,
    ) by {
        assert(avail[ctx.exit as int].contains(x));
        assert(c.program.ready(avail, ctx.header as int, x));
    }
    assert forall|l: int| 0 <= l < k implies d.enters(
        more,
        (#[trigger] d.loops[l]).header as int,
        ctx.header as int,
    ) by {
        assert(d.loops[l] == c.loops[l]);
        assert(c.enters(avail, c.loops[l].header as int, ctx.header as int));
        assert forall|x: int| #[trigger] d.program.ready(more, c.loops[l].header as int, x) implies more[ctx.header as int].contains(
            x,
        ) by {
            assert(c.program.ready(avail, c.loops[l].header as int, x));
        }
    }
}

/// Where the generator goes on and every old block but the current one
/// holds what it held, what is there at the end of the header of an open
/// loop is what was there.
pub proof fn lemma_headers_kept(
    c: ConverterView,
    d: ConverterView,
    avail: Seq<Set<int>>,
    more: Seq<Set<int>>,
)
    requires
        c.wf(),
        c.program.blocks.len() <= more.len(),
        forall|b: int| 0 <= b < c.program.blocks.len() ==> #[trigger] more[b] == avail[b],
        forall|b: int, i: int|
            0 <= b < c.program.blocks.len() && b != c.current ==> #[trigger] d.program.holds(b, i)
                == c.program.holds(b, i),
    ensures
        forall|l: int, x: int|
            0 <= l < c.loops.len() ==> #[trigger] d.program.ready(
                more,
                c.loops[l].header as int,
                x,
            ) == c.program.ready(avail, c.loops[l].header as int, x),
{
    assert forall|l: int, x: int| 0 <= l < c.loops.len() implies #[trigger] d.program.ready(
        more,
        c.loops[l].header as int,
        x,
    ) == c.program.ready(avail, c.loops[l].header as int, x) by {
        assert(c.loop_ok(l));
        assert(more[c.loops[l].header as int] == avail[c.loops[l].header as int]);
        assert(d.program.holds(c.loops[l].header as int, x) == c.program.holds(
            c.loops[l].header as int,
            x,
        ));
    }
}

/// The generator stays in order through `incr`.
pub proof fn lemma_incr_wf(c: ConverterView, var: int)
    requires
        c.wf(),
        !c.finished,
        0 <= var < c.width(),
        c.program.insts.len() < usize::MAX,
    ensures
        c.incr(var).wf(),
{
    let d = c.incr(var);
    let p = c.program;
    let q = d.program;
    assert(c.frame_ok(c.frames.len() - 1));
    assert(p.block_ok(c.current as int));
    lemma_same_loops(c, d);
    let cur = c.current as int;
    let id = p.insts.len() as int;
    assert forall|b: int, i: int|
        0 <= b < p.blocks.len() && 0 <= i < p.insts.len() implies #[trigger] q.holds(b, i)
        == p.holds(b, i) by {
        assert(p.block_ok(b));
    }
    assert forall|a: int, b: int|
        0 <= a < q.blocks.len() && 0 <= b < p.blocks.len() implies #[trigger] q.goes(a, b) == (a
        < p.blocks.len() && p.goes(a, b)) by {}
    lemma_linked_old(p, q, -1);
    assert(q.holds(cur, id));
    assert forall|b: int, e: int, i: int|
        0 <= b < q.blocks.len() && 0 <= e < q.blocks.len() && #[trigger] q.holds(b, i)
            && #[trigger] q.holds(e, i) implies b == e by {
        assert(p.block_ok(b));
        assert(p.block_ok(e));
    }
    assert forall|b: int, i: int| 0 <= b < q.blocks.len() && #[trigger] q.holds(b, i) implies q.fed(
        b,
        i,
    ) by {
        assert(p.block_ok(b));
    }
    assert forall|b: int| 0 <= b < q.blocks.len() implies #[trigger] q.merges_first(b) by {
        assert(p.merges_first(b));
        assert(p.block_ok(b));
        assert forall|i: int, j: int|
            q.blocks[b].start <= j < i < q.blocks[b].end && #[trigger] q.insts[i] is Phi
                implies #[trigger] q.insts[j] is Phi by {
            assert(p.insts[i] is Phi);
            assert(p.insts[j] is Phi);
        }
    }
    let avail = choose|avail: Seq<Set<int>>| c.scoped_now(avail);
    assert forall|b: int, i: int| 0 <= b < p.blocks.len() && #[trigger] p.holds(
        b,
        i,
    ) implies q.blocks[b].start == p.blocks[b].start by {}
    lemma_scoped_old(p, q, avail, avail, -1);
    let v = c.top()[var];
    assert(p.value_ready(avail, cur, v));
    assert forall|b: int, i: int| 0 <= b < q.blocks.len() && #[trigger] q.holds(
        b,
        i,
    ) implies q.uses_ready(avail, b, i) by {
        assert(p.block_ok(b));
    }
    assert forall|b: int| 0 <= b < q.blocks.len() implies #[trigger] q.test_ready(avail, b) by {
        assert(p.test_ready(avail, b));
        lemma_test_kept(p, q, avail, avail, b);
    }
    assert forall|j: int| 0 <= j < d.width() implies q.value_ready(
        avail,
        d.current as int,
        #[trigger] d.top()[j],
    ) by {
        if j != var {
            assert(p.value_ready(avail, cur, c.top()[j]));
        }
    }
    assert forall|b: int, i: int|
        0 <= b < p.blocks.len() && b != c.current implies #[trigger] q.holds(b, i) == p.holds(
        b,
        i,
    ) by {}
    lemma_headers_kept(c, d, avail, avail);
    assert forall|k: int| 0 <= k < d.loops.len() implies #[trigger] d.loop_scoped(avail, k) by {
        assert(c.loop_scoped(avail, k));
        assert forall|x: int| #[trigger]
            p.ready(avail, c.loops[k].header as int, x) implies q.ready(
            avail,
            d.current as int,
            x,
        ) by {
            assert(p.ready(avail, cur, x));
        }
        lemma_loop_scoped_kept(c, d, avail, avail, k);
    }
    assert(d.scoped_now(avail));
    assert forall|i: int| 0 <= i < q.insts.len() implies #[trigger] q.inst_ok(i) by {
        if i < p.insts.len() {
            assert(p.inst_ok(i));
        }
    }
    assert forall|b: int| 0 <= b < q.blocks.len() implies #[trigger] q.block_ok(b) by {
        assert(p.block_ok(b));
    }
    assert forall|f: int| 0 <= f < d.frames.len() implies #[trigger] d.frame_ok(f) by {
        assert(c.frame_ok(f));
    }
    assert forall|k: int| 0 <= k < d.loops.len() implies #[trigger] d.loop_ok(k) by {
        assert(c.loop_ok(k));
    }
    assert forall|b: int|
        0 <= b < q.blocks.len() && (#[trigger] q.blocks[b]).term is None implies (b == d.current
        && !d.finished) || d.is_exit(b) by {
        assert(p.blocks[b].term is None);
        if c.is_exit(b) {
            let k = choose|k: int| 0 <= k < c.loops.len() && (#[trigger] c.loops[k]).exit == b;
            assert(d.loops[k].exit == b);
        }
    }
    assert forall|i: int| 0 <= i < q.insts.len() implies match #[trigger] q.insts[i] {
        Inst::Phi { first, second } => second is None ==> d.is_open_phi(i),
        _ => true,
    } by {
        if i < p.insts.len() {
            assert(q.insts[i] == p.insts[i]);
            if c.is_open_phi(i) {
                let k = choose|k: int|
                    0 <= k < c.loops.len() && (#[trigger] c.loops[k]).phis <= i < c.loops[k].phis
                        + c.width();
                assert(d.loops[k].phis <= i < d.loops[k].phis + d.width());
            }
        }
    }
}

/// The generator stays in order when a variable is bound to a value that
/// the program has.
pub proof fn lemma_bind_wf(c: ConverterView, var: int, v: Value)
    requires
        c.wf(),
        0 <= var < c.width(),
        bindable(c, v),
    ensures
        c.bind(var, v).wf(),
{
    let d = c.bind(var, v);
    assert(c.frame_ok(c.frames.len() - 1));
    assert(c.program.value_ok(v));
    let avail = choose|avail: Seq<Set<int>>| c.scoped_now(avail);
    if !c.finished {
        assert forall|j: int| 0 <= j < d.width() implies d.program.value_ready(
            avail,
            d.current as int,
            #[trigger] d.top()[j],
        ) by {
            if j != var {
                assert(c.program.value_ready(avail, c.current as int, c.top()[j]));
            } else if !(v is Const) {
                let w = choose|w: int| 0 <= w < c.width() && #[trigger] c.top()[w] == v;
                assert(c.program.value_ready(avail, c.current as int, c.top()[w]));
            }
        }
    }
    assert forall|k: int| 0 <= k < d.loops.len() implies #[trigger] d.loop_scoped(avail, k) by {
        assert(c.loop_scoped(avail, k));
    }
    assert(d.scoped_now(avail));
    assert forall|f: int| 0 <= f < d.frames.len() implies #[trigger] d.frame_ok(f) by {
        assert(c.frame_ok(f));
    }
    assert forall|k: int| 0 <= k < d.loops.len() implies #[trigger] d.loop_ok(k) by {
        assert(c.loop_ok(k));
    }
    lemma_same_loops(c, d);
}

/// Where two generators have the same loops and the same number of
/// variables, a block is an exit block, and an instruction an open merge
/// point, in both or in neither.
pub proof fn lemma_same_loops(c: ConverterView, d: ConverterView)
    requires
        c.loops == d.loops,
        c.width() == d.width(),
    ensures
        forall|b: int| c.is_exit(b) == d.is_exit(b),
        forall|i: int| c.is_open_phi(i) == d.is_open_phi(i),
        forall|k: int, l: int| #[trigger] d.phis_apart(k, l) == c.phis_apart(k, l),
{
    assert forall|b: int| c.is_exit(b) == d.is_exit(b) by {
        if c.is_exit(b) {
            let k = choose|k: int| 0 <= k < c.loops.len() && (#[trigger] c.loops[k]).exit == b;
            assert(d.loops[k].exit == b);
        }
        if d.is_exit(b) {
            let k = choose|k: int| 0 <= k < d.loops.len() && (#[trigger] d.loops[k]).exit == b;
            assert(c.loops[k].exit == b);
        }
    }
    assert forall|i: int| c.is_open_phi(i) == d.is_open_phi(i) by {
        if c.is_open_phi(i) {
            let k = choose|k: int|
                0 <= k < c.loops.len() && (#[trigger] c.loops[k]).phis <= i < c.loops[k].phis
                    + c.width();
            assert(d.loops[k].phis <= i < d.loops[k].phis + d.width());
        }
        if d.is_open_phi(i) {
            let k = choose|k: int|
                0 <= k < d.loops.len() && (#[trigger] d.loops[k]).phis <= i < d.loops[k].phis
                    + d.width();
            assert(c.loops[k].phis <= i < c.loops[k].phis + c.width());
        }
    }
}

/// The generator stays in order through `decr`.
pub proof fn lemma_decr_wf(c: ConverterView, var: int)
    requires
        c.wf(),
        !c.finished,
        0 <= var < c.width(),
        c.program.insts.len() + 2 <= usize::MAX,
        c.program.blocks.len() + 2 <= usize::MAX,
    ensures
        c.decr(var).wf(),
{
    let d = c.decr(var);
    let p = c.program;
    let q = d.program;
    let v = c.top()[var];
    let skip = c.next_block();
    let no_skip = (skip + 1) as usize;
    let less = c.next_inst();
    assert(c.frame_ok(c.frames.len() - 1));
    assert(p.value_ok(v));
    assert(p.block_ok(c.current as int));
    assert(q.insts == p.insts.push(Inst::Decr(v)).push(
        Inst::Phi {
            first: Edge { value: v, from: c.current },
            second: Some(Edge { value: Value::Inst(less), from: no_skip }),
        },
    ));
    assert(q.blocks.len() == p.blocks.len() + 2);
    assert(q.blocks[c.current as int].term == Some(
        Terminator::Branch { lhs: v, rhs: 0, equal: skip, differ: no_skip },
    ));
    assert(q.blocks[no_skip as int].term == Some(Terminator::Jump(skip)));
    assert(q.blocks[skip as int].term is None);
    assert(forall|b: int| 0 <= b < p.blocks.len() && b != c.current ==> q.blocks[b] == p.blocks[b]);
    lemma_same_loops(c, d);
    assert forall|i: int| 0 <= i < q.insts.len() implies #[trigger] q.inst_ok(i) by {
        if i < p.insts.len() {
            assert(p.inst_ok(i));
        }
    }
    assert forall|b: int| 0 <= b < q.blocks.len() implies #[trigger] q.block_ok(b) by {
        if b < p.blocks.len() {
            assert(p.block_ok(b));
        }
    }
    let cur = c.current as int;
    let merged = less + 1;
    assert(q.blocks[no_skip as int].start == less && q.blocks[no_skip as int].end == merged);
    assert(q.blocks[skip as int].start == merged && q.blocks[skip as int].end == merged + 1);
    assert(q.blocks[cur].start == p.blocks[cur].start && q.blocks[cur].end == p.blocks[cur].end);
    assert forall|b: int, i: int|
        0 <= b < p.blocks.len() && 0 <= i < p.insts.len() implies #[trigger] q.holds(b, i)
        == p.holds(b, i) by {}
    assert forall|a: int, b: int|
        0 <= a < q.blocks.len() && 0 <= b < p.blocks.len() implies #[trigger] q.goes(a, b) == (a
        < p.blocks.len() && p.goes(a, b)) by {}
    lemma_linked_old(p, q, -1);
    assert(q.holds(no_skip as int, less as int));
    assert(q.holds(skip as int, merged));
    assert forall|b: int, e: int, i: int|
        0 <= b < q.blocks.len() && 0 <= e < q.blocks.len() && #[trigger] q.holds(b, i)
            && #[trigger] q.holds(e, i) implies b == e by {
        if b < p.blocks.len() {
            assert(p.block_ok(b));
        }
        if e < p.blocks.len() {
            assert(p.block_ok(e));
        }
    }
    assert forall|b: int, i: int| 0 <= b < q.blocks.len() && #[trigger] q.holds(b, i) implies q.fed(
        b,
        i,
    ) by {
        if b < p.blocks.len() {
            assert(p.block_ok(b));
        } else if b == skip {
            assert(q.goes(cur, skip as int));
            assert(q.goes(no_skip as int, skip as int));
            assert forall|a: int| 0 <= a < q.blocks.len() && #[trigger] q.goes(
                a,
                skip as int,
            ) implies a == cur || a == no_skip by {
                if a < p.blocks.len() && a != cur {
                    assert(p.block_ok(a));
                }
            }
        }
    }
    assert forall|b: int| 0 <= b < q.blocks.len() implies #[trigger] q.merges_first(b) by {
        if b < p.blocks.len() {
            assert(p.merges_first(b));
            assert(p.block_ok(b));
            assert forall|i: int, j: int|
                q.blocks[b].start <= j < i < q.blocks[b].end && #[trigger] q.insts[i] is Phi
                    implies #[trigger] q.insts[j] is Phi by {
                assert(p.insts[i] is Phi);
                assert(p.insts[j] is Phi);
            }
        }
    }
    assert forall|f: int| 0 <= f < d.frames.len() implies #[trigger] d.frame_ok(f) by {
        assert(c.frame_ok(f));
    }
    assert forall|k: int| 0 <= k < d.loops.len() implies #[trigger] d.loop_ok(k) by {
        assert(c.loop_ok(k));
    }
    assert forall|b: int|
        0 <= b < q.blocks.len() && (#[trigger] q.blocks[b]).term is None implies (b == d.current
        && !d.finished) || d.is_exit(b) by {
        if b < p.blocks.len() && b != c.current {
            assert(p.blocks[b].term is None);
        }
    }
    assert forall|i: int| 0 <= i < q.insts.len() implies match #[trigger] q.insts[i] {
        Inst::Phi { first, second } => second is None ==> d.is_open_phi(i),
        _ => true,
    } by {
        if i < p.insts.len() {
            assert(q.insts[i] == p.insts[i]);
        }
    }
    let avail = choose|avail: Seq<Set<int>>| c.scoped_now(avail);
    let there = Set::new(|x: int| p.ready(avail, cur, x));
    let more = avail.push(there).push(there);
    assert forall|b: int, i: int| 0 <= b < p.blocks.len() && #[trigger] p.holds(
        b,
        i,
    ) implies q.blocks[b].start == p.blocks[b].start by {}
    lemma_scoped_old(p, q, avail, more, -1);
    assert(p.value_ready(avail, cur, v));
    assert(q.insts[less as int] == Inst::Decr(v));
    assert forall|a: int, b: int|
        0 <= a < q.blocks.len() && 0 <= b < q.blocks.len() && #[trigger] q.goes(
            a,
            b,
        ) implies q.passes(more, a, b) by {
        if b >= p.blocks.len() {
            if a < p.blocks.len() && a != cur {
                assert(p.block_ok(a));
            }
            assert forall|x: int| #[trigger] more[b].contains(x) implies q.ready(more, a, x) by {
                assert(p.ready(avail, cur, x));
                assert(q.ready(more, cur, x));
            }
        }
    }
    assert forall|b: int, i: int| 0 <= b < q.blocks.len() && #[trigger] q.holds(
        b,
        i,
    ) implies q.uses_ready(more, b, i) by {
        if b < p.blocks.len() {
            assert(p.block_ok(b));
        } else if b == skip {
            match v {
                Value::Inst(x) => {
                    assert(p.ready(avail, cur, x as int));
                    assert(q.ready(more, cur, x as int));
                },
                _ => {},
            }
            assert(q.holds(no_skip as int, less as int));
        } else {
            match v {
                Value::Inst(x) => {
                    assert(p.ready(avail, cur, x as int));
                },
                _ => {},
            }
        }
    }
    assert forall|b: int| 0 <= b < q.blocks.len() implies #[trigger] q.test_ready(more, b) by {
        if b < p.blocks.len() && b != cur {
            assert(p.test_ready(avail, b));
            lemma_test_kept(p, q, avail, more, b);
        } else if b == cur {
            match v {
                Value::Inst(x) => {
                    assert(p.ready(avail, cur, x as int));
                    assert(q.ready(more, cur, x as int));
                },
                _ => {},
            }
        }
    }
    assert(q.scoped(more));
    assert forall|j: int| 0 <= j < d.width() implies q.value_ready(
        more,
        d.current as int,
        #[trigger] d.top()[j],
    ) by {
        if j != var {
            assert(d.top()[j] == c.top()[j]);
            assert(p.value_ready(avail, cur, c.top()[j]));
            match c.top()[j] {
                Value::Inst(x) => {
                    assert(p.ready(avail, cur, x as int));
                },
                _ => {},
            }
        }
    }
    assert forall|b: int, i: int|
        0 <= b < p.blocks.len() && b != c.current implies #[trigger] q.holds(b, i) == p.holds(
        b,
        i,
    ) by {}
    lemma_headers_kept(c, d, avail, more);
    assert forall|k: int| 0 <= k < d.loops.len() implies #[trigger] d.loop_scoped(more, k) by {
        assert(c.loop_scoped(avail, k));
        assert forall|x: int| #[trigger]
            p.ready(avail, c.loops[k].header as int, x) implies q.ready(
            more,
            d.current as int,
            x,
        ) by {
            assert(p.ready(avail, cur, x));
        }
        lemma_loop_scoped_kept(c, d, avail, more, k);
    }
    assert(d.scoped_now(more));
}

/// The generator is in order before the first statement.
pub proof fn lemma_initial_wf(names: Seq<Seq<char>>, inputs: Seq<Seq<char>>)
    requires
        distinct(names),
        names.len() <= usize::MAX,
        inputs.len() <= usize::MAX,
        forall|k: int| 0 <= k < inputs.len() ==> index_of(names, #[trigger] inputs[k]) is Some,
    ensures
        ConverterView::initial(names, inputs).wf(),
{
    let c = ConverterView::initial(names, inputs);
    assert(c.program.block_ok(0));
    assert forall|j: int| 0 <= j < names.len() implies c.program.value_ok(
        #[trigger] c.frames[0][j],
    ) by {
        lemma_initial_value(inputs, names[j]);
    }
    assert(c.frame_ok(0));
    assert(c.program.merges_first(0));
    let avail = seq![Set::<int>::empty()];
    assert forall|j: int| 0 <= j < c.width() implies c.program.value_ready(
        avail,
        c.current as int,
        #[trigger] c.top()[j],
    ) by {
        lemma_initial_value(inputs, names[j]);
    }
    assert(c.program.test_ready(avail, 0));
    assert(c.scoped_now(avail));
}

/// A variable starts as zero or as one of the parameters.
pub proof fn lemma_initial_value(inputs: Seq<Seq<char>>, name: Seq<char>)
    requires
        inputs.len() <= usize::MAX,
    ensures
        match initial_value(inputs, name) {
            Value::Const(c) => c == 0,
            Value::Param(k) => k < inputs.len(),
            Value::Inst(_) => false,
        },
    decreases inputs.len(),
{
    if inputs.len() > 0 && inputs.last() != name {
        lemma_initial_value(inputs.drop_last(), name);
    }
}

/// The generator stays in order through `while`.
pub proof fn lemma_open_while_wf(c: ConverterView, var: int, bound: i128)
    requires
        c.wf(),
        !c.finished,
        0 <= var < c.width(),
        c.program.insts.len() + c.width() <= usize::MAX,
        c.program.blocks.len() + 3 <= usize::MAX,
    ensures
        c.open_while(var, bound).wf(),
{
    let d = c.open_while(var, bound);
    let p = c.program;
    let q = d.program;
    let n = c.width();
    let header = c.next_block();
    let body = (header + 1) as usize;
    let exit = (header + 2) as usize;
    let phis = c.next_inst();
    let ctx = LoopContext { phis, header, exit };
    assert(c.frame_ok(c.frames.len() - 1));
    assert(p.block_ok(c.current as int));
    assert(q.insts == p.insts + ConverterView::merge_points(c.top(), c.current));
    assert(q.blocks.len() == p.blocks.len() + 3);
    assert(q.blocks[c.current as int].term == Some(Terminator::Jump(header)));
    assert(q.blocks[header as int].term is Some);
    assert(q.blocks[body as int].term is None);
    assert(q.blocks[exit as int].term is None);
    assert(forall|b: int| 0 <= b < p.blocks.len() && b != c.current ==> q.blocks[b] == p.blocks[b]);
    assert(d.loops == c.loops.push(ctx));
    assert(d.frames == c.frames.push(results(phis, n)));
    assert forall|i: int| 0 <= i < q.insts.len() implies #[trigger] q.inst_ok(i) by {
        if i < p.insts.len() {
            assert(p.inst_ok(i));
        } else {
            assert(p.value_ok(c.top()[i - p.insts.len()]));
        }
    }
    assert forall|b: int| 0 <= b < q.blocks.len() implies #[trigger] q.block_ok(b) by {
        if b < p.blocks.len() {
            assert(p.block_ok(b));
        }
        if b == header {
            assert(q.insts[phis + var] is Phi);
        }
    }
    assert forall|f: int| 0 <= f < d.frames.len() implies #[trigger] d.frame_ok(f) by {
        if f < c.frames.len() {
            assert(c.frame_ok(f));
        } else {
            assert forall|j: int| 0 <= j < n implies q.value_ok(#[trigger] d.frames[f][j]) by {
                assert(q.insts[phis + j] is Phi);
            }
        }
    }
    assert forall|k: int| 0 <= k < d.loops.len() implies #[trigger] d.loop_ok(k) by {
        if k < c.loops.len() {
            assert(c.loop_ok(k));
            assert forall|j: int| 0 <= j < n implies match #[trigger] q.insts[d.loops[k].phis + j] {
                Inst::Phi { first, second } => second is None,
                _ => false,
            } by {
                assert(q.insts[c.loops[k].phis + j] == p.insts[c.loops[k].phis + j]);
            }
        } else {
            assert forall|j: int| 0 <= j < n implies match #[trigger] q.insts[phis + j] {
                Inst::Phi { first, second } => second is None,
                _ => false,
            } by {}
        }
    }
    assert forall|k: int, l: int| 0 <= k < l < d.loops.len() implies #[trigger] d.phis_apart(
        k,
        l,
    ) by {
        assert(c.loop_ok(k));
        if l < c.loops.len() {
            assert(c.phis_apart(k, l));
        }
    }
    let cur = c.current as int;
    assert(q.blocks[header as int].start == phis && q.blocks[header as int].end == phis + n);
    assert(q.blocks[body as int].start == q.blocks[body as int].end);
    assert(q.blocks[exit as int].start == q.blocks[exit as int].end);
    assert(q.blocks[cur].start == p.blocks[cur].start && q.blocks[cur].end == p.blocks[cur].end);
    assert forall|b: int, i: int|
        0 <= b < p.blocks.len() && 0 <= i < p.insts.len() implies #[trigger] q.holds(b, i)
        == p.holds(b, i) by {}
    assert forall|a: int, b: int|
        0 <= a < q.blocks.len() && 0 <= b < p.blocks.len() implies #[trigger] q.goes(a, b) == (a
        < p.blocks.len() && p.goes(a, b)) by {}
    lemma_linked_old(p, q, -1);
    assert forall|i: int| 0 <= i < q.insts.len() implies #[trigger] q.housed(i) by {
        if i >= p.insts.len() {
            assert(q.holds(header as int, i));
        }
    }
    assert forall|b: int, e: int, i: int|
        0 <= b < q.blocks.len() && 0 <= e < q.blocks.len() && #[trigger] q.holds(b, i)
            && #[trigger] q.holds(e, i) implies b == e by {
        if b < p.blocks.len() {
            assert(p.block_ok(b));
        }
        if e < p.blocks.len() {
            assert(p.block_ok(e));
        }
    }
    assert forall|b: int, i: int| 0 <= b < q.blocks.len() && #[trigger] q.holds(b, i) implies q.fed(
        b,
        i,
    ) by {
        if b < p.blocks.len() {
            assert(p.block_ok(b));
        } else if b == header {
            assert(q.insts[i] == ConverterView::merge_points(c.top(), c.current)[i - phis]);
            assert(q.goes(cur, header as int));
            assert forall|a: int| 0 <= a < q.blocks.len() && #[trigger] q.goes(
                a,
                header as int,
            ) implies a == cur by {
                if a < p.blocks.len() && a != cur {
                    assert(p.block_ok(a));
                }
            }
        }
    }
    assert forall|b: int| 0 <= b < q.blocks.len() implies #[trigger] q.merges_first(b) by {
        if b < p.blocks.len() {
            assert(p.merges_first(b));
            assert(p.block_ok(b));
            assert forall|i: int, j: int|
                q.blocks[b].start <= j < i < q.blocks[b].end && #[trigger] q.insts[i] is Phi
                    implies #[trigger] q.insts[j] is Phi by {
                assert(p.insts[i] is Phi);
                assert(p.insts[j] is Phi);
            }
        } else if b == header {
            assert forall|i: int, j: int|
                q.blocks[b].start <= j < i < q.blocks[b].end && #[trigger] q.insts[i] is Phi
                    implies #[trigger] q.insts[j] is Phi by {
                assert(q.insts[j] == ConverterView::merge_points(c.top(), c.current)[j - phis]);
            }
        }
    }
    assert forall|b: int|
        0 <= b < q.blocks.len() && (#[trigger] q.blocks[b]).term is None implies (b == d.current
        && !d.finished) || d.is_exit(b) by {
        if b == exit {
            assert(d.loops[c.loops.len() as int].exit == b);
        } else if b < p.blocks.len() && b != c.current {
            assert(p.blocks[b].term is None);
            let k = choose|k: int| 0 <= k < c.loops.len() && (#[trigger] c.loops[k]).exit == b;
            assert(d.loops[k].exit == b);
        }
    }
    assert forall|i: int| 0 <= i < q.insts.len() implies match #[trigger] q.insts[i] {
        Inst::Phi { first, second } => second is None ==> d.is_open_phi(i),
        _ => true,
    } by {
        if i < p.insts.len() {
            assert(q.insts[i] == p.insts[i]);
            if c.is_open_phi(i) {
                let k = choose|k: int|
                    0 <= k < c.loops.len() && (#[trigger] c.loops[k]).phis <= i < c.loops[k].phis
                        + c.width();
                assert(d.loops[k].phis <= i < d.loops[k].phis + d.width());
            }
        } else {
            assert(d.loops[c.loops.len() as int].phis <= i < d.loops[c.loops.len() as int].phis
                + d.width());
        }
    }
    let avail = choose|avail: Seq<Set<int>>| c.scoped_now(avail);
    let there = Set::new(|x: int| p.ready(avail, cur, x));
    let inside = Set::new(|x: int| there.contains(x) || phis <= x < phis + n);
    let more = avail.push(there).push(inside).push(inside);
    assert forall|b: int, i: int| 0 <= b < p.blocks.len() && #[trigger] p.holds(
        b,
        i,
    ) implies q.blocks[b].start == p.blocks[b].start by {}
    lemma_scoped_old(p, q, avail, more, -1);
    assert forall|a: int, b: int|
        0 <= a < q.blocks.len() && 0 <= b < q.blocks.len() && #[trigger] q.goes(
            a,
            b,
        ) implies q.passes(more, a, b) by {
        if b >= p.blocks.len() {
            if a < p.blocks.len() && a != cur {
                assert(p.block_ok(a));
            }
            assert forall|x: int| #[trigger] more[b].contains(x) implies q.ready(more, a, x) by {
                if b == header {
                    assert(p.ready(avail, cur, x));
                    assert(q.ready(more, cur, x));
                } else {
                    if there.contains(x) {
                        assert(more[header as int].contains(x));
                    } else {
                        assert(q.holds(header as int, x));
                    }
                }
            }
        }
    }
    assert forall|b: int, i: int| 0 <= b < q.blocks.len() && #[trigger] q.holds(
        b,
        i,
    ) implies q.uses_ready(more, b, i) by {
        if b < p.blocks.len() {
            assert(p.block_ok(b));
        } else if b == header {
            let j = i - phis;
            assert(q.insts[i] == ConverterView::merge_points(c.top(), c.current)[j]);
            assert(p.value_ready(avail, cur, c.top()[j]));
            match c.top()[j] {
                Value::Inst(x) => {
                    assert(p.ready(avail, cur, x as int));
                    assert(q.ready(more, cur, x as int));
                },
                _ => {},
            }
        }
    }
    assert forall|b: int| 0 <= b < q.blocks.len() implies #[trigger] q.test_ready(more, b) by {
        if b < p.blocks.len() && b != cur {
            assert(p.test_ready(avail, b));
            lemma_test_kept(p, q, avail, more, b);
        } else if b == header {
            assert(q.holds(header as int, phis + var));
        }
    }
    assert(q.scoped(more));
    assert forall|j: int| 0 <= j < d.width() implies q.value_ready(
        more,
        d.current as int,
        #[trigger] d.top()[j],
    ) by {
        assert(d.top()[j] == Value::Inst((phis + j) as usize));
        assert(inside.contains(phis + j));
    }
    assert forall|b: int, i: int|
        0 <= b < p.blocks.len() && b != c.current implies #[trigger] q.holds(b, i) == p.holds(
        b,
        i,
    ) by {}
    lemma_headers_kept(c, d, avail, more);
    assert forall|k: int| 0 <= k < d.loops.len() implies #[trigger] d.loop_scoped(more, k) by {
        if k < c.loops.len() {
            assert(c.loop_scoped(avail, k));
            assert forall|x: int| #[trigger]
                p.ready(avail, c.loops[k].header as int, x) implies q.ready(
                more,
                d.current as int,
                x,
            ) by {
                assert(p.ready(avail, cur, x));
                assert(there.contains(x));
                assert(inside.contains(x));
            }
            lemma_loop_scoped_kept(c, d, avail, more, k);
        } else {
            assert(d.loops[k] == ctx);
            assert forall|x: int| #[trigger] q.ready(more, header as int, x) implies q.ready(
                more,
                d.current as int,
                x,
            ) && more[exit as int].contains(x) by {
                assert(inside.contains(x));
            }
            assert forall|x: int| #[trigger] more[exit as int].contains(x) implies q.ready(
                more,
                header as int,
                x,
            ) by {
                if there.contains(x) {
                    assert(more[header as int].contains(x));
                } else {
                    assert(q.holds(header as int, x));
                }
            }
            assert forall|l: int| 0 <= l < k implies d.enters(
                more,
                (#[trigger] d.loops[l]).header as int,
                header as int,
            ) by {
                assert(d.loops[l] == c.loops[l]);
                assert(c.loop_scoped(avail, l));
                assert forall|x: int| #[trigger] q.ready(more, c.loops[l].header as int, x) implies more[header as int].contains(
                    x,
                ) by {
                    assert(p.ready(avail, c.loops[l].header as int, x));
                    assert(p.ready(avail, cur, x));
                    assert(there.contains(x));
                }
            }
        }
    }
    assert(d.scoped_now(more));
}

/// The generator stays in order through `end`.
pub proof fn lemma_close_while_wf(c: ConverterView)
    requires
        c.wf(),
        !c.finished,
        c.loops.len() > 0,
    ensures
        c.close_while().wf(),
{
    let d = c.close_while();
    let p = c.program;
    let q = d.program;
    let n = c.width();
    let last = c.loops.len() - 1;
    let ctx = c.loops[last];
    assert(c.loop_ok(last));
    assert(c.frame_ok(c.frames.len() - 1));
    assert(p.block_ok(c.current as int));
    assert(p.block_ok(ctx.exit as int));
    assert(q.insts == ConverterView::link_back(p.insts, ctx, c.top(), c.current));
    assert(q.blocks.len() == p.blocks.len());
    assert(q.blocks[c.current as int].term == Some(Terminator::Jump(ctx.header)));
    assert(forall|b: int|
        0 <= b < p.blocks.len() && b != c.current && b != ctx.exit ==> q.blocks[b] == p.blocks[b]);
    assert forall|i: int| 0 <= i < q.insts.len() implies #[trigger] q.inst_ok(i) by {
        assert(p.inst_ok(i));
        if ctx.phis <= i < ctx.phis + n {
            assert(p.value_ok(c.top()[i - ctx.phis]));
        }
    }
    assert forall|b: int| 0 <= b < q.blocks.len() implies #[trigger] q.block_ok(b) by {
        assert(p.block_ok(b));
    }
    assert forall|f: int| 0 <= f < d.frames.len() implies #[trigger] d.frame_ok(f) by {
        if f < d.frames.len() - 1 {
            assert(c.frame_ok(f));
            assert(d.frames[f] == c.frames[f]);
        } else {
            assert forall|j: int| 0 <= j < n implies q.value_ok(#[trigger] d.frames[f][j]) by {
                assert(p.insts[ctx.phis + j] is Phi);
            }
        }
    }
    assert forall|k: int| 0 <= k < d.loops.len() implies #[trigger] d.loop_ok(k) by {
        assert(c.loop_ok(k));
        assert(c.phis_apart(k, last));
        assert forall|j: int| 0 <= j < n implies match #[trigger] q.insts[d.loops[k].phis + j] {
            Inst::Phi { first, second } => second is None,
            _ => false,
        } by {
            let i = c.loops[k].phis + j;
            match p.insts[i] {
                Inst::Phi { first, second } => {},
                _ => {},
            }
            lemma_open_phis_apart(c, k, last, j);
        }
    }
    assert forall|k: int, l: int| 0 <= k < l < d.loops.len() implies #[trigger] d.phis_apart(
        k,
        l,
    ) by {
        assert(c.phis_apart(k, l));
    }
    let cur = c.current as int;
    let header = ctx.header as int;
    assert(q.blocks[ctx.exit as int].start == q.blocks[ctx.exit as int].end);
    assert(q.blocks[cur].start == p.blocks[cur].start && q.blocks[cur].end == p.blocks[cur].end);
    assert forall|b: int, i: int|
        0 <= b < p.blocks.len() && 0 <= i < p.insts.len() implies #[trigger] q.holds(b, i)
        == p.holds(b, i) by {}
    assert forall|a: int, b: int|
        0 <= a < q.blocks.len() && 0 <= b < p.blocks.len() && b != header implies #[trigger] q.goes(
        a,
        b,
    ) == (a < p.blocks.len() && p.goes(a, b)) by {}
    assert forall|i: int|
        0 <= i < p.insts.len() && !(0 <= header < p.blocks.len() && p.holds(
            header,
            i,
        )) implies #[trigger] q.insts[i] == p.insts[i] by {}
    assert(!p.goes(cur, 0));
    assert(p.blocks[0].term is None ==> (0 == c.current || c.is_exit(0)));
    lemma_linked_old(p, q, header);
    assert forall|b: int, e: int, i: int|
        0 <= b < q.blocks.len() && 0 <= e < q.blocks.len() && #[trigger] q.holds(b, i)
            && #[trigger] q.holds(e, i) implies b == e by {
        assert(p.block_ok(b));
        assert(p.block_ok(e));
    }
    assert forall|b: int, i: int| 0 <= b < q.blocks.len() && #[trigger] q.holds(b, i) implies q.fed(
        b,
        i,
    ) by {
        assert(p.block_ok(b));
        if b == header {
            let j = i - ctx.phis;
            assert(p.holds(header, i));
            assert(p.fed(header, i));
            assert(c.top().len() == c.width());
            assert(q.insts[i] == ConverterView::link_back(p.insts, ctx, c.top(), c.current)[i]);
            assert(match p.insts[ctx.phis + j] {
                Inst::Phi { first, second } => second is None,
                _ => false,
            });
            match p.insts[i] {
                Inst::Phi { first, second } => {
                    assert(p.inst_ok(i));
                    assert(p.goes(first.from as int, header));
                    assert(first.from != cur);
                    assert(first.from != ctx.exit);
                    assert(q.blocks[first.from as int] == p.blocks[first.from as int]);
                    assert(q.goes(first.from as int, header));
                    assert(q.goes(cur, header));
                    assert(q.insts[i] == Inst::Phi {
                        first,
                        second: Some(Edge { value: c.top()[j], from: c.current }),
                    });
                    assert forall|a: int| 0 <= a < q.blocks.len() && #[trigger] q.goes(
                        a,
                        header,
                    ) implies a == first.from || a == cur by {
                        if a != cur {
                            assert(p.goes(a, header));
                        }
                    }
                },
                _ => {},
            }
        }
    }
    assert forall|b: int| 0 <= b < q.blocks.len() implies #[trigger] q.merges_first(b) by {
        assert(p.merges_first(b));
        assert(p.block_ok(b));
        assert forall|i: int, j: int|
            q.blocks[b].start <= j < i < q.blocks[b].end && #[trigger] q.insts[i] is Phi
                implies #[trigger] q.insts[j] is Phi by {
            assert(p.inst_ok(i));
            assert(p.insts[i] is Phi);
            assert(p.insts[j] is Phi);
        }
    }
    assert forall|b: int|
        0 <= b < q.blocks.len() && (#[trigger] q.blocks[b]).term is None implies (b == d.current
        && !d.finished) || d.is_exit(b) by {
        if b != ctx.exit {
            assert(p.blocks[b].term is None);
            let k = choose|k: int| 0 <= k < c.loops.len() && (#[trigger] c.loops[k]).exit == b;
            assert(d.loops[k].exit == b);
        }
    }
    assert forall|i: int| 0 <= i < q.insts.len() implies match #[trigger] q.insts[i] {
        Inst::Phi { first, second } => second is None ==> d.is_open_phi(i),
        _ => true,
    } by {
        match q.insts[i] {
            Inst::Phi { first, second } => {
                if second is None {
                    assert(!(ctx.phis <= i < ctx.phis + n));
                    assert(q.insts[i] == p.insts[i]);
                    let k = choose|k: int|
                        0 <= k < c.loops.len() && (#[trigger] c.loops[k]).phis <= i
                            < c.loops[k].phis + c.width();
                    assert(k != last);
                    assert(d.loops[k].phis <= i < d.loops[k].phis + d.width());
                }
            },
            _ => {},
        }
    }
    let avail = choose|avail: Seq<Set<int>>| c.scoped_now(avail);
    assert(c.loop_scoped(avail, last));
    assert forall|b: int, i: int| 0 <= b < p.blocks.len() && #[trigger] p.holds(
        b,
        i,
    ) implies q.blocks[b].start == p.blocks[b].start by {
        assert(b != ctx.exit);
    }
    lemma_scoped_old(p, q, avail, avail, header);
    assert forall|a: int, b: int|
        0 <= a < q.blocks.len() && 0 <= b < q.blocks.len() && #[trigger] q.goes(
            a,
            b,
        ) implies q.passes(avail, a, b) by {
        if b == header {
            assert forall|x: int| #[trigger] avail[b].contains(x) implies q.ready(avail, a, x) by {
                if a == cur {
                    assert(p.ready(avail, header, x));
                    assert(p.ready(avail, cur, x));
                    assert(q.ready(avail, cur, x));
                } else {
                    assert(p.goes(a, header));
                    assert(p.passes(avail, a, header));
                    assert(p.ready(avail, a, x));
                    assert(q.ready(avail, a, x));
                }
            }
        }
    }
    assert forall|b: int, i: int| 0 <= b < q.blocks.len() && #[trigger] q.holds(
        b,
        i,
    ) implies q.uses_ready(avail, b, i) by {
        assert(p.block_ok(b));
        if b == header {
            let j = i - ctx.phis;
            assert(p.holds(header, i));
            assert(p.uses_ready(avail, header, i));
            assert(p.inst_ok(i));
            assert(c.top().len() == c.width());
            assert(q.insts[i] == ConverterView::link_back(p.insts, ctx, c.top(), c.current)[i]);
            assert(match p.insts[ctx.phis + j] {
                Inst::Phi { first, second } => second is None,
                _ => false,
            });
            match p.insts[i] {
                Inst::Phi { first, second } => {
                    assert(q.insts[i] == Inst::Phi {
                        first,
                        second: Some(Edge { value: c.top()[j], from: c.current }),
                    });
                    match first.value {
                        Value::Inst(x) => {
                            assert(p.ready(avail, first.from as int, x as int));
                            assert(q.ready(avail, first.from as int, x as int));
                        },
                        _ => {},
                    }
                    assert(p.value_ready(avail, cur, c.top()[j]));
                    match c.top()[j] {
                        Value::Inst(x) => {
                            assert(p.ready(avail, cur, x as int));
                            assert(q.ready(avail, cur, x as int));
                        },
                        _ => {},
                    }
                },
                _ => {},
            }
        }
    }
    assert forall|b: int| 0 <= b < q.blocks.len() implies #[trigger] q.test_ready(avail, b) by {
        if b != cur {
            assert(p.test_ready(avail, b));
            lemma_test_kept(p, q, avail, avail, b);
        }
    }
    assert(q.scoped(avail));
    assert forall|j: int| 0 <= j < d.width() implies q.value_ready(
        avail,
        d.current as int,
        #[trigger] d.top()[j],
    ) by {
        assert(d.top()[j] == Value::Inst((ctx.phis + j) as usize));
        assert(p.holds(header, ctx.phis + j));
        assert(p.ready(avail, header, ctx.phis + j));
        assert(avail[ctx.exit as int].contains(ctx.phis + j));
    }
    assert forall|b: int, i: int|
        0 <= b < p.blocks.len() && b != c.current implies #[trigger] q.holds(b, i) == p.holds(
        b,
        i,
    ) by {
        assert(p.block_ok(b));
    }
    lemma_headers_kept(c, d, avail, avail);
    assert forall|k: int| 0 <= k < d.loops.len() implies #[trigger] d.loop_scoped(avail, k) by {
        assert(c.loop_scoped(avail, k));
        assert(c.loops[k] == d.loops[k]);
        assert forall|x: int| #[trigger]
            p.ready(avail, c.loops[k].header as int, x) implies q.ready(
            avail,
            d.current as int,
            x,
        ) by {
            assert(c.enters(avail, c.loops[k].header as int, header));
            assert(avail[header].contains(x));
            assert(p.ready(avail, header, x));
            assert(avail[ctx.exit as int].contains(x));
        }
        lemma_loop_scoped_kept(c, d, avail, avail, k);
    }
    assert(d.scoped_now(avail));
}

/// The merge points of two open loops lie apart.
pub proof fn lemma_open_phis_apart(c: ConverterView, k: int, l: int, j: int)
    requires
        c.wf(),
        0 <= k < l < c.loops.len(),
        0 <= j < c.width(),
    ensures
        !(c.loops[l].phis <= c.loops[k].phis + j < c.loops[l].phis + c.width()),
{
    assert(c.loop_ok(k));
    assert(c.loop_ok(l));
    assert(c.phis_apart(k, l));
}

/// The generator stays in order through the end of the program, and the
/// program is then complete.
pub proof fn lemma_finalize_wf(c: ConverterView)
    requires
        c.wf(),
        !c.finished,
        c.loops.len() == 0,
        c.program.insts.len() + c.width() <= usize::MAX,
    ensures
        c.finalize().wf(),
        c.finalize().program.complete(),
{
    let d = c.finalize();
    let p = c.program;
    let q = d.program;
    assert(c.frame_ok(c.frames.len() - 1));
    assert(p.block_ok(c.current as int));
    assert(q.insts == p.insts + ConverterView::reports(c.top()));
    lemma_same_loops(c, d);
    let cur = c.current as int;
    assert forall|b: int, i: int|
        0 <= b < p.blocks.len() && 0 <= i < p.insts.len() implies #[trigger] q.holds(b, i)
        == p.holds(b, i) by {
        assert(p.block_ok(b));
    }
    assert forall|a: int, b: int|
        0 <= a < q.blocks.len() && 0 <= b < p.blocks.len() implies #[trigger] q.goes(a, b) == (a
        < p.blocks.len() && p.goes(a, b)) by {}
    lemma_linked_old(p, q, -1);
    assert forall|i: int| 0 <= i < q.insts.len() implies #[trigger] q.housed(i) by {
        if i >= p.insts.len() {
            assert(q.holds(cur, i));
        }
    }
    assert forall|b: int, e: int, i: int|
        0 <= b < q.blocks.len() && 0 <= e < q.blocks.len() && #[trigger] q.holds(b, i)
            && #[trigger] q.holds(e, i) implies b == e by {
        assert(p.block_ok(b));
        assert(p.block_ok(e));
    }
    assert forall|b: int, i: int| 0 <= b < q.blocks.len() && #[trigger] q.holds(b, i) implies q.fed(
        b,
        i,
    ) by {
        assert(p.block_ok(b));
        if i >= p.insts.len() {
            assert(q.insts[i] == ConverterView::reports(c.top())[i - p.insts.len()]);
        }
    }
    assert forall|b: int| 0 <= b < q.blocks.len() implies #[trigger] q.merges_first(b) by {
        assert(p.merges_first(b));
        assert(p.block_ok(b));
        assert forall|i: int, j: int|
            q.blocks[b].start <= j < i < q.blocks[b].end && #[trigger] q.insts[i] is Phi
                implies #[trigger] q.insts[j] is Phi by {
            if i >= p.insts.len() {
                assert(q.insts[i] == ConverterView::reports(c.top())[i - p.insts.len()]);
            } else {
                assert(p.insts[i] is Phi);
                assert(p.insts[j] is Phi);
            }
        }
    }
    assert forall|i: int| 0 <= i < q.insts.len() implies #[trigger] q.inst_ok(i) by {
        if i < p.insts.len() {
            assert(p.inst_ok(i));
        } else {
            assert(p.value_ok(c.top()[i - p.insts.len()]));
        }
    }
    assert forall|b: int| 0 <= b < q.blocks.len() implies #[trigger] q.block_ok(b) by {
        assert(p.block_ok(b));
    }
    assert forall|f: int| 0 <= f < d.frames.len() implies #[trigger] d.frame_ok(f) by {
        assert(c.frame_ok(f));
    }
    assert forall|b: int| 0 <= b < q.blocks.len() implies (#[trigger] q.blocks[b]).term is Some by {
        if b != c.current {
            assert(p.blocks[b].term is None ==> c.is_exit(b));
        }
    }
    assert forall|i: int| 0 <= i < q.insts.len() implies match #[trigger] q.insts[i] {
        Inst::Phi { first, second } => second is Some,
        _ => true,
    } by {
        if i < p.insts.len() {
            assert(q.insts[i] == p.insts[i]);
            match p.insts[i] {
                Inst::Phi { first, second } => {
                    assert(second is None ==> c.is_open_phi(i));
                },
                _ => {},
            }
        }
    }
    let avail = choose|avail: Seq<Set<int>>| c.scoped_now(avail);
    assert forall|b: int, i: int| 0 <= b < p.blocks.len() && #[trigger] p.holds(
        b,
        i,
    ) implies q.blocks[b].start == p.blocks[b].start by {}
    lemma_scoped_old(p, q, avail, avail, -1);
    assert forall|b: int, i: int| 0 <= b < q.blocks.len() && #[trigger] q.holds(
        b,
        i,
    ) implies q.uses_ready(avail, b, i) by {
        assert(p.block_ok(b));
        if i >= p.insts.len() {
            let j = i - p.insts.len();
            assert(q.insts[i] == ConverterView::reports(c.top())[j]);
            assert(p.value_ready(avail, cur, c.top()[j]));
        }
    }
    assert forall|b: int| 0 <= b < q.blocks.len() implies #[trigger] q.test_ready(avail, b) by {
        if b != cur {
            assert(p.test_ready(avail, b));
            lemma_test_kept(p, q, avail, avail, b);
        }
    }
    assert(q.scoped(avail));
    assert(d.scoped_now(avail));
}

} // verus!
