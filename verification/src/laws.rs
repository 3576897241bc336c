//! What holds of the generator and of the programs it builds, stated over
//! the statements of a source program.

use crate::convert::{lemma_index_of, results, BuildError, ConverterView};
use crate::ir::{Edge, Inst, Machine, OutcomeView};
use crate::meaning::{blocks_all, emit_all, insts_all, means_all, scoped_all, Node};
use crate::order::{lemma_finalize_wf, lemma_initial_wf};
use crate::refine::{
    accepted, at, generated, initial_state, leads, lemma_close_while_shape,
    lemma_emit_all_grown, lemma_emit_grown, lemma_generated_means, lemma_keeps_self,
    lemma_loop_parts, lemma_node_at, lemma_open_while_grown, lemma_open_while_shape, parts,
    reports_of, room, Stand,
};
use crate::token::{OneParamType, StatementView, TwoParamType};
use vstd::prelude::*;

verus! {

/// The generator after the statements of a stream, taken in order, or the
/// first refusal.
pub open spec fn replay(c: ConverterView, statements: Seq<StatementView>) -> Result<
    ConverterView,
    BuildError,
>
    decreases statements.len(),
{
    if statements.len() == 0 {
        Ok(c)
    } else {
        match statements[0].apply(c) {
            Ok(next) => replay(next, statements.skip(1)),
            Err(e) => Err(e),
        }
    }
}

/// The statements that a well-nested program is written with, in source
/// order: a loop is its head, its body and an `end`.
pub open spec fn written_as(names: Seq<Seq<char>>, node: Node) -> Seq<StatementView>
    decreases node,
{
    match node {
        Node::Incr(i) => seq![StatementView::OneParam { one: names[i], op: OneParamType::Incr }],
        Node::Decr(i) => seq![StatementView::OneParam { one: names[i], op: OneParamType::Decr }],
        Node::Clear(i) => seq![StatementView::OneParam { one: names[i], op: OneParamType::Clear }],
        Node::Copy { from, to } => seq![
            StatementView::TwoParam { one: names[from], two: names[to], kind: TwoParamType::Copy },
        ],
        Node::Skip => seq![StatementView::Fluff],
        Node::Loop { var, bound, body } => seq![
            StatementView::While { param: names[var], num: bound },
        ] + written_all(names, body) + seq![StatementView::End],
    }
}

/// The statements that a list of statements of a well-nested program is
/// written with.
pub open spec fn written_all(names: Seq<Seq<char>>, nodes: Seq<Node>) -> Seq<StatementView>
    decreases nodes,
{
    if nodes.len() == 0 {
        Seq::empty()
    } else {
        written_as(names, nodes[0]) + written_all(names, nodes.skip(1))
    }
}

/// Replaying one stream after another is replaying the two in a row.
pub proof fn lemma_replay_append(
    c: ConverterView,
    first: Seq<StatementView>,
    second: Seq<StatementView>,
)
    ensures
        replay(c, first + second) == match replay(c, first) {
            Ok(d) => replay(d, second),
            Err(e) => Err(e),
        },
    decreases first.len(),
{
    if first.len() == 0 {
        assert(first + second == second);
    } else {
        assert((first + second)[0] == first[0]);
        assert((first + second).skip(1) == first.skip(1) + second);
        match first[0].apply(c) {
            Ok(next) => {
                lemma_replay_append(next, first.skip(1), second);
            },
            Err(_) => {},
        }
    }
}

/// The generator takes every statement of a well-nested program whose
/// variables are in the table, and is left as the statement says.
pub proof fn lemma_replay_node(c: ConverterView, node: Node)
    requires
        c.wf(),
        !c.finished,
        node.scoped(c.width()),
        room(c, node.insts(c.width()), node.blocks()),
    ensures
        replay(c, written_as(c.program.names, node)) == Ok::<ConverterView, BuildError>(
            node.emit(c),
        ),
    decreases node,
{
    let names = c.program.names;
    let stream = written_as(names, node);
    reveal_with_fuel(replay, 2);
    match node {
        Node::Incr(i) => {
            lemma_index_of(names, names[i], i);
            assert(stream.skip(1) == Seq::<StatementView>::empty());
        },
        Node::Decr(i) => {
            lemma_index_of(names, names[i], i);
            assert(stream.skip(1) == Seq::<StatementView>::empty());
        },
        Node::Clear(i) => {
            lemma_index_of(names, names[i], i);
            assert(stream.skip(1) == Seq::<StatementView>::empty());
        },
        Node::Copy { from, to } => {
            lemma_index_of(names, names[from], from);
            lemma_index_of(names, names[to], to);
            assert(stream.skip(1) == Seq::<StatementView>::empty());
        },
        Node::Skip => {
            assert(stream.skip(1) == Seq::<StatementView>::empty());
        },
        Node::Loop { var, bound, body } => {
            lemma_index_of(names, names[var], var);
            let head = seq![StatementView::While { param: names[var], num: bound }];
            let end = seq![StatementView::End];
            let c1 = c.open_while(var, bound);
            lemma_open_while_grown(c, var, bound);
            lemma_emit_all_grown(c1, body);
            let c2 = emit_all(body, c1);
            assert(head.skip(1) == Seq::<StatementView>::empty());
            assert(replay(c, head) == Ok::<ConverterView, BuildError>(c1));
            lemma_replay_all(c1, body);
            assert(end.skip(1) == Seq::<StatementView>::empty());
            assert(c2.end_refused() is None);
            assert(replay(c2, end) == Ok::<ConverterView, BuildError>(c2.close_while()));
            lemma_replay_append(c, head, written_all(names, body));
            lemma_replay_append(c, head + written_all(names, body), end);
        },
    }
}

/// The generator takes every list of statements of a well-nested program
/// whose variables are in the table.
pub proof fn lemma_replay_all(c: ConverterView, nodes: Seq<Node>)
    requires
        c.wf(),
        !c.finished,
        scoped_all(nodes, c.width()),
        room(c, insts_all(nodes, c.width()), blocks_all(nodes)),
    ensures
        replay(c, written_all(c.program.names, nodes)) == Ok::<ConverterView, BuildError>(
            emit_all(nodes, c),
        ),
    decreases nodes,
{
    if nodes.len() > 0 {
        lemma_replay_node(c, nodes[0]);
        lemma_emit_grown(c, nodes[0]);
        let d = nodes[0].emit(c);
        lemma_replay_all(d, nodes.skip(1));
        lemma_replay_append(
            c,
            written_as(c.program.names, nodes[0]),
            written_all(c.program.names, nodes.skip(1)),
        );
    }
}

/// No statement of the list is a loop, nor holds one.
pub open spec fn straight(nodes: Seq<Node>) -> bool {
    forall|i: int| 0 <= i < nodes.len() ==> !(#[trigger] nodes[i] is Loop)
}

/// A program without loops ends, whatever the depth of the reckoning.
pub proof fn lemma_straight_ends(nodes: Seq<Node>, s: Seq<u64>, fuel: nat)
    requires
        straight(nodes),
    ensures
        means_all(nodes, s, fuel) is Some,
        means_all(nodes, s, fuel) == means_all(nodes, s, 0),
    decreases nodes,
{
    if nodes.len() > 0 {
        assert(!(nodes[0] is Loop));
        assert forall|i: int| 0 <= i < nodes.skip(1).len() implies !(#[trigger] nodes.skip(1)[i]
            is Loop) by {
            assert(nodes.skip(1)[i] == nodes[i + 1]);
        }
        lemma_straight_ends(nodes.skip(1), nodes[0].means(s, fuel)->0, fuel);
        lemma_straight_ends(nodes.skip(1), nodes[0].means(s, 0)->0, 0);
    }
}

/// The generator takes every well-nested program whose variables are in
/// the table, whatever its loops do when they run, and the program that
/// it has built at the end of the stream is complete.
pub proof fn lemma_programs_are_generated(
    names: Seq<Seq<char>>,
    inputs: Seq<Seq<char>>,
    program: Seq<Node>,
)
    requires
        accepted(names, inputs, program),
    ensures
        replay(
            ConverterView::initial(names, inputs),
            written_all(names, program) + seq![StatementView::EOF],
        ) == Ok::<ConverterView, BuildError>(generated(names, inputs, program)),
        generated(names, inputs, program).wf(),
        generated(names, inputs, program).program.complete(),
{
    let c = ConverterView::initial(names, inputs);
    lemma_initial_wf(names, inputs);
    lemma_replay_all(c, program);
    lemma_emit_all_grown(c, program);
    let e = emit_all(program, c);
    lemma_finalize_wf(e);
    let end = seq![StatementView::EOF];
    reveal_with_fuel(replay, 2);
    assert(end.skip(1) == Seq::<StatementView>::empty());
    assert(e.eof_refused() is None);
    assert(replay(e, end) == Ok::<ConverterView, BuildError>(e.finalize()));
    lemma_replay_append(c, written_all(names, program), end);
}

/// A program without loops reports, for each variable, the value that its
/// statements make of the initial value when they are applied in source
/// order, with `decr` stopping at zero.
pub proof fn lemma_straight_programs_report(
    names: Seq<Seq<char>>,
    inputs: Seq<Seq<char>>,
    program: Seq<Node>,
    args: Seq<u64>,
) -> (enough: nat)
    requires
        accepted(names, inputs, program),
        straight(program),
        args.len() == inputs.len(),
    ensures
        means_all(program, initial_state(names, inputs, args), 0) is Some,
        forall|f: nat|
            f >= enough ==> #[trigger] generated(names, inputs, program).program.run(args, f)
                == OutcomeView::Finished(
                reports_of(means_all(program, initial_state(names, inputs, args), 0)->0),
            ),
        forall|f: nat|
            f < enough ==> #[trigger] generated(names, inputs, program).program.run(args, f)
                == OutcomeView::OutOfFuel,
{
    lemma_straight_ends(program, initial_state(names, inputs, args), 0);
    lemma_generated_means(names, inputs, program, args, 0)
}

/// A loop that is opened inside the body of another takes the values of
/// the body at that point as the first edges of its merge points, from
/// the block of the body that it is opened in. When it is closed, the
/// enclosing loops and their frames are as they were before it, and the
/// live frame holds the merge points of the loop that was closed.
pub proof fn lemma_nested_loop(c: ConverterView, var: int, bound: i128, body: Seq<Node>)
    requires
        c.wf(),
        !c.finished,
        (Node::Loop { var, bound, body }).scoped(c.width()),
        room(
            c,
            (Node::Loop { var, bound, body }).insts(c.width()),
            (Node::Loop { var, bound, body }).blocks(),
        ),
    ensures
        ({
            let opened = c.open_while(var, bound);
            let closed = (Node::Loop { var, bound, body }).emit(c);
            let phis = c.next_inst();
            &&& opened.loops.len() == c.loops.len() + 1
            &&& opened.frames == c.frames.push(results(phis, c.width()))
            &&& forall|j: int|
                0 <= j < c.width() ==> #[trigger] opened.program.insts[phis + j] == (Inst::Phi {
                    first: Edge { value: c.top()[j], from: c.current },
                    second: None,
                })
            &&& closed.wf()
            &&& closed.loops == c.loops
            &&& closed.frames == c.frames.drop_last().push(results(phis, c.width()))
        }),
{
    let node = Node::Loop { var, bound, body };
    let opened = c.open_while(var, bound);
    let phis = c.next_inst();
    lemma_open_while_grown(c, var, bound);
    lemma_open_while_shape(c, var, bound);
    lemma_emit_grown(c, node);
    assert(c.frame_ok(c.frames.len() - 1));
    assert forall|j: int| 0 <= j < c.width() implies #[trigger] opened.program.insts[phis + j] == (
    Inst::Phi { first: Edge { value: c.top()[j], from: c.current }, second: None }) by {
        assert(opened.program.insts[phis + j] == ConverterView::merge_points(
            c.top(),
            c.current,
        )[j]);
    }
    let inner = emit_all(body, opened);
    lemma_emit_all_grown(opened, body);
    lemma_close_while_shape(inner);
    let closed = node.emit(c);
    assert(closed.frames == closed.frames.drop_last().push(closed.top()));
    assert(opened.frames == opened.frames.drop_last().push(opened.top()));
}

/// The visits of the head of a loop that ends: the values of the
/// variables at each of them, from the first on. At every visit but the
/// last the variable differs from the bound, and a run of the body leads
/// from its values to those of the next visit; the last is the first at
/// which the variable is the bound, and its values are those behind the
/// loop. A loop that is entered with the variable at the bound has one
/// visit, and its body is not run.
pub proof fn lemma_loop_visits(node: Node, s: Seq<u64>, fuel: nat) -> (visits: Seq<Seq<u64>>)
    requires
        node is Loop,
        node.means(s, fuel) is Some,
    ensures
        1 <= visits.len() <= fuel + 1,
        visits[0] == s,
        visits.last() == node.means(s, fuel)->0,
        visits.last()[node->var] == node->bound,
        s[node->var] == node->bound ==> visits.len() == 1,
        forall|k: int|
            0 <= k < visits.len() - 1 ==> (#[trigger] visits[k])[node->var] != node->bound
                && means_all(node->body, visits[k], (fuel - 1 - k) as nat) == Some(visits[k + 1]),
    decreases fuel,
{
    if s[node->var] == node->bound {
        seq![s]
    } else {
        let less = (fuel - 1) as nat;
        let next = means_all(node->body, s, less)->0;
        let rest = lemma_loop_visits(node, next, less);
        let visits = seq![s] + rest;
        assert(visits.last() == rest.last());
        assert forall|k: int| 0 <= k < visits.len() - 1 implies (#[trigger] visits[k])[node->var]
            != node->bound && means_all(node->body, visits[k], (fuel - 1 - k) as nat) == Some(
            visits[k + 1],
        ) by {
            if k > 0 {
                assert(visits[k] == rest[k - 1]);
                assert(visits[k + 1] == rest[k - 1 + 1]);
                assert((less - 1 - (k - 1)) as nat == (fuel - 1 - k) as nat);
            } else {
                assert(visits[1] == rest[0]);
            }
        }
        visits
    }
}

/// The code of a closed loop. Each merge point of the header has two
/// edges: the value of its variable from before the loop, along the edge
/// from the block before the loop, and the value at the end of the body,
/// along the edge from the last block of the body. A run that stands
/// before the loop comes to stand behind it, in the exit block, with the
/// variables at the values of the first visit of the header at which the
/// variable was the bound.
pub proof fn lemma_closed_loop(
    c: ConverterView,
    node: Node,
    args: Seq<u64>,
    pred: usize,
    m: Machine,
    after: Machine,
    s: Seq<u64>,
    fuel: nat,
) -> (r: (Stand, Seq<Seq<u64>>))
    requires
        c.wf(),
        !c.finished,
        node is Loop,
        node.scoped(c.width()),
        room(c, node.insts(c.width()), node.blocks()),
        at(node.emit(c).program, c, args, pred, m, after, s),
        node.means(s, fuel) is Some,
    ensures
        ({
            let l = parts(c, node);
            let q = node.emit(c).program;
            let (stand, visits) = r;
            &&& node.emit(c).current == l.exit
            &&& forall|j: int|
                0 <= j < c.width() ==> #[trigger] q.insts[l.phis + j] == (Inst::Phi {
                    first: Edge { value: c.top()[j], from: c.current },
                    second: Some(Edge { value: l.inside.top()[j], from: l.inside.current }),
                })
            &&& at(q, node.emit(c), args, stand.pred, stand.m, stand.after, visits.last())
            &&& leads(q, args, c.current, pred, m, stand.count, l.exit, stand.pred, stand.m)
            &&& visits.len() >= 1
            &&& visits[0] == s
            &&& visits.last()[node->var] == node->bound
            &&& forall|k: int|
                0 <= k < visits.len() - 1 ==> (#[trigger] visits[k])[node->var] != node->bound
                    && means_all(node->body, visits[k], (fuel - 1 - k) as nat) == Some(
                    visits[k + 1],
                )
        }),
{
    let q = node.emit(c).program;
    lemma_emit_grown(c, node);
    lemma_keeps_self(q, node.emit(c).current);
    lemma_loop_parts(q, c, node);
    let stand = lemma_node_at(q, c, node, args, pred, m, after, s, fuel);
    let visits = lemma_loop_visits(node, s, fuel);
    (stand, visits)
}

/// Copying a variable onto itself leaves the generator as it is.
pub proof fn lemma_copy_onto_itself(c: ConverterView, var: int)
    requires
        c.wf(),
        0 <= var < c.width(),
    ensures
        c.copy(var, var) == c,
{
    assert(c.frame_ok(c.frames.len() - 1));
    assert(c.top().update(var, c.top()[var]) == c.top());
    assert(c.frames.update(c.frames.len() - 1, c.top()) == c.frames);
}

} // verus!
