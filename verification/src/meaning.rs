//! What a source program means: the values of its variables after it has
//! run, defined on the program as a tree of statements.

use crate::convert::ConverterView;
use crate::ir::succ;
use vstd::prelude::*;

verus! {

/// A statement of a well-nested program, with each variable given by its
/// place in the variable table and each loop holding its body.
pub enum Node {
    Incr(int),
    Decr(int),
    Clear(int),
    Copy { from: int, to: int },
    /// A word without effect.
    Skip,
    Loop { var: int, bound: i128, body: Seq<Node> },
}

impl Node {
    /// Every variable of the statement is among the first `n`.
    pub open spec fn scoped(self, n: nat) -> bool
        decreases self,
    {
        match self {
            Node::Incr(i) => 0 <= i < n,
            Node::Decr(i) => 0 <= i < n,
            Node::Clear(i) => 0 <= i < n,
            Node::Copy { from, to } => 0 <= from < n && 0 <= to < n,
            Node::Skip => true,
            Node::Loop { var, bound, body } => 0 <= var < n && scoped_all(body, n),
        }
    }

    /// The values of the variables after the statement, from the values
    /// `s` before it. A loop runs its body as long as its variable
    /// differs from its bound; `fuel` bounds the depth of the reckoning,
    /// and `None` says that it did not suffice.
    pub open spec fn means(self, s: Seq<u64>, fuel: nat) -> Option<Seq<u64>>
        decreases fuel, self,
    {
        match self {
            Node::Incr(i) => Some(s.update(i, succ(s[i]))),
            Node::Decr(i) => Some(
                s.update(
                    i,
                    if s[i] == 0 {
                        0
                    } else {
                        (s[i] - 1) as u64
                    },
                ),
            ),
            Node::Clear(i) => Some(s.update(i, 0)),
            Node::Copy { from, to } => Some(s.update(to, s[from])),
            Node::Skip => Some(s),
            Node::Loop { var, bound, body } => {
                if s[var] == bound {
                    Some(s)
                } else if fuel == 0 {
                    None
                } else {
                    match means_all(body, s, (fuel - 1) as nat) {
                        Some(next) => self.means(next, (fuel - 1) as nat),
                        None => None,
                    }
                }
            },
        }
    }

    /// The number of instructions that the statement adds to a program
    /// of `n` variables.
    pub open spec fn insts(self, n: nat) -> nat
        decreases self,
    {
        match self {
            Node::Incr(_) => 1,
            Node::Decr(_) => 2,
            Node::Loop { var, bound, body } => n + insts_all(body, n),
            _ => 0,
        }
    }

    /// The number of blocks that the statement adds to a program.
    pub open spec fn blocks(self) -> nat
        decreases self,
    {
        match self {
            Node::Decr(_) => 2,
            Node::Loop { var, bound, body } => 3 + blocks_all(body),
            _ => 0,
        }
    }

    /// The generator after the statement.
    pub open spec fn emit(self, c: ConverterView) -> ConverterView
        decreases self,
    {
        match self {
            Node::Incr(i) => c.incr(i),
            Node::Decr(i) => c.decr(i),
            Node::Clear(i) => c.clear(i),
            Node::Copy { from, to } => c.copy(from, to),
            Node::Skip => c,
            Node::Loop { var, bound, body } => emit_all(body, c.open_while(var, bound)).close_while(),
        }
    }
}

/// Every variable of the statements is among the first `n`.
pub open spec fn scoped_all(nodes: Seq<Node>, n: nat) -> bool
    decreases nodes,
{
    nodes.len() == 0 || (nodes[0].scoped(n) && scoped_all(nodes.skip(1), n))
}

/// The values of the variables after the statements, run in order.
pub open spec fn means_all(nodes: Seq<Node>, s: Seq<u64>, fuel: nat) -> Option<Seq<u64>>
    decreases fuel, nodes,
{
    if nodes.len() == 0 {
        Some(s)
    } else {
        match nodes[0].means(s, fuel) {
            Some(next) => means_all(nodes.skip(1), next, fuel),
            None => None,
        }
    }
}

/// The number of instructions that the statements add to a program of `n`
/// variables.
pub open spec fn insts_all(nodes: Seq<Node>, n: nat) -> nat
    decreases nodes,
{
    if nodes.len() == 0 {
        0
    } else {
        nodes[0].insts(n) + insts_all(nodes.skip(1), n)
    }
}

/// The number of blocks that the statements add to a program.
pub open spec fn blocks_all(nodes: Seq<Node>) -> nat
    decreases nodes,
{
    if nodes.len() == 0 {
        0
    } else {
        nodes[0].blocks() + blocks_all(nodes.skip(1))
    }
}

/// The generator after the statements, taken in order.
pub open spec fn emit_all(nodes: Seq<Node>, c: ConverterView) -> ConverterView
    decreases nodes,
{
    if nodes.len() == 0 {
        c
    } else {
        emit_all(nodes.skip(1), nodes[0].emit(c))
    }
}

} // verus!
