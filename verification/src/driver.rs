//! From source text to a program: the statements of the text, the table
//! of its variables, and the replay of the statements into the generator.

use crate::chars::chars_of;
use crate::convert::{
    distinct, index_of, slice_texts, BuildError, Converter, ConverterView,
};
use crate::ir::{Program, ProgramView};
use crate::laws::{lemma_programs_are_generated, replay, written_all};
use crate::meaning::Node;
use crate::refine::{accepted, generated};
use crate::lexer::{lex, LexError, LexErrorView, Lexer};
use crate::token::{NotAStatement, Statement, StatementView, TokenView};
use vstd::prelude::*;

verus! {

/// The text `a` comes before the text `b` in the order of a dictionary,
/// character by character: at the first place where they differ `a` has
/// the smaller character, or `a` ends there and `b` goes on.
pub open spec fn precedes(a: Seq<char>, b: Seq<char>) -> bool {
    exists|k: int| #[trigger] differ_at(a, b, k) && (k == a.len() || a[k] < b[k])
}

/// The texts `a` and `b` are the same before the place `k`, which lies
/// inside `b`, and differ there.
pub open spec fn differ_at(a: Seq<char>, b: Seq<char>, k: int) -> bool {
    &&& 0 <= k <= a.len()
    &&& k < b.len()
    &&& a.take(k) == b.take(k)
    &&& k < a.len() ==> a[k] != b[k]
}

/// How two texts stand in the order of a dictionary.
#[derive(Debug, PartialEq, Eq, Clone, Copy)]
pub enum Place {
    Before,
    Same,
    After,
}

/// Tells how `a` stands to `b` in the order of a dictionary.
pub fn place(a: &str, b: &str) -> (r: Place)
    ensures
        match r {
            Place::Before => precedes(a@, b@),
            Place::Same => a@ == b@,
            Place::After => precedes(b@, a@),
        },
{
    let x = chars_of(a);
    let y = chars_of(b);
    let mut k: usize = 0;
    while k < x.len() && k < y.len()
        invariant
            k <= x.len(),
            k <= y.len(),
            x@ == a@,
            y@ == b@,
            x@.take(k as int) == y@.take(k as int),
        decreases x.len() - k,
    {
        if x[k] != y[k] {
            if x[k] < y[k] {
                assert(differ_at(a@, b@, k as int));
                assert(a@[k as int] < b@[k as int]);
                return Place::Before;
            } else {
                assert(differ_at(b@, a@, k as int));
                assert(b@[k as int] < a@[k as int]);
                return Place::After;
            }
        }
        assert(x@.take(k + 1) == x@.take(k as int).push(x@[k as int]));
        assert(y@.take(k + 1) == y@.take(k as int).push(y@[k as int]));
        k += 1;
    }
    if k < y.len() {
        assert(differ_at(a@, b@, k as int));
        Place::Before
    } else if k < x.len() {
        assert(differ_at(b@, a@, k as int));
        Place::After
    } else {
        assert(x@.take(k as int) == x@);
        assert(y@.take(k as int) == y@);
        Place::Same
    }
}

/// No text comes before itself.
pub proof fn lemma_precedes_not_itself(a: Seq<char>)
    ensures
        !precedes(a, a),
{
}

/// What comes before a text comes before all that the text comes before.
pub proof fn lemma_precedes_on(a: Seq<char>, b: Seq<char>, c: Seq<char>)
    requires
        precedes(a, b),
        precedes(b, c),
    ensures
        precedes(a, c),
{
    let i = choose|k: int| #[trigger] differ_at(a, b, k) && (k == a.len() || a[k] < b[k]);
    let j = choose|k: int| #[trigger] differ_at(b, c, k) && (k == b.len() || b[k] < c[k]);
    let k = if i <= j {
        i
    } else {
        j
    };
    assert(a.take(k) == c.take(k)) by {
        assert(a.take(i).take(k) == a.take(k));
        assert(b.take(i).take(k) == b.take(k));
        assert(b.take(j).take(k) == b.take(k));
        assert(c.take(j).take(k) == c.take(k));
    }
    if k < a.len() {
        if i < j {
            assert(b.take(j)[i] == c.take(j)[i]);
        } else if j < i {
            assert(a.take(i)[j] == b.take(i)[j]);
        }
    }
    assert(differ_at(a, c, k));
}

/// Each text comes before all that follow it.
pub open spec fn ascending(names: Seq<Seq<char>>) -> bool {
    forall|i: int, j: int| 0 <= i < j < names.len() ==> precedes(names[i], names[j])
}

/// A table in ascending order names nothing twice.
pub proof fn lemma_ascending_distinct(names: Seq<Seq<char>>)
    requires
        ascending(names),
    ensures
        distinct(names),
{
    assert forall|i: int, j: int| 0 <= i < j < names.len() implies names[i] != names[j] by {
        assert(precedes(names[i], names[j]));
        lemma_precedes_not_itself(names[i]);
    }
}

/// The name is a variable of one of the statements.
pub open spec fn named_in(statements: Seq<StatementView>, name: Seq<char>) -> bool {
    exists|k: int|
        0 <= k < statements.len() && (#[trigger] statements[k]).variables().contains(name)
}

/// The table is that of the statements: it holds the variables that they
/// name and nothing else, in ascending order.
pub open spec fn is_table(names: Seq<Seq<char>>, statements: Seq<StatementView>) -> bool {
    &&& ascending(names)
    &&& forall|name: Seq<char>| names.contains(name) <==> named_in(statements, name)
}

/// The table of the variables of the statements.
pub open spec fn table_of(statements: Seq<StatementView>) -> Seq<Seq<char>> {
    choose|names: Seq<Seq<char>>| is_table(names, statements)
}

/// Two tables in ascending order that hold the same names are the same.
pub proof fn lemma_ascending_unique(a: Seq<Seq<char>>, b: Seq<Seq<char>>)
    requires
        ascending(a),
        ascending(b),
        forall|name: Seq<char>| a.contains(name) <==> b.contains(name),
    ensures
        a == b,
    decreases a.len(),
{
    if a.len() == 0 {
        if b.len() > 0 {
            assert(b.contains(b[0]));
        }
    } else if b.len() == 0 {
        assert(a.contains(a[0]));
    } else {
        assert(a.contains(a[0]));
        assert(b.contains(b[0]));
        let j = choose|j: int| 0 <= j < b.len() && b[j] == a[0];
        let i = choose|i: int| 0 <= i < a.len() && a[i] == b[0];
        if j > 0 {
            assert(precedes(b[0], b[j]));
            if i > 0 {
                assert(precedes(a[0], a[i]));
                lemma_precedes_on(a[0], b[0], a[0]);
            }
            lemma_precedes_not_itself(a[0]);
        }
        let x = a.skip(1);
        let y = b.skip(1);
        assert forall|name: Seq<char>| x.contains(name) <==> y.contains(name) by {
            if x.contains(name) {
                let w = choose|w: int| 0 <= w < x.len() && x[w] == name;
                assert(a[w + 1] == name);
                assert(a.contains(name));
                assert(precedes(a[0], a[w + 1]));
                lemma_precedes_not_itself(a[0]);
                let v = choose|v: int| 0 <= v < b.len() && b[v] == name;
                assert(y[v - 1] == name);
            }
            if y.contains(name) {
                let w = choose|w: int| 0 <= w < y.len() && y[w] == name;
                assert(b[w + 1] == name);
                assert(b.contains(name));
                assert(precedes(b[0], b[w + 1]));
                lemma_precedes_not_itself(b[0]);
                let v = choose|v: int| 0 <= v < a.len() && a[v] == name;
                assert(x[v - 1] == name);
            }
        }
        assert forall|p: int, q: int| 0 <= p < q < x.len() implies precedes(x[p], x[q]) by {
            assert(precedes(a[p + 1], a[q + 1]));
        }
        assert forall|p: int, q: int| 0 <= p < q < y.len() implies precedes(y[p], y[q]) by {
            assert(precedes(b[p + 1], b[q + 1]));
        }
        lemma_ascending_unique(x, y);
        assert(a == seq![a[0]] + x);
        assert(b == seq![b[0]] + y);
    }
}

/// A table of the statements is the table of the statements.
pub proof fn lemma_table_of(names: Seq<Seq<char>>, statements: Seq<StatementView>)
    requires
        is_table(names, statements),
    ensures
        table_of(statements) == names,
{
    lemma_ascending_unique(table_of(statements), names);
}

/// The statements of a list, each with its names as sequences of
/// characters.
pub open spec fn views(statements: Seq<Statement>) -> Seq<StatementView> {
    Seq::new(statements.len(), |i: int| statements[i]@)
}

/// Puts `name` into the table `table`, which is in ascending order, at
/// its place, unless it is there.
fn enter<'a>(table: &mut Vec<&'a str>, name: &'a str)
    requires
        ascending(slice_texts(old(table)@)),
    ensures
        ascending(slice_texts(final(table)@)),
        forall|other: Seq<char>|
            slice_texts(final(table)@).contains(other) <==> (other == name@ || slice_texts(
                old(table)@,
            ).contains(other)),
{
    let ghost before = slice_texts(table@);
    let mut i: usize = 0;
    let mut passed = false;
    while i < table.len() && !passed
        invariant
            i <= table.len(),
            table@ == old(table)@,
            before == slice_texts(table@),
            ascending(before),
            forall|j: int| 0 <= j < i ==> precedes(#[trigger] before[j], name@),
            passed ==> i < table.len() && precedes(name@, before[i as int]),
        decreases table.len() - i + if passed { 0int } else { 1int },
    {
        match place(table[i], name) {
            Place::Before => {
                assert(before[i as int] == table[i as int]@);
                i += 1;
            },
            Place::Same => {
                assert(before[i as int] == name@);
                assert forall|other: Seq<char>|
                    slice_texts(table@).contains(other) <==> (other == name@ || before.contains(
                        other,
                    )) by {}
                return ;
            },
            Place::After => {
                assert(before[i as int] == table[i as int]@);
                passed = true;
            },
        }
    }
    table.insert(i, name);
    proof {
        let after = slice_texts(table@);
        assert(after == before.insert(i as int, name@));
        assert forall|a: int, b: int| 0 <= a < b < after.len() implies precedes(
            after[a],
            after[b],
        ) by {
            if b < i {
                assert(precedes(before[a], before[b]));
            } else if b == i {
                assert(precedes(before[a], name@));
            } else if a < i {
                assert(precedes(before[a], before[b - 1]));
            } else if a == i {
                assert(precedes(name@, before[i as int]));
                if b - 1 > i {
                    assert(precedes(before[i as int], before[b - 1]));
                    lemma_precedes_on(name@, before[i as int], before[b - 1]);
                }
            } else {
                assert(precedes(before[a - 1], before[b - 1]));
            }
        }
        assert forall|other: Seq<char>|
            after.contains(other) <==> (other == name@ || before.contains(other)) by {
            if after.contains(other) {
                let w = choose|w: int| 0 <= w < after.len() && after[w] == other;
                if w < i {
                    assert(before[w] == other);
                } else if w > i {
                    assert(before[w - 1] == other);
                }
            }
            if other == name@ {
                assert(after[i as int] == other);
            }
            if before.contains(other) {
                let w = choose|w: int| 0 <= w < before.len() && before[w] == other;
                if w < i {
                    assert(after[w] == other);
                } else {
                    assert(after[w + 1] == other);
                }
            }
        }
    }
}

/// The table of the variables that the statements name: each of them
/// once, in the order of a dictionary.
pub fn collect_variables<'a>(statements: &Vec<Statement<'a>>) -> (r: Vec<&'a str>)
    ensures
        is_table(slice_texts(r@), views(statements@)),
        slice_texts(r@) == table_of(views(statements@)),
{
    let mut table: Vec<&'a str> = Vec::new();
    let mut k: usize = 0;
    assert(views(statements@).take(0) == Seq::<StatementView>::empty());
    while k < statements.len()
        invariant
            k <= statements.len(),
            ascending(slice_texts(table@)),
            forall|name: Seq<char>|
                slice_texts(table@).contains(name) <==> named_in(
                    views(statements@).take(k as int),
                    name,
                ),
        decreases statements.len() - k,
    {
        let names = statements[k].get_variables();
        let ghost all = views(statements@);
        let ghost wanted = all[k as int].variables();
        let ghost start = slice_texts(table@);
        let mut j: usize = 0;
        while j < names.len()
            invariant
                j <= names.len(),
                slice_texts(names@) == wanted,
                ascending(slice_texts(table@)),
                forall|name: Seq<char>|
                    slice_texts(table@).contains(name) <==> (start.contains(name) || wanted.take(
                        j as int,
                    ).contains(name)),
            decreases names.len() - j,
        {
            let ghost before = slice_texts(table@);
            assert forall|name: Seq<char>| #[trigger]
                before.contains(name) <==> (start.contains(name) || wanted.take(
                    j as int,
                ).contains(name)) by {}
            enter(&mut table, names[j]);
            proof {
                assert(wanted[j as int] == names[j as int]@);
                assert(wanted.take(j + 1) == wanted.take(j as int).push(wanted[j as int]));
                let fewer = wanted.take(j as int);
                let more = wanted.take(j + 1);
                assert forall|name: Seq<char>|
                    slice_texts(table@).contains(name) <==> (start.contains(name) || more.contains(
                        name,
                    )) by {
                    assert(slice_texts(table@).contains(name) <==> (name == names[j as int]@
                        || before.contains(name)));
                    assert(before.contains(name) <==> (start.contains(name) || fewer.contains(
                        name,
                    )));
                    if more.contains(name) {
                        let w = choose|w: int| 0 <= w < more.len() && more[w] == name;
                        if w < j {
                            assert(fewer[w] == name);
                        }
                    }
                    if fewer.contains(name) {
                        let w = choose|w: int| 0 <= w < fewer.len() && fewer[w] == name;
                        assert(more[w] == name);
                    }
                    if name == wanted[j as int] {
                        assert(more[j as int] == name);
                    }
                }
            }
            j += 1;
        }
        proof {
            assert(wanted.take(j as int) == wanted);
            let shorter = all.take(k as int);
            let longer = all.take(k + 1);
            assert(longer[k as int] == all[k as int]);
            assert forall|name: Seq<char>|
                slice_texts(table@).contains(name) <==> named_in(longer, name) by {
                assert(slice_texts(table@).contains(name) <==> (start.contains(name)
                    || wanted.contains(name)));
                assert(start.contains(name) <==> named_in(shorter, name));
                if named_in(longer, name) {
                    let w = choose|w: int|
                        0 <= w < longer.len() && (#[trigger] longer[w]).variables().contains(name);
                    if w < k {
                        assert(shorter[w].variables().contains(name));
                    }
                }
                if named_in(shorter, name) {
                    let w = choose|w: int|
                        0 <= w < shorter.len() && (#[trigger] shorter[w]).variables().contains(
                            name,
                        );
                    assert(longer[w].variables().contains(name));
                }
                if wanted.contains(name) {
                    assert(longer[k as int].variables().contains(name));
                }
            }
        }
        k += 1;
    }
    assert(views(statements@).take(k as int) == views(statements@));
    proof {
        lemma_table_of(slice_texts(table@), views(statements@));
    }
    table
}

/// Why a text is no program.
#[derive(Debug, PartialEq, Eq, Clone, Copy)]
pub enum ParseError<'a> {
    /// The lexer found no token.
    Lex(LexError<'a>),
    /// A number or a name stands where a statement is expected.
    Statement(NotAStatement<'a>),
}

/// Why a text is no program, with each word as the sequence of its
/// characters.
pub enum ParseErrorView {
    Lex(LexErrorView),
    Statement(TokenView),
}

impl<'a> View for ParseError<'a> {
    type V = ParseErrorView;

    open spec fn view(&self) -> ParseErrorView {
        match *self {
            ParseError::Lex(e) => ParseErrorView::Lex(e@),
            ParseError::Statement(e) => ParseErrorView::Statement(e.token@),
        }
    }
}

/// The statements of the text from `pos` on, up to the end of the input,
/// which is the last of them; or the first error. The test on places
/// guards the definition only: a token that is not the end of the input
/// ends behind the place where it was looked for.
pub open spec fn statements_from(input: Seq<char>, pos: int) -> Result<
    Seq<StatementView>,
    ParseErrorView,
>
    decreases input.len() - pos,
{
    let step = lex(input, pos);
    match step.result {
        Err(e) => Err(ParseErrorView::Lex(e)),
        Ok(token) => match StatementView::of(token) {
            None => Err(ParseErrorView::Statement(token)),
            Some(StatementView::EOF) => Ok(seq![StatementView::EOF]),
            Some(statement) => if pos < step.pos <= input.len() {
                match statements_from(input, step.pos) {
                    Ok(rest) => Ok(seq![statement] + rest),
                    Err(e) => Err(e),
                }
            } else {
                Ok(seq![statement])
            },
        },
    }
}

/// The statements with the variables given by their names.
pub open spec fn parsed_view<'a>(r: Result<Vec<Statement<'a>>, ParseError<'a>>) -> Result<
    Seq<StatementView>,
    ParseErrorView,
> {
    match r {
        Ok(statements) => Ok(views(statements@)),
        Err(e) => Err(e@),
    }
}

/// Reads the statements of a source text, up to the end of the input.
pub fn tokenize<'a>(source: &'a str) -> (r: Result<Vec<Statement<'a>>, ParseError<'a>>)
    ensures
        parsed_view(r) == statements_from(source@, 0),
{
    let mut lexer = Lexer::new(source);
    let mut statements: Vec<Statement<'a>> = Vec::new();
    loop
        invariant
            lexer.wf(),
            lexer.text() == source@,
            0 <= lexer.position() <= source@.len(),
            statements_from(source@, 0) == match statements_from(source@, lexer.position()) {
                Ok(rest) => Ok::<Seq<StatementView>, ParseErrorView>(views(statements@) + rest),
                Err(e) => Err(e),
            },
        decreases source@.len() - lexer.position(),
    {
        let ghost pos = lexer.position();
        let ghost done = views(statements@);
        let token = match lexer.get_token() {
            Ok(token) => token,
            Err(e) => {
                return Err(ParseError::Lex(e));
            },
        };
        let statement = match Statement::try_from(token) {
            Ok(statement) => statement,
            Err(e) => {
                return Err(ParseError::Statement(e));
            },
        };
        statements.push(statement);
        assert(views(statements@) == done + seq![statement@]);
        match statement {
            Statement::EOF => {
                return Ok(statements);
            },
            _ => {},
        }
        proof {
            match statements_from(source@, lexer.position()) {
                Ok(rest) => {
                    assert(done + (seq![statement@] + rest) == views(statements@) + rest);
                },
                Err(_) => {},
            }
        }
    }
}

/// The generator after the statements, for the table of their variables
/// and no inputs; or the first refusal.
pub open spec fn built(statements: Seq<StatementView>) -> Result<ConverterView, BuildError> {
    match ConverterView::create(table_of(statements), Seq::empty()) {
        Ok(c) => replay(c, statements),
        Err(e) => Err(e),
    }
}

/// Replays the statements into a generator for the table of their
/// variables.
pub fn generate<'a>(statements: &Vec<Statement<'a>>) -> (r: Result<Converter, BuildError>)
    ensures
        match built(views(statements@)) {
            Ok(c) => r is Ok && r->Ok_0.wf() && r->Ok_0@ == c,
            Err(e) => r == Err::<Converter, BuildError>(e),
        },
{
    let variables = collect_variables(statements);
    let inputs: Vec<&str> = Vec::new();
    assert(slice_texts(inputs@) == Seq::<Seq<char>>::empty());
    let mut converter = match Converter::new(variables, &inputs) {
        Ok(c) => c,
        Err(e) => {
            return Err(e);
        },
    };
    let ghost all = views(statements@);
    let ghost first = converter@;
    let mut k: usize = 0;
    assert(all.skip(0) == all);
    while k < statements.len()
        invariant
            k <= statements.len(),
            converter.wf(),
            all == views(statements@),
            built(all) == replay(first, all),
            replay(converter@, all.skip(k as int)) == replay(first, all),
        decreases statements.len() - k,
    {
        let ghost rest = all.skip(k as int);
        let ghost before = converter@;
        assert(rest[0] == statements[k as int]@);
        assert(rest.skip(1) == all.skip(k + 1));
        assert(replay(before, rest) == replay(first, all));
        assert(replay(before, rest) == match rest[0].apply(before) {
            Ok(next) => replay(next, rest.skip(1)),
            Err(e) => Err(e),
        });
        match statements[k].compile(&mut converter) {
            Ok(()) => {},
            Err(e) => {
                return Err(e);
            },
        }
        k += 1;
    }
    assert(all.skip(k as int).len() == 0);
    Ok(converter)
}

/// The table of the statements holds every variable that the generator
/// is asked for, and holds none twice: the statements are never refused
/// for a variable.
pub proof fn lemma_built_knows(statements: Seq<StatementView>)
    requires
        exists|names: Seq<Seq<char>>| is_table(names, statements),
    ensures
        built(statements) != Err::<ConverterView, BuildError>(BuildError::UnknownVariable),
        built(statements) != Err::<ConverterView, BuildError>(BuildError::DuplicateVariable),
        ConverterView::create(table_of(statements), Seq::empty()) is Ok,
{
    let names = table_of(statements);
    lemma_ascending_distinct(names);
    let c = ConverterView::initial(names, Seq::empty());
    assert forall|k: int, name: Seq<char>|
        0 <= k < statements.len() && #[trigger] statements[k].variables().contains(
            name,
        ) implies names.contains(name) by {
        assert(named_in(statements, name));
    }
    lemma_replay_knows(c, statements);
}

/// Where the table of the generator holds every variable of the
/// statements, none of them is refused for a variable.
pub proof fn lemma_replay_knows(c: ConverterView, statements: Seq<StatementView>)
    requires
        forall|k: int, name: Seq<char>|
            0 <= k < statements.len() && #[trigger] statements[k].variables().contains(name)
                ==> c.program.names.contains(name),
    ensures
        replay(c, statements) != Err::<ConverterView, BuildError>(BuildError::UnknownVariable),
        replay(c, statements) != Err::<ConverterView, BuildError>(BuildError::DuplicateVariable),
    decreases statements.len(),
{
    if statements.len() > 0 {
        let head = statements[0];
        let names = c.program.names;
        assert(replay(c, statements) == match head.apply(c) {
            Ok(next) => replay(next, statements.skip(1)),
            Err(e) => Err(e),
        });
        assert forall|name: Seq<char>| head.variables().contains(name) implies index_of(
            names,
            name,
        ) is Some by {
            assert(names.contains(name));
            let w = choose|w: int| 0 <= w < names.len() && names[w] == name;
            assert(names[w] == name);
        }
        match head {
            StatementView::While { param, num } => {
                assert(head.variables()[0] == param);
                assert(head.variables().contains(param));
                assert(index_of(names, param) is Some);
            },
            StatementView::TwoParam { one, two, kind } => {
                assert(head.variables()[0] == one);
                assert(head.variables()[1] == two);
                assert(head.variables().contains(one));
                assert(head.variables().contains(two));
                assert(index_of(names, one) is Some);
                assert(index_of(names, two) is Some);
            },
            StatementView::OneParam { one, op } => {
                assert(head.variables()[0] == one);
                assert(head.variables().contains(one));
                assert(index_of(names, one) is Some);
            },
            _ => {},
        }
        match head.apply(c) {
            Ok(next) => {
                assert(next.program.names == names);
                let rest = statements.skip(1);
                assert forall|k: int, name: Seq<char>|
                    0 <= k < rest.len() && #[trigger] rest[k].variables().contains(
                        name,
                    ) implies next.program.names.contains(name) by {
                    assert(rest[k] == statements[k + 1]);
                    assert(statements[k + 1].variables().contains(name));
                }
                lemma_replay_knows(next, statements.skip(1));
            },
            Err(_) => {},
        }
    }
}

/// The statements of a well-nested program, replayed for their own table
/// of variables, leave the generator as the program says: with its code
/// emitted and the program finished.
pub proof fn lemma_built_is_generated(names: Seq<Seq<char>>, program: Seq<Node>)
    requires
        accepted(names, Seq::empty(), program),
        is_table(names, written_all(names, program) + seq![StatementView::EOF]),
    ensures
        built(written_all(names, program) + seq![StatementView::EOF]) == Ok::<
            ConverterView,
            BuildError,
        >(generated(names, Seq::empty(), program)),
{
    lemma_table_of(names, written_all(names, program) + seq![StatementView::EOF]);
    lemma_programs_are_generated(names, Seq::empty(), program);
}

/// Why a text was not compiled.
#[derive(Debug, PartialEq, Eq, Clone, Copy)]
pub enum CompileError<'a> {
    Parse(ParseError<'a>),
    Build(BuildError),
}

/// Why a text was not compiled, with each word as the sequence of its
/// characters.
pub enum CompileErrorView {
    Parse(ParseErrorView),
    Build(BuildError),
}

/// The program of a source text, or why it has none.
pub open spec fn compiled(source: Seq<char>) -> Result<ProgramView, CompileErrorView> {
    match statements_from(source, 0) {
        Err(e) => Err(CompileErrorView::Parse(e)),
        Ok(statements) => match built(statements) {
            Ok(c) => Ok(c.program),
            Err(e) => Err(CompileErrorView::Build(e)),
        },
    }
}

/// Compiles a source text: reads its statements, makes the table of its
/// variables and replays the statements into the generator.
pub fn compile<'a>(source: &'a str) -> (r: Result<Program, CompileError<'a>>)
    ensures
        match compiled(source@) {
            Ok(p) => r is Ok && r->Ok_0@ == p,
            Err(CompileErrorView::Parse(e)) => r is Err && r->Err_0 is Parse && r->Err_0->Parse_0@
                == e,
            Err(CompileErrorView::Build(e)) => r == Err::<Program, CompileError<'a>>(
                CompileError::Build(e),
            ),
        },
{
    let statements = match tokenize(source) {
        Ok(statements) => statements,
        Err(e) => {
            return Err(CompileError::Parse(e));
        },
    };
    match generate(&statements) {
        Ok(converter) => Ok(converter.into_program()),
        Err(e) => Err(CompileError::Build(e)),
    }
}

} // verus!
