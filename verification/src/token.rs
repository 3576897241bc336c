//! Tokens and statements of the source language.

use crate::chars::{is_keyword, spells};
use crate::convert::{slice_texts, BuildError, Converter, ConverterView};
use crate::pattern::{found, is_match};
use vstd::prelude::*;

verus! {

/// The pattern of an identifier: a letter, then word characters, from the
/// start of the word to its end.
pub const IDENTIFIER_PATTERN: &'static str = "^[a-zA-Z]\\w*$";

/// The pattern of an integer literal: one decimal digit or more, from the
/// start of the word to its end.
pub const NUMBER_PATTERN: &'static str = "^[0-9]+$";

/// A kind of token that a single word can announce.
pub trait TokenImpl {
    /// The words that announce this kind of token.
    spec fn recognizes(word: Seq<char>) -> bool;

    /// Tells whether `ident` announces this kind of token.
    fn identify(ident: &str) -> (r: bool)
        ensures
            r == Self::recognizes(ident@),
    ;
}

/// A variable name.
#[derive(Debug, PartialEq, Eq, PartialOrd, Ord, Clone, Copy)]
pub struct Identifier<'b> {
    pub ident: &'b str,
}

impl<'b> View for Identifier<'b> {
    type V = Seq<char>;

    open spec fn view(&self) -> Seq<char> {
        self.ident@
    }
}

impl<'b> TokenImpl for Identifier<'b> {
    open spec fn recognizes(word: Seq<char>) -> bool {
        found(IDENTIFIER_PATTERN@, word)
    }

    fn identify(ident: &str) -> (r: bool) {
        is_match(IDENTIFIER_PATTERN, ident)
    }
}

/// An integer literal.
#[derive(Debug, PartialEq, Eq, PartialOrd, Ord, Clone, Copy)]
pub struct Number {
    pub value: i128,
}

impl TokenImpl for Number {
    open spec fn recognizes(word: Seq<char>) -> bool {
        found(NUMBER_PATTERN@, word)
    }

    fn identify(ident: &str) -> (r: bool) {
        is_match(NUMBER_PATTERN, ident)
    }
}

/// The head of a loop: the variable it watches and the bound it stops at.
#[derive(Debug, PartialEq, Eq, PartialOrd, Ord, Clone, Copy)]
pub struct While<'b> {
    pub param: Identifier<'b>,
    pub num: Number,
}

impl<'b> TokenImpl for While<'b> {
    open spec fn recognizes(word: Seq<char>) -> bool {
        is_keyword(word, "while"@)
    }

    fn identify(ident: &str) -> (r: bool) {
        spells(ident, "while")
    }
}

/// The statements with two operands.
#[derive(Debug, PartialEq, Eq, PartialOrd, Ord, Clone, Copy, Structural)]
pub enum TwoParamType {
    Copy,
}

impl TwoParamType {
    /// The kind that `word` names, if any.
    pub open spec fn of(word: Seq<char>) -> Option<TwoParamType> {
        if is_keyword(word, "copy"@) {
            Some(TwoParamType::Copy)
        } else {
            None
        }
    }

    /// Reads the keyword of a statement with two operands.
    pub fn from_str(s: &str) -> (r: Result<TwoParamType, ()>)
        ensures
            r.ok() == Self::of(s@),
    {
        if spells(s, "copy") {
            Ok(TwoParamType::Copy)
        } else {
            Err(())
        }
    }
}

/// A statement with two operands.
#[derive(Debug, PartialEq, Eq, PartialOrd, Ord, Clone, Copy)]
pub struct TwoParam<'b> {
    pub one: Identifier<'b>,
    pub two: Identifier<'b>,
    pub ty: TwoParamType,
}

impl<'b> TokenImpl for TwoParam<'b> {
    open spec fn recognizes(word: Seq<char>) -> bool {
        TwoParamType::of(word) is Some
    }

    fn identify(ident: &str) -> (r: bool) {
        TwoParamType::from_str(ident).is_ok()
    }
}

/// The statements with one operand.
#[derive(Debug, PartialEq, Eq, PartialOrd, Ord, Clone, Copy, Structural)]
pub enum OneParamType {
    Clear,
    Decr,
    Incr,
}

impl OneParamType {
    /// The kind that `word` names, if any.
    pub open spec fn of(word: Seq<char>) -> Option<OneParamType> {
        if is_keyword(word, "clear"@) {
            Some(OneParamType::Clear)
        } else if is_keyword(word, "decr"@) {
            Some(OneParamType::Decr)
        } else if is_keyword(word, "incr"@) {
            Some(OneParamType::Incr)
        } else {
            None
        }
    }

    /// Reads the keyword of a statement with one operand.
    pub fn from_str(s: &str) -> (r: Result<OneParamType, ()>)
        ensures
            r.ok() == Self::of(s@),
    {
        if spells(s, "clear") {
            Ok(OneParamType::Clear)
        } else if spells(s, "decr") {
            Ok(OneParamType::Decr)
        } else if spells(s, "incr") {
            Ok(OneParamType::Incr)
        } else {
            Err(())
        }
    }
}

/// A statement with one operand.
#[derive(Debug, PartialEq, Eq, PartialOrd, Ord, Clone, Copy)]
pub struct OneParam<'b> {
    pub one: Identifier<'b>,
    pub ty: OneParamType,
}

impl<'b> TokenImpl for OneParam<'b> {
    open spec fn recognizes(word: Seq<char>) -> bool {
        OneParamType::of(word) is Some
    }

    fn identify(ident: &str) -> (r: bool) {
        OneParamType::from_str(ident).is_ok()
    }
}

/// A word that only makes the source read well: `do`, `not`, `to`.
#[derive(Debug, PartialEq, Eq, PartialOrd, Ord, Clone, Copy)]
pub struct Fluff {}

impl TokenImpl for Fluff {
    open spec fn recognizes(word: Seq<char>) -> bool {
        is_keyword(word, "do"@) || is_keyword(word, "not"@) || is_keyword(word, "to"@)
    }

    fn identify(ident: &str) -> (r: bool) {
        spells(ident, "do") || spells(ident, "not") || spells(ident, "to")
    }
}

/// The end of a loop.
#[derive(Debug, PartialEq, Eq, PartialOrd, Ord, Clone, Copy)]
pub struct End {}

impl TokenImpl for End {
    open spec fn recognizes(word: Seq<char>) -> bool {
        is_keyword(word, "end"@)
    }

    fn identify(ident: &str) -> (r: bool) {
        spells(ident, "end")
    }
}

/// The end of the input.
#[derive(Debug, PartialEq, Eq, PartialOrd, Ord, Clone, Copy)]
pub struct EOF {}

impl TokenImpl for EOF {
    open spec fn recognizes(word: Seq<char>) -> bool {
        true
    }

    fn identify(_ident: &str) -> (r: bool) {
        true
    }
}

/// What a token holds, with each name as the sequence of its characters.
pub enum TokenView {
    Number(i128),
    Identifier(Seq<char>),
    While { param: Seq<char>, num: i128 },
    TwoParam { one: Seq<char>, two: Seq<char>, kind: TwoParamType },
    OneParam { one: Seq<char>, op: OneParamType },
    Fluff,
    End,
    EOF,
}

/// A token of the source language.
#[derive(Debug, PartialEq, Eq, PartialOrd, Ord, Clone, Copy)]
pub enum Token<'b> {
    Number(Number),
    Identifier(Identifier<'b>),
    While(While<'b>),
    TwoParam(TwoParam<'b>),
    OneParam(OneParam<'b>),
    Fluff,
    End,
    EOF,
}

impl<'b> View for Token<'b> {
    type V = TokenView;

    open spec fn view(&self) -> TokenView {
        match *self {
            Token::Number(n) => TokenView::Number(n.value),
            Token::Identifier(i) => TokenView::Identifier(i@),
            Token::While(w) => TokenView::While { param: w.param@, num: w.num.value },
            Token::TwoParam(t) => TokenView::TwoParam { one: t.one@, two: t.two@, kind: t.ty },
            Token::OneParam(o) => TokenView::OneParam { one: o.one@, op: o.ty },
            Token::Fluff => TokenView::Fluff,
            Token::End => TokenView::End,
            Token::EOF => TokenView::EOF,
        }
    }
}

/// What a statement holds, with each name as the sequence of its characters.
pub enum StatementView {
    While { param: Seq<char>, num: i128 },
    TwoParam { one: Seq<char>, two: Seq<char>, kind: TwoParamType },
    OneParam { one: Seq<char>, op: OneParamType },
    Fluff,
    End,
    EOF,
}

impl StatementView {
    /// The statement that a token stands for. A number or a name alone is
    /// an operand, not a statement.
    pub open spec fn of(token: TokenView) -> Option<StatementView> {
        match token {
            TokenView::Number(_) => None,
            TokenView::Identifier(_) => None,
            TokenView::While { param, num } => Some(StatementView::While { param, num }),
            TokenView::TwoParam { one, two, kind } => Some(StatementView::TwoParam { one, two, kind }),
            TokenView::OneParam { one, op } => Some(StatementView::OneParam { one, op }),
            TokenView::Fluff => Some(StatementView::Fluff),
            TokenView::End => Some(StatementView::End),
            TokenView::EOF => Some(StatementView::EOF),
        }
    }

    /// The variables that the statement names, in the order of its operands.
    pub open spec fn variables(self) -> Seq<Seq<char>> {
        match self {
            StatementView::While { param, num } => seq![param],
            StatementView::TwoParam { one, two, kind } => seq![one, two],
            StatementView::OneParam { one, op } => seq![one],
            _ => Seq::empty(),
        }
    }
}

impl StatementView {
    /// The generator after the statement, or why the generator refuses it.
    /// Fluff leaves the generator as it is.
    pub open spec fn apply(self, c: ConverterView) -> Result<ConverterView, BuildError> {
        match self {
            StatementView::While { param, num } => match c.variable(param) {
                Ok(i) => Ok(c.open_while(i, num)),
                Err(e) => Err(e),
            },
            StatementView::TwoParam { one, two, kind } => match (c.variable(one), c.variable(two)) {
                (Ok(i), Ok(j)) => Ok(c.copy(i, j)),
                (Err(e), _) => Err(e),
                (_, Err(e)) => Err(e),
            },
            StatementView::OneParam { one, op } => match c.variable(one) {
                Ok(i) => Ok(
                    match op {
                        OneParamType::Clear => c.clear(i),
                        OneParamType::Decr => c.decr(i),
                        OneParamType::Incr => c.incr(i),
                    },
                ),
                Err(e) => Err(e),
            },
            StatementView::Fluff => Ok(c),
            StatementView::End => match c.end_refused() {
                None => Ok(c.close_while()),
                Some(e) => Err(e),
            },
            StatementView::EOF => match c.eof_refused() {
                None => Ok(c.finalize()),
                Some(e) => Err(e),
            },
        }
    }
}

/// What a call of the generator returns and leaves behind, against the
/// statement it was called for.
pub open spec fn applied(
    statement: StatementView,
    before: ConverterView,
    after: ConverterView,
    r: Result<(), BuildError>,
) -> bool {
    match statement.apply(before) {
        Ok(c) => r is Ok && after == c,
        Err(e) => r == Err::<(), BuildError>(e) && after == before,
    }
}

/// A kind of statement.
pub trait StatementImpl<'a> {
    /// The statement, with each name as the sequence of its characters.
    spec fn statement(&self) -> StatementView;

    /// The variables that the statement names, in the order of its
    /// operands.
    fn get_variables(&self) -> (r: Vec<&'a str>)
        ensures
            slice_texts(r@) == self.statement().variables(),
    ;

    /// Has the generator emit the code of the statement.
    fn compile(&self, cont: &mut Converter) -> (r: Result<(), BuildError>)
        requires
            old(cont).wf(),
        ensures
            final(cont).wf(),
            applied(self.statement(), old(cont)@, final(cont)@, r),
    ;
}

impl<'a> StatementImpl<'a> for While<'a> {
    open spec fn statement(&self) -> StatementView {
        StatementView::While { param: self.param@, num: self.num.value }
    }

    fn get_variables(&self) -> (r: Vec<&'a str>) {
        let mut r: Vec<&'a str> = Vec::new();
        r.push(self.param.ident);
        assert(slice_texts(r@) == self.statement().variables());
        r
    }

    fn compile(&self, cont: &mut Converter) -> (r: Result<(), BuildError>) {
        cont.add_while(self.param.ident, self.num.value)
    }
}

impl<'a> StatementImpl<'a> for TwoParam<'a> {
    open spec fn statement(&self) -> StatementView {
        StatementView::TwoParam { one: self.one@, two: self.two@, kind: self.ty }
    }

    fn get_variables(&self) -> (r: Vec<&'a str>) {
        let mut r: Vec<&'a str> = Vec::new();
        r.push(self.one.ident);
        r.push(self.two.ident);
        assert(slice_texts(r@) == self.statement().variables());
        r
    }

    fn compile(&self, cont: &mut Converter) -> (r: Result<(), BuildError>) {
        match self.ty {
            TwoParamType::Copy => cont.add_copy(self.one.ident, self.two.ident),
        }
    }
}

impl<'a> StatementImpl<'a> for OneParam<'a> {
    open spec fn statement(&self) -> StatementView {
        StatementView::OneParam { one: self.one@, op: self.ty }
    }

    fn get_variables(&self) -> (r: Vec<&'a str>) {
        let mut r: Vec<&'a str> = Vec::new();
        r.push(self.one.ident);
        assert(slice_texts(r@) == self.statement().variables());
        r
    }

    fn compile(&self, cont: &mut Converter) -> (r: Result<(), BuildError>) {
        match self.ty {
            OneParamType::Clear => cont.add_clear(self.one.ident),
            OneParamType::Decr => cont.add_decr(self.one.ident),
            OneParamType::Incr => cont.add_incr(self.one.ident),
        }
    }
}

impl<'a> StatementImpl<'a> for Fluff {
    open spec fn statement(&self) -> StatementView {
        StatementView::Fluff
    }

    fn get_variables(&self) -> (r: Vec<&'a str>) {
        let r: Vec<&'a str> = Vec::new();
        assert(slice_texts(r@) == self.statement().variables());
        r
    }

    fn compile(&self, cont: &mut Converter) -> (r: Result<(), BuildError>) {
        Ok(())
    }
}

impl<'a> StatementImpl<'a> for End {
    open spec fn statement(&self) -> StatementView {
        StatementView::End
    }

    fn get_variables(&self) -> (r: Vec<&'a str>) {
        let r: Vec<&'a str> = Vec::new();
        assert(slice_texts(r@) == self.statement().variables());
        r
    }

    fn compile(&self, cont: &mut Converter) -> (r: Result<(), BuildError>) {
        cont.add_end()
    }
}

impl<'a> StatementImpl<'a> for EOF {
    open spec fn statement(&self) -> StatementView {
        StatementView::EOF
    }

    fn get_variables(&self) -> (r: Vec<&'a str>) {
        let r: Vec<&'a str> = Vec::new();
        assert(slice_texts(r@) == self.statement().variables());
        r
    }

    fn compile(&self, cont: &mut Converter) -> (r: Result<(), BuildError>) {
        cont.add_eof()
    }
}

/// A statement of the source language.
#[derive(Debug, PartialEq, Eq, PartialOrd, Ord, Clone, Copy)]
pub enum Statement<'b> {
    While(While<'b>),
    TwoParam(TwoParam<'b>),
    OneParam(OneParam<'b>),
    Fluff,
    End,
    EOF,
}

impl<'b> View for Statement<'b> {
    type V = StatementView;

    open spec fn view(&self) -> StatementView {
        match *self {
            Statement::While(w) => StatementView::While { param: w.param@, num: w.num.value },
            Statement::TwoParam(t) => StatementView::TwoParam { one: t.one@, two: t.two@, kind: t.ty },
            Statement::OneParam(o) => StatementView::OneParam { one: o.one@, op: o.ty },
            Statement::Fluff => StatementView::Fluff,
            Statement::End => StatementView::End,
            Statement::EOF => StatementView::EOF,
        }
    }
}

/// A token that cannot stand as a statement.
#[derive(Debug, PartialEq, Eq, PartialOrd, Ord, Clone, Copy)]
pub struct NotAStatement<'b> {
    pub token: Token<'b>,
}

impl<'b> Statement<'b> {
    /// The variables that the statement names, in the order of its
    /// operands.
    pub fn get_variables(&self) -> (r: Vec<&'b str>)
        ensures
            slice_texts(r@) == self@.variables(),
    {
        match self {
            Statement::While(v) => v.get_variables(),
            Statement::TwoParam(v) => v.get_variables(),
            Statement::OneParam(v) => v.get_variables(),
            Statement::Fluff => (Fluff {}).get_variables(),
            Statement::End => (End {}).get_variables(),
            Statement::EOF => (EOF {}).get_variables(),
        }
    }

    /// Has the generator emit the code of the statement.
    pub fn compile(&self, cont: &mut Converter) -> (r: Result<(), BuildError>)
        requires
            old(cont).wf(),
        ensures
            final(cont).wf(),
            applied(self@, old(cont)@, final(cont)@, r),
    {
        match self {
            Statement::While(v) => v.compile(cont),
            Statement::TwoParam(v) => v.compile(cont),
            Statement::OneParam(v) => v.compile(cont),
            Statement::Fluff => (Fluff {}).compile(cont),
            Statement::End => (End {}).compile(cont),
            Statement::EOF => (EOF {}).compile(cont),
        }
    }

    /// Turns a token into the statement it stands for, and hands back a
    /// bare number or name as an error.
    pub fn try_from(t: Token<'b>) -> (r: Result<Statement<'b>, NotAStatement<'b>>)
        ensures
            match r {
                Ok(s) => StatementView::of(t@) == Some(s@),
                Err(e) => StatementView::of(t@) is None && e.token == t,
            },
    {
        match t {
            Token::Number(_) => Err(NotAStatement { token: t }),
            Token::Identifier(_) => Err(NotAStatement { token: t }),
            Token::While(v) => Ok(Statement::While(v)),
            Token::OneParam(v) => Ok(Statement::OneParam(v)),
            Token::TwoParam(v) => Ok(Statement::TwoParam(v)),
            Token::Fluff => Ok(Statement::Fluff),
            Token::End => Ok(Statement::End),
            Token::EOF => Ok(Statement::EOF),
        }
    }
}

} // verus!
