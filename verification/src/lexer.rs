//! The lexer: from source text to tokens, one token per call.

use crate::chars::{chars_of, decimal_i128, is_separator, parse_i128, separates};
use crate::token::{
    End, Fluff, Identifier, Number, OneParam, OneParamType, Token, TokenImpl, TokenView, TwoParam,
    TwoParamType, While,
};
use vstd::prelude::*;

verus! {

/// What a word announces, by the first of these that fits: a keyword with
/// two operands, one with one operand, the loop keyword, fluff, the end of
/// a block, a name, a number.
#[derive(Debug, PartialEq, Eq, Clone, Copy, Structural)]
pub enum WordClass {
    TwoParam(TwoParamType),
    OneParam(OneParamType),
    While,
    Fluff,
    End,
    Identifier,
    Number,
    Other,
}

/// The keyword that `word` spells, if any.
pub open spec fn keyword_of(word: Seq<char>) -> Option<WordClass> {
    if TwoParamType::of(word) is Some {
        Some(WordClass::TwoParam(TwoParamType::of(word)->0))
    } else if OneParamType::of(word) is Some {
        Some(WordClass::OneParam(OneParamType::of(word)->0))
    } else if While::recognizes(word) {
        Some(WordClass::While)
    } else if Fluff::recognizes(word) {
        Some(WordClass::Fluff)
    } else if End::recognizes(word) {
        Some(WordClass::End)
    } else {
        None
    }
}

/// The class of a word that is no keyword, from what the two patterns say
/// of it: a name before a number, and neither is the end of the input.
pub open spec fn plain_class_of(identifier: bool, number: bool) -> WordClass {
    if identifier {
        WordClass::Identifier
    } else if number {
        WordClass::Number
    } else {
        WordClass::Other
    }
}

/// The class of a word.
pub open spec fn class_of(word: Seq<char>) -> WordClass {
    match keyword_of(word) {
        Some(class) => class,
        None => plain_class_of(Identifier::recognizes(word), Number::recognizes(word)),
    }
}

/// Classifies a word that is no keyword, given whether the pattern of a
/// name and that of a number match it.
pub fn plain_class(identifier: bool, number: bool) -> (r: WordClass)
    ensures
        r == plain_class_of(identifier, number),
{
    if identifier {
        WordClass::Identifier
    } else if number {
        WordClass::Number
    } else {
        WordClass::Other
    }
}

/// Classifies a word.
pub fn classify(word: &str) -> (r: WordClass)
    ensures
        r == class_of(word@),
{
    match TwoParamType::from_str(word) {
        Ok(ty) => {
            return WordClass::TwoParam(ty);
        },
        Err(_) => {},
    }
    match OneParamType::from_str(word) {
        Ok(ty) => {
            return WordClass::OneParam(ty);
        },
        Err(_) => {},
    }
    if While::identify(word) {
        WordClass::While
    } else if Fluff::identify(word) {
        WordClass::Fluff
    } else if End::identify(word) {
        WordClass::End
    } else if Identifier::identify(word) {
        plain_class(true, false)
    } else {
        plain_class(false, Number::identify(word))
    }
}

/// The place where the word that starts at `pos` ends: the next separator,
/// or the end of the input.
pub open spec fn word_end(input: Seq<char>, pos: int) -> int
    decreases input.len() - pos,
{
    if pos < 0 || pos >= input.len() {
        input.len() as int
    } else if is_separator(input[pos]) {
        pos
    } else {
        word_end(input, pos + 1)
    }
}

/// The place behind the first line feed at or after `pos`, or the end of
/// the input where none follows.
pub open spec fn line_end(input: Seq<char>, pos: int) -> int
    decreases input.len() - pos,
{
    if pos < 0 || pos >= input.len() {
        input.len() as int
    } else if input[pos] == '\n' {
        pos + 1
    } else {
        line_end(input, pos + 1)
    }
}

/// The next word at or after `pos`, as the places where it starts and ends.
/// Separators are passed over, and so is a comment: from a `#` that starts
/// a word through the next line feed.
pub open spec fn next_word(input: Seq<char>, pos: int) -> Option<(int, int)>
    decreases input.len() - pos,
{
    if pos < 0 || pos >= input.len() {
        None
    } else if is_separator(input[pos]) {
        next_word(input, pos + 1)
    } else if input[pos] == '#' {
        if pos < line_end(input, pos) <= input.len() {
            next_word(input, line_end(input, pos))
        } else {
            None
        }
    } else {
        Some((pos, word_end(input, pos)))
    }
}

/// The kind of operand that a keyword asks for.
#[derive(Debug, PartialEq, Eq, Clone, Copy, Structural)]
pub enum Expected {
    Identifier,
    Number,
}

/// What a lexical error holds, with each word as the sequence of its
/// characters.
pub enum LexErrorView {
    Operand { keyword: Seq<char>, expected: Expected, found: TokenView },
    Literal { word: Seq<char> },
}

/// Why no token could be made.
#[derive(Debug, PartialEq, Eq, Clone, Copy)]
pub enum LexError<'b> {
    /// The keyword is not followed by the operand it asks for.
    Operand { keyword: &'b str, expected: Expected, found: Token<'b> },
    /// The word is a number too large for an integer of 128 bits.
    Literal { word: &'b str },
}

impl<'b> View for LexError<'b> {
    type V = LexErrorView;

    open spec fn view(&self) -> LexErrorView {
        match *self {
            LexError::Operand { keyword, expected, found } => LexErrorView::Operand {
                keyword: keyword@,
                expected,
                found: found@,
            },
            LexError::Literal { word } => LexErrorView::Literal { word: word@ },
        }
    }
}

/// One step of the lexer: the token or the error, and the place where the
/// next step starts.
pub struct Lexed {
    pub result: Result<TokenView, LexErrorView>,
    pub pos: int,
}

/// The view of what a call of the lexer returns.
pub open spec fn outcome_view<'b>(r: Result<Token<'b>, LexError<'b>>) -> Result<
    TokenView,
    LexErrorView,
> {
    match r {
        Ok(t) => Ok(t@),
        Err(e) => Err(e@),
    }
}

/// The error of a keyword that found something else than its operand.
pub open spec fn wrong_operand(keyword: Seq<char>, expected: Expected, got: Lexed) -> Lexed {
    match got.result {
        Ok(found) => Lexed {
            result: Err(LexErrorView::Operand { keyword, expected, found }),
            pos: got.pos,
        },
        Err(_) => got,
    }
}

/// The token at or after `pos`. A keyword takes its operands with it, each
/// of them the next token that is no fluff; the first error met ends the
/// step. The tests on places guard the definition only: a step ends
/// neither before the place it started from nor behind the input.
pub open spec fn lex(input: Seq<char>, pos: int) -> Lexed
    decreases input.len() - pos, 0nat,
{
    match next_word(input, pos) {
        None => Lexed { result: Ok(TokenView::EOF), pos: input.len() as int },
        Some((start, end)) => {
            let word = input.subrange(start, end);
            if end <= pos || pos < 0 || end > input.len() {
                Lexed { result: Ok(TokenView::EOF), pos: input.len() as int }
            } else {
                match class_of(word) {
                    WordClass::TwoParam(ty) => {
                        let a = lex_operand(input, end);
                        match a.result {
                            Ok(TokenView::Identifier(one)) => {
                                if a.pos < end || a.pos > input.len() {
                                    a
                                } else {
                                    let b = lex_operand(input, a.pos);
                                    match b.result {
                                        Ok(TokenView::Identifier(two)) => Lexed {
                                            result: Ok(TokenView::TwoParam { one, two, kind: ty }),
                                            pos: b.pos,
                                        },
                                        _ => wrong_operand(word, Expected::Identifier, b),
                                    }
                                }
                            },
                            _ => wrong_operand(word, Expected::Identifier, a),
                        }
                    },
                    WordClass::OneParam(ty) => {
                        let a = lex_operand(input, end);
                        match a.result {
                            Ok(TokenView::Identifier(one)) => Lexed {
                                result: Ok(TokenView::OneParam { one, op: ty }),
                                pos: a.pos,
                            },
                            _ => wrong_operand(word, Expected::Identifier, a),
                        }
                    },
                    WordClass::While => {
                        let a = lex_operand(input, end);
                        match a.result {
                            Ok(TokenView::Identifier(param)) => {
                                if a.pos < end || a.pos > input.len() {
                                    a
                                } else {
                                    let b = lex_operand(input, a.pos);
                                    match b.result {
                                        Ok(TokenView::Number(num)) => Lexed {
                                            result: Ok(TokenView::While { param, num }),
                                            pos: b.pos,
                                        },
                                        _ => wrong_operand(word, Expected::Number, b),
                                    }
                                }
                            },
                            _ => wrong_operand(word, Expected::Identifier, a),
                        }
                    },
                    WordClass::Fluff => Lexed { result: Ok(TokenView::Fluff), pos: end },
                    WordClass::End => Lexed { result: Ok(TokenView::End), pos: end },
                    WordClass::Identifier => Lexed {
                        result: Ok(TokenView::Identifier(word)),
                        pos: end,
                    },
                    WordClass::Number => match decimal_i128(word) {
                        Some(value) => Lexed { result: Ok(TokenView::Number(value)), pos: end },
                        None => Lexed { result: Err(LexErrorView::Literal { word }), pos: end },
                    },
                    WordClass::Other => Lexed { result: Ok(TokenView::EOF), pos: end },
                }
            }
        },
    }
}

/// The next token at or after `pos` that is no fluff.
pub open spec fn lex_operand(input: Seq<char>, pos: int) -> Lexed
    decreases input.len() - pos, 1nat,
{
    let t = lex(input, pos);
    if t.result == Ok::<TokenView, LexErrorView>(TokenView::Fluff) && 0 <= pos < t.pos <= input.len() {
        lex_operand(input, t.pos)
    } else {
        t
    }
}

/// Where a word starts and ends, and where the search for the next one
/// goes on.
pub proof fn lemma_next_word_bounds(input: Seq<char>, pos: int)
    requires
        0 <= pos <= input.len(),
    ensures
        match next_word(input, pos) {
            Some((start, end)) => pos <= start < end <= input.len(),
            None => true,
        },
    decreases input.len() - pos,
{
    if pos < input.len() {
        if is_separator(input[pos]) {
            lemma_next_word_bounds(input, pos + 1);
        } else if input[pos] == '#' {
            if pos < line_end(input, pos) <= input.len() {
                lemma_next_word_bounds(input, line_end(input, pos));
            }
        } else {
            lemma_word_end_bounds(input, pos + 1);
        }
    }
}

/// A word ends at or after any place inside it, and inside the input.
pub proof fn lemma_word_end_bounds(input: Seq<char>, pos: int)
    requires
        0 <= pos <= input.len(),
    ensures
        pos <= word_end(input, pos) <= input.len(),
    decreases input.len() - pos,
{
    if pos < input.len() && !is_separator(input[pos]) {
        lemma_word_end_bounds(input, pos + 1);
    }
}

/// A step of the lexer ends neither before the place it started from nor
/// behind the input, and a step that does not return the end of the input
/// ends behind the place it started from: the tests on places in the
/// definition of a step never fail.
pub proof fn lemma_lex_advances(input: Seq<char>, pos: int)
    requires
        0 <= pos <= input.len(),
    ensures
        pos <= lex(input, pos).pos <= input.len(),
        lex(input, pos).result != Ok::<TokenView, LexErrorView>(TokenView::EOF) ==> pos < lex(
            input,
            pos,
        ).pos,
        pos <= lex_operand(input, pos).pos <= input.len(),
        lex_operand(input, pos).result != Ok::<TokenView, LexErrorView>(TokenView::EOF) ==> pos
            < lex_operand(input, pos).pos,
    decreases input.len() - pos, 2nat,
{
    lemma_lex_step_advances(input, pos);
    let t = lex(input, pos);
    if t.result == Ok::<TokenView, LexErrorView>(TokenView::Fluff) && 0 <= pos < t.pos
        <= input.len() {
        lemma_lex_advances(input, t.pos);
    }
}

/// The part of `lemma_lex_advances` that speaks of one token.
pub proof fn lemma_lex_step_advances(input: Seq<char>, pos: int)
    requires
        0 <= pos <= input.len(),
    ensures
        pos <= lex(input, pos).pos <= input.len(),
        lex(input, pos).result != Ok::<TokenView, LexErrorView>(TokenView::EOF) ==> pos < lex(
            input,
            pos,
        ).pos,
    decreases input.len() - pos, 1nat,
{
    lemma_next_word_bounds(input, pos);
    match next_word(input, pos) {
        None => {},
        Some((start, end)) => {
            let word = input.subrange(start, end);
            match class_of(word) {
                WordClass::TwoParam(_) => {
                    lemma_lex_advances(input, end);
                    let a = lex_operand(input, end);
                    if a.pos <= input.len() && a.pos >= end {
                        lemma_lex_advances(input, a.pos);
                    }
                },
                WordClass::OneParam(_) => {
                    lemma_lex_advances(input, end);
                },
                WordClass::While => {
                    lemma_lex_advances(input, end);
                    let a = lex_operand(input, end);
                    if a.pos <= input.len() && a.pos >= end {
                        lemma_lex_advances(input, a.pos);
                    }
                },
                _ => {},
            }
        },
    }
}

/// A lexer over a source text.
pub struct Lexer<'a> {
    input: &'a str,
    chars: Vec<char>,
    pos: usize,
}

impl<'a> Lexer<'a> {
    /// The source text.
    pub closed spec fn text(&self) -> Seq<char> {
        self.input@
    }

    /// The place in the text where the next token is looked for.
    pub closed spec fn position(&self) -> int {
        self.pos as int
    }

    /// The lexer stands inside its text.
    pub closed spec fn wf(&self) -> bool {
        &&& self.chars@ == self.input@
        &&& self.pos <= self.chars.len()
    }

    /// A lexer at the start of `input`.
    pub fn new(input: &'a str) -> (r: Lexer<'a>)
        ensures
            r.wf(),
            r.text() == input@,
            r.position() == 0,
    {
        Lexer { input, chars: chars_of(input), pos: 0 }
    }

    /// Moves to the end of the next word and returns where it starts and
    /// ends; moves to the end of the text where no word is left.
    fn take_word(&mut self) -> (r: Option<(usize, usize)>)
        requires
            old(self).wf(),
        ensures
            final(self).wf(),
            final(self).text() == old(self).text(),
            match next_word(old(self).text(), old(self).position()) {
                Some((start, end)) => r == Some((start as usize, end as usize))
                    && old(self).position() <= start < end <= old(self).text().len()
                    && final(self).position() == end,
                None => r is None && final(self).position() == old(self).text().len(),
            },
    {
        let ghost input = self.chars@;
        let ghost from = self.pos as int;
        let len = self.chars.len();
        let mut i: usize = self.pos;
        loop
            invariant
                self.wf(),
                self.chars@ == input,
                self.input@ == input,
                input == old(self).text(),
                from == old(self).position(),
                len == input.len(),
                from <= i <= len,
                next_word(input, from) == next_word(input, i as int),
            decreases len - i,
        {
            if i >= len {
                self.pos = len;
                return None;
            }
            let c: char = self.chars[i];
            if separates(c) {
                i += 1;
            } else if c == '#' {
                let mut j: usize = i;
                while j < len && self.chars[j] != '\n'
                    invariant
                        self.chars@ == input,
                        len == input.len(),
                        i <= j <= len,
                        line_end(input, i as int) == line_end(input, j as int),
                    decreases len - j,
                {
                    j += 1;
                }
                if j < len {
                    j += 1;
                }
                assert(line_end(input, i as int) == j);
                if j == i {
                    self.pos = len;
                    return None;
                }
                i = j;
            } else {
                let start: usize = i;
                let mut end: usize = i + 1;
                while end < len && !separates(self.chars[end])
                    invariant
                        self.chars@ == input,
                        len == input.len(),
                        start < end <= len,
                        word_end(input, start as int) == word_end(input, end as int),
                    decreases len - end,
                {
                    end += 1;
                }
                assert(word_end(input, start as int) == end);
                self.pos = end;
                return Some((start, end));
            }
        }
    }

    /// The next token that is no fluff.
    pub fn get_not_fluff(&mut self) -> (r: Result<Token<'a>, LexError<'a>>)
        requires
            old(self).wf(),
        ensures
            final(self).wf(),
            final(self).text() == old(self).text(),
            outcome_view(r) == lex_operand(old(self).text(), old(self).position()).result,
            final(self).position() == lex_operand(old(self).text(), old(self).position()).pos,
            old(self).position() <= final(self).position() <= old(self).text().len(),
            outcome_view(r) != Ok::<TokenView, LexErrorView>(TokenView::EOF) ==> old(self).position()
                < final(self).position(),
        decreases old(self).text().len() - old(self).position(), 1nat,
    {
        let t = self.get_token();
        match t {
            Ok(Token::Fluff) => {
                assert(old(self).position() < self.position()) by {
                    lemma_next_word_bounds(old(self).text(), old(self).position());
                }
                self.get_not_fluff()
            },
            _ => t,
        }
    }

    /// The next token. A keyword comes with its operands; at the end of
    /// the text, and at a word that is neither keyword, name nor number,
    /// the token is the end of the input.
    pub fn get_token(&mut self) -> (r: Result<Token<'a>, LexError<'a>>)
        requires
            old(self).wf(),
        ensures
            final(self).wf(),
            final(self).text() == old(self).text(),
            outcome_view(r) == lex(old(self).text(), old(self).position()).result,
            final(self).position() == lex(old(self).text(), old(self).position()).pos,
            old(self).position() <= final(self).position() <= old(self).text().len(),
            outcome_view(r) != Ok::<TokenView, LexErrorView>(TokenView::EOF) ==> old(self).position()
                < final(self).position(),
        decreases old(self).text().len() - old(self).position(), 0nat,
    {
        let (start, end) = match self.take_word() {
            Some(w) => w,
            None => {
                return Ok(Token::EOF);
            },
        };
        let word: &'a str = self.input.substring_char(start, end);
        match classify(word) {
            WordClass::TwoParam(ty) => {
                let one = match self.get_not_fluff() {
                    Ok(Token::Identifier(one)) => one,
                    Ok(found) => {
                        return Err(
                            LexError::Operand { keyword: word, expected: Expected::Identifier, found },
                        );
                    },
                    Err(e) => {
                        return Err(e);
                    },
                };
                match self.get_not_fluff() {
                    Ok(Token::Identifier(two)) => Ok(Token::TwoParam(TwoParam { one, two, ty })),
                    Ok(found) => Err(
                        LexError::Operand { keyword: word, expected: Expected::Identifier, found },
                    ),
                    Err(e) => Err(e),
                }
            },
            WordClass::OneParam(ty) => {
                match self.get_not_fluff() {
                    Ok(Token::Identifier(one)) => Ok(Token::OneParam(OneParam { one, ty })),
                    Ok(found) => Err(
                        LexError::Operand { keyword: word, expected: Expected::Identifier, found },
                    ),
                    Err(e) => Err(e),
                }
            },
            WordClass::While => {
                let param = match self.get_not_fluff() {
                    Ok(Token::Identifier(param)) => param,
                    Ok(found) => {
                        return Err(
                            LexError::Operand { keyword: word, expected: Expected::Identifier, found },
                        );
                    },
                    Err(e) => {
                        return Err(e);
                    },
                };
                match self.get_not_fluff() {
                    Ok(Token::Number(num)) => Ok(Token::While(While { param, num })),
                    Ok(found) => Err(
                        LexError::Operand { keyword: word, expected: Expected::Number, found },
                    ),
                    Err(e) => Err(e),
                }
            },
            WordClass::Fluff => Ok(Token::Fluff),
            WordClass::End => Ok(Token::End),
            WordClass::Identifier => Ok(Token::Identifier(Identifier { ident: word })),
            WordClass::Number => match parse_i128(word) {
                Some(value) => Ok(Token::Number(Number { value })),
                None => Err(LexError::Literal { word }),
            },
            WordClass::Other => Ok(Token::EOF),
        }
    }
}

} // verus!
