use bbvm::lexer::{Expected, LexError, Lexer};
use bbvm::token::{
    Identifier, Number, OneParam, OneParamType, Token, TwoParam, TwoParamType, While,
};

fn ident(s: &str) -> Identifier<'_> {
    Identifier { ident: s }
}

#[test]
fn incr_takes_its_operand() {
    let mut l = Lexer::new("incr x;");
    assert_eq!(
        l.get_token(),
        Ok(Token::OneParam(OneParam { one: ident("x"), ty: OneParamType::Incr }))
    );
    assert_eq!(l.get_token(), Ok(Token::EOF));
}

#[test]
fn last_word_needs_no_separator() {
    let mut l = Lexer::new("copy x to y");
    assert_eq!(
        l.get_token(),
        Ok(Token::TwoParam(TwoParam { one: ident("x"), two: ident("y"), ty: TwoParamType::Copy }))
    );
    assert_eq!(l.get_token(), Ok(Token::EOF));
}

#[test]
fn while_takes_name_and_number() {
    let mut l = Lexer::new("while x not 0 do\n decr x\nend\n");
    assert_eq!(
        l.get_token(),
        Ok(Token::While(While { param: ident("x"), num: Number { value: 0 } }))
    );
    assert_eq!(l.get_token(), Ok(Token::Fluff));
    assert_eq!(
        l.get_token(),
        Ok(Token::OneParam(OneParam { one: ident("x"), ty: OneParamType::Decr }))
    );
    assert_eq!(l.get_token(), Ok(Token::End));
    assert_eq!(l.get_token(), Ok(Token::EOF));
}

#[test]
fn while_without_number_is_an_error() {
    let mut l = Lexer::new("while x");
    assert_eq!(
        l.get_token(),
        Err(LexError::Operand { keyword: "while", expected: Expected::Number, found: Token::EOF })
    );
}

#[test]
fn while_without_name_is_an_error() {
    let mut l = Lexer::new("while 3 x");
    assert_eq!(
        l.get_token(),
        Err(LexError::Operand {
            keyword: "while",
            expected: Expected::Identifier,
            found: Token::Number(Number { value: 3 }),
        })
    );
}

#[test]
fn keyword_as_operand_is_an_error() {
    let mut l = Lexer::new("incr end");
    assert_eq!(
        l.get_token(),
        Err(LexError::Operand {
            keyword: "incr",
            expected: Expected::Identifier,
            found: Token::End,
        })
    );
}

#[test]
fn inner_error_comes_first() {
    let mut l = Lexer::new("clear decr 5");
    assert_eq!(
        l.get_token(),
        Err(LexError::Operand {
            keyword: "decr",
            expected: Expected::Identifier,
            found: Token::Number(Number { value: 5 }),
        })
    );
}

#[test]
fn keywords_ignore_case() {
    let mut l = Lexer::new("CLEAR x; Copy x TO y; WHILE x 3 DO END");
    assert_eq!(
        l.get_token(),
        Ok(Token::OneParam(OneParam { one: ident("x"), ty: OneParamType::Clear }))
    );
    assert_eq!(
        l.get_token(),
        Ok(Token::TwoParam(TwoParam { one: ident("x"), two: ident("y"), ty: TwoParamType::Copy }))
    );
    assert_eq!(
        l.get_token(),
        Ok(Token::While(While { param: ident("x"), num: Number { value: 3 } }))
    );
    assert_eq!(l.get_token(), Ok(Token::Fluff));
    assert_eq!(l.get_token(), Ok(Token::End));
    assert_eq!(l.get_token(), Ok(Token::EOF));
}

#[test]
fn comment_runs_through_the_line_feed() {
    let mut l = Lexer::new("# a comment; incr x\nincr y\n#\nincr z\n# the end");
    assert_eq!(
        l.get_token(),
        Ok(Token::OneParam(OneParam { one: ident("y"), ty: OneParamType::Incr }))
    );
    assert_eq!(
        l.get_token(),
        Ok(Token::OneParam(OneParam { one: ident("z"), ty: OneParamType::Incr }))
    );
    assert_eq!(l.get_token(), Ok(Token::EOF));
    assert_eq!(l.get_token(), Ok(Token::EOF));
}

#[test]
fn separators_are_passed_over() {
    let mut l = Lexer::new(" ;;\t\n x ;; 12;");
    assert_eq!(l.get_token(), Ok(Token::Identifier(ident("x"))));
    assert_eq!(l.get_token(), Ok(Token::Number(Number { value: 12 })));
    assert_eq!(l.get_token(), Ok(Token::EOF));
}

#[test]
fn empty_input_is_the_end() {
    let mut l = Lexer::new("");
    assert_eq!(l.get_token(), Ok(Token::EOF));
    let mut l = Lexer::new("  \n ; ");
    assert_eq!(l.get_token(), Ok(Token::EOF));
}

#[test]
fn numbers_are_runs_of_digits() {
    let mut l = Lexer::new("0 007 170141183460469231731687303715884105727");
    assert_eq!(l.get_token(), Ok(Token::Number(Number { value: 0 })));
    assert_eq!(l.get_token(), Ok(Token::Number(Number { value: 7 })));
    assert_eq!(l.get_token(), Ok(Token::Number(Number { value: i128::MAX })));
    assert_eq!(l.get_token(), Ok(Token::EOF));
}

#[test]
fn words_that_are_neither_name_nor_number_end_the_input() {
    for source in ["-7 x", "+8 x", "1.5 x", "1a x", "1b", "_a x", "x-1 y", "a.b", "٣ x", "é x"] {
        let mut l = Lexer::new(source);
        assert_eq!(l.get_token(), Ok(Token::EOF));
    }
}

#[test]
fn while_takes_no_signed_bound() {
    let mut l = Lexer::new("while x -3 do");
    assert_eq!(
        l.get_token(),
        Err(LexError::Operand { keyword: "while", expected: Expected::Number, found: Token::EOF })
    );
}

#[test]
fn number_out_of_range_is_an_error() {
    let mut l = Lexer::new("170141183460469231731687303715884105728 ");
    assert_eq!(
        l.get_token(),
        Err(LexError::Literal { word: "170141183460469231731687303715884105728" })
    );
    let mut l = Lexer::new("while x 999999999999999999999999999999999999999 do");
    assert_eq!(
        l.get_token(),
        Err(LexError::Literal { word: "999999999999999999999999999999999999999" })
    );
}

#[test]
fn a_name_is_a_letter_and_word_characters() {
    let mut l = Lexer::new("x x1 a_b9 Zeta_ copying ends aé");
    assert_eq!(l.get_token(), Ok(Token::Identifier(ident("x"))));
    assert_eq!(l.get_token(), Ok(Token::Identifier(ident("x1"))));
    assert_eq!(l.get_token(), Ok(Token::Identifier(ident("a_b9"))));
    assert_eq!(l.get_token(), Ok(Token::Identifier(ident("Zeta_"))));
    assert_eq!(l.get_token(), Ok(Token::Identifier(ident("copying"))));
    assert_eq!(l.get_token(), Ok(Token::Identifier(ident("ends"))));
    assert_eq!(l.get_token(), Ok(Token::Identifier(ident("aé"))));
    assert_eq!(l.get_token(), Ok(Token::EOF));
}

#[test]
fn other_words_end_the_input() {
    let mut l = Lexer::new("$$ incr x");
    assert_eq!(l.get_token(), Ok(Token::EOF));
}

#[test]
fn get_not_fluff_skips_fluff() {
    let mut l = Lexer::new("do not to x");
    assert_eq!(l.get_not_fluff(), Ok(Token::Identifier(ident("x"))));
    assert_eq!(l.get_not_fluff(), Ok(Token::EOF));
}
