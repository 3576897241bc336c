use bbvm::chars::{parse_i128, separates, spells};
use bbvm::lexer::{classify, plain_class, WordClass};
use bbvm::pattern::{is_match, outcome};
use bbvm::token::{
    End, Fluff, Identifier, NotAStatement, Number, OneParam, OneParamType, Statement,
    StatementImpl, Token, TokenImpl, TwoParam, TwoParamType, While, EOF, IDENTIFIER_PATTERN,
    NUMBER_PATTERN,
};

#[test]
fn keywords_are_identified_whatever_the_case() {
    assert!(TwoParam::identify("copy"));
    assert!(TwoParam::identify("CoPy"));
    assert!(!TwoParam::identify("copyy"));
    assert!(OneParam::identify("clear"));
    assert!(OneParam::identify("DECR"));
    assert!(OneParam::identify("Incr"));
    assert!(!OneParam::identify("inc"));
    assert!(While::identify("while"));
    assert!(While::identify("WHILE"));
    assert!(!While::identify("whil"));
    assert!(Fluff::identify("do"));
    assert!(Fluff::identify("Not"));
    assert!(Fluff::identify("TO"));
    assert!(!Fluff::identify("too"));
    assert!(End::identify("end"));
    assert!(End::identify("END"));
    assert!(!End::identify("en"));
    assert!(EOF::identify("anything"));
    assert!(EOF::identify(""));
}

#[test]
fn names_and_numbers_are_found_by_pattern() {
    assert!(Identifier::identify("x"));
    assert!(Identifier::identify("x1"));
    assert!(Identifier::identify("a_b"));
    assert!(Identifier::identify("Aé٣"));
    assert!(!Identifier::identify("1x"));
    assert!(!Identifier::identify("x-1"));
    assert!(!Identifier::identify("x y"));
    assert!(!Identifier::identify("_x"));
    assert!(!Identifier::identify("é"));
    assert!(!Identifier::identify("12"));
    assert!(!Identifier::identify("__"));
    assert!(!Identifier::identify(""));
    assert!(Number::identify("12"));
    assert!(Number::identify("0"));
    assert!(Number::identify("000123456789"));
    assert!(!Number::identify("-3"));
    assert!(!Number::identify("+3"));
    assert!(!Number::identify("a1"));
    assert!(!Number::identify("1a"));
    assert!(!Number::identify("1.5"));
    assert!(!Number::identify("1 2"));
    assert!(!Number::identify("٣"));
    assert!(!Number::identify("abc"));
    assert!(!Number::identify(""));
}

#[test]
fn search_answers_for_pattern_and_text() {
    assert!(is_match("b+", "abba"));
    assert!(!is_match("b+", "aaa"));
    assert!(!is_match("a", ""));
    assert!(!is_match("(", "("));
    assert!(is_match(IDENTIFIER_PATTERN, "a"));
    assert!(!is_match(IDENTIFIER_PATTERN, "é a"));
    assert!(!is_match(IDENTIFIER_PATTERN, "a\n"));
    assert!(is_match(NUMBER_PATTERN, "3"));
    assert!(!is_match(NUMBER_PATTERN, "3\n"));
    assert!(!is_match(NUMBER_PATTERN, "٣"));
    assert!(outcome(Some(true)));
    assert!(!outcome(Some(false)));
    assert!(!outcome(None));
}

#[test]
fn kinds_are_read_from_keywords() {
    assert_eq!(TwoParamType::from_str("copy"), Ok(TwoParamType::Copy));
    assert_eq!(TwoParamType::from_str("COPY"), Ok(TwoParamType::Copy));
    assert_eq!(TwoParamType::from_str("cop"), Err(()));
    assert_eq!(OneParamType::from_str("clear"), Ok(OneParamType::Clear));
    assert_eq!(OneParamType::from_str("decr"), Ok(OneParamType::Decr));
    assert_eq!(OneParamType::from_str("incr"), Ok(OneParamType::Incr));
    assert_eq!(OneParamType::from_str("Incr"), Ok(OneParamType::Incr));
    assert_eq!(OneParamType::from_str("copy"), Err(()));
    assert_eq!(OneParamType::from_str(""), Err(()));
}

#[test]
fn words_are_classified_in_order() {
    assert_eq!(classify("copy"), WordClass::TwoParam(TwoParamType::Copy));
    assert_eq!(classify("decr"), WordClass::OneParam(OneParamType::Decr));
    assert_eq!(classify("While"), WordClass::While);
    assert_eq!(classify("not"), WordClass::Fluff);
    assert_eq!(classify("end"), WordClass::End);
    assert_eq!(classify("ending"), WordClass::Identifier);
    assert_eq!(classify("a1"), WordClass::Identifier);
    assert_eq!(classify("17"), WordClass::Number);
    assert_eq!(classify("1a"), WordClass::Other);
    assert_eq!(classify("-7"), WordClass::Other);
    assert_eq!(classify("1.5"), WordClass::Other);
    assert_eq!(classify("?"), WordClass::Other);
    assert_eq!(plain_class(true, true), WordClass::Identifier);
    assert_eq!(plain_class(true, false), WordClass::Identifier);
    assert_eq!(plain_class(false, true), WordClass::Number);
    assert_eq!(plain_class(false, false), WordClass::Other);
}

#[test]
fn spells_folds_ascii_capitals_only() {
    assert!(spells("End", "end"));
    assert!(!spells("end", "End"));
    assert!(!spells("\u{212A}", "k"));
    assert!(spells("", ""));
    assert!(!spells("e", "end"));
}

#[test]
fn separators_are_white_space_and_semicolon() {
    for c in [' ', '\t', '\n', '\r', '\u{0B}', '\u{0C}', '\u{85}', '\u{A0}', '\u{1680}'] {
        assert!(separates(c));
    }
    for c in ['\u{2000}', '\u{200A}', '\u{2028}', '\u{2029}', '\u{202F}', '\u{205F}', '\u{3000}'] {
        assert!(separates(c));
    }
    assert!(separates(';'));
    for c in ['a', '#', ',', '\u{200B}', '\u{1F}', '\u{FEFF}'] {
        assert!(!separates(c));
    }
    for n in 0..0x3100u32 {
        if let Some(c) = char::from_u32(n) {
            assert_eq!(separates(c), c.is_whitespace() || c == ';');
        }
    }
}

#[test]
fn runs_of_digits_are_parsed_as_std_does() {
    let words = [
        "0", "7", "007", "", "1_0", " 1", "1 ", "1a", "a1",
        "170141183460469231731687303715884105727", "170141183460469231731687303715884105728",
        "99999999999999999999999999999999999999999999", "٣", "1.0", "0x10",
    ];
    for w in words {
        assert_eq!(parse_i128(w), w.parse::<i128>().ok());
    }
    assert_eq!(parse_i128("42"), Some(42));
    assert_eq!(parse_i128("170141183460469231731687303715884105727"), Some(i128::MAX));
}

#[test]
fn a_sign_is_no_digit() {
    for w in ["+7", "-7", "-0", "+", "-", "--1", "+-1", "-170141183460469231731687303715884105728"] {
        assert_eq!(parse_i128(w), None);
    }
}

#[test]
fn tokens_become_statements() {
    let x = Identifier { ident: "x" };
    let w = While { param: x, num: Number { value: 3 } };
    let t = TwoParam { one: x, two: x, ty: TwoParamType::Copy };
    let o = OneParam { one: x, ty: OneParamType::Clear };
    assert_eq!(Statement::try_from(Token::While(w)), Ok(Statement::While(w)));
    assert_eq!(Statement::try_from(Token::TwoParam(t)), Ok(Statement::TwoParam(t)));
    assert_eq!(Statement::try_from(Token::OneParam(o)), Ok(Statement::OneParam(o)));
    assert_eq!(Statement::try_from(Token::Fluff), Ok(Statement::Fluff));
    assert_eq!(Statement::try_from(Token::End), Ok(Statement::End));
    assert_eq!(Statement::try_from(Token::EOF), Ok(Statement::EOF));
    assert_eq!(
        Statement::try_from(Token::Identifier(x)),
        Err(NotAStatement { token: Token::Identifier(x) })
    );
    assert_eq!(
        Statement::try_from(Token::Number(Number { value: 1 })),
        Err(NotAStatement { token: Token::Number(Number { value: 1 }) })
    );
}

#[test]
fn statements_name_their_variables() {
    let x = Identifier { ident: "x" };
    let y = Identifier { ident: "y" };
    assert_eq!(While { param: x, num: Number { value: 3 } }.get_variables(), vec!["x"]);
    assert_eq!(TwoParam { one: x, two: y, ty: TwoParamType::Copy }.get_variables(), vec!["x", "y"]);
    assert_eq!(OneParam { one: y, ty: OneParamType::Incr }.get_variables(), vec!["y"]);
    assert!(StatementImpl::get_variables(&Fluff {}).is_empty());
    assert!(StatementImpl::get_variables(&End {}).is_empty());
    assert!(StatementImpl::get_variables(&EOF {}).is_empty());
    assert_eq!(
        Statement::TwoParam(TwoParam { one: y, two: x, ty: TwoParamType::Copy }).get_variables(),
        vec!["y", "x"]
    );
    assert!(Statement::End.get_variables().is_empty());
}

#[test]
fn statements_compile_into_the_generator() {
    use_statements();
}

fn use_statements() {
    let x = Identifier { ident: "x" };
    let mut c = bbvm::convert::Converter::new(vec!["x"], &vec![]).unwrap();
    OneParam { one: x, ty: OneParamType::Incr }.compile(&mut c).unwrap();
    OneParam { one: x, ty: OneParamType::Incr }.compile(&mut c).unwrap();
    While { param: x, num: Number { value: 5 } }.compile(&mut c).unwrap();
    OneParam { one: x, ty: OneParamType::Incr }.compile(&mut c).unwrap();
    StatementImpl::compile(&Fluff {}, &mut c).unwrap();
    StatementImpl::compile(&End {}, &mut c).unwrap();
    TwoParam { one: x, two: x, ty: TwoParamType::Copy }.compile(&mut c).unwrap();
    OneParam { one: x, ty: OneParamType::Decr }.compile(&mut c).unwrap();
    Statement::Fluff.compile(&mut c).unwrap();
    Statement::EOF.compile(&mut c).unwrap();
    assert_eq!(
        c.into_program().run(&vec![], 100),
        bbvm::ir::Outcome::Finished(vec![bbvm::ir::Report { var: 0, value: 4 }])
    );
}
