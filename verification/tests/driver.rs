use bbvm::convert::BuildError;
use bbvm::driver::{
    collect_variables, compile, generate, place, tokenize, CompileError, ParseError, Place,
};
use bbvm::ir::{Inst, Outcome, Program, Report, Terminator};
use bbvm::lexer::{Expected, LexError};
use bbvm::token::{
    Identifier, NotAStatement, Number, OneParam, OneParamType, Statement, Token, TwoParam,
    TwoParamType, While,
};

fn values(values: &[u64]) -> Outcome {
    Outcome::Finished(
        values.iter().enumerate().map(|(var, value)| Report { var, value: *value }).collect(),
    )
}

#[test]
fn source_runs_to_zero_and_zero() {
    let p = compile("incr x; incr x; decr x; clear y; while x 0 do decr x end; copy x to y")
        .unwrap();
    assert_eq!(p.names, vec!["x".to_string(), "y".to_string()]);
    assert_eq!(p.run(&vec![], 100), values(&[0, 0]));
}

#[test]
fn clear_incr_incr_source_reports_two() {
    let p = compile("clear x; incr x; incr x;").unwrap();
    assert_eq!(p.run(&vec![], 10), values(&[2]));
}

#[test]
fn while_without_bound_does_not_compile() {
    assert_eq!(
        compile("while x"),
        Err(CompileError::Parse(ParseError::Lex(LexError::Operand {
            keyword: "while",
            expected: Expected::Number,
            found: Token::EOF,
        })))
    );
}

#[test]
fn end_without_while_does_not_compile() {
    assert_eq!(compile("incr x; end; incr x;"), Err(CompileError::Build(BuildError::UnmatchedEnd)));
}

#[test]
fn while_without_end_does_not_compile() {
    assert_eq!(
        compile("while x 3 do incr x;"),
        Err(CompileError::Build(BuildError::UnclosedLoop))
    );
}

#[test]
fn bare_name_is_no_statement() {
    assert_eq!(
        tokenize("incr x; y; incr z"),
        Err(ParseError::Statement(NotAStatement {
            token: Token::Identifier(Identifier { ident: "y" }),
        }))
    );
    assert_eq!(
        tokenize("12"),
        Err(ParseError::Statement(NotAStatement { token: Token::Number(Number { value: 12 }) }))
    );
}

#[test]
fn statements_end_with_the_end_of_input() {
    let x = Identifier { ident: "x" };
    let y = Identifier { ident: "y" };
    assert_eq!(
        tokenize("copy x to y; do while y not 2 do incr y; end"),
        Ok(vec![
            Statement::TwoParam(TwoParam { one: x, two: y, ty: TwoParamType::Copy }),
            Statement::Fluff,
            Statement::While(While { param: y, num: Number { value: 2 } }),
            Statement::Fluff,
            Statement::OneParam(OneParam { one: y, ty: OneParamType::Incr }),
            Statement::End,
            Statement::EOF,
        ])
    );
    assert_eq!(tokenize(""), Ok(vec![Statement::EOF]));
}

#[test]
fn table_is_in_dictionary_order_without_repeats() {
    let statements = tokenize("incr zeta; copy b to a; incr b; while ab 1 do incr B end").unwrap();
    assert_eq!(collect_variables(&statements), vec!["B", "a", "ab", "b", "zeta"]);
    let p = generate(&statements).unwrap().into_program();
    assert_eq!(p.names, vec!["B", "a", "ab", "b", "zeta"]);
}

#[test]
fn reports_come_in_table_order() {
    let p = compile("incr b; incr b; incr a; incr c; incr c; incr c;").unwrap();
    assert_eq!(p.names, vec!["a", "b", "c"]);
    assert_eq!(p.run(&vec![], 10), values(&[1, 2, 3]));
}

#[test]
fn place_orders_texts() {
    assert_eq!(place("a", "b"), Place::Before);
    assert_eq!(place("b", "a"), Place::After);
    assert_eq!(place("ab", "ab"), Place::Same);
    assert_eq!(place("a", "ab"), Place::Before);
    assert_eq!(place("ab", "a"), Place::After);
    assert_eq!(place("", ""), Place::Same);
    assert_eq!(place("", "a"), Place::Before);
    assert_eq!(place("Z", "a"), Place::Before);
    assert_eq!(place("é", "z"), Place::After);
}

#[test]
fn nested_source_multiplies() {
    let p = compile(
        "# n = 3 * 4\n\
         while i not 3 do\n\
           clear j;\n\
           while j not 4 do incr j; incr n; end\n\
           incr i;\n\
         end\n",
    )
    .unwrap();
    assert_eq!(p.names, vec!["i", "j", "n"]);
    assert_eq!(p.run(&vec![], 1000), values(&[3, 4, 12]));
    assert_eq!(p.run(&vec![], 5), Outcome::OutOfFuel);
}

#[test]
fn loop_that_never_ends_compiles() {
    let p = compile("while x 1 do clear x end").unwrap();
    assert_eq!(p.run(&vec![], 100_000), Outcome::OutOfFuel);
}

#[test]
fn empty_source_compiles_to_a_return() {
    let p = compile("").unwrap();
    assert!(p.names.is_empty());
    assert_eq!(p.run(&vec![], 1), values(&[]));
}

fn goes(p: &Program, a: usize, b: usize) -> bool {
    match p.blocks[a].term {
        Some(Terminator::Jump(to)) => to == b,
        Some(Terminator::Branch { equal, differ, .. }) => equal == b || differ == b,
        _ => false,
    }
}

#[test]
fn merge_points_are_fed_by_the_blocks_that_go_to_their_block() {
    let p = compile(
        "incr a; while a 5 do decr b; while b 3 do incr b; decr c; end; incr a; end; decr a;",
    )
    .unwrap();
    let mut merge_points = 0;
    for (b, block) in p.blocks.iter().enumerate() {
        assert!(block.term.is_some());
        assert!(block.start <= block.end && block.end <= p.insts.len());
        let mut others = false;
        for i in block.start..block.end {
            match p.insts[i] {
                Inst::Phi { first, second } => {
                    merge_points += 1;
                    assert!(!others);
                    let second = second.unwrap();
                    assert_ne!(first.from, second.from);
                    let feeding: Vec<usize> =
                        (0..p.blocks.len()).filter(|a| goes(&p, *a, b)).collect();
                    let mut edges = vec![first.from, second.from];
                    edges.sort();
                    assert_eq!(feeding, edges);
                }
                _ => others = true,
            }
        }
    }
    assert_eq!(merge_points, 3 + 1 + 3 + 1 + 1);
    for i in 0..p.insts.len() {
        assert_eq!(p.blocks.iter().filter(|b| b.start <= i && i < b.end).count(), 1);
    }
    assert!((0..p.blocks.len()).all(|a| !goes(&p, a, 0)));
}
