use bbvm::convert::{BuildError, Converter};
use bbvm::ir::{Block, Edge, Inst, Label, Outcome, Program, Report, Terminator, Value};

fn run(c: Converter) -> Outcome {
    c.into_program().run(&vec![], 1000)
}

fn reports(values: &[u64]) -> Outcome {
    Outcome::Finished(
        values.iter().enumerate().map(|(var, value)| Report { var, value: *value }).collect(),
    )
}

#[test]
fn clear_incr_incr_reports_two() {
    let mut c = Converter::new(vec!["x"], &vec![]).unwrap();
    c.add_clear("x").unwrap();
    c.add_incr("x").unwrap();
    c.add_incr("x").unwrap();
    c.add_eof().unwrap();
    assert_eq!(c.program().names, vec!["x".to_string()]);
    assert_eq!(run(c), reports(&[2]));
}

#[test]
fn loop_counts_down_and_copy_follows() {
    let mut c = Converter::new(vec!["x", "y"], &vec![]).unwrap();
    c.add_incr("x").unwrap();
    c.add_incr("x").unwrap();
    c.add_decr("x").unwrap();
    c.add_clear("y").unwrap();
    c.add_while("x", 0).unwrap();
    c.add_decr("x").unwrap();
    c.add_end().unwrap();
    c.add_copy("x", "y").unwrap();
    c.add_eof().unwrap();
    assert_eq!(run(c), reports(&[0, 0]));
}

#[test]
fn end_without_while_is_refused_at_once() {
    let mut c = Converter::new(vec!["x"], &vec![]).unwrap();
    c.add_incr("x").unwrap();
    assert_eq!(c.add_end(), Err(BuildError::UnmatchedEnd));
    assert_eq!(c.depth(), 1);
}

#[test]
fn unclosed_loop_is_refused_at_the_end() {
    let mut c = Converter::new(vec!["x"], &vec![]).unwrap();
    c.add_while("x", 3).unwrap();
    assert_eq!(c.depth(), 2);
    assert_eq!(c.add_eof(), Err(BuildError::UnclosedLoop));
    assert!(!c.is_finished());
}

#[test]
fn unknown_variable_is_refused() {
    let mut c = Converter::new(vec!["x"], &vec![]).unwrap();
    assert_eq!(c.add_incr("y"), Err(BuildError::UnknownVariable));
    assert_eq!(c.add_decr("y"), Err(BuildError::UnknownVariable));
    assert_eq!(c.add_clear("y"), Err(BuildError::UnknownVariable));
    assert_eq!(c.add_copy("x", "y"), Err(BuildError::UnknownVariable));
    assert_eq!(c.add_copy("y", "x"), Err(BuildError::UnknownVariable));
    assert_eq!(c.add_while("y", 0), Err(BuildError::UnknownVariable));
    assert!(Converter::new(vec!["x"], &vec!["y"]).is_err());
}

#[test]
fn duplicate_variable_is_refused() {
    assert!(matches!(
        Converter::new(vec!["x", "y", "x"], &vec![]),
        Err(BuildError::DuplicateVariable)
    ));
}

#[test]
fn nothing_follows_the_end_of_the_program() {
    let mut c = Converter::new(vec!["x"], &vec![]).unwrap();
    c.add_eof().unwrap();
    assert!(c.is_finished());
    assert_eq!(c.add_incr("x"), Err(BuildError::Finished));
    assert_eq!(c.add_end(), Err(BuildError::Finished));
    assert_eq!(c.add_eof(), Err(BuildError::Finished));
}

#[test]
fn generator_runs_its_program() {
    let mut c = Converter::new(vec!["x"], &vec![]).unwrap();
    c.add_incr("x").unwrap();
    assert_eq!(c.run(&vec![], 10), Outcome::Fault);
    c.add_eof().unwrap();
    assert_eq!(c.run(&vec![], 10), reports(&[1]));
    assert_eq!(c.run(&vec![], 0), Outcome::OutOfFuel);
}

#[test]
fn decr_stops_at_zero() {
    let mut c = Converter::new(vec!["x"], &vec![]).unwrap();
    c.add_decr("x").unwrap();
    c.add_decr("x").unwrap();
    c.add_eof().unwrap();
    assert_eq!(run(c), reports(&[0]));
}

#[test]
fn copy_onto_itself_changes_nothing() {
    let mut c = Converter::new(vec!["x"], &vec![]).unwrap();
    c.add_incr("x").unwrap();
    let before = c.frame().clone();
    let insts = c.program().insts.len();
    c.add_copy("x", "x").unwrap();
    assert_eq!(c.frame(), &before);
    assert_eq!(c.program().insts.len(), insts);
    c.add_eof().unwrap();
    assert_eq!(run(c), reports(&[1]));
}

#[test]
fn loop_is_skipped_when_the_bound_is_met() {
    let mut c = Converter::new(vec!["x", "y"], &vec![]).unwrap();
    c.add_while("x", 0).unwrap();
    c.add_incr("y").unwrap();
    c.add_incr("x").unwrap();
    c.add_end().unwrap();
    c.add_eof().unwrap();
    assert_eq!(run(c), reports(&[0, 0]));
}

#[test]
fn loop_runs_until_the_bound_is_met() {
    let mut c = Converter::new(vec!["x", "y"], &vec![]).unwrap();
    c.add_while("x", 5).unwrap();
    c.add_incr("x").unwrap();
    c.add_incr("y").unwrap();
    c.add_incr("y").unwrap();
    c.add_end().unwrap();
    c.add_eof().unwrap();
    assert_eq!(run(c), reports(&[5, 10]));
}

#[test]
fn loop_that_never_meets_its_bound_builds_and_runs_on() {
    let mut c = Converter::new(vec!["x"], &vec![]).unwrap();
    c.add_while("x", 5).unwrap();
    c.add_clear("x").unwrap();
    c.add_end().unwrap();
    c.add_eof().unwrap();
    assert_eq!(c.into_program().run(&vec![], 10_000), Outcome::OutOfFuel);
}

#[test]
fn nested_loops_multiply() {
    let mut c = Converter::new(vec!["i", "j", "n"], &vec![]).unwrap();
    c.add_while("i", 3).unwrap();
    c.add_clear("j").unwrap();
    c.add_while("j", 4).unwrap();
    c.add_incr("j").unwrap();
    c.add_incr("n").unwrap();
    assert_eq!(c.depth(), 3);
    c.add_end().unwrap();
    assert_eq!(c.depth(), 2);
    c.add_incr("i").unwrap();
    c.add_end().unwrap();
    assert_eq!(c.depth(), 1);
    c.add_eof().unwrap();
    assert_eq!(run(c), reports(&[3, 4, 12]));
}

#[test]
fn values_are_swapped_through_the_merge_points() {
    let mut c = Converter::new(vec!["a", "b", "n", "t"], &vec![]).unwrap();
    c.add_incr("a").unwrap();
    c.add_while("n", 3).unwrap();
    c.add_copy("a", "t").unwrap();
    c.add_copy("b", "a").unwrap();
    c.add_copy("t", "b").unwrap();
    c.add_incr("n").unwrap();
    c.add_end().unwrap();
    c.add_eof().unwrap();
    assert_eq!(run(c), reports(&[0, 1, 3, 1]));
}

#[test]
fn bound_beyond_the_values_is_never_met() {
    for bound in [1i128 << 64, (1i128 << 64) + 2, -1, i128::MIN, i128::MAX] {
        let mut c = Converter::new(vec!["x", "n"], &vec![]).unwrap();
        c.add_while("x", bound).unwrap();
        c.add_incr("n").unwrap();
        c.add_end().unwrap();
        c.add_eof().unwrap();
        let p = c.into_program();
        assert_eq!(
            p.blocks[1].term,
            Some(Terminator::Branch { lhs: Value::Inst(0), rhs: bound, equal: 3, differ: 2 })
        );
        assert_eq!(p.run(&vec![], 10_000), Outcome::OutOfFuel);
    }
}

#[test]
fn body_is_entered_when_the_bound_is_two_to_the_64() {
    let mut c = Converter::new(vec!["x"], &vec!["x"]).unwrap();
    c.add_while("x", 1i128 << 64).unwrap();
    c.add_end().unwrap();
    c.add_eof().unwrap();
    let p = c.into_program();
    assert_eq!(p.run(&vec![0], 3), Outcome::OutOfFuel);
    assert_eq!(p.run(&vec![0], 1000), Outcome::OutOfFuel);
}

#[test]
fn largest_value_is_a_bound_that_can_be_met() {
    let mut c = Converter::new(vec!["x"], &vec!["x"]).unwrap();
    c.add_while("x", u64::MAX as i128).unwrap();
    c.add_incr("x").unwrap();
    c.add_end().unwrap();
    c.add_eof().unwrap();
    let p = c.into_program();
    assert_eq!(p.run(&vec![u64::MAX - 2], 100), reports(&[u64::MAX]));
    assert_eq!(p.run(&vec![u64::MAX], 100), reports(&[u64::MAX]));
}

#[test]
fn inputs_start_as_parameters() {
    let mut c = Converter::new(vec!["a", "b", "c"], &vec!["c", "a"]).unwrap();
    assert_eq!(c.frame(), &vec![Value::Param(1), Value::Const(0), Value::Param(0)]);
    c.add_incr("a").unwrap();
    c.add_eof().unwrap();
    let p = c.into_program();
    assert_eq!(p.params, 2);
    assert_eq!(p.run(&vec![10, 20], 10), reports(&[21, 0, 10]));
    assert_eq!(p.run(&vec![10], 10), Outcome::Fault);
}

#[test]
fn incr_wraps_around() {
    let mut c = Converter::new(vec!["x"], &vec!["x"]).unwrap();
    c.add_incr("x").unwrap();
    c.add_eof().unwrap();
    assert_eq!(c.into_program().run(&vec![u64::MAX], 10), reports(&[0]));
}

#[test]
fn decr_builds_a_guarded_subtraction() {
    let mut c = Converter::new(vec!["x"], &vec![]).unwrap();
    c.add_decr("x").unwrap();
    let p = c.program();
    assert_eq!(
        p.insts,
        vec![
            Inst::Decr(Value::Const(0)),
            Inst::Phi {
                first: Edge { value: Value::Const(0), from: 0 },
                second: Some(Edge { value: Value::Inst(0), from: 2 }),
            },
        ]
    );
    assert_eq!(
        p.blocks,
        vec![
            Block {
                label: Label::Entry,
                start: 0,
                end: 0,
                term: Some(Terminator::Branch {
                    lhs: Value::Const(0),
                    rhs: 0,
                    equal: 1,
                    differ: 2,
                }),
            },
            Block { label: Label::AlreadyZero, start: 1, end: 2, term: None },
            Block { label: Label::NotZero, start: 0, end: 1, term: Some(Terminator::Jump(1)) },
        ]
    );
    assert_eq!(c.frame(), &vec![Value::Inst(1)]);
}

#[test]
fn while_builds_header_body_and_exit() {
    let mut c = Converter::new(vec!["x", "y"], &vec![]).unwrap();
    c.add_while("y", 7).unwrap();
    assert_eq!(c.frame(), &vec![Value::Inst(0), Value::Inst(1)]);
    c.add_incr("x").unwrap();
    c.add_end().unwrap();
    assert_eq!(c.frame(), &vec![Value::Inst(0), Value::Inst(1)]);
    let p = c.program();
    assert_eq!(
        p.insts,
        vec![
            Inst::Phi {
                first: Edge { value: Value::Const(0), from: 0 },
                second: Some(Edge { value: Value::Inst(2), from: 2 }),
            },
            Inst::Phi {
                first: Edge { value: Value::Const(0), from: 0 },
                second: Some(Edge { value: Value::Inst(1), from: 2 }),
            },
            Inst::Incr(Value::Inst(0)),
        ]
    );
    assert_eq!(
        p.blocks,
        vec![
            Block { label: Label::Entry, start: 0, end: 0, term: Some(Terminator::Jump(1)) },
            Block {
                label: Label::Loop,
                start: 0,
                end: 2,
                term: Some(Terminator::Branch {
                    lhs: Value::Inst(1),
                    rhs: 7,
                    equal: 3,
                    differ: 2,
                }),
            },
            Block { label: Label::InnerLoop, start: 2, end: 3, term: Some(Terminator::Jump(1)) },
            Block { label: Label::LoopExit, start: 3, end: 3, term: None },
        ]
    );
}

#[test]
fn broken_programs_fault() {
    let p = Program {
        names: vec!["x".to_string()],
        params: 0,
        insts: vec![Inst::Decr(Value::Const(0))],
        blocks: vec![Block { label: Label::Entry, start: 0, end: 1, term: Some(Terminator::Return) }],
    };
    assert_eq!(p.run(&vec![], 10), Outcome::Fault);
    let p = Program {
        names: vec![],
        params: 0,
        insts: vec![],
        blocks: vec![Block { label: Label::Entry, start: 0, end: 0, term: None }],
    };
    assert_eq!(p.run(&vec![], 10), Outcome::Fault);
    assert_eq!(p.run(&vec![], 0), Outcome::OutOfFuel);
    let p = Program {
        names: vec!["x".to_string()],
        params: 0,
        insts: vec![Inst::Incr(Value::Inst(1)), Inst::Incr(Value::Const(0))],
        blocks: vec![Block { label: Label::Entry, start: 0, end: 2, term: Some(Terminator::Return) }],
    };
    assert_eq!(p.run(&vec![], 10), Outcome::Fault);
    let p = Program {
        names: vec!["x".to_string()],
        params: 0,
        insts: vec![Inst::Phi { first: Edge { value: Value::Const(1), from: 7 }, second: None }],
        blocks: vec![Block { label: Label::Entry, start: 0, end: 1, term: Some(Terminator::Return) }],
    };
    assert_eq!(p.run(&vec![], 10), Outcome::Fault);
    let p = Program {
        names: vec![],
        params: 0,
        insts: vec![],
        blocks: vec![Block { label: Label::Entry, start: 0, end: 0, term: Some(Terminator::Jump(4)) }],
    };
    assert_eq!(p.run(&vec![], 10), Outcome::Fault);
}
