use std::str::FromStr;

use advent::machine::find_repair;
use advent::machine::run_to_completion;
use advent::machine::Instruction;
use advent::machine::Instruction::Acc;
use advent::machine::Instruction::Jmp;
use advent::machine::Instruction::Nop;
use advent::machine::Machine;
use advent::machine::ParseError;
use advent::machine::Program;
use advent::machine::RepairError;
use advent::machine::State;

const SAMPLE: &str = "
    nop +0
    acc +1
    jmp +4
    acc +3
    jmp -3
    acc -99
    acc +1
    jmp -4
    acc +6
";

fn step(m: &mut Machine, pc: i64, ac: i64, ins: Instruction) {
    assert_eq!(m.program.get(m.pc), Some(ins));
    assert!(matches!(m.step(), State::Running));
    assert_eq!(ac, m.ac);
    assert_eq!(pc, m.pc);
}

#[test]
fn test_first() {

    let program = Program::from_str(SAMPLE).unwrap();
    let mut machine = Machine::new(program);

    let steps = [
        (1, 0, Nop(0)),
        (2, 1, Acc(1)),
        (6, 1, Jmp(4)),
        (7, 2, Acc(1)),
        (3, 2, Jmp(-4)),
        (4, 5, Acc(3)),
    ];

    for (pc, ac, ins) in steps {
        step(&mut machine, pc, ac, ins);
    }

    assert!(matches!(machine.step(), State::Looping));
}

#[test]
fn test_second() {

    let mut program = Program::from_str(SAMPLE).unwrap();
    program.swap(7, Nop(-4)).unwrap();

    let mut machine = Machine::new(program);

    let steps = [
        (1, 0, Nop(0)),
        (2, 1, Acc(1)),
        (6, 1, Jmp(4)),
        (7, 2, Acc(1)),
        (8, 2, Nop(-4)),
        (9, 8, Acc(6)),
    ];

    for (pc, ac, ins) in steps {
        step(&mut machine, pc, ac, ins);
    }

    assert!(matches!(machine.step(), State::Exiting));
}

fn sample() -> Program {
    Program::new(vec![
        Nop(0),
        Acc(1),
        Jmp(4),
        Acc(3),
        Jmp(-3),
        Acc(-99),
        Acc(1),
        Jmp(-4),
        Acc(6),
    ])
}

#[test]
fn parsed_sample_matches_literal() {
    let parsed = Program::from_str(SAMPLE).unwrap();
    assert_eq!(parsed.0, sample().0);
}

#[test]
fn sample_loops_then_repairs_at_seven() {
    let outcome = run_to_completion(&sample());
    assert_eq!(outcome.state, State::Looping);
    assert_eq!(outcome.accumulator, 5);
    assert_eq!(outcome.visited, vec![1, 2, 3, 4, 6, 7]);
    assert_eq!(find_repair(&sample()), Ok((7, 8)));
}

#[test]
fn straight_line_exits_with_sum() {
    let program = Program::new(vec![Acc(1), Acc(1), Acc(1)]);
    let outcome = run_to_completion(&program);
    assert_eq!(outcome.state, State::Exiting);
    assert_eq!(outcome.accumulator, 3);
    assert_eq!(outcome.visited, vec![1, 2, 3]);
    assert_eq!(find_repair(&program), Err(RepairError::NothingToRepair));
}

#[test]
fn straight_line_takes_len_plus_one_steps() {
    let mut machine = Machine::new(Program::new(vec![Acc(2), Acc(-5), Acc(7), Acc(1)]));
    for _ in 0..4 {
        assert_eq!(machine.step(), State::Running);
    }
    assert_eq!(machine.step(), State::Exiting);
    assert_eq!(machine.ac, 5);
}

#[test]
fn two_forward_jumps_exit() {
    let program = Program::new(vec![Jmp(1), Jmp(1)]);
    let mut machine = Machine::new(program.duplicate());
    assert_eq!(machine.step(), State::Running);
    assert_eq!(machine.step(), State::Running);
    assert_eq!(machine.step(), State::Exiting);
    let outcome = run_to_completion(&program);
    assert_eq!(outcome.state, State::Exiting);
    assert_eq!(outcome.visited, vec![1, 2]);
    assert_eq!(find_repair(&program), Err(RepairError::NothingToRepair));
}

#[test]
fn loops_without_a_single_swap_fix() {
    let looping = Program::new(vec![Jmp(1), Jmp(-1)]);
    let outcome = run_to_completion(&looping);
    assert_eq!(outcome.state, State::Looping);
    assert_eq!(outcome.visited, vec![0, 1]);
    let hopeless = Program::new(vec![Jmp(2), Jmp(-1), Jmp(-1), Jmp(-1)]);
    assert_eq!(run_to_completion(&hopeless).state, State::Looping);
    assert_eq!(find_repair(&hopeless), Err(RepairError::NoRepairFound));
}

#[test]
fn jump_to_itself_is_repaired() {
    let stuck = Program::new(vec![Jmp(0), Acc(1)]);
    let mut m = Machine::new(stuck.duplicate());
    assert_eq!(m.step(), State::Running);
    assert_eq!(m.step(), State::Looping);
    assert_eq!(find_repair(&stuck), Ok((0, 1)));
}

#[test]
fn steps_stay_within_len_plus_one() {
    let program = Program::new(vec![Jmp(2), Jmp(2), Jmp(-1), Acc(4)]);
    let mut machine = Machine::new(program);
    let mut steps = 1;
    while machine.step() == State::Running {
        steps += 1;
    }
    assert!(steps <= 5);
    assert_eq!(machine.state, State::Exiting);
    assert_eq!(machine.ac, 4);
}

#[test]
fn swap_then_swap_back_restores() {
    let mut program = sample();
    let old = program.swap(4, Nop(-3)).unwrap();
    assert_eq!(old, Jmp(-3));
    assert_eq!(program.get(4), Some(Nop(-3)));
    assert_eq!(program.swap(4, old), Some(Nop(-3)));
    assert_eq!(program.0, sample().0);
    assert_eq!(program.swap(9, Acc(0)), None);
    assert_eq!(program.swap(-1, Acc(0)), None);
    assert_eq!(program.0, sample().0);
}

#[test]
fn runs_repeat_identically() {
    let first = run_to_completion(&sample());
    let second = run_to_completion(&sample());
    assert_eq!(first.state, second.state);
    assert_eq!(first.accumulator, second.accumulator);
    assert_eq!(first.visited, second.visited);
}

#[test]
fn out_of_range_jumps_exit() {
    let back = run_to_completion(&Program::new(vec![Acc(3), Jmp(-5)]));
    assert_eq!(back.state, State::Exiting);
    assert_eq!(back.accumulator, 3);
    assert_eq!(back.visited, vec![1, -4]);
    let empty = run_to_completion(&Program::new(vec![]));
    assert_eq!(empty.state, State::Exiting);
    assert!(empty.visited.is_empty());
    assert_eq!(Program::new(vec![Acc(1)]).get(1), None);
}

#[test]
fn parse_errors_are_reported() {
    assert_eq!(Program::from_str("acc +1\nmul +2").err(), Some(ParseError::InvalidLine));
    assert_eq!(Program::from_str("acc +1\njmp x").err(), Some(ParseError::InvalidValue));
    assert_eq!(Program::from_str("nop +99999999999").err(), Some(ParseError::InvalidValue));
    assert_eq!(Program::from_str("acc  +1").err(), Some(ParseError::InvalidLine));
    let p = Program::from_str("jmp -2147483648\nacc 7").unwrap();
    assert_eq!(p.0, vec![Instruction::Jmp(i32::MIN), Instruction::Acc(7)]);
}
