use intcomputer::{IntComputer, ProgramState};

fn diagnostic() -> Vec<i64> {
    vec![
        3, 21, 1008, 21, 8, 20, 1005, 20, 22, 107, 8, 21, 20, 1006, 20, 31, 1106, 0, 36, 98, 0, 0,
        1002, 21, 125, 20, 4, 20, 1105, 1, 46, 104, 999, 1105, 1, 46, 1101, 1000, 1, 20, 4, 20,
        1105, 1, 46, 98, 99,
    ]
}

#[test]
fn test_add() {
    let mut comp = IntComputer::new(vec![1, 0, 0, 0, 99]);
    comp.run();
    assert_eq!(comp.program, vec![2, 0, 0, 0, 99])
}

#[test]
fn test_mul() {
    let mut comp = IntComputer::new(vec![2, 3, 0, 3, 99]);
    comp.run();
    assert_eq!(comp.program, vec![2, 3, 0, 6, 99])
}

#[test]
fn test_input() {
    let mut comp = IntComputer::new(vec![3, 0, 99]);
    comp.input.push_back(42);
    comp.run();
    assert_eq!(comp.program, vec![42, 0, 99])
}

#[test]
fn test_output() {
    let mut comp = IntComputer::new(vec![4, 0, 99]);
    comp.run();
    assert_eq!(comp.output.front(), Some(&4))
}

#[test]
fn test_relative() {
    let mut comp = IntComputer::new(vec![109, 2019, 109, -19, 99]);
    comp.run();
    assert_eq!(comp.base, 2000);

    let mut comp = IntComputer::new(vec![204, 2, 99]);
    comp.run();
    assert_eq!(comp.output[0], 99);

    let mut comp = IntComputer::new(vec![109, 3, 204, -2, 99]);
    comp.input.push_back(42);
    comp.run();
    assert_eq!(comp.output[0], 3);
}

#[test]
fn lib_test_p1() {
    let mut comp = IntComputer::new(vec![2, 4, 4, 5, 99, 0]);
    comp.run();
    assert_eq!(comp.program, vec![2, 4, 4, 5, 99, 9801])
}

#[test]
fn lib_test_p2() {
    let mut comp = IntComputer::new(vec![1, 1, 1, 4, 99, 5, 6, 0, 99]);
    comp.run();
    assert_eq!(comp.program, vec![30, 1, 1, 4, 2, 5, 6, 0, 99])
}

#[test]
fn lib_test_p3() {
    let mut comp = IntComputer::new(vec![1, 1, 1, 4, 99, 5, 6, 0, 99]);
    comp.run();
    assert_eq!(comp.program, vec![30, 1, 1, 4, 2, 5, 6, 0, 99])
}

#[test]
fn lib_test_p4() {
    let mut comp = IntComputer::new(diagnostic());
    comp.input.push_back(9);
    comp.run();
    assert_eq!(comp.output.front(), Some(&1001))
}

#[test]
fn lib_test_p5() {
    let mut comp = IntComputer::new(diagnostic());
    comp.input.push_back(8);
    comp.run();
    assert_eq!(comp.output.front(), Some(&1000))
}

#[test]
fn test_p6() {
    let mut comp = IntComputer::new(diagnostic());
    comp.input.push_back(7);
    comp.run();
    assert_eq!(comp.output.front(), Some(&999))
}

#[test]
fn new_machine_is_ready() {
    let comp = IntComputer::new(vec![99]);
    assert_eq!(comp.program, vec![99]);
    assert_eq!(comp.pc, 0);
    assert_eq!(comp.base, 0);
    assert!(comp.input.is_empty());
    assert!(comp.output.is_empty());
    assert_eq!(comp.state, ProgramState::Running);
}

#[test]
fn halt_finishes_and_stays_finished() {
    let mut comp = IntComputer::new(vec![99, 1, 0, 0, 0]);
    comp.run();
    assert_eq!(comp.state, ProgramState::Finished);
    assert_eq!(comp.pc, 0);
    comp.run();
    assert_eq!(comp.state, ProgramState::Finished);
    assert_eq!(comp.program, vec![99, 1, 0, 0, 0]);
}

#[test]
fn input_output_round_trip() {
    let mut comp = IntComputer::new(vec![3, 0, 4, 0, 99]);
    comp.push_input(42);
    comp.run();
    assert_eq!(comp.state, ProgramState::Finished);
    assert_eq!(comp.program[0], 42);
    assert_eq!(comp.pop_output(), 42);
    assert!(comp.output.is_empty());
}

#[test]
fn pop_output_takes_the_oldest_value() {
    let mut comp = IntComputer::new(vec![104, 7, 104, 8, 104, 9, 99]);
    comp.run();
    assert_eq!(comp.pop_output(), 7);
    assert_eq!(comp.pop_output(), 8);
    assert_eq!(comp.pop_output(), 9);
}

#[test]
fn push_input_appends_at_the_tail() {
    let mut comp = IntComputer::new(vec![3, 9, 3, 10, 99, 0, 0, 0, 0, 0, 0]);
    comp.push_input(5);
    comp.push_input(6);
    comp.run();
    assert_eq!(comp.program[9], 5);
    assert_eq!(comp.program[10], 6);
}

#[test]
fn write_beyond_end_grows_with_zeros() {
    let mut comp = IntComputer::new(vec![1101, 20, 22, 9, 99]);
    comp.run();
    assert_eq!(comp.program, vec![1101, 20, 22, 9, 99, 0, 0, 0, 0, 42]);
}

#[test]
fn read_beyond_end_grows_with_zeros() {
    let mut comp = IntComputer::new(vec![4, 7, 99]);
    comp.run();
    assert_eq!(comp.pop_output(), 0);
    assert_eq!(comp.program, vec![4, 7, 99, 0, 0, 0, 0, 0]);
}

#[test]
fn relative_write_uses_the_base() {
    let mut comp = IntComputer::new(vec![109, 5, 21101, 3, 4, 2, 99]);
    comp.run();
    assert_eq!(comp.base, 5);
    assert_eq!(comp.program, vec![109, 5, 21101, 3, 4, 2, 99, 7]);
}

#[test]
fn blocked_run_changes_nothing() {
    let mut comp = IntComputer::new(vec![104, 1, 109, 3, 3, 10, 4, 10, 99, 0, 0]);
    comp.run();
    assert_eq!(comp.state, ProgramState::WaitingForInput);
    let (memory, pc, base) = (comp.program.clone(), comp.pc, comp.base);
    assert_eq!(pc, 4);
    assert_eq!(base, 3);
    comp.run();
    assert_eq!(comp.state, ProgramState::WaitingForInput);
    assert_eq!(comp.program, memory);
    assert_eq!(comp.pc, pc);
    assert_eq!(comp.base, base);
    assert_eq!(comp.output.len(), 1);

    comp.push_input(11);
    comp.push_input(12);
    comp.run();
    assert_eq!(comp.state, ProgramState::Finished);
    assert_eq!(comp.program[10], 11);
    assert_eq!(comp.input.len(), 1);
    assert_eq!(comp.input[0], 12);
    assert_eq!(comp.base, 3);
    assert_eq!(comp.pop_output(), 1);
    assert_eq!(comp.pop_output(), 11);
}

#[test]
fn large_values_multiply_exactly() {
    let mut comp = IntComputer::new(vec![1102, 34915192, 34915192, 7, 4, 7, 99, 0]);
    comp.run();
    let value = comp.pop_output();
    assert_eq!(value, 1219070632396864);
    assert_eq!(value.to_string().len(), 16);
}

#[test]
fn large_immediate_is_output() {
    let mut comp = IntComputer::new(vec![104, 1125899906842624, 99]);
    comp.run();
    assert_eq!(comp.pop_output(), 1125899906842624);
}

#[test]
fn program_reproduces_itself() {
    let quine = vec![109, 1, 204, -1, 1001, 100, 1, 100, 1008, 100, 16, 101, 1006, 101, 0, 99];
    let mut comp = IntComputer::new(quine.clone());
    comp.run();
    let produced: Vec<i64> = comp.output.iter().copied().collect();
    assert_eq!(produced, quine);
}

#[test]
fn jump_out_of_bounds_is_not_taken() {
    let mut comp = IntComputer::new(vec![1105, 1, 50, 104, 5, 99]);
    comp.run();
    assert_eq!(comp.state, ProgramState::Finished);
    assert_eq!(comp.pop_output(), 5);
}

#[test]
fn jump_to_negative_target_is_not_taken() {
    let mut comp = IntComputer::new(vec![1106, 0, -4, 104, 6, 99]);
    comp.run();
    assert_eq!(comp.pop_output(), 6);
}

#[test]
fn jumps_follow_their_condition() {
    let mut comp = IntComputer::new(vec![1105, 0, 6, 1106, 0, 8, 104, 1, 104, 2, 99]);
    comp.run();
    assert_eq!(comp.pop_output(), 2);
    assert!(comp.output.is_empty());
}

#[test]
fn comparisons_yield_one_or_zero() {
    let mut comp = IntComputer::new(vec![1107, 1, 2, 9, 1108, 1, 2, 10, 99, -1, -1]);
    comp.run();
    assert_eq!(comp.program[9], 1);
    assert_eq!(comp.program[10], 0);
}
