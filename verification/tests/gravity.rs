use intcomputer::gravity::{find_inputs, run_program};

#[test]
fn program_runs_with_noun_and_verb() {
    let program = vec![1, 0, 0, 3, 2, 3, 11, 0, 99, 30, 40, 50];
    assert_eq!(run_program(&program, 9, 10), 3500);
    assert_eq!(run_program(&program, 10, 9), 3500);
    assert_eq!(run_program(&program, 9, 9), 3000);
    assert_eq!(program, vec![1, 0, 0, 3, 2, 3, 11, 0, 99, 30, 40, 50]);
}

#[test]
fn first_pair_in_search_order_is_returned() {
    let program = vec![1, 0, 0, 3, 2, 3, 11, 0, 99, 30, 40, 50];
    // With noun 2 the first operand is the verb itself; cell 70 is read as zero.
    assert_eq!(find_inputs(&program, 3500), Some((2, 70)));
    assert_eq!(find_inputs(&program, 4000), Some((2, 80)));
    assert_eq!(find_inputs(&program, 7450), Some((8, 11)));
    assert_eq!(find_inputs(&program, 3), None);
}
