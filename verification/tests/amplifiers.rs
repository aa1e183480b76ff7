use intcomputer::amplifiers::{max_thrust, max_thrust_feedback, run_pipeline, run_pipeline_feedback};

#[test]
fn main_test_p1() {
    let program = vec![
        3, 15, 3, 16, 1002, 16, 10, 16, 1, 16, 15, 15, 4, 15, 99, 0, 0,
    ];
    assert_eq!(run_pipeline(&program, vec![4, 3, 2, 1, 0]), 43210);
}

#[test]
fn main_test_p2() {
    let program = vec![
        3, 23, 3, 24, 1002, 24, 10, 24, 1002, 23, -1, 23, 101, 5, 23, 23, 1, 24, 23, 23, 4, 23,
        99, 0, 0,
    ];
    assert_eq!(run_pipeline(&program, vec![0, 1, 2, 3, 4]), 54321);
}

#[test]
fn main_test_p3() {
    let program = vec![
        3, 31, 3, 32, 1002, 32, 10, 32, 1001, 31, -2, 31, 1007, 31, 0, 33, 1002, 33, 7, 33, 1,
        33, 31, 31, 1, 32, 31, 31, 4, 31, 99, 0, 0, 0,
    ];
    assert_eq!(run_pipeline(&program, vec![1, 0, 4, 3, 2]), 65210);
}

#[test]
fn main_test_p4() {
    let program = vec![
        3, 26, 1001, 26, -4, 26, 3, 27, 1002, 27, 2, 27, 1, 27, 26, 27, 4, 27, 1001, 28, -1,
        28, 1005, 28, 6, 99, 0, 0, 5,
    ];
    assert_eq!(
        run_pipeline_feedback(&program, vec![9, 8, 7, 6, 5]),
        139629729
    );
}

#[test]
fn main_test_p5() {
    let program = vec![
        3, 52, 1001, 52, -5, 52, 3, 53, 1, 52, 56, 54, 1007, 54, 5, 55, 1005, 55, 26, 1001, 54,
        -5, 54, 1105, 1, 12, 1, 53, 54, 53, 1008, 54, 0, 55, 1001, 55, 1, 55, 2, 53, 55, 53, 4,
        53, 1001, 56, -1, 56, 1005, 56, 6, 99, 0, 0, 0, 0, 10,
    ];
    assert_eq!(run_pipeline_feedback(&program, vec![9, 7, 8, 5, 6]), 18216);
}

#[test]
fn best_order_of_the_series_is_found() {
    let program = vec![
        3, 15, 3, 16, 1002, 16, 10, 16, 1, 16, 15, 15, 4, 15, 99, 0, 0,
    ];
    assert_eq!(max_thrust(&program), 43210);
    let program = vec![
        3, 23, 3, 24, 1002, 24, 10, 24, 1002, 23, -1, 23, 101, 5, 23, 23, 1, 24, 23, 23, 4, 23,
        99, 0, 0,
    ];
    assert_eq!(max_thrust(&program), 54321);
    let program = vec![
        3, 31, 3, 32, 1002, 32, 10, 32, 1001, 31, -2, 31, 1007, 31, 0, 33, 1002, 33, 7, 33, 1,
        33, 31, 31, 1, 32, 31, 31, 4, 31, 99, 0, 0, 0,
    ];
    assert_eq!(max_thrust(&program), 65210);
}

#[test]
fn best_order_of_the_ring_is_found() {
    let program = vec![
        3, 26, 1001, 26, -4, 26, 3, 27, 1002, 27, 2, 27, 1, 27, 26, 27, 4, 27, 1001, 28, -1,
        28, 1005, 28, 6, 99, 0, 0, 5,
    ];
    assert_eq!(max_thrust_feedback(&program), 139629729);
    let program = vec![
        3, 52, 1001, 52, -5, 52, 3, 53, 1, 52, 56, 54, 1007, 54, 5, 55, 1005, 55, 26, 1001, 54,
        -5, 54, 1105, 1, 12, 1, 53, 54, 53, 1008, 54, 0, 55, 1001, 55, 1, 55, 2, 53, 55, 53, 4,
        53, 1001, 56, -1, 56, 1005, 56, 6, 99, 0, 0, 0, 0, 10,
    ];
    assert_eq!(max_thrust_feedback(&program), 18216);
}

#[test]
fn series_passes_each_output_on() {
    // Each amplifier puts out ten times its input signal plus its phase.
    let program = vec![3, 15, 3, 16, 1002, 16, 10, 16, 1, 16, 15, 15, 4, 15, 99, 0, 0];
    assert_eq!(run_pipeline(&program, vec![1, 2, 3, 4, 5]), 12345);
    assert_eq!(run_pipeline(&program, vec![0, 0, 0, 0, 7, 9]), 7);
}
