use intcomputer::signal::{
    fft, generate_pattern, num_to_vec, offset_of, part_two, part_two_rounds, phases,
    repeated_tail, to_str,
};

#[test]
fn test_conversion() {
    assert_eq!(num_to_vec(&"12345678"), vec![1, 2, 3, 4, 5, 6, 7, 8]);
}

#[test]
fn test_fft() {
    assert_eq!(
        fft(&vec![1, 2, 3, 4, 5, 6, 7, 8]),
        vec![4, 8, 2, 2, 6, 1, 5, 8]
    );
}

#[test]
fn test_phases() {
    let mut num = num_to_vec(&"80871224585914546619083218645595");
    phases(&mut num, 100);
    assert_eq!(num[0..8], [2, 4, 1, 7, 6, 1, 7, 6]);
}

#[test]
fn test_part_two() {
    let num = num_to_vec(&"54321");
    assert_eq!(part_two(&num), [5, 0, 6, 3, 1]);
}

#[test]
fn pattern_repeats_each_value_and_skips_the_first() {
    assert_eq!(generate_pattern(8, 1), vec![1, 0, -1, 0, 1, 0, -1, 0]);
    assert_eq!(generate_pattern(8, 2), vec![0, 1, 1, 0, 0, -1, -1, 0]);
    assert_eq!(generate_pattern(8, 3), vec![0, 0, 1, 1, 1, 0, 0, 0]);
    assert_eq!(generate_pattern(5, 0), Vec::<i32>::new());
    assert_eq!(generate_pattern(0, 3), Vec::<i32>::new());
}

#[test]
fn conversion_sets_white_space_aside() {
    assert_eq!(num_to_vec("  0123\n"), vec![0, 1, 2, 3]);
    assert_eq!(num_to_vec(""), Vec::<i32>::new());
}

#[test]
fn zero_phases_change_nothing() {
    let mut num = vec![1, 2, 3];
    phases(&mut num, 0);
    assert_eq!(num, vec![1, 2, 3]);
    let mut num = vec![1, 2, 3, 4, 5, 6, 7, 8];
    phases(&mut num, 4);
    assert_eq!(num, vec![0, 1, 0, 2, 9, 4, 9, 8]);
}

#[test]
fn transform_of_nothing_is_nothing() {
    assert_eq!(fft(&vec![]), Vec::<i32>::new());
    assert_eq!(part_two(&vec![]), Vec::<i32>::new());
    assert_eq!(fft(&vec![-7]), vec![7]);
}

#[test]
fn message_starts_at_the_offset() {
    let input = num_to_vec("03036732577212944063491565474664");
    let offset = offset_of(&input);
    assert_eq!(offset, 303673);
    let mut tail = repeated_tail(&input, 10000, offset);
    assert_eq!(tail.len(), 32 * 10000 - 303673);
    part_two_rounds(&mut tail, 100);
    assert_eq!(to_str(&tail), "84462026");
}

#[test]
fn signal_is_repeated_from_the_offset_on() {
    assert_eq!(repeated_tail(&vec![1, 2, 3], 3, 4), vec![2, 3, 1, 2, 3]);
    assert_eq!(repeated_tail(&vec![1, 2, 3], 3, 0), vec![1, 2, 3, 1, 2, 3, 1, 2, 3]);
    assert_eq!(repeated_tail(&vec![1, 2, 3], 3, 9), Vec::<i32>::new());
    assert_eq!(repeated_tail(&vec![1, 2, 3], 3, 100), Vec::<i32>::new());
    assert_eq!(repeated_tail(&vec![1, 2, 3], 0, 0), Vec::<i32>::new());
    assert_eq!(repeated_tail(&vec![], 5, 0), Vec::<i32>::new());
}

#[test]
fn first_eight_digits_are_written() {
    assert_eq!(to_str(&vec![0, 1, 2, 3, 4, 5, 6, 7, 8, 9]), "01234567");
    assert_eq!(offset_of(&vec![0, 0, 0, 0, 0, 0, 0]), 0);
    assert_eq!(offset_of(&vec![9, 9, 9, 9, 9, 9, 9, 1]), 9999999);
}

#[test]
fn rounds_for_the_back_half_repeat_the_phase() {
    let mut num = vec![5, 4, 3, 2, 1];
    part_two_rounds(&mut num, 0);
    assert_eq!(num, vec![5, 4, 3, 2, 1]);
    part_two_rounds(&mut num, 1);
    assert_eq!(num, vec![5, 0, 6, 3, 1]);
    part_two_rounds(&mut num, 2);
    assert_eq!(num, part_two(&part_two(&vec![5, 0, 6, 3, 1])));
}
