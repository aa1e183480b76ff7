use intcomputer::image::{checksum, combine_layers, compose, count_digits, read_image, render};

#[test]
fn main_test_count() {
    let vec = vec![0, 1, 1, 2, 1, 0];
    assert_eq!(count_digits(&vec, 0), 2);
    assert_eq!(count_digits(&vec, 1), 3);
    assert_eq!(count_digits(&vec, 2), 1);
    assert_eq!(count_digits(&vec[0..2], 1), 1);
}

#[test]
fn test_combine() {
    let mut out = [0, 2, 2, 2];
    let l2 = [1, 1, 2, 2];
    let l3 = [2, 2, 1, 2];
    let l4 = [0, 0, 0, 0];

    combine_layers(&l2, &mut out);
    combine_layers(&l3, &mut out);
    combine_layers(&l4, &mut out);

    assert_eq!(out, [0, 1, 1, 0]);
}

#[test]
fn count_of_an_absent_digit_is_zero() {
    assert_eq!(count_digits(&[], 0), 0);
    assert_eq!(count_digits(&[1, 2, 3], 7), 0);
}

#[test]
fn combine_stops_where_the_shorter_ends() {
    let mut image = [2, 2, 2, 2];
    combine_layers(&[1, 0], &mut image);
    assert_eq!(image, [1, 0, 2, 2]);
    let mut image = [2, 1];
    combine_layers(&[0, 0, 0, 0], &mut image);
    assert_eq!(image, [0, 1]);
}

#[test]
fn picture_is_read_digit_by_digit() {
    assert_eq!(read_image("123456789012\n"), vec![1, 2, 3, 4, 5, 6, 7, 8, 9, 0, 1, 2]);
    assert_eq!(read_image("  "), Vec::<u32>::new());
}

#[test]
fn checksum_comes_from_the_layer_with_fewest_zeros() {
    assert_eq!(checksum(&read_image("123456789012"), 6), Some(1));
    assert_eq!(checksum(&vec![], 6), None);
    // Both layers hold one zero; the first one counts.
    assert_eq!(checksum(&vec![0, 1, 1, 2, 0, 1, 2, 2], 4), Some(2));
    assert_eq!(checksum(&vec![0, 0, 1, 2, 0, 1, 2, 2], 4), Some(2));
    // The last layer is shorter and holds no zero.
    assert_eq!(checksum(&vec![0, 1, 2, 0, 1, 2, 1, 1], 3), Some(0));
    assert_eq!(checksum(&vec![0, 1, 2, 0, 1, 2, 1, 2], 3), Some(1));
}

#[test]
fn layers_are_composed_top_down() {
    assert_eq!(compose(&read_image("0222112222120000"), 4), vec![0, 1, 1, 0]);
    assert_eq!(compose(&vec![], 3), vec![2, 2, 2]);
    assert_eq!(compose(&vec![2, 1, 2, 0, 2], 3), vec![0, 1, 2]);
}

#[test]
fn picture_is_shown_in_rows() {
    assert_eq!(render(&vec![0, 1, 1, 0], 2), vec![" \u{2588}", "\u{2588} "]);
    assert_eq!(render(&vec![1, 2, 1, 0, 1], 3), vec!["\u{2588} \u{2588}", " \u{2588}"]);
    assert_eq!(render(&vec![], 3), Vec::<String>::new());
}
