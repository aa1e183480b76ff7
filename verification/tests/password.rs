use intcomputer::password::{count_valid, Pin};

#[test]
fn equal_adjacent() {
    assert!(!Pin::new(123456).adjacent());
    assert!(Pin::new(122456).adjacent());
}

#[test]
fn rising() {
    assert!(!Pin::new(123454).growing());
    assert!(Pin::new(123455).growing());
}

#[test]
fn digits_are_split_from_the_left() {
    let pin = Pin::new(145852);
    assert_eq!((pin.0, pin.1, pin.2, pin.3, pin.4, pin.5), (1, 4, 5, 8, 5, 2));
    let pin = Pin::new(7);
    assert_eq!((pin.0, pin.1, pin.2, pin.3, pin.4, pin.5), (0, 0, 0, 0, 0, 7));
    let pin = Pin::new(12345678);
    assert_eq!((pin.0, pin.1, pin.2, pin.3, pin.4, pin.5), (123, 4, 5, 6, 7, 8));
}

#[test]
fn exact_pairs_are_not_part_of_a_longer_run() {
    assert!(Pin::new(112233).adjacent_doubles());
    assert!(!Pin::new(123444).adjacent_doubles());
    assert!(Pin::new(111122).adjacent_doubles());
    assert!(Pin::new(112345).adjacent_doubles());
    assert!(!Pin::new(111111).adjacent_doubles());
    assert!(Pin::new(111111).adjacent());
    assert!(!Pin::new(223450).growing());
    assert!(!Pin::new(123789).adjacent());
}

#[test]
fn valid_codes_are_counted() {
    assert_eq!(count_valid(111111, 111111, false), 1);
    assert_eq!(count_valid(111111, 111111, true), 0);
    assert_eq!(count_valid(112233, 112233, true), 1);
    assert_eq!(count_valid(111110, 111122, false), 10);
    assert_eq!(count_valid(111110, 111122, true), 1);
    assert_eq!(count_valid(20, 10, false), 0);
    assert_eq!(count_valid(145852, 616942, false), 1767);
    assert_eq!(count_valid(145852, 616942, true), 1192);
}
