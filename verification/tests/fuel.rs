use intcomputer::fuel::{
    fuel_required_complex, fuel_required_simple, parse_masses, total_fuel_complex,
    total_fuel_simple,
};

#[test]
fn test_fuel_simple() {
    assert_eq!(fuel_required_simple(12), 2);
    assert_eq!(fuel_required_simple(14), 2);
    assert_eq!(fuel_required_simple(1969), 654);
    assert_eq!(fuel_required_simple(100756), 33583);
}

#[test]
fn test_fuel_complex() {
    assert_eq!(fuel_required_complex(12), 2);
    assert_eq!(fuel_required_complex(14), 2);
    assert_eq!(fuel_required_complex(1969), 966);
    assert_eq!(fuel_required_complex(100756), 50346);
}

#[test]
fn small_and_negative_masses_need_no_fuel() {
    assert_eq!(fuel_required_simple(0), 0);
    assert_eq!(fuel_required_simple(8), 0);
    assert_eq!(fuel_required_simple(9), 1);
    assert_eq!(fuel_required_simple(-7), 0);
    assert_eq!(fuel_required_simple(i32::MIN), 0);
    assert_eq!(fuel_required_complex(8), 0);
    assert_eq!(fuel_required_complex(-100), 0);
    assert_eq!(fuel_required_simple(i32::MAX), 715827880);
}

#[test]
fn complex_fuel_never_outweighs_the_mass() {
    for mass in [0, 9, 33, 1969, 100756, i32::MAX] {
        let fuel = fuel_required_complex(mass);
        assert!(0 <= fuel && fuel <= mass);
    }
}

#[test]
fn totals_add_up() {
    let masses = vec![12, 14, 1969, 100756];
    assert_eq!(total_fuel_simple(&masses), 2 + 2 + 654 + 33583);
    assert_eq!(total_fuel_complex(&masses), 2 + 2 + 966 + 50346);
    assert_eq!(total_fuel_simple(&vec![]), 0);
    assert_eq!(total_fuel_complex(&vec![]), 0);
}

#[test]
fn masses_are_read_one_to_the_line() {
    assert_eq!(parse_masses("12\n14\n1969\n100756\n"), Some(vec![12, 14, 1969, 100756]));
    assert_eq!(parse_masses("-5\r\n+7"), Some(vec![-5, 7]));
    assert_eq!(parse_masses(""), Some(vec![]));
    assert_eq!(parse_masses("2147483647\n-2147483648"), Some(vec![i32::MAX, i32::MIN]));
    assert_eq!(parse_masses("2147483648"), None);
    assert_eq!(parse_masses("-2147483649"), None);
    assert_eq!(parse_masses("12\n\n14"), None);
    assert_eq!(parse_masses("12 \n14"), None);
    assert_eq!(parse_masses("twelve"), None);
}
