use sat_nexus::partition::parsers::{parse_input_variables, parse_integer_maybe_power, parse_interval};
use sat_nexus::partition::utils::{bits2num, bits2str, is_power_of_two, num2bits, to_dimacs};

#[test]
fn bits_roundtrip() {
    assert_eq!(num2bits(5, 4), vec![false, true, false, true]);
    assert_eq!(bits2num(&[false, true, false, true]), 5);
    assert_eq!(bits2str(&[true, false, true, true]), "1011");
    for x in [0usize, 1, 6, 255, 1000] {
        assert_eq!(bits2num(&num2bits(x, 12)) as usize, x);
    }
    // Only the low bits fit.
    assert_eq!(num2bits(9, 3), vec![false, false, true]);
    assert_eq!(bits2num(&[]), 0);
}

#[test]
fn powers_of_two() {
    assert!(is_power_of_two(1));
    assert!(is_power_of_two(2));
    assert!(is_power_of_two(1024));
    assert!(!is_power_of_two(3));
    assert!(!is_power_of_two(1000));
}

#[test]
fn dimacs_line() {
    assert_eq!(to_dimacs(&[1, -2, 3]), "1 -2 3 0");
    assert_eq!(to_dimacs(&[]), "0");
    assert_eq!(to_dimacs(&[-2147483648]), "-2147483648 0");
}

#[test]
fn parsers() {
    assert_eq!(parse_interval("3-7"), 3..=7);
    assert_eq!(parse_interval("42"), 42..=42);
    assert_eq!(parse_input_variables("1-3,7,10-11"), vec![1, 2, 3, 7, 10, 11]);
    assert_eq!(parse_input_variables("5"), vec![5]);
    assert_eq!(parse_integer_maybe_power("2^10"), 1024);
    assert_eq!(parse_integer_maybe_power("123"), 123);
    assert_eq!(parse_integer_maybe_power("+7"), 7);
}

#[test]
fn bits_round_trip_through_numbers() {
    let bits = vec![true, false, false, true, true, false, true];
    assert_eq!(num2bits(bits2num(&bits) as usize, bits.len()), bits);
    let all = vec![true; 32];
    assert_eq!(num2bits(bits2num(&all) as usize, 32), all);
    assert_eq!(num2bits(bits2num(&[]) as usize, 0), Vec::<bool>::new());
}
