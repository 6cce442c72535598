use intcode::puzzles::password::PasswordProps;

#[test]
fn test_split_chars() {
    assert_eq!(PasswordProps::split_chars(&123), vec!['1', '2', '3']);
}

#[test]
fn test_split() {
    assert_eq!(PasswordProps::split(&123), vec![1, 2, 3]);
}

#[test]
fn test_has_adjacent_pair() {
    assert_eq!(PasswordProps::has_adjacent_pair(&1123), true);
}

#[test]
fn test_has_adjacent_pair_2() {
    assert_eq!(PasswordProps::has_adjacent_pair(&1233), true);
}

#[test]
fn test_has_adjacent_pair_3() {
    assert_eq!(PasswordProps::has_adjacent_pair(&1234), false);
}

#[test]
fn test_monotonic() {
    assert_eq!(PasswordProps::is_monotonic(&1234), true);
}

#[test]
fn test_monotonic_2() {
    assert_eq!(PasswordProps::is_monotonic(&1243), false);
}

#[test]
fn split_of_zero_is_one_digit() {
    assert_eq!(PasswordProps::split(&0), vec![0]);
    assert_eq!(PasswordProps::split_chars(&0), vec!['0']);
    assert_eq!(PasswordProps::split(&4294967295), vec![4, 2, 9, 4, 9, 6, 7, 2, 9, 5]);
}

#[test]
fn six_digits_means_between_100000_and_999999() {
    assert!(!PasswordProps::is_six_digit(&99999));
    assert!(PasswordProps::is_six_digit(&100000));
    assert!(PasswordProps::is_six_digit(&999999));
    assert!(!PasswordProps::is_six_digit(&1000000));
}

#[test]
fn lone_pair_needs_a_run_of_exactly_two() {
    assert!(PasswordProps::has_adjacent_pair_2(&112233));
    assert!(!PasswordProps::has_adjacent_pair_2(&123444));
    assert!(PasswordProps::has_adjacent_pair_2(&111122));
    assert!(PasswordProps::has_adjacent_pair_2(&112222));
    assert!(!PasswordProps::has_adjacent_pair_2(&111111));
    assert!(!PasswordProps::has_adjacent_pair_2(&7));
}

#[test]
fn validity_is_the_conjunction_of_the_three_properties() {
    assert!(PasswordProps::create(111111).valid());
    assert!(!PasswordProps::create(223450).valid());
    assert!(!PasswordProps::create(123789).valid());
    assert!(!PasswordProps::create(11111).valid());
    assert!(!PasswordProps::create2(111111).valid());
    assert!(PasswordProps::create2(112233).valid());
    let p = PasswordProps::create(223450);
    assert!(p.six_digit && p.adjacent_pair && !p.monotonic);
}

#[test]
fn counts_of_valid_passwords_in_a_small_range() {
    let mut plain = 0;
    let mut strict = 0;
    for pw in 111100..111200u32 {
        if PasswordProps::create(pw).valid() {
            plain += 1;
        }
        if PasswordProps::create2(pw).valid() {
            strict += 1;
        }
    }
    // 1111dd with 1 <= d <= d' : 11111[1-9] (9), then 1111[2-9][d..9]
    assert_eq!(plain, 9 + 8 + 7 + 6 + 5 + 4 + 3 + 2 + 1);
    // a run of exactly two among 1111xy: only x == y and x != 1
    assert_eq!(strict, 8);
}
