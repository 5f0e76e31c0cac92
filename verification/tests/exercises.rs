use parallel_file_processor::exercises::{check_guess, is_even};

#[test]
fn is_even_on_signs() {
    assert!(is_even(4));
    assert!(!is_even(7));
    assert!(is_even(-2));
    assert!(!is_even(-3));
    assert!(is_even(0));
}

#[test]
fn check_guess_three_ways() {
    assert_eq!(check_guess(42, 42), 0);
    assert_eq!(check_guess(50, 42), 1);
    assert_eq!(check_guess(30, 42), -1);
}
