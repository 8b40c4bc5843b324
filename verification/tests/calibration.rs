use daily_puzzles::calibration::{
    calibration_value, find_first_number, find_first_word_number, find_number_by_word_and_digit,
};

#[test]
fn test_find_first_number() {
    assert_eq!(find_first_number(&"1abc2".to_string(), false), Some((0, 1)));
    assert_eq!(
        find_first_number(&"pqr3stu8vwx".to_string(), false),
        Some((3, 3))
    );
    assert_eq!(
        find_first_number(&"a1b2c3d4e5f".to_string(), false),
        Some((1, 1))
    );
    assert_eq!(find_first_number(&"treb7uchet".to_string(), false), Some((4, 7)));
}

#[test]
fn test_find_first_number_reverse() {
    assert_eq!(find_first_number(&"1abc2".to_string(), true), Some((0, 2)));
    assert_eq!(find_first_number(&"pqr3stu8vwx".to_string(), true), Some((3, 8)));
    assert_eq!(find_first_number(&"a1b2c3d4e5f".to_string(), true), Some((1, 5)));
    assert_eq!(find_first_number(&"treb7uchet".to_string(), true), Some((5, 7)));
}

#[test]
fn test_find_first_number_fails_when_number() {
    assert_eq!(find_first_number(&"abc".to_string(), false), None);
    assert_eq!(find_first_number(&"trebuchet".to_string(), false), None);
}

#[test]
fn test_find_first_word_number() {
    assert_eq!(
        find_first_word_number(&"eightwothree".to_string(), false),
        Some((0, 8))
    );
    assert_eq!(
        find_first_word_number(&"two1nine".to_string(), false),
        Some((0, 2))
    );
    assert_eq!(
        find_first_word_number(&"abcone2threexyz".to_string(), false),
        Some((3, 1))
    );
    assert_eq!(
        find_first_word_number(&"xtwone3four".to_string(), false),
        Some((1, 2))
    );
    assert_eq!(
        find_first_word_number(&"4nineeightseven2".to_string(), false),
        Some((1, 9))
    );
    assert_eq!(
        find_first_word_number(&"zoneight234".to_string(), false),
        Some((1, 1))
    );
    assert_eq!(
        find_first_word_number(&"7pqrstsixteen".to_string(), false),
        Some((6, 6))
    );
}

#[test]
fn test_find_first_word_number_reverse() {
    assert_eq!(
        find_first_word_number(&"two1nine".to_string(), true),
        Some((3, 9))
    );
    assert_eq!(
        find_first_word_number(&"eightwothree".to_string(), true),
        Some((4, 3))
    );
    assert_eq!(
        find_first_word_number(&"abcone2threexyz".to_string(), true),
        Some((7, 3))
    );
    assert_eq!(
        find_first_word_number(&"xtwone3four".to_string(), true),
        Some((3, 4))
    );
    assert_eq!(
        find_first_word_number(&"4nineeightseven2".to_string(), true),
        Some((5, 7))
    );
    assert_eq!(
        find_first_word_number(&"zoneight234".to_string(), true),
        Some((7, 8))
    );
    assert_eq!(
        find_first_word_number(&"7pqrstsixteen".to_string(), true),
        Some((6, 6))
    );
}

#[test]
fn test_find_first_word_number_none_found() {
    assert_eq!(
        find_first_word_number(&"4nigeeixhhtsevan2".to_string(), true),
        None
    );
}

#[test]
fn test_find_first_word_number_reverse_none_found() {
    assert_eq!(
        find_first_word_number(&"4nigeeixhhtsevan2".to_string(), false),
        None
    );
}

#[test]
fn test_find_first_word_number_and_digit() {
    assert_eq!(
        find_number_by_word_and_digit(&"5bszzkpcdxqkvkf7tgcone2".to_string(), false),
        Some(5)
    );
    assert_eq!(
        find_number_by_word_and_digit(&"4threelfvzndfive".to_string(), false),
        Some(4)
    );
    assert_eq!(
        find_number_by_word_and_digit(
            &"mhrckkcgqdms1rvrfcvpsn3trmfltvbhr4sixlpslr".to_string(),
            false
        ),
        Some(1)
    );
}

#[test]
fn test_find_first_word_number_and_digit_reverse() {
    assert_eq!(
        find_number_by_word_and_digit(&"5bszzkpcdxqkvkf7tgcone2".to_string(), true),
        Some(2)
    );
    assert_eq!(
        find_number_by_word_and_digit(&"4threelfvzndfive".to_string(), true),
        Some(5)
    );
    assert_eq!(
        find_number_by_word_and_digit(
            &"mhrckkcgqdms1rvrfcvpsn3trmfltvbhr4sixlpslr".to_string(),
            true
        ),
        Some(6)
    );
}

#[test]
fn test_calibration_value_digits_and_words() {
    assert_eq!(calibration_value(&"1abc2".to_string()), Some(12));
    assert_eq!(calibration_value(&"treb7uchet".to_string()), Some(77));
    assert_eq!(calibration_value(&"two1nine".to_string()), Some(29));
    assert_eq!(calibration_value(&"eightwothree".to_string()), Some(83));
    assert_eq!(calibration_value(&"trebuchet".to_string()), None);
}

#[test]
fn test_calibration_value_empty_line() {
    assert_eq!(calibration_value(&"".to_string()), None);
}
