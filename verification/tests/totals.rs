use digit_scan::calibration_total;

#[test]
fn simple_mode_total() {
    let lines: Vec<String> =
        vec!["1abc2", "pqr3stu8vwx", "a1b2c3d4e5f", "treb7uchet"].iter().map(|s| s.to_string()).collect();
    // 12 + 38 + 15 + 77
    assert_eq!(calibration_total(&lines, false), 142);
}

#[test]
fn advanced_mode_total() {
    let lines: Vec<String> = vec![
        "two1nine",
        "eightwothree",
        "abcone2threexyz",
        "xtwone3four",
        "4nineeightseven2",
        "zoneight234",
        "7pqrstsixteen",
    ]
    .iter()
    .map(|s| s.to_string())
    .collect();
    // 29 + 83 + 13 + 24 + 42 + 14 + 76
    assert_eq!(calibration_total(&lines, true), 281);
}

#[test]
fn lines_without_digits_count_as_zero() {
    let lines: Vec<String> = vec!["abc", "", "12"].iter().map(|s| s.to_string()).collect();
    assert_eq!(calibration_total(&lines, false), 12);
    assert_eq!(calibration_total(&lines, true), 12);
}

#[test]
fn empty_input_totals_zero() {
    let lines: Vec<String> = Vec::new();
    assert_eq!(calibration_total(&lines, false), 0);
    assert_eq!(calibration_total(&lines, true), 0);
}
