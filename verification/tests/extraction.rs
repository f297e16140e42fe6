use digit_scan::{first_and_last_digit, part2_digit};

#[test]
fn test_first_and_last_digit() {
    let cases = vec![
        ("abc", None),
        ("a1b2c3", Some((1, 3))),
        ("a123b", Some((1, 3))),
        ("a1b23", Some((1, 3))),
        ("a123b456", Some((1, 6))),
        ("a1b2c3d4e5f6g7h8i9j10k", Some((1, 0))),
        ("treb7uchet", Some((7, 7))),
        ("", None),
        ("1234567890", Some((1, 0))),
    ];
    for (s, expected) in cases {
        assert_eq!(
            first_and_last_digit(s),
            expected,
            "first_and_last_digit({:?}) = {:?}",
            s,
            first_and_last_digit(s)
        );
    }
}

#[test]
fn test_part2_digits() {
    let cases = vec![
        ("one23", Some((1, 3))),
        ("ninine", Some((9, 9))),
        ("eightwothree", Some((8, 3))),
        ("eightwo", Some((8, 2))),
        ("abcone2threexyz", Some((1, 3))),
        ("7pqrstsixteen", Some((7, 6))),
    ];
    for (s, expected) in cases {
        let actual = part2_digit(s);
        assert_eq!(actual, expected, "day2_digit({:?}) = {:?} != {:?}", s, actual, expected);
    }
}

#[test]
fn scanner_digit_interrupts_word() {
    // the literal digit clears the in-progress "two"; the trailing "o"
    // completes nothing on its own
    assert_eq!(part2_digit("tw1o"), Some((1, 1)));
    assert_eq!(part2_digit("on3e"), Some((3, 3)));
}

#[test]
fn scanner_overlapping_words() {
    assert_eq!(part2_digit("twone"), Some((2, 1)));
    assert_eq!(part2_digit("oneight"), Some((1, 8)));
    assert_eq!(part2_digit("nineight"), Some((9, 8)));
    assert_eq!(part2_digit("sevenine"), Some((7, 9)));
}

#[test]
fn scanner_no_digit_lines() {
    assert_eq!(part2_digit(""), None);
    assert_eq!(part2_digit("xyz"), None);
    assert_eq!(part2_digit("on"), None);
    assert_eq!(part2_digit("eigh tw o"), None);
}

#[test]
fn scanner_single_occurrence() {
    assert_eq!(part2_digit("zfourz"), Some((4, 4)));
    assert_eq!(part2_digit("5"), Some((5, 5)));
    assert_eq!(part2_digit("zero"), None);
}

#[test]
fn scanner_is_deterministic() {
    let inputs = ["eightwothree", "", "tw1o", "a1b2c3"];
    for s in inputs {
        assert_eq!(part2_digit(s), part2_digit(s));
        assert_eq!(first_and_last_digit(s), first_and_last_digit(s));
    }
}
