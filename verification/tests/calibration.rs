use text_puzzles::first_challenge::{
    calibrate, calibration_value, first_challenge_a, first_challenge_b, note_unknowns,
    parse_results, repair, repair_overlaps, replace_all, resolve_token, solve, sum_values,
    tokens_of, word_to_number, Answer, Calibration, CalibrationError, DIGITS, DIGITS_AND_WORDS,
};

fn chars(s: &str) -> Vec<char> {
    s.chars().collect()
}

fn text(v: &Vec<char>) -> String {
    v.iter().collect()
}

fn strings(items: &[&str]) -> Vec<String> {
    items.iter().map(|s| s.to_string()).collect()
}

#[test]
fn first_challenge_test_parse_results() {
    let regex_pattern = r"(?:\d|one|two|three|four|five|six|seven|eight|nine)";
    let strings = vec![
        "1abc2",
        "pqr3stu8vwx",
        "a1b2c3d4e5f",
        "treb7uchet",
        "tre123ab4",
        "oneprthree",
        "one",
        "nine",
        "two1nine",
        "eightwothree",
        "abcone2threexyz",
        "xtwone3four",
        "4nineeightseven2",
        "zoneight234",
        "7pqrstsixteen",
    ];
    let calibration_values = parse_results(strings, regex_pattern).unwrap();
    assert_eq!(
        calibration_values,
        vec![12, 38, 15, 77, 14, 13, 11, 99, 29, 83, 13, 24, 42, 14, 76]
    );
}

#[test]
fn first_challenge_test_parse_results_number_literal() {
    let regex_pattern = r"(?:\d|one|two|three|four|five|six|seven|eight|nine)";
    let strings = vec![
        "two1nine",
        "eightwothree",
        "abcone2threexyz",
        "xtwone3four",
        "4nineeightseven2",
        "zoneight234",
        "7pqrstsixteen",
        "trknlxnv43zxlrqjtwonect",
    ];
    let calibration_values = parse_results(strings, regex_pattern).unwrap();
    assert_eq!(calibration_values, vec![29, 83, 13, 24, 42, 14, 76, 41]);
}

#[test]
fn main_test_parse_results() {
    let strings = vec![
        "1abc2",
        "pqr3stu8vwx",
        "a1b2c3d4e5f",
        "treb7uchet",
        "tre123ab4",
        "oneprthree",
        "one",
        "nine",
        "two1nine",
        "eightwothree",
        "abcone2threexyz",
        "xtwone3four",
        "4nineeightseven2",
        "zoneight234",
        "7pqrstsixteen",
    ];
    let calibration_values = parse_results(strings, DIGITS_AND_WORDS).unwrap();
    assert_eq!(
        calibration_values,
        vec![12, 38, 15, 77, 14, 13, 11, 99, 29, 83, 13, 24, 42, 14, 76]
    );
}

#[test]
fn main_test_parse_results_number_literal() {
    let strings = vec![
        "two1nine",
        "eightwothree",
        "abcone2threexyz",
        "xtwone3four",
        "4nineeightseven2",
        "zoneight234",
        "7pqrstsixteen",
        "trknlxnv43zxlrqjtwonect",
    ];
    let calibration_values = parse_results(strings, DIGITS_AND_WORDS).unwrap();
    assert_eq!(calibration_values, vec![29, 83, 13, 24, 42, 14, 76, 41]);
}

#[test]
fn word_table_is_complete() {
    let words = ["one", "two", "three", "four", "five", "six", "seven", "eight", "nine"];
    for (i, w) in words.iter().enumerate() {
        assert_eq!(word_to_number(w), Some(i as i32 + 1));
    }
}

#[test]
fn words_match_in_any_case() {
    assert_eq!(word_to_number("NINE"), Some(9));
    assert_eq!(word_to_number("tHrEe"), Some(3));
}

#[test]
fn unknown_words_have_no_value() {
    assert_eq!(word_to_number("ten"), None);
    assert_eq!(word_to_number(""), None);
    assert_eq!(word_to_number("zero"), None);
    assert_eq!(word_to_number("ones"), None);
    assert_eq!(word_to_number(" one"), None);
    assert_eq!(word_to_number("s\u{130}x"), None);
}

#[test]
fn tokens_resolve_digit_first_then_word() {
    assert_eq!(resolve_token("5"), Some(5));
    assert_eq!(resolve_token("0"), Some(0));
    assert_eq!(resolve_token("9"), Some(9));
    assert_eq!(resolve_token("seven"), Some(7));
    assert_eq!(resolve_token("Eight"), Some(8));
}

#[test]
fn unresolvable_token_stands_for_nothing() {
    assert_eq!(resolve_token("x"), None);
    assert_eq!(resolve_token(""), None);
    assert_eq!(resolve_token("12"), None);
    assert_eq!(resolve_token("\u{663}"), None);
}

#[test]
fn single_token_gives_eleven_times_its_value() {
    for v in 1..10 {
        let digit = vec![format!("{}", v)];
        assert_eq!(calibration_value(&digit), Some(11 * v));
    }
    assert_eq!(calibration_value(&strings(&["nine"])), Some(99));
    assert_eq!(calibration_value(&strings(&["four"])), Some(44));
}

#[test]
fn first_and_last_token_make_the_value() {
    assert_eq!(calibration_value(&strings(&["two", "one", "3", "four"])), Some(24));
    assert_eq!(calibration_value(&strings(&["1", "2"])), Some(12));
    assert_eq!(calibration_value(&strings(&["7", "9", "9", "six"])), Some(76));
}

#[test]
fn no_tokens_no_value() {
    assert_eq!(calibration_value(&Vec::new()), None);
}

#[test]
fn unresolvable_positions_contribute_zero() {
    assert_eq!(calibration_value(&strings(&["x", "3"])), Some(3));
    assert_eq!(calibration_value(&strings(&["3", "x"])), Some(30));
    assert_eq!(calibration_value(&strings(&["x"])), Some(0));
}

#[test]
fn tokenless_lines_give_no_entry() {
    let values = parse_results(vec!["abc", "1", "", "xyz", "two"], DIGITS_AND_WORDS).unwrap();
    assert_eq!(values, vec![11, 22]);
    let none = parse_results(vec!["abc", "", "one"], DIGITS).unwrap();
    assert_eq!(none, Vec::<i32>::new());
}

#[test]
fn empty_input_gives_no_values() {
    assert_eq!(parse_results(Vec::new(), DIGITS).unwrap(), Vec::<i32>::new());
}

#[test]
fn overlapping_words_are_both_found() {
    assert_eq!(text(&repair_overlaps("xtwone3four")), "xtwoone3four");
    assert_eq!(parse_results(vec!["xtwone3four"], DIGITS_AND_WORDS).unwrap(), vec![24]);
    assert_eq!(parse_results(vec!["twone"], DIGITS_AND_WORDS).unwrap(), vec![21]);
    assert_eq!(parse_results(vec!["eightwo"], DIGITS_AND_WORDS).unwrap(), vec![82]);
    assert_eq!(parse_results(vec!["eighthree"], DIGITS_AND_WORDS).unwrap(), vec![83]);
    assert_eq!(parse_results(vec!["oneight"], DIGITS_AND_WORDS).unwrap(), vec![18]);
    assert_eq!(parse_results(vec!["fiveight"], DIGITS_AND_WORDS).unwrap(), vec![58]);
    assert_eq!(parse_results(vec!["sevenine"], DIGITS_AND_WORDS).unwrap(), vec![79]);
    assert_eq!(parse_results(vec!["nineight"], DIGITS_AND_WORDS).unwrap(), vec![98]);
    assert_eq!(parse_results(vec!["threeight"], DIGITS_AND_WORDS).unwrap(), vec![38]);
}

#[test]
fn repairs_apply_to_every_occurrence_in_table_order() {
    assert_eq!(text(&repair_overlaps("twonetwone")), "twoonetwoone");
    assert_eq!(text(&repair_overlaps("twoneight")), "twooneeight");
    assert_eq!(text(&repair_overlaps("eightwone")), "eighttwoone");
    assert_eq!(text(&repair_overlaps("nothing here")), "nothing here");
    assert_eq!(text(&repair_overlaps("")), "");
}

#[test]
fn replace_all_takes_occurrences_left_to_right() {
    assert_eq!(text(&replace_all(&chars("aaa"), "aa", "b")), "ba");
    assert_eq!(text(&replace_all(&chars("abcabc"), "bc", "")), "aa");
    assert_eq!(text(&replace_all(&chars("abc"), "abcd", "x")), "abc");
    assert_eq!(text(&replace_all(&chars("abc"), "c", "cc")), "abcc");
    assert_eq!(text(&replace_all(&chars(""), "a", "b")), "");
}

#[test]
fn replace_all_with_empty_pattern_keeps_the_text() {
    assert_eq!(text(&replace_all(&chars("abc"), "", "x")), "abc");
}

#[test]
fn digits_only_scenario() {
    let lines = vec!["1abc2", "pqr3stu8vwx", "a1b2c3d4e5f", "treb7uchet"];
    let values = parse_results(lines, DIGITS).unwrap();
    assert_eq!(values, vec![12, 38, 15, 77]);
    assert_eq!(sum_values(&values), Some(142));
    assert_eq!(
        first_challenge_a("1abc2\npqr3stu8vwx\na1b2c3d4e5f\ntreb7uchet"),
        Ok(Answer { sum: 142, unknown: Vec::new() })
    );
}

#[test]
fn digits_and_words_scenario() {
    let lines = vec![
        "two1nine",
        "eightwothree",
        "abcone2threexyz",
        "xtwone3four",
        "4nineeightseven2",
        "zoneight234",
        "7pqrstsixteen",
    ];
    let values = parse_results(lines, DIGITS_AND_WORDS).unwrap();
    assert_eq!(values, vec![29, 83, 13, 24, 42, 14, 76]);
    assert_eq!(sum_values(&values), Some(281));
    let content = "two1nine\neightwothree\nabcone2threexyz\nxtwone3four\n4nineeightseven2\nzoneight234\n7pqrstsixteen\n";
    assert_eq!(first_challenge_b(content), Ok(Answer { sum: 281, unknown: Vec::new() }));
}

#[test]
fn digits_only_mode_ignores_words() {
    assert_eq!(first_challenge_a("two1nine\neightwothree\n").unwrap().sum, 11);
    assert_eq!(first_challenge_b("two1nine\neightwothree\n").unwrap().sum, 29 + 83);
}

#[test]
fn empty_text_sums_to_zero() {
    assert_eq!(first_challenge_a(""), Ok(Answer { sum: 0, unknown: Vec::new() }));
    assert_eq!(first_challenge_b("\n\n"), Ok(Answer { sum: 0, unknown: Vec::new() }));
}

#[test]
fn refused_pattern_is_an_error() {
    assert_eq!(parse_results(vec!["1"], "("), Err(CalibrationError::Pattern));
    assert_eq!(parse_results(Vec::new(), "("), Err(CalibrationError::Pattern));
    assert_eq!(calibrate(&vec![chars("1")], "[a"), Err(CalibrationError::Pattern));
    assert_eq!(tokens_of("1", "(a"), Err(CalibrationError::Pattern));
    assert_eq!(solve("1", "(?P<"), Err(CalibrationError::Pattern));
}

#[test]
fn custom_pattern_with_unresolvable_tokens() {
    assert_eq!(parse_results(vec!["abc"], "[a-z]+").unwrap(), vec![0]);
    assert_eq!(parse_results(vec!["abc 7"], r"[a-z]+|\d").unwrap(), vec![7]);
    assert_eq!(solve("one two\nthree", "[a-z]+").unwrap().sum, 12 + 33);
}

#[test]
fn sum_values_adds_up() {
    assert_eq!(sum_values(&Vec::new()), Some(0));
    assert_eq!(sum_values(&vec![1, -2, 30]), Some(29));
    assert_eq!(sum_values(&vec![i32::MAX, i32::MIN]), Some(-1));
    assert_eq!(sum_values(&vec![i32::MAX, 1, -1]), Some(i32::MAX));
}

#[test]
fn sum_values_reports_overflow() {
    assert_eq!(sum_values(&vec![i32::MAX, 1]), None);
    assert_eq!(sum_values(&vec![i32::MIN, -1]), None);
}

#[test]
fn calibrate_reads_character_lines() {
    let lines = vec![chars("a1b2"), chars("none"), chars("x"), chars("5")];
    assert_eq!(
        calibrate(&lines, DIGITS_AND_WORDS).unwrap(),
        Calibration { values: vec![12, 11, 55], unknown: Vec::new() }
    );
}

#[test]
fn overlapping_line_parses_to_its_four_tokens() {
    let tokens = tokens_of("xtwone3four", DIGITS_AND_WORDS).unwrap();
    assert_eq!(tokens, strings(&["two", "one", "3", "four"]));
    assert_eq!(calibration_value(&tokens), Some(24));
}

#[test]
fn tokens_are_found_left_to_right_without_overlap() {
    assert_eq!(tokens_of("a1b2c3", DIGITS).unwrap(), strings(&["1", "2", "3"]));
    assert_eq!(tokens_of("two1nine", DIGITS).unwrap(), strings(&["1"]));
    assert_eq!(tokens_of("zoneight234", DIGITS_AND_WORDS).unwrap(), strings(&["one", "eight", "2", "3", "4"]));
    assert_eq!(tokens_of("none", DIGITS).unwrap(), Vec::<String>::new());
    assert_eq!(tokens_of("sixteen", DIGITS_AND_WORDS).unwrap(), strings(&["six"]));
}

#[test]
fn word_pattern_is_case_sensitive_but_resolution_is_not() {
    assert_eq!(tokens_of("ONE", DIGITS_AND_WORDS).unwrap(), Vec::<String>::new());
    assert_eq!(tokens_of("ONE two", "(?i:one|two)").unwrap(), strings(&["ONE", "two"]));
    assert_eq!(parse_results(vec!["ONE two"], "(?i:one|two)").unwrap(), vec![12]);
}

#[test]
fn unknown_tokens_are_collected_in_order() {
    let lines = vec![chars("abc 7 def"), chars("5"), chars("xyz"), chars("q 1 2"), chars("")];
    let c = calibrate(&lines, r"[a-z]+|\d").unwrap();
    assert_eq!(c.values, vec![0, 55, 0, 2]);
    assert_eq!(c.unknown, strings(&["abc", "def", "xyz", "q"]));
}

#[test]
fn interior_unknown_tokens_raise_no_warning() {
    let c = calibrate(&vec![chars("1 abc 2")], r"[a-z]+|\d").unwrap();
    assert_eq!(c, Calibration { values: vec![12], unknown: Vec::new() });
}

#[test]
fn note_unknowns_appends_to_what_is_there() {
    let mut unknown = strings(&["old"]);
    note_unknowns(&strings(&["x", "5", "y"]), &mut unknown);
    assert_eq!(unknown, strings(&["old", "x", "y"]));
    note_unknowns(&strings(&["z"]), &mut unknown);
    assert_eq!(unknown, strings(&["old", "x", "y", "z"]));
    note_unknowns(&strings(&["3", "four"]), &mut unknown);
    note_unknowns(&Vec::new(), &mut unknown);
    assert_eq!(unknown, strings(&["old", "x", "y", "z"]));
}

#[test]
fn solve_returns_sum_and_warnings() {
    let answer = solve("a1\nb\n2c", r"[a-z]|\d").unwrap();
    assert_eq!(answer, Answer { sum: 1 + 0 + 20, unknown: strings(&["a", "b", "c"]) });
}

#[test]
fn unicode_digits_match_but_stand_for_nothing() {
    let answer = first_challenge_a("\u{663}").unwrap();
    assert_eq!(answer, Answer { sum: 0, unknown: strings(&["\u{663}"]) });
    assert_eq!(parse_results(vec!["\u{663}"], DIGITS).unwrap(), vec![0]);
    assert_eq!(parse_results(vec!["4\u{663}"], DIGITS).unwrap(), vec![40]);
}

#[test]
fn repair_on_characters_matches_repair_on_text() {
    assert_eq!(repair(&chars("oneightwo")), repair_overlaps("oneightwo"));
    assert_eq!(text(&repair(&chars("oneightwo"))), "oneeighttwo");
}
