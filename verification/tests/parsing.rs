use nonce_bias::arguments::{parse_config, ConfigError};
use nonce_bias::file::{
    check_digit_runs, import_bin_string, import_headers_file, import_nonce_stats_file,
    import_record, results_file_name, select_priors, NoncePrior, ParseError,
};
use nonce_bias::numbers::{append_decimal, parse_unsigned};

fn strings(words: &[&str]) -> Vec<String> {
    words.iter().map(|word| word.to_string()).collect()
}

#[test]
fn a_bit_string_is_read_in_order() {
    assert_eq!(import_bin_string("1001"), Some(vec![true, false, false, true]));
    assert_eq!(import_bin_string("0"), Some(vec![false]));
    assert_eq!(import_bin_string(""), Some(Vec::<bool>::new()));
}

#[test]
fn a_bit_string_with_another_character_is_refused() {
    assert_eq!(import_bin_string("1x0"), None);
    assert_eq!(import_bin_string("10 "), None);
    assert_eq!(import_bin_string("2"), None);
    assert_eq!(import_bin_string("0\u{ff11}"), None);
}

#[test]
fn a_line_holds_a_header_and_a_nonce() {
    let record = import_record("0011 10").expect("two fields");
    assert_eq!(record.header, vec![false, false, true, true]);
    assert_eq!(record.nonce, vec![true, false]);
}

#[test]
fn any_run_of_whitespace_separates_the_fields() {
    for line in ["0101  1", "0101\t1", "0101 \t  1", "  0101 1", "0101 1  ", "\t0101\r1\n", "0101\x0c1"] {
        let record = import_record(line).expect("two fields");
        assert_eq!(record.header, vec![false, true, false, true], "{:?}", line);
        assert_eq!(record.nonce, vec![true], "{:?}", line);
    }
    let data = import_headers_file(&strings(&["0101  1", "0101\t1"])).expect("two records");
    assert_eq!(data.len(), 2);
    assert_eq!(data[0].header, vec![false, true, false, true]);
    assert_eq!(data[0].nonce, vec![true]);
    assert_eq!(data[1].header, vec![false, true, false, true]);
    assert_eq!(data[1].nonce, vec![true]);
}

#[test]
fn a_line_without_two_fields_is_no_record() {
    assert!(import_record("0011").is_none());
    assert!(import_record("").is_none());
    assert!(import_record(" ").is_none());
    assert!(import_record("  0011\t").is_none());
    assert!(import_record("111 000 01").is_none());
    assert!(import_record("111 000 01 10").is_none());
    assert!(import_record("0011\u{a0}10").is_none());
}

#[test]
fn a_field_that_is_no_bit_string_is_no_record() {
    assert!(import_record("1x0 1").is_none());
    assert!(import_record("10 1x").is_none());
    assert!(import_record("x10 1").is_none());
    assert!(import_record("10 2").is_none());
    assert!(import_record("10 1,").is_none());
    assert!(import_record("1x0 1 ").is_none());
}

#[test]
fn the_store_keeps_the_order_of_the_lines() {
    let data = import_headers_file(&strings(&["00 1", "01 0", "10 1"])).expect("three records");
    assert_eq!(data.len(), 3);
    assert_eq!(data[0].header, vec![false, false]);
    assert_eq!(data[1].header, vec![false, true]);
    assert_eq!(data[2].header, vec![true, false]);
    assert_eq!(data[1].nonce, vec![false]);
    assert!(import_headers_file(&Vec::new()).expect("no line").is_empty());
}

#[test]
fn the_first_bad_line_is_reported() {
    let lines = strings(&["00 1", "010", "10 1", "1"]);
    assert_eq!(import_headers_file(&lines).unwrap_err(), ParseError::Record(1));
    assert_eq!(import_headers_file(&strings(&[""])).unwrap_err(), ParseError::Record(0));
    let lines = strings(&["00 1", "01\t0", "1x0 1", "1"]);
    assert_eq!(import_headers_file(&lines).unwrap_err(), ParseError::Record(2));
    let lines = strings(&["00 1 0"]);
    assert_eq!(import_headers_file(&lines).unwrap_err(), ParseError::Record(0));
}

#[test]
fn decimal_numbers_are_read() {
    assert_eq!(parse_unsigned("0", 10), Some(0));
    assert_eq!(parse_unsigned("7", 10), Some(7));
    assert_eq!(parse_unsigned("10", 10), Some(10));
    assert_eq!(parse_unsigned("007", 10), Some(7));
    assert_eq!(parse_unsigned("+5", 10), Some(5));
    assert_eq!(parse_unsigned("65535", 65535), Some(65535));
    assert_eq!(parse_unsigned("18446744073709551615", usize::MAX), "18446744073709551615".parse().ok());
}

#[test]
fn anything_else_is_no_number() {
    for text in ["", "+", "-1", "-0", "++1", "1+", " 5", "5 ", "1_0", "0x10", "1.0", "1e3", "five", "٣"] {
        assert_eq!(parse_unsigned(text, usize::MAX), None, "{:?}", text);
        assert_eq!(text.parse::<usize>().ok(), None, "{:?}", text);
    }
}

#[test]
fn a_number_above_the_limit_is_none() {
    assert_eq!(parse_unsigned("11", 10), None);
    assert_eq!(parse_unsigned("65536", 65535), None);
    assert_eq!(parse_unsigned("000065536", 65535), None);
    assert_eq!(parse_unsigned("18446744073709551616", usize::MAX), "18446744073709551616".parse().ok());
    assert_eq!(parse_unsigned("99999999999999999999999999999999999999999999", usize::MAX), None);
}

#[test]
fn numbers_are_read_as_the_standard_library_reads_them() {
    for text in ["0", "1", "+1", "0009", "65535", "65536", "+65535", "4294967295", "4294967296"] {
        assert_eq!(parse_unsigned(text, 65535).map(|v| v as u16), text.parse::<u16>().ok());
        assert_eq!(parse_unsigned(text, usize::MAX), text.parse::<usize>().ok());
    }
}

#[test]
fn the_arguments_are_read_in_order() {
    let args = strings(&["prog", "2", "1000", "hashes.txt", "probs.json", "10", "12", "50", "0.25"]);
    let config = parse_config(&args).expect("nine entries");
    assert_eq!(config.tuple_size, 2);
    assert_eq!(config.slice_size, 1000);
    assert_eq!(config.hashes_file, "hashes.txt");
    assert_eq!(config.nonce_probs_file, "probs.json");
    assert_eq!(config.start_bit, 10);
    assert_eq!(config.end_bit, 12);
    assert_eq!(config.sample_threshold, 50);
    assert_eq!(config.info_threshold, "0.25");
}

#[test]
fn further_arguments_are_passed_over() {
    let args = strings(&["prog", "1", "2", "a", "b", "3", "4", "5", "-1", "more"]);
    let config = parse_config(&args).expect("ten entries");
    assert_eq!(config.sample_threshold, 5);
    assert_eq!(config.info_threshold, "-1");
}

#[test]
fn too_few_arguments_are_refused() {
    let args = strings(&["prog", "2", "1000", "hashes.txt", "probs.json", "10", "12", "50"]);
    assert_eq!(parse_config(&args).unwrap_err(), ConfigError::MissingArguments);
    assert_eq!(parse_config(&strings(&["prog"])).unwrap_err(), ConfigError::MissingArguments);
    assert_eq!(parse_config(&[]).unwrap_err(), ConfigError::MissingArguments);
    let args = strings(&["prog", "x", "1000", "hashes.txt", "probs.json", "10", "12", "50"]);
    assert_eq!(parse_config(&args).unwrap_err(), ConfigError::MissingArguments);
}

#[test]
fn the_first_bad_number_is_reported() {
    let good = ["prog", "2", "1000", "hashes.txt", "probs.json", "10", "12", "50", "0.25"];
    for (position, bad) in [(1, "65536"), (2, "-1"), (5, "ten"), (6, ""), (7, "1.5")] {
        let mut words = good;
        words[position] = bad;
        assert_eq!(parse_config(&strings(&words)).unwrap_err(), ConfigError::InvalidNumber(position));
    }
    let mut words = good;
    words[2] = "x";
    words[6] = "y";
    assert_eq!(parse_config(&strings(&words)).unwrap_err(), ConfigError::InvalidNumber(2));
}

#[test]
fn the_priors_are_read_from_the_document() {
    let line = r#"{"1": {"p0": 0.5, "p1": 0.5}, "2": {"p1": 0.75, "p0": 0.25}, "32": {"p0": 1, "p1": 0}}"#;
    let priors = import_nonce_stats_file(line).expect("three priors");
    assert_eq!(
        priors,
        vec![
            NoncePrior { nonce_bit: 0, p_zero: (true, 5, -1), p_one: (true, 5, -1) },
            NoncePrior { nonce_bit: 1, p_zero: (true, 25, -2), p_one: (true, 75, -2) },
            NoncePrior { nonce_bit: 31, p_zero: (true, 1, 0), p_one: (true, 0, 0) },
        ]
    );
}

#[test]
fn a_number_is_read_as_it_is_written() {
    let line = r#"{"1": {"p0": 0.50, "p1": 5e-1}, "2": {"p0": -0.125, "p1": 12.5E+2}, "3": {"p0": 1e-400}}"#;
    let priors = import_nonce_stats_file(line).expect("three priors");
    assert_eq!(
        priors,
        vec![
            NoncePrior { nonce_bit: 0, p_zero: (true, 50, -2), p_one: (true, 5, -1) },
            NoncePrior { nonce_bit: 1, p_zero: (false, 125, -3), p_one: (true, 125, 1) },
            NoncePrior { nonce_bit: 2, p_zero: (true, 1, -400), p_one: (true, 0, 0) },
        ]
    );
}

#[test]
fn a_line_break_behind_the_document_is_passed_over() {
    let priors = import_nonce_stats_file("{\"3\": {\"p0\": 0.125, \"p1\": 0.875}}\n").expect("one prior");
    assert_eq!(
        priors,
        vec![NoncePrior { nonce_bit: 2, p_zero: (true, 125, -3), p_one: (true, 875, -3) }]
    );
}

#[test]
fn a_missing_probability_is_zero() {
    let priors = import_nonce_stats_file(r#"{"1": {"p1": 0.5, "other": "x"}, "2": {}, "3": 7}"#)
        .expect("three priors");
    assert_eq!(
        priors,
        vec![
            NoncePrior { nonce_bit: 0, p_zero: (true, 0, 0), p_one: (true, 5, -1) },
            NoncePrior { nonce_bit: 1, p_zero: (true, 0, 0), p_one: (true, 0, 0) },
            NoncePrior { nonce_bit: 2, p_zero: (true, 0, 0), p_one: (true, 0, 0) },
        ]
    );
}

#[test]
fn a_document_that_is_no_object_holds_no_prior() {
    assert_eq!(import_nonce_stats_file("[1, 2]"), Ok(Vec::new()));
    assert_eq!(import_nonce_stats_file("{}"), Ok(Vec::new()));
    assert_eq!(import_nonce_stats_file("null"), Ok(Vec::new()));
}

#[test]
fn a_line_that_is_no_document_is_refused() {
    assert_eq!(import_nonce_stats_file(""), Err(ParseError::Document));
    assert_eq!(import_nonce_stats_file("{\"1\": "), Err(ParseError::Document));
    assert_eq!(import_nonce_stats_file("p0 = 0.5"), Err(ParseError::Document));
}

#[test]
fn a_probability_that_is_no_number_is_refused() {
    let line = r#"{"1": {"p0": 0.5, "p1": 0.5}, "2": {"p0": "half", "p1": 0.5}}"#;
    assert_eq!(import_nonce_stats_file(line), Err(ParseError::Probability(1)));
    let line = r#"{"x": {"p0": 0.5, "p1": null}}"#;
    assert_eq!(import_nonce_stats_file(line), Err(ParseError::Probability(0)));
}

#[test]
fn a_key_that_is_no_bit_number_is_refused() {
    assert_eq!(import_nonce_stats_file(r#"{"0": {"p0": 0.5, "p1": 0.5}}"#), Err(ParseError::Index(0)));
    assert_eq!(
        import_nonce_stats_file(r#"{"1": {"p0": 0.5}, "two": {"p0": 0.5}}"#),
        Err(ParseError::Index(1))
    );
    assert_eq!(import_nonce_stats_file(r#"{"": {}}"#), Err(ParseError::Index(0)));
}

#[test]
fn the_last_probability_of_a_name_counts() {
    let members = vec![(
        "4".to_string(),
        vec![
            ("p0".to_string(), Some((true, 11, 0))),
            ("p1".to_string(), Some((false, 22, -3))),
            ("p".to_string(), Some((true, 1, 0))),
            ("p00".to_string(), Some((true, 2, 0))),
            ("p0".to_uppercase(), Some((true, 3, 0))),
            ("q0".to_string(), None),
            ("p0".to_string(), Some((true, 33, 7))),
        ],
    )];
    assert_eq!(
        select_priors(&members),
        Ok(vec![NoncePrior { nonce_bit: 3, p_zero: (true, 33, 7), p_one: (false, 22, -3) }])
    );
}

#[test]
fn the_first_failing_member_is_reported() {
    let good = ("1".to_string(), vec![("p0".to_string(), Some((true, 1, 0)))]);
    let bad_number =
        ("2".to_string(), vec![("p1".to_string(), None), ("p1".to_string(), Some((true, 2, 0)))]);
    let bad_key = ("+".to_string(), vec![]);
    let bad_both = ("x".to_string(), vec![("p0".to_string(), None)]);
    assert_eq!(
        select_priors(&vec![good.clone(), bad_number.clone(), bad_key.clone()]),
        Err(ParseError::Probability(1))
    );
    assert_eq!(
        select_priors(&vec![good.clone(), bad_key.clone(), bad_number.clone()]),
        Err(ParseError::Index(1))
    );
    assert_eq!(select_priors(&vec![bad_both]), Err(ParseError::Probability(0)));
    assert_eq!(
        select_priors(&vec![good]),
        Ok(vec![NoncePrior { nonce_bit: 0, p_zero: (true, 1, 0), p_one: (true, 0, 0) }])
    );
    assert_eq!(select_priors(&Vec::new()), Ok(Vec::new()));
}

#[test]
fn the_results_file_is_named_after_the_seconds() {
    assert_eq!(results_file_name(0), "experiment04_0.json");
    assert_eq!(results_file_name(9), "experiment04_9.json");
    assert_eq!(results_file_name(10), "experiment04_10.json");
    assert_eq!(results_file_name(1700000123), "experiment04_1700000123.json");
    assert_eq!(results_file_name(u64::MAX), "experiment04_18446744073709551615.json");
}

#[test]
fn a_number_is_written_without_leading_zeros() {
    for number in [0u64, 7, 10, 99, 100, 1009, 65535, 4294967296, u64::MAX] {
        let mut text = String::from("n=");
        append_decimal(&mut text, number);
        assert_eq!(text, format!("n={}", number));
        assert_eq!(parse_unsigned(&text[2..], usize::MAX), Some(number as usize));
    }
}

#[test]
fn a_run_of_too_many_digits_is_refused() {
    let long = format!("{{\"1\": {{\"p0\": 0.{}5}}}}", "0".repeat(40000));
    assert_eq!(import_nonce_stats_file(&long), Err(ParseError::Digits));
    let longest = format!("{{\"1\": {{\"p0\": 0.{}5}}}}", "0".repeat(32766));
    assert_eq!(
        import_nonce_stats_file(&longest),
        Ok(vec![NoncePrior { nonce_bit: 0, p_zero: (true, 5, -32767), p_one: (true, 0, 0) }])
    );
    let too_long = format!("{{\"1\": {{\"p0\": 0.{}5}}}}", "0".repeat(32767));
    assert_eq!(import_nonce_stats_file(&too_long), Err(ParseError::Digits));
    assert!(check_digit_runs(""));
    assert!(check_digit_runs("12 34.56e78"));
    assert!(check_digit_runs(&"9".repeat(32767)));
    assert!(!check_digit_runs(&"9".repeat(32768)));
    assert!(check_digit_runs(&format!("{} {}", "9".repeat(32767), "9".repeat(32767))));
    assert!(!check_digit_runs(&format!("x{}y", "0".repeat(32768))));
}

#[test]
fn a_long_line_is_read() {
    let padded = format!("{{\"1\": {{\"p0\": 0.5}}}}{}", " ".repeat(100000));
    assert_eq!(
        import_nonce_stats_file(&padded),
        Ok(vec![NoncePrior { nonce_bit: 0, p_zero: (true, 5, -1), p_one: (true, 0, 0) }])
    );
}

#[test]
fn a_long_fraction_is_read() {
    let line = format!("{{\"1\": {{\"p0\": 0.{}5, \"p1\": 1e-400}}}}", "0".repeat(30000));
    assert_eq!(
        import_nonce_stats_file(&line),
        Ok(vec![NoncePrior { nonce_bit: 0, p_zero: (true, 5, -30001), p_one: (true, 1, -400) }])
    );
}
