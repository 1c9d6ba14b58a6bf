use crep::Config;
use crep::Flag;

#[test]
fn flag_is_found_by_short_or_long_form() {
    let flag = Flag::new("-i", "--ignore-case", "Match regardless of case");
    let none: Vec<String> = vec![];
    assert!(!flag.found_in(&none));
    assert!(flag.found_in(&vec!["-i".to_string()]));
    assert!(flag.found_in(&vec!["--ignore-case".to_string()]));
    assert!(flag.found_in(&vec!["-x".to_string(), "--ignore-case".to_string()]));
    assert!(!flag.found_in(&vec!["-I".to_string(), "ignore-case".to_string()]));
}

#[test]
fn flag_help_pads_the_long_form() {
    let flag = Flag::new("-s", "--slow", "Uses iterators to search");
    assert_eq!(flag.help(), "-s --slow          Uses iterators to search");
}

#[test]
fn flag_help_keeps_a_wide_long_form() {
    let flag = Flag::new("-x", "--a-very-long-flag-name", "d");
    assert_eq!(flag.help(), "-x --a-very-long-flag-name d");
}

#[test]
fn config_carries_its_fields() {
    let config = Config {
        query: "duct".to_string(),
        file_path: "poem.txt".to_string(),
        ignore_case: true,
        slow_mode: false,
    };
    assert_eq!(config.query, "duct");
    assert_eq!(config.file_path, "poem.txt");
    assert!(config.ignore_case);
    assert!(!config.slow_mode);
}
