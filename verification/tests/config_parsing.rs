use minigrep::config::{Config, ConfigError};

fn args(items: &[&str]) -> Vec<String> {
    items.iter().map(|item| item.to_string()).collect()
}

#[test]
fn pattern_and_paths_are_read_in_order() {
    let config = Config::new(&args(&["grep", "cat", "a.txt", "b.txt"])).unwrap();
    assert_eq!(config.pattern, "cat");
    assert_eq!(config.file_paths, vec!["a.txt".to_string(), "b.txt".to_string()]);
    assert!(!config.case_insensitive);
    assert!(!config.print_line_numbers);
    assert!(!config.invert_match);
    assert!(!config.recursive_search);
    assert!(!config.print_filenames);
    assert!(!config.colored_output);
    assert!(!config.help);
}

#[test]
fn every_option_switches_its_flag() {
    let config =
        Config::new(&args(&["grep", "-i", "-n", "-v", "-r", "-f", "-c", "cat", "a.txt"])).unwrap();
    assert!(config.case_insensitive);
    assert!(config.print_line_numbers);
    assert!(config.invert_match);
    assert!(config.recursive_search);
    assert!(config.print_filenames);
    assert!(config.colored_output);
    assert!(!config.help);
    assert_eq!(config.pattern, "cat");
    assert_eq!(config.file_paths, vec!["a.txt".to_string()]);
}

#[test]
fn options_may_stand_anywhere() {
    let config = Config::new(&args(&["grep", "cat", "-n", "a.txt", "-i", "b.txt"])).unwrap();
    assert!(config.case_insensitive);
    assert!(config.print_line_numbers);
    assert_eq!(config.pattern, "cat");
    assert_eq!(config.file_paths, vec!["a.txt".to_string(), "b.txt".to_string()]);
}

#[test]
fn the_program_name_is_never_an_option() {
    let config = Config::new(&args(&["-i", "cat", "a.txt"])).unwrap();
    assert!(!config.case_insensitive);
    assert_eq!(config.pattern, "cat");
}

#[test]
fn an_unknown_option_is_an_operand() {
    let config = Config::new(&args(&["grep", "-x", "a.txt"])).unwrap();
    assert_eq!(config.pattern, "-x");
    assert_eq!(config.file_paths, vec!["a.txt".to_string()]);
}

#[test]
fn missing_pattern_is_reported() {
    assert_eq!(Config::new(&args(&["grep"])), Err(ConfigError::MissingPattern));
    assert_eq!(Config::new(&args(&["grep", "-i", "-n"])), Err(ConfigError::MissingPattern));
    assert_eq!(Config::new(&args(&[])), Err(ConfigError::MissingPattern));
}

#[test]
fn empty_pattern_is_reported_as_missing() {
    assert_eq!(Config::new(&args(&["grep", "", "a.txt"])), Err(ConfigError::MissingPattern));
}

#[test]
fn missing_paths_are_reported() {
    assert_eq!(Config::new(&args(&["grep", "cat"])), Err(ConfigError::MissingPaths));
    assert_eq!(Config::new(&args(&["grep", "-r", "cat"])), Err(ConfigError::MissingPaths));
}

#[test]
fn help_wins_over_everything() {
    let config = Config::new(&args(&["grep", "-h"])).unwrap();
    assert!(config.help);
    assert_eq!(config.pattern, "");
    assert!(config.file_paths.is_empty());
    let config = Config::new(&args(&["grep", "cat", "--help", "-v", "a.txt"])).unwrap();
    assert!(config.help);
    assert!(config.invert_match);
    assert_eq!(config.pattern, "");
    assert!(config.file_paths.is_empty());
}

#[test]
fn config_error_messages() {
    assert_eq!(ConfigError::MissingPattern.message(), "Error: No pattern provided");
    assert_eq!(ConfigError::MissingPaths.message(), "Error: No file paths provided");
}
