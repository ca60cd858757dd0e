use colored::control::set_override;
use minigrep::config::Config;
use minigrep::lines::LineRead;
use minigrep::matcher::{Matcher, PatternError};
use minigrep::scanner::{
    format_report, scan, scan_line, FileContent, FileInput, ScanError, ScanStep,
};
use minigrep::session::{search_file, search_files};

fn text(line: &str) -> LineRead {
    LineRead::Text(line.to_string())
}

fn config(options: &[&str], pattern: &str) -> Config {
    let mut args = vec!["grep".to_string()];
    args.extend(options.iter().map(|option| option.to_string()));
    args.push(pattern.to_string());
    args.push("a.txt".to_string());
    Config::new(&args).unwrap()
}

fn numbers(lines: &[LineRead], pattern: &str, fold: bool, invert: bool) -> Vec<usize> {
    let matcher = Matcher::new(pattern, fold).unwrap();
    let report = scan(&matcher, invert, false, "a.txt", &lines.to_vec());
    assert_eq!(report.failure, None);
    report.emitted.iter().map(|line| line.line_number).collect()
}

#[test]
fn inverted_search_emits_a_line_without_the_pattern() {
    let matcher = Matcher::new("dog", false).unwrap();
    match scan_line(&matcher, true, true, "a.txt", 1, &text("concatenate")) {
        ScanStep::Emit(line) => {
            assert_eq!(line.line_number, 1);
            assert!(!line.decision.matched());
            assert_eq!(line.decision.display_text(), "concatenate");
        }
        other => panic!("the line was not emitted: {:?}", other),
    }
}

#[test]
fn plain_search_passes_over_a_line_without_the_pattern() {
    let matcher = Matcher::new("dog", false).unwrap();
    assert_eq!(scan_line(&matcher, false, false, "a.txt", 1, &text("concatenate")), ScanStep::Skip);
}

#[test]
fn inverted_search_passes_over_a_line_with_the_pattern() {
    let matcher = Matcher::new("cat", false).unwrap();
    assert_eq!(scan_line(&matcher, true, false, "a.txt", 1, &text("concatenate")), ScanStep::Skip);
}

#[test]
fn an_undecodable_line_fails_under_its_number() {
    let matcher = Matcher::new("cat", false).unwrap();
    assert_eq!(
        scan_line(&matcher, false, false, "a.txt", 9, &LineRead::Undecodable),
        ScanStep::Fail(ScanError::Read("a.txt".to_string(), 9))
    );
}

#[test]
fn plain_search_emits_exactly_the_lines_with_the_pattern() {
    let lines = [text("a cat"), text("a dog"), text(""), text("CAT"), text("concatenate")];
    assert_eq!(numbers(&lines, "cat", false, false), vec![1, 5]);
    assert_eq!(numbers(&lines, "cat", true, false), vec![1, 4, 5]);
}

#[test]
fn inverted_search_emits_exactly_the_other_lines() {
    let lines = [text("a cat"), text("a dog"), text(""), text("CAT"), text("concatenate")];
    assert_eq!(numbers(&lines, "cat", false, true), vec![2, 3, 4]);
    assert_eq!(numbers(&lines, "cat", true, true), vec![2, 3]);
}

#[test]
fn every_line_is_emitted_under_exactly_one_of_the_two_settings() {
    let lines = [text("x"), text("xy"), text("y"), text(""), text("yx"), text("Y")];
    for fold in [false, true] {
        let plain = numbers(&lines, "y", fold, false);
        let inverted = numbers(&lines, "y", fold, true);
        for number in 1..=lines.len() {
            assert_ne!(plain.contains(&number), inverted.contains(&number));
        }
    }
}

#[test]
fn a_scan_stops_at_the_first_undecodable_line() {
    let matcher = Matcher::new("cat", false).unwrap();
    let lines = vec![text("cat"), text("dog"), LineRead::Undecodable, text("cat")];
    let report = scan(&matcher, false, false, "a.txt", &lines);
    assert_eq!(report.failure, Some(ScanError::Read("a.txt".to_string(), 3)));
    assert_eq!(report.emitted.len(), 1);
    assert_eq!(report.emitted[0].line_number, 1);
    assert_eq!(report.emitted[0].decision.display_text(), "cat");
}

#[test]
fn a_scan_of_no_lines_emits_nothing() {
    let matcher = Matcher::new("cat", false).unwrap();
    let report = scan(&matcher, true, false, "a.txt", &Vec::new());
    assert!(report.emitted.is_empty());
    assert_eq!(report.failure, None);
}

#[test]
fn a_file_that_cannot_be_opened_is_reported() {
    let found = search_file("gone.txt", &config(&[], "cat"), &FileContent::Unopened);
    assert_eq!(found.report.failure, Some(ScanError::Open("gone.txt".to_string())));
    assert!(found.report.emitted.is_empty());
    assert!(found.records.is_empty());
}

#[test]
fn an_empty_pattern_is_reported_before_any_line_is_read() {
    let mut broken = config(&[], "cat");
    broken.pattern = String::new();
    let found = search_file("a.txt", &broken, &FileContent::Bytes(b"cat\n".to_vec()));
    assert_eq!(found.report.failure, Some(ScanError::Pattern(PatternError::Empty)));
    assert!(found.records.is_empty());
}

#[test]
fn a_rejected_pattern_is_reported_before_any_line_is_read() {
    let mut large = config(&["-i"], "cat");
    large.pattern = "é".repeat(100_000);
    let found = search_file("a.txt", &large, &FileContent::Bytes(b"cat\n".to_vec()));
    assert_eq!(found.report.failure, Some(ScanError::Pattern(PatternError::Rejected)));
    assert!(found.report.emitted.is_empty());
    assert!(found.records.is_empty());
}

#[test]
fn a_search_gives_the_records_to_print() {
    let content = FileContent::Bytes(b"a cat\na dog\nCats\n".to_vec());
    let found = search_file("a.txt", &config(&[], "cat"), &content);
    assert_eq!(found.report.failure, None);
    assert_eq!(found.records, vec!["a cat".to_string()]);
    let found = search_file("a.txt", &config(&["-i", "-n"], "cat"), &content);
    assert_eq!(found.records, vec!["1: a cat".to_string(), "3: Cats".to_string()]);
    let found = search_file("a.txt", &config(&["-v", "-f", "-n"], "cat"), &content);
    assert_eq!(
        found.records,
        vec!["a.txt: 2: a dog".to_string(), "a.txt: 3: Cats".to_string()]
    );
}

#[test]
fn a_search_keeps_what_it_found_before_a_line_failed() {
    let content = FileContent::Bytes(b"a cat\n\xff\xfe\ncat\n".to_vec());
    let found = search_file("a.txt", &config(&["-n"], "cat"), &content);
    assert_eq!(found.records, vec!["1: a cat".to_string()]);
    assert_eq!(found.report.failure, Some(ScanError::Read("a.txt".to_string(), 2)));
}

#[test]
fn a_coloured_search_prints_the_highlighted_text() {
    set_override(true);
    let content = FileContent::Bytes(b"concatenate\r\ndog".to_vec());
    let found = search_file("a.txt", &config(&["-c", "-n"], "cat"), &content);
    assert_eq!(found.records, vec!["1: con\u{1b}[31mcat\u{1b}[0menate".to_string()]);
    let found = search_file("a.txt", &config(&["-c", "-v"], "cat"), &content);
    assert_eq!(found.records, vec!["dog".to_string()]);
}

#[test]
fn a_report_is_formatted_line_by_line() {
    let matcher = Matcher::new("o", false).unwrap();
    let lines = vec![text("one"), text("two"), text("three"), text("four")];
    let report = scan(&matcher, false, false, "n.txt", &lines);
    let records = format_report(&config(&["-f"], "o"), "n.txt", &report);
    assert_eq!(
        records,
        vec!["n.txt: one".to_string(), "n.txt: two".to_string(), "n.txt: four".to_string()]
    );
}

#[test]
fn scan_error_messages() {
    assert_eq!(
        ScanError::Open("gone.txt".to_string()).message(),
        "Could not open file: gone.txt"
    );
    assert_eq!(
        ScanError::Read("a.txt".to_string(), 12).message(),
        "Could not read line 12 from a.txt"
    );
    assert_eq!(
        ScanError::Pattern(PatternError::Rejected).message(),
        "Could not create regex builder for pattern"
    );
}

fn input(path: &str, bytes: &[u8]) -> FileInput {
    FileInput { path: path.to_string(), content: FileContent::Bytes(bytes.to_vec()) }
}

#[test]
fn files_are_searched_in_the_order_given() {
    let files = vec![input("b.txt", b"cat\ndog\n"), input("a.txt", b"dog\nCat\ncat\n")];
    let searches = search_files(&config(&["-f", "-n"], "cat"), &files);
    assert_eq!(searches.len(), 2);
    assert_eq!(searches[0].records, vec!["b.txt: 1: cat".to_string()]);
    assert_eq!(searches[1].records, vec!["a.txt: 3: cat".to_string()]);
    assert_eq!(searches[0].report.failure, None);
    assert_eq!(searches[1].report.failure, None);
}

#[test]
fn a_file_that_cannot_be_opened_ends_the_run() {
    let files = vec![
        input("a.txt", b"cat\n"),
        FileInput { path: "gone.txt".to_string(), content: FileContent::Unopened },
        input("c.txt", b"cat\n"),
    ];
    let searches = search_files(&config(&[], "cat"), &files);
    assert_eq!(searches.len(), 2);
    assert_eq!(searches[0].records, vec!["cat".to_string()]);
    assert!(searches[1].records.is_empty());
    assert_eq!(searches[1].report.failure, Some(ScanError::Open("gone.txt".to_string())));
}

#[test]
fn a_line_that_cannot_be_decoded_ends_the_run() {
    let files = vec![
        input("a.txt", b"cat\n\xff\ncat\n"),
        input("b.txt", b"cat\n"),
    ];
    let searches = search_files(&config(&["-n"], "cat"), &files);
    assert_eq!(searches.len(), 1);
    assert_eq!(searches[0].records, vec!["1: cat".to_string()]);
    assert_eq!(searches[0].report.failure, Some(ScanError::Read("a.txt".to_string(), 2)));
}

#[test]
fn no_files_give_no_searches() {
    assert!(search_files(&config(&[], "cat"), &Vec::new()).is_empty());
}
