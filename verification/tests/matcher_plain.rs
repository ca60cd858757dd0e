use colored::control::set_override;
use minigrep::highlight::{close_marker, open_marker, settle, Highlight};
use minigrep::matcher::{evaluate, Matcher, PatternError};
use minigrep::text::same_text;

#[test]
fn cat_is_found_in_concatenate() {
    let matcher = Matcher::new("cat", false).unwrap();
    let result = matcher.evaluate("concatenate", false);
    assert!(result.matched());
    assert_eq!(result.display_text(), "concatenate");
    assert!(result.highlights().is_empty());
    assert!(matcher.is_match("concatenate"));
}

#[test]
fn upper_case_pattern_matches_when_case_is_folded() {
    let matcher = Matcher::new("CAT", true).unwrap();
    let result = matcher.evaluate("concatenate", false);
    assert!(result.matched());
    assert_eq!(result.display_text(), "concatenate");
}

#[test]
fn upper_case_pattern_fails_when_case_counts() {
    let matcher = Matcher::new("CAT", false).unwrap();
    let result = matcher.evaluate("concatenate", true);
    assert!(!result.matched());
    assert_eq!(result.display_text(), "concatenate");
    assert!(result.highlights().is_empty());
}

#[test]
fn a_line_without_the_pattern_is_left_as_it_is() {
    let matcher = Matcher::new("dog", false).unwrap();
    let result = matcher.evaluate("concatenate", true);
    assert!(!result.matched());
    assert_eq!(result.display_text(), "concatenate");
    assert_eq!(result.plain_text(), "concatenate");
}

#[test]
fn the_pattern_is_taken_literally() {
    let matcher = Matcher::new("a.c", false).unwrap();
    assert!(!matcher.evaluate("abc", false).matched());
    assert!(matcher.evaluate("xa.cx", false).matched());
    let matcher = Matcher::new("(x)*[y]", false).unwrap();
    assert!(!matcher.evaluate("xxy", false).matched());
    assert!(matcher.evaluate("=(x)*[y]=", false).matched());
    let matcher = Matcher::new("\\d+", false).unwrap();
    assert!(!matcher.evaluate("123", false).matched());
    assert!(matcher.evaluate("a\\d+b", false).matched());
}

#[test]
fn case_folding_reaches_beyond_ascii() {
    let matcher = Matcher::new("ÉCOLE", true).unwrap();
    assert!(matcher.evaluate("une école", false).matched());
    let matcher = Matcher::new("ÉCOLE", false).unwrap();
    assert!(!matcher.evaluate("une école", false).matched());
}

#[test]
fn a_line_can_be_evaluated_for_a_pattern_given_as_text() {
    let result = evaluate("cat", "concatenate", false, false).unwrap();
    assert!(result.matched());
    assert_eq!(result.display_text(), "concatenate");
    let result = evaluate("CAT", "concatenate", true, false).unwrap();
    assert!(result.matched());
    let result = evaluate("dog", "concatenate", false, true).unwrap();
    assert!(!result.matched());
    assert_eq!(result.display_text(), "concatenate");
    assert_eq!(evaluate("", "concatenate", false, false).err(), Some(PatternError::Empty));
}

#[test]
fn an_empty_pattern_is_refused() {
    assert_eq!(Matcher::new("", false).err(), Some(PatternError::Empty));
    assert_eq!(Matcher::new("", true).err(), Some(PatternError::Empty));
}

#[test]
fn a_matcher_remembers_what_it_was_made_for() {
    let matcher = Matcher::new("Needle", true).unwrap();
    assert_eq!(matcher.pattern(), "Needle");
    assert!(matcher.case_insensitive());
}

#[test]
fn a_rejected_engine_gives_no_matcher() {
    let broken = regex::Regex::new("(");
    assert!(broken.is_err());
    assert_eq!(
        Matcher::with_engine("(", false, broken).err(),
        Some(PatternError::Rejected)
    );
}

#[test]
fn a_pattern_too_large_for_the_engine_is_rejected() {
    let pattern = "é".repeat(100_000);
    assert_eq!(Matcher::new(&pattern, true).err(), Some(PatternError::Rejected));
}

#[test]
fn pattern_error_messages() {
    assert_eq!(PatternError::Empty.message(), "Error: No pattern provided");
    assert_eq!(
        PatternError::Rejected.message(),
        "Could not create regex builder for pattern"
    );
}

#[test]
fn without_colour_the_occurrences_are_marked_but_not_painted() {
    set_override(false);
    let matcher = Matcher::new("cat", false).unwrap();
    let result = matcher.evaluate("concatenate cat", true);
    assert!(result.matched());
    assert_eq!(
        result.highlights(),
        &vec![
            Highlight { start: 3, end: 6, painted: false },
            Highlight { start: 12, end: 15, painted: false },
        ]
    );
    assert_eq!(result.display_text(), "concatenate cat");
    assert_eq!(result.plain_text(), "concatenate cat");
}

#[test]
fn the_markers_are_the_red_and_reset_sequences() {
    assert_eq!(open_marker(), "\u{1b}[31m");
    assert_eq!(close_marker(), "\u{1b}[0m");
}

#[test]
fn settle_keeps_a_painted_form() {
    let (piece, painted) = settle("cat", "\u{1b}[31mcat\u{1b}[0m".to_string());
    assert!(painted);
    assert_eq!(piece, "\u{1b}[31mcat\u{1b}[0m");
}

#[test]
fn settle_keeps_the_text_when_nothing_was_painted() {
    let (piece, painted) = settle("cat", "cat".to_string());
    assert!(!painted);
    assert_eq!(piece, "cat");
}

#[test]
fn settle_keeps_the_text_when_the_form_is_not_a_plain_wrapping() {
    let (piece, painted) = settle("cat", "\u{1b}[32mcat\u{1b}[0m".to_string());
    assert!(!painted);
    assert_eq!(piece, "cat");
    let (piece, painted) = settle("a\u{1b}[0mb", "\u{1b}[31ma\u{1b}[0m\u{1b}[31mb\u{1b}[0m".to_string());
    assert!(!painted);
    assert_eq!(piece, "a\u{1b}[0mb");
}

#[test]
fn same_text_compares_contents() {
    assert!(same_text("", ""));
    assert!(same_text("école", "école"));
    assert!(!same_text("abc", "abd"));
    assert!(!same_text("abc", "ab"));
}
