use colored::control::set_override;
use minigrep::highlight::Highlight;
use minigrep::matcher::Matcher;

#[test]
fn literal_match_is_highlighted_once() {
    set_override(true);
    let matcher = Matcher::new("cat", false).unwrap();
    let result = matcher.evaluate("concatenate", true);
    assert!(result.matched());
    assert_eq!(
        result.highlights(),
        &vec![Highlight { start: 3, end: 6, painted: true }]
    );
    assert_eq!(result.display_text(), "con\u{1b}[31mcat\u{1b}[0menate");
    assert_eq!(result.plain_text(), "concatenate");
}

#[test]
fn every_occurrence_is_highlighted() {
    set_override(true);
    let matcher = Matcher::new("ab", false).unwrap();
    let result = matcher.evaluate("abxabab", true);
    assert!(result.matched());
    assert_eq!(
        result.highlights(),
        &vec![
            Highlight { start: 0, end: 2, painted: true },
            Highlight { start: 3, end: 5, painted: true },
            Highlight { start: 5, end: 7, painted: true },
        ]
    );
    assert_eq!(
        result.display_text(),
        "\u{1b}[31mab\u{1b}[0mx\u{1b}[31mab\u{1b}[0m\u{1b}[31mab\u{1b}[0m"
    );
    assert_eq!(result.plain_text(), "abxabab");
}

#[test]
fn overlapping_occurrences_are_taken_left_to_right() {
    set_override(true);
    let matcher = Matcher::new("aa", false).unwrap();
    let result = matcher.evaluate("aaaaa", true);
    assert_eq!(
        result.highlights(),
        &vec![
            Highlight { start: 0, end: 2, painted: true },
            Highlight { start: 2, end: 4, painted: true },
        ]
    );
    assert_eq!(result.plain_text(), "aaaaa");
}

#[test]
fn highlight_keeps_the_case_of_the_line() {
    set_override(true);
    let matcher = Matcher::new("CAT", true).unwrap();
    let result = matcher.evaluate("conCaTenate", true);
    assert!(result.matched());
    assert_eq!(result.display_text(), "con\u{1b}[31mCaT\u{1b}[0menate");
    assert_eq!(result.plain_text(), "conCaTenate");
}

#[test]
fn offsets_count_characters_not_bytes() {
    set_override(true);
    let matcher = Matcher::new("é", false).unwrap();
    let result = matcher.evaluate("crème brûlée", true);
    assert_eq!(
        result.highlights(),
        &vec![Highlight { start: 10, end: 11, painted: true }]
    );
    assert_eq!(result.display_text(), "crème brûl\u{1b}[31mé\u{1b}[0me");
    assert_eq!(result.plain_text(), "crème brûlée");
}

#[test]
fn a_match_at_either_end_is_highlighted() {
    set_override(true);
    let matcher = Matcher::new("ab", false).unwrap();
    let result = matcher.evaluate("ab--ab", true);
    assert_eq!(
        result.display_text(),
        "\u{1b}[31mab\u{1b}[0m--\u{1b}[31mab\u{1b}[0m"
    );
    assert_eq!(result.plain_text(), "ab--ab");
}

#[test]
fn a_line_that_holds_marker_text_still_strips_to_itself() {
    set_override(true);
    let line = "x\u{1b}[0m cat \u{1b}[31my";
    let matcher = Matcher::new("cat", false).unwrap();
    let result = matcher.evaluate(line, true);
    assert_eq!(
        result.display_text(),
        "x\u{1b}[0m \u{1b}[31mcat\u{1b}[0m \u{1b}[31my"
    );
    assert_eq!(result.plain_text(), line);
}

#[test]
fn a_match_that_holds_the_reset_sequence_is_left_unpainted() {
    set_override(true);
    let matcher = Matcher::new("a\u{1b}[0mb", false).unwrap();
    let result = matcher.evaluate("-a\u{1b}[0mb-", true);
    assert!(result.matched());
    assert_eq!(
        result.highlights(),
        &vec![Highlight { start: 1, end: 7, painted: false }]
    );
    assert_eq!(result.display_text(), "-a\u{1b}[0mb-");
    assert_eq!(result.plain_text(), "-a\u{1b}[0mb-");
}

#[test]
fn folded_matches_are_highlighted_beyond_ascii() {
    set_override(true);
    let matcher = Matcher::new("école", true).unwrap();
    let result = matcher.evaluate("L'ÉCOLE et l'école", true);
    assert_eq!(
        result.highlights(),
        &vec![
            Highlight { start: 2, end: 7, painted: true },
            Highlight { start: 13, end: 18, painted: true },
        ]
    );
    assert_eq!(
        result.display_text(),
        "L'\u{1b}[31mÉCOLE\u{1b}[0m et l'\u{1b}[31mécole\u{1b}[0m"
    );
    assert_eq!(result.plain_text(), "L'ÉCOLE et l'école");
}
