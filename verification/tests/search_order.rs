use colored::control::set_override;
use minigrep::highlight::Highlight;
use minigrep::matcher::Matcher;

/// The occurrences that a search from left to right finds: at each place
/// the pattern if it stands there, and then on from behind it.
fn leftmost_occurrences(line: &[char], pattern: &[char]) -> Vec<(usize, usize)> {
    let mut found = Vec::new();
    let mut from = 0;
    while from + pattern.len() <= line.len() {
        if &line[from..from + pattern.len()] == pattern {
            found.push((from, from + pattern.len()));
            from += pattern.len();
        } else {
            from += 1;
        }
    }
    found
}

fn next(state: &mut u64) -> usize {
    *state = state.wrapping_mul(6364136223846793005).wrapping_add(1442695040888963407);
    (*state >> 33) as usize
}

fn text_from(alphabet: &[char], length: usize, state: &mut u64) -> Vec<char> {
    (0..length).map(|_| alphabet[next(state) % alphabet.len()]).collect()
}

#[test]
fn marks_lie_where_a_search_from_the_left_finds_the_pattern() {
    set_override(false);
    let alphabets: [&[char]; 4] = [
        &['a', 'b'],
        &['a', '.', '*', '\\', '(', ')'],
        &['é', 'e', '日', '🦀'],
        &['-', '[', ']', '^', '$', 'x', ' '],
    ];
    let mut state = 42u64;
    for alphabet in alphabets {
        for _ in 0..300 {
            let pattern_length = 1 + next(&mut state) % 3;
            let line_length = next(&mut state) % 12;
            let pattern = text_from(alphabet, pattern_length, &mut state);
            let line = text_from(alphabet, line_length, &mut state);
            let expected: Vec<Highlight> = leftmost_occurrences(&line, &pattern)
                .into_iter()
                .map(|(start, end)| Highlight { start, end, painted: false })
                .collect();
            let pattern: String = pattern.into_iter().collect();
            let line: String = line.into_iter().collect();
            let matcher = Matcher::new(&pattern, false).unwrap();
            let result = matcher.evaluate(&line, true);
            assert_eq!(result.matched(), !expected.is_empty(), "{:?} in {:?}", pattern, line);
            assert_eq!(result.highlights(), &expected, "{:?} in {:?}", pattern, line);
            assert_eq!(result.display_text(), line);
            assert_eq!(result.plain_text(), line);
        }
    }
}

#[test]
fn painted_text_strips_to_the_line_whatever_the_line() {
    set_override(true);
    let alphabet = ['a', 'b', 'é', '\u{1b}', '[', '0', '3', '1', 'm'];
    let mut state = 7u64;
    for _ in 0..400 {
        let pattern_length = 1 + next(&mut state) % 4;
        let line_length = next(&mut state) % 16;
        let pattern: String = text_from(&alphabet, pattern_length, &mut state).into_iter().collect();
        let line: String = text_from(&alphabet, line_length, &mut state).into_iter().collect();
        for fold in [false, true] {
            let matcher = Matcher::new(&pattern, fold).unwrap();
            let result = matcher.evaluate(&line, true);
            assert_eq!(result.plain_text(), line, "{:?} in {:?}", pattern, line);
            assert_eq!(result.matched(), !result.highlights().is_empty());
        }
    }
}

#[test]
fn folded_marks_are_as_long_as_the_pattern() {
    set_override(false);
    let line = "Kelvin K and k; ſ, s and S; Σ, σ and ς; İ, I, i and ı";
    for pattern in ["k", "K", "s", "ſ", "σ", "Σ", "ς", "i", "I", "ı", "İ", "s a", "and"] {
        let matcher = Matcher::new(pattern, true).unwrap();
        let result = matcher.evaluate(line, true);
        let width = pattern.chars().count();
        let mut reach = 0;
        for mark in result.highlights() {
            assert!(reach <= mark.start);
            assert_eq!(mark.end - mark.start, width);
            reach = mark.end;
        }
        assert!(reach <= line.chars().count());
        assert_eq!(result.matched(), !result.highlights().is_empty());
        assert_eq!(result.plain_text(), line);
    }
}

#[test]
fn folded_marks_lie_where_the_characters_fold_together_one_by_one() {
    set_override(false);
    let alphabet = [
        'a', 'A', 'k', 'K', '\u{212a}', 's', 'S', 'ſ', 'σ', 'Σ', 'ς', 'i', 'I', 'İ', 'ı', 'ß',
        'ẞ', 'é', 'É', '.', '-', 'ǅ', 'ǆ', 'Ǆ',
    ];
    let folds: Vec<Vec<bool>> = alphabet
        .iter()
        .map(|wanted| {
            let matcher = Matcher::new(&wanted.to_string(), true).unwrap();
            alphabet.iter().map(|seen| matcher.is_match(&seen.to_string())).collect()
        })
        .collect();
    for (at, row) in folds.iter().enumerate() {
        assert!(row[at]);
    }
    let mut state = 5u64;
    for _ in 0..1500 {
        let pattern_length = 1 + next(&mut state) % 3;
        let line_length = next(&mut state) % 14;
        let pattern: Vec<usize> =
            (0..pattern_length).map(|_| next(&mut state) % alphabet.len()).collect();
        let line: Vec<usize> =
            (0..line_length).map(|_| next(&mut state) % alphabet.len()).collect();
        let mut expected = Vec::new();
        let mut from = 0;
        while from + pattern.len() <= line.len() {
            if (0..pattern.len()).all(|k| folds[pattern[k]][line[from + k]]) {
                expected.push(Highlight { start: from, end: from + pattern.len(), painted: false });
                from += pattern.len();
            } else {
                from += 1;
            }
        }
        let pattern: String = pattern.iter().map(|&index| alphabet[index]).collect();
        let line: String = line.iter().map(|&index| alphabet[index]).collect();
        let matcher = Matcher::new(&pattern, true).unwrap();
        let result = matcher.evaluate(&line, true);
        assert_eq!(result.matched(), !expected.is_empty(), "{:?} in {:?}", pattern, line);
        assert_eq!(result.highlights(), &expected, "{:?} in {:?}", pattern, line);
        assert_eq!(result.plain_text(), line);
    }
}
