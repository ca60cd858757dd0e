use colored::control::set_override;
use minigrep::config::Config;
use minigrep::scanner::ScanError;
use minigrep::session::{LineEvent, Outcome, Session, Wanted};

fn session(options: &[&str], pattern: &str, files: &[&str]) -> Session<'static> {
    let mut args = vec!["grep".to_string()];
    args.extend(options.iter().map(|option| option.to_string()));
    args.push(pattern.to_string());
    args.push("unused".to_string());
    let files = files.iter().map(|file| file.to_string()).collect();
    Session::new(Box::leak(Box::new(Config::new(&args).unwrap())), files)
}

fn raw(line: &[u8]) -> LineEvent {
    LineEvent::Raw(line.to_vec())
}

fn record(outcome: Outcome) -> String {
    match outcome {
        Outcome::Record { text, .. } => text,
        other => panic!("no record: {:?}", other),
    }
}

#[test]
fn a_session_without_files_wants_nothing() {
    assert_eq!(session(&[], "cat", &[]).wanted(), Wanted::Nothing);
}

#[test]
fn files_are_asked_for_in_order_and_lines_are_numbered_from_one() {
    let mut session = session(&["-n", "-f"], "cat", &["a.txt", "b.txt"]);
    assert_eq!(session.wanted(), Wanted::Open("a.txt".to_string()));
    assert_eq!(session.opened(true), None);
    assert_eq!(session.wanted(), Wanted::Line);
    assert_eq!(session.lines_seen(), 0);
    assert_eq!(session.line(&raw(b"dog\n")), Outcome::Nothing);
    assert_eq!(record(session.line(&raw(b"cat\r\n"))), "a.txt: 2: cat");
    assert_eq!(session.lines_seen(), 2);
    assert_eq!(record(session.line(&raw(b"a cat"))), "a.txt: 3: a cat");
    assert_eq!(session.line(&LineEvent::End), Outcome::Nothing);
    assert_eq!(session.wanted(), Wanted::Open("b.txt".to_string()));
    assert_eq!(session.opened(true), None);
    assert_eq!(session.lines_seen(), 0);
    assert_eq!(record(session.line(&raw(b"cat\n"))), "b.txt: 1: cat");
    assert_eq!(session.line(&LineEvent::End), Outcome::Nothing);
    assert_eq!(session.wanted(), Wanted::Nothing);
}

#[test]
fn a_file_that_cannot_be_opened_ends_the_session() {
    let mut session = session(&[], "cat", &["gone.txt", "b.txt"]);
    assert_eq!(session.wanted(), Wanted::Open("gone.txt".to_string()));
    assert_eq!(session.opened(false), Some(ScanError::Open("gone.txt".to_string())));
    assert_eq!(session.wanted(), Wanted::Nothing);
}

#[test]
fn a_line_that_cannot_be_decoded_ends_the_session() {
    let mut session = session(&[], "cat", &["a.txt", "b.txt"]);
    assert_eq!(session.opened(true), None);
    assert_eq!(record(session.line(&raw(b"cat\n"))), "cat");
    assert_eq!(
        session.line(&raw(b"\xff\xfe\n")),
        Outcome::Failure(ScanError::Read("a.txt".to_string(), 2))
    );
    assert_eq!(session.wanted(), Wanted::Nothing);
}

#[test]
fn a_line_that_cannot_be_read_ends_the_session() {
    let mut session = session(&[], "cat", &["a.txt", "b.txt"]);
    assert_eq!(session.opened(true), None);
    assert_eq!(
        session.line(&LineEvent::Unreadable),
        Outcome::Failure(ScanError::Read("a.txt".to_string(), 1))
    );
    assert_eq!(session.wanted(), Wanted::Nothing);
}

#[test]
fn an_inverted_session_hands_on_the_other_lines() {
    let mut session = session(&["-v", "-n"], "cat", &["a.txt"]);
    assert_eq!(session.opened(true), None);
    assert_eq!(session.line(&raw(b"cat\n")), Outcome::Nothing);
    assert_eq!(record(session.line(&raw(b"dog\n"))), "2: dog");
}

#[test]
fn a_coloured_session_hands_on_highlighted_records() {
    set_override(true);
    let mut session = session(&["-c"], "cat", &["a.txt"]);
    assert_eq!(session.opened(true), None);
    match session.line(&raw(b"concatenate\n")) {
        Outcome::Record { line, text } => {
            assert_eq!(line.line_number, 1);
            assert!(line.decision.matched());
            assert_eq!(text, "con\u{1b}[31mcat\u{1b}[0menate");
        }
        other => panic!("no record: {:?}", other),
    }
}
