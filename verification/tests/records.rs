use minigrep::record::{decimal, format_record};

#[test]
fn numbers_are_written_in_decimal() {
    assert_eq!(decimal(0), "0");
    assert_eq!(decimal(7), "7");
    assert_eq!(decimal(10), "10");
    assert_eq!(decimal(42), "42");
    assert_eq!(decimal(1905), "1905");
    assert_eq!(decimal(1234567890), "1234567890");
    assert_eq!(decimal(usize::MAX), usize::MAX.to_string());
}

#[test]
fn a_record_is_the_line_alone_by_default() {
    assert_eq!(format_record(false, false, "a.txt", 3, "some text"), "some text");
}

#[test]
fn a_record_may_begin_with_the_file_name() {
    assert_eq!(format_record(true, false, "a.txt", 3, "some text"), "a.txt: some text");
}

#[test]
fn a_record_may_begin_with_the_line_number() {
    assert_eq!(format_record(false, true, "a.txt", 3, "some text"), "3: some text");
}

#[test]
fn a_record_may_begin_with_both() {
    assert_eq!(format_record(true, true, "a.txt", 12, "some text"), "a.txt: 12: some text");
}

#[test]
fn an_empty_line_still_gets_its_separators() {
    assert_eq!(format_record(true, true, "a.txt", 1, ""), "a.txt: 1: ");
    assert_eq!(format_record(false, false, "a.txt", 1, ""), "");
}
