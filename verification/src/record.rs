//! The printed form of an emitted line: the file's name and the line's
//! number, each if wanted, and then the text.

use vstd::prelude::*;
use vstd::string::StringExecFns;

verus! {

/// The character that stands for a digit.
pub open spec fn digit_char(digit: int) -> char {
    if digit == 0 {
        '0'
    } else if digit == 1 {
        '1'
    } else if digit == 2 {
        '2'
    } else if digit == 3 {
        '3'
    } else if digit == 4 {
        '4'
    } else if digit == 5 {
        '5'
    } else if digit == 6 {
        '6'
    } else if digit == 7 {
        '7'
    } else if digit == 8 {
        '8'
    } else {
        '9'
    }
}

/// A number written in decimal, without leading zeros.
pub open spec fn decimal_text(number: nat) -> Seq<char>
    decreases number,
{
    if number < 10 {
        seq![digit_char(number as int)]
    } else {
        decimal_text(number / 10).push(digit_char((number % 10) as int))
    }
}

/// What separates the parts of a record.
pub open spec fn separator() -> Seq<char> {
    ": "@
}

/// The text of a record: the file's path and the line's number, each
/// followed by the separator and each only if wanted, and then the line.
pub open spec fn record_text(
    print_filenames: bool,
    print_line_numbers: bool,
    file_path: Seq<char>,
    line_number: nat,
    line: Seq<char>,
) -> Seq<char> {
    let name = if print_filenames {
        file_path + separator()
    } else {
        Seq::empty()
    };
    let number = if print_line_numbers {
        decimal_text(line_number) + separator()
    } else {
        Seq::empty()
    };
    name + number + line
}

/// One digit as text.
fn digit_text(value: usize) -> (text: &'static str)
    requires
        value < 10,
    ensures
        text@ == seq![digit_char(value as int)],
{
    proof {
        reveal_strlit("0");
        reveal_strlit("1");
        reveal_strlit("2");
        reveal_strlit("3");
        reveal_strlit("4");
        reveal_strlit("5");
        reveal_strlit("6");
        reveal_strlit("7");
        reveal_strlit("8");
        reveal_strlit("9");
    }
    let text = if value == 0 {
        "0"
    } else if value == 1 {
        "1"
    } else if value == 2 {
        "2"
    } else if value == 3 {
        "3"
    } else if value == 4 {
        "4"
    } else if value == 5 {
        "5"
    } else if value == 6 {
        "6"
    } else if value == 7 {
        "7"
    } else if value == 8 {
        "8"
    } else {
        "9"
    };
    text
}

/// Writes a number in decimal.
pub fn decimal(number: usize) -> (text: String)
    ensures
        text@ == decimal_text(number as nat),
    decreases number,
{
    if number < 10 {
        String::from_str(digit_text(number))
    } else {
        let mut text = decimal(number / 10);
        text.append(digit_text(number % 10));
        text
    }
}

/// Puts a record together.
pub fn format_record(
    print_filenames: bool,
    print_line_numbers: bool,
    file_path: &str,
    line_number: usize,
    line: &str,
) -> (record: String)
    ensures
        record@ == record_text(
            print_filenames,
            print_line_numbers,
            file_path@,
            line_number as nat,
            line@,
        ),
{
    let mut record = String::new();
    if print_filenames {
        record.append(file_path);
        record.append(": ");
    }
    if print_line_numbers {
        let number = decimal(line_number);
        record.append(number.as_str());
        record.append(": ");
    }
    record.append(line);
    record
}

} // verus!
