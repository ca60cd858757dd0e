//! The search configuration and how it is read from command-line
//! arguments.

use crate::text::{same_text, texts};
use vstd::prelude::*;

verus! {

/// Why a list of arguments does not describe a search.
#[derive(Clone, Copy, Debug, PartialEq, Eq, Structural)]
pub enum ConfigError {
    /// No pattern was given.
    MissingPattern,
    /// A pattern was given, but nothing to search in.
    MissingPaths,
}

impl ConfigError {
    /// The text of the message for this error.
    pub open spec fn message_text(self) -> Seq<char> {
        match self {
            ConfigError::MissingPattern => "Error: No pattern provided"@,
            ConfigError::MissingPaths => "Error: No file paths provided"@,
        }
    }

    /// The message to show for this error.
    pub fn message(&self) -> (text: String)
        ensures
            text@ == self.message_text(),
    {
        match self {
            ConfigError::MissingPattern => "Error: No pattern provided".to_owned(),
            ConfigError::MissingPaths => "Error: No file paths provided".to_owned(),
        }
    }
}

/// What a search is asked to do.
#[derive(Clone, Debug, PartialEq, Eq)]
pub struct Config {
    /// The text to look for.
    pub pattern: String,
    /// The files and directories to search, in the order given.
    pub file_paths: Vec<String>,
    /// Letters match regardless of case.
    pub case_insensitive: bool,
    /// Each reported line is preceded by its number.
    pub print_line_numbers: bool,
    /// The lines that do not match are reported instead.
    pub invert_match: bool,
    /// Directories are searched, with everything below them.
    pub recursive_search: bool,
    /// Each reported line is preceded by the name of its file.
    pub print_filenames: bool,
    /// Matches are highlighted.
    pub colored_output: bool,
    /// Only the usage text is wanted.
    pub help: bool,
}

/// The mathematical content of a [`Config`].
pub struct Settings {
    pub pattern: Seq<char>,
    pub file_paths: Seq<Seq<char>>,
    pub case_insensitive: bool,
    pub print_line_numbers: bool,
    pub invert_match: bool,
    pub recursive_search: bool,
    pub print_filenames: bool,
    pub colored_output: bool,
    pub help: bool,
}

impl View for Config {
    type V = Settings;

    open spec fn view(&self) -> Settings {
        Settings {
            pattern: self.pattern@,
            file_paths: texts(self.file_paths@),
            case_insensitive: self.case_insensitive,
            print_line_numbers: self.print_line_numbers,
            invert_match: self.invert_match,
            recursive_search: self.recursive_search,
            print_filenames: self.print_filenames,
            colored_output: self.colored_output,
            help: self.help,
        }
    }
}

impl Settings {
    /// A configuration can be searched with when it asks for help only, or
    /// names a pattern that is not empty and at least one path.
    pub open spec fn wf(self) -> bool {
        self.help || (self.pattern.len() > 0 && self.file_paths.len() > 0)
    }
}

/// Whether an argument is one of the recognised options.
pub open spec fn is_option(arg: Seq<char>) -> bool {
    arg == "-i"@ || arg == "-n"@ || arg == "-v"@ || arg == "-r"@ || arg == "-f"@ || arg == "-c"@
        || arg == "-h"@ || arg == "--help"@
}

/// The test that keeps the arguments which are not options.
pub open spec fn is_operand() -> spec_fn(Seq<char>) -> bool {
    |arg: Seq<char>| !is_option(arg)
}

/// Whether `option` stands among the arguments before index `upto`. The
/// first argument is the program's name and is never looked at.
pub open spec fn given_before(args: Seq<Seq<char>>, option: Seq<char>, upto: int) -> bool {
    exists|j: int| 1 <= j < upto && j < args.len() && #[trigger] args[j] == option
}

/// Whether `option` stands among the arguments.
pub open spec fn given(args: Seq<Seq<char>>, option: Seq<char>) -> bool {
    given_before(args, option, args.len() as int)
}

/// The arguments before index `upto` that are not options, in order.
pub open spec fn operands_before(args: Seq<Seq<char>>, upto: int) -> Seq<Seq<char>> {
    if 1 < upto <= args.len() {
        args.subrange(1, upto).filter(is_operand())
    } else {
        Seq::empty()
    }
}

/// The arguments that are not options, in order: the pattern first, then
/// the paths.
pub open spec fn operands(args: Seq<Seq<char>>) -> Seq<Seq<char>> {
    operands_before(args, args.len() as int)
}

/// The options that the arguments switch on, with no pattern and no paths.
pub open spec fn switches(args: Seq<Seq<char>>) -> Settings {
    Settings {
        pattern: Seq::empty(),
        file_paths: Seq::empty(),
        case_insensitive: given(args, "-i"@),
        print_line_numbers: given(args, "-n"@),
        invert_match: given(args, "-v"@),
        recursive_search: given(args, "-r"@),
        print_filenames: given(args, "-f"@),
        colored_output: given(args, "-c"@),
        help: given(args, "-h"@) || given(args, "--help"@),
    }
}

/// What a list of arguments asks for. A request for help wins over
/// everything else; otherwise the first operand is the pattern, which must
/// not be empty, and the remaining operands, of which there must be one at
/// least, are the paths.
pub open spec fn parsed(args: Seq<Seq<char>>) -> Result<Settings, ConfigError> {
    let named = operands(args);
    let on = switches(args);
    if on.help {
        Ok(on)
    } else if named.len() == 0 || named[0].len() == 0 {
        Err(ConfigError::MissingPattern)
    } else if named.len() < 2 {
        Err(ConfigError::MissingPaths)
    } else {
        Ok(
            Settings {
                pattern: named[0],
                file_paths: named.skip(1),
                case_insensitive: on.case_insensitive,
                print_line_numbers: on.print_line_numbers,
                invert_match: on.invert_match,
                recursive_search: on.recursive_search,
                print_filenames: on.print_filenames,
                colored_output: on.colored_output,
                help: false,
            },
        )
    }
}

/// No two of the recognised options are the same text.
proof fn lemma_options_differ()
    ensures
        "-i"@ != "-n"@ && "-i"@ != "-v"@ && "-i"@ != "-r"@ && "-i"@ != "-f"@ && "-i"@ != "-c"@
            && "-i"@ != "-h"@ && "-i"@ != "--help"@,
        "-n"@ != "-v"@ && "-n"@ != "-r"@ && "-n"@ != "-f"@ && "-n"@ != "-c"@ && "-n"@ != "-h"@
            && "-n"@ != "--help"@,
        "-v"@ != "-r"@ && "-v"@ != "-f"@ && "-v"@ != "-c"@ && "-v"@ != "-h"@ && "-v"@
            != "--help"@,
        "-r"@ != "-f"@ && "-r"@ != "-c"@ && "-r"@ != "-h"@ && "-r"@ != "--help"@,
        "-f"@ != "-c"@ && "-f"@ != "-h"@ && "-f"@ != "--help"@,
        "-c"@ != "-h"@ && "-c"@ != "--help"@,
        "-h"@ != "--help"@,
{
    reveal_strlit("-i");
    reveal_strlit("-n");
    reveal_strlit("-v");
    reveal_strlit("-r");
    reveal_strlit("-f");
    reveal_strlit("-c");
    reveal_strlit("-h");
    reveal_strlit("--help");
    assert("-i"@[1] == 'i');
    assert("-n"@[1] == 'n');
    assert("-v"@[1] == 'v');
    assert("-r"@[1] == 'r');
    assert("-f"@[1] == 'f');
    assert("-c"@[1] == 'c');
    assert("-h"@[1] == 'h');
    assert("--help"@[1] == '-');
}

/// Looking at one more argument either sets an option or adds an operand.
proof fn lemma_one_more_argument(args: Seq<Seq<char>>, upto: int)
    requires
        1 <= upto < args.len(),
    ensures
        operands_before(args, upto + 1) == if is_option(args[upto]) {
            operands_before(args, upto)
        } else {
            operands_before(args, upto).push(args[upto])
        },
        forall|option: Seq<char>|
            given_before(args, option, upto + 1) == (given_before(args, option, upto)
                || args[upto] == option),
{
    reveal(Seq::filter);
    let longer = args.subrange(1, upto + 1);
    assert(longer.drop_last() =~= args.subrange(1, upto));
    if upto == 1 {
        assert(args.subrange(1, upto).filter(is_operand()) =~= Seq::<Seq<char>>::empty());
    }
}

impl Config {
    /// Whether this configuration can be searched with.
    pub open spec fn wf(&self) -> bool {
        self@.wf()
    }

    /// Reads a configuration from the arguments of a command line, the
    /// program's name first.
    pub fn new(args: &Vec<String>) -> (outcome: Result<Config, ConfigError>)
        ensures
            match outcome {
                Ok(config) => parsed(texts(args@)) == Ok::<Settings, ConfigError>(config@)
                    && config.wf(),
                Err(error) => parsed(texts(args@)) == Err::<Settings, ConfigError>(error),
            },
    {
        let ghost given_args = texts(args@);
        let mut case_insensitive = false;
        let mut print_line_numbers = false;
        let mut invert_match = false;
        let mut recursive_search = false;
        let mut print_filenames = false;
        let mut colored_output = false;
        let mut help = false;
        let mut non_options: Vec<String> = Vec::new();
        let mut i: usize = 1;
        while i < args.len()
            invariant
                1 <= i,
                i <= args.len() || args.len() == 0,
                given_args == texts(args@),
                case_insensitive == given_before(given_args, "-i"@, i as int),
                print_line_numbers == given_before(given_args, "-n"@, i as int),
                invert_match == given_before(given_args, "-v"@, i as int),
                recursive_search == given_before(given_args, "-r"@, i as int),
                print_filenames == given_before(given_args, "-f"@, i as int),
                colored_output == given_before(given_args, "-c"@, i as int),
                help == (given_before(given_args, "-h"@, i as int) || given_before(
                    given_args,
                    "--help"@,
                    i as int,
                )),
                texts(non_options@) == operands_before(given_args, i as int),
            decreases args.len() - i,
        {
            let arg = args[i].as_str();
            proof {
                lemma_one_more_argument(given_args, i as int);
                lemma_options_differ();
            }
            if same_text(arg, "-i") {
                case_insensitive = true;
            } else if same_text(arg, "-n") {
                print_line_numbers = true;
            } else if same_text(arg, "-v") {
                invert_match = true;
            } else if same_text(arg, "-r") {
                recursive_search = true;
            } else if same_text(arg, "-f") {
                print_filenames = true;
            } else if same_text(arg, "-c") {
                colored_output = true;
            } else if same_text(arg, "-h") || same_text(arg, "--help") {
                help = true;
            } else {
                non_options.push(args[i].clone());
            }
            i += 1;
        }
        if help {
            let config = Config {
                pattern: String::new(),
                file_paths: Vec::new(),
                case_insensitive,
                print_line_numbers,
                invert_match,
                recursive_search,
                print_filenames,
                colored_output,
                help,
            };
            assert(config@.file_paths =~= Seq::<Seq<char>>::empty());
            return Ok(config);
        }
        if non_options.len() == 0 {
            return Err(ConfigError::MissingPattern);
        }
        if non_options[0].as_str().is_empty() {
            return Err(ConfigError::MissingPattern);
        }
        if non_options.len() < 2 {
            return Err(ConfigError::MissingPaths);
        }
        let ghost named = texts(non_options@);
        let pattern = non_options.remove(0);
        let config = Config {
            pattern,
            file_paths: non_options,
            case_insensitive,
            print_line_numbers,
            invert_match,
            recursive_search,
            print_filenames,
            colored_output,
            help,
        };
        assert(config@.file_paths =~= named.skip(1));
        Ok(config)
    }
}

} // verus!
