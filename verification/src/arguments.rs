//! The arguments of the command line: the directory to list, then the
//! options `--find`, `--in-file`, `--sort` and `-f` in any order.

use vstd::prelude::*;
use vstd::string::*;
use crate::text::eq;

verus! {

/// What the command line asks for.
#[derive(Clone, Debug, PartialEq, Eq)]
pub struct Options {
    /// The directory to list.
    pub path: String,
    /// The text that the path of a file must contain, from `--find`.
    pub find_file: Option<String>,
    /// The text that a text file must hold, from `--in-file`.
    pub search_string: Option<String>,
    /// Whether the listing is sorted, from `--sort`.
    pub sort: bool,
    /// The file that the listing goes to, from `-f`; the console without it.
    pub output_file: Option<String>,
}

/// The mathematical value of [`Options`].
pub struct OptionsView {
    pub path: Seq<char>,
    pub find_file: Option<Seq<char>>,
    pub search_string: Option<Seq<char>>,
    pub sort: bool,
    pub output_file: Option<Seq<char>>,
}

/// The characters of a text that may be absent.
pub open spec fn optional_text(text: Option<String>) -> Option<Seq<char>> {
    match text {
        Some(text) => Some(text@),
        None => None,
    }
}

impl View for Options {
    type V = OptionsView;

    open spec fn view(&self) -> OptionsView {
        OptionsView {
            path: self.path@,
            find_file: optional_text(self.find_file),
            search_string: optional_text(self.search_string),
            sort: self.sort,
            output_file: optional_text(self.output_file),
        }
    }
}

/// Why a command line is refused.
#[derive(Clone, Debug, PartialEq, Eq)]
pub enum ArgumentError {
    /// The directory to list is missing.
    MissingPath,
    /// `--find` is the last argument.
    MissingFileName,
    /// `--in-file` is the last argument.
    MissingSearchString,
    /// `-f` is the last argument.
    MissingOutputFile,
    /// An argument in the place of an option is none of the options.
    UnknownOption(String),
}

/// The mathematical value of an [`ArgumentError`].
pub enum ArgumentErrorView {
    MissingPath,
    MissingFileName,
    MissingSearchString,
    MissingOutputFile,
    UnknownOption(Seq<char>),
}

impl View for ArgumentError {
    type V = ArgumentErrorView;

    open spec fn view(&self) -> ArgumentErrorView {
        match self {
            ArgumentError::MissingPath => ArgumentErrorView::MissingPath,
            ArgumentError::MissingFileName => ArgumentErrorView::MissingFileName,
            ArgumentError::MissingSearchString => ArgumentErrorView::MissingSearchString,
            ArgumentError::MissingOutputFile => ArgumentErrorView::MissingOutputFile,
            ArgumentError::UnknownOption(option) => ArgumentErrorView::UnknownOption(option@),
        }
    }
}

/// The characters of each argument.
pub open spec fn texts(args: Seq<String>) -> Seq<Seq<char>> {
    args.map_values(|arg: String| arg@)
}

/// The value of what the reading of a command line gave.
pub open spec fn outcome_view(outcome: Result<Options, ArgumentError>) -> Result<
    OptionsView,
    ArgumentErrorView,
> {
    match outcome {
        Ok(options) => Ok(options@),
        Err(error) => Err(error@),
    }
}

/// The options before any option was read.
pub open spec fn initial_options(path: Seq<char>) -> OptionsView {
    OptionsView { path, find_file: None, search_string: None, sort: false, output_file: None }
}

/// Reads the options from the argument at `at` on, from left to right.
/// `--find`, `--in-file` and `-f` take the argument that follows as their
/// value, whatever it holds, and are refused where none follows. `--sort`
/// stands alone. An option that comes twice counts as its last value. The
/// first argument that is refused ends the reading.
pub open spec fn scan(args: Seq<Seq<char>>, at: nat, options: OptionsView) -> Result<
    OptionsView,
    ArgumentErrorView,
>
    decreases args.len() - at,
{
    if at >= args.len() {
        Ok(options)
    } else if args[at as int] == "--find"@ {
        if at + 1 < args.len() {
            scan(
                args,
                at + 2,
                OptionsView {
                    path: options.path,
                    find_file: Some(args[at as int + 1]),
                    search_string: options.search_string,
                    sort: options.sort,
                    output_file: options.output_file,
                },
            )
        } else {
            Err(ArgumentErrorView::MissingFileName)
        }
    } else if args[at as int] == "--in-file"@ {
        if at + 1 < args.len() {
            scan(
                args,
                at + 2,
                OptionsView {
                    path: options.path,
                    find_file: options.find_file,
                    search_string: Some(args[at as int + 1]),
                    sort: options.sort,
                    output_file: options.output_file,
                },
            )
        } else {
            Err(ArgumentErrorView::MissingSearchString)
        }
    } else if args[at as int] == "--sort"@ {
        scan(
            args,
            at + 1,
            OptionsView {
                path: options.path,
                find_file: options.find_file,
                search_string: options.search_string,
                sort: true,
                output_file: options.output_file,
            },
        )
    } else if args[at as int] == "-f"@ {
        if at + 1 < args.len() {
            scan(
                args,
                at + 2,
                OptionsView {
                    path: options.path,
                    find_file: options.find_file,
                    search_string: options.search_string,
                    sort: options.sort,
                    output_file: Some(args[at as int + 1]),
                },
            )
        } else {
            Err(ArgumentErrorView::MissingOutputFile)
        }
    } else {
        Err(ArgumentErrorView::UnknownOption(args[at as int]))
    }
}

/// What a command line asks for. The first argument is the name of the
/// program, the second the directory to list; the options follow.
pub open spec fn parsed(args: Seq<Seq<char>>) -> Result<OptionsView, ArgumentErrorView> {
    if args.len() < 2 {
        Err(ArgumentErrorView::MissingPath)
    } else {
        scan(args, 2, initial_options(args[1]))
    }
}

/// The message that reports a refused command line.
pub open spec fn message_of(error: ArgumentErrorView) -> Seq<char> {
    match error {
        ArgumentErrorView::MissingPath =>
            "Usage: cargo run -- <path> [--find <file_name>] [--in-file <search_string>] [--sort] [-f <output_file>]"@,
        ArgumentErrorView::MissingFileName => "Error: --find option requires a file name"@,
        ArgumentErrorView::MissingSearchString =>
            "Error: --in-file option requires a search string"@,
        ArgumentErrorView::MissingOutputFile => "Error: -f option requires a file name"@,
        ArgumentErrorView::UnknownOption(option) => "Error: Unknown option "@ + option,
    }
}

impl ArgumentError {
    /// The message that reports the error. The program prints it to the
    /// standard error and ends with the status 1.
    pub fn message(&self) -> (message: String)
        ensures
            message@ == message_of(self@),
    {
        match self {
            ArgumentError::MissingPath => String::from_str(
                "Usage: cargo run -- <path> [--find <file_name>] [--in-file <search_string>] [--sort] [-f <output_file>]",
            ),
            ArgumentError::MissingFileName => String::from_str(
                "Error: --find option requires a file name",
            ),
            ArgumentError::MissingSearchString => String::from_str(
                "Error: --in-file option requires a search string",
            ),
            ArgumentError::MissingOutputFile => String::from_str(
                "Error: -f option requires a file name",
            ),
            ArgumentError::UnknownOption(option) => {
                let mut message = String::from_str("Error: Unknown option ");
                message.append(option.as_str());
                message
            },
        }
    }
}

/// Reads the command line. `args` holds the name of the program, the
/// directory to list and the options, as the program received them.
pub fn parse_arguments(args: &[String]) -> (outcome: Result<Options, ArgumentError>)
    ensures
        outcome_view(outcome) == parsed(texts(args@)),
{
    if args.len() < 2 {
        return Err(ArgumentError::MissingPath);
    }
    let ghost given = texts(args@);
    let mut options = Options {
        path: args[1].clone(),
        find_file: None,
        search_string: None,
        sort: false,
        output_file: None,
    };
    let mut i: usize = 2;
    while i < args.len()
        invariant
            2 <= i <= args@.len(),
            given == texts(args@),
            parsed(given) == scan(given, i as nat, options@),
        decreases args@.len() - i,
    {
        let arg = args[i].as_str();
        assert(arg@ == given[i as int]);
        if eq(arg, "--find") {
            if i + 1 < args.len() {
                options.find_file = Some(args[i + 1].clone());
                i += 2;
            } else {
                return Err(ArgumentError::MissingFileName);
            }
        } else if eq(arg, "--in-file") {
            if i + 1 < args.len() {
                options.search_string = Some(args[i + 1].clone());
                i += 2;
            } else {
                return Err(ArgumentError::MissingSearchString);
            }
        } else if eq(arg, "--sort") {
            options.sort = true;
            i += 1;
        } else if eq(arg, "-f") {
            if i + 1 < args.len() {
                options.output_file = Some(args[i + 1].clone());
                i += 2;
            } else {
                return Err(ArgumentError::MissingOutputFile);
            }
        } else {
            return Err(ArgumentError::UnknownOption(args[i].clone()));
        }
    }
    Ok(options)
}

} // verus!
