use vstd::prelude::*;

use crate::parse::{chars_of, parse_unsigned, parse_unsigned_chars};
use crate::pipeline::SortBy;

verus! {

/// What the command line asks the report to be shown with.
#[derive(Debug, Clone, Copy, PartialEq, Eq)]
pub struct Options {
    /// Entries of smaller size are left out.
    pub min_size: u64,
    /// At most this many records in the flat view.
    pub max_lines: usize,
    /// The order of the flat view; none keeps the report's order.
    pub sort_by: Option<SortBy>,
    /// Show the tree view instead of the flat one.
    pub use_tree: bool,
}

/// What the command line asks for.
#[derive(Debug, Clone, Copy, PartialEq, Eq)]
pub enum Command {
    /// Print the usage text.
    Help,
    /// Show the report once.
    Show(Options),
}

/// Why a command line is refused.
#[derive(Debug, Clone, Copy, PartialEq, Eq)]
pub enum ArgError {
    MissingSortValue,
    InvalidSort,
    MissingMinValue,
    InvalidMin,
    MissingLinesValue,
    InvalidLines,
    /// The argument at this position is no option.
    UnknownArgument(usize),
    /// The one-shot display was not confirmed.
    OnceRequired,
}

/// Options before any argument: no minimum, no limit, no order, flat view.
pub open spec fn default_options() -> Options {
    Options { min_size: 0, max_lines: usize::MAX, sort_by: None, use_tree: false }
}

/// The order that a value of the sort option names.
pub open spec fn sort_key(v: Seq<char>) -> Option<SortBy> {
    if v == "s"@ {
        Some(SortBy::Size)
    } else if v == "c"@ {
        Some(SortBy::Calls)
    } else if v == "t"@ {
        Some(SortBy::Tag)
    } else {
        None
    }
}

/// The outcome of reading the arguments from position `i` on, with the options
/// set so far and whether the one-shot display was confirmed.
pub open spec fn scan_args(args: Seq<Seq<char>>, i: int, opts: Options, once: bool) -> Result<Command, ArgError>
    decreases args.len() - i,
{
    if i >= args.len() {
        if once {
            Ok(Command::Show(opts))
        } else {
            Err(ArgError::OnceRequired)
        }
    } else {
        let a = args[i];
        if a == "-h"@ || a == "--help"@ {
            Ok(Command::Help)
        } else if a == "-o"@ || a == "--once"@ {
            scan_args(args, i + 1, opts, true)
        } else if a == "-t"@ || a == "--tree"@ {
            scan_args(args, i + 1, Options { use_tree: true, ..opts }, once)
        } else if a == "-s"@ || a == "--sort"@ {
            if i + 1 >= args.len() {
                Err(ArgError::MissingSortValue)
            } else {
                match sort_key(args[i + 1]) {
                    Some(by) => scan_args(args, i + 2, Options { sort_by: Some(by), ..opts }, once),
                    None => Err(ArgError::InvalidSort),
                }
            }
        } else if a == "-m"@ || a == "--min"@ {
            if i + 1 >= args.len() {
                Err(ArgError::MissingMinValue)
            } else {
                match parse_unsigned(args[i + 1], u64::MAX) {
                    Some(m) => scan_args(args, i + 2, Options { min_size: m, ..opts }, once),
                    None => Err(ArgError::InvalidMin),
                }
            }
        } else if a == "-n"@ || a == "--lines"@ {
            if i + 1 >= args.len() {
                Err(ArgError::MissingLinesValue)
            } else {
                match parse_unsigned(args[i + 1], usize::MAX as u64) {
                    Some(n) => scan_args(args, i + 2, Options { max_lines: n as usize, ..opts }, once),
                    None => Err(ArgError::InvalidLines),
                }
            }
        } else {
            Err(ArgError::UnknownArgument(i as usize))
        }
    }
}

fn same_text(a: &String, b: &str) -> (r: bool)
    ensures
        r == (a@ == b@),
{
    let b = String::from_str(b);
    *a == b
}

fn read_sort_key(v: &String) -> (r: Option<SortBy>)
    ensures
        r == sort_key(v@),
{
    if same_text(v, "s") {
        Some(SortBy::Size)
    } else if same_text(v, "c") {
        Some(SortBy::Calls)
    } else if same_text(v, "t") {
        Some(SortBy::Tag)
    } else {
        None
    }
}

/// Reads the command line; `args[0]`, the program's name, is not read.
/// Help wins as soon as it is met; otherwise the first refused argument decides
/// the error, and where every argument is accepted, the one-shot display must
/// have been confirmed.
pub fn parse_args(args: &Vec<String>) -> (r: Result<Command, ArgError>)
    ensures
        r == scan_args(args.deep_view(), 1, default_options(), false),
{
    let ghost dv = args.deep_view();
    let mut opts = Options { min_size: 0, max_lines: usize::MAX, sort_by: None, use_tree: false };
    let mut once = false;
    let mut i: usize = 1;
    while i < args.len()
        invariant
            dv == args.deep_view(),
            scan_args(dv, 1, default_options(), false) == scan_args(dv, i as int, opts, once),
        decreases args.len() - i,
    {
        let a = &args[i];
        assert(a@ == dv[i as int]);
        if same_text(a, "-h") || same_text(a, "--help") {
            return Ok(Command::Help);
        } else if same_text(a, "-o") || same_text(a, "--once") {
            once = true;
            i = i + 1;
        } else if same_text(a, "-t") || same_text(a, "--tree") {
            opts = Options { use_tree: true, ..opts };
            i = i + 1;
        } else if same_text(a, "-s") || same_text(a, "--sort") {
            if i + 1 >= args.len() {
                return Err(ArgError::MissingSortValue);
            }
            assert(args[i + 1]@ == dv[i + 1]);
            match read_sort_key(&args[i + 1]) {
                Some(by) => {
                    opts = Options { sort_by: Some(by), ..opts };
                    i = i + 2;
                },
                None => return Err(ArgError::InvalidSort),
            }
        } else if same_text(a, "-m") || same_text(a, "--min") {
            if i + 1 >= args.len() {
                return Err(ArgError::MissingMinValue);
            }
            let v = chars_of(&args[i + 1]);
            assert(v@ == dv[i + 1]);
            match parse_unsigned_chars(&v, u64::MAX) {
                Some(m) => {
                    opts = Options { min_size: m, ..opts };
                    i = i + 2;
                },
                None => return Err(ArgError::InvalidMin),
            }
        } else if same_text(a, "-n") || same_text(a, "--lines") {
            if i + 1 >= args.len() {
                return Err(ArgError::MissingLinesValue);
            }
            let v = chars_of(&args[i + 1]);
            assert(v@ == dv[i + 1]);
            match parse_unsigned_chars(&v, usize::MAX as u64) {
                Some(n) => {
                    opts = Options { max_lines: n as usize, ..opts };
                    i = i + 2;
                },
                None => return Err(ArgError::InvalidLines),
            }
        } else {
            return Err(ArgError::UnknownArgument(i));
        }
    }
    if once {
        Ok(Command::Show(opts))
    } else {
        Err(ArgError::OnceRequired)
    }
}

} // verus!
