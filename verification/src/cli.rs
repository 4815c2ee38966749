//! Command-line interpretation: which command runs, and the options of
//! `equalize`.
use vstd::prelude::*;
use crate::text::str_eq;

verus! {

/// What the command line asks for.
#[derive(Debug, Clone, Copy, PartialEq, Eq, Structural)]
pub enum Command {
    /// Too few arguments: show how to use the program.
    Usage,
    Equalize,
    Configs,
    Bench,
    Help,
    /// An unknown command word.
    Unknown,
}

/// The characters of each argument.
pub open spec fn arg_views(args: Seq<String>) -> Seq<Seq<char>> {
    args.map_values(|s: String| s@)
}

/// The command named by the first argument after the program name.
pub open spec fn command_of(args: Seq<Seq<char>>) -> Command {
    if args.len() < 2 {
        Command::Usage
    } else if args[1] == "equalize"@ {
        Command::Equalize
    } else if args[1] == "configs"@ {
        Command::Configs
    } else if args[1] == "bench"@ {
        Command::Bench
    } else if args[1] == "help"@ || args[1] == "--help"@ || args[1] == "-h"@ {
        Command::Help
    } else {
        Command::Unknown
    }
}

/// Decides the command from the program arguments (the program name first).
pub fn parse_command(args: &Vec<String>) -> (c: Command)
    ensures
        c == command_of(arg_views(args@)),
{
    if args.len() < 2 {
        return Command::Usage;
    }
    let ghost a = arg_views(args@);
    assert(a[1] == args@[1]@);
    let word = args[1].as_str();
    if str_eq(word, "equalize") {
        Command::Equalize
    } else if str_eq(word, "configs") {
        Command::Configs
    } else if str_eq(word, "bench") {
        Command::Bench
    } else if str_eq(word, "help") || str_eq(word, "--help") || str_eq(word, "-h") {
        Command::Help
    } else {
        Command::Unknown
    }
}

/// Options of the `equalize` command.
#[derive(Debug)]
pub struct EqualizeArgs {
    /// Measurement file.
    pub input: String,
    /// Target curve file.
    pub target: Option<String>,
    /// Parametric equaliser configuration name.
    pub config: String,
    /// Name of the measurement.
    pub name: Option<String>,
}

/// Why the options of `equalize` were refused.
#[derive(Debug)]
pub enum ArgsError {
    /// No measurement file was given.
    MissingInput,
    /// An option that `equalize` does not know.
    UnknownOption(String),
}

/// Target, configuration and name collected so far.
pub type OptionState = (Option<Seq<char>>, Seq<char>, Option<Seq<char>>);

/// The option value following position `i`, if there is one.
pub open spec fn value_after(args: Seq<Seq<char>>, i: int) -> Option<Seq<char>> {
    if i + 1 < args.len() {
        Some(args[i + 1])
    } else {
        None
    }
}

/// Reads `--target`, `--config` and `--name` (each followed by its value) from
/// position `i` on; a value missing at the end leaves the option as it was; any
/// other word is an unknown option.
pub open spec fn scan_options(args: Seq<Seq<char>>, i: int, st: OptionState) -> core::result::Result<OptionState, Seq<char>>
    decreases args.len() + 1 - i,
{
    if i < 0 || i >= args.len() {
        Ok(st)
    } else if args[i] == "--target"@ {
        scan_options(args, i + 2, (match value_after(args, i) { Some(v) => Some(v), None => st.0 }, st.1, st.2))
    } else if args[i] == "--config"@ {
        scan_options(args, i + 2, (st.0, match value_after(args, i) { Some(v) => v, None => st.1 }, st.2))
    } else if args[i] == "--name"@ {
        scan_options(args, i + 2, (st.0, st.1, match value_after(args, i) { Some(v) => Some(v), None => st.2 }))
    } else {
        Err(args[i])
    }
}

/// The options of `equalize`: the measurement file first, then the options,
/// with configuration `8_PEAKING_WITH_SHELVES` unless one is given.
pub open spec fn equalize_options(args: Seq<Seq<char>>) -> core::result::Result<(Seq<char>, OptionState), Option<Seq<char>>> {
    if args.len() == 0 {
        Err(None)
    } else {
        match scan_options(args, 1, (None, "8_PEAKING_WITH_SHELVES"@, None)) {
            Ok(st) => Ok((args[0], st)),
            Err(w) => Err(Some(w)),
        }
    }
}

/// Characters of an optional string.
pub open spec fn opt_view(s: Option<String>) -> Option<Seq<char>> {
    match s {
        Some(x) => Some(x@),
        None => None,
    }
}

/// Interprets the arguments that follow `equalize`.
pub fn parse_equalize_args(args: &Vec<String>) -> (r: core::result::Result<EqualizeArgs, ArgsError>)
    ensures
        match equalize_options(arg_views(args@)) {
            Err(None) => r matches Err(ArgsError::MissingInput),
            Err(Some(w)) => r matches Err(ArgsError::UnknownOption(o)) && o@ == w,
            Ok((input, st)) => r matches Ok(a) && a.input@ == input && opt_view(a.target) == st.0
                && a.config@ == st.1 && opt_view(a.name) == st.2,
        },
{
    let ghost av = arg_views(args@);
    if args.len() == 0 {
        return Err(ArgsError::MissingInput);
    }
    let n = args.len();
    let mut target: Option<String> = None;
    let mut config = String::from_str("8_PEAKING_WITH_SHELVES");
    let mut name: Option<String> = None;
    let mut i: usize = 1;
    while i < n
        invariant
            1 <= i <= n,
            n == args.len(),
            av == arg_views(args@),
            scan_options(av, i as int, (opt_view(target), config@, opt_view(name))) == scan_options(
                av,
                1,
                (None, "8_PEAKING_WITH_SHELVES"@, None),
            ),
        decreases n - i,
    {
        assert(av[i as int] == args@[i as int]@);
        let ghost st_old = (opt_view(target), config@, opt_view(name));
        let word = args[i].as_str();
        let has_value = i + 1 < n;
        if has_value {
            assert(av[i + 1] == args@[i + 1]@);
        }
        if str_eq(word, "--target") {
            if has_value {
                target = Some(args[i + 1].clone());
            }
        } else if str_eq(word, "--config") {
            if has_value {
                config = args[i + 1].clone();
            }
        } else if str_eq(word, "--name") {
            if has_value {
                name = Some(args[i + 1].clone());
            }
        } else {
            return Err(ArgsError::UnknownOption(args[i].clone()));
        }
        let next = if has_value { i + 2 } else { n };
        proof {
            let st_new = (opt_view(target), config@, opt_view(name));
            assert(scan_options(av, i as int, st_old) == scan_options(av, i + 2, st_new));
            if !has_value {
                assert(scan_options(av, i + 2, st_new) == Ok::<OptionState, Seq<char>>(st_new));
                assert(scan_options(av, n as int, st_new) == Ok::<OptionState, Seq<char>>(st_new));
            }
        }
        i = next;
    }
    assert(av[0] == args@[0]@);
    Ok(EqualizeArgs { input: args[0].clone(), target, config, name })
}

} // verus!
