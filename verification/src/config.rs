//! Command-line options of the serial sender:
//! `--port DEVICE`, `--baud RATE`, `--csv PATH` (or the path as the single
//! positional argument), and `--help` / `-h`.

use vstd::prelude::*;
use crate::csv_text::{chars_of, lemma_parse_int_in_range, parse_int, parse_u32_range, IntErrorKind};

verus! {

pub const DEFAULT_BAUD: u32 = 115_200;

/// The serial device used when `--port` is not given.
pub open spec fn default_port() -> Seq<char> {
    "/dev/ttyUSB0"@
}

/// The sender's settings.
#[derive(Debug)]
pub struct Config {
    pub csv_path: Option<String>,
    pub port: String,
    pub baud: u32,
}

/// What the command line asks for.
#[derive(Debug)]
pub enum ArgsOutcome {
    Run(Config),
    /// `--help` or `-h`: print the usage and stop.
    Help,
}

/// Why the command line was rejected.
#[derive(Debug)]
pub enum ArgsError {
    /// `--csv` is the last argument.
    MissingCsvPath,
    /// `--port` is the last argument.
    MissingPort,
    /// `--baud` is the last argument.
    MissingBaud,
    /// The value after `--baud` is not a `u32`.
    BadBaud(IntErrorKind),
    /// An argument starting with `-` that is no option.
    UnknownOption(String),
    /// A second positional argument.
    UnexpectedArgument(String),
}

/// The settings gathered so far while reading the arguments.
pub struct ArgsView {
    pub csv_path: Option<Seq<char>>,
    pub port: Option<Seq<char>>,
    pub baud: u32,
}

/// The meaning of a command line.
pub enum ArgsVerdict {
    Run(ArgsView),
    Help,
    MissingCsvPath,
    MissingPort,
    MissingBaud,
    BadBaud(IntErrorKind),
    UnknownOption(Seq<char>),
    UnexpectedArgument(Seq<char>),
}

pub open spec fn word_csv() -> Seq<char> {
    seq!['-', '-', 'c', 's', 'v']
}

pub open spec fn word_port() -> Seq<char> {
    seq!['-', '-', 'p', 'o', 'r', 't']
}

pub open spec fn word_baud() -> Seq<char> {
    seq!['-', '-', 'b', 'a', 'u', 'd']
}

pub open spec fn word_help() -> Seq<char> {
    seq!['-', '-', 'h', 'e', 'l', 'p']
}

pub open spec fn word_h() -> Seq<char> {
    seq!['-', 'h']
}

/// Reads the arguments from position `i` on, with the settings `st` gathered
/// from the ones before. Options take the next argument as their value; the
/// first help option ends the reading; a later option overrides an earlier one.
pub open spec fn interpret_args(args: Seq<Seq<char>>, i: int, st: ArgsView) -> ArgsVerdict
    decreases args.len() - i,
{
    if i < 0 || i >= args.len() {
        ArgsVerdict::Run(st)
    } else {
        let a = args[i];
        if a == word_csv() {
            if i + 1 < args.len() {
                interpret_args(args, i + 2, ArgsView { csv_path: Some(args[i + 1]), ..st })
            } else {
                ArgsVerdict::MissingCsvPath
            }
        } else if a == word_port() {
            if i + 1 < args.len() {
                interpret_args(args, i + 2, ArgsView { port: Some(args[i + 1]), ..st })
            } else {
                ArgsVerdict::MissingPort
            }
        } else if a == word_baud() {
            if i + 1 < args.len() {
                match parse_int(args[i + 1], 0, u32::MAX as int) {
                    Ok(v) => interpret_args(args, i + 2, ArgsView { baud: v as u32, ..st }),
                    Err(e) => ArgsVerdict::BadBaud(e),
                }
            } else {
                ArgsVerdict::MissingBaud
            }
        } else if a == word_help() || a == word_h() {
            ArgsVerdict::Help
        } else if a.len() > 0 && a[0] == '-' {
            ArgsVerdict::UnknownOption(a)
        } else if st.csv_path is None {
            interpret_args(args, i + 1, ArgsView { csv_path: Some(a), ..st })
        } else {
            ArgsVerdict::UnexpectedArgument(a)
        }
    }
}

/// The settings before any argument is read.
pub open spec fn initial_args() -> ArgsView {
    ArgsView { csv_path: None, port: None, baud: DEFAULT_BAUD }
}

/// The texts of the arguments.
pub open spec fn args_text(args: Seq<String>) -> Seq<Seq<char>> {
    args.map_values(|s: String| s@)
}

/// `r` is the outcome the verdict describes.
pub open spec fn outcome_matches(r: Result<ArgsOutcome, ArgsError>, v: ArgsVerdict) -> bool {
    match v {
        ArgsVerdict::Run(st) => match r {
            Ok(ArgsOutcome::Run(c)) => {
                &&& c.baud == st.baud
                &&& c.port@ == (match st.port {
                    Some(p) => p,
                    None => default_port(),
                })
                &&& match (c.csv_path, st.csv_path) {
                    (Some(a), Some(b)) => a@ == b,
                    (None, None) => true,
                    _ => false,
                }
            },
            _ => false,
        },
        ArgsVerdict::Help => r matches Ok(ArgsOutcome::Help),
        ArgsVerdict::MissingCsvPath => r matches Err(ArgsError::MissingCsvPath),
        ArgsVerdict::MissingPort => r matches Err(ArgsError::MissingPort),
        ArgsVerdict::MissingBaud => r matches Err(ArgsError::MissingBaud),
        ArgsVerdict::BadBaud(e) => r == Err::<ArgsOutcome, ArgsError>(ArgsError::BadBaud(e)),
        ArgsVerdict::UnknownOption(a) => r matches Err(ArgsError::UnknownOption(s)) && s@ == a,
        ArgsVerdict::UnexpectedArgument(a) => r matches Err(ArgsError::UnexpectedArgument(s))
            && s@ == a,
    }
}

fn same_chars(a: &Vec<char>, b: &[char]) -> (r: bool)
    ensures
        r == (a@ == b@),
{
    if a.len() != b.len() {
        return false;
    }
    let mut i: usize = 0;
    while i < a.len()
        invariant
            a@.len() == b@.len(),
            i <= a@.len(),
            forall|j: int| 0 <= j < i ==> a@[j] == b@[j],
        decreases a@.len() - i,
    {
        if a[i] != b[i] {
            return false;
        }
        i += 1;
    }
    proof {
        assert(a@ =~= b@);
    }
    true
}

impl Config {
    /// Reads the command-line arguments (without the program name).
    pub fn from_args(args: &[String]) -> (r: Result<ArgsOutcome, ArgsError>)
        ensures
            outcome_matches(r, interpret_args(args_text(args@), 0, initial_args())),
    {
        let kw_csv: [char; 5] = ['-', '-', 'c', 's', 'v'];
        let kw_port: [char; 6] = ['-', '-', 'p', 'o', 'r', 't'];
        let kw_baud: [char; 6] = ['-', '-', 'b', 'a', 'u', 'd'];
        let kw_help: [char; 6] = ['-', '-', 'h', 'e', 'l', 'p'];
        let kw_h: [char; 2] = ['-', 'h'];
        proof {
            assert(kw_csv@ =~= word_csv());
            assert(kw_port@ =~= word_port());
            assert(kw_baud@ =~= word_baud());
            assert(kw_help@ =~= word_help());
            assert(kw_h@ =~= word_h());
        }
        let ghost text = args_text(args@);
        let mut csv_path: Option<String> = None;
        let mut port: Option<String> = None;
        let mut baud: u32 = DEFAULT_BAUD;
        let mut i: usize = 0;
        while i < args.len()
            invariant
                text == args_text(args@),
                text.len() == args@.len(),
                i <= args@.len(),
                kw_csv@ == word_csv(),
                kw_port@ == word_port(),
                kw_baud@ == word_baud(),
                kw_help@ == word_help(),
                kw_h@ == word_h(),
                interpret_args(text, 0, initial_args()) == interpret_args(
                    text,
                    i as int,
                    ArgsView {
                        csv_path: match csv_path {
                            Some(s) => Some(s@),
                            None => None,
                        },
                        port: match port {
                            Some(s) => Some(s@),
                            None => None,
                        },
                        baud,
                    },
                ),
            decreases args@.len() - i,
        {
            let arg = chars_of(args[i].as_str());
            proof {
                assert(text[i as int] == args@[i as int]@);
                if i + 1 < args@.len() {
                    assert(text[i + 1] == args@[i + 1]@);
                }
            }
            if same_chars(&arg, kw_csv.as_slice()) {
                if i + 1 < args.len() {
                    csv_path = Some(args[i + 1].clone());
                    i += 2;
                } else {
                    return Err(ArgsError::MissingCsvPath);
                }
            } else if same_chars(&arg, kw_port.as_slice()) {
                if i + 1 < args.len() {
                    port = Some(args[i + 1].clone());
                    i += 2;
                } else {
                    return Err(ArgsError::MissingPort);
                }
            } else if same_chars(&arg, kw_baud.as_slice()) {
                if i + 1 < args.len() {
                    let value = chars_of(args[i + 1].as_str());
                    proof {
                        assert(value@.subrange(0, value@.len() as int) =~= value@);
                    }
                    match parse_u32_range(&value, 0, value.len()) {
                        Ok(v) => {
                            baud = v;
                            i += 2;
                        },
                        Err(e) => {
                            return Err(ArgsError::BadBaud(e));
                        },
                    }
                } else {
                    return Err(ArgsError::MissingBaud);
                }
            } else if same_chars(&arg, kw_help.as_slice()) || same_chars(&arg, kw_h.as_slice()) {
                return Ok(ArgsOutcome::Help);
            } else if arg.len() > 0 && arg[0] == '-' {
                return Err(ArgsError::UnknownOption(args[i].clone()));
            } else if csv_path.is_none() {
                csv_path = Some(args[i].clone());
                i += 1;
            } else {
                return Err(ArgsError::UnexpectedArgument(args[i].clone()));
            }
        }
        let port = match port {
            Some(p) => p,
            None => "/dev/ttyUSB0".to_owned(),
        };
        Ok(ArgsOutcome::Run(Config { csv_path, port, baud }))
    }
}

/// Every decimal `u32` given after `--baud` is accepted and becomes the baud
/// rate: `--baud s` alone, or after `--port p`, runs with that rate (and the
/// given or default port, no path). Any result the reader may return for
/// such a command line is that one.
pub proof fn lemma_baud_accepted(
    args: Seq<String>,
    r: Result<ArgsOutcome, ArgsError>,
    p: Seq<char>,
    b: Seq<char>,
    v: int,
)
    requires
        args_text(args) == seq![word_baud(), b] || args_text(args) == seq![
            word_port(),
            p,
            word_baud(),
            b,
        ],
        parse_int(b, 0, u32::MAX as int) == Ok::<int, IntErrorKind>(v),
        outcome_matches(r, interpret_args(args_text(args), 0, initial_args())),
    ensures
        r matches Ok(ArgsOutcome::Run(c)) && c.baud as int == v && c.csv_path is None && c.port@ == (
        if args.len() == 2 {
            default_port()
        } else {
            p
        }),
{
    let t = args_text(args);
    assert(t.len() == args.len());
    lemma_parse_int_in_range(b, 0, u32::MAX as int, v);
    assert(word_baud().len() != word_csv().len());
    assert(word_baud()[2] != word_port()[2]);
    assert(word_port().len() != word_csv().len());
    assert(word_baud()[2] != word_help()[2]);
    assert(word_baud().len() != word_h().len());
    if t.len() == 2 {
        assert(t[0] == word_baud() && t[1] == b);
        assert(interpret_args(t, 2, ArgsView { baud: v as u32, ..initial_args() }) == ArgsVerdict::Run(
            ArgsView { baud: v as u32, ..initial_args() }));
    } else {
        assert(t[0] == word_port() && t[1] == p && t[2] == word_baud() && t[3] == b);
        let st1 = ArgsView { port: Some(p), ..initial_args() };
        let st2 = ArgsView { baud: v as u32, ..st1 };
        assert(interpret_args(t, 4, st2) == ArgsVerdict::Run(st2));
        assert(interpret_args(t, 2, st1) == interpret_args(t, 4, st2));
    }
}

} // verus!
