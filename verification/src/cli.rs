//! The argument model of the `--decide` / `--cast` command line: which
//! decision problems and formats it knows, and how an argument list becomes
//! a command or an error message.
use vstd::prelude::*;
use crate::logic::symbol::Form;

verus! {

/// The decision problems the command line can be asked about.
#[derive(Debug, Clone, Copy, PartialEq, Eq, Structural)]
pub enum DecisionProblemType {
    Sat,
    Tqbf,
    Stcon,
}

/// The input formats the command line knows.
#[derive(Debug, Clone, Copy, PartialEq, Eq, Structural)]
pub enum DecisionProblemFormat {
    Sfol,
    Dimacs,
}

/// The decision problem named `s`, if any.
pub open spec fn problem_named(s: Seq<char>) -> Option<DecisionProblemType> {
    if s == "sat"@ {
        Some(DecisionProblemType::Sat)
    } else if s == "tqbf"@ {
        Some(DecisionProblemType::Tqbf)
    } else if s == "stcon"@ {
        Some(DecisionProblemType::Stcon)
    } else {
        None
    }
}

/// The format named `s`, if any.
pub open spec fn format_named(s: Seq<char>) -> Option<DecisionProblemFormat> {
    if s == "sfol"@ {
        Some(DecisionProblemFormat::Sfol)
    } else if s == "dimacs"@ {
        Some(DecisionProblemFormat::Dimacs)
    } else {
        None
    }
}

/// Whether `s` spells `w`.
fn is_word(s: &str, w: &str) -> (r: bool)
    ensures
        r == (s@ == w@),
{
    let a = String::from_str(s);
    let b = String::from_str(w);
    a == b
}

/// `prefix` followed by `s`.
fn prefixed(prefix: &str, s: &str) -> (r: String)
    ensures
        r@ == prefix@ + s@,
{
    let mut m = String::from_str(prefix);
    m.append(s);
    m
}

impl DecisionProblemType {
    /// The decision problem named `s`: `sat`, `tqbf` or `stcon`; any other
    /// name is answered with an error message.
    pub fn from_name(s: &str) -> (r: Result<Self, String>)
        ensures
            match problem_named(s@) {
                Some(p) => r == Ok::<Self, String>(p),
                None => r is Err && r->Err_0@ == "unknown decision problem: "@ + s@,
            },
    {
        if is_word(s, "sat") {
            Ok(DecisionProblemType::Sat)
        } else if is_word(s, "tqbf") {
            Ok(DecisionProblemType::Tqbf)
        } else if is_word(s, "stcon") {
            Ok(DecisionProblemType::Stcon)
        } else {
            Err(prefixed("unknown decision problem: ", s))
        }
    }

    /// Decides `input`, given in `format`. No procedure is attached to any
    /// problem yet, so nothing is computed.
    pub fn decide(self, format: DecisionProblemFormat, input: Form) {
    }
}

impl DecisionProblemFormat {
    /// The format named `s`: `sfol` or `dimacs`; any other name is answered
    /// with an error message.
    pub fn from_name(s: &str) -> (r: Result<Self, String>)
        ensures
            match format_named(s@) {
                Some(f) => r == Ok::<Self, String>(f),
                None => r is Err && r->Err_0@ == "unknown format : "@ + s@,
            },
    {
        if is_word(s, "sfol") {
            Ok(DecisionProblemFormat::Sfol)
        } else if is_word(s, "dimacs") {
            Ok(DecisionProblemFormat::Dimacs)
        } else {
            Err(prefixed("unknown format : ", s))
        }
    }
}

impl core::str::FromStr for DecisionProblemType {
    type Err = String;

    fn from_str(s: &str) -> (r: Result<Self, String>)
        ensures
            match problem_named(s@) {
                Some(p) => r == Ok::<Self, String>(p),
                None => r is Err && r->Err_0@ == "unknown decision problem: "@ + s@,
            },
    {
        Self::from_name(s)
    }
}

impl core::str::FromStr for DecisionProblemFormat {
    type Err = String;

    fn from_str(s: &str) -> (r: Result<Self, String>)
        ensures
            match format_named(s@) {
                Some(f) => r == Ok::<Self, String>(f),
                None => r is Err && r->Err_0@ == "unknown format : "@ + s@,
            },
    {
        Self::from_name(s)
    }
}

/// A command given on the command line.
#[derive(Debug)]
pub enum SssCommand {
    /// Decide the problem in the file at `fp`.
    Decide { problem_type: DecisionProblemType, fp: String },
    /// Convert the file at `fp_from` from one format into the file at `fp_to`
    /// in another.
    Cast {
        fmt_from: DecisionProblemFormat,
        fp_from: String,
        fmt_to: DecisionProblemFormat,
        fp_to: String,
    },
}

/// A command with its paths as character sequences.
pub enum SssCommandView {
    Decide { problem_type: DecisionProblemType, fp: Seq<char> },
    Cast {
        fmt_from: DecisionProblemFormat,
        fp_from: Seq<char>,
        fmt_to: DecisionProblemFormat,
        fp_to: Seq<char>,
    },
}

impl View for SssCommand {
    type V = SssCommandView;

    open spec fn view(&self) -> SssCommandView {
        match self {
            SssCommand::Decide { problem_type, fp } => SssCommandView::Decide {
                problem_type: *problem_type,
                fp: fp@,
            },
            SssCommand::Cast { fmt_from, fp_from, fmt_to, fp_to } => SssCommandView::Cast {
                fmt_from: *fmt_from,
                fp_from: fp_from@,
                fmt_to: *fmt_to,
                fp_to: fp_to@,
            },
        }
    }
}

/// The message for a `--decide` without its arguments.
pub open spec fn decide_usage() -> Seq<char> {
    "used decide wrong, usage: --decide [problem type] [file path]"@
}

/// The message for a `--cast` without its arguments.
pub open spec fn cast_usage() -> Seq<char> {
    "used cast wrong, usage: --cast [fmt from] [fp from] [fmt to] [fp to]"@
}

/// What the arguments `a` (the program name left out) mean: a command, or
/// the message of the first thing wrong with them. Arguments are read from
/// the left; a name is checked as soon as it is read, so a bad name is
/// reported before a missing argument after it.
pub open spec fn command_of(a: Seq<Seq<char>>) -> Result<SssCommandView, Seq<char>> {
    if a.len() == 0 {
        Err("no arguments provided"@)
    } else if a[0] == "--decide"@ || a[0] == "-d"@ {
        if a.len() < 2 {
            Err(decide_usage())
        } else {
            match problem_named(a[1]) {
                None => Err("unknown decision problem: "@ + a[1]),
                Some(p) => if a.len() < 3 {
                    Err(decide_usage())
                } else if a.len() > 3 {
                    Err("unexpected argument "@ + a[3])
                } else {
                    Ok(SssCommandView::Decide { problem_type: p, fp: a[2] })
                },
            }
        }
    } else if a[0] == "--cast"@ || a[0] == "-c"@ {
        if a.len() < 2 {
            Err(cast_usage())
        } else {
            match format_named(a[1]) {
                None => Err("unknown format : "@ + a[1]),
                Some(from) => if a.len() < 4 {
                    Err(cast_usage())
                } else {
                    match format_named(a[3]) {
                        None => Err("unknown format : "@ + a[3]),
                        Some(to) => if a.len() < 5 {
                            Err(cast_usage())
                        } else if a.len() > 5 {
                            Err("unexpected argument "@ + a[5])
                        } else {
                            Ok(
                                SssCommandView::Cast {
                                    fmt_from: from,
                                    fp_from: a[2],
                                    fmt_to: to,
                                    fp_to: a[4],
                                },
                            )
                        },
                    }
                },
            }
        }
    } else {
        Err("unknown command "@ + a[0])
    }
}

/// The long and the short spelling of a flag mean the same: replacing
/// `--decide` by `-d`, or `--cast` by `-c`, gives the same command or the
/// same message.
pub proof fn lemma_flag_spellings(a: Seq<Seq<char>>)
    requires
        a.len() > 0,
    ensures
        a[0] == "--decide"@ ==> command_of(a) == command_of(a.update(0, "-d"@)),
        a[0] == "--cast"@ ==> command_of(a) == command_of(a.update(0, "-c"@)),
{
    reveal_strlit("--decide");
    reveal_strlit("-d");
    reveal_strlit("--cast");
    reveal_strlit("-c");
    assert("-d"@.len() == 2 && "-c"@.len() == 2 && "--decide"@.len() == 8 && "--cast"@.len() == 6);
    assert("-c"@[1] == 'c' && "-d"@[1] == 'd');
    assert("-d"@ != "--decide"@);
    assert("-c"@ != "--decide"@);
    assert("-c"@ != "-d"@);
    assert("-c"@ != "--cast"@);
    assert("--cast"@ != "--decide"@);
    assert("--cast"@ != "-d"@);
    let b = a.update(0, "-d"@);
    let c = a.update(0, "-c"@);
    assert forall|k: int| 1 <= k < a.len() implies b[k] == a[k] && c[k] == a[k] by {}
}

/// What a command holds comes from its place in the arguments: a decide
/// command is the flag, a problem name and the path, and nothing more; a
/// cast command is the flag, the source format, the source path, the target
/// format and the target path, and nothing more. Conversely, such arguments
/// with known names always give that command.
pub proof fn lemma_command_arguments(a: Seq<Seq<char>>)
    ensures
        command_of(a) matches Ok(SssCommandView::Decide { problem_type, fp }) ==> {
            &&& a.len() == 3
            &&& a[0] == "--decide"@ || a[0] == "-d"@
            &&& problem_named(a[1]) == Some(problem_type)
            &&& fp == a[2]
        },
        command_of(a) matches Ok(SssCommandView::Cast { fmt_from, fp_from, fmt_to, fp_to }) ==> {
            &&& a.len() == 5
            &&& a[0] == "--cast"@ || a[0] == "-c"@
            &&& format_named(a[1]) == Some(fmt_from)
            &&& fp_from == a[2]
            &&& format_named(a[3]) == Some(fmt_to)
            &&& fp_to == a[4]
        },
        a.len() == 3 && (a[0] == "--decide"@ || a[0] == "-d"@) && problem_named(a[1]) is Some
            ==> command_of(a) == Ok::<SssCommandView, Seq<char>>(
            SssCommandView::Decide { problem_type: problem_named(a[1])->Some_0, fp: a[2] },
        ),
        a.len() == 5 && (a[0] == "--cast"@ || a[0] == "-c"@) && format_named(a[1]) is Some
            && format_named(a[3]) is Some ==> command_of(a) == Ok::<SssCommandView, Seq<char>>(
            SssCommandView::Cast {
                fmt_from: format_named(a[1])->Some_0,
                fp_from: a[2],
                fmt_to: format_named(a[3])->Some_0,
                fp_to: a[4],
            },
        ),
{
    reveal_strlit("--decide");
    reveal_strlit("-d");
    reveal_strlit("--cast");
    reveal_strlit("-c");
    assert("-d"@.len() == 2 && "-c"@.len() == 2 && "--decide"@.len() == 8 && "--cast"@.len() == 6);
    assert("-c"@[1] == 'c' && "-d"@[1] == 'd');
    assert("-c"@ != "--decide"@);
    assert("-c"@ != "-d"@);
    assert("--cast"@ != "--decide"@);
    assert("--cast"@ != "-d"@);
}

/// The views of a list of strings.
pub open spec fn string_views(v: Seq<String>) -> Seq<Seq<char>> {
    v.map_values(|s: String| s@)
}

/// The command that `args` (the program name left out) give, or the message
/// of the first thing wrong with them.
pub fn parse_args(args: &Vec<String>) -> (r: Result<SssCommand, String>)
    ensures
        match command_of(string_views(args@)) {
            Ok(c) => r is Ok && r->Ok_0@ == c,
            Err(m) => r is Err && r->Err_0@ == m,
        },
{
    let ghost a = string_views(args@);
    let n = args.len();
    if n == 0 {
        return Err(String::from_str("no arguments provided"));
    }
    let command = args[0].as_str();
    assert(command@ == a[0]);
    if is_word(command, "--decide") || is_word(command, "-d") {
        let usage = String::from_str("used decide wrong, usage: --decide [problem type] [file path]");
        if n < 2 {
            return Err(usage);
        }
        assert(args[1]@ == a[1]);
        let problem_type = match DecisionProblemType::from_name(args[1].as_str()) {
            Ok(p) => p,
            Err(e) => {
                return Err(e);
            },
        };
        if n < 3 {
            return Err(usage);
        }
        if n > 3 {
            assert(args[3]@ == a[3]);
            return Err(prefixed("unexpected argument ", args[3].as_str()));
        }
        assert(args[2]@ == a[2]);
        Ok(SssCommand::Decide { problem_type, fp: args[2].clone() })
    } else if is_word(command, "--cast") || is_word(command, "-c") {
        let usage = String::from_str(
            "used cast wrong, usage: --cast [fmt from] [fp from] [fmt to] [fp to]",
        );
        if n < 2 {
            return Err(usage);
        }
        assert(args[1]@ == a[1]);
        let fmt_from = match DecisionProblemFormat::from_name(args[1].as_str()) {
            Ok(f) => f,
            Err(e) => {
                return Err(e);
            },
        };
        if n < 4 {
            return Err(usage);
        }
        assert(args[3]@ == a[3]);
        let fmt_to = match DecisionProblemFormat::from_name(args[3].as_str()) {
            Ok(f) => f,
            Err(e) => {
                return Err(e);
            },
        };
        if n < 5 {
            return Err(usage);
        }
        if n > 5 {
            assert(args[5]@ == a[5]);
            return Err(prefixed("unexpected argument ", args[5].as_str()));
        }
        assert(args[2]@ == a[2]);
        assert(args[4]@ == a[4]);
        Ok(
            SssCommand::Cast {
                fmt_from,
                fp_from: args[2].clone(),
                fmt_to,
                fp_to: args[4].clone(),
            },
        )
    } else {
        Err(prefixed("unknown command ", command))
    }
}

} // verus!
