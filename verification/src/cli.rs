//! The command line: which flags are understood and what they set.
use vstd::prelude::*;
use crate::summary::strings_view;
use crate::text::{copy_string, same_text};

verus! {

/// The settings given on the command line.
#[derive(Debug)]
pub struct Args {
    /// The source directory to scan.
    pub src: String,
    /// The file to write, when not the default `<src>/SUMMARY.md`.
    pub output: Option<String>,
    /// Print the summary instead of writing it.
    pub dry_run: bool,
    /// Only check that the output file is up to date.
    pub check: bool,
    /// Write an index page `# <name>` into directories that have none.
    pub auto_readme: bool,
}

/// What the command line asks for.
#[derive(Debug)]
pub enum Command {
    /// Print the help text.
    Help,
    /// Print the version.
    Version,
    /// Generate the summary with these settings.
    Run(Args),
}

/// The plain values of `Args`.
pub struct ArgsView {
    pub src: Seq<char>,
    pub output: Option<Seq<char>>,
    pub dry_run: bool,
    pub check: bool,
    pub auto_readme: bool,
}

/// The plain values of `Command`.
pub enum CommandView {
    Help,
    Version,
    Run(ArgsView),
}

/// The plain values of `args`.
pub open spec fn args_view(args: Args) -> ArgsView {
    ArgsView {
        src: args.src@,
        output: match args.output {
            Some(o) => Some(o@),
            None => None,
        },
        dry_run: args.dry_run,
        check: args.check,
        auto_readme: args.auto_readme,
    }
}

/// The plain values of a parse outcome.
pub open spec fn outcome_view(r: Result<Command, String>) -> Result<CommandView, Seq<char>> {
    match r {
        Ok(Command::Help) => Ok(CommandView::Help),
        Ok(Command::Version) => Ok(CommandView::Version),
        Ok(Command::Run(a)) => Ok(CommandView::Run(args_view(a))),
        Err(e) => Err(e@),
    }
}

/// The settings before any flag is read: source `src`, default output, no
/// flag set.
pub open spec fn default_args() -> ArgsView {
    ArgsView { src: "src"@, output: None, dry_run: false, check: false, auto_readme: false }
}

/// The outcome of reading the flags `args` in order, starting from the
/// settings `st`: `-h`/`--help` and `-V`/`--version` answer at once;
/// `--src` and `-o`/`--output` take the next argument (an error when there is
/// none), a later one overriding an earlier one; `--dry-run`, `--check` and
/// `--auto-readme` set their flag; anything else is an error that names it.
pub open spec fn parse_from(args: Seq<Seq<char>>, st: ArgsView) -> Result<CommandView, Seq<char>>
    decreases args.len(),
{
    if args.len() == 0 {
        Ok(CommandView::Run(st))
    } else {
        let a = args[0];
        if a == "-h"@ || a == "--help"@ {
            Ok(CommandView::Help)
        } else if a == "-V"@ || a == "--version"@ {
            Ok(CommandView::Version)
        } else if a == "--src"@ {
            if args.len() < 2 {
                Err("--src requires a directory argument"@)
            } else {
                parse_from(args.skip(2), ArgsView { src: args[1], ..st })
            }
        } else if a == "-o"@ || a == "--output"@ {
            if args.len() < 2 {
                Err("--output requires a file argument"@)
            } else {
                parse_from(args.skip(2), ArgsView { output: Some(args[1]), ..st })
            }
        } else if a == "--dry-run"@ {
            parse_from(args.drop_first(), ArgsView { dry_run: true, ..st })
        } else if a == "--check"@ {
            parse_from(args.drop_first(), ArgsView { check: true, ..st })
        } else if a == "--auto-readme"@ {
            parse_from(args.drop_first(), ArgsView { auto_readme: true, ..st })
        } else {
            Err("Unknown argument: "@ + a)
        }
    }
}

/// The outcome of the command-line arguments `args` (program name left out).
pub open spec fn parsed_command(args: Seq<Seq<char>>) -> Result<CommandView, Seq<char>> {
    parse_from(args, default_args())
}

/// Reads the command-line arguments `args` (program name left out): a help or
/// version request, the settings to run with, or the message of the first
/// error.
pub fn parse_args(args: &Vec<String>) -> (r: Result<Command, String>)
    ensures
        outcome_view(r) == parsed_command(strings_view(args@)),
{
    let ghost all = strings_view(args@);
    let mut st = Args {
        src: String::from_str("src"),
        output: None,
        dry_run: false,
        check: false,
        auto_readme: false,
    };
    let mut i: usize = 0;
    assert(all.skip(0) =~= all);
    while i < args.len()
        invariant
            i <= args.len(),
            all == strings_view(args@),
            parse_from(all.skip(i as int), args_view(st)) == parsed_command(all),
        decreases args.len() - i,
    {
        let ghost rest = all.skip(i as int);
        assert(rest[0] == args@[i as int]@);
        assert(rest.drop_first() =~= all.skip(i + 1));
        let a = args[i].as_str();
        if same_text(a, "-h") || same_text(a, "--help") {
            return Ok(Command::Help);
        }
        if same_text(a, "-V") || same_text(a, "--version") {
            return Ok(Command::Version);
        }
        if same_text(a, "--src") {
            if i + 1 >= args.len() {
                return Err(String::from_str("--src requires a directory argument"));
            }
            assert(rest[1] == args@[i + 1]@);
            assert(rest.skip(2) =~= all.skip(i + 2));
            st.src = copy_string(&args[i + 1]);
            i = i + 2;
        } else if same_text(a, "-o") || same_text(a, "--output") {
            if i + 1 >= args.len() {
                return Err(String::from_str("--output requires a file argument"));
            }
            assert(rest[1] == args@[i + 1]@);
            assert(rest.skip(2) =~= all.skip(i + 2));
            st.output = Some(copy_string(&args[i + 1]));
            i = i + 2;
        } else if same_text(a, "--dry-run") {
            st.dry_run = true;
            i = i + 1;
        } else if same_text(a, "--check") {
            st.check = true;
            i = i + 1;
        } else if same_text(a, "--auto-readme") {
            st.auto_readme = true;
            i = i + 1;
        } else {
            let msg = String::from_str("Unknown argument: ").concat(a);
            return Err(msg);
        }
    }
    assert(all.skip(args.len() as int) =~= Seq::<Seq<char>>::empty());
    Ok(Command::Run(st))
}

/// Whether `a` is one of the switches `--dry-run`, `--check` and
/// `--auto-readme`.
pub open spec fn is_switch(a: Seq<char>) -> bool {
    a == "--dry-run"@ || a == "--check"@ || a == "--auto-readme"@
}

/// Law: each switch sets its own setting and no other: after any run of
/// switches, in any order, a setting is on exactly when it was on before or
/// its switch occurs, and the source and output are unchanged.
pub proof fn switches_set_only_their_flags(args: Seq<Seq<char>>, st: ArgsView)
    requires
        forall|i: int| 0 <= i < args.len() ==> is_switch(#[trigger] args[i]),
    ensures
        parse_from(args, st) == Ok::<CommandView, Seq<char>>(
            CommandView::Run(
                ArgsView {
                    src: st.src,
                    output: st.output,
                    dry_run: st.dry_run || args.contains("--dry-run"@),
                    check: st.check || args.contains("--check"@),
                    auto_readme: st.auto_readme || args.contains("--auto-readme"@),
                },
            ),
        ),
    decreases args.len(),
{
    reveal_strlit("-h");
    reveal_strlit("--help");
    reveal_strlit("-V");
    reveal_strlit("--version");
    reveal_strlit("--src");
    reveal_strlit("-o");
    reveal_strlit("--output");
    reveal_strlit("--dry-run");
    reveal_strlit("--check");
    reveal_strlit("--auto-readme");
    if args.len() > 0 {
        let a = args[0];
        let rest = args.drop_first();
        assert(is_switch(a));
        assert forall|i: int| 0 <= i < rest.len() implies is_switch(#[trigger] rest[i]) by {
            assert(rest[i] == args[i + 1]);
        }
        let next = if a == "--dry-run"@ {
            ArgsView { dry_run: true, ..st }
        } else if a == "--check"@ {
            ArgsView { check: true, ..st }
        } else {
            ArgsView { auto_readme: true, ..st }
        };
        assert(a.len() >= 7);
        assert("--version"@[2] == 'v' && "--dry-run"@[2] == 'd');
        assert(a == "--dry-run"@ ==> a[2] == 'd');
        assert(a != "-h"@ && a != "--help"@ && a != "-V"@ && a != "--version"@);
        assert(a != "--src"@ && a != "-o"@ && a != "--output"@);
        assert(parse_from(args, st) == parse_from(rest, next));
        switches_set_only_their_flags(rest, next);
        assert forall|x: Seq<char>| args.contains(x) == (a == x || rest.contains(x)) by {
            if args.contains(x) {
                let k = choose|k: int| 0 <= k < args.len() && args[k] == x;
                if k > 0 {
                    assert(rest[k - 1] == x);
                }
            }
            if rest.contains(x) {
                let k = choose|k: int| 0 <= k < rest.len() && rest[k] == x;
                assert(args[k + 1] == x);
            }
            if a == x {
                assert(args[0] == x);
            }
        }
    }
}

} // verus!
