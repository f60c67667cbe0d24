//! The command-line surface: the options the tool accepts, parsed from the
//! raw argument list.

use vstd::prelude::*;

use crate::text::str_eq;

verus! {

/// The parsed command line: the input path, whether to sort, and an
/// optional project identifier to filter by.
#[derive(Debug)]
pub struct Cli {
    pub file: String,
    pub sort_by_start_date: bool,
    pub project: Option<String>,
}

/// The mathematical form of a parsed command line.
pub struct CliV {
    pub file: Seq<char>,
    pub sort_by_start_date: bool,
    pub project: Option<Seq<char>>,
}

impl View for Cli {
    type V = CliV;

    open spec fn view(&self) -> CliV {
        CliV {
            file: self.file@,
            sort_by_start_date: self.sort_by_start_date,
            project: self.project.deep_view(),
        }
    }
}

/// Why the command line was rejected.
pub enum CliErrV {
    NotEnoughArguments,
    FileMissing,
    ProjectMissing,
    Help,
    Unknown,
}

/// The usage text printed for `-help`.
pub open spec fn help_text() -> Seq<char> {
    "\nUsage: sad [OPTION]... -File [FILE]...\nProcess and transform projects' information in tsv format.\n\nMandatory arguments:\n\n-File <path>             full path to the input file\n\nOperation modifiers:\n\n-SortByStartDate         sort results by column \"Start date\" in ascending order\n-Project <project id>    filter results by column \"Project\""@
}

pub open spec fn cli_err_message(e: CliErrV) -> Seq<char> {
    match e {
        CliErrV::NotEnoughArguments => "not enough arguments"@,
        CliErrV::FileMissing => "input file not defined"@,
        CliErrV::ProjectMissing => "project id missing"@,
        CliErrV::Help => help_text(),
        CliErrV::Unknown => "unrecognized option {}\nTry '-help' for more information."@,
    }
}

/// Scanning the arguments from index `i` with the options collected so
/// far: a recognized flag updates the options, `-File` and `-Project` also
/// consume the next argument, `-help` and an unrecognized argument stop
/// the scan. A list in which `-File` never occurred is rejected at its
/// end: the input file is mandatory.
pub open spec fn cli_scan(args: Seq<Seq<char>>, i: int, acc: CliV, seen_file: bool) -> Result<
    CliV,
    CliErrV,
>
    decreases args.len() - i,
{
    if i < 0 || i >= args.len() {
        if seen_file {
            Ok(acc)
        } else {
            Err(CliErrV::FileMissing)
        }
    } else if args[i] == "-File"@ {
        if i + 1 < args.len() {
            cli_scan(args, i + 2, CliV { file: args[i + 1], ..acc }, true)
        } else {
            Err(CliErrV::FileMissing)
        }
    } else if args[i] == "-SortByStartDate"@ {
        cli_scan(args, i + 1, CliV { sort_by_start_date: true, ..acc }, seen_file)
    } else if args[i] == "-Project"@ {
        if i + 1 < args.len() {
            cli_scan(args, i + 2, CliV { project: Some(args[i + 1]), ..acc }, seen_file)
        } else {
            Err(CliErrV::ProjectMissing)
        }
    } else if args[i] == "-help"@ {
        Err(CliErrV::Help)
    } else {
        Err(CliErrV::Unknown)
    }
}

/// Parsing a full argument list: the leading program name is skipped, and
/// fewer than two arguments are rejected.
pub open spec fn cli_parse(args: Seq<Seq<char>>) -> Result<CliV, CliErrV> {
    if args.len() < 2 {
        Err(CliErrV::NotEnoughArguments)
    } else {
        cli_scan(
            args,
            1,
            CliV { file: Seq::empty(), sort_by_start_date: false, project: None },
            false,
        )
    }
}

impl Cli {
    /// Parse the raw argument list, program name first; the input file
    /// flag is mandatory.
    pub fn new(args: &[String]) -> (r: Result<Cli, &'static str>)
        ensures
            match r {
                Ok(c) => cli_parse(args.deep_view()) == Ok::<CliV, CliErrV>(c@),
                Err(e) => cli_parse(args.deep_view()) is Err && e@ == cli_err_message(
                    cli_parse(args.deep_view())->Err_0,
                ),
            },
    {
        let help_msg = "\nUsage: sad [OPTION]... -File [FILE]...\nProcess and transform projects' information in tsv format.\n\nMandatory arguments:\n\n-File <path>             full path to the input file\n\nOperation modifiers:\n\n-SortByStartDate         sort results by column \"Start date\" in ascending order\n-Project <project id>    filter results by column \"Project\"";
        let ghost a = args.deep_view();
        proof {
            crate::text::lemma_slice_deep(args);
            assert(a.len() == args@.len());
            assert(forall|x: int| 0 <= x < a.len() ==> a[x] == #[trigger] args@[x]@);
        }
        if args.len() < 2 {
            return Err("not enough arguments");
        }
        let mut cli = Cli { file: String::new(), sort_by_start_date: false, project: None };
        let mut seen_file = false;
        let n = args.len();
        let mut i: usize = 1;
        while i < n
            invariant
                1 <= i <= n + 1,
                n == args@.len(),
                n >= 2,
                a == args.deep_view(),
                a.len() == n,
                forall|x: int| 0 <= x < a.len() ==> a[x] == #[trigger] args@[x]@,
                cli_parse(a) == cli_scan(a, i as int, cli@, seen_file),
                help_msg@ == help_text(),
            decreases n - i,
        {
            let arg = &args[i];
            if str_eq(arg.as_str(), "-File") {
                if i + 1 < n {
                    cli.file = args[i + 1].clone();
                    seen_file = true;
                    i = i + 2;
                } else {
                    return Err("input file not defined");
                }
            } else if str_eq(arg.as_str(), "-SortByStartDate") {
                cli.sort_by_start_date = true;
                i = i + 1;
            } else if str_eq(arg.as_str(), "-Project") {
                if i + 1 < n {
                    cli.project = Some(args[i + 1].clone());
                    i = i + 2;
                } else {
                    return Err("project id missing");
                }
            } else if str_eq(arg.as_str(), "-help") {
                return Err(help_msg);
            } else {
                return Err("unrecognized option {}\nTry '-help' for more information.");
            }
        }
        if !seen_file {
            return Err("input file not defined");
        }
        Ok(cli)
    }
}

} // verus!
