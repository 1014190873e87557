//! The command line: one positional argument, the path of the play log.

use vstd::prelude::*;

verus! {

/// The error type of `clap`, carried through unread.
#[verifier::external_type_specification]
#[verifier::external_body]
pub struct ExClapError(clap::Error);

/// What the command line asks for.
#[derive(Debug)]
pub struct Args {
    /// Path to CSV file
    pub csv_file_path: String,
}

/// The command line was not one path and nothing else, or it asked for
/// help. `source` holds what `clap` has to say about it.
#[derive(Debug)]
pub struct UsageError {
    pub source: clap::Error,
}

/// The path that `clap` finds on the command line `args`, whose first item
/// is the program's name, or `None` where it reports an error or is asked
/// for help.
pub uninterp spec fn csv_file_argument(args: Seq<Seq<char>>) -> Option<Seq<char>>;

/// Matches `args` with `clap::Command::try_get_matches_from`, against a
/// command whose one argument is the required positional `csv_file_path`,
/// and reads that argument with `clap::ArgMatches::get_one`. Matching looks
/// at `args` alone, so what comes back is `csv_file_argument` of them.
#[verifier::external_body]
fn match_arguments(args: &Vec<String>) -> (found: Result<String, clap::Error>)
    ensures
        match found {
            Ok(path) => csv_file_argument(args.deep_view()) == Some(path@),
            Err(_) => csv_file_argument(args.deep_view()) is None,
        },
{
    let path = clap::Arg::new("csv_file_path")
        .help("Path to CSV file")
        .value_name("CSV_FILE_PATH")
        .takes_value(true)
        .required(true)
        .value_parser(clap::builder::ValueParser::string());
    let command = clap::Command::new("leaderboard")
        .about("Reads CSV-formatted play logs of three specific columns and calculates the top 10 ranking players")
        .arg(path);
    let matches = command.try_get_matches_from(args)?;
    match matches.get_one::<String>("csv_file_path") {
        Some(path) => Ok(path.clone()),
        None => Err(clap::Error::raw(clap::ErrorKind::MissingRequiredArgument, "CSV_FILE_PATH")),
    }
}

impl Args {
    /// What a match by `clap` amounts to: the path it found, or its
    /// complaint.
    pub fn from_match(found: Result<String, clap::Error>) -> (result: Result<Args, UsageError>)
        ensures
            match (found, result) {
                (Ok(path), Ok(args)) => args.csv_file_path == path,
                (Err(failure), Err(usage)) => usage.source == failure,
                _ => false,
            },
    {
        match found {
            Ok(path) => Ok(Args { csv_file_path: path }),
            Err(failure) => Err(UsageError { source: failure }),
        }
    }
}

/// Reads the command line `args`, program name first.
pub fn parse_args(args: &Vec<String>) -> (result: Result<Args, UsageError>)
    ensures
        match result {
            Ok(found) => csv_file_argument(args.deep_view()) == Some(found.csv_file_path@),
            Err(_) => csv_file_argument(args.deep_view()) is None,
        },
{
    Args::from_match(match_arguments(args))
}

} // verus!
