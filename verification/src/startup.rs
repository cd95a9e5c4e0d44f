//! Reading the one argument of a run: the day to summarize.
//!
//! The day is given as a calendar date. From it follow the artifact that the run writes, one
//! directory per month and one file per day, and the target time, midnight UTC of that day.

use vstd::prelude::*;
use vstd::string::*;
use vstd::utf8::is_ascii_chars;
use crate::report::{decimal, push_decimal};

verus! {

/// Why a run cannot start.
#[derive(Clone, Copy, Debug, PartialEq, Eq, Structural)]
pub enum StartupError {
    /// The run was not given exactly one argument; `given` is how many it was given.
    ArgumentCount { given: usize },
    /// The argument is not a calendar date.
    DateFormat,
}

impl StartupError {
    /// What to tell the user.
    pub open spec fn message_text(self) -> Seq<char> {
        match self {
            StartupError::ArgumentCount { given } => "Expected exactly one argument, got "@
                + decimal(given as nat),
            StartupError::DateFormat => "Expected date format to be yyyy-mm-dd"@,
        }
    }

    /// The message that tells the user why the run cannot start.
    pub fn message(&self) -> (text: String)
        ensures
            text@ == self.message_text(),
    {
        match self {
            StartupError::ArgumentCount { given } => {
                let mut text = String::from_str("Expected exactly one argument, got ");
                push_decimal(&mut text, *given as u64);
                text
            },
            StartupError::DateFormat => String::from_str("Expected date format to be yyyy-mm-dd"),
        }
    }
}

/// The Unix time of the instant that `chrono::DateTime::parse_from_rfc3339` reads from
/// `text`, as `DateTime::timestamp` counts it, or `None` where the text is refused.
pub uninterp spec fn rfc3339_seconds(text: Seq<char>) -> Option<i64>;

/// Reads an RFC 3339 date and time with `chrono::DateTime::parse_from_rfc3339` and converts
/// the instant to seconds since the epoch with `DateTime::timestamp`. Trusted: the outcome is
/// a function of the text alone, which the parser reads without reference to a clock, a
/// locale or a time zone of the machine.
#[verifier::external_body]
fn parse_rfc3339_seconds(text: &str) -> (seconds: Option<i64>)
    ensures
        seconds == rfc3339_seconds(text@),
{
    match chrono::DateTime::parse_from_rfc3339(text) {
        Ok(moment) => Some(moment.timestamp()),
        Err(_) => None,
    }
}

/// The text of midnight UTC of `date`, as a date and time with offset.
pub open spec fn midnight_text(date: Seq<char>) -> Seq<char> {
    date + "T00:00:00-00:00"@
}

/// Whether the month of `date` can be cut from its front: the date is ASCII and has at
/// least the seven characters of a year, a hyphen and a month.
pub open spec fn has_month(date: Seq<char>) -> bool {
    is_ascii_chars(date) && date.len() >= 7
}

/// The artifact of the day `date`: a directory named after the month, and in it a file named
/// after the day.
pub open spec fn artifact_path(date: Seq<char>) -> Seq<char> {
    "./output/"@ + date.subrange(0, 7) + "/pfx2as_"@ + date + ".bz2"@
}

/// Where the artifact of the day `date` is written while it is incomplete: beside the
/// artifact, and with the same ending, so that the sink treats both alike.
pub open spec fn staging_path_of(date: Seq<char>) -> Seq<char> {
    "./output/"@ + date.subrange(0, 7) + "/pfx2as_"@ + date + ".part.bz2"@
}

/// What the one argument `date` resolves to, given what the date parser made of its
/// midnight: the artifact path and the target time, or the reason why there is none.
pub open spec fn resolved(date: Seq<char>, parsed: Option<i64>) -> Result<
    (Seq<char>, i64),
    StartupError,
> {
    match parsed {
        Some(seconds) => if has_month(date) {
            Ok((artifact_path(date), seconds))
        } else {
            Err(StartupError::DateFormat)
        },
        None => Err(StartupError::DateFormat),
    }
}

/// The outcome of a run's start, with the path by its text.
pub open spec fn outcome_view(outcome: Result<(String, i64), StartupError>) -> Result<
    (Seq<char>, i64),
    StartupError,
> {
    match outcome {
        Ok((path, seconds)) => Ok((path@, seconds)),
        Err(e) => Err(e),
    }
}

/// The text of midnight UTC of `date`.
pub fn midnight_of(date: &str) -> (text: String)
    ensures
        text@ == midnight_text(date@),
{
    let mut text = String::from_str(date);
    text.append("T00:00:00-00:00");
    text
}

/// The path of the artifact of the day `date`.
pub fn output_path(date: &str) -> (path: String)
    requires
        has_month(date@),
    ensures
        path@ == artifact_path(date@),
{
    let mut path = String::from_str("./output/");
    path.append(date.substring_ascii(0, 7));
    path.append("/pfx2as_");
    path.append(date);
    path.append(".bz2");
    path
}

/// The path under which the artifact of the day `date` is written before it is complete.
pub fn staging_path(date: &str) -> (path: String)
    requires
        has_month(date@),
    ensures
        path@ == staging_path_of(date@),
{
    let mut path = String::from_str("./output/");
    path.append(date.substring_ascii(0, 7));
    path.append("/pfx2as_");
    path.append(date);
    path.append(".part.bz2");
    path
}

/// Resolves the argument `date`, given the outcome `parsed` of reading its midnight.
pub fn resolve(date: &str, parsed: Option<i64>) -> (outcome: Result<(String, i64), StartupError>)
    ensures
        outcome_view(outcome) == resolved(date@, parsed),
{
    match parsed {
        Some(seconds) => {
            if date.is_ascii() && date.unicode_len() >= 7 {
                Ok((output_path(date), seconds))
            } else {
                Err(StartupError::DateFormat)
            }
        },
        None => Err(StartupError::DateFormat),
    }
}

/// Reads the arguments of a run, the program's name first.
///
/// There must be exactly one argument after the name, and it must be a calendar date whose
/// midnight the date parser accepts. The result is the path of the day's artifact and the
/// target time.
pub fn parse_timestamp_arg(args: &Vec<String>) -> (outcome: Result<(String, i64), StartupError>)
    ensures
        args@.len() != 2 ==> outcome_view(outcome) == Err::<(Seq<char>, i64), StartupError>(
            StartupError::ArgumentCount {
                given: if args@.len() == 0 {
                    0usize
                } else {
                    (args@.len() - 1) as usize
                },
            },
        ),
        args@.len() == 2 ==> outcome_view(outcome) == resolved(
            args@[1]@,
            rfc3339_seconds(midnight_text(args@[1]@)),
        ),
{
    if args.len() != 2 {
        let given: usize = if args.len() == 0 {
            0
        } else {
            args.len() - 1
        };
        return Err(StartupError::ArgumentCount { given });
    }
    let date = args[1].as_str();
    let midnight = midnight_of(date);
    let parsed = parse_rfc3339_seconds(midnight.as_str());
    resolve(date, parsed)
}

} // verus!
