//! Classification of a file: JSON syntax first, then layout.
use vstd::prelude::*;
use crate::format_parser::{check_format, format_ok};

verus! {

/// What a full JSON parse of a text gives.
#[derive(Debug, Clone, Copy, PartialEq, Eq, Structural)]
pub enum SyntaxOutcome {
    /// The text is one valid JSON value.
    Valid,
    /// A malformed token or structure.
    SyntaxError,
    /// The text ends before a value or structure is closed.
    UnexpectedEnd,
    /// The parser failed for a reason other than the text's syntax.
    Unrecoverable,
}

/// A reportable problem with one file.
#[derive(Debug, Clone, Copy, PartialEq, Eq, Structural)]
pub enum Issue {
    SyntaxError,
    EoFError,
    WrongFormat,
}

/// A failure of the JSON parser that must stop the whole run.
#[derive(Debug, Clone, Copy, PartialEq, Eq, Structural)]
pub struct Unrecoverable;

/// The outcome of parsing `s` as JSON with serde_json.
pub uninterp spec fn json_syntax_outcome(s: Seq<char>) -> SyntaxOutcome;

/// Relies on `serde_json::from_str` into a `serde_json::Value`, and on
/// `serde_json::Error::classify` for the kind of failure. The outcome depends
/// on the text alone.
#[verifier::external_body]
fn serde_outcome(contents: &str) -> (r: SyntaxOutcome)
    ensures
        r == json_syntax_outcome(contents@),
{
    match serde_json::from_str::<serde_json::Value>(contents) {
        Ok(_) => SyntaxOutcome::Valid,
        Err(e) => match e.classify() {
            serde_json::error::Category::Syntax => SyntaxOutcome::SyntaxError,
            serde_json::error::Category::Eof => SyntaxOutcome::UnexpectedEnd,
            serde_json::error::Category::Io => SyntaxOutcome::Unrecoverable,
            serde_json::error::Category::Data => SyntaxOutcome::Unrecoverable,
        },
    }
}

/// Parses `contents` as JSON and says how that went.
pub fn classify(contents: &str) -> (r: SyntaxOutcome)
    ensures
        r == json_syntax_outcome(contents@),
{
    serde_outcome(contents)
}

/// The issue, if any, that a JSON parse outcome reports by itself.
pub open spec fn syntax_issue(outcome: SyntaxOutcome) -> Result<Option<Issue>, Unrecoverable> {
    match outcome {
        SyntaxOutcome::Valid => Ok(None),
        SyntaxOutcome::SyntaxError => Ok(Some(Issue::SyntaxError)),
        SyntaxOutcome::UnexpectedEnd => Ok(Some(Issue::EoFError)),
        SyntaxOutcome::Unrecoverable => Err(Unrecoverable),
    }
}

/// The verdict on a text `t` whose JSON parse gave `outcome`: a syntax
/// problem wins; only syntactically valid text has its layout checked.
pub open spec fn verdict(outcome: SyntaxOutcome, t: Seq<char>) -> Result<Option<Issue>, Unrecoverable> {
    if outcome == SyntaxOutcome::Valid {
        if format_ok(t) {
            Ok(None)
        } else {
            Ok(Some(Issue::WrongFormat))
        }
    } else {
        syntax_issue(outcome)
    }
}

/// Reports the issue of a text whose JSON parse gave `outcome`, checking its
/// layout only when the parse succeeded.
pub fn assess(outcome: SyntaxOutcome, contents: &str) -> (r: Result<Option<Issue>, Unrecoverable>)
    ensures
        r == verdict(outcome, contents@),
{
    match outcome {
        SyntaxOutcome::Valid => {
            if check_format(contents) {
                Ok(None)
            } else {
                Ok(Some(Issue::WrongFormat))
            }
        },
        SyntaxOutcome::SyntaxError => Ok(Some(Issue::SyntaxError)),
        SyntaxOutcome::UnexpectedEnd => Ok(Some(Issue::EoFError)),
        SyntaxOutcome::Unrecoverable => Err(Unrecoverable),
    }
}

/// Parses `contents` as JSON and reports a syntax issue, if any.
pub fn parse_json(contents: &str) -> (r: Result<Option<Issue>, Unrecoverable>)
    ensures
        r == syntax_issue(json_syntax_outcome(contents@)),
{
    match classify(contents) {
        SyntaxOutcome::Valid => Ok(None),
        SyntaxOutcome::SyntaxError => Ok(Some(Issue::SyntaxError)),
        SyntaxOutcome::UnexpectedEnd => Ok(Some(Issue::EoFError)),
        SyntaxOutcome::Unrecoverable => Err(Unrecoverable),
    }
}

/// Parses `contents` as JSON and reports its issue: a syntax issue, a layout
/// issue, none, or a failure that must stop the run.
pub fn check_file(contents: &str) -> (r: Result<Option<Issue>, Unrecoverable>)
    ensures
        r == verdict(json_syntax_outcome(contents@), contents@),
{
    let outcome = classify(contents);
    assess(outcome, contents)
}

/// A text that does not parse as JSON gets the issue of its parse outcome,
/// whatever its layout: the layout of such a text plays no part.
pub proof fn lemma_syntax_before_format(outcome: SyntaxOutcome, t1: Seq<char>, t2: Seq<char>)
    requires
        outcome != SyntaxOutcome::Valid,
    ensures
        verdict(outcome, t1) == syntax_issue(outcome),
        verdict(outcome, t1) == verdict(outcome, t2),
{
}

/// Counts of the issues found over a run.
pub struct Tally {
    pub json_errors: u64,
    pub format_errors: u64,
}

/// Exit status of a run with issues, as a build script expects it.
pub const ISSUES_EXIT_CODE: i32 = 65;

impl Tally {
    pub fn new() -> (r: Tally)
        ensures
            r.json_errors == 0,
            r.format_errors == 0,
    {
        Tally { json_errors: 0, format_errors: 0 }
    }

    /// Counts `issue`: syntax and truncation as JSON errors, layout as a
    /// format error. A count that has reached its largest value stays there.
    pub fn record(&mut self, issue: Issue)
        ensures
            issue == Issue::WrongFormat ==> final(self).json_errors == old(self).json_errors
                && final(self).format_errors == sat_inc(old(self).format_errors),
            issue != Issue::WrongFormat ==> final(self).format_errors == old(self).format_errors
                && final(self).json_errors == sat_inc(old(self).json_errors),
    {
        match issue {
            Issue::WrongFormat => {
                if self.format_errors < u64::MAX {
                    self.format_errors = self.format_errors + 1;
                }
            },
            _ => {
                if self.json_errors < u64::MAX {
                    self.json_errors = self.json_errors + 1;
                }
            },
        }
    }

    /// 0 when no issue was found, else the exit status for issues.
    pub fn exit_code(&self) -> (r: i32)
        ensures
            r == (if self.json_errors == 0 && self.format_errors == 0 { 0 } else { ISSUES_EXIT_CODE }),
    {
        if self.json_errors == 0 && self.format_errors == 0 {
            0
        } else {
            ISSUES_EXIT_CODE
        }
    }
}

/// `n + 1`, held at the largest `u64`.
pub open spec fn sat_inc(n: u64) -> u64 {
    if n < u64::MAX {
        (n + 1) as u64
    } else {
        n
    }
}

} // verus!
