use json_validator::syntax::{
    assess, check_file, classify, parse_json, Issue, SyntaxOutcome, Tally, Unrecoverable,
    ISSUES_EXIT_CODE,
};

#[test]
fn scenario_malformed_json() {
    assert_eq!(classify("{\"a\": }"), SyntaxOutcome::SyntaxError);
    assert_eq!(parse_json("{\"a\": }"), Ok(Some(Issue::SyntaxError)));
    assert_eq!(check_file("{\"a\": }"), Ok(Some(Issue::SyntaxError)));
}

#[test]
fn truncated_json() {
    assert_eq!(classify("{\n    \"a\": 1\n"), SyntaxOutcome::UnexpectedEnd);
    assert_eq!(parse_json("[1, 2"), Ok(Some(Issue::EoFError)));
    assert_eq!(check_file("{\n    \"a\": 1\n"), Ok(Some(Issue::EoFError)));
}

#[test]
fn valid_json() {
    assert_eq!(classify("{\"a\": 1}"), SyntaxOutcome::Valid);
    assert_eq!(parse_json("{\"a\": 1}"), Ok(None));
    assert_eq!(check_file("{\"a\": 1}"), Ok(Some(Issue::WrongFormat)));
    assert_eq!(check_file("{\n    \"a\": 1\n}"), Ok(None));
    assert_eq!(check_file("{\n  \"a\": 1\n}"), Ok(Some(Issue::WrongFormat)));
}

#[test]
fn syntax_issue_skips_layout() {
    assert_eq!(assess(SyntaxOutcome::SyntaxError, "{\n    \"a\": 1\n}"), Ok(Some(Issue::SyntaxError)));
    assert_eq!(assess(SyntaxOutcome::UnexpectedEnd, "{\"a\": 1}"), Ok(Some(Issue::EoFError)));
    assert_eq!(assess(SyntaxOutcome::Unrecoverable, "{"), Err(Unrecoverable));
    assert_eq!(assess(SyntaxOutcome::Valid, "{\"a\": 1}"), Ok(Some(Issue::WrongFormat)));
}

#[test]
fn tally_counts_and_exit_code() {
    let mut t = Tally::new();
    assert_eq!(t.exit_code(), 0);
    t.record(Issue::SyntaxError);
    t.record(Issue::EoFError);
    t.record(Issue::WrongFormat);
    assert_eq!(t.json_errors, 2);
    assert_eq!(t.format_errors, 1);
    assert_eq!(t.exit_code(), ISSUES_EXIT_CODE);
    assert_eq!(ISSUES_EXIT_CODE, 65);
    let mut full = Tally { json_errors: u64::MAX, format_errors: 0 };
    full.record(Issue::SyntaxError);
    assert_eq!(full.json_errors, u64::MAX);
}
