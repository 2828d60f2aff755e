use json_validator::format_parser::check_format;

#[test]
fn scenario_four_space_member() {
    assert!(check_format("{\n    \"a\": 1\n}"));
}

#[test]
fn scenario_two_space_member() {
    assert!(!check_format("{\n  \"a\": 1\n}"));
}

#[test]
fn scenario_trailing_comma() {
    assert!(check_format("{\n    \"a\": 1,\n}"));
}

#[test]
fn scenario_single_line() {
    assert!(!check_format("{\"a\": 1}"));
}

#[test]
fn empty_text_is_rejected() {
    assert!(!check_format(""));
}

#[test]
fn nested_canonical_document() {
    let doc = "{\n    \"name\": \"x\",\n    \"list\": [\n        {\n            \"n\": null\n        },\n        [\n            {\n                \"b\": false\n            }\n        ]\n    ],\n    \"e\": {},\n    \"f\": []\n}\n";
    assert!(check_format(doc));
    let crlf = doc.replace('\n', "\r\n");
    assert!(check_format(&crlf));
}

#[test]
fn shifted_line_is_rejected() {
    assert!(!check_format("{\n    \"a\": {\n      \"b\": 1\n    }\n}"));
    assert!(!check_format("{\n    \"a\": {\n        \"b\": 1\n     }\n}"));
    assert!(!check_format("{\n     \"a\": 1\n}"));
}

#[test]
fn extra_closing_bracket_is_rejected() {
    assert!(!check_format("{\n}\n}"));
    assert!(!check_format("}\n"));
}

#[test]
fn unclosed_bracket_is_rejected() {
    assert!(!check_format("{\n    \"a\": 1\n"));
    assert!(!check_format("[\n    {\n    }\n"));
}

#[test]
fn trailing_comma_on_close_and_member() {
    assert!(check_format("[\n    {\n        \"a\": 1\n    }\n]"));
    assert!(check_format("[\n    {\n        \"a\": 1,\n    },\n]"));
    assert!(check_format("[\n    {\n        \"a\": 1,\n    }\n]\n"));
}

#[test]
fn trailing_text_is_rejected() {
    assert!(!check_format("{\n}\ngarbage"));
    assert!(!check_format("{\n},"));
}

#[test]
fn mismatched_bracket_kinds_are_accepted() {
    assert!(check_format("[\n}"));
}

#[test]
fn escaped_quote_in_string() {
    assert!(check_format("{\n    \"a\": \"x\\\"y\"\n}"));
    assert!(check_format("{\n    \"k\\\"q\": \"\\\\\"\n}"));
    assert!(!check_format("{\n    \"a\": \"x\\\"\n}"));
}

#[test]
fn bare_array_element_is_accepted() {
    assert!(check_format("[\n    1\n]"));
    assert!(check_format("[\n    null\n]"));
}

#[test]
fn array_of_plain_values() {
    assert!(check_format("{\n    \"a\": [\n        1,\n        2\n    ]\n}"));
    assert!(check_format("[\n    \"s\",\n    true,\n    {},\n    [],\n    -0.5e3\n]"));
    assert!(!check_format("{\n    \"a\": [\n        1,\n      2\n    ]\n}"));
}

#[test]
fn comma_toggle_keeps_verdict() {
    let with = "{\n    \"a\": [\n        1,\n        2,\n    ],\n    \"b\": null\n}";
    let without = "{\n    \"a\": [\n        1,\n        2\n    ],\n    \"b\": null\n}";
    assert!(check_format(with));
    assert!(check_format(without));
    assert!(!check_format("{\n    \"a\": 1,\n  }"));
    assert!(!check_format("{\n    \"a\": 1\n  }"));
}
