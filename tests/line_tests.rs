use json_validator::format_parser::{Indention, Token};
use json_validator::format_parser as grammar;

#[test]
fn oc_member_line_test() {
    let json_str = "       \"foo\": {\n";
    assert_eq!(grammar::line(json_str), Some((0, (Indention { count: 7 }, Token::OpenCurley))));
}

#[test]
fn oc_line_test() {
    let json_str = "       {\n";
    assert_eq!(grammar::line(json_str), Some((0, (Indention { count: 7 }, Token::OpenCurley))));
}

#[test]
fn cc_member_line_test() {
    let json_str = "       }\n";
    assert_eq!(grammar::line(json_str), Some((0, (Indention { count: 7 }, Token::CloseCurley))));
}

#[test]
fn cc_line_test() {
    let json_str = "       },\n";
    assert_eq!(grammar::line(json_str), Some((0, (Indention { count: 7 }, Token::CloseCurley))));
}

#[test]
fn os_member_line_test() {
    let json_str = "       \"foo\": [\n";
    assert_eq!(grammar::line(json_str), Some((0, (Indention { count: 7 }, Token::OpenSquare))));
}

#[test]
fn os_line_test() {
    let json_str = "       [\n";
    assert_eq!(grammar::line(json_str), Some((0, (Indention { count: 7 }, Token::OpenSquare))));
}

#[test]
fn member_null() {
    let json_str = "       \"member\": null\n";
    assert_eq!(grammar::line(json_str), Some((0, (Indention { count: 7 }, Token::Value))));
}

#[test]
fn member_null_comma() {
    let json_str = "       \"member\": null,\n";
    assert_eq!(grammar::line(json_str), Some((0, (Indention { count: 7 }, Token::Value))));
}

#[test]
fn member_number_comma() {
    let json_str = "       \"member\": 10,\n";
    assert_eq!(grammar::line(json_str), Some((0, (Indention { count: 7 }, Token::Value))));
    let json_str2 = "       \"member\": 10.0,\n";
    assert_eq!(grammar::line(json_str2), Some((0, (Indention { count: 7 }, Token::Value))));
    let json_str3 = "       \"member\": 12e-2,\n";
    assert_eq!(grammar::line(json_str3), Some((0, (Indention { count: 7 }, Token::Value))));
}

#[test]
fn line_leaves_the_rest() {
    assert_eq!(grammar::line("  ]\n{\n"), Some((2, (Indention { count: 2 }, Token::CloseSquare))));
    assert_eq!(grammar::line("}"), Some((0, (Indention { count: 0 }, Token::CloseCurley))));
    assert_eq!(grammar::line("\"k\": true\r\nx"), Some((1, (Indention { count: 0 }, Token::Value))));
}

#[test]
fn line_rejects() {
    assert_eq!(grammar::line(""), None);
    assert_eq!(grammar::line("{\"a\": 1}"), None);
    assert_eq!(grammar::line("},"), None);
    assert_eq!(grammar::line("\"k\": 1e,\n"), None);
    assert_eq!(grammar::line("\"k\": nul\n"), None);
    assert_eq!(grammar::line("\"k\": 1"), None);
}

#[test]
fn line_bare_value() {
    assert_eq!(grammar::line("    1,\n"), Some((0, (Indention { count: 4 }, Token::Value))));
    assert_eq!(grammar::line("\"a\\\"b\"\n"), Some((0, (Indention { count: 0 }, Token::Value))));
    assert_eq!(grammar::line("\"k\" : 1\n"), None);
}

#[test]
fn line_scalar_kinds() {
    for v in ["\"s\"", "-1.5E+3", ".5", "+2", "1.", "true", "false", "{}", "[]", "\"\""] {
        let text = format!("\"k\": {}\n", v);
        assert_eq!(grammar::line(&text), Some((0, (Indention { count: 0 }, Token::Value))), "{}", v);
    }
}

#[test]
fn line_member_opens_container() {
    assert_eq!(grammar::line("    \"k\": {}\n"), Some((0, (Indention { count: 4 }, Token::Value))));
    assert_eq!(grammar::line("    \"k\": [\r\n"), Some((0, (Indention { count: 4 }, Token::OpenSquare))));
}
