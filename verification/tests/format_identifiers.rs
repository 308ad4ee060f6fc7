use pasfmt_core::prelude::{DelphiLogicalLineParser, Formatter};
use pasfmt_core::rules::format_identifiers::FormatIdentifiers;

fn formatter(identifiers: Vec<&str>) -> Formatter {
    Formatter::new(
        DelphiLogicalLineParser::default(),
        FormatIdentifiers::new(identifiers.into_iter().map(String::from).collect()),
    )
}

fn assert_format(identifiers: Vec<&str>, input: &str, expected: &str) {
    let fmt = formatter(identifiers);
    let output = fmt.format(input);
    assert_eq!(output, expected);
}

#[test]
fn lowercase_self_to_pascal_case() {
    assert_format(vec!["Self"], "self.Value", "Self.Value");
}

#[test]
fn uppercase_self_to_pascal_case() {
    assert_format(vec!["Self"], "SELF.Value", "Self.Value");
}

#[test]
fn mixed_case_to_pascal_case() {
    assert_format(vec!["Self"], "SeLf.Value", "Self.Value");
}

#[test]
fn result_formatting() {
    assert_format(vec!["Result"], "result := 1", "Result := 1");
}

#[test]
fn multiple_identifiers() {
    assert_format(
        vec!["Self", "Result", "EmptyStr"],
        "self.Value := emptystr; result := self.Value",
        "Self.Value := EmptyStr; Result := Self.Value",
    );
}

#[test]
fn already_correct_no_change() {
    assert_format(vec!["Self"], "Self.Value", "Self.Value");
}

#[test]
fn unlisted_identifier_no_change() {
    assert_format(vec!["Self"], "other.Value", "other.Value");
}

#[test]
fn empty_list_no_change() {
    assert_format(vec![], "self.Value", "self.Value");
}

#[test]
fn keywords_not_affected() {
    assert_format(vec!["Begin", "End"], "begin end", "begin end");
}

#[test]
fn ignored_tokens_not_affected() {
    assert_format(
        vec!["Self"],
        "{pasfmt off} self {pasfmt on} self",
        "{pasfmt off} self {pasfmt on} Self",
    );
}
