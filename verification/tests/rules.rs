use pasfmt_core::formatted::{FormattedTokens, FormattingToggler};
use pasfmt_core::formatter::Formatter;
use pasfmt_core::lexer::DelphiLexer;
use pasfmt_core::defaults::parser::DelphiLogicalLineParser;
use pasfmt_core::rules::format_identifiers::FormatIdentifiers;

fn format(identifiers: &[&str], input: &str) -> String {
    let rule = FormatIdentifiers::new(identifiers.iter().map(|id| id.to_string()).collect());
    Formatter::new(DelphiLogicalLineParser::default(), rule).format(input)
}

fn marks(input: &str) -> Vec<bool> {
    let marked: FormattedTokens = FormattingToggler {}.mark(DelphiLexer {}.lex(input));
    marked.items.iter().map(|item| item.ignored).collect()
}

#[test]
fn later_spelling_of_an_identifier_counts() {
    assert_eq!(format(&["Self", "SELF"], "self"), "SELF");
    assert_eq!(format(&["SELF", "Self"], "self"), "Self");
    assert_eq!(format(&["Self", "Result", "self"], "SELF result"), "self Result");
}

#[test]
fn only_ascii_letters_lose_their_case() {
    assert_eq!(format(&["Größe"], "GRößE gröSSe GRÖßE"), "Größe gröSSe GRÖßE");
}

#[test]
fn literals_and_comments_are_not_identifiers() {
    assert_eq!(
        format(&["Self"], "'self' {self} // self\nself"),
        "'self' {self} // self\nSelf"
    );
}

#[test]
fn whitespace_stays_as_it_is() {
    assert_eq!(format(&["Self"], "  self\t.\n self  "), "  Self\t.\n Self  ");
}

#[test]
fn identifiers_are_respelled_in_wrapped_code() {
    let rule = FormatIdentifiers::new(vec!["Result".to_string()]);
    let parser = DelphiLogicalLineParser {
        wrap_single_statement_if: true,
        wrap_single_statement_for: false,
        wrap_single_statement_while: false,
    };
    assert_eq!(
        Formatter::new(parser, rule).format("if A then result := 1;"),
        "if A then begin Result := 1; end;"
    );
}

#[test]
fn toggler_marks_from_off_to_on() {
    assert_eq!(
        marks("a {pasfmt off} b c {pasfmt on} d"),
        vec![false, true, true, true, true, false, false]
    );
    assert_eq!(marks("a // pasfmt off\nb // pasfmt on\nc"), vec![false, true, true, true, false, false]);
}

#[test]
fn toggler_without_on_marks_to_the_end() {
    assert_eq!(marks("a {pasfmt off} b"), vec![false, true, true, true]);
}

#[test]
fn toggler_reads_only_its_own_comments() {
    assert_eq!(marks("{pasfmt on} a {pasfmt  off} {PASFMT OFF} 'pasfmt off' b"), vec![false; 7]);
}

#[test]
fn off_twice_is_off_and_on_twice_is_on() {
    assert_eq!(
        marks("{pasfmt off} {pasfmt off} a {pasfmt on} {pasfmt on} b"),
        vec![true, true, true, true, false, false, false]
    );
}

#[test]
fn marked_tokens_come_back_unchanged() {
    let marked = FormattingToggler {}.mark(DelphiLexer {}.lex("a {pasfmt off} b"));
    let tokens = marked.into_tokens();
    let contents: Vec<&str> = tokens.iter().map(|token| token.get_content()).collect();
    assert_eq!(contents, vec!["a", "{pasfmt off}", "b", ""]);
}
