use pasfmt_core::formatter::Formatter;
use pasfmt_core::defaults::parser::DelphiLogicalLineParser;
use pasfmt_core::reconstruct::reconstruct;
use pasfmt_core::rules::format_identifiers::FormatIdentifiers;
use pasfmt_core::token::{KeywordKind, Token, TokenType};

fn wrap(input: &str) -> String {
    let parser = DelphiLogicalLineParser {
        wrap_single_statement_if: true,
        wrap_single_statement_for: true,
        wrap_single_statement_while: true,
    };
    Formatter::new(parser, FormatIdentifiers::new(vec![])).format(input)
}

fn token(whitespace: &str, content: &str, token_type: TokenType) -> Token {
    Token::new(whitespace.to_string(), content.to_string(), token_type)
}

#[test]
fn tokens_are_written_with_their_whitespace() {
    let tokens = vec![
        token("  ", "a", TokenType::Identifier),
        token("\t", ":=", TokenType::Symbol),
        token("", "1", TokenType::NumberLiteral),
        token("", ";", TokenType::Semicolon),
        token("\n", "", TokenType::Eof),
    ];
    assert_eq!(reconstruct(&tokens), "  a\t:=1;\n");
    assert_eq!(reconstruct(&vec![]), "");
}

#[test]
fn word_behind_a_word_gets_a_blank() {
    let tokens = vec![
        token("", "begin", TokenType::Keyword(KeywordKind::Begin)),
        token("", "x", TokenType::Identifier),
        token("", "1", TokenType::NumberLiteral),
        token("", ";", TokenType::Semicolon),
        token("", "end", TokenType::Keyword(KeywordKind::End)),
        token("", "", TokenType::Eof),
    ];
    assert_eq!(reconstruct(&tokens), "begin x 1;end");
}

#[test]
fn token_behind_a_line_comment_gets_a_line_break() {
    let tokens = vec![
        token("", "// c", TokenType::Comment),
        token(" ", "a", TokenType::Identifier),
        token("", "// d", TokenType::Comment),
        token(" \n", "b", TokenType::Identifier),
        token("", "// e", TokenType::Comment),
        token(" ", "", TokenType::Eof),
    ];
    assert_eq!(reconstruct(&tokens), "// c\n a// d \nb// e ");
}

#[test]
fn token_behind_a_block_comment_needs_no_line_break() {
    let tokens = vec![
        token("", "{ c }", TokenType::Comment),
        token("", "a", TokenType::Identifier),
        token("", "/", TokenType::Symbol),
        token("", "/", TokenType::Symbol),
        token("", "b", TokenType::Identifier),
    ];
    assert_eq!(reconstruct(&tokens), "{ c }a//b");
}

#[test]
fn synthesized_begin_does_not_become_part_of_a_line_comment() {
    assert_eq!(
        wrap("if A then {comment} B else // line comment\n C;"),
        "if A then {comment} begin B end else // line comment\n begin\n C; end;"
    );
}

#[test]
fn synthesized_end_does_not_become_part_of_a_line_comment() {
    assert_eq!(
        wrap("if A then B // c\nelse C;"),
        "if A then begin B // c\n end\nelse begin C; end;"
    );
}

#[test]
fn synthesized_keywords_do_not_run_into_words() {
    assert_eq!(wrap("if A then{c}B;"), "if A then{c} begin B; end;");
    assert_eq!(wrap("if A then B{c}else C;"), "if A then begin B{c} end else begin C; end;");
    assert_eq!(wrap("while A do(B);"), "while A do begin(B); end;");
}

#[test]
fn formatting_the_formatted_text_changes_nothing() {
    let inputs = [
        "if A then {comment} B else // line comment\n C;",
        "if A then B // c\nelse C;",
        "if A then{c}B;",
        "if A then B{c}else C;",
        "begin if A then B end.",
    ];
    for input in inputs.iter() {
        let once = wrap(input);
        assert_eq!(wrap(&once), once);
    }
}
