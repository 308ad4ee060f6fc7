use pasfmt_core::formatter::Formatter;
use pasfmt_core::lexer::DelphiLexer;
use pasfmt_core::lines::LogicalLine;
use pasfmt_core::defaults::parser::DelphiLogicalLineParser;
use pasfmt_core::rules::format_identifiers::FormatIdentifiers;
use pasfmt_core::token::{KeywordKind, Token, TokenType};
use pasfmt_core::traits::LogicalLineParser;

fn parser(wrap_if: bool, wrap_for: bool, wrap_while: bool) -> DelphiLogicalLineParser {
    DelphiLogicalLineParser {
        wrap_single_statement_if: wrap_if,
        wrap_single_statement_for: wrap_for,
        wrap_single_statement_while: wrap_while,
    }
}

fn parse(parser: &DelphiLogicalLineParser, input: &str) -> (Vec<LogicalLine>, Vec<Token>) {
    parser.parse(DelphiLexer {}.lex(input))
}

/// The contents of the tokens but the final `Eof`, separated by blanks.
fn contents(tokens: &[Token]) -> String {
    tokens
        .iter()
        .filter(|token| token.get_token_type() != TokenType::Eof)
        .map(|token| token.get_content())
        .collect::<Vec<_>>()
        .join(" ")
}

fn wrapped(parser: &DelphiLogicalLineParser, input: &str) -> String {
    contents(&parse(parser, input).1)
}

fn all() -> DelphiLogicalLineParser {
    parser(true, true, true)
}

#[test]
fn simple_if_is_wrapped_exactly() {
    assert_eq!(wrapped(&all(), "if A then B;"), "if A then begin B ; end ;");
}

#[test]
fn if_else_is_wrapped_exactly() {
    assert_eq!(
        wrapped(&all(), "if A then B else C;"),
        "if A then begin B end else begin C ; end ;"
    );
}

#[test]
fn nested_if_is_wrapped_exactly() {
    assert_eq!(
        wrapped(&all(), "if A then if B then C;"),
        "if A then begin if B then begin C ; end ; end ;"
    );
}

#[test]
fn else_if_chain_is_not_wrapped_as_a_unit() {
    assert_eq!(
        wrapped(&all(), "if A then B else if C then D else E;"),
        "if A then begin B end else if C then begin D end else begin E ; end ;"
    );
}

#[test]
fn dangling_else_belongs_to_the_inner_if() {
    assert_eq!(
        wrapped(&all(), "if A then if B then C else D;"),
        "if A then begin if B then begin C end else begin D ; end ; end ;"
    );
}

#[test]
fn second_else_belongs_to_the_outer_if() {
    assert_eq!(
        wrapped(&all(), "if A then if B then C else D else E;"),
        "if A then begin if B then begin C end else begin D end end else begin E ; end ;"
    );
}

#[test]
fn comments_stay_in_front_of_the_synthesized_begin() {
    assert_eq!(
        wrapped(&all(), "if A then {comment} B else // line comment\n C;"),
        "if A then {comment} begin B end else // line comment begin C ; end ;"
    );
}

#[test]
fn comment_in_front_of_the_terminator_stays_inside() {
    assert_eq!(
        wrapped(&all(), "while A do B {trailing} ; C;"),
        "while A do begin B {trailing} ; end ; C ;"
    );
}

#[test]
fn independent_flags_wrap_only_the_for_body() {
    assert_eq!(
        wrapped(&parser(false, true, false), "if A then for i:=1 to 10 do B;"),
        "if A then for i := 1 to 10 do begin B ; end ;"
    );
}

#[test]
fn independent_flags_wrap_only_the_if_body() {
    assert_eq!(
        wrapped(&parser(true, false, false), "if A then for i:=1 to 10 do B;"),
        "if A then begin for i := 1 to 10 do B ; end ;"
    );
}

#[test]
fn independent_flags_wrap_only_the_while_body() {
    assert_eq!(
        wrapped(&parser(false, false, true), "for i := 1 to 2 do while A do if B then C;"),
        "for i := 1 to 2 do while A do begin if B then C ; end ;"
    );
}

#[test]
fn no_flag_wraps_nothing() {
    let input = "if A then for i := 1 to 2 do while B do C;";
    assert_eq!(wrapped(&parser(false, false, false), input), "if A then for i := 1 to 2 do while B do C ;");
    assert_eq!(wrapped(&DelphiLogicalLineParser::default(), input), "if A then for i := 1 to 2 do while B do C ;");
}

#[test]
fn nested_loops_have_two_begins() {
    assert_eq!(
        wrapped(&all(), "for i := 1 to 10 do for j := 1 to 10 do writeln(i, j);"),
        "for i := 1 to 10 do begin for j := 1 to 10 do begin writeln ( i , j ) ; end ; end ;"
    );
}

#[test]
fn loop_body_in_front_of_else_gets_no_terminator() {
    assert_eq!(
        wrapped(&all(), "if A then for i := 1 to 2 do X else Y;"),
        "if A then begin for i := 1 to 2 do begin X end end else begin Y ; end ;"
    );
}

#[test]
fn already_wrapped_input_is_unchanged() {
    let input = "if A then begin B; end else begin for i := 1 to 2 do begin C; end; end;";
    assert_eq!(
        wrapped(&all(), input),
        "if A then begin B ; end else begin for i := 1 to 2 do begin C ; end ; end ;"
    );
    let (_, tokens) = parse(&all(), input);
    assert_eq!(tokens.len(), DelphiLexer {}.lex(input).len());
}

#[test]
fn constructs_inside_a_block_are_wrapped() {
    assert_eq!(
        wrapped(&all(), "if A then begin if B then C; while D do E; end;"),
        "if A then begin if B then begin C ; end ; while D do begin E ; end ; end ;"
    );
}

#[test]
fn last_statement_of_a_block_needs_no_terminator() {
    assert_eq!(
        wrapped(&all(), "begin if A then B end"),
        "begin if A then begin B end ; end"
    );
    assert_eq!(
        wrapped(&all(), "begin if A then B else C end;"),
        "begin if A then begin B end else begin C end ; end ;"
    );
}

#[test]
fn empty_branches_are_wrapped() {
    assert_eq!(wrapped(&all(), "if A then else B;"), "if A then begin end else begin B ; end ;");
    assert_eq!(wrapped(&all(), "while A do ;"), "while A do begin ; end ;");
}

#[test]
fn compound_statements_are_wrapped_whole() {
    assert_eq!(
        wrapped(&all(), "if A then repeat X; Y; until Z; W;"),
        "if A then begin repeat X ; Y ; until Z ; end ; W ;"
    );
    assert_eq!(
        wrapped(&all(), "if A then try X; finally Y; end; W;"),
        "if A then begin try X ; finally Y ; end ; end ; W ;"
    );
    assert_eq!(
        wrapped(&all(), "if A then case X of 1: Y; 2: Z; end; W;"),
        "if A then begin case X of 1 : Y ; 2 : Z ; end ; end ; W ;"
    );
}

#[test]
fn else_of_a_case_is_no_branch_of_the_if() {
    assert_eq!(
        wrapped(&all(), "case X of 1: if A then B; else C; end;"),
        "case X of 1 : if A then begin B ; end ; else C ; end ;"
    );
}

#[test]
fn unterminated_construct_is_left_as_it_is() {
    assert_eq!(wrapped(&all(), "if A then B"), "if A then B");
    assert_eq!(wrapped(&all(), "if A then"), "if A then");
    assert_eq!(wrapped(&all(), "for i := 1 to 2 do if A then B"), "for i := 1 to 2 do if A then B");
    assert_eq!(wrapped(&all(), "begin if A then B"), "begin if A then B");
    assert_eq!(wrapped(&all(), "if A then B else C"), "if A then B else C");
    assert_eq!(wrapped(&all(), "if A then B else"), "if A then B else");
    assert_eq!(
        wrapped(&all(), "while A do if B then C else if D then E else F"),
        "while A do if B then C else if D then E else F"
    );
}

#[test]
fn nothing_is_synthesized_inside_an_unterminated_construct() {
    assert_eq!(
        wrapped(&all(), "if A then begin for i := 1 to 2 do X; Y"),
        "if A then begin for i := 1 to 2 do X ; Y"
    );
    assert_eq!(
        wrapped(&all(), "if A then for i := 1 to 2 do X else begin if B then C; D"),
        "if A then for i := 1 to 2 do X else begin if B then C ; D"
    );
}

#[test]
fn construct_in_front_of_an_unterminated_construct_is_wrapped() {
    assert_eq!(
        wrapped(&all(), "if A then B; while C do D"),
        "if A then begin B ; end ; while C do D"
    );
}

#[test]
fn terminated_construct_inside_an_unterminated_block_is_wrapped() {
    assert_eq!(
        wrapped(&all(), "begin for i := 1 to 2 do X; Y"),
        "begin for i := 1 to 2 do begin X ; end ; Y"
    );
    assert_eq!(
        wrapped(&all(), "try if A then B; C"),
        "try if A then begin B ; end ; C"
    );
}

#[test]
fn unmatched_end_stops_wrapping() {
    assert_eq!(wrapped(&all(), "if A then B end;"), "if A then B end ;");
    assert_eq!(
        wrapped(&all(), "while A do if B then C end; if D then E;"),
        "while A do if B then C end ; if D then begin E ; end ;"
    );
}

#[test]
fn stray_else_is_kept() {
    assert_eq!(wrapped(&all(), "else A; if B then C;"), "else A ; if B then begin C ; end ;");
    assert_eq!(wrapped(&all(), "if A then B; else C;"), "if A then begin B ; end ; else C ;");
}

#[test]
fn leading_keyword_without_its_controlling_keyword_is_kept() {
    assert_eq!(wrapped(&all(), "if A B; C;"), "if A B ; C ;");
    assert_eq!(wrapped(&all(), "for i := 1 to 2 then B;"), "for i := 1 to 2 then B ;");
    assert_eq!(wrapped(&all(), "while A; do B;"), "while A ; do B ;");
}

#[test]
fn keywords_are_recognized_in_any_case() {
    assert_eq!(wrapped(&all(), "IF A THEN B ELSE C;"), "IF A THEN begin B end ELSE begin C ; end ;");
    assert_eq!(wrapped(&all(), "If A Then Begin B; End;"), "If A Then Begin B ; End ;");
}

#[test]
fn other_do_keywords_lead_no_construct() {
    assert_eq!(
        wrapped(&all(), "with A do if B then C;"),
        "with A do if B then begin C ; end ;"
    );
    assert_eq!(wrapped(&all(), "with A do B;"), "with A do B ;");
}

#[test]
fn synthesized_tokens_are_keywords_and_a_semicolon() {
    let (_, tokens) = parse(&all(), "if A then B;");
    assert_eq!(tokens[3].get_content(), "begin");
    assert_eq!(tokens[3].get_token_type(), TokenType::Keyword(KeywordKind::Begin));
    assert_eq!(tokens[3].get_leading_whitespace(), " ");
    assert_eq!(tokens[6].get_content(), "end");
    assert_eq!(tokens[6].get_token_type(), TokenType::Keyword(KeywordKind::End));
    assert_eq!(tokens[6].get_leading_whitespace(), " ");
    assert_eq!(tokens[7].get_content(), ";");
    assert_eq!(tokens[7].get_token_type(), TokenType::Semicolon);
    assert_eq!(tokens[7].get_leading_whitespace(), "");
}

#[test]
fn input_tokens_keep_their_text_and_order() {
    let input = "if  A then\n  B  {c}\nelse\tC ;";
    let before = DelphiLexer {}.lex(input);
    let (_, after) = parse(&all(), input);
    let kept: Vec<&Token> = after
        .iter()
        .enumerate()
        .filter(|(i, _)| ![3, 6, 8, 11, 12].contains(i))
        .map(|(_, token)| token)
        .collect();
    assert_eq!(kept.len(), before.len());
    for (old, new) in before.iter().zip(kept) {
        assert_eq!(old.get_content(), new.get_content());
        assert_eq!(old.get_leading_whitespace(), new.get_leading_whitespace());
        assert_eq!(old.get_token_type(), new.get_token_type());
    }
}

fn same_tokens(left: &[Token], right: &[Token]) -> bool {
    left.len() == right.len()
        && left.iter().zip(right).all(|(a, b)| {
            a.get_content() == b.get_content()
                && a.get_leading_whitespace() == b.get_leading_whitespace()
                && a.get_token_type() == b.get_token_type()
        })
}

fn same_lines(left: &[LogicalLine], right: &[LogicalLine]) -> bool {
    left.len() == right.len()
        && left.iter().zip(right).all(|(a, b)| {
            a.get_tokens() == b.get_tokens()
                && a.get_level() == b.get_level()
                && a.get_parent() == b.get_parent()
        })
}

#[test]
fn wrapping_twice_is_wrapping_once() {
    let inputs = [
        "if A then B;",
        "if A then B else C;",
        "if A then if B then C else D else E;",
        "if A then for i := 1 to 2 do X else Y;",
        "begin if A then B else C end;",
        "if A then {c} B // d\n else {e} C;",
        "while A do if B then C end; if D then E;",
        "if A then B",
        "if A then B else C",
        "if A then begin for i := 1 to 2 do X; Y",
        "begin for i := 1 to 2 do X; Y",
        "case X of 1: if A then B; else C; end;",
        "for i := 1 to 10 do for j := 1 to 10 do writeln(i, j);",
        "if A then repeat X; Y; until Z; W;",
    ];
    let parsers = [all(), parser(true, false, false), parser(false, true, true)];
    for parser in parsers.iter() {
        for input in inputs.iter() {
            let (lines_once, once) = parse(parser, input);
            let copy: Vec<Token> = once.iter().map(|token| token.duplicate()).collect();
            let (lines_twice, twice) = parser.parse(copy);
            assert!(same_tokens(&once, &twice), "input: {}", input);
            assert!(same_lines(&lines_once, &lines_twice), "input: {}", input);
        }
    }
}

#[test]
fn wrapped_text_is_lexed_and_wrapped_to_itself() {
    let formatter = Formatter::new(all(), FormatIdentifiers::new(vec![]));
    let inputs = [
        "if A then B;",
        "if A then B else C;",
        "if A then if B then C else D else E;",
        "begin if A then B else C end;",
        "for i := 1 to 10 do\n  for j := 1 to 10 do\n    writeln(i, j);\n",
    ];
    for input in inputs.iter() {
        let once = formatter.format(input);
        assert_eq!(formatter.format(&once), once);
    }
}

#[test]
fn formatter_writes_the_wrapped_text() {
    let formatter = Formatter::new(all(), FormatIdentifiers::new(vec![]));
    assert_eq!(formatter.format("if A then B;"), "if A then begin B; end;");
    assert_eq!(
        formatter.format("if A then\n  B\nelse\n  C;\n"),
        "if A then begin\n  B end\nelse begin\n  C; end;\n"
    );
}

#[test]
fn round_trip_of_text_wrapped_by_hand_is_identical() {
    let formatter = Formatter::new(all(), FormatIdentifiers::new(vec![]));
    let inputs = [
        "if A then begin B; end;",
        "if A then\nbegin\n  B;\nend\nelse if C then\nbegin\n  D;\nend\nelse\nbegin\n  E;\nend;\n",
        "for i := 1 to 10 do { each }\n  begin\n    writeln(i);  // out\n  end;\t\n",
        "procedure P;\nbegin\n  while True do begin Break; end;\nend;\n",
        "",
        "   \n",
    ];
    for input in inputs.iter() {
        assert_eq!(formatter.format(input), *input);
    }
}
