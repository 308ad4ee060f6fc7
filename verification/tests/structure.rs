use pasfmt_core::lexer::DelphiLexer;
use pasfmt_core::lines::{build_lines, LogicalLine};
use pasfmt_core::defaults::parser::DelphiLogicalLineParser;
use pasfmt_core::role::{classify, classify_all, Role};
use pasfmt_core::token::{KeywordKind, Token, TokenType};
use pasfmt_core::traits::LogicalLineParser;

fn parse(wrap: bool, input: &str) -> (Vec<LogicalLine>, Vec<Token>) {
    let parser = DelphiLogicalLineParser {
        wrap_single_statement_if: wrap,
        wrap_single_statement_for: wrap,
        wrap_single_statement_while: wrap,
    };
    parser.parse(DelphiLexer {}.lex(input))
}

/// Each line as its level, its parent and the contents of its tokens.
fn describe(lines: &[LogicalLine], tokens: &[Token]) -> Vec<(usize, Option<usize>, String)> {
    lines
        .iter()
        .map(|line| {
            let content = line
                .get_tokens()
                .iter()
                .map(|&index| tokens[index].get_content())
                .collect::<Vec<_>>()
                .join(" ");
            (line.get_level(), line.get_parent(), content)
        })
        .collect()
}

fn expect(wrap: bool, input: &str, expected: &[(usize, Option<usize>, &str)]) {
    let (lines, tokens) = parse(wrap, input);
    let found = describe(&lines, &tokens);
    let expected: Vec<(usize, Option<usize>, String)> = expected
        .iter()
        .map(|(level, parent, content)| (*level, *parent, content.to_string()))
        .collect();
    assert_eq!(found, expected);
}

#[test]
fn wrapped_for_has_begin_and_end_at_the_level_of_the_construct() {
    let (lines, tokens) = parse(true, "for i := 1 to 10 do writeln(i);");
    let found = describe(&lines, &tokens);
    assert_eq!(found[0], (0, None, "for i := 1 to 10 do".to_string()));
    assert_eq!(found[1], (0, Some(0), "begin".to_string()));
    assert_eq!(found[2], (1, Some(0), "writeln ( i ) ;".to_string()));
    assert_eq!(found[3], (0, Some(0), "end ;".to_string()));
    let parent = &lines[lines[2].get_parent().unwrap()];
    assert_eq!(lines[2].get_level(), parent.get_level() + 1);
    assert_eq!(lines[1].get_level(), parent.get_level());
    assert_eq!(lines[3].get_level(), parent.get_level());
}

#[test]
fn wrapped_if_else_has_a_line_for_each_clause() {
    expect(
        true,
        "if A then B else C;",
        &[
            (0, None, "if A then"),
            (0, Some(0), "begin"),
            (1, Some(0), "B"),
            (0, Some(0), "end"),
            (0, None, "else"),
            (0, Some(4), "begin"),
            (1, Some(4), "C ;"),
            (0, Some(4), "end ;"),
            (0, None, ""),
        ],
    );
}

#[test]
fn nested_wrapping_goes_one_level_deeper_each_time() {
    expect(
        true,
        "for i := 0 to 10 do if true then DoSomething;",
        &[
            (0, None, "for i := 0 to 10 do"),
            (0, Some(0), "begin"),
            (1, Some(0), "if true then"),
            (1, Some(2), "begin"),
            (2, Some(2), "DoSomething ;"),
            (1, Some(2), "end ;"),
            (0, Some(0), "end ;"),
            (0, None, ""),
        ],
    );
}

#[test]
fn unwrapped_single_statement_stays_on_the_line_of_its_construct() {
    expect(
        false,
        "if A then B; for i := 1 to 2 do C;",
        &[(0, None, "if A then B ;"), (0, None, "for i := 1 to 2 do C ;"), (0, None, "")],
    );
}

#[test]
fn block_written_by_hand_is_laid_out_like_a_synthesized_one() {
    let by_hand = parse(false, "while A do begin B; end;");
    let by_engine = parse(true, "while A do B;");
    assert_eq!(describe(&by_hand.0, &by_hand.1), describe(&by_engine.0, &by_engine.1));
}

#[test]
fn block_without_a_construct_introduces_itself() {
    expect(
        false,
        "begin A; begin B; end; end.",
        &[
            (0, None, "begin"),
            (1, Some(0), "A ;"),
            (1, Some(0), "begin"),
            (2, Some(2), "B ;"),
            (1, Some(2), "end ;"),
            (0, Some(0), "end . "),
        ],
    );
}

#[test]
fn case_header_runs_up_to_of() {
    expect(
        false,
        "case X of 1: A; 2: B; else C; end;",
        &[
            (0, None, "case X of"),
            (1, Some(0), "1 : A ;"),
            (1, Some(0), "2 : B ;"),
            (1, Some(0), "else C ;"),
            (0, Some(0), "end ;"),
            (0, None, ""),
        ],
    );
}

#[test]
fn repeat_and_try_open_blocks() {
    expect(
        false,
        "repeat A; until B; try C; finally D; end;",
        &[
            (0, None, "repeat"),
            (1, Some(0), "A ;"),
            (0, Some(0), "until B ;"),
            (0, None, "try"),
            (1, Some(3), "C ;"),
            (1, Some(3), "finally D ;"),
            (0, Some(3), "end ;"),
            (0, None, ""),
        ],
    );
}

#[test]
fn unmatched_end_stays_at_level_zero() {
    expect(
        false,
        "A; end; end; B;",
        &[
            (0, None, "A ;"),
            (0, None, "end ;"),
            (0, None, "end ;"),
            (0, None, "B ;"),
            (0, None, ""),
        ],
    );
}

#[test]
fn comments_belong_to_the_line_they_stand_in() {
    expect(
        true,
        "if A then {c} B; // d\nC;",
        &[
            (0, None, "if A then {c}"),
            (0, Some(0), "begin"),
            (1, Some(0), "B ;"),
            (0, Some(0), "end ;"),
            (0, None, "// d C ;"),
            (0, None, ""),
        ],
    );
}

#[test]
fn every_token_belongs_to_exactly_one_line() {
    let inputs = [
        "if A then B else C;",
        "begin end end begin begin",
        "case X of 1: if A then B; else C; end;",
        "",
        "else else ; ; then do of",
    ];
    for input in inputs.iter() {
        for wrap in [false, true] {
            let (lines, tokens) = parse(wrap, input);
            let all: Vec<usize> =
                lines.iter().flat_map(|line| line.get_tokens().iter().copied()).collect();
            assert_eq!(all, (0..tokens.len()).collect::<Vec<_>>());
            for (index, line) in lines.iter().enumerate() {
                assert!(!line.get_tokens().is_empty());
                match line.get_parent() {
                    Some(parent) => {
                        assert!(parent < index);
                        let above = lines[parent].get_level();
                        assert!(line.get_level() == above || line.get_level() == above + 1);
                    }
                    None => assert_eq!(line.get_level(), 0),
                }
            }
        }
    }
}

#[test]
fn lines_of_no_tokens_are_none() {
    assert!(build_lines(&vec![]).is_empty());
}

#[test]
fn lines_are_built_from_roles_alone() {
    let roles = vec![Role::While, Role::Plain, Role::Do, Role::Begin, Role::Plain, Role::Closer];
    let lines = build_lines(&roles);
    let found: Vec<(Vec<usize>, usize, Option<usize>)> = lines
        .iter()
        .map(|line| (line.get_tokens().clone(), line.get_level(), line.get_parent()))
        .collect();
    assert_eq!(
        found,
        vec![
            (vec![0, 1, 2], 0, None),
            (vec![3], 0, Some(0)),
            (vec![4], 1, Some(0)),
            (vec![5], 0, Some(0)),
        ]
    );
}

#[test]
fn roles_of_token_types() {
    assert_eq!(classify(TokenType::Keyword(KeywordKind::If)), Role::If);
    assert_eq!(classify(TokenType::Keyword(KeywordKind::For)), Role::For);
    assert_eq!(classify(TokenType::Keyword(KeywordKind::While)), Role::While);
    assert_eq!(classify(TokenType::Keyword(KeywordKind::Then)), Role::Then);
    assert_eq!(classify(TokenType::Keyword(KeywordKind::Do)), Role::Do);
    assert_eq!(classify(TokenType::Keyword(KeywordKind::Else)), Role::Else);
    assert_eq!(classify(TokenType::Keyword(KeywordKind::Begin)), Role::Begin);
    assert_eq!(classify(TokenType::Keyword(KeywordKind::Case)), Role::Case);
    assert_eq!(classify(TokenType::Keyword(KeywordKind::Of)), Role::Of);
    assert_eq!(classify(TokenType::Keyword(KeywordKind::Try)), Role::Opener);
    assert_eq!(classify(TokenType::Keyword(KeywordKind::Repeat)), Role::Opener);
    assert_eq!(classify(TokenType::Keyword(KeywordKind::Asm)), Role::Opener);
    assert_eq!(classify(TokenType::Keyword(KeywordKind::End)), Role::Closer);
    assert_eq!(classify(TokenType::Keyword(KeywordKind::Until)), Role::Closer);
    assert_eq!(classify(TokenType::Keyword(KeywordKind::Other)), Role::Plain);
    assert_eq!(classify(TokenType::Semicolon), Role::Semicolon);
    assert_eq!(classify(TokenType::Comment), Role::Trivia);
    assert_eq!(classify(TokenType::CompilerDirective), Role::Trivia);
    assert_eq!(classify(TokenType::Identifier), Role::Plain);
    assert_eq!(classify(TokenType::Symbol), Role::Plain);
    assert_eq!(classify(TokenType::NumberLiteral), Role::Plain);
    assert_eq!(classify(TokenType::StringLiteral), Role::Plain);
    assert_eq!(classify(TokenType::Eof), Role::Plain);
    assert_eq!(classify(TokenType::Unknown), Role::Plain);
    let tokens = DelphiLexer {}.lex("if x then {c} y;");
    assert_eq!(
        classify_all(&tokens),
        vec![
            Role::If,
            Role::Plain,
            Role::Then,
            Role::Trivia,
            Role::Plain,
            Role::Semicolon,
            Role::Plain
        ]
    );
}
