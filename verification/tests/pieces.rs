use pasfmt_core::chars::{
    digit, letter, same_chars, space, spells, to_chars, to_lower, to_lower_char, word,
};
use pasfmt_core::engine::Scanned;
use pasfmt_core::inspect::{
    parse_with_all_wrap, parse_with_if_wrap, parse_with_loop_wrap, reconstruct, spell,
};
use pasfmt_core::keywords::keyword;
use pasfmt_core::lexer::{find_token_end, find_token_type, pass_run, pass_starred, peek, Run};
use pasfmt_core::defaults::parser::DelphiLogicalLineParser;
use pasfmt_core::render::{render_tokens, synthesize};
use pasfmt_core::role::Role;
use pasfmt_core::token::{KeywordKind, Token, TokenType};
use pasfmt_core::wrap::{Mark, Mode, Stop};

fn chars(text: &str) -> Vec<char> {
    text.chars().collect()
}

fn all() -> DelphiLogicalLineParser {
    DelphiLogicalLineParser {
        wrap_single_statement_if: true,
        wrap_single_statement_for: true,
        wrap_single_statement_while: true,
    }
}

fn outcome(found: Scanned) -> (Vec<Mark>, usize, Stop) {
    (found.marks, found.end, found.stop)
}

#[test]
fn classes_of_characters() {
    for c in [' ', '\t', '\n', '\r'] {
        assert!(space(c));
    }
    for c in ['a', '0', '\u{b}', '\u{a0}', '_'] {
        assert!(!space(c));
    }
    for c in ['0', '5', '9'] {
        assert!(digit(c) && word(c) && !letter(c));
    }
    for c in ['a', 'z', 'A', 'Z', '_', '\u{80}', 'é', '\u{10FFFF}'] {
        assert!(letter(c) && word(c) && !digit(c));
    }
    for c in ['/', ':', '@', '[', '`', '{', '\u{7f}', ' ', '$', '&'] {
        assert!(!letter(c) && !digit(c) && !word(c));
    }
}

#[test]
fn small_letters() {
    assert_eq!(to_lower_char('A'), 'a');
    assert_eq!(to_lower_char('Z'), 'z');
    assert_eq!(to_lower_char('a'), 'a');
    assert_eq!(to_lower_char('@'), '@');
    assert_eq!(to_lower_char('['), '[');
    assert_eq!(to_lower_char('É'), 'É');
    assert_eq!(to_lower(&chars("xBeGiN1É y"), 1, 8), chars("begin1É"));
    assert_eq!(to_lower(&chars("ABC"), 1, 1), chars(""));
}

#[test]
fn characters_of_texts() {
    assert_eq!(to_chars("aé\u{1F600}"), vec!['a', 'é', '\u{1F600}']);
    assert_eq!(to_chars(""), Vec::<char>::new());
    assert!(spells(&chars("begin"), "begin"));
    assert!(!spells(&chars("begin"), "begi"));
    assert!(!spells(&chars("begi"), "begin"));
    assert!(!spells(&chars("begin"), "begiN"));
    assert!(spells(&chars(""), ""));
    assert!(same_chars(&chars("aé"), &chars("aé")));
    assert!(!same_chars(&chars("aé"), &chars("ae")));
    assert!(!same_chars(&chars("a"), &chars("ab")));
}

#[test]
fn reserved_words_are_found_in_small_letters() {
    assert_eq!(keyword(&chars("begin")), Some(KeywordKind::Begin));
    assert_eq!(keyword(&chars("until")), Some(KeywordKind::Until));
    assert_eq!(keyword(&chars("implementation")), Some(KeywordKind::Other));
    assert_eq!(keyword(&chars("Begin")), None);
    assert_eq!(keyword(&chars("self")), None);
    assert_eq!(keyword(&chars("")), None);
}

#[test]
fn parts_that_roles_play() {
    for role in [Role::If, Role::For, Role::While] {
        assert!(role.leads() && !role.opens() && !role.fills());
    }
    for role in [Role::Begin, Role::Case, Role::Opener] {
        assert!(role.opens() && !role.leads() && !role.fills());
    }
    for role in [Role::Plain, Role::Trivia, Role::Of] {
        assert!(role.fills() && !role.leads() && !role.opens());
    }
    for role in [Role::Then, Role::Do, Role::Else, Role::Closer, Role::Semicolon] {
        assert!(!role.fills() && !role.leads() && !role.opens());
    }
    assert_eq!(Role::If.awaited(), Role::Then);
    assert_eq!(Role::For.awaited(), Role::Do);
    assert_eq!(Role::While.awaited(), Role::Do);
}

#[test]
fn switches_of_the_parser() {
    let parser = DelphiLogicalLineParser {
        wrap_single_statement_if: true,
        wrap_single_statement_for: false,
        wrap_single_statement_while: true,
    };
    assert!(parser.wraps_construct(Role::If));
    assert!(!parser.wraps_construct(Role::For));
    assert!(parser.wraps_construct(Role::While));
    assert!(!parser.wraps_construct(Role::Begin));
    assert!(!parser.wraps_construct(Role::Plain));
    let none = DelphiLogicalLineParser::default();
    assert!(!none.wraps_construct(Role::If));
    assert!(!none.wraps_construct(Role::For));
    assert!(!none.wraps_construct(Role::While));
}

#[test]
fn scans_in_each_mode() {
    let (begin, end, keep, semicolon) = (Mark::Begin, Mark::End, Mark::Keep, Mark::Semicolon);
    // if A then B ; C end D
    let roles = vec![
        Role::If,
        Role::Plain,
        Role::Then,
        Role::Plain,
        Role::Semicolon,
        Role::Plain,
        Role::Closer,
        Role::Plain,
    ];
    let wrapped = vec![keep, keep, keep, begin, keep, keep, end, semicolon];
    assert_eq!(
        outcome(all().scan(&roles, Mode::Statement { enclosed: false }, 0)),
        (wrapped.clone(), 5, Stop::Semicolon)
    );
    let mut block = wrapped.clone();
    block.extend([keep, keep]);
    assert_eq!(outcome(all().scan(&roles, Mode::Block, 0)), (block.clone(), 7, Stop::Closer));
    let mut document = block.clone();
    document.push(keep);
    assert_eq!(outcome(all().scan(&roles, Mode::Document, 0)), (document, 8, Stop::Exhausted));
    assert_eq!(
        outcome(all().scan(&roles, Mode::Statement { enclosed: true }, 5)),
        (vec![keep], 6, Stop::Closer)
    );
    assert_eq!(
        outcome(all().scan(&roles, Mode::Statement { enclosed: true }, 6)),
        (vec![], 6, Stop::Closer)
    );
    assert_eq!(outcome(all().scan(&roles, Mode::Document, 8)), (vec![], 8, Stop::Exhausted));
}

#[test]
fn construct_and_branch_by_themselves() {
    let (begin, end, keep, semicolon) = (Mark::Begin, Mark::End, Mark::Keep, Mark::Semicolon);
    // if A then {c} B else C end
    let roles = vec![
        Role::If,
        Role::Plain,
        Role::Then,
        Role::Trivia,
        Role::Plain,
        Role::Else,
        Role::Plain,
        Role::Closer,
    ];
    assert_eq!(
        outcome(all().branch(&roles, true, false, true, 3)),
        (vec![keep, begin, keep, end], 5, Stop::Else)
    );
    assert_eq!(
        outcome(all().branch(&roles, false, false, true, 3)),
        (vec![keep, keep], 5, Stop::Else)
    );
    assert_eq!(
        outcome(all().branch(&roles, true, true, true, 6)),
        (vec![begin, keep, end, semicolon], 7, Stop::Semicolon)
    );
    assert_eq!(
        outcome(all().branch(&roles, true, true, false, 6)),
        (vec![keep], 7, Stop::Closer)
    );
    assert_eq!(
        outcome(all().construct(&roles, true, 0, 2)),
        (
            vec![keep, keep, keep, keep, begin, keep, end, keep, begin, keep, end, semicolon],
            7,
            Stop::Semicolon
        )
    );
    assert_eq!(
        outcome(all().construct(&roles, false, 0, 2)),
        (vec![keep, keep, keep, keep, begin, keep, end, keep, keep], 7, Stop::Closer)
    );
    assert_eq!(
        outcome(DelphiLogicalLineParser::default().construct(&roles, true, 0, 2)),
        (vec![keep; 7], 7, Stop::Closer)
    );
}

#[test]
fn plan_is_carried_out() {
    let tokens = vec![
        Token::new("".to_string(), "a".to_string(), TokenType::Identifier),
        Token::new(" ".to_string(), "b".to_string(), TokenType::Identifier),
    ];
    let marks = vec![Mark::Begin, Mark::Keep, Mark::End, Mark::Semicolon, Mark::Keep];
    let out = render_tokens(tokens, &marks);
    let found: Vec<(&str, &str, TokenType)> = out
        .iter()
        .map(|t| (t.get_leading_whitespace(), t.get_content(), t.get_token_type()))
        .collect();
    assert_eq!(
        found,
        vec![
            (" ", "begin", TokenType::Keyword(KeywordKind::Begin)),
            ("", "a", TokenType::Identifier),
            (" ", "end", TokenType::Keyword(KeywordKind::End)),
            ("", ";", TokenType::Semicolon),
            (" ", "b", TokenType::Identifier),
        ]
    );
    assert!(render_tokens(vec![], &vec![]).is_empty());
    let begin = synthesize(Mark::Begin);
    assert_eq!(begin.get_content(), "begin");
    let end = synthesize(Mark::End);
    assert_eq!(end.get_content(), "end");
    let semicolon = synthesize(Mark::Semicolon);
    assert_eq!(semicolon.get_content(), ";");
}

#[test]
fn runs_of_characters() {
    let text = chars("  ab1 'x y'\n{c} // d\r\ne #$0D");
    assert_eq!(pass_run(&text, Run::Spaces, 0), 2);
    assert_eq!(pass_run(&text, Run::Spaces, 2), 2);
    assert_eq!(pass_run(&text, Run::Word, 2), 5);
    assert_eq!(pass_run(&text, Run::Text, 7), 10);
    assert_eq!(pass_run(&text, Run::Braced, 13), 14);
    assert_eq!(pass_run(&text, Run::Line, 16), 20);
    assert_eq!(pass_run(&text, Run::Code, 25), 28);
    assert_eq!(pass_run(&text, Run::Word, 25), 25);
    assert_eq!(pass_run(&text, Run::Line, 22), 28);
    assert_eq!(pass_run(&text, Run::Word, 28), 28);
    let starred = chars("(* a * ) *) b");
    assert_eq!(pass_starred(&starred, 2), 11);
    assert_eq!(pass_starred(&starred, 10), 13);
    assert_eq!(pass_starred(&chars("*"), 0), 1);
    assert_eq!(peek(&starred, 0), '(');
    assert_eq!(peek(&starred, 13), ' ');
    assert_eq!(peek(&starred, 100), ' ');
}

#[test]
fn one_token_at_a_time() {
    let text = chars("if x1 <= 2.5 then 'a' {b} (*c*) //d");
    let expected = [
        (0, 2, TokenType::Keyword(KeywordKind::If)),
        (3, 5, TokenType::Identifier),
        (6, 8, TokenType::Symbol),
        (9, 12, TokenType::NumberLiteral),
        (13, 17, TokenType::Keyword(KeywordKind::Then)),
        (18, 21, TokenType::StringLiteral),
        (22, 25, TokenType::Comment),
        (26, 31, TokenType::Comment),
        (32, 35, TokenType::Comment),
    ];
    for (start, end, token_type) in expected.iter() {
        assert_eq!(find_token_end(&text, *start), *end);
        assert_eq!(find_token_type(&text, *start, *end), *token_type);
    }
}

#[test]
fn listings_for_the_eye() {
    let (lines, tokens) = parse_with_all_wrap("while A do B;");
    assert_eq!(spell(&tokens), "while A do begin B ; end ;  ");
    assert_eq!(
        reconstruct(&lines, &tokens),
        "L0(0): while A do\nL1(0): begin\nL2(1):   B ;\nL3(0): end ;\nL4(0): \n"
    );
    assert_eq!(spell(&[]), "");
    assert_eq!(reconstruct(&[], &[]), "");
    let (_, only_if) = parse_with_if_wrap("while A do if B then C;");
    assert_eq!(spell(&only_if), "while A do if B then begin C ; end ;  ");
    let (_, only_loops) = parse_with_loop_wrap("while A do if B then C;");
    assert_eq!(
        spell(&only_loops),
        "while A do begin if B then C ; end ;  "
    );
}

#[test]
fn listing_counts_in_decimal() {
    let mut text = String::from("begin");
    for _ in 0..12 {
        text.push_str(" begin x;");
    }
    let (lines, tokens) = parse_with_all_wrap(&text);
    let listing = reconstruct(&lines, &tokens);
    assert!(listing.starts_with("L0(0): begin\nL1(1):   begin\nL2(2):     x ;\n"));
    assert!(listing.contains("\nL9(5):           begin\nL10(6):             x ;\nL11(6): "));
    assert!(listing.contains("\nL23(12): "));
    assert!(listing.ends_with("\nL24(13):                           x ;\nL25(13):                           \n"));
    assert_eq!(lines.len(), 26);
}
