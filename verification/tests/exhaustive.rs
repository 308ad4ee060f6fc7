use pasfmt_core::defaults::parser::DelphiLogicalLineParser;
use pasfmt_core::formatter::Formatter;
use pasfmt_core::lexer::DelphiLexer;
use pasfmt_core::lines::LogicalLine;
use pasfmt_core::reconstruct::reconstruct;
use pasfmt_core::rules::format_identifiers::FormatIdentifiers;
use pasfmt_core::token::Token;
use pasfmt_core::traits::LogicalLineParser;

const WORDS: [&str; 11] =
    ["if", "then", "else", "for", "do", "begin", "end", ";", "x", "{c}", "// d\n"];

/// Every text of up to `length` of the words, the words parted by blanks.
fn texts(length: usize) -> Vec<String> {
    let mut all = vec![String::new()];
    let mut last = vec![String::new()];
    for _ in 0..length {
        let mut next = Vec::new();
        for text in last.iter() {
            for word in WORDS.iter() {
                next.push(format!("{}{} ", text, word));
            }
        }
        all.extend(next.iter().cloned());
        last = next;
    }
    all
}

fn parsers() -> Vec<DelphiLogicalLineParser> {
    let mut all = Vec::new();
    for bits in 0..8 {
        all.push(DelphiLogicalLineParser {
            wrap_single_statement_if: bits & 1 != 0,
            wrap_single_statement_for: bits & 2 != 0,
            wrap_single_statement_while: bits & 4 != 0,
        });
    }
    all
}

fn same(a: &Token, b: &Token) -> bool {
    a.get_content() == b.get_content()
        && a.get_leading_whitespace() == b.get_leading_whitespace()
        && a.get_token_type() == b.get_token_type()
}

fn check_lines(lines: &[LogicalLine], tokens: usize) {
    let mut next = 0;
    for (index, line) in lines.iter().enumerate() {
        assert!(!line.get_tokens().is_empty());
        for &token in line.get_tokens().iter() {
            assert_eq!(token, next);
            next += 1;
        }
        match line.get_parent() {
            Some(parent) => {
                assert!(parent < index);
                let above = lines[parent].get_level();
                assert!(line.get_level() == above || line.get_level() == above + 1);
            }
            None => assert_eq!(line.get_level(), 0),
        }
    }
    assert_eq!(next, tokens);
}

#[test]
fn every_short_text_is_wrapped_soundly() {
    let lexer = DelphiLexer {};
    for text in texts(4).iter() {
        let input = lexer.lex(text);
        assert_eq!(reconstruct(&input), *text);
        for parser in parsers().iter() {
            let (lines, once) = parser.parse(lexer.lex(text));
            check_lines(&lines, once.len());

            // Nothing but `begin`, `end` and `;` is added, and nothing is taken away.
            let mut kept = 0;
            let mut begins = 0;
            let mut ends = 0;
            let mut terminators = 0;
            for token in once.iter() {
                if kept < input.len() && same(token, &input[kept]) {
                    kept += 1;
                } else {
                    match token.get_content() {
                        "begin" => begins += 1,
                        "end" => ends += 1,
                        ";" => terminators += 1,
                        other => panic!("unexpected token {:?} in {:?}", other, text),
                    }
                }
            }
            assert_eq!(kept, input.len(), "text: {:?}", text);
            assert_eq!(begins, ends, "text: {:?}", text);
            assert!(terminators <= ends, "text: {:?}", text);

            // Wrapping twice is wrapping once.
            let copy: Vec<Token> = once.iter().map(|token| token.duplicate()).collect();
            let (lines_twice, twice) = parser.parse(copy);
            assert_eq!(once.len(), twice.len(), "text: {:?}", text);
            assert!(once.iter().zip(twice.iter()).all(|(a, b)| same(a, b)));
            assert_eq!(lines.len(), lines_twice.len());
            for (a, b) in lines.iter().zip(lines_twice.iter()) {
                assert_eq!(a.get_tokens(), b.get_tokens());
                assert_eq!(a.get_level(), b.get_level());
                assert_eq!(a.get_parent(), b.get_parent());
            }
        }
    }
}

#[test]
fn every_short_text_is_formatted_to_a_fixed_point() {
    for parser in parsers() {
        let formatter = Formatter::new(parser, FormatIdentifiers::new(vec!["X".to_string()]));
        for text in texts(4).iter() {
            let once = formatter.format(text);
            let twice = formatter.format(&once);
            assert_eq!(twice, once, "text: {:?}", text);
        }
    }
}

#[test]
fn a_parser_that_wraps_nothing_changes_nothing() {
    let formatter =
        Formatter::new(DelphiLogicalLineParser::default(), FormatIdentifiers::new(vec![]));
    for text in texts(4).iter() {
        assert_eq!(formatter.format(text), *text);
    }
}
