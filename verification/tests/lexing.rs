use pasfmt_core::lexer::DelphiLexer;
use pasfmt_core::reconstruct::reconstruct;
use pasfmt_core::token::{KeywordKind, Token, TokenType};

fn lex(input: &str) -> Vec<Token> {
    DelphiLexer {}.lex(input)
}

/// Each token as its leading whitespace, its content and its type.
fn describe(input: &str) -> Vec<(String, String, TokenType)> {
    lex(input)
        .iter()
        .map(|token| {
            (
                token.get_leading_whitespace().to_string(),
                token.get_content().to_string(),
                token.get_token_type(),
            )
        })
        .collect()
}

fn expect(input: &str, expected: &[(&str, &str, TokenType)]) {
    let expected: Vec<(String, String, TokenType)> = expected
        .iter()
        .map(|(whitespace, content, token_type)| {
            (whitespace.to_string(), content.to_string(), *token_type)
        })
        .collect();
    assert_eq!(describe(input), expected);
}

#[test]
fn empty_text_is_one_eof() {
    expect("", &[("", "", TokenType::Eof)]);
}

#[test]
fn trailing_whitespace_leads_the_eof() {
    expect(" \t\r\n", &[(" \t\r\n", "", TokenType::Eof)]);
    expect(
        "a \n",
        &[("", "a", TokenType::Identifier), (" \n", "", TokenType::Eof)],
    );
}

#[test]
fn words_are_identifiers_or_keywords() {
    expect(
        "if Foo_1 THEN _bar",
        &[
            ("", "if", TokenType::Keyword(KeywordKind::If)),
            (" ", "Foo_1", TokenType::Identifier),
            (" ", "THEN", TokenType::Keyword(KeywordKind::Then)),
            (" ", "_bar", TokenType::Identifier),
            ("", "", TokenType::Eof),
        ],
    );
}

#[test]
fn every_structural_keyword_has_its_kind() {
    let words = [
        ("if", KeywordKind::If),
        ("then", KeywordKind::Then),
        ("else", KeywordKind::Else),
        ("for", KeywordKind::For),
        ("while", KeywordKind::While),
        ("do", KeywordKind::Do),
        ("begin", KeywordKind::Begin),
        ("end", KeywordKind::End),
        ("case", KeywordKind::Case),
        ("of", KeywordKind::Of),
        ("try", KeywordKind::Try),
        ("repeat", KeywordKind::Repeat),
        ("until", KeywordKind::Until),
        ("asm", KeywordKind::Asm),
        ("procedure", KeywordKind::Other),
        ("to", KeywordKind::Other),
        ("xor", KeywordKind::Other),
        ("and", KeywordKind::Other),
    ];
    for (word, kind) in words.iter() {
        assert_eq!(lex(word)[0].get_token_type(), TokenType::Keyword(*kind));
        assert_eq!(lex(&word.to_uppercase())[0].get_token_type(), TokenType::Keyword(*kind));
    }
    assert_eq!(lex("iff")[0].get_token_type(), TokenType::Identifier);
    assert_eq!(lex("begi")[0].get_token_type(), TokenType::Identifier);
    assert_eq!(lex("Self")[0].get_token_type(), TokenType::Identifier);
    assert_eq!(lex("Result")[0].get_token_type(), TokenType::Identifier);
}

#[test]
fn words_outside_ascii_are_identifiers() {
    expect(
        "größe := é1;",
        &[
            ("", "größe", TokenType::Identifier),
            (" ", ":=", TokenType::Symbol),
            (" ", "é1", TokenType::Identifier),
            ("", ";", TokenType::Semicolon),
            ("", "", TokenType::Eof),
        ],
    );
}

#[test]
fn numbers() {
    expect(
        "12 3.14 $FF 1..2 7.",
        &[
            ("", "12", TokenType::NumberLiteral),
            (" ", "3.14", TokenType::NumberLiteral),
            (" ", "$FF", TokenType::NumberLiteral),
            (" ", "1", TokenType::NumberLiteral),
            ("", "..", TokenType::Symbol),
            ("", "2", TokenType::NumberLiteral),
            (" ", "7", TokenType::NumberLiteral),
            ("", ".", TokenType::Symbol),
            ("", "", TokenType::Eof),
        ],
    );
}

#[test]
fn text_and_character_literals() {
    expect(
        "'hit' #13#10 'it''s' 'open\nx",
        &[
            ("", "'hit'", TokenType::StringLiteral),
            (" ", "#13", TokenType::StringLiteral),
            ("", "#10", TokenType::StringLiteral),
            (" ", "'it'", TokenType::StringLiteral),
            ("", "'s'", TokenType::StringLiteral),
            (" ", "'open", TokenType::StringLiteral),
            ("\n", "x", TokenType::Identifier),
            ("", "", TokenType::Eof),
        ],
    );
}

#[test]
fn comments_and_directives() {
    expect(
        "{a;b} (* c *) // d\n{$IFDEF X} (*$R+*) {open",
        &[
            ("", "{a;b}", TokenType::Comment),
            (" ", "(* c *)", TokenType::Comment),
            (" ", "// d", TokenType::Comment),
            ("\n", "{$IFDEF X}", TokenType::CompilerDirective),
            (" ", "(*$R+*)", TokenType::CompilerDirective),
            (" ", "{open", TokenType::Comment),
            ("", "", TokenType::Eof),
        ],
    );
    expect(
        "(* open",
        &[("", "(* open", TokenType::Comment), ("", "", TokenType::Eof)],
    );
    expect(
        "(*)",
        &[("", "(*)", TokenType::Comment), ("", "", TokenType::Eof)],
    );
}

#[test]
fn symbols() {
    expect(
        ":= <= >= <> .. : < > = + - * / ( ) [ ] , . ^ @ ;",
        &[
            ("", ":=", TokenType::Symbol),
            (" ", "<=", TokenType::Symbol),
            (" ", ">=", TokenType::Symbol),
            (" ", "<>", TokenType::Symbol),
            (" ", "..", TokenType::Symbol),
            (" ", ":", TokenType::Symbol),
            (" ", "<", TokenType::Symbol),
            (" ", ">", TokenType::Symbol),
            (" ", "=", TokenType::Symbol),
            (" ", "+", TokenType::Symbol),
            (" ", "-", TokenType::Symbol),
            (" ", "*", TokenType::Symbol),
            (" ", "/", TokenType::Symbol),
            (" ", "(", TokenType::Symbol),
            (" ", ")", TokenType::Symbol),
            (" ", "[", TokenType::Symbol),
            (" ", "]", TokenType::Symbol),
            (" ", ",", TokenType::Symbol),
            (" ", ".", TokenType::Symbol),
            (" ", "^", TokenType::Symbol),
            (" ", "@", TokenType::Symbol),
            (" ", ";", TokenType::Semicolon),
            ("", "", TokenType::Eof),
        ],
    );
}

#[test]
fn word_behind_an_ampersand_is_an_identifier() {
    expect(
        "&begin & end &1",
        &[
            ("", "&begin", TokenType::Identifier),
            (" ", "&", TokenType::Symbol),
            (" ", "end", TokenType::Keyword(KeywordKind::End)),
            (" ", "&", TokenType::Symbol),
            ("", "1", TokenType::NumberLiteral),
            ("", "", TokenType::Eof),
        ],
    );
}

#[test]
fn characters_of_every_width_are_cut_right() {
    expect(
        "a\u{7FF}\u{800} \u{10000}\u{10FFFF}\t{\u{1F600}}x",
        &[
            ("", "a\u{7FF}\u{800}", TokenType::Identifier),
            (" ", "\u{10000}\u{10FFFF}", TokenType::Identifier),
            ("\t", "{\u{1F600}}", TokenType::Comment),
            ("", "x", TokenType::Identifier),
            ("", "", TokenType::Eof),
        ],
    );
}

#[test]
fn unknown_characters_are_tokens_of_their_own() {
    expect(
        "a ? } !",
        &[
            ("", "a", TokenType::Identifier),
            (" ", "?", TokenType::Unknown),
            (" ", "}", TokenType::Unknown),
            (" ", "!", TokenType::Unknown),
            ("", "", TokenType::Eof),
        ],
    );
}

#[test]
fn tokens_spell_the_text() {
    let inputs = [
        "",
        " ",
        "if A then B;",
        "procedure Foo;\r\nbegin\r\n\tx := 'a''b' + #13; // c\r\nend;\r\n",
        "{ unterminated",
        "(* unterminated *",
        "'unterminated",
        "größe := 'ü' { ä } ; € ",
        "a?b!c\u{0}d",
        "1.5e-10 $ # ## $$",
        "a\u{1F600}b := '\u{1F600}'; // \u{1F600}\n{ \u{10FFFF} } \u{7FF}\u{800}\u{FFFF}\u{10000}",
        "&begin &1 & x",
    ];
    for input in inputs.iter() {
        assert_eq!(reconstruct(&lex(input)), *input);
    }
}

#[test]
fn last_token_is_the_only_eof() {
    for input in ["", "a", "a b ;", "{ open"].iter() {
        let tokens = lex(input);
        let eofs = tokens.iter().filter(|t| t.get_token_type() == TokenType::Eof).count();
        assert_eq!(eofs, 1);
        assert_eq!(tokens.last().unwrap().get_token_type(), TokenType::Eof);
    }
}

#[test]
fn token_content_can_be_replaced() {
    let mut token = Token::new(" ".to_string(), "self".to_string(), TokenType::Identifier);
    token.set_content("Self".to_string());
    assert_eq!(token.get_content(), "Self");
    assert_eq!(token.get_leading_whitespace(), " ");
    assert_eq!(token.get_token_type(), TokenType::Identifier);
    let copy = token.duplicate();
    assert_eq!(copy.get_content(), "Self");
    assert_eq!(copy.get_leading_whitespace(), " ");
    assert_eq!(copy.get_token_type(), TokenType::Identifier);
}
