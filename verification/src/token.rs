//! Tokens: the positional records that the lexer produces and every later stage reads.

use vstd::prelude::*;
use vstd::string::*;

verus! {

/// The reserved words that the parser tells apart; every other reserved word is `Other`.
#[derive(Clone, Copy, Debug, PartialEq, Eq, Structural)]
pub enum KeywordKind {
    If,
    Then,
    Else,
    For,
    While,
    Do,
    Begin,
    End,
    Case,
    Of,
    Try,
    Repeat,
    Until,
    Asm,
    Other,
}

/// The classification of a token, fixed when the token is created.
#[derive(Clone, Copy, Debug, PartialEq, Eq, Structural)]
pub enum TokenType {
    Identifier,
    Keyword(KeywordKind),
    /// The statement terminator `;`.
    Semicolon,
    /// Any other operator or punctuation.
    Symbol,
    NumberLiteral,
    StringLiteral,
    Comment,
    CompilerDirective,
    /// The end of the input; its leading whitespace is what trails the last token.
    Eof,
    Unknown,
}

/// One token: the text it stands for, the whitespace that preceded it, and its type.
#[derive(Debug)]
pub struct Token {
    leading_whitespace: String,
    content: String,
    token_type: TokenType,
}

/// What a token is, as plain values.
pub ghost struct TokenView {
    pub leading_whitespace: Seq<char>,
    pub content: Seq<char>,
    pub token_type: TokenType,
}

impl View for Token {
    type V = TokenView;

    closed spec fn view(&self) -> TokenView {
        TokenView {
            leading_whitespace: self.leading_whitespace@,
            content: self.content@,
            token_type: self.token_type,
        }
    }
}

/// The views of a sequence of tokens, in order.
pub open spec fn token_views(tokens: Seq<Token>) -> Seq<TokenView> {
    Seq::new(tokens.len(), |i: int| tokens[i]@)
}

impl Token {
    /// The token with the given leading whitespace, content and type.
    pub fn new(leading_whitespace: String, content: String, token_type: TokenType) -> (token: Token)
        ensures
            token@ == (TokenView {
                leading_whitespace: leading_whitespace@,
                content: content@,
                token_type,
            }),
    {
        Token { leading_whitespace, content, token_type }
    }

    /// The whitespace that precedes the token.
    pub fn get_leading_whitespace(&self) -> (whitespace: &str)
        ensures
            whitespace@ == self@.leading_whitespace,
    {
        self.leading_whitespace.as_str()
    }

    /// The text of the token.
    pub fn get_content(&self) -> (content: &str)
        ensures
            content@ == self@.content,
    {
        self.content.as_str()
    }

    /// The type of the token.
    pub fn get_token_type(&self) -> (token_type: TokenType)
        ensures
            token_type == self@.token_type,
    {
        self.token_type
    }

    /// Replaces the text of the token; its type and leading whitespace stay.
    pub fn set_content(&mut self, content: String)
        ensures
            final(self)@ == (TokenView { content: content@, ..old(self)@ }),
    {
        self.content = content;
    }

    /// A copy of the token.
    pub fn duplicate(&self) -> (token: Token)
        ensures
            token@ == self@,
    {
        Token {
            leading_whitespace: self.leading_whitespace.clone(),
            content: self.content.clone(),
            token_type: self.token_type,
        }
    }
}

} // verus!
