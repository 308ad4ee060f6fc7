//! The part a token plays in the structure of statements.
//!
//! The recognizer reads nothing of a token but its role: keyword anchors, statement
//! terminators, block delimiters and trivia.

use vstd::prelude::*;
use crate::token::{token_views, KeywordKind, Token, TokenType, TokenView};

verus! {

/// The roles.
#[derive(Clone, Copy, Debug, PartialEq, Eq, Structural)]
pub enum Role {
    /// `if`: leads a construct whose controlling keyword is `then`.
    If,
    /// `for`: leads a construct whose controlling keyword is `do`.
    For,
    /// `while`: leads a construct whose controlling keyword is `do`.
    While,
    Then,
    Do,
    Else,
    /// `begin`: opens a block, and is the only token that makes a body already-a-block.
    Begin,
    /// `case`: opens a block whose header runs up to `of`.
    Case,
    Of,
    /// `try`, `repeat` and `asm`: open a block.
    Opener,
    /// `end` and `until`: close the innermost open block.
    Closer,
    /// `;`
    Semicolon,
    /// Comments and compiler directives.
    Trivia,
    /// Everything else.
    Plain,
}

/// The role that a token of the given type plays.
pub open spec fn role_of(token_type: TokenType) -> Role {
    match token_type {
        TokenType::Keyword(KeywordKind::If) => Role::If,
        TokenType::Keyword(KeywordKind::For) => Role::For,
        TokenType::Keyword(KeywordKind::While) => Role::While,
        TokenType::Keyword(KeywordKind::Then) => Role::Then,
        TokenType::Keyword(KeywordKind::Do) => Role::Do,
        TokenType::Keyword(KeywordKind::Else) => Role::Else,
        TokenType::Keyword(KeywordKind::Begin) => Role::Begin,
        TokenType::Keyword(KeywordKind::Case) => Role::Case,
        TokenType::Keyword(KeywordKind::Of) => Role::Of,
        TokenType::Keyword(KeywordKind::Try) => Role::Opener,
        TokenType::Keyword(KeywordKind::Repeat) => Role::Opener,
        TokenType::Keyword(KeywordKind::Asm) => Role::Opener,
        TokenType::Keyword(KeywordKind::End) => Role::Closer,
        TokenType::Keyword(KeywordKind::Until) => Role::Closer,
        TokenType::Keyword(KeywordKind::Other) => Role::Plain,
        TokenType::Semicolon => Role::Semicolon,
        TokenType::Comment => Role::Trivia,
        TokenType::CompilerDirective => Role::Trivia,
        _ => Role::Plain,
    }
}

/// The roles of a sequence of tokens, in order.
pub open spec fn roles_of(tokens: Seq<TokenView>) -> Seq<Role> {
    Seq::new(tokens.len(), |i: int| role_of(tokens[i].token_type))
}

impl Role {
    /// The keyword leads an `if`, `for` or `while` construct.
    pub open spec fn is_head(self) -> bool {
        self == Role::If || self == Role::For || self == Role::While
    }

    /// The keyword opens a block that a closer ends.
    pub open spec fn is_opener(self) -> bool {
        self == Role::Begin || self == Role::Case || self == Role::Opener
    }

    /// The token may stand between a leading keyword and its controlling keyword.
    pub open spec fn is_filler(self) -> bool {
        self == Role::Plain || self == Role::Trivia || self == Role::Of
    }

    /// The controlling keyword that a leading keyword waits for.
    pub open spec fn anchor(self) -> Role {
        if self == Role::If {
            Role::Then
        } else {
            Role::Do
        }
    }

    /// Whether the keyword leads an `if`, `for` or `while` construct.
    pub fn leads(self) -> (yes: bool)
        ensures
            yes == self.is_head(),
    {
        self == Role::If || self == Role::For || self == Role::While
    }

    /// Whether the keyword opens a block that a closer ends.
    pub fn opens(self) -> (yes: bool)
        ensures
            yes == self.is_opener(),
    {
        self == Role::Begin || self == Role::Case || self == Role::Opener
    }

    /// Whether the token may stand between a leading keyword and its controlling keyword.
    pub fn fills(self) -> (yes: bool)
        ensures
            yes == self.is_filler(),
    {
        self == Role::Plain || self == Role::Trivia || self == Role::Of
    }

    /// The controlling keyword that a leading keyword waits for.
    pub fn awaited(self) -> (role: Role)
        ensures
            role == self.anchor(),
    {
        if self == Role::If {
            Role::Then
        } else {
            Role::Do
        }
    }
}

/// The role of a token type.
pub fn classify(token_type: TokenType) -> (role: Role)
    ensures
        role == role_of(token_type),
{
    match token_type {
        TokenType::Keyword(KeywordKind::If) => Role::If,
        TokenType::Keyword(KeywordKind::For) => Role::For,
        TokenType::Keyword(KeywordKind::While) => Role::While,
        TokenType::Keyword(KeywordKind::Then) => Role::Then,
        TokenType::Keyword(KeywordKind::Do) => Role::Do,
        TokenType::Keyword(KeywordKind::Else) => Role::Else,
        TokenType::Keyword(KeywordKind::Begin) => Role::Begin,
        TokenType::Keyword(KeywordKind::Case) => Role::Case,
        TokenType::Keyword(KeywordKind::Of) => Role::Of,
        TokenType::Keyword(KeywordKind::Try) => Role::Opener,
        TokenType::Keyword(KeywordKind::Repeat) => Role::Opener,
        TokenType::Keyword(KeywordKind::Asm) => Role::Opener,
        TokenType::Keyword(KeywordKind::End) => Role::Closer,
        TokenType::Keyword(KeywordKind::Until) => Role::Closer,
        TokenType::Keyword(KeywordKind::Other) => Role::Plain,
        TokenType::Semicolon => Role::Semicolon,
        TokenType::Comment => Role::Trivia,
        TokenType::CompilerDirective => Role::Trivia,
        _ => Role::Plain,
    }
}

/// The roles of the tokens, in order.
pub fn classify_all(tokens: &Vec<Token>) -> (roles: Vec<Role>)
    ensures
        roles@ == roles_of(token_views(tokens@)),
{
    let mut roles: Vec<Role> = Vec::new();
    let mut i: usize = 0;
    while i < tokens.len()
        invariant
            i <= tokens.len(),
            roles@ == roles_of(token_views(tokens@)).take(i as int),
        decreases tokens.len() - i,
    {
        roles.push(classify(tokens[i].get_token_type()));
        i += 1;
    }
    roles
}

} // verus!
