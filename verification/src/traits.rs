//! The interfaces of the stages that can be exchanged: the parser and the rules.

use vstd::prelude::*;
use crate::formatted::FormattedTokens;
use crate::lines::{line_views, logical_lines, well_formed, LogicalLine};
use crate::role::roles_of;
use crate::token::{token_views, Token, TokenView};

verus! {

/// A parser: from the tokens of the lexer to the tokens that the later stages work on,
/// and their logical lines.
pub trait LogicalLineParser {
    /// The tokens that the parser hands out for `tokens`.
    spec fn parsed(&self, tokens: Seq<TokenView>) -> Seq<TokenView>;

    /// Parses the tokens. Returns the logical lines and the resulting tokens; the lines
    /// are those of the resulting tokens, and refer to them by position.
    fn parse(&self, input: Vec<Token>) -> (parsed: (Vec<LogicalLine>, Vec<Token>))
        ensures
            token_views(parsed.1@) == self.parsed(token_views(input@)),
            line_views(parsed.0@) == logical_lines(roles_of(token_views(parsed.1@))),
            well_formed(line_views(parsed.0@), parsed.1.len() as int),
    ;
}

/// A rule that rewrites the content of tokens.
///
/// A rule sees all tokens of a file with their marks, and the logical lines. It says what
/// it makes of the tokens, and leaves the marks as they are.
pub trait LogicalLineFileFormatter {
    /// The tokens as the rule leaves them, given the tokens and their marks.
    spec fn formatted(&self, tokens: Seq<TokenView>, ignored: Seq<bool>) -> Seq<TokenView>;

    /// Applies the rule to the tokens.
    fn format(&self, formatted_tokens: &mut FormattedTokens, input: &[LogicalLine])
        ensures
            final(formatted_tokens).ignored() == old(formatted_tokens).ignored(),
            final(formatted_tokens).tokens() == self.formatted(
                old(formatted_tokens).tokens(),
                old(formatted_tokens).ignored(),
            ),
    ;
}

} // verus!
