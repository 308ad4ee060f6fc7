//! The logical-line parser: its configuration and its entry point.

use vstd::prelude::*;
use crate::lines::{build_lines, line_views, logical_lines, well_formed, LogicalLine};
use crate::render::{render, render_tokens};
use crate::role::{classify_all, roles_of};
use crate::token::{token_views, Token, TokenView};
use crate::traits::LogicalLineParser;
use crate::wrap::{plan, Mode};
use crate::wrap_laws::lemma_plan_keeps_every_token;

verus! {

/// The parser and its configuration: one switch per kind of construct. Every combination
/// is legal.
#[derive(Clone, Copy, Debug)]
pub struct DelphiLogicalLineParser {
    /// Rewrite single-statement branches of `if` into blocks.
    pub wrap_single_statement_if: bool,
    /// Rewrite single-statement bodies of `for` into blocks.
    pub wrap_single_statement_for: bool,
    /// Rewrite single-statement bodies of `while` into blocks.
    pub wrap_single_statement_while: bool,
}

impl Default for DelphiLogicalLineParser {
    /// The parser that wraps nothing.
    fn default() -> (parser: Self)
        ensures
            !parser.wrap_single_statement_if,
            !parser.wrap_single_statement_for,
            !parser.wrap_single_statement_while,
    {
        DelphiLogicalLineParser {
            wrap_single_statement_if: false,
            wrap_single_statement_for: false,
            wrap_single_statement_while: false,
        }
    }
}

impl DelphiLogicalLineParser {
    /// The token sequence that the parser hands out for `tokens`: the tokens themselves,
    /// in their order, with the synthesized tokens of the plan spliced in.
    pub open spec fn wrap_tokens(self, tokens: Seq<TokenView>) -> Seq<TokenView> {
        render(tokens, plan(roles_of(tokens), self))
    }
}

impl LogicalLineParser for DelphiLogicalLineParser {
    open spec fn parsed(&self, tokens: Seq<TokenView>) -> Seq<TokenView> {
        self.wrap_tokens(tokens)
    }

    /// Wraps the single-statement bodies that the configuration asks for and groups the
    /// resulting tokens into logical lines.
    ///
    /// Returns the lines and the resulting tokens. The lines are those of the resulting
    /// tokens, and refer to them by position.
    fn parse(&self, input: Vec<Token>) -> (parsed: (Vec<LogicalLine>, Vec<Token>))
        ensures
            token_views(parsed.1@) == self.wrap_tokens(token_views(input@)),
            line_views(parsed.0@) == logical_lines(roles_of(token_views(parsed.1@))),
            well_formed(line_views(parsed.0@), parsed.1.len() as int),
    {
        let roles = classify_all(&input);
        let found = self.scan(&roles, Mode::Document, 0);
        proof {
            lemma_plan_keeps_every_token(roles@, *self);
        }
        let wrapped = render_tokens(input, &found.marks);
        let lines = build_lines(&classify_all(&wrapped));
        (lines, wrapped)
    }
}

} // verus!
