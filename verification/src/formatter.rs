//! The pipeline: lexer, parser, toggler, rule, reconstructor.

use vstd::prelude::*;
use vstd::string::*;
use crate::formatted::{toggled, FormattingToggler};
use crate::traits::{LogicalLineFileFormatter, LogicalLineParser};
use crate::lexer::{tokens_of, DelphiLexer};
use crate::defaults::parser::DelphiLogicalLineParser;
use crate::reconstruct::{reconstruct, text_of};
use crate::rules::format_identifiers::FormatIdentifiers;

verus! {

/// A formatter: a parser with its configuration, and a rule, by default the rule for
/// identifiers.
#[derive(Debug)]
pub struct Formatter<F: LogicalLineFileFormatter = FormatIdentifiers> {
    pub parser: DelphiLogicalLineParser,
    pub file_formatter: F,
}

impl<F: LogicalLineFileFormatter> Formatter<F> {
    /// The text that the formatter makes of `input`: the tokens of the input, wrapped as
    /// the parser's configuration asks, rewritten by the rule where the toggler lets it,
    /// and written out again.
    pub open spec fn formatted(&self, input: Seq<char>) -> Seq<char> {
        let wrapped = self.parser.wrap_tokens(tokens_of(input));
        text_of(self.file_formatter.formatted(wrapped, toggled(wrapped)))
    }

    /// The formatter with the given parser and rule.
    pub fn new(parser: DelphiLogicalLineParser, file_formatter: F) -> (formatter: Formatter<F>)
        ensures
            formatter.parser == parser,
            formatter.file_formatter == file_formatter,
    {
        Formatter { parser, file_formatter }
    }

    /// Formats the text.
    pub fn format(&self, input: &str) -> (output: String)
        ensures
            output@ == self.formatted(input@),
    {
        let lexer = DelphiLexer {  };
        let tokens = lexer.lex(input);
        let (lines, wrapped) = self.parser.parse(tokens);
        let toggler = FormattingToggler {  };
        let mut marked = toggler.mark(wrapped);
        self.file_formatter.format(&mut marked, lines.as_slice());
        let tokens = marked.into_tokens();
        reconstruct(&tokens)
    }
}

} // verus!
