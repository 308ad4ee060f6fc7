//! The names that a user of the formatter needs, in one place.

pub use crate::formatted::{FormattedToken, FormattedTokens, FormattingToggler};
pub use crate::formatter::Formatter;
pub use crate::lexer::DelphiLexer;
pub use crate::lines::LogicalLine;
pub use crate::defaults::parser::DelphiLogicalLineParser;
pub use crate::reconstruct::reconstruct;
pub use crate::rules::format_identifiers::FormatIdentifiers;
pub use crate::token::{KeywordKind, Token, TokenType};
pub use crate::traits::{LogicalLineFileFormatter, LogicalLineParser};
