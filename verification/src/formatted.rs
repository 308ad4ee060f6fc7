//! The tokens as the rules see them: each with the mark that says whether rules must
//! leave it alone, and the toggler that sets the marks.

use vstd::prelude::*;
use vstd::string::*;
use crate::chars::{spells, to_chars};
use crate::token::{token_views, Token, TokenType, TokenView};

verus! {

/// A token and whether rules must leave it alone.
#[derive(Debug)]
pub struct FormattedToken {
    pub token: Token,
    pub ignored: bool,
}

/// The tokens of a file on their way through the rules.
#[derive(Debug)]
pub struct FormattedTokens {
    pub items: Vec<FormattedToken>,
}

impl FormattedTokens {
    /// The tokens, in order.
    pub open spec fn tokens(&self) -> Seq<TokenView> {
        Seq::new(self.items.len() as nat, |i: int| self.items[i].token@)
    }

    /// For each token, whether rules must leave it alone.
    pub open spec fn ignored(&self) -> Seq<bool> {
        Seq::new(self.items.len() as nat, |i: int| self.items[i].ignored)
    }

    /// The tokens without their marks.
    pub fn into_tokens(self) -> (tokens: Vec<Token>)
        ensures
            token_views(tokens@) == self.tokens(),
    {
        let mut tokens: Vec<Token> = Vec::new();
        let ghost all = self.tokens();
        for item in it: self.items
            invariant
                it.seq() == self.items@,
                all == self.tokens(),
                token_views(tokens@) == all.take(it.index()),
        {
            let ghost before = token_views(tokens@);
            tokens.push(item.token);
            assert(token_views(tokens@) =~= before.push(all[it.index()]));
            assert(all.take(it.index() + 1) =~= all.take(it.index()).push(all[it.index()]));
        }
        assert(all.take(self.items.len() as int) =~= all);
        tokens
    }
}

/// A comment that switches formatting off.
pub open spec fn is_switch_off(token: TokenView) -> bool {
    token.token_type == TokenType::Comment && (token.content == "{pasfmt off}"@ || token.content
        == "// pasfmt off"@)
}

/// A comment that switches formatting on again.
pub open spec fn is_switch_on(token: TokenView) -> bool {
    token.token_type == TokenType::Comment && (token.content == "{pasfmt on}"@ || token.content
        == "// pasfmt on"@)
}

/// Whether formatting is switched off behind the first `n` tokens.
pub open spec fn switched_off(tokens: Seq<TokenView>, n: int) -> bool
    decreases n,
{
    if n <= 0 {
        false
    } else if is_switch_off(tokens[n - 1]) {
        true
    } else if is_switch_on(tokens[n - 1]) {
        false
    } else {
        switched_off(tokens, n - 1)
    }
}

/// Whether rules must leave the token at `i` alone: formatting is switched off in front of
/// it, or the token itself switches it off. The comment that switches formatting on again
/// is still left alone.
pub open spec fn is_ignored(tokens: Seq<TokenView>, i: int) -> bool {
    switched_off(tokens, i) || is_switch_off(tokens[i])
}

/// For each token, whether rules must leave it alone.
pub open spec fn toggled(tokens: Seq<TokenView>) -> Seq<bool> {
    Seq::new(tokens.len(), |i: int| is_ignored(tokens, i))
}

/// Marks the tokens between a comment that switches formatting off and the next comment
/// that switches it on, both included.
#[derive(Clone, Copy, Debug)]
pub struct FormattingToggler {}

impl FormattingToggler {
    /// The tokens with their marks.
    pub fn mark(&self, tokens: Vec<Token>) -> (marked: FormattedTokens)
        ensures
            marked.tokens() == token_views(tokens@),
            marked.ignored() == toggled(token_views(tokens@)),
    {
        let ghost all = token_views(tokens@);
        let mut items: Vec<FormattedToken> = Vec::new();
        let mut off = false;
        for token in it: tokens
            invariant
                it.seq() == tokens@,
                all == token_views(tokens@),
                items.len() == it.index(),
                off == switched_off(all, it.index() as int),
                forall|i: int|
                    0 <= i < items.len() ==> (#[trigger] items[i]).token@ == all[i] && items[i].ignored
                        == is_ignored(all, i),
        {
            let mut on = false;
            if token.get_token_type() == TokenType::Comment {
                let content = to_chars(token.get_content());
                if spells(&content, "{pasfmt off}") || spells(&content, "// pasfmt off") {
                    off = true;
                } else if spells(&content, "{pasfmt on}") || spells(&content, "// pasfmt on") {
                    on = true;
                }
            }
            items.push(FormattedToken { token, ignored: off });
            if on {
                off = false;
            }
        }
        let marked = FormattedTokens { items };
        assert(marked.tokens() =~= all);
        assert(marked.ignored() =~= toggled(all));
        marked
    }
}

} // verus!
