//! The reconstructor: from tokens back to text.
//!
//! Each token is written with its leading whitespace in front of it. Two things are
//! guarded against, which can happen only around synthesized tokens: a token that follows
//! a line comment without a line break would become part of the comment, and a word that
//! follows a word without whitespace would run into it. The one gets a line break, the
//! other a blank.

use vstd::prelude::*;
use vstd::string::*;
use crate::chars::{is_word, to_chars, word};
use crate::token::{token_views, Token, TokenType, TokenView};

verus! {

/// The characters that end a line.
pub open spec fn is_line_break(c: char) -> bool {
    c == '\n' || c == '\r'
}

/// Whether the whitespace holds a line break.
pub open spec fn has_line_break(whitespace: Seq<char>) -> bool {
    exists|i: int| 0 <= i < whitespace.len() && is_line_break(#[trigger] whitespace[i])
}

/// A comment that runs to the end of its line.
pub open spec fn is_line_comment(token: TokenView) -> bool {
    &&& token.token_type == TokenType::Comment
    &&& token.content.len() >= 2
    &&& token.content[0] == '/'
    &&& token.content[1] == '/'
}

/// Written as they are, `next` would run into `previous`: no whitespace parts them, the
/// one ends and the other starts with a character of a word.
pub open spec fn runs_on(previous: TokenView, next: TokenView) -> bool {
    &&& next.leading_whitespace.len() == 0
    &&& previous.content.len() > 0
    &&& next.content.len() > 0
    &&& is_word(previous.content.last())
    &&& is_word(next.content[0])
}

/// What is written between `previous` and `next`: the leading whitespace of `next`, with
/// a line break in front where `previous` is a line comment and the whitespace holds
/// none, or a blank where `next` would run into `previous`. In front of a token without
/// content nothing is added.
pub open spec fn separation(previous: TokenView, next: TokenView) -> Seq<char> {
    if next.content.len() == 0 {
        next.leading_whitespace
    } else if is_line_comment(previous) && !has_line_break(next.leading_whitespace) {
        seq!['\n'] + next.leading_whitespace
    } else if runs_on(previous, next) {
        seq![' ']
    } else {
        next.leading_whitespace
    }
}

/// What is written in front of `next`, behind `previous` if there is one.
pub open spec fn lead(previous: Option<TokenView>, next: TokenView) -> Seq<char> {
    match previous {
        Some(token) => separation(token, next),
        None => next.leading_whitespace,
    }
}

/// The text of the tokens, written behind `previous` if there is one.
pub open spec fn text_behind(previous: Option<TokenView>, tokens: Seq<TokenView>) -> Seq<char>
    decreases tokens.len(),
{
    if tokens.len() == 0 {
        seq![]
    } else {
        lead(previous, tokens[0]) + tokens[0].content + text_behind(
            Some(tokens[0]),
            tokens.drop_first(),
        )
    }
}

/// The text that the tokens spell.
pub open spec fn text_of(tokens: Seq<TokenView>) -> Seq<char> {
    text_behind(None, tokens)
}

/// The token in front of position `i`, if there is one.
pub open spec fn before(tokens: Seq<TokenView>, i: int) -> Option<TokenView> {
    if 0 < i <= tokens.len() {
        Some(tokens[i - 1])
    } else {
        None
    }
}

/// The text of tokens with one more token behind them.
pub proof fn lemma_text_with_one_more(
    previous: Option<TokenView>,
    tokens: Seq<TokenView>,
    last: TokenView,
)
    ensures
        text_behind(previous, tokens.push(last)) == text_behind(previous, tokens) + lead(
            if tokens.len() == 0 {
                previous
            } else {
                Some(tokens.last())
            },
            last,
        ) + last.content,
    decreases tokens.len(),
{
    let more = tokens.push(last);
    if tokens.len() == 0 {
        assert(more.drop_first() =~= Seq::<TokenView>::empty());
        assert(text_behind(Some(more[0]), more.drop_first()) =~= Seq::<char>::empty());
        assert(text_behind(previous, more) =~= text_behind(previous, tokens) + lead(previous, last)
            + last.content);
    } else {
        let rest = tokens.drop_first();
        lemma_text_with_one_more(Some(tokens[0]), rest, last);
        assert(more.drop_first() =~= rest.push(last));
        if rest.len() > 0 {
            assert(rest.last() == tokens.last());
        }
        assert(text_behind(previous, more) =~= text_behind(previous, tokens) + lead(
            Some(tokens.last()),
            last,
        ) + last.content);
    }
}

/// Whether the text holds a line break.
fn holds_line_break(whitespace: &str) -> (yes: bool)
    ensures
        yes == has_line_break(whitespace@),
{
    let chars = to_chars(whitespace);
    let mut i: usize = 0;
    while i < chars.len()
        invariant
            i <= chars.len(),
            chars@ == whitespace@,
            forall|j: int| 0 <= j < i ==> !is_line_break(#[trigger] chars@[j]),
        decreases chars.len() - i,
    {
        if chars[i] == '\n' || chars[i] == '\r' {
            return true;
        }
        i += 1;
    }
    false
}

/// Whether the token is a comment that runs to the end of its line.
fn line_comment(token: &Token) -> (yes: bool)
    ensures
        yes == is_line_comment(token@),
{
    let content = token.get_content();
    token.get_token_type() == TokenType::Comment && content.unicode_len() >= 2 && content.get_char(
        0,
    ) == '/' && content.get_char(1) == '/'
}

/// Whether `next` would run into `previous`.
fn would_run_on(previous: &Token, next: &Token) -> (yes: bool)
    ensures
        yes == runs_on(previous@, next@),
{
    if next.get_leading_whitespace().unicode_len() != 0 {
        return false;
    }
    let front = previous.get_content();
    let back = next.get_content();
    let n = front.unicode_len();
    n > 0 && back.unicode_len() > 0 && word(front.get_char(n - 1)) && word(back.get_char(0))
}

/// The text that the tokens spell.
pub fn reconstruct(tokens: &Vec<Token>) -> (text: String)
    ensures
        text@ == text_of(token_views(tokens@)),
{
    let ghost all = token_views(tokens@);
    let mut text = String::new();
    let mut i: usize = 0;
    while i < tokens.len()
        invariant
            i <= tokens.len(),
            all == token_views(tokens@),
            text@ == text_of(all.take(i as int)),
        decreases tokens.len() - i,
    {
        let ghost written = text@;
        let next = &tokens[i];
        if i > 0 && next.get_content().unicode_len() > 0 {
            let previous = &tokens[i - 1];
            if line_comment(previous) && !holds_line_break(next.get_leading_whitespace()) {
                text.append("\n");
                text.append(next.get_leading_whitespace());
            } else if would_run_on(previous, next) {
                text.append(" ");
            } else {
                text.append(next.get_leading_whitespace());
            }
        } else {
            text.append(next.get_leading_whitespace());
        }
        text.append(next.get_content());
        proof {
            reveal_strlit("\n");
            reveal_strlit(" ");
            let front = all.take(i as int);
            lemma_text_with_one_more(None, front, all[i as int]);
            assert(all.take(i + 1) =~= front.push(all[i as int]));
            assert("\n"@ =~= seq!['\n']);
            assert(" "@ =~= seq![' ']);
            if i > 0 {
                assert(front.last() == all[i - 1]);
            }
            assert(text@ =~= written + lead(before(all, i as int), all[i as int])
                + all[i as int].content);
        }
        i += 1;
    }
    assert(all.take(i as int) =~= all);
    text
}

} // verus!
