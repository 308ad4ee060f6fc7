//! From a plan to tokens: the input tokens in their order, with the synthesized tokens
//! spliced in where the plan marks them.

use vstd::prelude::*;
use crate::token::{token_views, KeywordKind, Token, TokenType, TokenView};
use crate::wrap::{kept, Mark};

verus! {

/// The token that the engine synthesizes for a mark. It has no place in the source: a
/// single blank separates a keyword from what precedes it, and nothing a `;`.
pub open spec fn synthetic(mark: Mark) -> TokenView {
    match mark {
        Mark::Begin => TokenView {
            leading_whitespace: " "@,
            content: "begin"@,
            token_type: TokenType::Keyword(KeywordKind::Begin),
        },
        Mark::End => TokenView {
            leading_whitespace: " "@,
            content: "end"@,
            token_type: TokenType::Keyword(KeywordKind::End),
        },
        _ => TokenView {
            leading_whitespace: ""@,
            content: ";"@,
            token_type: TokenType::Semicolon,
        },
    }
}

/// The token at position `j` of the result: for `Keep` the input token that as many
/// `Keep` marks precede, for every other mark the synthesized token.
pub open spec fn rendered_token(tokens: Seq<TokenView>, marks: Seq<Mark>, j: int) -> TokenView {
    if marks[j] == Mark::Keep {
        tokens[kept(marks.take(j))]
    } else {
        synthetic(marks[j])
    }
}

/// The tokens that a plan stands for.
pub open spec fn render(tokens: Seq<TokenView>, marks: Seq<Mark>) -> Seq<TokenView> {
    Seq::new(marks.len(), |j: int| rendered_token(tokens, marks, j))
}

/// No prefix of a plan stands for more input tokens than the plan.
pub proof fn lemma_kept_prefix(marks: Seq<Mark>, j: int)
    requires
        0 <= j <= marks.len(),
    ensures
        0 <= kept(marks.take(j)) <= kept(marks),
        j < marks.len() ==> kept(marks.take(j + 1)) == kept(marks.take(j)) + if marks[j]
            == Mark::Keep {
            1int
        } else {
            0int
        },
    decreases marks.len() - j,
{
    lemma_kept_nonnegative(marks.take(j));
    if j < marks.len() {
        lemma_kept_prefix(marks, j + 1);
        assert(marks.take(j + 1).drop_last() =~= marks.take(j));
    } else {
        assert(marks.take(j) =~= marks);
    }
}

/// Marks stand for no fewer than zero input tokens, and for no more than there are marks.
pub proof fn lemma_kept_nonnegative(marks: Seq<Mark>)
    ensures
        0 <= kept(marks) <= marks.len(),
    decreases marks.len(),
{
    if marks.len() > 0 {
        lemma_kept_nonnegative(marks.drop_last());
    }
}

/// The synthesized token for a mark other than `Keep`.
pub fn synthesize(mark: Mark) -> (token: Token)
    requires
        mark != Mark::Keep,
    ensures
        token@ == synthetic(mark),
{
    match mark {
        Mark::Begin => Token::new(
            " ".to_owned(),
            "begin".to_owned(),
            TokenType::Keyword(KeywordKind::Begin),
        ),
        Mark::End => Token::new(
            " ".to_owned(),
            "end".to_owned(),
            TokenType::Keyword(KeywordKind::End),
        ),
        _ => Token::new("".to_owned(), ";".to_owned(), TokenType::Semicolon),
    }
}

/// Carries out a plan: moves the input tokens into the result in their order and puts
/// the synthesized tokens where the plan marks them.
pub fn render_tokens(tokens: Vec<Token>, marks: &Vec<Mark>) -> (out: Vec<Token>)
    requires
        kept(marks@) <= tokens.len(),
    ensures
        token_views(out@) == render(token_views(tokens@), marks@),
{
    let ghost input = token_views(tokens@);
    let mut tokens = tokens;
    let mut out: Vec<Token> = Vec::new();
    let mut i: usize = 0;
    let mut j: usize = 0;
    while j < marks.len()
        invariant
            j <= marks.len(),
            i == kept(marks@.take(j as int)),
            kept(marks@) <= tokens.len(),
            tokens.len() == input.len(),
            forall|k: int| i <= k < tokens.len() ==> (#[trigger] tokens[k])@ == input[k],
            token_views(out@) == render(input, marks@).take(j as int),
        decreases marks.len() - j,
    {
        proof {
            lemma_kept_prefix(marks@, j as int);
            lemma_kept_prefix(marks@, j + 1);
        }
        let ghost before = token_views(out@);
        if marks[j] == Mark::Keep {
            let mut token = Token::new(String::new(), String::new(), TokenType::Eof);
            core::mem::swap(&mut tokens[i], &mut token);
            out.push(token);
            i += 1;
        } else {
            out.push(synthesize(marks[j]));
        }
        assert(token_views(out@) =~= before.push(rendered_token(input, marks@, j as int)));
        assert(token_views(out@) =~= render(input, marks@).take(j + 1));
        j += 1;
    }
    assert(render(input, marks@).take(j as int) =~= render(input, marks@));
    out
}

} // verus!
