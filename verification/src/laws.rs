//! What holds of the parser as a whole.

use vstd::prelude::*;
use crate::lexer::{lemma_lexing_is_lossless, tokens_of};
use crate::reconstruct::text_of;
use crate::balance::{lemma_plan_is_paired, paired};
use crate::line_laws::{
    blocks_introduced, lemma_blocks_are_introduced, lemma_lines_are_shaped, shaped,
};
use crate::lines::{lemma_lines_well_formed, logical_lines, well_formed};
use crate::defaults::parser::DelphiLogicalLineParser;
use crate::placement::{begins_body_at, lemma_plan_begins_bodies};
use crate::render::{lemma_kept_prefix, render, rendered_token, synthetic};
use crate::rewrap::{emit, holds_at, lemma_scan_again};
use crate::role::{role_of, roles_of, Role};
use crate::token::TokenView;
use crate::wrap::{keep, kept, plan, Mark, Mode};
use crate::wrap_laws::{
    fully_wrapped, lemma_kept_keep, lemma_plan_keeps_all_when_disabled,
    lemma_plan_keeps_every_token, lemma_plan_keeps_wrapped, lemma_scan_extent,
};

verus! {

/// The tokens of `result` that stand where the marks say `Keep`, in order.
pub open spec fn kept_part(result: Seq<TokenView>, marks: Seq<Mark>) -> Seq<TokenView>
    decreases marks.len(),
{
    if marks.len() == 0 || result.len() == 0 {
        seq![]
    } else if marks.last() == Mark::Keep {
        kept_part(result.drop_last(), marks.drop_last()).push(result.last())
    } else {
        kept_part(result.drop_last(), marks.drop_last())
    }
}

/// What a prefix of a plan renders, taken at its `Keep` marks, is a prefix of the input.
proof fn lemma_kept_part_of_prefix(tokens: Seq<TokenView>, marks: Seq<Mark>, j: int)
    requires
        0 <= j <= marks.len(),
        kept(marks) <= tokens.len(),
    ensures
        kept_part(render(tokens, marks).take(j), marks.take(j)) == tokens.take(
            kept(marks.take(j)),
        ),
    decreases j,
{
    lemma_kept_prefix(marks, j);
    let result = render(tokens, marks);
    if j == 0 {
        assert(marks.take(0) =~= Seq::<Mark>::empty());
        assert(tokens.take(0) =~= Seq::<TokenView>::empty());
    } else {
        lemma_kept_part_of_prefix(tokens, marks, j - 1);
        lemma_kept_prefix(marks, j - 1);
        assert(result.take(j).drop_last() =~= result.take(j - 1));
        assert(marks.take(j).drop_last() =~= marks.take(j - 1));
        let n = kept(marks.take(j - 1));
        if marks[j - 1] == Mark::Keep {
            assert(result[j - 1] == tokens[n]);
            assert(tokens.take(n + 1) =~= tokens.take(n).push(tokens[n]));
        }
    }
}

/// Wrapping only inserts: the result holds one token for each mark of the plan; the
/// tokens at the `Keep` marks are the tokens of the input, all of them and in their
/// order; and every other token is the `begin`, `end` or `;` that its mark names.
pub proof fn lemma_wrapping_only_inserts(parser: DelphiLogicalLineParser, tokens: Seq<TokenView>)
    ensures
        parser.wrap_tokens(tokens).len() == plan(roles_of(tokens), parser).len(),
        kept_part(parser.wrap_tokens(tokens), plan(roles_of(tokens), parser)) == tokens,
        forall|j: int|
            0 <= j < plan(roles_of(tokens), parser).len() && #[trigger] plan(
                roles_of(tokens),
                parser,
            )[j] != Mark::Keep ==> parser.wrap_tokens(tokens)[j] == synthetic(
                plan(roles_of(tokens), parser)[j],
            ),
{
    let marks = plan(roles_of(tokens), parser);
    lemma_plan_keeps_every_token(roles_of(tokens), parser);
    lemma_kept_part_of_prefix(tokens, marks, marks.len() as int);
    assert(marks.take(marks.len() as int) =~= marks);
    assert(render(tokens, marks).take(marks.len() as int) =~= render(tokens, marks));
    assert(tokens.take(tokens.len() as int) =~= tokens);
}

/// A plan that keeps every token and synthesizes none renders the input itself.
pub proof fn lemma_render_keep(tokens: Seq<TokenView>)
    ensures
        render(tokens, keep(tokens.len() as int)) == tokens,
{
    let marks = keep(tokens.len() as int);
    assert forall|j: int| 0 <= j < tokens.len() implies rendered_token(tokens, marks, j)
        == tokens[j] by {
        assert(marks.take(j) =~= keep(j));
        lemma_kept_keep(j);
    }
    assert(render(tokens, marks) =~= tokens);
}

/// The roles of the rendered tokens are the roles that the plan emits.
pub proof fn lemma_roles_of_rendered(tokens: Seq<TokenView>, marks: Seq<Mark>)
    requires
        kept(marks) <= tokens.len(),
    ensures
        roles_of(render(tokens, marks)) == emit(roles_of(tokens), 0, marks),
{
    assert forall|j: int| 0 <= j < marks.len() implies roles_of(render(tokens, marks))[j] == emit(
        roles_of(tokens),
        0,
        marks,
    )[j] by {
        lemma_kept_prefix(marks, j);
        lemma_kept_prefix(marks, j + 1);
    }
    assert(roles_of(render(tokens, marks)) =~= emit(roles_of(tokens), 0, marks));
}

/// Wrapping is idempotent: in its own result the engine finds nothing left to wrap. It
/// synthesizes no further token, and the logical lines with their levels stay as they
/// are.
pub proof fn lemma_wrapping_is_idempotent(parser: DelphiLogicalLineParser, tokens: Seq<TokenView>)
    ensures
        plan(roles_of(parser.wrap_tokens(tokens)), parser) == keep(
            parser.wrap_tokens(tokens).len() as int,
        ),
        parser.wrap_tokens(parser.wrap_tokens(tokens)) == parser.wrap_tokens(tokens),
        logical_lines(roles_of(parser.wrap_tokens(parser.wrap_tokens(tokens)))) == logical_lines(
            roles_of(parser.wrap_tokens(tokens)),
        ),
{
    let roles = roles_of(tokens);
    let marks = plan(roles, parser);
    let result = parser.wrap_tokens(tokens);
    let again = roles_of(result);
    lemma_plan_keeps_every_token(roles, parser);
    lemma_roles_of_rendered(tokens, marks);
    lemma_scan_extent(roles, parser, Mode::Document, 0);
    assert(holds_at(again, 0, emit(roles, 0, marks)));
    lemma_scan_again(roles, parser, Mode::Document, 0, again, Mode::Document, 0);
    lemma_render_keep(result);
}

/// Input that is fully wrapped by hand comes out as it went in: where every body is a
/// block already, the parser hands out the tokens it was given.
pub proof fn lemma_wrapped_input_is_kept(parser: DelphiLogicalLineParser, tokens: Seq<TokenView>)
    requires
        fully_wrapped(roles_of(tokens)),
    ensures
        parser.wrap_tokens(tokens) == tokens,
{
    lemma_plan_keeps_wrapped(roles_of(tokens), parser);
    lemma_render_keep(tokens);
}

/// The round trip: a text in which every body is a block is lexed, parsed and written out
/// again to the same text, character for character.
pub proof fn lemma_round_trip(parser: DelphiLogicalLineParser, text: Seq<char>)
    requires
        fully_wrapped(roles_of(tokens_of(text))),
    ensures
        text_of(parser.wrap_tokens(tokens_of(text))) == text,
{
    lemma_wrapped_input_is_kept(parser, tokens_of(text));
    lemma_lexing_is_lossless(text);
}

/// The lines that the parser hands out are well formed and shaped, whatever the input:
/// every token of the result belongs to exactly one line, the lines follow the order of
/// the tokens, a `begin` is a line of its own and an `end` starts its line, each line
/// lies at the level of its parent or one level deeper, and a block behind a controlling
/// line has that line as the parent of its opener, at the same level.
pub proof fn lemma_parsed_lines_are_well_formed(
    parser: DelphiLogicalLineParser,
    tokens: Seq<TokenView>,
)
    ensures
        well_formed(
            logical_lines(roles_of(parser.wrap_tokens(tokens))),
            parser.wrap_tokens(tokens).len() as int,
        ),
        shaped(
            roles_of(parser.wrap_tokens(tokens)),
            logical_lines(roles_of(parser.wrap_tokens(tokens))),
        ),
        blocks_introduced(
            roles_of(parser.wrap_tokens(tokens)),
            logical_lines(roles_of(parser.wrap_tokens(tokens))),
        ),
{
    lemma_lines_well_formed(roles_of(parser.wrap_tokens(tokens)));
    lemma_lines_are_shaped(roles_of(parser.wrap_tokens(tokens)));
    lemma_blocks_are_introduced(roles_of(parser.wrap_tokens(tokens)));
}

/// A parser that is to wrap nothing hands out the tokens it was given.
pub proof fn lemma_nothing_enabled_nothing_changed(
    parser: DelphiLogicalLineParser,
    tokens: Seq<TokenView>,
)
    requires
        !parser.wrap_single_statement_if,
        !parser.wrap_single_statement_for,
        !parser.wrap_single_statement_while,
    ensures
        parser.wrap_tokens(tokens) == tokens,
{
    lemma_plan_keeps_all_when_disabled(roles_of(tokens), parser);
    lemma_render_keep(tokens);
}

/// The synthesized tokens of the result come in pairs: the marks of the plan are paired.
pub proof fn lemma_synthesized_tokens_are_paired(
    parser: DelphiLogicalLineParser,
    tokens: Seq<TokenView>,
)
    ensures
        paired(plan(roles_of(tokens), parser)),
{
    lemma_plan_is_paired(roles_of(tokens), parser);
}

/// Comments in front of a body stay in front of the synthesized `begin`: the token behind
/// a synthesized `begin` is never a comment or a directive.
pub proof fn lemma_synthesized_begin_precedes_body(
    parser: DelphiLogicalLineParser,
    tokens: Seq<TokenView>,
)
    ensures
        forall|j: int|
            0 <= j < plan(roles_of(tokens), parser).len() && #[trigger] plan(
                roles_of(tokens),
                parser,
            )[j] == Mark::Begin ==> j + 1 < parser.wrap_tokens(tokens).len() && role_of(
                parser.wrap_tokens(tokens)[j + 1].token_type,
            ) != Role::Trivia,
{
    let roles = roles_of(tokens);
    let marks = plan(roles, parser);
    let result = parser.wrap_tokens(tokens);
    lemma_plan_begins_bodies(roles, parser);
    lemma_plan_keeps_every_token(roles, parser);
    assert forall|j: int| 0 <= j < marks.len() && #[trigger] marks[j] == Mark::Begin implies j + 1
        < result.len() && role_of(result[j + 1].token_type) != Role::Trivia by {
        assert(begins_body_at(roles, 0, marks, j));
        lemma_kept_prefix(marks, j + 1);
        lemma_kept_prefix(marks, j + 2);
    }
}

} // verus!
