//! How the logical lines are cut and levelled.
//!
//! An opener, a closer and an `else` stand only at the start of a line; `;`, `begin`,
//! `try`, `repeat` and `asm` stand only at its end. So a `begin` is a line of its own, and
//! an `end` starts the line that closes its block. A line that starts with a closer lies
//! at the level of its parent, and a line that starts with neither an opener nor a closer
//! lies one level deeper than its parent. The opener of a block behind a controlling line
//! has that line as its parent and lies at its level.

use vstd::prelude::*;
use crate::lines::{
    breaks_before, controls, lemma_begin_line_sound, lemma_behind_sound, lemma_end_line_sound,
    lemma_take_sound, logical_lines, nested_well, LineView, Pass,
};
use crate::role::Role;

verus! {

/// Behind a token with this role a line ends, wherever the token stands.
pub open spec fn ends_line(role: Role) -> bool {
    role == Role::Semicolon || role == Role::Begin || role == Role::Opener
}

/// The tokens of a line are cut well: none but the first breaks the line in front of it,
/// and none but the last ends it. Of a line in progress, not `complete`, no token ends
/// the line.
pub open spec fn cut_well(roles: Seq<Role>, tokens: Seq<int>, complete: bool) -> bool {
    &&& forall|t: int| 0 < t < tokens.len() ==> !breaks_before(roles[#[trigger] tokens[t]])
    &&& forall|t: int|
        0 <= t < tokens.len() - (if complete {
            1int
        } else {
            0int
        }) ==> !ends_line(roles[#[trigger] tokens[t]])
}

/// A line with the given first role lies at the right level under its parent: a line
/// that starts with a closer at the level of the parent, a line that starts with neither
/// an opener nor a closer one level deeper.
pub open spec fn levelled(lines: Seq<LineView>, first: Role, level: nat, parent: Option<int>) -> bool {
    match parent {
        Some(q) => {
            &&& first == Role::Closer ==> level == lines[q].level
            &&& !first.is_opener() && first != Role::Closer ==> level == lines[q].level + 1
        },
        None => true,
    }
}

/// The line at `j` is cut well and lies at the right level.
pub open spec fn shaped_at(roles: Seq<Role>, lines: Seq<LineView>, j: int) -> bool {
    &&& cut_well(roles, lines[j].tokens, true)
    &&& levelled(lines, roles[lines[j].tokens[0]], lines[j].level, lines[j].parent)
}

/// All lines are cut well and lie at the right level.
pub open spec fn shaped(roles: Seq<Role>, lines: Seq<LineView>) -> bool {
    forall|j: int| 0 <= j < lines.len() ==> #[trigger] shaped_at(roles, lines, j)
}

/// What holds of the shape of the lines in a state of the pass.
pub open spec fn pass_shaped(roles: Seq<Role>, pass: Pass) -> bool {
    &&& shaped(roles, pass.lines)
    &&& pass.current.len() > 0 ==> cut_well(roles, pass.current, false) && levelled(
        pass.lines,
        roles[pass.current[0]],
        pass.level,
        pass.parent,
    )
}

/// Ending the line in progress keeps the shape.
proof fn lemma_end_line_shaped(roles: Seq<Role>, pass: Pass, n: int)
    requires
        pass.sound(n),
        shaped(roles, pass.lines),
        pass.current.len() > 0 ==> cut_well(roles, pass.current, true) && levelled(
            pass.lines,
            roles[pass.current[0]],
            pass.level,
            pass.parent,
        ),
    ensures
        shaped(roles, pass.end_line().lines),
{
    let ended = pass.end_line();
    if pass.current.len() > 0 {
        assert forall|j: int| 0 <= j < ended.lines.len() implies #[trigger] shaped_at(
            roles,
            ended.lines,
            j,
        ) by {
            if j < pass.lines.len() {
                assert(shaped_at(roles, pass.lines, j));
                assert(ended.lines[j] == pass.lines[j]);
                assert(nested_well(pass.lines, j, pass.lines[j].level, pass.lines[j].parent));
            } else {
                assert(ended.lines[j].tokens == pass.current);
                assert(nested_well(pass.lines, pass.lines.len() as int, pass.level, pass.parent));
            }
        }
    }
}

/// One step keeps the shape.
proof fn lemma_step_shaped(roles: Seq<Role>, pass: Pass, i: int)
    requires
        0 <= i < roles.len(),
        pass.sound(i),
        pass_shaped(roles, pass),
    ensures
        pass_shaped(roles, pass.step(roles, i)),
{
    let role = roles[i];
    let controlled = role.is_opener() && pass.controlling();
    let ended = if breaks_before(role) {
        pass.end_line()
    } else {
        pass
    };
    lemma_end_line_sound(pass, i);
    if breaks_before(role) {
        if pass.current.len() > 0 {
            assert(cut_well(roles, pass.current, false));
            assert(cut_well(roles, pass.current, true));
        }
        lemma_end_line_shaped(roles, pass, i);
    }
    assert(shaped(roles, ended.lines));
    let begun = ended.begin_line(role, controlled);
    lemma_begin_line_sound(ended, role, controlled, i);
    let taken = Pass {
        current: begun.current.push(i),
        after: if role == Role::Trivia {
            begun.after
        } else {
            role
        },
        ..begun
    };
    assert(levelled(taken.lines, roles[taken.current[0]], taken.level, taken.parent)) by {
        if ended.current.len() == 0 {
            assert(taken.current[0] == i);
            if ended.blocks.len() > 0 {
                let top = ended.blocks.len() - 1;
                assert(ended.level_of(ended.blocks[top]) == top);
            }
        } else {
            assert(taken.current[0] == pass.current[0]);
        }
    }
    assert(cut_well(roles, taken.current, true)) by {
        assert forall|t: int| 0 < t < taken.current.len() implies !breaks_before(
            roles[#[trigger] taken.current[t]],
        ) by {
            if t < begun.current.len() {
                assert(taken.current[t] == pass.current[t]);
            }
        }
        assert forall|t: int| 0 <= t < taken.current.len() - 1 implies !ends_line(
            roles[#[trigger] taken.current[t]],
        ) by {
            assert(taken.current[t] == pass.current[t]);
        }
    }
    let opened = if role.is_opener() {
        Pass {
            blocks: taken.blocks.push(
                if controlled {
                    taken.lines.len() - 1
                } else {
                    taken.lines.len() as int
                },
            ),
            ..taken
        }
    } else {
        taken
    };
    if opened.breaks_after(roles, i) {
        lemma_take_sound(pass, roles, i);
        lemma_end_line_shaped(roles, opened, i + 1);
    } else {
        assert(cut_well(roles, opened.current, false)) by {
            assert forall|t: int| 0 <= t < opened.current.len() implies !ends_line(
                roles[#[trigger] opened.current[t]],
            ) by {
                if t < opened.current.len() - 1 {
                    assert(opened.current[t] == pass.current[t]);
                }
            }
        }
    }
}

/// The state behind any number of tokens is shaped.
proof fn lemma_behind_shaped(roles: Seq<Role>, n: nat)
    requires
        n <= roles.len(),
    ensures
        pass_shaped(roles, Pass::behind(roles, n)),
    decreases n,
{
    if n > 0 {
        lemma_behind_shaped(roles, (n - 1) as nat);
        lemma_behind_sound(roles, (n - 1) as nat);
        lemma_step_shaped(roles, Pass::behind(roles, (n - 1) as nat), n - 1);
    }
}

/// The logical lines of any token sequence are cut and levelled as the rules say: an
/// opener, a closer and an `else` stand only at the start of a line, `;`, `begin`, `try`,
/// `repeat` and `asm` only at its end; a line that starts with a closer lies at the level
/// of its parent, and a line that starts with neither an opener nor a closer lies one
/// level deeper than its parent.
pub proof fn lemma_lines_are_shaped(roles: Seq<Role>)
    ensures
        shaped(roles, logical_lines(roles)),
{
    let last = Pass::behind(roles, roles.len());
    lemma_behind_shaped(roles, roles.len());
    if last.current.len() > 0 {
        assert(cut_well(roles, last.current, false));
        assert(cut_well(roles, last.current, true));
    }
    lemma_behind_sound(roles, roles.len());
    lemma_end_line_shaped(roles, last, roles.len() as int);
}

/// The role of the last of the tokens that is no trivia.
pub open spec fn last_significant(roles: Seq<Role>, tokens: Seq<int>) -> Option<Role>
    decreases tokens.len(),
{
    if tokens.len() == 0 {
        None
    } else if roles[tokens.last()] != Role::Trivia {
        Some(roles[tokens.last()])
    } else {
        last_significant(roles, tokens.drop_last())
    }
}

/// The line with these tokens controls the block that follows it: it ends, but for
/// trivia, with `then`, `do` or `else`, and it is not the header of a `case`.
pub open spec fn is_controlling_line(roles: Seq<Role>, tokens: Seq<int>) -> bool {
    &&& tokens.len() > 0
    &&& roles[tokens[0]] != Role::Case
    &&& last_significant(roles, tokens) matches Some(role) && controls(role)
}

/// A line that starts with an opener behind a controlling line has that line as its
/// parent and lies at its level.
pub open spec fn introduced(
    roles: Seq<Role>,
    before: Seq<int>,
    at: int,
    first: Role,
    level: nat,
    above: nat,
    parent: Option<int>,
) -> bool {
    first.is_opener() && is_controlling_line(roles, before) ==> parent == Some(at - 1) && level
        == above
}

/// Every block behind a controlling line is introduced by that line.
pub open spec fn blocks_introduced(roles: Seq<Role>, lines: Seq<LineView>) -> bool {
    forall|j: int|
        0 < j < lines.len() ==> introduced(
            roles,
            lines[j - 1].tokens,
            j,
            roles[(#[trigger] lines[j]).tokens[0]],
            lines[j].level,
            lines[j - 1].level,
            lines[j].parent,
        )
}

/// What the pass knows of the line in progress: how its level goes with the number of
/// open blocks, which was the last of its tokens that is no trivia, and that it is
/// introduced by the line in front of it where that line controls it.
pub open spec fn current_tracked(roles: Seq<Role>, pass: Pass) -> bool {
    &&& pass.current.len() > 0
    &&& last_significant(roles, pass.current) matches Some(role) ==> pass.after == role
    &&& last_significant(roles, pass.current) is None ==> !controls(pass.after)
    &&& pass.lines.len() > 0 ==> introduced(
        roles,
        pass.lines.last().tokens,
        pass.lines.len() as int,
        roles[pass.current[0]],
        pass.level,
        pass.lines.last().level,
        pass.parent,
    )
}

/// The level of the line in progress is the number of open blocks; the header of a
/// `case` lies one level further out than what follows it.
pub open spec fn level_tracked(roles: Seq<Role>, pass: Pass) -> bool {
    pass.level == pass.blocks.len() || (roles[pass.current[0]] == Role::Case && pass.level + 1
        == pass.blocks.len())
}

/// What the pass knows where no line is in progress: the last line ended with the last
/// token that is no trivia, and that token controls nothing.
pub open spec fn idle_tracked(roles: Seq<Role>, pass: Pass) -> bool {
    &&& pass.current.len() == 0
    &&& !controls(pass.after)
    &&& pass.lines.len() > 0 ==> last_significant(roles, pass.lines.last().tokens) == Some(
        pass.after,
    )
}

/// What the pass knows.
pub open spec fn pass_tracked(roles: Seq<Role>, pass: Pass) -> bool {
    &&& blocks_introduced(roles, pass.lines)
    &&& pass.current.len() > 0 ==> current_tracked(roles, pass) && level_tracked(roles, pass)
    &&& pass.current.len() == 0 ==> idle_tracked(roles, pass)
}

/// The last token of a line that is no trivia, with one more token behind the line.
proof fn lemma_last_significant_push(roles: Seq<Role>, tokens: Seq<int>, i: int)
    ensures
        last_significant(roles, tokens.push(i)) == if roles[i] != Role::Trivia {
            Some(roles[i])
        } else {
            last_significant(roles, tokens)
        },
{
    assert(tokens.push(i).drop_last() =~= tokens);
}

/// Ending the line in progress keeps what is known of the lines that have ended.
proof fn lemma_end_line_tracked(roles: Seq<Role>, pass: Pass)
    requires
        blocks_introduced(roles, pass.lines),
        current_tracked(roles, pass),
    ensures
        blocks_introduced(roles, pass.end_line().lines),
        pass.end_line().lines.last().tokens == pass.current,
        pass.end_line().lines.last().level == pass.level,
        pass.end_line().lines.len() == pass.lines.len() + 1,
{
    let ended = pass.end_line();
    assert forall|j: int| 0 < j < ended.lines.len() implies introduced(
        roles,
        ended.lines[j - 1].tokens,
        j,
        roles[(#[trigger] ended.lines[j]).tokens[0]],
        ended.lines[j].level,
        ended.lines[j - 1].level,
        ended.lines[j].parent,
    ) by {
        if j < pass.lines.len() {
            assert(ended.lines[j] == pass.lines[j]);
            assert(ended.lines[j - 1] == pass.lines[j - 1]);
        } else {
            assert(ended.lines[j - 1] == pass.lines.last());
        }
    }
}

/// A token that breaks the line in front of it starts a line that is tracked.
proof fn lemma_take_breaking_tracked(roles: Seq<Role>, pass: Pass, i: int)
    requires
        0 <= i < roles.len(),
        pass_tracked(roles, pass),
        breaks_before(roles[i]),
    ensures
        blocks_introduced(roles, pass.take(roles, i).lines),
        current_tracked(roles, pass.take(roles, i)),
        roles[i] == Role::Begin || roles[i] == Role::Opener || level_tracked(
            roles,
            pass.take(roles, i),
        ),
        pass.take(roles, i).after == roles[i],
        pass.take(roles, i).current == seq![i],
{
    let role = roles[i];
    let controlled = role.is_opener() && pass.controlling();
    let ended = pass.end_line();
    if pass.current.len() > 0 {
        lemma_end_line_tracked(roles, pass);
    }
    let begun = ended.begin_line(role, controlled);
    let taken = pass.take(roles, i);
    assert(begun.current =~= Seq::<int>::empty());
    assert(taken.current =~= seq![i]);
    lemma_last_significant_push(roles, begun.current, i);
    assert(last_significant(roles, taken.current) == Some(role));
    assert(taken.lines == ended.lines);
    if taken.lines.len() > 0 && role.is_opener() && is_controlling_line(
        roles,
        taken.lines.last().tokens,
    ) {
        if pass.current.len() > 0 {
            assert(pass.controlling());
        }
    }
}

/// A token that goes on with the line in progress, or starts a line where none is in
/// progress, leaves the line tracked.
proof fn lemma_take_plain_tracked(roles: Seq<Role>, pass: Pass, i: int)
    requires
        0 <= i < roles.len(),
        pass_tracked(roles, pass),
        !breaks_before(roles[i]),
    ensures
        blocks_introduced(roles, pass.take(roles, i).lines),
        current_tracked(roles, pass.take(roles, i)),
        level_tracked(roles, pass.take(roles, i)),
        roles[i] != Role::Trivia ==> pass.take(roles, i).after == roles[i],
        pass.take(roles, i).current == pass.current.push(i),
{
    let role = roles[i];
    let taken = pass.take(roles, i);
    assert(taken.current =~= pass.current.push(i));
    lemma_last_significant_push(roles, pass.current, i);
    assert(taken.lines == pass.lines);
    if pass.current.len() > 0 {
        assert(taken.current[0] == pass.current[0]);
    } else {
        assert(taken.current[0] == i);
        assert(last_significant(roles, pass.current) is None);
    }
}

/// One step keeps what the pass knows.
proof fn lemma_step_tracked(roles: Seq<Role>, pass: Pass, i: int)
    requires
        0 <= i < roles.len(),
        pass_tracked(roles, pass),
    ensures
        pass_tracked(roles, pass.step(roles, i)),
{
    let taken = pass.take(roles, i);
    if breaks_before(roles[i]) {
        lemma_take_breaking_tracked(roles, pass, i);
    } else {
        lemma_take_plain_tracked(roles, pass, i);
    }
    if taken.breaks_after(roles, i) {
        lemma_end_line_tracked(roles, taken);
        lemma_last_significant_push(roles, taken.current.drop_last(), i);
        assert(taken.current.drop_last().push(i) =~= taken.current);
    }
}

/// The state behind any number of tokens is tracked.
proof fn lemma_behind_tracked(roles: Seq<Role>, n: nat)
    requires
        n <= roles.len(),
    ensures
        pass_tracked(roles, Pass::behind(roles, n)),
    decreases n,
{
    if n > 0 {
        lemma_behind_tracked(roles, (n - 1) as nat);
        lemma_step_tracked(roles, Pass::behind(roles, (n - 1) as nat), n - 1);
    }
}

/// In the logical lines of any token sequence, a block behind a controlling line is
/// introduced by that line: the line of its opener has the controlling line, the line
/// directly in front of it, as its parent and lies at its level.
pub proof fn lemma_blocks_are_introduced(roles: Seq<Role>)
    ensures
        blocks_introduced(roles, logical_lines(roles)),
{
    let last = Pass::behind(roles, roles.len());
    lemma_behind_tracked(roles, roles.len());
    if last.current.len() > 0 {
        lemma_end_line_tracked(roles, last);
    }
}

} // verus!
