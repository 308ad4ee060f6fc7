//! Where a synthesized `begin` stands: directly in front of the body, behind the trivia
//! that precedes the body. The token behind a synthesized `begin` is never trivia.

use vstd::prelude::*;
use crate::defaults::parser::DelphiLogicalLineParser;
use crate::rewrap::lemma_scan_starts_with_keep;
use crate::role::Role;
use crate::wrap::{
    anchor, branch, branches, construct, ends_properly, is_single_statement, keep, kept, plan,
    scan, Mark, Mode, Stop,
};
use crate::wrap_laws::{
    lemma_branch_extent, lemma_branches_extent, lemma_construct_extent, lemma_kept_concat,
    lemma_kept_keep, lemma_kept_one, lemma_scan_extent,
};

verus! {

/// The mark at `j` is no synthesized `begin`, or what follows it is the body: a kept
/// token that is no trivia or, where the body is empty, the synthesized `end`. The first
/// `Keep` among the marks stands for the input token at `p`.
pub open spec fn begins_body_at(roles: Seq<Role>, p: int, marks: Seq<Mark>, j: int) -> bool {
    marks[j] == Mark::Begin ==> j + 1 < marks.len() && (marks[j + 1] == Mark::End || (marks[j + 1]
        == Mark::Keep && roles[p + kept(marks.take(j + 1))] != Role::Trivia))
}

/// Every synthesized `begin` among the marks stands directly in front of its body.
pub open spec fn begins_bodies(roles: Seq<Role>, p: int, marks: Seq<Mark>) -> bool {
    forall|j: int| 0 <= j < marks.len() ==> #[trigger] begins_body_at(roles, p, marks, j)
}

/// Marks put one behind the other keep every synthesized `begin` in front of its body.
pub proof fn lemma_begins_concat(roles: Seq<Role>, p: int, front: Seq<Mark>, back: Seq<Mark>)
    requires
        begins_bodies(roles, p, front),
        begins_bodies(roles, p + kept(front), back),
    ensures
        begins_bodies(roles, p, front + back),
{
    let whole = front + back;
    assert forall|j: int| 0 <= j < whole.len() implies #[trigger] begins_body_at(
        roles,
        p,
        whole,
        j,
    ) by {
        if j < front.len() {
            assert(begins_body_at(roles, p, front, j));
            if front[j] == Mark::Begin {
                assert(whole[j + 1] == front[j + 1]);
                assert(whole.take(j + 1) =~= front.take(j + 1));
            }
        } else {
            let i = j - front.len();
            assert(begins_body_at(roles, p + kept(front), back, i));
            if back[i] == Mark::Begin {
                assert(whole[j + 1] == back[i + 1]);
                assert(whole.take(j + 1) =~= front + back.take(i + 1));
                lemma_kept_concat(front, back.take(i + 1));
            }
        }
    }
}

/// Among kept tokens there is no synthesized `begin`.
pub proof fn lemma_begins_keep(roles: Seq<Role>, p: int, n: int)
    ensures
        begins_bodies(roles, p, keep(n)),
{
    assert forall|j: int| 0 <= j < keep(n).len() implies #[trigger] begins_body_at(
        roles,
        p,
        keep(n),
        j,
    ) by {}
}

/// In the marks of a scan every synthesized `begin` stands directly in front of its body.
pub proof fn lemma_scan_begins(roles: Seq<Role>, cfg: DelphiLogicalLineParser, mode: Mode, p: int)
    requires
        0 <= p <= roles.len(),
    ensures
        begins_bodies(roles, p, scan(roles, cfg, mode, p).marks),
    decreases roles.len() - p, 2int,
{
    lemma_begins_keep(roles, p, 0);
    lemma_begins_keep(roles, p, 1);
    assert(keep(0) =~= Seq::<Mark>::empty());
    assert(keep(1) =~= seq![Mark::Keep]);
    lemma_kept_one(Mark::Keep);
    if p >= roles.len() {
    } else if mode is Statement && (roles[p] == Role::Semicolon || roles[p] == Role::Else
        || roles[p] == Role::Closer) {
    } else if mode == Mode::Block && roles[p] == Role::Closer {
    } else if roles[p].is_opener() {
        let inner = scan(roles, cfg, Mode::Block, p + 1);
        lemma_scan_extent(roles, cfg, Mode::Block, p + 1);
        lemma_scan_begins(roles, cfg, Mode::Block, p + 1);
        lemma_scan_begins(roles, cfg, mode, inner.end);
        lemma_begins_concat(roles, p, seq![Mark::Keep], inner.marks);
        lemma_kept_concat(seq![Mark::Keep], inner.marks);
        lemma_begins_concat(
            roles,
            p,
            seq![Mark::Keep] + inner.marks,
            scan(roles, cfg, mode, inner.end).marks,
        );
    } else if roles[p].is_head() && anchor(roles, p) is Some {
        let k = anchor(roles, p)->0;
        let inner = construct(roles, cfg, mode.enclosed(), p, k);
        lemma_construct_extent(roles, cfg, mode.enclosed(), p, k);
        lemma_construct_begins(roles, cfg, mode.enclosed(), p, k);
        if !(mode is Statement) {
            lemma_scan_begins(roles, cfg, mode, inner.end);
            lemma_begins_concat(roles, p, inner.marks, scan(roles, cfg, mode, inner.end).marks);
        }
    } else {
        lemma_scan_begins(roles, cfg, mode, p + 1);
        lemma_begins_concat(roles, p, seq![Mark::Keep], scan(roles, cfg, mode, p + 1).marks);
    }
}

/// In the marks of a construct every synthesized `begin` stands directly in front of its
/// body.
pub proof fn lemma_construct_begins(
    roles: Seq<Role>,
    cfg: DelphiLogicalLineParser,
    enclosed: bool,
    p: int,
    k: int,
)
    requires
        0 <= p < k < roles.len(),
    ensures
        begins_bodies(roles, p, construct(roles, cfg, enclosed, p, k).marks),
    decreases roles.len() - p, 1int,
{
    let enabled = cfg.wraps(roles[p]);
    let first = branch(roles, cfg, enabled, false, enclosed, k + 1);
    lemma_branches_extent(roles, cfg, enclosed, p, k);
    lemma_branch_extent(roles, cfg, enabled, false, enclosed, k + 1);
    lemma_branch_begins(roles, cfg, enabled, false, enclosed, k + 1);
    lemma_begins_keep(roles, p, branches(roles, cfg, enclosed, p, k).end - p);
    lemma_begins_keep(roles, p, k + 1 - p);
    lemma_kept_keep(k + 1 - p);
    lemma_begins_concat(roles, p, keep(k + 1 - p), first.marks);
    if roles[p] == Role::If && first.stop == Stop::Else {
        let second = branch(roles, cfg, enabled, true, enclosed, first.end + 1);
        lemma_branch_begins(roles, cfg, enabled, true, enclosed, first.end + 1);
        lemma_begins_keep(roles, first.end, 1);
        assert(keep(1) =~= seq![Mark::Keep]);
        lemma_kept_one(Mark::Keep);
        lemma_kept_concat(keep(k + 1 - p), first.marks);
        lemma_begins_concat(roles, p, keep(k + 1 - p) + first.marks, seq![Mark::Keep]);
        lemma_kept_concat(keep(k + 1 - p) + first.marks, seq![Mark::Keep]);
        lemma_begins_concat(
            roles,
            p,
            keep(k + 1 - p) + first.marks + seq![Mark::Keep],
            second.marks,
        );
    }
}

/// In the marks of a branch every synthesized `begin` stands directly in front of its
/// body: the `begin` of the branch itself behind the trivia that precedes the body.
pub proof fn lemma_branch_begins(
    roles: Seq<Role>,
    cfg: DelphiLogicalLineParser,
    enabled: bool,
    after_else: bool,
    enclosed: bool,
    s: int,
)
    requires
        0 <= s <= roles.len(),
    ensures
        begins_bodies(roles, s, branch(roles, cfg, enabled, after_else, enclosed, s).marks),
    decreases roles.len() - s, 3int,
{
    if s < roles.len() && roles[s] == Role::Trivia {
        lemma_branch_begins(roles, cfg, enabled, after_else, enclosed, s + 1);
        lemma_begins_keep(roles, s, 1);
        assert(keep(1) =~= seq![Mark::Keep]);
        lemma_kept_one(Mark::Keep);
        lemma_begins_concat(
            roles,
            s,
            seq![Mark::Keep],
            branch(roles, cfg, enabled, after_else, enclosed, s + 1).marks,
        );
    } else {
        let mode = Mode::Statement { enclosed };
        let body = scan(roles, cfg, mode, s);
        lemma_scan_begins(roles, cfg, mode, s);
        if enabled && is_single_statement(roles, after_else, s) && ends_properly(
            body.stop,
            enclosed,
        ) {
            lemma_scan_starts_with_keep(roles, cfg, mode, s);
            lemma_wrapped_begins(roles, s, body.marks, body.stop != Stop::Else);
        }
    }
}

/// A body between a synthesized `begin` and a synthesized `end`: the `begin` stands
/// directly in front of the body, whose first token is no trivia.
proof fn lemma_wrapped_begins(roles: Seq<Role>, s: int, body: Seq<Mark>, terminated: bool)
    requires
        0 <= s < roles.len(),
        roles[s] != Role::Trivia,
        begins_bodies(roles, s, body),
        body.len() > 0 ==> body[0] == Mark::Keep,
    ensures
        begins_bodies(
            roles,
            s,
            seq![Mark::Begin] + body + if terminated {
                seq![Mark::End, Mark::Semicolon]
            } else {
                seq![Mark::End]
            },
        ),
{
    let tail = if terminated {
        seq![Mark::End, Mark::Semicolon]
    } else {
        seq![Mark::End]
    };
    let opened = seq![Mark::Begin] + body;
    let whole = opened + tail;
    lemma_kept_one(Mark::Begin);
    assert forall|j: int| 0 <= j < whole.len() implies #[trigger] begins_body_at(
        roles,
        s,
        whole,
        j,
    ) by {
        if j == 0 {
            assert(whole.take(1) =~= seq![Mark::Begin]);
            if body.len() > 0 {
                assert(whole[1] == body[0]);
            } else {
                assert(whole[1] == tail[0]);
            }
        } else if j <= body.len() {
            assert(begins_body_at(roles, s, body, j - 1));
            assert(whole[j] == body[j - 1]);
            if body[j - 1] == Mark::Begin {
                assert(whole[j + 1] == body[j]);
                assert(whole.take(j + 1) =~= seq![Mark::Begin] + body.take(j));
                lemma_kept_concat(seq![Mark::Begin], body.take(j));
            }
        } else {
            assert(whole[j] == tail[j - opened.len()]);
        }
    }
}

/// In every plan a synthesized `begin` stands directly in front of the body that it
/// opens, behind the comments that precede the body: what follows it is a token of the
/// input that is no trivia or, where the body is empty, the synthesized `end`.
pub proof fn lemma_plan_begins_bodies(roles: Seq<Role>, cfg: DelphiLogicalLineParser)
    ensures
        begins_bodies(roles, 0, plan(roles, cfg)),
{
    lemma_scan_begins(roles, cfg, Mode::Document, 0);
}

} // verus!
