//! The synthesized tokens come in pairs: every synthesized `begin` has its synthesized
//! `end` behind it, the pairs are nested, and a synthesized `;` stands only directly
//! behind a synthesized `end`.

use vstd::prelude::*;
use crate::defaults::parser::DelphiLogicalLineParser;
use crate::role::Role;
use crate::wrap::{
    anchor, branch, branches, construct, keep, plan, scan, wrapped, Mark, Mode, Scan, Stop,
};
use crate::wrap_laws::{lemma_branch_extent, lemma_construct_extent, lemma_scan_extent};

verus! {

/// What a mark adds to the number of blocks that the engine has open.
pub open spec fn weight(mark: Mark) -> int {
    match mark {
        Mark::Begin => 1,
        Mark::End => -1,
        _ => 0,
    }
}

/// Among the first `j` marks, the number of synthesized `begin` less the number of
/// synthesized `end`.
pub open spec fn surplus(marks: Seq<Mark>, j: int) -> int
    decreases j,
{
    if j <= 0 {
        0
    } else {
        surplus(marks, j - 1) + weight(marks[j - 1])
    }
}

/// Among the first `j` marks no synthesized `end` comes before its synthesized `begin`.
pub open spec fn nested(marks: Seq<Mark>, j: int) -> bool
    decreases j,
{
    if j <= 0 {
        true
    } else {
        nested(marks, j - 1) && surplus(marks, j) >= 0
    }
}

/// Among the first `j` marks a synthesized `;` stands only directly behind a synthesized
/// `end`.
pub open spec fn terminators_follow_ends(marks: Seq<Mark>, j: int) -> bool
    decreases j,
{
    if j <= 0 {
        true
    } else {
        terminators_follow_ends(marks, j - 1) && (marks[j - 1] == Mark::Semicolon ==> j >= 2
            && marks[j - 2] == Mark::End)
    }
}

/// The synthesized `begin` and `end` among the marks pair up like brackets, and a
/// synthesized `;` stands only directly behind a synthesized `end`.
pub open spec fn paired(marks: Seq<Mark>) -> bool {
    &&& surplus(marks, marks.len() as int) == 0
    &&& nested(marks, marks.len() as int)
    &&& terminators_follow_ends(marks, marks.len() as int)
}

/// The surplus of marks put one behind the other.
pub proof fn lemma_surplus_concat(front: Seq<Mark>, back: Seq<Mark>, j: int)
    requires
        0 <= j <= front.len() + back.len(),
    ensures
        surplus(front + back, j) == if j <= front.len() {
            surplus(front, j)
        } else {
            surplus(front, front.len() as int) + surplus(back, j - front.len())
        },
    decreases j,
{
    if j > 0 {
        lemma_surplus_concat(front, back, j - 1);
        if j - 1 < front.len() {
            assert((front + back)[j - 1] == front[j - 1]);
        } else {
            assert((front + back)[j - 1] == back[j - 1 - front.len()]);
            assert(surplus(back, 0) == 0);
        }
    }
}

/// What holds of the first marks holds of fewer of them.
proof fn lemma_fewer(marks: Seq<Mark>, n: int, j: int)
    requires
        0 <= j <= n,
    ensures
        nested(marks, n) ==> nested(marks, j),
        terminators_follow_ends(marks, n) ==> terminators_follow_ends(marks, j),
    decreases n - j,
{
    if j < n {
        lemma_fewer(marks, n, j + 1);
    }
}

/// Behind marks with no surplus, marks are nested as they are on their own.
proof fn lemma_nested_concat(front: Seq<Mark>, back: Seq<Mark>, j: int)
    requires
        0 <= j <= front.len() + back.len(),
        surplus(front, front.len() as int) >= 0,
        nested(front, front.len() as int),
        nested(back, back.len() as int),
    ensures
        nested(front + back, j),
    decreases j,
{
    if j > 0 {
        lemma_nested_concat(front, back, j - 1);
        lemma_surplus_concat(front, back, j);
        if j <= front.len() {
            lemma_fewer(front, front.len() as int, j);
        } else {
            lemma_fewer(back, back.len() as int, j - front.len());
        }
    }
}

/// Behind other marks, marks that do not start with `;` keep every `;` behind an `end`.
proof fn lemma_terminators_concat(front: Seq<Mark>, back: Seq<Mark>, j: int)
    requires
        0 <= j <= front.len() + back.len(),
        terminators_follow_ends(front, front.len() as int),
        terminators_follow_ends(back, back.len() as int),
    ensures
        terminators_follow_ends(front + back, j),
    decreases j,
{
    if j > 0 {
        lemma_terminators_concat(front, back, j - 1);
        let whole = front + back;
        if j <= front.len() {
            lemma_fewer(front, front.len() as int, j);
            assert(whole[j - 1] == front[j - 1]);
            if j >= 2 {
                assert(whole[j - 2] == front[j - 2]);
            }
        } else {
            lemma_fewer(back, back.len() as int, j - front.len());
            assert(whole[j - 1] == back[j - 1 - front.len()]);
            if j - front.len() >= 2 {
                assert(whole[j - 2] == back[j - 2 - front.len()]);
            }
        }
    }
}

/// Paired marks behind paired marks are paired.
pub proof fn lemma_paired_concat(front: Seq<Mark>, back: Seq<Mark>)
    requires
        paired(front),
        paired(back),
    ensures
        paired(front + back),
{
    let whole = front + back;
    lemma_surplus_concat(front, back, whole.len() as int);
    lemma_nested_concat(front, back, whole.len() as int);
    lemma_terminators_concat(front, back, whole.len() as int);
}

/// Among kept tokens nothing is synthesized.
proof fn lemma_keep_is_plain(n: int, j: int)
    requires
        0 <= j <= n,
    ensures
        surplus(keep(n), j) == 0,
        nested(keep(n), j),
        terminators_follow_ends(keep(n), j),
    decreases j,
{
    if j > 0 {
        lemma_keep_is_plain(n, j - 1);
    }
}

/// Kept tokens are paired.
pub proof fn lemma_paired_keep(n: int)
    ensures
        paired(keep(n)),
{
    if n >= 0 {
        lemma_keep_is_plain(n, n);
    }
}

/// Behind a synthesized `begin`, nested marks stay nested.
proof fn lemma_opened(body: Seq<Mark>, j: int)
    requires
        0 <= j <= body.len() + 1,
        nested(body, body.len() as int),
        terminators_follow_ends(body, body.len() as int),
    ensures
        surplus(seq![Mark::Begin] + body, j) == if j == 0 {
            0
        } else {
            1 + surplus(body, j - 1)
        },
        nested(seq![Mark::Begin] + body, j),
        terminators_follow_ends(seq![Mark::Begin] + body, j),
    decreases j,
{
    let opened = seq![Mark::Begin] + body;
    if j > 0 {
        lemma_opened(body, j - 1);
        lemma_fewer(body, body.len() as int, j - 1);
        if j >= 2 {
            assert(opened[j - 1] == body[j - 2]);
            assert(surplus(body, j - 1) == surplus(body, j - 2) + weight(body[j - 2]));
            if j >= 3 {
                assert(opened[j - 2] == body[j - 3]);
            }
        } else {
            assert(opened[0] == Mark::Begin);
        }
    }
}

/// Paired marks between a `begin` and an `end` are paired.
pub proof fn lemma_paired_enclosed(body: Seq<Mark>)
    requires
        paired(body),
    ensures
        paired(seq![Mark::Begin] + body + seq![Mark::End]),
{
    let opened = seq![Mark::Begin] + body;
    let whole = opened + seq![Mark::End];
    let n = whole.len() as int;
    lemma_opened(body, opened.len() as int);
    assert(whole[n - 1] == Mark::End);
    assert(surplus(whole, n) == surplus(whole, n - 1) + weight(whole[n - 1]));
    lemma_surplus_concat(opened, seq![Mark::End], n - 1);
    lemma_whole_prefix(opened, seq![Mark::End], n - 1);
}

/// What holds of marks holds of them in front of other marks.
proof fn lemma_whole_prefix(front: Seq<Mark>, back: Seq<Mark>, j: int)
    requires
        0 <= j <= front.len(),
    ensures
        nested(front, j) ==> nested(front + back, j),
        terminators_follow_ends(front, j) ==> terminators_follow_ends(front + back, j),
    decreases j,
{
    if j > 0 {
        lemma_whole_prefix(front, back, j - 1);
        lemma_surplus_concat(front, back, j);
        assert((front + back)[j - 1] == front[j - 1]);
        if j >= 2 {
            assert((front + back)[j - 2] == front[j - 2]);
        }
    }
}

/// A synthesized `;` directly behind marks that end with a synthesized `end` keeps them
/// paired.
pub proof fn lemma_paired_terminated(closed: Seq<Mark>)
    requires
        paired(closed),
        closed.len() > 0,
        closed.last() == Mark::End,
    ensures
        paired(closed + seq![Mark::Semicolon]),
{
    let whole = closed + seq![Mark::Semicolon];
    let n = whole.len() as int;
    assert(whole[n - 1] == Mark::Semicolon);
    assert(whole[n - 2] == Mark::End);
    assert(surplus(whole, n) == surplus(whole, n - 1) + weight(whole[n - 1]));
    lemma_surplus_concat(closed, seq![Mark::Semicolon], n - 1);
    lemma_whole_prefix(closed, seq![Mark::Semicolon], n - 1);
}

/// A body that the engine wrapped is paired if the body itself is.
pub proof fn lemma_paired_wrapped(body: Scan)
    requires
        paired(body.marks),
    ensures
        paired(wrapped(body).marks),
{
    let closed = seq![Mark::Begin] + body.marks + seq![Mark::End];
    lemma_paired_enclosed(body.marks);
    if body.stop != Stop::Else {
        lemma_paired_terminated(closed);
        assert(closed + seq![Mark::Semicolon] =~= seq![Mark::Begin] + body.marks + seq![
            Mark::End,
            Mark::Semicolon,
        ]);
    }
}

/// The marks of a scan are paired.
pub proof fn lemma_scan_paired(roles: Seq<Role>, cfg: DelphiLogicalLineParser, mode: Mode, p: int)
    requires
        0 <= p <= roles.len(),
    ensures
        paired(scan(roles, cfg, mode, p).marks),
    decreases roles.len() - p, 2int,
{
    lemma_paired_keep(0);
    lemma_paired_keep(1);
    assert(keep(0) =~= Seq::<Mark>::empty());
    assert(keep(1) =~= seq![Mark::Keep]);
    if p >= roles.len() {
    } else if mode is Statement && (roles[p] == Role::Semicolon || roles[p] == Role::Else
        || roles[p] == Role::Closer) {
    } else if mode == Mode::Block && roles[p] == Role::Closer {
    } else if roles[p].is_opener() {
        let inner = scan(roles, cfg, Mode::Block, p + 1);
        lemma_scan_extent(roles, cfg, Mode::Block, p + 1);
        lemma_scan_paired(roles, cfg, Mode::Block, p + 1);
        lemma_scan_paired(roles, cfg, mode, inner.end);
        lemma_paired_concat(seq![Mark::Keep], inner.marks);
        lemma_paired_concat(seq![Mark::Keep] + inner.marks, scan(roles, cfg, mode, inner.end).marks);
    } else if roles[p].is_head() && anchor(roles, p) is Some {
        let k = anchor(roles, p)->0;
        let inner = construct(roles, cfg, mode.enclosed(), p, k);
        lemma_construct_extent(roles, cfg, mode.enclosed(), p, k);
        lemma_construct_paired(roles, cfg, mode.enclosed(), p, k);
        if !(mode is Statement) {
            lemma_scan_paired(roles, cfg, mode, inner.end);
            lemma_paired_concat(inner.marks, scan(roles, cfg, mode, inner.end).marks);
        }
    } else {
        lemma_scan_paired(roles, cfg, mode, p + 1);
        lemma_paired_concat(seq![Mark::Keep], scan(roles, cfg, mode, p + 1).marks);
    }
}

/// The marks of a construct are paired.
pub proof fn lemma_construct_paired(
    roles: Seq<Role>,
    cfg: DelphiLogicalLineParser,
    enclosed: bool,
    p: int,
    k: int,
)
    requires
        0 <= p < k < roles.len(),
    ensures
        paired(construct(roles, cfg, enclosed, p, k).marks),
    decreases roles.len() - p, 1int,
{
    let enabled = cfg.wraps(roles[p]);
    let first = branch(roles, cfg, enabled, false, enclosed, k + 1);
    lemma_branch_extent(roles, cfg, enabled, false, enclosed, k + 1);
    lemma_branch_paired(roles, cfg, enabled, false, enclosed, k + 1);
    lemma_paired_keep(branches(roles, cfg, enclosed, p, k).end - p);
    lemma_paired_keep(k + 1 - p);
    lemma_paired_keep(1);
    assert(keep(1) =~= seq![Mark::Keep]);
    lemma_paired_concat(keep(k + 1 - p), first.marks);
    if roles[p] == Role::If && first.stop == Stop::Else {
        let second = branch(roles, cfg, enabled, true, enclosed, first.end + 1);
        lemma_branch_paired(roles, cfg, enabled, true, enclosed, first.end + 1);
        lemma_paired_concat(keep(k + 1 - p) + first.marks, seq![Mark::Keep]);
        lemma_paired_concat(keep(k + 1 - p) + first.marks + seq![Mark::Keep], second.marks);
    }
}

/// The marks of a branch are paired.
pub proof fn lemma_branch_paired(
    roles: Seq<Role>,
    cfg: DelphiLogicalLineParser,
    enabled: bool,
    after_else: bool,
    enclosed: bool,
    s: int,
)
    requires
        0 <= s <= roles.len(),
    ensures
        paired(branch(roles, cfg, enabled, after_else, enclosed, s).marks),
    decreases roles.len() - s, 3int,
{
    if s < roles.len() && roles[s] == Role::Trivia {
        lemma_branch_paired(roles, cfg, enabled, after_else, enclosed, s + 1);
        lemma_paired_keep(1);
        assert(keep(1) =~= seq![Mark::Keep]);
        lemma_paired_concat(
            seq![Mark::Keep],
            branch(roles, cfg, enabled, after_else, enclosed, s + 1).marks,
        );
    } else {
        let body = scan(roles, cfg, Mode::Statement { enclosed }, s);
        lemma_scan_paired(roles, cfg, Mode::Statement { enclosed }, s);
        lemma_paired_wrapped(body);
    }
}

/// Every plan is paired: every synthesized `begin` has its synthesized `end`, the pairs
/// are nested, and a synthesized `;` stands only directly behind a synthesized `end`.
pub proof fn lemma_plan_is_paired(roles: Seq<Role>, cfg: DelphiLogicalLineParser)
    ensures
        paired(plan(roles, cfg)),
{
    lemma_scan_paired(roles, cfg, Mode::Document, 0);
}

} // verus!
