//! Laws of the wrapping model: what every plan keeps, where scans end, and which inputs a
//! plan leaves as they are.

use vstd::prelude::*;
use crate::defaults::parser::DelphiLogicalLineParser;
use crate::role::Role;
use crate::wrap::{
    anchor, branch, branches, construct, keep, kept, plan, scan, skip_filler, wrapped, Mark, Mode,
    Scan, Stop,
};

verus! {

/// Marks put one behind the other stand for the input tokens of both.
pub proof fn lemma_kept_concat(a: Seq<Mark>, b: Seq<Mark>)
    ensures
        kept(a + b) == kept(a) + kept(b),
    decreases b.len(),
{
    if b.len() == 0 {
        assert(a + b =~= a);
    } else {
        lemma_kept_concat(a, b.drop_last());
        assert((a + b).drop_last() =~= a + b.drop_last());
        assert((a + b).last() == b.last());
    }
}

/// `keep(n)` stands for `n` input tokens.
pub proof fn lemma_kept_keep(n: int)
    requires
        n >= 0,
    ensures
        kept(keep(n)) == n,
        keep(n).len() == n,
    decreases n,
{
    if n > 0 {
        lemma_kept_keep(n - 1);
        assert(keep(n).drop_last() =~= keep(n - 1));
    }
}

/// One mark stands for one input token if it is `Keep`, and for none otherwise.
pub proof fn lemma_kept_one(m: Mark)
    ensures
        kept(seq![m]) == if m == Mark::Keep { 1int } else { 0int },
{
    assert(seq![m].drop_last() =~= Seq::<Mark>::empty());
    assert(kept(seq![m].drop_last()) == 0);
}

/// Skipping filler moves forward, stays inside the input, passes only filler and stops at
/// a token that is none.
pub proof fn lemma_skip_filler(roles: Seq<Role>, p: int)
    requires
        0 <= p <= roles.len(),
    ensures
        p <= skip_filler(roles, p) <= roles.len(),
        forall|i: int| p <= i < skip_filler(roles, p) ==> (#[trigger] roles[i]).is_filler(),
        skip_filler(roles, p) < roles.len() ==> !roles[skip_filler(roles, p)].is_filler(),
    decreases roles.len() - p,
{
    if p < roles.len() && roles[p].is_filler() {
        lemma_skip_filler(roles, p + 1);
    }
}

/// What holds of the outcome of a scan of one statement, of a construct and of a branch:
/// in front of which token it stopped.
pub open spec fn stops_well(roles: Seq<Role>, r: Scan) -> bool {
    &&& r.stop == Stop::Exhausted ==> r.end == roles.len()
    &&& r.stop == Stop::Else ==> r.end < roles.len() && roles[r.end] == Role::Else
    &&& r.stop == Stop::Closer ==> r.end < roles.len() && roles[r.end] == Role::Closer
}

/// A scan covers the tokens from its start to its end, each once: it ends inside the
/// input, and its marks stand for exactly the tokens between. A statement stops in front
/// of the `else` or closer that ended it; a block stops behind its closer or at the end of
/// the input; a document stops at the end of the input.
pub proof fn lemma_scan_extent(roles: Seq<Role>, cfg: DelphiLogicalLineParser, mode: Mode, p: int)
    requires
        0 <= p <= roles.len(),
    ensures
        p <= scan(roles, cfg, mode, p).end <= roles.len(),
        kept(scan(roles, cfg, mode, p).marks) == scan(roles, cfg, mode, p).end - p,
        scan(roles, cfg, mode, p).stop == Stop::Exhausted ==> scan(roles, cfg, mode, p).end
            == roles.len(),
        mode is Statement ==> stops_well(roles, scan(roles, cfg, mode, p)),
        mode == Mode::Block ==> scan(roles, cfg, mode, p).stop == Stop::Closer || scan(
            roles,
            cfg,
            mode,
            p,
        ).stop == Stop::Exhausted,
        mode == Mode::Document ==> scan(roles, cfg, mode, p).stop == Stop::Exhausted,
        p < roles.len() && !(mode is Statement && (roles[p] == Role::Else || roles[p]
            == Role::Closer)) ==> scan(roles, cfg, mode, p).end > p,
    decreases roles.len() - p, 2int,
{
    if p >= roles.len() {
    } else if mode is Statement && roles[p] == Role::Semicolon {
        lemma_kept_one(Mark::Keep);
    } else if mode is Statement && roles[p] == Role::Else {
    } else if mode is Statement && roles[p] == Role::Closer {
    } else if mode == Mode::Block && roles[p] == Role::Closer {
        lemma_kept_one(Mark::Keep);
    } else if roles[p].is_opener() {
        let inner = scan(roles, cfg, Mode::Block, p + 1);
        lemma_scan_extent(roles, cfg, Mode::Block, p + 1);
        let rest = scan(roles, cfg, mode, inner.end);
        lemma_scan_extent(roles, cfg, mode, inner.end);
        lemma_kept_one(Mark::Keep);
        lemma_kept_concat(seq![Mark::Keep], inner.marks);
        lemma_kept_concat(seq![Mark::Keep] + inner.marks, rest.marks);
    } else if roles[p].is_head() && anchor(roles, p) is Some {
        let k = anchor(roles, p)->0;
        let inner = construct(roles, cfg, mode.enclosed(), p, k);
        lemma_construct_extent(roles, cfg, mode.enclosed(), p, k);
        if !(mode is Statement) {
            let rest = scan(roles, cfg, mode, inner.end);
            lemma_scan_extent(roles, cfg, mode, inner.end);
            lemma_kept_concat(inner.marks, rest.marks);
        }
    } else {
        let rest = scan(roles, cfg, mode, p + 1);
        lemma_scan_extent(roles, cfg, mode, p + 1);
        lemma_kept_one(Mark::Keep);
        lemma_kept_concat(seq![Mark::Keep], rest.marks);
    }
}

/// A construct covers the tokens from its leading keyword to its end, each once, and ends
/// behind its controlling keyword.
pub proof fn lemma_construct_extent(
    roles: Seq<Role>,
    cfg: DelphiLogicalLineParser,
    enclosed: bool,
    p: int,
    k: int,
)
    requires
        0 <= p < k < roles.len(),
    ensures
        k < construct(roles, cfg, enclosed, p, k).end <= roles.len(),
        kept(construct(roles, cfg, enclosed, p, k).marks) == construct(
            roles,
            cfg,
            enclosed,
            p,
            k,
        ).end - p,
        stops_well(roles, construct(roles, cfg, enclosed, p, k)),
        construct(roles, cfg, enclosed, p, k).end == branches(roles, cfg, enclosed, p, k).end,
        construct(roles, cfg, enclosed, p, k).stop == branches(roles, cfg, enclosed, p, k).stop,
    decreases roles.len() - p, 1int,
{
    lemma_branches_extent(roles, cfg, enclosed, p, k);
    lemma_kept_keep(branches(roles, cfg, enclosed, p, k).end - p);
}

/// The header and the branches of a construct cover the tokens from its leading keyword
/// to its end, each once.
pub proof fn lemma_branches_extent(
    roles: Seq<Role>,
    cfg: DelphiLogicalLineParser,
    enclosed: bool,
    p: int,
    k: int,
)
    requires
        0 <= p < k < roles.len(),
    ensures
        k < branches(roles, cfg, enclosed, p, k).end <= roles.len(),
        kept(branches(roles, cfg, enclosed, p, k).marks) == branches(
            roles,
            cfg,
            enclosed,
            p,
            k,
        ).end - p,
        stops_well(roles, branches(roles, cfg, enclosed, p, k)),
    decreases roles.len() - p, 0int,
{
    let enabled = cfg.wraps(roles[p]);
    let first = branch(roles, cfg, enabled, false, enclosed, k + 1);
    lemma_branch_extent(roles, cfg, enabled, false, enclosed, k + 1);
    lemma_kept_keep(k + 1 - p);
    lemma_kept_concat(keep(k + 1 - p), first.marks);
    if roles[p] == Role::If && first.stop == Stop::Else {
        let second = branch(roles, cfg, enabled, true, enclosed, first.end + 1);
        lemma_branch_extent(roles, cfg, enabled, true, enclosed, first.end + 1);
        lemma_kept_one(Mark::Keep);
        lemma_kept_concat(keep(k + 1 - p) + first.marks, seq![Mark::Keep]);
        lemma_kept_concat(keep(k + 1 - p) + first.marks + seq![Mark::Keep], second.marks);
    }
}

/// A branch covers the tokens from its start to its end, each once.
pub proof fn lemma_branch_extent(
    roles: Seq<Role>,
    cfg: DelphiLogicalLineParser,
    enabled: bool,
    after_else: bool,
    enclosed: bool,
    s: int,
)
    requires
        0 <= s <= roles.len(),
    ensures
        s <= branch(roles, cfg, enabled, after_else, enclosed, s).end <= roles.len(),
        kept(branch(roles, cfg, enabled, after_else, enclosed, s).marks) == branch(
            roles,
            cfg,
            enabled,
            after_else,
            enclosed,
            s,
        ).end - s,
        stops_well(roles, branch(roles, cfg, enabled, after_else, enclosed, s)),
    decreases roles.len() - s, 3int,
{
    if s < roles.len() && roles[s] == Role::Trivia {
        let rest = branch(roles, cfg, enabled, after_else, enclosed, s + 1);
        lemma_branch_extent(roles, cfg, enabled, after_else, enclosed, s + 1);
        lemma_kept_one(Mark::Keep);
        lemma_kept_concat(seq![Mark::Keep], rest.marks);
    } else {
        let body = scan(roles, cfg, Mode::Statement { enclosed }, s);
        lemma_scan_extent(roles, cfg, Mode::Statement { enclosed }, s);
        lemma_kept_wrapped(body);
    }
}

/// Wrapping adds no input token and takes none away.
pub proof fn lemma_kept_wrapped(body: Scan)
    ensures
        kept(wrapped(body).marks) == kept(body.marks),
{
    lemma_kept_one(Mark::Begin);
    lemma_kept_one(Mark::End);
    lemma_kept_one(Mark::Semicolon);
    lemma_kept_concat(seq![Mark::Begin], body.marks);
    lemma_kept_concat(seq![Mark::Begin] + body.marks, seq![Mark::End]);
    lemma_kept_concat(seq![Mark::End], seq![Mark::Semicolon]);
    assert(seq![Mark::End, Mark::Semicolon] =~= seq![Mark::End] + seq![Mark::Semicolon]);
    lemma_kept_concat(seq![Mark::Begin] + body.marks, seq![Mark::End, Mark::Semicolon]);
}

/// The first position from `s` on that holds no trivia, or the length of the input.
pub open spec fn skip_trivia(roles: Seq<Role>, s: int) -> int
    decreases roles.len() - s,
{
    if 0 <= s < roles.len() && roles[s] == Role::Trivia {
        skip_trivia(roles, s + 1)
    } else {
        s
    }
}

/// The body that starts at `s` is written as a block: its first token that is no trivia
/// is `begin` or, behind an `else`, the `if` that continues the chain.
pub open spec fn body_is_block(roles: Seq<Role>, after_else: bool, s: int) -> bool {
    let b = skip_trivia(roles, s);
    b < roles.len() ==> roles[b] == Role::Begin || (after_else && roles[b] == Role::If)
}

/// Every body in the input is written as a block: the body of every leading keyword that
/// has its controlling keyword, and the body of every `else`.
pub open spec fn fully_wrapped(roles: Seq<Role>) -> bool {
    &&& forall|p: int|
        0 <= p < roles.len() && (#[trigger] roles[p]).is_head() && anchor(roles, p) is Some
            ==> body_is_block(roles, false, anchor(roles, p)->0 + 1)
    &&& forall|e: int|
        0 <= e < roles.len() && #[trigger] roles[e] == Role::Else ==> body_is_block(
            roles,
            true,
            e + 1,
        )
}

/// The engine has nothing to do: every body is a block already, or no kind of construct
/// is to be wrapped.
pub open spec fn nothing_to_wrap(roles: Seq<Role>, cfg: DelphiLogicalLineParser) -> bool {
    fully_wrapped(roles) || (!cfg.wrap_single_statement_if && !cfg.wrap_single_statement_for
        && !cfg.wrap_single_statement_while)
}

/// Marks that keep one token and then `n` more keep `n + 1` tokens.
proof fn lemma_keep_more(n: int, m: int)
    requires
        n >= 0,
        m >= 0,
    ensures
        keep(n) + keep(m) =~= keep(n + m),
        seq![Mark::Keep] =~= keep(1),
{
}

/// Where the engine has nothing to do a scan synthesizes nothing.
pub proof fn lemma_scan_keeps_wrapped(
    roles: Seq<Role>,
    cfg: DelphiLogicalLineParser,
    mode: Mode,
    p: int,
)
    requires
        nothing_to_wrap(roles, cfg),
        0 <= p <= roles.len(),
    ensures
        scan(roles, cfg, mode, p).marks == keep(scan(roles, cfg, mode, p).end - p),
    decreases roles.len() - p, 2int,
{
    lemma_scan_extent(roles, cfg, mode, p);
    if p >= roles.len() {
        assert(scan(roles, cfg, mode, p).marks =~= keep(0));
    } else if mode is Statement && roles[p] == Role::Semicolon {
        lemma_keep_more(1, 0);
    } else if mode is Statement && roles[p] == Role::Else {
        assert(scan(roles, cfg, mode, p).marks =~= keep(0));
    } else if mode is Statement && roles[p] == Role::Closer {
        assert(scan(roles, cfg, mode, p).marks =~= keep(0));
    } else if mode == Mode::Block && roles[p] == Role::Closer {
        lemma_keep_more(1, 0);
    } else if roles[p].is_opener() {
        let inner = scan(roles, cfg, Mode::Block, p + 1);
        lemma_scan_extent(roles, cfg, Mode::Block, p + 1);
        lemma_scan_keeps_wrapped(roles, cfg, Mode::Block, p + 1);
        let rest = scan(roles, cfg, mode, inner.end);
        lemma_scan_extent(roles, cfg, mode, inner.end);
        lemma_scan_keeps_wrapped(roles, cfg, mode, inner.end);
        lemma_keep_more(1, inner.end - (p + 1));
        lemma_keep_more(inner.end - p, rest.end - inner.end);
    } else if roles[p].is_head() && anchor(roles, p) is Some {
        let k = anchor(roles, p)->0;
        let inner = construct(roles, cfg, mode.enclosed(), p, k);
        lemma_construct_extent(roles, cfg, mode.enclosed(), p, k);
        lemma_construct_keeps_wrapped(roles, cfg, mode.enclosed(), p, k);
        if !(mode is Statement) {
            let rest = scan(roles, cfg, mode, inner.end);
            lemma_scan_extent(roles, cfg, mode, inner.end);
            lemma_scan_keeps_wrapped(roles, cfg, mode, inner.end);
            lemma_keep_more(inner.end - p, rest.end - inner.end);
        }
    } else {
        let rest = scan(roles, cfg, mode, p + 1);
        lemma_scan_extent(roles, cfg, mode, p + 1);
        lemma_scan_keeps_wrapped(roles, cfg, mode, p + 1);
        lemma_keep_more(1, rest.end - (p + 1));
    }
}

/// Where the engine has nothing to do a construct synthesizes nothing.
pub proof fn lemma_construct_keeps_wrapped(
    roles: Seq<Role>,
    cfg: DelphiLogicalLineParser,
    enclosed: bool,
    p: int,
    k: int,
)
    requires
        nothing_to_wrap(roles, cfg),
        0 <= p < k < roles.len(),
        roles[p].is_head(),
        anchor(roles, p) == Some(k),
    ensures
        construct(roles, cfg, enclosed, p, k).marks == keep(
            construct(roles, cfg, enclosed, p, k).end - p,
        ),
    decreases roles.len() - p, 1int,
{
    let enabled = cfg.wraps(roles[p]);
    let first = branch(roles, cfg, enabled, false, enclosed, k + 1);
    lemma_branch_extent(roles, cfg, enabled, false, enclosed, k + 1);
    lemma_branch_keeps_wrapped(roles, cfg, enabled, false, enclosed, k + 1);
    lemma_keep_more(k + 1 - p, first.end - (k + 1));
    if roles[p] == Role::If && first.stop == Stop::Else {
        let second = branch(roles, cfg, enabled, true, enclosed, first.end + 1);
        lemma_branch_extent(roles, cfg, enabled, true, enclosed, first.end + 1);
        lemma_branch_keeps_wrapped(roles, cfg, enabled, true, enclosed, first.end + 1);
        lemma_keep_more(first.end - p, 1);
        lemma_keep_more(first.end + 1 - p, second.end - (first.end + 1));
    }
}

/// Where the engine has nothing to do a branch synthesizes nothing, be it that its body
/// is a block or that its kind of construct is not to be wrapped.
pub proof fn lemma_branch_keeps_wrapped(
    roles: Seq<Role>,
    cfg: DelphiLogicalLineParser,
    enabled: bool,
    after_else: bool,
    enclosed: bool,
    s: int,
)
    requires
        nothing_to_wrap(roles, cfg),
        0 <= s <= roles.len(),
        !enabled || body_is_block(roles, after_else, s),
    ensures
        branch(roles, cfg, enabled, after_else, enclosed, s).marks == keep(
            branch(roles, cfg, enabled, after_else, enclosed, s).end - s,
        ),
    decreases roles.len() - s, 3int,
{
    if s < roles.len() && roles[s] == Role::Trivia {
        let rest = branch(roles, cfg, enabled, after_else, enclosed, s + 1);
        lemma_branch_extent(roles, cfg, enabled, after_else, enclosed, s + 1);
        lemma_branch_keeps_wrapped(roles, cfg, enabled, after_else, enclosed, s + 1);
        lemma_keep_more(1, rest.end - (s + 1));
    } else {
        lemma_scan_keeps_wrapped(roles, cfg, Mode::Statement { enclosed }, s);
    }
}

/// An input whose bodies are all blocks is its own plan: every token is kept and none is
/// synthesized, whatever the configuration.
pub proof fn lemma_plan_keeps_wrapped(roles: Seq<Role>, cfg: DelphiLogicalLineParser)
    requires
        fully_wrapped(roles),
    ensures
        plan(roles, cfg) == keep(roles.len() as int),
{
    lemma_scan_extent(roles, cfg, Mode::Document, 0);
    lemma_scan_keeps_wrapped(roles, cfg, Mode::Document, 0);
}

/// A parser that is to wrap no kind of construct keeps every token and synthesizes none,
/// whatever the input.
pub proof fn lemma_plan_keeps_all_when_disabled(roles: Seq<Role>, cfg: DelphiLogicalLineParser)
    requires
        !cfg.wrap_single_statement_if,
        !cfg.wrap_single_statement_for,
        !cfg.wrap_single_statement_while,
    ensures
        plan(roles, cfg) == keep(roles.len() as int),
{
    lemma_scan_extent(roles, cfg, Mode::Document, 0);
    lemma_scan_keeps_wrapped(roles, cfg, Mode::Document, 0);
}

/// Every plan stands for every token of the input, each once and in order.
pub proof fn lemma_plan_keeps_every_token(roles: Seq<Role>, cfg: DelphiLogicalLineParser)
    ensures
        kept(plan(roles, cfg)) == roles.len(),
{
    lemma_scan_extent(roles, cfg, Mode::Document, 0);
}

} // verus!
