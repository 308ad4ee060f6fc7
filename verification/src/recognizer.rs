//! The construct recognizer: where the constructs of the input lie.
//!
//! A construct is an `if` with its `then`, or a `for` or `while` with its `do`. The
//! recognizer reads keyword anchors, `;` and the nesting of blocks, no expressions. Where
//! the bodies lie does not depend on what is to be wrapped: the engine takes its decisions
//! on the bodies that the recognizer finds.

use vstd::prelude::*;
use crate::engine::find_anchor;
use crate::defaults::parser::DelphiLogicalLineParser;
use crate::role::Role;
use crate::wrap::{anchor, branch, construct, scan, Mode, Scan, Stop};
use crate::wrap_laws::{lemma_branch_extent, lemma_construct_extent, lemma_scan_extent, skip_trivia};

verus! {

/// The body of a branch.
#[derive(Clone, Copy, Debug)]
pub struct Body {
    /// The position of its first token that is no trivia.
    pub start: usize,
    /// The position behind its last token; its `;` belongs to it.
    pub end: usize,
    /// Whether it is a block already: its first token is `begin`.
    pub is_block: bool,
    /// How it ends.
    pub stop: Stop,
}

/// The branch behind an `else`.
#[derive(Clone, Copy, Debug)]
pub struct Alternative {
    /// The position of the `else`.
    pub keyword: usize,
    /// The body behind the `else`.
    pub body: Body,
}

/// A recognized construct.
#[derive(Clone, Copy, Debug)]
pub struct Construct {
    /// The position of the controlling keyword, `then` or `do`.
    pub keyword: usize,
    /// The controlled body.
    pub body: Body,
    /// For an `if` whose body stops in front of an `else`: that `else` and its body.
    pub alternative: Option<Alternative>,
}

/// The parser that wraps nothing.
pub open spec fn no_wrapping() -> DelphiLogicalLineParser {
    DelphiLogicalLineParser {
        wrap_single_statement_if: false,
        wrap_single_statement_for: false,
        wrap_single_statement_while: false,
    }
}

/// The statement that is the body of the branch that starts at `s`.
pub open spec fn body_scan(roles: Seq<Role>, s: int) -> Scan {
    scan(roles, no_wrapping(), Mode::Statement { enclosed: false }, skip_trivia(roles, s))
}

/// Whether `body` is the body of the branch that starts at `s`.
pub open spec fn is_body_at(roles: Seq<Role>, s: int, body: Body) -> bool {
    &&& body.start == skip_trivia(roles, s)
    &&& body.end == body_scan(roles, s).end
    &&& body.stop == body_scan(roles, s).stop
    &&& body.is_block == (body.start < roles.len() && roles[body.start as int] == Role::Begin)
}

/// Whether `found` is the construct that the keyword at `p` leads.
pub open spec fn is_construct_at(roles: Seq<Role>, p: int, found: Construct) -> bool {
    &&& anchor(roles, p) == Some(found.keyword as int)
    &&& is_body_at(roles, found.keyword + 1, found.body)
    &&& match found.alternative {
        Some(alternative) => {
            &&& roles[p] == Role::If
            &&& found.body.stop == Stop::Else
            &&& alternative.keyword == found.body.end
            &&& is_body_at(roles, alternative.keyword + 1, alternative.body)
        },
        None => !(roles[p] == Role::If && found.body.stop == Stop::Else),
    }
}

/// Two scans of the same tokens under different configurations stop alike: in the same
/// way, or the one behind the `;` that it synthesized in front of the closer at which the
/// other stopped.
pub open spec fn stops_alike(stop: Stop, plain: Stop) -> bool {
    stop == plain || (stop == Stop::Semicolon && plain == Stop::Closer)
}

/// Two modes of the same kind: both for a statement, both for a block, or both for a
/// document.
pub open spec fn same_kind(mode: Mode, other: Mode) -> bool {
    (mode is Statement <==> other is Statement) && (mode is Block <==> other is Block)
}

/// Where a scan ends does not depend on what is to be wrapped.
pub proof fn lemma_scan_ends_alike(
    roles: Seq<Role>,
    cfg: DelphiLogicalLineParser,
    mode: Mode,
    other: Mode,
    p: int,
)
    requires
        0 <= p <= roles.len(),
        same_kind(mode, other),
    ensures
        scan(roles, cfg, mode, p).end == scan(roles, no_wrapping(), other, p).end,
        stops_alike(scan(roles, cfg, mode, p).stop, scan(roles, no_wrapping(), other, p).stop),
    decreases roles.len() - p, 2int,
{
    let plain = no_wrapping();
    if p >= roles.len() {
    } else if mode is Statement && (roles[p] == Role::Semicolon || roles[p] == Role::Else
        || roles[p] == Role::Closer) {
    } else if mode == Mode::Block && roles[p] == Role::Closer {
    } else if roles[p].is_opener() {
        lemma_scan_extent(roles, cfg, Mode::Block, p + 1);
        lemma_scan_extent(roles, plain, Mode::Block, p + 1);
        lemma_scan_ends_alike(roles, cfg, Mode::Block, Mode::Block, p + 1);
        lemma_scan_ends_alike(roles, cfg, mode, other, scan(roles, cfg, Mode::Block, p + 1).end);
    } else if roles[p].is_head() && anchor(roles, p) is Some {
        let k = anchor(roles, p)->0;
        lemma_construct_extent(roles, cfg, mode.enclosed(), p, k);
        lemma_construct_extent(roles, plain, other.enclosed(), p, k);
        lemma_construct_ends_alike(roles, cfg, mode.enclosed(), other.enclosed(), p, k);
        if !(mode is Statement) {
            lemma_scan_ends_alike(
                roles,
                cfg,
                mode,
                other,
                construct(roles, cfg, mode.enclosed(), p, k).end,
            );
        }
    } else {
        lemma_scan_ends_alike(roles, cfg, mode, other, p + 1);
    }
}

/// Where a construct ends does not depend on what is to be wrapped.
pub proof fn lemma_construct_ends_alike(
    roles: Seq<Role>,
    cfg: DelphiLogicalLineParser,
    enclosed: bool,
    other: bool,
    p: int,
    k: int,
)
    requires
        0 <= p < k < roles.len(),
    ensures
        construct(roles, cfg, enclosed, p, k).end == construct(
            roles,
            no_wrapping(),
            other,
            p,
            k,
        ).end,
        stops_alike(
            construct(roles, cfg, enclosed, p, k).stop,
            construct(roles, no_wrapping(), other, p, k).stop,
        ),
    decreases roles.len() - p, 1int,
{
    let plain = no_wrapping();
    let first = branch(roles, cfg, cfg.wraps(roles[p]), false, enclosed, k + 1);
    lemma_branch_extent(roles, cfg, cfg.wraps(roles[p]), false, enclosed, k + 1);
    lemma_branch_extent(roles, plain, plain.wraps(roles[p]), false, other, k + 1);
    lemma_branch_ends_alike(
        roles,
        cfg,
        cfg.wraps(roles[p]),
        plain.wraps(roles[p]),
        false,
        enclosed,
        other,
        k + 1,
    );
    if roles[p] == Role::If && first.stop == Stop::Else {
        lemma_branch_ends_alike(
            roles,
            cfg,
            cfg.wraps(roles[p]),
            plain.wraps(roles[p]),
            true,
            enclosed,
            other,
            first.end + 1,
        );
    }
}

/// Where a branch ends does not depend on what is to be wrapped.
pub proof fn lemma_branch_ends_alike(
    roles: Seq<Role>,
    cfg: DelphiLogicalLineParser,
    enabled: bool,
    plainly: bool,
    after_else: bool,
    enclosed: bool,
    other: bool,
    s: int,
)
    requires
        0 <= s <= roles.len(),
        !plainly,
    ensures
        branch(roles, cfg, enabled, after_else, enclosed, s).end == branch(
            roles,
            no_wrapping(),
            plainly,
            after_else,
            other,
            s,
        ).end,
        stops_alike(
            branch(roles, cfg, enabled, after_else, enclosed, s).stop,
            branch(roles, no_wrapping(), plainly, after_else, other, s).stop,
        ),
        branch(roles, no_wrapping(), plainly, after_else, other, s).end == body_scan(roles, s).end,
        branch(roles, no_wrapping(), plainly, after_else, other, s).stop == body_scan(
            roles,
            s,
        ).stop,
    decreases roles.len() - s, 3int,
{
    if s < roles.len() && roles[s] == Role::Trivia {
        lemma_branch_ends_alike(roles, cfg, enabled, plainly, after_else, enclosed, other, s + 1);
    } else {
        lemma_scan_ends_alike(
            roles,
            cfg,
            Mode::Statement { enclosed },
            Mode::Statement { enclosed: other },
            s,
        );
        lemma_scan_ends_alike(
            roles,
            no_wrapping(),
            Mode::Statement { enclosed: other },
            Mode::Statement { enclosed: false },
            s,
        );
        lemma_scan_ends_alike(
            roles,
            no_wrapping(),
            Mode::Statement { enclosed: false },
            Mode::Statement { enclosed: other },
            s,
        );
    }
}

/// Whatever is to be wrapped, a branch of the engine covers the body that the recognizer
/// finds: it ends where that body ends.
pub proof fn lemma_branch_covers_body(
    roles: Seq<Role>,
    cfg: DelphiLogicalLineParser,
    enabled: bool,
    after_else: bool,
    enclosed: bool,
    s: int,
)
    requires
        0 <= s <= roles.len(),
    ensures
        branch(roles, cfg, enabled, after_else, enclosed, s).end == body_scan(roles, s).end,
        stops_alike(
            branch(roles, cfg, enabled, after_else, enclosed, s).stop,
            body_scan(roles, s).stop,
        ),
{
    lemma_branch_ends_alike(roles, cfg, enabled, false, after_else, enclosed, false, s);
}

/// The body of the branch that starts at `s`.
pub fn recognize_body(roles: &Vec<Role>, s: usize) -> (body: Body)
    requires
        s <= roles.len(),
    ensures
        is_body_at(roles@, s as int, body),
        s <= body.start <= body.end <= roles.len(),
        body.stop == Stop::Else ==> body.end < roles.len(),
{
    let mut start: usize = s;
    while start < roles.len() && roles[start] == Role::Trivia
        invariant
            s <= start <= roles.len(),
            skip_trivia(roles@, s as int) == skip_trivia(roles@, start as int),
        decreases roles.len() - start,
    {
        start += 1;
    }
    let plain = DelphiLogicalLineParser::default();
    let mode = Mode::Statement { enclosed: false };
    let found = plain.scan(roles, mode, start);
    proof {
        lemma_scan_extent(roles@, plain, mode, start as int);
    }
    Body {
        start,
        end: found.end,
        is_block: start < roles.len() && roles[start] == Role::Begin,
        stop: found.stop,
    }
}

/// The construct that the keyword at `p` leads, if it leads one: if it is `if`, `for` or
/// `while` and has its controlling keyword.
pub fn recognize(roles: &Vec<Role>, p: usize) -> (found: Option<Construct>)
    requires
        p < roles.len(),
    ensures
        found is Some <==> roles[p as int].is_head() && anchor(roles@, p as int) is Some,
        found matches Some(whole) ==> is_construct_at(roles@, p as int, whole),
{
    let role = roles[p];
    if !role.leads() {
        return None;
    }
    match find_anchor(roles, p) {
        None => None,
        Some(keyword) => {
            let body = recognize_body(roles, keyword + 1);
            let alternative = if role == Role::If && body.stop == Stop::Else {
                Some(Alternative { keyword: body.end, body: recognize_body(roles, body.end + 1) })
            } else {
                None
            };
            Some(Construct { keyword, body, alternative })
        },
    }
}

} // verus!
