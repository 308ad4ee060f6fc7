//! What the statement-wrapping engine does, as a mathematical model.
//!
//! The engine reads the roles of the tokens and answers with a plan: a sequence of marks,
//! one per token of the result. `Keep` stands for the next token of the input, the other
//! marks for a token that the engine synthesizes. A plan can therefore neither drop nor
//! reorder a token of the input.

use vstd::prelude::*;
use crate::defaults::parser::DelphiLogicalLineParser;
use crate::role::Role;

verus! {

/// One token of the result.
#[derive(Clone, Copy, Debug, PartialEq, Eq, Structural)]
pub enum Mark {
    /// The next token of the input, unchanged.
    Keep,
    /// A synthesized `begin`.
    Begin,
    /// A synthesized `end`.
    End,
    /// A synthesized `;`.
    Semicolon,
}

/// Where a scan stops.
#[derive(Clone, Copy, Debug, PartialEq, Eq, Structural)]
pub enum Mode {
    /// One statement: up to and including its `;`, or up to an `else` or a closer that
    /// belongs to whatever encloses the statement. `enclosed` says whether a block is
    /// open around the statement.
    Statement { enclosed: bool },
    /// The inside of a block: up to and including the closer that ends it.
    Block,
    /// The whole input, outside every block.
    Document,
}

impl Mode {
    /// Whether a block is open around what is scanned. A closer matches the opener of
    /// that block; where none is open the closer is unmatched.
    pub open spec fn enclosed(self) -> bool {
        match self {
            Mode::Statement { enclosed } => enclosed,
            Mode::Block => true,
            Mode::Document => false,
        }
    }
}

/// How a scan stopped.
#[derive(Clone, Copy, Debug, PartialEq, Eq, Structural)]
pub enum Stop {
    /// Behind a `;`, be it of the input or synthesized.
    Semicolon,
    /// In front of an `else`.
    Else,
    /// At a closer: in front of it for a statement, behind it for a block.
    Closer,
    /// The input ran out.
    Exhausted,
}

/// The outcome of a scan: the marks for the tokens it covered, the position behind the
/// last token it covered, and how it stopped.
pub ghost struct Scan {
    pub marks: Seq<Mark>,
    pub end: int,
    pub stop: Stop,
}

/// `n` tokens of the input, unchanged.
pub open spec fn keep(n: int) -> Seq<Mark> {
    Seq::new(if n >= 0 { n as nat } else { 0 }, |i: int| Mark::Keep)
}

/// The number of input tokens that the marks stand for.
pub open spec fn kept(marks: Seq<Mark>) -> int
    decreases marks.len(),
{
    if marks.len() == 0 {
        0
    } else {
        kept(marks.drop_last()) + if marks.last() == Mark::Keep { 1int } else { 0int }
    }
}

/// The position of the controlling keyword of the construct that the keyword at `p`
/// leads: the first token behind `p` that is no filler, if it is the keyword waited for.
pub open spec fn anchor(roles: Seq<Role>, p: int) -> Option<int> {
    let k = skip_filler(roles, p + 1);
    if 0 <= p < k < roles.len() && roles[k] == roles[p].anchor() {
        Some(k)
    } else {
        None
    }
}

/// The first position from `p` on that holds no filler, or the length of the input.
pub open spec fn skip_filler(roles: Seq<Role>, p: int) -> int
    decreases roles.len() - p,
{
    if 0 <= p < roles.len() && roles[p].is_filler() {
        skip_filler(roles, p + 1)
    } else {
        p
    }
}

impl DelphiLogicalLineParser {
    /// Whether single-statement bodies of the construct led by `head` are wrapped.
    pub open spec fn wraps(self, head: Role) -> bool {
        match head {
            Role::If => self.wrap_single_statement_if,
            Role::For => self.wrap_single_statement_for,
            Role::While => self.wrap_single_statement_while,
            _ => false,
        }
    }
}

/// Scans from `p` in the given mode.
///
/// Openers start a nested block scan, after which the scan goes on. A leading keyword with
/// its controlling keyword starts a construct; a statement ends where its construct ends.
/// A leading keyword without its controlling keyword is kept like any other token.
///
/// The comparisons of an end with `p` serve the proof that the scan ends; they always
/// hold.
pub open spec fn scan(roles: Seq<Role>, cfg: DelphiLogicalLineParser, mode: Mode, p: int) -> Scan
    decreases roles.len() - p, 2int,
{
    if p < 0 || p >= roles.len() {
        Scan { marks: seq![], end: p, stop: Stop::Exhausted }
    } else if mode is Statement && roles[p] == Role::Semicolon {
        Scan { marks: seq![Mark::Keep], end: p + 1, stop: Stop::Semicolon }
    } else if mode is Statement && roles[p] == Role::Else {
        Scan { marks: seq![], end: p, stop: Stop::Else }
    } else if mode is Statement && roles[p] == Role::Closer {
        Scan { marks: seq![], end: p, stop: Stop::Closer }
    } else if mode == Mode::Block && roles[p] == Role::Closer {
        Scan { marks: seq![Mark::Keep], end: p + 1, stop: Stop::Closer }
    } else if roles[p].is_opener() {
        let inner = scan(roles, cfg, Mode::Block, p + 1);
        if p < inner.end <= roles.len() {
            let rest = scan(roles, cfg, mode, inner.end);
            Scan {
                marks: seq![Mark::Keep] + inner.marks + rest.marks,
                end: rest.end,
                stop: rest.stop,
            }
        } else {
            inner
        }
    } else if roles[p].is_head() && anchor(roles, p) is Some {
        let inner = construct(roles, cfg, mode.enclosed(), p, anchor(roles, p)->0);
        if !(mode is Statement) && p < inner.end <= roles.len() {
            let rest = scan(roles, cfg, mode, inner.end);
            Scan { marks: inner.marks + rest.marks, end: rest.end, stop: rest.stop }
        } else {
            inner
        }
    } else {
        let rest = scan(roles, cfg, mode, p + 1);
        Scan { marks: seq![Mark::Keep] + rest.marks, end: rest.end, stop: rest.stop }
    }
}

/// The construct whose leading keyword is at `p` and whose controlling keyword is at `k`.
///
/// A construct that runs into the end of the input is unterminated, and is kept as it
/// is: nothing is synthesized in it.
pub open spec fn construct(
    roles: Seq<Role>,
    cfg: DelphiLogicalLineParser,
    enclosed: bool,
    p: int,
    k: int,
) -> Scan
    decreases roles.len() - p, 1int,
{
    let whole = branches(roles, cfg, enclosed, p, k);
    if whole.stop == Stop::Exhausted {
        Scan { marks: keep(whole.end - p), end: whole.end, stop: Stop::Exhausted }
    } else {
        whole
    }
}

/// The header of the construct and its branches: the controlled branch and, for an `if`
/// whose branch stops in front of an `else`, that `else` and its branch.
pub open spec fn branches(
    roles: Seq<Role>,
    cfg: DelphiLogicalLineParser,
    enclosed: bool,
    p: int,
    k: int,
) -> Scan
    decreases roles.len() - p, 0int,
{
    if 0 <= p < k < roles.len() {
        let first = branch(roles, cfg, cfg.wraps(roles[p]), false, enclosed, k + 1);
        if roles[p] == Role::If && first.stop == Stop::Else && k < first.end < roles.len() {
            let second = branch(roles, cfg, cfg.wraps(roles[p]), true, enclosed, first.end + 1);
            Scan {
                marks: keep(k + 1 - p) + first.marks + seq![Mark::Keep] + second.marks,
                end: second.end,
                stop: second.stop,
            }
        } else {
            Scan { marks: keep(k + 1 - p) + first.marks, end: first.end, stop: first.stop }
        }
    } else {
        Scan { marks: seq![], end: p, stop: Stop::Exhausted }
    }
}

/// The branch that starts at `s`, behind a controlling keyword or an `else`.
///
/// Trivia in front of the body stays in front of a synthesized `begin`. The body is one
/// statement. It is wrapped where `enabled` holds, unless it is already a block, is the
/// `if` of an `else if` chain, or has no proper end.
pub open spec fn branch(
    roles: Seq<Role>,
    cfg: DelphiLogicalLineParser,
    enabled: bool,
    after_else: bool,
    enclosed: bool,
    s: int,
) -> Scan
    decreases roles.len() - s, 3int,
{
    if 0 <= s < roles.len() && roles[s] == Role::Trivia {
        let rest = branch(roles, cfg, enabled, after_else, enclosed, s + 1);
        Scan { marks: seq![Mark::Keep] + rest.marks, end: rest.end, stop: rest.stop }
    } else {
        let body = scan(roles, cfg, Mode::Statement { enclosed }, s);
        if enabled && is_single_statement(roles, after_else, s) && ends_properly(
            body.stop,
            enclosed,
        ) {
            wrapped(body)
        } else {
            body
        }
    }
}

/// The statement has a proper end: a `;`, an `else`, or the closer of the block around
/// it. A statement that runs into the end of the input, or into a closer that no opener
/// matches, is malformed and left as it is.
pub open spec fn ends_properly(stop: Stop, enclosed: bool) -> bool {
    match stop {
        Stop::Semicolon => true,
        Stop::Else => true,
        Stop::Closer => enclosed,
        Stop::Exhausted => false,
    }
}

/// The body that starts at `s` (no trivia) is a single statement that may be wrapped: it
/// is not already a block, and not the `if` that continues an `else if` chain.
pub open spec fn is_single_statement(roles: Seq<Role>, after_else: bool, s: int) -> bool {
    &&& 0 <= s < roles.len()
    &&& roles[s] != Role::Begin
    &&& !(after_else && roles[s] == Role::If)
}

/// The body between a synthesized `begin` and a synthesized `end`.
///
/// In front of an `else` no `;` may stand, so none follows the `end` there. Everywhere
/// else a `;` follows it, and the statement counts as ended by that `;`.
pub open spec fn wrapped(body: Scan) -> Scan {
    if body.stop == Stop::Else {
        Scan { marks: seq![Mark::Begin] + body.marks + seq![Mark::End], end: body.end, stop: Stop::Else }
    } else {
        Scan {
            marks: seq![Mark::Begin] + body.marks + seq![Mark::End, Mark::Semicolon],
            end: body.end,
            stop: Stop::Semicolon,
        }
    }
}

/// The plan for the whole input.
pub open spec fn plan(roles: Seq<Role>, cfg: DelphiLogicalLineParser) -> Seq<Mark> {
    scan(roles, cfg, Mode::Document, 0).marks
}

} // verus!
