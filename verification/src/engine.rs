//! The wrapping engine: the scanner that computes the plan.

use vstd::prelude::*;
use crate::defaults::parser::DelphiLogicalLineParser;
use crate::role::Role;
use crate::wrap::{
    anchor, branch, branches, construct, is_single_statement, keep, scan, skip_filler, wrapped,
    Mark, Mode, Scan, Stop,
};
use crate::wrap_laws::{
    lemma_branch_extent, lemma_branches_extent, lemma_construct_extent, lemma_scan_extent,
};

verus! {

/// The outcome of a scan.
#[derive(Debug)]
pub struct Scanned {
    /// The marks for the tokens that the scan covered.
    pub marks: Vec<Mark>,
    /// The position behind the last token that the scan covered.
    pub end: usize,
    /// How the scan stopped.
    pub stop: Stop,
}

impl View for Scanned {
    type V = Scan;

    open spec fn view(&self) -> Scan {
        Scan { marks: self.marks@, end: self.end as int, stop: self.stop }
    }
}

/// The position of the controlling keyword of the construct that the keyword at `p` leads,
/// if it has one.
pub fn find_anchor(roles: &Vec<Role>, p: usize) -> (found: Option<usize>)
    requires
        p < roles.len(),
    ensures
        found matches Some(k) ==> anchor(roles@, p as int) == Some(k as int),
        found is None ==> anchor(roles@, p as int) is None,
{
    let wanted = roles[p].awaited();
    let mut k: usize = p + 1;
    while k < roles.len() && roles[k].fills()
        invariant
            p < k <= roles.len(),
            skip_filler(roles@, p + 1) == skip_filler(roles@, k as int),
        decreases roles.len() - k,
    {
        k += 1;
    }
    if k < roles.len() && roles[k] == wanted {
        Some(k)
    } else {
        None
    }
}

/// Marks that keep `n` tokens.
pub fn keep_all(n: usize) -> (marks: Vec<Mark>)
    ensures
        marks@ == keep(n as int),
{
    let mut marks: Vec<Mark> = Vec::new();
    let mut i: usize = 0;
    while i < n
        invariant
            i <= n,
            marks@ == keep(i as int),
        decreases n - i,
    {
        marks.push(Mark::Keep);
        assert(marks@ =~= keep(i + 1));
        i += 1;
    }
    marks
}

impl DelphiLogicalLineParser {
    /// Whether single-statement bodies of the construct led by `head` are wrapped.
    pub fn wraps_construct(&self, head: Role) -> (enabled: bool)
        ensures
            enabled == self.wraps(head),
    {
        match head {
            Role::If => self.wrap_single_statement_if,
            Role::For => self.wrap_single_statement_for,
            Role::While => self.wrap_single_statement_while,
            _ => false,
        }
    }

    /// Scans from `p` in the given mode.
    pub fn scan(&self, roles: &Vec<Role>, mode: Mode, p: usize) -> (found: Scanned)
        requires
            p <= roles.len(),
        ensures
            found@ == scan(roles@, *self, mode, p as int),
        decreases roles.len() - p, 2int,
    {
        let ghost goal = scan(roles@, *self, mode, p as int);
        let mut marks: Vec<Mark> = Vec::new();
        let mut q: usize = p;
        loop
            invariant
                p <= q <= roles.len(),
                goal == scan(roles@, *self, mode, p as int),
                goal.marks == marks@ + scan(roles@, *self, mode, q as int).marks,
                goal.end == scan(roles@, *self, mode, q as int).end,
                goal.stop == scan(roles@, *self, mode, q as int).stop,
            decreases roles.len() - q,
        {
            if q >= roles.len() {
                assert(marks@ + Seq::<Mark>::empty() =~= marks@);
                return Scanned { marks, end: q, stop: Stop::Exhausted };
            }
            let role = roles[q];
            let ghost before = marks@;
            let statement = match mode {
                Mode::Statement { enclosed: _ } => true,
                _ => false,
            };
            let block = match mode {
                Mode::Block => true,
                _ => false,
            };
            let enclosed = match mode {
                Mode::Statement { enclosed } => enclosed,
                Mode::Block => true,
                Mode::Document => false,
            };
            if statement && role == Role::Semicolon {
                marks.push(Mark::Keep);
                assert(before + seq![Mark::Keep] =~= marks@);
                return Scanned { marks, end: q + 1, stop: Stop::Semicolon };
            } else if statement && role == Role::Else {
                assert(marks@ + Seq::<Mark>::empty() =~= marks@);
                return Scanned { marks, end: q, stop: Stop::Else };
            } else if statement && role == Role::Closer {
                assert(marks@ + Seq::<Mark>::empty() =~= marks@);
                return Scanned { marks, end: q, stop: Stop::Closer };
            } else if block && role == Role::Closer {
                marks.push(Mark::Keep);
                assert(before + seq![Mark::Keep] =~= marks@);
                return Scanned { marks, end: q + 1, stop: Stop::Closer };
            } else if role.opens() {
                marks.push(Mark::Keep);
                let mut inner = self.scan(roles, Mode::Block, q + 1);
                proof {
                    lemma_scan_extent(roles@, *self, Mode::Block, q + 1);
                }
                let ghost block = inner@;
                marks.append(&mut inner.marks);
                proof {
                    let rest = scan(roles@, *self, mode, inner.end as int);
                    assert(before + (seq![Mark::Keep] + block.marks + rest.marks) =~= marks@
                        + rest.marks);
                }
                q = inner.end;
            } else {
                let anchored = if role.leads() {
                    find_anchor(roles, q)
                } else {
                    None
                };
                match anchored {
                    Some(k) => {
                        let mut inner = self.construct(roles, enclosed, q, k);
                        proof {
                            lemma_construct_extent(roles@, *self, enclosed, q as int, k as int);
                        }
                        let ghost whole = inner@;
                        marks.append(&mut inner.marks);
                        if statement {
                            return Scanned { marks, end: inner.end, stop: inner.stop };
                        }
                        proof {
                            let rest = scan(roles@, *self, mode, inner.end as int);
                            assert(before + (whole.marks + rest.marks) =~= marks@ + rest.marks);
                        }
                        q = inner.end;
                    },
                    None => {
                        marks.push(Mark::Keep);
                        proof {
                            let rest = scan(roles@, *self, mode, q + 1);
                            assert(before + (seq![Mark::Keep] + rest.marks) =~= marks@
                                + rest.marks);
                        }
                        q += 1;
                    },
                }
            }
        }
    }

    /// The construct whose leading keyword is at `p` and whose controlling keyword is at
    /// `k`.
    pub fn construct(&self, roles: &Vec<Role>, enclosed: bool, p: usize, k: usize) -> (found:
        Scanned)
        requires
            p < k < roles.len(),
        ensures
            found@ == construct(roles@, *self, enclosed, p as int, k as int),
        decreases roles.len() - p, 1int,
    {
        let whole = self.branches(roles, enclosed, p, k);
        if whole.stop == Stop::Exhausted {
            proof {
                lemma_branches_extent(roles@, *self, enclosed, p as int, k as int);
            }
            Scanned { marks: keep_all(whole.end - p), end: whole.end, stop: Stop::Exhausted }
        } else {
            whole
        }
    }

    /// The header of the construct and its branches.
    pub fn branches(&self, roles: &Vec<Role>, enclosed: bool, p: usize, k: usize) -> (found:
        Scanned)
        requires
            p < k < roles.len(),
        ensures
            found@ == branches(roles@, *self, enclosed, p as int, k as int),
        decreases roles.len() - p, 0int,
    {
        let enabled = self.wraps_construct(roles[p]);
        let mut marks = keep_all(k + 1 - p);
        let mut first = self.branch(roles, enabled, false, enclosed, k + 1);
        proof {
            lemma_branch_extent(roles@, *self, enabled, false, enclosed, k + 1);
        }
        let ghost header = marks@;
        let ghost controlled = first@;
        marks.append(&mut first.marks);
        if roles[p] == Role::If && first.stop == Stop::Else {
            marks.push(Mark::Keep);
            let mut second = self.branch(roles, enabled, true, enclosed, first.end + 1);
            let ghost other = second@;
            marks.append(&mut second.marks);
            assert(marks@ =~= header + controlled.marks + seq![Mark::Keep] + other.marks);
            Scanned { marks, end: second.end, stop: second.stop }
        } else {
            Scanned { marks, end: first.end, stop: first.stop }
        }
    }

    /// The branch that starts at `s`, behind a controlling keyword or an `else`.
    pub fn branch(
        &self,
        roles: &Vec<Role>,
        enabled: bool,
        after_else: bool,
        enclosed: bool,
        s: usize,
    ) -> (found: Scanned)
        requires
            s <= roles.len(),
        ensures
            found@ == branch(roles@, *self, enabled, after_else, enclosed, s as int),
        decreases roles.len() - s, 3int,
    {
        let ghost goal = branch(roles@, *self, enabled, after_else, enclosed, s as int);
        let mut marks: Vec<Mark> = Vec::new();
        let mut b: usize = s;
        while b < roles.len() && roles[b] == Role::Trivia
            invariant
                s <= b <= roles.len(),
                goal.marks == marks@ + branch(roles@, *self, enabled, after_else, enclosed, b as int).marks,
                goal.end == branch(roles@, *self, enabled, after_else, enclosed, b as int).end,
                goal.stop == branch(roles@, *self, enabled, after_else, enclosed, b as int).stop,
            decreases roles.len() - b,
        {
            let ghost before = marks@;
            marks.push(Mark::Keep);
            proof {
                let rest = branch(roles@, *self, enabled, after_else, enclosed, b + 1);
                assert(before + (seq![Mark::Keep] + rest.marks) =~= marks@ + rest.marks);
            }
            b += 1;
        }
        let ghost lead = marks@;
        let mut body = self.scan(roles, Mode::Statement { enclosed }, b);
        let ghost single_scan = body@;
        let single = b < roles.len() && roles[b] != Role::Begin && !(after_else && roles[b]
            == Role::If);
        assert(single == is_single_statement(roles@, after_else, b as int));
        let proper = match body.stop {
            Stop::Semicolon => true,
            Stop::Else => true,
            Stop::Closer => enclosed,
            Stop::Exhausted => false,
        };
        if enabled && single && proper {
            marks.push(Mark::Begin);
            marks.append(&mut body.marks);
            marks.push(Mark::End);
            if body.stop == Stop::Else {
                assert(marks@ =~= lead + wrapped(single_scan).marks);
                Scanned { marks, end: body.end, stop: Stop::Else }
            } else {
                marks.push(Mark::Semicolon);
                assert(marks@ =~= lead + wrapped(single_scan).marks);
                Scanned { marks, end: body.end, stop: Stop::Semicolon }
            }
        } else {
            marks.append(&mut body.marks);
            Scanned { marks, end: body.end, stop: body.stop }
        }
    }
}

} // verus!
