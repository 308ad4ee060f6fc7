//! Wrapping twice is wrapping once.
//!
//! The engine reads its own result as it read the input, construct for construct, and
//! finds every body that it wrapped to be a block. The proof follows the scan of the
//! input and shows, piece by piece, how the scan of the result runs over what the first
//! scan emitted.

use vstd::prelude::*;
use crate::defaults::parser::DelphiLogicalLineParser;
use crate::recognizer::lemma_construct_ends_alike;
use crate::role::Role;
use crate::wrap::{
    anchor, branch, branches, construct, ends_properly, is_single_statement, keep, kept, scan,
    skip_filler, Mark, Mode, Scan, Stop,
};
use crate::wrap_laws::{
    lemma_branch_extent, lemma_branches_extent, lemma_construct_extent, lemma_kept_concat,
    lemma_kept_keep, lemma_kept_one, lemma_scan_extent, lemma_skip_filler,
};

verus! {

/// The role of the token that a mark other than `Keep` stands for.
pub open spec fn synthetic_role(mark: Mark) -> Role {
    match mark {
        Mark::Begin => Role::Begin,
        Mark::End => Role::Closer,
        _ => Role::Semicolon,
    }
}

/// The role at position `j` of what the marks stand for, where the first `Keep` stands
/// for the input token at `p`.
pub open spec fn emitted_role(roles: Seq<Role>, p: int, marks: Seq<Mark>, j: int) -> Role {
    if marks[j] == Mark::Keep {
        roles[p + kept(marks.take(j))]
    } else {
        synthetic_role(marks[j])
    }
}

/// The roles of the tokens that the marks stand for, where the first `Keep` stands for
/// the input token at `p`.
pub open spec fn emit(roles: Seq<Role>, p: int, marks: Seq<Mark>) -> Seq<Role> {
    Seq::new(marks.len(), |j: int| emitted_role(roles, p, marks, j))
}

/// What two runs of marks emit, one behind the other.
pub proof fn lemma_emit_concat(roles: Seq<Role>, p: int, front: Seq<Mark>, back: Seq<Mark>)
    ensures
        emit(roles, p, front + back) == emit(roles, p, front) + emit(
            roles,
            p + kept(front),
            back,
        ),
{
    let whole = front + back;
    assert forall|j: int| 0 <= j < whole.len() implies emit(roles, p, whole)[j] == (emit(
        roles,
        p,
        front,
    ) + emit(roles, p + kept(front), back))[j] by {
        if j < front.len() {
            assert(whole.take(j) =~= front.take(j));
        } else {
            assert(whole.take(j) =~= front + back.take(j - front.len()));
            lemma_kept_concat(front, back.take(j - front.len()));
        }
    }
    assert(emit(roles, p, whole) =~= emit(roles, p, front) + emit(roles, p + kept(front), back));
}

/// Kept tokens emit their own roles.
pub proof fn lemma_emit_keep(roles: Seq<Role>, p: int, n: int)
    requires
        0 <= p,
        0 <= n,
        p + n <= roles.len(),
    ensures
        emit(roles, p, keep(n)) == roles.subrange(p, p + n),
{
    assert forall|j: int| 0 <= j < n implies emit(roles, p, keep(n))[j] == roles[p + j] by {
        assert(keep(n).take(j) =~= keep(j));
        lemma_kept_keep(j);
    }
    assert(emit(roles, p, keep(n)) =~= roles.subrange(p, p + n));
}

/// One mark emits one role.
pub proof fn lemma_emit_one(roles: Seq<Role>, p: int, mark: Mark)
    ensures
        emit(roles, p, seq![mark]) == seq![
            if mark == Mark::Keep {
                roles[p]
            } else {
                synthetic_role(mark)
            },
        ],
{
    assert(seq![mark].take(0) =~= Seq::<Mark>::empty());
    assert(emit(roles, p, seq![mark]) =~= seq![
        if mark == Mark::Keep {
            roles[p]
        } else {
            synthetic_role(mark)
        },
    ]);
}

/// The sequence `other` holds the roles `piece` from position `q` on.
pub open spec fn holds_at(other: Seq<Role>, q: int, piece: Seq<Role>) -> bool {
    &&& 0 <= q
    &&& q + piece.len() <= other.len()
    &&& forall|j: int| 0 <= j < piece.len() ==> other[q + j] == #[trigger] piece[j]
}

/// A sequence that holds two pieces, one behind the other, holds each of them.
pub proof fn lemma_holds_split(other: Seq<Role>, q: int, front: Seq<Role>, back: Seq<Role>)
    requires
        holds_at(other, q, front + back),
    ensures
        holds_at(other, q, front),
        holds_at(other, q + front.len(), back),
{
    let whole = front + back;
    assert forall|j: int| 0 <= j < front.len() implies other[q + j] == #[trigger] front[j] by {
        assert(whole[j] == front[j]);
    }
    assert forall|j: int| 0 <= j < back.len() implies other[q + front.len() + j]
        == #[trigger] back[j] by {
        assert(whole[front.len() + j] == back[j]);
    }
}

/// A scan with marks in front of it.
pub open spec fn behind_marks(marks: Seq<Mark>, rest: Scan) -> Scan {
    Scan { marks: marks + rest.marks, end: rest.end, stop: rest.stop }
}

/// The scan of a block that starts with the statement `first`: the statement, what ended
/// it, and the rest of the block.
pub open spec fn block_with(roles: Seq<Role>, cfg: DelphiLogicalLineParser, first: Scan) -> Scan {
    match first.stop {
        Stop::Semicolon => behind_marks(first.marks, scan(roles, cfg, Mode::Block, first.end)),
        Stop::Closer => Scan {
            marks: first.marks + seq![Mark::Keep],
            end: first.end + 1,
            stop: Stop::Closer,
        },
        Stop::Else => behind_marks(
            first.marks + seq![Mark::Keep],
            scan(roles, cfg, Mode::Block, first.end + 1),
        ),
        Stop::Exhausted => first,
    }
}

/// A block is scanned statement by statement: the scan of a block from `x` on is the scan
/// of the statement at `x`, what ended it, and the scan of the rest of the block.
pub proof fn lemma_block_starts_with_statement(
    roles: Seq<Role>,
    cfg: DelphiLogicalLineParser,
    x: int,
)
    requires
        0 <= x <= roles.len(),
    ensures
        scan(roles, cfg, Mode::Block, x) == block_with(
            roles,
            cfg,
            scan(roles, cfg, Mode::Statement { enclosed: true }, x),
        ),
    decreases roles.len() - x,
{
    let first = scan(roles, cfg, Mode::Statement { enclosed: true }, x);
    let block = scan(roles, cfg, Mode::Block, x);
    lemma_scan_extent(roles, cfg, Mode::Statement { enclosed: true }, x);
    if x >= roles.len() {
    } else if roles[x] == Role::Semicolon {
        assert(block.marks =~= first.marks + scan(roles, cfg, Mode::Block, x + 1).marks);
    } else if roles[x] == Role::Else {
        assert(block.marks =~= first.marks + seq![Mark::Keep] + scan(
            roles,
            cfg,
            Mode::Block,
            x + 1,
        ).marks);
    } else if roles[x] == Role::Closer {
        assert(block.marks =~= first.marks + seq![Mark::Keep]);
    } else if roles[x].is_opener() {
        let inner = scan(roles, cfg, Mode::Block, x + 1);
        lemma_scan_extent(roles, cfg, Mode::Block, x + 1);
        lemma_block_starts_with_statement(roles, cfg, inner.end);
        let rest = scan(roles, cfg, Mode::Statement { enclosed: true }, inner.end);
        let head = seq![Mark::Keep] + inner.marks;
        lemma_marks_behind(roles, cfg, head, rest);
    } else if roles[x].is_head() && anchor(roles, x) is Some {
        let whole = construct(roles, cfg, true, x, anchor(roles, x)->0);
        lemma_construct_extent(roles, cfg, true, x, anchor(roles, x)->0);
        let rest = scan(roles, cfg, Mode::Block, whole.end);
        lemma_scan_extent(roles, cfg, Mode::Block, whole.end);
        if whole.stop == Stop::Else {
            assert(rest.marks =~= seq![Mark::Keep] + scan(
                roles,
                cfg,
                Mode::Block,
                whole.end + 1,
            ).marks);
            assert(block.marks =~= whole.marks + seq![Mark::Keep] + scan(
                roles,
                cfg,
                Mode::Block,
                whole.end + 1,
            ).marks);
        } else if whole.stop == Stop::Exhausted {
            assert(block.marks =~= whole.marks);
        }
    } else {
        lemma_block_starts_with_statement(roles, cfg, x + 1);
        let rest = scan(roles, cfg, Mode::Statement { enclosed: true }, x + 1);
        lemma_marks_behind(roles, cfg, seq![Mark::Keep], rest);
    }
}

/// Marks in front of a statement stay in front of the block that starts with it.
proof fn lemma_marks_behind(
    roles: Seq<Role>,
    cfg: DelphiLogicalLineParser,
    head: Seq<Mark>,
    rest: Scan,
)
    ensures
        behind_marks(head, block_with(roles, cfg, rest)) == block_with(
            roles,
            cfg,
            behind_marks(head, rest),
        ),
{
    let left = behind_marks(head, block_with(roles, cfg, rest));
    let right = block_with(roles, cfg, behind_marks(head, rest));
    assert(left.marks =~= right.marks);
}

/// Filler is kept: a scan that starts at filler keeps it and goes on behind it.
pub proof fn lemma_scan_keeps_filler(
    roles: Seq<Role>,
    cfg: DelphiLogicalLineParser,
    mode: Mode,
    p: int,
)
    requires
        0 <= p <= roles.len(),
    ensures
        scan(roles, cfg, mode, p) == behind_marks(
            keep(skip_filler(roles, p) - p),
            scan(roles, cfg, mode, skip_filler(roles, p)),
        ),
    decreases roles.len() - p,
{
    let k = skip_filler(roles, p);
    lemma_skip_filler(roles, p);
    let here = scan(roles, cfg, mode, p);
    if p < roles.len() && roles[p].is_filler() {
        lemma_scan_keeps_filler(roles, cfg, mode, p + 1);
        lemma_skip_filler(roles, p + 1);
        let rest = scan(roles, cfg, mode, k);
        assert(seq![Mark::Keep] + (keep(k - (p + 1)) + rest.marks) =~= keep(k - p) + rest.marks);
    } else {
        assert(keep(0) + here.marks =~= here.marks);
    }
}

/// A scan emits nothing in front of the first token it keeps: it starts with `Keep`, or
/// it is a statement that stopped where it started.
pub proof fn lemma_scan_starts_with_keep(
    roles: Seq<Role>,
    cfg: DelphiLogicalLineParser,
    mode: Mode,
    p: int,
)
    requires
        0 <= p < roles.len(),
    ensures
        scan(roles, cfg, mode, p).marks.len() > 0 ==> scan(roles, cfg, mode, p).marks[0]
            == Mark::Keep,
        scan(roles, cfg, mode, p).marks.len() == 0 ==> mode is Statement && (roles[p]
            == Role::Else || roles[p] == Role::Closer),
{
    lemma_scan_extent(roles, cfg, mode, p);
    if roles[p].is_opener() {
        lemma_scan_extent(roles, cfg, Mode::Block, p + 1);
    } else if roles[p].is_head() && anchor(roles, p) is Some {
        let k = anchor(roles, p)->0;
        lemma_construct_extent(roles, cfg, mode.enclosed(), p, k);
        lemma_branch_extent(roles, cfg, cfg.wraps(roles[p]), false, mode.enclosed(), k + 1);
        assert(keep(k + 1 - p)[0] == Mark::Keep);
        let whole = construct(roles, cfg, mode.enclosed(), p, k);
        assert(keep(whole.end - p)[0] == Mark::Keep);
        assert(branches(roles, cfg, mode.enclosed(), p, k).marks[0] == Mark::Keep);
        assert(whole.marks[0] == Mark::Keep);
    }
}

/// Skipping filler reads nothing but the filler and the token behind it: two sequences
/// that agree from `p` and `q` on up to the first token that is no filler are skipped
/// alike.
pub proof fn lemma_skip_filler_alike(roles: Seq<Role>, p: int, other: Seq<Role>, q: int, n: int)
    requires
        0 <= p,
        0 <= q,
        0 <= n,
        p + n == skip_filler(roles, p),
        p + n <= roles.len(),
        q + n <= other.len(),
        forall|j: int| 0 <= j < n ==> other[q + j] == #[trigger] roles[p + j],
        q + n < other.len() ==> !other[q + n].is_filler(),
    ensures
        skip_filler(other, q) == q + n,
    decreases n,
{
    lemma_skip_filler(roles, p);
    if n > 0 {
        assert(roles[p].is_filler());
        assert(other[q + 0] == roles[p + 0]);
        assert forall|j: int| 0 <= j < n - 1 implies other[q + 1 + j] == #[trigger] roles[p + 1
            + j] by {
            assert(other[q + (j + 1)] == roles[p + (j + 1)]);
        }
        lemma_skip_filler_alike(roles, p + 1, other, q + 1, n - 1);
    }
}

/// From `p` and `q` on, the two sequences hold the same roles to their ends.
pub open spec fn same_from(roles: Seq<Role>, p: int, other: Seq<Role>, q: int) -> bool {
    &&& 0 <= p <= roles.len()
    &&& 0 <= q <= other.len()
    &&& roles.len() - p == other.len() - q
    &&& forall|j: int| 0 <= j < roles.len() - p ==> other[q + j] == #[trigger] roles[p + j]
}

/// The outcome of a scan, with its end moved by `d` positions.
pub open spec fn moved(found: Scan, d: int) -> Scan {
    Scan { marks: found.marks, end: found.end + d, stop: found.stop }
}

/// Sequences that hold the same roles from `p` and `q` on do so from every later pair
/// of positions on.
proof fn lemma_same_from_later(roles: Seq<Role>, p: int, other: Seq<Role>, q: int, d: int)
    requires
        same_from(roles, p, other, q),
        0 <= d <= roles.len() - p,
    ensures
        same_from(roles, p + d, other, q + d),
        d < roles.len() - p ==> other[q + d] == roles[p + d],
{
    assert forall|j: int| 0 <= j < roles.len() - (p + d) implies other[q + d + j]
        == #[trigger] roles[p + d + j] by {
        assert(other[q + (d + j)] == roles[p + (d + j)]);
    }
    if d < roles.len() - p {
        assert(other[q + d] == roles[p + d]);
    }
}

/// Filler is skipped alike in sequences that hold the same roles.
proof fn lemma_skip_filler_moved(roles: Seq<Role>, p: int, other: Seq<Role>, q: int)
    requires
        same_from(roles, p, other, q),
    ensures
        skip_filler(other, q) == skip_filler(roles, p) + (q - p),
    decreases roles.len() - p,
{
    lemma_same_from_later(roles, p, other, q, 0);
    if p < roles.len() && roles[p].is_filler() {
        lemma_same_from_later(roles, p, other, q, 1);
        lemma_skip_filler_moved(roles, p + 1, other, q + 1);
    }
}

/// A leading keyword finds its controlling keyword alike in sequences that hold the same
/// roles.
proof fn lemma_anchor_moved(roles: Seq<Role>, p: int, other: Seq<Role>, q: int)
    requires
        same_from(roles, p, other, q),
        p < roles.len(),
    ensures
        anchor(roles, p) is Some <==> anchor(other, q) is Some,
        anchor(roles, p) is Some ==> anchor(other, q)->0 == anchor(roles, p)->0 + (q - p),
{
    lemma_same_from_later(roles, p, other, q, 0);
    lemma_same_from_later(roles, p, other, q, 1);
    lemma_skip_filler_moved(roles, p + 1, other, q + 1);
    lemma_skip_filler(roles, p + 1);
    let k = skip_filler(roles, p + 1);
    if k < roles.len() {
        lemma_same_from_later(roles, p, other, q, k - p);
    }
}

/// A scan reads nothing in front of its start: sequences that hold the same roles from
/// `p` and `q` on are scanned alike from there.
pub proof fn lemma_scan_moved(
    roles: Seq<Role>,
    cfg: DelphiLogicalLineParser,
    mode: Mode,
    p: int,
    other: Seq<Role>,
    q: int,
)
    requires
        same_from(roles, p, other, q),
    ensures
        scan(other, cfg, mode, q) == moved(scan(roles, cfg, mode, p), q - p),
    decreases roles.len() - p, 2int,
{
    lemma_same_from_later(roles, p, other, q, 0);
    if p >= roles.len() {
    } else if mode is Statement && (roles[p] == Role::Semicolon || roles[p] == Role::Else
        || roles[p] == Role::Closer) {
    } else if mode == Mode::Block && roles[p] == Role::Closer {
    } else if roles[p].is_opener() {
        let inner = scan(roles, cfg, Mode::Block, p + 1);
        lemma_scan_extent(roles, cfg, Mode::Block, p + 1);
        lemma_same_from_later(roles, p, other, q, 1);
        lemma_scan_moved(roles, cfg, Mode::Block, p + 1, other, q + 1);
        lemma_same_from_later(roles, p, other, q, inner.end - p);
        lemma_scan_moved(roles, cfg, mode, inner.end, other, inner.end + (q - p));
    } else if roles[p].is_head() && anchor(roles, p) is Some {
        let k = anchor(roles, p)->0;
        lemma_anchor_moved(roles, p, other, q);
        let inner = construct(roles, cfg, mode.enclosed(), p, k);
        lemma_construct_extent(roles, cfg, mode.enclosed(), p, k);
        lemma_construct_moved(roles, cfg, mode.enclosed(), p, k, other, q);
        if !(mode is Statement) {
            lemma_same_from_later(roles, p, other, q, inner.end - p);
            lemma_scan_moved(roles, cfg, mode, inner.end, other, inner.end + (q - p));
        }
    } else {
        if roles[p].is_head() {
            lemma_anchor_moved(roles, p, other, q);
        }
        lemma_same_from_later(roles, p, other, q, 1);
        lemma_scan_moved(roles, cfg, mode, p + 1, other, q + 1);
    }
}

/// Sequences that hold the same roles from `p` and `q` on hold the same construct there.
pub proof fn lemma_construct_moved(
    roles: Seq<Role>,
    cfg: DelphiLogicalLineParser,
    enclosed: bool,
    p: int,
    k: int,
    other: Seq<Role>,
    q: int,
)
    requires
        same_from(roles, p, other, q),
        0 <= p < k < roles.len(),
    ensures
        construct(other, cfg, enclosed, q, k + (q - p)) == moved(
            construct(roles, cfg, enclosed, p, k),
            q - p,
        ),
        branches(other, cfg, enclosed, q, k + (q - p)) == moved(
            branches(roles, cfg, enclosed, p, k),
            q - p,
        ),
    decreases roles.len() - p, 1int,
{
    let d = q - p;
    lemma_same_from_later(roles, p, other, q, 0);
    let enabled = cfg.wraps(roles[p]);
    let first = branch(roles, cfg, enabled, false, enclosed, k + 1);
    lemma_branch_extent(roles, cfg, enabled, false, enclosed, k + 1);
    lemma_same_from_later(roles, p, other, q, k + 1 - p);
    lemma_branch_moved(roles, cfg, enabled, false, enclosed, k + 1, other, k + 1 + d);
    if roles[p] == Role::If && first.stop == Stop::Else {
        lemma_same_from_later(roles, p, other, q, first.end + 1 - p);
        lemma_branch_moved(roles, cfg, enabled, true, enclosed, first.end + 1, other, first.end + 1 + d);
    }
}

/// Sequences that hold the same roles from `s` and `q` on hold the same branch there.
pub proof fn lemma_branch_moved(
    roles: Seq<Role>,
    cfg: DelphiLogicalLineParser,
    enabled: bool,
    after_else: bool,
    enclosed: bool,
    s: int,
    other: Seq<Role>,
    q: int,
)
    requires
        same_from(roles, s, other, q),
    ensures
        branch(other, cfg, enabled, after_else, enclosed, q) == moved(
            branch(roles, cfg, enabled, after_else, enclosed, s),
            q - s,
        ),
    decreases roles.len() - s, 3int,
{
    lemma_same_from_later(roles, s, other, q, 0);
    if s < roles.len() && roles[s] == Role::Trivia {
        lemma_same_from_later(roles, s, other, q, 1);
        lemma_branch_moved(roles, cfg, enabled, after_else, enclosed, s + 1, other, q + 1);
    } else {
        lemma_scan_moved(roles, cfg, Mode::Statement { enclosed }, s, other, q);
    }
}

/// What must follow the emitted piece in `other` for a second scan to stop where the
/// first one stopped: `e` is the position behind the piece.
///
/// A scan that ran into the end of the input must do so again. A statement that stopped
/// in front of a closer must find a closer again, and one that stopped in front of an
/// `else` must find that `else`, or the synthesized `end` that was put in front of it.
pub open spec fn resumes(other: Seq<Role>, e: int, mode: Mode, stop: Stop) -> bool {
    match stop {
        Stop::Exhausted => e == other.len(),
        Stop::Semicolon => true,
        Stop::Else => 0 <= e < other.len() && (other[e] == Role::Else || other[e] == Role::Closer),
        Stop::Closer => mode is Statement ==> 0 <= e < other.len() && other[e] == Role::Closer,
    }
}

/// How the second scan stops at `e`, where the first one stopped with `stop`.
pub open spec fn stops_again(other: Seq<Role>, e: int, mode: Mode, stop: Stop) -> Stop {
    if mode is Statement && (stop == Stop::Else || stop == Stop::Closer) {
        if other[e] == Role::Else {
            Stop::Else
        } else {
            Stop::Closer
        }
    } else {
        stop
    }
}

/// The outcome of a second scan over `n` emitted tokens from `q` on: all of them kept.
pub open spec fn settled(other: Seq<Role>, q: int, n: int, mode: Mode, stop: Stop) -> Scan {
    Scan { marks: keep(n), end: q + n, stop: stops_again(other, q + n, mode, stop) }
}

/// The mode of the second scan goes with the mode of the first: it is the same mode, or
/// both scan a statement that did not stop in front of a closer. Whether a block is open
/// around a statement matters only where the statement stops in front of a closer.
pub open spec fn goes_with(again: Mode, mode: Mode, stop: Stop) -> bool {
    again == mode || (again is Statement && mode is Statement && stop != Stop::Closer)
}

/// A leading keyword without its controlling keyword has none in the result either.
proof fn lemma_no_anchor_again(
    roles: Seq<Role>,
    cfg: DelphiLogicalLineParser,
    mode: Mode,
    p: int,
    other: Seq<Role>,
    q: int,
)
    requires
        0 <= p < roles.len(),
        roles[p].is_head(),
        anchor(roles, p) is None,
        holds_at(other, q, emit(roles, p, scan(roles, cfg, mode, p).marks)),
        resumes(
            other,
            q + scan(roles, cfg, mode, p).marks.len(),
            mode,
            scan(roles, cfg, mode, p).stop,
        ),
    ensures
        anchor(other, q) is None,
        other[q] == roles[p],
{
    let here = scan(roles, cfg, mode, p);
    let rest = scan(roles, cfg, mode, p + 1);
    let k = skip_filler(roles, p + 1);
    let last = scan(roles, cfg, mode, k);
    lemma_skip_filler(roles, p + 1);
    lemma_scan_keeps_filler(roles, cfg, mode, p + 1);
    lemma_scan_extent(roles, cfg, mode, k);
    let n = k - p - 1;
    lemma_kept_keep(n + 1);
    assert(here.marks =~= keep(n + 1) + last.marks) by {
        assert(here.marks == seq![Mark::Keep] + rest.marks);
        assert(rest.marks == keep(n) + last.marks);
    }
    lemma_emit_concat(roles, p, keep(n + 1), last.marks);
    lemma_emit_keep(roles, p, n + 1);
    let front = emit(roles, p, keep(n + 1));
    let back = emit(roles, k, last.marks);
    lemma_holds_split(other, q, front, back);
    assert forall|j: int| 0 <= j < n + 1 implies other[q + j] == #[trigger] roles[p + j] by {
        assert(front[j] == roles[p + j]);
    }
    assert(other[q + 0] == roles[p + 0]);
    assert forall|j: int| 0 <= j < n implies other[q + 1 + j] == #[trigger] roles[p + 1 + j] by {
        assert(other[q + (j + 1)] == roles[p + (j + 1)]);
    }
    if k < roles.len() {
        lemma_scan_starts_with_keep(roles, cfg, mode, k);
        if last.marks.len() > 0 {
            assert(last.marks.take(0) =~= Seq::<Mark>::empty());
            assert(back[0] == roles[k]);
            assert(other[q + n + 1 + 0] == back[0]);
        }
    }
    lemma_skip_filler_alike(roles, p + 1, other, q + 1, n);
}

/// The scan of the result runs over what a scan of the input emitted, keeps all of it and
/// stops behind it.
pub proof fn lemma_scan_again(
    roles: Seq<Role>,
    cfg: DelphiLogicalLineParser,
    mode: Mode,
    p: int,
    other: Seq<Role>,
    again: Mode,
    q: int,
)
    requires
        0 <= p <= roles.len(),
        goes_with(again, mode, scan(roles, cfg, mode, p).stop),
        holds_at(other, q, emit(roles, p, scan(roles, cfg, mode, p).marks)),
        resumes(
            other,
            q + scan(roles, cfg, mode, p).marks.len(),
            mode,
            scan(roles, cfg, mode, p).stop,
        ),
    ensures
        scan(other, cfg, again, q) == settled(
            other,
            q,
            scan(roles, cfg, mode, p).marks.len() as int,
            mode,
            scan(roles, cfg, mode, p).stop,
        ),
    decreases roles.len() - p, 4int,
{
    let here = scan(roles, cfg, mode, p);
    let second = scan(other, cfg, again, q);
    let whole = emit(roles, p, here.marks);
    if p >= roles.len() {
        assert(second.marks =~= keep(0));
    } else if mode is Statement && roles[p] == Role::Semicolon {
        lemma_emit_one(roles, p, Mark::Keep);
        assert(other[q + 0] == whole[0]);
        assert(second.marks =~= keep(1));
    } else if mode is Statement && roles[p] == Role::Else {
        assert(second.marks =~= keep(0));
    } else if mode is Statement && roles[p] == Role::Closer {
        assert(second.marks =~= keep(0));
    } else if mode == Mode::Block && roles[p] == Role::Closer {
        lemma_emit_one(roles, p, Mark::Keep);
        assert(other[q + 0] == whole[0]);
        assert(second.marks =~= keep(1));
    } else if roles[p].is_opener() {
        lemma_scan_again_block(roles, cfg, mode, p, other, again, q);
    } else if roles[p].is_head() && anchor(roles, p) is Some {
        lemma_scan_again_construct(roles, cfg, mode, p, other, again, q);
    } else {
        lemma_scan_again_token(roles, cfg, mode, p, other, again, q);
    }
}

/// The second scan over an opener, the block behind it and what follows the block.
proof fn lemma_scan_again_block(
    roles: Seq<Role>,
    cfg: DelphiLogicalLineParser,
    mode: Mode,
    p: int,
    other: Seq<Role>,
    again: Mode,
    q: int,
)
    requires
        0 <= p <= roles.len(),
        goes_with(again, mode, scan(roles, cfg, mode, p).stop),
        holds_at(other, q, emit(roles, p, scan(roles, cfg, mode, p).marks)),
        resumes(
            other,
            q + scan(roles, cfg, mode, p).marks.len(),
            mode,
            scan(roles, cfg, mode, p).stop,
        ),
        p < roles.len(),
        !(mode is Statement && (roles[p] == Role::Semicolon || roles[p] == Role::Else || roles[p]
            == Role::Closer)),
        !(mode == Mode::Block && roles[p] == Role::Closer),
        roles[p].is_opener(),
    ensures
        scan(other, cfg, again, q) == settled(
            other,
            q,
            scan(roles, cfg, mode, p).marks.len() as int,
            mode,
            scan(roles, cfg, mode, p).stop,
        ),
    decreases roles.len() - p, 3int,
{
    let second = scan(other, cfg, again, q);
    let inner = scan(roles, cfg, Mode::Block, p + 1);
    lemma_scan_extent(roles, cfg, Mode::Block, p + 1);
    let rest = scan(roles, cfg, mode, inner.end);
    lemma_scan_extent(roles, cfg, mode, inner.end);
    let n1 = inner.marks.len() as int;
    let n2 = rest.marks.len() as int;
    lemma_kept_one(Mark::Keep);
    lemma_kept_concat(seq![Mark::Keep], inner.marks);
    lemma_emit_concat(roles, p, seq![Mark::Keep] + inner.marks, rest.marks);
    lemma_emit_concat(roles, p, seq![Mark::Keep], inner.marks);
    lemma_emit_one(roles, p, Mark::Keep);
    let o1 = emit(roles, p + 1, inner.marks);
    let o2 = emit(roles, inner.end, rest.marks);
    lemma_holds_split(other, q, seq![roles[p]] + o1, o2);
    lemma_holds_split(other, q, seq![roles[p]], o1);
    assert(other[q + 0] == seq![roles[p]][0]);
    lemma_scan_again(roles, cfg, Mode::Block, p + 1, other, Mode::Block, q + 1);
    lemma_scan_again(roles, cfg, mode, inner.end, other, again, q + 1 + n1);
    assert(second.marks =~= keep(1 + n1 + n2)) by {
        assert(seq![Mark::Keep] + keep(n1) + keep(n2) =~= keep(1 + n1 + n2));
    }
}

/// The second scan over a construct and, in a block or a document, what follows it.
proof fn lemma_scan_again_construct(
    roles: Seq<Role>,
    cfg: DelphiLogicalLineParser,
    mode: Mode,
    p: int,
    other: Seq<Role>,
    again: Mode,
    q: int,
)
    requires
        0 <= p <= roles.len(),
        goes_with(again, mode, scan(roles, cfg, mode, p).stop),
        holds_at(other, q, emit(roles, p, scan(roles, cfg, mode, p).marks)),
        resumes(
            other,
            q + scan(roles, cfg, mode, p).marks.len(),
            mode,
            scan(roles, cfg, mode, p).stop,
        ),
        p < roles.len(),
        !(mode is Statement && (roles[p] == Role::Semicolon || roles[p] == Role::Else || roles[p]
            == Role::Closer)),
        !(mode == Mode::Block && roles[p] == Role::Closer),
        !roles[p].is_opener(),
        roles[p].is_head(),
        anchor(roles, p) is Some,
    ensures
        scan(other, cfg, again, q) == settled(
            other,
            q,
            scan(roles, cfg, mode, p).marks.len() as int,
            mode,
            scan(roles, cfg, mode, p).stop,
        ),
    decreases roles.len() - p, 3int,
{
    let second = scan(other, cfg, again, q);
    let k = anchor(roles, p)->0;
    let whole_construct = construct(roles, cfg, mode.enclosed(), p, k);
    lemma_construct_extent(roles, cfg, mode.enclosed(), p, k);
    let n1 = whole_construct.marks.len() as int;
    lemma_header_again(roles, cfg, p, k, other, q, mode);
    if mode is Statement {
        lemma_construct_again(roles, cfg, mode.enclosed(), p, k, other, again.enclosed(), q);
    } else {
        let rest = scan(roles, cfg, mode, whole_construct.end);
        lemma_scan_extent(roles, cfg, mode, whole_construct.end);
        let n2 = rest.marks.len() as int;
        lemma_emit_concat(roles, p, whole_construct.marks, rest.marks);
        let o1 = emit(roles, p, whole_construct.marks);
        let o2 = emit(roles, whole_construct.end, rest.marks);
        lemma_holds_split(other, q, o1, o2);
        if whole_construct.end < roles.len() {
            lemma_scan_starts_with_keep(roles, cfg, mode, whole_construct.end);
            assert(rest.marks.take(0) =~= Seq::<Mark>::empty());
            assert(o2[0] == roles[whole_construct.end]);
            assert(other[q + n1 + 0] == o2[0]);
        }
        lemma_construct_again(roles, cfg, mode.enclosed(), p, k, other, again.enclosed(), q);
        lemma_scan_again(roles, cfg, mode, whole_construct.end, other, again, q + n1);
        assert(second.marks =~= keep(n1 + n2)) by {
            assert(keep(n1) + keep(n2) =~= keep(n1 + n2));
        }
    }
}

/// The second scan over a token that is kept for itself, and what follows it.
proof fn lemma_scan_again_token(
    roles: Seq<Role>,
    cfg: DelphiLogicalLineParser,
    mode: Mode,
    p: int,
    other: Seq<Role>,
    again: Mode,
    q: int,
)
    requires
        0 <= p <= roles.len(),
        goes_with(again, mode, scan(roles, cfg, mode, p).stop),
        holds_at(other, q, emit(roles, p, scan(roles, cfg, mode, p).marks)),
        resumes(
            other,
            q + scan(roles, cfg, mode, p).marks.len(),
            mode,
            scan(roles, cfg, mode, p).stop,
        ),
        p < roles.len(),
        !(mode is Statement && (roles[p] == Role::Semicolon || roles[p] == Role::Else || roles[p]
            == Role::Closer)),
        !(mode == Mode::Block && roles[p] == Role::Closer),
        !roles[p].is_opener(),
        !(roles[p].is_head() && anchor(roles, p) is Some),
    ensures
        scan(other, cfg, again, q) == settled(
            other,
            q,
            scan(roles, cfg, mode, p).marks.len() as int,
            mode,
            scan(roles, cfg, mode, p).stop,
        ),
    decreases roles.len() - p, 3int,
{
    let second = scan(other, cfg, again, q);
    let rest = scan(roles, cfg, mode, p + 1);
    lemma_scan_extent(roles, cfg, mode, p + 1);
    let n2 = rest.marks.len() as int;
    lemma_kept_one(Mark::Keep);
    lemma_emit_concat(roles, p, seq![Mark::Keep], rest.marks);
    lemma_emit_one(roles, p, Mark::Keep);
    let o2 = emit(roles, p + 1, rest.marks);
    lemma_holds_split(other, q, seq![roles[p]], o2);
    assert(other[q + 0] == seq![roles[p]][0]);
    if roles[p].is_head() {
        lemma_no_anchor_again(roles, cfg, mode, p, other, q);
    }
    lemma_scan_again(roles, cfg, mode, p + 1, other, again, q + 1);
    assert(second.marks =~= keep(1 + n2)) by {
        assert(seq![Mark::Keep] + keep(n2) =~= keep(1 + n2));
    }
}

/// The header of a construct stands in the result as it stood in the input, so the
/// leading keyword finds its controlling keyword again.
proof fn lemma_header_again(
    roles: Seq<Role>,
    cfg: DelphiLogicalLineParser,
    p: int,
    k: int,
    other: Seq<Role>,
    q: int,
    mode: Mode,
)
    requires
        0 <= p < roles.len(),
        roles[p].is_head(),
        anchor(roles, p) == Some(k),
        holds_at(other, q, emit(roles, p, scan(roles, cfg, mode, p).marks)),
        !(mode is Statement && (roles[p] == Role::Semicolon || roles[p] == Role::Else || roles[p]
            == Role::Closer)),
    ensures
        anchor(other, q) == Some(q + k - p),
        other[q] == roles[p],
        q + k - p < other.len(),
{
    let here = scan(roles, cfg, mode, p);
    let whole = construct(roles, cfg, mode.enclosed(), p, k);
    let h = k + 1 - p;
    lemma_skip_filler(roles, p + 1);
    lemma_construct_extent(roles, cfg, mode.enclosed(), p, k);
    lemma_kept_keep(h);
    let tail = here.marks.skip(h);
    assert(here.marks =~= keep(h) + tail) by {
        assert(branches(roles, cfg, mode.enclosed(), p, k).marks.take(h) =~= keep(h));
        assert(keep(whole.end - p).take(h) =~= keep(h));
        assert(whole.marks.take(h) =~= keep(h));
        if mode is Statement {
            assert(here.marks == whole.marks);
        } else {
            assert(here.marks.take(h) =~= keep(h));
        }
        assert(here.marks =~= here.marks.take(h) + here.marks.skip(h));
    }
    lemma_emit_concat(roles, p, keep(h), tail);
    lemma_emit_keep(roles, p, h);
    let front = emit(roles, p, keep(h));
    lemma_holds_split(other, q, front, emit(roles, p + h, tail));
    assert forall|j: int| 0 <= j < h implies other[q + j] == #[trigger] roles[p + j] by {
        assert(front[j] == roles[p + j]);
    }
    assert(other[q + 0] == roles[p + 0]);
    assert(other[q + (k - p)] == roles[p + (k - p)]);
    assert forall|j: int| 0 <= j < k - p - 1 implies other[q + 1 + j] == #[trigger] roles[p + 1
        + j] by {
        assert(other[q + (j + 1)] == roles[p + (j + 1)]);
    }
    lemma_skip_filler_alike(roles, p + 1, other, q + 1, k - p - 1);
}

/// The construct of the result runs over what the construct of the input emitted. An
/// unterminated construct was kept as it is, and is unterminated again.
pub proof fn lemma_construct_again(
    roles: Seq<Role>,
    cfg: DelphiLogicalLineParser,
    enclosed: bool,
    p: int,
    k: int,
    other: Seq<Role>,
    again: bool,
    q: int,
)
    requires
        0 <= p < k < roles.len(),
        again == enclosed || construct(roles, cfg, enclosed, p, k).stop != Stop::Closer,
        holds_at(other, q, emit(roles, p, construct(roles, cfg, enclosed, p, k).marks)),
        resumes(
            other,
            q + construct(roles, cfg, enclosed, p, k).marks.len(),
            Mode::Statement { enclosed },
            construct(roles, cfg, enclosed, p, k).stop,
        ),
    ensures
        construct(other, cfg, again, q, q + k - p) == settled(
            other,
            q,
            construct(roles, cfg, enclosed, p, k).marks.len() as int,
            Mode::Statement { enclosed },
            construct(roles, cfg, enclosed, p, k).stop,
        ),
    decreases roles.len() - p, 2int,
{
    let whole = branches(roles, cfg, enclosed, p, k);
    lemma_branches_extent(roles, cfg, enclosed, p, k);
    if whole.stop == Stop::Exhausted {
        let n = whole.end - p;
        lemma_kept_keep(n);
        lemma_emit_keep(roles, p, n);
        assert(same_from(roles, p, other, q)) by {
            let piece = roles.subrange(p, p + n);
            assert forall|j: int| 0 <= j < roles.len() - p implies other[q + j]
                == #[trigger] roles[p + j] by {
                assert(piece[j] == roles[p + j]);
            }
        }
        lemma_construct_extent(roles, cfg, enclosed, p, k);
        lemma_construct_extent(roles, cfg, again, p, k);
        lemma_construct_ends_alike(roles, cfg, enclosed, false, p, k);
        lemma_construct_ends_alike(roles, cfg, again, false, p, k);
        lemma_construct_moved(roles, cfg, again, p, k, other, q);
    } else {
        lemma_branches_again(roles, cfg, enclosed, p, k, other, again, q);
    }
}

/// The header and the branches of the result run over what those of the input emitted.
proof fn lemma_branches_again(
    roles: Seq<Role>,
    cfg: DelphiLogicalLineParser,
    enclosed: bool,
    p: int,
    k: int,
    other: Seq<Role>,
    again: bool,
    q: int,
)
    requires
        0 <= p < k < roles.len(),
        again == enclosed || branches(roles, cfg, enclosed, p, k).stop != Stop::Closer,
        holds_at(other, q, emit(roles, p, branches(roles, cfg, enclosed, p, k).marks)),
        resumes(
            other,
            q + branches(roles, cfg, enclosed, p, k).marks.len(),
            Mode::Statement { enclosed },
            branches(roles, cfg, enclosed, p, k).stop,
        ),
    ensures
        branches(other, cfg, again, q, q + k - p) == settled(
            other,
            q,
            branches(roles, cfg, enclosed, p, k).marks.len() as int,
            Mode::Statement { enclosed },
            branches(roles, cfg, enclosed, p, k).stop,
        ),
    decreases roles.len() - p, 1int,
{
    let first = branch(roles, cfg, cfg.wraps(roles[p]), false, enclosed, k + 1);
    if roles[p] == Role::If && first.stop == Stop::Else {
        lemma_construct_again_both(roles, cfg, enclosed, p, k, other, again, q);
    } else {
        lemma_construct_again_one(roles, cfg, enclosed, p, k, other, again, q);
    }
}

/// The second scan over an `if` with both its branches.
proof fn lemma_construct_again_both(
    roles: Seq<Role>,
    cfg: DelphiLogicalLineParser,
    enclosed: bool,
    p: int,
    k: int,
    other: Seq<Role>,
    again: bool,
    q: int,
)
    requires
        0 <= p < k < roles.len(),
        again == enclosed || branches(roles, cfg, enclosed, p, k).stop != Stop::Closer,
        holds_at(other, q, emit(roles, p, branches(roles, cfg, enclosed, p, k).marks)),
        resumes(
            other,
            q + branches(roles, cfg, enclosed, p, k).marks.len(),
            Mode::Statement { enclosed },
            branches(roles, cfg, enclosed, p, k).stop,
        ),
        roles[p] == Role::If,
        branch(roles, cfg, cfg.wraps(roles[p]), false, enclosed, k + 1).stop == Stop::Else,
    ensures
        branches(other, cfg, again, q, q + k - p) == settled(
            other,
            q,
            branches(roles, cfg, enclosed, p, k).marks.len() as int,
            Mode::Statement { enclosed },
            branches(roles, cfg, enclosed, p, k).stop,
        ),
    decreases roles.len() - p, 0int,
{
    let whole = branches(roles, cfg, enclosed, p, k);
    let second_whole = branches(other, cfg, again, q, q + k - p);
    let enabled = cfg.wraps(roles[p]);
    let h = k + 1 - p;
    let first = branch(roles, cfg, enabled, false, enclosed, k + 1);
    lemma_branch_extent(roles, cfg, enabled, false, enclosed, k + 1);
    lemma_kept_keep(h);
    let n1 = first.marks.len() as int;
    let o1 = emit(roles, k + 1, first.marks);
    let front = emit(roles, p, keep(h));
    lemma_emit_keep(roles, p, h);
    lemma_emit_concat(roles, p, keep(h), first.marks);
    let second = branch(roles, cfg, enabled, true, enclosed, first.end + 1);
    lemma_branch_extent(roles, cfg, enabled, true, enclosed, first.end + 1);
    let n2 = second.marks.len() as int;
    let o2 = emit(roles, first.end + 1, second.marks);
    assert(whole.marks == keep(h) + first.marks + seq![Mark::Keep] + second.marks);
    lemma_kept_one(Mark::Keep);
    lemma_kept_concat(keep(h), first.marks);
    lemma_kept_concat(keep(h) + first.marks, seq![Mark::Keep]);
    lemma_emit_concat(roles, p, keep(h) + first.marks + seq![Mark::Keep], second.marks);
    lemma_emit_concat(roles, p, keep(h) + first.marks, seq![Mark::Keep]);
    lemma_emit_one(roles, first.end, Mark::Keep);
    let middle = seq![roles[first.end]];
    assert(emit(roles, p, whole.marks) == front + o1 + middle + o2);
    lemma_holds_split(other, q, front + o1 + middle, o2);
    lemma_holds_split(other, q, front + o1, middle);
    lemma_holds_split(other, q, front, o1);
    assert(front.len() == h);
    assert(other[q + 0] == front[0]);
    assert(other[q + h + n1 + 0] == middle[0]);
    lemma_branch_again(roles, cfg, enabled, false, enclosed, k + 1, other, again, q + h);
    lemma_branch_again(roles, cfg, enabled, true, enclosed, first.end + 1, other, again, q + h + n1 + 1);
    let first_again = branch(other, cfg, enabled, false, again, q + k - p + 1);
    assert(first_again.stop == Stop::Else && first_again.end == q + h + n1);
    let second_again = branch(other, cfg, enabled, true, again, first_again.end + 1);
    assert(second_whole.marks == keep(h) + first_again.marks + seq![Mark::Keep]
        + second_again.marks);
    assert(second_whole.marks =~= keep(h + n1 + 1 + n2)) by {
        assert(keep(h) + keep(n1) + seq![Mark::Keep] + keep(n2) =~= keep(h + n1 + 1 + n2));
    }
}

/// The second scan over a construct with one branch.
proof fn lemma_construct_again_one(
    roles: Seq<Role>,
    cfg: DelphiLogicalLineParser,
    enclosed: bool,
    p: int,
    k: int,
    other: Seq<Role>,
    again: bool,
    q: int,
)
    requires
        0 <= p < k < roles.len(),
        again == enclosed || branches(roles, cfg, enclosed, p, k).stop != Stop::Closer,
        holds_at(other, q, emit(roles, p, branches(roles, cfg, enclosed, p, k).marks)),
        resumes(
            other,
            q + branches(roles, cfg, enclosed, p, k).marks.len(),
            Mode::Statement { enclosed },
            branches(roles, cfg, enclosed, p, k).stop,
        ),
        !(roles[p] == Role::If && branch(
            roles,
            cfg,
            cfg.wraps(roles[p]),
            false,
            enclosed,
            k + 1,
        ).stop == Stop::Else),
    ensures
        branches(other, cfg, again, q, q + k - p) == settled(
            other,
            q,
            branches(roles, cfg, enclosed, p, k).marks.len() as int,
            Mode::Statement { enclosed },
            branches(roles, cfg, enclosed, p, k).stop,
        ),
    decreases roles.len() - p, 0int,
{
    let whole = branches(roles, cfg, enclosed, p, k);
    let second_whole = branches(other, cfg, again, q, q + k - p);
    let enabled = cfg.wraps(roles[p]);
    let h = k + 1 - p;
    let first = branch(roles, cfg, enabled, false, enclosed, k + 1);
    lemma_branch_extent(roles, cfg, enabled, false, enclosed, k + 1);
    lemma_kept_keep(h);
    let n1 = first.marks.len() as int;
    let o1 = emit(roles, k + 1, first.marks);
    let front = emit(roles, p, keep(h));
    lemma_emit_keep(roles, p, h);
    lemma_emit_concat(roles, p, keep(h), first.marks);
    assert(whole.marks == keep(h) + first.marks);
    lemma_holds_split(other, q, front, o1);
    assert(front.len() == h);
    assert(other[q + 0] == front[0]);
    lemma_branch_again(roles, cfg, enabled, false, enclosed, k + 1, other, again, q + h);
    let first_again = branch(other, cfg, enabled, false, again, q + k - p + 1);
    assert(second_whole.marks == keep(h) + first_again.marks);
    assert(second_whole.marks =~= keep(h + n1)) by {
        assert(keep(h) + keep(n1) =~= keep(h + n1));
    }
}

/// The branch of the result runs over what the branch of the input emitted: a body that
/// was wrapped is a block now, and a body that was left alone is left alone again.
pub proof fn lemma_branch_again(
    roles: Seq<Role>,
    cfg: DelphiLogicalLineParser,
    enabled: bool,
    after_else: bool,
    enclosed: bool,
    s: int,
    other: Seq<Role>,
    again: bool,
    q: int,
)
    requires
        0 <= s <= roles.len(),
        again == enclosed || branch(roles, cfg, enabled, after_else, enclosed, s).stop
            != Stop::Closer,
        holds_at(
            other,
            q,
            emit(roles, s, branch(roles, cfg, enabled, after_else, enclosed, s).marks),
        ),
        resumes(
            other,
            q + branch(roles, cfg, enabled, after_else, enclosed, s).marks.len(),
            Mode::Statement { enclosed },
            branch(roles, cfg, enabled, after_else, enclosed, s).stop,
        ),
    ensures
        branch(other, cfg, enabled, after_else, again, q) == settled(
            other,
            q,
            branch(roles, cfg, enabled, after_else, enclosed, s).marks.len() as int,
            Mode::Statement { enclosed },
            branch(roles, cfg, enabled, after_else, enclosed, s).stop,
        ),
    decreases roles.len() - s, 6int,
{
    let second = branch(other, cfg, enabled, after_else, again, q);
    lemma_branch_extent(roles, cfg, enabled, after_else, enclosed, s);
    if s < roles.len() && roles[s] == Role::Trivia {
        let rest = branch(roles, cfg, enabled, after_else, enclosed, s + 1);
        let n2 = rest.marks.len() as int;
        lemma_kept_one(Mark::Keep);
        lemma_emit_concat(roles, s, seq![Mark::Keep], rest.marks);
        lemma_emit_one(roles, s, Mark::Keep);
        let o2 = emit(roles, s + 1, rest.marks);
        lemma_holds_split(other, q, seq![roles[s]], o2);
        assert(other[q + 0] == seq![roles[s]][0]);
        lemma_branch_again(roles, cfg, enabled, after_else, enclosed, s + 1, other, again, q + 1);
        assert(second.marks =~= keep(1 + n2)) by {
            assert(seq![Mark::Keep] + keep(n2) =~= keep(1 + n2));
        }
    } else {
        let first_mode = Mode::Statement { enclosed };
        let body = scan(roles, cfg, first_mode, s);
        lemma_scan_extent(roles, cfg, first_mode, s);
        let nb = body.marks.len() as int;
        let ob = emit(roles, s, body.marks);
        if enabled && is_single_statement(roles, after_else, s) && ends_properly(
            body.stop,
            enclosed,
        ) {
            lemma_branch_again_wrapped(roles, cfg, enabled, after_else, enclosed, s, other, again, q);
        } else {
            lemma_scan_again(roles, cfg, first_mode, s, other, Mode::Statement { enclosed: again }, q);
            if s < roles.len() {
                lemma_scan_starts_with_keep(roles, cfg, first_mode, s);
                if nb > 0 {
                    assert(body.marks.take(0) =~= Seq::<Mark>::empty());
                    assert(ob[0] == roles[s]);
                    assert(other[q + 0] == ob[0]);
                }
            }
        }
    }
}

/// The second scan over a body that the first scan wrapped: the synthesized `begin`
/// makes it a block, whose inside is the body and whose closer is the synthesized `end`.
proof fn lemma_branch_again_wrapped(
    roles: Seq<Role>,
    cfg: DelphiLogicalLineParser,
    enabled: bool,
    after_else: bool,
    enclosed: bool,
    s: int,
    other: Seq<Role>,
    again: bool,
    q: int,
)
    requires
        0 <= s <= roles.len(),
        !(s < roles.len() && roles[s] == Role::Trivia),
        enabled,
        is_single_statement(roles, after_else, s),
        ends_properly(scan(roles, cfg, Mode::Statement { enclosed }, s).stop, enclosed),
        holds_at(
            other,
            q,
            emit(roles, s, branch(roles, cfg, enabled, after_else, enclosed, s).marks),
        ),
        resumes(
            other,
            q + branch(roles, cfg, enabled, after_else, enclosed, s).marks.len(),
            Mode::Statement { enclosed },
            branch(roles, cfg, enabled, after_else, enclosed, s).stop,
        ),
    ensures
        branch(other, cfg, enabled, after_else, again, q) == settled(
            other,
            q,
            branch(roles, cfg, enabled, after_else, enclosed, s).marks.len() as int,
            Mode::Statement { enclosed },
            branch(roles, cfg, enabled, after_else, enclosed, s).stop,
        ),
    decreases roles.len() - s, 5int,
{
    let here = branch(roles, cfg, enabled, after_else, enclosed, s);
    let second = branch(other, cfg, enabled, after_else, again, q);
    let first_mode = Mode::Statement { enclosed };
    let inside = Mode::Statement { enclosed: true };
    let outside = Mode::Statement { enclosed: again };
    let body = scan(roles, cfg, first_mode, s);
    lemma_scan_extent(roles, cfg, first_mode, s);
    let nb = body.marks.len() as int;
    let ob = emit(roles, s, body.marks);
    lemma_kept_one(Mark::Begin);
    lemma_kept_one(Mark::End);
    lemma_kept_concat(seq![Mark::Begin], body.marks);
    lemma_emit_one(roles, s, Mark::Begin);
    lemma_emit_one(roles, body.end, Mark::End);
    lemma_emit_one(roles, body.end, Mark::Semicolon);
    lemma_emit_concat(roles, s, seq![Mark::Begin], body.marks);
    let closed = seq![Mark::Begin] + body.marks + seq![Mark::End];
    lemma_emit_concat(roles, s, seq![Mark::Begin] + body.marks, seq![Mark::End]);
    lemma_kept_concat(seq![Mark::Begin] + body.marks, seq![Mark::End]);
    if body.stop != Stop::Else {
        assert(here.marks =~= closed + seq![Mark::Semicolon]);
        lemma_emit_concat(roles, s, closed, seq![Mark::Semicolon]);
        lemma_holds_split(
            other,
            q,
            seq![Role::Begin] + ob + seq![Role::Closer],
            seq![Role::Semicolon],
        );
        assert(other[q + 1 + nb + 1 + 0] == seq![Role::Semicolon][0]);
    }
    lemma_holds_split(other, q, seq![Role::Begin] + ob, seq![Role::Closer]);
    lemma_holds_split(other, q, seq![Role::Begin], ob);
    assert(other[q + 0] == seq![Role::Begin][0]);
    assert(other[q + 1 + nb + 0] == seq![Role::Closer][0]);
    lemma_scan_again(roles, cfg, first_mode, s, other, inside, q + 1);
    lemma_block_starts_with_statement(other, cfg, q + 1);
    let statement = scan(other, cfg, inside, q + 1);
    let block = scan(other, cfg, Mode::Block, q + 1);
    assert(block == Scan { marks: keep(nb) + seq![Mark::Keep], end: q + nb + 2, stop: Stop::Closer })
        by {
        if statement.stop == Stop::Semicolon {
            let closer = scan(other, cfg, Mode::Block, q + 1 + nb);
            assert(closer.marks == seq![Mark::Keep]);
        }
    }
    let rest = scan(other, cfg, outside, q + nb + 2);
    assert(scan(other, cfg, outside, q).marks == seq![Mark::Keep] + block.marks + rest.marks);
    if body.stop != Stop::Else {
        assert(second.marks =~= keep(nb + 3)) by {
            assert(seq![Mark::Keep] + (keep(nb) + seq![Mark::Keep]) + seq![Mark::Keep] =~= keep(
                nb + 3,
            ));
        }
    } else {
        assert(second.marks =~= keep(nb + 2)) by {
            assert(seq![Mark::Keep] + (keep(nb) + seq![Mark::Keep]) + Seq::<Mark>::empty() =~= keep(
                nb + 2,
            ));
        }
    }
}

} // verus!
