//! Logical lines: the grouping of the final token sequence into statements and clauses,
//! each with its nesting level and the line that introduces it.
//!
//! The lines are a function of the roles of the final tokens alone. One pass from left to
//! right cuts the sequence into lines and keeps a stack of the open blocks:
//! - a line ends behind `;`, behind `begin`, `try`, `repeat` and `asm`, and behind the
//!   `of` of a `case` header;
//! - a line ends in front of every opener, every closer and every `else`;
//! - the level of a line is the number of blocks open where it starts, a closer counting
//!   as outside the block it ends;
//! - the parent of a line is the line that introduces the innermost block around it. A
//!   block is introduced by the controlling line in front of its opener, the line that
//!   ends with `then`, `do` or `else`, and by the line of its opener where there is none.
//!   The opener and the closer of a block have the same parent as its body.

use vstd::prelude::*;
use crate::role::Role;

verus! {

/// One logical line.
#[derive(Debug)]
pub struct LogicalLine {
    tokens: Vec<usize>,
    level: usize,
    parent: Option<usize>,
}

/// What a logical line is, as plain values.
pub ghost struct LineView {
    /// The positions of its tokens in the token sequence, in order.
    pub tokens: Seq<int>,
    /// Its nesting depth.
    pub level: nat,
    /// The position of its parent in the sequence of lines.
    pub parent: Option<int>,
}

/// Positions as mathematical integers.
pub open spec fn positions(indices: Seq<usize>) -> Seq<int> {
    Seq::new(indices.len(), |i: int| indices[i] as int)
}

/// A position, if any, as a mathematical integer.
pub open spec fn position(index: Option<usize>) -> Option<int> {
    match index {
        Some(i) => Some(i as int),
        None => None,
    }
}

impl View for LogicalLine {
    type V = LineView;

    closed spec fn view(&self) -> LineView {
        LineView {
            tokens: positions(self.tokens@),
            level: self.level as nat,
            parent: position(self.parent),
        }
    }
}

/// The views of a sequence of lines, in order.
pub open spec fn line_views(lines: Seq<LogicalLine>) -> Seq<LineView> {
    Seq::new(lines.len(), |i: int| lines[i]@)
}

impl LogicalLine {
    /// The line of the given tokens at the given level under the given parent.
    pub fn new(tokens: Vec<usize>, level: usize, parent: Option<usize>) -> (line: LogicalLine)
        ensures
            line@ == (LineView {
                tokens: positions(tokens@),
                level: level as nat,
                parent: position(parent),
            }),
    {
        LogicalLine { tokens, level, parent }
    }

    /// The positions of the line's tokens in the token sequence, in order.
    pub fn get_tokens(&self) -> (tokens: &Vec<usize>)
        ensures
            positions(tokens@) == self@.tokens,
    {
        &self.tokens
    }

    /// The nesting depth of the line.
    pub fn get_level(&self) -> (level: usize)
        ensures
            level == self@.level,
    {
        self.level
    }

    /// The position of the line's parent in the sequence of lines.
    pub fn get_parent(&self) -> (parent: Option<usize>)
        ensures
            position(parent) == self@.parent,
    {
        self.parent
    }
}

/// In front of a token with this role a line ends.
pub open spec fn breaks_before(role: Role) -> bool {
    role.is_opener() || role == Role::Closer || role == Role::Else
}

/// A line that ends with this role controls the block that follows it.
pub open spec fn controls(role: Role) -> bool {
    role == Role::Then || role == Role::Do || role == Role::Else
}

/// The state of the pass in front of a token.
pub ghost struct Pass {
    /// The lines that have ended.
    pub lines: Seq<LineView>,
    /// The tokens of the line in progress; empty where none is.
    pub current: Seq<int>,
    /// The level of the line in progress.
    pub level: nat,
    /// The parent of the line in progress.
    pub parent: Option<int>,
    /// For each open block, outermost first, the line that introduces it.
    pub blocks: Seq<int>,
    /// The role of the last token that is no trivia.
    pub after: Role,
}

impl Pass {
    /// The state in front of the first token.
    pub open spec fn start() -> Pass {
        Pass {
            lines: seq![],
            current: seq![],
            level: 0,
            parent: None,
            blocks: seq![],
            after: Role::Plain,
        }
    }

    /// The line that introduces the innermost open block.
    pub open spec fn innermost(self) -> Option<int> {
        if self.blocks.len() > 0 {
            Some(self.blocks.last())
        } else {
            None
        }
    }

    /// The state with the line in progress ended.
    pub open spec fn end_line(self) -> Pass {
        if self.current.len() == 0 {
            self
        } else {
            Pass {
                lines: self.lines.push(
                    LineView { tokens: self.current, level: self.level, parent: self.parent },
                ),
                current: seq![],
                ..self
            }
        }
    }

    /// The line in progress ends with a controlling keyword, and started at the present
    /// depth: an opener that comes now opens the block that this line controls.
    pub open spec fn controlling(self) -> bool {
        self.current.len() > 0 && controls(self.after) && self.level == self.blocks.len()
    }

    /// The state with a line started for a token with the given role, where none is in
    /// progress. `controlled` says that the line that just ended controls this one.
    pub open spec fn begin_line(self, role: Role, controlled: bool) -> Pass {
        if self.current.len() > 0 {
            self
        } else if role == Role::Closer {
            if self.blocks.len() > 0 {
                Pass {
                    level: (self.blocks.len() - 1) as nat,
                    parent: Some(self.blocks.last()),
                    blocks: self.blocks.drop_last(),
                    ..self
                }
            } else {
                Pass { level: 0, parent: None, ..self }
            }
        } else if controlled {
            Pass { level: self.blocks.len(), parent: Some(self.lines.len() - 1), ..self }
        } else {
            Pass { level: self.blocks.len(), parent: self.innermost(), ..self }
        }
    }

    /// Behind the token at `i`, now the last of the line in progress, the line ends.
    pub open spec fn breaks_after(self, roles: Seq<Role>, i: int) -> bool {
        roles[i] == Role::Semicolon || roles[i] == Role::Begin || roles[i] == Role::Opener || (
        roles[i] == Role::Of && roles[self.current[0]] == Role::Case)
    }

    /// The state with the token at `i` taken into a line: the line in progress, or a new
    /// line where the token breaks the line in front of it or none is in progress. An
    /// opener opens its block.
    pub open spec fn take(self, roles: Seq<Role>, i: int) -> Pass {
        let role = roles[i];
        let controlled = role.is_opener() && self.controlling();
        let ended = if breaks_before(role) {
            self.end_line()
        } else {
            self
        };
        let begun = ended.begin_line(role, controlled);
        let taken = Pass {
            current: begun.current.push(i),
            after: if role == Role::Trivia {
                begun.after
            } else {
                role
            },
            ..begun
        };
        if role.is_opener() {
            Pass {
                blocks: taken.blocks.push(
                    if controlled {
                        taken.lines.len() - 1
                    } else {
                        taken.lines.len() as int
                    },
                ),
                ..taken
            }
        } else {
            taken
        }
    }

    /// The state behind the token at `i`: the token is taken into a line, and the line
    /// ends where the token ends it.
    pub open spec fn step(self, roles: Seq<Role>, i: int) -> Pass {
        let taken = self.take(roles, i);
        if taken.breaks_after(roles, i) {
            taken.end_line()
        } else {
            taken
        }
    }

    /// The state behind the first `n` tokens.
    pub open spec fn behind(roles: Seq<Role>, n: nat) -> Pass
        decreases n,
    {
        if n == 0 {
            Pass::start()
        } else {
            Pass::behind(roles, (n - 1) as nat).step(roles, n - 1)
        }
    }
}

/// The logical lines of a token sequence with the given roles.
pub open spec fn logical_lines(roles: Seq<Role>) -> Seq<LineView> {
    Pass::behind(roles, roles.len()).end_line().lines
}

/// The tokens of the lines, one line behind the other.
pub open spec fn flatten(lines: Seq<LineView>) -> Seq<int>
    decreases lines.len(),
{
    if lines.len() == 0 {
        seq![]
    } else {
        flatten(lines.drop_last()) + lines.last().tokens
    }
}

/// The positions `0`, `1`, ... up to `n`, without `n`.
pub open spec fn range(n: int) -> Seq<int> {
    Seq::new(if n >= 0 { n as nat } else { 0 }, |i: int| i)
}

/// A line at position `index` with the given level and parent is nested well among the
/// lines in front of it: its parent precedes it and lies at its level or one level
/// further out, and a line without a parent lies at level 0.
pub open spec fn nested_well(lines: Seq<LineView>, index: int, level: nat, parent: Option<int>) -> bool {
    match parent {
        Some(q) => 0 <= q < index && q < lines.len() && (level == lines[q].level || level
            == lines[q].level + 1),
        None => level == 0,
    }
}

/// Lines as the parser hands them out: none is empty, together they hold every token
/// position below `n` once and in order, and each is nested well.
pub open spec fn well_formed(lines: Seq<LineView>, n: int) -> bool {
    &&& flatten(lines) == range(n)
    &&& forall|j: int| 0 <= j < lines.len() ==> (#[trigger] lines[j]).tokens.len() > 0
    &&& forall|j: int|
        0 <= j < lines.len() ==> nested_well(lines, j, (#[trigger] lines[j]).level, lines[j].parent)
}

impl Pass {
    /// The level of the line at position `q`, be it ended or in progress.
    pub open spec fn level_of(self, q: int) -> nat {
        if 0 <= q < self.lines.len() {
            self.lines[q].level
        } else {
            self.level
        }
    }

    /// What holds of the state behind `n` tokens.
    pub open spec fn sound(self, n: int) -> bool {
        &&& n >= 0
        &&& flatten(self.lines) + self.current == range(n)
        &&& forall|j: int| 0 <= j < self.lines.len() ==> (#[trigger] self.lines[j]).tokens.len() > 0
        &&& forall|j: int|
            0 <= j < self.lines.len() ==> nested_well(
                self.lines,
                j,
                (#[trigger] self.lines[j]).level,
                self.lines[j].parent,
            )
        &&& self.current.len() > 0 ==> nested_well(
            self.lines,
            self.lines.len() as int,
            self.level,
            self.parent,
        )
        &&& forall|k: int|
            0 <= k < self.blocks.len() ==> {
                &&& 0 <= #[trigger] self.blocks[k] <= self.lines.len()
                &&& self.blocks[k] == self.lines.len() ==> self.current.len() > 0
                &&& self.level_of(self.blocks[k]) == k
            }
    }
}

/// Ending the line in progress keeps the state sound.
pub proof fn lemma_end_line_sound(pass: Pass, n: int)
    requires
        pass.sound(n),
    ensures
        pass.end_line().sound(n),
        pass.end_line().current.len() == 0,
        pass.end_line().blocks == pass.blocks,
        pass.end_line().after == pass.after,
        pass.end_line().level == pass.level,
        pass.current.len() > 0 ==> pass.end_line().lines.len() == pass.lines.len() + 1
            && pass.end_line().lines.last().level == pass.level,
        pass.current.len() == 0 ==> pass.end_line() == pass,
{
    let ended = pass.end_line();
    if pass.current.len() > 0 {
        assert(ended.lines.drop_last() =~= pass.lines);
        assert(flatten(ended.lines) + ended.current =~= flatten(pass.lines) + pass.current);
        assert forall|j: int| 0 <= j < ended.lines.len() implies nested_well(
            ended.lines,
            j,
            (#[trigger] ended.lines[j]).level,
            ended.lines[j].parent,
        ) by {
            if j < pass.lines.len() {
                assert(nested_well(pass.lines, j, pass.lines[j].level, pass.lines[j].parent));
            }
        }
        assert forall|k: int| 0 <= k < ended.blocks.len() implies {
            &&& 0 <= #[trigger] ended.blocks[k] <= ended.lines.len()
            &&& ended.blocks[k] == ended.lines.len() ==> ended.current.len() > 0
            &&& ended.level_of(ended.blocks[k]) == k
        } by {
            assert(pass.level_of(pass.blocks[k]) == k);
        }
    }
}

/// Starting a line where none is in progress keeps the state sound, and the line that
/// starts is nested well.
pub proof fn lemma_begin_line_sound(ended: Pass, role: Role, controlled: bool, n: int)
    requires
        ended.sound(n),
        controlled ==> ended.lines.len() > 0 && ended.lines.last().level == ended.blocks.len(),
    ensures
        ended.begin_line(role, controlled).sound(n),
        ended.begin_line(role, controlled).lines == ended.lines,
        ended.begin_line(role, controlled).current == ended.current,
        ended.begin_line(role, controlled).after == ended.after,
        nested_well(
            ended.lines,
            ended.lines.len() as int,
            ended.begin_line(role, controlled).level,
            ended.begin_line(role, controlled).parent,
        ),
        ended.current.len() == 0 && role != Role::Closer ==> ended.begin_line(
            role,
            controlled,
        ).level == ended.blocks.len() && ended.begin_line(role, controlled).blocks
            == ended.blocks,
{
    let begun = ended.begin_line(role, controlled);
    if ended.current.len() == 0 {
        assert forall|k: int| 0 <= k < begun.blocks.len() implies {
            &&& 0 <= #[trigger] begun.blocks[k] <= begun.lines.len()
            &&& begun.blocks[k] == begun.lines.len() ==> begun.current.len() > 0
            &&& begun.level_of(begun.blocks[k]) == k
        } by {
            assert(ended.level_of(ended.blocks[k]) == k);
        }
        if ended.blocks.len() > 0 {
            let top = ended.blocks.len() - 1;
            assert(ended.level_of(ended.blocks[top]) == top);
        }
    }
}

/// Taking a token into the line in progress keeps the state sound.
pub proof fn lemma_take_sound(pass: Pass, roles: Seq<Role>, i: int)
    requires
        pass.sound(i),
        0 <= i < roles.len(),
    ensures
        pass.take(roles, i).sound(i + 1),
{
    let role = roles[i];
    let controlled = role.is_opener() && pass.controlling();
    let ended = if breaks_before(role) {
        pass.end_line()
    } else {
        pass
    };
    lemma_end_line_sound(pass, i);
    let begun = ended.begin_line(role, controlled);
    lemma_begin_line_sound(ended, role, controlled, i);
    let taken = Pass {
        current: begun.current.push(i),
        after: if role == Role::Trivia {
            begun.after
        } else {
            role
        },
        ..begun
    };
    assert(taken.sound(i + 1)) by {
        assert(flatten(taken.lines) + taken.current =~= (flatten(begun.lines) + begun.current).push(
            i,
        ));
        assert(range(i).push(i) =~= range(i + 1));
        assert forall|k: int| 0 <= k < taken.blocks.len() implies {
            &&& 0 <= #[trigger] taken.blocks[k] <= taken.lines.len()
            &&& taken.blocks[k] == taken.lines.len() ==> taken.current.len() > 0
            &&& taken.level_of(taken.blocks[k]) == k
        } by {
            assert(begun.level_of(begun.blocks[k]) == k);
        }
    }
    let after = pass.take(roles, i);
    if role.is_opener() {
        assert forall|k: int| 0 <= k < after.blocks.len() implies {
            &&& 0 <= #[trigger] after.blocks[k] <= after.lines.len()
            &&& after.blocks[k] == after.lines.len() ==> after.current.len() > 0
            &&& after.level_of(after.blocks[k]) == k
        } by {
            if k < taken.blocks.len() {
                assert(taken.level_of(taken.blocks[k]) == k);
            }
        }
    }
}

/// One step keeps the state sound.
pub proof fn lemma_step_sound(pass: Pass, roles: Seq<Role>, i: int)
    requires
        pass.sound(i),
        0 <= i < roles.len(),
    ensures
        pass.step(roles, i).sound(i + 1),
{
    lemma_take_sound(pass, roles, i);
    lemma_end_line_sound(pass.take(roles, i), i + 1);
}

/// The state behind any number of tokens is sound.
pub proof fn lemma_behind_sound(roles: Seq<Role>, n: nat)
    requires
        n <= roles.len(),
    ensures
        Pass::behind(roles, n).sound(n as int),
    decreases n,
{
    if n == 0 {
        assert(flatten(Pass::start().lines) + Pass::start().current =~= range(0));
    } else {
        lemma_behind_sound(roles, (n - 1) as nat);
        lemma_step_sound(Pass::behind(roles, (n - 1) as nat), roles, n - 1);
    }
}

/// The logical lines of any token sequence are well formed: every token belongs to
/// exactly one line, the lines follow the order of the tokens, no line is empty, and the
/// level of a line with a parent is that of the parent or one more.
pub proof fn lemma_lines_well_formed(roles: Seq<Role>)
    ensures
        well_formed(logical_lines(roles), roles.len() as int),
{
    let last = Pass::behind(roles, roles.len());
    lemma_behind_sound(roles, roles.len());
    lemma_end_line_sound(last, roles.len() as int);
    assert(flatten(last.end_line().lines) + last.end_line().current =~= flatten(
        last.end_line().lines,
    ));
}

/// The state of the pass, as the builder holds it.
struct Builder {
    lines: Vec<LogicalLine>,
    current: Vec<usize>,
    level: usize,
    parent: Option<usize>,
    blocks: Vec<usize>,
    after: Role,
}

impl View for Builder {
    type V = Pass;

    closed spec fn view(&self) -> Pass {
        Pass {
            lines: line_views(self.lines@),
            current: positions(self.current@),
            level: self.level as nat,
            parent: position(self.parent),
            blocks: positions(self.blocks@),
            after: self.after,
        }
    }
}

impl Builder {
    fn start() -> (builder: Builder)
        ensures
            builder@ == Pass::start(),
    {
        let builder = Builder {
            lines: Vec::new(),
            current: Vec::new(),
            level: 0,
            parent: None,
            blocks: Vec::new(),
            after: Role::Plain,
        };
        assert(builder@.lines =~= Pass::start().lines);
        assert(builder@.current =~= Pass::start().current);
        assert(builder@.blocks =~= Pass::start().blocks);
        builder
    }

    fn end_line(&mut self)
        ensures
            final(self)@ == old(self)@.end_line(),
    {
        if self.current.len() > 0 {
            let mut tokens: Vec<usize> = Vec::new();
            core::mem::swap(&mut self.current, &mut tokens);
            self.lines.push(LogicalLine::new(tokens, self.level, self.parent));
            assert(self@.lines =~= old(self)@.end_line().lines);
            assert(self@.current =~= old(self)@.end_line().current);
        }
    }

    fn begin_line(&mut self, role: Role, controlled: bool)
        requires
            old(self)@.current.len() == 0,
            controlled ==> old(self)@.lines.len() > 0,
        ensures
            final(self)@ == old(self)@.begin_line(role, controlled),
    {
        if role == Role::Closer {
            if self.blocks.len() > 0 {
                let top = self.blocks.pop().unwrap();
                self.level = self.blocks.len();
                self.parent = Some(top);
                assert(self@.blocks =~= old(self)@.blocks.drop_last());
            } else {
                self.level = 0;
                self.parent = None;
            }
        } else if controlled {
            self.level = self.blocks.len();
            self.parent = Some(self.lines.len() - 1);
        } else {
            self.level = self.blocks.len();
            self.parent = if self.blocks.len() > 0 {
                Some(self.blocks[self.blocks.len() - 1])
            } else {
                None
            };
        }
    }

    fn step(&mut self, roles: &Vec<Role>, i: usize)
        requires
            i < roles.len(),
            old(self)@.sound(i as int),
        ensures
            final(self)@ == old(self)@.step(roles@, i as int),
    {
        let role = roles[i];
        let opener = role == Role::Begin || role == Role::Case || role == Role::Opener;
        let controlled = opener && self.current.len() > 0 && (self.after == Role::Then
            || self.after == Role::Do || self.after == Role::Else) && self.level
            == self.blocks.len();
        if opener || role == Role::Closer || role == Role::Else {
            self.end_line();
        }
        let ghost ended = self@;
        proof {
            lemma_end_line_sound(old(self)@, i as int);
        }
        if self.current.len() == 0 {
            self.begin_line(role, controlled);
        }
        let ghost begun = self@;
        assert(begun == ended.begin_line(role, controlled));
        self.current.push(i);
        if role != Role::Trivia {
            self.after = role;
        }
        assert(self@.current =~= begun.current.push(i as int));
        if opener {
            let introducer = if controlled {
                self.lines.len() - 1
            } else {
                self.lines.len()
            };
            self.blocks.push(introducer);
            assert(self@.blocks =~= begun.blocks.push(introducer as int));
        }
        assert(begun.sound(i as int)) by {
            lemma_begin_line_sound(ended, role, controlled, i as int);
        }
        assert(self@.current[0] < roles.len()) by {
            assert(range(i as int).push(i as int) =~= range(i + 1));
            assert(flatten(begun.lines) + self@.current =~= range(i + 1));
            lemma_range_member(flatten(begun.lines), self@.current, i + 1, 0);
        }
        if role == Role::Semicolon || role == Role::Begin || role == Role::Opener || (role
            == Role::Of && roles[self.current[0]] == Role::Case) {
            self.end_line();
        }
    }
}

/// A part of the range below `n` holds positions below `n`.
proof fn lemma_range_member(front: Seq<int>, back: Seq<int>, n: int, j: int)
    requires
        n >= 0,
        front + back == range(n),
        0 <= j < back.len(),
    ensures
        0 <= back[j] < n,
{
    assert((front + back).len() == n);
    assert((front + back)[front.len() + j] == back[j]);
}

/// The logical lines of a token sequence with the given roles.
pub fn build_lines(roles: &Vec<Role>) -> (lines: Vec<LogicalLine>)
    ensures
        line_views(lines@) == logical_lines(roles@),
        well_formed(line_views(lines@), roles.len() as int),
{
    let mut builder = Builder::start();
    let mut i: usize = 0;
    while i < roles.len()
        invariant
            i <= roles.len(),
            builder@ == Pass::behind(roles@, i as nat),
        decreases roles.len() - i,
    {
        proof {
            lemma_behind_sound(roles@, i as nat);
        }
        builder.step(roles, i);
        i += 1;
    }
    builder.end_line();
    proof {
        lemma_lines_well_formed(roles@);
    }
    builder.lines
}

} // verus!
