//! Views of a parse for the eye: parsers with fixed switches, and listings of tokens and
//! of logical lines as text.

use vstd::prelude::*;
use vstd::string::*;
use crate::defaults::parser::DelphiLogicalLineParser;
use crate::lexer::{tokens_of, DelphiLexer};
use crate::lines::{flatten, line_views, logical_lines, well_formed, LineView, LogicalLine};
use crate::role::roles_of;
use crate::token::{token_views, Token, TokenView};
use crate::traits::LogicalLineParser;

verus! {

/// The parser that wraps the branches of `if` and nothing else.
pub open spec fn if_wrapper() -> DelphiLogicalLineParser {
    DelphiLogicalLineParser {
        wrap_single_statement_if: true,
        wrap_single_statement_for: false,
        wrap_single_statement_while: false,
    }
}

/// The parser that wraps the bodies of `for` and `while` and nothing else.
pub open spec fn loop_wrapper() -> DelphiLogicalLineParser {
    DelphiLogicalLineParser {
        wrap_single_statement_if: false,
        wrap_single_statement_for: true,
        wrap_single_statement_while: true,
    }
}

/// The parser that wraps whatever it can.
pub open spec fn all_wrapper() -> DelphiLogicalLineParser {
    DelphiLogicalLineParser {
        wrap_single_statement_if: true,
        wrap_single_statement_for: true,
        wrap_single_statement_while: true,
    }
}

/// Lexes the text and parses it, wrapping the branches of `if` and nothing else.
pub fn parse_with_if_wrap(input: &str) -> (parsed: (Vec<LogicalLine>, Vec<Token>))
    ensures
        token_views(parsed.1@) == if_wrapper().wrap_tokens(tokens_of(input@)),
        line_views(parsed.0@) == logical_lines(roles_of(token_views(parsed.1@))),
        well_formed(line_views(parsed.0@), parsed.1.len() as int),
{
    let lexer = DelphiLexer {  };
    let tokens = lexer.lex(input);
    let parser = DelphiLogicalLineParser {
        wrap_single_statement_if: true,
        wrap_single_statement_for: false,
        wrap_single_statement_while: false,
    };
    parser.parse(tokens)
}

/// Lexes the text and parses it, wrapping the bodies of `for` and `while` and nothing
/// else.
pub fn parse_with_loop_wrap(input: &str) -> (parsed: (Vec<LogicalLine>, Vec<Token>))
    ensures
        token_views(parsed.1@) == loop_wrapper().wrap_tokens(tokens_of(input@)),
        line_views(parsed.0@) == logical_lines(roles_of(token_views(parsed.1@))),
        well_formed(line_views(parsed.0@), parsed.1.len() as int),
{
    let lexer = DelphiLexer {  };
    let tokens = lexer.lex(input);
    let parser = DelphiLogicalLineParser {
        wrap_single_statement_if: false,
        wrap_single_statement_for: true,
        wrap_single_statement_while: true,
    };
    parser.parse(tokens)
}

/// Lexes the text and parses it, wrapping whatever can be wrapped.
pub fn parse_with_all_wrap(input: &str) -> (parsed: (Vec<LogicalLine>, Vec<Token>))
    ensures
        token_views(parsed.1@) == all_wrapper().wrap_tokens(tokens_of(input@)),
        line_views(parsed.0@) == logical_lines(roles_of(token_views(parsed.1@))),
        well_formed(line_views(parsed.0@), parsed.1.len() as int),
{
    let lexer = DelphiLexer {  };
    let tokens = lexer.lex(input);
    let parser = DelphiLogicalLineParser {
        wrap_single_statement_if: true,
        wrap_single_statement_for: true,
        wrap_single_statement_while: true,
    };
    parser.parse(tokens)
}

/// The ten digits as characters.
pub open spec fn digit_char(d: int) -> char {
    if d == 0 {
        '0'
    } else if d == 1 {
        '1'
    } else if d == 2 {
        '2'
    } else if d == 3 {
        '3'
    } else if d == 4 {
        '4'
    } else if d == 5 {
        '5'
    } else if d == 6 {
        '6'
    } else if d == 7 {
        '7'
    } else if d == 8 {
        '8'
    } else {
        '9'
    }
}

/// The number in decimal digits, without leading zeros.
pub open spec fn decimal(n: nat) -> Seq<char>
    decreases n,
{
    if n < 10 {
        seq![digit_char(n as int)]
    } else {
        decimal(n / 10).push(digit_char((n % 10) as int))
    }
}

/// `n` times two blanks.
pub open spec fn indent(n: nat) -> Seq<char>
    decreases n,
{
    if n == 0 {
        seq![]
    } else {
        indent((n - 1) as nat) + seq![' ', ' ']
    }
}

/// The contents of the tokens at the first `n` of the positions, parted by single blanks.
pub open spec fn joined(tokens: Seq<TokenView>, positions: Seq<int>, n: int) -> Seq<char>
    decreases n,
{
    if n <= 0 {
        seq![]
    } else if n == 1 {
        tokens[positions[0]].content
    } else {
        joined(tokens, positions, n - 1) + seq![' '] + tokens[positions[n - 1]].content
    }
}

/// The line at `i` as text: its number, its level in brackets, and its tokens, indented
/// by its level.
pub open spec fn listed_line(tokens: Seq<TokenView>, lines: Seq<LineView>, i: int) -> Seq<char> {
    seq!['L'] + decimal(i as nat) + seq!['('] + decimal(lines[i].level) + seq![')', ':', ' ']
        + indent(lines[i].level) + joined(tokens, lines[i].tokens, lines[i].tokens.len() as int)
        + seq!['\n']
}

/// The first `n` lines as text, one behind the other.
pub open spec fn listed(tokens: Seq<TokenView>, lines: Seq<LineView>, n: int) -> Seq<char>
    decreases n,
{
    if n <= 0 {
        seq![]
    } else {
        listed(tokens, lines, n - 1) + listed_line(tokens, lines, n - 1)
    }
}

/// The contents of the first `n` tokens, a blank behind each.
pub open spec fn spelled(tokens: Seq<TokenView>, n: int) -> Seq<char>
    decreases n,
{
    if n <= 0 {
        seq![]
    } else {
        spelled(tokens, n - 1) + tokens[n - 1].content + seq![' ']
    }
}

/// The digit as text.
fn digit_text(d: usize) -> (text: &'static str)
    requires
        d < 10,
    ensures
        text@ == seq![digit_char(d as int)],
{
    proof {
        reveal_strlit("0");
        reveal_strlit("1");
        reveal_strlit("2");
        reveal_strlit("3");
        reveal_strlit("4");
        reveal_strlit("5");
        reveal_strlit("6");
        reveal_strlit("7");
        reveal_strlit("8");
        reveal_strlit("9");
    }
    let text = if d == 0 {
        "0"
    } else if d == 1 {
        "1"
    } else if d == 2 {
        "2"
    } else if d == 3 {
        "3"
    } else if d == 4 {
        "4"
    } else if d == 5 {
        "5"
    } else if d == 6 {
        "6"
    } else if d == 7 {
        "7"
    } else if d == 8 {
        "8"
    } else {
        "9"
    };
    assert(text@ =~= seq![digit_char(d as int)]);
    text
}

/// Appends the number in decimal digits to the text.
fn append_decimal(text: &mut String, n: usize)
    ensures
        final(text)@ == old(text)@ + decimal(n as nat),
    decreases n,
{
    if n < 10 {
        text.append(digit_text(n));
    } else {
        append_decimal(text, n / 10);
        text.append(digit_text(n % 10));
        assert(text@ =~= old(text)@ + decimal(n as nat));
    }
}

/// The contents of the tokens, a blank behind each.
pub fn spell(tokens: &[Token]) -> (text: String)
    ensures
        text@ == spelled(token_views(tokens@), tokens.len() as int),
{
    let mut text = String::new();
    let mut i: usize = 0;
    while i < tokens.len()
        invariant
            i <= tokens.len(),
            text@ == spelled(token_views(tokens@), i as int),
        decreases tokens.len() - i,
    {
        text.append(tokens[i].get_content());
        text.append(" ");
        proof {
            reveal_strlit(" ");
            assert(" "@ =~= seq![' ']);
        }
        i += 1;
    }
    text
}

/// Whether every line refers to tokens that exist.
pub open spec fn refer_to(lines: Seq<LineView>, tokens: int) -> bool {
    forall|i: int, j: int|
        0 <= i < lines.len() && 0 <= j < lines[i].tokens.len() ==> 0 <= #[trigger] lines[i].tokens[j]
            < tokens
}

/// Every token of every line is a token of the lines together.
proof fn lemma_flatten_holds(lines: Seq<LineView>, i: int, j: int)
    requires
        0 <= i < lines.len(),
        0 <= j < lines[i].tokens.len(),
    ensures
        exists|at: int| 0 <= at < flatten(lines).len() && flatten(lines)[at] == lines[i].tokens[j],
    decreases lines.len(),
{
    let front = lines.drop_last();
    if i == lines.len() - 1 {
        let at = flatten(front).len() + j;
        assert(flatten(lines)[at] == lines[i].tokens[j]);
    } else {
        lemma_flatten_holds(front, i, j);
        let at = choose|at: int|
            0 <= at < flatten(front).len() && flatten(front)[at] == front[i].tokens[j];
        assert(flatten(lines)[at] == lines[i].tokens[j]);
    }
}

/// Well-formed lines refer to tokens that exist: the lines that the parser hands out can
/// be listed with the tokens that it hands out.
pub proof fn lemma_well_formed_lines_refer_to_tokens(lines: Seq<LineView>, n: int)
    requires
        well_formed(lines, n),
    ensures
        refer_to(lines, n),
{
    assert forall|i: int, j: int|
        0 <= i < lines.len() && 0 <= j < lines[i].tokens.len() implies 0
        <= #[trigger] lines[i].tokens[j] < n by {
        lemma_flatten_holds(lines, i, j);
    }
}

/// The logical lines as text, for each line its number, its level and its tokens: the
/// contents of the tokens parted by blanks and indented by two blanks for each level.
pub fn reconstruct(lines: &[LogicalLine], tokens: &[Token]) -> (text: String)
    requires
        refer_to(line_views(lines@), tokens.len() as int),
    ensures
        text@ == listed(token_views(tokens@), line_views(lines@), lines.len() as int),
{
    let ghost all = token_views(tokens@);
    let ghost views = line_views(lines@);
    let mut text = String::new();
    let mut i: usize = 0;
    while i < lines.len()
        invariant
            i <= lines.len(),
            all == token_views(tokens@),
            views == line_views(lines@),
            refer_to(views, tokens.len() as int),
            text@ == listed(all, views, i as int),
        decreases lines.len() - i,
    {
        let ghost before = text@;
        let line = &lines[i];
        let level = line.get_level();
        let positions = line.get_tokens();
        assert(views[i as int] == line@);
        proof {
            reveal_strlit("L");
            reveal_strlit("(");
            reveal_strlit("): ");
            reveal_strlit("  ");
            reveal_strlit(" ");
            reveal_strlit("\n");
        }
        text.append("L");
        append_decimal(&mut text, i);
        text.append("(");
        append_decimal(&mut text, level);
        text.append("): ");
        assert(text@ =~= before + seq!['L'] + decimal(i as nat) + seq!['('] + decimal(
            level as nat,
        ) + seq![')', ':', ' ']);
        let ghost headed = text@;
        let mut depth: usize = 0;
        while depth < level
            invariant
                depth <= level,
                text@ == headed + indent(depth as nat),
            decreases level - depth,
        {
            text.append("  ");
            proof {
                reveal_strlit("  ");
                assert(text@ =~= headed + indent((depth + 1) as nat));
            }
            depth += 1;
        }
        let ghost indented = text@;
        assert forall|k: int| 0 <= k < positions.len() implies (#[trigger] positions[k])
            < tokens.len() && line@.tokens[k] == positions[k] as int by {
            assert(views[i as int].tokens[k] == positions[k] as int);
        }
        let mut j: usize = 0;
        while j < positions.len()
            invariant
                j <= positions.len(),
                all == token_views(tokens@),
                line@.tokens.len() == positions.len(),
                forall|k: int| 0 <= k < positions.len() ==> line@.tokens[k] == positions[k] as int,
                forall|k: int| 0 <= k < positions.len() ==> (#[trigger] positions[k]) < tokens.len(),
                text@ == indented + joined(all, line@.tokens, j as int),
            decreases positions.len() - j,
        {
            if j > 0 {
                text.append(" ");
            }
            text.append(tokens[positions[j]].get_content());
            proof {
                reveal_strlit(" ");
                assert(text@ =~= indented + joined(all, line@.tokens, j + 1));
            }
            j += 1;
        }
        text.append("\n");
        assert(text@ =~= before + listed_line(all, views, i as int));
        i += 1;
    }
    text
}

} // verus!
